//! Flow matrices: bounds on how many tokens can travel between states along
//! a word, with `Omega` standing for arbitrarily many.
use vstd::prelude::*;

use crate::coef::Coef;
use crate::coef::COEF_CAP;
use crate::ideal::fin_bounded;
use crate::ideal::Ideal;

verus! {

/// The entry at row `i`, column `j` of a row-major entry sequence with
/// `cols` columns.
pub open spec fn mat_at(s: Seq<Coef>, cols: int, i: int, j: int) -> Coef {
    s[i * cols + j]
}

/// The `(max, min)` product entry over the first `j` intermediate states of
/// square matrices of dimension `dim`.
pub open spec fn sprod_acc(a: Seq<Coef>, b: Seq<Coef>, dim: int, i: int, k: int, j: int) -> Coef
    decreases j,
{
    if j <= 0 {
        Coef::Value(0)
    } else {
        sprod_acc(a, b, dim, i, k, j - 1).spec_max(
            mat_at(a, dim, i, j - 1).spec_min(mat_at(b, dim, j - 1, k)),
        )
    }
}

/// The `(max, min)` product entry: the largest capacity of a two-step
/// channel from `i` to `k`.
pub open spec fn sprod_entry(a: Seq<Coef>, b: Seq<Coef>, dim: int, i: int, k: int) -> Coef {
    sprod_acc(a, b, dim, i, k, dim)
}

/// The square of a matrix under the `(max, min)` product.
pub open spec fn ssquare(s: Seq<Coef>, dim: int) -> Seq<Coef> {
    Seq::new((dim * dim) as nat, |t: int| sprod_entry(s, s, dim, t / dim, t % dim))
}

/// Repeated squaring.
pub open spec fn spow2(s: Seq<Coef>, dim: int, n: nat) -> Seq<Coef>
    decreases n,
{
    if n == 0 {
        s
    } else {
        ssquare(spow2(s, dim, (n - 1) as nat), dim)
    }
}

/// The matrix is its own square.
pub open spec fn is_idem_seq(s: Seq<Coef>, dim: int) -> bool {
    ssquare(s, dim) == s
}

/// Some power of squares of the matrix is idempotent: repeated squaring
/// reaches a fixpoint.
pub open spec fn squaring_terminates(s: Seq<Coef>, dim: int) -> bool {
    exists|n: nat| is_idem_seq(#[trigger] spow2(s, dim, n), dim)
}

/// The iteration condition of the matrix `s` at ends `(x, t)`: a finite
/// positive channel whose ends are `Omega`-connected to `x` and `t`.
pub open spec fn sharp_cond(s: Seq<Coef>, dim: int, x: int, t: int) -> bool {
    exists|s0: int, t0: int|
        0 <= s0 < dim && 0 <= t0 < dim && ((#[trigger] mat_at(
            s,
            dim,
            s0,
            t0,
        )) matches Coef::Value(v) && v >= 1) && mat_at(s, dim, x, s0) is Omega && (#[trigger] mat_at(
            s,
            dim,
            t0,
            t,
        )) is Omega
}

/// A rectangular matrix of coefficients; `entries` stores the rows one
/// after the other.
#[derive(Debug)]
pub struct Flow {
    pub nb_rows: usize,
    pub nb_cols: usize,
    pub entries: Vec<Coef>,
}

/// Row-major index arithmetic stays inside the entry vector.
pub proof fn lemma_entry_index(rows: int, cols: int, i: int, j: int)
    requires
        0 <= i < rows,
        0 <= j < cols,
    ensures
        0 <= i * cols + j < rows * cols,
    decreases rows,
{
    if i == rows - 1 {
        assert(0 <= i * cols + j < rows * cols) by (nonlinear_arith)
            requires
                0 <= i,
                0 <= j < cols,
                i == rows - 1,
        ;
    } else {
        lemma_entry_index(rows - 1, cols, i, j);
        assert((rows - 1) * cols <= rows * cols - 1) by (nonlinear_arith)
            requires
                cols >= 1,
        ;
    }
}

/// Distinct positions have distinct row-major indices.
pub proof fn lemma_entry_index_ne(cols: int, a: int, b: int, i: int, j: int)
    requires
        0 <= b < cols,
        0 <= j < cols,
        !(a == i && b == j),
    ensures
        a * cols + b != i * cols + j,
{
    if a == i {
    } else {
        assert(a * cols + b != i * cols + j) by (nonlinear_arith)
            requires
                0 <= b < cols,
                0 <= j < cols,
                a != i,
        ;
    }
}

/// Row-major decomposition is unique.
pub proof fn lemma_entry_index_inv(cols: int, t: int, i: int, j: int)
    requires
        cols > 0,
        0 <= j < cols,
        t == i * cols + j,
        0 <= i,
    ensures
        t / cols == i,
        t % cols == j,
{
    assert(t / cols == i && t % cols == j) by (nonlinear_arith)
        requires
            cols > 0,
            0 <= j < cols,
            t == i * cols + j,
            0 <= i,
    ;
}

impl Clone for Flow {
    fn clone(&self) -> (r: Self)
        ensures
            r.nb_rows == self.nb_rows,
            r.nb_cols == self.nb_cols,
            r.entry_seq() == self.entry_seq(),
    {
        Flow {
            nb_rows: self.nb_rows,
            nb_cols: self.nb_cols,
            entries: crate::ideal::clone_coef_vec(&self.entries),
        }
    }
}

impl PartialEq for Flow {
    fn eq(&self, other: &Self) -> (r: bool) {
        self.nb_rows == other.nb_rows && self.nb_cols == other.nb_cols && crate::ideal::coef_vec_eq(
            &self.entries,
            &other.entries,
        )
    }
}

impl Eq for Flow {

}

impl vstd::std_specs::cmp::PartialEqSpecImpl for Flow {
    open spec fn obeys_eq_spec() -> bool {
        true
    }

    open spec fn eq_spec(&self, other: &Self) -> bool {
        self.nb_rows == other.nb_rows && self.nb_cols == other.nb_cols && self.entry_seq()
            == other.entry_seq()
    }
}

impl Flow {
    pub open spec fn entry_seq(&self) -> Seq<Coef> {
        self.entries@
    }

    /// The matrix has as many entries as its shape promises, and its shape
    /// is degenerate only when empty.
    pub open spec fn wf(&self) -> bool {
        self.entry_seq().len() == self.nb_rows * self.nb_cols && (self.nb_rows == 0
            <==> self.nb_cols == 0)
    }

    pub open spec fn at(&self, i: int, j: int) -> Coef {
        mat_at(self.entry_seq(), self.nb_cols as int, i, j)
    }

    /// Every finite entry is at most `b`.
    pub open spec fn bounded(&self, b: int) -> bool {
        fin_bounded(self.entry_seq(), b)
    }

    /// Componentwise order between two matrices of one shape.
    pub open spec fn spec_le(&self, other: &Flow) -> bool {
        self.nb_rows == other.nb_rows && self.nb_cols == other.nb_cols
            && crate::ideal::seq_le(self.entry_seq(), other.entry_seq())
    }

    pub fn from_entries(nb_rows: usize, nb_cols: usize, entries: Vec<Coef>) -> (r: Flow)
        requires
            (nb_rows == 0 && nb_cols == 0) || (nb_rows > 0 && nb_cols > 0),
            entries@.len() == nb_rows * nb_cols,
        ensures
            r.wf(),
            r.nb_rows == nb_rows,
            r.nb_cols == nb_cols,
            r.entry_seq() == entries@,
    {
        Flow { nb_rows, nb_cols, entries }
    }

    pub fn is_square(&self) -> (r: bool)
        ensures
            r == (self.nb_rows == self.nb_cols),
    {
        self.nb_rows == self.nb_cols
    }

    pub fn get(&self, i: &usize, j: &usize) -> (r: Coef)
        requires
            self.wf(),
            *i < self.nb_rows,
            *j < self.nb_cols,
        ensures
            r == self.at(*i as int, *j as int),
    {
        let n = self.entries.len();
        proof {
            lemma_entry_index(self.nb_rows as int, self.nb_cols as int, *i as int, *j as int);
            assert((*i as int) * (self.nb_cols as int) + (*j as int) < n);
        }
        self.entries[i * self.nb_cols + j]
    }

    pub fn set(&mut self, i: &usize, j: &usize, c: Coef)
        requires
            old(self).wf(),
            *i < old(self).nb_rows,
            *j < old(self).nb_cols,
        ensures
            final(self).wf(),
            final(self).nb_rows == old(self).nb_rows,
            final(self).nb_cols == old(self).nb_cols,
            final(self).at(*i as int, *j as int) == c,
            forall|a: int, b: int|
                0 <= a < old(self).nb_rows && 0 <= b < old(self).nb_cols && !(a == *i as int && b
                    == *j as int) ==> final(self).at(a, b) == old(self).at(a, b),
            final(self).entry_seq() == old(self).entry_seq().update(
                (*i as int) * (old(self).nb_cols as int) + (*j as int),
                c,
            ),
            forall|bd: int|
                old(self).bounded(bd) && (c matches Coef::Value(v) ==> v <= bd)
                    ==> final(self).bounded(bd),
    {
        let n = self.entries.len();
        proof {
            lemma_entry_index(self.nb_rows as int, self.nb_cols as int, *i as int, *j as int);
            assert((*i as int) * (old(self).nb_cols as int) + (*j as int) < n);
        }
        self.entries.set(i * self.nb_cols + j, c);
        proof {
            assert forall|a: int, b: int|
                0 <= a < self.nb_rows && 0 <= b < self.nb_cols && !(a == *i as int && b
                    == *j as int) implies self.at(a, b) == old(self).at(a, b) by {
                lemma_entry_index(self.nb_rows as int, self.nb_cols as int, a, b);
                lemma_entry_index_ne(self.nb_cols as int, a, b, *i as int, *j as int);
            }
            assert forall|bd: int|
                old(self).bounded(bd) && (c matches Coef::Value(v) ==> v <= bd) implies self.bounded(
                bd,
            ) by {
                assert forall|x: int|
                    0 <= x < self.entry_seq().len() implies ((#[trigger] self.entry_seq()[x]) matches Coef::Value(
                    v2,
                ) && v2 <= bd || self.entry_seq()[x] is Omega) by {
                    if x != (*i as int) * (old(self).nb_cols as int) + (*j as int) {
                        assert(self.entry_seq()[x] == old(self).entry_seq()[x]);
                        assert(old(self).entry_seq()[x] matches Coef::Value(v2) && v2 <= bd || old(
                            self,
                        ).entry_seq()[x] is Omega);
                    }
                }
            }
        }
    }

    /// Whether this flow is componentwise below the other.
    pub fn is_below(&self, other: &Flow) -> (r: bool)
        requires
            self.wf(),
            other.wf(),
        ensures
            r == self.spec_le(other),
    {
        if self.nb_rows != other.nb_rows || self.nb_cols != other.nb_cols {
            return false;
        }
        let r = crate::ideal::coef_vec_le(&self.entries, &other.entries);
        r
    }

    /// Componentwise saturating sum with another flow of one shape.
    pub fn add_other(&mut self, x: &Flow)
        requires
            old(self).nb_rows == x.nb_rows,
            old(self).nb_cols == x.nb_cols,
            old(self).entry_seq().len() == x.entry_seq().len(),
            forall|t: int|
                0 <= t < x.entry_seq().len() ==> #[trigger] old(self).entry_seq()[t].add_ok(
                    x.entry_seq()[t],
                ),
        ensures
            final(self).nb_rows == old(self).nb_rows,
            final(self).nb_cols == old(self).nb_cols,
            final(self).entry_seq().len() == old(self).entry_seq().len(),
            forall|t: int|
                0 <= t < final(self).entry_seq().len() ==> final(self).entry_seq()[t] == old(
                    self,
                ).entry_seq()[t].spec_add(x.entry_seq()[t]),
    {
        let mut t: usize = 0;
        while t < self.entries.len()
            invariant
                0 <= t <= self.entries@.len(),
                self.nb_rows == old(self).nb_rows,
                self.nb_cols == old(self).nb_cols,
                self.entries@.len() == old(self).entries@.len(),
                old(self).entries@.len() == x.entries@.len(),
                forall|q: int|
                    0 <= q < x.entries@.len() ==> #[trigger] old(self).entries@[q].add_ok(
                        x.entries@[q],
                    ),
                forall|q: int| t <= q < self.entries@.len() ==> self.entries@[q] == old(self).entries@[q],
                forall|q: int|
                    0 <= q < t ==> self.entries@[q] == old(self).entries@[q].spec_add(
                        x.entries@[q],
                    ),
            decreases self.entries@.len() - t,
        {
            let c = self.entries[t].add(x.entries[t]);
            self.entries.set(t, c);
            t = t + 1;
        }
    }

    /// The `(max, min)` product of two square flows of one dimension.
    pub fn product(&self, other: &Flow) -> (r: Flow)
        requires
            self.wf(),
            other.wf(),
            self.nb_rows == self.nb_cols,
            other.nb_rows == other.nb_cols,
            self.nb_rows == other.nb_rows,
        ensures
            r.wf(),
            r.nb_rows == self.nb_rows,
            r.nb_cols == self.nb_cols,
            forall|i: int, k: int|
                0 <= i < r.nb_rows && 0 <= k < r.nb_rows ==> #[trigger] r.at(i, k) == sprod_entry(
                    self.entry_seq(),
                    other.entry_seq(),
                    self.nb_rows as int,
                    i,
                    k,
                ),
            r.entry_seq() == ssquare_of(
                self.entry_seq(),
                other.entry_seq(),
                self.nb_rows as int,
            ),
            forall|b: int|
                self.bounded(b) && other.bounded(b) && b >= 0 ==> r.bounded(b),
    {
        let dim = self.nb_rows;
        let ghost a = self.entries@;
        let ghost bb = other.entries@;
        let mut entries: Vec<Coef> = Vec::new();
        let mut i: usize = 0;
        while i < dim
            invariant
                0 <= i <= dim,
                self.wf(),
                other.wf(),
                self.nb_rows == dim,
                self.nb_cols == dim,
                other.nb_rows == dim,
                other.nb_cols == dim,
                a == self.entries@,
                bb == other.entries@,
                entries@.len() == i * dim,
                forall|t: int|
                    0 <= t < entries@.len() ==> #[trigger] entries@[t] == sprod_entry(
                        a,
                        bb,
                        dim as int,
                        t / (dim as int),
                        t % (dim as int),
                    ),
            decreases dim - i,
        {
            let mut k: usize = 0;
            while k < dim
                invariant
                    0 <= k <= dim,
                    0 <= i < dim,
                    self.wf(),
                    other.wf(),
                    self.nb_rows == dim,
                    self.nb_cols == dim,
                    other.nb_rows == dim,
                    other.nb_cols == dim,
                    a == self.entries@,
                    bb == other.entries@,
                    entries@.len() == i * dim + k,
                    forall|t: int|
                        0 <= t < entries@.len() ==> #[trigger] entries@[t] == sprod_entry(
                            a,
                            bb,
                            dim as int,
                            t / (dim as int),
                            t % (dim as int),
                        ),
                decreases dim - k,
            {
                let mut acc = Coef::Value(0);
                let mut j: usize = 0;
                while j < dim
                    invariant
                        0 <= j <= dim,
                        0 <= i < dim,
                        0 <= k < dim,
                        self.wf(),
                        other.wf(),
                        self.nb_rows == dim,
                        self.nb_cols == dim,
                        other.nb_rows == dim,
                        other.nb_cols == dim,
                        a == self.entries@,
                        bb == other.entries@,
                        acc == sprod_acc(a, bb, dim as int, i as int, k as int, j as int),
                    decreases dim - j,
                {
                    let x = self.get(&i, &j);
                    let y = other.get(&j, &k);
                    acc = acc.max(x.min(y));
                    j = j + 1;
                }
                proof {
                    lemma_entry_index(dim as int, dim as int, i as int, k as int);
                    lemma_entry_index_inv(
                        dim as int,
                        i as int * dim as int + k as int,
                        i as int,
                        k as int,
                    );
                }
                entries.push(acc);
                k = k + 1;
            }
            proof {
                assert(i as int * dim + dim == (i + 1) * dim) by (nonlinear_arith);
            }
            i = i + 1;
        }
        proof {
            assert(entries@.len() == dim * dim) by (nonlinear_arith)
                requires
                    entries@.len() == i * dim,
                    i == dim,
            ;
        }
        let r = Flow { nb_rows: dim, nb_cols: dim, entries };
        proof {
            reveal(ssquare_of);
            assert(r.entry_seq() =~= ssquare_of(a, bb, dim as int));
            assert forall|i2: int, k2: int|
                0 <= i2 < dim && 0 <= k2 < dim implies #[trigger] r.at(i2, k2) == sprod_entry(
                a,
                bb,
                dim as int,
                i2,
                k2,
            ) by {
                lemma_entry_index(dim as int, dim as int, i2, k2);
                lemma_entry_index_inv(dim as int, i2 * dim + k2, i2, k2);
            }
            assert forall|b: int|
                self.bounded(b) && other.bounded(b) && b >= 0 implies r.bounded(b) by {
                assert forall|t: int|
                    0 <= t < r.entry_seq().len() implies ((#[trigger] r.entry_seq()[t]) matches Coef::Value(v)
                    && v <= b || r.entry_seq()[t] is Omega) by {
                    assert(0 <= t / (dim as int) < dim && 0 <= t % (dim as int) < dim)
                        by (nonlinear_arith)
                        requires
                            0 <= t < dim * dim,
                            dim > 0,
                    ;
                    lemma_sprod_acc_bounded(
                        a,
                        bb,
                        dim as int,
                        t / (dim as int),
                        t % (dim as int),
                        dim as int,
                        b,
                    );
                }
            }
        }
        r
    }

    /// Whether the flow equals its own `(max, min)` square.
    pub fn is_idempotent(&self) -> (r: bool)
        requires
            self.wf(),
            self.nb_rows == self.nb_cols,
        ensures
            r == is_idem_seq(self.entry_seq(), self.nb_rows as int),
    {
        let sq = self.product(self);
        let r = crate::ideal::coef_vec_eq(sq.entries_ref(), &self.entries);
        proof {
            lemma_ssquare_of_self(self.entry_seq(), self.nb_rows as int);
            if r {
                assert(ssquare(self.entry_seq(), self.nb_rows as int) =~= self.entry_seq());
            } else {
                assert(sq.entry_seq() == ssquare(self.entry_seq(), self.nb_rows as int));
            }
        }
        r
    }

    /// Access to the raw entries.
    pub fn entries_ref(&self) -> (r: &Vec<Coef>)
        ensures
            r@ == self.entry_seq(),
    {
        &self.entries
    }

    /// Square the flow repeatedly until it is idempotent.
    pub fn idempotent(&self) -> (r: Flow)
        requires
            self.wf(),
            self.nb_rows == self.nb_cols,
            squaring_terminates(self.entry_seq(), self.nb_rows as int),
        ensures
            r.wf(),
            r.nb_rows == self.nb_rows,
            r.nb_cols == self.nb_cols,
            is_idem_seq(r.entry_seq(), r.nb_rows as int),
            exists|n: nat|
                r.entry_seq() == spow2(self.entry_seq(), self.nb_rows as int, n),
            is_idem_seq(self.entry_seq(), self.nb_rows as int) ==> r.entry_seq()
                == self.entry_seq(),
            forall|b: int| self.bounded(b) && b >= 0 ==> r.bounded(b),
    {
        let dim = self.nb_rows;
        let ghost s0 = self.entry_seq();
        let ghost n0 = choose|n: nat| is_idem_seq(#[trigger] spow2(s0, dim as int, n), dim as int);
        let ghost k0 = lemma_min_idem(s0, dim as int, n0);
        let mut cur = self.clone();
        let ghost mut step: nat = 0;
        loop
            invariant
                cur.wf(),
                cur.nb_rows == dim,
                cur.nb_cols == dim,
                dim == self.nb_rows,
                dim == self.nb_cols,
                self.wf(),
                step <= k0,
                cur.entry_seq() == spow2(s0, dim as int, step),
                s0 == self.entry_seq(),
                is_idem_seq(spow2(s0, dim as int, k0), dim as int),
                forall|m: nat| m < k0 ==> !is_idem_seq(#[trigger] spow2(s0, dim as int, m), dim as int),
                forall|b: int| self.bounded(b) && b >= 0 ==> cur.bounded(b),
            decreases k0 - step,
        {
            let sq = cur.product(&cur);
            let same = crate::ideal::coef_vec_eq(sq.entries_ref(), cur.entries_ref());
            proof {
                lemma_ssquare_of_self(cur.entry_seq(), dim as int);
            }
            if same {
                proof {
                    assert(ssquare(cur.entry_seq(), dim as int) =~= cur.entry_seq());
                    assert(is_idem_seq(cur.entry_seq(), dim as int));
                    if is_idem_seq(s0, dim as int) {
                        assert(spow2(s0, dim as int, 0) == s0);
                        assert(!(0 < k0));
                        assert(step == 0);
                    }
                }
                return cur;
            }
            proof {
                assert(sq.entry_seq() == ssquare(cur.entry_seq(), dim as int));
                assert(!is_idem_seq(cur.entry_seq(), dim as int));
                assert(step < k0);
                assert(sq.entry_seq() == spow2(s0, dim as int, step + 1));
                step = step + 1;
            }
            cur = sq;
        }
    }

    /// The iteration of the flow: wherever a finite positive channel of
    /// this flow connects `Omega`-reachable ends, the idempotent closure
    /// gains an `Omega`; everywhere else it is kept.
    pub fn iteration(&self) -> (r: Flow)
        requires
            self.wf(),
            self.nb_rows == self.nb_cols,
            squaring_terminates(self.entry_seq(), self.nb_rows as int),
        ensures
            r.wf(),
            r.nb_rows == self.nb_rows,
            r.nb_cols == self.nb_cols,
            exists|n: nat|
                {
                    let e = #[trigger] spow2(self.entry_seq(), self.nb_rows as int, n);
                    is_idem_seq(e, self.nb_rows as int) && forall|x: int, t: int|
                        0 <= x < self.nb_rows && 0 <= t < self.nb_rows ==> #[trigger] r.at(x, t)
                            == if sharp_cond(self.entry_seq(), self.nb_rows as int, x, t) {
                            Coef::Omega
                        } else {
                            mat_at(e, self.nb_rows as int, x, t)
                        }
                },
            is_idem_seq(self.entry_seq(), self.nb_rows as int) ==> forall|x: int, t: int|
                0 <= x < self.nb_rows && 0 <= t < self.nb_rows ==> #[trigger] r.at(x, t)
                    == if sharp_cond(self.entry_seq(), self.nb_rows as int, x, t) {
                    Coef::Omega
                } else {
                    self.at(x, t)
                },
    {
        let dim = self.nb_rows;
        let e = self.idempotent();
        let ghost n = choose|n: nat|
            e.entry_seq() == spow2(self.entry_seq(), dim as int, n);
        let ghost eseq = e.entry_seq();
        let mut result = e.clone();
        let mut x: usize = 0;
        while x < dim
            invariant
                0 <= x <= dim,
                self.wf(),
                dim == self.nb_rows,
                dim == self.nb_cols,
                e.wf(),
                e.nb_rows == dim,
                e.nb_cols == dim,
                eseq == e.entry_seq(),
                result.wf(),
                result.nb_rows == dim,
                result.nb_cols == dim,
                forall|x2: int, t2: int|
                    0 <= x2 < x && 0 <= t2 < dim ==> #[trigger] result.at(x2, t2) == if sharp_cond(
                        self.entry_seq(),
                        dim as int,
                        x2,
                        t2,
                    ) {
                        Coef::Omega
                    } else {
                        mat_at(eseq, dim as int, x2, t2)
                    },
                forall|x2: int, t2: int|
                    x <= x2 < dim && 0 <= t2 < dim ==> #[trigger] result.at(x2, t2) == mat_at(
                        eseq,
                        dim as int,
                        x2,
                        t2,
                    ),
            decreases dim - x,
        {
            let mut t: usize = 0;
            while t < dim
                invariant
                    0 <= t <= dim,
                    0 <= x < dim,
                    self.wf(),
                    dim == self.nb_rows,
                    dim == self.nb_cols,
                    e.wf(),
                    e.nb_rows == dim,
                    e.nb_cols == dim,
                    eseq == e.entry_seq(),
                    result.wf(),
                    result.nb_rows == dim,
                    result.nb_cols == dim,
                    forall|x2: int, t2: int|
                        0 <= x2 < x && 0 <= t2 < dim ==> #[trigger] result.at(x2, t2)
                            == if sharp_cond(self.entry_seq(), dim as int, x2, t2) {
                            Coef::Omega
                        } else {
                            mat_at(eseq, dim as int, x2, t2)
                        },
                    forall|t2: int|
                        0 <= t2 < t ==> #[trigger] result.at(x as int, t2) == if sharp_cond(
                            self.entry_seq(),
                            dim as int,
                            x as int,
                            t2,
                        ) {
                            Coef::Omega
                        } else {
                            mat_at(eseq, dim as int, x as int, t2)
                        },
                    forall|t2: int|
                        t <= t2 < dim ==> #[trigger] result.at(x as int, t2) == mat_at(
                            eseq,
                            dim as int,
                            x as int,
                            t2,
                        ),
                    forall|x2: int, t2: int|
                        x < x2 < dim && 0 <= t2 < dim ==> #[trigger] result.at(x2, t2) == mat_at(
                            eseq,
                            dim as int,
                            x2,
                            t2,
                        ),
                decreases dim - t,
            {
                let hit = self.sharp_probe(x, t);
                if hit {
                    result.set(&x, &t, Coef::Omega);
                }
                t = t + 1;
            }
            x = x + 1;
        }
        proof {
            assert(is_idem_seq(eseq, dim as int));
        }
        result
    }

    /// Whether the iteration condition holds of this flow at `(x, t)`.
    fn sharp_probe(&self, x: usize, t: usize) -> (r: bool)
        requires
            self.wf(),
            self.nb_rows == self.nb_cols,
            x < self.nb_rows,
            t < self.nb_rows,
        ensures
            r == sharp_cond(self.entry_seq(), self.nb_rows as int, x as int, t as int),
    {
        let dim = self.nb_rows;
        let mut s0: usize = 0;
        while s0 < dim
            invariant
                0 <= s0 <= dim,
                self.wf(),
                self.nb_rows == self.nb_cols,
                dim == self.nb_rows,
                x < dim,
                t < dim,
                forall|a: int, b: int|
                    0 <= a < s0 && 0 <= b < dim ==> !(((#[trigger] mat_at(
                        self.entry_seq(),
                        dim as int,
                        a,
                        b,
                    )) matches Coef::Value(v) && v >= 1) && mat_at(
                        self.entry_seq(),
                        dim as int,
                        x as int,
                        a,
                    ) is Omega && mat_at(self.entry_seq(), dim as int, b, t as int) is Omega),
            decreases dim - s0,
        {
            let mut t0: usize = 0;
            while t0 < dim
                invariant
                    0 <= t0 <= dim,
                    0 <= s0 < dim,
                    self.wf(),
                    self.nb_rows == self.nb_cols,
                    dim == self.nb_rows,
                    x < dim,
                    t < dim,
                    forall|b: int|
                        0 <= b < t0 ==> !(((#[trigger] mat_at(
                            self.entry_seq(),
                            dim as int,
                            s0 as int,
                            b,
                        )) matches Coef::Value(v) && v >= 1) && mat_at(
                            self.entry_seq(),
                            dim as int,
                            x as int,
                            s0 as int,
                        ) is Omega && mat_at(self.entry_seq(), dim as int, b, t as int) is Omega),
                decreases dim - t0,
            {
                let c = self.get(&s0, &t0);
                let fin_pos = match c {
                    Coef::Value(v) => v >= 1,
                    Coef::Omega => false,
                };
                if fin_pos {
                    let left = match self.get(&x, &s0) {
                        Coef::Omega => true,
                        Coef::Value(_) => false,
                    };
                    let right = match self.get(&t0, &t) {
                        Coef::Omega => true,
                        Coef::Value(_) => false,
                    };
                    if left && right {
                        proof {
                            assert(sharp_cond(
                                self.entry_seq(),
                                dim as int,
                                x as int,
                                t as int,
                            ));
                        }
                        return true;
                    }
                }
                t0 = t0 + 1;
            }
            s0 = s0 + 1;
        }
        false
    }

    /// The pre-image of a set of target states: at each state, the
    /// saturating sum of what the flow carries into the targets.
    pub fn pre_image(&self, target: &Vec<usize>) -> (r: Ideal)
        requires
            self.wf(),
            forall|t: int| 0 <= t < target@.len() ==> #[trigger] target@[t] < self.nb_cols,
            self.bounded(COEF_CAP as int),
            target@.len() <= COEF_CAP,
        ensures
            r@.len() == self.nb_rows,
            forall|i: int|
                0 <= i < self.nb_rows ==> Coef::is_seq_sum(
                    #[trigger] r@[i],
                    Seq::new(target@.len(), |t: int| self.at(i, target@[t] as int)),
                ),
    {
        let mut coefs: Vec<Coef> = Vec::new();
        let mut i: usize = 0;
        while i < self.nb_rows
            invariant
                0 <= i <= self.nb_rows,
                self.wf(),
                self.bounded(COEF_CAP as int),
                target@.len() <= COEF_CAP,
                forall|t: int| 0 <= t < target@.len() ==> #[trigger] target@[t] < self.nb_cols,
                coefs@.len() == i,
                forall|i2: int|
                    0 <= i2 < i ==> Coef::is_seq_sum(
                        #[trigger] coefs@[i2],
                        Seq::new(target@.len(), |t: int| self.at(i2, target@[t] as int)),
                    ),
            decreases self.nb_rows - i,
        {
            let mut row: Vec<Coef> = Vec::new();
            let mut t: usize = 0;
            while t < target.len()
                invariant
                    0 <= t <= target@.len(),
                    0 <= i < self.nb_rows,
                    self.wf(),
                    self.bounded(COEF_CAP as int),
                    forall|q: int| 0 <= q < target@.len() ==> #[trigger] target@[q] < self.nb_cols,
                    row@ == Seq::new(t as nat, |q: int| self.at(i as int, target@[q] as int)),
                decreases target@.len() - t,
            {
                row.push(self.get(&i, &target[t]));
                proof {
                    assert(row@ =~= Seq::new(
                        (t + 1) as nat,
                        |q: int| self.at(i as int, target@[q] as int),
                    ));
                }
                t = t + 1;
            }
            proof {
                assert forall|q: int|
                    0 <= q < row@.len() implies (#[trigger] row@[q]).spec_value()
                    <= COEF_CAP as int by {
                    lemma_entry_index(
                        self.nb_rows as int,
                        self.nb_cols as int,
                        i as int,
                        target@[q] as int,
                    );
                }
                Coef::lemma_fin_sum_bound(row@, COEF_CAP as int);
                assert(row@.len() * (COEF_CAP as int) <= (COEF_CAP as int) * (COEF_CAP as int))
                    by (nonlinear_arith)
                    requires
                        row@.len() <= COEF_CAP as int,
                ;
            }
            let c = Coef::sum(&row);
            coefs.push(c);
            i = i + 1;
        }
        Ideal::from_vec(coefs)
    }

    /// The positive entries of column `j`, with their rows.
    pub fn edges_to(&self, j: usize) -> (r: Vec<(usize, Coef)>)
        requires
            self.wf(),
            j < self.nb_cols,
        ensures
            forall|t: int|
                0 <= t < r@.len() ==> (#[trigger] r@[t]).0 < self.nb_rows && r@[t].1 == self.at(
                    r@[t].0 as int,
                    j as int,
                ) && r@[t].1 != Coef::Value(0),
            forall|i: int|
                0 <= i < self.nb_rows && self.at(i, j as int) != Coef::Value(0) ==> r@.contains(
                    (i as usize, #[trigger] self.at(i, j as int)),
                ),
    {
        let mut r: Vec<(usize, Coef)> = Vec::new();
        let mut i: usize = 0;
        while i < self.nb_rows
            invariant
                0 <= i <= self.nb_rows,
                self.wf(),
                j < self.nb_cols,
                forall|t: int|
                    0 <= t < r@.len() ==> (#[trigger] r@[t]).0 < self.nb_rows && r@[t].1
                        == self.at(r@[t].0 as int, j as int) && r@[t].1 != Coef::Value(0),
                forall|i2: int|
                    0 <= i2 < i && self.at(i2, j as int) != Coef::Value(0) ==> r@.contains(
                        (i2 as usize, #[trigger] self.at(i2, j as int)),
                    ),
            decreases self.nb_rows - i,
        {
            let c = self.get(&i, &j);
            let keep = !(c == Coef::Value(0));
            let ghost pre = r@;
            if keep {
                r.push((i, c));
            }
            proof {
                assert forall|i2: int|
                    0 <= i2 < i + 1 && self.at(i2, j as int) != Coef::Value(0) implies r@.contains(
                    (i2 as usize, #[trigger] self.at(i2, j as int)),
                ) by {
                    if i2 < i {
                        assert(pre.contains((i2 as usize, self.at(i2, j as int))));
                        let w = choose|w: int|
                            0 <= w < pre.len() && #[trigger] pre[w] == (
                                i2 as usize,
                                self.at(i2, j as int),
                            );
                        assert(r@[w] == (i2 as usize, self.at(i2, j as int)));
                    } else {
                        assert(r@[pre.len() as int] == (i2 as usize, self.at(i2, j as int)));
                    }
                }
            }
            i = i + 1;
        }
        r
    }

    /// The positive entries of row `i`, with their columns.
    pub fn edges_from(&self, i: usize) -> (r: Vec<(usize, Coef)>)
        requires
            self.wf(),
            i < self.nb_rows,
        ensures
            forall|t: int|
                0 <= t < r@.len() ==> (#[trigger] r@[t]).0 < self.nb_cols && r@[t].1 == self.at(
                    i as int,
                    r@[t].0 as int,
                ) && r@[t].1 != Coef::Value(0),
            forall|j: int|
                0 <= j < self.nb_cols && self.at(i as int, j) != Coef::Value(0) ==> r@.contains(
                    (j as usize, #[trigger] self.at(i as int, j)),
                ),
    {
        let mut r: Vec<(usize, Coef)> = Vec::new();
        let mut j: usize = 0;
        while j < self.nb_cols
            invariant
                0 <= j <= self.nb_cols,
                self.wf(),
                i < self.nb_rows,
                forall|t: int|
                    0 <= t < r@.len() ==> (#[trigger] r@[t]).0 < self.nb_cols && r@[t].1
                        == self.at(i as int, r@[t].0 as int) && r@[t].1 != Coef::Value(0),
                forall|j2: int|
                    0 <= j2 < j && self.at(i as int, j2) != Coef::Value(0) ==> r@.contains(
                        (j2 as usize, #[trigger] self.at(i as int, j2)),
                    ),
            decreases self.nb_cols - j,
        {
            let c = self.get(&i, &j);
            let keep = !(c == Coef::Value(0));
            let ghost pre = r@;
            if keep {
                r.push((j, c));
            }
            proof {
                assert forall|j2: int|
                    0 <= j2 < j + 1 && self.at(i as int, j2) != Coef::Value(0) implies r@.contains(
                    (j2 as usize, #[trigger] self.at(i as int, j2)),
                ) by {
                    if j2 < j {
                        assert(pre.contains((j2 as usize, self.at(i as int, j2))));
                        let w = choose|w: int|
                            0 <= w < pre.len() && #[trigger] pre[w] == (
                                j2 as usize,
                                self.at(i as int, j2),
                            );
                        assert(r@[w] == (j2 as usize, self.at(i as int, j2)));
                    } else {
                        assert(r@[pre.len() as int] == (j2 as usize, self.at(i as int, j2)));
                    }
                }
            }
            j = j + 1;
        }
        r
    }

    /// The omega part of a product: `Omega` exactly on the all-`Omega`
    /// two-step channels, zero elsewhere.
    pub fn get_omega_entries(left: &Flow, right: &Flow) -> (r: Flow)
        requires
            left.wf(),
            right.wf(),
            left.nb_rows == left.nb_cols,
            right.nb_rows == right.nb_cols,
            left.nb_rows == right.nb_rows,
        ensures
            r.wf(),
            r.nb_rows == left.nb_rows,
            r.nb_cols == left.nb_cols,
            forall|i: int, k: int|
                0 <= i < r.nb_rows && 0 <= k < r.nb_rows ==> #[trigger] r.at(i, k) == (if exists|
                    j: int,
                |
                    0 <= j < r.nb_rows && (#[trigger] left.at(i, j)) is Omega && right.at(
                        j,
                        k,
                    ) is Omega {
                    Coef::Omega
                } else {
                    Coef::Value(0)
                }),
    {
        let dim = left.nb_rows;
        let mut entries: Vec<Coef> = Vec::new();
        let mut i: usize = 0;
        while i < dim
            invariant
                0 <= i <= dim,
                left.wf(),
                right.wf(),
                left.nb_rows == dim,
                left.nb_cols == dim,
                right.nb_rows == dim,
                right.nb_cols == dim,
                entries@.len() == i * dim,
                forall|t: int|
                    0 <= t < entries@.len() ==> #[trigger] entries@[t] == (if exists|j: int|
                        0 <= j < dim && (#[trigger] left.at(t / (dim as int), j)) is Omega
                            && right.at(j, t % (dim as int)) is Omega {
                        Coef::Omega
                    } else {
                        Coef::Value(0)
                    }),
            decreases dim - i,
        {
            let mut k: usize = 0;
            while k < dim
                invariant
                    0 <= k <= dim,
                    0 <= i < dim,
                    left.wf(),
                    right.wf(),
                    left.nb_rows == dim,
                    left.nb_cols == dim,
                    right.nb_rows == dim,
                    right.nb_cols == dim,
                    entries@.len() == i * dim + k,
                    forall|t: int|
                        0 <= t < entries@.len() ==> #[trigger] entries@[t] == (if exists|j: int|
                            0 <= j < dim && (#[trigger] left.at(t / (dim as int), j)) is Omega
                                && right.at(j, t % (dim as int)) is Omega {
                            Coef::Omega
                        } else {
                            Coef::Value(0)
                        }),
                decreases dim - k,
            {
                let mut hit: bool = false;
                let mut j: usize = 0;
                while j < dim
                    invariant
                        0 <= j <= dim,
                        0 <= i < dim,
                        0 <= k < dim,
                        left.wf(),
                        right.wf(),
                        left.nb_rows == dim,
                        left.nb_cols == dim,
                        right.nb_rows == dim,
                        right.nb_cols == dim,
                        hit == exists|j2: int|
                            0 <= j2 < j && (#[trigger] left.at(i as int, j2)) is Omega && right.at(
                                j2,
                                k as int,
                            ) is Omega,
                    decreases dim - j,
                {
                    if !hit {
                        let a = match left.get(&i, &j) {
                            Coef::Omega => true,
                            Coef::Value(_) => false,
                        };
                        let b = match right.get(&j, &k) {
                            Coef::Omega => true,
                            Coef::Value(_) => false,
                        };
                        if a && b {
                            hit = true;
                        }
                    } else {
                        proof {
                            let j2 = choose|j2: int|
                                0 <= j2 < j && (#[trigger] left.at(i as int, j2)) is Omega
                                    && right.at(j2, k as int) is Omega;
                        }
                    }
                    j = j + 1;
                }
                proof {
                    lemma_entry_index(dim as int, dim as int, i as int, k as int);
                    lemma_entry_index_inv(
                        dim as int,
                        i as int * dim as int + k as int,
                        i as int,
                        k as int,
                    );
                    if hit {
                        let j2 = choose|j2: int|
                            0 <= j2 < dim && (#[trigger] left.at(i as int, j2)) is Omega
                                && right.at(j2, k as int) is Omega;
                    }
                }
                entries.push(
                    if hit {
                        Coef::Omega
                    } else {
                        Coef::Value(0)
                    },
                );
                k = k + 1;
            }
            proof {
                assert(i as int * dim + dim == (i + 1) * dim) by (nonlinear_arith);
            }
            i = i + 1;
        }
        proof {
            assert(entries@.len() == dim * dim) by (nonlinear_arith)
                requires
                    entries@.len() == i * dim,
                    i == dim,
            ;
        }
        let r = Flow { nb_rows: dim, nb_cols: dim, entries };
        proof {
            assert forall|i2: int, k2: int|
                0 <= i2 < dim && 0 <= k2 < dim implies #[trigger] r.at(i2, k2) == (if exists|
                    j: int,
                |
                    0 <= j < dim && (#[trigger] left.at(i2, j)) is Omega && right.at(
                        j,
                        k2,
                    ) is Omega {
                    Coef::Omega
                } else {
                    Coef::Value(0)
                }) by {
                lemma_entry_index(dim as int, dim as int, i2, k2);
                lemma_entry_index_inv(dim as int, i2 * dim + k2, i2, k2);
            }
        }
        r
    }
}

/// The square is the two-operand product applied to one matrix twice.
pub proof fn lemma_ssquare_of_self(s: Seq<Coef>, dim: int)
    ensures
        ssquare_of(s, s, dim) == ssquare(s, dim),
{
    reveal(ssquare_of);
    assert(ssquare_of(s, s, dim) =~= ssquare(s, dim));
}

/// The product entries of two matrices (the square helper generalized to
/// two operands).
#[verifier::opaque]
pub open spec fn ssquare_of(a: Seq<Coef>, b: Seq<Coef>, dim: int) -> Seq<Coef> {
    Seq::new((dim * dim) as nat, |t: int| sprod_entry(a, b, dim, t / dim, t % dim))
}

/// The `(max, min)` accumulation keeps finite values within the operands'
/// bound.
proof fn lemma_sprod_acc_bounded(a: Seq<Coef>, b: Seq<Coef>, dim: int, i: int, k: int, j: int, bd: int)
    requires
        fin_bounded(a, bd),
        fin_bounded(b, bd),
        bd >= 0,
        a.len() == dim * dim,
        b.len() == dim * dim,
        0 <= i < dim,
        0 <= k < dim,
        0 <= j <= dim,
    ensures
        sprod_acc(a, b, dim, i, k, j) matches Coef::Value(v) && v <= bd || sprod_acc(
            a,
            b,
            dim,
            i,
            k,
            j,
        ) is Omega,
    decreases j,
{
    if j > 0 {
        lemma_sprod_acc_bounded(a, b, dim, i, k, j - 1, bd);
        lemma_entry_index(dim, dim, i, j - 1);
        lemma_entry_index(dim, dim, j - 1, k);
        assert(a[i * dim + j - 1] matches Coef::Value(v) && v <= bd || a[i * dim + j - 1] is Omega);
        assert(b[(j - 1) * dim + k] matches Coef::Value(v) && v <= bd || b[(j - 1) * dim
            + k] is Omega);
    }
}

/// Squaring a flow whose minimal idempotent power is known: find that power.
proof fn lemma_min_idem(s: Seq<Coef>, dim: int, n: nat) -> (k0: nat)
    requires
        is_idem_seq(spow2(s, dim, n), dim),
    ensures
        k0 <= n,
        is_idem_seq(spow2(s, dim, k0), dim),
        forall|m: nat| m < k0 ==> !is_idem_seq(#[trigger] spow2(s, dim, m), dim),
    decreases n,
{
    if exists|m: nat| m < n && is_idem_seq(#[trigger] spow2(s, dim, m), dim) {
        let m = choose|m: nat| m < n && is_idem_seq(#[trigger] spow2(s, dim, m), dim);
        lemma_min_idem(s, dim, m)
    } else {
        n
    }
}

} // verus!
