//! Downward-closed sets of configurations, represented by the antichain of
//! their maximal ideals.
use vstd::prelude::*;
use vstd::set_lib::lemma_int_range;
use vstd::set_lib::lemma_len_subset;
use vstd::set_lib::set_int_range;

use crate::coef::Coef;
use crate::graph::Graph;
use crate::ideal::seq_le;
use crate::ideal::Ideal;

verus! {

/// `x` lies in the downward closure of the family `d`.
pub open spec fn covers(d: Seq<Seq<Coef>>, x: Seq<Coef>) -> bool {
    exists|j: int| 0 <= j < d.len() && seq_le(x, #[trigger] d[j])
}

/// Every member of `d1` lies below some member of `d2`: the downward closure
/// of `d1` is included in that of `d2`.
pub open spec fn family_le(d1: Seq<Seq<Coef>>, d2: Seq<Seq<Coef>>) -> bool {
    forall|j: int| 0 <= j < d1.len() ==> covers(d2, #[trigger] d1[j])
}

/// No member lies below another: the family is a minimal antichain (it also
/// holds no duplicates).
pub open spec fn is_antichain(d: Seq<Seq<Coef>>) -> bool {
    forall|j: int, k: int|
        0 <= j < d.len() && 0 <= k < d.len() && j != k ==> !seq_le(#[trigger] d[j], #[trigger] d[k])
}

/// `x` lies strictly below some member of `d`.
pub open spec fn strictly_covered(d: Seq<Seq<Coef>>, x: Seq<Coef>) -> bool {
    exists|j: int|
        0 <= j < d.len() && seq_le(x, #[trigger] d[j]) && !seq_le(d[j], x)
}

/// All members share the dimension `n`.
pub open spec fn uniform_dim(d: Seq<Seq<Coef>>, n: int) -> bool {
    forall|j: int| 0 <= j < d.len() ==> (#[trigger] d[j]).len() == n
}

pub proof fn lemma_seq_le_refl(a: Seq<Coef>)
    ensures
        seq_le(a, a),
{
}

/// The componentwise order is antisymmetric.
pub proof fn lemma_seq_le_antisym(a: Seq<Coef>, b: Seq<Coef>)
    requires
        seq_le(a, b),
        seq_le(b, a),
    ensures
        a == b,
{
    assert forall|i: int| 0 <= i < a.len() implies a[i] == b[i] by {
        assert(a[i].spec_le(b[i]));
        assert(b[i].spec_le(a[i]));
    }
    assert(a =~= b);
}

pub proof fn lemma_seq_le_trans(a: Seq<Coef>, b: Seq<Coef>, c: Seq<Coef>)
    requires
        seq_le(a, b),
        seq_le(b, c),
    ensures
        seq_le(a, c),
{
    assert forall|i: int| 0 <= i < a.len() implies #[trigger] a[i].spec_le(c[i]) by {
        assert(a[i].spec_le(b[i]));
        assert(b[i].spec_le(c[i]));
    }
}

/// The componentwise minimum is the greatest lower bound.
pub proof fn lemma_min_glb(a: Seq<Coef>, b: Seq<Coef>, m: Seq<Coef>)
    requires
        a.len() == b.len(),
        m.len() == a.len(),
        forall|i: int| 0 <= i < a.len() ==> m[i] == a[i].spec_min(b[i]),
    ensures
        seq_le(m, a),
        seq_le(m, b),
        forall|x: Seq<Coef>| seq_le(x, a) && seq_le(x, b) ==> seq_le(x, m),
{
    assert forall|i: int| 0 <= i < a.len() implies #[trigger] m[i].spec_le(a[i]) by {}
    assert forall|i: int| 0 <= i < a.len() implies #[trigger] m[i].spec_le(b[i]) by {}
    assert forall|x: Seq<Coef>| seq_le(x, a) && seq_le(x, b) implies seq_le(x, m) by {
        assert forall|i: int| 0 <= i < x.len() implies #[trigger] x[i].spec_le(m[i]) by {
            assert(x[i].spec_le(a[i]));
            assert(x[i].spec_le(b[i]));
        }
    }
}

/// A finite antichain covers every point that the family it came from
/// covered: whatever is below a removed member is below a kept one.
/// The indices strictly above a given member shrink along any ascending
/// chain, so the walk ends at a kept member.
pub proof fn lemma_filtered_covers(d: Seq<Seq<Coef>>, x: Seq<Coef>, kept: Seq<Seq<Coef>>, j: int)
    requires
        0 <= j < d.len(),
        seq_le(x, d[j]),
        forall|k: int|
            0 <= k < d.len() && !strictly_covered(d, #[trigger] d[k]) ==> covers(kept, d[k]),
    ensures
        covers(kept, x),
    decreases above_set(d, j).len(),
{
    if strictly_covered(d, d[j]) {
        let k = choose|k: int|
            0 <= k < d.len() && seq_le(d[j], #[trigger] d[k]) && !seq_le(d[k], d[j]);
        lemma_int_range(0, d.len() as int);
        lemma_above_shrinks(d, j, k);
        lemma_seq_le_trans(x, d[j], d[k]);
        lemma_filtered_covers(d, x, kept, k);
    } else {
        let m = choose|m: int| 0 <= m < kept.len() && seq_le(d[j], #[trigger] kept[m]);
        lemma_seq_le_trans(x, d[j], kept[m]);
    }
}

/// The set of indices whose member lies strictly above `d[j]`.
pub closed spec fn above_set(d: Seq<Seq<Coef>>, j: int) -> Set<int> {
    Set::new(|k: int| 0 <= k < d.len() && seq_le(d[j], d[k]) && !seq_le(d[k], d[j]))
}

proof fn lemma_above_shrinks(d: Seq<Seq<Coef>>, j: int, k: int)
    requires
        0 <= j < d.len(),
        0 <= k < d.len(),
        seq_le(d[j], d[k]),
        !seq_le(d[k], d[j]),
    ensures
        above_set(d, k).len() < above_set(d, j).len(),
        above_set(d, j).finite(),
        above_set(d, k).finite(),
{
    lemma_int_range(0, d.len() as int);
    assert(above_set(d, j).subset_of(set_int_range(0, d.len() as int)));
    assert(above_set(d, k).subset_of(set_int_range(0, d.len() as int)));
    lemma_len_subset(above_set(d, j), set_int_range(0, d.len() as int));
    lemma_len_subset(above_set(d, k), set_int_range(0, d.len() as int));
    assert forall|m: int| above_set(d, k).contains(m) implies above_set(d, j).contains(m) by {
        lemma_seq_le_trans(d[j], d[k], d[m]);
        if seq_le(d[m], d[j]) {
            lemma_seq_le_trans(d[k], d[m], d[j]);
        }
    }
    assert(above_set(d, j).contains(k));
    assert(!above_set(d, k).contains(k));
    assert(above_set(d, k).subset_of(above_set(d, j).remove(k)));
    lemma_len_subset(above_set(d, k), above_set(d, j).remove(k));
    assert(above_set(d, j).remove(k).len() == above_set(d, j).len() - 1);
}

/// A downward-closed set: the union of the downward closures of finitely many
/// ideals, all of one dimension. The representation holds no duplicates.
#[derive(Debug)]
pub struct DownSet {
    ideals: Vec<Ideal>,
}

impl View for DownSet {
    type V = Seq<Seq<Coef>>;

    closed spec fn view(&self) -> Seq<Seq<Coef>> {
        self.ideals@.map_values(|i: Ideal| i@)
    }
}

impl Clone for DownSet {
    fn clone(&self) -> (r: Self)
        ensures
            r@ == self@,
    {
        let mut ideals: Vec<Ideal> = Vec::new();
        let mut i: usize = 0;
        while i < self.ideals.len()
            invariant
                0 <= i <= self.ideals@.len(),
                ideals@.len() == i,
                forall|j: int| 0 <= j < i ==> ideals@[j]@ == self.ideals@[j]@,
            decreases self.ideals@.len() - i,
        {
            ideals.push(self.ideals[i].clone());
            i = i + 1;
        }
        let r = DownSet { ideals };
        proof {
            assert(r@ =~= self@);
        }
        r
    }
}

impl PartialEq for DownSet {
    /// Two downsets are equal when each is contained in the other: equality
    /// of the downward closures, not of the representations.
    fn eq(&self, other: &Self) -> (r: bool) {
        self.is_contained_in(other) && other.is_contained_in(self)
    }
}

impl Eq for DownSet {

}

impl vstd::std_specs::cmp::PartialEqSpecImpl for DownSet {
    open spec fn obeys_eq_spec() -> bool {
        true
    }

    open spec fn eq_spec(&self, other: &Self) -> bool {
        family_le(self@, other@) && family_le(other@, self@)
    }
}

impl DownSet {
    /// The empty downset.
    pub fn new() -> (r: Self)
        ensures
            r@.len() == 0,
    {
        DownSet { ideals: Vec::new() }
    }

    /// Create a downset from a list of ideals; exact duplicates collapse.
    pub fn from_vec(w: &Vec<Ideal>) -> (r: Self)
        ensures
            forall|x: Seq<Coef>| r@.contains(x) <==> w@.map_values(|i: Ideal| i@).contains(x),
            r@.no_duplicates(),
    {
        let mut r = DownSet::new();
        let mut i: usize = 0;
        proof {
            assert(w@.map_values(|i: Ideal| i@).take(0) =~= Seq::<Seq<Coef>>::empty());
        }
        while i < w.len()
            invariant
                0 <= i <= w@.len(),
                r@.no_duplicates(),
                forall|x: Seq<Coef>|
                    r@.contains(x) <==> w@.map_values(|i0: Ideal| i0@).take(i as int).contains(x),
            decreases w@.len() - i,
        {
            let ghost pre = r@;
            r.push_member(&w[i]);
            proof {
                let full = w@.map_values(|i0: Ideal| i0@);
                assert(full.take(i + 1) =~= full.take(i as int).push(full[i as int]));
                assert forall|x: Seq<Coef>| r@.contains(x) <==> full.take(i + 1).contains(x) by {
                    if full.take(i + 1).contains(x) {
                        let k = choose|k: int|
                            0 <= k < full.take(i + 1).len() && #[trigger] full.take(i + 1)[k] == x;
                        if k < i {
                            assert(full.take(i as int)[k] == x);
                            assert(full.take(i as int).contains(x));
                            assert(pre.contains(x));
                            let k2 = choose|k2: int| 0 <= k2 < pre.len() && #[trigger] pre[k2] == x;
                            if pre == r@ {
                            } else {
                                assert(r@ == pre.push(w@[i as int]@));
                                assert(r@[k2] == x);
                            }
                        } else {
                            assert(x == full[i as int]);
                            if pre == r@ {
                                assert(pre.contains(x));
                            } else {
                                assert(r@ == pre.push(w@[i as int]@));
                                assert(r@[pre.len() as int] == x);
                            }
                        }
                        assert(r@.contains(x));
                    }
                    if r@.contains(x) {
                        let k = choose|k: int| 0 <= k < r@.len() && #[trigger] r@[k] == x;
                        if pre == r@ {
                            assert(full.take(i as int).contains(x));
                            let k3 = choose|k3: int|
                                0 <= k3 < full.take(i as int).len() && #[trigger] full.take(
                                    i as int,
                                )[k3] == x;
                            assert(full.take(i + 1)[k3] == x);
                        } else {
                            assert(r@ == pre.push(w@[i as int]@));
                            if k < pre.len() {
                                assert(pre.contains(x));
                                let k3 = choose|k3: int|
                                    0 <= k3 < full.take(i as int).len() && #[trigger] full.take(
                                        i as int,
                                    )[k3] == x;
                                assert(full.take(i + 1)[k3] == x);
                            } else {
                                assert(x == full[i as int]);
                                assert(full.take(i + 1)[i as int] == x);
                            }
                        }
                        assert(full.take(i + 1).contains(x));
                    }
                }
            }
            i = i + 1;
        }
        proof {
            let full = w@.map_values(|i0: Ideal| i0@);
            assert(full.take(full.len() as int) =~= full);
        }
        r
    }

    /// Create a downset from plain coefficient vectors.
    pub fn from_vecs(w: Vec<Vec<Coef>>) -> (r: Self)
        ensures
            forall|x: Seq<Coef>| r@.contains(x) <==> w@.map_values(|v: Vec<Coef>| v@).contains(x),
            r@.no_duplicates(),
    {
        let mut ideals: Vec<Ideal> = Vec::new();
        let mut i: usize = 0;
        while i < w.len()
            invariant
                0 <= i <= w@.len(),
                ideals@.len() == i,
                forall|j: int| 0 <= j < i ==> ideals@[j]@ == w@[j]@,
            decreases w@.len() - i,
        {
            let v = crate::ideal::clone_coef_vec(&w[i]);
            ideals.push(Ideal::from_vec(v));
            i = i + 1;
        }
        proof {
            assert(ideals@.map_values(|i0: Ideal| i0@) =~= w@.map_values(|v: Vec<Coef>| v@));
        }
        DownSet::from_vec(&ideals)
    }

    /// Whether the ideal lies in the downward closure.
    pub fn contains(&self, source: &Ideal) -> (r: bool)
        ensures
            r == covers(self@, source@),
    {
        let mut j: usize = 0;
        while j < self.ideals.len()
            invariant
                0 <= j <= self@.len(),
                forall|k: int| 0 <= k < j ==> !seq_le(source@, #[trigger] self@[k]),
            decreases self@.len() - j,
        {
            if source.is_below(&self.ideals[j]) {
                proof {
                    assert(seq_le(source@, self@[j as int]));
                }
                return true;
            }
            j = j + 1;
        }
        false
    }

    /// Whether this downward closure is included in the other's.
    pub fn is_contained_in(&self, other: &DownSet) -> (r: bool)
        ensures
            r == family_le(self@, other@),
    {
        let mut j: usize = 0;
        while j < self.ideals.len()
            invariant
                0 <= j <= self@.len(),
                forall|k: int| 0 <= k < j ==> covers(other@, #[trigger] self@[k]),
            decreases self@.len() - j,
        {
            if !other.contains(&self.ideals[j]) {
                proof {
                    assert(!covers(other@, self@[j as int]));
                }
                return false;
            }
            j = j + 1;
        }
        true
    }

    /// Insert an ideal into the downward-closed set: a no-op when the ideal
    /// is already covered by the closure. Otherwise it is added and the
    /// family is re-minimized, so that the representation stays a minimal
    /// antichain. Returns whether the downward closure grew.
    pub fn insert(&mut self, ideal: &Ideal) -> (r: bool)
        requires
            old(self)@.no_duplicates(),
        ensures
            r == !covers(old(self)@, ideal@),
            !r ==> final(self)@ == old(self)@,
            r ==> forall|x: Seq<Coef>|
                covers(final(self)@, x) <==> covers(old(self)@, x) || seq_le(x, ideal@),
            r ==> is_antichain(final(self)@),
            final(self)@.no_duplicates(),
            forall|n: int|
                uniform_dim(old(self)@, n) && ideal@.len() == n ==> uniform_dim(final(self)@, n),
    {
        if self.contains(ideal) {
            return false;
        }
        let ghost pre = self@;
        self.push_member(ideal);
        proof {
            assert(self@ == pre.push(ideal@)) by {
                if self@ == pre {
                    let j = choose|j: int| 0 <= j < pre.len() && #[trigger] pre[j] == ideal@;
                    lemma_seq_le_refl(ideal@);
                    assert(covers(pre, ideal@));
                    assert(false);
                }
            }
            assert forall|x: Seq<Coef>|
                covers(self@, x) <==> covers(pre, x) || seq_le(x, ideal@) by {
                if covers(self@, x) {
                    let j = choose|j: int| 0 <= j < self@.len() && seq_le(x, #[trigger] self@[j]);
                    if j < pre.len() {
                        assert(seq_le(x, pre[j]));
                        assert(covers(pre, x));
                    } else {
                        assert(self@[j] == ideal@);
                    }
                }
                if covers(pre, x) {
                    let j = choose|j: int| 0 <= j < pre.len() && seq_le(x, #[trigger] pre[j]);
                    assert(seq_le(x, self@[j]));
                    assert(covers(self@, x));
                }
                if seq_le(x, ideal@) {
                    assert(seq_le(x, self@[pre.len() as int]));
                    assert(covers(self@, x));
                }
            }
        }
        let ghost mid = self@;
        self.minimize();
        proof {
            assert forall|x: Seq<Coef>|
                covers(self@, x) <==> covers(pre, x) || seq_le(x, ideal@) by {
                assert(covers(self@, x) == covers(mid, x));
            }
            assert forall|n: int|
                uniform_dim(pre, n) && ideal@.len() == n implies uniform_dim(self@, n) by {
                assert forall|j2: int|
                    0 <= j2 < mid.len() implies (#[trigger] mid[j2]).len() == n by {
                    if j2 < pre.len() {
                        assert(mid[j2] == pre[j2]);
                    } else {
                        assert(mid[j2] == ideal@);
                    }
                }
                assert(uniform_dim(mid, n));
            }
        }
        true
    }

    /// Append an ideal to the representation; a no-op when an exact copy is
    /// already present. Returns whether the representation changed.
    fn push_member(&mut self, ideal: &Ideal) -> (r: bool)
        ensures
            r == !old(self)@.contains(ideal@),
            r ==> final(self)@ == old(self)@.push(ideal@),
            !r ==> final(self)@ == old(self)@,
            old(self)@.no_duplicates() ==> final(self)@.no_duplicates(),
    {
        let mut j: usize = 0;
        while j < self.ideals.len()
            invariant
                0 <= j <= self@.len(),
                self@ == old(self)@,
                forall|k: int| 0 <= k < j ==> self@[k] != ideal@,
            decreases self@.len() - j,
        {
            if self.ideals[j].eq(ideal) {
                proof {
                    assert(self@[j as int] == ideal@);
                }
                return false;
            }
            j = j + 1;
        }
        proof {
            assert(!old(self)@.contains(ideal@));
        }
        let ghost pre = self@;
        self.ideals.push(ideal.clone());
        proof {
            assert(self@ =~= pre.push(ideal@));
            if pre.no_duplicates() {
                assert forall|a: int, b: int|
                    0 <= a < self@.len() && 0 <= b < self@.len() && a != b implies self@[a]
                    != self@[b] by {
                    if a < pre.len() && b < pre.len() {
                    } else if a < pre.len() {
                        assert(self@[b] == ideal@);
                    } else {
                        assert(self@[a] == ideal@);
                    }
                }
            }
        }
        true
    }

    /// The ideals of the representation.
    pub fn ideals(&self) -> (r: &Vec<Ideal>)
        ensures
            r@.map_values(|i: Ideal| i@) == self@,
    {
        &self.ideals
    }

    pub fn is_empty(&self) -> (r: bool)
        ensures
            r == (self@.len() == 0),
    {
        self.ideals.len() == 0
    }

    /// Intersect this downward closure with another: a member already
    /// covered by `other` is kept; any other member is replaced by its
    /// componentwise minima with every member of `other`. Returns whether
    /// the downward closure shrank; the result is the intersection of the
    /// two closures.
    pub fn restrict_to(&mut self, other: &DownSet) -> (r: bool)
        requires
            old(self)@.no_duplicates(),
            forall|j: int, k: int|
                0 <= j < old(self)@.len() && 0 <= k < other@.len() ==> (#[trigger] old(
                    self,
                )@[j]).len() == (#[trigger] other@[k]).len(),
        ensures
            final(self)@.no_duplicates(),
            forall|x: Seq<Coef>|
                covers(final(self)@, x) <==> covers(old(self)@, x) && covers(other@, x),
            r == exists|j: int| 0 <= j < old(self)@.len() && !covers(other@, #[trigger] old(self)@[j]),
            !r ==> final(self)@ == old(self)@,
            r ==> is_antichain(final(self)@),
            forall|n: int|
                uniform_dim(old(self)@, n) && uniform_dim(other@, n) ==> uniform_dim(
                    final(self)@,
                    n,
                ),
    {
        let ghost d = self@;
        let mut changed: bool = false;
        let mut new_ideals = DownSet::new();
        let mut j: usize = 0;
        while j < self.ideals.len()
            invariant
                0 <= j <= self@.len(),
                self@ == d,
                d.no_duplicates(),
                forall|a: int, b: int|
                    0 <= a < d.len() && 0 <= b < other@.len() ==> (#[trigger] d[a]).len() == (
                    #[trigger] other@[b]).len(),
                new_ideals@.no_duplicates(),
                forall|n: int|
                    uniform_dim(d, n) && uniform_dim(other@, n) ==> uniform_dim(new_ideals@, n),
                changed == exists|m: int| 0 <= m < j && !covers(other@, #[trigger] d[m]),
                forall|x: Seq<Coef>|
                    covers(new_ideals@, x) <==> covers(d.take(j as int), x) && covers(other@, x),
                !changed ==> new_ideals@ == d.take(j as int),
            decreases self@.len() - j,
        {
            let ghost pre = new_ideals@;
            let covered = other.contains(&self.ideals[j]);
            if covered {
                new_ideals.push_member(&self.ideals[j]);
                proof {
                    let cur = d[j as int];
                    assert(covers(other@, cur));
                    assert forall|n: int|
                        uniform_dim(d, n) && uniform_dim(other@, n) implies uniform_dim(
                        new_ideals@,
                        n,
                    ) by {
                        assert forall|w: int|
                            0 <= w < new_ideals@.len() implies (#[trigger] new_ideals@[w]).len()
                            == n by {
                            if w < pre.len() {
                                assert(new_ideals@[w] == pre[w]);
                            } else {
                                assert(new_ideals@[w] == cur);
                            }
                        }
                    }
                    assert forall|x: Seq<Coef>|
                        covers(new_ideals@, x) <==> covers(d.take(j + 1), x) && covers(
                            other@,
                            x,
                        ) by {
                        lemma_covers_take_split(d, j as int, x);
                        if covers(new_ideals@, x) {
                            let m = choose|m: int|
                                0 <= m < new_ideals@.len() && seq_le(x, #[trigger] new_ideals@[m]);
                            if m < pre.len() {
                                assert(covers(pre, x));
                            } else {
                                assert(seq_le(x, cur));
                                let w = choose|w: int|
                                    0 <= w < other@.len() && seq_le(cur, #[trigger] other@[w]);
                                lemma_seq_le_trans(x, cur, other@[w]);
                                assert(covers(other@, x));
                            }
                        }
                        if covers(d.take(j + 1), x) && covers(other@, x) {
                            if covers(d.take(j as int), x) {
                                assert(covers(pre, x));
                                lemma_covers_extends(pre, new_ideals@, x);
                            } else {
                                assert(seq_le(x, cur));
                                if pre.contains(cur) {
                                    let m = choose|m: int|
                                        0 <= m < pre.len() && #[trigger] pre[m] == cur;
                                    assert(covers(pre, x));
                                    lemma_covers_extends(pre, new_ideals@, x);
                                } else {
                                    assert(new_ideals@ == pre.push(cur));
                                    assert(seq_le(x, new_ideals@[pre.len() as int]));
                                    assert(covers(new_ideals@, x));
                                }
                            }
                        }
                    }
                }
            } else {
                changed = true;
                let mut k: usize = 0;
                proof {
                    assert(other@.take(0) =~= Seq::<Seq<Coef>>::empty());
                }
                proof {
                    assert(self.ideals@[j as int]@ == d[j as int]);
                }
                while k < other.ideals.len()
                    invariant
                        0 <= k <= other@.len(),
                        self@ == d,
                        0 <= j < d.len(),
                        forall|a: int, b: int|
                            0 <= a < d.len() && 0 <= b < other@.len() ==> (#[trigger] d[a]).len()
                                == (#[trigger] other@[b]).len(),
                        new_ideals@.no_duplicates(),
                        forall|n: int|
                            uniform_dim(d, n) && uniform_dim(other@, n) ==> uniform_dim(
                                new_ideals@,
                                n,
                            ),
                        forall|x: Seq<Coef>|
                            covers(new_ideals@, x) <==> covers(pre, x) || (seq_le(x, d[j as int])
                                && covers(other@.take(k as int), x)),
                    decreases other@.len() - k,
                {
                    proof {
                        assert(self.ideals@[j as int]@ == d[j as int]);
                        assert(other.ideals@[k as int]@ == other@[k as int]);
                    }
                    let meet = Ideal::intersection(&self.ideals[j], &other.ideals[k]);
                    let ghost pre2 = new_ideals@;
                    new_ideals.push_member(&meet);
                    proof {
                        let cur = d[j as int];
                        let ok = other@[k as int];
                        assert forall|n: int|
                            uniform_dim(d, n) && uniform_dim(other@, n) implies uniform_dim(
                            new_ideals@,
                            n,
                        ) by {
                            assert forall|w: int|
                                0 <= w < new_ideals@.len() implies (#[trigger] new_ideals@[w]).len()
                                == n by {
                                if w < pre2.len() {
                                    assert(new_ideals@[w] == pre2[w]);
                                } else {
                                    assert(new_ideals@[w] == meet@);
                                    assert(meet@.len() == cur.len());
                                }
                            }
                        }
                        lemma_min_glb(cur, ok, meet@);
                        assert(other@.take(k + 1) =~= other@.take(k as int).push(ok));
                        assert forall|x: Seq<Coef>|
                            covers(new_ideals@, x) <==> covers(pre, x) || (seq_le(x, cur)
                                && covers(other@.take(k + 1), x)) by {
                            if covers(new_ideals@, x) {
                                let m = choose|m: int|
                                    0 <= m < new_ideals@.len() && seq_le(
                                        x,
                                        #[trigger] new_ideals@[m],
                                    );
                                if m < pre2.len() {
                                    assert(covers(pre2, x));
                                    if !covers(pre, x) {
                                        assert(seq_le(x, cur) && covers(other@.take(k as int), x));
                                        lemma_covers_extends(
                                            other@.take(k as int),
                                            other@.take(k + 1),
                                            x,
                                        );
                                    }
                                } else {
                                    assert(seq_le(x, meet@));
                                    lemma_seq_le_trans(x, meet@, cur);
                                    lemma_seq_le_trans(x, meet@, ok);
                                    assert(seq_le(x, other@.take(k + 1)[k as int]));
                                    assert(covers(other@.take(k + 1), x));
                                }
                            }
                            if covers(pre, x) || (seq_le(x, cur) && covers(other@.take(k + 1), x)) {
                                if covers(pre, x) {
                                    assert(covers(pre2, x));
                                    lemma_covers_extends(pre2, new_ideals@, x);
                                } else {
                                    let m = choose|m: int|
                                        0 <= m < other@.take(k + 1).len() && seq_le(
                                            x,
                                            #[trigger] other@.take(k + 1)[m],
                                        );
                                    if m < k {
                                        assert(seq_le(x, other@.take(k as int)[m]));
                                        assert(covers(other@.take(k as int), x));
                                        assert(covers(pre2, x));
                                        lemma_covers_extends(pre2, new_ideals@, x);
                                    } else {
                                        assert(seq_le(x, ok));
                                        assert(seq_le(x, meet@));
                                        if pre2.contains(meet@) {
                                            let w = choose|w: int|
                                                0 <= w < pre2.len() && #[trigger] pre2[w] == meet@;
                                            assert(covers(pre2, x));
                                            lemma_covers_extends(pre2, new_ideals@, x);
                                        } else {
                                            assert(new_ideals@ == pre2.push(meet@));
                                            assert(seq_le(
                                                x,
                                                new_ideals@[pre2.len() as int],
                                            ));
                                            assert(covers(new_ideals@, x));
                                        }
                                    }
                                }
                            }
                        }
                    }
                    k = k + 1;
                }
                proof {
                    let cur = d[j as int];
                    assert(other@.take(other@.len() as int) =~= other@);
                    assert forall|x: Seq<Coef>|
                        covers(new_ideals@, x) <==> covers(d.take(j + 1), x) && covers(
                            other@,
                            x,
                        ) by {
                        lemma_covers_take_split(d, j as int, x);
                        if covers(new_ideals@, x) {
                            if !covers(pre, x) {
                                assert(seq_le(x, cur));
                            }
                        }
                    }
                }
            }
            j = j + 1;
        }
        proof {
            assert(d.take(d.len() as int) =~= d);
            if !changed {
                assert(new_ideals@ =~= d);
            }
        }
        let ghost pre_min = new_ideals@;
        if changed {
            new_ideals.minimize();
        }
        let ghost nv = new_ideals@;
        self.ideals = new_ideals.ideals;
        proof {
            assert(self@ == nv);
            assert forall|n: int|
                uniform_dim(d, n) && uniform_dim(other@, n) implies uniform_dim(self@, n) by {
                assert(uniform_dim(pre_min, n));
            }
        }
        changed
    }

    /// Cap every finite coordinate of every member at `maximal_finite_value`:
    /// the representation becomes the set of capped members.
    pub fn round_down(&mut self, maximal_finite_value: u64, dim: usize)
        requires
            old(self)@.no_duplicates(),
            uniform_dim(old(self)@, dim as int),
        ensures
            final(self)@.no_duplicates(),
            forall|j: int|
                0 <= j < final(self)@.len() ==> is_rounded_member(
                    old(self)@,
                    #[trigger] final(self)@[j],
                    maximal_finite_value,
                ),
            forall|k: int|
                0 <= k < old(self)@.len() ==> final(self)@.contains(
                    round_down_seq(#[trigger] old(self)@[k], maximal_finite_value),
                ),
            forall|n: int| uniform_dim(old(self)@, n) ==> uniform_dim(final(self)@, n),
    {
        let ghost d = self@;
        let mut rounded = DownSet::new();
        let mut j: usize = 0;
        while j < self.ideals.len()
            invariant
                0 <= j <= self@.len(),
                self@ == d,
                uniform_dim(d, dim as int),
                rounded@.no_duplicates(),
                forall|a: int|
                    0 <= a < rounded@.len() ==> is_rounded_member(
                        d,
                        #[trigger] rounded@[a],
                        maximal_finite_value,
                    ),
                forall|k: int|
                    0 <= k < j ==> rounded@.contains(
                        round_down_seq(#[trigger] d[k], maximal_finite_value),
                    ),
            decreases self@.len() - j,
        {
            let mut item = self.ideals[j].clone();
            proof {
                assert(self.ideals@[j as int]@ == d[j as int]);
                assert(d[j as int].len() == dim as int);
            }
            item.round_down(maximal_finite_value, dim);
            proof {
                assert(item@ =~= round_down_seq(d[j as int], maximal_finite_value));
            }
            let ghost pre = rounded@;
            rounded.push_member(&item);
            proof {
                assert forall|k: int|
                    0 <= k < j + 1 implies rounded@.contains(
                    round_down_seq(#[trigger] d[k], maximal_finite_value),
                ) by {
                    if k < j {
                        assert(pre.contains(round_down_seq(d[k], maximal_finite_value)));
                        let m = choose|m: int|
                            0 <= m < pre.len() && #[trigger] pre[m] == round_down_seq(
                                d[k],
                                maximal_finite_value,
                            );
                        if rounded@ == pre {
                        } else {
                            assert(rounded@ == pre.push(item@));
                            assert(rounded@[m] == round_down_seq(d[k], maximal_finite_value));
                        }
                    } else {
                        if rounded@ == pre {
                            assert(pre.contains(item@));
                        } else {
                            assert(rounded@ == pre.push(item@));
                            assert(rounded@[pre.len() as int] == item@);
                        }
                    }
                    assert(rounded@.contains(round_down_seq(d[k], maximal_finite_value)));
                }
                assert forall|a: int|
                    0 <= a < rounded@.len() implies is_rounded_member(
                    d,
                    #[trigger] rounded@[a],
                    maximal_finite_value,
                ) by {
                    if a < pre.len() {
                        assert(is_rounded_member(d, pre[a], maximal_finite_value));
                        assert(rounded@[a] == pre[a]);
                    } else {
                        assert(rounded@[a] == round_down_seq(d[j as int], maximal_finite_value));
                        assert(is_rounded_member(d, rounded@[a], maximal_finite_value));
                    }
                }
            }
            j = j + 1;
        }
        proof {
            assert(d.take(d.len() as int) =~= d);
        }
        let ghost rv = rounded@;
        self.ideals = rounded.ideals;
        proof {
            assert(self@ == rv);
            assert forall|n: int| uniform_dim(d, n) implies uniform_dim(self@, n) by {
                assert forall|j2: int|
                    0 <= j2 < self@.len() implies (#[trigger] self@[j2]).len() == n by {
                    assert(is_rounded_member(d, self@[j2], maximal_finite_value));
                    let w = choose|w: int|
                        0 <= w < d.len() && self@[j2] == round_down_seq(
                            #[trigger] d[w],
                            maximal_finite_value,
                        );
                }
            }
        }
    }

    /// Remove every member strictly below another: the representation becomes
    /// the antichain of maximal members, and the downward closure does not
    /// change. Returns whether anything was removed; nothing changes when the
    /// family already is an antichain.
    pub fn minimize(&mut self) -> (r: bool)
        requires
            old(self)@.no_duplicates(),
        ensures
            final(self)@.no_duplicates(),
            is_antichain(final(self)@),
            forall|x: Seq<Coef>| covers(final(self)@, x) <==> covers(old(self)@, x),
            family_le(final(self)@, old(self)@),
            r == (final(self)@.len() != old(self)@.len()),
            !r ==> final(self)@ == old(self)@,
            is_antichain(old(self)@) ==> final(self)@ == old(self)@ && !r,
            forall|j: int| 0 <= j < final(self)@.len() ==> old(self)@.contains(#[trigger] final(self)@[j]),
            forall|n: int| uniform_dim(old(self)@, n) ==> uniform_dim(final(self)@, n),
    {
        let ghost d = self@;
        let mut kept: Vec<Ideal> = Vec::new();
        let mut j: usize = 0;
        while j < self.ideals.len()
            invariant
                0 <= j <= self@.len(),
                self@ == d,
                d.no_duplicates(),
                kept@.map_values(|i: Ideal| i@) == d.take(j as int).filter(
                    |x: Seq<Coef>| !strictly_covered(d, x),
                ),
            decreases self@.len() - j,
        {
            let mut strict: bool = false;
            let mut k: usize = 0;
            while k < self.ideals.len()
                invariant
                    0 <= k <= self@.len(),
                    self@ == d,
                    0 <= j < self@.len(),
                    strict == exists|m: int|
                        0 <= m < k && seq_le(d[j as int], #[trigger] d[m]) && !seq_le(
                            d[m],
                            d[j as int],
                        ),
                decreases self@.len() - k,
            {
                let ghost was = strict;
                if !strict {
                    let below = self.ideals[j].is_below(&self.ideals[k]);
                    let above = self.ideals[k].is_below(&self.ideals[j]);
                    if below && !above {
                        strict = true;
                    }
                    proof {
                        if strict {
                            assert(seq_le(d[j as int], d[k as int]) && !seq_le(
                                d[k as int],
                                d[j as int],
                            ));
                        } else {
                            assert forall|m: int|
                                0 <= m < k + 1 implies !(seq_le(
                                d[j as int],
                                #[trigger] d[m],
                            ) && !seq_le(d[m], d[j as int])) by {}
                        }
                    }
                } else {
                    proof {
                        let m = choose|m: int|
                            0 <= m < k && seq_le(d[j as int], #[trigger] d[m]) && !seq_le(
                                d[m],
                                d[j as int],
                            );
                    }
                }
                k = k + 1;
            }
            proof {
                if strict {
                    let m = choose|m: int|
                        0 <= m < self@.len() && seq_le(d[j as int], #[trigger] d[m]) && !seq_le(
                            d[m],
                            d[j as int],
                        );
                    assert(strictly_covered(d, d[j as int]));
                } else {
                    assert forall|m: int| 0 <= m < d.len() implies !(seq_le(
                        d[j as int],
                        #[trigger] d[m],
                    ) && !seq_le(d[m], d[j as int])) by {}
                    assert(!strictly_covered(d, d[j as int]));
                }
                assert(strict == strictly_covered(d, d[j as int]));
                assert(d.take(j + 1) =~= d.take(j as int).push(d[j as int]));
                assert(d.take(j + 1).drop_last() =~= d.take(j as int));
                assert(d.take(j + 1).last() == d[j as int]);
                reveal_with_fuel(Seq::filter, 2);
                assert(d.take(j + 1).filter(|x: Seq<Coef>| !strictly_covered(d, x)) == if !strictly_covered(
                    d,
                    d[j as int],
                ) {
                    d.take(j as int).filter(|x: Seq<Coef>| !strictly_covered(d, x)).push(
                        d[j as int],
                    )
                } else {
                    d.take(j as int).filter(|x: Seq<Coef>| !strictly_covered(d, x))
                });
            }
            if !strict {
                let ghost pre = kept@;
                kept.push(self.ideals[j].clone());
                proof {
                    assert(kept@.map_values(|i: Ideal| i@) =~= pre.map_values(|i: Ideal| i@).push(
                        d[j as int],
                    ));
                }
            }
            j = j + 1;
        }
        proof {
            assert(d.take(d.len() as int) =~= d);
        }
        let changed = kept.len() != self.ideals.len();
        self.ideals = kept;
        proof {
            let f = |x: Seq<Coef>| !strictly_covered(d, x);
            let kd = self@;
            lemma_minimize_family(d, kd);
            assert forall|n: int| uniform_dim(d, n) implies uniform_dim(self@, n) by {
                assert forall|j2: int|
                    0 <= j2 < self@.len() implies (#[trigger] self@[j2]).len() == n by {
                    assert(d.contains(self@[j2]));
                    let w = choose|w: int| 0 <= w < d.len() && #[trigger] d[w] == self@[j2];
                }
            }
        }
        changed
    }
}

/// A filtered family that kept its length is the family itself.
proof fn lemma_filter_len_eq(s: Seq<Seq<Coef>>, f: spec_fn(Seq<Coef>) -> bool)
    requires
        s.filter(f).len() == s.len(),
    ensures
        s.filter(f) == s,
    decreases s.len(),
{
    reveal_with_fuel(Seq::filter, 2);
    if s.len() > 0 {
        if f(s.last()) {
            lemma_filter_len_eq(s.drop_last(), f);
            assert(s.filter(f) =~= s);
        } else {
            s.drop_last().lemma_filter_len(f);
            assert(false);
        }
    } else {
        assert(s.filter(f) =~= s);
    }
}

/// Filtering away the strictly covered members keeps the closure.
proof fn lemma_minimize_covers(d: Seq<Seq<Coef>>, kd: Seq<Seq<Coef>>)
    requires
        d.no_duplicates(),
        kd == d.filter(|x: Seq<Coef>| !strictly_covered(d, x)),
    ensures
        forall|x: Seq<Coef>| covers(kd, x) <==> covers(d, x),
        family_le(kd, d),
{
    let f = |x: Seq<Coef>| !strictly_covered(d, x);
    d.filter_lemma(f);
    lemma_filter_sub(d, f);
    assert forall|j: int| 0 <= j < kd.len() implies covers(d, #[trigger] kd[j]) by {
        assert(d.contains(kd[j]));
        let m2 = choose|m2: int| 0 <= m2 < d.len() && #[trigger] d[m2] == kd[j];
        lemma_seq_le_refl(kd[j]);
    }
    assert forall|k: int| 0 <= k < d.len() && !strictly_covered(d, #[trigger] d[k])
        implies covers(kd, d[k]) by {
        assert(kd.contains(d[k]));
        let m = choose|m: int| 0 <= m < kd.len() && #[trigger] kd[m] == d[k];
        lemma_seq_le_refl(d[k]);
        assert(seq_le(d[k], kd[m]));
    }
    assert forall|x: Seq<Coef>| covers(kd, x) implies covers(d, x) by {
        let m = choose|m: int| 0 <= m < kd.len() && seq_le(x, #[trigger] kd[m]);
        assert(d.contains(kd[m]));
        let m2 = choose|m2: int| 0 <= m2 < d.len() && #[trigger] d[m2] == kd[m];
    }
    assert forall|x: Seq<Coef>| covers(d, x) implies covers(kd, x) by {
        let j2 = choose|j2: int| 0 <= j2 < d.len() && seq_le(x, #[trigger] d[j2]);
        lemma_filtered_covers(d, x, kd, j2);
    }
}

/// Filtering away the strictly covered members leaves an antichain.
proof fn lemma_minimize_antichain(d: Seq<Seq<Coef>>, kd: Seq<Seq<Coef>>)
    requires
        d.no_duplicates(),
        kd == d.filter(|x: Seq<Coef>| !strictly_covered(d, x)),
    ensures
        is_antichain(kd),
        kd.no_duplicates(),
{
    let f = |x: Seq<Coef>| !strictly_covered(d, x);
    d.filter_lemma(f);
    lemma_filter_sub(d, f);
    lemma_filter_nodup(d, f);
    assert forall|a: int, b: int|
        0 <= a < kd.len() && 0 <= b < kd.len() && a != b implies !seq_le(
        #[trigger] kd[a],
        #[trigger] kd[b],
    ) by {
        if seq_le(kd[a], kd[b]) {
            if !seq_le(kd[b], kd[a]) {
                assert(d.contains(kd[b]));
                let bb = choose|bb: int| 0 <= bb < d.len() && #[trigger] d[bb] == kd[b];
                assert(strictly_covered(d, kd[a]));
                assert(!f(kd[a]));
                assert(kd.contains(kd[a]));
                assert(false);
            } else {
                lemma_seq_le_antisym(kd[a], kd[b]);
                assert(false);
            }
        }
    }
}

/// An antichain keeps all its members under minimization.
proof fn lemma_antichain_filter_id(d: Seq<Seq<Coef>>)
    requires
        is_antichain(d),
    ensures
        d.filter(|x: Seq<Coef>| !strictly_covered(d, x)) == d,
{
    let f = |x: Seq<Coef>| !strictly_covered(d, x);
    assert forall|k: int| 0 <= k < d.len() implies f(d[k]) by {
        if strictly_covered(d, d[k]) {
            let m = choose|m: int|
                0 <= m < d.len() && seq_le(d[k], #[trigger] d[m]) && !seq_le(d[m], d[k]);
            assert(m != k);
        }
    }
    lemma_filter_all(d, f);
}

/// What filtering away the strictly covered members does to a
/// duplicate-free family: the closure is kept, and what remains is the
/// antichain of maximal members.
proof fn lemma_minimize_family(d: Seq<Seq<Coef>>, kd: Seq<Seq<Coef>>)
    requires
        d.no_duplicates(),
        kd == d.filter(|x: Seq<Coef>| !strictly_covered(d, x)),
    ensures
        kd.no_duplicates(),
        is_antichain(kd),
        forall|x: Seq<Coef>| covers(kd, x) <==> covers(d, x),
        family_le(kd, d),
        is_antichain(d) ==> kd == d,
        kd.len() == d.len() ==> kd == d,
        forall|j: int| 0 <= j < kd.len() ==> d.contains(#[trigger] kd[j]),
{
    let f = |x: Seq<Coef>| !strictly_covered(d, x);
    lemma_filter_sub(d, f);
    if kd.len() == d.len() {
        lemma_filter_len_eq(d, f);
    }
    if is_antichain(d) {
        lemma_antichain_filter_id(d);
    }
    lemma_minimize_covers(d, kd);
    lemma_minimize_antichain(d, kd);
}

/// Every member of a filtered family comes from the family.
proof fn lemma_filter_sub(s: Seq<Seq<Coef>>, f: spec_fn(Seq<Coef>) -> bool)
    ensures
        forall|i: int| 0 <= i < s.filter(f).len() ==> s.contains(#[trigger] s.filter(f)[i]),
    decreases s.len(),
{
    reveal_with_fuel(Seq::filter, 2);
    if s.len() > 0 {
        lemma_filter_sub(s.drop_last(), f);
        assert forall|i: int| 0 <= i < s.filter(f).len() implies s.contains(
            #[trigger] s.filter(f)[i],
        ) by {
            if i < s.drop_last().filter(f).len() {
                assert(s.drop_last().contains(s.drop_last().filter(f)[i]));
                let k = choose|k: int|
                    0 <= k < s.drop_last().len() && #[trigger] s.drop_last()[k] == s.filter(f)[i];
                assert(s[k] == s.filter(f)[i]);
            } else {
                assert(s.filter(f)[i] == s.last());
            }
        }
    }
}

/// Filtering a duplicate-free family leaves it duplicate-free.
proof fn lemma_filter_nodup(s: Seq<Seq<Coef>>, f: spec_fn(Seq<Coef>) -> bool)
    requires
        s.no_duplicates(),
    ensures
        s.filter(f).no_duplicates(),
    decreases s.len(),
{
    reveal_with_fuel(Seq::filter, 2);
    if s.len() > 0 {
        lemma_filter_nodup(s.drop_last(), f);
        lemma_filter_sub(s.drop_last(), f);
        if f(s.last()) {
            let pre = s.drop_last().filter(f);
            assert forall|a: int, b: int|
                0 <= a < pre.push(s.last()).len() && 0 <= b < pre.push(s.last()).len() && a != b
                implies pre.push(s.last())[a] != pre.push(s.last())[b] by {
                if a < pre.len() && b < pre.len() {
                } else {
                    let m = if a < pre.len() {
                        a
                    } else {
                        b
                    };
                    if m < pre.len() {
                        assert(s.drop_last().contains(pre[m]));
                        let k = choose|k: int|
                            0 <= k < s.drop_last().len() && #[trigger] s.drop_last()[k] == pre[m];
                        assert(s[k] == pre[m]);
                        assert(s[k] != s.last());
                    }
                }
            }
        }
    }
}

/// What rounding down does to a vector of coefficients.
pub open spec fn round_down_seq(s: Seq<Coef>, k: u64) -> Seq<Coef> {
    Seq::new(s.len(), |i: int| Ideal::spec_round_down(s[i], k))
}

/// `x` is the rounding of some member of `d`.
pub open spec fn is_rounded_member(d: Seq<Seq<Coef>>, x: Seq<Coef>, k: u64) -> bool {
    exists|m: int| 0 <= m < d.len() && x == round_down_seq(#[trigger] d[m], k)
}

/// Splitting a family at an index splits its coverage.
proof fn lemma_covers_take_split(d: Seq<Seq<Coef>>, j: int, x: Seq<Coef>)
    requires
        0 <= j < d.len(),
    ensures
        covers(d.take(j + 1), x) <==> covers(d.take(j), x) || seq_le(x, d[j]),
{
    assert(d.take(j + 1) =~= d.take(j).push(d[j]));
    if covers(d.take(j + 1), x) {
        let m = choose|m: int| 0 <= m < d.take(j + 1).len() && seq_le(x, #[trigger] d.take(j + 1)[m]);
        if m < j {
            assert(seq_le(x, d.take(j)[m]));
            assert(covers(d.take(j), x));
        } else {
            assert(seq_le(x, d[j]));
        }
    }
    if covers(d.take(j), x) {
        let m = choose|m: int| 0 <= m < d.take(j).len() && seq_le(x, #[trigger] d.take(j)[m]);
        assert(seq_le(x, d.take(j + 1)[m]));
        assert(covers(d.take(j + 1), x));
    }
    if seq_le(x, d[j]) {
        assert(seq_le(x, d.take(j + 1)[j]));
        assert(covers(d.take(j + 1), x));
    }
}

/// Coverage carries over to a longer family with the same prefix.
proof fn lemma_covers_extends(pre: Seq<Seq<Coef>>, post: Seq<Seq<Coef>>, x: Seq<Coef>)
    requires
        covers(pre, x),
        pre == post || exists|v: Seq<Coef>| post == pre.push(v),
    ensures
        covers(post, x),
{
    let m = choose|m: int| 0 <= m < pre.len() && seq_le(x, #[trigger] pre[m]);
    if pre == post {
    } else {
        let v = choose|v: Seq<Coef>| post == pre.push(v);
        assert(seq_le(x, post[m]));
    }
}

/// Containment coherence: two downsets are equal (mutual containment of
/// their representatives) exactly when their downward closures agree on
/// every point.
pub proof fn lemma_containment_coherence(d1: Seq<Seq<Coef>>, d2: Seq<Seq<Coef>>)
    ensures
        (family_le(d1, d2) && family_le(d2, d1)) <==> (forall|x: Seq<Coef>|
            covers(d1, x) <==> covers(d2, x)),
{
    if family_le(d1, d2) && family_le(d2, d1) {
        assert forall|x: Seq<Coef>| covers(d1, x) <==> covers(d2, x) by {
            if covers(d1, x) {
                let j = choose|j: int| 0 <= j < d1.len() && seq_le(x, #[trigger] d1[j]);
                assert(covers(d2, d1[j]));
                let m = choose|m: int| 0 <= m < d2.len() && seq_le(d1[j], #[trigger] d2[m]);
                lemma_seq_le_trans(x, d1[j], d2[m]);
            }
            if covers(d2, x) {
                let j = choose|j: int| 0 <= j < d2.len() && seq_le(x, #[trigger] d2[j]);
                assert(covers(d1, d2[j]));
                let m = choose|m: int| 0 <= m < d1.len() && seq_le(d2[j], #[trigger] d1[m]);
                lemma_seq_le_trans(x, d2[j], d1[m]);
            }
        }
    }
    if forall|x: Seq<Coef>| covers(d1, x) <==> covers(d2, x) {
        assert forall|j: int| 0 <= j < d1.len() implies covers(d2, #[trigger] d1[j]) by {
            lemma_seq_le_refl(d1[j]);
            assert(covers(d1, d1[j]));
        }
        assert forall|j: int| 0 <= j < d2.len() implies covers(d1, #[trigger] d2[j]) by {
            lemma_seq_le_refl(d2[j]);
            assert(covers(d2, d2[j]));
        }
    }
}

/// Intersection of downward closures is commutative: restricting `a` to `b`
/// and restricting `b` to `a` give downsets with one and the same closure.
pub proof fn lemma_restrict_commutative(
    a: Seq<Seq<Coef>>,
    b: Seq<Seq<Coef>>,
    ab: Seq<Seq<Coef>>,
    ba: Seq<Seq<Coef>>,
)
    requires
        forall|x: Seq<Coef>| covers(ab, x) <==> covers(a, x) && covers(b, x),
        forall|x: Seq<Coef>| covers(ba, x) <==> covers(b, x) && covers(a, x),
    ensures
        forall|x: Seq<Coef>| covers(ab, x) <==> covers(ba, x),
        family_le(ab, ba) && family_le(ba, ab),
{
    lemma_containment_coherence(ab, ba);
}

/// Intersection of downward closures is associative: restricting `a` to `b`
/// and then to `c` gives the closure of restricting `a` to the restriction
/// of `b` to `c`.
pub proof fn lemma_restrict_associative(
    a: Seq<Seq<Coef>>,
    b: Seq<Seq<Coef>>,
    c: Seq<Seq<Coef>>,
    ab: Seq<Seq<Coef>>,
    ab_c: Seq<Seq<Coef>>,
    bc: Seq<Seq<Coef>>,
    a_bc: Seq<Seq<Coef>>,
)
    requires
        forall|x: Seq<Coef>| covers(ab, x) <==> covers(a, x) && covers(b, x),
        forall|x: Seq<Coef>| covers(ab_c, x) <==> covers(ab, x) && covers(c, x),
        forall|x: Seq<Coef>| covers(bc, x) <==> covers(b, x) && covers(c, x),
        forall|x: Seq<Coef>| covers(a_bc, x) <==> covers(a, x) && covers(bc, x),
    ensures
        forall|x: Seq<Coef>| covers(ab_c, x) <==> covers(a_bc, x),
        family_le(ab_c, a_bc) && family_le(a_bc, ab_c),
{
    lemma_containment_coherence(ab_c, a_bc);
}

/// Filtering keeps everything when the predicate holds everywhere.
proof fn lemma_filter_all(s: Seq<Seq<Coef>>, f: spec_fn(Seq<Coef>) -> bool)
    requires
        forall|k: int| 0 <= k < s.len() ==> f(#[trigger] s[k]),
    ensures
        s.filter(f) == s,
    decreases s.len(),
{
    reveal_with_fuel(Seq::filter, 2);
    if s.len() > 0 {
        lemma_filter_all(s.drop_last(), f);
        assert(s.filter(f) =~= s);
    } else {
        assert(s.filter(f) =~= s);
    }
}

/// One row of an adversarial resolution: how the tokens counted by `c` on
/// one state spread over its successor set `succ`. An `Omega` count floods
/// every successor; a finite count is split into a composition.
pub open spec fn is_distribution(row: Seq<Coef>, succ: Seq<usize>, dim: int, c: Coef) -> bool {
    row.len() == dim && match c {
        Coef::Omega => forall|j: int|
            0 <= j < dim ==> #[trigger] row[j] == (if succ.contains(j as usize) {
                Coef::Omega
            } else {
                Coef::Value(0)
            }),
        Coef::Value(v) => (forall|j: int|
            0 <= j < dim && !succ.contains(j as usize) ==> #[trigger] row[j] == Coef::Value(0))
            && !Coef::seq_has_omega(row) && Coef::seq_fin_sum(row) == v,
    }
}

/// The views of a vector of ideals.
pub open spec fn views(r: Seq<Ideal>) -> Seq<Seq<Coef>> {
    r.map_values(|i: Ideal| i@)
}

/// The last part of a sum of numbers splits off.
proof fn lemma_u64_sum_last(p: Seq<u64>)
    requires
        p.len() > 0,
    ensures
        crate::partitions::u64_seq_sum(p) == crate::partitions::u64_seq_sum(p.drop_last())
            + p.last(),
    decreases p.len(),
{
    if p.len() == 1 {
        assert(p.drop_last() =~= Seq::<u64>::empty());
        assert(p.drop_first() =~= Seq::<u64>::empty());
    } else {
        lemma_u64_sum_last(p.drop_first());
        assert(p.drop_first().drop_last() =~= p.drop_last().drop_first());
        assert(p.drop_first().last() == p.last());
        assert(p.drop_last()[0] == p[0]);
    }
}

/// Scattering a partition onto distinct indices gives a finite row whose
/// entries sit exactly on those indices and whose sum is the partition's.
proof fn lemma_scatter_props(dim: nat, p: Seq<u64>, preds: Seq<int>)
    requires
        p.len() == preds.len(),
        preds.no_duplicates(),
        forall|t: int| 0 <= t < preds.len() ==> 0 <= #[trigger] preds[t] < dim,
    ensures
        Ideal::spec_scatter(dim, p, preds).len() == dim,
        forall|t: int|
            0 <= t < preds.len() ==> Ideal::spec_scatter(dim, p, preds)[#[trigger] preds[t]]
                == Coef::Value(p[t]),
        forall|j: int|
            0 <= j < dim && !preds.contains(j) ==> Ideal::spec_scatter(dim, p, preds)[j]
                == Coef::Value(0),
        forall|j: int| 0 <= j < dim ==> (#[trigger] Ideal::spec_scatter(dim, p, preds)[j]) is Value,
        Coef::seq_fin_sum(Ideal::spec_scatter(dim, p, preds)) == crate::partitions::u64_seq_sum(p),
    decreases preds.len(),
{
    let s = Ideal::spec_scatter(dim, p, preds);
    if preds.len() == 0 {
        lemma_zero_row_sum(dim);
        assert(s =~= Seq::new(dim, |i: int| Coef::Value(0)));
    } else {
        let p0 = p.drop_last();
        let q0 = preds.drop_last();
        lemma_scatter_props(dim, p0, q0);
        let s0 = Ideal::spec_scatter(dim, p0, q0);
        assert(s == s0.update(preds.last(), Coef::Value(p.last())));
        assert(!q0.contains(preds.last()));
        assert(s0[preds.last()] == Coef::Value(0));
        Coef::lemma_fin_sum_update(s0, preds.last(), Coef::Value(p.last()));
        lemma_u64_sum_last(p);
        assert forall|t: int|
            0 <= t < preds.len() implies s[#[trigger] preds[t]] == Coef::Value(p[t]) by {
            if t < preds.len() - 1 {
                assert(q0[t] == preds[t]);
                assert(preds[t] != preds.last());
                assert(s0[q0[t]] == Coef::Value(p0[t]));
            }
        }
        assert forall|j: int| 0 <= j < dim && !preds.contains(j) implies s[j] == Coef::Value(0) by {
            assert(!q0.contains(j)) by {
                if q0.contains(j) {
                    let t = choose|t: int| 0 <= t < q0.len() && #[trigger] q0[t] == j;
                    assert(preds[t] == j);
                }
            }
            assert(j != preds.last());
        }
    }
}

/// The all-zero row and its sum.
proof fn lemma_zero_row_sum(dim: nat)
    ensures
        Coef::seq_fin_sum(Seq::new(dim, |i: int| Coef::Value(0))) == 0,
        !Coef::seq_has_omega(Seq::new(dim, |i: int| Coef::Value(0))),
    decreases dim,
{
    let s = Seq::new(dim, |i: int| Coef::Value(0));
    if dim > 0 {
        lemma_zero_row_sum((dim - 1) as nat);
        assert(s.drop_last() =~= Seq::new((dim - 1) as nat, |i: int| Coef::Value(0)));
    }
}

/// All one-step distributions of the count `value` over the distinct
/// successor list `successors`, inside the ambient dimension `dim`: the
/// adversary's choices for one source state.
pub fn get_choices(dim: usize, value: Coef, successors: &Vec<usize>) -> (r: Vec<Ideal>)
    requires
        successors@.no_duplicates(),
        forall|t: int| 0 <= t < successors@.len() ==> #[trigger] successors@[t] < dim,
        value matches Coef::Value(v) ==> v <= crate::coef::COEF_CAP,
        (value matches Coef::Value(v) && v > 0) ==> successors@.len() > 0,
    ensures
        forall|k: int|
            0 <= k < r@.len() ==> is_distribution(#[trigger] r@[k]@, successors@, dim as int, value),
        forall|row: Seq<Coef>|
            is_distribution(row, successors@, dim as int, value) ==> views(r@).contains(row),
{
    let mut r: Vec<Ideal> = Vec::new();
    match value {
        Coef::Omega => {
            let mut row: Vec<Coef> = Vec::new();
            let mut j: usize = 0;
            while j < dim
                invariant
                    0 <= j <= dim,
                    row@.len() == j,
                    forall|t: int|
                        0 <= t < j ==> #[trigger] row@[t] == (if successors@.contains(t as usize) {
                            Coef::Omega
                        } else {
                            Coef::Value(0)
                        }),
                decreases dim - j,
            {
                if crate::graph::contains_usize(successors, j) {
                    row.push(Coef::Omega);
                } else {
                    row.push(Coef::Value(0));
                }
                j = j + 1;
            }
            r.push(Ideal::from_vec(row));
            proof {
                assert forall|row2: Seq<Coef>|
                    is_distribution(row2, successors@, dim as int, value) implies views(
                    r@,
                ).contains(row2) by {
                    assert(r@[0]@ =~= row2);
                    assert(views(r@)[0] == row2);
                }
            }
        },
        Coef::Value(v) => {
            if v == 0 && successors.len() == 0 {
                let zero = Ideal::new(dim, Coef::Value(0));
                r.push(zero);
                proof {
                    lemma_zero_row_sum(dim as nat);
                    assert(r@[0]@ =~= Seq::new(dim as nat, |i: int| Coef::Value(0)));
                    assert forall|row2: Seq<Coef>|
                        is_distribution(row2, successors@, dim as int, value) implies views(
                        r@,
                    ).contains(row2) by {
                        assert forall|j: int| 0 <= j < dim implies row2[j] == Coef::Value(0) by {
                            assert(!successors@.contains(j as usize));
                            assert(row2[j] == Coef::Value(0));
                        }
                        assert(r@[0]@ =~= row2);
                        assert(views(r@)[0] == row2);
                    }
                }
            } else {
                let transports = crate::partitions::get_transports(v, successors.len());
                let ghost preds = successors@.map_values(|q: usize| q as int);
                proof {
                    assert forall|t: int| 0 <= t < preds.len() implies 0 <= #[trigger] preds[t]
                        < dim by {
                        assert(successors@[t] < dim);
                    }
                    assert(preds.no_duplicates()) by {
                        assert forall|a: int, b: int|
                            0 <= a < preds.len() && 0 <= b < preds.len() && a != b implies preds[a]
                            != preds[b] by {
                            assert(successors@[a] != successors@[b]);
                        }
                    }
                }
                let mut m: usize = 0;
                while m < transports.len()
                    invariant
                        0 <= m <= transports@.len(),
                        successors@.no_duplicates(),
                        forall|t: int| 0 <= t < successors@.len() ==> #[trigger] successors@[t] < dim,
                        preds == successors@.map_values(|q: usize| q as int),
                        preds.no_duplicates(),
                        forall|t: int| 0 <= t < preds.len() ==> 0 <= #[trigger] preds[t] < dim,
                        forall|k: int|
                            0 <= k < transports@.len() ==> crate::partitions::is_composition(
                                #[trigger] transports@[k]@,
                                v,
                                successors@.len() as int,
                            ),
                        forall|p: Seq<u64>|
                            crate::partitions::is_composition(p, v, successors@.len() as int)
                                ==> #[trigger] crate::partitions::contains_part(transports@, p),
                        r@.len() == m,
                        forall|k: int|
                            0 <= k < m ==> #[trigger] r@[k]@ == Ideal::spec_scatter(
                                dim as nat,
                                transports@[k]@,
                                preds,
                            ),
                    decreases transports@.len() - m,
                {
                    let row = Ideal::from_non_zero_coefs(dim, &transports[m], successors);
                    r.push(row);
                    m = m + 1;
                }
                proof {
                    assert forall|k: int|
                        0 <= k < r@.len() implies is_distribution(
                        #[trigger] r@[k]@,
                        successors@,
                        dim as int,
                        value,
                    ) by {
                        lemma_scatter_props(dim as nat, transports@[k]@, preds);
                        assert forall|j: int|
                            0 <= j < dim && !successors@.contains(j as usize) implies #[trigger] r@[k]@[j]
                            == Coef::Value(0) by {
                            assert(!preds.contains(j)) by {
                                if preds.contains(j) {
                                    let t = choose|t: int|
                                        0 <= t < preds.len() && #[trigger] preds[t] == j;
                                    assert(successors@[t] == j as usize);
                                    assert(successors@.contains(j as usize));
                                }
                            }
                        }
                        assert(!Coef::seq_has_omega(r@[k]@)) by {
                            assert(forall|j: int|
                                0 <= j < dim ==> (#[trigger] r@[k]@[j]) is Value);
                        }
                    }
                    assert forall|row2: Seq<Coef>|
                        is_distribution(row2, successors@, dim as int, value) implies views(
                        r@,
                    ).contains(row2) by {
                        let p = Seq::new(
                            successors@.len() as nat,
                            |t: int| arbitrary_u64_of(row2[preds[t]]),
                        );
                        lemma_scatter_props(dim as nat, p, preds);
                        let sc = Ideal::spec_scatter(dim as nat, p, preds);
                        assert forall|j: int| 0 <= j < dim implies sc[j] == row2[j] by {
                            if preds.contains(j) {
                                let t = choose|t: int|
                                    0 <= t < preds.len() && #[trigger] preds[t] == j;
                                assert(sc[j] == Coef::Value(p[t]));
                                assert(successors@[t] == j as usize);
                                assert(successors@.contains(j as usize));
                                assert(!(row2[j] is Omega)) by {
                                    if row2[j] is Omega {
                                        assert(Coef::seq_has_omega(row2));
                                    }
                                }
                                assert(row2[j] == Coef::Value(arbitrary_u64_of(row2[j])));
                            } else {
                                assert(!successors@.contains(j as usize)) by {
                                    if successors@.contains(j as usize) {
                                        let t = choose|t: int|
                                            0 <= t < successors@.len() && #[trigger] successors@[t]
                                                == j as usize;
                                        assert(preds[t] == j);
                                    }
                                }
                                assert(row2[j] == Coef::Value(0));
                            }
                        }
                        assert(sc =~= row2);
                        assert(crate::partitions::is_composition(
                            p,
                            v,
                            successors@.len() as int,
                        )) by {
                            assert(Coef::seq_fin_sum(sc) == crate::partitions::u64_seq_sum(p));
                        }
                        assert(crate::partitions::contains_part(transports@, p));
                        let k = choose|k: int|
                            0 <= k < transports@.len() && #[trigger] transports@[k]@ == p;
                        assert(r@[k]@ == sc);
                        assert(views(r@)[k] == row2);
                        assert(views(r@).contains(row2));
                    }
                }
            }
        },
    }
    r
}

/// The finite value carried by a coefficient (0 for `Omega`).
pub open spec fn arbitrary_u64_of(c: Coef) -> u64 {
    match c {
        Coef::Value(v) => v,
        Coef::Omega => 0,
    }
}

/// One row of an adversarial resolution, phrased over the edge list.
pub open spec fn is_resolution_row(
    row: Seq<Coef>,
    edges: Seq<(usize, usize)>,
    i: int,
    dim: int,
    c: Coef,
) -> bool {
    row.len() == dim && match c {
        Coef::Omega => forall|j: int|
            0 <= j < dim ==> #[trigger] row[j] == (if edges.contains((i as usize, j as usize)) {
                Coef::Omega
            } else {
                Coef::Value(0)
            }),
        Coef::Value(v) => (forall|j: int|
            0 <= j < dim && !edges.contains((i as usize, j as usize)) ==> #[trigger] row[j]
                == Coef::Value(0)) && !Coef::seq_has_omega(row) && Coef::seq_fin_sum(row) == v,
    }
}

pub open spec fn zero_row(dim: int) -> Seq<Coef> {
    Seq::new(dim as nat, |i: int| Coef::Value(0))
}

/// Componentwise saturating sum of two rows.
pub open spec fn add_rows(a: Seq<Coef>, b: Seq<Coef>) -> Seq<Coef> {
    Seq::new(a.len(), |j: int| a[j].spec_add(b[j]))
}

/// The componentwise sum of a stack of rows.
pub open spec fn sum_rows(rows: Seq<Seq<Coef>>, dim: int) -> Seq<Coef>
    decreases rows.len(),
{
    if rows.len() == 0 {
        zero_row(dim)
    } else {
        add_rows(sum_rows(rows.drop_last(), dim), rows.last())
    }
}

/// What rounding up does to a vector of coefficients.
pub open spec fn round_up_seq(s: Seq<Coef>, k: u64) -> Seq<Coef> {
    Seq::new(s.len(), |i: int| s[i].spec_round_up(k))
}

/// `y` is a possible next configuration when the letter whose support is
/// `edges` is played from `dom`: for each state the adversary distributes the
/// tokens over the successors, the rows are summed, and finite components
/// above `k` are rounded up to `Omega`.
pub open spec fn is_image_point(
    y: Seq<Coef>,
    dom: Seq<Coef>,
    edges: Seq<(usize, usize)>,
    dim: int,
    k: u64,
) -> bool {
    exists|rows: Seq<Seq<Coef>>|
        rows.len() == dim && (forall|i: int|
            0 <= i < dim ==> is_resolution_row(#[trigger] rows[i], edges, i, dim, dom[i])) && y
            == round_up_seq(#[trigger] sum_rows(rows, dim), k)
}

/// A partial sum over the first `upto` source states.
pub open spec fn is_partial_image(
    y: Seq<Coef>,
    dom: Seq<Coef>,
    edges: Seq<(usize, usize)>,
    upto: int,
    dim: int,
) -> bool {
    exists|rows: Seq<Seq<Coef>>|
        rows.len() == upto && (forall|i: int|
            0 <= i < upto ==> is_resolution_row(#[trigger] rows[i], edges, i, dim, dom[i])) && y
            == #[trigger] sum_rows(rows, dim)
}

/// `y` is the sum of a member of `a` and a member of `c`.
pub open spec fn is_pair_sum(y: Seq<Coef>, a: Seq<Seq<Coef>>, c: Seq<Seq<Coef>>) -> bool {
    exists|m: int, n: int|
        0 <= m < a.len() && 0 <= n < c.len() && y == add_rows(#[trigger] a[m], #[trigger] c[n])
}

/// `y` rounds up from some member of `a`.
pub open spec fn is_roundup_member(a: Seq<Seq<Coef>>, y: Seq<Coef>, k: u64) -> bool {
    exists|m: int| 0 <= m < a.len() && y == round_up_seq(#[trigger] a[m], k)
}

/// All entries of `s` carry finite values of at most `b` (entries may be
/// `Omega`; the bound speaks of the carried numeric value).
pub open spec fn values_bounded(s: Seq<Coef>, b: int) -> bool {
    forall|j: int| 0 <= j < s.len() ==> (#[trigger] s[j]).spec_value() <= b
}

/// The set of configurations that one play of the letter can reach from
/// `dom`: every adversarial resolution, summed and rounded up at `k`.
pub fn get_image(dim: usize, dom: &Ideal, edges: &Graph, max_finite_value: u64) -> (r: DownSet)
    requires
        dom@.len() == dim,
        edges.spec_dim() == dim,
        edges.edges_within(),
        dim <= crate::coef::COEF_CAP,
        crate::ideal::fin_bounded(dom@, crate::coef::COEF_CAP as int),
        forall|i: int|
            0 <= i < dim && #[trigger] dom@[i] != Coef::Value(0) ==> exists|j: usize| #[trigger] edges@.contains(
                (i as usize, j),
            ),
    ensures
        r@.no_duplicates(),
        forall|m: int|
            0 <= m < r@.len() ==> is_image_point(
                #[trigger] r@[m],
                dom@,
                edges@,
                dim as int,
                max_finite_value,
            ),
        forall|y: Seq<Coef>|
            is_image_point(y, dom@, edges@, dim as int, max_finite_value) ==> r@.contains(y),
{
    let ghost cap = crate::coef::COEF_CAP as int;
    let mut acc: Vec<Ideal> = Vec::new();
    acc.push(Ideal::new(dim, Coef::Value(0)));
    proof {
        assert(acc@[0]@ =~= zero_row(dim as int));
        let rows0 = Seq::<Seq<Coef>>::empty();
        assert(sum_rows(rows0, dim as int) == zero_row(dim as int));
        assert(is_partial_image(acc@[0]@, dom@, edges@, 0, dim as int));
        assert forall|j: int| 0 <= j < dim implies (#[trigger] zero_row(dim as int)[j]).spec_value()
            <= 0 by {}
        assert forall|y: Seq<Coef>|
            is_partial_image(y, dom@, edges@, 0, dim as int) implies views(acc@).contains(y) by {
            let rows = choose|rows: Seq<Seq<Coef>>|
                rows.len() == 0 && (forall|t: int|
                    0 <= t < 0 ==> is_resolution_row(
                        #[trigger] rows[t],
                        edges@,
                        t,
                        dim as int,
                        dom@[t],
                    )) && y == #[trigger] sum_rows(rows, dim as int);
            assert(y == zero_row(dim as int));
            assert(views(acc@)[0] == y);
        }
    }
    let mut i: usize = 0;
    while i < dim
        invariant
            0 <= i <= dim,
            dom@.len() == dim,
            edges.spec_dim() == dim,
            edges.edges_within(),
            dim <= crate::coef::COEF_CAP,
            cap == crate::coef::COEF_CAP as int,
            crate::ideal::fin_bounded(dom@, cap),
            forall|ii: int|
                0 <= ii < dim && #[trigger] dom@[ii] != Coef::Value(0) ==> exists|j: usize| #[trigger] edges@.contains(
                    (ii as usize, j),
                ),
            forall|m: int| 0 <= m < acc@.len() ==> (#[trigger] acc@[m]@).len() == dim,
            forall|m: int| 0 <= m < acc@.len() ==> values_bounded(#[trigger] acc@[m]@, i * cap),
            forall|m: int|
                0 <= m < acc@.len() ==> is_partial_image(
                    #[trigger] acc@[m]@,
                    dom@,
                    edges@,
                    i as int,
                    dim as int,
                ),
            forall|y: Seq<Coef>|
                is_partial_image(y, dom@, edges@, i as int, dim as int) ==> views(acc@).contains(y),
        decreases dim - i,
    {
        let succ = edges.get_successors(i);
        proof {
            assert((dom@[i as int] matches Coef::Value(v) && v > 0) ==> succ@.len() > 0) by {
                if dom@[i as int] != Coef::Value(0) {
                    let j = choose|j: usize| #[trigger] edges@.contains((i as usize, j));
                    assert(succ@.contains(j));
                }
            }
            assert forall|t: int| 0 <= t < succ@.len() implies #[trigger] succ@[t] < dim by {
                assert(succ@.contains(succ@[t]));
                assert(edges@.contains((i as usize, succ@[t])));
                let e = choose|e: int|
                    0 <= e < edges@.len() && #[trigger] edges@[e] == (i as usize, succ@[t]);
            }
        }
        let choices = get_choices(dim, dom.get(i), &succ);
        // a distribution over the successor list is a resolution row
        proof {
            assert forall|row: Seq<Coef>|
                #![trigger is_distribution(row, succ@, dim as int, dom@[i as int])]
                is_distribution(row, succ@, dim as int, dom@[i as int]) <==> is_resolution_row(
                row,
                edges@,
                i as int,
                dim as int,
                dom@[i as int],
            ) by {
                if is_distribution(row, succ@, dim as int, dom@[i as int]) {
                    match dom@[i as int] {
                        Coef::Omega => {
                            assert forall|j: int|
                                0 <= j < dim implies #[trigger] row[j] == (if edges@.contains(
                                (i as usize, j as usize),
                            ) {
                                Coef::Omega
                            } else {
                                Coef::Value(0)
                            }) by {
                                assert(row[j] == (if succ@.contains(j as usize) {
                                    Coef::Omega
                                } else {
                                    Coef::Value(0)
                                }));
                                assert(succ@.contains(j as usize) == edges@.contains(
                                    (i as usize, j as usize),
                                ));
                            }
                        },
                        Coef::Value(v) => {
                            assert forall|j: int|
                                0 <= j < dim && !edges@.contains((i as usize, j as usize))
                                implies #[trigger] row[j] == Coef::Value(0) by {
                                assert(!succ@.contains(j as usize));
                            }
                        },
                    }
                }
                if is_resolution_row(row, edges@, i as int, dim as int, dom@[i as int]) {
                    match dom@[i as int] {
                        Coef::Omega => {
                            assert forall|j: int|
                                0 <= j < dim implies #[trigger] row[j] == (if succ@.contains(
                                j as usize,
                            ) {
                                Coef::Omega
                            } else {
                                Coef::Value(0)
                            }) by {
                                assert(row[j] == (if edges@.contains((i as usize, j as usize)) {
                                    Coef::Omega
                                } else {
                                    Coef::Value(0)
                                }));
                                assert(succ@.contains(j as usize) == edges@.contains(
                                    (i as usize, j as usize),
                                ));
                            }
                        },
                        Coef::Value(v) => {
                            assert forall|j: int|
                                0 <= j < dim && !succ@.contains(j as usize)
                                implies #[trigger] row[j] == Coef::Value(0) by {
                                assert(!edges@.contains((i as usize, j as usize)));
                            }
                        },
                    }
                }
            }
        }
        let mut next: Vec<Ideal> = Vec::new();
        let mut a: usize = 0;
        while a < acc.len()
            invariant
                0 <= a <= acc@.len(),
                dom@.len() == dim,
                0 <= i < dim,
                dim <= crate::coef::COEF_CAP,
                cap == crate::coef::COEF_CAP as int,
                crate::ideal::fin_bounded(dom@, cap),
                forall|m: int| 0 <= m < acc@.len() ==> (#[trigger] acc@[m]@).len() == dim,
                forall|m: int| 0 <= m < acc@.len() ==> values_bounded(#[trigger] acc@[m]@, i * cap),
                forall|k2: int|
                    0 <= k2 < choices@.len() ==> is_distribution(
                        #[trigger] choices@[k2]@,
                        succ@,
                        dim as int,
                        dom@[i as int],
                    ),
                forall|m: int| 0 <= m < next@.len() ==> (#[trigger] next@[m]@).len() == dim,
                forall|m: int|
                    0 <= m < next@.len() ==> values_bounded(#[trigger] next@[m]@, (i + 1) * cap),
                forall|m: int|
                    0 <= m < next@.len() ==> is_pair_sum(
                        #[trigger] next@[m]@,
                        views(acc@),
                        views(choices@),
                    ),
                forall|m: int, n: int|
                    0 <= m < a && 0 <= n < choices@.len() ==> views(next@).contains(
                        add_rows(#[trigger] views(acc@)[m], #[trigger] views(choices@)[n]),
                    ),
            decreases acc@.len() - a,
        {
            let mut c: usize = 0;
            while c < choices.len()
                invariant
                    0 <= c <= choices@.len(),
                    0 <= a < acc@.len(),
                    dom@.len() == dim,
                    0 <= i < dim,
                    dim <= crate::coef::COEF_CAP,
                    cap == crate::coef::COEF_CAP as int,
                    crate::ideal::fin_bounded(dom@, cap),
                    forall|m: int| 0 <= m < acc@.len() ==> (#[trigger] acc@[m]@).len() == dim,
                    forall|m: int|
                        0 <= m < acc@.len() ==> values_bounded(#[trigger] acc@[m]@, i * cap),
                    forall|k2: int|
                        0 <= k2 < choices@.len() ==> is_distribution(
                            #[trigger] choices@[k2]@,
                            succ@,
                            dim as int,
                            dom@[i as int],
                        ),
                    forall|m: int| 0 <= m < next@.len() ==> (#[trigger] next@[m]@).len() == dim,
                    forall|m: int|
                        0 <= m < next@.len() ==> values_bounded(#[trigger] next@[m]@, (i + 1) * cap),
                    forall|m: int|
                        0 <= m < next@.len() ==> is_pair_sum(
                            #[trigger] next@[m]@,
                            views(acc@),
                            views(choices@),
                        ),
                    forall|m: int, n: int|
                        0 <= m < a && 0 <= n < choices@.len() ==> views(next@).contains(
                            add_rows(#[trigger] views(acc@)[m], #[trigger] views(choices@)[n]),
                        ),
                    forall|n: int|
                        0 <= n < c ==> views(next@).contains(
                            add_rows(views(acc@)[a as int], #[trigger] views(choices@)[n]),
                        ),
                decreases choices@.len() - c,
            {
                let mut s = acc[a].clone();
                proof {
                    let row = choices@[c as int]@;
                    assert(values_bounded(row, cap)) by {
                        match dom@[i as int] {
                            Coef::Omega => {
                                assert forall|j: int|
                                    0 <= j < dim implies (#[trigger] row[j]).spec_value()
                                    <= cap by {}
                            },
                            Coef::Value(v) => {
                                assert forall|j: int|
                                    0 <= j < dim implies (#[trigger] row[j]).spec_value()
                                    <= cap by {
                                    Coef::lemma_entry_le_fin_sum(row, j);
                                }
                            },
                        }
                    }
                    assert forall|j: int|
                        0 <= j < dim implies #[trigger] s@[j].add_ok(choices@[c as int]@[j]) by {
                        assert(s@[j].spec_value() <= i * cap);
                        assert(row[j].spec_value() <= cap);
                        assert(i * cap + cap <= crate::coef::COEF_CAP * cap + cap) by (nonlinear_arith)
                            requires
                                i <= crate::coef::COEF_CAP,
                                cap >= 0,
                        ;
                    }
                }
                s.add_other(&choices[c]);
                proof {
                    assert(s@ =~= add_rows(acc@[a as int]@, choices@[c as int]@));
                    assert(values_bounded(s@, (i + 1) * cap)) by {
                        assert forall|j: int|
                            0 <= j < dim implies (#[trigger] s@[j]).spec_value() <= (i + 1)
                            * cap by {
                            assert((i + 1) * cap == i * cap + cap) by (nonlinear_arith);
                            assert(acc@[a as int]@[j].spec_value() <= i * cap);
                            Coef::lemma_entry_le_fin_sum(choices@[c as int]@, j);
                        }
                    }
                }
                let ghost pre_next = next@;
                next.push(s);
                proof {
                    assert(views(next@) =~= views(pre_next).push(next@[pre_next.len() as int]@));
                    assert(is_pair_sum(next@[pre_next.len() as int]@, views(acc@), views(choices@)))
                        by {
                        assert(views(acc@)[a as int] == acc@[a as int]@);
                        assert(views(choices@)[c as int] == choices@[c as int]@);
                    }
                    assert forall|m: int, n: int|
                        0 <= m < a && 0 <= n < choices@.len() implies views(next@).contains(
                        add_rows(#[trigger] views(acc@)[m], #[trigger] views(choices@)[n]),
                    ) by {
                        assert(views(pre_next).contains(add_rows(views(acc@)[m], views(choices@)[n])));
                        let w = choose|w: int|
                            0 <= w < views(pre_next).len() && #[trigger] views(pre_next)[w]
                                == add_rows(views(acc@)[m], views(choices@)[n]);
                        assert(views(next@)[w] == add_rows(views(acc@)[m], views(choices@)[n]));
                    }
                    assert forall|n: int|
                        0 <= n < c + 1 implies views(next@).contains(
                        add_rows(views(acc@)[a as int], #[trigger] views(choices@)[n]),
                    ) by {
                        if n < c {
                            assert(views(pre_next).contains(
                                add_rows(views(acc@)[a as int], views(choices@)[n]),
                            ));
                            let w = choose|w: int|
                                0 <= w < views(pre_next).len() && #[trigger] views(pre_next)[w]
                                    == add_rows(views(acc@)[a as int], views(choices@)[n]);
                            assert(views(next@)[w] == add_rows(
                                views(acc@)[a as int],
                                views(choices@)[n],
                            ));
                        } else {
                            assert(views(next@)[pre_next.len() as int] == add_rows(
                                views(acc@)[a as int],
                                views(choices@)[n],
                            ));
                        }
                    }
                }
                c = c + 1;
            }
            a = a + 1;
        }
        proof {
            lemma_partial_step_sound(
                dom@,
                edges@,
                i as int,
                dim as int,
                views(acc@),
                views(choices@),
                views(next@),
            );
            lemma_partial_step_complete(
                dom@,
                edges@,
                i as int,
                dim as int,
                views(acc@),
                views(choices@),
                views(next@),
            );
            assert forall|m: int|
                0 <= m < next@.len() implies is_partial_image(
                #[trigger] next@[m]@,
                dom@,
                edges@,
                i + 1,
                dim as int,
            ) by {
                assert(views(next@)[m] == next@[m]@);
            }
        }
        acc = next;
        i = i + 1;
    }
    // round every accumulated configuration up at the bound and collect
    let mut r = DownSet::new();
    let mut m: usize = 0;
    while m < acc.len()
        invariant
            0 <= m <= acc@.len(),
            r@.no_duplicates(),
            forall|y: Seq<Coef>|
                r@.contains(y) <==> is_roundup_member(
                    views(acc@).take(m as int),
                    y,
                    max_finite_value,
                ),
        decreases acc@.len() - m,
    {
        let rounded = acc[m].round_up(max_finite_value);
        proof {
            assert(rounded@ =~= round_up_seq(acc@[m as int]@, max_finite_value));
        }
        let ghost pre = r@;
        r.push_member(&rounded);
        proof {
            let av = views(acc@);
            assert(av.take(m + 1) =~= av.take(m as int).push(av[m as int]));
            assert forall|y: Seq<Coef>|
                r@.contains(y) <==> is_roundup_member(av.take(m + 1), y, max_finite_value) by {
                if r@.contains(y) {
                    let w = choose|w: int| 0 <= w < r@.len() && #[trigger] r@[w] == y;
                    if w < pre.len() {
                        assert(pre.contains(y));
                        assert(is_roundup_member(av.take(m as int), y, max_finite_value));
                        let t = choose|t: int|
                            0 <= t < av.take(m as int).len() && y == round_up_seq(
                                #[trigger] av.take(m as int)[t],
                                max_finite_value,
                            );
                        assert(av.take(m + 1)[t] == av.take(m as int)[t]);
                        assert(is_roundup_member(av.take(m + 1), y, max_finite_value));
                    } else {
                        assert(y == rounded@);
                        assert(av.take(m + 1)[m as int] == acc@[m as int]@);
                        assert(is_roundup_member(av.take(m + 1), y, max_finite_value));
                    }
                }
                if is_roundup_member(av.take(m + 1), y, max_finite_value) {
                    let t = choose|t: int|
                        0 <= t < av.take(m + 1).len() && y == round_up_seq(
                            #[trigger] av.take(m + 1)[t],
                            max_finite_value,
                        );
                    if t < m {
                        assert(av.take(m as int)[t] == av.take(m + 1)[t]);
                        assert(is_roundup_member(av.take(m as int), y, max_finite_value));
                        assert(pre.contains(y));
                        let w = choose|w: int| 0 <= w < pre.len() && #[trigger] pre[w] == y;
                        if r@ == pre {
                        } else {
                            assert(r@ == pre.push(rounded@));
                            assert(r@[w] == y);
                        }
                    } else {
                        assert(y == rounded@);
                        if r@ == pre {
                            assert(pre.contains(rounded@));
                        } else {
                            assert(r@ == pre.push(rounded@));
                            assert(r@[pre.len() as int] == y);
                        }
                    }
                    assert(r@.contains(y));
                }
            }
        }
        m = m + 1;
    }
    proof {
        let av = views(acc@);
        assert(av.take(av.len() as int) =~= av);
        assert forall|w: int|
            0 <= w < r@.len() implies is_image_point(
            #[trigger] r@[w],
            dom@,
            edges@,
            dim as int,
            max_finite_value,
        ) by {
            assert(r@.contains(r@[w]));
            assert(is_roundup_member(av, r@[w], max_finite_value));
            let t = choose|t: int|
                0 <= t < av.len() && r@[w] == round_up_seq(#[trigger] av[t], max_finite_value);
            assert(is_partial_image(acc@[t]@, dom@, edges@, dim as int, dim as int));
            let rows = choose|rows: Seq<Seq<Coef>>|
                rows.len() == dim as int && (forall|q: int|
                    0 <= q < dim as int ==> is_resolution_row(
                        #[trigger] rows[q],
                        edges@,
                        q,
                        dim as int,
                        dom@[q],
                    )) && acc@[t]@ == #[trigger] sum_rows(rows, dim as int);
            assert(r@[w] == round_up_seq(sum_rows(rows, dim as int), max_finite_value));
        }
        assert forall|y: Seq<Coef>|
            is_image_point(y, dom@, edges@, dim as int, max_finite_value) implies r@.contains(
            y,
        ) by {
            let rows = choose|rows: Seq<Seq<Coef>>|
                rows.len() == dim as int && (forall|q: int|
                    0 <= q < dim as int ==> is_resolution_row(
                        #[trigger] rows[q],
                        edges@,
                        q,
                        dim as int,
                        dom@[q],
                    )) && y == round_up_seq(#[trigger] sum_rows(rows, dim as int), max_finite_value);
            assert(is_partial_image(sum_rows(rows, dim as int), dom@, edges@, dim as int, dim as int));
            assert(av.contains(sum_rows(rows, dim as int)));
            let t = choose|t: int|
                0 <= t < av.len() && #[trigger] av[t] == sum_rows(rows, dim as int);
            assert(is_roundup_member(av, y, max_finite_value));
        }
    }
    r
}

/// Extending every partial sum by every distribution of the next state
/// yields exactly the partial sums over one more state: soundness.
proof fn lemma_partial_step_sound(
    dom: Seq<Coef>,
    edges: Seq<(usize, usize)>,
    i: int,
    dim: int,
    accv: Seq<Seq<Coef>>,
    choicesv: Seq<Seq<Coef>>,
    nextv: Seq<Seq<Coef>>,
)
    requires
        0 <= i < dim,
        forall|m: int| 0 <= m < accv.len() ==> is_partial_image(#[trigger] accv[m], dom, edges, i, dim),
        forall|n: int|
            0 <= n < choicesv.len() ==> is_resolution_row(
                #[trigger] choicesv[n],
                edges,
                i,
                dim,
                dom[i],
            ),
        forall|m: int| 0 <= m < nextv.len() ==> is_pair_sum(#[trigger] nextv[m], accv, choicesv),
    ensures
        forall|m: int|
            0 <= m < nextv.len() ==> is_partial_image(#[trigger] nextv[m], dom, edges, i + 1, dim),
{
    assert forall|m: int|
        0 <= m < nextv.len() implies is_partial_image(#[trigger] nextv[m], dom, edges, i + 1, dim) by {
        let (ma, nc) = choose|ma: int, nc: int|
            0 <= ma < accv.len() && 0 <= nc < choicesv.len() && nextv[m] == add_rows(
                #[trigger] accv[ma],
                #[trigger] choicesv[nc],
            );
        let rows = choose|rows: Seq<Seq<Coef>>|
            rows.len() == i && (forall|t: int|
                0 <= t < i ==> is_resolution_row(#[trigger] rows[t], edges, t, dim, dom[t]))
                && accv[ma] == #[trigger] sum_rows(rows, dim);
        let rows2 = rows.push(choicesv[nc]);
        assert(rows2.drop_last() =~= rows);
        assert(rows2.last() == choicesv[nc]);
        assert forall|t: int|
            0 <= t < i + 1 implies is_resolution_row(#[trigger] rows2[t], edges, t, dim, dom[t]) by {
            if t < i {
                assert(rows2[t] == rows[t]);
            }
        }
        assert(sum_rows(rows2, dim) == add_rows(sum_rows(rows, dim), choicesv[nc]));
        assert(nextv[m] == sum_rows(rows2, dim));
    }
}

/// Extending every partial sum by every distribution of the next state
/// yields exactly the partial sums over one more state: completeness.
proof fn lemma_partial_step_complete(
    dom: Seq<Coef>,
    edges: Seq<(usize, usize)>,
    i: int,
    dim: int,
    accv: Seq<Seq<Coef>>,
    choicesv: Seq<Seq<Coef>>,
    nextv: Seq<Seq<Coef>>,
)
    requires
        0 <= i < dim,
        forall|y: Seq<Coef>| is_partial_image(y, dom, edges, i, dim) ==> accv.contains(y),
        forall|row: Seq<Coef>|
            is_resolution_row(row, edges, i, dim, dom[i]) ==> choicesv.contains(row),
        forall|m: int, n: int|
            0 <= m < accv.len() && 0 <= n < choicesv.len() ==> nextv.contains(
                add_rows(#[trigger] accv[m], #[trigger] choicesv[n]),
            ),
    ensures
        forall|y: Seq<Coef>| is_partial_image(y, dom, edges, i + 1, dim) ==> nextv.contains(y),
{
    assert forall|y: Seq<Coef>|
        is_partial_image(y, dom, edges, i + 1, dim) implies nextv.contains(y) by {
        let rows = choose|rows: Seq<Seq<Coef>>|
            rows.len() == i + 1 && (forall|t: int|
                0 <= t < i + 1 ==> is_resolution_row(#[trigger] rows[t], edges, t, dim, dom[t]))
                && y == #[trigger] sum_rows(rows, dim);
        let prefix = rows.drop_last();
        assert forall|t: int|
            0 <= t < i implies is_resolution_row(#[trigger] prefix[t], edges, t, dim, dom[t]) by {
            assert(prefix[t] == rows[t]);
        }
        assert(is_partial_image(sum_rows(prefix, dim), dom, edges, i, dim));
        assert(accv.contains(sum_rows(prefix, dim)));
        let ma = choose|ma: int|
            0 <= ma < accv.len() && #[trigger] accv[ma] == sum_rows(prefix, dim);
        assert(is_resolution_row(rows.last(), edges, i, dim, dom[i]));
        assert(choicesv.contains(rows.last()));
        let nc = choose|nc: int| 0 <= nc < choicesv.len() && #[trigger] choicesv[nc] == rows.last();
        assert(nextv.contains(add_rows(accv[ma], choicesv[nc])));
        assert(y == add_rows(sum_rows(prefix, dim), rows.last()));
    }
}

/// Playing from `c` along `edges` is safe for the downward closure `d`:
/// no tokens stand on a state without successors, and every reachable
/// configuration (after rounding up at `k`) lies in the closure.
pub open spec fn spec_safe(
    d: Seq<Seq<Coef>>,
    c: Seq<Coef>,
    edges: Seq<(usize, usize)>,
    dim: int,
    k: u64,
) -> bool {
    c.len() == dim && (forall|i: int|
        0 <= i < dim && #[trigger] c[i] != Coef::Value(0) ==> exists|j: usize| #[trigger] edges.contains(
            (i as usize, j),
        )) && (forall|y: Seq<Coef>| is_image_point(y, c, edges, dim, k) ==> covers(d, y))
}

/// The finite bound a member's coordinate contributes: its value, or `k`
/// for `Omega`.
pub open spec fn cap_val(c: Coef, k: u64) -> int {
    match c {
        Coef::Omega => k as int,
        Coef::Value(v) => v as int,
    }
}

/// Some member of `d` lets `v` tokens through some successor of `i`.
pub open spec fn axis_reach(
    d: Seq<Seq<Coef>>,
    edges: Seq<(usize, usize)>,
    i: int,
    v: int,
    k: u64,
) -> bool {
    exists|m: int, j: usize|
        0 <= m < d.len() && #[trigger] edges.contains((i as usize, j)) && v <= cap_val(
            #[trigger] d[m][j as int],
            k,
        )
}

/// Member `m` of `d` holds `Omega` on every listed successor.
pub open spec fn row_all_omega(d: Seq<Seq<Coef>>, m: int, succ: Seq<usize>) -> bool {
    forall|t: int| 0 <= t < succ.len() ==> (#[trigger] d[m][succ[t] as int]) is Omega
}

/// `Omega` is admissible at `i`: the state has successors and some member of
/// `d` holds `Omega` on all of them.
pub open spec fn omega_possible(d: Seq<Seq<Coef>>, edges: Seq<(usize, usize)>, i: int) -> bool {
    (exists|j: usize| #[trigger] edges.contains((i as usize, j))) && exists|m: int|
        #![trigger d[m]]
        0 <= m < d.len() && forall|j: usize|
            #[trigger] edges.contains((i as usize, j)) ==> d[m][j as int] is Omega
}

/// The coefficients the search considers on axis `i`.
pub open spec fn axis_ok(
    d: Seq<Seq<Coef>>,
    edges: Seq<(usize, usize)>,
    i: int,
    c: Coef,
    k: u64,
) -> bool {
    match c {
        Coef::Omega => omega_possible(d, edges, i),
        Coef::Value(v) => (v == 0 && (!omega_possible(d, edges, i) || (k >= 1 && axis_reach(
            d,
            edges,
            i,
            1,
            k,
        )))) || (1 <= v && v <= k && axis_reach(d, edges, i, v as int, k)),
    }
}

/// `x` lies on the finite grid that the search walks.
pub open spec fn grid_ok(
    d: Seq<Seq<Coef>>,
    edges: Seq<(usize, usize)>,
    dim: int,
    k: u64,
    x: Seq<Coef>,
) -> bool {
    x.len() == dim && forall|i: int| 0 <= i < dim ==> axis_ok(d, edges, i, #[trigger] x[i], k)
}

impl DownSet {
    /// Whether it is safe to play the letter with support `edges` from the
    /// configuration `candidate`: no token is lost on a dead end, and every
    /// adversarial outcome, rounded up at the bound, stays in this downward
    /// closure.
    pub fn is_safe_with_roundup(
        &self,
        candidate: &Ideal,
        edges: &Graph,
        maximal_finite_coordinate: u64,
    ) -> (r: bool)
        requires
            candidate@.len() == edges.spec_dim(),
            edges.edges_within(),
            edges.spec_dim() <= crate::coef::COEF_CAP,
            crate::ideal::fin_bounded(candidate@, crate::coef::COEF_CAP as int),
        ensures
            r == spec_safe(
                self@,
                candidate@,
                edges@,
                edges.spec_dim() as int,
                maximal_finite_coordinate,
            ),
    {
        let dim = edges.dim();
        let mut i: usize = 0;
        while i < dim
            invariant
                0 <= i <= dim,
                candidate@.len() == dim,
                dim == edges.spec_dim(),
                forall|t: int|
                    0 <= t < i && #[trigger] candidate@[t] != Coef::Value(0) ==> exists|j: usize| #[trigger] edges@.contains(
                        (t as usize, j),
                    ),
            decreases dim - i,
        {
            let c = candidate.get(i);
            if !(c == Coef::Value(0)) {
                let succ = edges.get_successors(i);
                if succ.len() == 0 {
                    proof {
                        assert forall|j: usize| !(#[trigger] edges@.contains((i as usize, j))) by {
                            if edges@.contains((i as usize, j)) {
                                assert(succ@.contains(j));
                            }
                        }
                        assert(!spec_safe(
                            self@,
                            candidate@,
                            edges@,
                            dim as int,
                            maximal_finite_coordinate,
                        ));
                    }
                    return false;
                }
                proof {
                    assert(succ@.contains(succ@[0]));
                    assert(edges@.contains((i as usize, succ@[0])));
                }
            }
            i = i + 1;
        }
        let image = get_image(dim, candidate, edges, maximal_finite_coordinate);
        let members = image.ideals();
        let mut m: usize = 0;
        while m < members.len()
            invariant
                0 <= m <= members@.len(),
                members@.map_values(|i0: Ideal| i0@) == image@,
                dim == edges.spec_dim(),
                candidate@.len() == dim,
                forall|t: int|
                    0 <= t < dim && #[trigger] candidate@[t] != Coef::Value(0) ==> exists|j: usize| #[trigger] edges@.contains(
                        (t as usize, j),
                    ),
                forall|t: int|
                    0 <= t < image@.len() ==> is_image_point(
                        #[trigger] image@[t],
                        candidate@,
                        edges@,
                        dim as int,
                        maximal_finite_coordinate,
                    ),
                forall|y: Seq<Coef>|
                    is_image_point(y, candidate@, edges@, dim as int, maximal_finite_coordinate)
                        ==> image@.contains(y),
                forall|t: int| 0 <= t < m ==> covers(self@, #[trigger] image@[t]),
            decreases members@.len() - m,
        {
            if !self.contains(&members[m]) {
                proof {
                    assert(image@[m as int] == members@[m as int]@);
                    assert(is_image_point(
                        image@[m as int],
                        candidate@,
                        edges@,
                        dim as int,
                        maximal_finite_coordinate,
                    ));
                    assert(!covers(self@, image@[m as int]));
                }
                return false;
            }
            proof {
                assert(image@[m as int] == members@[m as int]@);
            }
            m = m + 1;
        }
        proof {
            assert forall|y: Seq<Coef>|
                is_image_point(y, candidate@, edges@, dim as int, maximal_finite_coordinate)
                implies covers(self@, y) by {
                assert(image@.contains(y));
                let t = choose|t: int| 0 <= t < image@.len() && #[trigger] image@[t] == y;
            }
        }
        true
    }
}

/// All vectors whose `i`-th coordinate is drawn from the `i`-th list.
pub fn enumerate_grid(axes: &Vec<Vec<Coef>>) -> (r: Vec<Ideal>)
    ensures
        forall|m: int| 0 <= m < r@.len() ==> (#[trigger] r@[m]@).len() == axes@.len(),
        forall|m: int, i: int|
            0 <= m < r@.len() && 0 <= i < axes@.len() ==> axes@[i]@.contains(#[trigger] r@[m]@[i]),
        forall|x: Seq<Coef>|
            #![trigger views(r@).contains(x)]
            (x.len() == axes@.len() && forall|i: int|
                0 <= i < axes@.len() ==> axes@[i]@.contains(#[trigger] x[i])) ==> views(
                r@,
            ).contains(x),
{
    let mut acc: Vec<Ideal> = Vec::new();
    acc.push(Ideal::from_vec(Vec::new()));
    proof {
        assert(acc@[0]@ =~= Seq::<Coef>::empty());
        assert forall|x: Seq<Coef>|
            #![trigger views(acc@).contains(x)]
            (x.len() == 0 && forall|i: int|
                0 <= i < 0 ==> axes@[i]@.contains(#[trigger] x[i])) implies views(acc@).contains(
            x,
        ) by {
            assert(x =~= acc@[0]@);
            assert(views(acc@)[0] == x);
        }
    }
    let mut i: usize = 0;
    while i < axes.len()
        invariant
            0 <= i <= axes@.len(),
            forall|m: int| 0 <= m < acc@.len() ==> (#[trigger] acc@[m]@).len() == i,
            forall|m: int, t: int|
                0 <= m < acc@.len() && 0 <= t < i ==> axes@[t]@.contains(#[trigger] acc@[m]@[t]),
            forall|x: Seq<Coef>|
                #![trigger views(acc@).contains(x)]
                (x.len() == i && forall|t: int|
                    0 <= t < i ==> axes@[t]@.contains(#[trigger] x[t])) ==> views(acc@).contains(x),
        decreases axes@.len() - i,
    {
        let axis = &axes[i];
        let mut next: Vec<Ideal> = Vec::new();
        let mut a: usize = 0;
        while a < acc.len()
            invariant
                0 <= a <= acc@.len(),
                0 <= i < axes@.len(),
                axis@ == axes@[i as int]@,
                forall|m: int| 0 <= m < acc@.len() ==> (#[trigger] acc@[m]@).len() == i,
                forall|m: int, t: int|
                    0 <= m < acc@.len() && 0 <= t < i ==> axes@[t]@.contains(
                        #[trigger] acc@[m]@[t],
                    ),
                forall|m: int| 0 <= m < next@.len() ==> (#[trigger] next@[m]@).len() == i + 1,
                forall|m: int, t: int|
                    0 <= m < next@.len() && 0 <= t < i + 1 ==> axes@[t]@.contains(
                        #[trigger] next@[m]@[t],
                    ),
                forall|m: int, n: int|
                    0 <= m < a && 0 <= n < axis@.len() ==> views(next@).contains(
                        (#[trigger] views(acc@)[m]).push(#[trigger] axis@[n]),
                    ),
                forall|x: Seq<Coef>|
                    #![trigger views(acc@).contains(x)]
                    (x.len() == i && forall|t: int|
                        0 <= t < i ==> axes@[t]@.contains(#[trigger] x[t])) ==> views(
                        acc@,
                    ).contains(x),
            decreases acc@.len() - a,
        {
            let mut c: usize = 0;
            while c < axis.len()
                invariant
                    0 <= c <= axis@.len(),
                    0 <= a < acc@.len(),
                    0 <= i < axes@.len(),
                    axis@ == axes@[i as int]@,
                    forall|m: int| 0 <= m < acc@.len() ==> (#[trigger] acc@[m]@).len() == i,
                    forall|m: int, t: int|
                        0 <= m < acc@.len() && 0 <= t < i ==> axes@[t]@.contains(
                            #[trigger] acc@[m]@[t],
                        ),
                    forall|m: int| 0 <= m < next@.len() ==> (#[trigger] next@[m]@).len() == i + 1,
                    forall|m: int, t: int|
                        0 <= m < next@.len() && 0 <= t < i + 1 ==> axes@[t]@.contains(
                            #[trigger] next@[m]@[t],
                        ),
                    forall|m: int, n: int|
                        0 <= m < a && 0 <= n < axis@.len() ==> views(next@).contains(
                            (#[trigger] views(acc@)[m]).push(#[trigger] axis@[n]),
                        ),
                    forall|n: int|
                        0 <= n < c ==> views(next@).contains(
                            views(acc@)[a as int].push(#[trigger] axis@[n]),
                        ),
                    forall|x: Seq<Coef>|
                        #![trigger views(acc@).contains(x)]
                        (x.len() == i && forall|t: int|
                            0 <= t < i ==> axes@[t]@.contains(#[trigger] x[t])) ==> views(
                            acc@,
                        ).contains(x),
                decreases axis@.len() - c,
            {
                let mut v = crate::ideal::clone_coef_vec(acc[a].iter());
                v.push(axis[c]);
                let ghost pre_next = next@;
                next.push(Ideal::from_vec(v));
                proof {
                    assert(next@[pre_next.len() as int]@ == acc@[a as int]@.push(
                        axis@[c as int],
                    ));
                    assert forall|t: int|
                        0 <= t < i + 1 implies axes@[t]@.contains(
                        #[trigger] next@[pre_next.len() as int]@[t],
                    ) by {
                        if t < i {
                            assert(next@[pre_next.len() as int]@[t] == acc@[a as int]@[t]);
                        } else {
                            assert(next@[pre_next.len() as int]@[t] == axis@[c as int]);
                            assert(axis@.contains(axis@[c as int]));
                        }
                    }
                    assert forall|m: int, n: int|
                        0 <= m < a && 0 <= n < axis@.len() implies views(next@).contains(
                        (#[trigger] views(acc@)[m]).push(#[trigger] axis@[n]),
                    ) by {
                        assert(views(pre_next).contains(views(acc@)[m].push(axis@[n])));
                        let w = choose|w: int|
                            0 <= w < views(pre_next).len() && #[trigger] views(pre_next)[w]
                                == views(acc@)[m].push(axis@[n]);
                        assert(views(next@)[w] == views(acc@)[m].push(axis@[n]));
                    }
                    assert forall|n: int|
                        0 <= n < c + 1 implies views(next@).contains(
                        views(acc@)[a as int].push(#[trigger] axis@[n]),
                    ) by {
                        if n < c {
                            assert(views(pre_next).contains(
                                views(acc@)[a as int].push(axis@[n]),
                            ));
                            let w = choose|w: int|
                                0 <= w < views(pre_next).len() && #[trigger] views(pre_next)[w]
                                    == views(acc@)[a as int].push(axis@[n]);
                            assert(views(next@)[w] == views(acc@)[a as int].push(axis@[n]));
                        } else {
                            assert(views(next@)[pre_next.len() as int] == views(
                                acc@,
                            )[a as int].push(axis@[n]));
                        }
                    }
                }
                c = c + 1;
            }
            a = a + 1;
        }
        proof {
            assert forall|x: Seq<Coef>|
                #![trigger views(next@).contains(x)]
                (x.len() == i + 1 && forall|t: int|
                    0 <= t < i + 1 ==> axes@[t]@.contains(#[trigger] x[t])) implies views(
                next@,
            ).contains(x) by {
                let prefix = x.drop_last();
                assert forall|t: int|
                    0 <= t < i implies axes@[t]@.contains(#[trigger] prefix[t]) by {
                    assert(prefix[t] == x[t]);
                }
                assert(views(acc@).contains(prefix));
                let ma = choose|ma: int|
                    0 <= ma < views(acc@).len() && #[trigger] views(acc@)[ma] == prefix;
                assert(axes@[i as int]@.contains(x[i as int]));
                let nc = choose|nc: int|
                    0 <= nc < axis@.len() && #[trigger] axis@[nc] == x[i as int];
                assert(views(next@).contains(views(acc@)[ma].push(axis@[nc])));
                assert(views(acc@)[ma].push(axis@[nc]) =~= x);
            }
        }
        acc = next;
        i = i + 1;
    }
    acc
}

/// Integer minimum.
pub open spec fn imin(a: int, b: int) -> int {
    if a < b {
        a
    } else {
        b
    }
}

/// A stack of all-zero rows sums to the zero row.
proof fn lemma_sum_zero_rows(n: nat, dim: int)
    ensures
        sum_rows(Seq::new(n, |t: int| zero_row(dim)), dim) == zero_row(dim),
    decreases n,
{
    let rows = Seq::new(n, |t: int| zero_row(dim));
    if n > 0 {
        lemma_sum_zero_rows((n - 1) as nat, dim);
        assert(rows.drop_last() =~= Seq::new((n - 1) as nat, |t: int| zero_row(dim)));
        assert(rows.last() == zero_row(dim));
        assert(add_rows(zero_row(dim), zero_row(dim)) =~= zero_row(dim));
    }
}

/// The empty configuration reaches only itself: playing any letter from the
/// all-zero configuration lands on the all-zero configuration.
proof fn lemma_zero_image(edges: Seq<(usize, usize)>, dim: int, k: u64)
    requires
        dim >= 0,
    ensures
        is_image_point(zero_row(dim), zero_row(dim), edges, dim, k),
{
    let rows = Seq::new(dim as nat, |t: int| zero_row(dim));
    lemma_zero_row_sum(dim as nat);
    assert forall|t: int|
        0 <= t < dim implies is_resolution_row(
        #[trigger] rows[t],
        edges,
        t,
        dim,
        zero_row(dim)[t],
    ) by {
        assert(zero_row(dim)[t] == Coef::Value(0));
        assert(rows[t] == zero_row(dim));
    }
    lemma_sum_zero_rows(dim as nat, dim);
    assert(round_up_seq(zero_row(dim), k) =~= zero_row(dim));
}

impl DownSet {
    /// The largest count that column `j` of some member can absorb, `Omega`
    /// counting as the bound `k`.
    fn col_cap_max(&self, j: usize, k: u64) -> (r: u64)
        requires
            self@.len() > 0,
            forall|m: int| 0 <= m < self@.len() ==> j < (#[trigger] self@[m]).len(),
            k <= crate::coef::COEF_CAP,
        ensures
            forall|m: int| 0 <= m < self@.len() ==> cap_val(#[trigger] self@[m][j as int], k) <= r,
            exists|m: int| 0 <= m < self@.len() && cap_val(#[trigger] self@[m][j as int], k) == r,
    {
        proof {
            assert(self.ideals@[0]@ == self@[0]);
        }
        let mut best: u64 = 0;
        let mut m: usize = 0;
        let first = match self.ideals[0].get(j) {
            Coef::Omega => k,
            Coef::Value(v) => v,
        };
        best = first;
        proof {
            assert(cap_val(self@[0][j as int], k) == best);
        }
        m = 1;
        while m < self.ideals.len()
            invariant
                1 <= m <= self@.len(),
                forall|t: int| 0 <= t < self@.len() ==> j < (#[trigger] self@[t]).len(),
                forall|t: int| 0 <= t < m ==> cap_val(#[trigger] self@[t][j as int], k) <= best,
                exists|t: int| 0 <= t < m && cap_val(#[trigger] self@[t][j as int], k) == best,
            decreases self@.len() - m,
        {
            proof {
                assert(self.ideals@[m as int]@ == self@[m as int]);
            }
            let c = match self.ideals[m].get(j) {
                Coef::Omega => k,
                Coef::Value(v) => v,
            };
            if c > best {
                best = c;
            }
            m = m + 1;
        }
        best
    }

    /// The largest finite count admissible at a state whose distinct
    /// successor list is `succ`, capped at `k`.
    fn axis_limit(&self, succ: &Vec<usize>, k: u64) -> (r: u64)
        requires
            self@.len() > 0,
            forall|m: int, t: int|
                0 <= m < self@.len() && 0 <= t < succ@.len() ==> #[trigger] succ@[t] < (
                #[trigger] self@[m]).len(),
            k <= crate::coef::COEF_CAP,
        ensures
            r <= k,
            succ@.len() == 0 ==> r == 0,
            forall|t: int, m: int|
                0 <= t < succ@.len() && 0 <= m < self@.len() ==> imin(
                    k as int,
                    cap_val(#[trigger] self@[m][succ@[t] as int], k),
                ) <= r,
            succ@.len() > 0 ==> exists|t: int, m: int|
                0 <= t < succ@.len() && 0 <= m < self@.len() && r <= cap_val(
                    #[trigger] self@[m][succ@[t] as int],
                    k,
                ),
    {
        let mut best: u64 = 0;
        let mut t: usize = 0;
        let ghost mut wt: int = 0;
        let ghost mut wm: int = 0;
        while t < succ.len()
            invariant
                0 <= t <= succ@.len(),
                self@.len() > 0,
                k <= crate::coef::COEF_CAP,
                best <= k,
                forall|m: int, q: int|
                    0 <= m < self@.len() && 0 <= q < succ@.len() ==> #[trigger] succ@[q] < (
                    #[trigger] self@[m]).len(),
                forall|q: int, m: int|
                    0 <= q < t && 0 <= m < self@.len() ==> imin(
                        k as int,
                        cap_val(#[trigger] self@[m][succ@[q] as int], k),
                    ) <= best,
                t == 0 ==> best == 0,
                t > 0 && best > 0 ==> 0 <= wt < succ@.len() && 0 <= wm < self@.len() && best
                    <= cap_val(self@[wm][succ@[wt] as int], k),
            decreases succ@.len() - t,
        {
            let cm = self.col_cap_max(succ[t], k);
            let capped = if cm < k {
                cm
            } else {
                k
            };
            proof {
                let m0 = choose|m0: int|
                    0 <= m0 < self@.len() && cap_val(#[trigger] self@[m0][succ@[t as int] as int], k)
                        == cm;
                if capped > best {
                    wt = t as int;
                    wm = m0;
                }
            }
            if capped > best {
                best = capped;
            }
            t = t + 1;
        }
        proof {
            if succ@.len() > 0 {
                if best == 0 {
                    assert(0 <= succ@[0] as int);
                    assert(best <= cap_val(self@[0][succ@[0] as int], k));
                    assert(exists|t2: int, m2: int|
                        0 <= t2 < succ@.len() && 0 <= m2 < self@.len() && best <= cap_val(
                            #[trigger] self@[m2][succ@[t2] as int],
                            k,
                        ));
                } else {
                    assert(best <= cap_val(self@[wm][succ@[wt] as int], k));
                    assert(exists|t2: int, m2: int|
                        0 <= t2 < succ@.len() && 0 <= m2 < self@.len() && best <= cap_val(
                            #[trigger] self@[m2][succ@[t2] as int],
                            k,
                        ));
                }
            }
        }
        best
    }

    /// The coefficients the search walks on axis `i`: `Omega` where a member
    /// floods every successor, and the finite counts up to the axis limit.
    fn build_axis(&self, edges: &Graph, i: usize, k: u64) -> (r: Vec<Coef>)
        requires
            self@.len() > 0,
            uniform_dim(self@, edges.spec_dim() as int),
            edges.edges_within(),
            k <= crate::coef::COEF_CAP,
            i < edges.spec_dim(),
        ensures
            forall|c: Coef| r@.contains(c) <==> axis_ok(self@, edges@, i as int, c, k),
    {
        let succ = edges.get_successors(i);
        proof {
            assert forall|t: int| 0 <= t < succ@.len() implies #[trigger] succ@[t]
                < edges.spec_dim() by {
                assert(succ@.contains(succ@[t]));
                assert(edges@.contains((i as usize, succ@[t])));
                let e = choose|e: int|
                    0 <= e < edges@.len() && #[trigger] edges@[e] == (i as usize, succ@[t]);
            }
        }
        // whether Omega is admissible: some member floods every successor
        let mut omega_flag: bool = false;
        proof {
            if succ@.len() == 0 && omega_possible(self@, edges@, i as int) {
                let j0 = choose|j0: usize| #[trigger] edges@.contains((i as usize, j0));
                assert(succ@.contains(j0));
                assert(false);
            }
        }
        if succ.len() > 0 {
            let mut m: usize = 0;
            while m < self.ideals.len()
                invariant
                    0 <= m <= self@.len(),
                    succ@.len() > 0,
                    uniform_dim(self@, edges.spec_dim() as int),
                    forall|t: int| 0 <= t < succ@.len() ==> #[trigger] succ@[t] < edges.spec_dim(),
                    forall|j: usize| succ@.contains(j) <==> edges@.contains((i as usize, j)),
                    omega_flag ==> omega_possible(self@, edges@, i as int),
                    !omega_flag ==> forall|m2: int|
                        0 <= m2 < m ==> !(#[trigger] row_all_omega(self@, m2, succ@)),
                decreases self@.len() - m,
            {
                if !omega_flag {
                    proof {
                        assert(self.ideals@[m as int]@ == self@[m as int]);
                        assert(self@[m as int].len() == edges.spec_dim());
                    }
                    let all = self.ideals[m].all_omega(&succ);
                    if all {
                        omega_flag = true;
                        proof {
                            assert(succ@.contains(succ@[0]));
                            assert(edges@.contains((i as usize, succ@[0])));
                            assert forall|j: usize|
                                #[trigger] edges@.contains((i as usize, j)) implies self@[m as int][j as int] is Omega by {
                                assert(succ@.contains(j));
                                let t = choose|t: int|
                                    0 <= t < succ@.len() && #[trigger] succ@[t] == j;
                                assert(self@[m as int][succ@[t] as int] is Omega);
                            }
                            assert(omega_possible(self@, edges@, i as int));
                        }
                    } else {
                        proof {
                            assert forall|m2: int| 0 <= m2 < m + 1 implies !(
                            #[trigger] row_all_omega(self@, m2, succ@)) by {
                                if m2 == m as int {
                                    if row_all_omega(self@, m2, succ@) {
                                        assert forall|t: int|
                                            0 <= t < succ@.len() implies (
                                            #[trigger] self.ideals@[m as int]@[succ@[t] as int]) is Omega by {
                                            assert(self@[m as int][succ@[t] as int] is Omega);
                                        }
                                        assert(false);
                                    }
                                }
                            }
                        }
                    }
                }
                m = m + 1;
            }
        }
        proof {
            if !omega_flag {
                if omega_possible(self@, edges@, i as int) {
                    let j0 = choose|j0: usize| #[trigger] edges@.contains((i as usize, j0));
                    assert(succ@.contains(j0));
                    let m2 = choose|m2: int|
                        #![trigger self@[m2]]
                        0 <= m2 < self@.len() && forall|j: usize|
                            #[trigger] edges@.contains((i as usize, j)) ==> self@[m2][j as int] is Omega;
                    assert(row_all_omega(self@, m2, succ@)) by {
                        assert forall|t: int|
                            0 <= t < succ@.len() implies (#[trigger] self@[m2][succ@[t] as int]) is Omega by {
                            assert(succ@.contains(succ@[t]));
                            assert(edges@.contains((i as usize, succ@[t])));
                        }
                    }
                    assert(false);
                }
            }
            assert(omega_flag == omega_possible(self@, edges@, i as int));
        }
        let limit = self.axis_limit(&succ, k);
        proof {
            // the axis limit is positive exactly when one token can reach
            assert((limit > 0) == (k >= 1 && axis_reach(self@, edges@, i as int, 1, k))) by {
                if limit > 0 {
                    let (t, m) = choose|t: int, m: int|
                        0 <= t < succ@.len() && 0 <= m < self@.len() && limit <= cap_val(
                            #[trigger] self@[m][succ@[t] as int],
                            k,
                        );
                    assert(succ@.contains(succ@[t]));
                    assert(edges@.contains((i as usize, succ@[t])));
                    assert(axis_reach(self@, edges@, i as int, 1, k));
                }
                if k >= 1 && axis_reach(self@, edges@, i as int, 1, k) {
                    let (m, j) = choose|m: int, j: usize|
                        0 <= m < self@.len() && #[trigger] edges@.contains((i as usize, j)) && 1
                            <= cap_val(#[trigger] self@[m][j as int], k);
                    assert(succ@.contains(j));
                    let t = choose|t: int| 0 <= t < succ@.len() && #[trigger] succ@[t] == j;
                    assert(imin(k as int, cap_val(self@[m][j as int], k)) <= limit);
                }
            }
            // a positive count is admissible exactly when it is within reach
            assert forall|v: u64|
                1 <= v <= limit implies (v <= k && axis_reach(
                self@,
                edges@,
                i as int,
                v as int,
                k,
            )) by {
                let (t, m) = choose|t: int, m: int|
                    0 <= t < succ@.len() && 0 <= m < self@.len() && limit <= cap_val(
                        #[trigger] self@[m][succ@[t] as int],
                        k,
                    );
                assert(succ@.contains(succ@[t]));
                assert(edges@.contains((i as usize, succ@[t])));
            }
            assert forall|v: u64|
                1 <= v && v <= k && axis_reach(self@, edges@, i as int, v as int, k)
                implies v <= limit by {
                let (m, j) = choose|m: int, j: usize|
                    0 <= m < self@.len() && #[trigger] edges@.contains((i as usize, j))
                        && v as int <= cap_val(#[trigger] self@[m][j as int], k);
                assert(succ@.contains(j));
                let t = choose|t: int| 0 <= t < succ@.len() && #[trigger] succ@[t] == j;
                assert(imin(k as int, cap_val(self@[m][j as int], k)) <= limit);
            }
        }
        let mut axis: Vec<Coef> = Vec::new();
        if omega_flag {
            axis.push(Coef::Omega);
        }
        proof {
            assert(axis@.contains(Coef::Omega) == omega_flag) by {
                if axis@.contains(Coef::Omega) {
                    let w2 = choose|w2: int|
                        0 <= w2 < axis@.len() && #[trigger] axis@[w2] == Coef::Omega;
                    assert(omega_flag);
                }
                if omega_flag {
                    assert(axis@[0] == Coef::Omega);
                }
            }
            assert forall|w: u64| !(#[trigger] axis@.contains(Coef::Value(w))) by {
                if axis@.contains(Coef::Value(w)) {
                    let w2 = choose|w2: int|
                        0 <= w2 < axis@.len() && #[trigger] axis@[w2] == Coef::Value(w);
                }
            }
        }
        let keep_zero = !omega_flag || limit > 0;
        if keep_zero {
            let mut v: u64 = 0;
            while v <= limit
                invariant
                    0 <= v <= limit + 1,
                    limit <= k,
                    k <= crate::coef::COEF_CAP,
                    axis@.contains(Coef::Omega) == omega_flag,
                    forall|w: u64| #[trigger] axis@.contains(Coef::Value(w)) <==> w < v,
                decreases limit - v + 1,
            {
                let ghost pre = axis@;
                axis.push(Coef::Value(v));
                proof {
                    assert(axis@ == pre.push(Coef::Value(v)));
                    assert(axis@.contains(Coef::Omega) == omega_flag) by {
                        if axis@.contains(Coef::Omega) {
                            let w2 = choose|w2: int|
                                0 <= w2 < axis@.len() && #[trigger] axis@[w2] == Coef::Omega;
                            if w2 < pre.len() {
                                assert(pre.contains(Coef::Omega));
                            }
                        }
                        if omega_flag {
                            assert(pre.contains(Coef::Omega));
                            let w2 = choose|w2: int|
                                0 <= w2 < pre.len() && #[trigger] pre[w2] == Coef::Omega;
                            assert(axis@[w2] == Coef::Omega);
                        }
                    }
                    assert forall|w: u64| #[trigger] axis@.contains(Coef::Value(w)) <==> w < v
                        + 1 by {
                        if axis@.contains(Coef::Value(w)) {
                            let w2 = choose|w2: int|
                                0 <= w2 < axis@.len() && #[trigger] axis@[w2] == Coef::Value(w);
                            if w2 < pre.len() {
                                assert(pre.contains(Coef::Value(w)));
                            }
                        }
                        if w < v + 1 {
                            if w < v {
                                assert(pre.contains(Coef::Value(w)));
                                let w2 = choose|w2: int|
                                    0 <= w2 < pre.len() && #[trigger] pre[w2] == Coef::Value(w);
                                assert(axis@[w2] == Coef::Value(w));
                            } else {
                                assert(axis@[pre.len() as int] == Coef::Value(w));
                            }
                            assert(axis@.contains(Coef::Value(w)));
                        }
                    }
                }
                v = v + 1;
            }
        }
        proof {
            assert forall|c: Coef|
                axis@.contains(c) <==> axis_ok(self@, edges@, i as int, c, k) by {
                match c {
                    Coef::Omega => {},
                    Coef::Value(v) => {
                        assert(c == Coef::Value(v));
                        if keep_zero {
                            assert(axis@.contains(Coef::Value(v)) <==> v < limit + 1);
                        } else {
                            assert(!axis@.contains(Coef::Value(v)));
                            assert(omega_flag && limit == 0);
                        }
                        if axis_ok(self@, edges@, i as int, c, k) {
                            if v == 0 {
                                assert(keep_zero);
                            } else {
                                assert(v <= limit);
                            }
                            assert(axis@.contains(Coef::Value(v)));
                        }
                        if axis@.contains(Coef::Value(v)) {
                            assert(keep_zero && v <= limit);
                            if v > 0 {
                                assert(v <= k && axis_reach(self@, edges@, i as int, v as int, k));
                            } else {
                                assert(!omega_flag || limit > 0);
                            }
                            assert(axis_ok(self@, edges@, i as int, c, k));
                        }
                    },
                }
            }
        }
        axis
    }

    /// The safe pre-image: the configurations from which playing the letter
    /// whose support is `edges` is guaranteed, whatever the adversary does,
    /// to land inside this downward closure (after rounding up at the
    /// bound). The result is a minimal antichain of safe configurations and
    /// covers every safe point of the finite search grid.
    pub fn safe_pre_image(&self, edges: &Graph, maximal_finite_coordinate: u64) -> (r: DownSet)
        requires
            uniform_dim(self@, edges.spec_dim() as int),
            edges.edges_within(),
            edges.spec_dim() <= crate::coef::COEF_CAP,
            maximal_finite_coordinate <= crate::coef::COEF_CAP,
        ensures
            r@.no_duplicates(),
            is_antichain(r@),
            uniform_dim(r@, edges.spec_dim() as int),
            forall|m: int|
                0 <= m < r@.len() ==> spec_safe(
                    self@,
                    #[trigger] r@[m],
                    edges@,
                    edges.spec_dim() as int,
                    maximal_finite_coordinate,
                ),
            edges.spec_dim() > 0 ==> forall|x: Seq<Coef>|
                grid_ok(self@, edges@, edges.spec_dim() as int, maximal_finite_coordinate, x)
                    && spec_safe(
                    self@,
                    x,
                    edges@,
                    edges.spec_dim() as int,
                    maximal_finite_coordinate,
                ) ==> covers(r@, x),
    {
        let dim = edges.dim();
        if dim == 0 {
            return DownSet::new();
        }
        if self.ideals.len() == 0 {
            let r = DownSet::new();
            proof {
                assert forall|x: Seq<Coef>|
                    grid_ok(self@, edges@, dim as int, maximal_finite_coordinate, x) && spec_safe(
                        self@,
                        x,
                        edges@,
                        dim as int,
                        maximal_finite_coordinate,
                    ) implies covers(r@, x) by {
                    assert forall|i: int| 0 <= i < dim implies x[i] == Coef::Value(0) by {
                        assert(axis_ok(self@, edges@, i, x[i], maximal_finite_coordinate));
                        match x[i] {
                            Coef::Omega => {
                                assert(false);
                            },
                            Coef::Value(v) => {
                                if v != 0 {
                                    assert(false);
                                }
                            },
                        }
                    }
                    assert(x =~= zero_row(dim as int));
                    lemma_zero_image(edges@, dim as int, maximal_finite_coordinate);
                    assert(covers(self@, zero_row(dim as int)));
                    assert(false);
                }
            }
            return r;
        }
        let mut axes: Vec<Vec<Coef>> = Vec::new();
        let mut i: usize = 0;
        while i < dim
            invariant
                0 <= i <= dim,
                dim == edges.spec_dim(),
                self@.len() > 0,
                uniform_dim(self@, dim as int),
                edges.edges_within(),
                dim <= crate::coef::COEF_CAP,
                maximal_finite_coordinate <= crate::coef::COEF_CAP,
                axes@.len() == i,
                forall|t: int, c: Coef|
                    0 <= t < i ==> ((#[trigger] axes@[t]@.contains(c)) <==> axis_ok(
                        self@,
                        edges@,
                        t,
                        c,
                        maximal_finite_coordinate,
                    )),
            decreases dim - i,
        {
            let axis = self.build_axis(edges, i, maximal_finite_coordinate);
            axes.push(axis);
            i = i + 1;
        }
        let candidates = enumerate_grid(&axes);
        let mut picked = DownSet::new();
        let mut m: usize = 0;
        while m < candidates.len()
            invariant
                0 <= m <= candidates@.len(),
                dim == edges.spec_dim(),
                self@.len() > 0,
                uniform_dim(self@, dim as int),
                edges.edges_within(),
                dim <= crate::coef::COEF_CAP,
                maximal_finite_coordinate <= crate::coef::COEF_CAP,
                axes@.len() == dim,
                forall|t: int| 0 <= t < candidates@.len() ==> (#[trigger] candidates@[t]@).len() == dim,
                forall|t: int, q: int|
                    0 <= t < candidates@.len() && 0 <= q < dim ==> axes@[q]@.contains(
                        #[trigger] candidates@[t]@[q],
                    ),
                forall|t: int, c: Coef|
                    0 <= t < dim ==> ((#[trigger] axes@[t]@.contains(c)) <==> axis_ok(
                        self@,
                        edges@,
                        t,
                        c,
                        maximal_finite_coordinate,
                    )),
                picked@.no_duplicates(),
                forall|w: int| 0 <= w < picked@.len() ==> (#[trigger] picked@[w]).len() == dim,
                forall|w: int|
                    0 <= w < picked@.len() ==> spec_safe(
                        self@,
                        #[trigger] picked@[w],
                        edges@,
                        dim as int,
                        maximal_finite_coordinate,
                    ),
                forall|t: int|
                    0 <= t < m && spec_safe(
                        self@,
                        #[trigger] candidates@[t]@,
                        edges@,
                        dim as int,
                        maximal_finite_coordinate,
                    ) ==> picked@.contains(candidates@[t]@),
            decreases candidates@.len() - m,
        {
            proof {
                assert(crate::ideal::fin_bounded(
                    candidates@[m as int]@,
                    crate::coef::COEF_CAP as int,
                )) by {
                    assert forall|q: int|
                        0 <= q < candidates@[m as int]@.len() implies ((
                        #[trigger] candidates@[m as int]@[q]) matches Coef::Value(v) && v
                            <= crate::coef::COEF_CAP || candidates@[m as int]@[q] is Omega) by {
                        let c = candidates@[m as int]@[q];
                        assert(axes@[q]@.contains(c));
                        assert(axis_ok(self@, edges@, q, c, maximal_finite_coordinate));
                    }
                }
            }
            let safe = self.is_safe_with_roundup(&candidates[m], edges, maximal_finite_coordinate);
            if safe {
                let ghost pre = picked@;
                picked.push_member(&candidates[m]);
                proof {
                    assert forall|t: int|
                        0 <= t < m + 1 && spec_safe(
                            self@,
                            #[trigger] candidates@[t]@,
                            edges@,
                            dim as int,
                            maximal_finite_coordinate,
                        ) implies picked@.contains(candidates@[t]@) by {
                        if t < m {
                            assert(pre.contains(candidates@[t]@));
                            let w = choose|w: int|
                                0 <= w < pre.len() && #[trigger] pre[w] == candidates@[t]@;
                            if picked@ == pre {
                            } else {
                                assert(picked@ == pre.push(candidates@[m as int]@));
                                assert(picked@[w] == candidates@[t]@);
                            }
                        } else {
                            if picked@ == pre {
                                assert(pre.contains(candidates@[m as int]@));
                            } else {
                                assert(picked@ == pre.push(candidates@[m as int]@));
                                assert(picked@[pre.len() as int] == candidates@[t]@);
                            }
                        }
                        assert(picked@.contains(candidates@[t]@));
                    }
                }
            }
            m = m + 1;
        }
        let ghost pre_min = picked@;
        picked.minimize();
        proof {
            assert forall|w: int|
                0 <= w < picked@.len() implies spec_safe(
                self@,
                #[trigger] picked@[w],
                edges@,
                dim as int,
                maximal_finite_coordinate,
            ) by {
                assert(pre_min.contains(picked@[w]));
                let t = choose|t: int| 0 <= t < pre_min.len() && #[trigger] pre_min[t] == picked@[w];
            }
            assert forall|w: int| 0 <= w < picked@.len() implies (#[trigger] picked@[w]).len()
                == dim by {
                assert(pre_min.contains(picked@[w]));
                let t = choose|t: int| 0 <= t < pre_min.len() && #[trigger] pre_min[t] == picked@[w];
            }
            assert forall|x: Seq<Coef>|
                grid_ok(self@, edges@, dim as int, maximal_finite_coordinate, x) && spec_safe(
                    self@,
                    x,
                    edges@,
                    dim as int,
                    maximal_finite_coordinate,
                ) implies covers(picked@, x) by {
                assert forall|q: int| 0 <= q < dim implies axes@[q]@.contains(#[trigger] x[q]) by {
                    assert(axis_ok(self@, edges@, q, x[q], maximal_finite_coordinate));
                }
                assert(views(candidates@).contains(x));
                let t = choose|t: int|
                    0 <= t < views(candidates@).len() && #[trigger] views(candidates@)[t] == x;
                assert(candidates@[t]@ == x);
                assert(pre_min.contains(x));
                let w = choose|w: int| 0 <= w < pre_min.len() && #[trigger] pre_min[w] == x;
                lemma_seq_le_refl(x);
                assert(covers(pre_min, x));
            }
        }
        picked
    }
}

} // verus!
