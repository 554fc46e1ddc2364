//! Ideals: vectors of coefficients under the componentwise order, each one
//! standing for its own downward closure.
use vstd::prelude::*;

use crate::coef::Coef;

verus! {

/// Componentwise order on coefficient vectors of equal length.
pub open spec fn seq_le(a: Seq<Coef>, b: Seq<Coef>) -> bool {
    a.len() == b.len() && forall|i: int| 0 <= i < a.len() ==> #[trigger] a[i].spec_le(b[i])
}

/// Every finite entry is at most `b`.
pub open spec fn fin_bounded(s: Seq<Coef>, b: int) -> bool {
    forall|i: int| 0 <= i < s.len() ==> (#[trigger] s[i]) matches Coef::Value(v) && v <= b
        || s[i] is Omega
}

/// An `n`-tuple of coefficients, ordered componentwise.
#[derive(Debug)]
pub struct Ideal {
    coefs: Vec<Coef>,
}

impl View for Ideal {
    type V = Seq<Coef>;

    closed spec fn view(&self) -> Seq<Coef> {
        self.coefs@
    }
}

impl Clone for Ideal {
    fn clone(&self) -> (r: Self)
        ensures
            r@ == self@,
    {
        Ideal { coefs: clone_coef_vec(&self.coefs) }
    }
}

/// Copy a coefficient vector; `Coef` is `Copy`, so the view is preserved.
pub fn clone_coef_vec(v: &Vec<Coef>) -> (r: Vec<Coef>)
    ensures
        r@ == v@,
{
    let mut r: Vec<Coef> = Vec::new();
    let mut i: usize = 0;
    while i < v.len()
        invariant
            0 <= i <= v.len(),
            r@ == v@.take(i as int),
        decreases v.len() - i,
    {
        r.push(v[i]);
        proof {
            assert(v@.take(i + 1) =~= v@.take(i as int).push(v@[i as int]));
        }
        i = i + 1;
    }
    proof {
        assert(v@.take(v@.len() as int) =~= v@);
    }
    r
}

impl PartialEq for Ideal {
    fn eq(&self, other: &Self) -> (r: bool) {
        coef_vec_eq(&self.coefs, &other.coefs)
    }
}

impl Eq for Ideal {

}

impl vstd::std_specs::cmp::PartialEqSpecImpl for Ideal {
    open spec fn obeys_eq_spec() -> bool {
        true
    }

    open spec fn eq_spec(&self, other: &Self) -> bool {
        self@ == other@
    }
}

/// A bounded list stays bounded after pushing a bounded coefficient.
pub proof fn lemma_fin_bounded_push(s: Seq<Coef>, c: Coef, b: int)
    requires
        fin_bounded(s, b),
        c matches Coef::Value(v) ==> v <= b,
    ensures
        fin_bounded(s.push(c), b),
{
    assert forall|t: int|
        0 <= t < s.push(c).len() implies ((#[trigger] s.push(c)[t]) matches Coef::Value(v) && v
            <= b || s.push(c)[t] is Omega) by {
        if t < s.len() {
            assert(s.push(c)[t] == s[t]);
            assert(s[t] matches Coef::Value(v) && v <= b || s[t] is Omega);
        } else {
            assert(s.push(c)[t] == c);
        }
    }
}

/// Componentwise order test for two coefficient vectors.
pub fn coef_vec_le(a: &Vec<Coef>, b: &Vec<Coef>) -> (r: bool)
    ensures
        r == seq_le(a@, b@),
{
    if a.len() != b.len() {
        return false;
    }
    let mut i: usize = 0;
    while i < a.len()
        invariant
            0 <= i <= a@.len(),
            a@.len() == b@.len(),
            forall|j: int| 0 <= j < i ==> #[trigger] a@[j].spec_le(b@[j]),
        decreases a@.len() - i,
    {
        if !a[i].le(b[i]) {
            return false;
        }
        i = i + 1;
    }
    true
}

/// Exact equality of two coefficient vectors.
pub fn coef_vec_eq(a: &Vec<Coef>, b: &Vec<Coef>) -> (r: bool)
    ensures
        r == (a@ == b@),
{
    if a.len() != b.len() {
        proof {
            assert(a@ != b@);
        }
        return false;
    }
    let mut i: usize = 0;
    while i < a.len()
        invariant
            0 <= i <= a.len(),
            a.len() == b.len(),
            forall|j: int| 0 <= j < i ==> a@[j] == b@[j],
        decreases a.len() - i,
    {
        if a[i] != b[i] {
            proof {
                assert(a@[i as int] != b@[i as int]);
            }
            return false;
        }
        i = i + 1;
    }
    proof {
        assert(a@ =~= b@);
    }
    true
}

impl PartialOrd for Ideal {
    fn partial_cmp(&self, other: &Self) -> (r: Option<core::cmp::Ordering>) {
        let below = self.is_below(other);
        let above = other.is_below(self);
        if below && above {
            Some(core::cmp::Ordering::Equal)
        } else if below {
            Some(core::cmp::Ordering::Less)
        } else if above {
            Some(core::cmp::Ordering::Greater)
        } else {
            None
        }
    }
}

impl vstd::std_specs::cmp::PartialOrdSpecImpl for Ideal {
    open spec fn obeys_partial_cmp_spec() -> bool {
        true
    }

    open spec fn partial_cmp_spec(&self, other: &Self) -> Option<core::cmp::Ordering> {
        if seq_le(self@, other@) && seq_le(other@, self@) {
            Some(core::cmp::Ordering::Equal)
        } else if seq_le(self@, other@) {
            Some(core::cmp::Ordering::Less)
        } else if seq_le(other@, self@) {
            Some(core::cmp::Ordering::Greater)
        } else {
            None
        }
    }
}

impl Ideal {
    /// The constant vector of the given dimension.
    pub fn new(dimension: usize, val: Coef) -> (r: Ideal)
        ensures
            r@.len() == dimension,
            forall|i: int| 0 <= i < dimension ==> r@[i] == val,
    {
        let mut coefs: Vec<Coef> = Vec::new();
        let mut i: usize = 0;
        while i < dimension
            invariant
                0 <= i <= dimension,
                coefs@.len() == i,
                forall|j: int| 0 <= j < i ==> coefs@[j] == val,
            decreases dimension - i,
        {
            coefs.push(val);
            i = i + 1;
        }
        Ideal { coefs }
    }

    pub fn from_vec(vec: Vec<Coef>) -> (r: Ideal)
        ensures
            r@ == vec@,
    {
        Ideal { coefs: vec }
    }

    /// Componentwise comparison; both vectors must share the dimension.
    pub fn is_below(&self, other: &Self) -> (r: bool)
        ensures
            r == (self@.len() == other@.len() && seq_le(self@, other@)),
    {
        if self.coefs.len() != other.coefs.len() {
            return false;
        }
        let mut i: usize = 0;
        while i < self.coefs.len()
            invariant
                0 <= i <= self@.len(),
                self@.len() == other@.len(),
                forall|j: int| 0 <= j < i ==> #[trigger] self@[j].spec_le(other@[j]),
            decreases self@.len() - i,
        {
            if !self.coefs[i].le(other.coefs[i]) {
                return false;
            }
            i = i + 1;
        }
        true
    }

    /// The dimension of this ideal: the number of states of the automaton.
    pub fn dimension(&self) -> (r: usize)
        ensures
            r == self@.len(),
    {
        self.coefs.len()
    }

    /// The coefficients of this ideal.
    pub fn iter(&self) -> (r: &Vec<Coef>)
        ensures
            r@ == self@,
    {
        &self.coefs
    }

    pub fn get(&self, i: usize) -> (r: Coef)
        requires
            i < self@.len(),
        ensures
            r == self@[i as int],
    {
        self.coefs[i]
    }

    pub fn set(&mut self, state: usize, val: Coef)
        requires
            state < old(self)@.len(),
        ensures
            final(self)@ == old(self)@.update(state as int, val),
    {
        self.coefs.set(state, val);
    }

    /// Componentwise minimum, the intersection of the two downward closures.
    pub fn intersection(x: &Ideal, other: &Ideal) -> (r: Ideal)
        requires
            x@.len() == other@.len(),
        ensures
            r@.len() == x@.len(),
            forall|i: int| 0 <= i < x@.len() ==> r@[i] == x@[i].spec_min(other@[i]),
    {
        let mut coefs: Vec<Coef> = Vec::new();
        let mut i: usize = 0;
        while i < x.coefs.len()
            invariant
                0 <= i <= x@.len(),
                x@.len() == other@.len(),
                coefs@.len() == i,
                forall|j: int| 0 <= j < i ==> coefs@[j] == x@[j].spec_min(other@[j]),
            decreases x@.len() - i,
        {
            coefs.push(x.coefs[i].min(other.coefs[i]));
            i = i + 1;
        }
        Ideal { coefs }
    }

    /// The vector scattered from a partition: zero everywhere except that the
    /// `k`-th listed predecessor carries the `k`-th part (later entries win).
    pub open spec fn spec_scatter(dim: nat, partition: Seq<u64>, predecessors: Seq<int>) -> Seq<
        Coef,
    >
        decreases predecessors.len(),
    {
        if predecessors.len() == 0 {
            Seq::new(dim, |i: int| Coef::Value(0))
        } else {
            Self::spec_scatter(dim, partition.drop_last(), predecessors.drop_last()).update(
                predecessors.last(),
                Coef::Value(partition[predecessors.len() - 1]),
            )
        }
    }

    /// Scatter a partition onto the given indices.
    pub fn from_non_zero_coefs(dim: usize, partition: &Vec<u64>, predecessors: &Vec<usize>) -> (r:
        Ideal)
        requires
            partition@.len() == predecessors@.len(),
            forall|k: int| 0 <= k < predecessors@.len() ==> #[trigger] predecessors@[k] < dim,
        ensures
            r@ == Self::spec_scatter(
                dim as nat,
                partition@,
                predecessors@.map_values(|p: usize| p as int),
            ),
    {
        let mut result = Ideal::new(dim, Coef::Value(0));
        let mut k: usize = 0;
        proof {
            assert(result@ =~= Self::spec_scatter(
                dim as nat,
                partition@.take(0),
                predecessors@.map_values(|p: usize| p as int).take(0),
            ));
        }
        while k < predecessors.len()
            invariant
                0 <= k <= predecessors@.len(),
                partition@.len() == predecessors@.len(),
                forall|j: int| 0 <= j < predecessors@.len() ==> #[trigger] predecessors@[j] < dim,
                result@.len() == dim,
                result@ == Self::spec_scatter(
                    dim as nat,
                    partition@.take(k as int),
                    predecessors@.map_values(|p: usize| p as int).take(k as int),
                ),
            decreases predecessors@.len() - k,
        {
            result.set(predecessors[k], Coef::Value(partition[k]));
            proof {
                let preds = predecessors@.map_values(|p: usize| p as int);
                assert(preds.take(k + 1).drop_last() =~= preds.take(k as int));
                assert(partition@.take(k + 1).drop_last() =~= partition@.take(k as int));
            }
            k = k + 1;
        }
        proof {
            let preds = predecessors@.map_values(|p: usize| p as int);
            assert(partition@.take(partition@.len() as int) =~= partition@);
            assert(preds.take(preds.len() as int) =~= preds);
        }
        result
    }

    /// Whether every listed coordinate holds `Omega`.
    pub fn all_omega(&self, succ: &Vec<usize>) -> (r: bool)
        requires
            forall|k: int| 0 <= k < succ@.len() ==> #[trigger] succ@[k] < self@.len(),
        ensures
            r == forall|k: int| 0 <= k < succ@.len() ==> #[trigger] self@[succ@[k] as int] is Omega,
    {
        let mut k: usize = 0;
        while k < succ.len()
            invariant
                0 <= k <= succ@.len(),
                forall|j: int| 0 <= j < succ@.len() ==> #[trigger] succ@[j] < self@.len(),
                forall|j: int| 0 <= j < k ==> #[trigger] self@[succ@[j] as int] is Omega,
            decreases succ@.len() - k,
        {
            match self.coefs[succ[k]] {
                Coef::Omega => {
                    k = k + 1;
                },
                Coef::Value(_) => {
                    return false;
                },
            }
        }
        true
    }

    /// Promote every finite component strictly above `k` to `Omega`.
    pub fn round_up(&self, max_finite_value: u64) -> (r: Ideal)
        ensures
            r@.len() == self@.len(),
            forall|i: int|
                0 <= i < self@.len() ==> r@[i] == self@[i].spec_round_up(max_finite_value),
    {
        let mut coefs: Vec<Coef> = Vec::new();
        let mut i: usize = 0;
        while i < self.coefs.len()
            invariant
                0 <= i <= self@.len(),
                coefs@.len() == i,
                forall|j: int| 0 <= j < i ==> coefs@[j] == self@[j].spec_round_up(max_finite_value),
            decreases self@.len() - i,
        {
            coefs.push(self.coefs[i].round_up(max_finite_value));
            i = i + 1;
        }
        Ideal { coefs }
    }

    /// What `round_down` does to one coefficient: cap finite values at `k`.
    pub open spec fn spec_round_down(c: Coef, k: u64) -> Coef {
        match c {
            Coef::Value(x) => if x > k {
                Coef::Value(k)
            } else {
                c
            },
            Coef::Omega => Coef::Omega,
        }
    }

    /// Cap every finite component at `upper_bound`.
    pub fn round_down(&mut self, upper_bound: u64, dim: usize)
        requires
            dim == old(self)@.len(),
        ensures
            final(self)@.len() == old(self)@.len(),
            forall|i: int|
                0 <= i < final(self)@.len() ==> final(self)@[i] == Self::spec_round_down(
                    old(self)@[i],
                    upper_bound,
                ),
    {
        let mut i: usize = 0;
        while i < dim
            invariant
                0 <= i <= dim,
                dim == self@.len(),
                self@.len() == old(self)@.len(),
                forall|j: int|
                    i <= j < self@.len() ==> self@[j] == old(self)@[j],
                forall|j: int|
                    0 <= j < i ==> self@[j] == Self::spec_round_down(old(self)@[j], upper_bound),
            decreases dim - i,
        {
            match self.coefs[i] {
                Coef::Value(x) => {
                    if x > upper_bound {
                        self.coefs.set(i, Coef::Value(upper_bound));
                    }
                },
                Coef::Omega => {},
            }
            i = i + 1;
        }
    }

    /// Whether rounding down at `upper_bound` would change this ideal.
    pub fn some_finite_coordinate_is_larger_than(&self, upper_bound: u64) -> (r: bool)
        ensures
            r == exists|i: int|
                0 <= i < self@.len() && ((#[trigger] self@[i]) matches Coef::Value(v) && v
                    > upper_bound),
    {
        let mut i: usize = 0;
        while i < self.coefs.len()
            invariant
                0 <= i <= self@.len(),
                forall|j: int|
                    0 <= j < i ==> !((#[trigger] self@[j]) matches Coef::Value(v) && v
                        > upper_bound),
            decreases self@.len() - i,
        {
            match self.coefs[i] {
                Coef::Value(x) => {
                    if x > upper_bound {
                        return true;
                    }
                },
                Coef::Omega => {},
            }
            i = i + 1;
        }
        false
    }

    /// Componentwise saturating addition of another ideal.
    pub fn add_other(&mut self, x: &Ideal)
        requires
            old(self)@.len() == x@.len(),
            forall|i: int| 0 <= i < x@.len() ==> #[trigger] old(self)@[i].add_ok(x@[i]),
        ensures
            final(self)@.len() == old(self)@.len(),
            forall|i: int|
                0 <= i < final(self)@.len() ==> final(self)@[i] == old(self)@[i].spec_add(x@[i]),
    {
        let mut i: usize = 0;
        while i < self.coefs.len()
            invariant
                0 <= i <= self@.len(),
                self@.len() == old(self)@.len(),
                old(self)@.len() == x@.len(),
                forall|j: int| 0 <= j < x@.len() ==> #[trigger] old(self)@[j].add_ok(x@[j]),
                forall|j: int| i <= j < self@.len() ==> self@[j] == old(self)@[j],
                forall|j: int| 0 <= j < i ==> self@[j] == old(self)@[j].spec_add(x@[j]),
            decreases self@.len() - i,
        {
            let c = self.coefs[i].add(x.coefs[i]);
            self.coefs.set(i, c);
            i = i + 1;
        }
    }

    /// A strict predecessor on axis `i`: `Omega` drops to the bound, a
    /// positive finite value drops by one (and is capped at the bound).
    pub open spec fn spec_decrease(c: Coef, k: u64) -> Coef {
        match c {
            Coef::Omega => Coef::Value(k),
            Coef::Value(x) => Coef::Value(if x - 1 <= k {
                (x - 1) as u64
            } else {
                k
            }),
        }
    }

    pub fn clone_and_decrease(&self, i: usize, maximal_finite_value: u64) -> (r: Ideal)
        requires
            i < self@.len(),
            self@[i as int] != Coef::Value(0),
        ensures
            r@ == self@.update(i as int, Self::spec_decrease(self@[i as int], maximal_finite_value)),
    {
        let mut result = self.clone();
        let c = result.coefs[i];
        match c {
            Coef::Omega => {
                result.set(i, Coef::Value(maximal_finite_value));
            },
            Coef::Value(x) => {
                let d = x - 1;
                result.set(
                    i,
                    Coef::Value(
                        if d <= maximal_finite_value {
                            d
                        } else {
                            maximal_finite_value
                        },
                    ),
                );
            },
        }
        result
    }
}

} // verus!
