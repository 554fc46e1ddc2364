//! The coefficient algebra: bounded counts extended with the top element omega.
use vstd::prelude::*;

verus! {

/// A coefficient is either a finite token count or `Omega`, the symbolic
/// "arbitrarily many". `Omega` is strictly greater than every finite value.
#[derive(Clone, Copy, PartialEq, Eq, Structural, Debug, Hash, PartialOrd, Ord)]
pub enum Coef {
    Value(u64),
    Omega,
}

pub const OMEGA: Coef = Coef::Omega;

/// Largest finite coefficient and largest dimension the arithmetic admits;
/// products of two such numbers stay below `u64::MAX`.
pub const COEF_CAP: u64 = 0xFFFF_FFFF;

impl Coef {
    /// The order of the algebra: finite values numerically, `Omega` on top.
    pub open spec fn spec_le(self, other: Coef) -> bool {
        match (self, other) {
            (Coef::Value(x), Coef::Value(y)) => x <= y,
            (_, Coef::Omega) => true,
            (Coef::Omega, Coef::Value(_)) => false,
        }
    }

    pub open spec fn is_finite(self) -> bool {
        self matches Coef::Value(_)
    }

    /// The numeric value of a finite coefficient (0 for `Omega`; only
    /// meaningful under `is_finite`).
    pub open spec fn spec_value(self) -> int {
        match self {
            Coef::Value(v) => v as int,
            Coef::Omega => 0,
        }
    }

    /// Saturating sum: `Omega` absorbs.
    pub open spec fn add_ok(self, other: Coef) -> bool {
        self.is_finite() && other.is_finite() ==> self.spec_value() + other.spec_value() <= u64::MAX
    }

    pub open spec fn spec_add(self, other: Coef) -> Coef {
        match (self, other) {
            (Coef::Value(x), Coef::Value(y)) => Coef::Value((x + y) as u64),
            _ => Coef::Omega,
        }
    }

    /// Truncated difference, used only where the minuend dominates:
    /// `Omega - x = Omega`, `x - Omega = 0`, finite values subtract.
    pub open spec fn spec_sub(self, other: Coef) -> Coef {
        match (self, other) {
            (Coef::Omega, _) => Coef::Omega,
            (_, Coef::Omega) => Coef::Value(0),
            (Coef::Value(x), Coef::Value(y)) => Coef::Value((x - y) as u64),
        }
    }

    pub open spec fn spec_min(self, other: Coef) -> Coef {
        if self.spec_le(other) {
            self
        } else {
            other
        }
    }

    pub open spec fn spec_max(self, other: Coef) -> Coef {
        if self.spec_le(other) {
            other
        } else {
            self
        }
    }

    /// `round_up(k)` promotes any finite value strictly above `k` to `Omega`.
    pub open spec fn spec_round_up(self, k: u64) -> Coef {
        match self {
            Coef::Value(x) => if x > k {
                Coef::Omega
            } else {
                self
            },
            Coef::Omega => Coef::Omega,
        }
    }

    pub fn le(self, other: Coef) -> (r: bool)
        ensures
            r == self.spec_le(other),
    {
        match (self, other) {
            (Coef::Value(x), Coef::Value(y)) => x <= y,
            (_, Coef::Omega) => true,
            (Coef::Omega, Coef::Value(_)) => false,
        }
    }

    pub fn add(self, other: Coef) -> (r: Coef)
        requires
            self.add_ok(other),
        ensures
            r == self.spec_add(other),
    {
        match (self, other) {
            (Coef::Value(x), Coef::Value(y)) => Coef::Value(x + y),
            _ => Coef::Omega,
        }
    }

    pub fn sub(self, other: Coef) -> (r: Coef)
        requires
            other.spec_le(self),
        ensures
            r == self.spec_sub(other),
    {
        match (self, other) {
            (Coef::Omega, _) => Coef::Omega,
            (_, Coef::Omega) => Coef::Value(0),
            (Coef::Value(x), Coef::Value(y)) => Coef::Value(x - y),
        }
    }

    pub fn min(self, other: Coef) -> (r: Coef)
        ensures
            r == self.spec_min(other),
    {
        if self.le(other) {
            self
        } else {
            other
        }
    }

    pub fn max(self, other: Coef) -> (r: Coef)
        ensures
            r == self.spec_max(other),
    {
        if self.le(other) {
            other
        } else {
            self
        }
    }

    pub fn round_up(&self, max_finite_value: u64) -> (r: Coef)
        ensures
            r == self.spec_round_up(max_finite_value),
    {
        match self {
            Coef::Value(x) => if *x > max_finite_value {
                Coef::Omega
            } else {
                *self
            },
            Coef::Omega => Coef::Omega,
        }
    }

    /// Finite values map to themselves, `Omega` to the largest representable
    /// count; consistent hashing goes through this value.
    pub fn as_coef(&self) -> (r: u64)
        ensures
            self matches Coef::Value(v) ==> r == v,
            self is Omega ==> r == u64::MAX,
    {
        match self {
            Coef::Value(v) => *v,
            Coef::Omega => u64::MAX,
        }
    }

    /// Whether a sequence of coefficients contains `Omega`.
    pub open spec fn seq_has_omega(s: Seq<Coef>) -> bool {
        exists|i: int| 0 <= i < s.len() && s[i] is Omega
    }

    /// The sum of the finite values of a sequence (counting `Omega` as 0).
    pub open spec fn seq_fin_sum(s: Seq<Coef>) -> int
        decreases s.len(),
    {
        if s.len() == 0 {
            0
        } else {
            Self::seq_fin_sum(s.drop_last()) + s.last().spec_value()
        }
    }

    /// `c` is the saturating sum of `s`: `Omega` as soon as one member is
    /// `Omega`, the numeric sum otherwise.
    pub open spec fn is_seq_sum(c: Coef, s: Seq<Coef>) -> bool {
        if Self::seq_has_omega(s) {
            c is Omega
        } else {
            c matches Coef::Value(v) && v == Self::seq_fin_sum(s)
        }
    }

    /// Saturating sum of a vector of coefficients; short-circuits to `Omega`.
    pub fn sum(v: &Vec<Coef>) -> (r: Coef)
        requires
            Self::seq_fin_sum(v@) <= u64::MAX,
        ensures
            Self::is_seq_sum(r, v@),
    {
        let mut acc: u64 = 0;
        let mut i: usize = 0;
        proof {
            assert(v@.take(0) =~= Seq::<Coef>::empty());
        }
        while i < v.len()
            invariant
                0 <= i <= v.len(),
                !Self::seq_has_omega(v@.take(i as int)),
                acc == Self::seq_fin_sum(v@.take(i as int)),
                Self::seq_fin_sum(v@) <= u64::MAX,
            decreases v.len() - i,
        {
            match v[i] {
                Coef::Omega => {
                    proof {
                        assert(v@[i as int] is Omega);
                    }
                    return Coef::Omega;
                },
                Coef::Value(x) => {
                    proof {
                        assert(v@.take(i + 1).drop_last() =~= v@.take(i as int));
                        assert(v@.take(i + 1).last() == v@[i as int]);
                        Self::lemma_fin_sum_le_total(v@, i + 1);
                    }
                    acc = acc + x;
                    i = i + 1;
                },
            }
        }
        proof {
            assert(v@.take(v@.len() as int) =~= v@);
        }
        Coef::Value(acc)
    }

    /// A sum of finite parts is nonnegative.
    pub proof fn lemma_fin_sum_nonneg(s: Seq<Coef>)
        ensures
            0 <= Self::seq_fin_sum(s),
        decreases s.len(),
    {
        if s.len() > 0 {
            Self::lemma_fin_sum_nonneg(s.drop_last());
        }
    }

    /// Updating one entry shifts the finite sum by the difference.
    pub proof fn lemma_fin_sum_update(s: Seq<Coef>, i: int, v: Coef)
        requires
            0 <= i < s.len(),
        ensures
            Self::seq_fin_sum(s.update(i, v)) == Self::seq_fin_sum(s) - s[i].spec_value()
                + v.spec_value(),
        decreases s.len(),
    {
        if i == s.len() - 1 {
            assert(s.update(i, v).drop_last() =~= s.drop_last());
            assert(s.update(i, v).last() == v);
        } else {
            assert(s.update(i, v).drop_last() =~= s.drop_last().update(i, v));
            assert(s.update(i, v).last() == s.last());
            Self::lemma_fin_sum_update(s.drop_last(), i, v);
        }
    }

    /// Every entry's finite value is at most the finite sum.
    pub proof fn lemma_entry_le_fin_sum(s: Seq<Coef>, j: int)
        requires
            0 <= j < s.len(),
        ensures
            s[j].spec_value() <= Self::seq_fin_sum(s),
        decreases s.len(),
    {
        if j == s.len() - 1 {
            Self::lemma_fin_sum_nonneg(s.drop_last());
        } else {
            Self::lemma_entry_le_fin_sum(s.drop_last(), j);
        }
    }

    /// A sequence of small values has a small sum.
    pub proof fn lemma_fin_sum_bound(s: Seq<Coef>, b: int)
        requires
            forall|t: int| 0 <= t < s.len() ==> (#[trigger] s[t]).spec_value() <= b,
            b >= 0,
        ensures
            Self::seq_fin_sum(s) <= s.len() * b,
        decreases s.len(),
    {
        if s.len() > 0 {
            Self::lemma_fin_sum_bound(s.drop_last(), b);
            assert((s.len() - 1) * b + b == s.len() * b) by (nonlinear_arith);
        }
    }

    /// Each prefix sum is at most the total.
    pub proof fn lemma_fin_sum_le_total(s: Seq<Coef>, i: int)
        requires
            0 <= i <= s.len(),
        ensures
            Self::seq_fin_sum(s.take(i)) <= Self::seq_fin_sum(s),
        decreases s.len() - i,
    {
        if i == s.len() {
            assert(s.take(i) =~= s);
        } else {
            assert(s.take(i + 1).drop_last() =~= s.take(i));
            assert(s.take(i + 1).last() == s[i]);
            Self::lemma_fin_sum_le_total(s, i + 1);
        }
    }
}

} // verus!
