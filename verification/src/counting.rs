//! Counting bounded coefficient vectors: the fixed-point loops terminate
//! because only finitely many configurations and flows exist below a bound.
use vstd::arithmetic::power::lemma_pow0;
use vstd::arithmetic::power::lemma_pow_positive;
use vstd::arithmetic::power::pow;
use vstd::prelude::*;
use vstd::set_lib::lemma_int_range;
use vstd::set_lib::lemma_len_subset;
use vstd::set_lib::set_int_range;

use crate::coef::Coef;
use crate::ideal::fin_bounded;

verus! {

/// An injective code for one coefficient with finite values up to `b`.
pub open spec fn coef_code(c: Coef, b: int) -> int {
    match c {
        Coef::Value(v) => v as int,
        Coef::Omega => b + 1,
    }
}

/// An injective code for a bounded coefficient vector, read in base `b + 2`.
pub open spec fn seq_code(s: Seq<Coef>, b: int) -> int
    decreases s.len(),
{
    if s.len() == 0 {
        0
    } else {
        coef_code(s[0], b) + (b + 2) * seq_code(s.drop_first(), b)
    }
}

/// Codes of bounded vectors lie below `(b + 2) ^ len`.
pub proof fn lemma_code_range(s: Seq<Coef>, b: int)
    requires
        b >= 0,
        fin_bounded(s, b),
    ensures
        0 <= seq_code(s, b) < pow(b + 2, s.len()),
    decreases s.len(),
{
    if s.len() == 0 {
        lemma_pow0(b + 2);
    } else {
        assert(fin_bounded(s.drop_first(), b)) by {
            assert forall|t: int|
                0 <= t < s.drop_first().len() implies ((#[trigger] s.drop_first()[t]) matches Coef::Value(
                v,
            ) && v <= b || s.drop_first()[t] is Omega) by {
                assert(s.drop_first()[t] == s[t + 1]);
                assert(s[t + 1] matches Coef::Value(v) && v <= b || s[t + 1] is Omega);
            }
        }
        lemma_code_range(s.drop_first(), b);
        assert(s[0] matches Coef::Value(v) && v <= b || s[0] is Omega);
        assert(0 <= coef_code(s[0], b) < b + 2);
        assert(pow(b + 2, s.len()) == (b + 2) * pow(b + 2, (s.len() - 1) as nat)) by {
            reveal_with_fuel(pow, 2);
        }
        assert(coef_code(s[0], b) + (b + 2) * seq_code(s.drop_first(), b) < (b + 2) * pow(
            b + 2,
            (s.len() - 1) as nat,
        )) by (nonlinear_arith)
            requires
                0 <= coef_code(s[0], b) < b + 2,
                0 <= seq_code(s.drop_first(), b) <= pow(b + 2, (s.len() - 1) as nat) - 1,
                b + 2 > 0,
        ;
    }
}

/// The code determines the vector among bounded vectors of one length.
pub proof fn lemma_code_injective(s1: Seq<Coef>, s2: Seq<Coef>, b: int)
    requires
        b >= 0,
        s1.len() == s2.len(),
        fin_bounded(s1, b),
        fin_bounded(s2, b),
        seq_code(s1, b) == seq_code(s2, b),
    ensures
        s1 == s2,
    decreases s1.len(),
{
    if s1.len() == 0 {
        assert(s1 =~= s2);
    } else {
        assert(s1[0] matches Coef::Value(v) && v <= b || s1[0] is Omega);
        assert(s2[0] matches Coef::Value(v) && v <= b || s2[0] is Omega);
        assert(0 <= coef_code(s1[0], b) < b + 2);
        assert(0 <= coef_code(s2[0], b) < b + 2);
        assert(fin_bounded(s1.drop_first(), b) && fin_bounded(s2.drop_first(), b)) by {
            assert forall|t: int|
                0 <= t < s1.drop_first().len() implies ((#[trigger] s1.drop_first()[t]) matches Coef::Value(
                v,
            ) && v <= b || s1.drop_first()[t] is Omega) by {
                assert(s1.drop_first()[t] == s1[t + 1]);
                assert(s1[t + 1] matches Coef::Value(v) && v <= b || s1[t + 1] is Omega);
            }
            assert forall|t: int|
                0 <= t < s2.drop_first().len() implies ((#[trigger] s2.drop_first()[t]) matches Coef::Value(
                v,
            ) && v <= b || s2.drop_first()[t] is Omega) by {
                assert(s2.drop_first()[t] == s2[t + 1]);
                assert(s2[t + 1] matches Coef::Value(v) && v <= b || s2[t + 1] is Omega);
            }
        }
        assert(coef_code(s1[0], b) == coef_code(s2[0], b) && seq_code(s1.drop_first(), b)
            == seq_code(s2.drop_first(), b)) by (nonlinear_arith)
            requires
                coef_code(s1[0], b) + (b + 2) * seq_code(s1.drop_first(), b) == coef_code(
                    s2[0],
                    b,
                ) + (b + 2) * seq_code(s2.drop_first(), b),
                0 <= coef_code(s1[0], b) < b + 2,
                0 <= coef_code(s2[0], b) < b + 2,
        ;
        assert(s1[0] == s2[0]);
        lemma_code_injective(s1.drop_first(), s2.drop_first(), b);
        assert forall|i: int| 0 <= i < s1.len() implies s1[i] == s2[i] by {
            if i > 0 {
                assert(s1.drop_first()[i - 1] == s2.drop_first()[i - 1]);
            }
        }
        assert(s1 =~= s2);
    }
}

/// There are at most `(b + 2) ^ n` distinct vectors of length `n` whose
/// finite entries stay at or below `b`.
pub proof fn lemma_distinct_bounded_count(list: Seq<Seq<Coef>>, n: int, b: int)
    requires
        b >= 0,
        n >= 0,
        list.no_duplicates(),
        forall|m: int|
            0 <= m < list.len() ==> (#[trigger] list[m]).len() == n && fin_bounded(list[m], b),
    ensures
        list.len() <= pow(b + 2, n as nat),
{
    let codes = list.map_values(|s: Seq<Coef>| seq_code(s, b));
    assert(codes.no_duplicates()) by {
        assert forall|x: int, y: int|
            0 <= x < codes.len() && 0 <= y < codes.len() && x != y implies codes[x] != codes[y] by {
            if codes[x] == codes[y] {
                lemma_code_injective(list[x], list[y], b);
            }
        }
    }
    codes.unique_seq_to_set();
    assert(codes.to_set().subset_of(set_int_range(0, pow(b + 2, n as nat)))) by {
        assert forall|c: int| codes.to_set().contains(c) implies set_int_range(
            0,
            pow(b + 2, n as nat),
        ).contains(c) by {
            assert(codes.contains(c));
            let m = choose|m: int| 0 <= m < codes.len() && codes[m] == c;
            lemma_code_range(list[m], b);
        }
    }
    lemma_pow_positive(b + 2, n as nat);
    lemma_int_range(0, pow(b + 2, n as nat));
    lemma_len_subset(codes.to_set(), set_int_range(0, pow(b + 2, n as nat)));
}

} // verus!
