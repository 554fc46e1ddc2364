//! Enumeration of integer compositions: every way to split a token count
//! over a fixed number of slots.
use vstd::prelude::*;

use crate::coef::COEF_CAP;

verus! {

/// The sum of a sequence of numbers.
pub open spec fn u64_seq_sum(s: Seq<u64>) -> int
    decreases s.len(),
{
    if s.len() == 0 {
        0
    } else {
        s[0] + u64_seq_sum(s.drop_first())
    }
}

/// `p` is a composition of `x` into `len` parts.
pub open spec fn is_composition(p: Seq<u64>, x: u64, len: int) -> bool {
    p.len() == len && u64_seq_sum(p) == x
}

/// The list `r` holds a vector whose view is `p`.
pub open spec fn contains_part(r: Seq<Vec<u64>>, p: Seq<u64>) -> bool {
    exists|k: int| 0 <= k < r.len() && r[k]@ == p
}

/// No two listed vectors are equal: each tuple appears at most once.
pub open spec fn parts_distinct(r: Seq<Vec<u64>>) -> bool {
    forall|j1: int, j2: int|
        #![trigger r[j1], r[j2]]
        0 <= j1 < r.len() && 0 <= j2 < r.len() && j1 != j2 ==> r[j1]@ != r[j2]@
}

pub proof fn lemma_sum_nonneg(s: Seq<u64>)
    ensures
        0 <= u64_seq_sum(s),
    decreases s.len(),
{
    if s.len() > 0 {
        lemma_sum_nonneg(s.drop_first());
    }
}

pub proof fn lemma_sum_cons(c0: u64, rest: Seq<u64>)
    ensures
        u64_seq_sum(seq![c0] + rest) == c0 + u64_seq_sum(rest),
{
    let s = seq![c0] + rest;
    assert(s.len() == 1 + rest.len());
    assert(s[0] == c0);
    assert(s.drop_first() =~= rest);
}

/// A composition's first part stays below the total; the rest is a
/// composition of what is left.
pub proof fn lemma_comp_split(p: Seq<u64>, x: u64, len: int)
    requires
        is_composition(p, x, len),
        len >= 1,
    ensures
        p[0] <= x,
        is_composition(p.drop_first(), (x - p[0]) as u64, len - 1),
{
    lemma_sum_nonneg(p.drop_first());
    assert(u64_seq_sum(p) == p[0] + u64_seq_sum(p.drop_first()));
}

proof fn lemma_contains_push(r: Seq<Vec<u64>>, v: Vec<u64>, p: Seq<u64>)
    requires
        contains_part(r, p),
    ensures
        contains_part(r.push(v), p),
{
    let k = choose|k: int| 0 <= k < r.len() && r[k]@ == p;
    assert(r.push(v)[k]@ == p);
}

/// All compositions of `x` into `len` parts, first part descending.
/// E.g. for `len` 3 and `x` 3: `[3,0,0], [2,1,0], [2,0,1], [1,2,0], ...,
/// [0,0,3]`.
pub fn get_partitions(x: u64, len: usize) -> (r: Vec<Vec<u64>>)
    requires
        x <= COEF_CAP,
    ensures
        forall|k: int| 0 <= k < r@.len() ==> is_composition(#[trigger] r@[k]@, x, len as int),
        len > 0 ==> forall|p: Seq<u64>|
            is_composition(p, x, len as int) ==> #[trigger] contains_part(r@, p),
        parts_distinct(r@),
        len == 0 ==> r@.len() == 0,
    decreases len,
{
    let mut result: Vec<Vec<u64>> = Vec::new();
    if len == 0 {
        return result;
    }
    if len == 1 {
        let mut p: Vec<u64> = Vec::new();
        p.push(x);
        result.push(p);
        proof {
            assert(result@[0]@ =~= seq![x]);
            assert(u64_seq_sum(seq![x]) == x + u64_seq_sum(seq![x].drop_first()));
            assert(seq![x].drop_first() =~= Seq::<u64>::empty());
            assert forall|p2: Seq<u64>| is_composition(p2, x, 1int) implies #[trigger] contains_part(
                result@,
                p2,
            ) by {
                assert(u64_seq_sum(p2) == p2[0] + u64_seq_sum(p2.drop_first()));
                assert(p2.drop_first() =~= Seq::<u64>::empty());
                assert(p2 =~= seq![x]);
                assert(result@[0]@ == p2);
            }
        }
        return result;
    }
    let mut idx: u64 = 0;
    proof {
        assert forall|p: Seq<u64>| is_composition(p, x, len as int) && p[0] > x - 0
            implies #[trigger] contains_part(result@, p) by {
            lemma_comp_split(p, x, len as int);
        }
    }
    while idx <= x
        invariant
            0 <= idx <= x + 1,
            x <= COEF_CAP,
            len >= 2,
            forall|k: int|
                0 <= k < result@.len() ==> is_composition(#[trigger] result@[k]@, x, len as int),
            forall|p: Seq<u64>|
                is_composition(p, x, len as int) && p[0] > x - idx ==> #[trigger] contains_part(
                    result@,
                    p,
                ),
            parts_distinct(result@),
            forall|k: int| 0 <= k < result@.len() ==> (#[trigger] result@[k])@[0] > x - idx,
        decreases x - idx + 1,
    {
        let c0 = x - idx;
        let rests = get_partitions(x - c0, len - 1);
        let ghost base_len = result@.len() as int;
        let mut m: usize = 0;
        while m < rests.len()
            invariant
                0 <= m <= rests@.len(),
                len >= 2,
                c0 <= x,
                forall|k: int|
                    0 <= k < rests@.len() ==> is_composition(
                        #[trigger] rests@[k]@,
                        (x - c0) as u64,
                        len - 1,
                    ),
                forall|p: Seq<u64>|
                    is_composition(p, (x - c0) as u64, len - 1) ==> #[trigger] contains_part(
                        rests@,
                        p,
                    ),
                forall|k: int|
                    0 <= k < result@.len() ==> is_composition(
                        #[trigger] result@[k]@,
                        x,
                        len as int,
                    ),
                forall|p: Seq<u64>|
                    is_composition(p, x, len as int) && p[0] > c0 ==> #[trigger] contains_part(
                        result@,
                        p,
                    ),
                forall|j: int|
                    0 <= j < m ==> #[trigger] contains_part(result@, seq![c0] + rests@[j]@),
                parts_distinct(rests@),
                parts_distinct(result@),
                0 <= base_len,
                result@.len() == base_len + m,
                forall|k: int| 0 <= k < base_len ==> (#[trigger] result@[k])@[0] > c0,
                forall|j: int|
                    0 <= j < m ==> (#[trigger] result@[base_len + j])@ == seq![c0] + rests@[j]@,
            decreases rests@.len() - m,
        {
            let mut p: Vec<u64> = Vec::new();
            p.push(c0);
            let rest = &rests[m];
            let mut t: usize = 0;
            while t < rest.len()
                invariant
                    0 <= t <= rest@.len(),
                    p@ == seq![c0] + rest@.take(t as int),
                decreases rest@.len() - t,
            {
                p.push(rest[t]);
                proof {
                    assert(seq![c0] + rest@.take(t + 1) =~= (seq![c0] + rest@.take(t as int)).push(
                        rest@[t as int],
                    ));
                }
                t = t + 1;
            }
            proof {
                assert(rest@.take(rest@.len() as int) =~= rest@);
                assert(p@ == seq![c0] + rests@[m as int]@);
                lemma_sum_cons(c0, rest@);
                assert(is_composition(p@, x, len as int));
            }
            let ghost old_result = result@;
            let ghost pushed = p;
            result.push(p);
            proof {
                assert(result@ == old_result.push(pushed));
                assert(result@[old_result.len() as int]@ == seq![c0] + rests@[m as int]@);
                assert(contains_part(result@, seq![c0] + rests@[m as int]@));
                assert forall|j: int| 0 <= j < m + 1 implies #[trigger] contains_part(
                    result@,
                    seq![c0] + rests@[j]@,
                ) by {
                    if j < m {
                        lemma_contains_push(old_result, pushed, seq![c0] + rests@[j]@);
                    }
                }
                assert forall|p2: Seq<u64>|
                    is_composition(p2, x, len as int) && p2[0] > c0 implies #[trigger] contains_part(
                    result@,
                    p2,
                ) by {
                    lemma_contains_push(old_result, pushed, p2);
                }
                assert(pushed@[0] == c0);
                assert forall|j1: int, j2: int|
                    #![trigger result@[j1], result@[j2]]
                    0 <= j1 < result@.len() && 0 <= j2 < result@.len() && j1 != j2
                    implies result@[j1]@ != result@[j2]@ by {
                    if j1 < old_result.len() && j2 < old_result.len() {
                        assert(old_result[j1]@ != old_result[j2]@);
                    } else {
                        let jo = if j1 < old_result.len() {
                            j1
                        } else {
                            j2
                        };
                        assert(jo < old_result.len());
                        if jo < base_len {
                            assert(result@[jo]@[0] > c0);
                            assert(pushed@[0] == c0);
                        } else {
                            let jr = jo - base_len;
                            assert(0 <= jr < m);
                            assert(result@[base_len + jr]@ == seq![c0] + rests@[jr]@);
                            assert(result@[jo]@ == seq![c0] + rests@[jr]@);
                            if result@[jo]@ == pushed@ {
                                assert((seq![c0] + rests@[jr]@).drop_first() =~= rests@[jr]@);
                                assert((seq![c0] + rests@[m as int]@).drop_first() =~= rests@[m as int]@);
                                assert(rests@[jr]@ == rests@[m as int]@);
                                assert(rests@[jr]@ != rests@[m as int]@);
                            }
                        }
                    }
                }
                assert forall|j: int|
                    0 <= j < m + 1 implies (#[trigger] result@[base_len + j])@ == seq![c0]
                    + rests@[j]@ by {
                    assert(old_result.len() == base_len + m);
                    if j < m {
                        assert(old_result[base_len + j]@ == seq![c0] + rests@[j]@);
                        assert(old_result.push(pushed)[base_len + j] == old_result[base_len + j]);
                        assert(result@[base_len + j] == old_result.push(pushed)[base_len + j]);
                    } else {
                        assert(result@[base_len + j]@ == seq![c0] + rests@[m as int]@);
                    }
                }
            }
            m = m + 1;
        }
        proof {
            assert forall|p: Seq<u64>| is_composition(p, x, len as int) && p[0] > x - (idx + 1)
                implies #[trigger] contains_part(result@, p) by {
                if p[0] <= c0 {
                    lemma_comp_split(p, x, len as int);
                    assert(p[0] == c0);
                    assert(contains_part(rests@, p.drop_first()));
                    let k = choose|k: int|
                        0 <= k < rests@.len() && #[trigger] rests@[k]@ == p.drop_first();
                    assert(seq![c0] + rests@[k]@ =~= p);
                    assert(contains_part(result@, seq![c0] + rests@[k]@));
                }
            }
            assert forall|kk: int| 0 <= kk < result@.len() implies (#[trigger] result@[kk])@[0] > x
                - (idx + 1) by {
                if kk < base_len {
                } else {
                    let kr = kk - base_len;
                    assert(result@[base_len + kr]@ == seq![c0] + rests@[kr]@);
                    assert(result@[kk]@[0] == c0);
                }
            }
        }
        idx = idx + 1;
    }
    proof {
        assert forall|p: Seq<u64>| is_composition(p, x, len as int) implies #[trigger] contains_part(
            result@,
            p,
        ) by {
            lemma_comp_split(p, x, len as int);
        }
    }
    result
}

/// All compositions of `c` into `len` parts, first part ascending; the last
/// coordinate absorbs what the earlier choices leave.
pub fn get_transports(c: u64, len: usize) -> (r: Vec<Vec<u64>>)
    requires
        len > 0,
        c <= COEF_CAP,
    ensures
        forall|k: int| 0 <= k < r@.len() ==> is_composition(#[trigger] r@[k]@, c, len as int),
        forall|p: Seq<u64>|
            is_composition(p, c, len as int) ==> #[trigger] contains_part(r@, p),
        parts_distinct(r@),
    decreases len,
{
    let mut result: Vec<Vec<u64>> = Vec::new();
    if len == 1 {
        let mut p: Vec<u64> = Vec::new();
        p.push(c);
        result.push(p);
        proof {
            assert(result@[0]@ =~= seq![c]);
            assert(u64_seq_sum(seq![c]) == c + u64_seq_sum(seq![c].drop_first()));
            assert(seq![c].drop_first() =~= Seq::<u64>::empty());
            assert forall|p2: Seq<u64>| is_composition(p2, c, 1int) implies #[trigger] contains_part(
                result@,
                p2,
            ) by {
                assert(u64_seq_sum(p2) == p2[0] + u64_seq_sum(p2.drop_first()));
                assert(p2.drop_first() =~= Seq::<u64>::empty());
                assert(p2 =~= seq![c]);
                assert(result@[0]@ == p2);
            }
        }
        return result;
    }
    let mut c0: u64 = 0;
    while c0 <= c
        invariant
            0 <= c0 <= c + 1,
            c <= COEF_CAP,
            len >= 2,
            forall|k: int|
                0 <= k < result@.len() ==> is_composition(#[trigger] result@[k]@, c, len as int),
            forall|p: Seq<u64>|
                is_composition(p, c, len as int) && p[0] < c0 ==> #[trigger] contains_part(
                    result@,
                    p,
                ),
            parts_distinct(result@),
            forall|k: int| 0 <= k < result@.len() ==> (#[trigger] result@[k])@[0] < c0,
        decreases c - c0 + 1,
    {
        let rests = get_transports(c - c0, len - 1);
        let ghost base_len = result@.len() as int;
        let mut m: usize = 0;
        while m < rests.len()
            invariant
                0 <= m <= rests@.len(),
                len >= 2,
                c0 <= c,
                forall|k: int|
                    0 <= k < rests@.len() ==> is_composition(
                        #[trigger] rests@[k]@,
                        (c - c0) as u64,
                        len - 1,
                    ),
                forall|p: Seq<u64>|
                    is_composition(p, (c - c0) as u64, len - 1) ==> #[trigger] contains_part(
                        rests@,
                        p,
                    ),
                forall|k: int|
                    0 <= k < result@.len() ==> is_composition(
                        #[trigger] result@[k]@,
                        c,
                        len as int,
                    ),
                forall|p: Seq<u64>|
                    is_composition(p, c, len as int) && p[0] < c0 ==> #[trigger] contains_part(
                        result@,
                        p,
                    ),
                forall|j: int|
                    0 <= j < m ==> #[trigger] contains_part(result@, seq![c0] + rests@[j]@),
                parts_distinct(rests@),
                parts_distinct(result@),
                0 <= base_len,
                result@.len() == base_len + m,
                forall|k: int| 0 <= k < base_len ==> (#[trigger] result@[k])@[0] < c0,
                forall|j: int|
                    0 <= j < m ==> (#[trigger] result@[base_len + j])@ == seq![c0] + rests@[j]@,
            decreases rests@.len() - m,
        {
            let mut p: Vec<u64> = Vec::new();
            p.push(c0);
            let rest = &rests[m];
            let mut t: usize = 0;
            while t < rest.len()
                invariant
                    0 <= t <= rest@.len(),
                    p@ == seq![c0] + rest@.take(t as int),
                decreases rest@.len() - t,
            {
                p.push(rest[t]);
                proof {
                    assert(seq![c0] + rest@.take(t + 1) =~= (seq![c0] + rest@.take(t as int)).push(
                        rest@[t as int],
                    ));
                }
                t = t + 1;
            }
            proof {
                assert(rest@.take(rest@.len() as int) =~= rest@);
                assert(p@ == seq![c0] + rests@[m as int]@);
                lemma_sum_cons(c0, rest@);
                assert(is_composition(p@, c, len as int));
            }
            let ghost old_result = result@;
            let ghost pushed = p;
            result.push(p);
            proof {
                assert(result@ == old_result.push(pushed));
                assert(result@[old_result.len() as int]@ == seq![c0] + rests@[m as int]@);
                assert(contains_part(result@, seq![c0] + rests@[m as int]@));
                assert forall|j: int| 0 <= j < m + 1 implies #[trigger] contains_part(
                    result@,
                    seq![c0] + rests@[j]@,
                ) by {
                    if j < m {
                        lemma_contains_push(old_result, pushed, seq![c0] + rests@[j]@);
                    }
                }
                assert forall|p2: Seq<u64>|
                    is_composition(p2, c, len as int) && p2[0] < c0 implies #[trigger] contains_part(
                    result@,
                    p2,
                ) by {
                    lemma_contains_push(old_result, pushed, p2);
                }
                assert(pushed@[0] == c0);
                assert forall|j1: int, j2: int|
                    #![trigger result@[j1], result@[j2]]
                    0 <= j1 < result@.len() && 0 <= j2 < result@.len() && j1 != j2
                    implies result@[j1]@ != result@[j2]@ by {
                    if j1 < old_result.len() && j2 < old_result.len() {
                        assert(old_result[j1]@ != old_result[j2]@);
                    } else {
                        let jo = if j1 < old_result.len() {
                            j1
                        } else {
                            j2
                        };
                        assert(jo < old_result.len());
                        if jo < base_len {
                            assert(result@[jo]@[0] < c0);
                            assert(pushed@[0] == c0);
                        } else {
                            let jr = jo - base_len;
                            assert(0 <= jr < m);
                            assert(result@[base_len + jr]@ == seq![c0] + rests@[jr]@);
                            assert(result@[jo]@ == seq![c0] + rests@[jr]@);
                            if result@[jo]@ == pushed@ {
                                assert((seq![c0] + rests@[jr]@).drop_first() =~= rests@[jr]@);
                                assert((seq![c0] + rests@[m as int]@).drop_first() =~= rests@[m as int]@);
                                assert(rests@[jr]@ == rests@[m as int]@);
                                assert(rests@[jr]@ != rests@[m as int]@);
                            }
                        }
                    }
                }
                assert forall|j: int|
                    0 <= j < m + 1 implies (#[trigger] result@[base_len + j])@ == seq![c0]
                    + rests@[j]@ by {
                    assert(old_result.len() == base_len + m);
                    if j < m {
                        assert(old_result[base_len + j]@ == seq![c0] + rests@[j]@);
                        assert(old_result.push(pushed)[base_len + j] == old_result[base_len + j]);
                        assert(result@[base_len + j] == old_result.push(pushed)[base_len + j]);
                    } else {
                        assert(result@[base_len + j]@ == seq![c0] + rests@[m as int]@);
                    }
                }
            }
            m = m + 1;
        }
        proof {
            assert forall|p: Seq<u64>| is_composition(p, c, len as int) && p[0] < c0 + 1
                implies #[trigger] contains_part(result@, p) by {
                if p[0] >= c0 {
                    lemma_comp_split(p, c, len as int);
                    assert(p[0] == c0);
                    assert(contains_part(rests@, p.drop_first()));
                    let k = choose|k: int|
                        0 <= k < rests@.len() && #[trigger] rests@[k]@ == p.drop_first();
                    assert(seq![c0] + rests@[k]@ =~= p);
                    assert(contains_part(result@, seq![c0] + rests@[k]@));
                }
            }
            assert forall|kk: int| 0 <= kk < result@.len() implies (#[trigger] result@[kk])@[0]
                < c0 + 1 by {
                if kk < base_len {
                } else {
                    let kr = kk - base_len;
                    assert(result@[base_len + kr]@ == seq![c0] + rests@[kr]@);
                    assert(result@[kk]@[0] == c0);
                }
            }
        }
        c0 = c0 + 1;
    }
    proof {
        assert forall|p: Seq<u64>| is_composition(p, c, len as int) implies #[trigger] contains_part(
            result@,
            p,
        ) by {
            lemma_comp_split(p, c, len as int);
        }
    }
    result
}

} // verus!
