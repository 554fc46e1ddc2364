//! The flow semigroup: the closure of a seed set of flows under the
//! nondeterministic product and the iteration of idempotents, kept as a
//! minimal antichain.
use vstd::arithmetic::div_mod::lemma_fundamental_div_mod;
use vstd::arithmetic::div_mod::lemma_mod_bound;
use vstd::arithmetic::power::pow;
use vstd::prelude::*;

use crate::coef::Coef;
use crate::coef::COEF_CAP;
use crate::counting::lemma_distinct_bounded_count;
use crate::downset::covers;
use crate::downset::lemma_filtered_covers;
use crate::downset::lemma_seq_le_refl;
use crate::downset::lemma_seq_le_trans;
use crate::downset::strictly_covered;
use crate::downset::DownSet;
use crate::flow::mat_at;
use crate::flow::sharp_cond;
use crate::flow::sprod_entry;
use crate::flow::ssquare_of;
use crate::flow::Flow;
use crate::ideal::fin_bounded;
use crate::ideal::seq_le;
use crate::ideal::Ideal;

verus! {

/// The omega part of a product of entry matrices: `Omega` exactly on the
/// all-`Omega` two-step channels.
#[verifier::opaque]
pub open spec fn somega(a: Seq<Coef>, b: Seq<Coef>, dim: int) -> Seq<Coef> {
    Seq::new(
        (dim * dim) as nat,
        |t: int|
            if exists|j: int|
                0 <= j < dim && (#[trigger] mat_at(a, dim, t / dim, j)) is Omega && mat_at(
                    b,
                    dim,
                    j,
                    t % dim,
                ) is Omega {
                Coef::Omega
            } else {
                Coef::Value(0)
            },
    )
}

/// The iteration of an entry matrix: `Omega` where a finite positive
/// channel joins `Omega`-connected ends, the matrix itself elsewhere.
#[verifier::opaque]
pub open spec fn sharp_seq(s: Seq<Coef>, dim: int) -> Seq<Coef> {
    Seq::new(
        (dim * dim) as nat,
        |t: int|
            if sharp_cond(s, dim, t / dim, t % dim) {
                Coef::Omega
            } else {
                mat_at(s, dim, t / dim, t % dim)
            },
    )
}

/// All members are well-formed square matrices of dimension `dim` bounded
/// by `b`.
pub open spec fn sg_wf(flows: Seq<Flow>, dim: int, b: int) -> bool {
    forall|t: int|
        0 <= t < flows.len() ==> (#[trigger] flows[t]).wf() && flows[t].nb_rows == dim
            && flows[t].nb_cols == dim && flows[t].bounded(b)
}

/// The entry matrices of a list of flows.
pub open spec fn entry_views(flows: Seq<Flow>) -> Seq<Seq<Coef>> {
    flows.map_values(|f: Flow| f.entry_seq())
}

/// Some member dominates the entry matrix `es` componentwise.
pub open spec fn entries_covered(flows: Seq<Flow>, es: Seq<Coef>) -> bool {
    covers(entry_views(flows), es)
}

/// No member lies below another member: the family of flows is a minimal
/// antichain.
pub open spec fn flow_antichain(flows: Seq<Flow>) -> bool {
    forall|a: int, b: int|
        #![trigger flows[a].spec_le(&flows[b])]
        0 <= a < flows.len() && 0 <= b < flows.len() && a != b ==> !flows[a].spec_le(&flows[b])
}

/// The closure laws for one member: the omega part of its product with
/// every member is dominated by a member; for bounds of at most one the
/// full `(max, min)` product is; and its iteration, when it is idempotent,
/// is dominated by a member.
#[verifier::opaque]
pub open spec fn row_closed(flows: Seq<Flow>, t: int, dim: int, k: u64) -> bool {
    (forall|q: int|
        0 <= q < flows.len() ==> entries_covered(
            flows,
            somega(flows[t].entry_seq(), (#[trigger] flows[q]).entry_seq(), dim),
        )) && (k <= 1 ==> forall|q: int|
        0 <= q < flows.len() ==> entries_covered(
            flows,
            ssquare_of(flows[t].entry_seq(), (#[trigger] flows[q]).entry_seq(), dim),
        )) && (crate::flow::is_idem_seq(flows[t].entry_seq(), dim) ==> entries_covered(
        flows,
        sharp_seq(flows[t].entry_seq(), dim),
    ))
}

/// The semigroup laws of a closed set (`P3`): the closure laws hold of
/// every member.
pub open spec fn closed_under(flows: Seq<Flow>, dim: int, k: u64) -> bool {
    forall|t: int| 0 <= t < flows.len() ==> #[trigger] row_closed(flows, t, dim, k)
}

/// Some member of `flows` carries exactly the entry matrix of `f`.
pub open spec fn shares_entries(flows: Seq<Flow>, f: Flow) -> bool {
    exists|w: int| 0 <= w < flows.len() && f.entry_seq() == (#[trigger] flows[w]).entry_seq()
}

/// Some member's pre-image is `y`.
pub open spec fn some_pre_image(flows: Seq<Flow>, y: Seq<Coef>, target: Seq<usize>) -> bool {
    exists|t: int| 0 <= t < flows.len() && pre_image_matches(y, #[trigger] flows[t], target)
}

/// The downset representation holds the pre-image of `f`.
pub open spec fn has_pre_image_member(r: Seq<Seq<Coef>>, f: Flow, target: Seq<usize>) -> bool {
    exists|m: int| 0 <= m < r.len() && pre_image_matches(#[trigger] r[m], f, target)
}

/// The ideal `y` is the pre-image of the target states under `f`.
pub open spec fn pre_image_matches(y: Seq<Coef>, f: Flow, target: Seq<usize>) -> bool {
    y.len() == f.nb_rows && forall|i: int|
        0 <= i < f.nb_rows ==> Coef::is_seq_sum(
            #[trigger] y[i],
            Seq::new(target.len(), |t: int| f.at(i, target[t] as int)),
        )
}

/// Close a seed set of square flows of one dimension under the
/// nondeterministic product and the iteration of idempotents, and keep the
/// maximal members. The result is a minimal antichain that covers every
/// seed flow; the omega part of every product of two members, the full
/// `(max, min)` product when the bound is at most one, and the iteration
/// of every idempotent member are all dominated by members. The saturation
/// ends because only finitely many bounded flows of one dimension exist.
pub fn semigroup_close(seed: &Vec<Flow>, maximal_finite_coordinate: u64) -> (r: Vec<Flow>)
    requires
        maximal_finite_coordinate <= COEF_CAP,
        forall|t: int|
            0 <= t < seed@.len() ==> (#[trigger] seed@[t]).wf() && seed@[t].nb_rows
                == seed@[t].nb_cols && seed@[t].bounded(COEF_CAP as int),
        forall|t: int, q: int|
            0 <= t < seed@.len() && 0 <= q < seed@.len() ==> (#[trigger] seed@[t]).nb_rows == (
            #[trigger] seed@[q]).nb_rows,
        forall|t: int| 0 <= t < seed@.len() ==> (#[trigger] seed@[t]).nb_rows <= COEF_CAP,
    ensures
        flow_antichain(r@),
        forall|t: int|
            0 <= t < r@.len() ==> (#[trigger] r@[t]).wf() && r@[t].nb_rows == r@[t].nb_cols
                && r@[t].bounded(COEF_CAP as int),
        forall|t: int, q: int|
            0 <= t < r@.len() && 0 <= q < seed@.len() ==> (#[trigger] r@[t]).nb_rows == (
            #[trigger] seed@[q]).nb_rows,
        forall|t: int|
            0 <= t < seed@.len() ==> entries_covered(r@, (#[trigger] seed@[t]).entry_seq()),
        seed@.len() > 0 ==> closed_under(
            r@,
            seed@[0].nb_rows as int,
            maximal_finite_coordinate,
        ),
        seed@.len() == 0 ==> r@.len() == 0,
{
    let k = maximal_finite_coordinate;
    if seed.len() == 0 {
        let r: Vec<Flow> = Vec::new();
        return r;
    }
    let dim = seed[0].nb_rows;
    let ghost bd = COEF_CAP as int;
    let deduped = dedup_seed(seed, dim);
    let ghost dv = deduped@;
    let mut m = deduped;
    loop
        invariant
            dim <= COEF_CAP,
            k <= COEF_CAP,
            k == maximal_finite_coordinate,
            bd == COEF_CAP as int,
            dim == seed@[0].nb_rows,
            seed@.len() > 0,
            forall|t: int|
                0 <= t < seed@.len() ==> (#[trigger] seed@[t]).wf() && seed@[t].nb_rows
                    == seed@[t].nb_cols && seed@[t].bounded(bd) && seed@[t].nb_rows == dim,
            sg_wf(m@, dim as int, bd),
            entry_views(m@).no_duplicates(),
            forall|x: Seq<Coef>| covers(entry_views(dv), x) ==> covers(entry_views(m@), x),
            forall|t: int|
                0 <= t < seed@.len() ==> entries_covered(dv, (#[trigger] seed@[t]).entry_seq()),
        decreases pow(bd + 2, (dim * dim) as nat) - m@.len(),
    {
        let saturated = saturate(m, k, dim);
        let ghost sv = saturated@;
        let minimized = minimize_flows(&saturated, dim);
        let missing = find_uncovered(&minimized, k, dim);
        match missing {
            Option::None => {
                proof {
                    assert(seed@[0].nb_rows == dim);
                    assert(closed_under(minimized@, seed@[0].nb_rows as int, k));
                    assert forall|t: int|
                        0 <= t < seed@.len() implies entries_covered(
                        minimized@,
                        (#[trigger] seed@[t]).entry_seq(),
                    ) by {
                        assert(covers(entry_views(dv), seed@[t].entry_seq()));
                        assert(covers(entry_views(sv), seed@[t].entry_seq()));
                        assert(covers(entry_views(minimized@), seed@[t].entry_seq()));
                    }
                }
                return minimized;
            },
            Option::Some(f) => {
                let mut back = saturated;
                let ghost gf = f;
                let ghost fseq = f.entry_seq();
                proof {
                    // the missing flow is covered by no member of the
                    // minimized family, hence by none of the saturated one
                    if covers(entry_views(sv), fseq) {
                        assert(covers(entry_views(minimized@), fseq));
                        let h = choose|h: int|
                            0 <= h < entry_views(minimized@).len() && seq_le(
                                fseq,
                                #[trigger] entry_views(minimized@)[h],
                            );
                        assert(entry_views(minimized@)[h] == minimized@[h].entry_seq());
                        assert(gf.spec_le(&minimized@[h]));
                        assert(false);
                    }
                }
                push_if_new(&mut back, f);
                proof {
                    if back@ == sv {
                        let h = choose|h: int|
                            0 <= h < sv.len() && (#[trigger] sv[h]).entry_seq() == fseq;
                        lemma_seq_le_refl(fseq);
                        assert(entry_views(sv)[h] == sv[h].entry_seq());
                        assert(covers(entry_views(sv), fseq));
                        assert(false);
                    }
                    assert(back@.len() > sv.len());
                    assert forall|x: Seq<Coef>|
                        covers(entry_views(dv), x) implies covers(entry_views(back@), x) by {
                        assert(covers(entry_views(sv), x));
                        lemma_covered_extends(sv, back@, x);
                    }
                    assert forall|t: int|
                        0 <= t < back@.len() implies (#[trigger] back@[t]).wf()
                            && back@[t].nb_rows == dim && back@[t].nb_cols == dim
                            && back@[t].bounded(bd) by {
                        if t < sv.len() {
                        } else {
                            assert(back@[t] == gf);
                        }
                    }
                    lemma_sg_count(back@, dim as int, bd);
                }
                m = back;
            },
        }
    }
}

/// A minimal antichain set of flows, closed under product and iteration.
#[derive(Debug)]
pub struct FlowSemigroup {
    pub flows: Vec<Flow>,
}

impl FlowSemigroup {
    pub fn new() -> (r: Self)
        ensures
            r.flows@.len() == 0,
    {
        FlowSemigroup { flows: Vec::new() }
    }

    /// Whether the flow is dominated by some member.
    pub fn contains(&self, flow: &Flow) -> (r: bool)
        requires
            flow.wf(),
            forall|t: int| 0 <= t < self.flows@.len() ==> (#[trigger] self.flows@[t]).wf(),
        ensures
            r == exists|t: int|
                0 <= t < self.flows@.len() && flow.spec_le(&#[trigger] self.flows@[t]),
    {
        is_covered(flow, &self.flows)
    }

    /// Close the seed set under the nondeterministic product and the
    /// iteration of idempotents, then minimize.
    #[verifier::rlimit(100)]
    pub fn compute(seed: &Vec<Flow>, maximal_finite_coordinate: u64) -> (r: FlowSemigroup)
        requires
            maximal_finite_coordinate <= COEF_CAP,
            forall|t: int|
                0 <= t < seed@.len() ==> (#[trigger] seed@[t]).wf() && seed@[t].nb_rows
                    == seed@[t].nb_cols && seed@[t].bounded(COEF_CAP as int),
            forall|t: int, q: int|
                0 <= t < seed@.len() && 0 <= q < seed@.len() ==> (#[trigger] seed@[t]).nb_rows == (
                #[trigger] seed@[q]).nb_rows,
            forall|t: int| 0 <= t < seed@.len() ==> (#[trigger] seed@[t]).nb_rows <= COEF_CAP,
        ensures
            flow_antichain(r.flows@),
            forall|t: int|
                0 <= t < r.flows@.len() ==> (#[trigger] r.flows@[t]).wf() && r.flows@[t].nb_rows
                    == r.flows@[t].nb_cols && r.flows@[t].bounded(COEF_CAP as int),
            forall|t: int, q: int|
                0 <= t < r.flows@.len() && 0 <= q < seed@.len() ==> (#[trigger] r.flows@[t]).nb_rows
                    == (#[trigger] seed@[q]).nb_rows,
            forall|t: int|
                0 <= t < seed@.len() ==> entries_covered(
                    r.flows@,
                    (#[trigger] seed@[t]).entry_seq(),
                ),
            seed@.len() > 0 ==> closed_under(
                r.flows@,
                seed@[0].nb_rows as int,
                maximal_finite_coordinate,
            ),
            seed@.len() == 0 ==> r.flows@.len() == 0,
    {
        let flows = semigroup_close(seed, maximal_finite_coordinate);
        FlowSemigroup { flows }
    }

    /// The configurations from which some member flow reaches the target
    /// set: the downset of the pre-images of all members.
    pub fn get_path_problem_solution(&self, target: &Vec<usize>) -> (r: DownSet)
        requires
            forall|t: int|
                0 <= t < self.flows@.len() ==> (#[trigger] self.flows@[t]).wf()
                    && self.flows@[t].bounded(COEF_CAP as int),
            forall|t: int, q: int|
                0 <= t < self.flows@.len() && 0 <= q < target@.len() ==> #[trigger] target@[q] < (
                #[trigger] self.flows@[t]).nb_cols,
            target@.len() <= COEF_CAP,
        ensures
            r@.no_duplicates(),
            forall|m: int| 0 <= m < r@.len() ==> some_pre_image(self.flows@, #[trigger] r@[m], target@),
            forall|t: int|
                0 <= t < self.flows@.len() ==> has_pre_image_member(
                    r@,
                    #[trigger] self.flows@[t],
                    target@,
                ),
    {
        let mut ideals: Vec<Ideal> = Vec::new();
        let mut t: usize = 0;
        while t < self.flows.len()
            invariant
                0 <= t <= self.flows@.len(),
                forall|q: int|
                    0 <= q < self.flows@.len() ==> (#[trigger] self.flows@[q]).wf()
                        && self.flows@[q].bounded(COEF_CAP as int),
                forall|q: int, w: int|
                    0 <= q < self.flows@.len() && 0 <= w < target@.len() ==> #[trigger] target@[w]
                        < (#[trigger] self.flows@[q]).nb_cols,
                target@.len() <= COEF_CAP,
                ideals@.len() == t,
                forall|q: int|
                    0 <= q < t ==> pre_image_matches(
                        #[trigger] ideals@[q]@,
                        self.flows@[q],
                        target@,
                    ),
            decreases self.flows@.len() - t,
        {
            let p = self.flows[t].pre_image(target);
            ideals.push(p);
            t = t + 1;
        }
        let r = DownSet::from_vec(&ideals);
        proof {
            let iv = ideals@.map_values(|i: Ideal| i@);
            assert forall|m: int| 0 <= m < r@.len() implies some_pre_image(
                self.flows@,
                #[trigger] r@[m],
                target@,
            ) by {
                assert(r@.contains(r@[m]));
                assert(iv.contains(r@[m]));
                let q = choose|q: int| 0 <= q < iv.len() && #[trigger] iv[q] == r@[m];
                assert(pre_image_matches(r@[m], self.flows@[q], target@));
            }
            assert forall|t2: int| 0 <= t2 < self.flows@.len() implies has_pre_image_member(
                r@,
                #[trigger] self.flows@[t2],
                target@,
            ) by {
                assert(iv[t2] == ideals@[t2]@);
                assert(iv.contains(iv[t2]));
                assert(r@.contains(iv[t2]));
                let m = choose|m: int| 0 <= m < r@.len() && #[trigger] r@[m] == iv[t2];
                assert(pre_image_matches(r@[m], self.flows@[t2], target@));
            }
        }
        r
    }
}

/// Copy the seed flows, dropping exact duplicates.
fn dedup_seed(seed: &Vec<Flow>, dim: usize) -> (r: Vec<Flow>)
    requires
        forall|t: int|
            0 <= t < seed@.len() ==> (#[trigger] seed@[t]).wf() && seed@[t].nb_rows
                == seed@[t].nb_cols && seed@[t].bounded(COEF_CAP as int) && seed@[t].nb_rows == dim,
    ensures
        sg_wf(r@, dim as int, COEF_CAP as int),
        entry_views(r@).no_duplicates(),
        forall|t: int|
            0 <= t < seed@.len() ==> entries_covered(r@, (#[trigger] seed@[t]).entry_seq()),
{
    let ghost bd = COEF_CAP as int;
    let mut t_flows: Vec<Flow> = Vec::new();
    let mut s: usize = 0;
    while s < seed.len()
        invariant
            0 <= s <= seed@.len(),
            forall|t: int|
                0 <= t < seed@.len() ==> (#[trigger] seed@[t]).wf() && seed@[t].nb_rows
                    == seed@[t].nb_cols && seed@[t].bounded(bd) && seed@[t].nb_rows == dim,
            bd == COEF_CAP as int,
            sg_wf(t_flows@, dim as int, bd),
            entry_views(t_flows@).no_duplicates(),
            forall|t: int|
                0 <= t < s ==> entries_covered(t_flows@, (#[trigger] seed@[t]).entry_seq()),
        decreases seed@.len() - s,
    {
        let ghost pre = t_flows@;
        let cl = seed[s].clone();
        let ghost gcl = cl;
        let ghost clseq = cl.entry_seq();
        push_if_new(&mut t_flows, cl);
        proof {
            assert(clseq == seed@[s as int].entry_seq());
            assert(entries_covered(t_flows@, seed@[s as int].entry_seq()));
            assert forall|t: int|
                0 <= t < s + 1 implies entries_covered(
                t_flows@,
                (#[trigger] seed@[t]).entry_seq(),
            ) by {
                if t < s {
                    lemma_covered_extends(pre, t_flows@, seed@[t].entry_seq());
                }
            }
            assert forall|t: int|
                0 <= t < t_flows@.len() implies (#[trigger] t_flows@[t]).wf() && t_flows@[t].nb_rows
                    == dim && t_flows@[t].nb_cols == dim && t_flows@[t].bounded(bd) by {
                if t < pre.len() {
                } else {
                    assert(t_flows@[t] == gcl);
                }
            }
        }
        s = s + 1;
    }
    t_flows
}

/// Saturate the set under products and iterations until the closure checks
/// pass. The saturation terminates because the members are distinct bounded
/// matrices of one shape, of which only finitely many exist.
fn saturate(start_flows: Vec<Flow>, k: u64, dim: usize) -> (r: Vec<Flow>)
    requires
        dim <= COEF_CAP,
        k <= COEF_CAP,
        sg_wf(start_flows@, dim as int, COEF_CAP as int),
        entry_views(start_flows@).no_duplicates(),
    ensures
        sg_wf(r@, dim as int, COEF_CAP as int),
        entry_views(r@).no_duplicates(),
        r@.len() >= start_flows@.len(),
        forall|x: Seq<Coef>|
            covers(entry_views(start_flows@), x) ==> covers(entry_views(r@), x),
{
    let ghost bd = COEF_CAP as int;
    let mut t_flows = start_flows;
    let ghost start_view = t_flows@;
    loop
        invariant
            dim <= COEF_CAP,
            k <= COEF_CAP,
            bd == COEF_CAP as int,
            sg_wf(t_flows@, dim as int, bd),
            entry_views(t_flows@).no_duplicates(),
            t_flows@.len() >= start_view.len(),
            forall|x: Seq<Coef>|
                covers(entry_views(start_view), x) ==> covers(entry_views(t_flows@), x),
            start_view == start_flows@,
        ensures
            sg_wf(t_flows@, dim as int, bd),
            entry_views(t_flows@).no_duplicates(),
            t_flows@.len() >= start_view.len(),
            forall|x: Seq<Coef>|
                covers(entry_views(start_view), x) ==> covers(entry_views(t_flows@), x),
        decreases pow(bd + 2, (dim * dim) as nat) - t_flows@.len(),
    {
        let candidates = build_candidates(&t_flows, k, dim);
        let changed = admit_candidates(&mut t_flows, &candidates, dim);
        if !changed {
            break ;
        }
        proof {
            lemma_sg_count(t_flows@, dim as int, bd);
        }
    }
    t_flows
}

/// Scan the set for a product omega part, a full product (for bounds of at
/// most one), or an iteration of an idempotent member that no member
/// dominates. `None` certifies the closure laws.
fn find_uncovered(t_flows: &Vec<Flow>, k: u64, dim: usize) -> (r: Option<Flow>)
    requires
        dim <= COEF_CAP,
        k <= COEF_CAP,
        sg_wf(t_flows@, dim as int, COEF_CAP as int),
    ensures
        match r {
            Option::None => closed_under(t_flows@, dim as int, k),
            Option::Some(f) => f.wf() && f.nb_rows == dim && f.nb_cols == dim && f.bounded(
                COEF_CAP as int,
            ) && !(exists|m: int|
                0 <= m < t_flows@.len() && f.spec_le(&#[trigger] t_flows@[m])),
        },
{
    let mut t: usize = 0;
    while t < t_flows.len()
        invariant
            0 <= t <= t_flows@.len(),
            dim <= COEF_CAP,
            k <= COEF_CAP,
            sg_wf(t_flows@, dim as int, COEF_CAP as int),
            forall|t2: int| 0 <= t2 < t ==> #[trigger] row_closed(t_flows@, t2, dim as int, k),
        decreases t_flows@.len() - t,
    {
        let row = row_uncovered(t_flows, t, k, dim);
        match row {
            Option::Some(f) => {
                return Option::Some(f);
            },
            Option::None => {},
        }
        t = t + 1;
    }
    Option::None
}

/// Check one member's products against every member, and its iteration
/// when it is idempotent.
#[verifier::rlimit(100)]
fn row_uncovered(t_flows: &Vec<Flow>, t: usize, k: u64, dim: usize) -> (r: Option<Flow>)
    requires
        dim <= COEF_CAP,
        k <= COEF_CAP,
        t < t_flows@.len(),
        sg_wf(t_flows@, dim as int, COEF_CAP as int),
    ensures
        match r {
            Option::None => row_closed(t_flows@, t as int, dim as int, k),
            Option::Some(f) => f.wf() && f.nb_rows == dim && f.nb_cols == dim && f.bounded(
                COEF_CAP as int,
            ) && !(exists|m: int|
                0 <= m < t_flows@.len() && f.spec_le(&#[trigger] t_flows@[m])),
        },
{
    let ghost bd = COEF_CAP as int;
    let mut q: usize = 0;
    while q < t_flows.len()
        invariant
            0 <= q <= t_flows@.len(),
            0 <= t < t_flows@.len(),
            dim <= COEF_CAP,
            k <= COEF_CAP,
            bd == COEF_CAP as int,
            sg_wf(t_flows@, dim as int, bd),
            forall|q2: int|
                0 <= q2 < q ==> entries_covered(
                    t_flows@,
                    somega(
                        t_flows@[t as int].entry_seq(),
                        (#[trigger] t_flows@[q2]).entry_seq(),
                        dim as int,
                    ),
                ),
            k <= 1 ==> forall|q2: int|
                0 <= q2 < q ==> entries_covered(
                    t_flows@,
                    ssquare_of(
                        t_flows@[t as int].entry_seq(),
                        (#[trigger] t_flows@[q2]).entry_seq(),
                        dim as int,
                    ),
                ),
        decreases t_flows@.len() - q,
    {
        let om = Flow::get_omega_entries(&t_flows[t], &t_flows[q]);
        proof {
            lemma_omega_entries_is_somega(&om, &t_flows@[t as int], &t_flows@[q as int], dim as int);
        }
        let om_cov = is_covered(&om, t_flows);
        if !om_cov {
            return Option::Some(om);
        }
        proof {
            let h = choose|h: int| 0 <= h < t_flows@.len() && om.spec_le(&#[trigger] t_flows@[h]);
            assert(entry_views(t_flows@)[h] == t_flows@[h].entry_seq());
            assert(entries_covered(
                t_flows@,
                somega(
                    t_flows@[t as int].entry_seq(),
                    t_flows@[q as int].entry_seq(),
                    dim as int,
                ),
            ));
        }
        if k <= 1 {
            let p = t_flows[t].product(&t_flows[q]);
            let p_cov = is_covered(&p, t_flows);
            if !p_cov {
                return Option::Some(p);
            }
            proof {
                let h = choose|h: int|
                    0 <= h < t_flows@.len() && p.spec_le(&#[trigger] t_flows@[h]);
                assert(entry_views(t_flows@)[h] == t_flows@[h].entry_seq());
                assert(entries_covered(
                    t_flows@,
                    ssquare_of(
                        t_flows@[t as int].entry_seq(),
                        t_flows@[q as int].entry_seq(),
                        dim as int,
                    ),
                ));
            }
        }
        q = q + 1;
    }
    let idem = t_flows[t].is_idempotent();
    if idem {
        proof {
            let s2 = t_flows@[t as int].entry_seq();
            assert(crate::flow::spow2(s2, dim as int, 0) == s2);
            assert(crate::flow::squaring_terminates(s2, dim as int));
        }
        let it = t_flows[t].iteration();
        proof {
            lemma_iteration_is_sharp(&it, t_flows@[t as int].entry_seq(), dim as int);
        }
        let it_cov = is_covered(&it, t_flows);
        if !it_cov {
            return Option::Some(it);
        }
        proof {
            let h = choose|h: int| 0 <= h < t_flows@.len() && it.spec_le(&#[trigger] t_flows@[h]);
            assert(entry_views(t_flows@)[h] == t_flows@[h].entry_seq());
            assert(entries_covered(
                t_flows@,
                sharp_seq(t_flows@[t as int].entry_seq(), dim as int),
            ));
        }
    } else {
        proof {
            assert(!crate::flow::is_idem_seq(t_flows@[t as int].entry_seq(), dim as int));
        }
    }
    proof {
        reveal(row_closed);
        assert(row_closed(t_flows@, t as int, dim as int, k));
    }
    Option::None
}

/// The exec omega part and the spec `somega` agree entrywise.
proof fn lemma_omega_entries_is_somega(om: &Flow, left: &Flow, right: &Flow, dim: int)
    requires
        om.wf(),
        om.nb_rows == dim,
        om.nb_cols == dim,
        left.wf(),
        right.wf(),
        left.nb_rows == dim,
        left.nb_cols == dim,
        right.nb_rows == dim,
        right.nb_cols == dim,
        forall|i: int, kk: int|
            0 <= i < dim && 0 <= kk < dim ==> #[trigger] om.at(i, kk) == (if exists|j: int|
                0 <= j < dim && (#[trigger] left.at(i, j)) is Omega && right.at(
                    j,
                    kk,
                ) is Omega {
                Coef::Omega
            } else {
                Coef::Value(0)
            }),
    ensures
        om.entry_seq() == somega(left.entry_seq(), right.entry_seq(), dim),
        om.bounded(COEF_CAP as int),
{
    reveal(somega);
    let a = left.entry_seq();
    let b = right.entry_seq();
    assert forall|x: int|
        0 <= x < om.entry_seq().len() implies om.entry_seq()[x] == somega(a, b, dim)[x] by {
        lemma_fundamental_div_mod(x, dim);
        lemma_mod_bound(x, dim);
        let xi = x / dim;
        let xk = x % dim;
        assert(0 <= xi < dim) by (nonlinear_arith)
            requires
                0 <= x < dim * dim,
                dim > 0,
                x == dim * xi + xk,
                0 <= xk < dim,
        ;
        assert(xi * dim + xk == x) by (nonlinear_arith)
            requires
                x == dim * xi + xk,
        ;
        assert(om.at(xi, xk) == om.entry_seq()[x]);
        if om.at(xi, xk) is Omega {
            let j = choose|j: int|
                0 <= j < dim && (#[trigger] left.at(xi, j)) is Omega && right.at(j, xk) is Omega;
            assert(mat_at(a, dim, xi, j) is Omega && mat_at(b, dim, j, xk) is Omega);
            assert(somega(a, b, dim)[x] is Omega);
        } else {
            if somega(a, b, dim)[x] is Omega {
                let j = choose|j: int|
                    0 <= j < dim && (#[trigger] mat_at(a, dim, xi, j)) is Omega && mat_at(
                        b,
                        dim,
                        j,
                        xk,
                    ) is Omega;
                assert(left.at(xi, j) is Omega && right.at(j, xk) is Omega);
                assert(false);
            }
        }
    }
    assert(om.entry_seq() =~= somega(a, b, dim));
    assert forall|x: int|
        0 <= x < om.entry_seq().len() implies ((#[trigger] om.entry_seq()[x]) matches Coef::Value(
        v,
    ) && v <= COEF_CAP as int || om.entry_seq()[x] is Omega) by {
        assert(om.entry_seq()[x] == somega(a, b, dim)[x]);
    }
}

/// The exec iteration of an idempotent flow and the spec `sharp_seq` agree.
proof fn lemma_iteration_is_sharp(it: &Flow, s: Seq<Coef>, dim: int)
    requires
        it.wf(),
        it.nb_rows == dim,
        it.nb_cols == dim,
        s.len() == dim * dim,
        fin_bounded(s, COEF_CAP as int),
        forall|x: int, t: int|
            0 <= x < dim && 0 <= t < dim ==> #[trigger] it.at(x, t) == (if sharp_cond(
                s,
                dim,
                x,
                t,
            ) {
                Coef::Omega
            } else {
                mat_at(s, dim, x, t)
            }),
    ensures
        it.entry_seq() == sharp_seq(s, dim),
        it.bounded(COEF_CAP as int),
{
    reveal(sharp_seq);
    assert forall|x: int|
        0 <= x < it.entry_seq().len() implies it.entry_seq()[x] == sharp_seq(s, dim)[x] by {
        lemma_fundamental_div_mod(x, dim);
        lemma_mod_bound(x, dim);
        let xi = x / dim;
        let xk = x % dim;
        assert(0 <= xi < dim) by (nonlinear_arith)
            requires
                0 <= x < dim * dim,
                dim > 0,
                x == dim * xi + xk,
                0 <= xk < dim,
        ;
        assert(xi * dim + xk == x) by (nonlinear_arith)
            requires
                x == dim * xi + xk,
        ;
        assert(it.at(xi, xk) == it.entry_seq()[x]);
    }
    assert(it.entry_seq() =~= sharp_seq(s, dim));
    assert forall|x: int|
        0 <= x < it.entry_seq().len() implies ((#[trigger] it.entry_seq()[x]) matches Coef::Value(
        v,
    ) && v <= COEF_CAP as int || it.entry_seq()[x] is Omega) by {
        lemma_fundamental_div_mod(x, dim);
        lemma_mod_bound(x, dim);
        let xi = x / dim;
        let xk = x % dim;
        assert(0 <= xi < dim) by (nonlinear_arith)
            requires
                0 <= x < dim * dim,
                dim > 0,
                x == dim * xi + xk,
                0 <= xk < dim,
        ;
        assert(xi * dim + xk == x) by (nonlinear_arith)
            requires
                x == dim * xi + xk,
        ;
        assert(it.entry_seq()[x] == sharp_seq(s, dim)[x]);
        if !sharp_cond(s, dim, xi, xk) {
            assert(s[x] matches Coef::Value(v) && v <= COEF_CAP as int || s[x] is Omega);
        }
    }
}

/// All products of pairs of members and iterations of idempotent members:
/// one saturation round's candidates.
fn build_candidates(t_flows: &Vec<Flow>, k: u64, dim: usize) -> (candidates: Vec<Flow>)
    requires
        dim <= COEF_CAP,
        k <= COEF_CAP,
        sg_wf(t_flows@, dim as int, COEF_CAP as int),
    ensures
        sg_wf(candidates@, dim as int, COEF_CAP as int),
{
    let ghost bd = COEF_CAP as int;
    let mut candidates: Vec<Flow> = Vec::new();
    let mut t: usize = 0;
    while t < t_flows.len()
        invariant
            0 <= t <= t_flows@.len(),
            dim <= COEF_CAP,
            k <= COEF_CAP,
            bd == COEF_CAP as int,
            sg_wf(t_flows@, dim as int, bd),
            sg_wf(candidates@, dim as int, bd),
        decreases t_flows@.len() - t,
    {
        let mut q: usize = 0;
        while q < t_flows.len()
            invariant
                0 <= q <= t_flows@.len(),
                0 <= t < t_flows@.len(),
                dim <= COEF_CAP,
                k <= COEF_CAP,
                bd == COEF_CAP as int,
                sg_wf(t_flows@, dim as int, bd),
                sg_wf(candidates@, dim as int, bd),
            decreases t_flows@.len() - q,
        {
            if k <= 1 {
                let p = t_flows[t].product(&t_flows[q]);
                candidates.push(p);
            } else {
                let prods = get_products(&t_flows[t], &t_flows[q], k);
                let mut w: usize = 0;
                while w < prods.len()
                    invariant
                        0 <= w <= prods@.len(),
                        dim <= COEF_CAP,
                        bd == COEF_CAP as int,
                        sg_wf(prods@, dim as int, bd),
                        sg_wf(candidates@, dim as int, bd),
                    decreases prods@.len() - w,
                {
                    candidates.push(prods[w].clone());
                    w = w + 1;
                }
            }
            q = q + 1;
        }
        let idem = t_flows[t].is_idempotent();
        if idem {
            proof {
                let s2 = t_flows@[t as int].entry_seq();
                assert(crate::flow::spow2(s2, dim as int, 0) == s2);
                assert(crate::flow::squaring_terminates(s2, dim as int));
            }
            let it = t_flows[t].iteration();
            proof {
                lemma_iteration_is_sharp(&it, t_flows@[t as int].entry_seq(), dim as int);
            }
            candidates.push(it);
        }
        t = t + 1;
    }
    candidates
}

/// Admit every candidate not yet covered. Returns whether the set grew;
/// what was covered before stays covered.
fn admit_candidates(t_flows: &mut Vec<Flow>, candidates: &Vec<Flow>, dim: usize) -> (changed:
    bool)
    requires
        sg_wf(old(t_flows)@, dim as int, COEF_CAP as int),
        sg_wf(candidates@, dim as int, COEF_CAP as int),
        entry_views(old(t_flows)@).no_duplicates(),
    ensures
        entry_views(final(t_flows)@).no_duplicates(),
        sg_wf(final(t_flows)@, dim as int, COEF_CAP as int),
        final(t_flows)@.len() >= old(t_flows)@.len(),
        changed ==> final(t_flows)@.len() > old(t_flows)@.len(),
        forall|x: Seq<Coef>|
            covers(entry_views(old(t_flows)@), x) ==> covers(entry_views(final(t_flows)@), x),
{
    let ghost pre_round = t_flows@;
    let mut changed = false;
    let mut c: usize = 0;
    while c < candidates.len()
        invariant
            0 <= c <= candidates@.len(),
            sg_wf(candidates@, dim as int, COEF_CAP as int),
            sg_wf(t_flows@, dim as int, COEF_CAP as int),
            entry_views(t_flows@).no_duplicates(),
            t_flows@.len() >= pre_round.len(),
            pre_round == old(t_flows)@,
            changed ==> t_flows@.len() > pre_round.len(),
            forall|x: Seq<Coef>|
                covers(entry_views(pre_round), x) ==> covers(entry_views(t_flows@), x),
        decreases candidates@.len() - c,
    {
        let ghost pre = t_flows@;
        let cov = is_covered(&candidates[c], t_flows);
        if !cov {
            let cl2 = candidates[c].clone();
            let ghost gcl2 = cl2;
            let ghost cl2seq = cl2.entry_seq();
            push_if_new(t_flows, cl2);
            changed = true;
            proof {
                if t_flows@ == pre {
                    let h = choose|h: int|
                        0 <= h < pre.len() && (#[trigger] pre[h]).entry_seq() == cl2seq;
                    lemma_seq_le_refl(cl2seq);
                    assert(candidates@[c as int].spec_le(&pre[h]));
                    assert(false);
                }
                assert(t_flows@.len() > pre.len());
                assert forall|x: Seq<Coef>|
                    covers(entry_views(pre), x) implies covers(entry_views(t_flows@), x) by {
                    lemma_covered_extends(pre, t_flows@, x);
                }
                assert forall|t: int|
                    0 <= t < t_flows@.len() implies (#[trigger] t_flows@[t]).wf()
                        && t_flows@[t].nb_rows == dim && t_flows@[t].nb_cols == dim
                        && t_flows@[t].bounded(COEF_CAP as int) by {
                    if t < pre.len() {
                    } else {
                        assert(t_flows@[t] == gcl2);
                        assert(candidates@[c as int].wf());
                    }
                }
            }
        }
        c = c + 1;
    }
    changed
}

/// Whether some member of `others` dominates `flow`.
fn is_covered(flow: &Flow, others: &Vec<Flow>) -> (r: bool)
    requires
        flow.wf(),
        forall|t: int| 0 <= t < others@.len() ==> (#[trigger] others@[t]).wf(),
    ensures
        r == exists|t: int| 0 <= t < others@.len() && flow.spec_le(&#[trigger] others@[t]),
{
    let mut t: usize = 0;
    while t < others.len()
        invariant
            0 <= t <= others@.len(),
            flow.wf(),
            forall|q: int| 0 <= q < others@.len() ==> (#[trigger] others@[q]).wf(),
            forall|q: int| 0 <= q < t ==> !flow.spec_le(&#[trigger] others@[q]),
        decreases others@.len() - t,
    {
        if flow.is_below(&others[t]) {
            return true;
        }
        t = t + 1;
    }
    false
}

/// Append a flow unless an exact copy is present; the entry views stay
/// duplicate-free.
fn push_if_new(flows: &mut Vec<Flow>, f: Flow)
    requires
        f.wf(),
        entry_views(old(flows)@).no_duplicates(),
    ensures
        final(flows)@ == old(flows)@ || final(flows)@ == old(flows)@.push(f),
        entry_views(final(flows)@).no_duplicates(),
        entries_covered(final(flows)@, f.entry_seq()),
        final(flows)@ == old(flows)@ ==> exists|t: int|
            0 <= t < old(flows)@.len() && (#[trigger] old(flows)@[t]).entry_seq() == f.entry_seq(),
        forall|x: Seq<Coef>|
            covers(entry_views(old(flows)@), x) ==> covers(entry_views(final(flows)@), x),
{
    let mut t: usize = 0;
    let mut dup = false;
    while t < flows.len()
        invariant
            0 <= t <= flows@.len(),
            flows@ == old(flows)@,
            dup ==> exists|q: int|
                0 <= q < flows@.len() && (#[trigger] flows@[q]).entry_seq() == f.entry_seq(),
            !dup ==> forall|q: int|
                0 <= q < t ==> (#[trigger] flows@[q]).entry_seq() != f.entry_seq(),
        decreases flows@.len() - t,
    {
        if !dup {
            let same = crate::ideal::coef_vec_eq(flows[t].entries_ref(), f.entries_ref());
            if same {
                dup = true;
            }
        }
        t = t + 1;
    }
    let ghost pre = flows@;
    if !dup {
        flows.push(f);
        proof {
            assert(entry_views(flows@) =~= entry_views(pre).push(f.entry_seq()));
            assert forall|a: int, bq: int|
                0 <= a < entry_views(flows@).len() && 0 <= bq < entry_views(flows@).len() && a != bq
                implies entry_views(flows@)[a] != entry_views(flows@)[bq] by {
                if a < pre.len() && bq < pre.len() {
                    assert(entry_views(pre)[a] == entry_views(flows@)[a]);
                    assert(entry_views(pre)[bq] == entry_views(flows@)[bq]);
                } else if a < pre.len() {
                    assert(pre[a].entry_seq() != f.entry_seq());
                    assert(entry_views(flows@)[a] == pre[a].entry_seq());
                } else {
                    assert(pre[bq].entry_seq() != f.entry_seq());
                    assert(entry_views(flows@)[bq] == pre[bq].entry_seq());
                }
            }
            assert((#[trigger] flows@[pre.len() as int]).entry_seq() == f.entry_seq());
            lemma_covered_member(flows@, f.entry_seq());
            assert forall|x: Seq<Coef>|
                covers(entry_views(pre), x) implies covers(entry_views(flows@), x) by {
                lemma_covered_extends(pre, flows@, x);
            }
        }
    } else {
        proof {
            let q = choose|q: int|
                0 <= q < flows@.len() && (#[trigger] flows@[q]).entry_seq() == f.entry_seq();
            assert(entry_views(flows@)[q] == f.entry_seq());
            lemma_seq_le_refl(f.entry_seq());
            assert(covers(entry_views(flows@), f.entry_seq()));
        }
    }
}

/// A member's entry matrix is covered.
proof fn lemma_covered_member(flows: Seq<Flow>, es: Seq<Coef>)
    requires
        exists|t: int| 0 <= t < flows.len() && (#[trigger] flows[t]).entry_seq() == es,
    ensures
        entries_covered(flows, es),
{
    let t = choose|t: int| 0 <= t < flows.len() && (#[trigger] flows[t]).entry_seq() == es;
    assert(entry_views(flows)[t] == es);
    lemma_seq_le_refl(es);
}

/// Coverage carries to a longer list.
proof fn lemma_covered_extends(pre: Seq<Flow>, post: Seq<Flow>, x: Seq<Coef>)
    requires
        covers(entry_views(pre), x),
        pre == post || exists|f: Flow| post == pre.push(f),
    ensures
        covers(entry_views(post), x),
{
    let m = choose|m: int| 0 <= m < entry_views(pre).len() && seq_le(x, #[trigger] entry_views(pre)[m]);
    if pre == post {
    } else {
        assert(entry_views(post)[m] == entry_views(pre)[m]);
    }
}

/// Distinct bounded members make the semigroup finite.
proof fn lemma_sg_count(flows: Seq<Flow>, dim: int, bd: int)
    requires
        bd >= 0,
        dim >= 0,
        sg_wf(flows, dim, bd),
        entry_views(flows).no_duplicates(),
    ensures
        flows.len() <= pow(bd + 2, (dim * dim) as nat),
{
    assert(dim * dim >= 0) by (nonlinear_arith)
        requires
            dim >= 0,
    ;
    assert forall|m: int|
        0 <= m < entry_views(flows).len() implies (#[trigger] entry_views(flows)[m]).len() == dim
            * dim && fin_bounded(entry_views(flows)[m], bd) by {
        assert(flows[m].wf());
    }
    lemma_distinct_bounded_count(entry_views(flows), dim * dim, bd);
}

/// Keep only the members not strictly below another: the result is a
/// minimal antichain with the same coverage, and every kept member shares
/// its entries with a former member.
#[verifier::rlimit(100)]
fn minimize_flows(flows: &Vec<Flow>, dim: usize) -> (r: Vec<Flow>)
    requires
        sg_wf(flows@, dim as int, COEF_CAP as int),
        entry_views(flows@).no_duplicates(),
    ensures
        sg_wf(r@, dim as int, COEF_CAP as int),
        flow_antichain(r@),
        entry_views(r@).no_duplicates(),
        forall|t: int| 0 <= t < r@.len() ==> shares_entries(flows@, #[trigger] r@[t]),
        forall|x: Seq<Coef>|
            covers(entry_views(flows@), x) <==> covers(entry_views(r@), x),
{
    let ghost d = entry_views(flows@);
    let mut kept: Vec<Flow> = Vec::new();
    let ghost mut srcs: Seq<int> = Seq::empty();
    let mut t: usize = 0;
    while t < flows.len()
        invariant
            0 <= t <= flows@.len(),
            sg_wf(flows@, dim as int, COEF_CAP as int),
            entry_views(flows@).no_duplicates(),
            d == entry_views(flows@),
            sg_wf(kept@, dim as int, COEF_CAP as int),
            srcs.len() == kept@.len(),
            forall|a: int|
                0 <= a < srcs.len() ==> 0 <= #[trigger] srcs[a] < t && kept@[a].entry_seq()
                    == d[srcs[a]],
            forall|a: int, b: int| 0 <= a < b < srcs.len() ==> #[trigger] srcs[a] < #[trigger] srcs[b],
            forall|q: int|
                0 <= q < kept@.len() ==> covers(entry_views(flows@), (#[trigger] kept@[q]).entry_seq()),
            forall|q: int|
                0 <= q < kept@.len() ==> !strictly_covered(d, (#[trigger] kept@[q]).entry_seq()),
            forall|q: int|
                0 <= q < t && !strictly_covered(d, (#[trigger] flows@[q]).entry_seq()) ==> covers(
                    entry_views(kept@),
                    flows@[q].entry_seq(),
                ),
        decreases flows@.len() - t,
    {
        let mut strict = false;
        let mut w: usize = 0;
        while w < flows.len()
            invariant
                0 <= w <= flows@.len(),
                0 <= t < flows@.len(),
                sg_wf(flows@, dim as int, COEF_CAP as int),
                d == entry_views(flows@),
                strict ==> strictly_covered(d, flows@[t as int].entry_seq()),
                !strict ==> forall|m: int|
                    0 <= m < w ==> !(seq_le(flows@[t as int].entry_seq(), #[trigger] d[m])
                        && !seq_le(d[m], flows@[t as int].entry_seq())),
            decreases flows@.len() - w,
        {
            if !strict {
                let below = flows[t].is_below(&flows[w]);
                let above = flows[w].is_below(&flows[t]);
                if below && !above {
                    strict = true;
                    proof {
                        assert(d[w as int] == flows@[w as int].entry_seq());
                        assert(seq_le(flows@[t as int].entry_seq(), d[w as int]) && !seq_le(
                            d[w as int],
                            flows@[t as int].entry_seq(),
                        ));
                    }
                } else {
                    proof {
                        assert(d[w as int] == flows@[w as int].entry_seq());
                    }
                }
            }
            w = w + 1;
        }
        if !strict {
            let ghost pre = kept@;
            let cl = flows[t].clone();
            let ghost gcl = cl;
            kept.push(cl);
            proof {
                srcs = srcs.push(t as int);
                assert(kept@[pre.len() as int] == gcl);
                assert(kept@[pre.len() as int].entry_seq() == flows@[t as int].entry_seq());
                assert(d[t as int] == flows@[t as int].entry_seq());
                lemma_covered_member(kept@, flows@[t as int].entry_seq());
                lemma_covered_member(flows@, flows@[t as int].entry_seq());
                assert forall|q: int|
                    0 <= q < t + 1 && !strictly_covered(d, (#[trigger] flows@[q]).entry_seq())
                    implies covers(entry_views(kept@), flows@[q].entry_seq()) by {
                    if q < t {
                        lemma_covered_extends(pre, kept@, flows@[q].entry_seq());
                    }
                }
                assert forall|q: int|
                    0 <= q < kept@.len() implies covers(
                    entry_views(flows@),
                    (#[trigger] kept@[q]).entry_seq(),
                ) by {}
            }
        } else {
            proof {
                assert forall|q: int|
                    0 <= q < t + 1 && !strictly_covered(d, (#[trigger] flows@[q]).entry_seq())
                    implies covers(entry_views(kept@), flows@[q].entry_seq()) by {}
            }
        }
        t = t + 1;
    }
    proof {
        lemma_minimize_flows_post(flows@, kept@, srcs);
        assert forall|t2: int| 0 <= t2 < kept@.len() implies shares_entries(
            flows@,
            #[trigger] kept@[t2],
        ) by {
            assert(kept@[t2].entry_seq() == entry_views(flows@)[srcs[t2]]);
            assert(entry_views(flows@)[srcs[t2]] == flows@[srcs[t2]].entry_seq());
        }
    }
    kept
}

/// What the strict-domination filter leaves: same coverage, distinct
/// members, a minimal antichain.
#[verifier::rlimit(100)]
proof fn lemma_minimize_flows_post(flows: Seq<Flow>, kept: Seq<Flow>, srcs: Seq<int>)
    requires
        entry_views(flows).no_duplicates(),
        srcs.len() == kept.len(),
        forall|a: int|
            0 <= a < srcs.len() ==> 0 <= #[trigger] srcs[a] < flows.len() && kept[a].entry_seq()
                == entry_views(flows)[srcs[a]],
        forall|a: int, b: int| 0 <= a < b < srcs.len() ==> #[trigger] srcs[a] < #[trigger] srcs[b],
        forall|q: int|
            0 <= q < kept.len() ==> covers(entry_views(flows), (#[trigger] kept[q]).entry_seq()),
        forall|q: int|
            0 <= q < kept.len() ==> !strictly_covered(
                entry_views(flows),
                (#[trigger] kept[q]).entry_seq(),
            ),
        forall|q: int|
            0 <= q < flows.len() && !strictly_covered(
                entry_views(flows),
                (#[trigger] flows[q]).entry_seq(),
            ) ==> covers(entry_views(kept), flows[q].entry_seq()),
    ensures
        entry_views(kept).no_duplicates(),
        flow_antichain(kept),
        forall|x: Seq<Coef>| covers(entry_views(flows), x) <==> covers(entry_views(kept), x),
{
    let d = entry_views(flows);
    assert forall|x: Seq<Coef>| covers(entry_views(flows), x) implies covers(
        entry_views(kept),
        x,
    ) by {
        let m = choose|m: int|
            0 <= m < entry_views(flows).len() && seq_le(x, #[trigger] entry_views(flows)[m]);
        assert(d[m] == flows[m].entry_seq());
        assert forall|q: int|
            0 <= q < d.len() && !strictly_covered(d, #[trigger] d[q]) implies covers(
            entry_views(kept),
            d[q],
        ) by {
            assert(d[q] == flows[q].entry_seq());
        }
        lemma_filtered_covers(d, x, entry_views(kept), m);
    }
    assert forall|x: Seq<Coef>| covers(entry_views(kept), x) implies covers(
        entry_views(flows),
        x,
    ) by {
        let m = choose|m: int|
            0 <= m < entry_views(kept).len() && seq_le(x, #[trigger] entry_views(kept)[m]);
        assert(entry_views(kept)[m] == kept[m].entry_seq());
        assert(covers(entry_views(flows), kept[m].entry_seq()));
        let h = choose|h: int|
            0 <= h < entry_views(flows).len() && seq_le(
                kept[m].entry_seq(),
                #[trigger] entry_views(flows)[h],
            );
        lemma_seq_le_trans(x, kept[m].entry_seq(), entry_views(flows)[h]);
    }
    assert forall|a: int, b: int|
        0 <= a < entry_views(kept).len() && 0 <= b < entry_views(kept).len() && a != b
        implies entry_views(kept)[a] != entry_views(kept)[b] by {
        assert(entry_views(kept)[a] == kept[a].entry_seq());
        assert(entry_views(kept)[b] == kept[b].entry_seq());
        assert(srcs[a] != srcs[b]) by {
            if a < b {
            } else {
            }
        }
        assert(kept[a].entry_seq() == d[srcs[a]]);
        assert(kept[b].entry_seq() == d[srcs[b]]);
    }
    assert forall|a: int, b: int|
        #![trigger kept[a].spec_le(&kept[b])]
        0 <= a < kept.len() && 0 <= b < kept.len() && a != b implies !kept[a].spec_le(
        &kept[b],
    ) by {
        if kept[a].spec_le(&kept[b]) {
            if seq_le(kept[b].entry_seq(), kept[a].entry_seq()) {
                crate::downset::lemma_seq_le_antisym(kept[a].entry_seq(), kept[b].entry_seq());
                assert(entry_views(kept)[a] == entry_views(kept)[b]);
                assert(false);
            } else {
                assert(covers(entry_views(flows), kept[b].entry_seq()));
                let h = choose|h: int|
                    0 <= h < entry_views(flows).len() && seq_le(
                        kept[b].entry_seq(),
                        #[trigger] entry_views(flows)[h],
                    );
                lemma_seq_le_trans(
                    kept[a].entry_seq(),
                    kept[b].entry_seq(),
                    entry_views(flows)[h],
                );
                assert(d[h] == entry_views(flows)[h]);
                assert(strictly_covered(d, kept[a].entry_seq())) by {
                    if seq_le(d[h], kept[a].entry_seq()) {
                        lemma_seq_le_trans(kept[b].entry_seq(), d[h], kept[a].entry_seq());
                        crate::downset::lemma_seq_le_antisym(
                            kept[a].entry_seq(),
                            kept[b].entry_seq(),
                        );
                        assert(entry_views(kept)[a] == entry_views(kept)[b]);
                        assert(false);
                    }
                }
                assert(false);
            }
        }
    }
}

/// The nondeterministic product for bounds of two and more: every way to
/// transport the finite masses through each intermediate state in order,
/// on top of the omega part of the product.
pub fn get_products(left: &Flow, right: &Flow, maximal_finite_coordinate: u64) -> (r: Vec<Flow>)
    requires
        left.wf(),
        right.wf(),
        left.nb_rows == left.nb_cols,
        right.nb_rows == right.nb_cols,
        left.nb_rows == right.nb_rows,
        left.bounded(COEF_CAP as int),
        right.bounded(COEF_CAP as int),
        maximal_finite_coordinate <= COEF_CAP,
    ensures
        r@.len() >= 1,
        forall|v: int|
            0 <= v < r@.len() ==> (#[trigger] r@[v]).wf() && r@[v].nb_rows == left.nb_rows
                && r@[v].nb_cols == left.nb_rows && r@[v].bounded(COEF_CAP as int),
{
    let dim = left.nb_rows;
    let omega_part = Flow::get_omega_entries(left, right);
    proof {
        lemma_omega_entries_is_somega(&omega_part, left, right, dim as int);
    }
    let mut left_budget = left.clone();
    let mut right_budget = right.clone();
    let mut result: Vec<Flow> = Vec::new();
    get_products_rec(
        dim,
        &mut left_budget,
        &mut right_budget,
        maximal_finite_coordinate,
        0,
        omega_part,
        &mut result,
    );
    result
}

/// One column of the recursive product enumeration: all transports of the
/// finite budget entering state `k` against the budget leaving it.
fn get_products_rec(
    dim: usize,
    left: &mut Flow,
    right: &mut Flow,
    maximal_finite_coordinate: u64,
    k: usize,
    current_flow: Flow,
    flow_accumulator: &mut Vec<Flow>,
)
    requires
        k <= dim,
        old(left).wf(),
        old(right).wf(),
        old(left).nb_rows == dim,
        old(left).nb_cols == dim,
        old(right).nb_rows == dim,
        old(right).nb_cols == dim,
        old(left).bounded(COEF_CAP as int),
        old(right).bounded(COEF_CAP as int),
        current_flow.wf(),
        current_flow.nb_rows == dim,
        current_flow.nb_cols == dim,
        current_flow.bounded(COEF_CAP as int),
        maximal_finite_coordinate <= COEF_CAP,
        forall|v: int|
            0 <= v < old(flow_accumulator)@.len() ==> (#[trigger] old(flow_accumulator)@[v]).wf()
                && old(flow_accumulator)@[v].nb_rows == dim && old(flow_accumulator)@[v].nb_cols
                == dim && old(flow_accumulator)@[v].bounded(COEF_CAP as int),
    ensures
        final(flow_accumulator)@.len() > old(flow_accumulator)@.len(),
        forall|v: int|
            0 <= v < final(flow_accumulator)@.len() ==> (#[trigger] final(flow_accumulator)@[v]).wf()
                && final(flow_accumulator)@[v].nb_rows == dim
                && final(flow_accumulator)@[v].nb_cols == dim
                && final(flow_accumulator)@[v].bounded(COEF_CAP as int),
        forall|v: int|
            0 <= v < old(flow_accumulator)@.len() ==> #[trigger] final(flow_accumulator)@[v]
                == old(flow_accumulator)@[v],
    decreases dim - k,
{
    if k >= dim {
        flow_accumulator.push(current_flow);
        return ;
    }
    let left_edges = left.edges_to(k);
    let right_edges = right.edges_from(k);
    if left_edges.len() == 0 || right_edges.len() == 0 {
        get_products_rec(
            dim,
            left,
            right,
            maximal_finite_coordinate,
            k + 1,
            current_flow,
            flow_accumulator,
        );
        return ;
    }
    let mut left_coefs: Vec<Coef> = Vec::new();
    let mut right_coefs: Vec<Coef> = Vec::new();
    let mut i: usize = 0;
    while i < left_edges.len()
        invariant
            0 <= i <= left_edges@.len(),
            left.wf(),
            left.nb_rows == dim,
            left.nb_cols == dim,
            k < dim,
            left.bounded(COEF_CAP as int),
            forall|v: int|
                0 <= v < left_edges@.len() ==> (#[trigger] left_edges@[v]).0 < dim
                    && left_edges@[v].1 == left.at(left_edges@[v].0 as int, k as int),
            left_coefs@.len() == i,
            fin_bounded(left_coefs@, COEF_CAP as int),
        decreases left_edges@.len() - i,
    {
        proof {
            crate::flow::lemma_entry_index(
                dim as int,
                dim as int,
                left_edges@[i as int].0 as int,
                k as int,
            );
            let idx = (left_edges@[i as int].0 as int) * (dim as int) + (k as int);
            assert(left.entry_seq()[idx] matches Coef::Value(v) && v <= COEF_CAP as int
                || left.entry_seq()[idx] is Omega);
            crate::ideal::lemma_fin_bounded_push(
                left_coefs@,
                left_edges@[i as int].1,
                COEF_CAP as int,
            );
        }
        left_coefs.push(left_edges[i].1);
        i = i + 1;
    }
    let mut j: usize = 0;
    while j < right_edges.len()
        invariant
            0 <= j <= right_edges@.len(),
            right.wf(),
            right.nb_rows == dim,
            right.nb_cols == dim,
            right.bounded(COEF_CAP as int),
            k < dim,
            forall|v: int|
                0 <= v < right_edges@.len() ==> (#[trigger] right_edges@[v]).0 < dim
                    && right_edges@[v].1 == right.at(k as int, right_edges@[v].0 as int),
            right_coefs@.len() == j,
            fin_bounded(right_coefs@, COEF_CAP as int),
        decreases right_edges@.len() - j,
    {
        proof {
            crate::flow::lemma_entry_index(
                dim as int,
                dim as int,
                k as int,
                right_edges@[j as int].0 as int,
            );
            let idx = (k as int) * (dim as int) + (right_edges@[j as int].0 as int);
            assert(right.entry_seq()[idx] matches Coef::Value(v) && v <= COEF_CAP as int
                || right.entry_seq()[idx] is Omega);
            crate::ideal::lemma_fin_bounded_push(
                right_coefs@,
                right_edges@[j as int].1,
                COEF_CAP as int,
            );
        }
        right_coefs.push(right_edges[j].1);
        j = j + 1;
    }
    let transports = get_transports(&left_coefs, &right_coefs, maximal_finite_coordinate);
    let mut w: usize = 0;
    while w < transports.len()
        invariant
            0 <= w <= transports@.len(),
            k < dim,
            left.wf(),
            right.wf(),
            left.nb_rows == dim,
            left.nb_cols == dim,
            right.nb_rows == dim,
            right.nb_cols == dim,
            left.bounded(COEF_CAP as int),
            right.bounded(COEF_CAP as int),
            current_flow.wf(),
            current_flow.nb_rows == dim,
            current_flow.nb_cols == dim,
            current_flow.bounded(COEF_CAP as int),
            maximal_finite_coordinate <= COEF_CAP,
            forall|v: int|
                0 <= v < left_edges@.len() ==> (#[trigger] left_edges@[v]).0 < dim,
            forall|v: int|
                0 <= v < right_edges@.len() ==> (#[trigger] right_edges@[v]).0 < dim,
            forall|v: int|
                0 <= v < transports@.len() ==> (#[trigger] transports@[v]).wf()
                    && transports@[v].nb_rows == left_edges@.len() && transports@[v].nb_cols
                    == right_edges@.len() && transports@[v].bounded(COEF_CAP as int),
            transports@.len() >= 1,
            flow_accumulator@.len() >= old(flow_accumulator)@.len(),
            w > 0 ==> flow_accumulator@.len() > old(flow_accumulator)@.len(),
            forall|v: int|
                0 <= v < flow_accumulator@.len() ==> (#[trigger] flow_accumulator@[v]).wf()
                    && flow_accumulator@[v].nb_rows == dim && flow_accumulator@[v].nb_cols == dim
                    && flow_accumulator@[v].bounded(COEF_CAP as int),
            forall|v: int|
                0 <= v < old(flow_accumulator)@.len() ==> #[trigger] flow_accumulator@[v] == old(
                    flow_accumulator,
                )@[v],
        decreases transports@.len() - w,
    {
        let mut new_left = left.clone();
        let mut new_right = right.clone();
        let mut new_flow = current_flow.clone();
        let t = &transports[w];
        let mut a: usize = 0;
        while a < left_edges.len()
            invariant
                0 <= a <= left_edges@.len(),
                k < dim,
                new_left.wf(),
                new_right.wf(),
                new_left.nb_rows == dim,
                new_left.nb_cols == dim,
                new_right.nb_rows == dim,
                new_right.nb_cols == dim,
                new_left.bounded(COEF_CAP as int),
                new_right.bounded(COEF_CAP as int),
                new_flow.wf(),
                new_flow.nb_rows == dim,
                new_flow.nb_cols == dim,
                new_flow.bounded(COEF_CAP as int),
                maximal_finite_coordinate <= COEF_CAP,
                t.wf(),
                t.nb_rows == left_edges@.len(),
                t.nb_cols == right_edges@.len(),
                t.bounded(COEF_CAP as int),
                forall|v: int|
                    0 <= v < left_edges@.len() ==> (#[trigger] left_edges@[v]).0 < dim,
                forall|v: int|
                    0 <= v < right_edges@.len() ==> (#[trigger] right_edges@[v]).0 < dim,
            decreases left_edges@.len() - a,
        {
            let mut b: usize = 0;
            while b < right_edges.len()
                invariant
                    0 <= b <= right_edges@.len(),
                    0 <= a < left_edges@.len(),
                    k < dim,
                    new_left.wf(),
                    new_right.wf(),
                    new_left.nb_rows == dim,
                    new_left.nb_cols == dim,
                    new_right.nb_rows == dim,
                    new_right.nb_cols == dim,
                    new_left.bounded(COEF_CAP as int),
                    new_right.bounded(COEF_CAP as int),
                    new_flow.wf(),
                    new_flow.nb_rows == dim,
                    new_flow.nb_cols == dim,
                    new_flow.bounded(COEF_CAP as int),
                    maximal_finite_coordinate <= COEF_CAP,
                    t.wf(),
                    t.nb_rows == left_edges@.len(),
                    t.nb_cols == right_edges@.len(),
                    t.bounded(COEF_CAP as int),
                    forall|v: int|
                        0 <= v < left_edges@.len() ==> (#[trigger] left_edges@[v]).0 < dim,
                    forall|v: int|
                        0 <= v < right_edges@.len() ==> (#[trigger] right_edges@[v]).0 < dim,
                decreases right_edges@.len() - b,
            {
                let reali = left_edges[a].0;
                let realj = right_edges[b].0;
                let cf = new_flow.get(&reali, &realj);
                let tij = t.get(&a, &b);
                let ok = match (cf, tij) {
                    (Coef::Value(x), Coef::Value(y)) => x <= maximal_finite_coordinate && y
                        <= maximal_finite_coordinate - x,
                    _ => false,
                };
                if ok {
                    let newcf = cf.add(tij);
                    new_flow.set(&reali, &realj, newcf);
                    let cl = new_left.get(&reali, &k);
                    let cr = new_right.get(&k, &realj);
                    let dl = sub_floor(cl, tij);
                    let dr = sub_floor(cr, tij);
                    proof {
                        crate::flow::lemma_entry_index(
                            dim as int,
                            dim as int,
                            reali as int,
                            k as int,
                        );
                        crate::flow::lemma_entry_index(
                            dim as int,
                            dim as int,
                            k as int,
                            realj as int,
                        );
                        assert(new_left.entry_seq()[(reali as int) * (dim as int)
                            + (k as int)] matches Coef::Value(v) && v <= COEF_CAP as int
                            || new_left.entry_seq()[(reali as int) * (dim as int)
                            + (k as int)] is Omega);
                        assert(new_right.entry_seq()[(k as int) * (dim as int)
                            + (realj as int)] matches Coef::Value(v) && v <= COEF_CAP as int
                            || new_right.entry_seq()[(k as int) * (dim as int)
                            + (realj as int)] is Omega);
                    }
                    new_left.set(&reali, &k, dl);
                    new_right.set(&k, &realj, dr);
                }
                b = b + 1;
            }
            a = a + 1;
        }
        get_products_rec(
            dim,
            &mut new_left,
            &mut new_right,
            maximal_finite_coordinate,
            k + 1,
            new_flow,
            flow_accumulator,
        );
        w = w + 1;
    }
}

/// Truncated difference of coefficients that never underflows.
fn sub_floor(a: Coef, b: Coef) -> (r: Coef)
    ensures
        a is Omega ==> r is Omega,
        (a matches Coef::Value(x) && b matches Coef::Value(y) && y <= x) ==> r == Coef::Value(
            (a.spec_value() - b.spec_value()) as u64,
        ),
        r matches Coef::Value(v) ==> v <= a.spec_value() || a is Omega,
{
    match (a, b) {
        (Coef::Omega, _) => Coef::Omega,
        (Coef::Value(x), Coef::Omega) => Coef::Value(0),
        (Coef::Value(x), Coef::Value(y)) => if y <= x {
            Coef::Value(x - y)
        } else {
            Coef::Value(0)
        },
    }
}

/// All transports of the finite budgets `left_edges` against `right_edges`:
/// matrices whose rows spend at most the left budgets and whose columns
/// absorb at most the right ones, `Omega` counting as the bound.
pub fn get_transports(
    left_edges: &Vec<Coef>,
    right_edges: &Vec<Coef>,
    maximal_finite_coordinate: u64,
) -> (r: Vec<Flow>)
    requires
        left_edges@.len() >= 1,
        right_edges@.len() >= 1,
        fin_bounded(left_edges@, COEF_CAP as int),
        fin_bounded(right_edges@, COEF_CAP as int),
        maximal_finite_coordinate <= COEF_CAP,
    ensures
        r@.len() >= 1,
        forall|v: int|
            0 <= v < r@.len() ==> (#[trigger] r@[v]).wf() && r@[v].nb_rows == left_edges@.len()
                && r@[v].nb_cols == right_edges@.len() && r@[v].bounded(COEF_CAP as int),
        // the omega part is exactly the all-omega channels
        forall|v: int, i: int, j: int|
            0 <= v < r@.len() && 0 <= i < left_edges@.len() && 0 <= j < right_edges@.len() ==> ((
            #[trigger] r@[v].at(i, j)) is Omega <==> (left_edges@[i] is Omega
                && right_edges@[j] is Omega)),
        // nothing moves outside the stray edges
        forall|v: int, i: int, j: int|
            0 <= v < r@.len() && 0 <= i < left_edges@.len() && 0 <= j < right_edges@.len() && !(
            left_edges@[i] is Omega && right_edges@[j] is Omega) && !is_stray(
                left_edges@,
                right_edges@,
                i,
                j,
            ) ==> (#[trigger] r@[v].at(i, j)) == Coef::Value(0),
        // every row spends at most its budget, omega counting as the bound
        forall|v: int, i: int|
            0 <= v < r@.len() && 0 <= i < left_edges@.len() ==> #[trigger] row_spend(
                r@[v].entry_seq(),
                right_edges@.len() as int,
                i,
                right_edges@.len() as int,
            ) <= stray_of(left_edges@[i], maximal_finite_coordinate),
        forall|v: int, j: int|
            0 <= v < r@.len() && 0 <= j < right_edges@.len() ==> #[trigger] col_spend(
                r@[v].entry_seq(),
                right_edges@.len() as int,
                j,
                left_edges@.len() as int,
            ) <= stray_of(right_edges@[j], maximal_finite_coordinate),
        // when any mass can move at all, each result exhausts the row or
        // the column budget of some stray edge
        (exists|i: int, j: int|
            0 <= i < left_edges@.len() && 0 <= j < right_edges@.len() && #[trigger] is_stray(
                left_edges@,
                right_edges@,
                i,
                j,
            )) ==> forall|v: int|
            0 <= v < r@.len() ==> exists|i: int, j: int|
                0 <= i < left_edges@.len() && 0 <= j < right_edges@.len() && #[trigger] is_stray(
                    left_edges@,
                    right_edges@,
                    i,
                    j,
                ) && (row_spend(
                    (#[trigger] r@[v]).entry_seq(),
                    right_edges@.len() as int,
                    i,
                    right_edges@.len() as int,
                ) == stray_of(left_edges@[i], maximal_finite_coordinate) || col_spend(
                    r@[v].entry_seq(),
                    right_edges@.len() as int,
                    j,
                    left_edges@.len() as int,
                ) == stray_of(right_edges@[j], maximal_finite_coordinate)),
{
    let nb_rows = left_edges.len();
    let nb_cols = right_edges.len();
    // the omega part of the transport: Omega against Omega
    let mut entries: Vec<Coef> = Vec::new();
    let mut i: usize = 0;
    while i < nb_rows
        invariant
            0 <= i <= nb_rows,
            nb_rows == left_edges@.len(),
            nb_cols == right_edges@.len(),
            entries@.len() == i * nb_cols,
            fin_bounded(entries@, COEF_CAP as int),
            forall|p: int|
                0 <= p < entries@.len() ==> #[trigger] entries@[p] == (if left_edges@[p
                    / (nb_cols as int)] is Omega && right_edges@[p % (nb_cols as int)] is Omega {
                    Coef::Omega
                } else {
                    Coef::Value(0)
                }),
        decreases nb_rows - i,
    {
        let mut j: usize = 0;
        while j < nb_cols
            invariant
                0 <= j <= nb_cols,
                0 <= i < nb_rows,
                nb_rows == left_edges@.len(),
                nb_cols == right_edges@.len(),
                entries@.len() == i * nb_cols + j,
                fin_bounded(entries@, COEF_CAP as int),
                forall|p: int|
                    0 <= p < entries@.len() ==> #[trigger] entries@[p] == (if left_edges@[p
                        / (nb_cols as int)] is Omega && right_edges@[p % (nb_cols as int)] is Omega {
                        Coef::Omega
                    } else {
                        Coef::Value(0)
                    }),
            decreases nb_cols - j,
        {
            let a = match left_edges[i] {
                Coef::Omega => true,
                Coef::Value(_) => false,
            };
            let b = match right_edges[j] {
                Coef::Omega => true,
                Coef::Value(_) => false,
            };
            let c = if a && b {
                Coef::Omega
            } else {
                Coef::Value(0)
            };
            proof {
                crate::ideal::lemma_fin_bounded_push(entries@, c, COEF_CAP as int);
                crate::flow::lemma_entry_index(nb_rows as int, nb_cols as int, i as int, j as int);
                crate::flow::lemma_entry_index_inv(
                    nb_cols as int,
                    (i as int) * (nb_cols as int) + (j as int),
                    i as int,
                    j as int,
                );
            }
            entries.push(c);
            j = j + 1;
        }
        proof {
            assert(i as int * nb_cols + nb_cols == (i + 1) * nb_cols) by (nonlinear_arith);
        }
        i = i + 1;
    }
    proof {
        assert(entries@.len() == nb_rows * nb_cols) by (nonlinear_arith)
            requires
                entries@.len() == i * nb_cols,
                i == nb_rows,
        ;
    }
    let omega_flow = Flow::from_entries(nb_rows, nb_cols, entries);
    // the finite budgets, with Omega counting as the bound
    let mut strays_left: Vec<u64> = Vec::new();
    let mut i2: usize = 0;
    while i2 < nb_rows
        invariant
            0 <= i2 <= nb_rows,
            nb_rows == left_edges@.len(),
            fin_bounded(left_edges@, COEF_CAP as int),
            maximal_finite_coordinate <= COEF_CAP,
            strays_left@.len() == i2,
            forall|v: int| 0 <= v < i2 ==> #[trigger] strays_left@[v] <= COEF_CAP,
            forall|v: int|
                0 <= v < i2 ==> #[trigger] strays_left@[v] == stray_of(
                    left_edges@[v],
                    maximal_finite_coordinate,
                ),
        decreases nb_rows - i2,
    {
        strays_left.push(
            match left_edges[i2] {
                Coef::Value(y) => y,
                Coef::Omega => maximal_finite_coordinate,
            },
        );
        i2 = i2 + 1;
    }
    let mut strays_right: Vec<u64> = Vec::new();
    let mut j2: usize = 0;
    while j2 < nb_cols
        invariant
            0 <= j2 <= nb_cols,
            nb_cols == right_edges@.len(),
            fin_bounded(right_edges@, COEF_CAP as int),
            maximal_finite_coordinate <= COEF_CAP,
            strays_right@.len() == j2,
            forall|v: int| 0 <= v < j2 ==> #[trigger] strays_right@[v] <= COEF_CAP,
            forall|v: int|
                0 <= v < j2 ==> #[trigger] strays_right@[v] == stray_of(
                    right_edges@[v],
                    maximal_finite_coordinate,
                ),
        decreases nb_cols - j2,
    {
        strays_right.push(
            match right_edges[j2] {
                Coef::Value(y) => y,
                Coef::Omega => maximal_finite_coordinate,
            },
        );
        j2 = j2 + 1;
    }
    // the stray edges: finite positive mass against finite positive mass
    let mut stray_edges: Vec<(usize, usize)> = Vec::new();
    let mut a: usize = 0;
    while a < nb_rows
        invariant
            0 <= a <= nb_rows,
            nb_rows == left_edges@.len(),
            nb_cols == right_edges@.len(),
            forall|v: int|
                0 <= v < stray_edges@.len() ==> (#[trigger] stray_edges@[v]).0 < nb_rows
                    && stray_edges@[v].1 < nb_cols && is_stray(
                    left_edges@,
                    right_edges@,
                    stray_edges@[v].0 as int,
                    stray_edges@[v].1 as int,
                ),
            forall|v: int|
                0 <= v < stray_edges@.len() ==> (#[trigger] stray_edges@[v]).0 < a,
            forall|v1: int, v2: int|
                #![trigger stray_edges@[v1], stray_edges@[v2]]
                0 <= v1 < v2 < stray_edges@.len() ==> stray_edges@[v1] != stray_edges@[v2],
            forall|i3: int, j3: int|
                0 <= i3 < a && 0 <= j3 < nb_cols && is_stray(left_edges@, right_edges@, i3, j3)
                    ==> stray_edges@.contains((i3 as usize, j3 as usize)),
        decreases nb_rows - a,
    {
        let mut b: usize = 0;
        while b < nb_cols
            invariant
                0 <= b <= nb_cols,
                0 <= a < nb_rows,
                nb_rows == left_edges@.len(),
                nb_cols == right_edges@.len(),
                forall|v: int|
                    0 <= v < stray_edges@.len() ==> (#[trigger] stray_edges@[v]).0 < nb_rows
                        && stray_edges@[v].1 < nb_cols && is_stray(
                        left_edges@,
                        right_edges@,
                        stray_edges@[v].0 as int,
                        stray_edges@[v].1 as int,
                    ),
                forall|v: int|
                    0 <= v < stray_edges@.len() ==> (#[trigger] stray_edges@[v]).0 < a || ((
                    #[trigger] stray_edges@[v]).0 == a && stray_edges@[v].1 < b),
                forall|v1: int, v2: int|
                    #![trigger stray_edges@[v1], stray_edges@[v2]]
                    0 <= v1 < v2 < stray_edges@.len() ==> stray_edges@[v1] != stray_edges@[v2],
                forall|i3: int, j3: int|
                    0 <= i3 < nb_rows && 0 <= j3 < nb_cols && is_stray(
                        left_edges@,
                        right_edges@,
                        i3,
                        j3,
                    ) && (i3 < a || (i3 == a && j3 < b)) ==> stray_edges@.contains(
                        (i3 as usize, j3 as usize),
                    ),
            decreases nb_cols - b,
        {
            let keep = match (left_edges[a], right_edges[b]) {
                (Coef::Omega, Coef::Omega) => false,
                (Coef::Value(0), _) => false,
                (_, Coef::Value(0)) => false,
                _ => true,
            };
            let ghost pre_edges = stray_edges@;
            if keep {
                stray_edges.push((a, b));
            }
            proof {
                assert(keep == is_stray(left_edges@, right_edges@, a as int, b as int));
                assert forall|i3: int, j3: int|
                    0 <= i3 < nb_rows && 0 <= j3 < nb_cols && is_stray(
                        left_edges@,
                        right_edges@,
                        i3,
                        j3,
                    ) && (i3 < a || (i3 == a && j3 < b + 1)) implies stray_edges@.contains(
                    (i3 as usize, j3 as usize),
                ) by {
                    if i3 < a || (i3 == a && j3 < b) {
                        assert(pre_edges.contains((i3 as usize, j3 as usize)));
                        let w = choose|w: int|
                            0 <= w < pre_edges.len() && #[trigger] pre_edges[w] == (
                                i3 as usize,
                                j3 as usize,
                            );
                        assert(stray_edges@[w] == (i3 as usize, j3 as usize));
                    } else {
                        assert(i3 == a && j3 == b as int);
                        assert(stray_edges@[pre_edges.len() as int] == (i3 as usize, j3 as usize));
                    }
                    assert(stray_edges@.contains((i3 as usize, j3 as usize)));
                }
            }
            b = b + 1;
        }
        a = a + 1;
    }
    let ghost rows_i = nb_rows as int;
    let ghost cols_i = nb_cols as int;
    let ghost ov = omega_flow.entry_seq();
    proof {
        assert forall|p: int| 0 <= p < ov.len() implies (#[trigger] ov[p]).spec_value() == 0 by {}
    }
    let mut acc: Vec<Flow> = Vec::new();
    if stray_edges.len() == 0 {
        acc.push(omega_flow);
        proof {
            lemma_transports_lift(acc@, ov, left_edges@, right_edges@, stray_edges@, maximal_finite_coordinate);
        }
        return acc;
    }
    let mut current = omega_flow.clone();
    proof {
        assert forall|w: int|
            0 <= w < stray_edges@.len() implies mat_at(
            current.entry_seq(),
            current.nb_cols as int,
            (#[trigger] stray_edges@[w]).0 as int,
            stray_edges@[w].1 as int,
        ) == Coef::Value(0) by {
            let i3 = stray_edges@[w].0 as int;
            let j3 = stray_edges@[w].1 as int;
            crate::flow::lemma_entry_index(nb_rows as int, nb_cols as int, i3, j3);
            crate::flow::lemma_entry_index_inv(nb_cols as int, i3 * (nb_cols as int) + j3, i3, j3);
            assert(is_stray(left_edges@, right_edges@, i3, j3));
            assert(current.entry_seq()[i3 * (nb_cols as int) + j3] == (if left_edges@[i3] is Omega
                && right_edges@[j3] is Omega {
                Coef::Omega
            } else {
                Coef::Value(0)
            }));
        }
    }
    get_transports_rec(
        &mut current,
        &stray_edges,
        0,
        &mut strays_left,
        &mut strays_right,
        &mut acc,
    );
    proof {
        reveal(transport_step_ok);
        assert forall|v: int|
            0 <= v < acc@.len() implies transport_step_ok(
            (#[trigger] acc@[v]).entry_seq(),
            ov,
            rows_i,
            cols_i,
            stray_edges@,
            0,
            strays_left@,
            strays_right@,
        ) by {}
        lemma_transports_lift(acc@, ov, left_edges@, right_edges@, stray_edges@, maximal_finite_coordinate);
    }
    acc
}

/// Lift the per-step transport guarantees, relative to the omega part and
/// the full budgets, to budget facts about the coefficient lists.
#[verifier::rlimit(100)]
proof fn lemma_transports_lift(
    accv: Seq<Flow>,
    ov: Seq<Coef>,
    left_edges: Seq<Coef>,
    right_edges: Seq<Coef>,
    stray_edges: Seq<(usize, usize)>,
    k: u64,
)
    requires
        left_edges.len() >= 1,
        right_edges.len() >= 1,
        ov.len() == left_edges.len() * right_edges.len(),
        forall|p: int|
            0 <= p < ov.len() ==> #[trigger] ov[p] == (if left_edges[p
                / (right_edges.len() as int)] is Omega && right_edges[p % (
            right_edges.len() as int)] is Omega {
                Coef::Omega
            } else {
                Coef::Value(0)
            }),
        forall|v: int|
            0 <= v < stray_edges.len() ==> (#[trigger] stray_edges[v]).0 < left_edges.len()
                && stray_edges[v].1 < right_edges.len() && is_stray(
                left_edges,
                right_edges,
                stray_edges[v].0 as int,
                stray_edges[v].1 as int,
            ),
        forall|i3: int, j3: int|
            0 <= i3 < left_edges.len() && 0 <= j3 < right_edges.len() && is_stray(
                left_edges,
                right_edges,
                i3,
                j3,
            ) ==> stray_edges.contains((i3 as usize, j3 as usize)),
        forall|v: int|
            0 <= v < accv.len() ==> (#[trigger] accv[v]).wf() && accv[v].nb_rows
                == left_edges.len() && accv[v].nb_cols == right_edges.len(),
        stray_edges.len() == 0 ==> accv.len() == 1 && accv[0].entry_seq() == ov,
        stray_edges.len() > 0 ==> forall|v: int|
            0 <= v < accv.len() ==> transport_step_ok(
                (#[trigger] accv[v]).entry_seq(),
                ov,
                left_edges.len() as int,
                right_edges.len() as int,
                stray_edges,
                0,
                Seq::new(left_edges.len(), |i: int| stray_u64(left_edges[i], k)),
                Seq::new(right_edges.len(), |j: int| stray_u64(right_edges[j], k)),
            ),
        k <= COEF_CAP,
        forall|p: int| 0 <= p < left_edges.len() ==> stray_of(#[trigger] left_edges[p], k) <= COEF_CAP,
        forall|p: int|
            0 <= p < right_edges.len() ==> stray_of(#[trigger] right_edges[p], k) <= COEF_CAP,
    ensures
        forall|v: int, i: int, j: int|
            0 <= v < accv.len() && 0 <= i < left_edges.len() && 0 <= j < right_edges.len() ==> ((
            #[trigger] accv[v].at(i, j)) is Omega <==> (left_edges[i] is Omega
                && right_edges[j] is Omega)),
        forall|v: int, i: int, j: int|
            0 <= v < accv.len() && 0 <= i < left_edges.len() && 0 <= j < right_edges.len() && !(
            left_edges[i] is Omega && right_edges[j] is Omega) && !is_stray(
                left_edges,
                right_edges,
                i,
                j,
            ) ==> (#[trigger] accv[v].at(i, j)) == Coef::Value(0),
        forall|v: int, i: int|
            0 <= v < accv.len() && 0 <= i < left_edges.len() ==> #[trigger] row_spend(
                accv[v].entry_seq(),
                right_edges.len() as int,
                i,
                right_edges.len() as int,
            ) <= stray_of(left_edges[i], k),
        forall|v: int, j: int|
            0 <= v < accv.len() && 0 <= j < right_edges.len() ==> #[trigger] col_spend(
                accv[v].entry_seq(),
                right_edges.len() as int,
                j,
                left_edges.len() as int,
            ) <= stray_of(right_edges[j], k),
        (exists|i: int, j: int|
            0 <= i < left_edges.len() && 0 <= j < right_edges.len() && #[trigger] is_stray(
                left_edges,
                right_edges,
                i,
                j,
            )) ==> forall|v: int|
            0 <= v < accv.len() ==> exists|i: int, j: int|
                0 <= i < left_edges.len() && 0 <= j < right_edges.len() && #[trigger] is_stray(
                    left_edges,
                    right_edges,
                    i,
                    j,
                ) && (row_spend(
                    (#[trigger] accv[v]).entry_seq(),
                    right_edges.len() as int,
                    i,
                    right_edges.len() as int,
                ) == stray_of(left_edges[i], k) || col_spend(
                    accv[v].entry_seq(),
                    right_edges.len() as int,
                    j,
                    left_edges.len() as int,
                ) == stray_of(right_edges[j], k)),
{
    reveal(transport_step_ok);
    let rows = left_edges.len() as int;
    let cols = right_edges.len() as int;
    let sl = Seq::new(left_edges.len(), |i: int| stray_u64(left_edges[i], k));
    let sr = Seq::new(right_edges.len(), |j: int| stray_u64(right_edges[j], k));
    assert forall|v: int, i: int|
        0 <= v < accv.len() && 0 <= i < rows implies #[trigger] row_spend(
        accv[v].entry_seq(),
        cols,
        i,
        cols,
    ) <= stray_of(left_edges[i], k) by {
        lemma_zero_row_spend(ov, rows, cols, i, cols);
        if stray_edges.len() == 0 {
            assert(accv[v].entry_seq() == ov);
        } else {
            assert(sl[i] == stray_u64(left_edges[i], k));
        }
    }
    assert forall|v: int, j: int|
        0 <= v < accv.len() && 0 <= j < cols implies #[trigger] col_spend(
        accv[v].entry_seq(),
        cols,
        j,
        rows,
    ) <= stray_of(right_edges[j], k) by {
        lemma_zero_col_spend(ov, rows, cols, j, rows);
        if stray_edges.len() == 0 {
            assert(accv[v].entry_seq() == ov);
        } else {
            assert(sr[j] == stray_u64(right_edges[j], k));
        }
    }
    assert forall|v: int, i: int, j: int|
        0 <= v < accv.len() && 0 <= i < rows && 0 <= j < cols implies ((#[trigger] accv[v].at(
        i,
        j,
    )) is Omega <==> (left_edges[i] is Omega && right_edges[j] is Omega)) by {
        crate::flow::lemma_entry_index(rows, cols, i, j);
        crate::flow::lemma_entry_index_inv(cols, i * cols + j, i, j);
        if stray_edges.len() == 0 {
            assert(accv[v].entry_seq() == ov);
        } else {
            assert(accv[v].entry_seq()[i * cols + j] is Omega <==> ov[i * cols + j] is Omega);
        }
    }
    assert forall|v: int, i: int, j: int|
        0 <= v < accv.len() && 0 <= i < rows && 0 <= j < cols && !(left_edges[i] is Omega
            && right_edges[j] is Omega) && !is_stray(left_edges, right_edges, i, j)
        implies (#[trigger] accv[v].at(i, j)) == Coef::Value(0) by {
        crate::flow::lemma_entry_index(rows, cols, i, j);
        crate::flow::lemma_entry_index_inv(cols, i * cols + j, i, j);
        if stray_edges.len() == 0 {
            assert(accv[v].entry_seq() == ov);
        } else {
            assert(!(exists|w: int|
                0 <= w < stray_edges.len() && (#[trigger] stray_edges[w]) == (
                i as usize,
                j as usize,
            ))) by {
                if exists|w: int|
                    0 <= w < stray_edges.len() && (#[trigger] stray_edges[w]) == (
                    i as usize,
                    j as usize,
                ) {
                    let w = choose|w: int|
                        0 <= w < stray_edges.len() && (#[trigger] stray_edges[w]) == (
                        i as usize,
                        j as usize,
                    );
                    assert(is_stray(left_edges, right_edges, i, j));
                }
            }
            assert(mat_at(accv[v].entry_seq(), cols, i, j) == mat_at(ov, cols, i, j));
        }
    }
    if exists|i: int, j: int|
        0 <= i < rows && 0 <= j < cols && #[trigger] is_stray(left_edges, right_edges, i, j) {
        let (i0, j0) = choose|i: int, j: int|
            0 <= i < rows && 0 <= j < cols && #[trigger] is_stray(left_edges, right_edges, i, j);
        assert(stray_edges.contains((i0 as usize, j0 as usize)));
        assert(stray_edges.len() > 0);
        assert forall|v: int| 0 <= v < accv.len() implies exists|i: int, j: int|
            0 <= i < rows && 0 <= j < cols && #[trigger] is_stray(left_edges, right_edges, i, j)
                && (row_spend((#[trigger] accv[v]).entry_seq(), cols, i, cols) == stray_of(
                left_edges[i],
                k,
            ) || col_spend(accv[v].entry_seq(), cols, j, rows) == stray_of(right_edges[j], k)) by {
            let w = choose|w: int|
                0 <= w < stray_edges.len() && ((#[trigger] row_spend(
                    accv[v].entry_seq(),
                    cols,
                    stray_edges[w].0 as int,
                    cols,
                )) == row_spend(ov, cols, stray_edges[w].0 as int, cols) + sl[stray_edges[w].0 as int]
                    || col_spend(accv[v].entry_seq(), cols, stray_edges[w].1 as int, rows)
                    == col_spend(ov, cols, stray_edges[w].1 as int, rows) + sr[stray_edges[w].1 as int]);
            let iw = stray_edges[w].0 as int;
            let jw = stray_edges[w].1 as int;
            lemma_zero_row_spend(ov, rows, cols, iw, cols);
            lemma_zero_col_spend(ov, rows, cols, jw, rows);
            assert(is_stray(left_edges, right_edges, iw, jw));
        }
    }
}

/// The budget as a machine number.
pub open spec fn stray_u64(c: Coef, k: u64) -> u64 {
    match c {
        Coef::Omega => k,
        Coef::Value(v) => v,
    }
}

/// Spend between zero and the remaining budgets on the current stray edge,
/// then recurse on the rest; the last edge absorbs the minimum of what is
/// left.
fn get_transports_rec(
    current_flow: &mut Flow,
    edges: &Vec<(usize, usize)>,
    current_edge: usize,
    nb_strays_left: &mut Vec<u64>,
    nb_strays_right: &mut Vec<u64>,
    flow_accumulator: &mut Vec<Flow>,
)
    requires
        current_edge < edges@.len(),
        old(current_flow).wf(),
        old(current_flow).bounded(COEF_CAP as int),
        forall|v: int|
            0 <= v < edges@.len() ==> (#[trigger] edges@[v]).0 < old(current_flow).nb_rows
                && edges@[v].1 < old(current_flow).nb_cols,
        forall|w1: int, w2: int|
            #![trigger edges@[w1], edges@[w2]]
            0 <= w1 < w2 < edges@.len() ==> edges@[w1] != edges@[w2],
        forall|w: int|
            current_edge <= w < edges@.len() ==> mat_at(
                old(current_flow).entry_seq(),
                old(current_flow).nb_cols as int,
                (#[trigger] edges@[w]).0 as int,
                edges@[w].1 as int,
            ) == Coef::Value(0),
        old(nb_strays_left)@.len() == old(current_flow).nb_rows,
        old(nb_strays_right)@.len() == old(current_flow).nb_cols,
        forall|v: int|
            0 <= v < old(nb_strays_left)@.len() ==> #[trigger] old(nb_strays_left)@[v] <= COEF_CAP,
        forall|v: int|
            0 <= v < old(nb_strays_right)@.len() ==> #[trigger] old(nb_strays_right)@[v]
                <= COEF_CAP,
        forall|v: int|
            0 <= v < old(flow_accumulator)@.len() ==> (#[trigger] old(flow_accumulator)@[v]).wf()
                && old(flow_accumulator)@[v].nb_rows == old(current_flow).nb_rows && old(
                flow_accumulator,
            )@[v].nb_cols == old(current_flow).nb_cols && old(flow_accumulator)@[v].bounded(
                COEF_CAP as int,
            ),
    ensures
        final(flow_accumulator)@.len() > old(flow_accumulator)@.len(),
        forall|v: int|
            0 <= v < final(flow_accumulator)@.len() ==> (#[trigger] final(flow_accumulator)@[v]).wf()
                && final(flow_accumulator)@[v].nb_rows == old(current_flow).nb_rows
                && final(flow_accumulator)@[v].nb_cols == old(current_flow).nb_cols
                && final(flow_accumulator)@[v].bounded(COEF_CAP as int),
        forall|v: int|
            0 <= v < old(flow_accumulator)@.len() ==> #[trigger] final(flow_accumulator)@[v]
                == old(flow_accumulator)@[v],
        forall|v: int|
            old(flow_accumulator)@.len() <= v < final(flow_accumulator)@.len()
                ==> transport_step_ok(
                (#[trigger] final(flow_accumulator)@[v]).entry_seq(),
                old(current_flow).entry_seq(),
                old(current_flow).nb_rows as int,
                old(current_flow).nb_cols as int,
                edges@,
                current_edge as int,
                old(nb_strays_left)@,
                old(nb_strays_right)@,
            ),
        final(current_flow).wf(),
        final(current_flow).nb_rows == old(current_flow).nb_rows,
        final(current_flow).nb_cols == old(current_flow).nb_cols,
        final(current_flow).bounded(COEF_CAP as int),
        final(current_flow).entry_seq() == old(current_flow).entry_seq(),
        final(nb_strays_left)@ == old(nb_strays_left)@,
        final(nb_strays_right)@ == old(nb_strays_right)@,
    decreases edges@.len() - current_edge,
{
    let ghost oc = old(current_flow).entry_seq();
    let ghost rows = old(current_flow).nb_rows as int;
    let ghost cols = old(current_flow).nb_cols as int;
    let (left, right) = edges[current_edge];
    let strays_l = nb_strays_left[left];
    let strays_r = nb_strays_right[right];
    let nb_max = if strays_l < strays_r {
        strays_l
    } else {
        strays_r
    };
    proof {
        assert(rows > 0 && cols > 0);
        crate::flow::lemma_entry_index(rows, cols, left as int, right as int);
    }
    if current_edge == edges.len() - 1 {
        let mut new_flow = current_flow.clone();
        new_flow.set(&left, &right, Coef::Value(nb_max));
        proof {
            reveal(transport_step_ok);
            let m = new_flow.entry_seq();
            let pe = (left as int) * cols + (right as int);
            assert(m == oc.update(pe, Coef::Value(nb_max)));
            assert(oc[pe] == Coef::Value(0));
            assert forall|p: int| 0 <= p < m.len() implies ((#[trigger] m[p]) is Omega
                <==> oc[p] is Omega) by {
                if p == pe {
                }
            }
            assert forall|i: int, j: int|
                0 <= i < rows && 0 <= j < cols && !(exists|w: int|
                    current_edge as int <= w < edges@.len() && (#[trigger] edges@[w]) == (
                    i as usize,
                    j as usize,
                )) implies #[trigger] mat_at(m, cols, i, j) == mat_at(oc, cols, i, j) by {
                assert(!(i == left as int && j == right as int)) by {
                    if i == left as int && j == right as int {
                        assert(edges@[current_edge as int] == (i as usize, j as usize));
                    }
                }
                crate::flow::lemma_entry_index_ne(cols, i, j, left as int, right as int);
                crate::flow::lemma_entry_index(rows, cols, i, j);
            }
            assert forall|i: int|
                0 <= i < rows implies #[trigger] row_spend(m, cols, i, cols) <= row_spend(
                oc,
                cols,
                i,
                cols,
            ) + old(nb_strays_left)@[i] by {
                lemma_row_spend_update(oc, rows, cols, i, cols, left as int, right as int, Coef::Value(nb_max));
            }
            assert forall|j: int|
                0 <= j < cols implies #[trigger] col_spend(m, cols, j, rows) <= col_spend(
                oc,
                cols,
                j,
                rows,
            ) + old(nb_strays_right)@[j] by {
                lemma_col_spend_update(oc, rows, cols, j, rows, left as int, right as int, Coef::Value(nb_max));
            }
            lemma_row_spend_update(oc, rows, cols, left as int, cols, left as int, right as int, Coef::Value(nb_max));
            lemma_col_spend_update(oc, rows, cols, right as int, rows, left as int, right as int, Coef::Value(nb_max));
            assert(row_spend(m, cols, left as int, cols) == row_spend(oc, cols, left as int, cols)
                + old(nb_strays_left)@[left as int] || col_spend(m, cols, right as int, rows)
                == col_spend(oc, cols, right as int, rows) + old(nb_strays_right)@[
            right as int]);
            assert(transport_step_ok(
                m,
                oc,
                rows,
                cols,
                edges@,
                current_edge as int,
                old(nb_strays_left)@,
                old(nb_strays_right)@,
            ));
        }
        flow_accumulator.push(new_flow);
    } else {
        let next_edge = current_edge + 1;
        proof {
            let pe = (left as int) * cols + (right as int);
            assert(current_flow.entry_seq() =~= oc.update(pe, Coef::Value(0)));
            assert(0u64 <= nb_max && current_flow.entry_seq() == oc.update(pe, Coef::Value(0u64)));
        }
        let mut nb_here: u64 = 0;
        while nb_here <= nb_max
            invariant
                0 <= nb_here <= nb_max + 1,
                nb_max <= strays_l,
                nb_max <= strays_r,
                nb_max <= COEF_CAP,
                next_edge == current_edge + 1,
                current_edge + 1 < edges@.len(),
                left == edges@[current_edge as int].0,
                right == edges@[current_edge as int].1,
                rows == old(current_flow).nb_rows as int,
                cols == old(current_flow).nb_cols as int,
                oc == old(current_flow).entry_seq(),
                oc.len() == rows * cols,
                oc[(left as int) * cols + (right as int)] == Coef::Value(0),
                current_flow.wf(),
                current_flow.nb_rows == old(current_flow).nb_rows,
                current_flow.nb_cols == old(current_flow).nb_cols,
                current_flow.bounded(COEF_CAP as int),
                exists|vv: u64|
                    #![trigger oc.update((left as int) * cols + (right as int), Coef::Value(vv))]
                    vv <= nb_max && current_flow.entry_seq() == oc.update(
                        (left as int) * cols + (right as int),
                        Coef::Value(vv),
                    ),
                forall|v: int|
                    0 <= v < edges@.len() ==> (#[trigger] edges@[v]).0 < current_flow.nb_rows
                        && edges@[v].1 < current_flow.nb_cols,
                forall|w1: int, w2: int|
                    #![trigger edges@[w1], edges@[w2]]
                    0 <= w1 < w2 < edges@.len() ==> edges@[w1] != edges@[w2],
                forall|w: int|
                    current_edge as int <= w < edges@.len() ==> mat_at(
                        oc,
                        cols,
                        (#[trigger] edges@[w]).0 as int,
                        edges@[w].1 as int,
                    ) == Coef::Value(0),
                nb_strays_left@.len() == old(nb_strays_left)@.len(),
                nb_strays_right@.len() == old(nb_strays_right)@.len(),
                old(nb_strays_left)@.len() == rows,
                old(nb_strays_right)@.len() == cols,
                strays_l == old(nb_strays_left)@[left as int],
                strays_r == old(nb_strays_right)@[right as int],
                forall|idx: int|
                    0 <= idx < nb_strays_left@.len() && idx != left as int
                        ==> #[trigger] nb_strays_left@[idx] == old(nb_strays_left)@[idx],
                forall|idx: int|
                    0 <= idx < nb_strays_right@.len() && idx != right as int
                        ==> #[trigger] nb_strays_right@[idx] == old(nb_strays_right)@[idx],
                forall|idx: int|
                    0 <= idx < nb_strays_left@.len() ==> #[trigger] nb_strays_left@[idx]
                        <= COEF_CAP,
                forall|idx: int|
                    0 <= idx < nb_strays_right@.len() ==> #[trigger] nb_strays_right@[idx]
                        <= COEF_CAP,
                forall|idx: int|
                    0 <= idx < old(nb_strays_left)@.len() ==> #[trigger] old(nb_strays_left)@[idx]
                        <= COEF_CAP,
                forall|idx: int|
                    0 <= idx < old(nb_strays_right)@.len() ==> #[trigger] old(nb_strays_right)@[idx]
                        <= COEF_CAP,
                nb_here > 0 ==> flow_accumulator@.len() > old(flow_accumulator)@.len(),
                flow_accumulator@.len() >= old(flow_accumulator)@.len(),
                forall|v: int|
                    0 <= v < flow_accumulator@.len() ==> (#[trigger] flow_accumulator@[v]).wf()
                        && flow_accumulator@[v].nb_rows == old(current_flow).nb_rows
                        && flow_accumulator@[v].nb_cols == old(current_flow).nb_cols
                        && flow_accumulator@[v].bounded(COEF_CAP as int),
                forall|v: int|
                    0 <= v < old(flow_accumulator)@.len() ==> #[trigger] flow_accumulator@[v]
                        == old(flow_accumulator)@[v],
                forall|v: int|
                    old(flow_accumulator)@.len() <= v < flow_accumulator@.len()
                        ==> transport_step_ok(
                        (#[trigger] flow_accumulator@[v]).entry_seq(),
                        oc,
                        rows,
                        cols,
                        edges@,
                        current_edge as int,
                        old(nb_strays_left)@,
                        old(nb_strays_right)@,
                    ),
            decreases nb_max - nb_here + 1,
        {
            let ghost pre_cur = current_flow.entry_seq();
            let ghost pre_l = nb_strays_left@;
            let ghost pre_r = nb_strays_right@;
            nb_strays_left.set(left, strays_l - nb_here);
            nb_strays_right.set(right, strays_r - nb_here);
            current_flow.set(&left, &right, Coef::Value(nb_here));
            proof {
                let pe = (left as int) * cols + (right as int);
                crate::flow::lemma_entry_index(rows, cols, left as int, right as int);
                let vv0 = choose|vv: u64|
                    #![trigger oc.update((left as int) * cols + (right as int), Coef::Value(vv))]
                    vv <= nb_max && pre_cur == oc.update(
                        (left as int) * cols + (right as int),
                        Coef::Value(vv),
                    );
                assert(pre_cur == oc.update(pe, Coef::Value(vv0)));
                assert(current_flow.entry_seq() == pre_cur.update(pe, Coef::Value(nb_here)));
                assert(current_flow.entry_seq() =~= oc.update(pe, Coef::Value(nb_here)));
                assert(nb_here <= nb_max && current_flow.entry_seq() == oc.update(
                    (left as int) * cols + (right as int),
                    Coef::Value(nb_here),
                ));
                assert forall|idx: int|
                    0 <= idx < nb_strays_left@.len() && idx != left as int
                    implies #[trigger] nb_strays_left@[idx] == old(nb_strays_left)@[idx] by {
                    assert(pre_l[idx] == old(nb_strays_left)@[idx]);
                }
                assert(nb_strays_left@ =~= old(nb_strays_left)@.update(
                    left as int,
                    (strays_l - nb_here) as u64,
                ));
                assert forall|idx: int|
                    0 <= idx < nb_strays_right@.len() && idx != right as int
                    implies #[trigger] nb_strays_right@[idx] == old(nb_strays_right)@[idx] by {
                    assert(pre_r[idx] == old(nb_strays_right)@[idx]);
                }
                assert(nb_strays_right@ =~= old(nb_strays_right)@.update(
                    right as int,
                    (strays_r - nb_here) as u64,
                ));
                assert forall|idx: int|
                    0 <= idx < nb_strays_left@.len() implies #[trigger] nb_strays_left@[idx]
                    <= COEF_CAP by {
                    if idx != left as int {
                        assert(nb_strays_left@[idx] == old(nb_strays_left)@[idx]);
                        assert(old(nb_strays_left)@[idx] <= COEF_CAP);
                    } else {
                        assert(nb_strays_left@[idx] == (strays_l - nb_here) as u64);
                        assert(old(nb_strays_left)@[left as int] <= COEF_CAP);
                        assert(strays_l <= COEF_CAP);
                    }
                }
                assert forall|idx: int|
                    0 <= idx < nb_strays_right@.len() implies #[trigger] nb_strays_right@[idx]
                    <= COEF_CAP by {
                    if idx != right as int {
                        assert(nb_strays_right@[idx] == old(nb_strays_right)@[idx]);
                        assert(old(nb_strays_right)@[idx] <= COEF_CAP);
                    } else {
                        assert(nb_strays_right@[idx] == (strays_r - nb_here) as u64);
                        assert(old(nb_strays_right)@[right as int] <= COEF_CAP);
                        assert(strays_r <= COEF_CAP);
                    }
                }
                // the remaining stray edges still hold zero
                assert forall|w: int|
                    next_edge as int <= w < edges@.len() implies mat_at(
                    current_flow.entry_seq(),
                    cols,
                    (#[trigger] edges@[w]).0 as int,
                    edges@[w].1 as int,
                ) == Coef::Value(0) by {
                    assert(edges@[current_edge as int] != edges@[w]);
                    assert(!(edges@[w].0 as int == left as int && edges@[w].1 as int
                        == right as int)) by {
                        if edges@[w].0 == left && edges@[w].1 == right {
                            assert(edges@[w] == edges@[current_edge as int]);
                        }
                    }
                    crate::flow::lemma_entry_index_ne(
                        cols,
                        edges@[w].0 as int,
                        edges@[w].1 as int,
                        left as int,
                        right as int,
                    );
                    crate::flow::lemma_entry_index(
                        rows,
                        cols,
                        edges@[w].0 as int,
                        edges@[w].1 as int,
                    );
                }
            }
            let ghost mid_flow = current_flow.entry_seq();
            let ghost mid_l = nb_strays_left@;
            let ghost mid_r = nb_strays_right@;
            let ghost mid_acc = flow_accumulator@;
            get_transports_rec(
                current_flow,
                edges,
                next_edge,
                nb_strays_left,
                nb_strays_right,
                flow_accumulator,
            );
            proof {
                let pe = (left as int) * cols + (right as int);
                assert forall|v: int|
                    old(flow_accumulator)@.len() <= v < flow_accumulator@.len()
                    implies transport_step_ok(
                    (#[trigger] flow_accumulator@[v]).entry_seq(),
                    oc,
                    rows,
                    cols,
                    edges@,
                    current_edge as int,
                    old(nb_strays_left)@,
                    old(nb_strays_right)@,
                ) by {
                    if v < mid_acc.len() {
                        assert(flow_accumulator@[v] == mid_acc[v]);
                        assert(transport_step_ok(
                            mid_acc[v].entry_seq(),
                            oc,
                            rows,
                            cols,
                            edges@,
                            current_edge as int,
                            old(nb_strays_left)@,
                            old(nb_strays_right)@,
                        ));
                    } else {
                        assert(transport_step_ok(
                            flow_accumulator@[v].entry_seq(),
                            mid_flow,
                            rows,
                            cols,
                            edges@,
                            next_edge as int,
                            mid_l,
                            mid_r,
                        ));
                        lemma_step_transfer(
                            flow_accumulator@[v].entry_seq(),
                            oc,
                            rows,
                            cols,
                            edges@,
                            current_edge as int,
                            old(nb_strays_left)@,
                            old(nb_strays_right)@,
                            nb_here,
                        );
                    }
                }
                assert(nb_here <= nb_max && current_flow.entry_seq() == oc.update(
                    (left as int) * cols + (right as int),
                    Coef::Value(nb_here),
                ));
            }
            nb_here = nb_here + 1;
        }
        let ghost end_cur = current_flow.entry_seq();
        let ghost end_l = nb_strays_left@;
        let ghost end_r = nb_strays_right@;
        current_flow.set(&left, &right, Coef::Value(0));
        nb_strays_left.set(left, strays_l);
        nb_strays_right.set(right, strays_r);
        proof {
            let pe = (left as int) * cols + (right as int);
            crate::flow::lemma_entry_index(rows, cols, left as int, right as int);
            let vv0 = choose|vv: u64|
                #![trigger oc.update((left as int) * cols + (right as int), Coef::Value(vv))]
                vv <= nb_max && end_cur == oc.update(
                    (left as int) * cols + (right as int),
                    Coef::Value(vv),
                );
            assert(end_cur == oc.update(pe, Coef::Value(vv0)));
            assert(current_flow.entry_seq() == end_cur.update(pe, Coef::Value(0)));
            assert(current_flow.entry_seq() =~= oc);
            assert forall|idx: int|
                0 <= idx < nb_strays_left@.len() implies nb_strays_left@[idx] == old(
                nb_strays_left,
            )@[idx] by {
                if idx != left as int {
                    assert(end_l[idx] == old(nb_strays_left)@[idx]);
                }
            }
            assert(nb_strays_left@ =~= old(nb_strays_left)@);
            assert forall|idx: int|
                0 <= idx < nb_strays_right@.len() implies nb_strays_right@[idx] == old(
                nb_strays_right,
            )@[idx] by {
                if idx != right as int {
                    assert(end_r[idx] == old(nb_strays_right)@[idx]);
                }
            }
            assert(nb_strays_right@ =~= old(nb_strays_right)@);
        }
    }
}

/// The tokens a transport matrix spends in row `i`, over its first `upto`
/// columns (`Omega` entries spend nothing; they are the fixed omega part).
pub open spec fn row_spend(m: Seq<Coef>, cols: int, i: int, upto: int) -> int
    decreases upto,
{
    if upto <= 0 {
        0
    } else {
        row_spend(m, cols, i, upto - 1) + mat_at(m, cols, i, upto - 1).spec_value()
    }
}

/// The tokens a transport matrix spends in column `j`, over its first
/// `upto` rows.
pub open spec fn col_spend(m: Seq<Coef>, cols: int, j: int, upto: int) -> int
    decreases upto,
{
    if upto <= 0 {
        0
    } else {
        col_spend(m, cols, j, upto - 1) + mat_at(m, cols, upto - 1, j).spec_value()
    }
}

/// The budget a coefficient offers: its value, or the bound for `Omega`.
pub open spec fn stray_of(c: Coef, k: u64) -> int {
    match c {
        Coef::Omega => k as int,
        Coef::Value(v) => v as int,
    }
}

/// Budgets `(i, j)` where finite mass can move: not both sides `Omega`,
/// neither side zero.
pub open spec fn is_stray(left: Seq<Coef>, right: Seq<Coef>, i: int, j: int) -> bool {
    !(left[i] is Omega && right[j] is Omega) && left[i] != Coef::Value(0) && right[j]
        != Coef::Value(0)
}

/// Updating one entry moves a row's spend by the difference there, and
/// leaves every other row's spend unchanged.
proof fn lemma_row_spend_update(
    m: Seq<Coef>,
    rows: int,
    cols: int,
    i: int,
    upto: int,
    a: int,
    b: int,
    v: Coef,
)
    requires
        cols > 0,
        m.len() == rows * cols,
        0 <= b < cols,
        0 <= upto <= cols,
        0 <= a < rows,
        0 <= i < rows,
    ensures
        row_spend(m.update(a * cols + b, v), cols, i, upto) == row_spend(m, cols, i, upto) + (
        if i == a && b < upto {
            v.spec_value() - m[a * cols + b].spec_value()
        } else {
            0
        }),
    decreases upto,
{
    crate::flow::lemma_entry_index(rows, cols, a, b);
    if upto > 0 {
        lemma_row_spend_update(m, rows, cols, i, upto - 1, a, b, v);
        crate::flow::lemma_entry_index(rows, cols, i, upto - 1);
        if i == a && b == upto - 1 {
            assert(i * cols + (upto - 1) == a * cols + b);
        } else {
            crate::flow::lemma_entry_index_ne(cols, i, upto - 1, a, b);
        }
    }
}

/// Updating one entry moves a column's spend by the difference there, and
/// leaves every other column's spend unchanged.
proof fn lemma_col_spend_update(
    m: Seq<Coef>,
    rows: int,
    cols: int,
    j: int,
    upto: int,
    a: int,
    b: int,
    v: Coef,
)
    requires
        cols > 0,
        m.len() == rows * cols,
        0 <= b < cols,
        0 <= j < cols,
        0 <= upto <= rows,
        0 <= a < rows,
    ensures
        col_spend(m.update(a * cols + b, v), cols, j, upto) == col_spend(m, cols, j, upto) + (
        if j == b && a < upto {
            v.spec_value() - m[a * cols + b].spec_value()
        } else {
            0
        }),
    decreases upto,
{
    crate::flow::lemma_entry_index(rows, cols, a, b);
    if upto > 0 {
        lemma_col_spend_update(m, rows, cols, j, upto - 1, a, b, v);
        crate::flow::lemma_entry_index(rows, cols, upto - 1, j);
        if a == upto - 1 && j == b {
            assert((upto - 1) * cols + j == a * cols + b);
        } else {
            crate::flow::lemma_entry_index_ne(cols, upto - 1, j, a, b);
        }
    }
}

/// A matrix whose entries all carry value zero spends nothing in any row.
proof fn lemma_zero_row_spend(m: Seq<Coef>, rows: int, cols: int, i: int, upto: int)
    requires
        m.len() == rows * cols,
        cols > 0,
        0 <= i < rows,
        0 <= upto <= cols,
        forall|p: int| 0 <= p < m.len() ==> (#[trigger] m[p]).spec_value() == 0,
    ensures
        row_spend(m, cols, i, upto) == 0,
    decreases upto,
{
    if upto > 0 {
        lemma_zero_row_spend(m, rows, cols, i, upto - 1);
        crate::flow::lemma_entry_index(rows, cols, i, upto - 1);
    }
}

/// A matrix whose entries all carry value zero spends nothing in any column.
proof fn lemma_zero_col_spend(m: Seq<Coef>, rows: int, cols: int, j: int, upto: int)
    requires
        m.len() == rows * cols,
        cols > 0,
        0 <= j < cols,
        0 <= upto <= rows,
        forall|p: int| 0 <= p < m.len() ==> (#[trigger] m[p]).spec_value() == 0,
    ensures
        col_spend(m, cols, j, upto) == 0,
    decreases upto,
{
    if upto > 0 {
        lemma_zero_col_spend(m, rows, cols, j, upto - 1);
        crate::flow::lemma_entry_index(rows, cols, upto - 1, j);
    }
}


/// What one level of the transport enumeration guarantees of a produced
/// matrix `m`, relative to the partial matrix `oc` and the remaining
/// budgets at edge `e`: the omega pattern is untouched, entries off the
/// remaining stray edges are untouched, every row and column spends within
/// its remaining budget, and some remaining stray edge exhausts its row or
/// column budget.
#[verifier::opaque]
pub open spec fn transport_step_ok(
    m: Seq<Coef>,
    oc: Seq<Coef>,
    rows: int,
    cols: int,
    edges: Seq<(usize, usize)>,
    e: int,
    reml: Seq<u64>,
    remr: Seq<u64>,
) -> bool {
    m.len() == oc.len() && (forall|p: int| 0 <= p < m.len() ==> ((#[trigger] m[p]) is Omega <==> oc[p] is Omega))
        && (forall|i: int, j: int|
        0 <= i < rows && 0 <= j < cols && !(exists|w: int|
            e <= w < edges.len() && (#[trigger] edges[w]) == (i as usize, j as usize))
            ==> #[trigger] mat_at(m, cols, i, j) == mat_at(oc, cols, i, j)) && (forall|i: int|
        0 <= i < rows ==> #[trigger] row_spend(m, cols, i, cols) <= row_spend(oc, cols, i, cols)
            + reml[i]) && (forall|j: int|
        0 <= j < cols ==> #[trigger] col_spend(m, cols, j, rows) <= col_spend(oc, cols, j, rows)
            + remr[j]) && (exists|w: int|
        e <= w < edges.len() && ((#[trigger] row_spend(m, cols, edges[w].0 as int, cols))
            == row_spend(oc, cols, edges[w].0 as int, cols) + reml[edges[w].0 as int] || col_spend(
            m,
            cols,
            edges[w].1 as int,
            rows,
        ) == col_spend(oc, cols, edges[w].1 as int, rows) + remr[edges[w].1 as int]))
}

/// A guarantee relative to the state after spending `s` on edge `e`
/// carries back to the state before the spend.
#[verifier::rlimit(100)]
#[verifier::spinoff_prover]
proof fn lemma_step_transfer(
    m: Seq<Coef>,
    oc: Seq<Coef>,
    rows: int,
    cols: int,
    edges: Seq<(usize, usize)>,
    e: int,
    reml: Seq<u64>,
    remr: Seq<u64>,
    s: u64,
)
    requires
        cols > 0,
        rows > 0,
        oc.len() == rows * cols,
        0 <= e < edges.len() - 1,
        forall|w: int|
            0 <= w < edges.len() ==> (#[trigger] edges[w]).0 < rows && edges[w].1 < cols,
        mat_at(oc, cols, edges[e].0 as int, edges[e].1 as int) == Coef::Value(0),
        reml.len() == rows,
        remr.len() == cols,
        s <= reml[edges[e].0 as int],
        s <= remr[edges[e].1 as int],
        transport_step_ok(
            m,
            oc.update((edges[e].0 as int) * cols + (edges[e].1 as int), Coef::Value(s)),
            rows,
            cols,
            edges,
            e + 1,
            reml.update(edges[e].0 as int, (reml[edges[e].0 as int] - s) as u64),
            remr.update(edges[e].1 as int, (remr[edges[e].1 as int] - s) as u64),
        ),
    ensures
        transport_step_ok(m, oc, rows, cols, edges, e, reml, remr),
{
    reveal(transport_step_ok);
    let i0 = edges[e].0 as int;
    let j0 = edges[e].1 as int;
    let pe = i0 * cols + j0;
    let oc2 = oc.update(pe, Coef::Value(s));
    let reml2 = reml.update(i0, (reml[i0] - s) as u64);
    let remr2 = remr.update(j0, (remr[j0] - s) as u64);
    crate::flow::lemma_entry_index(rows, cols, i0, j0);
    // pattern: the spend wrote a finite value over a finite zero
    assert forall|p: int| 0 <= p < m.len() implies ((#[trigger] m[p]) is Omega <==> oc[p] is Omega) by {
        assert(m[p] is Omega <==> oc2[p] is Omega);
        if p == pe {
            assert(oc[p] == Coef::Value(0));
        }
    }
    // untouched positions
    assert forall|i: int, j: int|
        0 <= i < rows && 0 <= j < cols && !(exists|w: int|
            e <= w < edges.len() && (#[trigger] edges[w]) == (i as usize, j as usize))
        implies #[trigger] mat_at(m, cols, i, j) == mat_at(oc, cols, i, j) by {
        assert(!(exists|w: int|
            e + 1 <= w < edges.len() && (#[trigger] edges[w]) == (i as usize, j as usize)));
        assert(mat_at(m, cols, i, j) == mat_at(oc2, cols, i, j));
        assert(!(i == i0 && j == j0)) by {
            if i == i0 && j == j0 {
                assert(edges[e] == (i as usize, j as usize));
            }
        }
        crate::flow::lemma_entry_index_ne(cols, i, j, i0, j0);
        crate::flow::lemma_entry_index(rows, cols, i, j);
        assert(oc2[i * cols + j] == oc[i * cols + j]);
    }
    // row budgets: the spend and the budget cut cancel
    assert forall|i: int|
        0 <= i < rows implies #[trigger] row_spend(m, cols, i, cols) <= row_spend(oc, cols, i, cols)
        + reml[i] by {
        lemma_row_spend_update(oc, rows, cols, i, cols, i0, j0, Coef::Value(s));
        assert(row_spend(m, cols, i, cols) <= row_spend(oc2, cols, i, cols) + reml2[i]);
    }
    assert forall|j: int|
        0 <= j < cols implies #[trigger] col_spend(m, cols, j, rows) <= col_spend(oc, cols, j, rows)
        + remr[j] by {
        lemma_col_spend_update(oc, rows, cols, j, rows, i0, j0, Coef::Value(s));
        assert(col_spend(m, cols, j, rows) <= col_spend(oc2, cols, j, rows) + remr2[j]);
    }
    // the exhausted edge stays exhausted
    assert(transport_step_ok(m, oc2, rows, cols, edges, e + 1, reml2, remr2)) by {
        assert(oc2 == oc.update((edges[e].0 as int) * cols + (edges[e].1 as int), Coef::Value(s)));
        assert(reml2 == reml.update(edges[e].0 as int, (reml[edges[e].0 as int] - s) as u64));
        assert(remr2 == remr.update(edges[e].1 as int, (remr[edges[e].1 as int] - s) as u64));
    }
    assert(exists|w: int|
        e + 1 <= w < edges.len() && ((#[trigger] row_spend(m, cols, edges[w].0 as int, cols))
            == row_spend(oc2, cols, edges[w].0 as int, cols) + reml2[edges[w].0 as int]
            || col_spend(m, cols, edges[w].1 as int, rows) == col_spend(
            oc2,
            cols,
            edges[w].1 as int,
            rows,
        ) + remr2[edges[w].1 as int]));
    let w = choose|w: int|
        e + 1 <= w < edges.len() && ((#[trigger] row_spend(m, cols, edges[w].0 as int, cols))
            == row_spend(oc2, cols, edges[w].0 as int, cols) + reml2[edges[w].0 as int]
            || col_spend(m, cols, edges[w].1 as int, rows) == col_spend(
            oc2,
            cols,
            edges[w].1 as int,
            rows,
        ) + remr2[edges[w].1 as int]);
    assert(0 <= w < edges.len());
    assert(edges[w].0 < rows && edges[w].1 < cols);
    lemma_row_spend_update(oc, rows, cols, edges[w].0 as int, cols, i0, j0, Coef::Value(s));
    lemma_col_spend_update(oc, rows, cols, edges[w].1 as int, rows, i0, j0, Coef::Value(s));
    assert(row_spend(m, cols, edges[w].0 as int, cols) == row_spend(
        oc,
        cols,
        edges[w].0 as int,
        cols,
    ) + reml[edges[w].0 as int] || col_spend(m, cols, edges[w].1 as int, rows) == col_spend(
        oc,
        cols,
        edges[w].1 as int,
        rows,
    ) + remr[edges[w].1 as int]);
    assert(exists|w2: int|
        e <= w2 < edges.len() && ((#[trigger] row_spend(m, cols, edges[w2].0 as int, cols))
            == row_spend(oc, cols, edges[w2].0 as int, cols) + reml[edges[w2].0 as int]
            || col_spend(m, cols, edges[w2].1 as int, rows) == col_spend(
            oc,
            cols,
            edges[w2].1 as int,
            rows,
        ) + remr[edges[w2].1 as int]));
    assert(transport_step_ok(m, oc, rows, cols, edges, e, reml, remr)) by {
        reveal(transport_step_ok);
        assert(m.len() == oc.len());
    }
}

} // verus!
