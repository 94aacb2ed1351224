//! The compression-based bound: for every state of the meta problem, the
//! best value reachable from it, precomputed once and looked up by the
//! relaxation.
//!
//! The value-to-go of a meta state depends only on the set of clusters still
//! to schedule, so the store is a table indexed by that set. A state of the
//! original problem is compressed first; when the compression is faithful
//! the stored meta value bounds it, otherwise the bound reports no
//! information.

use vstd::prelude::*;

verus! {

use vstd::arithmetic::power2::lemma2_to64;
use vstd::arithmetic::power2::lemma_pow2_adds;
use vstd::arithmetic::power2::pow2;
use vstd::bits::lemma_u64_shl_is_mul;
use crate::bitset::BitSet64;
use crate::compression::TalentSchedCompression;
use crate::compression::duration_sum_below;
use crate::instance::MAGNITUDE_LIMIT;
use crate::model::Decision;
use crate::model::TalentSched;
use crate::model::TalentSchedState;
use crate::model::lemma_exact_cost_matches;
use crate::model::lemma_set_cost_below_bounds;
use crate::model::lemma_sum_prefix_bounds;

/// A stand-in below every reachable value, for folding a maximum.
pub open spec fn bound_floor() -> int {
    -(MAGNITUDE_LIMIT as int) - 1
}

/// The best value reachable from the meta state that still has to schedule
/// the scenes of `s`: zero when nothing remains, else the best over every
/// candidate scene of its transition cost plus the value from there.
pub open spec fn best_to_go(pb: TalentSched, s: Set<int>) -> int
    decreases s.len(), 65int,
{
    if !s.finite() || s.is_empty() {
        0
    } else {
        best_from(pb, s, 0)
    }
}

/// The best value over the candidate scenes of `s` numbered `v` or higher.
pub open spec fn best_from(pb: TalentSched, s: Set<int>, v: int) -> int
    decreases s.len(), 64 - v,
{
    if !s.finite() || v < 0 || v >= 64 {
        bound_floor()
    } else {
        let rest = best_from(pb, s, v + 1);
        if s.contains(v) {
            let cand = pb.exact_transition_cost(s, v) + best_to_go(pb, s.remove(v));
            if cand >= rest {
                cand
            } else {
                rest
            }
        } else {
            rest
        }
    }
}

/// Removing one selected scene takes exactly its duration out of the sum.
proof fn lemma_duration_sum_remove(pb: TalentSched, sel: Set<int>, i: int, n: int)
    requires
        0 <= i < n,
        sel.contains(i),
    ensures
        duration_sum_below(pb, sel.remove(i), n) == duration_sum_below(pb, sel, n)
            - pb.instance.duration[i],
    decreases n,
{
    if n > 0 {
        if i == n - 1 {
            lemma_duration_sum_same(pb, sel.remove(i), sel, i);
        } else {
            lemma_duration_sum_remove(pb, sel, i, n - 1);
        }
    }
}

/// Selections agreeing below `n` have the same duration sum there.
proof fn lemma_duration_sum_same(pb: TalentSched, s1: Set<int>, s2: Set<int>, n: int)
    requires
        forall|j: int| 0 <= j < n ==> (s1.contains(j) <==> s2.contains(j)),
    ensures
        duration_sum_below(pb, s1, n) == duration_sum_below(pb, s2, n),
    decreases n,
{
    if n > 0 {
        lemma_duration_sum_same(pb, s1, s2, n - 1);
    }
}

/// The value-to-go is never positive, and never worse than charging the
/// whole cast on every remaining day: it stays within the magnitude limit.
pub proof fn lemma_best_to_go_bounds(pb: TalentSched, s: Set<int>)
    requires
        pb.wf(),
        s.finite(),
        forall|i: int| s.contains(i) ==> 0 <= i < pb.instance.nb_scenes,
    ensures
        best_to_go(pb, s) <= 0,
        best_to_go(pb, s) >= -(pb.instance.total_cost() * duration_sum_below(
            pb,
            s,
            pb.instance.nb_scenes as int,
        )),
        best_to_go(pb, s) >= -(MAGNITUDE_LIMIT as int),
    decreases s.len(), 66int,
{
    let n = pb.instance.nb_scenes as int;
    let tc = pb.instance.total_cost();
    let dd = duration_sum_below(pb, s, n);
    crate::compression::lemma_duration_sum_bounds(pb, s, n);
    lemma_sum_prefix_bounds(pb.instance.cost@, pb.instance.nb_actors as int);
    lemma_sum_prefix_bounds(pb.instance.duration@, n);
    assert(0 <= tc * dd <= tc * pb.instance.total_duration()) by (nonlinear_arith)
        requires
            0 <= tc,
            0 <= dd <= pb.instance.total_duration(),
    ;
    if !s.is_empty() {
        lemma_best_from_upper(pb, s, 0);
        let v = s.choose();
        assert(s.contains(v));
        lemma_best_from_reaches(pb, s, 0, v);
        lemma_cand_lower(pb, s, v);
    }
}

/// Every folded value is nonpositive.
proof fn lemma_best_from_upper(pb: TalentSched, s: Set<int>, v: int)
    requires
        pb.wf(),
        s.finite(),
        forall|i: int| s.contains(i) ==> 0 <= i < pb.instance.nb_scenes,
    ensures
        best_from(pb, s, v) <= 0,
    decreases s.len(), 64 - v, 0int,
{
    if 0 <= v < 64 {
        lemma_best_from_upper(pb, s, v + 1);
        if s.contains(v) {
            lemma_best_to_go_bounds(pb, s.remove(v));
            lemma_set_cost_below_bounds(
                pb.instance,
                pb.exact_pay_set(s, v),
                pb.instance.nb_actors as int,
            );
            assert(pb.set_cost(pb.exact_pay_set(s, v)) * pb.instance.duration[v] >= 0)
                by (nonlinear_arith)
                requires
                    pb.set_cost(pb.exact_pay_set(s, v)) >= 0,
                    pb.instance.duration[v] >= 0,
            ;
        }
    }
}

/// The fold from `v0` reaches the candidate at any member `v` at or past it.
proof fn lemma_best_from_reaches(pb: TalentSched, s: Set<int>, v0: int, v: int)
    requires
        s.finite(),
        0 <= v0 <= v < 64,
        s.contains(v),
    ensures
        best_from(pb, s, v0) >= pb.exact_transition_cost(s, v) + best_to_go(pb, s.remove(v)),
    decreases v - v0,
{
    if v0 < v {
        lemma_best_from_reaches(pb, s, v0 + 1, v);
    }
}

/// One candidate never falls below charging the whole cast on every
/// remaining day.
proof fn lemma_cand_lower(pb: TalentSched, s: Set<int>, v: int)
    requires
        pb.wf(),
        s.finite(),
        forall|i: int| s.contains(i) ==> 0 <= i < pb.instance.nb_scenes,
        s.contains(v),
    ensures
        pb.exact_transition_cost(s, v) + best_to_go(pb, s.remove(v)) >= -(pb.instance.total_cost()
            * duration_sum_below(pb, s, pb.instance.nb_scenes as int)),
    decreases s.len(), 65int, 0int,
{
    let n = pb.instance.nb_scenes as int;
    let tc = pb.instance.total_cost();
    let d: int = pb.instance.duration[v] as int;
    let rest = s.remove(v);
    lemma_best_to_go_bounds(pb, rest);
    lemma_duration_sum_remove(pb, s, v, n);
    lemma_set_cost_below_bounds(pb.instance, pb.exact_pay_set(s, v), pb.instance.nb_actors as int);
    lemma_sum_prefix_bounds(pb.instance.cost@, pb.instance.nb_actors as int);
    let sc = pb.set_cost(pb.exact_pay_set(s, v));
    crate::compression::lemma_duration_sum_ge_elem(pb, s, n, v);
    assert(-(sc * d) - tc * (duration_sum_below(pb, s, n) - d) >= -(tc * duration_sum_below(
        pb,
        s,
        n,
    ))) by (nonlinear_arith)
        requires
            0 <= sc <= tc,
            0 <= d,
            d <= duration_sum_below(pb, s, n),
    ;
}

/// Below `v`, nothing is left to fold: the result is the floor.
proof fn lemma_best_from_clear(pb: TalentSched, s: Set<int>, v: int)
    requires
        s.finite(),
        0 <= v <= 64,
        forall|i: int| s.contains(i) ==> i < v,
    ensures
        best_from(pb, s, v) == bound_floor(),
    decreases 64 - v,
{
    if v < 64 {
        assert(!s.contains(v));
        lemma_best_from_clear(pb, s, v + 1);
    }
}

/// A word below `1 << k` has members below `k` only.
proof fn lemma_mask_members(m: u64, k: u64)
    requires
        k < 64,
        m < (1u64 << k),
    ensures
        forall|i: int| (BitSet64 { bits: m })@.contains(i) ==> 0 <= i < k,
{
    assert(forall|j: u64|
        k <= j < 64 && m < (1u64 << k) ==> #[trigger] ((m >> j) & 1u64) == 0u64) by (bit_vector);
    assert forall|i: int| (BitSet64 { bits: m })@.contains(i) implies 0 <= i < k by {
        if i >= k {
            assert((m >> (i as u64)) & 1u64 == 0u64);
        }
    }
}

/// The precomputed value-to-go of every state of the meta problem, indexed
/// by the word of its remaining cluster set.
#[derive(Clone, Debug)]
pub struct CompressedSolutionBound {
    pub compression: TalentSchedCompression,
    pub values: Vec<isize>,
}

impl CompressedSolutionBound {
    /// The store invariant: one entry per subset of the clusters, each
    /// holding exactly the best value reachable from that meta state.
    pub open spec fn wf(self) -> bool {
        &&& self.compression.wf()
        &&& self.compression.nb_clusters() <= 20
        &&& self.values.len() == pow2(self.compression.nb_clusters() as nat)
        &&& forall|m: int|
            0 <= m < self.values.len() ==> #[trigger] self.values[m] == best_to_go(
                self.compression.meta_problem,
                (BitSet64 { bits: m as u64 })@,
            )
    }

    /// Solves the meta problem from every one of its states, smallest
    /// remainders first.
    pub fn new(compression: TalentSchedCompression) -> (r: Self)
        requires
            compression.wf(),
            compression.meta_problem.instance.nb_scenes <= 20,
        ensures
            r.wf(),
            r.compression == compression,
    {
        let k = compression.meta_problem.instance.nb_scenes;
        proof {
            lemma2_to64();
        }
        let mut total: usize = 1;
        let mut i: usize = 0;
        while i < k
            invariant
                i <= k <= 20,
                total == pow2(i as nat),
                total <= 0x10_0000,
            decreases k - i,
        {
            proof {
                lemma_pow2_adds(i as nat, 1);
                lemma2_to64();
                if i + 1 < 20 {
                    vstd::arithmetic::power2::lemma_pow2_strictly_increases((i + 1) as nat, 20);
                }
            }
            total = total * 2;
            i = i + 1;
        }
        let floor: isize = -(MAGNITUDE_LIMIT as isize) - 1;
        let mut values: Vec<isize> = Vec::new();
        let mut mask: usize = 0;
        while mask < total
            invariant
                mask <= total,
                total == pow2(k as nat),
                k == compression.meta_problem.instance.nb_scenes <= 20,
                compression.wf(),
                values.len() == mask,
                forall|m: int|
                    0 <= m < mask ==> #[trigger] values[m] == best_to_go(
                        compression.meta_problem,
                        (BitSet64 { bits: m as u64 })@,
                    ),
            decreases total - mask,
        {
            if mask == 0 {
                proof {
                    assert(forall|j: u64| j < 64 ==> #[trigger] ((0u64 >> j) & 1u64) == 0u64)
                        by (bit_vector);
                    assert((BitSet64 { bits: 0u64 })@ =~= Set::<int>::empty());
                }
                values.push(0);
            } else {
                let mbs = BitSet64 { bits: mask as u64 };
                let ghost meta = compression.meta_problem;
                proof {
                    lemma_u64_shl_is_mul(1u64, k as u64);
                    assert((mask as u64) < (1u64 << (k as u64)));
                    lemma_mask_members(mask as u64, k as u64);
                    mbs.lemma_len();
                    lemma_best_from_clear(meta, mbs@, k as int);
                    mbs.lemma_empty_iff_zero();
                }
                let state = TalentSchedState { scenes: mbs, maybe_scenes: BitSet64::empty() };
                let mut best: isize = floor;
                let mut v: usize = k;
                while v > 0
                    invariant
                        v <= k,
                        best == best_from(meta, mbs@, v as int),
                        floor == bound_floor(),
                        state.scenes == mbs,
                        state.maybe_scenes@ == Set::<int>::empty(),
                        mask < total,
                        mbs.bits == mask as u64,
                        values.len() == mask,
                        forall|m: int|
                            0 <= m < mask ==> #[trigger] values[m] == best_to_go(
                                meta,
                                (BitSet64 { bits: m as u64 })@,
                            ),
                    decreases v,
                {
                    v = v - 1;
                    if mbs.contains(v) {
                        let tc = compression.meta_problem.transition_cost(
                            &state,
                            Decision { variable: 0, value: v },
                        );
                        let nbs = mbs.remove(v);
                        proof {
                            lemma_exact_cost_matches(meta, state, v as int);
                            let nb = nbs.bits;
                            let mb = mask as u64;
                            let vv = v as u64;
                            assert(nb < mb) by (bit_vector)
                                requires
                                    nb == mb & !(1u64 << vv),
                                    (mb >> vv) & 1u64 == 1u64,
                                    vv < 64u64,
                            ;
                            assert(nbs.bits < 0x10_0000u64);
                            assert((BitSet64 { bits: (nbs.bits as usize) as u64 }) == nbs);
                            lemma_best_to_go_bounds(meta, nbs@);
                            lemma_cand_lower(meta, mbs@, v as int);
                            crate::compression::lemma_duration_sum_bounds(
                                meta,
                                mbs@,
                                meta.instance.nb_scenes as int,
                            );
                            lemma_sum_prefix_bounds(
                                meta.instance.cost@,
                                meta.instance.nb_actors as int,
                            );
                            lemma_sum_prefix_bounds(
                                meta.instance.duration@,
                                meta.instance.nb_scenes as int,
                            );
                            assert(meta.instance.total_cost() * duration_sum_below(
                                meta,
                                mbs@,
                                meta.instance.nb_scenes as int,
                            ) <= meta.instance.total_cost() * meta.instance.total_duration())
                                by (nonlinear_arith)
                                requires
                                    0 <= meta.instance.total_cost(),
                                    duration_sum_below(
                                        meta,
                                        mbs@,
                                        meta.instance.nb_scenes as int,
                                    ) <= meta.instance.total_duration(),
                            ;
                        }
                        let cand = tc + values[nbs.bits as usize];
                        if cand >= best {
                            best = cand;
                        }
                    }
                }
                values.push(best);
            }
            mask = mask + 1;
        }
        CompressedSolutionBound { compression, values }
    }

    /// An upper bound on the value reachable from `state`: the stored meta
    /// value of its compression when that compression is faithful, and no
    /// information otherwise.
    pub fn get_ub(&self, state: &TalentSchedState) -> (r: isize)
        requires
            self.wf(),
        ensures
            state.maybe_scenes@ != Set::<int>::empty() || self.compression.split_cluster_exists(
                *state,
            ) || self.compression.full_clusters(*state) == Set::<int>::empty() ==> r == isize::MAX,
            state.maybe_scenes@ == Set::<int>::empty() && !self.compression.split_cluster_exists(
                *state,
            ) && self.compression.full_clusters(*state) != Set::<int>::empty() ==> r == best_to_go(
                self.compression.meta_problem,
                self.compression.full_clusters(*state),
            ),
    {
        let compressed = self.compression.compress(state);
        if compressed.scenes.is_empty() {
            return isize::MAX;
        }
        let k = self.compression.meta_problem.instance.nb_scenes;
        proof {
            compressed.scenes.lemma_bits_bound(k as nat);
            lemma_u64_shl_is_mul(1u64, k as u64);
            lemma2_to64();
            if k < 20 {
                vstd::arithmetic::power2::lemma_pow2_strictly_increases(k as nat, 20);
            }
            assert(compressed.scenes.bits < 0x10_0000u64);
            assert((BitSet64 {
                bits: (compressed.scenes.bits as usize) as u64,
            }) == compressed.scenes);
        }
        self.values[compressed.scenes.bits as usize]
    }
}

} // verus!
