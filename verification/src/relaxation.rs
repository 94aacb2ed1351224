//! The relaxation used when a layer of the diagram grows too wide: merging a
//! group of states into one that over-approximates each of them, the (here
//! trivial) arc cost relaxation, and the integral part of the fast upper
//! bound — the forced cost of the scenes still to shoot.
//!
//! Merging keeps certain only the scenes certain in every merged state, and
//! turns everything else that some state still had to shoot into an uncertain
//! scene. Because transition costs only charge actors that are certainly
//! arrived and certainly not released, a merged state never pays more than
//! any state it stands for.

use vstd::prelude::*;

verus! {

use crate::instance::sum_prefix;
use crate::model::Decision;
use crate::model::TalentSched;
use crate::model::TalentSchedState;
use crate::model::lemma_set_cost_below_bounds;
use crate::model::lemma_set_cost_below_mono;
use crate::model::lemma_sum_prefix_bounds;

/// Scenes certain in every one of the first `m` states.
pub open spec fn inter_prefix(states: Seq<TalentSchedState>, m: int) -> Set<int> {
    Set::new(
        |i: int| forall|k: int| 0 <= k < m ==> #[trigger] states[k].scenes@.contains(i),
    )
}

/// Scenes some of the first `m` states still had to shoot, certainly or not.
pub open spec fn union_prefix(states: Seq<TalentSchedState>, m: int) -> Set<int> {
    Set::new(
        |i: int|
            exists|k: int|
                0 <= k < m && (#[trigger] states[k].scenes@.contains(i)
                    || states[k].maybe_scenes@.contains(i)),
    )
}

/// The scenes certain in every state of the group.
pub open spec fn merged_scenes(states: Seq<TalentSchedState>) -> Set<int> {
    inter_prefix(states, states.len() as int)
}

/// The scenes uncertain after the merge: still to shoot in some state, but
/// not certain in all.
pub open spec fn merged_maybe_scenes(states: Seq<TalentSchedState>) -> Set<int> {
    union_prefix(states, states.len() as int).difference(merged_scenes(states))
}

/// Sum over the selected scenes below `n` of their full cast cost times
/// their duration: the cost already committed no matter the order.
pub open spec fn forced_cost_below(pb: TalentSched, sel: Set<int>, n: int) -> int
    decreases n,
{
    if n <= 0 {
        0
    } else {
        forced_cost_below(pb, sel, n - 1) + if sel.contains(n - 1) {
            pb.set_cost(pb.actors_of(n - 1)) * pb.instance.duration[n - 1]
        } else {
            0
        }
    }
}

/// The relaxation over a talent scheduling problem.
#[derive(Clone, Debug)]
pub struct TalentSchedRelax {
    pub pb: TalentSched,
}

impl TalentSchedRelax {
    /// Builds the relaxation of a problem.
    pub fn new(pb: TalentSched) -> (r: Self)
        ensures
            r.pb == pb,
    {
        TalentSchedRelax { pb }
    }

    /// Merges a nonempty group of states into one standing for all of them:
    /// certain scenes are those certain everywhere, everything else any
    /// state still had to shoot becomes uncertain.
    pub fn merge(&self, states: &Vec<TalentSchedState>) -> (r: TalentSchedState)
        requires
            states.len() >= 1,
        ensures
            r.scenes@ == merged_scenes(states@),
            r.maybe_scenes@ == merged_maybe_scenes(states@),
            forall|n: int|
                (forall|k: int| 0 <= k < states.len() ==> #[trigger] states[k].wf(n)) ==> r.wf(n),
    {
        let first = states[0];
        let mut scenes = first.scenes;
        let mut maybe = first.scenes.union(first.maybe_scenes);
        proof {
            assert(scenes@ =~= inter_prefix(states@, 1)) by {
                assert forall|i: int| inter_prefix(states@, 1).contains(i) implies scenes@.contains(
                    i,
                ) by {
                    assert(states@[0].scenes@.contains(i));
                }
            }
            assert(maybe@ =~= union_prefix(states@, 1)) by {
                assert forall|i: int| maybe@.contains(i) implies union_prefix(states@, 1).contains(
                    i,
                ) by {
                    assert(0 <= 0 < 1 && (states@[0].scenes@.contains(i)
                        || states@[0].maybe_scenes@.contains(i)));
                }
            }
        }
        let mut k: usize = 1;
        while k < states.len()
            invariant
                1 <= k <= states.len(),
                scenes@ == inter_prefix(states@, k as int),
                maybe@ == union_prefix(states@, k as int),
            decreases states.len() - k,
        {
            let s = states[k];
            scenes = scenes.intersect(s.scenes);
            maybe = maybe.union(s.scenes).union(s.maybe_scenes);
            proof {
                lemma_inter_prefix_step(states@, k as int);
                lemma_union_prefix_step(states@, k as int);
            }
            k = k + 1;
        }
        let r = TalentSchedState { scenes, maybe_scenes: maybe.difference(scenes) };
        proof {
            assert forall|n: int|
                (forall|k: int| 0 <= k < states.len() ==> #[trigger] states[k].wf(n)) implies r.wf(
                n,
            ) by {
                assert(states[0].wf(n));
                assert forall|i: int| r.scenes@.contains(i) implies 0 <= i < n by {
                    assert(states@[0].scenes@.contains(i));
                }
                assert forall|i: int| r.maybe_scenes@.contains(i) implies 0 <= i < n by {
                    let w = choose|w: int|
                        0 <= w < states@.len() && (#[trigger] states@[w].scenes@.contains(i)
                            || states@[w].maybe_scenes@.contains(i));
                    assert(states[w].wf(n));
                }
            }
        }
        r
    }

    /// The arc cost needs no adjustment when redirected to a merged node:
    /// all the slack is in the merge and in the cost being a lower bound.
    pub fn relax(
        &self,
        source: &TalentSchedState,
        dest: &TalentSchedState,
        new: &TalentSchedState,
        decision: Decision,
        cost: isize,
    ) -> (r: isize)
        ensures
            r == cost,
    {
        cost
    }

    /// The cost every actor pays on the scenes `state` still must shoot,
    /// whatever their order: the first, integral part of the fast upper
    /// bound on the remaining value.
    pub fn forced_future_cost(&self, state: &TalentSchedState) -> (r: usize)
        requires
            self.pb.wf(),
        ensures
            r == forced_cost_below(
                self.pb,
                state.scenes@,
                self.pb.instance.nb_scenes as int,
            ),
    {
        let nb_scenes = self.pb.instance.nb_scenes;
        let mut total: usize = 0;
        let mut s: usize = 0;
        while s < nb_scenes
            invariant
                s <= nb_scenes,
                total == forced_cost_below(self.pb, state.scenes@, s as int),
            decreases nb_scenes - s,
        {
            proof {
                lemma_forced_cost_bounds(self.pb, state.scenes@, s + 1);
                lemma_sum_prefix_bounds(self.pb.instance.duration@, s + 1);
                lemma_sum_prefix_bounds(self.pb.instance.cost@, self.pb.instance.nb_actors as int);
                assert(self.pb.instance.total_cost() * sum_prefix(self.pb.instance.duration@, s + 1)
                    <= self.pb.instance.total_cost() * self.pb.instance.total_duration())
                    by (nonlinear_arith)
                    requires
                        0 <= self.pb.instance.total_cost(),
                        sum_prefix(self.pb.instance.duration@, s + 1)
                            <= self.pb.instance.total_duration(),
                ;
            }
            if state.scenes.contains(s) {
                let c = self.pb.day_cost(self.pb.actors[s], s);
                total = total + c;
            }
            s = s + 1;
        }
        total
    }
}

proof fn lemma_inter_prefix_step(states: Seq<TalentSchedState>, m: int)
    requires
        0 <= m < states.len(),
    ensures
        inter_prefix(states, m + 1) == inter_prefix(states, m).intersect(states[m].scenes@),
{
    assert forall|i: int|
        inter_prefix(states, m).intersect(states[m].scenes@).contains(i) implies inter_prefix(
        states,
        m + 1,
    ).contains(i) by {
        assert forall|k: int| 0 <= k < m + 1 implies #[trigger] states[k].scenes@.contains(i) by {
            if k < m {
                assert(inter_prefix(states, m).contains(i));
            }
        }
    }
    assert(inter_prefix(states, m + 1) =~= inter_prefix(states, m).intersect(states[m].scenes@));
}

proof fn lemma_union_prefix_step(states: Seq<TalentSchedState>, m: int)
    requires
        0 <= m < states.len(),
    ensures
        union_prefix(states, m + 1) == union_prefix(states, m).union(states[m].scenes@).union(
            states[m].maybe_scenes@,
        ),
{
    let small = union_prefix(states, m).union(states[m].scenes@).union(states[m].maybe_scenes@);
    assert forall|i: int| union_prefix(states, m + 1).contains(i) implies small.contains(i) by {
        let w = choose|w: int|
            0 <= w < m + 1 && (#[trigger] states[w].scenes@.contains(i)
                || states[w].maybe_scenes@.contains(i));
        if w < m {
            assert(union_prefix(states, m).contains(i));
        }
    }
    assert forall|i: int| small.contains(i) implies union_prefix(states, m + 1).contains(i) by {
        if union_prefix(states, m).contains(i) {
            let w = choose|w: int|
                0 <= w < m && (#[trigger] states[w].scenes@.contains(i)
                    || states[w].maybe_scenes@.contains(i));
            assert(0 <= w < m + 1 && (states[w].scenes@.contains(i)
                || states[w].maybe_scenes@.contains(i)));
        } else {
            assert(0 <= m < m + 1 && (states[m].scenes@.contains(i)
                || states[m].maybe_scenes@.contains(i)));
        }
    }
    assert(union_prefix(states, m + 1) =~= small);
}

/// The forced cost of a scene selection is nonnegative and bounded by the
/// total cost times the scanned duration.
pub proof fn lemma_forced_cost_bounds(pb: TalentSched, sel: Set<int>, n: int)
    requires
        pb.wf(),
        n <= pb.instance.nb_scenes,
    ensures
        0 <= forced_cost_below(pb, sel, n),
        forced_cost_below(pb, sel, n) <= pb.instance.total_cost() * sum_prefix(
            pb.instance.duration@,
            n,
        ),
    decreases n,
{
    let tc = pb.instance.total_cost();
    let dur = pb.instance.duration@;
    if n <= 0 {
        assert(tc * sum_prefix(dur, n) == 0) by (nonlinear_arith)
            requires
                sum_prefix(dur, n) == 0,
        ;
    } else {
        lemma_forced_cost_bounds(pb, sel, n - 1);
        let step = if sel.contains(n - 1) {
            pb.set_cost(pb.actors_of(n - 1)) * pb.instance.duration[n - 1]
        } else {
            0
        };
        let d: int = dur[n - 1] as int;
        lemma_set_cost_below_bounds(pb.instance, pb.actors_of(n - 1), pb.instance.nb_actors as int);
        lemma_sum_prefix_bounds(pb.instance.cost@, pb.instance.nb_actors as int);
        assert(0 <= step && step <= tc * d) by (nonlinear_arith)
            requires
                step == if sel.contains(n - 1) {
                    pb.set_cost(pb.actors_of(n - 1)) * d
                } else {
                    0
                },
                0 <= pb.set_cost(pb.actors_of(n - 1)) <= tc,
                0 <= d,
        ;
        assert(tc * sum_prefix(dur, n - 1) + tc * d == tc * sum_prefix(dur, n)) by (nonlinear_arith)
            requires
                sum_prefix(dur, n) == sum_prefix(dur, n - 1) + d,
        ;
    }
}

/// Relaxation soundness: a decision valid at every merged state costs no
/// more (the costs being negated) at the merged state than at any of them.
/// The merged state's certainly-arrived and certainly-not-released actor
/// sets both shrink, so fewer actors pay.
pub proof fn lemma_relaxation_sound(
    pb: TalentSched,
    states: Seq<TalentSchedState>,
    merged: TalentSchedState,
    k: int,
    v: int,
)
    requires
        pb.wf(),
        0 <= k < states.len(),
        forall|j: int|
            0 <= j < states.len() ==> #[trigger] states[j].wf(pb.instance.nb_scenes as int),
        merged.scenes@ == merged_scenes(states),
        merged.maybe_scenes@ == merged_maybe_scenes(states),
        0 <= v < pb.instance.nb_scenes,
    ensures
        pb.transition_cost_spec(merged, v) >= pb.transition_cost_spec(states[k], v),
{
    let nb_scenes = pb.instance.nb_scenes as int;
    let st = states[k];
    assert(st.wf(nb_scenes));
    assert forall|i: int| merged.done_set().contains(i) implies st.done_set().contains(i) by {
        if st.scenes@.contains(i) || st.maybe_scenes@.contains(i) {
            assert(union_prefix(states, states.len() as int).contains(i)) by {
                assert(0 <= k < states.len() && (states[k].scenes@.contains(i)
                    || states[k].maybe_scenes@.contains(i)));
            }
            assert(merged.scenes@.contains(i) || merged.maybe_scenes@.contains(i));
        }
    }
    assert forall|i: int| merged.todo_set().contains(i) implies st.todo_set().contains(i) by {
        assert(merged_scenes(states).contains(i));
        assert(st.scenes@.contains(i));
    }
    lemma_actors_union_mono(pb, merged.done_set(), st.done_set(), nb_scenes);
    lemma_actors_union_mono(pb, merged.todo_set(), st.todo_set(), nb_scenes);
    assert(pb.pay_set(merged, v).subset_of(pb.pay_set(st, v)));
    lemma_set_cost_below_mono(
        pb.instance,
        pb.pay_set(merged, v),
        pb.pay_set(st, v),
        pb.instance.nb_actors as int,
    );
    lemma_set_cost_below_bounds(pb.instance, pb.pay_set(merged, v), pb.instance.nb_actors as int);
    let cm = pb.set_cost(pb.pay_set(merged, v));
    let ck = pb.set_cost(pb.pay_set(st, v));
    let d: int = pb.instance.duration[v] as int;
    assert(cm * d <= ck * d) by (nonlinear_arith)
        requires
            cm <= ck,
            0 <= d,
    ;
}

/// A larger scene selection never requires fewer actors.
proof fn lemma_actors_union_mono(pb: TalentSched, sel1: Set<int>, sel2: Set<int>, n: int)
    requires
        sel1.subset_of(sel2),
    ensures
        pb.actors_union_below(sel1, n).subset_of(pb.actors_union_below(sel2, n)),
{
    assert forall|a: int|
        pb.actors_union_below(sel1, n).contains(a) implies pb.actors_union_below(
        sel2,
        n,
    ).contains(a) by {
        let w = choose|w: int|
            0 <= w < n && sel1.contains(w) && #[trigger] pb.actors_of(w).contains(a);
        assert(0 <= w < n && sel2.contains(w) && pb.actors_of(w).contains(a));
    }
}

} // verus!
