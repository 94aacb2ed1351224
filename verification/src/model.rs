//! The dynamic programming model of talent scheduling: states, transitions,
//! transition costs and domains, as the decision diagram driver consumes them.
//!
//! A state is the pair of disjoint scene sets `scenes` (certainly still to
//! shoot) and `maybe_scenes` (possibly already shot, an uncertainty that only
//! relaxation merges introduce). Scheduling scene `v` removes it from both.
//! The cost of a transition charges every actor who is on set on the days of
//! the chosen scene: those the scene requires, and those already arrived but
//! not yet released.

use vstd::prelude::*;

verus! {

use core::cmp::Ordering;
use crate::bitset::BitSet64;
use crate::bitset::range_set;
use crate::instance::MAGNITUDE_LIMIT;
use crate::instance::TalentSchedInstance;
use crate::instance::seq_sum;
use crate::instance::sum_prefix;

/// One decision of the diagram: the variable (its depth) and the value given
/// to it (a scene id, or a cluster id in the meta problem).
#[derive(Clone, Copy, Debug, PartialEq, Eq, Hash, Structural)]
pub struct Decision {
    pub variable: usize,
    pub value: usize,
}

/// A state of the dynamic program.
#[derive(Clone, Copy, Debug, PartialEq, Eq, Hash, Structural)]
pub struct TalentSchedState {
    pub scenes: BitSet64,
    pub maybe_scenes: BitSet64,
}

impl TalentSchedState {
    /// Both sets hold scene ids below `n`, and never overlap.
    pub open spec fn wf(self, n: int) -> bool {
        &&& forall|i: int| self.scenes@.contains(i) ==> 0 <= i < n
        &&& forall|i: int| self.maybe_scenes@.contains(i) ==> 0 <= i < n
        &&& self.scenes@.disjoint(self.maybe_scenes@)
    }

    /// Scenes certainly already shot: in neither set.
    pub open spec fn done_set(self) -> Set<int> {
        Set::new(|i: int| !self.scenes@.contains(i) && !self.maybe_scenes@.contains(i))
    }

    /// Scenes certainly still to shoot.
    pub open spec fn todo_set(self) -> Set<int> {
        Set::new(|i: int| self.scenes@.contains(i) && !self.maybe_scenes@.contains(i))
    }
}

/// The actors required by scene `s` of `inst`.
pub open spec fn required_actors(inst: TalentSchedInstance, s: int, n: int) -> Set<int> {
    Set::new(|a: int| 0 <= a < n && inst.actors[a][s] == 1)
}

/// Sum of `inst.cost[a]` over the actors of `s` below index `n`.
pub open spec fn set_cost_below(inst: TalentSchedInstance, s: Set<int>, n: int) -> int
    decreases n,
{
    if n <= 0 {
        0
    } else {
        set_cost_below(inst, s, n - 1) + if s.contains(n - 1) {
            inst.cost[n - 1] as int
        } else {
            0
        }
    }
}

/// The talent scheduling problem, with the per-scene actor sets derived from
/// the requirement matrix once at construction.
#[derive(Clone, Debug)]
pub struct TalentSched {
    pub instance: TalentSchedInstance,
    pub actors: Vec<BitSet64>,
}

impl TalentSched {
    /// The derived actor set of scene `s`.
    pub open spec fn actors_of(self, s: int) -> Set<int> {
        self.actors[s]@
    }

    /// A well-formed model: a well-formed instance, and one derived actor
    /// set per scene agreeing with the requirement matrix.
    pub open spec fn wf(self) -> bool {
        &&& self.instance.wf()
        &&& self.actors.len() == self.instance.nb_scenes
        &&& forall|s: int|
            0 <= s < self.instance.nb_scenes ==> #[trigger] self.actors[s]@ == required_actors(
                self.instance,
                s,
                self.instance.nb_actors as int,
            )
    }

    /// Actors required by some scene of `sel` with id below `n`.
    pub open spec fn actors_union_below(self, sel: Set<int>, n: int) -> Set<int> {
        Set::new(
            |a: int|
                exists|i: int|
                    0 <= i < n && sel.contains(i) && #[trigger] self.actors_of(i).contains(a),
        )
    }

    /// Actors required by a scene that is certainly already shot.
    pub open spec fn before_set(self, st: TalentSchedState) -> Set<int> {
        self.actors_union_below(st.done_set(), self.instance.nb_scenes as int)
    }

    /// Actors required by a scene that is certainly still to shoot.
    pub open spec fn after_set(self, st: TalentSchedState) -> Set<int> {
        self.actors_union_below(st.todo_set(), self.instance.nb_scenes as int)
    }

    /// Actors held on set at `st`: some known-past scene required them and
    /// some known-future scene still will.
    pub open spec fn present_set(self, st: TalentSchedState) -> Set<int> {
        self.before_set(st).intersect(self.after_set(st))
    }

    /// The actors paying for the days of scene `v` taken at `st`.
    pub open spec fn pay_set(self, st: TalentSchedState, v: int) -> Set<int> {
        self.present_set(st).union(self.actors_of(v))
    }

    /// Sum of the daily costs of the actors of `s`.
    pub open spec fn set_cost(self, s: Set<int>) -> int {
        set_cost_below(self.instance, s, self.instance.nb_actors as int)
    }

    /// Negated cost of scheduling scene `v` at state `st`: every actor on
    /// set pays their daily cost for each day of the scene.
    pub open spec fn transition_cost_spec(self, st: TalentSchedState, v: int) -> int {
        -(self.set_cost(self.pay_set(st, v)) * self.instance.duration[v])
    }

    /// Builds the model of a well-formed instance.
    pub fn new(instance: TalentSchedInstance) -> (r: Self)
        requires
            instance.wf(),
        ensures
            r.wf(),
            r.instance == instance,
    {
        let mut actors: Vec<BitSet64> = Vec::new();
        let mut j: usize = 0;
        while j < instance.nb_scenes
            invariant
                j <= instance.nb_scenes,
                actors.len() == j,
                forall|s: int|
                    0 <= s < j ==> #[trigger] actors[s]@ == required_actors(
                        instance,
                        s,
                        instance.nb_actors as int,
                    ),
            decreases instance.nb_scenes - j,
        {
            let mut set = BitSet64::empty();
            let mut i: usize = 0;
            while i < instance.nb_actors
                invariant
                    i <= instance.nb_actors,
                    j < instance.nb_scenes,
                    set@ == required_actors(instance, j as int, i as int),
                decreases instance.nb_actors - i,
            {
                proof {
                    assert(instance.actors[i as int].len() == instance.nb_scenes);
                }
                if instance.actors[i][j] == 1 {
                    set = set.insert(i);
                }
                proof {
                    assert(set@ =~= required_actors(instance, j as int, i + 1));
                }
                i = i + 1;
            }
            actors.push(set);
            j = j + 1;
        }
        TalentSched { instance, actors }
    }

    /// The number of variables of the program: one per scene.
    pub fn nb_variables(&self) -> (r: usize)
        ensures
            r == self.instance.nb_scenes,
    {
        self.instance.nb_scenes
    }

    /// The root state: every scene still to shoot, no uncertainty.
    pub fn initial_state(&self) -> (r: TalentSchedState)
        requires
            self.instance.nb_scenes <= 64,
        ensures
            r.scenes@ == range_set(self.instance.nb_scenes as int),
            r.maybe_scenes@ == Set::<int>::empty(),
            r.wf(self.instance.nb_scenes as int),
    {
        TalentSchedState {
            scenes: BitSet64::full_upto(self.instance.nb_scenes),
            maybe_scenes: BitSet64::empty(),
        }
    }

    /// The value of the root: costs are charged on transitions alone.
    pub fn initial_value(&self) -> (r: isize)
        ensures
            r == 0,
    {
        0
    }

    /// Scheduling a scene removes it from both sets of the state.
    pub fn transition(&self, state: &TalentSchedState, decision: Decision) -> (r: TalentSchedState)
        requires
            decision.value < 64,
        ensures
            r.scenes@ == state.scenes@.remove(decision.value as int),
            r.maybe_scenes@ == state.maybe_scenes@.remove(decision.value as int),
            forall|n: int| state.wf(n) ==> r.wf(n),
    {
        TalentSchedState {
            scenes: state.scenes.remove(decision.value),
            maybe_scenes: state.maybe_scenes.remove(decision.value),
        }
    }

    /// The actors held on set at `state`, as a bitset.
    pub fn get_present(&self, state: &TalentSchedState) -> (r: BitSet64)
        requires
            self.wf(),
        ensures
            r@ == self.present_set(*state),
    {
        let mut before = BitSet64::empty();
        let mut after = BitSet64::empty();
        let nb_scenes = self.instance.nb_scenes;
        let mut i: usize = 0;
        proof {
            assert(before@ =~= self.actors_union_below(state.done_set(), 0));
            assert(after@ =~= self.actors_union_below(state.todo_set(), 0));
        }
        while i < nb_scenes
            invariant
                i <= nb_scenes,
                before@ == self.actors_union_below(state.done_set(), i as int),
                after@ == self.actors_union_below(state.todo_set(), i as int),
            decreases nb_scenes - i,
        {
            if !state.maybe_scenes.contains(i) {
                if state.scenes.contains(i) {
                    after = after.union(self.actors[i]);
                } else {
                    before = before.union(self.actors[i]);
                }
            }
            proof {
                self.lemma_union_below_step(state.done_set(), i as int);
                self.lemma_union_below_step(state.todo_set(), i as int);
            }
            i = i + 1;
        }
        before.intersect(after)
    }

    /// Extending the scanned range by one scene adds its actors exactly when
    /// the scene is selected.
    proof fn lemma_union_below_step(self, sel: Set<int>, i: int)
        requires
            0 <= i,
        ensures
            sel.contains(i) ==> self.actors_union_below(sel, i + 1) == self.actors_union_below(
                sel,
                i,
            ).union(self.actors_of(i)),
            !sel.contains(i) ==> self.actors_union_below(sel, i + 1) == self.actors_union_below(
                sel,
                i,
            ),
    {
        let prev = self.actors_union_below(sel, i);
        let next = self.actors_union_below(sel, i + 1);
        assert forall|a: int| prev.contains(a) implies next.contains(a) by {
            let w = choose|w: int|
                0 <= w < i && sel.contains(w) && #[trigger] self.actors_of(w).contains(a);
            assert(0 <= w < i + 1 && sel.contains(w) && self.actors_of(w).contains(a));
        }
        if sel.contains(i) {
            assert forall|a: int| next.contains(a) implies prev.union(self.actors_of(i)).contains(
                a,
            ) by {
                let w = choose|w: int|
                    0 <= w < i + 1 && sel.contains(w) && #[trigger] self.actors_of(w).contains(a);
                if w < i {
                    assert(prev.contains(a));
                }
            }
            assert forall|a: int| self.actors_of(i).contains(a) implies next.contains(a) by {
                assert(0 <= i < i + 1 && sel.contains(i) && self.actors_of(i).contains(a));
            }
            assert(next =~= prev.union(self.actors_of(i)));
        } else {
            assert forall|a: int| next.contains(a) implies prev.contains(a) by {
                let w = choose|w: int|
                    0 <= w < i + 1 && sel.contains(w) && #[trigger] self.actors_of(w).contains(a);
                assert(w != i);
                assert(0 <= w < i && sel.contains(w) && self.actors_of(w).contains(a));
            }
            assert(next =~= prev);
        }
    }

    /// Negated cost of taking `decision` at `state`: nonpositive, and exactly
    /// the summed daily cost of the paying actors times the scene duration.
    pub fn transition_cost(&self, state: &TalentSchedState, decision: Decision) -> (r: isize)
        requires
            self.wf(),
            decision.value < self.instance.nb_scenes,
        ensures
            r == self.transition_cost_spec(*state, decision.value as int),
            r <= 0,
            r >= -(MAGNITUDE_LIMIT as isize),
    {
        let scene = decision.value;
        let present = self.get_present(state);
        let pay = present.union(self.actors[scene]);
        let d = self.instance.duration[scene];
        proof {
            lemma_sum_prefix_bounds(self.instance.duration@, self.instance.nb_scenes as int);
            lemma_sum_prefix_ge_elem(
                self.instance.duration@,
                self.instance.nb_scenes as int,
                scene as int,
            );
        }
        let mut cost: usize = 0;
        let mut a: usize = 0;
        while a < self.instance.nb_actors
            invariant
                a <= self.instance.nb_actors,
                pay@ == self.pay_set(*state, scene as int),
                d == self.instance.duration[scene as int],
                d <= self.instance.total_duration(),
                cost == set_cost_below(self.instance, pay@, a as int) * d,
                cost <= MAGNITUDE_LIMIT,
            decreases self.instance.nb_actors - a,
        {
            let ghost prev = set_cost_below(self.instance, pay@, a as int);
            if pay.contains(a) {
                let c = self.instance.cost[a];
                proof {
                    assert(set_cost_below(self.instance, pay@, a + 1) == prev + c);
                    lemma_set_cost_below_bounds(self.instance, pay@, a + 1);
                    lemma_sum_prefix_bounds(self.instance.cost@, a + 1);
                    assert(0 <= prev + c <= self.instance.total_cost());
                    assert((prev + c) * d <= self.instance.total_cost()
                        * self.instance.total_duration()) by (nonlinear_arith)
                        requires
                            0 <= prev + c <= self.instance.total_cost(),
                            0 <= d <= self.instance.total_duration(),
                    ;
                    assert((prev + c) * d == prev * d + c * d) by (nonlinear_arith);
                }
                cost = cost + c * d;
            }
            proof {
                assert(set_cost_below(self.instance, pay@, a + 1) == prev + if pay@.contains(
                    a as int,
                ) {
                    self.instance.cost[a as int] as int
                } else {
                    0
                });
            }
            a = a + 1;
        }
        -(cost as isize)
    }

    /// Cost of one day-set: the summed daily costs of the actors of `cast`
    /// times the duration of scene `s`.
    pub fn day_cost(&self, cast: BitSet64, s: usize) -> (r: usize)
        requires
            self.wf(),
            s < self.instance.nb_scenes,
        ensures
            r == self.set_cost(cast@) * self.instance.duration[s as int],
            r <= MAGNITUDE_LIMIT,
    {
        let d = self.instance.duration[s];
        proof {
            lemma_sum_prefix_bounds(self.instance.duration@, self.instance.nb_scenes as int);
            lemma_sum_prefix_ge_elem(
                self.instance.duration@,
                self.instance.nb_scenes as int,
                s as int,
            );
        }
        let mut cost: usize = 0;
        let mut a: usize = 0;
        while a < self.instance.nb_actors
            invariant
                a <= self.instance.nb_actors,
                d == self.instance.duration[s as int],
                d <= self.instance.total_duration(),
                cost == set_cost_below(self.instance, cast@, a as int) * d,
                cost <= MAGNITUDE_LIMIT,
            decreases self.instance.nb_actors - a,
        {
            let ghost prev = set_cost_below(self.instance, cast@, a as int);
            if cast.contains(a) {
                let c = self.instance.cost[a];
                proof {
                    assert(set_cost_below(self.instance, cast@, a + 1) == prev + c);
                    lemma_set_cost_below_bounds(self.instance, cast@, a + 1);
                    lemma_sum_prefix_bounds(self.instance.cost@, a + 1);
                    assert((prev + c) * d <= self.instance.total_cost()
                        * self.instance.total_duration()) by (nonlinear_arith)
                        requires
                            0 <= prev + c <= self.instance.total_cost(),
                            0 <= d <= self.instance.total_duration(),
                    ;
                    assert((prev + c) * d == prev * d + c * d) by (nonlinear_arith);
                }
                cost = cost + c * d;
            }
            proof {
                assert(set_cost_below(self.instance, cast@, a + 1) == prev + if cast@.contains(
                    a as int,
                ) {
                    self.instance.cost[a as int] as int
                } else {
                    0
                });
            }
            a = a + 1;
        }
        cost
    }

    /// The variable to branch on next is simply the depth, until all scenes
    /// are scheduled.
    pub fn next_variable(&self, depth: usize) -> (r: Option<usize>)
        ensures
            r == if depth < self.instance.nb_scenes {
                Some(depth)
            } else {
                None::<usize>
            },
    {
        if depth < self.instance.nb_scenes {
            Some(depth)
        } else {
            None
        }
    }

    /// The candidate values of variable `variable` at `state`: every certain
    /// scene, then — only if enough positions remain for all certain scenes
    /// — every uncertain one, each group in increasing scene order.
    pub fn domain(&self, variable: usize, state: &TalentSchedState) -> (r: Vec<usize>)
        requires
            self.wf(),
            variable < self.instance.nb_scenes,
            state.wf(self.instance.nb_scenes as int),
        ensures
            r@.map_values(|x: usize| x as int) == self.domain_spec(variable as int, *state),
    {
        let nb_scenes = self.instance.nb_scenes;
        let mut r: Vec<usize> = Vec::new();
        let mut i: usize = 0;
        proof {
            assert(r@.map_values(|x: usize| x as int) =~= members_seq_below(state.scenes@, 0));
        }
        while i < nb_scenes
            invariant
                i <= nb_scenes,
                r@.map_values(|x: usize| x as int) == members_seq_below(state.scenes@, i as int),
            decreases nb_scenes - i,
        {
            if state.scenes.contains(i) {
                r.push(i);
            }
            proof {
                assert(r@.map_values(|x: usize| x as int) =~= members_seq_below(
                    state.scenes@,
                    i + 1,
                ));
            }
            i = i + 1;
        }
        proof {
            lemma_members_seq_len(state.scenes@, nb_scenes as int);
            state.scenes.lemma_len();
        }
        if variable + r.len() < nb_scenes {
            let ghost certain = members_seq_below(state.scenes@, nb_scenes as int);
            proof {
                assert(r@.map_values(|x: usize| x as int) =~= certain + members_seq_below(
                    state.maybe_scenes@,
                    0,
                ));
            }
            let mut i: usize = 0;
            while i < nb_scenes
                invariant
                    i <= nb_scenes,
                    r@.map_values(|x: usize| x as int) == certain + members_seq_below(
                        state.maybe_scenes@,
                        i as int,
                    ),
                decreases nb_scenes - i,
            {
                if state.maybe_scenes.contains(i) {
                    r.push(i);
                    proof {
                        assert(members_seq_below(state.maybe_scenes@, i + 1) =~= members_seq_below(
                            state.maybe_scenes@,
                            i as int,
                        ).push(i as int));
                        assert(r@.map_values(|x: usize| x as int) =~= (certain + members_seq_below(
                            state.maybe_scenes@,
                            i as int,
                        )).push(i as int));
                        assert((certain + members_seq_below(state.maybe_scenes@, i as int)).push(
                            i as int,
                        ) =~= certain + members_seq_below(state.maybe_scenes@, i + 1));
                    }
                } else {
                    proof {
                        assert(r@.map_values(|x: usize| x as int) =~= certain + members_seq_below(
                            state.maybe_scenes@,
                            i + 1,
                        ));
                    }
                }
                i = i + 1;
            }
        }
        r
    }

    /// The candidate values: certain scenes, then uncertain ones only when
    /// the remaining positions exceed the certain count.
    pub open spec fn domain_spec(self, variable: int, st: TalentSchedState) -> Seq<int> {
        let nb_scenes = self.instance.nb_scenes as int;
        let certain = members_seq_below(st.scenes@, nb_scenes);
        if variable + certain.len() < nb_scenes {
            certain + members_seq_below(st.maybe_scenes@, nb_scenes)
        } else {
            certain
        }
    }
}

/// The members of `s` below `n`, in increasing order.
pub open spec fn members_seq_below(s: Set<int>, n: int) -> Seq<int>
    decreases n,
{
    if n <= 0 {
        Seq::empty()
    } else {
        members_seq_below(s, n - 1) + if s.contains(n - 1) {
            seq![n - 1]
        } else {
            Seq::<int>::empty()
        }
    }
}

/// There are as many listed members below `n` as the set has, when all its
/// members lie below `n`.
pub proof fn lemma_members_seq_len(s: Set<int>, n: int)
    requires
        0 <= n,
        forall|i: int| s.contains(i) ==> 0 <= i < n,
    ensures
        members_seq_below(s, n).len() == s.len(),
{
    lemma_members_seq_len_partial(s, n, n);
    assert(Set::new(|i: int| 0 <= i < n && s.contains(i)) =~= s);
}

proof fn lemma_members_seq_len_partial(s: Set<int>, n: int, m: int)
    requires
        0 <= m <= n,
        forall|i: int| s.contains(i) ==> 0 <= i < n,
    ensures
        members_seq_below(s, m).len() == Set::new(|i: int| 0 <= i < m && s.contains(i)).len(),
    decreases m,
{
    let below = Set::new(|i: int| 0 <= i < m && s.contains(i));
    if m == 0 {
        assert(below =~= Set::<int>::empty());
    } else {
        lemma_members_seq_len_partial(s, n, m - 1);
        let prev = Set::new(|i: int| 0 <= i < m - 1 && s.contains(i));
        assert(prev.finite()) by {
            let rng = vstd::set_lib::set_int_range(0, m - 1);
            vstd::set_lib::lemma_int_range(0, m - 1);
            assert(prev.subset_of(rng));
            vstd::set_lib::lemma_len_subset(prev, rng);
        }
        if s.contains(m - 1) {
            assert(below =~= prev.insert(m - 1));
        } else {
            assert(below =~= prev);
        }
    }
}

/// Bounds on the cost of an actor set: nonnegative, monotone in the set, and
/// at most the sum of all costs.
pub proof fn lemma_set_cost_below_bounds(inst: TalentSchedInstance, s: Set<int>, n: int)
    ensures
        0 <= set_cost_below(inst, s, n),
        set_cost_below(inst, s, n) <= sum_prefix(inst.cost@, n),
    decreases n,
{
    if n > 0 {
        lemma_set_cost_below_bounds(inst, s, n - 1);
    }
}

/// A subset's actors cost no more.
pub proof fn lemma_set_cost_below_mono(inst: TalentSchedInstance, s1: Set<int>, s2: Set<int>, n: int)
    requires
        s1.subset_of(s2),
    ensures
        set_cost_below(inst, s1, n) <= set_cost_below(inst, s2, n),
    decreases n,
{
    if n > 0 {
        lemma_set_cost_below_mono(inst, s1, s2, n - 1);
    }
}

/// A prefix sum of nonnegative entries is nonnegative and at most the total.
pub proof fn lemma_sum_prefix_bounds(s: Seq<usize>, n: int)
    requires
        n <= s.len(),
    ensures
        0 <= sum_prefix(s, n),
        sum_prefix(s, n) <= seq_sum(s),
    decreases s.len() - n,
{
    if n < 0 {
        lemma_sum_prefix_nonneg(s, 0);
        assert(sum_prefix(s, n) == 0);
        lemma_sum_prefix_bounds(s, 0);
    } else if n < s.len() {
        lemma_sum_prefix_nonneg(s, n);
        lemma_sum_prefix_bounds(s, n + 1);
    } else {
        lemma_sum_prefix_nonneg(s, n);
    }
}

proof fn lemma_sum_prefix_nonneg(s: Seq<usize>, n: int)
    ensures
        0 <= sum_prefix(s, n),
    decreases n,
{
    if n > 0 {
        lemma_sum_prefix_nonneg(s, n - 1);
    }
}

/// Each entry is at most the prefix sum that covers it.
pub proof fn lemma_sum_prefix_ge_elem(s: Seq<usize>, n: int, i: int)
    requires
        0 <= i < n <= s.len(),
    ensures
        s[i] <= sum_prefix(s, n),
    decreases n,
{
    if i == n - 1 {
        lemma_sum_prefix_nonneg(s, n - 1);
    } else {
        lemma_sum_prefix_ge_elem(s, n - 1, i);
    }
}

/// The ranking the driver uses to pick merge victims: a state with fewer
/// remaining scenes (certain plus uncertain) ranks better.
pub struct TalentSchedRanking;

/// The quantity the ranking compares.
pub open spec fn rank(st: TalentSchedState) -> int {
    st.scenes@.len() + st.maybe_scenes@.len() as int
}

impl TalentSchedRanking {
    /// Compares two states by their number of remaining scenes.
    pub fn compare(&self, a: &TalentSchedState, b: &TalentSchedState) -> (r: Ordering)
        ensures
            r == Ordering::Less <==> rank(*a) < rank(*b),
            r == Ordering::Equal <==> rank(*a) == rank(*b),
            r == Ordering::Greater <==> rank(*a) > rank(*b),
    {
        let ta = a.scenes.len() + a.maybe_scenes.len();
        let tb = b.scenes.len() + b.maybe_scenes.len();
        if ta < tb {
            Ordering::Less
        } else if ta == tb {
            Ordering::Equal
        } else {
            Ordering::Greater
        }
    }
}

/// The ranking is a total preorder, and antisymmetric with respect to the
/// compared quantity: states that rank equal have the same total number of
/// remaining scenes. On the pair of counts antisymmetry holds only when
/// the uncertain counts agree: states whose certain and uncertain counts
/// trade off, such as two certain scenes against one certain and one
/// uncertain, rank equal with different pairs.
pub proof fn lemma_ranking_total_preorder(
    a: TalentSchedState,
    b: TalentSchedState,
    c: TalentSchedState,
)
    ensures
        rank(a) <= rank(a),
        rank(a) <= rank(b) || rank(b) <= rank(a),
        rank(a) <= rank(b) && rank(b) <= rank(c) ==> rank(a) <= rank(c),
        rank(a) <= rank(b) && rank(b) <= rank(a) ==> rank(a) == rank(b),
        rank(a) == rank(b) && a.maybe_scenes@.len() == b.maybe_scenes@.len()
            ==> a.scenes@.len() == b.scenes@.len(),
{
}

/// A scene set after the first `k` decisions of `perm` removed their
/// scenes, as each transition removes the decided scene from both sets of
/// the state.
pub open spec fn set_after(start: Set<int>, perm: Seq<int>, k: int) -> Set<int>
    decreases k,
{
    if k <= 0 {
        start
    } else {
        set_after(start, perm, k - 1).remove(perm[k - 1])
    }
}

/// The scenes still unscheduled after the first `k` decisions of `perm`,
/// starting from all `n` scenes.
pub open spec fn remaining_after(n: int, perm: Seq<int>, k: int) -> Set<int>
    decreases k,
{
    if k <= 0 {
        range_set(n)
    } else {
        remaining_after(n, perm, k - 1).remove(perm[k - 1])
    }
}

/// A complete path of the exact diagram: as many decisions as scenes, each
/// picking a scene still unscheduled at its step.
pub open spec fn valid_schedule(n: int, perm: Seq<int>) -> bool {
    &&& perm.len() == n
    &&& forall|k: int| 0 <= k < n ==> remaining_after(n, perm, k).contains(#[trigger] perm[k])
}

impl TalentSched {
    /// The actors paying on the days of scene `v` when the scenes of
    /// `remaining` are still unscheduled and nothing is uncertain.
    pub open spec fn exact_pay_set(self, remaining: Set<int>, v: int) -> Set<int> {
        let n = self.instance.nb_scenes as int;
        let done = Set::new(|i: int| !remaining.contains(i));
        self.actors_union_below(done, n).intersect(self.actors_union_below(remaining, n)).union(
            self.actors_of(v),
        )
    }

    /// The transition cost along an exact path, phrased over the remaining
    /// scene set alone.
    pub open spec fn exact_transition_cost(self, remaining: Set<int>, v: int) -> int {
        -(self.set_cost(self.exact_pay_set(remaining, v)) * self.instance.duration[v])
    }
}

/// On a state without uncertain scenes, the transition cost is the exact
/// path cost of its remaining set.
pub proof fn lemma_exact_cost_matches(pb: TalentSched, st: TalentSchedState, v: int)
    requires
        st.maybe_scenes@ == Set::<int>::empty(),
    ensures
        pb.transition_cost_spec(st, v) == pb.exact_transition_cost(st.scenes@, v),
{
    assert(st.done_set() =~= Set::new(|i: int| !st.scenes@.contains(i)));
    assert(st.todo_set() =~= st.scenes@);
}

/// Sum of the transition costs of the first `k` decisions of `perm`.
pub open spec fn path_cost(pb: TalentSched, perm: Seq<int>, k: int) -> int
    decreases k,
{
    let n = pb.instance.nb_scenes as int;
    if k <= 0 {
        0
    } else {
        path_cost(pb, perm, k - 1) + pb.exact_transition_cost(
            remaining_after(n, perm, k - 1),
            perm[k - 1],
        )
    }
}

/// Actor `a` is on set on day `k` of the schedule `perm`: some scene at or
/// before position `k` requires them, and some scene at or after does.
pub open spec fn on_set(pb: TalentSched, perm: Seq<int>, a: int, k: int) -> bool {
    &&& exists|j: int| 0 <= j <= k && #[trigger] pb.actors_of(perm[j]).contains(a)
    &&& exists|j: int| k <= j < perm.len() && #[trigger] pb.actors_of(perm[j]).contains(a)
}

/// All actors on set on day `k` of `perm`.
pub open spec fn on_set_actors(pb: TalentSched, perm: Seq<int>, k: int) -> Set<int> {
    Set::new(|a: int| on_set(pb, perm, a, k))
}

/// The cost of the first `k` days of the schedule `perm`: every actor on
/// set pays their daily cost for each day of the scene shot that day. Over
/// a whole schedule this is the objective — each actor pays from their
/// first required scene to their last, inclusive.
pub open spec fn schedule_cost(pb: TalentSched, perm: Seq<int>, k: int) -> int
    decreases k,
{
    if k <= 0 {
        0
    } else {
        schedule_cost(pb, perm, k - 1) + pb.set_cost(on_set_actors(pb, perm, k - 1))
            * pb.instance.duration[perm[k - 1]]
    }
}

/// What remains after `k` steps: the scenes in range that none of the first
/// `k` decisions scheduled.
proof fn lemma_remaining_char(n: int, perm: Seq<int>, k: int)
    requires
        0 <= k,
    ensures
        forall|i: int|
            remaining_after(n, perm, k).contains(i) <==> (0 <= i < n && !exists|j: int|
                0 <= j < k && #[trigger] perm[j] == i),
    decreases k,
{
    if k > 0 {
        lemma_remaining_char(n, perm, k - 1);
        assert forall|i: int|
            remaining_after(n, perm, k).contains(i) <==> (0 <= i < n && !exists|j: int|
                0 <= j < k && #[trigger] perm[j] == i) by {
            if remaining_after(n, perm, k).contains(i) {
                assert(remaining_after(n, perm, k - 1).contains(i));
                assert(perm[k - 1] != i);
                assert(0 <= i < n);
                assert(!exists|j: int| 0 <= j < k && #[trigger] perm[j] == i) by {
                    if exists|j: int| 0 <= j < k && #[trigger] perm[j] == i {
                        let j = choose|j: int| 0 <= j < k && #[trigger] perm[j] == i;
                        if j < k - 1 {
                            assert(exists|j2: int| 0 <= j2 < k - 1 && #[trigger] perm[j2] == i);
                            assert(!remaining_after(n, perm, k - 1).contains(i));
                        }
                    }
                }
            } else if 0 <= i < n && !exists|j: int| 0 <= j < k && #[trigger] perm[j] == i {
                assert(!exists|j: int| 0 <= j < k - 1 && #[trigger] perm[j] == i) by {
                    if exists|j: int| 0 <= j < k - 1 && #[trigger] perm[j] == i {
                        let j = choose|j: int| 0 <= j < k - 1 && #[trigger] perm[j] == i;
                        assert(0 <= j < k && perm[j] == i);
                    }
                }
                assert(remaining_after(n, perm, k - 1).contains(i));
                assert(perm[k - 1] != i);
                assert(false);
            }
        }
    }
}

/// Each step of a valid schedule removes one scene: the remaining set is
/// finite with exactly `n - k` scenes, and later remainders are contained
/// in earlier ones.
proof fn lemma_remaining_len(n: int, perm: Seq<int>, k: int)
    requires
        valid_schedule(n, perm),
        0 <= k <= n,
    ensures
        remaining_after(n, perm, k).finite(),
        remaining_after(n, perm, k).len() == n - k,
    decreases k,
{
    if k == 0 {
        vstd::set_lib::lemma_int_range(0, n);
        assert(remaining_after(n, perm, 0) =~= vstd::set_lib::set_int_range(0, n));
    } else {
        lemma_remaining_len(n, perm, k - 1);
        assert(remaining_after(n, perm, k - 1).contains(perm[k - 1]));
    }
}

/// Later remainders are subsets of earlier ones.
proof fn lemma_remaining_mono(n: int, perm: Seq<int>, k1: int, k2: int)
    requires
        0 <= k1 <= k2,
    ensures
        remaining_after(n, perm, k2).subset_of(remaining_after(n, perm, k1)),
    decreases k2 - k1,
{
    if k1 < k2 {
        lemma_remaining_mono(n, perm, k1, k2 - 1);
    }
}

/// On day `k` of a valid schedule, the actors the diagram charges are
/// exactly the actors on set: arrived (required at or before `k`) and not
/// yet released (required at or after `k`).
proof fn lemma_pay_is_on_set(pb: TalentSched, perm: Seq<int>, k: int)
    requires
        pb.wf(),
        valid_schedule(pb.instance.nb_scenes as int, perm),
        0 <= k < pb.instance.nb_scenes,
    ensures
        pb.exact_pay_set(remaining_after(pb.instance.nb_scenes as int, perm, k), perm[k])
            == on_set_actors(pb, perm, k),
{
    let n = pb.instance.nb_scenes as int;
    let remaining = remaining_after(n, perm, k);
    let done = Set::new(|i: int| !remaining.contains(i));
    let pay = pb.exact_pay_set(remaining, perm[k]);
    lemma_remaining_char(n, perm, k);
    lemma_remaining_len(n, perm, n);
    assert(remaining_after(n, perm, n) =~= Set::<int>::empty()) by {
        if remaining_after(n, perm, n) != Set::<int>::empty() {
            assert(remaining_after(n, perm, n).len() == 0);
            if exists|i: int| remaining_after(n, perm, n).contains(i) {
                let i = choose|i: int| remaining_after(n, perm, n).contains(i);
                assert(remaining_after(n, perm, n).remove(i).len() == 0 - 1);
            }
            assert(remaining_after(n, perm, n) =~= Set::<int>::empty());
        }
    }
    lemma_remaining_char(n, perm, n);
    assert forall|a: int| pay.contains(a) implies on_set_actors(pb, perm, k).contains(a) by {
        if pb.actors_of(perm[k]).contains(a) {
            assert(0 <= k <= k && pb.actors_of(perm[k]).contains(a));
            assert(k <= k < perm.len() && pb.actors_of(perm[k]).contains(a));
        } else {
            let i1 = choose|i: int|
                0 <= i < n && done.contains(i) && #[trigger] pb.actors_of(i).contains(a);
            assert(!remaining.contains(i1));
            let j1 = choose|j: int| 0 <= j < k && #[trigger] perm[j] == i1;
            assert(0 <= j1 <= k && pb.actors_of(perm[j1]).contains(a));
            let i2 = choose|i: int|
                0 <= i < n && remaining.contains(i) && #[trigger] pb.actors_of(i).contains(a);
            assert(!(remaining_after(n, perm, n).contains(i2)));
            let j2 = choose|j: int| 0 <= j < n && #[trigger] perm[j] == i2;
            assert(!(exists|j: int| 0 <= j < k && #[trigger] perm[j] == i2));
            assert(j2 >= k);
            assert(k <= j2 < perm.len() && pb.actors_of(perm[j2]).contains(a));
        }
    }
    assert forall|a: int| on_set_actors(pb, perm, k).contains(a) implies pay.contains(a) by {
        let j1 = choose|j: int| 0 <= j <= k && #[trigger] pb.actors_of(perm[j]).contains(a);
        let j2 = choose|j: int| k <= j < perm.len() && #[trigger] pb.actors_of(perm[j]).contains(a);
        if j1 == k || j2 == k {
            assert(pb.actors_of(perm[k]).contains(a));
        } else {
            let i1 = perm[j1];
            assert(remaining_after(n, perm, j1 + 1).contains(i1) == false) by {
                lemma_remaining_char(n, perm, j1 + 1);
                assert(0 <= j1 < j1 + 1 && perm[j1] == i1);
            }
            lemma_remaining_mono(n, perm, j1 + 1, k);
            assert(!remaining.contains(i1));
            assert(0 <= i1 < n) by {
                assert(remaining_after(n, perm, j1).contains(i1));
                lemma_remaining_char(n, perm, j1);
            }
            assert(done.contains(i1) && pb.actors_of(i1).contains(a));
            assert(pb.actors_union_below(done, n).contains(a));
            let i2 = perm[j2];
            assert(remaining_after(n, perm, j2).contains(i2));
            lemma_remaining_mono(n, perm, k, j2);
            assert(remaining.contains(i2));
            assert(0 <= i2 < n) by {
                lemma_remaining_char(n, perm, j2);
            }
            assert(pb.actors_union_below(remaining, n).contains(a));
        }
    }
    assert(pay =~= on_set_actors(pb, perm, k));
}

/// Path accounting: along any complete path of the exact diagram, the
/// initial value plus the summed transition costs equals the negated total
/// schedule cost — each actor pays their daily cost on every day from
/// their first required scene to their last.
pub proof fn lemma_path_accounting(pb: TalentSched, perm: Seq<int>, k: int)
    requires
        pb.wf(),
        valid_schedule(pb.instance.nb_scenes as int, perm),
        0 <= k <= pb.instance.nb_scenes,
    ensures
        path_cost(pb, perm, k) == -schedule_cost(pb, perm, k),
    decreases k,
{
    let n = pb.instance.nb_scenes as int;
    if k > 0 {
        lemma_path_accounting(pb, perm, k - 1);
        lemma_pay_is_on_set(pb, perm, k - 1);
    }
}

/// Reachability invariant: from any well-formed state — the initial state,
/// or a state a merge produced — any sequence of transitions leads only to
/// states whose certain and uncertain scene sets are still disjoint and in
/// range, since each transition removes the decided scene from both sets.
pub proof fn lemma_reachable_states_wf(n: int, st: TalentSchedState, perm: Seq<int>, k: int)
    requires
        st.wf(n),
        0 <= k,
    ensures
        set_after(st.scenes@, perm, k).disjoint(set_after(st.maybe_scenes@, perm, k)),
        forall|i: int| set_after(st.scenes@, perm, k).contains(i) ==> 0 <= i < n,
        forall|i: int| set_after(st.maybe_scenes@, perm, k).contains(i) ==> 0 <= i < n,
    decreases k,
{
    if k > 0 {
        lemma_reachable_states_wf(n, st, perm, k - 1);
        assert forall|i: int|
            set_after(st.scenes@, perm, k).contains(i) && set_after(
                st.maybe_scenes@,
                perm,
                k,
            ).contains(i) implies false by {
            assert(set_after(st.scenes@, perm, k - 1).contains(i));
            assert(set_after(st.maybe_scenes@, perm, k - 1).contains(i));
        }
    } else {
        assert(st.scenes@.disjoint(st.maybe_scenes@));
    }
}

} // verus!
