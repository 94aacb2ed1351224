//! End-to-end runs through the decision diagram driver: the library's model,
//! relaxation and ranking plugged into the branch-and-bound search.

use std::time::Duration;

use ddo::{
    Completion, Cutoff, DecisionCallback, EmptyDominanceChecker, FixedWidth, MaxUB, NoCutoff,
    NoDupFringe, Problem, Relaxation, SeqCachingSolverLel, Solver, StateRanking, TimeBudget,
    Variable,
};

use talentsched::instance::TalentSchedInstance;
use talentsched::model::{TalentSched, TalentSchedRanking, TalentSchedState};
use talentsched::relaxation::TalentSchedRelax;

struct DriverProblem {
    pb: TalentSched,
}

impl Problem for DriverProblem {
    type State = TalentSchedState;

    fn nb_variables(&self) -> usize {
        self.pb.nb_variables()
    }

    fn initial_state(&self) -> TalentSchedState {
        self.pb.initial_state()
    }

    fn initial_value(&self) -> isize {
        self.pb.initial_value()
    }

    fn transition(&self, state: &TalentSchedState, decision: ddo::Decision) -> TalentSchedState {
        self.pb.transition(
            state,
            talentsched::model::Decision {
                variable: decision.variable.id(),
                value: decision.value as usize,
            },
        )
    }

    fn transition_cost(
        &self,
        source: &TalentSchedState,
        _dest: &TalentSchedState,
        decision: ddo::Decision,
    ) -> isize {
        self.pb.transition_cost(
            source,
            talentsched::model::Decision {
                variable: decision.variable.id(),
                value: decision.value as usize,
            },
        )
    }

    fn next_variable(
        &self,
        depth: usize,
        _next_layer: &mut dyn Iterator<Item = &TalentSchedState>,
    ) -> Option<Variable> {
        self.pb.next_variable(depth).map(Variable)
    }

    fn for_each_in_domain(
        &self,
        var: Variable,
        state: &TalentSchedState,
        f: &mut dyn DecisionCallback,
    ) {
        for value in self.pb.domain(var.id(), state) {
            f.apply(ddo::Decision { variable: var, value: value as isize });
        }
    }
}

struct DriverRelaxation {
    relax: TalentSchedRelax,
}

impl Relaxation for DriverRelaxation {
    type State = TalentSchedState;

    fn merge(&self, states: &mut dyn Iterator<Item = &TalentSchedState>) -> TalentSchedState {
        let collected: Vec<TalentSchedState> = states.copied().collect();
        self.relax.merge(&collected)
    }

    fn relax(
        &self,
        source: &TalentSchedState,
        dest: &TalentSchedState,
        new: &TalentSchedState,
        decision: ddo::Decision,
        cost: isize,
    ) -> isize {
        self.relax.relax(
            source,
            dest,
            new,
            talentsched::model::Decision {
                variable: decision.variable.id(),
                value: decision.value as usize,
            },
            cost,
        )
    }

    fn fast_upper_bound(&self, state: &TalentSchedState) -> isize {
        -(self.relax.forced_future_cost(state) as isize)
    }
}

struct DriverRanking {
    ranking: TalentSchedRanking,
}

impl StateRanking for DriverRanking {
    type State = TalentSchedState;

    fn compare(&self, a: &TalentSchedState, b: &TalentSchedState) -> std::cmp::Ordering {
        self.ranking.compare(a, b)
    }
}

fn solve(instance: TalentSchedInstance, width: usize, cutoff: &dyn Cutoff) -> (Completion, isize) {
    let problem = DriverProblem { pb: TalentSched::new(instance) };
    let relaxation = DriverRelaxation { relax: TalentSchedRelax::new(problem.pb.clone()) };
    let ranking = DriverRanking { ranking: TalentSchedRanking };
    let width_heu = FixedWidth(width);
    let dominance = EmptyDominanceChecker::default();
    let mut fringe = NoDupFringe::new(MaxUB::new(&ranking));
    let mut solver = SeqCachingSolverLel::new(
        &problem,
        &relaxation,
        &ranking,
        &width_heu,
        &dominance,
        cutoff,
        &mut fringe,
    );
    let completion = solver.maximize();
    let bound = solver.best_upper_bound();
    (completion, bound)
}

#[test]
fn driver_finds_the_single_actor_optimum() {
    let inst = TalentSchedInstance {
        nb_scenes: 3,
        nb_actors: 1,
        cost: vec![5],
        duration: vec![1, 1, 1],
        actors: vec![vec![1, 1, 1]],
    };
    let (completion, _) = solve(inst, 100, &NoCutoff);
    assert!(completion.is_exact);
    assert_eq!(completion.best_value.map(|v| -v), Some(15));
}

#[test]
fn driver_avoids_the_interleave_penalty() {
    let inst = TalentSchedInstance {
        nb_scenes: 4,
        nb_actors: 2,
        cost: vec![10, 1],
        duration: vec![1, 1, 1, 1],
        actors: vec![vec![1, 0, 0, 1], vec![0, 1, 1, 0]],
    };
    let (completion, _) = solve(inst, 100, &NoCutoff);
    assert!(completion.is_exact);
    assert_eq!(completion.best_value.map(|v| -v), Some(22));
}

#[test]
fn driver_pays_the_forced_holding() {
    // The free scene sits at an end: two working days for the actor.
    let inst = TalentSchedInstance {
        nb_scenes: 3,
        nb_actors: 1,
        cost: vec![2],
        duration: vec![1, 1, 1],
        actors: vec![vec![1, 0, 1]],
    };
    let (completion, _) = solve(inst, 100, &NoCutoff);
    assert!(completion.is_exact);
    assert_eq!(completion.best_value.map(|v| -v), Some(4));
}

#[test]
fn exhausted_budget_reports_inexact_with_a_valid_bound() {
    // Twelve scenes, narrow layers, and no time at all: the solver must
    // admit inexactness, and its bound must stay above any value it found.
    let inst = TalentSchedInstance {
        nb_scenes: 12,
        nb_actors: 4,
        cost: vec![7, 3, 11, 2],
        duration: vec![1, 2, 1, 3, 1, 2, 2, 1, 1, 2, 1, 1],
        actors: vec![
            vec![1, 0, 1, 0, 1, 0, 1, 0, 1, 0, 1, 0],
            vec![0, 1, 0, 1, 0, 1, 0, 1, 0, 1, 0, 1],
            vec![1, 1, 0, 0, 1, 1, 0, 0, 1, 1, 0, 0],
            vec![0, 0, 1, 1, 0, 0, 1, 1, 0, 0, 1, 1],
        ],
    };
    let budget = TimeBudget::new(Duration::from_millis(0));
    let (completion, bound) = solve(inst, 2, &budget);
    assert!(!completion.is_exact);
    if let Some(value) = completion.best_value {
        assert!(bound >= value);
    }
}
