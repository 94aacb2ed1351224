use talentsched::bitset::BitSet64;
use talentsched::instance::TalentSchedInstance;
use talentsched::model::{Decision, TalentSched, TalentSchedState};
use talentsched::relaxation::TalentSchedRelax;

fn instance_s2() -> TalentSchedInstance {
    TalentSchedInstance {
        nb_scenes: 4,
        nb_actors: 2,
        cost: vec![10, 1],
        duration: vec![1, 1, 1, 1],
        actors: vec![vec![1, 0, 0, 1], vec![0, 1, 1, 0]],
    }
}

fn state(scenes: &[usize], maybe: &[usize]) -> TalentSchedState {
    let mut s = BitSet64::empty();
    for &i in scenes {
        s = s.insert(i);
    }
    let mut m = BitSet64::empty();
    for &i in maybe {
        m = m.insert(i);
    }
    TalentSchedState { scenes: s, maybe_scenes: m }
}

#[test]
fn merge_keeps_common_scenes_certain() {
    let pb = TalentSched::new(instance_s2());
    let relax = TalentSchedRelax::new(pb);
    // Two states as they arise after scheduling scene 0 or scene 1 first.
    let a = state(&[1, 2, 3], &[]);
    let b = state(&[0, 2, 3], &[]);
    let merged = relax.merge(&vec![a, b]);
    // Scenes 2 and 3 stay certain; 0 and 1 become uncertain.
    assert!(merged.scenes.contains(2) && merged.scenes.contains(3));
    assert!(!merged.scenes.contains(0) && !merged.scenes.contains(1));
    assert!(merged.maybe_scenes.contains(0) && merged.maybe_scenes.contains(1));
    assert!(merged.scenes.intersect(merged.maybe_scenes).is_empty());
}

#[test]
fn merge_folds_existing_uncertainty() {
    let pb = TalentSched::new(instance_s2());
    let relax = TalentSchedRelax::new(pb);
    let a = state(&[2], &[0, 1]);
    let b = state(&[2, 3], &[]);
    let merged = relax.merge(&vec![a, b]);
    assert!(merged.scenes.contains(2) && !merged.scenes.contains(3));
    assert!(merged.maybe_scenes.contains(0));
    assert!(merged.maybe_scenes.contains(1));
    assert!(merged.maybe_scenes.contains(3));
}

#[test]
fn relax_returns_the_cost_unchanged() {
    let pb = TalentSched::new(instance_s2());
    let relax = TalentSchedRelax::new(pb);
    let a = state(&[1, 2, 3], &[]);
    let b = state(&[0, 2, 3], &[]);
    let m = state(&[2, 3], &[0, 1]);
    let d = Decision { variable: 1, value: 2 };
    assert_eq!(relax.relax(&a, &b, &m, d, -7), -7);
    assert_eq!(relax.relax(&a, &b, &m, d, 0), 0);
}

#[test]
fn merged_state_never_costs_more() {
    // Relaxation soundness on concrete states: a decision valid at both
    // branches costs at least as much (negated) at the merged state.
    let pb = TalentSched::new(instance_s2());
    let relax = TalentSchedRelax::new(pb.clone());
    let a = state(&[1, 2, 3], &[]);
    let b = state(&[0, 2, 3], &[]);
    let merged = relax.merge(&vec![a, b]);
    for v in [2usize, 3usize] {
        let d = Decision { variable: 1, value: v };
        let cm = pb.transition_cost(&merged, d);
        let ca = pb.transition_cost(&a, d);
        let cb = pb.transition_cost(&b, d);
        assert!(cm >= ca);
        assert!(cm >= cb);
    }
}

#[test]
fn forced_future_cost_charges_each_remaining_cast() {
    let pb = TalentSched::new(instance_s2());
    let relax = TalentSchedRelax::new(pb.clone());
    let s0 = pb.initial_state();
    // Every scene has a one-actor cast of one day: 10 + 1 + 1 + 10.
    assert_eq!(relax.forced_future_cost(&s0), 22);
    let s1 = pb.transition(&s0, Decision { variable: 0, value: 0 });
    assert_eq!(relax.forced_future_cost(&s1), 12);
    let empty = state(&[], &[]);
    assert_eq!(relax.forced_future_cost(&empty), 0);
}
