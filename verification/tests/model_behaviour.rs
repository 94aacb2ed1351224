use std::cmp::Ordering;

use talentsched::instance::{InstanceError, TalentSchedInstance};
use talentsched::model::{Decision, TalentSched, TalentSchedRanking, TalentSchedState};

fn instance_s3() -> TalentSchedInstance {
    TalentSchedInstance {
        nb_scenes: 3,
        nb_actors: 1,
        cost: vec![2],
        duration: vec![1, 1, 1],
        actors: vec![vec![1, 0, 1]],
    }
}

fn instance_s2() -> TalentSchedInstance {
    TalentSchedInstance {
        nb_scenes: 4,
        nb_actors: 2,
        cost: vec![10, 1],
        duration: vec![1, 1, 1, 1],
        actors: vec![vec![1, 0, 0, 1], vec![0, 1, 1, 0]],
    }
}

#[test]
fn validate_accepts_well_formed_instances() {
    assert!(instance_s3().validate().is_ok());
    assert!(instance_s2().validate().is_ok());
}

#[test]
fn validate_rejects_each_defect() {
    let mut inst = instance_s3();
    inst.nb_scenes = 65;
    assert_eq!(inst.validate(), Err(InstanceError::TooManyScenes));

    let mut inst = instance_s3();
    inst.nb_actors = 65;
    assert_eq!(inst.validate(), Err(InstanceError::TooManyActors));

    let mut inst = instance_s3();
    inst.cost = vec![2, 3];
    assert_eq!(inst.validate(), Err(InstanceError::CostLength));

    let mut inst = instance_s3();
    inst.duration = vec![1, 1];
    assert_eq!(inst.validate(), Err(InstanceError::DurationLength));

    let mut inst = instance_s3();
    inst.actors = vec![];
    assert_eq!(inst.validate(), Err(InstanceError::ActorsLength));

    let mut inst = instance_s3();
    inst.actors = vec![vec![1, 0]];
    assert_eq!(inst.validate(), Err(InstanceError::ActorsRowLength));

    let mut inst = instance_s3();
    inst.duration = vec![1, 0, 1];
    assert_eq!(inst.validate(), Err(InstanceError::ZeroDuration));

    let mut inst = instance_s3();
    inst.actors = vec![vec![1, 2, 1]];
    assert_eq!(inst.validate(), Err(InstanceError::BadRequirement));

    let mut inst = instance_s3();
    inst.cost = vec![0x4000_0000];
    assert_eq!(inst.validate(), Err(InstanceError::TooLarge));
}

#[test]
fn initial_state_holds_every_scene() {
    let pb = TalentSched::new(instance_s3());
    let s0 = pb.initial_state();
    assert!(s0.scenes.contains(0) && s0.scenes.contains(1) && s0.scenes.contains(2));
    assert!(!s0.scenes.contains(3));
    assert!(s0.maybe_scenes.is_empty());
    assert_eq!(pb.initial_value(), 0);
    assert_eq!(pb.nb_variables(), 3);
}

#[test]
fn next_variable_is_the_depth() {
    let pb = TalentSched::new(instance_s3());
    assert_eq!(pb.next_variable(0), Some(0));
    assert_eq!(pb.next_variable(2), Some(2));
    assert_eq!(pb.next_variable(3), None);
}

#[test]
fn transition_removes_the_scene_and_keeps_disjointness() {
    let pb = TalentSched::new(instance_s3());
    let s0 = pb.initial_state();
    let s1 = pb.transition(&s0, Decision { variable: 0, value: 1 });
    assert!(!s1.scenes.contains(1));
    assert!(s1.scenes.contains(0) && s1.scenes.contains(2));
    // The invariant of every reachable state: the two sets never overlap.
    assert!(s1.scenes.intersect(s1.maybe_scenes).is_empty());
    let s2 = pb.transition(&s1, Decision { variable: 1, value: 0 });
    assert!(s2.scenes.intersect(s2.maybe_scenes).is_empty());
}

#[test]
fn present_actors_need_a_past_and_a_future_scene() {
    let pb = TalentSched::new(instance_s3());
    let s0 = pb.initial_state();
    // Nothing is shot yet: nobody has arrived.
    assert!(pb.get_present(&s0).is_empty());
    // Scene 0 shot: its actor has arrived and scene 2 still needs them.
    let s1 = pb.transition(&s0, Decision { variable: 0, value: 0 });
    let present = pb.get_present(&s1);
    assert!(present.contains(0));
    // Scenes 0 and 2 shot: the actor is released.
    let s2 = pb.transition(&s1, Decision { variable: 1, value: 2 });
    assert!(pb.get_present(&s2).is_empty());
}

#[test]
fn transition_cost_charges_required_and_held_actors() {
    let pb = TalentSched::new(instance_s3());
    let s0 = pb.initial_state();
    // First scene: only its own cast pays. Scene 1 needs nobody.
    assert_eq!(pb.transition_cost(&s0, Decision { variable: 0, value: 0 }), -2);
    assert_eq!(pb.transition_cost(&s0, Decision { variable: 0, value: 1 }), 0);
    // After scene 0, shooting scene 1 holds the arrived actor: cost 2.
    let s1 = pb.transition(&s0, Decision { variable: 0, value: 0 });
    assert_eq!(pb.transition_cost(&s1, Decision { variable: 1, value: 1 }), -2);
    assert_eq!(pb.transition_cost(&s1, Decision { variable: 1, value: 2 }), -2);
}

#[test]
fn transition_cost_is_never_positive() {
    let pb = TalentSched::new(instance_s2());
    let s0 = pb.initial_state();
    for v in 0..4 {
        assert!(pb.transition_cost(&s0, Decision { variable: 0, value: v }) <= 0);
    }
    let s1 = pb.transition(&s0, Decision { variable: 0, value: 0 });
    for v in 1..4 {
        assert!(pb.transition_cost(&s1, Decision { variable: 1, value: v }) <= 0);
    }
}

#[test]
fn domain_lists_certain_then_uncertain_scenes() {
    let pb = TalentSched::new(instance_s3());
    let s0 = pb.initial_state();
    assert_eq!(pb.domain(0, &s0), vec![0, 1, 2]);
    // A merged state: scene 0 certain, scenes 1 and 2 uncertain. At depth 0
    // two more positions remain after the certain scene, so the uncertain
    // scenes are offered too; at depth 2 they are not.
    let merged = TalentSchedState {
        scenes: talentsched::bitset::BitSet64::empty().insert(0),
        maybe_scenes: talentsched::bitset::BitSet64::empty().insert(1).insert(2),
    };
    assert_eq!(pb.domain(0, &merged), vec![0, 1, 2]);
    assert_eq!(pb.domain(2, &merged), vec![0]);
}

#[test]
fn ranking_compares_remaining_scene_counts() {
    let ranking = TalentSchedRanking;
    let small = TalentSchedState {
        scenes: talentsched::bitset::BitSet64::empty().insert(0),
        maybe_scenes: talentsched::bitset::BitSet64::empty(),
    };
    let large = TalentSchedState {
        scenes: talentsched::bitset::BitSet64::empty().insert(1).insert(2),
        maybe_scenes: talentsched::bitset::BitSet64::empty().insert(3),
    };
    let other = TalentSchedState {
        scenes: talentsched::bitset::BitSet64::empty(),
        maybe_scenes: talentsched::bitset::BitSet64::empty().insert(5),
    };
    assert_eq!(ranking.compare(&small, &large), Ordering::Less);
    assert_eq!(ranking.compare(&large, &small), Ordering::Greater);
    assert_eq!(ranking.compare(&small, &other), Ordering::Equal);
    // The preorder is total: equal ranks need not mean equal states.
    assert_ne!(small, other);
}
