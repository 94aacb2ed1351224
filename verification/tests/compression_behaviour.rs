use talentsched::bitset::BitSet64;
use talentsched::compression::TalentSchedCompression;
use talentsched::instance::TalentSchedInstance;
use talentsched::model::{Decision, TalentSched, TalentSchedState};

/// Six scenes in two families of identical requirement rows.
fn instance_s4() -> TalentSchedInstance {
    TalentSchedInstance {
        nb_scenes: 6,
        nb_actors: 2,
        cost: vec![2, 3],
        duration: vec![1, 1, 1, 1, 1, 1],
        actors: vec![vec![1, 1, 1, 0, 0, 0], vec![0, 0, 0, 1, 1, 1]],
    }
}

fn state(scenes: &[usize], maybe: &[usize]) -> TalentSchedState {
    let mut s = BitSet64::empty();
    for &i in scenes {
        s = s.insert(i);
    }
    let mut m = BitSet64::empty();
    for &i in maybe {
        m = m.insert(i);
    }
    TalentSchedState { scenes: s, maybe_scenes: m }
}

#[test]
fn clustering_groups_identical_rows() {
    let pb = TalentSched::new(instance_s4());
    let membership = TalentSchedCompression::cluster_scenes(&pb, 2);
    assert_eq!(membership.len(), 6);
    // Scenes 0..3 share a row and 3..6 share the other: two clusters, each
    // holding one family.
    assert_eq!(membership[0], membership[1]);
    assert_eq!(membership[1], membership[2]);
    assert_eq!(membership[3], membership[4]);
    assert_eq!(membership[4], membership[5]);
    assert_ne!(membership[0], membership[3]);
}

#[test]
fn meta_problem_contracts_durations_and_requirements() {
    let pb = TalentSched::new(instance_s4());
    let compression = TalentSchedCompression::new(pb, 2);
    let meta = compression.get_compressed_problem();
    assert_eq!(meta.instance.nb_scenes, 2);
    assert_eq!(meta.instance.nb_actors, 2);
    assert_eq!(meta.instance.cost, vec![2, 3]);
    // Each cluster of three one-day scenes lasts three days.
    assert_eq!(meta.instance.duration, vec![3, 3]);
    // Each cluster requires exactly the actor all its scenes require.
    let c0 = compression.membership[0];
    let c3 = compression.membership[3];
    assert_eq!(meta.instance.actors[0][c0], 1);
    assert_eq!(meta.instance.actors[0][c3], 0);
    assert_eq!(meta.instance.actors[1][c0], 0);
    assert_eq!(meta.instance.actors[1][c3], 1);
    assert_eq!(compression.size, vec![3, 3]);
}

#[test]
fn compress_keeps_whole_clusters() {
    let pb = TalentSched::new(instance_s4());
    let compression = TalentSchedCompression::new(pb, 2);
    let c0 = compression.membership[0];
    let c3 = compression.membership[3];
    // All six scenes remain: both clusters are whole.
    let full = state(&[0, 1, 2, 3, 4, 5], &[]);
    let tau = compression.compress(&full);
    assert!(tau.scenes.contains(c0) && tau.scenes.contains(c3));
    assert!(tau.maybe_scenes.is_empty());
    // One whole cluster gone: the other compresses alone.
    let half = state(&[3, 4, 5], &[]);
    let tau = compression.compress(&half);
    assert!(!tau.scenes.contains(c0) && tau.scenes.contains(c3));
    // A split cluster has no faithful compression.
    let split = state(&[0, 3, 4, 5], &[]);
    let tau = compression.compress(&split);
    assert!(tau.scenes.is_empty() && tau.maybe_scenes.is_empty());
    // Uncertainty blocks compression outright.
    let uncertain = state(&[0, 1, 2], &[3]);
    let tau = compression.compress(&uncertain);
    assert!(tau.scenes.is_empty() && tau.maybe_scenes.is_empty());
}

#[test]
fn decompress_expands_each_cluster_to_its_size() {
    let pb = TalentSched::new(instance_s4());
    let compression = TalentSchedCompression::new(pb, 2);
    // A meta solution of length two: first cluster 1, then cluster 0.
    let meta_solution = vec![
        Decision { variable: 0, value: 1 },
        Decision { variable: 1, value: 0 },
    ];
    let expanded = compression.decompress(&meta_solution);
    // Round trip: one decision per original scene, each cluster occurring
    // once per member scene, variables renumbered consecutively.
    assert_eq!(expanded.len(), 6);
    let values: Vec<usize> = expanded.iter().map(|d| d.value).collect();
    assert_eq!(values, vec![1, 1, 1, 0, 0, 0]);
    for (m, d) in expanded.iter().enumerate() {
        assert_eq!(d.variable, m);
    }
    assert_eq!(values.iter().filter(|&&v| v == 0).count(), 3);
    assert_eq!(values.iter().filter(|&&v| v == 1).count(), 3);
}

#[test]
fn decompress_renumbers_partial_solutions_to_the_end() {
    let pb = TalentSched::new(instance_s4());
    let compression = TalentSchedCompression::new(pb, 2);
    let meta_solution = vec![Decision { variable: 1, value: 0 }];
    let expanded = compression.decompress(&meta_solution);
    assert_eq!(expanded.len(), 3);
    // Three decisions filling the last three positions.
    for (m, d) in expanded.iter().enumerate() {
        assert_eq!(d.variable, 3 + m);
        assert_eq!(d.value, 0);
    }
}

#[test]
fn clustering_breaks_ties_toward_the_first_pair() {
    // Three identical scenes: every merge loses nothing, so the scan order
    // decides. The first pair merges first, leaving {0,1} and {2}.
    let inst = TalentSchedInstance {
        nb_scenes: 3,
        nb_actors: 1,
        cost: vec![5],
        duration: vec![1, 1, 1],
        actors: vec![vec![1, 1, 1]],
    };
    let pb = TalentSched::new(inst);
    let membership = TalentSchedCompression::cluster_scenes(&pb, 2);
    assert_eq!(membership, vec![0, 0, 1]);
}

#[test]
fn clustering_merges_the_cheapest_pair() {
    // Scenes 0 and 1 share their cast; scene 2 needs the expensive actor.
    // Merging 0 and 1 forgets nothing, any other merge forgets actor-days.
    let inst = TalentSchedInstance {
        nb_scenes: 3,
        nb_actors: 2,
        cost: vec![1, 50],
        duration: vec![1, 1, 1],
        actors: vec![vec![1, 1, 0], vec![0, 0, 1]],
    };
    let pb = TalentSched::new(inst);
    let membership = TalentSchedCompression::cluster_scenes(&pb, 2);
    assert_eq!(membership[0], membership[1]);
    assert_ne!(membership[0], membership[2]);
}

#[test]
fn candidate_ordering_follows_the_meta_solution() {
    let pb = TalentSched::new(instance_s4());
    let compression = TalentSchedCompression::new(pb, 2);
    let c0 = compression.membership[0];
    let c3 = compression.membership[3];
    let domain: Vec<usize> = vec![0, 1, 2, 3, 4, 5];
    // The meta solution schedules the {3,4,5} family first.
    let ordered = compression.order_candidates(&domain, &vec![c3, c0]);
    assert_eq!(ordered, vec![3, 4, 5, 0, 1, 2]);
    // A repeated cluster is taken at its first appearance only.
    let ordered = compression.order_candidates(&domain, &vec![c3, c3, c0]);
    assert_eq!(ordered, vec![3, 4, 5, 0, 1, 2]);
}

#[test]
fn candidates_outside_the_meta_solution_trail_in_domain_order() {
    let pb = TalentSched::new(instance_s4());
    let compression = TalentSchedCompression::new(pb, 2);
    let c3 = compression.membership[3];
    let domain: Vec<usize> = vec![0, 2, 4, 5];
    let ordered = compression.order_candidates(&domain, &vec![c3]);
    assert_eq!(ordered, vec![4, 5, 0, 2]);
}
