use talentsched::compression::TalentSchedCompression;
use talentsched::instance::TalentSchedInstance;
use talentsched::model::{Decision, TalentSched};

/// The (positive) cost of shooting the scenes in the given order, as the
/// diagram accounts it: the negated sum of the transition costs of the path.
fn schedule_cost(pb: &TalentSched, order: &[usize]) -> isize {
    let mut state = pb.initial_state();
    let mut total = pb.initial_value();
    for (depth, &scene) in order.iter().enumerate() {
        let d = Decision { variable: depth, value: scene };
        total += pb.transition_cost(&state, d);
        state = pb.transition(&state, d);
    }
    -total
}

fn permutations(n: usize) -> Vec<Vec<usize>> {
    let mut result = vec![];
    let mut items: Vec<usize> = (0..n).collect();
    permute(&mut items, 0, &mut result);
    result
}

fn permute(items: &mut Vec<usize>, k: usize, out: &mut Vec<Vec<usize>>) {
    if k == items.len() {
        out.push(items.clone());
        return;
    }
    for i in k..items.len() {
        items.swap(k, i);
        permute(items, k + 1, out);
        items.swap(k, i);
    }
}

fn best_cost(pb: &TalentSched) -> isize {
    permutations(pb.instance.nb_scenes)
        .iter()
        .map(|p| schedule_cost(pb, p))
        .min()
        .unwrap()
}

#[test]
fn single_actor_independent_scenes() {
    // One actor in all three one-day scenes: any order costs 3 days times 5.
    let inst = TalentSchedInstance {
        nb_scenes: 3,
        nb_actors: 1,
        cost: vec![5],
        duration: vec![1, 1, 1],
        actors: vec![vec![1, 1, 1]],
    };
    let pb = TalentSched::new(inst);
    for p in permutations(3) {
        assert_eq!(schedule_cost(&pb, &p), 15);
    }
    assert_eq!(best_cost(&pb), 15);
}

#[test]
fn classic_interleave_penalty() {
    // Keeping each actor's two scenes adjacent avoids all holding: the best
    // schedules pay only the forced 22 actor-days, zero holding on top.
    let inst = TalentSchedInstance {
        nb_scenes: 4,
        nb_actors: 2,
        cost: vec![10, 1],
        duration: vec![1, 1, 1, 1],
        actors: vec![vec![1, 0, 0, 1], vec![0, 1, 1, 0]],
    };
    let pb = TalentSched::new(inst);
    let forced = 22;
    assert_eq!(best_cost(&pb), forced);
    assert_eq!(schedule_cost(&pb, &[0, 3, 1, 2]), forced);
    assert_eq!(schedule_cost(&pb, &[3, 0, 2, 1]), forced);
    // Fully interleaving actor 0's scenes holds them two extra days.
    assert_eq!(schedule_cost(&pb, &[0, 1, 2, 3]), forced + 20);
}

#[test]
fn forced_holding() {
    // Scene 1 needs nobody. With it at an end the actor works two adjacent
    // days: 4. Putting it between the actor's scenes holds them one extra
    // day at cost 2: 6, the worst ordering.
    let inst = TalentSchedInstance {
        nb_scenes: 3,
        nb_actors: 1,
        cost: vec![2],
        duration: vec![1, 1, 1],
        actors: vec![vec![1, 0, 1]],
    };
    let pb = TalentSched::new(inst);
    assert_eq!(best_cost(&pb), 4);
    assert_eq!(schedule_cost(&pb, &[1, 0, 2]), 4);
    assert_eq!(schedule_cost(&pb, &[0, 2, 1]), 4);
    assert_eq!(schedule_cost(&pb, &[0, 1, 2]), 6);
    let worst = permutations(3)
        .iter()
        .map(|p| schedule_cost(&pb, p))
        .max()
        .unwrap();
    assert_eq!(worst, 6);
}

#[test]
fn compression_agreement() {
    // Two families of three identical scenes: with two clusters, both meta
    // orderings cost the brute-force optimum of the original problem.
    let inst = TalentSchedInstance {
        nb_scenes: 6,
        nb_actors: 2,
        cost: vec![2, 3],
        duration: vec![1, 1, 1, 1, 1, 1],
        actors: vec![vec![1, 1, 1, 0, 0, 0], vec![0, 0, 0, 1, 1, 1]],
    };
    let pb = TalentSched::new(inst);
    let original_best = best_cost(&pb);
    let compression = TalentSchedCompression::new(pb, 2);
    let meta = compression.get_compressed_problem();
    let meta_best = best_cost(meta);
    assert_eq!(meta_best, original_best);
    // Both meta orderings agree.
    assert_eq!(schedule_cost(meta, &[0, 1]), meta_best);
    assert_eq!(schedule_cost(meta, &[1, 0]), meta_best);
    // And a decompressed meta solution, expanded to scenes cluster by
    // cluster, reaches the same cost on the original problem.
    let pb = compression.problem.clone();
    let mut order = vec![];
    for c in [0usize, 1usize] {
        for i in 0..6 {
            if compression.membership[i] == c {
                order.push(i);
            }
        }
    }
    assert_eq!(schedule_cost(&pb, &order), original_best);
}
