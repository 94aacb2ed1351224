use talentsched::bitset::BitSet64;
use talentsched::bound::CompressedSolutionBound;
use talentsched::compression::TalentSchedCompression;
use talentsched::instance::TalentSchedInstance;
use talentsched::model::{TalentSched, TalentSchedState};

fn compression() -> TalentSchedCompression {
    let inst = TalentSchedInstance {
        nb_scenes: 6,
        nb_actors: 2,
        cost: vec![2, 3],
        duration: vec![1, 1, 1, 1, 1, 1],
        actors: vec![vec![1, 1, 1, 0, 0, 0], vec![0, 0, 0, 1, 1, 1]],
    };
    TalentSchedCompression::new(TalentSched::new(inst), 2)
}

fn state(scenes: &[usize], maybe: &[usize]) -> TalentSchedState {
    let mut s = BitSet64::empty();
    for &i in scenes {
        s = s.insert(i);
    }
    let mut m = BitSet64::empty();
    for &i in maybe {
        m = m.insert(i);
    }
    TalentSchedState { scenes: s, maybe_scenes: m }
}

#[test]
fn bound_of_the_root_is_the_meta_optimum() {
    let bound = CompressedSolutionBound::new(compression());
    // Both clusters still whole: the meta problem costs 2*3 + 3*3 = 15
    // actor-days from its root, whatever the order.
    let root = state(&[0, 1, 2, 3, 4, 5], &[]);
    assert_eq!(bound.get_ub(&root), -15);
}

#[test]
fn bound_of_a_half_schedule_prices_the_remaining_cluster() {
    let bound = CompressedSolutionBound::new(compression());
    let c3 = bound.compression.membership[3];
    // Only the {3,4,5} family remains: its actor costs 3 for 3 days.
    let half = state(&[3, 4, 5], &[]);
    assert_eq!(bound.get_ub(&half), -9);
    // Consistency with the stored meta state: one cluster left.
    assert!(c3 < 2);
}

#[test]
fn bound_reports_nothing_on_unfaithful_states() {
    let bound = CompressedSolutionBound::new(compression());
    // A split cluster: scene 0 alone from its family.
    let split = state(&[0, 3, 4, 5], &[]);
    assert_eq!(bound.get_ub(&split), isize::MAX);
    // Uncertainty from a merge.
    let uncertain = state(&[0, 1, 2], &[3]);
    assert_eq!(bound.get_ub(&uncertain), isize::MAX);
    // The signal-empty compression of a non-initial state.
    let terminal = state(&[], &[]);
    assert_eq!(bound.get_ub(&terminal), isize::MAX);
}

#[test]
fn bound_never_cuts_off_a_reachable_value() {
    // On every faithful state, the stored bound is at least the value of
    // any completion reachable from it (here: the exact optimum, 15).
    let bound = CompressedSolutionBound::new(compression());
    let root = state(&[0, 1, 2, 3, 4, 5], &[]);
    assert!(bound.get_ub(&root) >= -15);
}
