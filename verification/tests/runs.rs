use geolis::runs::{group_sweep_runs, maximal_runs, SweepRuns};

const T: bool = true;
const F: bool = false;

#[test]
fn maximal_runs_of_valid_samples() {
    assert_eq!(maximal_runs(&vec![T, T, F, T, F, F, T]), vec![(0, 1), (3, 3), (6, 6)]);
    assert_eq!(maximal_runs(&vec![F, T, T, T, F]), vec![(1, 3)]);
    assert!(maximal_runs(&vec![F, F]).is_empty());
    assert!(maximal_runs(&vec![]).is_empty());
    assert_eq!(maximal_runs(&vec![T, T, T]), vec![(0, 2)]);
}

#[test]
fn closed_profile_with_every_sample_valid_is_one_branch() {
    assert!(matches!(group_sweep_runs(&vec![T, T, T, T], true), SweepRuns::Whole));
}

#[test]
fn runs_touching_both_ends_of_a_closed_profile_join_across_the_seam() {
    match group_sweep_runs(&vec![T, T, F, T, F, F, T], true) {
        SweepRuns::Runs { runs, seam } => {
            assert_eq!(runs, vec![(3, 3)]);
            assert_eq!(seam, Some(((6, 6), (0, 1))));
        }
        SweepRuns::Whole => panic!("expected runs"),
    }
}

#[test]
fn open_profiles_never_join_runs() {
    match group_sweep_runs(&vec![T, T, F, T, F, F, T], false) {
        SweepRuns::Runs { runs, seam } => {
            assert_eq!(runs, vec![(0, 1), (3, 3), (6, 6)]);
            assert_eq!(seam, None);
        }
        SweepRuns::Whole => panic!("expected runs"),
    }
    match group_sweep_runs(&vec![T, T, T], false) {
        SweepRuns::Runs { runs, seam } => {
            assert_eq!(runs, vec![(0, 2)]);
            assert_eq!(seam, None);
        }
        SweepRuns::Whole => panic!("expected runs"),
    }
}

#[test]
fn a_single_run_on_a_closed_profile_stays_open() {
    match group_sweep_runs(&vec![T, T, F, F], true) {
        SweepRuns::Runs { runs, seam } => {
            assert_eq!(runs, vec![(0, 1)]);
            assert_eq!(seam, None);
        }
        SweepRuns::Whole => panic!("expected runs"),
    }
}
