use geolis::crossing_scan::set_crossing_candidates;

#[test]
fn a_single_square_tests_its_two_diagonal_edge_pairs() {
    assert_eq!(set_crossing_candidates(&vec![(true, 4)]), vec![(0, 0, 0, 2), (0, 1, 0, 3)]);
}

#[test]
fn open_and_tiny_boundaries_are_skipped() {
    assert!(set_crossing_candidates(&vec![(false, 4), (true, 2)]).is_empty());
    // A closed triangle has no non-adjacent pair of its own.
    assert!(set_crossing_candidates(&vec![(true, 3)]).is_empty());
    assert!(set_crossing_candidates(&vec![]).is_empty());
}

#[test]
fn two_squares_are_scanned_boundary_by_boundary() {
    let c = set_crossing_candidates(&vec![(true, 4), (true, 4)]);
    assert_eq!(c.len(), 2 + 16 + 2);
    assert_eq!(&c[..3], &[(0, 0, 0, 2), (0, 1, 0, 3), (0, 0, 1, 0)]);
    assert_eq!(c[2 + 15], (0, 3, 1, 3));
    assert_eq!(&c[18..], &[(1, 0, 1, 2), (1, 1, 1, 3)]);
    for w in c.windows(2) {
        let a = (w[0].0, w[0].2, w[0].1, w[0].3);
        let b = (w[1].0, w[1].2, w[1].1, w[1].3);
        assert!(a < b);
    }
}

#[test]
fn a_triangle_is_still_paired_with_other_boundaries() {
    let c = set_crossing_candidates(&vec![(true, 3), (false, 5), (true, 3)]);
    assert_eq!(c.len(), 9);
    assert_eq!(c[0], (0, 0, 2, 0));
    assert_eq!(c[8], (0, 2, 2, 2));
}
