use geolis::error::GeometryError;
use geolis::pline_topology::{
    crossing_candidates, division_sample_count, edge_sources, joint_segments, piece_edge_steps,
    reversed_sources, rotated_ring, segment_count,
};

#[test]
fn segment_count_empty() {
    assert_eq!(segment_count(0, false), 0);
}

#[test]
fn segment_count_single_vertex() {
    assert_eq!(segment_count(1, false), 0);
}

#[test]
fn segment_count_open_and_closed() {
    assert_eq!(segment_count(1, true), 0);
    assert_eq!(segment_count(2, false), 1);
    assert_eq!(segment_count(2, true), 2);
    assert_eq!(segment_count(5, false), 4);
    assert_eq!(segment_count(5, true), 5);
}

#[test]
fn joints_of_open_and_closed_polylines() {
    assert_eq!(joint_segments(4, false), vec![(0, 1), (1, 2)]);
    assert_eq!(joint_segments(4, true), vec![(3, 0), (0, 1), (1, 2), (2, 3)]);
    assert!(joint_segments(2, false).is_empty());
    assert!(joint_segments(1, true).is_empty());
    assert_eq!(joint_segments(2, true), vec![(1, 0), (0, 1)]);
}

#[test]
fn reversal_sources_walk_backwards() {
    assert_eq!(
        reversed_sources(4, false),
        vec![(3, Some(2)), (2, Some(1)), (1, Some(0)), (0, None)]
    );
    assert_eq!(reversed_sources(1, false), vec![(0, None)]);
    assert_eq!(reversed_sources(1, true), vec![(0, None)]);
    assert!(reversed_sources(0, false).is_empty());
    assert!(reversed_sources(0, true).is_empty());
    // Reversing twice gives every vertex back its own data.
    for closed in [false, true] {
        let r = reversed_sources(6, closed);
        for j in 0..6 {
            assert_eq!(r[r[j].0].0, j);
        }
    }
}

#[test]
fn reversal_of_closed_ring_keeps_seam_bulge() {
    // The seam v[3] -> v[0] becomes v[0] -> v[3]: the last reversed vertex
    // (source vertex 0) takes the bulge of source segment 3.
    assert_eq!(
        reversed_sources(4, true),
        vec![(3, Some(2)), (2, Some(1)), (1, Some(0)), (0, Some(3))]
    );
    assert_eq!(reversed_sources(2, true), vec![(1, Some(0)), (0, Some(1))]);
    // Every segment of the reversed ring has a source segment.
    let r = reversed_sources(5, true);
    assert!(r.iter().all(|v| v.1.is_some()));
}

#[test]
fn crossing_candidates_skip_adjacent_edges() {
    assert!(crossing_candidates(3).is_empty());
    assert_eq!(crossing_candidates(4), vec![(0, 2), (1, 3)]);
    assert_eq!(
        crossing_candidates(5),
        vec![(0, 2), (0, 3), (1, 3), (1, 4), (2, 4)]
    );
    let n = 7;
    let c = crossing_candidates(n);
    assert_eq!(c.len(), n * (n - 3) / 2);
    for &(i, j) in &c {
        assert!(i < j && j < n);
        assert!((i + 1) % n != j && (j + 1) % n != i);
    }
}

#[test]
fn piece_steps_wrap_and_lap() {
    assert_eq!(piece_edge_steps(5, 1, 3, false), 2);
    assert_eq!(piece_edge_steps(5, 3, 1, false), 3);
    assert_eq!(piece_edge_steps(5, 2, 2, false), 0);
    assert_eq!(piece_edge_steps(5, 2, 2, true), 5);
    assert_eq!(piece_edge_steps(5, 4, 0, true), 1);
}

#[test]
fn division_counts_the_seam_once() {
    assert_eq!(division_sample_count(4, false).unwrap(), 5);
    assert_eq!(division_sample_count(4, true).unwrap(), 4);
    match division_sample_count(0, true) {
        Err(GeometryError::Degenerate(m)) => assert_eq!(m, "division count must be >= 1"),
        other => panic!("expected Degenerate, got {other:?}"),
    }
}

#[test]
fn edge_sources_repeat_each_segment_per_chord() {
    assert_eq!(edge_sources(&vec![1, 3, 0, 2]), vec![0, 1, 1, 1, 3, 3]);
    assert!(edge_sources(&vec![]).is_empty());
    assert!(edge_sources(&vec![0, 0]).is_empty());
}

#[test]
fn rotated_ring_starts_at_the_given_position() {
    let ring = vec!['a', 'b', 'c', 'd', 'e'];
    assert_eq!(rotated_ring(&ring, 2), vec!['c', 'd', 'e', 'a', 'b']);
    assert_eq!(rotated_ring(&ring, 0), ring);
    assert_eq!(rotated_ring(&ring, 5), ring);
    assert!(rotated_ring(&Vec::<u8>::new(), 0).is_empty());
}
