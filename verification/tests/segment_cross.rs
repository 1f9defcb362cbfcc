use geolis::segment_cross::segment_segment_intersection_2d;

fn param(p: (i128, i128)) -> f64 {
    p.0 as f64 / p.1 as f64
}

#[test]
fn segment_segment_intersection_crossing_returns_params() {
    // X-shape: AB = (0,0)→(2,2), CD = (0,2)→(2,0). Cross at (1,1) at t=u=0.5.
    let result = segment_segment_intersection_2d((0, 0), (2, 2), (0, 2), (2, 0));
    let (t, u) = result.expect("should detect transverse crossing");
    let (t, u) = (param(t), param(u));
    assert!((t - 0.5).abs() < 1e-9, "t expected 0.5, got {t}");
    assert!((u - 0.5).abs() < 1e-9, "u expected 0.5, got {u}");
}

#[test]
fn segment_segment_intersection_parallel_returns_none() {
    // Two horizontal segments at y=0 and y=1.
    assert!(segment_segment_intersection_2d((0, 0), (2, 0), (0, 1), (2, 1)).is_none());
}

#[test]
fn segment_segment_intersection_endpoint_touch_returns_none() {
    // T-junction: AB = (0,0)→(2,0), CD = (2,0)→(2,2). Touch at AB endpoint
    // (t = 1.0 exactly), which falls outside (PARAM_EPS, 1 - PARAM_EPS).
    assert!(segment_segment_intersection_2d((0, 0), (2, 0), (2, 0), (2, 2)).is_none());
}

#[test]
fn parameters_come_as_exact_fractions_with_positive_denominators() {
    // AB = (0,0)→(4,0), CD = (1,-1)→(1,3): t = 1/4, u = 1/4.
    let (t, u) = segment_segment_intersection_2d((0, 0), (4, 0), (1, -1), (1, 3)).unwrap();
    assert_eq!(t.0 * 4, t.1);
    assert_eq!(u.0 * 4, u.1);
    assert!(t.1 > 0 && u.1 > 0);
    // The same pair with CD reversed: u becomes 3/4.
    let (t, u) = segment_segment_intersection_2d((0, 0), (4, 0), (1, 3), (1, -1)).unwrap();
    assert_eq!(t.0 * 4, t.1);
    assert_eq!(u.0 * 4, u.1 * 3);
    assert!(t.1 > 0 && u.1 > 0);
}

#[test]
fn collinear_overlap_is_not_a_crossing() {
    assert!(segment_segment_intersection_2d((0, 0), (4, 0), (1, 0), (6, 0)).is_none());
}

#[test]
fn grazes_within_the_tolerance_are_not_crossings() {
    // AB is 10^9 long; a vertical CD at x = 1 meets it at t = 10^-9, which
    // is not strictly inside (10^-9, 1 - 10^-9); at x = 2 it is.
    let far = 1_000_000_000;
    assert!(segment_segment_intersection_2d((0, 0), (far, 0), (1, -1), (1, 1)).is_none());
    assert!(segment_segment_intersection_2d((0, 0), (far, 0), (2, -1), (2, 1)).is_some());
    assert!(segment_segment_intersection_2d((0, 0), (far, 0), (far - 1, -1), (far - 1, 1)).is_none());
    assert!(segment_segment_intersection_2d((0, 0), (far, 0), (far - 2, -1), (far - 2, 1)).is_some());
}

#[test]
fn extreme_coordinates_do_not_overflow() {
    let lo = i32::MIN;
    let hi = i32::MAX;
    let r = segment_segment_intersection_2d((lo, lo), (hi, hi), (lo, hi), (hi, lo));
    let (t, u) = r.expect("the diagonals of the full square cross");
    assert!((param(t) - 0.5).abs() < 1e-9);
    assert!((param(u) - 0.5).abs() < 1e-9);
}

#[test]
fn swapping_the_segments_swaps_the_parameters() {
    let (a, b, c, d) = ((0, 0), (8, 2), (1, 5), (3, -4));
    let (t, u) = segment_segment_intersection_2d(a, b, c, d).unwrap();
    let (u2, t2) = segment_segment_intersection_2d(c, d, a, b).unwrap();
    assert_eq!((t, u), (t2, u2));
    assert!(segment_segment_intersection_2d((0, 0), (2, 0), (0, 1), (2, 1)).is_none());
    assert!(segment_segment_intersection_2d((0, 1), (2, 1), (0, 0), (2, 0)).is_none());
}

#[test]
fn reversing_the_second_segment_mirrors_its_parameter() {
    let (a, b, c, d) = ((0, 0), (8, 2), (1, 5), (3, -4));
    let (t, u) = segment_segment_intersection_2d(a, b, c, d).unwrap();
    let (t2, u2) = segment_segment_intersection_2d(a, b, d, c).unwrap();
    assert_eq!(t, t2);
    assert_eq!(u2, (u.1 - u.0, u.1));
    assert!((param(u) + param(u2) - 1.0).abs() < 1e-12);
}
