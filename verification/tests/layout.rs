use geolis::error::GeometryError;
use geolis::layout::{grid_index, validate_curve_layout, validate_surface_layout};

fn message(r: Result<(), GeometryError>) -> String {
    match r {
        Err(GeometryError::Degenerate(m)) => m,
        other => panic!("expected Degenerate, got {other:?}"),
    }
}

fn positive(weights: &[f64]) -> bool {
    weights.iter().all(|&w| w > 0.0)
}

fn positive_finite(weights: &[f64]) -> bool {
    weights.iter().all(|&w| w > 0.0 && w.is_finite())
}

#[test]
fn rejects_count_mismatch() {
    // Two control points, one weight, knots {0, 0, 1, 1}, degree 1.
    let weights = [1.0];
    let result = validate_curve_layout(1, 2, weights.len(), positive(&weights), 4);
    assert!(result.is_err());
}

#[test]
fn curve_rejects_wrong_knot_count() {
    // Two control points, two weights, knots {0, 0, 0.5, 1, 1}, degree 1.
    let weights = [1.0, 1.0];
    let result = validate_curve_layout(1, 2, weights.len(), positive(&weights), 5);
    assert!(result.is_err());
}

#[test]
fn curve_rejects_non_positive_weight() {
    let weights = [1.0, 0.0];
    let result = validate_curve_layout(1, 2, weights.len(), positive(&weights), 4);
    assert!(result.is_err());
}

#[test]
fn rejects_grid_count_mismatch() {
    // Five control points for a 2x2 grid, unit weights, degrees (1, 1).
    let result = validate_surface_layout(5, 5, true, 2, 2, 4, 4, 1, 1);
    assert!(result.is_err());
}

#[test]
fn surface_rejects_wrong_knot_count() {
    // u-knots {0, 0, 0.5, 1, 1} for a 2x2 grid of degree (1, 1).
    let result = validate_surface_layout(4, 4, true, 2, 2, 5, 4, 1, 1);
    assert!(result.is_err());
}

#[test]
fn surface_rejects_non_positive_weight() {
    let weights = [1.0, 1.0, 0.0, 1.0];
    let result =
        validate_surface_layout(4, weights.len(), positive_finite(&weights), 2, 2, 4, 4, 1, 1);
    assert!(result.is_err());
}

#[test]
fn valid_layouts_are_accepted() {
    assert!(validate_curve_layout(1, 2, 2, true, 4).is_ok());
    assert!(validate_curve_layout(2, 3, 3, true, 6).is_ok());
    assert!(validate_surface_layout(4, 4, true, 2, 2, 4, 4, 1, 1).is_ok());
    assert!(validate_surface_layout(12, 12, true, 3, 4, 6, 8, 2, 3).is_ok());
}

#[test]
fn curve_messages_name_the_first_broken_rule() {
    assert_eq!(message(validate_curve_layout(0, 1, 9, false, 0)), "curve degree must be >= 1");
    assert_eq!(
        message(validate_curve_layout(3, 2, 9, false, 0)),
        "need at least 4 control points for degree 3, got 2"
    );
    assert_eq!(
        message(validate_curve_layout(1, 2, 1, false, 0)),
        "weight count 1 does not match control-point count 2"
    );
    assert_eq!(
        message(validate_curve_layout(1, 2, 2, false, 0)),
        "weights must be strictly positive"
    );
    assert_eq!(message(validate_curve_layout(1, 2, 2, true, 5)), "expected 4 knots, got 5");
    assert_eq!(
        message(validate_curve_layout(10, 12, 12, true, 0)),
        "expected 23 knots, got 0"
    );
}

#[test]
fn surface_messages_name_the_first_broken_rule() {
    assert_eq!(
        message(validate_surface_layout(4, 4, true, 2, 2, 4, 4, 0, 1)),
        "surface degrees must be >= 1"
    );
    assert_eq!(
        message(validate_surface_layout(4, 4, true, 2, 2, 4, 4, 2, 1)),
        "grid 2x2 too small for degrees 2,1 (need at least 3x2)"
    );
    assert_eq!(
        message(validate_surface_layout(5, 5, true, 2, 2, 4, 4, 1, 1)),
        "control-point count 5 does not match grid 2x2 = 4"
    );
    assert_eq!(
        message(validate_surface_layout(4, 3, true, 2, 2, 4, 4, 1, 1)),
        "weight count 3 does not match control-point count 4"
    );
    assert_eq!(
        message(validate_surface_layout(4, 4, false, 2, 2, 4, 4, 1, 1)),
        "weights must be strictly positive and finite"
    );
    assert_eq!(
        message(validate_surface_layout(4, 4, true, 2, 2, 5, 4, 1, 1)),
        "expected 4 u-knots, got 5"
    );
    assert_eq!(
        message(validate_surface_layout(4, 4, true, 2, 2, 4, 3, 1, 1)),
        "expected 4 v-knots, got 3"
    );
}

#[test]
fn grid_cells_are_stored_u_major() {
    assert_eq!(grid_index(0, 0, 3, 4), 0);
    assert_eq!(grid_index(0, 3, 3, 4), 3);
    assert_eq!(grid_index(1, 0, 3, 4), 4);
    assert_eq!(grid_index(2, 3, 3, 4), 11);
    let mut seen = vec![false; 12];
    for i in 0..3 {
        for j in 0..4 {
            let k = grid_index(i, j, 3, 4);
            assert!(!seen[k]);
            seen[k] = true;
        }
    }
    assert!(seen.iter().all(|&s| s));
}

#[test]
fn huge_grids_are_refused_by_the_first_broken_rule() {
    let big = usize::MAX;
    // No overflowing product is formed before an earlier rule fails.
    assert_eq!(
        message(validate_surface_layout(0, 0, true, big, big, 0, 0, 0, 1)),
        "surface degrees must be >= 1"
    );
    assert_eq!(
        message(validate_surface_layout(0, 0, true, big, 1, 0, 0, 1, 1)),
        format!("grid {big}x1 too small for degrees 1,1 (need at least 2x2)")
    );
    assert_eq!(
        message(validate_curve_layout(0, big, 0, true, 0)),
        "curve degree must be >= 1"
    );
    assert_eq!(
        message(validate_curve_layout(2, big, 0, true, 0)),
        format!("weight count 0 does not match control-point count {big}")
    );
}
