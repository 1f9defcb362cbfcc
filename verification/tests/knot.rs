use geolis::error::GeometryError;
use geolis::knot::{insert_repeated, order_key, KnotVector, NEGATIVE_ZERO_BITS};

fn key(x: f64) -> u64 {
    order_key(x.to_bits())
}

fn knots(values: &[f64]) -> Result<KnotVector, GeometryError> {
    let keys = values.iter().map(|&v| key(v)).collect();
    KnotVector::new(keys, values.iter().all(|v| v.is_finite()))
}

fn degenerate_message(r: Result<KnotVector, GeometryError>) -> String {
    match r {
        Err(GeometryError::Degenerate(m)) => m,
        other => panic!("expected Degenerate, got {other:?}"),
    }
}

// Knots from The NURBS Book, Ex2.3: U = {0,0,0,1,2,3,4,4,5,5,5}, p = 2.
fn book_knots() -> KnotVector {
    knots(&[0.0, 0.0, 0.0, 1.0, 2.0, 3.0, 4.0, 4.0, 5.0, 5.0, 5.0]).unwrap()
}

#[test]
fn rejects_decreasing_knots() {
    assert!(knots(&[0.0, 1.0, 0.5, 2.0]).is_err());
}

#[test]
fn rejects_non_finite_knots() {
    assert!(knots(&[0.0, f64::NAN, 1.0, 2.0]).is_err());
}

#[test]
fn rejects_too_short() {
    assert!(knots(&[0.0, 1.0, 2.0]).is_err());
}

#[test]
fn find_span_book_example() {
    // 11 knots, p=2 -> control_count = 11 - 2 - 1 = 8; u = 2.5 lies in [knots[4], knots[5])
    assert_eq!(book_knots().find_span(2, 8, key(2.5)), 4);
}

#[test]
fn find_span_at_domain_end_returns_last_span() {
    // u = 5.0 (domain end) must return n = 7, not run past the array
    assert_eq!(book_knots().find_span(2, 8, key(5.0)), 7);
}

#[test]
fn domain_is_clamped_range() {
    let (t0, t1) = book_knots().domain(2);
    assert_eq!(t0, key(0.0));
    assert_eq!(t1, key(5.0));
}

#[test]
fn rejection_messages_follow_the_order_of_the_checks() {
    assert_eq!(
        degenerate_message(knots(&[2.0, 1.0, f64::NAN])),
        "knot vector needs at least 4 knots"
    );
    assert_eq!(
        degenerate_message(knots(&[2.0, 1.0, f64::NAN, 0.0])),
        "knot values must be finite"
    );
    assert_eq!(
        degenerate_message(knots(&[0.0, 1.0, 0.5, 2.0])),
        "knot vector must be non-decreasing"
    );
}

#[test]
fn order_keys_order_as_the_values_do() {
    let values = [
        f64::NEG_INFINITY,
        -1e300,
        -2.5,
        -1.0,
        -1e-300,
        0.0,
        1e-300,
        0.5,
        1.0,
        3.75,
        1e300,
        f64::INFINITY,
    ];
    for w in values.windows(2) {
        assert!(key(w[0]) < key(w[1]), "{} vs {}", w[0], w[1]);
    }
    assert_eq!(key(-0.0), key(0.0));
    assert_eq!((-0.0f64).to_bits(), NEGATIVE_ZERO_BITS);
    assert_eq!(key(0.0), 0x8000_0000_0000_0000);
    assert_eq!(key(1.0), 0x3ff0_0000_0000_0000 | 0x8000_0000_0000_0000);
    assert_eq!(key(-1.0), !(-1.0f64).to_bits());
}

#[test]
fn find_span_inside_and_at_the_domain_start() {
    let k = book_knots();
    assert_eq!(k.find_span(2, 8, key(0.0)), 2);
    assert_eq!(k.find_span(2, 8, key(0.5)), 2);
    assert_eq!(k.find_span(2, 8, key(1.0)), 3);
    assert_eq!(k.find_span(2, 8, key(3.999)), 5);
    assert_eq!(k.find_span(2, 8, key(4.0)), 7);
    assert_eq!(k.find_span(2, 8, key(4.5)), 7);
}

#[test]
fn knot_vector_reports_its_keys() {
    let k = book_knots();
    assert_eq!(k.len(), 11);
    assert!(!k.is_empty());
    assert_eq!(k.as_slice()[3], key(1.0));
    assert_eq!(k.clone().as_slice(), k.as_slice());
}

#[test]
fn inserting_a_knot_at_its_span_keeps_the_vector_valid() {
    let k = book_knots();
    let span = k.find_span(2, 8, key(2.5));
    let inserted = k.with_inserted(span, key(2.5), 2).unwrap();
    let expected: Vec<u64> = [0.0, 0.0, 0.0, 1.0, 2.0, 2.5, 2.5, 3.0, 4.0, 4.0, 5.0, 5.0, 5.0]
        .iter()
        .map(|&v| key(v))
        .collect();
    assert_eq!(inserted.as_slice(), expected.as_slice());
    assert_eq!(inserted.len(), 13);
}

#[test]
fn inserting_out_of_order_is_rejected() {
    let k = book_knots();
    let r = k.with_inserted(1, key(3.0), 1);
    assert_eq!(degenerate_message(r), "knot vector must be non-decreasing");
}

#[test]
fn insert_repeated_splices_after_the_position() {
    let values = vec![0.0, 1.0, 2.0, 3.0];
    assert_eq!(insert_repeated(&values, 1, 1.5, 3), vec![0.0, 1.0, 1.5, 1.5, 1.5, 2.0, 3.0]);
    assert_eq!(insert_repeated(&values, 3, 9.0, 1), vec![0.0, 1.0, 2.0, 3.0, 9.0]);
    assert_eq!(insert_repeated(&values, 0, 7.0, 0), values);
}

#[test]
fn find_span_past_the_end_needs_no_degree_knot() {
    // At or past knots[n + 1] the span is n whatever the degree.
    let k = book_knots();
    assert_eq!(k.find_span(100, 8, key(5.0)), 7);
    assert_eq!(k.find_span(usize::MAX, 8, key(6.0)), 7);
}
