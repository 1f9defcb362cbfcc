use geolis::diagnostics::{InputSnapshot, OpDiagnostic, OpHealth, Reason};
use geolis::error::FloatBits;

#[test]
fn ok_diagnostic_has_no_inputs() {
    let d = OpDiagnostic::ok(42);
    assert!(d.is_ok());
    assert!(d.inputs.is_none());
    assert_eq!(d.health.reasons(), &[]);
}

#[test]
fn flagged_carries_reasons_and_snapshot() {
    let snap = InputSnapshot::new("boolean_2d::subtract")
        .with("base_area".to_string(), 12.5.to_string())
        .with("holes".to_string(), 3.to_string());
    let d = OpDiagnostic::flagged(
        Vec::<u8>::new(),
        OpHealth::Degenerate(vec![Reason::EmptyResult]),
        snap,
    );
    assert!(!d.is_ok());
    assert_eq!(d.health.reasons(), &[Reason::EmptyResult]);
    let inputs = d.inputs.expect("flagged snapshot present");
    assert_eq!(inputs.op, "boolean_2d::subtract");
    assert_eq!(inputs.summary.len(), 2);
    assert_eq!(
        inputs.summary[0],
        ("base_area".to_string(), "12.5".to_string())
    );
}

#[test]
fn map_preserves_verdict_and_snapshot() {
    let d = OpDiagnostic::flagged(
        3u32,
        OpHealth::Suspicious(vec![Reason::ZeroAreaFace { scale: FloatBits(1e-9f64.to_bits()) }]),
        InputSnapshot::new("x"),
    );
    let mapped = d.map(|v| u64::from(v) + 1);
    assert_eq!(mapped.value, 4u64);
    assert!(matches!(mapped.health, OpHealth::Suspicious(_)));
    assert!(mapped.inputs.is_some());
}

#[test]
fn health_is_ok_only_for_ok() {
    assert!(OpHealth::Healthy.is_ok());
    assert!(!OpHealth::Failed("boom".to_string()).is_ok());
    assert!(!OpHealth::Degenerate(vec![]).is_ok());
    assert!(!OpHealth::Suspicious(vec![Reason::SelfIntersection]).is_ok());
}

#[test]
fn snapshot_keeps_entries_in_insertion_order() {
    let snap = InputSnapshot::new("op")
        .with("a".to_string(), "1".to_string())
        .with("b".to_string(), "2".to_string())
        .with("a".to_string(), "3".to_string());
    assert_eq!(snap.op, "op");
    assert_eq!(
        snap.summary,
        vec![
            ("a".to_string(), "1".to_string()),
            ("b".to_string(), "2".to_string()),
            ("a".to_string(), "3".to_string()),
        ]
    );
}

#[test]
fn reasons_of_suspicious_and_degenerate_are_listed() {
    let r = vec![Reason::SelfIntersection, Reason::NonFinite { at: "x" }];
    assert_eq!(OpHealth::Suspicious(r.clone()).reasons(), r.as_slice());
    assert_eq!(OpHealth::Degenerate(r.clone()).reasons(), r.as_slice());
    assert!(OpHealth::Failed("f".to_string()).reasons().is_empty());
    assert!(OpHealth::Healthy.reasons().is_empty());
}

#[test]
fn ok_and_flagged_keep_the_value() {
    let d = OpDiagnostic::ok("v");
    assert_eq!(d.value, "v");
    assert!(matches!(d.health, OpHealth::Healthy));
    let f = OpDiagnostic::flagged(7i32, OpHealth::Failed("no".to_string()), InputSnapshot::new("y"));
    assert_eq!(f.value, 7);
    assert!(!f.is_ok());
    assert_eq!(f.inputs.map(|s| s.op), Some("y"));
}

#[test]
fn reasons_compare_their_numbers_as_doubles() {
    let zero = Reason::ZeroAreaFace { scale: FloatBits(0.0f64.to_bits()) };
    let neg_zero = Reason::ZeroAreaFace { scale: FloatBits((-0.0f64).to_bits()) };
    assert_eq!(zero, neg_zero);
    let nan = Reason::HighConditionNumber { value: FloatBits(f64::NAN.to_bits()) };
    assert_ne!(nan.clone(), nan);
}
