use geolis::error::{
    FloatBits, GeolisError, GeometryError, OperationError, TessellationError, TopologyError,
};

#[test]
fn every_category_converts_into_the_top_level_error() {
    assert!(matches!(
        GeolisError::from(GeometryError::ZeroVector),
        GeolisError::Geometry(GeometryError::ZeroVector)
    ));
    assert!(matches!(
        GeolisError::from(TopologyError::WireNotClosed),
        GeolisError::Topology(TopologyError::WireNotClosed)
    ));
    match GeolisError::from(OperationError::Failed("x".to_string())) {
        GeolisError::Operation(OperationError::Failed(m)) => assert_eq!(m, "x"),
        other => panic!("unexpected {other:?}"),
    }
    match GeolisError::from(TessellationError::InvalidParameters("p".to_string())) {
        GeolisError::Tessellation(TessellationError::InvalidParameters(m)) => assert_eq!(m, "p"),
        other => panic!("unexpected {other:?}"),
    }
}

#[test]
fn out_of_range_parameters_carry_their_values_bit_for_bit() {
    let e = GeometryError::ParameterOutOfRange {
        parameter: "u",
        value: FloatBits(1.5f64.to_bits()),
        min: FloatBits(0.0f64.to_bits()),
        max: FloatBits(1.0f64.to_bits()),
    };
    match e {
        GeometryError::ParameterOutOfRange { parameter, value, min, max } => {
            assert_eq!(parameter, "u");
            assert_eq!(f64::from_bits(value.0), 1.5);
            assert_eq!(f64::from_bits(min.0), 0.0);
            assert_eq!(f64::from_bits(max.0), 1.0);
        }
        _ => panic!("unexpected variant"),
    }
}

#[test]
fn carried_doubles_compare_as_doubles() {
    let bits = |x: f64| FloatBits(x.to_bits());
    assert_eq!(bits(0.0), bits(-0.0));
    assert_eq!(bits(1.5), bits(1.5));
    assert_ne!(bits(1.5), bits(-1.5));
    assert_ne!(bits(f64::NAN), bits(f64::NAN));
    assert_ne!(bits(f64::NAN), bits(0.0));
    assert_eq!(bits(f64::INFINITY), bits(f64::INFINITY));
    assert_ne!(bits(f64::INFINITY), bits(f64::NEG_INFINITY));
}
