//! Error types of the kernel.
//!
//! Every fallible operation reports one of four categories, gathered under
//! [`GeolisError`]. Floating-point payloads (the value and bounds of an
//! out-of-range parameter) travel as [`FloatBits`]: the kernel's verified
//! core never computes with them, it only hands them back to the caller.

use vstd::prelude::*;

verus! {

/// An IEEE-754 double carried by its bit pattern (`f64::to_bits`).
///
/// The verified core only stores and returns these; it never computes
/// with them. Two of them are equal exactly when the doubles they carry
/// compare equal: the two zeros are equal, and a NaN equals nothing.
#[derive(Debug, Clone, Copy)]
pub struct FloatBits(pub u64);

/// The exponent bits of a double.
pub const EXPONENT_MASK: u64 = 0x7ff0_0000_0000_0000;

/// The fraction bits of a double.
pub const FRACTION_MASK: u64 = 0x000f_ffff_ffff_ffff;

/// Every bit of a double but its sign.
pub const MAGNITUDE_MASK: u64 = 0x7fff_ffff_ffff_ffff;

/// The double with bit pattern `b` is a NaN: all exponent bits set and a
/// non-zero fraction.
pub open spec fn nan_bits(b: u64) -> bool {
    (b & EXPONENT_MASK) == EXPONENT_MASK && (b & FRACTION_MASK) != 0
}

/// The double with bit pattern `b` is `+0.0` or `-0.0`.
pub open spec fn zero_bits(b: u64) -> bool {
    (b & MAGNITUDE_MASK) == 0
}

/// The doubles with bit patterns `a` and `b` compare equal under IEEE-754:
/// neither is a NaN, and they are the same pattern or both zeros.
pub open spec fn same_double(a: u64, b: u64) -> bool {
    &&& !nan_bits(a)
    &&& !nan_bits(b)
    &&& (a == b || (zero_bits(a) && zero_bits(b)))
}

impl PartialEq for FloatBits {
    fn eq(&self, other: &Self) -> (r: bool) {
        let a = self.0;
        let b = other.0;
        let a_nan = (a & EXPONENT_MASK) == EXPONENT_MASK && (a & FRACTION_MASK) != 0;
        let b_nan = (b & EXPONENT_MASK) == EXPONENT_MASK && (b & FRACTION_MASK) != 0;
        !a_nan && !b_nan && (a == b || ((a & MAGNITUDE_MASK) == 0 && (b & MAGNITUDE_MASK) == 0))
    }
}

impl vstd::std_specs::cmp::PartialEqSpecImpl for FloatBits {
    open spec fn obeys_eq_spec() -> bool {
        true
    }

    open spec fn eq_spec(&self, other: &Self) -> bool {
        same_double(self.0, other.0)
    }
}

/// Top-level error type for the Geolis CAD kernel.
#[derive(Debug)]
pub enum GeolisError {
    /// A geometric computation failed.
    Geometry(GeometryError),
    /// A topological operation failed.
    Topology(TopologyError),
    /// A modeling operation failed.
    Operation(OperationError),
    /// Tessellation failed.
    Tessellation(TessellationError),
}

/// Errors related to geometric computations.
#[derive(Debug)]
pub enum GeometryError {
    /// A parameter lies outside its admissible range `[min, max]`.
    ParameterOutOfRange {
        /// Name of the offending parameter.
        parameter: &'static str,
        /// The value that was passed.
        value: FloatBits,
        /// Lower bound of the range.
        min: FloatBits,
        /// Upper bound of the range.
        max: FloatBits,
    },
    /// The input describes degenerate geometry; the message says how.
    Degenerate(String),
    /// A vector that must be non-zero has zero length.
    ZeroVector,
}

/// Errors related to topological operations.
#[derive(Debug)]
pub enum TopologyError {
    /// A referenced entity does not exist.
    EntityNotFound(String),
    /// A wire that must be closed is open.
    WireNotClosed,
    /// The topology is inconsistent; the message says how.
    InvalidTopology(String),
}

/// Errors related to CAD operations.
#[derive(Debug)]
pub enum OperationError {
    /// The input violates the operation's preconditions.
    InvalidInput(String),
    /// The operation could not complete.
    Failed(String),
}

/// Errors related to tessellation.
#[derive(Debug)]
pub enum TessellationError {
    /// The tessellation parameters are unusable.
    InvalidParameters(String),
    /// Tessellation could not complete.
    Failed(String),
}

/// `r` failed with `GeometryError::Degenerate` carrying exactly `msg`.
pub open spec fn degenerate_with<T>(r: Result<T, GeometryError>, msg: Seq<char>) -> bool {
    match r {
        Err(GeometryError::Degenerate(m)) => m@ == msg,
        _ => false,
    }
}

/// `r` failed with `OperationError::InvalidInput` carrying exactly `msg`.
pub open spec fn invalid_input_with<T>(r: Result<T, OperationError>, msg: Seq<char>) -> bool {
    match r {
        Err(OperationError::InvalidInput(m)) => m@ == msg,
        _ => false,
    }
}

/// `r` failed with `OperationError::Failed` carrying exactly `msg`.
pub open spec fn failed_with<T>(r: Result<T, OperationError>, msg: Seq<char>) -> bool {
    match r {
        Err(OperationError::Failed(m)) => m@ == msg,
        _ => false,
    }
}

impl From<GeometryError> for GeolisError {
    fn from(e: GeometryError) -> (r: Self) {
        GeolisError::Geometry(e)
    }
}

impl vstd::std_specs::convert::FromSpecImpl<GeometryError> for GeolisError {
    open spec fn obeys_from_spec() -> bool {
        true
    }

    open spec fn from_spec(v: GeometryError) -> Self {
        GeolisError::Geometry(v)
    }
}

impl From<TopologyError> for GeolisError {
    fn from(e: TopologyError) -> (r: Self) {
        GeolisError::Topology(e)
    }
}

impl vstd::std_specs::convert::FromSpecImpl<TopologyError> for GeolisError {
    open spec fn obeys_from_spec() -> bool {
        true
    }

    open spec fn from_spec(v: TopologyError) -> Self {
        GeolisError::Topology(v)
    }
}

impl From<OperationError> for GeolisError {
    fn from(e: OperationError) -> (r: Self) {
        GeolisError::Operation(e)
    }
}

impl vstd::std_specs::convert::FromSpecImpl<OperationError> for GeolisError {
    open spec fn obeys_from_spec() -> bool {
        true
    }

    open spec fn from_spec(v: OperationError) -> Self {
        GeolisError::Operation(v)
    }
}

impl From<TessellationError> for GeolisError {
    fn from(e: TessellationError) -> (r: Self) {
        GeolisError::Tessellation(e)
    }
}

impl vstd::std_specs::convert::FromSpecImpl<TessellationError> for GeolisError {
    open spec fn obeys_from_spec() -> bool {
        true
    }

    open spec fn from_spec(v: TessellationError) -> Self {
        GeolisError::Tessellation(v)
    }
}

} // verus!
