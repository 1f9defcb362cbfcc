//! Geolis: the combinatorial core of an open CAD kernel.
use vstd::prelude::*;

pub mod crossing_scan;
pub mod diagnostics;
pub mod ear_clip;
pub mod error;
pub mod knot;
pub mod layout;
pub mod pline_topology;
pub mod ridge;
pub mod runs;
pub mod segment_cross;
pub mod skeleton;
pub mod text;

verus! {

/// Classification of a point relative to a plane.
#[derive(Debug, Clone, Copy, PartialEq, Eq)]
pub enum PointPlaneClassification {
    /// Point is on the positive side (in the direction of the normal).
    Front,
    /// Point is on the negative side (opposite the normal).
    Back,
    /// Point lies on the plane (within tolerance).
    On,
}

} // verus!
