//! Structural validation of NURBS curves and surfaces.
//!
//! A NURBS curve of degree `p` with `n` control points needs `n` weights
//! and `n + p + 1` knots; a surface needs the same along each parametric
//! direction of its `nu x nv` control grid, stored u-major. These rules
//! are checked here, in the order the constructors report them, so every
//! later knot-span lookup and basis evaluation is consistent by
//! construction.

use vstd::prelude::*;

use crate::error::{degenerate_with, GeometryError};
use crate::text::{decimal, push_count};

verus! {

/// Message refusing a degree below 1.
pub open spec fn curve_degree_message() -> Seq<char> {
    "curve degree must be >= 1"@
}

/// Message refusing too few control points.
pub open spec fn too_few_points_message(degree: nat, points: nat) -> Seq<char> {
    "need at least "@ + decimal(degree + 1) + " control points for degree "@ + decimal(degree)
        + ", got "@ + decimal(points)
}

/// Message refusing a weight count that differs from the point count.
pub open spec fn weight_count_message(weights: nat, points: nat) -> Seq<char> {
    "weight count "@ + decimal(weights) + " does not match control-point count "@ + decimal(points)
}

/// Message refusing a non-positive weight on a curve.
pub open spec fn curve_weight_message() -> Seq<char> {
    "weights must be strictly positive"@
}

/// Message refusing a wrong knot count on a curve.
pub open spec fn curve_knot_message(expected: nat, knots: nat) -> Seq<char> {
    "expected "@ + decimal(expected) + " knots, got "@ + decimal(knots)
}

/// The outcome the curve constructor reports for a layout: the first rule
/// broken, in order, or success.
pub open spec fn curve_layout_verdict(
    degree: nat,
    points: nat,
    weights: nat,
    weights_positive: bool,
    knots: nat,
) -> Option<Seq<char>> {
    if degree < 1 {
        Some(curve_degree_message())
    } else if points < degree + 1 {
        Some(too_few_points_message(degree, points))
    } else if weights != points {
        Some(weight_count_message(weights, points))
    } else if !weights_positive {
        Some(curve_weight_message())
    } else if knots != points + degree + 1 {
        Some(curve_knot_message(points + degree + 1, knots))
    } else {
        None
    }
}

/// Checks the structure of a NURBS curve: `degree >= 1`, at least
/// `degree + 1` control points, one weight per point, every weight
/// strictly positive (`weights_positive`, decided by the caller on the
/// values), and `points + degree + 1` knots. Reports the first rule broken
/// as `Degenerate`, with the constructor's message. Left out are only the
/// inputs on which the rules' own count arithmetic (`degree + 1`, then
/// `points + degree + 1`) would overflow where it is reached.
pub fn validate_curve_layout(
    degree: usize,
    point_count: usize,
    weight_count: usize,
    weights_positive: bool,
    knot_count: usize,
) -> (r: Result<(), GeometryError>)
    requires
        degree >= 1 ==> degree < usize::MAX,
        degree >= 1 && point_count > degree && weight_count == point_count && weights_positive
            ==> point_count + degree + 1 <= usize::MAX,
    ensures
        r is Ok <==> curve_layout_verdict(
            degree as nat,
            point_count as nat,
            weight_count as nat,
            weights_positive,
            knot_count as nat,
        ) is None,
        curve_layout_verdict(
            degree as nat,
            point_count as nat,
            weight_count as nat,
            weights_positive,
            knot_count as nat,
        ) matches Some(m) ==> degenerate_with(r, m),
        r is Ok <==> degree >= 1 && point_count >= degree + 1 && weight_count == point_count
            && weights_positive && knot_count == point_count + degree + 1,
        degree < 1 ==> degenerate_with(r, curve_degree_message()),
        degree >= 1 && point_count < degree + 1 ==> degenerate_with(
            r,
            too_few_points_message(degree as nat, point_count as nat),
        ),
        degree >= 1 && point_count >= degree + 1 && weight_count != point_count ==> degenerate_with(
            r,
            weight_count_message(weight_count as nat, point_count as nat),
        ),
        degree >= 1 && point_count >= degree + 1 && weight_count == point_count && !weights_positive
            ==> degenerate_with(r, curve_weight_message()),
        degree >= 1 && point_count >= degree + 1 && weight_count == point_count && weights_positive
            && knot_count != point_count + degree + 1 ==> degenerate_with(
            r,
            curve_knot_message((point_count + degree + 1) as nat, knot_count as nat),
        ),
{
    if degree < 1 {
        return Err(GeometryError::Degenerate(String::from_str("curve degree must be >= 1")));
    }
    if point_count < degree + 1 {
        let mut m = String::from_str("need at least ");
        push_count(&mut m, degree + 1);
        m.append(" control points for degree ");
        push_count(&mut m, degree);
        m.append(", got ");
        push_count(&mut m, point_count);
        return Err(GeometryError::Degenerate(m));
    }
    if weight_count != point_count {
        let mut m = String::from_str("weight count ");
        push_count(&mut m, weight_count);
        m.append(" does not match control-point count ");
        push_count(&mut m, point_count);
        return Err(GeometryError::Degenerate(m));
    }
    if !weights_positive {
        return Err(GeometryError::Degenerate(String::from_str("weights must be strictly positive")));
    }
    let expected = point_count + degree + 1;
    if knot_count != expected {
        let mut m = String::from_str("expected ");
        push_count(&mut m, expected);
        m.append(" knots, got ");
        push_count(&mut m, knot_count);
        return Err(GeometryError::Degenerate(m));
    }
    Ok(())
}

/// A curve layout passes exactly when every rule holds: degree at least 1,
/// at least `degree + 1` control points, one weight per point, positive
/// weights, and `points + degree + 1` knots.
pub proof fn lemma_curve_layout_accepts_exactly_valid(
    degree: nat,
    points: nat,
    weights: nat,
    weights_positive: bool,
    knots: nat,
)
    ensures
        curve_layout_verdict(degree, points, weights, weights_positive, knots) is None <==> degree
            >= 1 && points >= degree + 1 && weights == points && weights_positive && knots == points
            + degree + 1,
{
}

/// Message refusing a surface degree below 1.
pub open spec fn surface_degree_message() -> Seq<char> {
    "surface degrees must be >= 1"@
}

/// Message refusing a control grid too small for the degrees.
pub open spec fn small_grid_message(nu: nat, nv: nat, du: nat, dv: nat) -> Seq<char> {
    "grid "@ + decimal(nu) + "x"@ + decimal(nv) + " too small for degrees "@ + decimal(du) + ","@
        + decimal(dv) + " (need at least "@ + decimal(du + 1) + "x"@ + decimal(dv + 1) + ")"@
}

/// Message refusing a point count that differs from the grid size.
pub open spec fn grid_count_message(points: nat, nu: nat, nv: nat) -> Seq<char> {
    "control-point count "@ + decimal(points) + " does not match grid "@ + decimal(nu) + "x"@
        + decimal(nv) + " = "@ + decimal(nu * nv)
}

/// Message refusing a non-positive or non-finite weight on a surface.
pub open spec fn surface_weight_message() -> Seq<char> {
    "weights must be strictly positive and finite"@
}

/// Message refusing a wrong u-knot count on a surface.
pub open spec fn surface_u_knot_message(expected: nat, knots: nat) -> Seq<char> {
    "expected "@ + decimal(expected) + " u-knots, got "@ + decimal(knots)
}

/// Message refusing a wrong v-knot count on a surface.
pub open spec fn surface_v_knot_message(expected: nat, knots: nat) -> Seq<char> {
    "expected "@ + decimal(expected) + " v-knots, got "@ + decimal(knots)
}

/// The outcome the surface constructor reports for a layout: the first
/// rule broken, in order, or success.
pub open spec fn surface_layout_verdict(
    points: nat,
    weights: nat,
    weights_valid: bool,
    nu: nat,
    nv: nat,
    knots_u: nat,
    knots_v: nat,
    du: nat,
    dv: nat,
) -> Option<Seq<char>> {
    if du < 1 || dv < 1 {
        Some(surface_degree_message())
    } else if nu < du + 1 || nv < dv + 1 {
        Some(small_grid_message(nu, nv, du, dv))
    } else if points != nu * nv {
        Some(grid_count_message(points, nu, nv))
    } else if weights != points {
        Some(weight_count_message(weights, points))
    } else if !weights_valid {
        Some(surface_weight_message())
    } else if knots_u != nu + du + 1 {
        Some(surface_u_knot_message(nu + du + 1, knots_u))
    } else if knots_v != nv + dv + 1 {
        Some(surface_v_knot_message(nv + dv + 1, knots_v))
    } else {
        None
    }
}

/// A surface layout passes exactly when every rule holds: both degrees at
/// least 1, a grid of at least `(du + 1) x (dv + 1)`, one control point per
/// grid cell, one valid weight per point, and `nu + du + 1` u-knots and
/// `nv + dv + 1` v-knots.
pub proof fn lemma_surface_layout_accepts_exactly_valid(
    points: nat,
    weights: nat,
    weights_valid: bool,
    nu: nat,
    nv: nat,
    knots_u: nat,
    knots_v: nat,
    du: nat,
    dv: nat,
)
    ensures
        surface_layout_verdict(points, weights, weights_valid, nu, nv, knots_u, knots_v, du, dv)
            is None <==> du >= 1 && dv >= 1 && nu >= du + 1 && nv >= dv + 1 && points == nu * nv
            && weights == points && weights_valid && knots_u == nu + du + 1 && knots_v == nv + dv
            + 1,
{
}

/// Checks the structure of a NURBS surface over an `nu x nv` control grid:
/// both degrees at least 1, a grid of at least `(du + 1) x (dv + 1)`, one
/// control point per grid cell, one weight per point, every weight
/// strictly positive and finite (`weights_valid`, decided by the caller on
/// the values), and `nu + du + 1` u-knots and `nv + dv + 1` v-knots.
/// Reports the first rule broken as `Degenerate`, with the constructor's
/// message. Left out are only the inputs on which the rules' own count
/// arithmetic (`du + 1` and `dv + 1`, then `nu * nv`) would overflow where
/// it is reached.
pub fn validate_surface_layout(
    point_count: usize,
    weight_count: usize,
    weights_valid: bool,
    nu: usize,
    nv: usize,
    knot_count_u: usize,
    knot_count_v: usize,
    degree_u: usize,
    degree_v: usize,
) -> (r: Result<(), GeometryError>)
    requires
        degree_u >= 1 && degree_v >= 1 ==> degree_u < usize::MAX && degree_v < usize::MAX,
        degree_u >= 1 && degree_v >= 1 && nu > degree_u && nv > degree_v ==> nu * nv
            <= usize::MAX,
    ensures
        r is Ok <==> surface_layout_verdict(
            point_count as nat,
            weight_count as nat,
            weights_valid,
            nu as nat,
            nv as nat,
            knot_count_u as nat,
            knot_count_v as nat,
            degree_u as nat,
            degree_v as nat,
        ) is None,
        surface_layout_verdict(
            point_count as nat,
            weight_count as nat,
            weights_valid,
            nu as nat,
            nv as nat,
            knot_count_u as nat,
            knot_count_v as nat,
            degree_u as nat,
            degree_v as nat,
        ) matches Some(m) ==> degenerate_with(r, m),
        r is Ok <==> degree_u >= 1 && degree_v >= 1 && nu >= degree_u + 1 && nv >= degree_v + 1
            && point_count == nu * nv && weight_count == point_count && weights_valid
            && knot_count_u == nu + degree_u + 1 && knot_count_v == nv + degree_v + 1,
        degree_u < 1 || degree_v < 1 ==> degenerate_with(r, surface_degree_message()),
        degree_u >= 1 && degree_v >= 1 && (nu < degree_u + 1 || nv < degree_v + 1)
            ==> degenerate_with(
            r,
            small_grid_message(nu as nat, nv as nat, degree_u as nat, degree_v as nat),
        ),
        degree_u >= 1 && degree_v >= 1 && nu >= degree_u + 1 && nv >= degree_v + 1 && point_count
            != nu * nv ==> degenerate_with(
            r,
            grid_count_message(point_count as nat, nu as nat, nv as nat),
        ),
        degree_u >= 1 && degree_v >= 1 && nu >= degree_u + 1 && nv >= degree_v + 1 && point_count
            == nu * nv && weight_count != point_count ==> degenerate_with(
            r,
            weight_count_message(weight_count as nat, point_count as nat),
        ),
        degree_u >= 1 && degree_v >= 1 && nu >= degree_u + 1 && nv >= degree_v + 1 && point_count
            == nu * nv && weight_count == point_count && !weights_valid ==> degenerate_with(
            r,
            surface_weight_message(),
        ),
        degree_u >= 1 && degree_v >= 1 && nu >= degree_u + 1 && nv >= degree_v + 1 && point_count
            == nu * nv && weight_count == point_count && weights_valid && knot_count_u != nu
            + degree_u + 1 ==> degenerate_with(
            r,
            surface_u_knot_message((nu + degree_u + 1) as nat, knot_count_u as nat),
        ),
        degree_u >= 1 && degree_v >= 1 && nu >= degree_u + 1 && nv >= degree_v + 1 && point_count
            == nu * nv && weight_count == point_count && weights_valid && knot_count_u == nu
            + degree_u + 1 && knot_count_v != nv + degree_v + 1 ==> degenerate_with(
            r,
            surface_v_knot_message((nv + degree_v + 1) as nat, knot_count_v as nat),
        ),
{
    if degree_u < 1 || degree_v < 1 {
        return Err(GeometryError::Degenerate(String::from_str("surface degrees must be >= 1")));
    }
    if nu < degree_u + 1 || nv < degree_v + 1 {
        let mut m = String::from_str("grid ");
        push_count(&mut m, nu);
        m.append("x");
        push_count(&mut m, nv);
        m.append(" too small for degrees ");
        push_count(&mut m, degree_u);
        m.append(",");
        push_count(&mut m, degree_v);
        m.append(" (need at least ");
        push_count(&mut m, degree_u + 1);
        m.append("x");
        push_count(&mut m, degree_v + 1);
        m.append(")");
        return Err(GeometryError::Degenerate(m));
    }
    let cells = nu * nv;
    if point_count != cells {
        let mut m = String::from_str("control-point count ");
        push_count(&mut m, point_count);
        m.append(" does not match grid ");
        push_count(&mut m, nu);
        m.append("x");
        push_count(&mut m, nv);
        m.append(" = ");
        push_count(&mut m, cells);
        return Err(GeometryError::Degenerate(m));
    }
    if weight_count != point_count {
        let mut m = String::from_str("weight count ");
        push_count(&mut m, weight_count);
        m.append(" does not match control-point count ");
        push_count(&mut m, point_count);
        return Err(GeometryError::Degenerate(m));
    }
    if !weights_valid {
        return Err(
            GeometryError::Degenerate(String::from_str("weights must be strictly positive and finite")),
        );
    }
    proof {
        assert(nu + degree_u + 1 <= nu * nv && nv + degree_v + 1 <= nu * nv) by (nonlinear_arith)
            requires
                nu > degree_u >= 1,
                nv > degree_v >= 1,
        ;
    }
    let expected_u = nu + degree_u + 1;
    if knot_count_u != expected_u {
        let mut m = String::from_str("expected ");
        push_count(&mut m, expected_u);
        m.append(" u-knots, got ");
        push_count(&mut m, knot_count_u);
        return Err(GeometryError::Degenerate(m));
    }
    let expected_v = nv + degree_v + 1;
    if knot_count_v != expected_v {
        let mut m = String::from_str("expected ");
        push_count(&mut m, expected_v);
        m.append(" v-knots, got ");
        push_count(&mut m, knot_count_v);
        return Err(GeometryError::Degenerate(m));
    }
    Ok(())
}

/// Position of grid cell `(i, j)` in the u-major storage of an `nu x nv`
/// control grid.
pub fn grid_index(i: usize, j: usize, nu: usize, nv: usize) -> (r: usize)
    requires
        i < nu,
        j < nv,
        nu * nv <= usize::MAX,
    ensures
        r == i * nv + j,
        r < nu * nv,
{
    proof {
        assert(i * nv + j < nu * nv) by (nonlinear_arith)
            requires
                i < nu,
                j < nv,
        ;
    }
    i * nv + j
}

/// The u-major layout is one-to-one: distinct cells occupy distinct
/// positions, and every position below `nu * nv` is the cell
/// `(p / nv, p % nv)`.
pub proof fn lemma_grid_layout_bijective(nu: nat, nv: nat, i1: nat, j1: nat, i2: nat, j2: nat)
    requires
        i1 < nu && j1 < nv,
        i2 < nu && j2 < nv,
    ensures
        i1 * nv + j1 == i2 * nv + j2 ==> i1 == i2 && j1 == j2,
        (i1 * nv + j1) / nv == i1,
        (i1 * nv + j1) % nv == j1,
{
    assert((i1 * nv + j1) / nv == i1 && (i1 * nv + j1) % nv == j1) by (nonlinear_arith)
        requires
            j1 < nv,
    ;
    assert((i2 * nv + j2) / nv == i2 && (i2 * nv + j2) % nv == j2) by (nonlinear_arith)
        requires
            j2 < nv,
    ;
}

} // verus!
