//! Transverse crossing of two segments, decided exactly.
//!
//! Segment `AB` and segment `CD` cross transversally when they are not
//! parallel and meet at parameters `t` along `AB` and `u` along `CD` that
//! are both strictly interior: `EPS < t, u < 1 - EPS` with
//! `EPS = 10^-9`. Parallel and collinear pairs, pairs that only touch at
//! an endpoint, and grazes within `EPS` of an end are not crossings.
//!
//! Here the coordinates are integers and every quantity is evaluated
//! exactly: the cross product is an integer (so "below the parallelism
//! tolerance" means zero), and the parameters are the exact fractions
//! `t = t_num / cross`, `u = u_num / cross`, compared with `EPS` without
//! rounding.

use vstd::prelude::*;

verus! {

/// `10^9`, the reciprocal of the interior tolerance on the parameters.
pub const PARAM_SCALE: i128 = 1_000_000_000i128;

/// Cross product of the two segment directions.
pub open spec fn cross_of(a: (i32, i32), b: (i32, i32), c: (i32, i32), d: (i32, i32)) -> int {
    (b.0 - a.0) * (d.1 - c.1) - (b.1 - a.1) * (d.0 - c.0)
}

/// Numerator of the parameter `t` along `AB` (over [`cross_of`]).
pub open spec fn t_num_of(a: (i32, i32), b: (i32, i32), c: (i32, i32), d: (i32, i32)) -> int {
    (c.0 - a.0) * (d.1 - c.1) - (c.1 - a.1) * (d.0 - c.0)
}

/// Numerator of the parameter `u` along `CD` (over [`cross_of`]).
pub open spec fn u_num_of(a: (i32, i32), b: (i32, i32), c: (i32, i32), d: (i32, i32)) -> int {
    (c.0 - a.0) * (b.1 - a.1) - (c.1 - a.1) * (b.0 - a.0)
}

/// The fraction `num / den` (`den > 0`) lies strictly between `10^-9` and
/// `1 - 10^-9`.
pub open spec fn strictly_interior(num: int, den: int) -> bool {
    &&& PARAM_SCALE * num > den
    &&& PARAM_SCALE * num < (PARAM_SCALE - 1) * den
}

/// `num / den` with the sign moved into the numerator, so the denominator
/// is positive (`den != 0`).
pub open spec fn normalized(num: int, den: int) -> (int, int) {
    if den < 0 {
        (-num, -den)
    } else {
        (num, den)
    }
}

/// The outcome of the crossing test: `None` when the directions are
/// parallel or a parameter is not strictly interior, else the parameters
/// `(t, u)` as fractions `(numerator, denominator)` with a positive
/// denominator.
pub open spec fn crossing_of(a: (i32, i32), b: (i32, i32), c: (i32, i32), d: (i32, i32)) -> Option<
    ((int, int), (int, int)),
> {
    let cr = cross_of(a, b, c, d);
    let t = normalized(t_num_of(a, b, c, d), cr);
    let u = normalized(u_num_of(a, b, c, d), cr);
    if cr == 0 {
        None
    } else if strictly_interior(t.0, t.1) && strictly_interior(u.0, u.1) {
        Some((t, u))
    } else {
        None
    }
}

/// The test does not depend on which segment comes first: swapping the two
/// segments swaps the parameters.
pub proof fn lemma_crossing_symmetric(a: (i32, i32), b: (i32, i32), c: (i32, i32), d: (i32, i32))
    ensures
        crossing_of(c, d, a, b) == match crossing_of(a, b, c, d) {
            Some((t, u)) => Some((u, t)),
            None => None,
        },
{
    let (ax, ay, bx, by) = (a.0 as int, a.1 as int, b.0 as int, b.1 as int);
    let (cx, cy, dx, dy) = (c.0 as int, c.1 as int, d.0 as int, d.1 as int);
    assert(cross_of(c, d, a, b) == -cross_of(a, b, c, d)) by (nonlinear_arith)
        requires
            cross_of(c, d, a, b) == (dx - cx) * (by - ay) - (dy - cy) * (bx - ax),
            cross_of(a, b, c, d) == (bx - ax) * (dy - cy) - (by - ay) * (dx - cx),
    ;
    assert(t_num_of(c, d, a, b) == -u_num_of(a, b, c, d)) by (nonlinear_arith)
        requires
            t_num_of(c, d, a, b) == (ax - cx) * (by - ay) - (ay - cy) * (bx - ax),
            u_num_of(a, b, c, d) == (cx - ax) * (by - ay) - (cy - ay) * (bx - ax),
    ;
    assert(u_num_of(c, d, a, b) == -t_num_of(a, b, c, d)) by (nonlinear_arith)
        requires
            u_num_of(c, d, a, b) == (ax - cx) * (dy - cy) - (ay - cy) * (dx - cx),
            t_num_of(a, b, c, d) == (cx - ax) * (dy - cy) - (cy - ay) * (dx - cx),
    ;
}

/// Walking the second segment backwards turns its parameter `u` into
/// `1 - u` and leaves everything else as it was.
pub proof fn lemma_crossing_reversed(a: (i32, i32), b: (i32, i32), c: (i32, i32), d: (i32, i32))
    ensures
        crossing_of(a, b, d, c) == match crossing_of(a, b, c, d) {
            Some((t, u)) => Some((t, (u.1 - u.0, u.1))),
            None => None,
        },
{
    let (ax, ay, bx, by) = (a.0 as int, a.1 as int, b.0 as int, b.1 as int);
    let (cx, cy, dx, dy) = (c.0 as int, c.1 as int, d.0 as int, d.1 as int);
    let cr = cross_of(a, b, c, d);
    assert(cross_of(a, b, d, c) == -cr) by (nonlinear_arith)
        requires
            cross_of(a, b, d, c) == (bx - ax) * (cy - dy) - (by - ay) * (cx - dx),
            cr == (bx - ax) * (dy - cy) - (by - ay) * (dx - cx),
    ;
    assert(t_num_of(a, b, d, c) == -t_num_of(a, b, c, d)) by (nonlinear_arith)
        requires
            t_num_of(a, b, d, c) == (dx - ax) * (cy - dy) - (dy - ay) * (cx - dx),
            t_num_of(a, b, c, d) == (cx - ax) * (dy - cy) - (cy - ay) * (dx - cx),
    ;
    assert(u_num_of(a, b, d, c) == u_num_of(a, b, c, d) - cr) by (nonlinear_arith)
        requires
            u_num_of(a, b, d, c) == (dx - ax) * (by - ay) - (dy - ay) * (bx - ax),
            u_num_of(a, b, c, d) == (cx - ax) * (by - ay) - (cy - ay) * (bx - ax),
            cr == (bx - ax) * (dy - cy) - (by - ay) * (dx - cx),
    ;
}

/// The parameter `num / den` (`den > 0`) lies strictly between `10^-9`
/// and `1 - 10^-9`, written out with the tolerance's own numbers.
pub open spec fn within_tolerance(num: int, den: int) -> bool {
    &&& 1_000_000_000 * num > den
    &&& 1_000_000_000 * num < 999_999_999 * den
}

/// `(tn / den, un / den)` are parameters at which `AB` and `CD` meet:
/// `A + t (B - A) == C + u (D - C)`, scaled by `den`.
pub open spec fn meet_at(
    a: (i32, i32),
    b: (i32, i32),
    c: (i32, i32),
    d: (i32, i32),
    tn: int,
    un: int,
    den: int,
) -> bool {
    &&& den * a.0 + tn * (b.0 - a.0) == den * c.0 + un * (d.0 - c.0)
    &&& den * a.1 + tn * (b.1 - a.1) == den * c.1 + un * (d.1 - c.1)
}

proof fn lemma_cramer(w0: int, w1: int, p0: int, p1: int, q0: int, q1: int, tn: int, un: int, den: int)
    requires
        den * w0 == tn * p0 - un * q0,
        den * w1 == tn * p1 - un * q1,
    ensures
        den * (w0 * q1 - w1 * q0) == tn * (p0 * q1 - p1 * q0),
        den * (w0 * p1 - w1 * p0) == un * (p0 * q1 - p1 * q0),
{
    assert(den * w0 * q1 == (tn * p0 - un * q0) * q1) by (nonlinear_arith)
        requires
            den * w0 == tn * p0 - un * q0,
    ;
    assert(den * w1 * q0 == (tn * p1 - un * q1) * q0) by (nonlinear_arith)
        requires
            den * w1 == tn * p1 - un * q1,
    ;
    assert(den * w0 * p1 == (tn * p0 - un * q0) * p1) by (nonlinear_arith)
        requires
            den * w0 == tn * p0 - un * q0,
    ;
    assert(den * w1 * p0 == (tn * p1 - un * q1) * p0) by (nonlinear_arith)
        requires
            den * w1 == tn * p1 - un * q1,
    ;
    assert(den * (w0 * q1 - w1 * q0) == den * w0 * q1 - den * w1 * q0) by (nonlinear_arith);
    assert(den * (w0 * p1 - w1 * p0) == den * w0 * p1 - den * w1 * p0) by (nonlinear_arith);
    assert((tn * p0 - un * q0) * q1 - (tn * p1 - un * q1) * q0 == tn * (p0 * q1 - p1 * q0))
        by (nonlinear_arith);
    assert((tn * p0 - un * q0) * p1 - (tn * p1 - un * q1) * p0 == un * (p0 * q1 - p1 * q0))
        by (nonlinear_arith);
}

proof fn lemma_same_fraction_same_tolerance(x: int, dx: int, y: int, dy: int)
    requires
        dx > 0,
        dy > 0,
        x * dy == y * dx,
    ensures
        within_tolerance(x, dx) <==> within_tolerance(y, dy),
{
    assert((1_000_000_000 * x > dx) <==> (1_000_000_000 * y > dy)) by (nonlinear_arith)
        requires
            dx > 0,
            dy > 0,
            x * dy == y * dx,
    ;
    assert((1_000_000_000 * x < 999_999_999 * dx) <==> (1_000_000_000 * y < 999_999_999 * dy))
        by (nonlinear_arith)
        requires
            dx > 0,
            dy > 0,
            x * dy == y * dx,
    ;
}

/// What the crossing test decides. A crossing it reports is one: the two
/// segments meet at the reported parameters, which share a positive
/// denominator and lie strictly within the tolerance of both ends. And it
/// misses none: when it reports none, the segments are parallel, or every
/// pair of parameters at which they meet has one outside the tolerance.
pub proof fn lemma_crossing_means_meeting(a: (i32, i32), b: (i32, i32), c: (i32, i32), d: (i32, i32))
    ensures
        crossing_of(a, b, c, d) matches Some((t, u)) ==> {
            &&& t.1 > 0 && u.1 == t.1
            &&& meet_at(a, b, c, d, t.0, u.0, t.1)
            &&& within_tolerance(t.0, t.1) && within_tolerance(u.0, u.1)
        },
        crossing_of(a, b, c, d) is None ==> cross_of(a, b, c, d) == 0 || forall|
            tn: int,
            un: int,
            den: int,
        |
            den > 0 && #[trigger] meet_at(a, b, c, d, tn, un, den) ==> !(within_tolerance(tn, den)
                && within_tolerance(un, den)),
{
    let (ax, ay, bx, by) = (a.0 as int, a.1 as int, b.0 as int, b.1 as int);
    let (cx, cy, dx, dy) = (c.0 as int, c.1 as int, d.0 as int, d.1 as int);
    let cr = cross_of(a, b, c, d);
    let t0 = t_num_of(a, b, c, d);
    let u0 = u_num_of(a, b, c, d);
    // The exact solution meets: cr * (C - A) == t0 * (B - A) - u0 * (D - C).
    assert(cr * (cx - ax) == t0 * (bx - ax) - u0 * (dx - cx)) by (nonlinear_arith)
        requires
            cr == (bx - ax) * (dy - cy) - (by - ay) * (dx - cx),
            t0 == (cx - ax) * (dy - cy) - (cy - ay) * (dx - cx),
            u0 == (cx - ax) * (by - ay) - (cy - ay) * (bx - ax),
    ;
    assert(cr * (cy - ay) == t0 * (by - ay) - u0 * (dy - cy)) by (nonlinear_arith)
        requires
            cr == (bx - ax) * (dy - cy) - (by - ay) * (dx - cx),
            t0 == (cx - ax) * (dy - cy) - (cy - ay) * (dx - cx),
            u0 == (cx - ax) * (by - ay) - (cy - ay) * (bx - ax),
    ;
    assert(cr * ax + t0 * (bx - ax) == cr * cx + u0 * (dx - cx) && -cr * ax + -t0 * (bx - ax)
        == -cr * cx + -u0 * (dx - cx)) by (nonlinear_arith)
        requires
            cr * (cx - ax) == t0 * (bx - ax) - u0 * (dx - cx),
    ;
    assert(cr * ay + t0 * (by - ay) == cr * cy + u0 * (dy - cy) && -cr * ay + -t0 * (by - ay)
        == -cr * cy + -u0 * (dy - cy)) by (nonlinear_arith)
        requires
            cr * (cy - ay) == t0 * (by - ay) - u0 * (dy - cy),
    ;
    assert(meet_at(a, b, c, d, t0, u0, cr));
    assert(meet_at(a, b, c, d, -t0, -u0, -cr));
    if cr != 0 {
        let t = normalized(t0, cr);
        let u = normalized(u0, cr);
        assert forall|tn: int, un: int, den: int|
            den > 0 && #[trigger] meet_at(a, b, c, d, tn, un, den) implies (within_tolerance(
                tn,
                den,
            ) <==> strictly_interior(t.0, t.1)) && (within_tolerance(un, den)
                <==> strictly_interior(u.0, u.1)) by {
            assert(den * (cx - ax) == tn * (bx - ax) - un * (dx - cx) && den * (cy - ay) == tn * (by
                - ay) - un * (dy - cy)) by (nonlinear_arith)
                requires
                    den * ax + tn * (bx - ax) == den * cx + un * (dx - cx),
                    den * ay + tn * (by - ay) == den * cy + un * (dy - cy),
            ;
            lemma_cramer(
                cx - ax,
                cy - ay,
                bx - ax,
                by - ay,
                dx - cx,
                dy - cy,
                tn,
                un,
                den,
            );
            assert(den * t0 == tn * cr);
            assert(den * u0 == un * cr);
            assert(tn * t.1 == t.0 * den) by (nonlinear_arith)
                requires
                    den * t0 == tn * cr,
                    t == normalized(t0, cr),
            ;
            assert(un * u.1 == u.0 * den) by (nonlinear_arith)
                requires
                    den * u0 == un * cr,
                    u == normalized(u0, cr),
            ;
            lemma_same_fraction_same_tolerance(tn, den, t.0, t.1);
            lemma_same_fraction_same_tolerance(un, den, u.0, u.1);
        }
    }
}

proof fn lemma_product_bound(x: int, y: int)
    requires
        -0x1_0000_0000 <= x <= 0x1_0000_0000,
        -0x1_0000_0000 <= y <= 0x1_0000_0000,
    ensures
        -0x1_0000_0000_0000_0000 <= x * y <= 0x1_0000_0000_0000_0000,
{
    assert(-0x1_0000_0000_0000_0000 <= x * y <= 0x1_0000_0000_0000_0000) by (nonlinear_arith)
        requires
            -0x1_0000_0000 <= x <= 0x1_0000_0000,
            -0x1_0000_0000 <= y <= 0x1_0000_0000,
    ;
}

fn interior(num: i128, den: i128) -> (r: bool)
    requires
        -0x4_0000_0000_0000_0000 <= num <= 0x4_0000_0000_0000_0000,
        0 < den <= 0x4_0000_0000_0000_0000,
    ensures
        r == strictly_interior(num as int, den as int),
{
    proof {
        assert(-0x10_0000_0000_0000_0000_0000_0000 <= PARAM_SCALE * num
            <= 0x10_0000_0000_0000_0000_0000_0000) by (nonlinear_arith)
            requires
                -0x4_0000_0000_0000_0000 <= num <= 0x4_0000_0000_0000_0000,
        ;
        assert(0 < (PARAM_SCALE - 1) * den <= 0x10_0000_0000_0000_0000_0000_0000) by (
        nonlinear_arith)
            requires
                0 < den <= 0x4_0000_0000_0000_0000,
        ;
    }
    PARAM_SCALE * num > den && PARAM_SCALE * num < (PARAM_SCALE - 1) * den
}

/// Whether segments `AB` and `CD` cross transversally, and where: the
/// parameters `(t, u)` along each, as exact fractions `(numerator,
/// denominator)` with a positive denominator (see [`crossing_of`]).
pub fn segment_segment_intersection_2d(a: (i32, i32), b: (i32, i32), c: (i32, i32), d: (i32, i32)) -> (r:
    Option<((i128, i128), (i128, i128))>)
    ensures
        r is Some <==> crossing_of(a, b, c, d) is Some,
        r matches Some(p) ==> crossing_of(a, b, c, d) == Some(
            ((p.0.0 as int, p.0.1 as int), (p.1.0 as int, p.1.1 as int)),
        ),
{
    let d1x = b.0 as i128 - a.0 as i128;
    let d1y = b.1 as i128 - a.1 as i128;
    let d2x = d.0 as i128 - c.0 as i128;
    let d2y = d.1 as i128 - c.1 as i128;
    let d3x = c.0 as i128 - a.0 as i128;
    let d3y = c.1 as i128 - a.1 as i128;
    proof {
        lemma_product_bound(d1x as int, d2y as int);
        lemma_product_bound(d1y as int, d2x as int);
        lemma_product_bound(d3x as int, d2y as int);
        lemma_product_bound(d3y as int, d2x as int);
        lemma_product_bound(d3x as int, d1y as int);
        lemma_product_bound(d3y as int, d1x as int);
    }
    let cross = d1x * d2y - d1y * d2x;
    if cross == 0 {
        return None;
    }
    let t_num = d3x * d2y - d3y * d2x;
    let u_num = d3x * d1y - d3y * d1x;
    let (tn, ud, un) = if cross < 0 {
        (-t_num, -cross, -u_num)
    } else {
        (t_num, cross, u_num)
    };
    if interior(tn, ud) && interior(un, ud) {
        Some(((tn, ud), (un, ud)))
    } else {
        None
    }
}

} // verus!
