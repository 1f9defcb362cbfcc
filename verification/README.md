# Geolis

The combinatorial core of an open CAD kernel, verified with Verus, and the
floating-point geometry built around it.

## Layout

- `src/` — the `geolis` library. Every function has a contract that Verus
  proves; no floating-point value is computed here.
  - `error`, `diagnostics`, `text`: error categories, operation health
    reports, and the decimal rendering used in error messages.
  - `knot`: knot vectors held by order keys (integers that order exactly
    as the `f64` knot values do): validation, domain, span search, and knot
    insertion at a span.
  - `layout`: the structural rules of NURBS curves and surfaces and the
    u-major storage of control grids.
  - `pline_topology`: the index structure of polylines (segments, joints,
    reversal, tessellation sources, pieces, divisions, crossing candidates,
    ring rotation).
  - `segment_cross`: the transverse crossing test of two segments, decided
    exactly on integer coordinates.
  - `crossing_scan`: which edge pairs of a boundary set are tested for
    crossings, and in which order.
  - `ear_clip`: the state of an ear-clipping triangulation.
  - `skeleton`, `ridge`: the wavefront cycles of the straight skeleton, the
    pairing of a collapsed cycle's walks into ridges, and the tracing of
    skeleton cells.
  - `runs`: maximal runs of valid samples along a sweep, and their joining
    across the seam of a closed profile.
- `tests/` — tests of the library.
- `app/` — the floating-point geometry (evaluation and construction of
  curves and surfaces, polylines, planar intersections, the
  straight-skeleton builder, triangulation, tessellation safety), calling
  the library for every structural decision.

## Not included

These parts of a complete kernel are not part of this crate:

- biarc fitting of Hermite data;
- the analytic curves (line, arc, circle, ellipse) and surfaces (cone,
  cylinder, sphere, torus);
- NURBS lofting and sweeping, rounded rectangles, closest-point
  projection onto a surface, and surface derivatives;
- the NURBS intersection routines (curve–curve, curve–surface,
  surface–plane, surface–surface).

Lofting, surface derivatives and closest-point projection rest on
basis-function derivatives and degree elevation, which the knot layer here
does not provide. The rest is floating-point geometry with no structural
decision of its own to prove; it is left out to keep `app/` small.

Two library modules have no caller in `app/` for that reason: `runs` is
the branch-joining step of a surface–plane intersection, and
`segment_cross` decides crossings exactly on integer coordinates, whereas
the polyline self-intersection search in `app/` works on floating-point
coordinates with a tolerance and keeps its own test.
