//! Scan order of the crossing search over a set of boundaries.
//!
//! Before a set of closed polylines is handed to a constrained
//! triangulation, every pair of edges that could cross transversally is
//! tested, and the first crossing in a fixed scan order is split. Which
//! pairs are tested, and in which order, depends only on the boundaries'
//! closed flags and vertex counts; the geometric test itself stays with the
//! caller.
//!
//! A candidate is `(boundary_a, edge_a, boundary_b, edge_b)`. Open
//! boundaries and boundaries of fewer than three vertices are skipped.
//! Within one boundary the non-adjacent pairs are tested (the same rule as
//! the self-intersection scan); across two boundaries every pair is.

use vstd::prelude::*;

use crate::pline_topology::{lemma_scanned_pairs_are_non_adjacent, non_adjacent, scanned_pair};

verus! {

/// A boundary `(closed, vertex_count)` takes part in the scan.
pub open spec fn scanned_boundary(b: (bool, usize)) -> bool {
    b.0 && b.1 >= 3
}

/// `q = (boundary_a, edge_a, boundary_b, edge_b)` is a pair the scan tests:
/// both boundaries take part, `boundary_a <= boundary_b`, both edges exist,
/// and within one boundary the two edges are a scanned non-adjacent pair.
pub open spec fn set_pair(bs: Seq<(bool, usize)>, q: (usize, usize, usize, usize)) -> bool {
    &&& q.0 <= q.2 < bs.len()
    &&& scanned_boundary(bs[q.0 as int])
    &&& scanned_boundary(bs[q.2 as int])
    &&& q.1 < bs[q.0 as int].1
    &&& q.3 < bs[q.2 as int].1
    &&& (q.0 == q.2 ==> scanned_pair(q.1 as int, q.3 as int, bs[q.0 as int].1 as int))
}

/// The pairs tested are exactly these: two edges of closed boundaries of
/// at least three vertices, the first boundary not after the second, and,
/// within one boundary, two edges that share no vertex, the smaller index
/// first.
pub proof fn lemma_set_pairs_are_exactly(bs: Seq<(bool, usize)>, q: (usize, usize, usize, usize))
    ensures
        set_pair(bs, q) <==> {
            &&& q.0 <= q.2 < bs.len()
            &&& bs[q.0 as int].0 && bs[q.0 as int].1 >= 3
            &&& bs[q.2 as int].0 && bs[q.2 as int].1 >= 3
            &&& q.1 < bs[q.0 as int].1
            &&& q.3 < bs[q.2 as int].1
            &&& (q.0 == q.2 ==> q.1 < q.3 && non_adjacent(
                q.1 as int,
                q.3 as int,
                bs[q.0 as int].1 as int,
            ))
        },
{
    if q.0 == q.2 && q.2 < bs.len() && q.1 < q.3 && q.3 < bs[q.0 as int].1 {
        lemma_scanned_pairs_are_non_adjacent(q.1 as int, q.3 as int, bs[q.0 as int].1 as int);
    }
}

/// `p` is tested before `q`: scan order is by `boundary_a`, then
/// `boundary_b`, then `edge_a`, then `edge_b`.
pub open spec fn scan_before(p: (usize, usize, usize, usize), q: (usize, usize, usize, usize)) -> bool {
    p.0 < q.0 || (p.0 == q.0 && (p.2 < q.2 || (p.2 == q.2 && (p.1 < q.1 || (p.1 == q.1 && p.3
        < q.3)))))
}

/// `out` holds, in scan order, exactly the tested pairs before `cursor`.
pub open spec fn scan_prefix(
    bs: Seq<(bool, usize)>,
    out: Seq<(usize, usize, usize, usize)>,
    cursor: (usize, usize, usize, usize),
) -> bool {
    &&& forall|k: int|
        0 <= k < out.len() ==> set_pair(bs, #[trigger] out[k]) && scan_before(out[k], cursor)
    &&& forall|q: (usize, usize, usize, usize)|
        #[trigger] set_pair(bs, q) && scan_before(q, cursor) ==> out.contains(q)
    &&& forall|a: int, b: int| 0 <= a < b < out.len() ==> scan_before(#[trigger] out[a], #[trigger] out[b])
}

proof fn lemma_prefix_push(
    bs: Seq<(bool, usize)>,
    out: Seq<(usize, usize, usize, usize)>,
    q: (usize, usize, usize, usize),
    next: (usize, usize, usize, usize),
)
    requires
        scan_prefix(bs, out, q),
        set_pair(bs, q),
        scan_before(q, next),
        forall|p: (usize, usize, usize, usize)|
            scan_before(p, next) && !scan_before(p, q) ==> p == q,
    ensures
        scan_prefix(bs, out.push(q), next),
{
    let o = out.push(q);
    assert forall|k: int| 0 <= k < o.len() implies set_pair(bs, #[trigger] o[k]) && scan_before(
        o[k],
        next,
    ) by {
        if k < out.len() {
            assert(o[k] == out[k]);
        }
    }
    assert forall|p: (usize, usize, usize, usize)|
        #[trigger] set_pair(bs, p) && scan_before(p, next) implies o.contains(p) by {
        if scan_before(p, q) {
            let k = choose|k: int| 0 <= k < out.len() && out[k] == p;
            assert(o[k] == p);
        } else {
            assert(o[out.len() as int] == p);
        }
    }
    assert forall|a: int, b: int| 0 <= a < b < o.len() implies scan_before(
        #[trigger] o[a],
        #[trigger] o[b],
    ) by {
        assert(o[a] == out[a]);
        if b < out.len() {
            assert(o[b] == out[b]);
        }
    }
}

proof fn lemma_prefix_skip(
    bs: Seq<(bool, usize)>,
    out: Seq<(usize, usize, usize, usize)>,
    cur: (usize, usize, usize, usize),
    next: (usize, usize, usize, usize),
)
    requires
        scan_prefix(bs, out, cur),
        !scan_before(next, cur),
        forall|p: (usize, usize, usize, usize)|
            scan_before(p, next) && !scan_before(p, cur) ==> !set_pair(bs, p),
    ensures
        scan_prefix(bs, out, next),
{
    assert forall|k: int| 0 <= k < out.len() implies set_pair(bs, #[trigger] out[k]) && scan_before(
        out[k],
        next,
    ) by {}
}

/// The edge pairs the crossing search tests on a set of boundaries, each
/// given as `(closed, vertex_count)`, in scan order: every pair of
/// [`set_pair`] exactly once, ordered by [`scan_before`].
pub fn set_crossing_candidates(boundaries: &Vec<(bool, usize)>) -> (r: Vec<(usize, usize, usize, usize)>)
    ensures
        forall|k: int| 0 <= k < r@.len() ==> set_pair(boundaries@, #[trigger] r@[k]),
        forall|q: (usize, usize, usize, usize)| #[trigger] set_pair(boundaries@, q) ==> r@.contains(q),
        forall|a: int, b: int| 0 <= a < b < r@.len() ==> scan_before(#[trigger] r@[a], #[trigger] r@[b]),
        forall|k: int|
            0 <= k < r@.len() ==> (#[trigger] r@[k]).0 <= r@[k].2 && (r@[k].0 == r@[k].2 ==> r@[k].1
                < r@[k].3),
{
    let ghost bs = boundaries@;
    let m = boundaries.len();
    let mut out: Vec<(usize, usize, usize, usize)> = Vec::new();
    let mut ba: usize = 0;
    while ba < m
        invariant
            bs == boundaries@,
            m == bs.len(),
            ba <= m,
            scan_prefix(bs, out@, (ba, 0, 0, 0)),
        decreases m - ba,
    {
        let (ca, na) = boundaries[ba];
        if ca && na >= 3 {
            let mut bb: usize = ba;
            proof {
                lemma_prefix_skip(bs, out@, (ba, 0, 0, 0), (ba, 0, bb, 0));
            }
            while bb < m
                invariant
                    bs == boundaries@,
                    m == bs.len(),
                    ba < m,
                    ba <= bb <= m,
                    bs[ba as int] == (ca, na),
                    scanned_boundary(bs[ba as int]),
                    scan_prefix(bs, out@, (ba, 0, bb, 0)),
                decreases m - bb,
            {
                let (cb, nb) = boundaries[bb];
                if cb && nb >= 3 {
                    if ba == bb {
                        let mut i: usize = 0;
                        while i < na
                            invariant
                                bs == boundaries@,
                                ba == bb,
                                bb < m,
                                m == bs.len(),
                                bs[ba as int] == (ca, na),
                                scanned_boundary(bs[ba as int]),
                                i <= na,
                                scan_prefix(bs, out@, (ba, i, bb, 0)),
                            decreases na - i,
                        {
                            let mut j: usize = if na - i >= 2 {
                                i + 2
                            } else {
                                na
                            };
                            proof {
                                lemma_prefix_skip(bs, out@, (ba, i, bb, 0), (ba, i, bb, j));
                            }
                            while j < na
                                invariant
                                    bs == boundaries@,
                                    ba == bb,
                                    bb < m,
                                    m == bs.len(),
                                    bs[ba as int] == (ca, na),
                                    scanned_boundary(bs[ba as int]),
                                    i < na,
                                    i + 2 <= j || j == na,
                                    j <= na,
                                    scan_prefix(bs, out@, (ba, i, bb, j)),
                                decreases na - j,
                            {
                                if !(i == 0 && j == na - 1) {
                                    proof {
                                        lemma_prefix_push(
                                            bs,
                                            out@,
                                            (ba, i, bb, j),
                                            (ba, i, bb, (j + 1) as usize),
                                        );
                                    }
                                    out.push((ba, i, bb, j));
                                } else {
                                    proof {
                                        lemma_prefix_skip(
                                            bs,
                                            out@,
                                            (ba, i, bb, j),
                                            (ba, i, bb, (j + 1) as usize),
                                        );
                                    }
                                }
                                j += 1;
                            }
                            proof {
                                lemma_prefix_skip(bs, out@, (ba, i, bb, j), (ba, (i + 1) as usize, bb, 0));
                            }
                            i += 1;
                        }
                    } else {
                        let mut i: usize = 0;
                        while i < na
                            invariant
                                bs == boundaries@,
                                ba < bb,
                                bb < m,
                                m == bs.len(),
                                bs[ba as int] == (ca, na),
                                bs[bb as int] == (cb, nb),
                                scanned_boundary(bs[ba as int]),
                                scanned_boundary(bs[bb as int]),
                                i <= na,
                                scan_prefix(bs, out@, (ba, i, bb, 0)),
                            decreases na - i,
                        {
                            let mut j: usize = 0;
                            while j < nb
                                invariant
                                    bs == boundaries@,
                                    ba < bb,
                                    bb < m,
                                    m == bs.len(),
                                    bs[ba as int] == (ca, na),
                                    bs[bb as int] == (cb, nb),
                                    scanned_boundary(bs[ba as int]),
                                    scanned_boundary(bs[bb as int]),
                                    i < na,
                                    j <= nb,
                                    scan_prefix(bs, out@, (ba, i, bb, j)),
                                decreases nb - j,
                            {
                                proof {
                                    lemma_prefix_push(
                                        bs,
                                        out@,
                                        (ba, i, bb, j),
                                        (ba, i, bb, (j + 1) as usize),
                                    );
                                }
                                out.push((ba, i, bb, j));
                                j += 1;
                            }
                            proof {
                                lemma_prefix_skip(bs, out@, (ba, i, bb, j), (ba, (i + 1) as usize, bb, 0));
                            }
                            i += 1;
                        }
                    }
                    proof {
                        lemma_prefix_skip(bs, out@, (ba, na, bb, 0), (ba, 0, (bb + 1) as usize, 0));
                    }
                } else {
                    proof {
                        lemma_prefix_skip(bs, out@, (ba, 0, bb, 0), (ba, 0, (bb + 1) as usize, 0));
                    }
                }
                bb += 1;
            }
            proof {
                lemma_prefix_skip(bs, out@, (ba, 0, bb, 0), ((ba + 1) as usize, 0, 0, 0));
            }
        } else {
            proof {
                lemma_prefix_skip(bs, out@, (ba, 0, 0, 0), ((ba + 1) as usize, 0, 0, 0));
            }
        }
        ba += 1;
    }
    proof {
        assert forall|q: (usize, usize, usize, usize)| #[trigger] set_pair(bs, q) implies out@.contains(
            q,
        ) by {
            assert(scan_before(q, (ba, 0, 0, 0)));
        }
    }
    out
}

} // verus!
