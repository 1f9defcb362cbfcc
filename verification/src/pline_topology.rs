//! Index structure of bulge-encoded polylines.
//!
//! A polyline of `n` vertices has segments `0..segment_count`, segment `i`
//! joining vertex `i` to vertex `(i + 1) % n`; a closed polyline has one
//! more segment than an open one, the seam. Everything here depends on the
//! vertex count and the closed flag only: which segments meet at a joint,
//! which vertex a reversed polyline takes its data from, which pairs of
//! edges of a closed ring can cross at all, how many segments a piece walks
//! and how many samples a division yields.

use vstd::prelude::*;

use crate::error::{degenerate_with, GeometryError};

verus! {

/// Number of segments of a polyline with `n` vertices: none below two
/// vertices, `n` when closed, `n - 1` when open.
pub open spec fn segment_count_of(n: nat, closed: bool) -> nat {
    if n < 2 {
        0
    } else if closed {
        n
    } else {
        (n - 1) as nat
    }
}

/// Returns the number of segments in a polyline of `vertex_count` vertices.
pub fn segment_count(vertex_count: usize, closed: bool) -> (r: usize)
    ensures
        r == segment_count_of(vertex_count as nat, closed),
{
    if vertex_count < 2 {
        0
    } else if closed {
        vertex_count
    } else {
        vertex_count - 1
    }
}

/// The segments meeting at joint `j`: `(incoming, outgoing)`. On a closed
/// polyline joint `j` is vertex `j` (joint 0 is the seam, joining the last
/// segment to the first); on an open one it is vertex `j + 1`.
pub open spec fn joint_of(j: int, segments: int, closed: bool) -> (usize, usize) {
    if closed {
        (((j + segments - 1) % segments) as usize, j as usize)
    } else {
        (j as usize, (j + 1) as usize)
    }
}

/// Number of joints (vertices where two segments meet).
pub open spec fn joint_count_of(n: nat, closed: bool) -> nat {
    let s = segment_count_of(n, closed);
    if s < 2 {
        0
    } else if closed {
        s
    } else {
        (s - 1) as nat
    }
}

/// The `(incoming, outgoing)` segment pair of every joint, in joint order.
///
/// An open polyline of `n` vertices has `n - 2` joints (its free ends are
/// not joints); a closed one has one per vertex, the seam included; with
/// fewer than two segments there is none.
pub fn joint_segments(vertex_count: usize, closed: bool) -> (r: Vec<(usize, usize)>)
    ensures
        r@.len() == joint_count_of(vertex_count as nat, closed),
        forall|j: int|
            0 <= j < r@.len() ==> #[trigger] r@[j] == joint_of(
                j,
                segment_count_of(vertex_count as nat, closed) as int,
                closed,
            ),
        forall|j: int|
            0 <= j < r@.len() ==> r@[j].0 < segment_count_of(vertex_count as nat, closed)
                && r@[j].1 < segment_count_of(vertex_count as nat, closed),
        forall|j: int|
            0 <= j < r@.len() ==> {
                let p = #[trigger] r@[j];
                &&& p.1 == if closed {
                    j
                } else {
                    j + 1
                }
                &&& (p.0 + 1) % (segment_count_of(vertex_count as nat, closed) as int) == p.1
            },
{
    let segments = segment_count(vertex_count, closed);
    let mut out: Vec<(usize, usize)> = Vec::new();
    if segments < 2 {
        return out;
    }
    let joints = if closed {
        segments
    } else {
        segments - 1
    };
    let mut j: usize = 0;
    while j < joints
        invariant
            segments == segment_count_of(vertex_count as nat, closed),
            segments >= 2,
            joints == joint_count_of(vertex_count as nat, closed),
            joints <= segments,
            j <= joints,
            out@.len() == j,
            forall|i: int| 0 <= i < j ==> #[trigger] out@[i] == joint_of(i, segments as int, closed),
            forall|i: int| 0 <= i < j ==> out@[i].0 < segments && out@[i].1 < segments,
            forall|i: int|
                0 <= i < j ==> {
                    let p = #[trigger] out@[i];
                    &&& p.1 == if closed {
                        i
                    } else {
                        i + 1
                    }
                    &&& (p.0 + 1) % (segments as int) == p.1
                },
        decreases joints - j,
    {
        let pair = if closed {
            let incoming = if j == 0 {
                segments - 1
            } else {
                j - 1
            };
            proof {
                assert(incoming == (j + segments - 1) % (segments as int)) by (nonlinear_arith)
                    requires
                        j == 0 ==> incoming == segments - 1,
                        j != 0 ==> incoming == j - 1,
                        j < segments,
                ;
                assert((incoming + 1) % (segments as int) == j) by (nonlinear_arith)
                    requires
                        j == 0 ==> incoming == segments - 1,
                        j != 0 ==> incoming == j - 1,
                        j < segments,
                ;
            }
            (incoming, j)
        } else {
            proof {
                assert((j + 1) % (segments as int) == j + 1) by (nonlinear_arith)
                    requires
                        j + 1 < segments,
                ;
            }
            (j, j + 1)
        };
        out.push(pair);
        j += 1;
    }
    out
}

/// Where vertex `j` of the reversed polyline takes its data from:
/// coordinates of source vertex `n - 1 - j`, and the bulge of source
/// segment `n - 2 - j` negated. The last vertex starts the seam when the
/// polyline is closed, the reverse of source segment `n - 1`; on an open
/// polyline (or one of fewer than two vertices) it starts no segment and
/// gets bulge 0.
pub open spec fn reversed_source(j: int, n: int, closed: bool) -> (usize, Option<usize>) {
    (
        (n - 1 - j) as usize,
        if j < n - 1 {
            Some((n - 2 - j) as usize)
        } else if closed && n >= 2 {
            Some((n - 1) as usize)
        } else {
            None
        },
    )
}

/// Reversal walks the source backwards: reversed vertex `j` of `n` is
/// source vertex `n - 1 - j`; every bulge source named is an existing
/// segment, the one joining the source vertices behind reversed vertices
/// `j` and `(j + 1) % n` (from the latter to the former); and each segment
/// of the reversed polyline has one.
pub proof fn lemma_reversal_walks_backwards(n: nat, closed: bool, j: int)
    requires
        0 <= j < n,
        n <= usize::MAX,
    ensures
        reversed_source(j, n as int, closed).0 == n - 1 - j,
        reversed_source(j, n as int, closed).1 matches Some(s) ==> {
            &&& s < segment_count_of(n, closed)
            &&& s == (n - 1 - (j + 1) % (n as int))
            &&& (s + 1) % (n as int) == n - 1 - j
        },
        j < segment_count_of(n, closed) <==> reversed_source(j, n as int, closed).1 is Some,
{
    if j + 1 < n {
        vstd::arithmetic::div_mod::lemma_small_mod((j + 1) as nat, n);
        vstd::arithmetic::div_mod::lemma_small_mod((n - 1 - j) as nat, n);
    } else {
        vstd::arithmetic::div_mod::lemma_mod_self_0(n as int);
    }
}

/// The data sources of every vertex of the reversed polyline, in order.
///
/// Reversal is an involution on coordinates, and every segment `j` of the
/// reversed polyline (joining reversed vertices `j` and `(j + 1) % n`) takes
/// its bulge from the source segment joining the source vertices behind
/// them, traversed backwards; a vertex that starts no segment takes none.
pub fn reversed_sources(vertex_count: usize, closed: bool) -> (r: Vec<(usize, Option<usize>)>)
    ensures
        r@.len() == vertex_count,
        forall|j: int|
            0 <= j < r@.len() ==> #[trigger] r@[j] == reversed_source(j, vertex_count as int, closed),
        forall|j: int| 0 <= j < r@.len() ==> (#[trigger] r@[j]).0 == vertex_count - 1 - j,
        forall|j: int|
            0 <= j < r@.len() ==> ((#[trigger] r@[j]).1 matches Some(s) ==> s < segment_count_of(
                vertex_count as nat,
                closed,
            )),
        forall|j: int| 0 <= j < r@.len() ==> r@[r@[j].0 as int].0 == j,
        forall|j: int|
            0 <= j < segment_count_of(vertex_count as nat, closed) ==> {
                let s = (#[trigger] r@[j]).1;
                &&& s == Some(r@[(j + 1) % (vertex_count as int)].0)
                &&& (s.unwrap() + 1) % (vertex_count as int) == r@[j].0
            },
        forall|j: int|
            segment_count_of(vertex_count as nat, closed) <= j < r@.len() ==> (#[trigger] r@[j]).1
                is None,
{
    let m = vertex_count;
    let mut out: Vec<(usize, Option<usize>)> = Vec::new();
    let mut j: usize = 0;
    while j < m
        invariant
            m == vertex_count,
            j <= m,
            out@.len() == j,
            forall|i: int| 0 <= i < j ==> #[trigger] out@[i] == reversed_source(i, m as int, closed),
        decreases m - j,
    {
        let bulge_from = if j < m - 1 {
            Some(m - 2 - j)
        } else if closed && m >= 2 {
            Some(m - 1)
        } else {
            None
        };
        out.push((m - 1 - j, bulge_from));
        j += 1;
    }
    proof {
        assert forall|j: int| 0 <= j < out@.len() implies out@[out@[j].0 as int].0 == j by {
            assert(out@[j] == reversed_source(j, m as int, closed));
            assert(out@[(m - 1 - j) as int] == reversed_source(m - 1 - j, m as int, closed));
        }
        assert forall|j: int| 0 <= j < segment_count_of(m as nat, closed) implies {
            let s = (#[trigger] out@[j]).1;
            &&& s == Some(out@[(j + 1) % (m as int)].0)
            &&& (s.unwrap() + 1) % (m as int) == out@[j].0
        } by {
            assert(out@[j] == reversed_source(j, m as int, closed));
            if j < m - 1 {
                vstd::arithmetic::div_mod::lemma_small_mod((j + 1) as nat, m as nat);
                vstd::arithmetic::div_mod::lemma_small_mod((m - 1 - j) as nat, m as nat);
                assert(out@[j + 1] == reversed_source(j + 1, m as int, closed));
            } else {
                assert((j + 1) % (m as int) == 0);
                assert(out@[0] == reversed_source(0, m as int, closed));
                assert((m - 1 + 1) % (m as int) == 0);
            }
        }
    }
    out
}

/// Edges `i` and `j` of a closed ring of `n` edges share no vertex: edge
/// `k` joins vertices `k` and `(k + 1) % n`.
pub open spec fn non_adjacent(i: int, j: int, n: int) -> bool {
    &&& i != j
    &&& (i + 1) % n != j
    &&& (j + 1) % n != i
}

/// `(a, b)` comes strictly before `(c, d)` in lexicographic order.
pub open spec fn lex_before(p: (usize, usize), q: (usize, usize)) -> bool {
    p.0 < q.0 || (p.0 == q.0 && p.1 < q.1)
}

/// The scan rule of the crossing search: `i + 2 <= j < n`, skipping the
/// wrap-around pair `(0, n - 1)` that shares vertex 0.
pub open spec fn scanned_pair(i: int, j: int, n: int) -> bool {
    0 <= i && i + 2 <= j < n && !(i == 0 && j == n - 1)
}

/// The scan rule picks exactly the pairs of distinct, non-adjacent edges,
/// each once with the smaller index first.
pub proof fn lemma_scanned_pairs_are_non_adjacent(i: int, j: int, n: int)
    requires
        0 <= i < j < n,
    ensures
        scanned_pair(i, j, n) <==> non_adjacent(i, j, n),
{
    if i + 1 < n {
        assert((i + 1) % n == i + 1) by (nonlinear_arith)
            requires
                0 <= i + 1 < n,
        ;
    }
    if j + 1 < n {
        assert((j + 1) % n == j + 1) by (nonlinear_arith)
            requires
                0 <= j + 1 < n,
        ;
    } else {
        assert((j + 1) % n == 0) by (nonlinear_arith)
            requires
                j + 1 == n,
                n > 0,
        ;
    }
}

/// The pairs of edges of a closed ring of `edge_count` edges that a
/// self-intersection scan has to test, in scan order: `(i, j)` with
/// `i < j`, the two edges sharing no vertex, ordered by `i` then `j`. A
/// ring of fewer than four edges has no such pair.
pub fn crossing_candidates(edge_count: usize) -> (r: Vec<(usize, usize)>)
    requires
        edge_count < usize::MAX,
    ensures
        forall|k: int|
            0 <= k < r@.len() ==> {
                let p = #[trigger] r@[k];
                p.0 < p.1 < edge_count && non_adjacent(p.0 as int, p.1 as int, edge_count as int)
            },
        forall|i: usize, j: usize|
            i < j < edge_count && non_adjacent(i as int, j as int, edge_count as int) ==> r@.contains(
                (i, j),
            ),
        forall|a: int, b: int| 0 <= a < b < r@.len() ==> lex_before(r@[a], r@[b]),
{
    let n = edge_count;
    let mut out: Vec<(usize, usize)> = Vec::new();
    let mut i: usize = 0;
    while i < n
        invariant
            n == edge_count,
            n < usize::MAX,
            i <= n,
            forall|k: int|
                0 <= k < out@.len() ==> {
                    let p = #[trigger] out@[k];
                    p.0 < i && scanned_pair(p.0 as int, p.1 as int, n as int)
                },
            forall|a: usize, b: usize|
                a < i && scanned_pair(a as int, b as int, n as int) ==> out@.contains((a, b)),
            forall|a: int, b: int| 0 <= a < b < out@.len() ==> lex_before(out@[a], out@[b]),
        decreases n - i,
    {
        let mut j: usize = i + 2;
        let ghost before = out@;
        while j < n
            invariant
                n == edge_count,
                i < n,
                i + 2 <= j,
                out@.len() >= before.len(),
                out@.subrange(0, before.len() as int) == before,
                forall|k: int|
                    0 <= k < out@.len() ==> {
                        let p = #[trigger] out@[k];
                        p.0 <= i && scanned_pair(p.0 as int, p.1 as int, n as int)
                    },
                forall|k: int|
                    before.len() <= k < out@.len() ==> {
                        let p = #[trigger] out@[k];
                        p.0 == i && p.1 < j
                    },
                forall|k: int|
                    0 <= k < before.len() ==> {
                        let p = #[trigger] before[k];
                        p.0 < i
                    },
                forall|a: usize, b: usize|
                    a < i && scanned_pair(a as int, b as int, n as int) ==> before.contains((a, b)),
                forall|b: usize|
                    b < j && scanned_pair(i as int, b as int, n as int) ==> out@.contains((i, b)),
                forall|a: int, b: int| 0 <= a < b < out@.len() ==> lex_before(out@[a], out@[b]),
            decreases n - j,
        {
            if !(i == 0 && j == n - 1) {
                let ghost prev = out@;
                out.push((i, j));
                proof {
                    assert(out@[prev.len() as int] == (i, j));
                    assert forall|a: int, b: int| 0 <= a < b < out@.len() implies lex_before(
                        out@[a],
                        out@[b],
                    ) by {
                        if b < prev.len() {
                            assert(out@[a] == prev[a] && out@[b] == prev[b]);
                        } else {
                            assert(out@[a] == prev[a]);
                            if a < before.len() {
                                assert(prev[a] == before[a]);
                            }
                        }
                    }
                    assert forall|b: usize|
                        b < j + 1 && scanned_pair(i as int, b as int, n as int) implies out@.contains(
                        (i, b),
                    ) by {
                        if b < j {
                            let k = choose|k: int| 0 <= k < prev.len() && prev[k] == (i, b);
                            assert(out@[k] == (i, b));
                        } else {
                            assert(out@[prev.len() as int] == (i, b));
                        }
                    }
                    assert(out@.subrange(0, before.len() as int) =~= before);
                }
            }
            j += 1;
        }
        proof {
            assert forall|a: usize, b: usize|
                a < i + 1 && scanned_pair(a as int, b as int, n as int) implies out@.contains(
                (a, b),
            ) by {
                if a < i {
                    let k = choose|k: int| 0 <= k < before.len() && before[k] == (a, b);
                    assert(out@[k] == (a, b));
                } else {
                    assert(b < n);
                }
            }
        }
        i += 1;
    }
    proof {
        assert forall|a: usize, b: usize|
            a < b < edge_count && non_adjacent(a as int, b as int, edge_count as int) implies out@.contains(
            (a, b),
        ) by {
            lemma_scanned_pairs_are_non_adjacent(a as int, b as int, n as int);
        }
        assert forall|k: int| 0 <= k < out@.len() implies {
            let p = #[trigger] out@[k];
            p.0 < p.1 < edge_count && non_adjacent(p.0 as int, p.1 as int, edge_count as int)
        } by {
            let p = out@[k];
            lemma_scanned_pairs_are_non_adjacent(p.0 as int, p.1 as int, n as int);
        }
    }
    out
}

/// The ring `items` read from position `start` on: `items[start..]`
/// followed by `items[..start]`, the same closed ring with `start` first.
pub fn rotated_ring<T: Copy>(items: &Vec<T>, start: usize) -> (r: Vec<T>)
    requires
        start <= items@.len(),
    ensures
        r@ == items@.subrange(start as int, items@.len() as int) + items@.subrange(0, start as int),
        r@.len() == items@.len(),
        forall|k: int|
            0 <= k < items@.len() ==> #[trigger] r@[k] == items@[(k + start) % (items@.len() as int)],
{
    let n = items.len();
    let mut out: Vec<T> = Vec::new();
    let mut i: usize = start;
    while i < n
        invariant
            start <= i <= n,
            n == items@.len(),
            out@ == items@.subrange(start as int, i as int),
        decreases n - i,
    {
        out.push(items[i]);
        proof {
            assert(out@ =~= items@.subrange(start as int, i + 1));
        }
        i += 1;
    }
    let mut j: usize = 0;
    while j < start
        invariant
            j <= start <= n,
            n == items@.len(),
            out@ == items@.subrange(start as int, n as int) + items@.subrange(0, j as int),
        decreases start - j,
    {
        out.push(items[j]);
        proof {
            assert(out@ =~= items@.subrange(start as int, n as int) + items@.subrange(0, j + 1));
        }
        j += 1;
    }
    proof {
        assert forall|k: int| 0 <= k < n implies #[trigger] out@[k] == items@[(k + start) % (n as int)] by {
            if k < n - start {
                assert((k + start) % (n as int) == k + start) by (nonlinear_arith)
                    requires
                        0 <= k + start < n,
                ;
            } else {
                assert((k + start) % (n as int) == k + start - n) by (nonlinear_arith)
                    requires
                        n <= k + start < 2 * n,
                ;
            }
        }
    }
    out
}

/// Number of whole segments a piece of a polyline with `segments`
/// segments walks from segment `from_edge` to segment `to_edge`: the
/// forward distance modulo `segments`, or a full lap when the two lie on
/// the same segment and `full_lap` tells that the piece goes around the
/// loop first (it wraps through the seam, or ends behind where it starts).
pub open spec fn piece_steps_of(segments: int, from_edge: int, to_edge: int, full_lap: bool) -> int {
    let steps = (to_edge + segments - from_edge) % segments;
    if steps == 0 && full_lap {
        segments
    } else {
        steps
    }
}

/// Computes [`piece_steps_of`].
pub fn piece_edge_steps(segments: usize, from_edge: usize, to_edge: usize, full_lap: bool) -> (r:
    usize)
    requires
        from_edge < segments,
        to_edge < segments,
    ensures
        r == piece_steps_of(segments as int, from_edge as int, to_edge as int, full_lap),
        r <= segments,
        (from_edge + r) % (segments as int) == to_edge,
        r == segments <==> from_edge == to_edge && full_lap,
{
    let steps = if to_edge >= from_edge {
        to_edge - from_edge
    } else {
        to_edge + (segments - from_edge)
    };
    proof {
        assert(steps == (to_edge + segments - from_edge) % (segments as int)) by (nonlinear_arith)
            requires
                to_edge >= from_edge ==> steps == to_edge - from_edge,
                to_edge < from_edge ==> steps == to_edge + (segments - from_edge),
                from_edge < segments,
                to_edge < segments,
        ;
        assert((from_edge + steps) % (segments as int) == to_edge && steps < segments && (steps == 0
            <==> from_edge == to_edge) && (from_edge + segments) % (segments as int) == from_edge)
            by (nonlinear_arith)
            requires
                to_edge >= from_edge ==> steps == to_edge - from_edge,
                to_edge < from_edge ==> steps == to_edge + (segments - from_edge),
                from_edge < segments,
                to_edge < segments,
        ;
    }
    if steps == 0 && full_lap {
        segments
    } else {
        steps
    }
}

/// Number of samples a division into `count` equal parts yields: both ends
/// for an open polyline (`count + 1`), the seam once for a closed one
/// (`count`). Fails with `Degenerate` when `count` is 0.
pub fn division_sample_count(count: usize, closed: bool) -> (r: Result<usize, GeometryError>)
    requires
        !closed ==> count < usize::MAX,
    ensures
        count == 0 ==> degenerate_with(r, "division count must be >= 1"@),
        r is Ok <==> count > 0,
        r matches Ok(k) ==> k == if closed {
            count
        } else {
            (count + 1) as usize
        },
{
    if count == 0 {
        return Err(GeometryError::Degenerate(String::from_str("division count must be >= 1")));
    }
    Ok(
        if closed {
            count
        } else {
            count + 1
        },
    )
}

/// The source segment of every tessellated edge, given how many chords each
/// segment is tessellated into (one for a line, one per subdivision for an
/// arc): segment `i` contributes `chords[i]` entries `i`, in segment order.
pub open spec fn edge_sources_of(chords: Seq<usize>) -> Seq<usize>
    decreases chords.len(),
{
    if chords.len() == 0 {
        Seq::empty()
    } else {
        let last = (chords.len() - 1) as usize;
        edge_sources_of(chords.drop_last()) + Seq::new(chords.last() as nat, |k: int| last)
    }
}

/// Sum of the chord counts.
pub open spec fn chord_total(chords: Seq<usize>) -> nat
    decreases chords.len(),
{
    if chords.len() == 0 {
        0
    } else {
        chord_total(chords.drop_last()) + chords.last() as nat
    }
}

proof fn lemma_edge_sources_shape(chords: Seq<usize>)
    requires
        chords.len() <= usize::MAX,
    ensures
        edge_sources_of(chords).len() == chord_total(chords),
        forall|k: int|
            0 <= k < edge_sources_of(chords).len() ==> #[trigger] edge_sources_of(chords)[k]
                < chords.len(),
        forall|a: int, b: int|
            0 <= a <= b < edge_sources_of(chords).len() ==> edge_sources_of(chords)[a]
                <= edge_sources_of(chords)[b],
    decreases chords.len(),
{
    if chords.len() > 0 {
        let init = chords.drop_last();
        lemma_edge_sources_shape(init);
        let head = edge_sources_of(init);
        let last = (chords.len() - 1) as usize;
        let tail = Seq::new(chords.last() as nat, |k: int| last);
        let all = edge_sources_of(chords);
        assert(all == head + tail);
        assert forall|k: int| 0 <= k < all.len() implies #[trigger] all[k] < chords.len() by {
            if k < head.len() {
                assert(all[k] == head[k]);
            } else {
                assert(all[k] == tail[k - head.len()]);
            }
        }
        assert forall|a: int, b: int| 0 <= a <= b < all.len() implies all[a] <= all[b] by {
            if b < head.len() {
                assert(all[a] == head[a] && all[b] == head[b]);
            } else if a < head.len() {
                assert(all[a] == head[a]);
                assert(head[a] < init.len());
                assert(tail[b - head.len()] == last);
                assert(all[b] == tail[b - head.len()]);
            } else {
                assert(all[a] == tail[a - head.len()]);
                assert(all[b] == tail[b - head.len()]);
            }
        }
    }
}

/// The chords of segment `i` come after all chords of the segments before
/// it: entry `k` of the source list names the segment `i` whose chords
/// cover position `k`, the chord count of segments `0..i` being at most `k`
/// and that of segments `0..=i` above it. So segment `i` is named exactly
/// `chords[i]` times, at consecutive positions.
pub proof fn lemma_edge_source_positions(chords: Seq<usize>)
    requires
        chords.len() <= usize::MAX,
    ensures
        edge_sources_of(chords).len() == chord_total(chords),
        forall|k: int|
            0 <= k < edge_sources_of(chords).len() ==> {
                let i = #[trigger] edge_sources_of(chords)[k] as int;
                &&& 0 <= i < chords.len()
                &&& chord_total(chords.take(i)) <= k < chord_total(chords.take(i + 1))
            },
    decreases chords.len(),
{
    lemma_edge_sources_shape(chords);
    if chords.len() > 0 {
        let init = chords.drop_last();
        lemma_edge_source_positions(init);
        lemma_edge_sources_shape(init);
        let head = edge_sources_of(init);
        let last = (chords.len() - 1) as usize;
        let tail = Seq::new(chords.last() as nat, |k: int| last);
        let all = edge_sources_of(chords);
        assert(all == head + tail);
        assert(chords.take(last as int) =~= init);
        assert(chords.take(last + 1) =~= chords);
        assert forall|k: int| 0 <= k < all.len() implies {
            let i = #[trigger] all[k] as int;
            &&& 0 <= i < chords.len()
            &&& chord_total(chords.take(i)) <= k < chord_total(chords.take(i + 1))
        } by {
            if k < head.len() {
                assert(all[k] == head[k]);
                let i = head[k] as int;
                assert(chords.take(i) =~= init.take(i));
                assert(chords.take(i + 1) =~= init.take(i + 1));
            } else {
                assert(all[k] == tail[k - head.len()]);
            }
        }
    }
}

/// Lists the source segment of every tessellated edge (see
/// [`edge_sources_of`]). The list has one entry per chord, names only
/// existing segments, and never decreases.
pub fn edge_sources(chords: &Vec<usize>) -> (r: Vec<usize>)
    ensures
        r@ == edge_sources_of(chords@),
        r@.len() == chord_total(chords@),
        forall|k: int| 0 <= k < r@.len() ==> #[trigger] r@[k] < chords@.len(),
        forall|a: int, b: int| 0 <= a <= b < r@.len() ==> r@[a] <= r@[b],
        forall|k: int|
            0 <= k < r@.len() ==> chord_total(chords@.take(#[trigger] r@[k] as int)) <= k
                < chord_total(chords@.take(r@[k] + 1)),
{
    let mut out: Vec<usize> = Vec::new();
    let mut i: usize = 0;
    while i < chords.len()
        invariant
            i <= chords@.len(),
            out@ == edge_sources_of(chords@.subrange(0, i as int)),
        decreases chords@.len() - i,
    {
        let ghost before = out@;
        let mut c: usize = 0;
        while c < chords[i]
            invariant
                i < chords@.len(),
                c <= chords@[i as int],
                out@ == before + Seq::new(c as nat, |k: int| i),
            decreases chords@[i as int] - c,
        {
            out.push(i);
            proof {
                assert(out@ =~= before + Seq::new((c + 1) as nat, |k: int| i));
            }
            c += 1;
        }
        proof {
            let pre = chords@.subrange(0, i + 1);
            assert(pre.drop_last() =~= chords@.subrange(0, i as int));
            assert(out@ =~= edge_sources_of(pre));
        }
        i += 1;
    }
    proof {
        assert(chords@.subrange(0, chords@.len() as int) =~= chords@);
        lemma_edge_sources_shape(chords@);
        lemma_edge_source_positions(chords@);
    }
    out
}

} // verus!
