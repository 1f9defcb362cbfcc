//! Ear-clipping triangulation: the index bookkeeping.
//!
//! Triangulating a simple polygon by ear clipping walks a shrinking ring of
//! vertex indices, cutting off one convex corner (an "ear") per step. Which
//! corner is an ear is a geometric question answered by the caller; the
//! [`EarClipper`] owns everything else: the initial walking order, the
//! triangle each clipped ear contributes, the removal of its tip from the
//! ring, and the closing triangle. No Steiner points are ever introduced:
//! every triangle corner is an input index.

use vstd::prelude::*;

use crate::error::{failed_with, invalid_input_with, OperationError};
use crate::text::{decimal, with_count};

verus! {

/// Position before `k` on a ring of `m` positions.
pub open spec fn prev_pos(k: int, m: int) -> int {
    if k == 0 {
        m - 1
    } else {
        k - 1
    }
}

/// Position after `k` on a ring of `m` positions.
pub open spec fn next_pos(k: int, m: int) -> int {
    if k + 1 == m {
        0
    } else {
        k + 1
    }
}

/// The corner of `ring` at position `k`: its predecessor, itself and its
/// successor, in walking order.
pub open spec fn corner_of(ring: Seq<usize>, k: int) -> [usize; 3] {
    [ring[prev_pos(k, ring.len() as int)], ring[k], ring[next_pos(k, ring.len() as int)]]
}

/// The walking order a triangulation starts from: `0, 1, .., n - 1` for a
/// counter-clockwise polygon, reversed otherwise, so that every clipped ear
/// comes out counter-clockwise.
pub open spec fn initial_ring(n: nat, counter_clockwise: bool) -> Seq<usize> {
    Seq::new(n, |i: int| if counter_clockwise { i as usize } else { (n - 1 - i) as usize })
}

/// The tip (middle corner) of every triangle.
pub open spec fn tips(triangles: Seq<[usize; 3]>) -> Seq<usize> {
    triangles.map_values(|t: [usize; 3]| t[1])
}

/// No value occurs twice in `s`.
pub open spec fn distinct(s: Seq<usize>) -> bool {
    forall|i: int, j: int| 0 <= i < j < s.len() ==> s[i] != s[j]
}

/// The three corners of `t` are pairwise different indices below `n`.
pub open spec fn proper_triangle(t: [usize; 3], n: nat) -> bool {
    &&& t[0] < n && t[1] < n && t[2] < n
    &&& t[0] != t[1] && t[1] != t[2] && t[0] != t[2]
}

/// `v` is a corner of one of `triangles`.
pub open spec fn used_by(triangles: Seq<[usize; 3]>, v: usize) -> bool {
    exists|i: int, c: int| 0 <= i < triangles.len() && 0 <= c < 3 && #[trigger] triangles[i][c] == v
}

/// `t` has a side joining `a` and `b`, in either direction.
pub open spec fn has_side(t: [usize; 3], a: usize, b: usize) -> bool {
    ||| (t[0] == a && t[1] == b) || (t[0] == b && t[1] == a)
    ||| (t[1] == a && t[2] == b) || (t[1] == b && t[2] == a)
    ||| (t[2] == a && t[0] == b) || (t[2] == b && t[0] == a)
}

/// Number of `triangles` with a side joining `a` and `b`.
pub open spec fn side_count(triangles: Seq<[usize; 3]>, a: usize, b: usize) -> nat
    decreases triangles.len(),
{
    if triangles.len() == 0 {
        0
    } else {
        side_count(triangles.drop_last(), a, b) + if has_side(triangles.last(), a, b) {
            1nat
        } else {
            0nat
        }
    }
}

/// Positions `k` and the one after it on `ring` hold `a` and `b`, in either
/// order.
pub open spec fn ring_pair(ring: Seq<usize>, k: int, a: usize, b: usize) -> bool {
    let c = ring[k];
    let d = ring[next_pos(k, ring.len() as int)];
    (c == a && d == b) || (c == b && d == a)
}

/// `a` and `b` are neighbours on `ring`, which wraps around.
pub open spec fn ring_neighbours(ring: Seq<usize>, a: usize, b: usize) -> bool {
    exists|k: int| 0 <= k < ring.len() && #[trigger] ring_pair(ring, k, a, b)
}

/// `a` and `b` are the two ends of an edge of a polygon of `n` vertices.
pub open spec fn polygon_side(a: usize, b: usize, n: nat) -> bool {
    (a + 1) % (n as int) == b || (b + 1) % (n as int) == a
}

/// How the sides of the clipped triangles and the ring share out the
/// index pairs of a polygon of `n` vertices: a polygon edge is a side of
/// exactly one triangle or else still joins ring neighbours; any other
/// pair is a diagonal used twice (two triangles, or one triangle and the
/// ring) or not at all; and a pair that is a side of some triangle without
/// joining ring neighbours has left the ring at one end at least.
pub open spec fn sides_accounted(ring: Seq<usize>, triangles: Seq<[usize; 3]>, n: nat) -> bool {
    forall|a: usize, b: usize|
        a < n && b < n && a != b ==> {
            let c = #[trigger] side_count(triangles, a, b) + if ring_neighbours(ring, a, b) {
                1nat
            } else {
                0nat
            };
            &&& polygon_side(a, b, n) ==> c == 1
            &&& !polygon_side(a, b, n) ==> c == 0 || c == 2
            &&& side_count(triangles, a, b) > 0 && !ring_neighbours(ring, a, b) ==> !ring.contains(a)
                || !ring.contains(b)
        }
}

/// Removing position `k` from a ring of more than three distinct indices
/// drops the two neighbour pairs of its index and joins the indices before
/// and after it.
proof fn lemma_remove_neighbours(ring: Seq<usize>, k: int, a: usize, b: usize)
    requires
        distinct(ring),
        ring.len() > 3,
        0 <= k < ring.len(),
    ensures
        ({
            let m = ring.len() as int;
            let p = ring[prev_pos(k, m)];
            let t = ring[k];
            let q = ring[next_pos(k, m)];
            ring_neighbours(ring.remove(k), a, b) <==> ((ring_neighbours(ring, a, b) && a != t && b
                != t) || (a == p && b == q) || (a == q && b == p))
        }),
{
    let m = ring.len() as int;
    let nring = ring.remove(k);
    let p = ring[prev_pos(k, m)];
    let t = ring[k];
    let q = ring[next_pos(k, m)];
    if ring_neighbours(nring, a, b) {
        let i = choose|i: int| 0 <= i < nring.len() && #[trigger] ring_pair(nring, i, a, b);
        let ni = next_pos(i, m - 1);
        let oi = if i < k { i } else { i + 1 };
        let oni = if ni < k { ni } else { ni + 1 };
        assert(nring[i] == ring[oi] && nring[ni] == ring[oni]);
        assert(oi != k && oni != k);
        if next_pos(oi, m) == oni {
            assert(ring_pair(ring, oi, a, b));
            assert(ring[oi] != t && ring[oni] != t);
        } else {
            assert(oi == prev_pos(k, m) && oni == next_pos(k, m));
        }
    }
    if ring_neighbours(ring, a, b) && a != t && b != t {
        let j = choose|j: int| 0 <= j < ring.len() && #[trigger] ring_pair(ring, j, a, b);
        assert(j != k && next_pos(j, m) != k);
        let nj = if j < k { j } else { j - 1 };
        assert(nring[nj] == ring[j]);
        assert(nring[next_pos(nj, m - 1)] == ring[next_pos(j, m)]);
        assert(ring_pair(nring, nj, a, b));
    }
    if (a == p && b == q) || (a == q && b == p) {
        let i = if k > 0 { k - 1 } else { m - 2 };
        assert(nring[i] == p);
        assert(nring[next_pos(i, m - 1)] == q);
        assert(ring_pair(nring, i, a, b));
    }
}

/// The index at position `k` of a ring of distinct indices has exactly the
/// indices before and after it as neighbours.
proof fn lemma_neighbours_of_position(ring: Seq<usize>, k: int, x: usize)
    requires
        distinct(ring),
        ring.len() >= 3,
        0 <= k < ring.len(),
        ring_neighbours(ring, ring[k], x),
    ensures
        x == ring[prev_pos(k, ring.len() as int)] || x == ring[next_pos(k, ring.len() as int)],
{
    let m = ring.len() as int;
    let j = choose|j: int| 0 <= j < m && #[trigger] ring_pair(ring, j, ring[k], x);
    if ring[j] == ring[k] {
        assert(j == k);
    } else {
        assert(ring[next_pos(j, m)] == ring[k]);
        assert(next_pos(j, m) == k);
        assert(j == prev_pos(k, m));
    }
}

/// The walking order a triangulation starts from joins exactly the polygon
/// edges, and no triangle has been clipped yet.
proof fn lemma_initial_sides(n: nat, counter_clockwise: bool)
    requires
        3 <= n <= usize::MAX,
    ensures
        sides_accounted(initial_ring(n, counter_clockwise), Seq::<[usize; 3]>::empty(), n),
{
    let ring = initial_ring(n, counter_clockwise);
    let m = n as int;
    assert forall|a: usize, b: usize| a < n && b < n && a != b implies ring_neighbours(ring, a, b)
        <==> polygon_side(a, b, n) by {
        vstd::arithmetic::div_mod::lemma_mod_self_0(m);
        if a + 1 < m {
            vstd::arithmetic::div_mod::lemma_small_mod((a + 1) as nat, n);
        }
        if b + 1 < m {
            vstd::arithmetic::div_mod::lemma_small_mod((b + 1) as nat, n);
        }
        if ring_neighbours(ring, a, b) {
            let k = choose|k: int| 0 <= k < m && #[trigger] ring_pair(ring, k, a, b);
            if k + 1 < m {
                vstd::arithmetic::div_mod::lemma_small_mod((k + 1) as nat, n);
            }
            if m - k < m {
                vstd::arithmetic::div_mod::lemma_small_mod((m - k) as nat, n);
            }
        }
        if (a + 1) % m == b {
            let k = if counter_clockwise { a as int } else { m - 1 - b };
            assert(ring_pair(ring, k, a, b));
        }
        if (b + 1) % m == a {
            let k = if counter_clockwise { b as int } else { m - 1 - a };
            assert(ring_pair(ring, k, a, b));
        }
    }
}

/// Clipping the ear at position `k` keeps the sides accounted for: its two
/// ring sides become triangle sides and the new diagonal, unused so far,
/// is both a triangle side and a ring side.
proof fn lemma_clip_sides(ring: Seq<usize>, tri: Seq<[usize; 3]>, k: int, n: nat)
    requires
        distinct(ring),
        ring.len() > 3,
        0 <= k < ring.len(),
        forall|i: int| 0 <= i < ring.len() ==> #[trigger] ring[i] < n,
        sides_accounted(ring, tri, n),
    ensures
        sides_accounted(ring.remove(k), tri.push(corner_of(ring, k)), n),
{
    let m = ring.len() as int;
    let nring = ring.remove(k);
    let c = corner_of(ring, k);
    let ntri = tri.push(c);
    let p = ring[prev_pos(k, m)];
    let t = ring[k];
    let q = ring[next_pos(k, m)];
    assert(ntri.drop_last() =~= tri);
    assert(ring.contains(p) && ring.contains(q));
    assert(!nring.contains(t)) by {
        if nring.contains(t) {
            let i = choose|i: int| 0 <= i < nring.len() && nring[i] == t;
            let oi = if i < k { i } else { i + 1 };
            assert(ring[oi] == t);
        }
    }
    assert forall|v: usize| nring.contains(v) implies ring.contains(v) by {
        let i = choose|i: int| 0 <= i < nring.len() && nring[i] == v;
        let oi = if i < k { i } else { i + 1 };
        assert(ring[oi] == v);
    }
    assert(ring_pair(ring, prev_pos(k, m), p, t));
    assert(ring_pair(ring, k, t, q));
    assert(!ring_neighbours(ring, p, q)) by {
        if ring_neighbours(ring, p, q) {
            lemma_neighbours_of_position(ring, prev_pos(k, m), q);
        }
    }
    assert forall|a: usize, b: usize| a < n && b < n && a != b implies {
        let cc = #[trigger] side_count(ntri, a, b) + if ring_neighbours(nring, a, b) {
            1nat
        } else {
            0nat
        };
        &&& polygon_side(a, b, n) ==> cc == 1
        &&& !polygon_side(a, b, n) ==> cc == 0 || cc == 2
        &&& side_count(ntri, a, b) > 0 && !ring_neighbours(nring, a, b) ==> !nring.contains(a)
            || !nring.contains(b)
    } by {
        lemma_remove_neighbours(ring, k, a, b);
        assert(side_count(ntri, a, b) == side_count(tri, a, b) + if has_side(c, a, b) {
            1nat
        } else {
            0nat
        });
        let old_c = side_count(tri, a, b);
        if (a == p && b == q) || (a == q && b == p) {
            assert(!ring_neighbours(ring, a, b)) by {
                if ring_neighbours(ring, a, b) {
                    let j = choose|j: int| 0 <= j < m && #[trigger] ring_pair(ring, j, a, b);
                    assert(ring_pair(ring, j, p, q));
                }
            }
            assert(old_c == 0);
            assert(has_side(c, a, b));
            assert(ring_neighbours(nring, a, b));
        } else if (a == p && b == t) || (a == t && b == p) || (a == t && b == q) || (a == q && b
            == t) {
            assert(ring_neighbours(ring, a, b)) by {
                if a == p || b == p {
                    assert(ring_pair(ring, prev_pos(k, m), a, b));
                } else {
                    assert(ring_pair(ring, k, a, b));
                }
            }
            assert(has_side(c, a, b));
            assert(!ring_neighbours(nring, a, b));
        } else {
            assert(!has_side(c, a, b));
            if (a == t || b == t) && ring_neighbours(ring, a, b) {
                if a == t {
                    lemma_neighbours_of_position(ring, k, b);
                } else {
                    assert(ring_neighbours(ring, b, a)) by {
                        let j = choose|j: int| 0 <= j < m && #[trigger] ring_pair(ring, j, a, b);
                        assert(ring_pair(ring, j, b, a));
                    }
                    lemma_neighbours_of_position(ring, k, a);
                }
            }
            assert(ring_neighbours(nring, a, b) == ring_neighbours(ring, a, b));
        }
    }
}

/// A ring of three distinct indices: its neighbour pairs are exactly the
/// sides of the triangle it forms.
proof fn lemma_last_triangle_sides(ring: Seq<usize>, a: usize, b: usize)
    requires
        distinct(ring),
        ring.len() == 3,
    ensures
        has_side([ring[0], ring[1], ring[2]], a, b) <==> ring_neighbours(ring, a, b),
{
    if has_side([ring[0], ring[1], ring[2]], a, b) {
        if ring_pair(ring, 0, a, b) {
        } else if ring_pair(ring, 1, a, b) {
        } else {
            assert(ring_pair(ring, 2, a, b));
        }
    }
}

/// The walking order starts in the polygon's own order when it winds
/// counter-clockwise and in reverse otherwise, for every vertex count:
/// position `k` holds vertex `k`, resp. `n - 1 - k`, and each step along
/// the ring goes from vertex `v` to `v + 1`, resp. `v - 1`, modulo `n`.
pub proof fn lemma_initial_ring_orientation(n: nat, counter_clockwise: bool, k: int)
    requires
        0 <= k < n,
        n <= usize::MAX,
    ensures
        initial_ring(n, counter_clockwise).len() == n,
        initial_ring(n, counter_clockwise)[k] == if counter_clockwise {
            k
        } else {
            n - 1 - k
        },
        ({
            let ring = initial_ring(n, counter_clockwise);
            let v = ring[k] as int;
            let w = ring[next_pos(k, n as int)] as int;
            if counter_clockwise {
                w == (v + 1) % (n as int)
            } else {
                w == (v + n - 1) % (n as int)
            }
        }),
{
    let m = n as int;
    vstd::arithmetic::div_mod::lemma_mod_self_0(m);
    if k + 1 < m {
        vstd::arithmetic::div_mod::lemma_small_mod((k + 1) as nat, n);
    }
    if m - 2 - k >= 0 {
        vstd::arithmetic::div_mod::lemma_small_mod((m - 2 - k) as nat, n);
    }
    vstd::arithmetic::div_mod::lemma_small_mod((m - 1) as nat, n);
    if m - 2 - k >= 0 {
        vstd::arithmetic::div_mod::lemma_mod_add_multiples_vanish(m - 2 - k, m);
        assert((m - 1 - k) + m - 1 == m + (m - 2 - k));
    }
}

/// Message of the too-few-vertices refusal.
pub open spec fn too_few_vertices_message(n: nat) -> Seq<char> {
    "polygon triangulation needs at least 3 vertices, got "@ + decimal(n)
}

/// Message of the no-area refusal.
pub open spec fn no_area_message() -> Seq<char> {
    "polygon triangulation needs an XY projection that encloses area"@
}

/// Message of the failure when no ear can be clipped.
pub open spec fn no_ear_message() -> Seq<char> {
    "polygon triangulation found no ear: the XY projection is not a simple polygon"@
}

/// State of an ear-clipping triangulation of a polygon with
/// `vertex_count` vertices.
#[derive(Debug)]
pub struct EarClipper {
    vertex_count: usize,
    remaining: Vec<usize>,
    triangles: Vec<[usize; 3]>,
}

impl EarClipper {
    /// Number of vertices of the polygon being triangulated.
    pub closed spec fn count(&self) -> nat {
        self.vertex_count as nat
    }

    /// The ring of indices not yet cut off, in walking order.
    pub closed spec fn ring(&self) -> Seq<usize> {
        self.remaining@
    }

    /// The triangles clipped so far, in clipping order.
    pub closed spec fn clipped(&self) -> Seq<[usize; 3]> {
        self.triangles@
    }

    /// What every state of a triangulation satisfies: the ring has at least
    /// three distinct indices below `count`; every clipped triangle is
    /// proper; each index is either still on the ring or the tip of exactly
    /// one clipped triangle; ring and triangles together account for
    /// every vertex once; and their sides share out the index pairs as
    /// [`sides_accounted`] says.
    pub closed spec fn well_formed(&self) -> bool {
        let n = self.vertex_count as nat;
        let ring = self.remaining@;
        let tri = self.triangles@;
        &&& ring.len() >= 3
        &&& ring.len() + tri.len() == n
        &&& distinct(ring)
        &&& distinct(tips(tri))
        &&& forall|i: int| 0 <= i < ring.len() ==> #[trigger] ring[i] < n
        &&& forall|i: int| 0 <= i < tri.len() ==> proper_triangle(#[trigger] tri[i], n)
        &&& forall|v: usize| v < n ==> (ring.contains(v) <==> !tips(tri).contains(v))
        &&& sides_accounted(ring, tri, n)
    }

    /// Starts a triangulation of a polygon with `vertex_count` vertices.
    ///
    /// `encloses_area` tells whether the polygon's XY projection encloses
    /// area, `counter_clockwise` whether it winds counter-clockwise.
    /// Fails with `InvalidInput` when there are fewer than 3 vertices, else
    /// when the projection encloses no area.
    pub fn new(vertex_count: usize, encloses_area: bool, counter_clockwise: bool) -> (r: Result<
        Self,
        OperationError,
    >)
        ensures
            vertex_count < 3 ==> invalid_input_with(r, too_few_vertices_message(vertex_count as nat)),
            vertex_count >= 3 && !encloses_area ==> invalid_input_with(r, no_area_message()),
            r is Ok <==> vertex_count >= 3 && encloses_area,
            r matches Ok(c) ==> {
                &&& c.count() == vertex_count
                &&& c.ring() == initial_ring(vertex_count as nat, counter_clockwise)
                &&& c.ring().len() == vertex_count
                &&& forall|k: int|
                    0 <= k < vertex_count ==> #[trigger] c.ring()[k] == if counter_clockwise {
                        k
                    } else {
                        vertex_count - 1 - k
                    }
                &&& c.clipped() == Seq::<[usize; 3]>::empty()
                &&& c.well_formed()
            },
    {
        if vertex_count < 3 {
            return Err(
                OperationError::InvalidInput(
                    with_count("polygon triangulation needs at least 3 vertices, got ", vertex_count),
                ),
            );
        }
        if !encloses_area {
            return Err(
                OperationError::InvalidInput(
                    String::from_str(
                        "polygon triangulation needs an XY projection that encloses area",
                    ),
                ),
            );
        }
        let n = vertex_count;
        let mut remaining: Vec<usize> = Vec::new();
        let mut i: usize = 0;
        while i < n
            invariant
                i <= n,
                remaining@ == initial_ring(n as nat, counter_clockwise).subrange(0, i as int),
            decreases n - i,
        {
            if counter_clockwise {
                remaining.push(i);
            } else {
                remaining.push(n - 1 - i);
            }
            proof {
                assert(remaining@ =~= initial_ring(n as nat, counter_clockwise).subrange(
                    0,
                    i + 1,
                ));
            }
            i += 1;
        }
        let ghost ring = remaining@;
        proof {
            assert(ring =~= initial_ring(n as nat, counter_clockwise));
            assert(tips(Seq::<[usize; 3]>::empty()) =~= Seq::<usize>::empty());
            assert forall|v: usize| v < n implies ring.contains(v) by {
                let i: int = if counter_clockwise { v as int } else { n - 1 - v };
                assert(ring[i] == v);
            }
            lemma_initial_sides(n as nat, counter_clockwise);
        }
        let c = EarClipper { vertex_count: n, remaining, triangles: Vec::new() };
        Ok(c)
    }

    /// The ring of indices not yet cut off, in walking order.
    pub fn remaining(&self) -> (r: &Vec<usize>)
        ensures
            r@ == self.ring(),
    {
        &self.remaining
    }

    /// The triangles clipped so far, in clipping order.
    pub fn triangles(&self) -> (r: &Vec<[usize; 3]>)
        ensures
            r@ == self.clipped(),
    {
        &self.triangles
    }

    /// The corner at ring position `k`: the indices at positions
    /// `(k + m - 1) % m`, `k` and `(k + 1) % m` of the `m`-index ring.
    pub fn corner(&self, k: usize) -> (r: [usize; 3])
        requires
            self.well_formed(),
            k < self.ring().len(),
        ensures
            r == corner_of(self.ring(), k as int),
            proper_triangle(r, self.count()),
            ({
                let m = self.ring().len() as int;
                &&& r[0] == self.ring()[(k + m - 1) % m]
                &&& r[1] == self.ring()[k as int]
                &&& r[2] == self.ring()[(k + 1) % m]
            }),
    {
        let m = self.remaining.len();
        let prev = if k == 0 {
            m - 1
        } else {
            k - 1
        };
        let next = if k + 1 == m {
            0
        } else {
            k + 1
        };
        proof {
            assert(prev == (k + m - 1) % (m as int) && next == (k + 1) % (m as int)) by (
            nonlinear_arith)
                requires
                    k < m,
                    k == 0 ==> prev == m - 1,
                    k != 0 ==> prev == k - 1,
                    k + 1 == m ==> next == 0,
                    k + 1 != m ==> next == k + 1,
            ;
        }
        [self.remaining[prev], self.remaining[k], self.remaining[next]]
    }

    /// Clips the ear found at ring position `ear`: its corner becomes the
    /// next triangle and its tip leaves the ring. `None` means no corner of
    /// the ring is an ear, which fails the triangulation.
    pub fn clip(&mut self, ear: Option<usize>) -> (r: Result<(), OperationError>)
        requires
            old(self).well_formed(),
            old(self).ring().len() > 3,
            ear matches Some(k) ==> k < old(self).ring().len(),
        ensures
            final(self).count() == old(self).count(),
            ear is None ==> failed_with(r, no_ear_message()) && final(self).ring() == old(
                self,
            ).ring() && final(self).clipped() == old(self).clipped(),
            ear matches Some(k) ==> {
                &&& r is Ok
                &&& final(self).ring() == old(self).ring().remove(k as int)
                &&& final(self).clipped() == old(self).clipped().push(
                    corner_of(old(self).ring(), k as int),
                )
            },
            final(self).well_formed(),
    {
        match ear {
            None => {
                Err(
                    OperationError::Failed(
                        String::from_str(
                            "polygon triangulation found no ear: the XY projection is not a simple polygon",
                        ),
                    ),
                )
            },
            Some(k) => {
                let ghost n = self.vertex_count as nat;
                let ghost ring = self.remaining@;
                let ghost tri = self.triangles@;
                let t = self.corner(k);
                self.triangles.push(t);
                let tip = self.remaining.remove(k);
                proof {
                    lemma_clip_sides(ring, tri, k as int, n);
                    let nring = self.remaining@;
                    let ntri = self.triangles@;
                    assert(tips(ntri) =~= tips(tri).push(tip));
                    assert(nring =~= ring.remove(k as int));
                    assert forall|i: int, j: int| 0 <= i < j < nring.len() implies nring[i]
                        != nring[j] by {
                        let a = if i < k { i } else { i + 1 };
                        let b = if j < k { j } else { j + 1 };
                        assert(nring[i] == ring[a] && nring[j] == ring[b]);
                    }
                    assert forall|i: int| 0 <= i < nring.len() implies #[trigger] nring[i] < n by {
                        let a = if i < k { i } else { i + 1 };
                        assert(nring[i] == ring[a]);
                    }
                    assert(ring.contains(tip));
                    assert forall|i: int, j: int| 0 <= i < j < tips(ntri).len() implies tips(
                        ntri,
                    )[i] != tips(ntri)[j] by {
                        if j == tri.len() {
                            assert(tips(tri)[i] == tips(ntri)[i]);
                            assert(tips(tri).contains(tips(ntri)[i]));
                        }
                    }
                    assert forall|v: usize| v < n implies (nring.contains(v) <==> !tips(
                        ntri,
                    ).contains(v)) by {
                        if v == tip {
                            assert(tips(ntri)[tri.len() as int] == v);
                            if nring.contains(v) {
                                let i = choose|i: int| 0 <= i < nring.len() && nring[i] == v;
                                let a = if i < k { i } else { i + 1 };
                                assert(ring[a] == v && ring[k as int] == v && a != k);
                            }
                        } else {
                            if ring.contains(v) {
                                let a = choose|a: int| 0 <= a < ring.len() && ring[a] == v;
                                assert(a != k);
                                let i = if a < k { a } else { a - 1 };
                                assert(nring[i] == v);
                            }
                            if nring.contains(v) {
                                let i = choose|i: int| 0 <= i < nring.len() && nring[i] == v;
                                let a = if i < k { i } else { i + 1 };
                                assert(ring[a] == v);
                            }
                            if tips(tri).contains(v) {
                                let i = choose|i: int| 0 <= i < tips(tri).len() && tips(tri)[i] == v;
                                assert(tips(ntri)[i] == v);
                            }
                            if tips(ntri).contains(v) {
                                let i = choose|i: int|
                                    0 <= i < tips(ntri).len() && tips(ntri)[i] == v;
                                assert(i != tri.len());
                                assert(tips(tri)[i] == v);
                            }
                        }
                    }
                }
                Ok(())
            },
        }
    }

    /// Ends the triangulation once three indices remain: they form the
    /// closing triangle. The result holds `count - 2` proper triangles, in
    /// clipping order, and every vertex of the polygon is a corner of one.
    /// Each polygon edge is a side of exactly one triangle, and any other
    /// pair of indices is either no side at all or an interior diagonal
    /// shared by exactly two triangles, which name it by the same pair.
    pub fn finish(self) -> (r: Vec<[usize; 3]>)
        requires
            self.well_formed(),
            self.ring().len() == 3,
        ensures
            r@ == self.clipped().push([self.ring()[0], self.ring()[1], self.ring()[2]]),
            r@.len() == self.count() - 2,
            forall|i: int| 0 <= i < r@.len() ==> proper_triangle(#[trigger] r@[i], self.count()),
            forall|v: usize| v < self.count() ==> #[trigger] used_by(r@, v),
            forall|a: usize, b: usize|
                a < self.count() && b < self.count() && a != b ==> {
                    let c = #[trigger] side_count(r@, a, b);
                    &&& polygon_side(a, b, self.count()) ==> c == 1
                    &&& !polygon_side(a, b, self.count()) ==> c == 0 || c == 2
                },
    {
        let ghost ring = self.remaining@;
        let ghost tri = self.triangles@;
        let ghost n = self.vertex_count as nat;
        let last = [self.remaining[0], self.remaining[1], self.remaining[2]];
        let mut triangles = self.triangles;
        triangles.push(last);
        proof {
            let r = triangles@;
            assert forall|i: int| 0 <= i < r.len() implies proper_triangle(
                #[trigger] r[i],
                n,
            ) by {
                if i < tri.len() {
                    assert(r[i] == tri[i]);
                }
            }
            assert forall|v: usize| v < n implies #[trigger] used_by(r, v) by {
                if ring.contains(v) {
                    let a = choose|a: int| 0 <= a < ring.len() && ring[a] == v;
                    assert(r[tri.len() as int][a] == v);
                } else {
                    let i = choose|i: int| 0 <= i < tips(tri).len() && tips(tri)[i] == v;
                    assert(r[i] == tri[i]);
                    assert(r[i][1] == v);
                }
            }
            assert(r.drop_last() =~= tri);
            assert forall|a: usize, b: usize| a < n && b < n && a != b implies {
                let c = #[trigger] side_count(r, a, b);
                &&& polygon_side(a, b, n) ==> c == 1
                &&& !polygon_side(a, b, n) ==> c == 0 || c == 2
            } by {
                lemma_last_triangle_sides(ring, a, b);
                assert(side_count(r, a, b) == side_count(tri, a, b) + if has_side(
                    last,
                    a,
                    b,
                ) {
                    1nat
                } else {
                    0nat
                });
            }
        }
        triangles
    }
}

} // verus!
