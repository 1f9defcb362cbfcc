//! Straight skeleton: the combinatorial half of the wavefront algorithm.
//!
//! The skeleton of a polygon is computed by shrinking its boundary: every
//! wavefront vertex moves along a bisector, and events (an edge collapsing,
//! a reflex vertex splitting an opposite front) rewire the circular lists
//! of vertices. Where the events happen is geometry and stays with the
//! caller; this module owns the lists themselves ([`Wavefront`]), the
//! traversal of wavefront cycles, and the skeleton arcs that events emit.

use vstd::prelude::*;

use crate::error::{failed_with, OperationError};
use crate::text::{decimal, push_count};

verus! {

/// The vertex reached from `v` after `k` steps along the `next` links.
pub open spec fn walk(next: Seq<usize>, v: int, k: nat) -> int
    decreases k,
{
    if k == 0 {
        v
    } else {
        next[walk(next, v, (k - 1) as nat)] as int
    }
}

/// Every link of `links` names an existing vertex.
pub open spec fn links_in_range(links: Seq<usize>, len: nat) -> bool {
    forall|i: int| 0 <= i < links.len() ==> #[trigger] links[i] < len
}

/// `members` is a closed walk along `next`: each member is followed by the
/// next one, and the last by the first.
pub open spec fn closed_walk(next: Seq<usize>, members: Seq<usize>) -> bool {
    &&& members.len() >= 1
    &&& forall|k: int|
        0 <= k < members.len() - 1 ==> next[#[trigger] members[k] as int] == members[k + 1]
    &&& next[members[members.len() - 1] as int] == members[0]
}

/// A skeleton arc between two nodes, bordering exactly two faces (the
/// polygon edges whose wavefronts swept onto it).
#[derive(Debug, Clone, Copy, PartialEq, Eq)]
pub struct SkelArc {
    /// Node the arc starts at.
    pub from: usize,
    /// Node the arc ends at.
    pub to: usize,
    /// The two faces (polygon edge indices) on either side.
    pub faces: [usize; 2],
}

/// The circular doubly linked lists of wavefront vertices.
///
/// Vertex `v` is followed by `next[v]` and preceded by `prev[v]` on its
/// wavefront cycle; vertices retired by an event stay in the arrays with
/// `alive[v] == false`. Vertices are only ever appended, so an index, once
/// handed out, names the same vertex for the whole computation.
#[derive(Debug)]
pub struct Wavefront {
    prev: Vec<usize>,
    next: Vec<usize>,
    alive: Vec<bool>,
}

impl Wavefront {
    /// The `prev` links.
    pub closed spec fn prevs(&self) -> Seq<usize> {
        self.prev@
    }

    /// The `next` links.
    pub closed spec fn nexts(&self) -> Seq<usize> {
        self.next@
    }

    /// The liveness flags.
    pub closed spec fn alives(&self) -> Seq<bool> {
        self.alive@
    }

    /// Number of vertices ever created.
    pub open spec fn count(&self) -> nat {
        self.nexts().len()
    }

    /// The three arrays have one entry per vertex and every link names an
    /// existing vertex.
    pub open spec fn well_formed(&self) -> bool {
        &&& self.prevs().len() == self.count()
        &&& self.alives().len() == self.count()
        &&& links_in_range(self.nexts(), self.count())
        &&& links_in_range(self.prevs(), self.count())
    }

    /// The links of every live vertex lead to live vertices and agree with
    /// each other: the successor's predecessor and the predecessor's
    /// successor are the vertex itself. The live vertices then form disjoint
    /// cycles.
    pub open spec fn links_consistent(&self) -> bool {
        forall|v: int|
            0 <= v < self.count() && #[trigger] self.alives()[v] ==> {
                &&& self.alives()[self.nexts()[v] as int]
                &&& self.alives()[self.prevs()[v] as int]
                &&& self.prevs()[self.nexts()[v] as int] == v
                &&& self.nexts()[self.prevs()[v] as int] == v
            }
    }

    /// The initial wavefront of a polygon with `n` vertices: one cycle,
    /// vertex `i` preceded by `(i + n - 1) % n` and followed by
    /// `(i + 1) % n`, all alive.
    pub fn ring(n: usize) -> (r: Self)
        requires
            1 <= n < usize::MAX - 2,
        ensures
            r.well_formed(),
            r.count() == n,
            forall|i: int| 0 <= i < n ==> #[trigger] r.nexts()[i] == (i + 1) % (n as int),
            forall|i: int| 0 <= i < n ==> #[trigger] r.prevs()[i] == (i + n - 1) % (n as int),
            forall|i: int| 0 <= i < n ==> #[trigger] r.alives()[i],
            r.links_consistent(),
    {
        let mut prev: Vec<usize> = Vec::new();
        let mut next: Vec<usize> = Vec::new();
        let mut alive: Vec<bool> = Vec::new();
        let mut i: usize = 0;
        while i < n
            invariant
                i <= n,
                prev@.len() == i && next@.len() == i && alive@.len() == i,
                forall|k: int| 0 <= k < i ==> #[trigger] next@[k] == (k + 1) % (n as int),
                forall|k: int| 0 <= k < i ==> #[trigger] prev@[k] == (k + n - 1) % (n as int),
                forall|k: int| 0 <= k < i ==> #[trigger] alive@[k],
            decreases n - i,
        {
            let p = if i == 0 {
                n - 1
            } else {
                i - 1
            };
            let q = if i + 1 == n {
                0
            } else {
                i + 1
            };
            proof {
                assert(p == (i + n - 1) % (n as int) && q == (i + 1) % (n as int)) by (nonlinear_arith)
                    requires
                        i < n,
                        i == 0 ==> p == n - 1,
                        i != 0 ==> p == i - 1,
                        i + 1 == n ==> q == 0,
                        i + 1 != n ==> q == i + 1,
                ;
            }
            prev.push(p);
            next.push(q);
            alive.push(true);
            i += 1;
        }
        let r = Wavefront { prev, next, alive };
        proof {
            assert forall|k: int| 0 <= k < r.nexts().len() implies #[trigger] r.nexts()[k] < n by {
                assert(r.nexts()[k] == (k + 1) % (n as int));
            }
            assert forall|k: int| 0 <= k < r.prevs().len() implies #[trigger] r.prevs()[k] < n by {
                assert(r.prevs()[k] == (k + n - 1) % (n as int));
            }
            assert forall|v: int| 0 <= v < r.count() && #[trigger] r.alives()[v] implies {
                &&& r.alives()[r.nexts()[v] as int]
                &&& r.alives()[r.prevs()[v] as int]
                &&& r.prevs()[r.nexts()[v] as int] == v
                &&& r.nexts()[r.prevs()[v] as int] == v
            } by {
                let q = r.nexts()[v] as int;
                let p = r.prevs()[v] as int;
                assert(q == (v + 1) % (n as int));
                assert(p == (v + n - 1) % (n as int));
                assert(0 <= q < n && 0 <= p < n) by (nonlinear_arith)
                    requires
                        q == (v + 1) % (n as int),
                        p == (v + n - 1) % (n as int),
                        n >= 1,
                ;
                assert(r.prevs()[q] == (q + n - 1) % (n as int));
                assert(r.nexts()[p] == (p + 1) % (n as int));
                assert((q + n - 1) % (n as int) == v && (p + 1) % (n as int) == v) by (nonlinear_arith)
                    requires
                        q == (v + 1) % (n as int),
                        p == (v + n - 1) % (n as int),
                        0 <= v < n,
                ;
            }
        }
        r
    }

    /// Number of vertices ever created.
    pub fn len(&self) -> (r: usize)
        ensures
            r == self.count(),
    {
        self.next.len()
    }

    /// The vertex after `v` on its cycle.
    pub fn next_of(&self, v: usize) -> (r: usize)
        requires
            self.well_formed(),
            v < self.count(),
        ensures
            r == self.nexts()[v as int],
            r < self.count(),
    {
        self.next[v]
    }

    /// The vertex before `v` on its cycle.
    pub fn prev_of(&self, v: usize) -> (r: usize)
        requires
            self.well_formed(),
            v < self.count(),
        ensures
            r == self.prevs()[v as int],
            r < self.count(),
    {
        self.prev[v]
    }

    /// Whether `v` is still on the wavefront.
    pub fn is_alive(&self, v: usize) -> (r: bool)
        requires
            self.well_formed(),
            v < self.count(),
        ensures
            r == self.alives()[v as int],
    {
        self.alive[v]
    }

    /// Whether a collapse event for the edge from `va` to `vb` still
    /// applies: both vertices are alive and `vb` still follows `va`. Events
    /// are queued ahead of time, and one whose vertices were rewired since
    /// is skipped.
    pub fn collapse_is_current(&self, va: usize, vb: usize) -> (r: bool)
        requires
            self.well_formed(),
            va < self.count(),
            vb < self.count(),
        ensures
            r == (self.alives()[va as int] && self.alives()[vb as int] && self.nexts()[va as int]
                == vb),
    {
        self.alive[va] && self.alive[vb] && self.next[va] == vb
    }

    /// Whether any vertex is still on the wavefront.
    pub fn any_alive(&self) -> (r: bool)
        requires
            self.well_formed(),
        ensures
            r == exists|v: int| 0 <= v < self.count() && #[trigger] self.alives()[v],
    {
        let mut i: usize = 0;
        while i < self.alive.len()
            invariant
                self.well_formed(),
                i <= self.count(),
                forall|v: int| 0 <= v < i ==> !#[trigger] self.alives()[v],
            decreases self.count() - i,
        {
            if self.alive[i] {
                return true;
            }
            i += 1;
        }
        false
    }

    /// Takes `v` off the wavefront.
    pub fn retire(&mut self, v: usize)
        requires
            old(self).well_formed(),
            v < old(self).count(),
        ensures
            final(self).well_formed(),
            final(self).nexts() == old(self).nexts(),
            final(self).prevs() == old(self).prevs(),
            final(self).alives() == old(self).alives().update(v as int, false),
    {
        self.alive.set(v, false);
    }

    /// Takes every vertex of `members` off the wavefront (a collapsed cycle
    /// being closed). When `members` lists a whole live cycle in `next`
    /// order and the links were consistent, they stay consistent.
    pub fn retire_all(&mut self, members: &Vec<usize>)
        requires
            old(self).well_formed(),
            old(self).count() < usize::MAX,
            forall|k: int| 0 <= k < members@.len() ==> #[trigger] members@[k] < old(self).count(),
        ensures
            final(self).well_formed(),
            final(self).nexts() == old(self).nexts(),
            final(self).prevs() == old(self).prevs(),
            final(self).alives().len() == old(self).alives().len(),
            forall|i: int|
                0 <= i < old(self).count() ==> #[trigger] final(self).alives()[i] == (old(
                    self,
                ).alives()[i] && !members@.contains(i as usize)),
            ({
                let o = old(self);
                o.links_consistent() && closed_walk(o.nexts(), members@) && forall|k: int|
                    0 <= k < members@.len() ==> #[trigger] o.alives()[members@[k] as int]
            }) ==> final(self).links_consistent(),
    {
        let ghost o = *old(self);
        let mut k: usize = 0;
        while k < members.len()
            invariant
                self.well_formed(),
                self.count() == o.count(),
                self.nexts() == o.nexts(),
                self.prevs() == o.prevs(),
                o.count() < usize::MAX,
                k <= members@.len(),
                forall|j: int| 0 <= j < members@.len() ==> #[trigger] members@[j] < o.count(),
                forall|i: int|
                    0 <= i < o.count() ==> #[trigger] self.alives()[i] == (o.alives()[i]
                        && !members@.subrange(0, k as int).contains(i as usize)),
            decreases members@.len() - k,
        {
            let m = members[k];
            let ghost before = self.alives();
            self.alive.set(m, false);
            proof {
                let sk = members@.subrange(0, k as int);
                let sk1 = members@.subrange(0, k + 1);
                assert(sk1 =~= sk.push(m));
                assert forall|i: int| 0 <= i < o.count() implies #[trigger] self.alives()[i] == (
                o.alives()[i] && !sk1.contains(i as usize)) by {
                    if i == m {
                        assert(sk1[k as int] == m);
                    } else {
                        assert(self.alives()[i] == before[i]);
                        if sk1.contains(i as usize) {
                            let j = choose|j: int| 0 <= j < sk1.len() && #[trigger] sk1[j] == i as usize;
                            assert(j < k);
                            assert(sk[j] == i as usize);
                        }
                        if sk.contains(i as usize) {
                            let j = choose|j: int| 0 <= j < sk.len() && #[trigger] sk[j] == i as usize;
                            assert(sk1[j] == i as usize);
                        }
                    }
                }
            }
            k += 1;
        }
        proof {
            assert(members@.subrange(0, members@.len() as int) =~= members@);
            if o.links_consistent() && closed_walk(o.nexts(), members@) && forall|k: int|
                0 <= k < members@.len() ==> #[trigger] o.alives()[members@[k] as int] {
                lemma_retired_cycle_keeps_links(o, *self, members@);
            }
        }
    }

    /// Number of vertices of the cycle through `start`, found by following
    /// `next` until it returns to `start`; the walk gives up after
    /// `count + 1` steps on a broken list.
    pub fn cycle_len(&self, start: usize) -> (r: usize)
        requires
            self.well_formed(),
            self.count() < usize::MAX,
            start < self.count(),
        ensures
            1 <= r <= self.count() + 1,
            forall|k: nat| 1 <= k < r ==> walk(self.nexts(), start as int, k) != start,
            walk(self.nexts(), start as int, r as nat) == start || r == self.count() + 1,
    {
        let mut len: usize = 1;
        let mut cur = self.next[start];
        proof {
            assert(walk(self.nexts(), start as int, 0) == start);
        }
        while cur != start && len <= self.next.len()
            invariant
                self.well_formed(),
                start < self.count(),
                self.count() < usize::MAX,
                1 <= len <= self.count() + 1,
                cur == walk(self.nexts(), start as int, len as nat),
                cur < self.count(),
                forall|k: nat| 1 <= k < len ==> walk(self.nexts(), start as int, k) != start,
            decreases self.count() + 1 - len,
        {
            len += 1;
            cur = self.next[cur];
        }
        len
    }

    /// Whether `b` lies on the cycle through `a`: `b` is `a`, or following
    /// `next` from `a` meets `b` before returning to `a` (within
    /// `count + 1` steps).
    pub fn same_cycle(&self, a: usize, b: usize) -> (r: bool)
        requires
            self.well_formed(),
            self.count() < usize::MAX,
            a < self.count(),
        ensures
            r == (a == b || exists|k: nat|
                1 <= k <= self.count() + 1 && #[trigger] walk(self.nexts(), a as int, k) == b
                    && forall|i: nat| 1 <= i < k ==> walk(self.nexts(), a as int, i) != a),
    {
        if a == b {
            return true;
        }
        let mut cur = self.next[a];
        let mut steps: usize = 0;
        proof {
            assert(walk(self.nexts(), a as int, 0) == a);
        }
        while cur != a && steps <= self.next.len()
            invariant
                self.well_formed(),
                a < self.count(),
                a != b,
                self.count() < usize::MAX,
                steps <= self.count() + 1,
                cur == walk(self.nexts(), a as int, (steps + 1) as nat),
                cur < self.count(),
                forall|i: nat| 1 <= i <= steps ==> walk(self.nexts(), a as int, i) != a,
                forall|i: nat| 1 <= i <= steps ==> walk(self.nexts(), a as int, i) != b,
            decreases self.count() + 1 - steps,
        {
            if cur == b {
                proof {
                    assert(walk(self.nexts(), a as int, (steps + 1) as nat) == b);
                }
                return true;
            }
            cur = self.next[cur];
            steps += 1;
        }
        proof {
            assert forall|k: nat|
                1 <= k <= self.count() + 1 && #[trigger] walk(self.nexts(), a as int, k) == b
                implies !(forall|i: nat| 1 <= i < k ==> walk(self.nexts(), a as int, i) != a) by {
                if k > steps + 1 {
                    if cur == a {
                        assert(walk(self.nexts(), a as int, (steps + 1) as nat) == a);
                    } else {
                        assert(steps == self.count() + 1);
                    }
                } else if k == steps + 1 {
                    assert(cur == b);
                }
            }
        }
        false
    }

    /// The vertices of the cycle through `start`, in `next` order starting
    /// at `start`. Fails when the walk does not return to `start` within
    /// `count + 1` steps (a broken wavefront cycle).
    pub fn cycle_members(&self, start: usize) -> (r: Result<Vec<usize>, OperationError>)
        requires
            self.well_formed(),
            self.count() < usize::MAX,
            start < self.count(),
        ensures
            r matches Ok(ms) ==> {
                &&& 1 <= ms@.len() <= self.count() + 1
                &&& forall|k: int| 0 <= k < ms@.len() ==> #[trigger] ms@[k] == walk(
                    self.nexts(),
                    start as int,
                    k as nat,
                )
                &&& walk(self.nexts(), start as int, ms@.len()) == start
                &&& forall|k: nat| 1 <= k < ms@.len() ==> walk(self.nexts(), start as int, k) != start
            },
            r matches Ok(ms) ==> closed_walk(self.nexts(), ms@),
            r matches Ok(ms) ==> (self.links_consistent() && self.alives()[start as int] ==> forall|
                k: int,
            |
                0 <= k < ms@.len() ==> #[trigger] self.alives()[ms@[k] as int]),
            r is Err ==> failed_with(r, "straight skeleton: broken wavefront cycle"@) && forall|
                k: nat,
            |
                1 <= k <= self.count() + 1 ==> walk(self.nexts(), start as int, k) != start,
    {
        let mut members: Vec<usize> = Vec::new();
        let mut cur = start;
        loop
            invariant
                self.well_formed(),
                start < self.count(),
                self.count() < usize::MAX,
                members@.len() <= self.count(),
                cur == walk(self.nexts(), start as int, members@.len() as nat),
                cur < self.count(),
                forall|k: int| 0 <= k < members@.len() ==> #[trigger] members@[k] == walk(
                    self.nexts(),
                    start as int,
                    k as nat,
                ),
                forall|k: nat| 1 <= k <= members@.len() ==> walk(self.nexts(), start as int, k) != start,
            decreases self.count() + 1 - members@.len(),
        {
            members.push(cur);
            cur = self.next[cur];
            if cur == start {
                proof {
                    let ms = members@;
                    assert(ms[0] == walk(self.nexts(), start as int, 0));
                    assert forall|k: int| 0 <= k < ms.len() - 1 implies self.nexts()[
                        #[trigger] ms[k] as int] == ms[k + 1] by {
                        assert(ms[k + 1] == walk(self.nexts(), start as int, (k + 1) as nat));
                    }
                    if self.links_consistent() && self.alives()[start as int] {
                        assert forall|k: int| 0 <= k < ms.len() implies #[trigger] self.alives()[ms[k] as int] by {
                            lemma_walk_stays_alive(*self, start as int, k as nat);
                        }
                    }
                }
                return Ok(members);
            }
            if members.len() > self.next.len() {
                return Err(
                    OperationError::Failed(String::from_str("straight skeleton: broken wavefront cycle")),
                );
            }
        }
    }

    /// Collapse event: the adjacent vertices `va` and `vb` (with
    /// `next[va] == vb`) merge into a new vertex, which takes `va`'s
    /// predecessor and `vb`'s successor and is returned. `va` and `vb`
    /// leave the wavefront.
    #[verifier::spinoff_prover]
    #[verifier::rlimit(40)]
    pub fn collapse(&mut self, va: usize, vb: usize) -> (nv: usize)
        requires
            old(self).well_formed(),
            old(self).count() + 1 < usize::MAX,
            va < old(self).count(),
            vb < old(self).count(),
        ensures
            nv == old(self).count(),
            final(self).well_formed(),
            final(self).count() == old(self).count() + 1,
            final(self).nexts() == old(self).nexts().push(old(self).nexts()[vb as int]).update(
                old(self).prevs()[va as int] as int,
                nv,
            ),
            final(self).prevs() == old(self).prevs().push(old(self).prevs()[va as int]).update(
                old(self).nexts()[vb as int] as int,
                nv,
            ),
            final(self).alives() == old(self).alives().update(va as int, false).update(
                vb as int,
                false,
            ).push(true),
            ({
                let o = old(self);
                o.links_consistent() && o.alives()[va as int] && o.alives()[vb as int]
                    && o.nexts()[va as int] == vb && o.prevs()[va as int] != vb
            }) ==> final(self).links_consistent(),
    {
        let ghost o = *old(self);
        let p = self.prev[va];
        let q = self.next[vb];
        let nv = self.next.len();
        self.alive.set(va, false);
        self.alive.set(vb, false);
        self.alive.push(true);
        self.prev.push(p);
        self.next.push(q);
        self.next.set(p, nv);
        self.prev.set(q, nv);
        proof {
            assert forall|i: int| 0 <= i < self.nexts().len() implies #[trigger] self.nexts()[i]
                < self.count() by {
                if i != p && i < nv {
                    assert(self.nexts()[i] == old(self).nexts()[i]);
                }
            }
            assert forall|i: int| 0 <= i < self.prevs().len() implies #[trigger] self.prevs()[i]
                < self.count() by {
                if i != q && i < nv {
                    assert(self.prevs()[i] == old(self).prevs()[i]);
                }
            }
            if o.links_consistent() && o.alives()[va as int] && o.alives()[vb as int]
                && o.nexts()[va as int] == vb && o.prevs()[va as int] != vb {
                assert(o.prevs()[vb as int] == va);
                assert(va != vb);
                assert(o.alives()[p as int] && o.alives()[q as int]);
                assert(o.nexts()[p as int] == va);
                assert(o.prevs()[q as int] == vb);
                assert(p != va && q != vb && q != va);
                assert forall|v: int| 0 <= v < self.count() && #[trigger] self.alives()[v] implies {
                    &&& self.alives()[self.nexts()[v] as int]
                    &&& self.alives()[self.prevs()[v] as int]
                    &&& self.prevs()[self.nexts()[v] as int] == v
                    &&& self.nexts()[self.prevs()[v] as int] == v
                } by {
                    if v == nv {
                        assert(self.nexts()[v] == q && self.prevs()[v] == p);
                    } else {
                        assert(v < nv && v != va && v != vb && o.alives()[v]);
                        let w = o.nexts()[v] as int;
                        let u = o.prevs()[v] as int;
                        assert(o.alives()[w] && o.prevs()[w] == v);
                        assert(o.alives()[u] && o.nexts()[u] == v);
                        if v == p {
                            assert(self.nexts()[v] == nv);
                        } else {
                            assert(self.nexts()[v] == w);
                            assert(w != va && w != vb && w != q);
                            assert(self.prevs()[w] == v);
                        }
                        if v == q {
                            assert(self.prevs()[v] == nv);
                        } else {
                            assert(self.prevs()[v] == u);
                            assert(u != va && u != vb && u != p);
                            assert(self.nexts()[u] == v);
                        }
                    }
                }
            }
        }
        nv
    }

    /// Split event: reflex vertex `v` hits the front starting at `x` and
    /// splits its cycle in two. Two vertices are created and returned:
    /// `a` (between `x` and `v`'s successor) and then `b` (between `v`'s
    /// predecessor and `x`'s former successor). `v` leaves the wavefront.
    #[verifier::spinoff_prover]
    pub fn split(&mut self, v: usize, x: usize) -> (r: (usize, usize))
        requires
            old(self).well_formed(),
            old(self).count() + 2 < usize::MAX,
            v < old(self).count(),
            x < old(self).count(),
        ensures
            ({
                let o = old(self);
                let n = o.count();
                let front_end = o.nexts()[x as int] as int;
                let v_prev = o.prevs()[v as int] as int;
                let v_next = o.nexts()[v as int] as int;
                &&& r == (n as usize, (n + 1) as usize)
                &&& final(self).well_formed()
                &&& final(self).count() == n + 2
                &&& final(self).nexts() == o.nexts().push(v_next as usize).update(x as int, r.0).push(
                    front_end as usize,
                ).update(v_prev, r.1)
                &&& final(self).prevs() == o.prevs().push(x).update(v_next, r.0).push(
                    v_prev as usize,
                ).update(front_end, r.1)
                &&& final(self).alives() == o.alives().update(v as int, false).push(true).push(true)
            }),
            ({
                let o = old(self);
                o.links_consistent() && o.alives()[v as int] && o.alives()[x as int] && x != v
                    && o.prevs()[v as int] != x && o.nexts()[v as int] != v
            }) ==> final(self).links_consistent(),
    {
        let ghost o = *old(self);
        let front_end = self.next[x];
        let v_prev = self.prev[v];
        let v_next = self.next[v];
        let ghost o_next = self.next@;
        let ghost o_prev = self.prev@;
        let n = self.next.len();
        self.alive.set(v, false);
        let a = n;
        self.alive.push(true);
        self.prev.push(x);
        self.next.push(v_next);
        self.next.set(x, a);
        self.prev.set(v_next, a);
        let b = n + 1;
        self.alive.push(true);
        self.prev.push(v_prev);
        self.next.push(front_end);
        self.next.set(v_prev, b);
        self.prev.set(front_end, b);
        proof {
            assert forall|i: int| 0 <= i < self.nexts().len() implies #[trigger] self.nexts()[i]
                < self.count() by {
                if i != x && i != v_prev && i < n {
                    assert(self.nexts()[i] == o_next[i]);
                }
            }
            assert forall|i: int| 0 <= i < self.prevs().len() implies #[trigger] self.prevs()[i]
                < self.count() by {
                if i != v_next && i != front_end && i < n {
                    assert(self.prevs()[i] == o_prev[i]);
                }
            }
            if o.links_consistent() && o.alives()[v as int] && o.alives()[x as int] && x != v
                && o.prevs()[v as int] != x && o.nexts()[v as int] != v {
                lemma_split_keeps_links(o, *self, v, x);
            }
        }
        (a, b)
    }
}

proof fn lemma_split_keeps_links(o: Wavefront, f: Wavefront, v: usize, x: usize)
    requires
        o.well_formed(),
        o.count() + 2 < usize::MAX,
        v < o.count(),
        x < o.count(),
        o.links_consistent(),
        o.alives()[v as int],
        o.alives()[x as int],
        x != v,
        o.prevs()[v as int] != x,
        o.nexts()[v as int] != v,
        ({
            let n = o.count();
            let front_end = o.nexts()[x as int] as int;
            let v_prev = o.prevs()[v as int] as int;
            let v_next = o.nexts()[v as int] as int;
            &&& f.nexts() == o.nexts().push(v_next as usize).update(x as int, n as usize).push(
                front_end as usize,
            ).update(v_prev, (n + 1) as usize)
            &&& f.prevs() == o.prevs().push(x).update(v_next, n as usize).push(v_prev as usize).update(
                front_end,
                (n + 1) as usize,
            )
            &&& f.alives() == o.alives().update(v as int, false).push(true).push(true)
        }),
    ensures
        f.links_consistent(),
{
    let n = o.count() as int;
    let a = n;
    let b = n + 1;
    let front_end = o.nexts()[x as int] as int;
    let v_prev = o.prevs()[v as int] as int;
    let v_next = o.nexts()[v as int] as int;
    let nx1 = o.nexts().push(v_next as usize);
    let nx2 = nx1.update(x as int, a as usize);
    let nx3 = nx2.push(front_end as usize);
    assert forall|i: int| 0 <= i < n implies #[trigger] f.nexts()[i] == (if i == v_prev {
        b
    } else if i == x {
        a
    } else {
        o.nexts()[i] as int
    }) by {
        assert(nx3[i] == nx2[i] && nx2[i] == (if i == x { a as usize } else { nx1[i] }));
    }
    assert(f.nexts()[a] == v_next) by {
        assert(nx3[a] == nx2[a] && nx2[a] == nx1[a]);
    }
    assert(f.nexts()[b] == front_end);
    let pv1 = o.prevs().push(x);
    let pv2 = pv1.update(v_next, a as usize);
    let pv3 = pv2.push(v_prev as usize);
    assert forall|i: int| 0 <= i < n implies #[trigger] f.prevs()[i] == (if i == front_end {
        b
    } else if i == v_next {
        a
    } else {
        o.prevs()[i] as int
    }) by {
        assert(pv3[i] == pv2[i] && pv2[i] == (if i == v_next { a as usize } else { pv1[i] }));
    }
    assert(f.prevs()[a] == x) by {
        assert(pv3[a] == pv2[a] && pv2[a] == pv1[a]);
    }
    assert(f.prevs()[b] == v_prev);
    assert forall|i: int| 0 <= i < n implies #[trigger] f.alives()[i] == (i != v && o.alives()[i]) by {}
    assert(f.alives()[a] && f.alives()[b]);
    assert(o.alives()[v_next] && o.alives()[v_prev]);
    assert(o.alives()[front_end]);
    assert(o.prevs()[v_next] == v && o.nexts()[v_prev] == v);
    assert(o.prevs()[front_end] == x);
    assert(v_prev != v && front_end != v && v_next != front_end);
    assert forall|w: int| 0 <= w < f.count() && #[trigger] f.alives()[w] implies {
        &&& f.alives()[f.nexts()[w] as int]
        &&& f.alives()[f.prevs()[w] as int]
        &&& f.prevs()[f.nexts()[w] as int] == w
        &&& f.nexts()[f.prevs()[w] as int] == w
    } by {
        if w == a {
            assert(f.nexts()[w] == v_next && f.prevs()[w] == x);
            assert(f.prevs()[v_next] == a);
            assert(f.nexts()[x as int] == a);
        } else if w == b {
            assert(f.nexts()[w] == front_end && f.prevs()[w] == v_prev);
            assert(f.prevs()[front_end] == b);
            assert(f.nexts()[v_prev] == b);
        } else {
            assert(w < n && w != v && o.alives()[w]);
            let z = o.nexts()[w] as int;
            let y = o.prevs()[w] as int;
            assert(o.alives()[z] && o.prevs()[z] == w);
            assert(o.alives()[y] && o.nexts()[y] == w);
            if w == v_prev {
                assert(f.nexts()[w] == b);
            } else if w == x {
                assert(f.nexts()[w] == a);
            } else {
                assert(f.nexts()[w] == z);
                assert(z != v && z != front_end && z != v_next);
                assert(f.prevs()[z] == w);
            }
            if w == front_end {
                assert(f.prevs()[w] == b);
            } else if w == v_next {
                assert(f.prevs()[w] == a);
            } else {
                assert(f.prevs()[w] == y);
                assert(y != v && y != v_prev && y != x);
                assert(f.nexts()[y] == w);
            }
        }
    }
}

proof fn lemma_walk_stays_alive(w: Wavefront, start: int, k: nat)
    requires
        w.well_formed(),
        w.links_consistent(),
        0 <= start < w.count(),
        w.alives()[start],
    ensures
        0 <= walk(w.nexts(), start, k) < w.count(),
        w.alives()[walk(w.nexts(), start, k)],
    decreases k,
{
    if k > 0 {
        lemma_walk_stays_alive(w, start, (k - 1) as nat);
    }
}

proof fn lemma_retired_cycle_keeps_links(o: Wavefront, f: Wavefront, members: Seq<usize>)
    requires
        o.well_formed(),
        o.count() < usize::MAX,
        o.links_consistent(),
        closed_walk(o.nexts(), members),
        forall|k: int| 0 <= k < members.len() ==> #[trigger] members[k] < o.count(),
        forall|k: int| 0 <= k < members.len() ==> #[trigger] o.alives()[members[k] as int],
        f.nexts() == o.nexts(),
        f.prevs() == o.prevs(),
        f.alives().len() == o.alives().len(),
        forall|i: int|
            0 <= i < o.count() ==> #[trigger] f.alives()[i] == (o.alives()[i] && !members.contains(
                i as usize,
            )),
    ensures
        f.links_consistent(),
{
    let len = members.len() as int;
    assert forall|k: int| 1 <= k < len implies o.prevs()[#[trigger] members[k] as int]
        == members[k - 1] by {
        assert(o.nexts()[members[k - 1] as int] == members[k]);
        assert(o.alives()[members[k - 1] as int]);
    }
    assert(o.prevs()[members[0] as int] == members[len - 1]) by {
        assert(o.alives()[members[len - 1] as int]);
    }
    assert forall|w: int| 0 <= w < f.count() && #[trigger] f.alives()[w] implies {
        &&& f.alives()[f.nexts()[w] as int]
        &&& f.alives()[f.prevs()[w] as int]
        &&& f.prevs()[f.nexts()[w] as int] == w
        &&& f.nexts()[f.prevs()[w] as int] == w
    } by {
        assert(o.alives()[w] && !members.contains(w as usize));
        let z = o.nexts()[w];
        let y = o.prevs()[w];
        assert(o.alives()[z as int] && o.prevs()[z as int] == w);
        assert(o.alives()[y as int] && o.nexts()[y as int] == w);
        if members.contains(z) {
            let k = choose|k: int| 0 <= k < len && #[trigger] members[k] == z;
            if k >= 1 {
                assert(o.prevs()[members[k] as int] == members[k - 1]);
                assert(members[k - 1] == w as usize);
            } else {
                assert(members[len - 1] == w as usize);
            }
        }
        if members.contains(y) {
            let k = choose|k: int| 0 <= k < len && #[trigger] members[k] == y;
            if k < len - 1 {
                assert(o.nexts()[members[k] as int] == members[k + 1]);
                assert(members[k + 1] == w as usize);
            } else {
                assert(members[0] == w as usize);
            }
        }
    }
}

/// The distinct node ids of `nodes`, in increasing order (the nodes a
/// collapsed cycle passes through, against which its segments are
/// subdivided).
pub fn distinct_nodes(nodes: &Vec<usize>) -> (r: Vec<usize>)
    ensures
        forall|a: int, b: int| 0 <= a < b < r@.len() ==> r@[a] < r@[b],
        forall|x: usize| r@.contains(x) <==> nodes@.contains(x),
{
    let mut out: Vec<usize> = Vec::new();
    let mut i: usize = 0;
    while i < nodes.len()
        invariant
            i <= nodes@.len(),
            forall|a: int, b: int| 0 <= a < b < out@.len() ==> out@[a] < out@[b],
            forall|x: usize| out@.contains(x) <==> nodes@.subrange(0, i as int).contains(x),
        decreases nodes@.len() - i,
    {
        let x = nodes[i];
        let mut pos: usize = 0;
        while pos < out.len() && out[pos] < x
            invariant
                i < nodes@.len(),
                pos <= out@.len(),
                forall|k: int| 0 <= k < pos ==> out@[k] < x,
                forall|a: int, b: int| 0 <= a < b < out@.len() ==> out@[a] < out@[b],
                forall|y: usize| out@.contains(y) <==> nodes@.subrange(0, i as int).contains(y),
            decreases out@.len() - pos,
        {
            pos += 1;
        }
        let ghost before = out@;
        let ghost seen = nodes@.subrange(0, i as int);
        proof {
            assert(nodes@.subrange(0, i + 1) =~= seen.push(x));
        }
        if pos < out.len() && out[pos] == x {
            proof {
                assert forall|y: usize| out@.contains(y) <==> seen.push(x).contains(y) by {
                    if y == x {
                        assert(out@[pos as int] == x);
                        assert(seen.push(x)[seen.len() as int] == x);
                    } else if seen.push(x).contains(y) {
                        let k = choose|k: int| 0 <= k < seen.push(x).len() && seen.push(x)[k] == y;
                        assert(seen[k] == y);
                    }
                }
            }
        } else {
            out.insert(pos, x);
            proof {
                assert forall|a: int, b: int| 0 <= a < b < out@.len() implies out@[a] < out@[b] by {
                    if b < pos {
                        assert(out@[a] == before[a] && out@[b] == before[b]);
                    } else if b == pos {
                        assert(out@[a] == before[a]);
                    } else if a < pos {
                        assert(out@[a] == before[a] && out@[b] == before[b - 1]);
                        assert(before[pos as int] >= x);
                        assert(before[pos as int] <= before[b - 1]);
                    } else if a == pos {
                        assert(out@[b] == before[b - 1]);
                        assert(before[pos as int] >= x && before[pos as int] != x);
                    } else {
                        assert(out@[a] == before[a - 1] && out@[b] == before[b - 1]);
                    }
                }
                assert forall|y: usize| out@.contains(y) <==> seen.push(x).contains(y) by {
                    if out@.contains(y) {
                        let k = choose|k: int| 0 <= k < out@.len() && out@[k] == y;
                        if k < pos {
                            assert(before[k] == y);
                            assert(before.contains(y));
                            let m = choose|m: int| 0 <= m < seen.len() && seen[m] == y;
                            assert(seen.push(x)[m] == y);
                        } else if k > pos {
                            assert(before[k - 1] == y);
                            assert(before.contains(y));
                            let m = choose|m: int| 0 <= m < seen.len() && seen[m] == y;
                            assert(seen.push(x)[m] == y);
                        } else {
                            assert(seen.push(x)[seen.len() as int] == y);
                        }
                    }
                    if seen.push(x).contains(y) {
                        let k = choose|k: int| 0 <= k < seen.push(x).len() && seen.push(x)[k] == y;
                        if k == seen.len() {
                            assert(out@[pos as int] == y);
                        } else {
                            assert(seen[k] == y);
                            assert(seen.contains(y));
                            assert(before.contains(y));
                            let m = choose|m: int| 0 <= m < before.len() && before[m] == y;
                            if m < pos {
                                assert(out@[m] == y);
                            } else {
                                assert(out@[m + 1] == y);
                            }
                        }
                    }
                }
            }
        }
        i += 1;
    }
    proof {
        assert(nodes@.subrange(0, nodes@.len() as int) =~= nodes@);
    }
    out
}

/// Arc `a` borders face `e`.
pub open spec fn borders(a: SkelArc, e: int) -> bool {
    a.faces[0] == e || a.faces[1] == e
}

/// Indices, in increasing order, of the first `m` arcs that border face
/// `e`; an arc with the same face on both sides is listed once.
pub open spec fn face_arcs_upto(arcs: Seq<SkelArc>, e: int, m: nat) -> Seq<usize>
    decreases m,
{
    if m == 0 {
        Seq::empty()
    } else {
        let before = face_arcs_upto(arcs, e, (m - 1) as nat);
        if borders(arcs[m - 1], e) {
            before.push((m - 1) as usize)
        } else {
            before
        }
    }
}

/// Indices, in increasing order, of the arcs bordering face `e`.
pub open spec fn face_arcs(arcs: Seq<SkelArc>, e: int) -> Seq<usize> {
    face_arcs_upto(arcs, e, arcs.len())
}

/// The first not-yet-used arc of `list`, from position `k` on, that has an
/// end at node `cur`, with the node at its other end (its `to` when `cur`
/// is its `from`).
pub open spec fn pick_from(
    arcs: Seq<SkelArc>,
    list: Seq<usize>,
    used: Seq<bool>,
    cur: usize,
    k: int,
) -> Option<(int, usize)>
    decreases list.len() - k,
{
    if k < 0 || k >= list.len() {
        None
    } else if !used[k] && arcs[list[k] as int].from == cur {
        Some((k, arcs[list[k] as int].to))
    } else if !used[k] && arcs[list[k] as int].to == cur {
        Some((k, arcs[list[k] as int].from))
    } else {
        pick_from(arcs, list, used, cur, k + 1)
    }
}

/// How a cell trace ends.
pub enum TraceEnd {
    /// The trace reached its goal; the nodes met strictly between the
    /// start and the goal, in order.
    Closed(Seq<usize>),
    /// The trace took more steps than there are arcs (plus two).
    NotClosed,
    /// No unused arc of the face continues from the current node.
    Disconnected,
}

/// Traces a face's boundary through its arcs: from node `cur`, repeatedly
/// take the first unused arc of `list` (see [`pick_from`]) with an end at
/// the current node and move to its other end, until `goal` is reached,
/// giving up after `arcs.len() + 2` steps. `chain` holds the nodes passed
/// so far (the goal excluded) and `steps` the steps taken.
pub open spec fn trace_from(
    arcs: Seq<SkelArc>,
    list: Seq<usize>,
    goal: usize,
    used: Seq<bool>,
    cur: usize,
    chain: Seq<usize>,
    steps: int,
) -> TraceEnd
    decreases arcs.len() + 3 - steps,
{
    if cur == goal {
        TraceEnd::Closed(chain)
    } else if steps < 0 || steps + 1 > arcs.len() + 2 {
        TraceEnd::NotClosed
    } else {
        match pick_from(arcs, list, used, cur, 0) {
            None => TraceEnd::Disconnected,
            Some((k, nxt)) => trace_from(
                arcs,
                list,
                goal,
                used.update(k, true),
                nxt,
                if nxt != goal {
                    chain.push(nxt)
                } else {
                    chain
                },
                steps + 1,
            ),
        }
    }
}

/// The trace of the cell of polygon edge `e` among `n` edges: it walks
/// the arcs of face `e` from the edge's end vertex `(e + 1) % n` back to
/// its start vertex `e` (contour vertices are nodes `0..n`).
pub open spec fn cell_trace(arcs: Seq<SkelArc>, n: int, e: int) -> TraceEnd {
    let list = face_arcs(arcs, e);
    trace_from(
        arcs,
        list,
        e as usize,
        Seq::new(list.len(), |i: int| false),
        ((e + 1) % n) as usize,
        Seq::empty(),
        0,
    )
}

/// Message of a cell trace that did not close.
pub open spec fn not_closed_message(e: nat) -> Seq<char> {
    "straight skeleton: cell trace for edge "@ + decimal(e) + " did not close"@
}

/// Message of a disconnected cell trace.
pub open spec fn disconnected_message(e: nat) -> Seq<char> {
    "straight skeleton: cell trace for edge "@ + decimal(e) + " is disconnected"@
}

proof fn lemma_face_arcs_shape(arcs: Seq<SkelArc>, e: int, m: nat)
    requires
        m <= arcs.len(),
        arcs.len() <= usize::MAX,
    ensures
        face_arcs_upto(arcs, e, m).len() <= m,
        forall|k: int|
            0 <= k < face_arcs_upto(arcs, e, m).len() ==> #[trigger] face_arcs_upto(arcs, e, m)[k]
                < m,
    decreases m,
{
    if m > 0 {
        lemma_face_arcs_shape(arcs, e, (m - 1) as nat);
    }
}

/// Arc `a` joins nodes `x` and `y`, in either direction.
pub open spec fn joins(a: SkelArc, x: usize, y: usize) -> bool {
    (a.from == x && a.to == y) || (a.from == y && a.to == x)
}

/// The chain of a closed trace (empty for a trace that did not close).
pub open spec fn closed_chain(t: TraceEnd) -> Seq<usize> {
    match t {
        TraceEnd::Closed(chain) => chain,
        _ => Seq::empty(),
    }
}

/// The nodes a trace from `start` to `goal` visits, in order: `start`, the
/// nodes of `chain`, then `goal` (just `start` when it is the goal).
pub open spec fn walk_nodes(start: usize, chain: Seq<usize>, goal: usize) -> Seq<usize> {
    if start == goal {
        seq![start]
    } else {
        seq![start] + chain + seq![goal]
    }
}

/// `ids` are pairwise different arcs bordering face `e`, arc `ids[i]`
/// joining `path[i]` to `path[i + 1]`.
pub open spec fn walks_along(arcs: Seq<SkelArc>, e: int, path: Seq<usize>, ids: Seq<usize>) -> bool {
    &&& ids.len() + 1 == path.len()
    &&& forall|i: int|
        0 <= i < ids.len() ==> {
            &&& #[trigger] ids[i] < arcs.len()
            &&& borders(arcs[ids[i] as int], e)
            &&& joins(arcs[ids[i] as int], path[i], path[i + 1])
        }
    &&& forall|i: int, j: int| 0 <= i < j < ids.len() ==> ids[i] != ids[j]
}

/// Positions `ks` of `list`, pairwise different and unused in `used`, name
/// arcs joining consecutive nodes of `path`.
spec fn walks_positions(
    arcs: Seq<SkelArc>,
    list: Seq<usize>,
    used: Seq<bool>,
    path: Seq<usize>,
    ks: Seq<int>,
) -> bool {
    &&& ks.len() + 1 == path.len()
    &&& forall|i: int|
        0 <= i < ks.len() ==> {
            &&& 0 <= #[trigger] ks[i] < list.len()
            &&& !used[ks[i]]
            &&& joins(arcs[list[ks[i]] as int], path[i], path[i + 1])
        }
    &&& forall|i: int, j: int| 0 <= i < j < ks.len() ==> ks[i] != ks[j]
}

proof fn lemma_pick_from(arcs: Seq<SkelArc>, list: Seq<usize>, used: Seq<bool>, cur: usize, k0: int)
    requires
        k0 >= 0,
    ensures
        pick_from(arcs, list, used, cur, k0) matches Some(p) ==> k0 <= p.0 < list.len() && !used[p.0]
            && joins(arcs[list[p.0] as int], cur, p.1),
    decreases list.len() - k0,
{
    if k0 < list.len() {
        lemma_pick_from(arcs, list, used, cur, k0 + 1);
    }
}

proof fn lemma_trace_from_walk(
    arcs: Seq<SkelArc>,
    list: Seq<usize>,
    goal: usize,
    used: Seq<bool>,
    cur: usize,
    chain: Seq<usize>,
    steps: int,
)
    requires
        trace_from(arcs, list, goal, used, cur, chain, steps) is Closed,
        used.len() == list.len(),
    ensures
        ({
            let fc = closed_chain(trace_from(arcs, list, goal, used, cur, chain, steps));
            &&& chain.len() <= fc.len()
            &&& fc.subrange(0, chain.len() as int) == chain
            &&& exists|ks: Seq<int>|
                #[trigger] walks_positions(
                    arcs,
                    list,
                    used,
                    walk_nodes(cur, fc.subrange(chain.len() as int, fc.len() as int), goal),
                    ks,
                )
        }),
    decreases arcs.len() + 3 - steps,
{
    let fc = closed_chain(trace_from(arcs, list, goal, used, cur, chain, steps));
    if cur == goal {
        assert(fc == chain);
        assert(fc.subrange(0, chain.len() as int) =~= chain);
        assert(fc.subrange(chain.len() as int, fc.len() as int) =~= Seq::<usize>::empty());
        assert(walks_positions(
            arcs,
            list,
            used,
            walk_nodes(cur, fc.subrange(chain.len() as int, fc.len() as int), goal),
            Seq::<int>::empty(),
        ));
    } else {
        lemma_pick_from(arcs, list, used, cur, 0);
        let (k, nxt) = pick_from(arcs, list, used, cur, 0).unwrap();
        let used2 = used.update(k, true);
        let chain2 = if nxt != goal {
            chain.push(nxt)
        } else {
            chain
        };
        lemma_trace_from_walk(arcs, list, goal, used2, nxt, chain2, steps + 1);
        let mid2 = fc.subrange(chain2.len() as int, fc.len() as int);
        let path2 = walk_nodes(nxt, mid2, goal);
        let ks2 = choose|ks: Seq<int>| walks_positions(arcs, list, used2, path2, ks);
        let mid = fc.subrange(chain.len() as int, fc.len() as int);
        let path = walk_nodes(cur, mid, goal);
        if nxt == goal {
            assert(fc == chain);
            assert(mid =~= Seq::<usize>::empty());
            assert(path =~= seq![cur, goal]);
        } else {
            assert(fc.subrange(0, chain2.len() as int) == chain2);
            assert(fc.subrange(0, chain2.len() as int)[chain.len() as int] == nxt);
            assert(fc[chain.len() as int] == nxt);
            assert(fc.subrange(0, chain.len() as int) =~= chain2.subrange(0, chain.len() as int));
            assert(mid =~= seq![nxt] + mid2);
        }
        assert(path =~= seq![cur] + path2);
        assert(fc.subrange(0, chain.len() as int) =~= chain);
        let ks = seq![k] + ks2;
        assert forall|i: int| 0 <= i < ks.len() implies {
            &&& 0 <= #[trigger] ks[i] < list.len()
            &&& !used[ks[i]]
            &&& joins(arcs[list[ks[i]] as int], path[i], path[i + 1])
        } by {
            if i > 0 {
                assert(ks[i] == ks2[i - 1]);
                assert(path[i] == path2[i - 1] && path[i + 1] == path2[i]);
            }
        }
        assert forall|i: int, j: int| 0 <= i < j < ks.len() implies ks[i] != ks[j] by {
            assert(ks[j] == ks2[j - 1]);
            if i > 0 {
                assert(ks[i] == ks2[i - 1]);
            } else {
                assert(!used2[ks2[j - 1]]);
            }
        }
        assert(walks_positions(arcs, list, used, path, ks));
    }
}

proof fn lemma_face_arcs_order(arcs: Seq<SkelArc>, e: int, m: nat)
    requires
        m <= arcs.len(),
        arcs.len() <= usize::MAX,
    ensures
        forall|k: int|
            0 <= k < face_arcs_upto(arcs, e, m).len() ==> borders(
                arcs[#[trigger] face_arcs_upto(arcs, e, m)[k] as int],
                e,
            ),
        forall|i: int, j: int|
            0 <= i < j < face_arcs_upto(arcs, e, m).len() ==> face_arcs_upto(arcs, e, m)[i]
                < face_arcs_upto(arcs, e, m)[j],
    decreases m,
{
    if m > 0 {
        lemma_face_arcs_order(arcs, e, (m - 1) as nat);
        lemma_face_arcs_shape(arcs, e, (m - 1) as nat);
    }
}

proof fn lemma_face_arcs_complete(arcs: Seq<SkelArc>, e: int, m: nat)
    requires
        m <= arcs.len(),
        arcs.len() <= usize::MAX,
    ensures
        forall|i: int|
            0 <= i < m && borders(arcs[i], e) ==> face_arcs_upto(arcs, e, m).contains(i as usize),
    decreases m,
{
    if m > 0 {
        lemma_face_arcs_complete(arcs, e, (m - 1) as nat);
        let before = face_arcs_upto(arcs, e, (m - 1) as nat);
        assert forall|i: int| 0 <= i < m && borders(arcs[i], e) implies face_arcs_upto(
            arcs,
            e,
            m,
        ).contains(i as usize) by {
            if i < m - 1 {
                let k = choose|k: int| 0 <= k < before.len() && before[k] == i as usize;
                assert(face_arcs_upto(arcs, e, m)[k] == i as usize);
            } else {
                assert(face_arcs_upto(arcs, e, m)[before.len() as int] == i as usize);
            }
        }
    }
}

/// The arcs of face `e` are exactly the arcs bordering it, each listed
/// once, in increasing order.
pub proof fn lemma_face_arcs_exact(arcs: Seq<SkelArc>, e: int)
    requires
        arcs.len() <= usize::MAX,
    ensures
        forall|i: int|
            0 <= i < arcs.len() ==> (face_arcs(arcs, e).contains(i as usize) <==> borders(
                arcs[i],
                e,
            )),
        forall|k: int|
            0 <= k < face_arcs(arcs, e).len() ==> #[trigger] face_arcs(arcs, e)[k] < arcs.len(),
        forall|a: int, b: int|
            0 <= a < b < face_arcs(arcs, e).len() ==> face_arcs(arcs, e)[a] < face_arcs(arcs, e)[b],
{
    lemma_face_arcs_shape(arcs, e, arcs.len());
    lemma_face_arcs_order(arcs, e, arcs.len());
    lemma_face_arcs_complete(arcs, e, arcs.len());
    let list = face_arcs(arcs, e);
    assert forall|i: int| 0 <= i < arcs.len() && list.contains(i as usize) implies borders(
        arcs[i],
        e,
    ) by {
        let k = choose|k: int| 0 <= k < list.len() && list[k] == i as usize;
        assert(borders(arcs[list[k] as int], e));
    }
}

/// A closed cell trace is a walk around its face: from the edge's end
/// vertex `(e + 1) % n`, through the nodes of the chain, back to the
/// edge's start vertex `e`, each step crosses a different arc bordering
/// face `e`, joining the two nodes it steps between.
pub proof fn lemma_closed_trace_walks_face(arcs: Seq<SkelArc>, n: int, e: int)
    requires
        arcs.len() <= usize::MAX,
        0 <= e < n,
        cell_trace(arcs, n, e) is Closed,
    ensures
        exists|ids: Seq<usize>|
            #[trigger] walks_along(
                arcs,
                e,
                walk_nodes(((e + 1) % n) as usize, closed_chain(cell_trace(arcs, n, e)), e as usize),
                ids,
            ),
{
    let list = face_arcs(arcs, e);
    let used = Seq::new(list.len(), |i: int| false);
    let start = ((e + 1) % n) as usize;
    let chain = closed_chain(cell_trace(arcs, n, e));
    lemma_trace_from_walk(arcs, list, e as usize, used, start, Seq::empty(), 0);
    lemma_face_arcs_shape(arcs, e, arcs.len());
    lemma_face_arcs_order(arcs, e, arcs.len());
    assert(chain.subrange(0, 0) =~= Seq::<usize>::empty());
    assert(chain.subrange(0, chain.len() as int) =~= chain);
    let path = walk_nodes(start, chain, e as usize);
    let ks = choose|ks: Seq<int>| walks_positions(arcs, list, used, path, ks);
    let ids = ks.map_values(|k: int| list[k]);
    assert forall|i: int| 0 <= i < ids.len() implies {
        &&& #[trigger] ids[i] < arcs.len()
        &&& borders(arcs[ids[i] as int], e)
        &&& joins(arcs[ids[i] as int], path[i], path[i + 1])
    } by {
        assert(ids[i] == list[ks[i]]);
    }
    assert forall|i: int, j: int| 0 <= i < j < ids.len() implies ids[i] != ids[j] by {
        assert(ids[i] == list[ks[i]] && ids[j] == list[ks[j]]);
        assert(ks[i] != ks[j]);
        if ks[i] < ks[j] {
            assert(list[ks[i]] < list[ks[j]]);
        } else {
            assert(list[ks[j]] < list[ks[i]]);
        }
    }
    assert(walks_along(arcs, e, path, ids));
}

/// Number of `true` entries of `s`.
spec fn count_true(s: Seq<bool>) -> nat
    decreases s.len(),
{
    if s.len() == 0 {
        0
    } else {
        count_true(s.drop_last()) + if s.last() {
            1nat
        } else {
            0nat
        }
    }
}

proof fn lemma_count_true_bounds(s: Seq<bool>)
    ensures
        count_true(s) <= s.len(),
    decreases s.len(),
{
    if s.len() > 0 {
        lemma_count_true_bounds(s.drop_last());
    }
}

proof fn lemma_count_true_all_false(n: nat)
    ensures
        count_true(Seq::new(n, |i: int| false)) == 0,
    decreases n,
{
    if n > 0 {
        assert(Seq::new(n, |i: int| false).drop_last() =~= Seq::new((n - 1) as nat, |i: int| false));
        lemma_count_true_all_false((n - 1) as nat);
    }
}

proof fn lemma_count_true_mark(s: Seq<bool>, k: int)
    requires
        0 <= k < s.len(),
        !s[k],
    ensures
        count_true(s.update(k, true)) == count_true(s) + 1,
    decreases s.len(),
{
    let t = s.update(k, true);
    if k == s.len() - 1 {
        assert(t.drop_last() =~= s.drop_last());
    } else {
        assert(t.drop_last() =~= s.drop_last().update(k, true));
        lemma_count_true_mark(s.drop_last(), k);
    }
}

proof fn lemma_trace_never_stalls(
    arcs: Seq<SkelArc>,
    list: Seq<usize>,
    goal: usize,
    used: Seq<bool>,
    cur: usize,
    chain: Seq<usize>,
    steps: int,
)
    requires
        used.len() == list.len(),
        list.len() <= arcs.len(),
        0 <= steps <= count_true(used),
    ensures
        !(trace_from(arcs, list, goal, used, cur, chain, steps) is NotClosed),
    decreases arcs.len() + 3 - steps,
{
    lemma_count_true_bounds(used);
    if cur != goal {
        lemma_pick_from(arcs, list, used, cur, 0);
        if let Some((k, nxt)) = pick_from(arcs, list, used, cur, 0) {
            lemma_count_true_mark(used, k);
            lemma_trace_never_stalls(
                arcs,
                list,
                goal,
                used.update(k, true),
                nxt,
                if nxt != goal {
                    chain.push(nxt)
                } else {
                    chain
                },
                steps + 1,
            );
        }
    }
}

/// A cell trace never runs out of steps: each step crosses an arc of the
/// face not crossed before, so before the step budget (more than the face
/// has arcs) is spent the trace has either closed or found no arc to go on.
pub proof fn lemma_cell_trace_never_stalls(arcs: Seq<SkelArc>, n: int, e: int)
    requires
        arcs.len() <= usize::MAX,
    ensures
        !(cell_trace(arcs, n, e) is NotClosed),
{
    let list = face_arcs(arcs, e);
    lemma_face_arcs_shape(arcs, e, arcs.len());
    lemma_count_true_all_false(list.len());
    lemma_trace_never_stalls(
        arcs,
        list,
        e as usize,
        Seq::new(list.len(), |i: int| false),
        ((e + 1) % n) as usize,
        Seq::empty(),
        0,
    );
}

/// `ids` lists every position of `list` once, position `ids[j]` naming an
/// arc that joins `path[j]` to `path[j + 1]`, along a path of pairwise
/// different nodes.
pub open spec fn simple_path_of(
    arcs: Seq<SkelArc>,
    list: Seq<usize>,
    path: Seq<usize>,
    ids: Seq<int>,
) -> bool {
    &&& path.len() == ids.len() + 1
    &&& ids.len() == list.len()
    &&& forall|i: int, j: int| 0 <= i < j < path.len() ==> path[i] != path[j]
    &&& forall|j: int|
        0 <= j < ids.len() ==> 0 <= #[trigger] ids[j] < list.len() && joins(
            arcs[list[ids[j]] as int],
            path[j],
            path[j + 1],
        )
    &&& forall|i: int, j: int| 0 <= i < j < ids.len() ==> ids[i] != ids[j]
}

/// Position `q` occurs in `ids`.
spec fn listed(ids: Seq<int>, q: int) -> bool {
    exists|j: int| 0 <= j < ids.len() && ids[j] == q
}

proof fn lemma_simple_path_covers(arcs: Seq<SkelArc>, list: Seq<usize>, path: Seq<usize>, ids: Seq<int>)
    requires
        simple_path_of(arcs, list, path, ids),
    ensures
        forall|q: int| 0 <= q < list.len() ==> #[trigger] listed(ids, q),
{
    broadcast use vstd::seq_lib::seq_to_set_is_finite;

    assert(ids.no_duplicates());
    ids.unique_seq_to_set();
    let range = vstd::set_lib::set_int_range(0, list.len() as int);
    vstd::set_lib::lemma_int_range(0, list.len() as int);
    assert forall|x: int| ids.to_set().contains(x) implies range.contains(x) by {
        let j = choose|j: int| 0 <= j < ids.len() && ids[j] == x;
        assert(ids[j] == x);
    }
    vstd::set_lib::lemma_subset_equality(ids.to_set(), range);
    assert forall|q: int| 0 <= q < list.len() implies #[trigger] listed(ids, q) by {
        assert(range.contains(q));
        assert(ids.to_set().contains(q));
    }
}

proof fn lemma_pick_along_path(
    arcs: Seq<SkelArc>,
    list: Seq<usize>,
    path: Seq<usize>,
    ids: Seq<int>,
    i: int,
    used: Seq<bool>,
    k0: int,
)
    requires
        simple_path_of(arcs, list, path, ids),
        forall|q: int| 0 <= q < list.len() ==> #[trigger] listed(ids, q),
        0 <= i < ids.len(),
        used.len() == list.len(),
        forall|j: int| 0 <= j < ids.len() ==> (used[#[trigger] ids[j]] <==> j < i),
        0 <= k0 <= ids[i],
    ensures
        pick_from(arcs, list, used, path[i], k0) == Some((ids[i], path[i + 1])),
    decreases ids[i] - k0,
{
    if k0 < ids[i] {
        assert(listed(ids, k0));
        let j = choose|j: int| 0 <= j < ids.len() && ids[j] == k0;
        assert(used[ids[j]] <==> j < i);
        if j > i {
            assert(path[j] != path[i] && path[j + 1] != path[i]);
        }
        lemma_pick_along_path(arcs, list, path, ids, i, used, k0 + 1);
    } else {
        assert(used[ids[i]] <==> i < i);
        assert(path[i] != path[i + 1]);
    }
}

proof fn lemma_trace_along_path(
    arcs: Seq<SkelArc>,
    list: Seq<usize>,
    path: Seq<usize>,
    ids: Seq<int>,
    i: int,
    used: Seq<bool>,
    chain: Seq<usize>,
)
    requires
        simple_path_of(arcs, list, path, ids),
        forall|q: int| 0 <= q < list.len() ==> #[trigger] listed(ids, q),
        list.len() <= arcs.len(),
        0 <= i < path.len(),
        used.len() == list.len(),
        forall|j: int| 0 <= j < ids.len() ==> (used[#[trigger] ids[j]] <==> j < i),
        chain == if i == 0 {
            Seq::<usize>::empty()
        } else if i == path.len() - 1 {
            path.subrange(1, i)
        } else {
            path.subrange(1, i + 1)
        },
    ensures
        trace_from(arcs, list, path.last(), used, path[i], chain, i) == TraceEnd::Closed(
            if path.len() >= 2 {
                path.subrange(1, path.len() - 1)
            } else {
                Seq::<usize>::empty()
            },
        ),
    decreases path.len() - i,
{
    let goal = path.last();
    if i == path.len() - 1 {
        if i == 0 {
        } else {
            assert(chain == path.subrange(1, path.len() - 1));
        }
    } else {
        assert(path[i] != goal);
        lemma_pick_along_path(arcs, list, path, ids, i, used, 0);
        let k = ids[i];
        let nxt = path[i + 1];
        let used2 = used.update(k, true);
        let chain2 = if nxt != goal {
            chain.push(nxt)
        } else {
            chain
        };
        assert forall|j: int| 0 <= j < ids.len() implies (used2[#[trigger] ids[j]] <==> j < i
            + 1) by {
            if j != i {
                assert(ids[j] != k);
            }
        }
        if i + 1 < path.len() - 1 {
            assert(nxt != goal);
            assert(chain2 == chain.push(nxt));
            assert(chain2 =~= path.subrange(1, i + 2));
        } else {
            assert(nxt == goal);
            assert(chain2 == chain);
            if i == 0 {
                assert(chain2 =~= path.subrange(1, 1));
            }
        }
        lemma_trace_along_path(arcs, list, path, ids, i + 1, used2, chain2);
    }
}

/// Tracing finds every cell that is there: when the arcs bordering face `e`
/// are exactly the arcs of a simple path from the edge's end vertex
/// `(e + 1) % n` to its start vertex `e`, each used once, the trace of `e`
/// closes, and its chain is the path's inner nodes in order.
pub proof fn lemma_simple_face_path_closes(
    arcs: Seq<SkelArc>,
    n: int,
    e: int,
    path: Seq<usize>,
    ids: Seq<int>,
)
    requires
        arcs.len() <= usize::MAX,
        simple_path_of(arcs, face_arcs(arcs, e), path, ids),
        path[0] == ((e + 1) % n) as usize,
        path.last() == e as usize,
    ensures
        cell_trace(arcs, n, e) == TraceEnd::Closed(
            if path.len() >= 2 {
                path.subrange(1, path.len() - 1)
            } else {
                Seq::<usize>::empty()
            },
        ),
{
    let list = face_arcs(arcs, e);
    lemma_face_arcs_shape(arcs, e, arcs.len());
    lemma_simple_path_covers(arcs, list, path, ids);
    let used = Seq::new(list.len(), |q: int| false);
    lemma_trace_along_path(arcs, list, path, ids, 0, used, Seq::empty());
}

proof fn lemma_no_cell_trace_stalls(arcs: Seq<SkelArc>, n: int)
    requires
        arcs.len() <= usize::MAX,
    ensures
        forall|e: int| 0 <= e < n ==> !(#[trigger] cell_trace(arcs, n, e) is NotClosed),
{
    assert forall|e: int| 0 <= e < n implies !(#[trigger] cell_trace(arcs, n, e) is NotClosed) by {
        lemma_cell_trace_never_stalls(arcs, n, e);
    }
}

/// The node-id cells of the straight skeleton: for every polygon edge `e`
/// of `edge_count`, the boundary of the region its wavefront swept, as the
/// node sequence `[e, (e + 1) % edge_count, ..chain]` where `chain` is the
/// trace of [`cell_trace`]. Fails on the first edge whose trace does not
/// close or is disconnected.
pub fn trace_cells(edge_count: usize, arcs: &Vec<SkelArc>) -> (r: Result<
    Vec<Vec<usize>>,
    OperationError,
>)
    requires
        arcs@.len() + 3 < usize::MAX,
        forall|i: int|
            0 <= i < arcs@.len() ==> #[trigger] arcs@[i].faces[0] < edge_count && arcs@[i].faces[1]
                < edge_count,
    ensures
        r is Ok <==> forall|e: int| 0 <= e < edge_count ==> #[trigger] cell_trace(arcs@, edge_count as int, e) is Closed,
        r matches Ok(cells) ==> {
            &&& cells@.len() == edge_count
            &&& forall|e: int|
                0 <= e < edge_count ==> (#[trigger] cell_trace(arcs@, edge_count as int, e) matches TraceEnd::Closed(chain)
                    && cells@[e]@ == seq![e as usize, ((e + 1) % (edge_count as int)) as usize] + chain)
        },
        forall|e: int|
            0 <= e < edge_count ==> !(#[trigger] cell_trace(arcs@, edge_count as int, e) is NotClosed),
        r is Err ==> exists|e: int|
            0 <= e < edge_count && (forall|f: int| 0 <= f < e ==> #[trigger] cell_trace(arcs@, edge_count as int, f) is Closed)
                && match #[trigger] cell_trace(arcs@, edge_count as int, e) {
                    TraceEnd::NotClosed => failed_with(r, not_closed_message(e as nat)),
                    TraceEnd::Disconnected => failed_with(r, disconnected_message(e as nat)),
                    TraceEnd::Closed(_) => false,
                },
{
    let n = edge_count;
    let mut by_edge: Vec<Vec<usize>> = Vec::new();
    let mut e: usize = 0;
    while e < n
        invariant
            e <= n,
            by_edge@.len() == e,
            forall|f: int| 0 <= f < e ==> #[trigger] by_edge@[f]@ == Seq::<usize>::empty(),
        decreases n - e,
    {
        by_edge.push(Vec::new());
        e += 1;
    }
    let mut i: usize = 0;
    while i < arcs.len()
        invariant
            n == edge_count,
            i <= arcs@.len(),
            by_edge@.len() == n,
            forall|i: int|
                0 <= i < arcs@.len() ==> #[trigger] arcs@[i].faces[0] < edge_count
                    && arcs@[i].faces[1] < edge_count,
            forall|f: int| 0 <= f < n ==> #[trigger] by_edge@[f]@ == face_arcs_upto(arcs@, f, i as nat),
        decreases arcs@.len() - i,
    {
        let arc = arcs[i];
        let f0 = arc.faces[0];
        let f1 = arc.faces[1];
        let ghost before = by_edge@;
        by_edge[f0].push(i);
        if f1 != f0 {
            by_edge[f1].push(i);
        }
        proof {
            assert forall|f: int| 0 <= f < n implies #[trigger] by_edge@[f]@ == face_arcs_upto(
                arcs@,
                f,
                (i + 1) as nat,
            ) by {
                assert(before[f]@ == face_arcs_upto(arcs@, f, i as nat));
            }
        }
        i += 1;
    }
    let mut cells: Vec<Vec<usize>> = Vec::new();
    let mut e: usize = 0;
    while e < n
        invariant
            n == edge_count,
            e <= n,
            arcs@.len() + 3 < usize::MAX,
            by_edge@.len() == n,
            forall|f: int| 0 <= f < n ==> #[trigger] by_edge@[f]@ == face_arcs(arcs@, f),
            cells@.len() == e,
            forall|f: int|
                0 <= f < e ==> (#[trigger] cell_trace(arcs@, n as int, f) matches TraceEnd::Closed(chain)
                    && cells@[f]@ == seq![f as usize, ((f + 1) % (n as int)) as usize] + chain),
        decreases n - e,
    {
        let list = &by_edge[e];
        proof {
            lemma_face_arcs_shape(arcs@, e as int, arcs@.len());
        }
        let goal = e;
        let start = if e + 1 == n {
            0
        } else {
            e + 1
        };
        proof {
            assert(start == (e + 1) % (n as int)) by (nonlinear_arith)
                requires
                    e < n,
                    e + 1 == n ==> start == 0,
                    e + 1 != n ==> start == e + 1,
            ;
        }
        let mut used: Vec<bool> = Vec::new();
        let mut k: usize = 0;
        while k < list.len()
            invariant
                k <= list@.len(),
                used@ == Seq::new(k as nat, |i: int| false),
            decreases list@.len() - k,
        {
            used.push(false);
            proof {
                assert(used@ =~= Seq::new((k + 1) as nat, |i: int| false));
            }
            k += 1;
        }
        let ghost whole = cell_trace(arcs@, n as int, e as int);
        let mut chain: Vec<usize> = Vec::new();
        let mut current = start;
        let mut steps: usize = 0;
        while current != goal
            invariant
                n == edge_count,
                e < n,
                goal == e,
                arcs@.len() + 3 < usize::MAX,
                list@ == face_arcs(arcs@, e as int),
                forall|k: int| 0 <= k < list@.len() ==> #[trigger] list@[k] < arcs@.len(),
                used@.len() == list@.len(),
                steps <= arcs@.len() + 2,
                whole == trace_from(arcs@, list@, goal, used@, current, chain@, steps as int),
                whole == cell_trace(arcs@, n as int, e as int),
                forall|f: int| 0 <= f < e ==> #[trigger] cell_trace(arcs@, n as int, f) is Closed,
            decreases arcs@.len() + 2 - steps,
        {
            let ghost before_used = used@;
            let ghost before_chain = chain@;
            let ghost before_steps = steps as int;
            steps += 1;
            if steps > arcs.len() + 2 {
                proof {
                    assert(whole is NotClosed);
                    assert(cell_trace(arcs@, n as int, e as int) is NotClosed);
                }
                let mut m = String::from_str("straight skeleton: cell trace for edge ");
                push_count(&mut m, e);
                m.append(" did not close");
                let r: Result<Vec<Vec<usize>>, OperationError> = Err(OperationError::Failed(m));
                proof {
                    assert(failed_with(r, not_closed_message(e as nat)));
                    assert(match cell_trace(arcs@, edge_count as int, e as int) {
                        TraceEnd::NotClosed => failed_with(r, not_closed_message(e as nat)),
                        TraceEnd::Disconnected => failed_with(r, disconnected_message(e as nat)),
                        TraceEnd::Closed(_) => false,
                    });
                }
                proof {
                    lemma_no_cell_trace_stalls(arcs@, edge_count as int);
                }
                return r;
            }
            let mut found: Option<(usize, usize)> = None;
            let mut k: usize = 0;
            while k < list.len()
                invariant
                    k <= list@.len(),
                    used@.len() == list@.len(),
                    forall|k: int| 0 <= k < list@.len() ==> #[trigger] list@[k] < arcs@.len(),
                    found is None ==> pick_from(arcs@, list@, used@, current, 0) == pick_from(
                        arcs@,
                        list@,
                        used@,
                        current,
                        k as int,
                    ),
                    found matches Some(p) ==> pick_from(arcs@, list@, used@, current, 0) == Some(
                        (p.0 as int, p.1),
                    ) && p.0 < list@.len(),
                decreases list@.len() - k,
            {
                if found.is_none() && !used[k] {
                    let arc = arcs[list[k]];
                    if arc.from == current {
                        found = Some((k, arc.to));
                    } else if arc.to == current {
                        found = Some((k, arc.from));
                    }
                }
                k += 1;
            }
            match found {
                None => {
                    proof {
                        assert(pick_from(arcs@, list@, used@, current, list@.len() as int) is None);
                        assert(whole is Disconnected);
                        assert(cell_trace(arcs@, n as int, e as int) is Disconnected);
                    }
                    let mut m = String::from_str("straight skeleton: cell trace for edge ");
                    push_count(&mut m, e);
                    m.append(" is disconnected");
                    let r: Result<Vec<Vec<usize>>, OperationError> = Err(OperationError::Failed(m));
                    proof {
                        assert(failed_with(r, disconnected_message(e as nat)));
                        assert(match cell_trace(arcs@, edge_count as int, e as int) {
                            TraceEnd::NotClosed => failed_with(r, not_closed_message(e as nat)),
                            TraceEnd::Disconnected => failed_with(r, disconnected_message(e as nat)),
                            TraceEnd::Closed(_) => false,
                        });
                    }
                    proof {
                        lemma_no_cell_trace_stalls(arcs@, edge_count as int);
                    }
                    return r;
                },
                Some((k, nxt)) => {
                    used.set(k, true);
                    current = nxt;
                    if current != goal {
                        chain.push(current);
                    }
                },
            }
        }
        let mut cell: Vec<usize> = Vec::new();
        cell.push(goal);
        cell.push(start);
        let mut j: usize = 0;
        while j < chain.len()
            invariant
                j <= chain@.len(),
                cell@ == seq![goal, start] + chain@.subrange(0, j as int),
            decreases chain@.len() - j,
        {
            cell.push(chain[j]);
            proof {
                assert(cell@ =~= seq![goal, start] + chain@.subrange(0, j + 1));
            }
            j += 1;
        }
        proof {
            assert(chain@.subrange(0, chain@.len() as int) =~= chain@);
        }
        cells.push(cell);
        e += 1;
    }
    proof {
        lemma_no_cell_trace_stalls(arcs@, edge_count as int);
    }
    Ok(cells)
}

} // verus!
