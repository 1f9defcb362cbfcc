//! Ridges of a collapsed wavefront cycle.
//!
//! When a wavefront cycle of the straight skeleton shrinks to zero area it
//! has degenerated into a tree of segments, each walked twice: once along
//! either side. Every walk of a segment is a traversal `(low, high, face)`:
//! the segment's two end nodes, smaller first, and the face whose front
//! swept it. Sorting the traversals brings the two walks of a segment next
//! to each other, and each such pair becomes one skeleton arc bordered by
//! both faces.

use vstd::prelude::*;
use vstd::relations::{sorted_by, total_ordering};
use vstd::seq_lib::lemma_sorted_unique;

use crate::error::{failed_with, OperationError};
use crate::skeleton::SkelArc;

verus! {

/// Lexicographic order on traversals `(low, high, face)`.
pub open spec fn traversal_le(a: (usize, usize, usize), b: (usize, usize, usize)) -> bool {
    a.0 < b.0 || (a.0 == b.0 && (a.1 < b.1 || (a.1 == b.1 && a.2 <= b.2)))
}

/// [`traversal_le`] as a relation.
pub open spec fn traversal_order() -> spec_fn((usize, usize, usize), (usize, usize, usize)) -> bool {
    |a: (usize, usize, usize), b: (usize, usize, usize)| traversal_le(a, b)
}

/// The lexicographic order on traversals is a total order.
pub proof fn lemma_traversal_order_total()
    ensures
        total_ordering(traversal_order()),
{
    let r = traversal_order();
    assert forall|x: (usize, usize, usize)| #[trigger] r(x, x) by {}
    assert forall|x: (usize, usize, usize), y: (usize, usize, usize)|
        #[trigger] r(x, y) && #[trigger] r(y, x) implies x == y by {}
    assert forall|x: (usize, usize, usize), y: (usize, usize, usize), z: (usize, usize, usize)|
        #[trigger] r(x, y) && #[trigger] r(y, z) implies r(x, z) by {}
    assert forall|x: (usize, usize, usize), y: (usize, usize, usize)|
        #[trigger] r(x, y) || #[trigger] r(y, x) by {}
}

/// The traversals in sorted order.
pub open spec fn sorted_traversals(s: Seq<(usize, usize, usize)>) -> Seq<(usize, usize, usize)> {
    s.sort_by(traversal_order())
}

/// Two traversals walk the same segment.
pub open spec fn same_segment(a: (usize, usize, usize), b: (usize, usize, usize)) -> bool {
    a.0 == b.0 && a.1 == b.1
}

/// In the sorted traversals `t`, the walks at `i` and `i + 1` form one
/// ridge: they walk the same segment and no third walk of it follows.
pub open spec fn pairs_at(t: Seq<(usize, usize, usize)>, i: int) -> bool {
    &&& i + 1 < t.len()
    &&& same_segment(t[i], t[i + 1])
    &&& !(i + 2 < t.len() && same_segment(t[i], t[i + 2]))
}

/// The ridge formed by the walks at `i` and `i + 1`: the segment, bordered
/// by both walks' faces.
pub open spec fn ridge_at(t: Seq<(usize, usize, usize)>, i: int) -> SkelArc {
    SkelArc { from: t[i].0, to: t[i].1, faces: [t[i].2, t[i + 1].2] }
}

/// Message of a segment walked once only.
pub open spec fn unpaired_message() -> Seq<char> {
    "straight skeleton: unpaired ridge segment in flat cycle"@
}

/// Message of a segment walked more than twice.
pub open spec fn overtraversed_message() -> Seq<char> {
    "straight skeleton: overtraversed ridge segment in flat cycle"@
}

/// Why the walk at `i` pairs with no other: a third walk of its segment
/// follows its partner, or it has no partner.
pub open spec fn pair_fault_message(t: Seq<(usize, usize, usize)>, i: int) -> Seq<char> {
    if i + 1 < t.len() && same_segment(t[i], t[i + 1]) {
        overtraversed_message()
    } else {
        unpaired_message()
    }
}

/// The walks an arc list stands for: for arc `j`, the walk of its segment
/// on the side of `faces[0]`, then on the side of `faces[1]`.
pub open spec fn walks(arcs: Seq<SkelArc>) -> Seq<(usize, usize, usize)> {
    Seq::new(
        arcs.len() * 2,
        |i: int| (arcs[i / 2].from, arcs[i / 2].to, arcs[i / 2].faces[i % 2]),
    )
}

/// Segment `(a, b)` comes strictly before segment `(c, d)`.
pub open spec fn segment_before(a: SkelArc, b: SkelArc) -> bool {
    a.from < b.from || (a.from == b.from && a.to < b.to)
}

proof fn lemma_pairing_covers_walks(t: Seq<(usize, usize, usize)>, arcs: Seq<SkelArc>)
    requires
        forall|i: int| 0 <= i < t.len() && i % 2 == 0 ==> #[trigger] pairs_at(t, i),
        arcs.len() * 2 == t.len(),
        forall|j: int| 0 <= j < arcs.len() ==> #[trigger] arcs[j] == ridge_at(t, 2 * j),
    ensures
        walks(arcs) == t,
{
    let w = walks(arcs);
    assert forall|i: int| 0 <= i < t.len() implies #[trigger] w[i] == t[i] by {
        let j = i / 2;
        assert(0 <= j < arcs.len());
        assert(arcs[j] == ridge_at(t, 2 * j));
        assert(pairs_at(t, 2 * j));
        if i % 2 == 0 {
            assert(i == 2 * j);
        } else {
            assert(i == 2 * j + 1);
        }
    }
    assert(w =~= t);
}

proof fn lemma_pairing_orders_segments(t: Seq<(usize, usize, usize)>, arcs: Seq<SkelArc>)
    requires
        sorted_by(t, traversal_order()),
        forall|i: int| 0 <= i < t.len() && i % 2 == 0 ==> #[trigger] pairs_at(t, i),
        arcs.len() * 2 == t.len(),
        forall|j: int| 0 <= j < arcs.len() ==> #[trigger] arcs[j] == ridge_at(t, 2 * j),
    ensures
        forall|j: int, k: int|
            0 <= j < k < arcs.len() ==> segment_before(#[trigger] arcs[j], #[trigger] arcs[k]),
{
    assert forall|j: int, k: int| 0 <= j < k < arcs.len() implies segment_before(
        #[trigger] arcs[j],
        #[trigger] arcs[k],
    ) by {
        let a = 2 * j;
        let b = 2 * k;
        assert(arcs[j] == ridge_at(t, a));
        assert(arcs[k] == ridge_at(t, b));
        assert(pairs_at(t, a));
        assert(a + 2 < t.len());
        assert(traversal_le(t[a], t[a + 2])) by {
            assert(traversal_order()(t[a], t[a + 2]));
        }
        if a + 2 < b {
            assert(traversal_le(t[a + 2], t[b])) by {
                assert(traversal_order()(t[a + 2], t[b]));
            }
        }
    }
}

fn traversal_leq(a: (usize, usize, usize), b: (usize, usize, usize)) -> (r: bool)
    ensures
        r == traversal_le(a, b),
{
    a.0 < b.0 || (a.0 == b.0 && (a.1 < b.1 || (a.1 == b.1 && a.2 <= b.2)))
}

/// Sorts traversals in [`traversal_le`] order.
pub fn sort_traversals(items: &Vec<(usize, usize, usize)>) -> (r: Vec<(usize, usize, usize)>)
    ensures
        r@ == sorted_traversals(items@),
        r@.to_multiset() == items@.to_multiset(),
        forall|a: int, b: int|
            0 <= a < b < r@.len() ==> {
                let (x, y) = (#[trigger] r@[a], #[trigger] r@[b]);
                x.0 < y.0 || (x.0 == y.0 && (x.1 < y.1 || (x.1 == y.1 && x.2 <= y.2)))
            },
{
    proof {
        lemma_traversal_order_total();
    }
    let ghost order = traversal_order();
    let mut out: Vec<(usize, usize, usize)> = Vec::new();
    let mut i: usize = 0;
    proof {
        assert(out@ =~= items@.subrange(0, 0));
    }
    while i < items.len()
        invariant
            i <= items@.len(),
            order == traversal_order(),
            sorted_by(out@, order),
            out@.to_multiset() == items@.subrange(0, i as int).to_multiset(),
        decreases items@.len() - i,
    {
        let x = items[i];
        let mut pos: usize = 0;
        while pos < out.len() && traversal_leq(out[pos], x)
            invariant
                pos <= out@.len(),
                forall|k: int| 0 <= k < pos ==> #[trigger] traversal_le(out@[k], x),
            decreases out@.len() - pos,
        {
            pos += 1;
        }
        let ghost before = out@;
        out.insert(pos, x);
        proof {
            assert(pos < before.len() ==> !traversal_le(before[pos as int], x));
            assert forall|a: int, b: int| 0 <= a < b < out@.len() implies #[trigger] order(
                out@[a],
                out@[b],
            ) by {
                assert(order(before[a], before[b - 1]) == traversal_le(before[a], before[b - 1]));
                if b < pos {
                    assert(order(before[a], before[b]));
                } else if b == pos {
                    assert(traversal_le(before[a], x));
                } else if a < pos {
                    assert(traversal_le(before[a], x));
                    assert(order(before[pos as int], before[b - 1]));
                } else if a == pos {
                    assert(order(before[pos as int], before[b - 1]));
                } else {
                    assert(order(before[a - 1], before[b - 1]));
                }
            }
            vstd::seq_lib::to_multiset_insert(before, pos as int, x);
            assert(items@.subrange(0, i + 1) =~= items@.subrange(0, i as int).push(x));
            assert(items@.subrange(0, i as int).push(x) =~= items@.subrange(0, i as int).insert(
                i as int,
                x,
            ));
            vstd::seq_lib::to_multiset_insert(items@.subrange(0, i as int), i as int, x);
        }
        i += 1;
    }
    proof {
        assert(items@.subrange(0, items@.len() as int) =~= items@);
        items@.lemma_sort_by_ensures(order);
        lemma_sorted_unique(out@, items@.sort_by(order), order);
        assert forall|a: int, b: int| 0 <= a < b < out@.len() implies {
            let (x, y) = (#[trigger] out@[a], #[trigger] out@[b]);
            x.0 < y.0 || (x.0 == y.0 && (x.1 < y.1 || (x.1 == y.1 && x.2 <= y.2)))
        } by {
            assert(order(out@[a], out@[b]));
        }
    }
    out
}

fn pair_sorted(t: &Vec<(usize, usize, usize)>) -> (r: Result<Vec<SkelArc>, OperationError>)
    ensures
        r is Ok <==> forall|i: int|
            0 <= i < t@.len() && i % 2 == 0 ==> #[trigger] pairs_at(t@, i),
        r matches Ok(arcs) ==> {
            &&& arcs@.len() * 2 == t@.len()
            &&& forall|j: int| 0 <= j < arcs@.len() ==> #[trigger] arcs@[j] == ridge_at(t@, 2 * j)
        },
        r is Err ==> exists|i: int|
            0 <= i < t@.len() && i % 2 == 0 && (forall|k: int|
                0 <= k < i && k % 2 == 0 ==> #[trigger] pairs_at(t@, k)) && !#[trigger] pairs_at(t@, i)
                && failed_with(r, pair_fault_message(t@, i)),
{
    let mut arcs: Vec<SkelArc> = Vec::new();
    let mut idx: usize = 0;
    while idx < t.len()
        invariant
            idx <= t@.len(),
            idx % 2 == 0,
            arcs@.len() * 2 == idx,
            forall|k: int| 0 <= k < idx && k % 2 == 0 ==> #[trigger] pairs_at(t@, k),
            forall|j: int| 0 <= j < arcs@.len() ==> #[trigger] arcs@[j] == ridge_at(t@, 2 * j),
        decreases t@.len() - idx,
    {
        let (a, b, f1) = t[idx];
        let mut fault: Option<String> = None;
        if idx + 1 >= t.len() {
            fault = Some(String::from_str("straight skeleton: unpaired ridge segment in flat cycle"));
        } else {
            let (a2, b2, _f2) = t[idx + 1];
            if a2 != a || b2 != b {
                fault = Some(
                    String::from_str("straight skeleton: unpaired ridge segment in flat cycle"),
                );
            } else if idx + 2 < t.len() {
                let (a3, b3, _f3) = t[idx + 2];
                if a3 == a && b3 == b {
                    fault = Some(
                        String::from_str(
                            "straight skeleton: overtraversed ridge segment in flat cycle",
                        ),
                    );
                }
            }
        }
        match fault {
            Some(m) => {
                let r: Result<Vec<SkelArc>, OperationError> = Err(OperationError::Failed(m));
                proof {
                    assert(!pairs_at(t@, idx as int));
                    assert(failed_with(r, pair_fault_message(t@, idx as int)));
                }
                return r;
            },
            None => {},
        }
        let f2 = t[idx + 1].2;
        proof {
            assert(pairs_at(t@, idx as int));
        }
        arcs.push(SkelArc { from: a, to: b, faces: [f1, f2] });
        proof {
            assert(arcs@[arcs@.len() - 1] == ridge_at(t@, idx as int));
        }
        idx += 2;
    }
    Ok(arcs)
}

/// Pairs the walks of a collapsed cycle's segments into ridge arcs.
///
/// The traversals are sorted (see [`sorted_traversals`]) and taken two by
/// two: each pair must walk one segment, and no third walk of that segment
/// may follow, else the cycle is refused with `Failed` ("unpaired" when the
/// walk has no partner, "overtraversed" when a third walk follows). On
/// success, pair `j` gives arc `j`: the segment, bordered by the two walks'
/// faces in sorted order.
pub fn pair_ridge_traversals(traversals: &Vec<(usize, usize, usize)>) -> (r: Result<
    Vec<SkelArc>,
    OperationError,
>)
    ensures
        r is Ok <==> forall|i: int|
            0 <= i < traversals@.len() && i % 2 == 0 ==> #[trigger] pairs_at(
                sorted_traversals(traversals@),
                i,
            ),
        r matches Ok(arcs) ==> {
            &&& arcs@.len() * 2 == traversals@.len()
            &&& forall|j: int|
                0 <= j < arcs@.len() ==> #[trigger] arcs@[j] == ridge_at(
                    sorted_traversals(traversals@),
                    2 * j,
                )
        },
        r is Err ==> exists|i: int|
            0 <= i < traversals@.len() && i % 2 == 0 && (forall|k: int|
                0 <= k < i && k % 2 == 0 ==> #[trigger] pairs_at(sorted_traversals(traversals@), k))
                && !#[trigger] pairs_at(sorted_traversals(traversals@), i) && failed_with(
                r,
                pair_fault_message(sorted_traversals(traversals@), i),
            ),
        r matches Ok(arcs) ==> {
            &&& walks(arcs@).to_multiset() == traversals@.to_multiset()
            &&& forall|j: int, k: int|
                0 <= j < k < arcs@.len() ==> segment_before(#[trigger] arcs@[j], #[trigger] arcs@[k])
        },
{
    let sorted = sort_traversals(traversals);
    proof {
        lemma_traversal_order_total();
        traversals@.lemma_sort_by_ensures(traversal_order());
        vstd::seq_lib::to_multiset_len(traversals@);
        vstd::seq_lib::to_multiset_len(sorted@);
    }
    let r = pair_sorted(&sorted);
    proof {
        if r is Ok {
            lemma_pairing_covers_walks(sorted@, r->Ok_0@);
            lemma_pairing_orders_segments(sorted@, r->Ok_0@);
        }
    }
    r
}

} // verus!
