//! Knot vectors of B-spline / NURBS bases, held by order keys.
//!
//! The knot values themselves are floating-point numbers and stay with the
//! caller; the kernel keeps, for every knot, its [`order_key`]: an unsigned
//! integer that orders exactly as the value does. Everything a knot vector
//! decides from the ordering alone — validity, the parameter domain, the
//! span containing a parameter — is computed here on those keys.

use vstd::prelude::*;

use crate::error::{degenerate_with, GeometryError};

verus! {

/// Bit pattern of `-0.0`.
pub const NEGATIVE_ZERO_BITS: u64 = 0x8000_0000_0000_0000u64;

/// The order key of an IEEE-754 double given by its bit pattern.
///
/// Non-negative patterns get the sign bit set, negative patterns are
/// complemented, and `-0.0` shares the key of `+0.0`: for any two non-NaN
/// doubles `x`, `y`, `x < y` exactly when `key(x) < key(y)`, and `x == y`
/// exactly when the keys are equal.
pub open spec fn key_of(bits: u64) -> u64 {
    if bits == NEGATIVE_ZERO_BITS {
        NEGATIVE_ZERO_BITS
    } else if bits >= NEGATIVE_ZERO_BITS {
        !bits
    } else {
        bits | NEGATIVE_ZERO_BITS
    }
}

/// Computes [`key_of`] for the bit pattern of a double.
pub fn order_key(bits: u64) -> (k: u64)
    ensures
        k == key_of(bits),
{
    if bits == NEGATIVE_ZERO_BITS {
        NEGATIVE_ZERO_BITS
    } else if bits >= NEGATIVE_ZERO_BITS {
        !bits
    } else {
        bits | NEGATIVE_ZERO_BITS
    }
}

/// Among non-negative doubles (sign bit clear) the key preserves the order
/// of the bit patterns, which is the order of the values.
pub proof fn lemma_key_monotone_non_negative(a: u64, b: u64)
    requires
        a < b < NEGATIVE_ZERO_BITS,
    ensures
        key_of(a) < key_of(b),
{
    assert((a | 0x8000_0000_0000_0000u64) < (b | 0x8000_0000_0000_0000u64)) by (bit_vector)
        requires
            a < b < 0x8000_0000_0000_0000u64,
    ;
}

/// Among negative doubles (sign bit set, `-0.0` aside) a larger bit pattern
/// is a larger magnitude and so a smaller value: the key reverses the order.
pub proof fn lemma_key_antitone_negative(a: u64, b: u64)
    requires
        NEGATIVE_ZERO_BITS < a < b,
    ensures
        key_of(b) < key_of(a),
{
    assert(!b < !a) by (bit_vector)
        requires
            a < b,
    ;
}

/// Every negative double orders below every non-negative one.
pub proof fn lemma_key_negative_below_non_negative(a: u64, b: u64)
    requires
        NEGATIVE_ZERO_BITS < a,
        b <= NEGATIVE_ZERO_BITS,
    ensures
        key_of(a) < key_of(b),
{
    assert(!a < 0x8000_0000_0000_0000u64) by (bit_vector)
        requires
            0x8000_0000_0000_0000u64 < a,
    ;
    assert((b | 0x8000_0000_0000_0000u64) >= 0x8000_0000_0000_0000u64) by (bit_vector);
}

/// Two bit patterns share a key only when they are equal or are the two
/// zeros.
pub proof fn lemma_key_injective(a: u64, b: u64)
    requires
        key_of(a) == key_of(b),
    ensures
        a == b || (a == 0 && b == NEGATIVE_ZERO_BITS) || (a == NEGATIVE_ZERO_BITS && b == 0),
{
    assert(key_of(a) == key_of(b) ==> a == b || (a == 0 && b == 0x8000_0000_0000_0000u64) || (a
        == 0x8000_0000_0000_0000u64 && b == 0)) by (bit_vector);
}

/// `s` never decreases: every earlier key is at most every later one.
pub open spec fn non_decreasing(s: Seq<u64>) -> bool {
    forall|i: int, j: int| 0 <= i <= j < s.len() ==> s[i] <= s[j]
}

/// The first adjacent descent in `s` is absent exactly when `s` is
/// non-decreasing.
pub open spec fn adjacent_non_decreasing(s: Seq<u64>) -> bool {
    forall|i: int| 0 <= i < s.len() - 1 ==> #[trigger] s[i] <= s[i + 1]
}

/// `s` with `times` copies of `value` inserted right after position `after`.
pub open spec fn spliced<T>(s: Seq<T>, after: int, value: T, times: nat) -> Seq<T> {
    s.subrange(0, after + 1) + Seq::new(times, |i: int| value) + s.subrange(after + 1, s.len() as int)
}

/// What splicing does to every position: the prefix up to `after` stays,
/// the next `times` positions hold `value`, and the rest of `s` follows,
/// shifted by `times`.
pub proof fn lemma_spliced_positions<T>(s: Seq<T>, after: int, value: T, times: nat)
    requires
        0 <= after < s.len(),
    ensures
        spliced(s, after, value, times).len() == s.len() + times,
        forall|k: int| 0 <= k <= after ==> #[trigger] spliced(s, after, value, times)[k] == s[k],
        forall|k: int|
            after < k <= after + times ==> #[trigger] spliced(s, after, value, times)[k] == value,
        forall|k: int|
            after + times < k < s.len() + times ==> #[trigger] spliced(s, after, value, times)[k]
                == s[k - times],
{
}

/// Inserts `times` copies of `value` right after position `after`, as knot
/// insertion does with the knot values: `items[..=after] ++ [value; times]
/// ++ items[after + 1..]`.
pub fn insert_repeated<T: Copy>(items: &Vec<T>, after: usize, value: T, times: usize) -> (r: Vec<T>)
    requires
        after < items@.len(),
        items@.len() + times <= usize::MAX,
    ensures
        r@ == spliced(items@, after as int, value, times as nat),
        r@.len() == items@.len() + times,
        forall|k: int| 0 <= k <= after ==> #[trigger] r@[k] == items@[k],
        forall|k: int| after < k <= after + times ==> #[trigger] r@[k] == value,
        forall|k: int| after + times < k < r@.len() ==> #[trigger] r@[k] == items@[k - times],
{
    let mut out: Vec<T> = Vec::new();
    let mut i: usize = 0;
    while i <= after
        invariant
            after < items@.len(),
            items@.len() + times <= usize::MAX,
            i <= after + 1,
            out@ == items@.subrange(0, i as int),
        decreases after + 1 - i,
    {
        out.push(items[i]);
        proof {
            assert(out@ =~= items@.subrange(0, i + 1));
        }
        i += 1;
    }
    let mut c: usize = 0;
    while c < times
        invariant
            after < items@.len(),
            c <= times,
            out@ == items@.subrange(0, after + 1) + Seq::new(c as nat, |k: int| value),
        decreases times - c,
    {
        out.push(value);
        proof {
            assert(out@ =~= items@.subrange(0, after + 1) + Seq::new((c + 1) as nat, |k: int| value));
        }
        c += 1;
    }
    let mut j: usize = after + 1;
    while j < items.len()
        invariant
            after < j <= items@.len(),
            out@ == items@.subrange(0, after + 1) + Seq::new(times as nat, |k: int| value)
                + items@.subrange(after + 1, j as int),
        decreases items@.len() - j,
    {
        out.push(items[j]);
        proof {
            assert(out@ =~= items@.subrange(0, after + 1) + Seq::new(times as nat, |k: int| value)
                + items@.subrange(after + 1, j + 1));
        }
        j += 1;
    }
    proof {
        assert(out@ =~= spliced(items@, after as int, value, times as nat));
        lemma_spliced_positions(items@, after as int, value, times as nat);
    }
    out
}

/// Inserting copies of `u` right after position `span` keeps a
/// non-decreasing sequence non-decreasing when `u` lies between the knot
/// at `span` and the next one.
pub proof fn lemma_insert_in_span_keeps_order(s: Seq<u64>, span: int, u: u64, times: nat)
    requires
        non_decreasing(s),
        0 <= span < s.len(),
        s[span] <= u,
        span + 1 < s.len() ==> u <= s[span + 1],
    ensures
        non_decreasing(spliced(s, span, u, times)),
{
    let t = spliced(s, span, u, times);
    let a = span + 1;
    let b = span + 1 + times;
    assert forall|i: int, j: int| 0 <= i <= j < t.len() implies t[i] <= t[j] by {
        if i < a && j < a {
            assert(t[i] == s[i] && t[j] == s[j]);
        } else if i < a && j < b {
            assert(t[i] == s[i] && t[j] == u);
            assert(s[i] <= s[span]);
        } else if i < a {
            assert(t[i] == s[i] && t[j] == s[j - times]);
        } else if i < b && j < b {
            assert(t[i] == u && t[j] == u);
        } else if i < b {
            assert(t[i] == u && t[j] == s[j - times]);
            assert(s[span + 1] <= s[j - times]);
        } else {
            assert(t[i] == s[i - times] && t[j] == s[j - times]);
        }
    }
}

/// Non-decreasing knot sequence for B-spline / NURBS bases.
///
/// Invariants enforced at construction: at least 4 knots (the minimum for a
/// degree-1 curve with 2 control points), all values finite, non-decreasing.
#[derive(Debug, PartialEq)]
pub struct KnotVector {
    keys: Vec<u64>,
}

impl View for KnotVector {
    type V = Seq<u64>;

    closed spec fn view(&self) -> Seq<u64> {
        self.keys@
    }
}

proof fn lemma_adjacent_gives_sorted(s: Seq<u64>)
    requires
        adjacent_non_decreasing(s),
    ensures
        non_decreasing(s),
    decreases s.len(),
{
    if s.len() > 0 {
        let t = s.drop_last();
        assert forall|i: int| 0 <= i < t.len() - 1 implies #[trigger] t[i] <= t[i + 1] by {
            assert(s[i] <= s[i + 1]);
        }
        lemma_adjacent_gives_sorted(t);
        assert forall|i: int, j: int| 0 <= i <= j < s.len() implies s[i] <= s[j] by {
            if j == s.len() - 1 && i < j {
                assert(t[i] <= t[j - 1]);
                assert(s[j - 1] <= s[j]);
            } else if i < j {
                assert(t[i] <= t[j]);
            }
        }
    }
}

impl Clone for KnotVector {
    fn clone(&self) -> (r: Self)
        ensures
            r@ == self@,
    {
        proof { use_type_invariant(self); }
        KnotVector { keys: self.keys.clone() }
    }
}

impl KnotVector {
    #[verifier::type_invariant]
    spec fn inv(&self) -> bool {
        self.keys@.len() >= 4 && non_decreasing(self.keys@)
    }

    /// Creates a knot vector from the order keys of its values, validating
    /// the invariants. `all_finite` tells whether every knot value is a
    /// finite number.
    ///
    /// Fails with `Degenerate` when there are fewer than 4 knots, else when
    /// a value is not finite, else when the sequence decreases anywhere.
    pub fn new(keys: Vec<u64>, all_finite: bool) -> (r: Result<Self, GeometryError>)
        ensures
            r is Ok <==> keys@.len() >= 4 && all_finite && non_decreasing(keys@),
            r matches Ok(kv) ==> kv@ == keys@,
            keys@.len() < 4 ==> degenerate_with(r, "knot vector needs at least 4 knots"@),
            keys@.len() >= 4 && !all_finite ==> degenerate_with(r, "knot values must be finite"@),
            keys@.len() >= 4 && all_finite && !non_decreasing(keys@) ==> degenerate_with(
                r,
                "knot vector must be non-decreasing"@,
            ),
    {
        if keys.len() < 4 {
            return Err(GeometryError::Degenerate(String::from_str("knot vector needs at least 4 knots")));
        }
        if !all_finite {
            return Err(GeometryError::Degenerate(String::from_str("knot values must be finite")));
        }
        let mut i: usize = 1;
        while i < keys.len()
            invariant
                1 <= i <= keys@.len(),
                keys@.len() >= 4,
                all_finite,
                forall|k: int| 0 <= k < i - 1 ==> #[trigger] keys@[k] <= keys@[k + 1],
            decreases keys@.len() - i,
        {
            if keys[i] < keys[i - 1] {
                proof {
                    let s = keys@;
                    assert(!(s[i - 1] <= s[i as int]));
                }
                return Err(GeometryError::Degenerate(String::from_str("knot vector must be non-decreasing")));
            }
            i += 1;
        }
        proof {
            lemma_adjacent_gives_sorted(keys@);
        }
        Ok(KnotVector { keys })
    }

    /// Number of knots.
    pub fn len(&self) -> (r: usize)
        ensures
            r == self@.len(),
            r >= 4,
    {
        proof { use_type_invariant(self); }
        self.keys.len()
    }

    /// Whether the knot vector is empty (never true for a valid instance).
    pub fn is_empty(&self) -> (r: bool)
        ensures
            r == (self@.len() == 0),
            !r,
    {
        proof { use_type_invariant(self); }
        self.keys.len() == 0
    }

    /// The knot keys, in order.
    pub fn as_slice(&self) -> (r: &[u64])
        ensures
            r@ == self@,
            non_decreasing(r@),
    {
        proof { use_type_invariant(self); }
        self.keys.as_slice()
    }

    /// Parameter domain `[knots[degree], knots[len - 1 - degree]]` of a
    /// curve of the given degree over this knot vector.
    pub fn domain(&self, degree: usize) -> (r: (u64, u64))
        requires
            degree < self@.len(),
        ensures
            r == (self@[degree as int], self@[self@.len() - 1 - degree]),
    {
        (self.keys[degree], self.keys[self.keys.len() - 1 - degree])
    }

    /// Finds the knot span index containing the parameter with key `u`
    /// (The NURBS Book, A2.1).
    ///
    /// `control_count` is the number of control points of the curve using
    /// this knot vector, so `n = control_count - 1` is its last index. At or
    /// past `knots[n + 1]` the span is `n`; at or before `knots[degree]` it
    /// is `degree`; otherwise it is the index `i` with
    /// `knots[i] <= u < knots[i + 1]`.
    pub fn find_span(&self, degree: usize, control_count: usize, u: u64) -> (r: usize)
        requires
            1 <= control_count < self@.len(),
            u < self@[control_count as int] ==> degree < self@.len(),
        ensures
            u >= self@[control_count as int] ==> r == control_count - 1,
            u < self@[control_count as int] && u <= self@[degree as int] ==> r == degree,
            u < self@[control_count as int] && u > self@[degree as int] ==> {
                &&& degree <= r < control_count
                &&& self@[r as int] <= u < self@[r + 1]
            },
            self@[degree as int] <= u <= self@[control_count as int] ==> self@[r as int] <= u
                <= self@[r + 1],
    {
        proof { use_type_invariant(self); }
        let n = control_count - 1;
        let knots = &self.keys;
        if u >= knots[n + 1] {
            return n;
        }
        if u <= knots[degree] {
            proof {
                if degree + 1 < knots@.len() {
                    assert(knots@[degree as int] <= knots@[degree + 1]);
                }
            }
            return degree;
        }
        proof {
            if degree >= n + 1 {
                assert(knots@[n + 1] <= knots@[degree as int]);
            }
        }
        let mut low = degree;
        let mut high = n + 1;
        let mut mid = low + (high - low) / 2;
        while u < knots[mid] || u >= knots[mid + 1]
            invariant
                degree <= low <= mid < high <= n + 1,
                n + 1 < knots@.len(),
                knots@ == self@,
                non_decreasing(knots@),
                knots@[low as int] <= u < knots@[high as int],
                mid == low + (high - low) / 2,
            decreases high - low,
        {
            if u < knots[mid] {
                high = mid;
            } else {
                low = mid;
            }
            mid = low + (high - low) / 2;
        }
        mid
    }

    /// The knot vector with `times` copies of the key `u` inserted right
    /// after position `span` (knot insertion at the span of `u`).
    ///
    /// Fails, as construction does, with `Degenerate` ("knot vector must be
    /// non-decreasing") when the keys around the insertion are out of order;
    /// at the span [`KnotVector::find_span`] gives for a parameter of the
    /// domain this never happens (see [`lemma_insert_in_span_keeps_order`]).
    pub fn with_inserted(&self, span: usize, u: u64, times: usize) -> (r: Result<Self, GeometryError>)
        requires
            span < self@.len(),
            self@.len() + times <= usize::MAX,
        ensures
            r is Ok <==> non_decreasing(spliced(self@, span as int, u, times as nat)),
            r matches Ok(kv) ==> kv@ == spliced(self@, span as int, u, times as nat),
            r is Err ==> degenerate_with(r, "knot vector must be non-decreasing"@),
    {
        proof { use_type_invariant(self); }
        let keys = insert_repeated(&self.keys, span, u, times);
        proof {
            assert(keys@.len() == self@.len() + times);
        }
        KnotVector::new(keys, true)
    }
}

} // verus!
