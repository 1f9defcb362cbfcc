//! Operation diagnostics: the kernel reports health as data; the caller owns
//! logging policy and serialization.
//!
//! A modeling op returns its value together with an [`OpHealth`] verdict.
//! The value is always produced best-effort (even when degenerate); the
//! optional [`InputSnapshot`] carries a readable summary of the inputs and is
//! populated only when the health is not `Ok`.

use vstd::prelude::*;

use crate::error::FloatBits;

verus! {

/// A modeling-op result paired with a health verdict.
#[derive(Debug, Clone)]
pub struct OpDiagnostic<T> {
    /// The op output (best-effort even when degenerate).
    pub value: T,
    /// Health verdict for the op.
    pub health: OpHealth,
    /// Readable input summary, captured only when `health != Ok`.
    pub inputs: Option<InputSnapshot>,
}

impl<T> OpDiagnostic<T> {
    /// A clean result: `Ok` health, no captured inputs.
    pub fn ok(value: T) -> (r: Self)
        ensures
            r.value == value,
            r.health is Healthy,
            r.inputs is None,
    {
        OpDiagnostic { value, health: OpHealth::Healthy, inputs: None }
    }

    /// A flagged result: a verdict with its input snapshot.
    pub fn flagged(value: T, health: OpHealth, inputs: InputSnapshot) -> (r: Self)
        ensures
            r.value == value,
            r.health == health,
            r.inputs == Some(inputs),
    {
        OpDiagnostic { value, health, inputs: Some(inputs) }
    }

    /// Whether the verdict is `Ok`.
    pub fn is_ok(&self) -> (r: bool)
        ensures
            r == (self.health is Healthy),
    {
        self.health.is_ok()
    }

    /// Transforms the value, preserving the verdict and snapshot.
    pub fn map<U, F: FnOnce(T) -> U>(self, f: F) -> (r: OpDiagnostic<U>)
        requires
            f.requires((self.value,)),
        ensures
            f.ensures((self.value,), r.value),
            r.health == self.health,
            r.inputs == self.inputs,
    {
        OpDiagnostic { value: f(self.value), health: self.health, inputs: self.inputs }
    }
}

/// Health verdict for an operation.
#[derive(Debug, Clone, PartialEq)]
pub enum OpHealth {
    /// Output is well-formed (the `Ok` verdict).
    Healthy,
    /// Succeeded, but numerically suspect: worth a warning, not a failure.
    Suspicious(Vec<Reason>),
    /// Output is broken (empty / non-finite / self-intersecting / ...).
    Degenerate(Vec<Reason>),
    /// The op could not complete; carries the error message.
    Failed(String),
}

/// The reasons a verdict carries: those of `Suspicious` and `Degenerate`,
/// none for `Ok` and `Failed`.
pub open spec fn health_reasons(h: OpHealth) -> Seq<Reason> {
    match h {
        OpHealth::Suspicious(r) => r@,
        OpHealth::Degenerate(r) => r@,
        _ => Seq::empty(),
    }
}

impl OpHealth {
    /// Whether the verdict is `Ok`.
    pub fn is_ok(&self) -> (r: bool)
        ensures
            r == (*self is Healthy),
    {
        match self {
            OpHealth::Healthy => true,
            _ => false,
        }
    }

    /// The reasons behind a non-`Ok` verdict (empty for `Ok` / `Failed`).
    pub fn reasons(&self) -> (r: &[Reason])
        ensures
            r@ == health_reasons(*self),
    {
        match self {
            OpHealth::Suspicious(r) => r.as_slice(),
            OpHealth::Degenerate(r) => r.as_slice(),
            _ => &[],
        }
    }
}

/// A specific, numeric reason an op's output is suspect or degenerate.
///
/// Each variant carries the number that made the call (as its bit pattern)
/// so a reader can judge severity without re-deriving it.
#[derive(Debug, Clone, PartialEq)]
pub enum Reason {
    /// No geometry was produced where output was expected.
    EmptyResult,
    /// A coordinate or scalar was NaN or infinite.
    NonFinite {
        /// Where the non-finite value appeared, e.g. `"outer vertex"`.
        at: &'static str,
    },
    /// The result self-intersects.
    SelfIntersection,
    /// A face collapsed to (near) zero area.
    ZeroAreaFace {
        /// The offending area / scale.
        scale: FloatBits,
    },
    /// Two vertices sit within an unsafe distance of each other.
    NearCoincidentVertices {
        /// The measured separation.
        dist: FloatBits,
    },
    /// A numerically ill-conditioned step (high condition number).
    HighConditionNumber {
        /// The measured condition number.
        value: FloatBits,
    },
}

/// A readable snapshot of an op's inputs, for a diagnostic log line.
///
/// `summary` pairs are plain strings the caller can print or serialize.
#[derive(Debug, Clone, PartialEq)]
pub struct InputSnapshot {
    /// The op that produced this snapshot, e.g. `"boolean_2d::subtract"`.
    pub op: &'static str,
    /// Readable key facts (bbox, counts, params), one `(key, value)` per fact.
    pub summary: Vec<(String, String)>,
}

impl InputSnapshot {
    /// An empty snapshot for `op`.
    pub fn new(op: &'static str) -> (r: Self)
        ensures
            r.op == op,
            r.summary@ == Seq::<(String, String)>::empty(),
    {
        InputSnapshot { op, summary: Vec::new() }
    }

    /// Adds one readable fact (builder style): `value` is the fact already
    /// rendered as text.
    pub fn with(self, key: String, value: String) -> (r: Self)
        ensures
            r.op == self.op,
            r.summary@ == self.summary@.push((key, value)),
    {
        let mut s = self;
        s.summary.push((key, value));
        s
    }
}

} // verus!
