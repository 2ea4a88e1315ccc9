//! Immutable policy input and compact operation outcomes.
use vstd::prelude::*;

verus! {

/// Escalation policy handed to the exact predicate layer.
///
/// The fields mirror the predicate crate's policy: whether exact paths and
/// Real refinement may be used, and the finest binary precision refinement may
/// request.
#[derive(Clone, Copy, Debug, PartialEq, Eq, Structural)]
pub struct PredicatePolicy {
    /// Permit exact predicate paths when available.
    pub allow_exact: bool,
    /// Permit Real refinement when available.
    pub allow_refinement: bool,
    /// Lowest binary precision Real refinement may request.
    pub max_refinement_precision: Option<i32>,
}

impl PredicatePolicy {
    /// The conservative policy: topology is decided by exact or refined paths
    /// down to 2^-512.
    pub fn strict() -> (r: PredicatePolicy)
        ensures
            r.allow_exact,
            r.allow_refinement,
            r.max_refinement_precision == Some(-512i32),
    {
        PredicatePolicy { allow_exact: true, allow_refinement: true, max_refinement_precision: Some(-512) }
    }
}

/// Immutable policy selected for one triangulation operation.
#[derive(Clone, Copy, Debug, PartialEq, Eq, Structural)]
pub struct TriangulationContext {
    predicates: PredicatePolicy,
}

impl TriangulationContext {
    /// The policy held by this context.
    pub closed spec fn policy(self) -> PredicatePolicy {
        self.predicates
    }

    /// Construct a context with the selected predicate policy.
    pub fn new(predicates: PredicatePolicy) -> (r: TriangulationContext)
        ensures
            r.policy() == predicates,
    {
        TriangulationContext { predicates }
    }

    /// Return the selected predicate policy.
    pub fn predicate_policy(self) -> (r: PredicatePolicy)
        ensures
            r == self.policy(),
    {
        self.predicates
    }
}

/// Aggregate certainty consumed by a completed triangulation operation.
#[derive(Clone, Copy, Debug, PartialEq, Eq, Hash, Structural)]
pub enum TriangulationCertainty {
    /// Every consumed predicate was exact or certified.
    Certified,
    /// At least one decision consumed the policy-authorized 512-bit terminal.
    Approximate512Consumed,
}

/// A completed value paired with its aggregate predicate certainty.
#[derive(Clone, Debug, PartialEq, Eq)]
pub struct TriangulationOutcome<T> {
    /// Completed operation value.
    pub value: T,
    /// Weakest certainty consumed while producing `value`.
    pub certainty: TriangulationCertainty,
}

impl<T> TriangulationOutcome<T> {
    /// Pair a value with its certainty.
    pub fn new(value: T, certainty: TriangulationCertainty) -> (r: TriangulationOutcome<T>)
        ensures
            r.value == value,
            r.certainty == certainty,
    {
        TriangulationOutcome { value, certainty }
    }

    /// Transform the completed value without changing its certainty.
    pub fn map<U, F: FnOnce(T) -> U>(self, map: F) -> (r: TriangulationOutcome<U>)
        requires
            call_requires(map, (self.value,)),
        ensures
            call_ensures(map, (self.value,), r.value),
            r.certainty == self.certainty,
    {
        let certainty = self.certainty;
        TriangulationOutcome { value: map(self.value), certainty }
    }

    /// Consume the outcome and return its value.
    pub fn into_value(self) -> (r: T)
        ensures
            r == self.value,
    {
        self.value
    }
}

} // verus!
