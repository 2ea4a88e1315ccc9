//! Typed failures returned by triangulation APIs.
use vstd::prelude::*;

verus! {

/// Errors returned by triangulation APIs.
#[derive(Clone, Debug, PartialEq, Eq)]
pub enum Error {
    /// A numeric predicate could not be decided within the configured exact
    /// policy.
    PredicateUndecided {
        /// Predicate or exact decision that failed.
        predicate: &'static str,
    },
    /// Input data violates the API contract.
    InvalidInput {
        /// Human-readable reason.
        reason: &'static str,
    },
    /// No ear could be found in a polygon ring.
    NoEarFound,
    /// The requested capability is not available in this build.
    UnsupportedFeature {
        /// Feature that is not available.
        feature: &'static str,
    },
}

/// The `InvalidInput` error with the given reason.
pub open spec fn invalid(reason: &'static str) -> Error {
    Error::InvalidInput { reason }
}


} // verus!
