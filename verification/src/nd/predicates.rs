//! Exact D-dimensional orientation and in-sphere signs from the predicate
//! crate, over exact rational coordinates.
use vstd::prelude::*;
use crate::context::PredicatePolicy;
use crate::types::{Real, Sign};
use hyperlimit::{insphere_d_with_policy, orient_d_with_policy, PredicateOutcome as Outcome, PredicatePolicy as ExactPolicy, Sign as ExactSign};
use hyperreal::{Problem, Rational, Real as ExactReal};

verus! {

/// A coordinate as its stored fraction `(numerator, denominator)`.
pub open spec fn coordinate_pairs(coords: Seq<Real>) -> Seq<(int, int)> {
    coords.map_values(|x: Real| (x.num(), x.den()))
}

/// Rows of coordinates as stored fractions.
pub open spec fn rows_view(rows: Seq<Vec<Real>>) -> Seq<Seq<(int, int)>> {
    rows.map_values(|row: Vec<Real>| coordinate_pairs(row@))
}

/// `dimension + 1` rows of a common positive length `dimension`.
pub open spec fn orient_shape_ok(rows: Seq<Seq<(int, int)>>) -> bool {
    &&& rows.len() >= 2
    &&& rows[0].len() > 0
    &&& rows.len() == rows[0].len() + 1
    &&& forall|i: int| 0 <= i < rows.len() ==> (#[trigger] rows[i]).len() == rows[0].len()
}

/// An orientation-shaped simplex and a query of the same dimension.
pub open spec fn insphere_shape_ok(simplex: Seq<Seq<(int, int)>>, query: Seq<(int, int)>) -> bool {
    orient_shape_ok(simplex) && query.len() == simplex[0].len()
}

/// What `hyperlimit::orient_d_with_policy` decides for the points whose
/// coordinates are the given fractions under `policy`: the sign of the
/// orientation determinant, or `None` when it reports the predicate unknown
/// (or a coordinate fraction cannot be formed).
pub uninterp spec fn orient_d_outcome(points: Seq<Seq<(int, int)>>, policy: PredicatePolicy) -> Option<Sign>;

/// What `hyperlimit::insphere_d_with_policy` decides for the simplex and the
/// query point whose coordinates are the given fractions under `policy`: the
/// sign of the lifted in-sphere determinant, or `None` when it reports the
/// predicate unknown (or a coordinate fraction cannot be formed).
pub uninterp spec fn insphere_d_outcome(simplex: Seq<Seq<(int, int)>>, query: Seq<(int, int)>, policy: PredicatePolicy) -> Option<Sign>;

/// Calls `hyperlimit::orient_d_with_policy` on the exact values of `points`.
/// The contract claims that the result is that call's decided sign (named by
/// `orient_d_outcome`) and, as the predicate documents, that points which are
/// not `d + 1` points of one positive dimension `d` give no sign.
#[verifier::external_body]
pub(crate) fn orient_d_sign(points: &[Vec<Real>], policy: PredicatePolicy) -> (r: Option<Sign>)
    ensures
        r == orient_d_outcome(rows_view(points@), policy),
        !orient_shape_ok(rows_view(points@)) ==> r is None,
{
    let exact = |c: &Real| Rational::fraction(c.numerator(), c.denominator()).map(ExactReal::from);
    let rows: Result<Vec<Vec<ExactReal>>, Problem> = points.iter().map(|p| p.iter().map(exact).collect()).collect();
    let Ok(rows) = rows else { return None };
    let policy = ExactPolicy { allow_exact: policy.allow_exact, allow_refinement: policy.allow_refinement, max_refinement_precision: policy.max_refinement_precision };
    match orient_d_with_policy(&rows, policy) {
        Outcome::Decided { value, .. } => Some(match value { ExactSign::Negative => Sign::Negative, ExactSign::Zero => Sign::Zero, ExactSign::Positive => Sign::Positive }),
        Outcome::Unknown { .. } => None,
    }
}

/// Calls `hyperlimit::insphere_d_with_policy` on the exact values of the
/// simplex rows (all rows but the last) and the query (the last row). The
/// contract claims that the result is that call's decided sign (named by
/// `insphere_d_outcome`), no sign without a query row, and, as the predicate
/// documents, no sign for a simplex that is not `d + 1` points of one
/// positive dimension `d` or a query of another dimension.
#[verifier::external_body]
pub(crate) fn insphere_d_sign(rows: &[Vec<Real>], policy: PredicatePolicy) -> (r: Option<Sign>)
    ensures
        rows@.len() == 0 ==> r is None,
        rows@.len() > 0 ==> r == insphere_d_outcome(rows_view(rows@.drop_last()), coordinate_pairs(rows@.last()@), policy),
        rows@.len() > 0 && !insphere_shape_ok(rows_view(rows@.drop_last()), coordinate_pairs(rows@.last()@)) ==> r is None,
{
    let exact = |c: &Real| Rational::fraction(c.numerator(), c.denominator()).map(ExactReal::from);
    let rows: Result<Vec<Vec<ExactReal>>, Problem> = rows.iter().map(|p| p.iter().map(exact).collect()).collect();
    let Ok(mut rows) = rows else { return None };
    let Some(query) = rows.pop() else { return None };
    let policy = ExactPolicy { allow_exact: policy.allow_exact, allow_refinement: policy.allow_refinement, max_refinement_precision: policy.max_refinement_precision };
    match insphere_d_with_policy(&rows, &query, policy) {
        Outcome::Decided { value, .. } => Some(match value { ExactSign::Negative => Sign::Negative, ExactSign::Zero => Sign::Zero, ExactSign::Positive => Sign::Positive }),
        Outcome::Unknown { .. } => None,
    }
}

} // verus!
