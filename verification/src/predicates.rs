//! Exact planar orientation and in-circle signs from the predicate crate,
//! over exact rational coordinates.
use vstd::prelude::*;
use crate::context::PredicatePolicy;
use crate::error::Error;
use crate::types::{Point2, Real, Sign};
use hyperlimit::{classify_segment_intersection_with_policy, compare_point2_distance_squared_with_policy, incircle2d_with_policy, indexed_ring_area_sign_with_policy, orient2d_with_policy, point_in_indexed_ring_even_odd_with_policy, point_on_segment_with_policy, Point2 as ExactPoint2, PredicateOutcome as Outcome, PredicatePolicy as ExactPolicy};
use hyperlimit::Sign::{Negative, Positive, Zero};
use hyperlimit::SegmentIntersection::{CollinearOverlap as Overlap, Disjoint as Apart, EndpointTouch as Touch, Identical as Same, Proper as Crossing};
use hyperreal::{Rational, Real as ExactReal};
use crate::predicates::SegmentIntersection::{CollinearOverlap, Disjoint, EndpointTouch, Identical, Proper};

verus! {

/// A point's coordinates as their stored fractions
/// `((x numerator, x denominator), (y numerator, y denominator))`.
pub open spec fn point_fractions(p: Point2) -> ((int, int), (int, int)) {
    ((p.x.num(), p.x.den()), (p.y.num(), p.y.den()))
}

/// The sign of an integer.
pub open spec fn int_sign(v: int) -> Sign {
    if v > 0 {
        Sign::Positive
    } else if v < 0 {
        Sign::Negative
    } else {
        Sign::Zero
    }
}

/// The orientation determinant `(b - a) × (c - a)` of three points given by
/// coordinate fractions, multiplied by the product of all six coordinate
/// denominators (positive for valid fractions, so the sign is kept).
pub open spec fn orient2_det(a: ((int, int), (int, int)), b: ((int, int), (int, int)), c: ((int, int), (int, int))) -> int {
    let (ax, ay) = a;
    let (bx, by) = b;
    let (cx, cy) = c;
    let abx = bx.0 * ax.1 * cx.1 - ax.0 * bx.1 * cx.1;
    let acx = cx.0 * ax.1 * bx.1 - ax.0 * bx.1 * cx.1;
    let aby = by.0 * ay.1 * cy.1 - ay.0 * by.1 * cy.1;
    let acy = cy.0 * ay.1 * by.1 - ay.0 * by.1 * cy.1;
    abx * acy - aby * acx
}

/// The lifted in-circle determinant of four points given by coordinate
/// fractions, with the differences to `d` taken over the common `x` and `y`
/// denominators `X` and `Y`: the determinant of
/// `[Δx, Δy, Δx² + Δy²]` over the rows `a`, `b`, `c`, multiplied by the
/// positive `X³·Y³`.
pub open spec fn incircle2_det(a: ((int, int), (int, int)), b: ((int, int), (int, int)), c: ((int, int), (int, int)), d: ((int, int), (int, int))) -> int {
    let x = a.0.1 * b.0.1 * c.0.1 * d.0.1;
    let y = a.1.1 * b.1.1 * c.1.1 * d.1.1;
    let xa = a.0.0 * (x / a.0.1) - d.0.0 * (x / d.0.1);
    let xb = b.0.0 * (x / b.0.1) - d.0.0 * (x / d.0.1);
    let xc = c.0.0 * (x / c.0.1) - d.0.0 * (x / d.0.1);
    let ya = a.1.0 * (y / a.1.1) - d.1.0 * (y / d.1.1);
    let yb = b.1.0 * (y / b.1.1) - d.1.0 * (y / d.1.1);
    let yc = c.1.0 * (y / c.1.1) - d.1.0 * (y / d.1.1);
    let la = xa * xa * y * y + ya * ya * x * x;
    let lb = xb * xb * y * y + yb * yb * x * x;
    let lc = xc * xc * y * y + yc * yc * x * x;
    la * (xb * yc - xc * yb) - lb * (xa * yc - xc * ya) + lc * (xa * yb - xb * ya)
}

/// What `hyperlimit::orient2d_with_policy` decides for the three points whose
/// coordinates are the given fractions under `policy`: the orientation sign,
/// or `None` when it reports the predicate unknown (or a coordinate fraction
/// cannot be formed).
pub uninterp spec fn orient2_outcome(a: ((int, int), (int, int)), b: ((int, int), (int, int)), c: ((int, int), (int, int)), policy: PredicatePolicy) -> Option<Sign>;

/// What `hyperlimit::incircle2d_with_policy` decides for the four points whose
/// coordinates are the given fractions under `policy`: the in-circle sign of
/// the last point against the circle through the first three, or `None` when
/// it reports the predicate unknown (or a coordinate fraction cannot be
/// formed).
pub uninterp spec fn incircle2_outcome(a: ((int, int), (int, int)), b: ((int, int), (int, int)), c: ((int, int), (int, int)), d: ((int, int), (int, int)), policy: PredicatePolicy) -> Option<Sign>;

/// Calls `hyperlimit::orient2d_with_policy` on the exact values of the three
/// points. The contract claims that the result is that call's decided sign,
/// named by `orient2_outcome`, and, as the crate documents for a decided
/// (exact or conservatively filtered) outcome, that this sign is the sign of
/// the orientation determinant `(b - a) × (c - a)`.
#[verifier::external_body]
pub(crate) fn orient2_sign(a: &Point2, b: &Point2, c: &Point2, policy: PredicatePolicy) -> (r: Option<Sign>)
    ensures
        r == orient2_outcome(point_fractions(*a), point_fractions(*b), point_fractions(*c), policy),
        fraction_pair_valid(point_fractions(*a)) && fraction_pair_valid(point_fractions(*b)) && fraction_pair_valid(point_fractions(*c))
            ==> (r matches Some(s) ==> s == int_sign(orient2_det(point_fractions(*a), point_fractions(*b), point_fractions(*c)))),
{
    let exact = |v: &Real| Rational::fraction(v.numerator(), v.denominator()).ok().map(ExactReal::from);
    let point = |p: &Point2| Some(ExactPoint2::new(exact(&p.x)?, exact(&p.y)?));
    let [Some(a), Some(b), Some(c)] = [a, b, c].map(point) else { return None };
    let policy = ExactPolicy { allow_exact: policy.allow_exact, allow_refinement: policy.allow_refinement, max_refinement_precision: policy.max_refinement_precision };
    match orient2d_with_policy(&a, &b, &c, policy) {
        Outcome::Decided { value, .. } => Some(match value { Negative => Sign::Negative, Zero => Sign::Zero, Positive => Sign::Positive }),
        _ => None,
    }
}

/// Calls `hyperlimit::incircle2d_with_policy` on the exact values of the four
/// points. The contract claims that the result is that call's decided sign,
/// named by `incircle2_outcome`, and that this sign is the sign of the lifted
/// in-circle determinant (positive when `d` is inside the circle through the
/// counter-clockwise `a`, `b`, `c`).
#[verifier::external_body]
pub(crate) fn incircle2_sign(a: &Point2, b: &Point2, c: &Point2, d: &Point2, policy: PredicatePolicy) -> (r: Option<Sign>)
    ensures
        r == incircle2_outcome(point_fractions(*a), point_fractions(*b), point_fractions(*c), point_fractions(*d), policy),
        fraction_pair_valid(point_fractions(*a)) && fraction_pair_valid(point_fractions(*b))
            && fraction_pair_valid(point_fractions(*c)) && fraction_pair_valid(point_fractions(*d))
            ==> (r matches Some(s) ==> s == int_sign(incircle2_det(point_fractions(*a), point_fractions(*b), point_fractions(*c), point_fractions(*d)))),
{
    let exact = |v: &Real| Rational::fraction(v.numerator(), v.denominator()).ok().map(ExactReal::from);
    let point = |p: &Point2| Some(ExactPoint2::new(exact(&p.x)?, exact(&p.y)?));
    let [Some(a), Some(b), Some(c), Some(d)] = [a, b, c, d].map(point) else { return None };
    let policy = ExactPolicy { allow_exact: policy.allow_exact, allow_refinement: policy.allow_refinement, max_refinement_precision: policy.max_refinement_precision };
    match incircle2d_with_policy(&a, &b, &c, &d, policy) {
        Outcome::Decided { value, .. } => Some(match value { Negative => Sign::Negative, Zero => Sign::Zero, Positive => Sign::Positive }),
        _ => None,
    }
}

/// Orientation of the points at indices `i`, `j`, `k`, or the
/// undecided-predicate error.
pub open spec fn orient2_result(points: Seq<Point2>, i: int, j: int, k: int, policy: PredicatePolicy) -> Result<Sign, Error> {
    match orient2_outcome(point_fractions(points[i]), point_fractions(points[j]), point_fractions(points[k]), policy) {
        Some(s) => Ok(s),
        None => Err(Error::PredicateUndecided { predicate: "orient2" }),
    }
}

/// In-circle sign of the point at `l` against the circle through the points
/// at `i`, `j`, `k`, or the undecided-predicate error.
pub open spec fn incircle2_result(points: Seq<Point2>, i: int, j: int, k: int, l: int, policy: PredicatePolicy) -> Result<Sign, Error> {
    match incircle2_outcome(point_fractions(points[i]), point_fractions(points[j]), point_fractions(points[k]), point_fractions(points[l]), policy) {
        Some(s) => Ok(s),
        None => Err(Error::PredicateUndecided { predicate: "incircle2" }),
    }
}

/// Decide the orientation of the points at indices `i`, `j`, `k`.
pub(crate) fn orient2(points: &[Point2], i: usize, j: usize, k: usize, policy: PredicatePolicy) -> (r: Result<Sign, Error>)
    requires
        i < points@.len(),
        j < points@.len(),
        k < points@.len(),
    ensures
        r == orient2_result(points@, i as int, j as int, k as int, policy),
{
    match orient2_sign(&points[i], &points[j], &points[k], policy) {
        Some(s) => Ok(s),
        None => Err(Error::PredicateUndecided { predicate: "orient2" }),
    }
}

/// Decide the in-circle sign of the point at `l` against the circle through
/// the points at `i`, `j`, `k`.
pub(crate) fn incircle2(points: &[Point2], i: usize, j: usize, k: usize, l: usize, policy: PredicatePolicy) -> (r: Result<Sign, Error>)
    requires
        i < points@.len(),
        j < points@.len(),
        k < points@.len(),
        l < points@.len(),
    ensures
        r == incircle2_result(points@, i as int, j as int, k as int, l as int, policy),
{
    match incircle2_sign(&points[i], &points[j], &points[k], &points[l], policy) {
        Some(s) => Ok(s),
        None => Err(Error::PredicateUndecided { predicate: "incircle2" }),
    }
}

/// The coordinate fractions of a point list.
pub open spec fn points_fractions(points: Seq<Point2>) -> Seq<((int, int), (int, int))> {
    points.map_values(|p: Point2| point_fractions(p))
}

/// What `hyperlimit::point_in_indexed_ring_even_odd_with_policy` decides for
/// the ring through the listed points (by index) and the query point, all
/// given by their coordinate fractions, under `policy`: whether the query is
/// inside or on the ring by the even-odd rule, or `None` when it reports the
/// predicate unknown (or a coordinate fraction cannot be formed).
pub uninterp spec fn ring_contains_outcome(points: Seq<((int, int), (int, int))>, ring: Seq<usize>, point: ((int, int), (int, int)), policy: PredicatePolicy) -> Option<bool>;

/// Calls `hyperlimit::point_in_indexed_ring_even_odd_with_policy` on the
/// exact values of the points, the ring's indices and the query point. The
/// contract claims only that the result is that call's decided answer, named
/// by `ring_contains_outcome`.
#[verifier::external_body]
pub(crate) fn ring_contains_decision(points: &[Point2], ring: &[usize], point: &Point2, policy: PredicatePolicy) -> (r: Option<bool>)
    ensures
        r == ring_contains_outcome(points_fractions(points@), ring@, point_fractions(*point), policy),
{
    let exact = |v: &Real| Rational::fraction(v.numerator(), v.denominator()).ok().map(ExactReal::from);
    let convert = |p: &Point2| Some(ExactPoint2::new(exact(&p.x)?, exact(&p.y)?));
    let (Some(all), Some(query)) = (points.iter().map(convert).collect::<Option<Vec<_>>>(), convert(point)) else { return None };
    let policy = ExactPolicy { allow_exact: policy.allow_exact, allow_refinement: policy.allow_refinement, max_refinement_precision: policy.max_refinement_precision };
    match point_in_indexed_ring_even_odd_with_policy(&all, ring, &query, policy) {
        Outcome::Decided { value, .. } => Some(value),
        _ => None,
    }
}

/// Even-odd containment of `point` in the ring through the indexed points,
/// or the undecided-predicate error.
pub open spec fn ring_contains_result(points: Seq<Point2>, ring: Seq<usize>, point: Point2, policy: PredicatePolicy) -> Result<bool, Error> {
    match ring_contains_outcome(points_fractions(points), ring, point_fractions(point), policy) {
        Some(b) => Ok(b),
        None => Err(Error::PredicateUndecided { predicate: "point_in_indexed_ring_even_odd" }),
    }
}

/// Decide whether `point` is inside or on the ring through the indexed
/// points, by the even-odd rule.
pub(crate) fn point_in_ring_even_odd(points: &[Point2], ring: &[usize], point: &Point2, policy: PredicatePolicy) -> (r: Result<bool, Error>)
    ensures
        r == ring_contains_result(points@, ring@, *point, policy),
{
    match ring_contains_decision(points, ring, point, policy) {
        Some(b) => Ok(b),
        None => Err(Error::PredicateUndecided { predicate: "point_in_indexed_ring_even_odd" }),
    }
}

/// What `hyperlimit::point_on_segment_with_policy` decides for the closed
/// segment between the first two points and the query point, all given by
/// their coordinate fractions, under `policy`: whether the query lies on the
/// segment, or `None` when it reports the predicate unknown (or a coordinate
/// fraction cannot be formed).
pub uninterp spec fn segment_contains_outcome(a: ((int, int), (int, int)), b: ((int, int), (int, int)), point: ((int, int), (int, int)), policy: PredicatePolicy) -> Option<bool>;

/// Calls `hyperlimit::point_on_segment_with_policy` on the exact values of
/// the segment's endpoints and the query point. The contract claims only
/// that the result is that call's decided answer, named by
/// `segment_contains_outcome`.
#[verifier::external_body]
pub(crate) fn segment_contains_decision(a: &Point2, b: &Point2, point: &Point2, policy: PredicatePolicy) -> (r: Option<bool>)
    ensures
        r == segment_contains_outcome(point_fractions(*a), point_fractions(*b), point_fractions(*point), policy),
{
    let exact = |v: &Real| Rational::fraction(v.numerator(), v.denominator()).ok().map(ExactReal::from);
    let convert = |p: &Point2| Some(ExactPoint2::new(exact(&p.x)?, exact(&p.y)?));
    let [Some(a), Some(b), Some(point)] = [a, b, point].map(convert) else { return None };
    let policy = ExactPolicy { allow_exact: policy.allow_exact, allow_refinement: policy.allow_refinement, max_refinement_precision: policy.max_refinement_precision };
    match point_on_segment_with_policy(&a, &b, &point, policy) {
        Outcome::Decided { value, .. } => Some(value),
        _ => None,
    }
}

/// Whether the point at `k` lies on the closed segment between the points
/// at `i` and `j`, or the undecided-predicate error.
pub open spec fn on_segment_result(points: Seq<Point2>, i: int, j: int, k: int, policy: PredicatePolicy) -> Result<bool, Error> {
    match segment_contains_outcome(point_fractions(points[i]), point_fractions(points[j]), point_fractions(points[k]), policy) {
        Some(b) => Ok(b),
        None => Err(Error::PredicateUndecided { predicate: "point_on_segment" }),
    }
}

/// Decide whether the point at `k` lies on the closed segment between the
/// points at `i` and `j`.
pub fn point_on_segment(points: &[Point2], i: usize, j: usize, k: usize, policy: PredicatePolicy) -> (r: Result<bool, Error>)
    requires
        i < points@.len(),
        j < points@.len(),
        k < points@.len(),
    ensures
        r == on_segment_result(points@, i as int, j as int, k as int, policy),
{
    match segment_contains_decision(&points[i], &points[j], &points[k], policy) {
        Some(b) => Ok(b),
        None => Err(Error::PredicateUndecided { predicate: "point_on_segment" }),
    }
}

/// How two closed segments meet.
#[derive(Clone, Copy, Debug, PartialEq, Eq, Structural)]
pub enum SegmentIntersection {
    /// The segments have no points in common.
    Disjoint,
    /// The segments cross at one point interior to both segments.
    Proper,
    /// The segments touch at a shared endpoint or at an endpoint lying on
    /// the other segment.
    EndpointTouch,
    /// The segments are collinear and overlap over a positive length, but
    /// are not the same two endpoints.
    CollinearOverlap,
    /// The segments have the same two endpoints, in either order.
    Identical,
}

/// What `hyperlimit::classify_segment_intersection_with_policy` decides for
/// the closed segments between the first two and the last two points, all
/// given by their coordinate fractions, under `policy`: how the segments
/// meet, or `None` when it reports the predicate unknown (or a coordinate
/// fraction cannot be formed).
pub uninterp spec fn segment_intersection_outcome(a: ((int, int), (int, int)), b: ((int, int), (int, int)), c: ((int, int), (int, int)), d: ((int, int), (int, int)), policy: PredicatePolicy) -> Option<SegmentIntersection>;

/// Calls `hyperlimit::classify_segment_intersection_with_policy` on the
/// exact values of the four points. The contract claims only that the
/// result is that call's decided classification, named by
/// `segment_intersection_outcome`.
#[verifier::external_body]
pub(crate) fn segment_intersection_decision(a: &Point2, b: &Point2, c: &Point2, d: &Point2, policy: PredicatePolicy) -> (r: Option<SegmentIntersection>)
    ensures
        r == segment_intersection_outcome(point_fractions(*a), point_fractions(*b), point_fractions(*c), point_fractions(*d), policy),
{
    let exact = |v: &Real| Rational::fraction(v.numerator(), v.denominator()).ok().map(ExactReal::from);
    let point = |p: &Point2| Some(ExactPoint2::new(exact(&p.x)?, exact(&p.y)?));
    let [Some(a), Some(b), Some(c), Some(d)] = [a, b, c, d].map(point) else { return None };
    let policy = ExactPolicy { allow_exact: policy.allow_exact, allow_refinement: policy.allow_refinement, max_refinement_precision: policy.max_refinement_precision };
    match classify_segment_intersection_with_policy(&a, &b, &c, &d, policy) {
        Outcome::Decided { value, .. } => Some(match value { Apart => Disjoint, Crossing => Proper, Touch => EndpointTouch, Overlap => CollinearOverlap, Same => Identical }),
        _ => None,
    }
}

/// How the segments between the points at `i`, `j` and at `k`, `l` meet,
/// or the undecided-predicate error.
pub open spec fn segment_intersection_result(points: Seq<Point2>, i: int, j: int, k: int, l: int, policy: PredicatePolicy) -> Result<SegmentIntersection, Error> {
    match segment_intersection_outcome(point_fractions(points[i]), point_fractions(points[j]), point_fractions(points[k]), point_fractions(points[l]), policy) {
        Some(relation) => Ok(relation),
        None => Err(Error::PredicateUndecided { predicate: "segment_intersection" }),
    }
}

/// Classify how the segments between the points at `i`, `j` and at `k`,
/// `l` meet.
pub(crate) fn segment_intersection(points: &[Point2], i: usize, j: usize, k: usize, l: usize, policy: PredicatePolicy) -> (r: Result<SegmentIntersection, Error>)
    requires
        i < points@.len(),
        j < points@.len(),
        k < points@.len(),
        l < points@.len(),
    ensures
        r == segment_intersection_result(points@, i as int, j as int, k as int, l as int, policy),
{
    match segment_intersection_decision(&points[i], &points[j], &points[k], &points[l], policy) {
        Some(relation) => Ok(relation),
        None => Err(Error::PredicateUndecided { predicate: "segment_intersection" }),
    }
}

/// What `hyperlimit::indexed_ring_area_sign_with_policy` decides for the
/// ring through the listed points (by index), all given by their coordinate
/// fractions, under `policy`: the sign of the ring's signed area, or `None`
/// when it reports the predicate unknown (or a coordinate fraction cannot be
/// formed).
pub uninterp spec fn ring_area_outcome(points: Seq<((int, int), (int, int))>, ring: Seq<usize>, policy: PredicatePolicy) -> Option<Sign>;

/// Calls `hyperlimit::indexed_ring_area_sign_with_policy` on the exact
/// values of the points and the ring's indices. The contract claims only
/// that the result is that call's decided sign, named by
/// `ring_area_outcome`.
#[verifier::external_body]
pub(crate) fn ring_area_decision(points: &[Point2], ring: &[usize], policy: PredicatePolicy) -> (r: Option<Sign>)
    ensures
        r == ring_area_outcome(points_fractions(points@), ring@, policy),
{
    let exact = |v: &Real| Rational::fraction(v.numerator(), v.denominator()).ok().map(ExactReal::from);
    let convert = |p: &Point2| Some(ExactPoint2::new(exact(&p.x)?, exact(&p.y)?));
    let Some(all) = points.iter().map(convert).collect::<Option<Vec<_>>>() else { return None };
    let policy = ExactPolicy { allow_exact: policy.allow_exact, allow_refinement: policy.allow_refinement, max_refinement_precision: policy.max_refinement_precision };
    match indexed_ring_area_sign_with_policy(&all, ring, policy) {
        Outcome::Decided { value, .. } => Some(match value { Negative => Sign::Negative, Zero => Sign::Zero, Positive => Sign::Positive }),
        _ => None,
    }
}

/// The signed-area sign of the ring through the indexed points, or the
/// undecided-predicate error.
pub open spec fn ring_area_result(points: Seq<Point2>, ring: Seq<usize>, policy: PredicatePolicy) -> Result<Sign, Error> {
    match ring_area_outcome(points_fractions(points), ring, policy) {
        Some(s) => Ok(s),
        None => Err(Error::PredicateUndecided { predicate: "indexed_ring_area_sign" }),
    }
}

/// Decide the sign of the signed area of the ring through the indexed
/// points.
pub(crate) fn ring_area_sign(points: &[Point2], ring: &[usize], policy: PredicatePolicy) -> (r: Result<Sign, Error>)
    ensures
        r == ring_area_result(points@, ring@, policy),
{
    match ring_area_decision(points, ring, policy) {
        Some(s) => Ok(s),
        None => Err(Error::PredicateUndecided { predicate: "indexed_ring_area_sign" }),
    }
}

/// What `hyperlimit::compare_point2_distance_squared_with_policy` decides
/// for the anchor and the two points, all given by their coordinate
/// fractions, under `policy`: negative when the first point is nearer the
/// anchor, zero when both are equally near, positive when the second is
/// nearer; or `None` when it reports the predicate unknown (or a coordinate
/// fraction cannot be formed).
pub uninterp spec fn distance_order_outcome(anchor: ((int, int), (int, int)), left: ((int, int), (int, int)), right: ((int, int), (int, int)), policy: PredicatePolicy) -> Option<Sign>;

/// `|anchor - left|² - |anchor - right|²` for points given by coordinate
/// fractions, multiplied by the positive `X²·Y²`, where `X` and `Y` are the
/// products of the three `x` and the three `y` denominators.
pub open spec fn distance_order_det(anchor: ((int, int), (int, int)), left: ((int, int), (int, int)), right: ((int, int), (int, int))) -> int {
    let x = anchor.0.1 * left.0.1 * right.0.1;
    let y = anchor.1.1 * left.1.1 * right.1.1;
    let lx = left.0.0 * (x / left.0.1) - anchor.0.0 * (x / anchor.0.1);
    let ly = left.1.0 * (y / left.1.1) - anchor.1.0 * (y / anchor.1.1);
    let rx = right.0.0 * (x / right.0.1) - anchor.0.0 * (x / anchor.0.1);
    let ry = right.1.0 * (y / right.1.1) - anchor.1.0 * (y / anchor.1.1);
    (lx * lx * y * y + ly * ly * x * x) - (rx * rx * y * y + ry * ry * x * x)
}

/// Calls `hyperlimit::compare_point2_distance_squared_with_policy` on the
/// exact values of the three points. The contract claims that the result is
/// that call's decided ordering, as a sign, named by
/// `distance_order_outcome`, and that this sign is the sign of
/// `|anchor - left|² - |anchor - right|²`, the difference the call decides.
#[verifier::external_body]
pub(crate) fn distance_order_decision(anchor: &Point2, left: &Point2, right: &Point2, policy: PredicatePolicy) -> (r: Option<Sign>)
    ensures
        r == distance_order_outcome(point_fractions(*anchor), point_fractions(*left), point_fractions(*right), policy),
        fraction_pair_valid(point_fractions(*anchor)) && fraction_pair_valid(point_fractions(*left)) && fraction_pair_valid(point_fractions(*right))
            ==> (r matches Some(s) ==> s == int_sign(distance_order_det(point_fractions(*anchor), point_fractions(*left), point_fractions(*right)))),
{
    let exact = |v: &Real| Rational::fraction(v.numerator(), v.denominator()).ok().map(ExactReal::from);
    let point = |p: &Point2| Some(ExactPoint2::new(exact(&p.x)?, exact(&p.y)?));
    let [Some(a), Some(l), Some(r)] = [anchor, left, right].map(point) else { return None };
    let policy = ExactPolicy { allow_exact: policy.allow_exact, allow_refinement: policy.allow_refinement, max_refinement_precision: policy.max_refinement_precision };
    match compare_point2_distance_squared_with_policy(&a, &l, &r, policy) {
        Outcome::Decided { value, .. } => Some(if value.is_lt() { Sign::Negative } else if value.is_gt() { Sign::Positive } else { Sign::Zero }),
        _ => None,
    }
}

/// How the distances from the point at `anchor` to the points at `left` and
/// `right` compare, as a sign, or the undecided-predicate error.
pub open spec fn distance_order_result(points: Seq<Point2>, anchor: int, left: int, right: int, policy: PredicatePolicy) -> Result<Sign, Error> {
    match distance_order_outcome(point_fractions(points[anchor]), point_fractions(points[left]), point_fractions(points[right]), policy) {
        Some(s) => Ok(s),
        None => Err(Error::PredicateUndecided { predicate: "compare_point2_distance_squared" }),
    }
}

/// Decide how the distances from the point at `anchor` to the points at
/// `left` and `right` compare.
pub(crate) fn distance_order(points: &[Point2], anchor: usize, left: usize, right: usize, policy: PredicatePolicy) -> (r: Result<Sign, Error>)
    requires
        anchor < points@.len(),
        left < points@.len(),
        right < points@.len(),
    ensures
        r == distance_order_result(points@, anchor as int, left as int, right as int, policy),
{
    match distance_order_decision(&points[anchor], &points[left], &points[right], policy) {
        Some(s) => Ok(s),
        None => Err(Error::PredicateUndecided { predicate: "compare_point2_distance_squared" }),
    }
}

/// A point's coordinate fractions both have positive denominators.
pub open spec fn fraction_pair_valid(p: ((int, int), (int, int))) -> bool {
    p.0.1 > 0 && p.1.1 > 0
}

/// Every point of the list has coordinates with positive denominators.
pub open spec fn fractions_valid(points: Seq<Point2>) -> bool {
    forall|i: int| 0 <= i < points.len() ==> fraction_pair_valid(#[trigger] point_fractions(points[i]))
}

/// Every listed fraction pair has positive denominators.
pub open spec fn pairs_valid(pts: Seq<((int, int), (int, int))>) -> bool {
    forall|k: int| 0 <= k < pts.len() ==> fraction_pair_valid(#[trigger] pts[k])
}

/// Every ring index names one of `n` points.
pub open spec fn ring_in_range(ring: Seq<usize>, n: int) -> bool {
    forall|k: int| 0 <= k < ring.len() ==> #[trigger] ring[k] < n
}

/// Whether `policy` decides every exact predicate this library asks on
/// well-formed arguments (coordinate fractions with positive denominators,
/// ring indices in range): no outside decision made under it reports such
/// a case unknown. Success of the algorithms is owed on this condition;
/// whether a given policy meets it is the outside crate's matter and is not
/// claimed here.
pub open spec fn policy_decides(policy: PredicatePolicy) -> bool {
    &&& forall|a: ((int, int), (int, int)), b: ((int, int), (int, int)), c: ((int, int), (int, int))|
        fraction_pair_valid(a) && fraction_pair_valid(b) && fraction_pair_valid(c) ==>
        (#[trigger] orient2_outcome(a, b, c, policy)) is Some
    &&& forall|a: ((int, int), (int, int)), b: ((int, int), (int, int)), c: ((int, int), (int, int)), d: ((int, int), (int, int))|
        fraction_pair_valid(a) && fraction_pair_valid(b) && fraction_pair_valid(c) && fraction_pair_valid(d) ==>
        (#[trigger] incircle2_outcome(a, b, c, d, policy)) is Some
    &&& forall|a: ((int, int), (int, int)), b: ((int, int), (int, int)), p: ((int, int), (int, int))|
        fraction_pair_valid(a) && fraction_pair_valid(b) && fraction_pair_valid(p) ==>
        (#[trigger] segment_contains_outcome(a, b, p, policy)) is Some
    &&& forall|a: ((int, int), (int, int)), b: ((int, int), (int, int)), c: ((int, int), (int, int)), d: ((int, int), (int, int))|
        fraction_pair_valid(a) && fraction_pair_valid(b) && fraction_pair_valid(c) && fraction_pair_valid(d) ==>
        (#[trigger] segment_intersection_outcome(a, b, c, d, policy)) is Some
    &&& forall|pts: Seq<((int, int), (int, int))>, ring: Seq<usize>|
        pairs_valid(pts) && ring_in_range(ring, pts.len() as int) ==>
        (#[trigger] ring_area_outcome(pts, ring, policy)) is Some
    &&& forall|pts: Seq<((int, int), (int, int))>, ring: Seq<usize>, p: ((int, int), (int, int))|
        pairs_valid(pts) && ring_in_range(ring, pts.len() as int) && fraction_pair_valid(p) ==>
        (#[trigger] ring_contains_outcome(pts, ring, p, policy)) is Some
    &&& forall|a: ((int, int), (int, int)), l: ((int, int), (int, int)), r: ((int, int), (int, int))|
        fraction_pair_valid(a) && fraction_pair_valid(l) && fraction_pair_valid(r) ==>
        (#[trigger] distance_order_outcome(a, l, r, policy)) is Some
}

/// The coordinate fractions of a list of valid points are valid.
pub proof fn lemma_points_fractions_valid(points: Seq<Point2>)
    requires
        fractions_valid(points),
    ensures
        pairs_valid(points_fractions(points)),
{
    assert forall|k: int| 0 <= k < points_fractions(points).len() implies fraction_pair_valid(#[trigger] points_fractions(points)[k]) by {
        assert(points_fractions(points)[k] == point_fractions(points[k]));
    }
}

} // verus!
