//! Public data types shared by the exact triangulation APIs.
use vstd::prelude::*;
use hyperreal::{Rational, Real as ExactReal};

verus! {

/// Exact rational number `numerator / denominator` used for coordinates.
///
/// Values are built only through [`Real::from_int`] and [`Real::fraction`], so
/// the denominator is never zero.
#[derive(Clone, Copy, Debug)]
pub struct Real {
    numerator: i64,
    denominator: u64,
}

impl Real {
    /// Numerator of the stored fraction.
    pub closed spec fn num(self) -> int {
        self.numerator as int
    }

    /// Denominator of the stored fraction.
    pub closed spec fn den(self) -> int {
        self.denominator as int
    }

    /// Exact numeric equality of two rationals, by cross multiplication.
    pub open spec fn same_value(self, other: Real) -> bool {
        self.num() * other.den() == other.num() * self.den()
    }

    /// Construct the integer `value`.
    pub fn from_int(value: i64) -> (r: Real)
        ensures
            r.num() == value,
            r.den() == 1,
    {
        Real { numerator: value, denominator: 1 }
    }

    /// Zero.
    pub fn zero() -> (r: Real)
        ensures
            r.num() == 0,
            r.den() == 1,
    {
        Real { numerator: 0, denominator: 1 }
    }

    /// One.
    pub fn one() -> (r: Real)
        ensures
            r.num() == 1,
            r.den() == 1,
    {
        Real { numerator: 1, denominator: 1 }
    }

    /// Construct `numerator / denominator`; `None` for a zero denominator.
    pub fn fraction(numerator: i64, denominator: u64) -> (r: Option<Real>)
        ensures
            denominator == 0 <==> r is None,
            r matches Some(v) ==> v.num() == numerator && v.den() == denominator,
    {
        if denominator == 0 {
            None
        } else {
            Some(Real { numerator, denominator })
        }
    }

    /// Stored numerator.
    pub fn numerator(&self) -> (r: i64)
        ensures
            r == self.num(),
    {
        self.numerator
    }

    /// Stored denominator.
    pub fn denominator(&self) -> (r: u64)
        ensures
            r == self.den(),
    {
        self.denominator
    }

    /// Decide exact numeric equality (`1/2` equals `2/4`).
    pub fn exact_eq(&self, other: &Real) -> (r: bool)
        ensures
            r == self.same_value(*other),
    {
        let a = self.numerator as i128;
        let b = other.denominator as i128;
        let c = other.numerator as i128;
        let d = self.denominator as i128;
        proof {
            lemma_mul_bound_i64_u64(a as int, b as int);
            lemma_mul_bound_i64_u64(c as int, d as int);
        }
        let left = a * b;
        let right = c * d;
        left == right
    }

    /// Strict numeric order, by cross multiplication (denominators are
    /// positive).
    pub open spec fn less_value(self, other: Real) -> bool {
        self.num() * other.den() < other.num() * self.den()
    }

    /// Decide `self < other` numerically.
    pub fn exact_lt(&self, other: &Real) -> (r: bool)
        ensures
            r == self.less_value(*other),
    {
        let a = self.numerator as i128;
        let b = other.denominator as i128;
        let c = other.numerator as i128;
        let d = self.denominator as i128;
        proof {
            lemma_mul_bound_i64_u64(a as int, b as int);
            lemma_mul_bound_i64_u64(c as int, d as int);
        }
        let left = a * b;
        let right = c * d;
        left < right
    }

    /// Whether a numerator and denominator fit the stored field types.
    pub open spec fn fits(numerator: int, denominator: int) -> bool {
        i64::MIN <= numerator <= i64::MAX && 0 <= denominator <= u64::MAX
    }

    /// `self + other` as the fraction `(a·d + c·b) / (b·d)`; `None` when that
    /// fraction does not fit.
    pub fn checked_add(&self, other: &Real) -> (r: Option<Real>)
        ensures
            Real::fits(self.num() * other.den() + other.num() * self.den(), self.den() * other.den()) <==> r is Some,
            r matches Some(v) ==> v.num() == self.num() * other.den() + other.num() * self.den() && v.den() == self.den() * other.den(),
    {
        let a = self.numerator as i128;
        let b = other.denominator as i128;
        let c = other.numerator as i128;
        let d = self.denominator as i128;
        proof {
            lemma_mul_bound_i64_u64(a as int, b as int);
            lemma_mul_bound_i64_u64(c as int, d as int);
        }
        let sum = match (a * b).checked_add(c * d) {
            Some(s) => s,
            None => return None,
        };
        let den = Real::denominator_product(self.denominator, other.denominator);
        if sum < -0x8000_0000_0000_0000i128 || sum > 0x7fff_ffff_ffff_ffffi128 || den > 0xffff_ffff_ffff_ffffu128 {
            return None;
        }
        Some(Real { numerator: sum as i64, denominator: den as u64 })
    }

    /// `self - other` as the fraction `(a·d - c·b) / (b·d)`; `None` when that
    /// fraction does not fit.
    pub fn checked_sub(&self, other: &Real) -> (r: Option<Real>)
        ensures
            Real::fits(self.num() * other.den() - other.num() * self.den(), self.den() * other.den()) <==> r is Some,
            r matches Some(v) ==> v.num() == self.num() * other.den() - other.num() * self.den() && v.den() == self.den() * other.den(),
    {
        let a = self.numerator as i128;
        let b = other.denominator as i128;
        let c = other.numerator as i128;
        let d = self.denominator as i128;
        proof {
            lemma_mul_bound_i64_u64(a as int, b as int);
            lemma_mul_bound_i64_u64(c as int, d as int);
        }
        let difference = match (a * b).checked_sub(c * d) {
            Some(s) => s,
            None => return None,
        };
        let den = Real::denominator_product(self.denominator, other.denominator);
        if difference < -0x8000_0000_0000_0000i128 || difference > 0x7fff_ffff_ffff_ffffi128 || den > 0xffff_ffff_ffff_ffffu128 {
            return None;
        }
        Some(Real { numerator: difference as i64, denominator: den as u64 })
    }

    /// `self · other` as the fraction `(a·c) / (b·d)`; `None` when that
    /// fraction does not fit.
    pub fn checked_mul(&self, other: &Real) -> (r: Option<Real>)
        ensures
            Real::fits(self.num() * other.num(), self.den() * other.den()) <==> r is Some,
            r matches Some(v) ==> v.num() == self.num() * other.num() && v.den() == self.den() * other.den(),
    {
        let a = self.numerator as i128;
        let c = other.numerator as i128;
        proof {
            assert(-0x8000_0000_0000_0000_0000_0000_0000_0000 <= a * c <= 0x7fff_ffff_ffff_ffff_ffff_ffff_ffff_ffff) by (nonlinear_arith)
                requires
                    -0x8000_0000_0000_0000 <= a <= 0x7fff_ffff_ffff_ffff,
                    -0x8000_0000_0000_0000 <= c <= 0x7fff_ffff_ffff_ffff,
            ;
        }
        let product = a * c;
        let den = Real::denominator_product(self.denominator, other.denominator);
        if product < -0x8000_0000_0000_0000i128 || product > 0x7fff_ffff_ffff_ffffi128 || den > 0xffff_ffff_ffff_ffffu128 {
            return None;
        }
        Some(Real { numerator: product as i64, denominator: den as u64 })
    }

    /// `self / 2` as the fraction `a / (2·b)`; `None` when the denominator
    /// does not fit.
    pub fn checked_half(&self) -> (r: Option<Real>)
        ensures
            Real::fits(self.num(), 2 * self.den()) <==> r is Some,
            r matches Some(v) ==> v.num() == self.num() && v.den() == 2 * self.den(),
    {
        if self.denominator > 0x7fff_ffff_ffff_ffffu64 {
            return None;
        }
        Some(Real { numerator: self.numerator, denominator: 2 * self.denominator })
    }

    /// `self / other` as the fraction `(a·d) / (b·c)`, its signs moved to
    /// the numerator; `None` for a zero divisor or when that fraction does
    /// not fit.
    pub fn checked_div(&self, other: &Real) -> (r: Option<Real>)
        ensures
            other.num() == 0 ==> r is None,
            r matches Some(v) ==> (v.num(), v.den()) == frac_div((self.num(), self.den()), (other.num(), other.den())),
    {
        if other.numerator == 0 {
            return None;
        }
        let a = self.numerator as i128;
        let b = self.denominator as i128;
        let c = other.numerator as i128;
        let d = other.denominator as i128;
        proof {
            assert(-0x8000_0000_0000_0000 * 0xffff_ffff_ffff_ffff <= a * d <= 0x7fff_ffff_ffff_ffff * 0xffff_ffff_ffff_ffff) by (nonlinear_arith)
                requires
                    -0x8000_0000_0000_0000 <= a <= 0x7fff_ffff_ffff_ffff,
                    0 <= d <= 0xffff_ffff_ffff_ffff;
        }
        let numerator = if c < 0 { -(a * d) } else { a * d };
        let magnitude = if c < 0 { -c } else { c };
        let denominator = match b.checked_mul(magnitude) {
            Some(v) => v,
            None => return None,
        };
        if numerator < -0x8000_0000_0000_0000i128 || numerator > 0x7fff_ffff_ffff_ffffi128 || denominator <= 0 || denominator > 0xffff_ffff_ffff_ffffi128 {
            return None;
        }
        let v = Real { numerator: numerator as i64, denominator: denominator as u64 };
        proof {
            assert(v.num() * c * b == a * d * v.den()) by (nonlinear_arith)
                requires
                    v.num() == numerator,
                    v.den() == denominator,
                    c < 0 ==> numerator == -(a * d) && denominator == b * (-c),
                    c >= 0 ==> numerator == a * d && denominator == b * c;
        }
        Some(v)
    }

    fn denominator_product(b: u64, d: u64) -> (r: u128)
        ensures
            r == b * d,
    {
        proof {
            assert(b * d <= 0xffff_ffff_ffff_ffff * 0xffff_ffff_ffff_ffff) by (nonlinear_arith)
                requires
                    0 <= b <= 0xffff_ffff_ffff_ffff,
                    0 <= d <= 0xffff_ffff_ffff_ffff,
            ;
        }
        (b as u128) * (d as u128)
    }
}

/// The sum of two fractions `(numerator, denominator)` over the product of
/// their denominators.
pub open spec fn frac_add(a: (int, int), b: (int, int)) -> (int, int) {
    (a.0 * b.1 + b.0 * a.1, a.1 * b.1)
}

/// The difference of two fractions over the product of their denominators.
pub open spec fn frac_sub(a: (int, int), b: (int, int)) -> (int, int) {
    (a.0 * b.1 - b.0 * a.1, a.1 * b.1)
}

/// The product of two fractions.
pub open spec fn frac_mul(a: (int, int), b: (int, int)) -> (int, int) {
    (a.0 * b.0, a.1 * b.1)
}

/// The quotient of two fractions, the divisor's sign moved to the
/// numerator.
pub open spec fn frac_div(a: (int, int), b: (int, int)) -> (int, int) {
    if b.0 < 0 { (-(a.0 * b.1), a.1 * -b.0) } else { (a.0 * b.1, a.1 * b.0) }
}

/// A product of an `i64` and a `u64` fits in an `i128`.
proof fn lemma_mul_bound_i64_u64(a: int, b: int)
    requires
        -0x8000_0000_0000_0000 <= a <= 0x7fff_ffff_ffff_ffff,
        0 <= b <= 0xffff_ffff_ffff_ffff,
    ensures
        -0x8000_0000_0000_0000_0000_0000_0000_0000 <= a * b <= 0x7fff_ffff_ffff_ffff_ffff_ffff_ffff_ffff,
{
    assert(-0x8000_0000_0000_0000 * 0xffff_ffff_ffff_ffff <= a * b <= 0x7fff_ffff_ffff_ffff * 0xffff_ffff_ffff_ffff) by (nonlinear_arith)
        requires
            -0x8000_0000_0000_0000 <= a <= 0x7fff_ffff_ffff_ffff,
            0 <= b <= 0xffff_ffff_ffff_ffff,
    ;
}

/// 2D point with exact coordinates.
#[derive(Clone, Copy, Debug)]
pub struct Point2 {
    /// X coordinate.
    pub x: Real,
    /// Y coordinate.
    pub y: Real,
}

impl Point2 {
    /// Construct a 2D point from coordinates.
    pub fn new(x: Real, y: Real) -> (r: Point2)
        ensures
            r.x == x,
            r.y == y,
    {
        Point2 { x, y }
    }

    /// Exact numeric equality of both coordinates.
    pub open spec fn same_point(self, other: Point2) -> bool {
        self.x.same_value(other.x) && self.y.same_value(other.y)
    }

    /// Decide exact numeric equality of two points.
    pub fn exact_eq(&self, other: &Point2) -> (r: bool)
        ensures
            r == self.same_point(*other),
    {
        self.x.exact_eq(&other.x) && self.y.exact_eq(&other.y)
    }

    /// Lexicographic order by `x`, then `y`, of the exact values.
    pub open spec fn lex_before(self, other: Point2) -> bool {
        self.x.less_value(other.x) || (self.x.same_value(other.x) && self.y.less_value(other.y))
    }

    /// Decide whether `self` precedes `other` lexicographically by exact
    /// value.
    pub fn exact_lex_lt(&self, other: &Point2) -> (r: bool)
        ensures
            r == self.lex_before(*other),
    {
        self.x.exact_lt(&other.x) || (self.x.exact_eq(&other.x) && self.y.exact_lt(&other.y))
    }
}

/// Exact 2D point used by the default triangulation APIs.
pub type ExactPoint = Point2;

/// Exact sign used by triangulation predicates.
#[derive(Clone, Copy, Debug, PartialEq, Eq, Structural)]
pub enum Sign {
    /// Negative sign.
    Negative,
    /// Exactly zero.
    Zero,
    /// Positive sign.
    Positive,
}

/// The opposite of a sign.
pub open spec fn reversed_sign(sign: Sign) -> Sign {
    match sign {
        Sign::Negative => Sign::Positive,
        Sign::Zero => Sign::Zero,
        Sign::Positive => Sign::Negative,
    }
}

impl Sign {
    /// Return the opposite sign.
    pub fn reversed(self) -> (r: Sign)
        ensures
            r == reversed_sign(self),
    {
        match self {
            Sign::Negative => Sign::Positive,
            Sign::Zero => Sign::Zero,
            Sign::Positive => Sign::Negative,
        }
    }
}

/// Reversing a sign twice gives it back, and only zero is its own reverse.
pub proof fn lemma_reversed_sign_involution(sign: Sign)
    ensures
        reversed_sign(reversed_sign(sign)) == sign,
        (reversed_sign(sign) == sign) <==> (sign == Sign::Zero),
{
}

/// Point location relative to a triangle.
#[derive(Clone, Copy, Debug, PartialEq, Eq, Structural)]
pub enum TriangleLocation {
    /// The triangle itself is degenerate.
    Degenerate,
    /// The point is strictly inside the triangle.
    Inside,
    /// The point lies on a triangle edge.
    OnEdge,
    /// The point equals a triangle vertex.
    OnVertex,
    /// The point is outside the triangle.
    Outside,
}

/// Triangle expressed as three input vertex indices.
pub type Triangle = [usize; 3];

/// Flat earcut-compatible triangle index buffer.
pub type TriangleIndices = Vec<usize>;

/// Structural facts retained for one polygon input ring.
#[derive(Clone, Copy, Debug, PartialEq, Eq, Structural)]
pub struct RingInputFacts {
    /// Start vertex offset in the flat polygon vertex buffer.
    pub start: usize,
    /// Exclusive end vertex offset in the flat polygon vertex buffer.
    pub end: usize,
    /// Number of edges structurally known to collapse to a point.
    pub known_degenerate_edges: usize,
    /// Number of non-degenerate edges structurally known to be horizontal or vertical.
    pub known_axis_aligned_edges: usize,
    /// Number of edges with at least one coordinate-zero status that remains unknown.
    pub unknown_edge_zero_status: usize,
}

impl RingInputFacts {
    /// Return the number of vertices in this ring (zero when `end < start`).
    pub fn len(&self) -> (r: usize)
        ensures
            r == (if self.end >= self.start { self.end - self.start } else { 0 }),
    {
        if self.end >= self.start {
            self.end - self.start
        } else {
            0
        }
    }

    /// Return whether this ring has no vertices.
    pub fn is_empty(&self) -> (r: bool)
        ensures
            r == (self.end <= self.start),
    {
        self.len() == 0
    }
}

/// A constrained segment expressed as input vertex indices.
#[derive(Clone, Copy, Debug, PartialEq, Eq, Hash, Structural)]
pub struct Constraint {
    /// Start vertex index.
    pub from: usize,
    /// End vertex index.
    pub to: usize,
}

impl Constraint {
    /// Construct a constrained segment from two vertex indices.
    pub fn new(from: usize, to: usize) -> (r: Constraint)
        ensures
            r.from == from,
            r.to == to,
    {
        Constraint { from, to }
    }
}

/// The position after `index` in the ring `start..end`, cyclically.
pub open spec fn ring_next(start: int, end: int, index: int) -> int {
    if index + 1 == end { start } else { index + 1 }
}

/// Whether the ring edge from the vertex at `index` collapses: both
/// coordinate differences are zero.
pub open spec fn edge_collapses(vertices: Seq<Point2>, start: int, end: int, index: int) -> bool {
    let next = ring_next(start, end, index);
    vertices[index].x.same_value(vertices[next].x) && vertices[index].y.same_value(vertices[next].y)
}

/// Whether the ring edge from the vertex at `index` is horizontal or
/// vertical without collapsing: exactly one coordinate difference is zero.
pub open spec fn edge_axis_aligned(vertices: Seq<Point2>, start: int, end: int, index: int) -> bool {
    let next = ring_next(start, end, index);
    vertices[index].x.same_value(vertices[next].x) != vertices[index].y.same_value(vertices[next].y)
}

/// Number of ring edges from positions `start..k` that collapse (or, with
/// `axis`, that are axis aligned).
pub open spec fn ring_edge_count(vertices: Seq<Point2>, start: int, end: int, k: int, axis: bool) -> int
    decreases k - start,
{
    if k <= start {
        0
    } else {
        ring_edge_count(vertices, start, end, k - 1, axis) + if (if axis { edge_axis_aligned(vertices, start, end, k - 1) } else { edge_collapses(vertices, start, end, k - 1) }) { 1int } else { 0int }
    }
}

impl RingInputFacts {
    /// Summarize the ring `start..end` of the vertex buffer: its collapsed
    /// and its axis-aligned edges. Exact rational coordinates leave no edge
    /// with an unknown zero status.
    pub fn from_range(vertices: &[Point2], start: usize, end: usize) -> (r: RingInputFacts)
        requires
            end <= vertices@.len(),
        ensures
            r.start == start,
            r.end == end,
            r.unknown_edge_zero_status == 0,
            end >= start + 2 ==> r.known_degenerate_edges == ring_edge_count(vertices@, start as int, end as int, end as int, false),
            end >= start + 2 ==> r.known_axis_aligned_edges == ring_edge_count(vertices@, start as int, end as int, end as int, true),
            end < start + 2 ==> r.known_degenerate_edges == 0 && r.known_axis_aligned_edges == 0,
    {
        let mut known_degenerate_edges: usize = 0;
        let mut known_axis_aligned_edges: usize = 0;
        if end >= 2 && start <= end - 2 {
            let mut index = start;
            while index < end
                invariant
                    start <= index <= end,
                    end <= vertices@.len(),
                    start + 2 <= end,
                    known_degenerate_edges == ring_edge_count(vertices@, start as int, end as int, index as int, false),
                    known_axis_aligned_edges == ring_edge_count(vertices@, start as int, end as int, index as int, true),
                    known_degenerate_edges <= index - start,
                    known_axis_aligned_edges <= index - start,
                decreases end - index,
            {
                let next = if index + 1 == end { start } else { index + 1 };
                let x_zero = vertices[next].x.exact_eq(&vertices[index].x);
                let y_zero = vertices[next].y.exact_eq(&vertices[index].y);
                proof {
                    assert(x_zero == vertices@[index as int].x.same_value(vertices@[next as int].x)) by {
                        assert(vertices@[next as int].x.num() * vertices@[index as int].x.den() == vertices@[index as int].x.num() * vertices@[next as int].x.den()
                            <==> vertices@[index as int].x.num() * vertices@[next as int].x.den() == vertices@[next as int].x.num() * vertices@[index as int].x.den());
                    }
                    assert(y_zero == vertices@[index as int].y.same_value(vertices@[next as int].y)) by {
                        assert(vertices@[next as int].y.num() * vertices@[index as int].y.den() == vertices@[index as int].y.num() * vertices@[next as int].y.den()
                            <==> vertices@[index as int].y.num() * vertices@[next as int].y.den() == vertices@[next as int].y.num() * vertices@[index as int].y.den());
                    }
                }
                if x_zero && y_zero {
                    known_degenerate_edges = known_degenerate_edges + 1;
                } else if x_zero != y_zero {
                    known_axis_aligned_edges = known_axis_aligned_edges + 1;
                }
                index = index + 1;
            }
        }
        RingInputFacts { start, end, known_degenerate_edges, known_axis_aligned_edges, unknown_edge_zero_status: 0 }
    }
}

/// Exact-rational facts of a coordinate set, as reported by the exact real
/// library: how many coordinates are exact rationals and integers, and
/// whether all are exact rationals, all dyadic, and all share one reduced
/// denominator.
#[derive(Clone, Copy, Debug, PartialEq, Eq, Structural)]
pub struct CoordinateExactFacts {
    /// Number of coordinates represented as exact rationals.
    pub exact_rational_count: usize,
    /// Number of exact rational coordinates whose reduced denominator is one.
    pub exact_integer_count: usize,
    /// Whether every coordinate is an exact rational.
    pub all_exact_rational: bool,
    /// Whether every coordinate is an exact rational with a power-of-two denominator.
    pub all_dyadic: bool,
    /// Whether every coordinate is exact rational and all reduced denominators are equal.
    pub shared_denominator: bool,
}

/// The coordinates of a point list in order, `x` then `y` of each point,
/// as stored fractions.
pub open spec fn coordinate_fractions(points: Seq<Point2>) -> Seq<(int, int)> {
    Seq::new(2 * points.len(), |i: int| {
        let p = points[i / 2];
        if i % 2 == 0 { (p.x.num(), p.x.den()) } else { (p.y.num(), p.y.den()) }
    })
}

/// What `hyperreal::Real::exact_set_facts` reports for the coordinates
/// given by their fractions, as (exact rational count, exact integer
/// count, all exact rational, all dyadic, shared denominator), or `None`
/// when a coordinate fraction cannot be formed.
pub uninterp spec fn exact_set_outcome(coordinates: Seq<(int, int)>) -> Option<(usize, usize, bool, bool, bool)>;

/// Calls `hyperreal::Real::exact_set_facts` on the exact values of every
/// coordinate. The contract claims only that the result is that call's
/// report, named by `exact_set_outcome`.
#[verifier::external_body]
fn exact_set_report(points: &[Point2]) -> (r: Option<(usize, usize, bool, bool, bool)>)
    ensures
        r == exact_set_outcome(coordinate_fractions(points@)),
{
    let exact = |v: &Real| Rational::fraction(v.numerator(), v.denominator()).ok().map(ExactReal::from);
    let values = points.iter().flat_map(|p| [exact(&p.x), exact(&p.y)]).collect::<Option<Vec<_>>>()?;
    let facts = ExactReal::exact_set_facts(values.iter());
    Some((facts.exact_rational_count, facts.exact_integer_count, facts.all_exact_rational, facts.all_dyadic, facts.shared_denominator))
}

/// What `hyperreal::Real::detailed_facts` reports as the symbolic
/// dependency mask of the coordinate with the given fraction, as raw bits,
/// or `None` when the fraction cannot be formed.
pub uninterp spec fn symbolic_dependency_outcome(coordinate: (int, int)) -> Option<u16>;

/// Calls `hyperreal::Real::detailed_facts` on the exact value of one
/// coordinate. The contract claims only that the result is that call's
/// symbolic dependency bits, named by `symbolic_dependency_outcome`.
#[verifier::external_body]
fn symbolic_dependency_bits(value: &Real) -> (r: Option<u16>)
    ensures
        r == symbolic_dependency_outcome((value.num(), value.den())),
{
    let exact = ExactReal::from(Rational::fraction(value.numerator(), value.denominator()).ok()?);
    Some(exact.detailed_facts().symbolic.dependencies.bits())
}

/// The union (bitwise or) of the symbolic dependency masks of the first `k`
/// coordinates, or `None` when one of them cannot be formed.
pub open spec fn dependency_union(coordinates: Seq<(int, int)>, k: int) -> Option<u16>
    decreases k,
{
    if k <= 0 {
        Some(0u16)
    } else {
        match (dependency_union(coordinates, k - 1), symbolic_dependency_outcome(coordinates[k - 1])) {
            (Some(mask), Some(bits)) => Some(mask | bits),
            _ => None,
        }
    }
}

/// Once a coordinate cannot be formed, the union of any longer prefix
/// cannot be formed either.
proof fn lemma_dependency_union_none(coordinates: Seq<(int, int)>, k: int, m: int)
    requires
        k <= m,
        dependency_union(coordinates, k) is None,
    ensures
        dependency_union(coordinates, m) is None,
    decreases m - k,
{
    if k < m {
        lemma_dependency_union_none(coordinates, k, m - 1);
    }
}

/// The union of the symbolic dependency masks of every coordinate, `x`
/// then `y` of each point in order; `None` when a coordinate cannot be
/// formed.
fn symbolic_dependency_report(points: &[Point2]) -> (r: Option<u16>)
    ensures
        r == dependency_union(coordinate_fractions(points@), 2 * points@.len() as int),
{
    let ghost coords = coordinate_fractions(points@);
    let mut mask: u16 = 0;
    let mut i: usize = 0;
    while i < points.len()
        invariant
            0 <= i <= points@.len(),
            coords == coordinate_fractions(points@),
            dependency_union(coords, 2 * i) == Some(mask),
        decreases points@.len() - i,
    {
        proof {
            let k: int = 2 * i as int;
            assert(k / 2 == i && k % 2 == 0) by (nonlinear_arith) requires k == 2 * i;
            assert((k + 1) / 2 == i && (k + 1) % 2 == 1) by (nonlinear_arith) requires k == 2 * i;
            assert(coords[k] == (points@[i as int].x.num(), points@[i as int].x.den()));
            assert(coords[k + 1] == (points@[i as int].y.num(), points@[i as int].y.den()));
        }
        let x_bits = symbolic_dependency_bits(&points[i].x);
        let x_bits = match x_bits {
            Some(b) => b,
            None => {
                proof { lemma_dependency_union_none(coords, 2 * i + 1, 2 * points@.len() as int); }
                return None;
            },
        };
        mask = mask | x_bits;
        let y_bits = symbolic_dependency_bits(&points[i].y);
        let y_bits = match y_bits {
            Some(b) => b,
            None => {
                proof {
                    assert(dependency_union(coords, 2 * i + 2) is None);
                    lemma_dependency_union_none(coords, 2 * i + 2, 2 * points@.len() as int);
                }
                return None;
            },
        };
        mask = mask | y_bits;
        proof {
            assert(dependency_union(coords, 2 * i + 2) == Some(mask));
        }
        i = i + 1;
    }
    Some(mask)
}

/// Structural facts retained beside a [`PolygonInput`]: scheduling hints,
/// never validity proofs.
#[derive(Debug, PartialEq, Eq)]
pub struct PolygonInputFacts {
    /// Total number of input vertices.
    pub vertex_count: usize,
    /// Number of rings described by the flat buffer and hole indices.
    pub ring_count: usize,
    /// Whether the input has at least one hole ring.
    pub has_holes: bool,
    /// Number of coordinates known to be exact rational values.
    pub exact_rational_coordinates: usize,
    /// Exact-rational facts for all polygon coordinates.
    pub coordinate_exact: CoordinateExactFacts,
    /// Coarse symbolic dependency families present in polygon coordinates,
    /// as raw mask bits.
    pub symbolic_dependencies: u16,
    /// Per-ring structural summaries.
    pub rings: Vec<RingInputFacts>,
}

/// The sum of a per-ring count over the first `k` rings.
pub open spec fn rings_total(rings: Seq<RingInputFacts>, k: int, unknown: bool) -> int
    decreases k,
{
    if k <= 0 {
        0
    } else {
        rings_total(rings, k - 1, unknown) + if unknown { rings[k - 1].unknown_edge_zero_status as int } else { rings[k - 1].known_degenerate_edges as int }
    }
}

/// The sum of a per-ring count over the rings, saturating at the largest
/// `usize`.
fn saturating_ring_total(rings: &Vec<RingInputFacts>, unknown: bool) -> (r: usize)
    ensures
        rings_total(rings@, rings@.len() as int, unknown) <= usize::MAX ==> r == rings_total(rings@, rings@.len() as int, unknown),
        rings_total(rings@, rings@.len() as int, unknown) > usize::MAX ==> r == usize::MAX,
{
    let mut total: usize = 0;
    let mut k: usize = 0;
    while k < rings.len()
        invariant
            0 <= k <= rings@.len(),
            rings_total(rings@, k as int, unknown) <= usize::MAX ==> total == rings_total(rings@, k as int, unknown),
            rings_total(rings@, k as int, unknown) > usize::MAX ==> total == usize::MAX,
        decreases rings@.len() - k,
    {
        let value = if unknown { rings[k].unknown_edge_zero_status } else { rings[k].known_degenerate_edges };
        total = total.saturating_add(value);
        k = k + 1;
    }
    total
}

impl PolygonInputFacts {
    /// Whether every coordinate is an exact rational value.
    pub fn all_coordinates_exact_rational(&self) -> (r: bool)
        ensures
            r == self.coordinate_exact.all_exact_rational,
    {
        self.coordinate_exact.all_exact_rational
    }

    /// Whether every coordinate shares one reduced denominator.
    pub fn has_shared_denominator_schedule(&self) -> (r: bool)
        ensures
            r == self.coordinate_exact.shared_denominator,
    {
        self.coordinate_exact.shared_denominator
    }

    /// Whether every coordinate is dyadic.
    pub fn all_coordinates_dyadic(&self) -> (r: bool)
        ensures
            r == self.coordinate_exact.all_dyadic,
    {
        self.coordinate_exact.all_dyadic
    }

    /// Total number of ring edges known to collapse: an algorithm-selection
    /// hint, not a validity proof.
    pub fn known_degenerate_edge_count(&self) -> (r: usize)
        ensures
            rings_total(self.rings@, self.rings@.len() as int, false) <= usize::MAX ==> r == rings_total(self.rings@, self.rings@.len() as int, false),
            rings_total(self.rings@, self.rings@.len() as int, false) > usize::MAX ==> r == usize::MAX,
    {
        saturating_ring_total(&self.rings, false)
    }

    /// Total number of ring edges whose zero status is not known.
    pub fn unknown_edge_zero_status_count(&self) -> (r: usize)
        ensures
            rings_total(self.rings@, self.rings@.len() as int, true) <= usize::MAX ==> r == rings_total(self.rings@, self.rings@.len() as int, true),
            rings_total(self.rings@, self.rings@.len() as int, true) > usize::MAX ==> r == usize::MAX,
    {
        saturating_ring_total(&self.rings, true)
    }

    /// Build the structural facts of a flat polygon buffer: one ring from
    /// each start (zero, then each hole start) to the next start or the end,
    /// both clamped to the buffer.
    pub fn from_parts(vertices: &[Point2], hole_indices: &[usize]) -> (r: PolygonInputFacts)
        ensures
            r.vertex_count == vertices@.len(),
            r.ring_count == hole_indices@.len() + 1,
            r.rings@.len() == hole_indices@.len() + 1,
            r.has_holes == (hole_indices@.len() > 0),
            forall|k: int| 0 <= k < r.rings@.len() ==> (#[trigger] r.rings@[k]).unknown_edge_zero_status == 0,
            r.symbolic_dependencies == (match dependency_union(coordinate_fractions(vertices@), 2 * vertices@.len() as int) {
                Some(bits) => bits,
                None => 0u16,
            }),
            match exact_set_outcome(coordinate_fractions(vertices@)) {
                Some(facts) => r.exact_rational_coordinates == facts.0 && r.coordinate_exact.exact_rational_count == facts.0
                    && r.coordinate_exact.exact_integer_count == facts.1 && r.coordinate_exact.all_exact_rational == facts.2
                    && r.coordinate_exact.all_dyadic == facts.3 && r.coordinate_exact.shared_denominator == facts.4,
                None => r.exact_rational_coordinates == 0 && r.coordinate_exact.exact_rational_count == 0
                    && r.coordinate_exact.exact_integer_count == 0 && !r.coordinate_exact.all_exact_rational
                    && !r.coordinate_exact.all_dyadic && !r.coordinate_exact.shared_denominator,
            },
    {
        let n = vertices.len();
        let (exact_rational_coordinates, coordinate_exact) = match exact_set_report(vertices) {
            Some((rational, integer, all_rational, dyadic, shared)) => (rational, CoordinateExactFacts {
                exact_rational_count: rational,
                exact_integer_count: integer,
                all_exact_rational: all_rational,
                all_dyadic: dyadic,
                shared_denominator: shared,
            }),
            None => (0, CoordinateExactFacts {
                exact_rational_count: 0,
                exact_integer_count: 0,
                all_exact_rational: false,
                all_dyadic: false,
                shared_denominator: false,
            }),
        };
        let symbolic_dependencies = match symbolic_dependency_report(vertices) {
            Some(bits) => bits,
            None => 0,
        };
        let mut rings: Vec<RingInputFacts> = Vec::new();
        let first_end = if hole_indices.len() > 0 { hole_indices[0] } else { n };
        rings.push(RingInputFacts::from_range(vertices, 0, if first_end < n { first_end } else { n }));
        let mut k: usize = 0;
        while k < hole_indices.len()
            invariant
                n == vertices@.len(),
                k <= hole_indices@.len(),
                rings@.len() == k + 1,
                forall|j: int| 0 <= j < rings@.len() ==> (#[trigger] rings@[j]).unknown_edge_zero_status == 0,
            decreases hole_indices@.len() - k,
        {
            let start = hole_indices[k];
            let next = if k + 1 < hole_indices.len() { hole_indices[k + 1] } else { n };
            let start = if start < n { start } else { n };
            let end = if next < n { next } else { n };
            let ghost before = rings@;
            rings.push(RingInputFacts::from_range(vertices, start, end));
            proof {
                assert forall|j: int| 0 <= j < rings@.len() implies (#[trigger] rings@[j]).unknown_edge_zero_status == 0 by {
                    if j < before.len() { assert(rings@[j] == before[j]); }
                }
            }
            k = k + 1;
        }
        PolygonInputFacts {
            vertex_count: n,
            ring_count: rings.len(),
            has_holes: hole_indices.len() > 0,
            exact_rational_coordinates,
            coordinate_exact,
            symbolic_dependencies,
            rings,
        }
    }

    /// A field-by-field copy.
    pub fn copy(&self) -> (r: PolygonInputFacts)
        ensures
            r.vertex_count == self.vertex_count,
            r.ring_count == self.ring_count,
            r.has_holes == self.has_holes,
            r.exact_rational_coordinates == self.exact_rational_coordinates,
            r.coordinate_exact == self.coordinate_exact,
            r.symbolic_dependencies == self.symbolic_dependencies,
            r.rings@ == self.rings@,
    {
        let mut rings: Vec<RingInputFacts> = Vec::new();
        let mut k: usize = 0;
        while k < self.rings.len()
            invariant
                k <= self.rings@.len(),
                rings@ == self.rings@.subrange(0, k as int),
            decreases self.rings@.len() - k,
        {
            rings.push(self.rings[k]);
            proof { assert(rings@ =~= self.rings@.subrange(0, k + 1)); }
            k = k + 1;
        }
        proof { assert(rings@ =~= self.rings@); }
        PolygonInputFacts {
            vertex_count: self.vertex_count,
            ring_count: self.ring_count,
            has_holes: self.has_holes,
            exact_rational_coordinates: self.exact_rational_coordinates,
            coordinate_exact: self.coordinate_exact,
            symbolic_dependencies: self.symbolic_dependencies,
            rings,
        }
    }
}

/// Polygon input: one flat vertex buffer and earcut-compatible hole starts
/// (the exterior ring runs up to the first hole start, each hole up to the
/// next), with the structural facts built from them.
#[derive(Debug)]
pub struct PolygonInput {
    vertices: Vec<ExactPoint>,
    hole_indices: Vec<usize>,
    facts: PolygonInputFacts,
}

impl PolygonInput {
    /// The stored vertices (spec view).
    pub closed spec fn vertices_view(&self) -> Seq<ExactPoint> {
        self.vertices@
    }

    /// The stored hole starts (spec view).
    pub closed spec fn hole_indices_view(&self) -> Seq<usize> {
        self.hole_indices@
    }

    /// The stored facts (spec view).
    pub closed spec fn facts_view(&self) -> PolygonInputFacts {
        self.facts
    }

    /// Construct polygon input from raw buffers and build its facts.
    pub fn new(vertices: Vec<ExactPoint>, hole_indices: Vec<usize>) -> (r: PolygonInput)
        ensures
            r.vertices_view() == vertices@,
            r.hole_indices_view() == hole_indices@,
            r.facts_view().vertex_count == vertices@.len(),
            r.facts_view().ring_count == hole_indices@.len() + 1,
            r.facts_view().has_holes == (hole_indices@.len() > 0),
    {
        let facts = PolygonInputFacts::from_parts(vertices.as_slice(), hole_indices.as_slice());
        PolygonInput { vertices, hole_indices, facts }
    }

    /// Borrow all input vertices.
    pub fn vertices(&self) -> (r: &[ExactPoint])
        ensures
            r@ == self.vertices_view(),
    {
        self.vertices.as_slice()
    }

    /// Borrow the earcut-compatible hole starts.
    pub fn hole_indices(&self) -> (r: &[usize])
        ensures
            r@ == self.hole_indices_view(),
    {
        self.hole_indices.as_slice()
    }

    /// The retained structural facts.
    pub fn facts(&self) -> (r: &PolygonInputFacts)
        ensures
            *r == self.facts_view(),
    {
        &self.facts
    }

    /// Consume the input into its raw buffers.
    pub fn into_parts(self) -> (r: (Vec<ExactPoint>, Vec<usize>))
        ensures
            r.0@ == self.vertices_view(),
            r.1@ == self.hole_indices_view(),
    {
        (self.vertices, self.hole_indices)
    }
}

} // verus!
