//! Exact ear-clipping polygon triangulation with holes: rings are
//! normalized, holes are joined to the outer boundary by visible bridges,
//! ears are clipped with exact orientation and containment decisions, and
//! difficult rings fall back to exact local-intersection cures and diagonal
//! splits.
use vstd::prelude::*;
use crate::constraint_recovery::indices_in_bounds;
use crate::context::PredicatePolicy;
use crate::error::Error;
use crate::polygon::{exterior_end, hole_end, hole_starts_valid, open_ring_indices, rings_error, rings_from_hole_indices, PolygonRings, RingRange};
use crate::context::{TriangulationCertainty, TriangulationContext, TriangulationOutcome};
use crate::point_set::{classify_point_triangle, classify_result};
use crate::types::TriangleLocation;
use crate::predicates::{fraction_pair_valid, int_sign, orient2_det, fractions_valid, ring_area_result, ring_in_range, lemma_points_fractions_valid, point_fractions, points_fractions, ring_contains_outcome, distance_order_result, orient2_result, policy_decides, segment_intersection_result, point_on_segment, distance_order, orient2, point_in_ring_even_odd, ring_area_sign, segment_intersection, SegmentIntersection};
use crate::topology::{edge_key, edges_sorted, push_unique_edge, EdgeKey};
use crate::types::{reversed_sign, Point2, Real, Sign};

verus! {

/// Non-certifying counters for the ear-clipping hot loop: scheduling
/// metadata only, never a topology certificate.
#[derive(Clone, Copy, Debug, PartialEq, Eq, Structural)]
pub struct EarcutDiagnostics {
    /// Number of vertices tested as ear candidates.
    pub ear_tests: usize,
    /// Number of non-triangle vertices considered for candidate-ear containment.
    pub containment_candidates: usize,
    /// Number of containment candidates rejected because their local vertex is strictly convex.
    pub containment_convex_rejects: usize,
    /// Number of containment candidates classified through prepared local reflex facts.
    pub containment_prepared_reflex_lookups: usize,
    /// Number of full-ring prepared reflex/convex fact rebuilds.
    pub prepared_reflex_rebuilds: usize,
    /// Number of local prepared reflex/convex fact updates after clipping.
    pub prepared_reflex_updates: usize,
    /// Number of containment candidates rejected by an exact triangle bounding box.
    pub containment_bbox_rejects: usize,
    /// Number of non-triangle vertices tested with exact triangle containment.
    pub containment_tests: usize,
    /// Number of triangles emitted by clipping, curing, or split fallback.
    pub emitted_triangles: usize,
    /// Number of accepted local-intersection cures.
    pub local_intersection_cures: usize,
    /// Number of split fallback attempts entered.
    pub split_fallbacks: usize,
}

impl Default for EarcutDiagnostics {
    fn default() -> (r: EarcutDiagnostics)
        ensures
            r == (EarcutDiagnostics {
                ear_tests: 0,
                containment_candidates: 0,
                containment_convex_rejects: 0,
                containment_prepared_reflex_lookups: 0,
                prepared_reflex_rebuilds: 0,
                prepared_reflex_updates: 0,
                containment_bbox_rejects: 0,
                containment_tests: 0,
                emitted_triangles: 0,
                local_intersection_cures: 0,
                split_fallbacks: 0,
            }),
    {
        EarcutDiagnostics {
            ear_tests: 0,
            containment_candidates: 0,
            containment_convex_rejects: 0,
            containment_prepared_reflex_lookups: 0,
            prepared_reflex_rebuilds: 0,
            prepared_reflex_updates: 0,
            containment_bbox_rejects: 0,
            containment_tests: 0,
            emitted_triangles: 0,
            local_intersection_cures: 0,
            split_fallbacks: 0,
        }
    }
}

/// Triangle indices paired with hot-loop diagnostics.
#[derive(Clone, Debug, PartialEq, Eq)]
pub struct EarcutReport {
    /// Flat earcut-compatible triangle index buffer.
    pub triangles: Vec<usize>,
    /// Non-certifying hot-loop counters.
    pub diagnostics: EarcutDiagnostics,
}

/// A flat triangle buffer: whole triangles whose indices name points.
pub open spec fn flat_triangles_valid(triangles: Seq<usize>, point_count: int) -> bool {
    &&& triangles.len() % 3 == 0
    &&& indices_in_bounds(triangles, point_count)
}

/// Whether the points at `a` and `b` have the same exact coordinates.
fn same_point(vertices: &[Point2], a: usize, b: usize) -> (r: bool)
    requires
        a < vertices@.len(),
        b < vertices@.len(),
    ensures
        r == vertices@[a as int].same_point(vertices@[b as int]),
{
    vertices[a].exact_eq(&vertices[b])
}

/// Append a triangle in the ring's winding: reversed for a negative ring.
/// A three-vertex ring whose vertices are pairwise distinct points and whose
/// orientation is decided and nonzero.
pub open spec fn proper_triangle_ring(vertices: Seq<Point2>, ring: Seq<usize>, policy: PredicatePolicy) -> bool {
    &&& ring.len() == 3
    &&& !vertices[ring[0] as int].same_point(vertices[ring[1] as int])
    &&& !vertices[ring[1] as int].same_point(vertices[ring[2] as int])
    &&& !vertices[ring[2] as int].same_point(vertices[ring[0] as int])
    &&& orient2_result(vertices, ring[0] as int, ring[1] as int, ring[2] as int, policy) matches Ok(s) && s != Sign::Zero
}

/// Every entry of `part` is a vertex of `ring`.
pub open spec fn drawn_from(part: Seq<usize>, ring: Seq<usize>) -> bool {
    forall|i: int| 0 <= i < part.len() ==> ring.contains(#[trigger] part[i])
}

/// Drawing from a ring drawn from another draws from that other.
proof fn lemma_drawn_from_transitive(a: Seq<usize>, b: Seq<usize>, c: Seq<usize>)
    requires
        drawn_from(a, b),
        drawn_from(b, c),
    ensures
        drawn_from(a, c),
{
    assert forall|i: int| 0 <= i < a.len() implies c.contains(#[trigger] a[i]) by {
        let k = choose|k: int| 0 <= k < b.len() && b[k] == a[i];
        assert(c.contains(b[k]));
    }
}

/// Two lists drawn from a ring concatenate to one drawn from it.
proof fn lemma_drawn_from_concat(a: Seq<usize>, b: Seq<usize>, ring: Seq<usize>)
    requires
        drawn_from(a, ring),
        drawn_from(b, ring),
    ensures
        drawn_from(a + b, ring),
{
    assert forall|i: int| 0 <= i < (a + b).len() implies ring.contains(#[trigger] (a + b)[i]) by {
        if i < a.len() { assert((a + b)[i] == a[i]); } else { assert((a + b)[i] == b[i - a.len()]); }
    }
}

fn push_triangle(triangles: &mut Vec<usize>, a: usize, b: usize, c: usize, winding: Sign)
    ensures
        final(triangles)@ == old(triangles)@ + (if winding == Sign::Negative { seq![c, b, a] } else { seq![a, b, c] }),
{
    match winding {
        Sign::Negative => {
            triangles.push(c);
            triangles.push(b);
            triangles.push(a);
        },
        _ => {
            triangles.push(a);
            triangles.push(b);
            triangles.push(c);
        },
    }
}

/// Appending a whole in-range triangle keeps a flat buffer valid.
proof fn lemma_push_triangle_valid(before: Seq<usize>, added: Seq<usize>, point_count: int)
    requires
        flat_triangles_valid(before, point_count),
        added.len() == 3,
        indices_in_bounds(added, point_count),
    ensures
        flat_triangles_valid(before + added, point_count),
{
    let out = before + added;
    assert forall|i: int| 0 <= i < out.len() implies #[trigger] out[i] < point_count by {
        if i < before.len() { assert(out[i] == before[i]); } else { assert(out[i] == added[i - before.len()]); }
    }
}

/// Concatenating valid flat buffers keeps them valid.
proof fn lemma_concat_valid(first: Seq<usize>, second: Seq<usize>, point_count: int)
    requires
        flat_triangles_valid(first, point_count),
        flat_triangles_valid(second, point_count),
    ensures
        flat_triangles_valid(first + second, point_count),
{
    let out = first + second;
    assert forall|i: int| 0 <= i < out.len() implies #[trigger] out[i] < point_count by {
        if i < first.len() { assert(out[i] == first[i]); } else { assert(out[i] == second[i - first.len()]); }
    }
}

/// Append a flat buffer.
fn append_indices(out: &mut Vec<usize>, more: Vec<usize>)
    ensures
        final(out)@ == old(out)@ + more@,
{
    let mut k: usize = 0;
    let ghost start = out@;
    while k < more.len()
        invariant
            0 <= k <= more@.len(),
            out@ == start + more@.subrange(0, k as int),
        decreases more@.len() - k,
    {
        out.push(more[k]);
        proof { assert(out@ =~= start + more@.subrange(0, k + 1)); }
        k = k + 1;
    }
    proof { assert(more@.subrange(0, more@.len() as int) =~= more@); }
}

/// The ring position before `position`, cyclically.
pub open spec fn previous_position_spec(len: int, position: int) -> int {
    if position == 0 { len - 1 } else { position - 1 }
}

/// The ring position after `position`, cyclically.
pub open spec fn next_position_spec(len: int, position: int) -> int {
    if position + 1 == len { 0 } else { position + 1 }
}

/// The ring position before `position`, cyclically.
fn previous_position(len: usize, position: usize) -> (r: usize)
    requires
        position < len,
    ensures
        r < len,
        r == (if position == 0 { len - 1 } else { position - 1 }),
{
    if position == 0 { len - 1 } else { position - 1 }
}

/// The ring position after `position`, cyclically.
fn next_position(len: usize, position: usize) -> (r: usize)
    requires
        position < len,
    ensures
        r < len,
        r == (if position + 1 == len { 0 } else { position + 1 }),
{
    if position + 1 == len { 0 } else { position + 1 }
}

/// Removing one entry keeps the rest in range.
proof fn lemma_remove_in_bounds(before: Seq<usize>, position: int, point_count: int)
    requires
        0 <= position < before.len(),
        indices_in_bounds(before, point_count),
    ensures
        indices_in_bounds(before.remove(position), point_count),
{
    let out = before.remove(position);
    assert forall|i: int| 0 <= i < out.len() implies #[trigger] out[i] < point_count by {
        if i < position { assert(out[i] == before[i]); } else { assert(out[i] == before[i + 1]); }
    }
}

/// Remove duplicate neighbours and, while more than three vertices remain,
/// collinear vertices, until a full pass changes nothing; a final collinear
/// triangle empties the ring.
#[verifier::loop_isolation(false)]
fn filter_ring(vertices: &[Point2], ring: Vec<usize>, policy: PredicatePolicy) -> (r: Result<Vec<usize>, Error>)
    requires
        indices_in_bounds(ring@, vertices@.len() as int),
    ensures
        r matches Ok(out) ==> indices_in_bounds(out@, vertices@.len() as int) && out@.len() <= ring@.len(),
        r matches Ok(out) ==> drawn_from(out@, ring@),
        policy_decides(policy) && fractions_valid(vertices@) ==> r is Ok,
        policy_decides(policy) && fractions_valid(vertices@) && proper_triangle_ring(vertices@, ring@, policy) ==> (r matches Ok(out) && out@ == ring@),
{
    let n = vertices.len();
    let ghost original = ring@.len();
    let ghost input = ring@;
    let ghost proper = policy_decides(policy) && fractions_valid(vertices@) && proper_triangle_ring(vertices@, ring@, policy);
    let mut ring = ring;
    if ring.len() < 3 {
        return Ok(ring);
    }
    let mut changed = true;
    while changed && ring.len() >= 3
        invariant
            n == vertices@.len(),
            indices_in_bounds(ring@, n as int),
            drawn_from(ring@, input),
            ring@.len() <= original,
            proper ==> ring@ == input,
        decreases ring@.len() + if changed { 1int } else { 0int },
    {
        let ghost start = ring@.len();
        changed = false;
        let mut i: usize = 0;
        while i < ring.len()
            invariant
                n == vertices@.len(),
                indices_in_bounds(ring@, n as int),
                drawn_from(ring@, input),
                ring@.len() <= start,
                start <= original,
                changed ==> ring@.len() < start,
                !changed ==> ring@.len() == start,
                proper ==> ring@ == input && !changed,
            decreases ring@.len() - i,
        {
            let len = ring.len();
            let prev = ring[previous_position(len, i)];
            let curr = ring[i];
            let next = ring[next_position(len, i)];
            proof {
                if proper {
                    assert(previous_position_spec(3, i as int) == (if i == 0 { 2int } else { i - 1 }));
                }
            }
            let duplicate = same_point(vertices, curr, next) || same_point(vertices, prev, curr);
            let collinear = orient2(vertices, prev, curr, next, policy)? == Sign::Zero;
            if duplicate || (collinear && ring.len() > 3) {
                let ghost before = ring@;
                ring.remove(i);
                proof {
                    lemma_remove_in_bounds(before, i as int, n as int);
                    assert forall|k: int| 0 <= k < ring@.len() implies input.contains(#[trigger] ring@[k]) by {
                        if k < i { assert(ring@[k] == before[k]); } else { assert(ring@[k] == before[k + 1]); }
                    }
                }
                changed = true;
            } else {
                i = i + 1;
            }
        }
    }
    if ring.len() == 3 && orient2(vertices, ring[0], ring[1], ring[2], policy)? == Sign::Zero {
        ring.clear();
    }
    Ok(ring)
}

/// Whether the point lies in the closed axis-aligned bounding box of the
/// triangle.
pub open spec fn in_triangle_box(a: Point2, b: Point2, c: Point2, p: Point2) -> bool {
    &&& (!p.x.less_value(a.x) || !p.x.less_value(b.x) || !p.x.less_value(c.x))
    &&& (!a.x.less_value(p.x) || !b.x.less_value(p.x) || !c.x.less_value(p.x))
    &&& (!p.y.less_value(a.y) || !p.y.less_value(b.y) || !p.y.less_value(c.y))
    &&& (!a.y.less_value(p.y) || !b.y.less_value(p.y) || !c.y.less_value(p.y))
}

/// Decide whether the point lies in the closed bounding box of the
/// triangle: a rejection filter before exact containment.
fn point_in_triangle_bbox(a: &Point2, b: &Point2, c: &Point2, p: &Point2) -> (r: bool)
    ensures
        r == in_triangle_box(*a, *b, *c, *p),
{
    (!p.x.exact_lt(&a.x) || !p.x.exact_lt(&b.x) || !p.x.exact_lt(&c.x))
        && (!a.x.exact_lt(&p.x) || !b.x.exact_lt(&p.x) || !c.x.exact_lt(&p.x))
        && (!p.y.exact_lt(&a.y) || !p.y.exact_lt(&b.y) || !p.y.exact_lt(&c.y))
        && (!a.y.exact_lt(&p.y) || !b.y.exact_lt(&p.y) || !c.y.exact_lt(&p.y))
}

/// `m` is the midpoint of `a` and `b`: `m = (a + b) / 2` by cross
/// multiplication.
pub open spec fn is_midpoint(m: Real, a: Real, b: Real) -> bool {
    m.num() * (2 * a.den() * b.den()) == (a.num() * b.den() + b.num() * a.den()) * m.den()
}

/// The exact midpoint of two coordinates when its fraction fits the
/// coordinate type; `None` otherwise.
/// The fraction of the midpoint of two coordinates: the shared denominator
/// doubled when the denominators agree, else over twice their product.
pub open spec fn midpoint_fraction(a: Real, b: Real) -> (int, int) {
    if a.den() == b.den() {
        (a.num() + b.num(), 2 * a.den())
    } else {
        (a.num() * b.den() + b.num() * a.den(), 2 * (a.den() * b.den()))
    }
}

fn midpoint_coordinate(a: &Real, b: &Real) -> (r: Option<Real>)
    ensures
        r is Some <==> Real::fits(midpoint_fraction(*a, *b).0, midpoint_fraction(*a, *b).1) && midpoint_fraction(*a, *b).1 != 0,
        r matches Some(m) ==> m.num() == midpoint_fraction(*a, *b).0 && m.den() == midpoint_fraction(*a, *b).1,
        r matches Some(m) ==> is_midpoint(m, *a, *b),
{
    let an = a.numerator() as i128;
    let ad = a.denominator() as i128;
    let bn = b.numerator() as i128;
    let bd = b.denominator() as i128;
    if ad == bd {
        let sum = an + bn;
        let den = 2 * ad;
        if sum < -0x8000_0000_0000_0000i128 || sum > 0x7fff_ffff_ffff_ffffi128 || den > 0xffff_ffff_ffff_ffffi128 {
            return None;
        }
        let m = Real::fraction(sum as i64, den as u64)?;
        proof {
            assert(m.num() * (2 * a.den() * b.den()) == (a.num() * b.den() + b.num() * a.den()) * m.den()) by (nonlinear_arith)
                requires
                    m.num() == an + bn,
                    m.den() == 2 * ad,
                    a.num() == an,
                    b.num() == bn,
                    a.den() == ad,
                    b.den() == bd,
                    ad == bd;
        }
        Some(m)
    } else {
        proof {
            assert(-0x8000_0000_0000_0000 * 0xffff_ffff_ffff_ffff <= an * bd <= 0x7fff_ffff_ffff_ffff * 0xffff_ffff_ffff_ffff) by (nonlinear_arith)
                requires
                    -0x8000_0000_0000_0000 <= an <= 0x7fff_ffff_ffff_ffff,
                    0 <= bd <= 0xffff_ffff_ffff_ffff;
            assert(-0x8000_0000_0000_0000 * 0xffff_ffff_ffff_ffff <= bn * ad <= 0x7fff_ffff_ffff_ffff * 0xffff_ffff_ffff_ffff) by (nonlinear_arith)
                requires
                    -0x8000_0000_0000_0000 <= bn <= 0x7fff_ffff_ffff_ffff,
                    0 <= ad <= 0xffff_ffff_ffff_ffff;
        }
        let left = an * bd;
        let right = bn * ad;
        let sum = left.checked_add(right)?;
        let product = (a.denominator() as u128).checked_mul(b.denominator() as u128)?;
        let den = product.checked_mul(2)?;
        if sum < -0x8000_0000_0000_0000i128 || sum > 0x7fff_ffff_ffff_ffffi128 || den > 0xffff_ffff_ffff_ffffu128 {
            return None;
        }
        let m = Real::fraction(sum as i64, den as u64)?;
        proof {
            assert(m.num() * (2 * a.den() * b.den()) == (a.num() * b.den() + b.num() * a.den()) * m.den()) by (nonlinear_arith)
                requires
                    m.num() == an * bd + bn * ad,
                    m.den() == 2 * (ad * bd),
                    a.num() == an,
                    b.num() == bn,
                    a.den() == ad,
                    b.den() == bd;
        }
        Some(m)
    }
}

/// The exact midpoint of two points when its coordinates fit.
fn midpoint(a: &Point2, b: &Point2) -> (r: Option<Point2>)
    ensures
        r is Some <==> midpoint_fits(*a, *b),
        r matches Some(m) ==> is_midpoint(m.x, a.x, b.x) && is_midpoint(m.y, a.y, b.y),
        r matches Some(m) ==> m.x.num() == midpoint_fraction(a.x, b.x).0 && m.x.den() == midpoint_fraction(a.x, b.x).1
            && m.y.num() == midpoint_fraction(a.y, b.y).0 && m.y.den() == midpoint_fraction(a.y, b.y).1,
{
    let x = midpoint_coordinate(&a.x, &b.x)?;
    let y = midpoint_coordinate(&a.y, &b.y)?;
    Some(Point2::new(x, y))
}

/// Whether both midpoint coordinates of two points have fractions that fit.
pub open spec fn midpoint_fits(a: Point2, b: Point2) -> bool {
    &&& Real::fits(midpoint_fraction(a.x, b.x).0, midpoint_fraction(a.x, b.x).1) && midpoint_fraction(a.x, b.x).1 != 0
    &&& Real::fits(midpoint_fraction(a.y, b.y).0, midpoint_fraction(a.y, b.y).1) && midpoint_fraction(a.y, b.y).1 != 0
}

/// The coordinate fractions of the midpoint of two points.
pub open spec fn midpoint_fractions(a: Point2, b: Point2) -> ((int, int), (int, int)) {
    (midpoint_fraction(a.x, b.x), midpoint_fraction(a.y, b.y))
}

/// Every pair of the points has a midpoint whose fractions fit.
pub open spec fn all_midpoints_fit(vertices: Seq<Point2>) -> bool {
    forall|i: int, j: int| 0 <= i < vertices.len() && 0 <= j < vertices.len() ==> #[trigger] midpoint_fits(vertices[i], vertices[j])
}

/// Even-odd containment in the ring of the midpoint of the points at `a`
/// and `b`, or why it cannot be decided.
pub open spec fn midpoint_in_ring_result(vertices: Seq<Point2>, ring: Seq<usize>, a: int, b: int, policy: PredicatePolicy) -> Result<bool, Error> {
    if !midpoint_fits(vertices[a], vertices[b]) {
        Err(Error::UnsupportedFeature { feature: "exact midpoint beyond the coordinate range" })
    } else {
        match ring_contains_outcome(points_fractions(vertices), ring, midpoint_fractions(vertices[a], vertices[b]), policy) {
            Some(inside) => Ok(inside),
            None => Err(Error::PredicateUndecided { predicate: "point_in_indexed_ring_even_odd" }),
        }
    }
}

/// Whether the diagonal between ring positions `first_pos` and
/// `second_pos` splits the ring: distinct ends, clear of every ring edge,
/// and a midpoint inside the ring.
pub open spec fn diagonal_valid_result(vertices: Seq<Point2>, ring: Seq<usize>, first_pos: int, second_pos: int, policy: PredicatePolicy) -> Result<bool, Error> {
    let first = ring[first_pos] as int;
    let second = ring[second_pos] as int;
    if vertices[first].same_point(vertices[second]) {
        Ok(false)
    } else {
        match segment_clear_from(vertices, first, second, ring, 0, policy) {
            Err(e) => Err(e),
            Ok(clear) => if !clear { Ok(false) } else { midpoint_in_ring_result(vertices, ring, first, second, policy) },
        }
    }
}

/// A ring range inside a buffer of `point_count` vertices.
pub open spec fn range_in_bounds(range: RingRange, point_count: int) -> bool {
    range.start <= range.end <= point_count
}

/// Every ring range of the rings lies inside the buffer.
pub open spec fn rings_in_bounds(rings: PolygonRings, point_count: int) -> bool {
    &&& range_in_bounds(rings.exterior_view(), point_count)
    &&& forall|i: int| 0 <= i < rings.holes_view().len() ==> range_in_bounds(#[trigger] rings.holes_view()[i], point_count)
}

/// The open ring of a range, normalized by `filter_ring`.
fn normalized_ring(vertices: &[Point2], range: RingRange, policy: PredicatePolicy) -> (r: Result<Vec<usize>, Error>)
    requires
        range_in_bounds(range, vertices@.len() as int),
    ensures
        r matches Ok(ring) ==> indices_in_bounds(ring@, vertices@.len() as int),
        r matches Ok(ring) ==> ring@.len() <= range.end - range.start,
        policy_decides(policy) && fractions_valid(vertices@) ==> r is Ok,
        policy_decides(policy) && fractions_valid(vertices@) && range.start == 0 && range.end == 3
            && proper_triangle_ring(vertices@, seq![0usize, 1, 2], policy) ==> (r matches Ok(ring) && ring@ == seq![0usize, 1, 2]),
{
    let ring = open_ring_indices(vertices, range);
    proof {
        if range.start == 0 && range.end == 3 && proper_triangle_ring(vertices@, seq![0usize, 1, 2], policy) {
            assert(!vertices@[0].same_point(vertices@[2]));
            assert(ring@ =~= seq![0usize, 1, 2]);
        }
    }
    proof {
        assert forall|i: int| 0 <= i < ring@.len() implies #[trigger] ring@[i] < vertices@.len() by {
            assert(ring@[i] == range.start + i);
        }
    }
    filter_ring(vertices, ring, policy)
}

/// Reverse a ring in place.
fn reverse_ring(ring: &mut Vec<usize>)
    ensures
        final(ring)@.len() == old(ring)@.len(),
        forall|i: int| 0 <= i < old(ring)@.len() ==> #[trigger] final(ring)@[i] == old(ring)@[old(ring)@.len() - 1 - i],
{
    let ghost start = ring@;
    let len = ring.len();
    let mut i: usize = 0;
    while i < len / 2
        invariant
            len == start.len(),
            ring@.len() == len,
            i <= len / 2,
            forall|k: int| 0 <= k < i ==> #[trigger] ring@[k] == start[len - 1 - k],
            forall|k: int| len - i <= k < len ==> #[trigger] ring@[k] == start[len - 1 - k],
            forall|k: int| i <= k < len - i ==> #[trigger] ring@[k] == start[k],
        decreases len / 2 - i,
    {
        let j = len - 1 - i;
        let a = ring[i];
        let b = ring[j];
        ring.set(i, b);
        ring.set(j, a);
        i = i + 1;
    }
}

/// Every hole is an in-range ring of at least three vertices.
pub open spec fn holes_valid(holes: Seq<Vec<usize>>, point_count: int) -> bool {
    forall|h: int| 0 <= h < holes.len() ==> indices_in_bounds((#[trigger] holes[h])@, point_count) && holes[h]@.len() >= 3
}

/// Normalize every hole ring, rejecting degenerate ones, and orient each
/// against the exterior winding.
fn normalized_holes(vertices: &[Point2], ranges: &[RingRange], exterior_winding: Sign, policy: PredicatePolicy) -> (r: Result<Vec<Vec<usize>>, Error>)
    requires
        forall|i: int| 0 <= i < ranges@.len() ==> range_in_bounds(#[trigger] ranges@[i], vertices@.len() as int),
    ensures
        r matches Ok(holes) ==> holes_valid(holes@, vertices@.len() as int) && holes@.len() == ranges@.len(),
        r is Err && policy_decides(policy) && fractions_valid(vertices@) ==> r == Err::<Vec<Vec<usize>>, Error>(Error::InvalidInput { reason: "hole ring is degenerate" }),
        ranges@.len() == 0 ==> (r matches Ok(holes) && holes@.len() == 0),
{
    let n = vertices.len();
    let mut holes: Vec<Vec<usize>> = Vec::new();
    let mut k: usize = 0;
    while k < ranges.len()
        invariant
            n == vertices@.len(),
            forall|i: int| 0 <= i < ranges@.len() ==> range_in_bounds(#[trigger] ranges@[i], n as int),
            holes_valid(holes@, n as int),
            holes@.len() == k,
            k <= ranges@.len(),
        decreases ranges@.len() - k,
    {
        let range = ranges[k];
        let mut hole = normalized_ring(vertices, range, policy)?;
        if hole.len() < 3 {
            return Err(Error::InvalidInput { reason: "hole ring is degenerate" });
        }
        let hole_winding = ring_area_sign(vertices, hole.as_slice(), policy)?;
        if hole_winding == Sign::Zero {
            return Err(Error::InvalidInput { reason: "hole ring is degenerate" });
        }
        if hole_winding == exterior_winding {
            let ghost before = hole@;
            reverse_ring(&mut hole);
            proof {
                assert forall|i: int| 0 <= i < hole@.len() implies #[trigger] hole@[i] < n by {
                    assert(hole@[i] == before[before.len() - 1 - i]);
                }
            }
        }
        let ghost before = holes@;
        holes.push(hole);
        proof {
            assert forall|h: int| 0 <= h < holes@.len() implies indices_in_bounds((#[trigger] holes@[h])@, n as int) && holes@[h]@.len() >= 3 by {
                if h < before.len() { assert(holes@[h] == before[h]); }
            }
        }
        k = k + 1;
    }
    Ok(holes)
}

/// Corner indices of an axis-aligned rectangle ring.
#[derive(Clone, Copy, Debug, PartialEq, Eq, Structural)]
struct AxisAlignedRectangle {
    lower_left: usize,
    lower_right: usize,
    upper_right: usize,
    upper_left: usize,
}

/// The corners of a rectangle all drawn from the ring.
spec fn rectangle_in_ring(rect: AxisAlignedRectangle, ring: Seq<usize>) -> bool {
    ring.contains(rect.lower_left) && ring.contains(rect.lower_right) && ring.contains(rect.upper_right) && ring.contains(rect.upper_left)
}

/// Recognize a four-vertex ring whose vertices use exactly two distinct
/// x and two distinct y values, one vertex per corner.
fn axis_aligned_rectangle(vertices: &[Point2], ring: &[usize]) -> (r: Option<AxisAlignedRectangle>)
    requires
        indices_in_bounds(ring@, vertices@.len() as int),
    ensures
        r matches Some(rect) ==> rectangle_in_ring(rect, ring@),
{
    if ring.len() != 4 {
        return None;
    }
    let first = vertices[ring[0]];
    let mut other_x_index: Option<usize> = None;
    let mut other_y_index: Option<usize> = None;
    let mut k: usize = 0;
    while k < 4
        invariant
            ring@.len() == 4,
            indices_in_bounds(ring@, vertices@.len() as int),
            other_x_index matches Some(i) ==> i < vertices@.len(),
            other_y_index matches Some(i) ==> i < vertices@.len(),
        decreases 4 - k,
    {
        let index = ring[k];
        if other_x_index.is_none() && !vertices[index].x.exact_eq(&first.x) {
            other_x_index = Some(index);
        }
        if other_y_index.is_none() && !vertices[index].y.exact_eq(&first.y) {
            other_y_index = Some(index);
        }
        k = k + 1;
    }
    let other_x = match other_x_index {
        Some(i) => vertices[i].x,
        None => return None,
    };
    let other_y = match other_y_index {
        Some(i) => vertices[i].y,
        None => return None,
    };
    let x_less = first.x.exact_lt(&other_x);
    let y_less = first.y.exact_lt(&other_y);
    if (!x_less && !other_x.exact_lt(&first.x)) || (!y_less && !other_y.exact_lt(&first.y)) {
        return None;
    }
    let mut corners: [Option<usize>; 4] = [None, None, None, None];
    let mut k: usize = 0;
    while k < 4
        invariant
            ring@.len() == 4,
            indices_in_bounds(ring@, vertices@.len() as int),
            forall|c: int| 0 <= c < 4 ==> (#[trigger] corners[c] matches Some(i) ==> ring@.contains(i)),
        decreases 4 - k,
    {
        let index = ring[k];
        proof { assert(ring@.contains(index)); }
        let point = vertices[index];
        let x_low = if point.x.exact_eq(&first.x) {
            x_less
        } else if point.x.exact_eq(&other_x) {
            !x_less
        } else {
            return None;
        };
        let y_low = if point.y.exact_eq(&first.y) {
            y_less
        } else if point.y.exact_eq(&other_y) {
            !y_less
        } else {
            return None;
        };
        let corner: usize = if x_low && y_low { 0 } else if !x_low && y_low { 1 } else if !x_low && !y_low { 2 } else { 3 };
        if corners[corner].is_some() {
            return None;
        }
        corners[corner] = Some(index);
        k = k + 1;
    }
    proof {
        assert(corners[0] matches Some(i) ==> ring@.contains(i));
        assert(corners[1] matches Some(i) ==> ring@.contains(i));
        assert(corners[2] matches Some(i) ==> ring@.contains(i));
        assert(corners[3] matches Some(i) ==> ring@.contains(i));
    }
    match (corners[0], corners[1], corners[2], corners[3]) {
        (Some(lower_left), Some(lower_right), Some(upper_right), Some(upper_left)) => {
            Some(AxisAlignedRectangle { lower_left, lower_right, upper_right, upper_left })
        },
        _ => None,
    }
}

/// Triangulate the annulus between an axis-aligned exterior rectangle and an
/// axis-aligned hole rectangle strictly inside it with eight triangles, two
/// per side; `None` when the rings are not such rectangles.
fn triangulate_rectangular_annulus(vertices: &[Point2], exterior: &[usize], hole: &[usize], winding: Sign) -> (r: Option<Vec<usize>>)
    requires
        indices_in_bounds(exterior@, vertices@.len() as int),
        indices_in_bounds(hole@, vertices@.len() as int),
    ensures
        r matches Some(t) ==> flat_triangles_valid(t@, vertices@.len() as int),
{
    let n = vertices.len();
    let outer = axis_aligned_rectangle(vertices, exterior)?;
    let inner = axis_aligned_rectangle(vertices, hole)?;
    proof {
        assert(outer.lower_left < n && outer.lower_right < n && outer.upper_right < n && outer.upper_left < n) by {
            let a = choose|i: int| 0 <= i < exterior@.len() && exterior@[i] == outer.lower_left;
            let b = choose|i: int| 0 <= i < exterior@.len() && exterior@[i] == outer.lower_right;
            let c = choose|i: int| 0 <= i < exterior@.len() && exterior@[i] == outer.upper_right;
            let d = choose|i: int| 0 <= i < exterior@.len() && exterior@[i] == outer.upper_left;
            assert(exterior@[a] < n && exterior@[b] < n && exterior@[c] < n && exterior@[d] < n);
        }
        assert(inner.lower_left < n && inner.lower_right < n && inner.upper_right < n && inner.upper_left < n) by {
            let a = choose|i: int| 0 <= i < hole@.len() && hole@[i] == inner.lower_left;
            let b = choose|i: int| 0 <= i < hole@.len() && hole@[i] == inner.lower_right;
            let c = choose|i: int| 0 <= i < hole@.len() && hole@[i] == inner.upper_right;
            let d = choose|i: int| 0 <= i < hole@.len() && hole@[i] == inner.upper_left;
            assert(hole@[a] < n && hole@[b] < n && hole@[c] < n && hole@[d] < n);
        }
    }
    let strictly_contains = vertices[outer.lower_left].x.exact_lt(&vertices[inner.lower_left].x)
        && vertices[outer.lower_left].y.exact_lt(&vertices[inner.lower_left].y)
        && vertices[inner.upper_right].x.exact_lt(&vertices[outer.upper_right].x)
        && vertices[inner.upper_right].y.exact_lt(&vertices[outer.upper_right].y);
    if !strictly_contains {
        return None;
    }
    let corners: [[usize; 3]; 8] = [
        [outer.lower_left, outer.lower_right, inner.lower_right],
        [outer.lower_left, inner.lower_right, inner.lower_left],
        [outer.lower_right, outer.upper_right, inner.upper_right],
        [outer.lower_right, inner.upper_right, inner.lower_right],
        [outer.upper_right, outer.upper_left, inner.upper_left],
        [outer.upper_right, inner.upper_left, inner.upper_right],
        [outer.upper_left, outer.lower_left, inner.lower_left],
        [outer.upper_left, inner.lower_left, inner.upper_left],
    ];
    let mut triangles: Vec<usize> = Vec::new();
    let mut k: usize = 0;
    while k < 8
        invariant
            flat_triangles_valid(triangles@, n as int),
            forall|t: int, i: int| 0 <= t < 8 && 0 <= i < 3 ==> #[trigger] corners[t][i] < n,
        decreases 8 - k,
    {
        let corner = corners[k];
        let a = corner[0];
        let b = corner[1];
        let c = corner[2];
        proof { assert(corners[k as int][0] < n && corners[k as int][1] < n && corners[k as int][2] < n); }
        let ghost before = triangles@;
        push_triangle(&mut triangles, a, b, c, winding);
        proof {
            lemma_push_triangle_valid(before, triangles@.subrange(before.len() as int, triangles@.len() as int), n as int);
            assert(triangles@ =~= before + triangles@.subrange(before.len() as int, triangles@.len() as int));
        }
        k = k + 1;
    }
    Some(triangles)
}

/// Every entry is a position of a ring of length `len`.
pub open spec fn positions_in_range(positions: Seq<usize>, len: int) -> bool {
    forall|i: int| 0 <= i < positions.len() ==> #[trigger] positions[i] < len
}

/// Every position below `len` is listed.
pub open spec fn positions_cover(positions: Seq<usize>, len: int) -> bool {
    forall|p: int| 0 <= p < len ==> #[trigger] positions.contains(p as usize)
}

proof fn lemma_insert_keeps_cover(before: Seq<usize>, at: int, position: usize)
    requires
        0 <= at <= before.len(),
        positions_cover(before, position as int),
    ensures
        positions_cover(before.insert(at, position), position + 1),
{
    let after = before.insert(at, position);
    assert forall|p: int| 0 <= p < position + 1 implies #[trigger] after.contains(p as usize) by {
        if p == position {
            assert(after[at] == position);
        } else {
            assert(before.contains(p as usize));
            let i = choose|i: int| 0 <= i < before.len() && before[i] == p as usize;
            if i < at { assert(after[i] == before[i]); } else { assert(after[i + 1] == before[i]); }
        }
    }
}

/// Insert `position` before the first listed position it orders strictly
/// before.
fn insert_position(positions: &mut Vec<usize>, position: usize, at: usize)
    requires
        at <= old(positions)@.len(),
    ensures
        final(positions)@ == old(positions)@.insert(at as int, position),
{
    positions.insert(at, position);
}

/// The ring's positions ordered by their points, `x` then `y`, earlier
/// positions first among equal points.
fn positions_by_xy(vertices: &[Point2], ring: &[usize]) -> (r: Vec<usize>)
    requires
        indices_in_bounds(ring@, vertices@.len() as int),
    ensures
        r@.len() == ring@.len(),
        positions_in_range(r@, ring@.len() as int),
        positions_cover(r@, ring@.len() as int),
{
    let mut positions: Vec<usize> = Vec::new();
    let mut position: usize = 0;
    while position < ring.len()
        invariant
            indices_in_bounds(ring@, vertices@.len() as int),
            positions@.len() == position,
            position <= ring@.len(),
            positions_in_range(positions@, position as int),
            positions_cover(positions@, position as int),
        decreases ring@.len() - position,
    {
        let mut insert_at = positions.len();
        let mut k: usize = 0;
        while k < positions.len()
            invariant
                insert_at <= positions@.len(),
                position < ring@.len(),
                positions_in_range(positions@, position as int),
                positions_cover(positions@, position as int),
                indices_in_bounds(ring@, vertices@.len() as int),
            decreases positions@.len() - k,
        {
            let candidate = positions[k];
            if vertices[ring[position]].exact_lex_lt(&vertices[ring[candidate]]) {
                insert_at = k;
                break;
            }
            k = k + 1;
        }
        let ghost before = positions@;
        insert_position(&mut positions, position, insert_at);
        proof {
            assert forall|i: int| 0 <= i < positions@.len() implies #[trigger] positions@[i] < position + 1 by {
                if i < insert_at { assert(positions@[i] == before[i]); } else if i > insert_at { assert(positions@[i] == before[i - 1]); }
            }
            lemma_insert_keeps_cover(before, insert_at as int, position);
        }
        position = position + 1;
    }
    positions
}

/// Whether the ring position `left` orders before `right` by distance from
/// the point at `from`, then by `x` and `y`.
fn closer_then_xy(vertices: &[Point2], from: usize, ring: &[usize], left: usize, right: usize, policy: PredicatePolicy) -> (r: Result<bool, Error>)
    requires
        indices_in_bounds(ring@, vertices@.len() as int),
        from < vertices@.len(),
        left < ring@.len(),
        right < ring@.len(),
    ensures
        r == match distance_order_result(vertices@, from as int, ring@[left as int] as int, ring@[right as int] as int, policy) {
            Err(e) => Err(e),
            Ok(s) => Ok(s == Sign::Negative || (s == Sign::Zero && vertices@[ring@[left as int] as int].lex_before(vertices@[ring@[right as int] as int]))),
        },
{
    match distance_order(vertices, from, ring[left], ring[right], policy)? {
        Sign::Negative => Ok(true),
        Sign::Zero => Ok(vertices[ring[left]].exact_lex_lt(&vertices[ring[right]])),
        Sign::Positive => Ok(false),
    }
}

/// The ring's positions ordered by distance from the point at `from`, then
/// by `x` and `y`.
fn positions_by_distance_then_xy(vertices: &[Point2], ring: &[usize], from: usize, policy: PredicatePolicy) -> (r: Result<Vec<usize>, Error>)
    requires
        indices_in_bounds(ring@, vertices@.len() as int),
        from < vertices@.len(),
    ensures
        r matches Ok(positions) ==> positions@.len() == ring@.len() && positions_in_range(positions@, ring@.len() as int) && positions_cover(positions@, ring@.len() as int),
        policy_decides(policy) && fractions_valid(vertices@) ==> r is Ok,
{
    let mut positions: Vec<usize> = Vec::new();
    let mut position: usize = 0;
    while position < ring.len()
        invariant
            indices_in_bounds(ring@, vertices@.len() as int),
            from < vertices@.len(),
            position <= ring@.len(),
            positions_in_range(positions@, position as int),
            positions_cover(positions@, position as int),
            positions@.len() == position,
        decreases ring@.len() - position,
    {
        let mut insert_at = positions.len();
        let mut k: usize = 0;
        while k < positions.len()
            invariant
                insert_at <= positions@.len(),
                position < ring@.len(),
                positions_in_range(positions@, position as int),
                positions_cover(positions@, position as int),
                indices_in_bounds(ring@, vertices@.len() as int),
                from < vertices@.len(),
            decreases positions@.len() - k,
        {
            let candidate = positions[k];
            if closer_then_xy(vertices, from, ring, position, candidate, policy)? {
                insert_at = k;
                break;
            }
            k = k + 1;
        }
        let ghost before = positions@;
        insert_position(&mut positions, position, insert_at);
        proof {
            assert forall|i: int| 0 <= i < positions@.len() implies #[trigger] positions@[i] < position + 1 by {
                if i < insert_at { assert(positions@[i] == before[i]); } else if i > insert_at { assert(positions@[i] == before[i - 1]); }
            }
            lemma_insert_keeps_cover(before, insert_at as int, position);
        }
        position = position + 1;
    }
    Ok(positions)
}

/// Whether ring edge `i` blocks the segment `from`-`to`: a proper
/// meeting, or a touch away from the segment's endpoints; a collapsed edge
/// never blocks.
pub open spec fn ring_edge_blocks(vertices: Seq<Point2>, from: int, to: int, ring: Seq<usize>, i: int, policy: PredicatePolicy) -> Result<bool, Error> {
    let ef = ring[i] as int;
    let et = ring[next_position_spec(ring.len() as int, i)] as int;
    if vertices[ef].same_point(vertices[et]) {
        Ok(false)
    } else {
        match segment_intersection_result(vertices, from, to, ef, et, policy) {
            Err(e) => Err(e),
            Ok(k) => Ok(k != SegmentIntersection::Disjoint && !(k == SegmentIntersection::EndpointTouch && (vertices[ef].same_point(vertices[from])
                || vertices[et].same_point(vertices[from]) || vertices[ef].same_point(vertices[to]) || vertices[et].same_point(vertices[to])))),
        }
    }
}

/// The scan of the ring edges from `i` on: the first error, `false` at the
/// first blocking edge, else `true`.
pub open spec fn segment_clear_from(vertices: Seq<Point2>, from: int, to: int, ring: Seq<usize>, i: int, policy: PredicatePolicy) -> Result<bool, Error>
    decreases ring.len() - i,
{
    if i < 0 || i >= ring.len() {
        Ok(true)
    } else {
        match ring_edge_blocks(vertices, from, to, ring, i, policy) {
            Err(e) => Err(e),
            Ok(b) => if b { Ok(false) } else { segment_clear_from(vertices, from, to, ring, i + 1, policy) },
        }
    }
}

/// Whether the segment between the points at `from` and `to` meets no edge
/// of the ring except by touching at one of its own endpoints; collapsed
/// ring edges are ignored.
fn segment_is_clear_of_ring(vertices: &[Point2], from: usize, to: usize, ring: &[usize], policy: PredicatePolicy) -> (r: Result<bool, Error>)
    requires
        indices_in_bounds(ring@, vertices@.len() as int),
        from < vertices@.len(),
        to < vertices@.len(),
    ensures
        r == segment_clear_from(vertices@, from as int, to as int, ring@, 0, policy),
        policy_decides(policy) && fractions_valid(vertices@) ==> r is Ok,
{
    proof {
        if policy_decides(policy) && fractions_valid(vertices@) {
            lemma_segment_clear_decided(vertices@, from as int, to as int, ring@, 0, policy);
        }
    }
    let len = ring.len();
    let mut i: usize = 0;
    while i < len
        invariant
            len == ring@.len(),
            0 <= i <= len,
            indices_in_bounds(ring@, vertices@.len() as int),
            from < vertices@.len(),
            to < vertices@.len(),
            segment_clear_from(vertices@, from as int, to as int, ring@, 0, policy) == segment_clear_from(vertices@, from as int, to as int, ring@, i as int, policy),
        decreases len - i,
    {
        let edge_from = ring[i];
        let edge_to = ring[next_position(len, i)];
        if !same_point(vertices, edge_from, edge_to) {
            let intersection = segment_intersection(vertices, from, to, edge_from, edge_to, policy)?;
            if intersection != SegmentIntersection::Disjoint {
                let allowed = intersection == SegmentIntersection::EndpointTouch && (same_point(vertices, edge_from, from)
                    || same_point(vertices, edge_to, from) || same_point(vertices, edge_from, to) || same_point(vertices, edge_to, to));
                if !allowed {
                    return Ok(false);
                }
            }
        }
        i = i + 1;
    }
    Ok(true)
}

/// The midpoint of the points at `a` and `b`, or the error when its exact
/// coordinates do not fit the coordinate type.
fn midpoint_of(vertices: &[Point2], a: usize, b: usize) -> (r: Result<Point2, Error>)
    requires
        a < vertices@.len(),
        b < vertices@.len(),
    ensures
        r is Ok <==> midpoint_fits(vertices@[a as int], vertices@[b as int]),
        r matches Ok(m) ==> point_fractions(m) == midpoint_fractions(vertices@[a as int], vertices@[b as int]),
        r is Err ==> r == Err::<Point2, Error>(Error::UnsupportedFeature { feature: "exact midpoint beyond the coordinate range" }),
        r matches Ok(m) ==> is_midpoint(m.x, vertices@[a as int].x, vertices@[b as int].x) && is_midpoint(m.y, vertices@[a as int].y, vertices@[b as int].y),
{
    match midpoint(&vertices[a], &vertices[b]) {
        Some(m) => Ok(m),
        None => Err(Error::UnsupportedFeature { feature: "exact midpoint beyond the coordinate range" }),
    }
}

/// Whether the midpoint of the points at `a` and `b` (whose fractions fit)
/// lies in one of the holes from `h` on; the first error otherwise.
pub open spec fn midpoint_in_holes_from(vertices: Seq<Point2>, holes: Seq<Vec<usize>>, a: int, b: int, h: int, policy: PredicatePolicy) -> Result<bool, Error>
    decreases holes.len() - h,
{
    if h < 0 || h >= holes.len() {
        Ok(false)
    } else {
        match ring_contains_outcome(points_fractions(vertices), holes[h]@, midpoint_fractions(vertices[a], vertices[b]), policy) {
            None => Err(Error::PredicateUndecided { predicate: "point_in_indexed_ring_even_odd" }),
            Some(inside) => if inside { Ok(true) } else { midpoint_in_holes_from(vertices, holes, a, b, h + 1, policy) },
        }
    }
}

/// Whether the segment between the points at `a` and `b` is clear of every
/// hole from `h` on; the first error otherwise.
pub open spec fn clear_of_holes_from(vertices: Seq<Point2>, holes: Seq<Vec<usize>>, a: int, b: int, h: int, policy: PredicatePolicy) -> Result<bool, Error>
    decreases holes.len() - h,
{
    if h < 0 || h >= holes.len() {
        Ok(true)
    } else {
        match segment_clear_from(vertices, a, b, holes[h]@, 0, policy) {
            Err(e) => Err(e),
            Ok(clear) => if !clear { Ok(false) } else { clear_of_holes_from(vertices, holes, a, b, h + 1, policy) },
        }
    }
}

/// Whether the bridge between the points at `a` (on the boundary) and `b`
/// (on a hole) is visible, or the first error met deciding it.
pub open spec fn bridge_visible_result(vertices: Seq<Point2>, boundary: Seq<usize>, holes: Seq<Vec<usize>>, a: int, b: int, policy: PredicatePolicy) -> Result<bool, Error> {
    if vertices[a].same_point(vertices[b]) {
        Ok(false)
    } else {
        match midpoint_in_ring_result(vertices, boundary, a, b, policy) {
            Err(e) => Err(e),
            Ok(inside) => if !inside {
                Ok(false)
            } else {
                match midpoint_in_holes_from(vertices, holes, a, b, 0, policy) {
                    Err(e) => Err(e),
                    Ok(in_hole) => if in_hole {
                        Ok(false)
                    } else {
                        match segment_clear_from(vertices, a, b, boundary, 0, policy) {
                            Err(e) => Err(e),
                            Ok(clear) => if !clear { Ok(false) } else { clear_of_holes_from(vertices, holes, a, b, 0, policy) },
                        }
                    },
                }
            },
        }
    }
}

proof fn lemma_holes_decided(vertices: Seq<Point2>, holes: Seq<Vec<usize>>, a: int, b: int, h: int, policy: PredicatePolicy)
    requires
        0 <= a < vertices.len(),
        0 <= b < vertices.len(),
        midpoint_fits(vertices[a], vertices[b]),
        forall|k: int| 0 <= k < holes.len() ==> indices_in_bounds(#[trigger] holes[k]@, vertices.len() as int),
        policy_decides(policy) && fractions_valid(vertices),
    ensures
        midpoint_in_holes_from(vertices, holes, a, b, h, policy) is Ok,
        clear_of_holes_from(vertices, holes, a, b, h, policy) is Ok,
    decreases holes.len() - h,
{
    if 0 <= h < holes.len() {
        assert(indices_in_bounds(holes[h]@, vertices.len() as int));
        lemma_points_fractions_valid(vertices);
        lemma_segment_clear_decided(vertices, a, b, holes[h]@, 0, policy);
        lemma_holes_decided(vertices, holes, a, b, h + 1, policy);
    }
}

/// Whether the bridge from boundary position `boundary_pos` to hole
/// position `hole_pos` is a visible diagonal: distinct endpoints, a midpoint
/// inside the boundary and outside every hole, and no edge of the boundary or
/// of any hole met except at the bridge's own endpoints.
#[verifier::loop_isolation(false)]
fn bridge_is_visible(
    vertices: &[Point2],
    boundary: &[usize],
    hole: &[usize],
    holes: &Vec<Vec<usize>>,
    boundary_pos: usize,
    hole_pos: usize,
    policy: PredicatePolicy,
) -> (r: Result<bool, Error>)
    requires
        indices_in_bounds(boundary@, vertices@.len() as int),
        indices_in_bounds(hole@, vertices@.len() as int),
        holes_valid(holes@, vertices@.len() as int),
        boundary_pos < boundary@.len(),
        hole_pos < hole@.len(),
    ensures
        r == bridge_visible_result(vertices@, boundary@, holes@, boundary@[boundary_pos as int] as int, hole@[hole_pos as int] as int, policy),
        policy_decides(policy) && fractions_valid(vertices@) && all_midpoints_fit(vertices@) ==> r is Ok,
{
    let boundary_index = boundary[boundary_pos];
    let hole_index = hole[hole_pos];
    proof {
        if policy_decides(policy) && fractions_valid(vertices@) && all_midpoints_fit(vertices@) {
            assert(midpoint_fits(vertices@[boundary_index as int], vertices@[hole_index as int]));
            lemma_holes_decided(vertices@, holes@, boundary_index as int, hole_index as int, 0, policy);
            lemma_segment_clear_decided(vertices@, boundary_index as int, hole_index as int, boundary@, 0, policy);
        }
    }
    if same_point(vertices, boundary_index, hole_index) {
        return Ok(false);
    }
    let middle = midpoint_of(vertices, boundary_index, hole_index)?;
    if !point_in_ring_even_odd(vertices, boundary, &middle, policy)? {
        return Ok(false);
    }
    let mut h: usize = 0;
    while h < holes.len()
        invariant
            holes_valid(holes@, vertices@.len() as int),
            0 <= h <= holes@.len(),
            point_fractions(middle) == midpoint_fractions(vertices@[boundary_index as int], vertices@[hole_index as int]),
            midpoint_in_holes_from(vertices@, holes@, boundary_index as int, hole_index as int, 0, policy)
                == midpoint_in_holes_from(vertices@, holes@, boundary_index as int, hole_index as int, h as int, policy),
        decreases holes@.len() - h,
    {
        if point_in_ring_even_odd(vertices, holes[h].as_slice(), &middle, policy)? {
            return Ok(false);
        }
        h = h + 1;
    }
    if !segment_is_clear_of_ring(vertices, boundary_index, hole_index, boundary, policy)? {
        return Ok(false);
    }
    let mut h: usize = 0;
    while h < holes.len()
        invariant
            holes_valid(holes@, vertices@.len() as int),
            boundary_index < vertices@.len(),
            hole_index < vertices@.len(),
            0 <= h <= holes@.len(),
            clear_of_holes_from(vertices@, holes@, boundary_index as int, hole_index as int, 0, policy)
                == clear_of_holes_from(vertices@, holes@, boundary_index as int, hole_index as int, h as int, policy),
        decreases holes@.len() - h,
    {
        proof { assert(indices_in_bounds(holes@[h as int]@, vertices@.len() as int)); }
        if !segment_is_clear_of_ring(vertices, boundary_index, hole_index, holes[h].as_slice(), policy)? {
            return Ok(false);
        }
        h = h + 1;
    }
    Ok(true)
}

/// A boundary position and a hole position joined by a bridge.
#[derive(Clone, Copy, Debug, PartialEq, Eq, Structural)]
struct Bridge {
    boundary_pos: usize,
    hole_pos: usize,
}

/// The first visible bridge: hole vertices by `x` and `y`, each tried
/// against the boundary vertices nearest first.
fn find_visible_bridge(vertices: &[Point2], boundary: &[usize], hole: &[usize], holes: &Vec<Vec<usize>>, policy: PredicatePolicy) -> (r: Result<Bridge, Error>)
    requires
        indices_in_bounds(boundary@, vertices@.len() as int),
        indices_in_bounds(hole@, vertices@.len() as int),
        holes_valid(holes@, vertices@.len() as int),
    ensures
        r matches Ok(bridge) ==> bridge.boundary_pos < boundary@.len() && bridge.hole_pos < hole@.len()
            && bridge_visible_result(vertices@, boundary@, holes@, boundary@[bridge.boundary_pos as int] as int, hole@[bridge.hole_pos as int] as int, policy) == Ok::<bool, Error>(true),
        r is Err && policy_decides(policy) && fractions_valid(vertices@) && all_midpoints_fit(vertices@) ==> r == Err::<Bridge, Error>(Error::InvalidInput { reason: "hole cannot be connected by a visible bridge" }) &&
            forall|b: int, h: int| 0 <= b < boundary@.len() && 0 <= h < hole@.len() ==>
                #[trigger] bridge_visible_result(vertices@, boundary@, holes@, boundary@[b] as int, hole@[h] as int, policy) != Ok::<bool, Error>(true),
        policy_decides(policy) && fractions_valid(vertices@) && all_midpoints_fit(vertices@) && (exists|b: int, h: int| 0 <= b < boundary@.len() && 0 <= h < hole@.len()
            && #[trigger] bridge_visible_result(vertices@, boundary@, holes@, boundary@[b] as int, hole@[h] as int, policy) == Ok::<bool, Error>(true)) ==> r is Ok,
{
    let hole_positions = positions_by_xy(vertices, hole);
    let mut k: usize = 0;
    while k < hole_positions.len()
        invariant
            indices_in_bounds(boundary@, vertices@.len() as int),
            indices_in_bounds(hole@, vertices@.len() as int),
            holes_valid(holes@, vertices@.len() as int),
            positions_in_range(hole_positions@, hole@.len() as int),
            positions_cover(hole_positions@, hole@.len() as int),
            hole_positions@.len() == hole@.len(),
            0 <= k <= hole_positions@.len(),
            forall|kk: int, b: int| 0 <= kk < k && 0 <= b < boundary@.len() ==>
                #[trigger] bridge_visible_result(vertices@, boundary@, holes@, boundary@[b] as int, hole@[hole_positions@[kk] as int] as int, policy) != Ok::<bool, Error>(true),
        decreases hole_positions@.len() - k,
    {
        let hole_pos = hole_positions[k];
        let boundary_positions = positions_by_distance_then_xy(vertices, boundary, hole[hole_pos], policy)?;
        let mut j: usize = 0;
        while j < boundary_positions.len()
            invariant
                indices_in_bounds(boundary@, vertices@.len() as int),
                indices_in_bounds(hole@, vertices@.len() as int),
                holes_valid(holes@, vertices@.len() as int),
                positions_in_range(boundary_positions@, boundary@.len() as int),
                positions_cover(boundary_positions@, boundary@.len() as int),
                boundary_positions@.len() == boundary@.len(),
                hole_pos < hole@.len(),
                hole_pos == hole_positions@[k as int],
                0 <= j <= boundary_positions@.len(),
                forall|jj: int| 0 <= jj < j ==>
                    bridge_visible_result(vertices@, boundary@, holes@, boundary@[#[trigger] boundary_positions@[jj] as int] as int, hole@[hole_pos as int] as int, policy) != Ok::<bool, Error>(true),
            decreases boundary_positions@.len() - j,
        {
            let boundary_pos = boundary_positions[j];
            if bridge_is_visible(vertices, boundary, hole, holes, boundary_pos, hole_pos, policy)? {
                return Ok(Bridge { boundary_pos, hole_pos });
            }
            j = j + 1;
        }
        proof {
            assert forall|b: int| 0 <= b < boundary@.len() implies
                #[trigger] bridge_visible_result(vertices@, boundary@, holes@, boundary@[b] as int, hole@[hole_positions@[k as int] as int] as int, policy) != Ok::<bool, Error>(true) by {
                assert(boundary_positions@.contains(b as usize));
                let jj = choose|jj: int| 0 <= jj < boundary_positions@.len() && boundary_positions@[jj] == b as usize;
                assert(bridge_visible_result(vertices@, boundary@, holes@, boundary@[boundary_positions@[jj] as int] as int, hole@[hole_pos as int] as int, policy) != Ok::<bool, Error>(true));
            }
        }
        k = k + 1;
    }
    proof {
        assert forall|b: int, h: int| 0 <= b < boundary@.len() && 0 <= h < hole@.len() implies
            #[trigger] bridge_visible_result(vertices@, boundary@, holes@, boundary@[b] as int, hole@[h] as int, policy) != Ok::<bool, Error>(true) by {
            assert(hole_positions@.contains(h as usize));
            let kk = choose|kk: int| 0 <= kk < hole_positions@.len() && hole_positions@[kk] == h as usize;
            assert(bridge_visible_result(vertices@, boundary@, holes@, boundary@[b] as int, hole@[hole_positions@[kk] as int] as int, policy) != Ok::<bool, Error>(true));
        }
    }
    Err(Error::InvalidInput { reason: "hole cannot be connected by a visible bridge" })
}

/// The boundary walk through the bridge: the boundary up to the bridge
/// vertex, the whole hole from its bridge vertex and back to it, the bridge
/// vertex again, then the rest of the boundary.
/// The hole's vertices cyclically from position `start`.
pub open spec fn hole_rotation(hole: Seq<usize>, start: int) -> Seq<usize> {
    Seq::new(hole.len(), |k: int| if start + k < hole.len() { hole[start + k] } else { hole[start + k - hole.len()] })
}

/// The boundary with the hole spliced in along the bridge: the boundary up
/// to the bridge vertex, the whole hole from its bridge vertex round to it
/// again, the bridge vertex of the boundary again, then the rest of the
/// boundary.
pub open spec fn spliced(boundary: Seq<usize>, hole: Seq<usize>, boundary_pos: int, hole_pos: int) -> Seq<usize> {
    boundary.subrange(0, boundary_pos + 1) + hole_rotation(hole, hole_pos) + seq![hole[hole_pos], boundary[boundary_pos]]
        + boundary.subrange(boundary_pos + 1, boundary.len() as int)
}

fn splice_hole(boundary: &Vec<usize>, hole: &[usize], boundary_pos: usize, hole_pos: usize) -> (r: Vec<usize>)
    requires
        boundary_pos < boundary@.len(),
        hole_pos < hole@.len(),
    ensures
        r@ == spliced(boundary@, hole@, boundary_pos as int, hole_pos as int),
        forall|i: int| 0 <= i < r@.len() ==> boundary@.contains(#[trigger] r@[i]) || hole@.contains(r@[i]),
{
    let boundary_index = boundary[boundary_pos];
    let hole_index = hole[hole_pos];
    let mut merged: Vec<usize> = Vec::new();
    let blen = boundary.len();
    let mut i: usize = 0;
    while i <= boundary_pos
        invariant
            blen == boundary@.len(),
            boundary_pos < blen,
            i <= boundary_pos + 1,
            merged@ == boundary@.subrange(0, i as int),
            forall|k: int| 0 <= k < merged@.len() ==> boundary@.contains(#[trigger] merged@[k]) || hole@.contains(merged@[k]),
        decreases boundary_pos + 1 - i,
    {
        proof { assert(boundary@.contains(boundary@[i as int])); }
        merged.push(boundary[i]);
        proof { assert(merged@ =~= boundary@.subrange(0, i + 1)); }
        i = i + 1;
    }
    let ghost head = merged@;
    let len = hole.len();
    let mut offset: usize = 0;
    let mut position = hole_pos;
    while offset < len
        invariant
            len == hole@.len(),
            position < len,
            hole_pos < len,
            offset <= len,
            position == (if hole_pos + offset < len { hole_pos + offset } else { hole_pos + offset - len }),
            merged@ == head + hole_rotation(hole@, hole_pos as int).subrange(0, offset as int),
            forall|k: int| 0 <= k < merged@.len() ==> boundary@.contains(#[trigger] merged@[k]) || hole@.contains(merged@[k]),
        decreases len - offset,
    {
        proof { assert(hole@.contains(hole@[position as int])); }
        merged.push(hole[position]);
        proof {
            assert(hole_rotation(hole@, hole_pos as int)[offset as int] == hole@[position as int]);
            assert(merged@ =~= head + hole_rotation(hole@, hole_pos as int).subrange(0, offset + 1));
        }
        position = next_position(len, position);
        offset = offset + 1;
    }
    proof {
        assert(hole@.contains(hole_index));
        assert(boundary@.contains(boundary_index));
    }
    proof { assert(hole_rotation(hole@, hole_pos as int).subrange(0, len as int) =~= hole_rotation(hole@, hole_pos as int)); }
    merged.push(hole_index);
    merged.push(boundary_index);
    let ghost middle = merged@;
    proof { assert(middle =~= head + hole_rotation(hole@, hole_pos as int) + seq![hole@[hole_pos as int], boundary@[boundary_pos as int]]); }
    let mut i: usize = boundary_pos + 1;
    while i < boundary.len()
        invariant
            boundary_pos + 1 <= i <= boundary@.len(),
            merged@ == middle + boundary@.subrange(boundary_pos + 1, i as int),
            forall|k: int| 0 <= k < merged@.len() ==> boundary@.contains(#[trigger] merged@[k]) || hole@.contains(merged@[k]),
        decreases boundary@.len() - i,
    {
        proof { assert(boundary@.contains(boundary@[i as int])); }
        merged.push(boundary[i]);
        proof { assert(merged@ =~= middle + boundary@.subrange(boundary_pos + 1, i + 1)); }
        i = i + 1;
    }
    merged
}

/// Join every hole to the boundary walk by its first visible bridge.
/// How many ring entries splicing the first `h` holes adds: each hole's
/// vertices and the two repeated bridge ends.
pub open spec fn spliced_length(holes: Seq<Vec<usize>>, h: int) -> int
    decreases h,
{
    if h <= 0 || h > holes.len() { 0 } else { spliced_length(holes, h - 1) + holes[h - 1]@.len() + 2 }
}

fn bridge_holes(vertices: &[Point2], boundary: Vec<usize>, holes: &Vec<Vec<usize>>, policy: PredicatePolicy) -> (r: Result<Vec<usize>, Error>)
    requires
        indices_in_bounds(boundary@, vertices@.len() as int),
        holes_valid(holes@, vertices@.len() as int),
    ensures
        r matches Ok(ring) ==> indices_in_bounds(ring@, vertices@.len() as int),
        r matches Ok(ring) ==> ring@.len() == boundary@.len() + spliced_length(holes@, holes@.len() as int),
        holes@.len() == 0 ==> (r matches Ok(ring) && ring@ == boundary@),
        r is Err && policy_decides(policy) && fractions_valid(vertices@) && all_midpoints_fit(vertices@) ==> r == Err::<Vec<usize>, Error>(Error::InvalidInput { reason: "hole cannot be connected by a visible bridge" }),
{
    let ghost original = boundary@;
    let n = vertices.len();
    let mut boundary = boundary;
    let mut h: usize = 0;
    while h < holes.len()
        invariant
            n == vertices@.len(),
            indices_in_bounds(boundary@, n as int),
            holes_valid(holes@, n as int),
            0 <= h <= holes@.len(),
            boundary@.len() == original.len() + spliced_length(holes@, h as int),
            h == 0 ==> boundary@ == original,
        decreases holes@.len() - h,
    {
        let hole = holes[h].as_slice();
        proof { assert(indices_in_bounds(holes@[h as int]@, n as int)); }
        let bridge = find_visible_bridge(vertices, boundary.as_slice(), hole, holes, policy)?;
        let merged = splice_hole(&boundary, hole, bridge.boundary_pos, bridge.hole_pos);
        proof {
            assert forall|i: int| 0 <= i < merged@.len() implies #[trigger] merged@[i] < n by {
                if boundary@.contains(merged@[i]) {
                    let k = choose|k: int| 0 <= k < boundary@.len() && boundary@[k] == merged@[i];
                    assert(boundary@[k] < n);
                } else {
                    let k = choose|k: int| 0 <= k < hole@.len() && hole@[k] == merged@[i];
                    assert(hole@[k] < n);
                }
            }
        }
        boundary = merged;
        h = h + 1;
    }
    Ok(boundary)
}

/// The orientation of the ring vertex at `cursor` with its two cyclic
/// neighbours.
pub open spec fn vertex_turn(vertices: Seq<Point2>, ring: Seq<usize>, cursor: int, policy: PredicatePolicy) -> Result<Sign, Error> {
    orient2_result(vertices, ring[previous_position_spec(ring.len() as int, cursor)] as int, ring[cursor] as int, ring[next_position_spec(ring.len() as int, cursor)] as int, policy)
}

/// Whether the ring vertex at `cursor` turns with the ring's winding.
fn local_vertex_is_strictly_convex(vertices: &[Point2], ring: &Vec<usize>, cursor: usize, winding: Sign, policy: PredicatePolicy) -> (r: Result<bool, Error>)
    requires
        indices_in_bounds(ring@, vertices@.len() as int),
        cursor < ring@.len(),
    ensures
        r == match orient2_result(vertices@, ring@[previous_position_spec(ring@.len() as int, cursor as int)] as int, ring@[cursor as int] as int, ring@[next_position_spec(ring@.len() as int, cursor as int)] as int, policy) {
            Err(e) => Err(e),
            Ok(s) => Ok::<bool, Error>(s == winding),
        },
{
    let len = ring.len();
    let prev = ring[previous_position(len, cursor)];
    let curr = ring[cursor];
    let next = ring[next_position(len, cursor)];
    Ok(orient2(vertices, prev, curr, next, policy)? == winding)
}

/// Increment a diagnostic counter.
fn bump(counter: &mut usize)
    ensures
        *final(counter) == if *old(counter) == usize::MAX { usize::MAX } else { (*old(counter) + 1) as usize },
{
    *counter = counter.saturating_add(1);
}

/// The strict convexity of every ring vertex.
fn prepare_local_convexity(vertices: &[Point2], ring: &Vec<usize>, winding: Sign, policy: PredicatePolicy, diagnostics: &mut EarcutDiagnostics) -> (r: Result<Vec<bool>, Error>)
    requires
        indices_in_bounds(ring@, vertices@.len() as int),
    ensures
        r matches Ok(convex) ==> convex@.len() == ring@.len()
            && forall|i: int| 0 <= i < ring@.len() ==> #[trigger] convex@[i] == (vertex_turn(vertices@, ring@, i, policy) == Ok::<Sign, Error>(winding)),
        policy_decides(policy) && fractions_valid(vertices@) ==> r is Ok,
{
    bump(&mut diagnostics.prepared_reflex_rebuilds);
    let mut convex: Vec<bool> = Vec::new();
    let mut cursor: usize = 0;
    while cursor < ring.len()
        invariant
            indices_in_bounds(ring@, vertices@.len() as int),
            convex@.len() == cursor,
            cursor <= ring@.len(),
            forall|i: int| 0 <= i < cursor ==> #[trigger] convex@[i] == (vertex_turn(vertices@, ring@, i, policy) == Ok::<Sign, Error>(winding)),
        decreases ring@.len() - cursor,
    {
        let value = local_vertex_is_strictly_convex(vertices, ring, cursor, winding, policy)?;
        convex.push(value);
        cursor = cursor + 1;
    }
    Ok(convex)
}

/// Refresh the convexity of the two ring vertices around a clipped ear.
fn update_prepared_convexity_after_clip(
    vertices: &[Point2],
    ring: &Vec<usize>,
    prepared: &mut Vec<bool>,
    cursor: usize,
    winding: Sign,
    policy: PredicatePolicy,
    diagnostics: &mut EarcutDiagnostics,
) -> (r: Result<(), Error>)
    requires
        indices_in_bounds(ring@, vertices@.len() as int),
        old(prepared)@.len() == ring@.len(),
    ensures
        final(prepared)@.len() == ring@.len(),
        ring@.len() < 3 ==> final(prepared)@ == old(prepared)@,
        r is Ok && ring@.len() >= 3 ==> ({
            let next = (cursor as int) % (ring@.len() as int);
            let prev = previous_position_spec(ring@.len() as int, next);
            &&& final(prepared)@[prev] == (vertex_turn(vertices@, ring@, prev, policy) == Ok::<Sign, Error>(winding))
            &&& final(prepared)@[next as int] == (vertex_turn(vertices@, ring@, next as int, policy) == Ok::<Sign, Error>(winding))
            &&& forall|i: int| 0 <= i < ring@.len() && i != prev && i != next ==> #[trigger] final(prepared)@[i] == old(prepared)@[i]
        }),
        policy_decides(policy) && fractions_valid(vertices@) ==> r is Ok,
{
    if ring.len() < 3 {
        return Ok(());
    }
    let next = cursor % ring.len();
    let prev = previous_position(ring.len(), next);
    let value = local_vertex_is_strictly_convex(vertices, ring, prev, winding, policy)?;
    prepared.set(prev, value);
    bump(&mut diagnostics.prepared_reflex_updates);
    if next != prev {
        let value = local_vertex_is_strictly_convex(vertices, ring, next, winding, policy)?;
        prepared.set(next, value);
        bump(&mut diagnostics.prepared_reflex_updates);
    }
    Ok(())
}

/// Whether ring position `k` blocks the ear `prev`, `curr`, `next`: a
/// reflex vertex other than the ear's own, inside the ear's bounding box
/// and inside or on the ear.
pub open spec fn ear_blocker(vertices: Seq<Point2>, ring: Seq<usize>, prepared: Seq<bool>, prev: usize, curr: usize, next: usize, k: int, policy: PredicatePolicy) -> Result<bool, Error> {
    let c = ring[k];
    if c == prev || c == curr || c == next || prepared[k] || !in_triangle_box(vertices[prev as int], vertices[curr as int], vertices[next as int], vertices[c as int]) {
        Ok(false)
    } else {
        match classify_result(vertices, prev as int, curr as int, next as int, c as int, policy) {
            Err(e) => Err(e),
            Ok(location) => Ok(location == TriangleLocation::Inside || location == TriangleLocation::OnEdge || location == TriangleLocation::OnVertex),
        }
    }
}

/// The scan for an ear blocker from ring position `k` on: the first error,
/// `false` at the first blocker, else `true`.
pub open spec fn ear_clear_from(vertices: Seq<Point2>, ring: Seq<usize>, prepared: Seq<bool>, prev: usize, curr: usize, next: usize, k: int, policy: PredicatePolicy) -> Result<bool, Error>
    decreases ring.len() - k,
{
    if k < 0 || k >= ring.len() {
        Ok(true)
    } else {
        match ear_blocker(vertices, ring, prepared, prev, curr, next, k, policy) {
            Err(e) => Err(e),
            Ok(blocked) => if blocked { Ok(false) } else { ear_clear_from(vertices, ring, prepared, prev, curr, next, k + 1, policy) },
        }
    }
}

proof fn lemma_ear_clear_decided(vertices: Seq<Point2>, ring: Seq<usize>, prepared: Seq<bool>, prev: usize, curr: usize, next: usize, k: int, policy: PredicatePolicy)
    requires
        prev < vertices.len(),
        curr < vertices.len(),
        next < vertices.len(),
        indices_in_bounds(ring, vertices.len() as int),
        policy_decides(policy) && fractions_valid(vertices),
    ensures
        ear_clear_from(vertices, ring, prepared, prev, curr, next, k, policy) is Ok,
    decreases ring.len() - k,
{
    if 0 <= k < ring.len() {
        lemma_ear_clear_decided(vertices, ring, prepared, prev, curr, next, k + 1, policy);
    }
}

/// A reflex ring vertex that lies in the closed ear triangle blocks the ear:
/// when the ear `prev`, `curr`, `next` turns with the decided nonzero sign
/// `o` and no edge of it (`prev`→`curr`, `curr`→`next`, `next`→`prev`) sees
/// the candidate decidedly on its outer side (so the candidate is inside the
/// triangle, on one of its edges, or at one of its corners), a candidate that
/// is not an ear vertex, not marked convex, and in the ear's bounding box
/// blocks it. Conversely a blocking candidate is never seen on the inner side
/// of one edge and the outer side of another.
pub proof fn lemma_closed_triangle_blocks_ear(
    vertices: Seq<Point2>,
    ring: Seq<usize>,
    prepared: Seq<bool>,
    prev: usize,
    curr: usize,
    next: usize,
    k: int,
    policy: PredicatePolicy,
    o: Sign,
)
    requires
        0 <= k < ring.len(),
    ensures
        ({
            let c = ring[k];
            let e0 = orient2_result(vertices, prev as int, curr as int, c as int, policy);
            let e1 = orient2_result(vertices, curr as int, next as int, c as int, policy);
            let e2 = orient2_result(vertices, next as int, prev as int, c as int, policy);
            &&& (c != prev && c != curr && c != next && !prepared[k]
                && in_triangle_box(vertices[prev as int], vertices[curr as int], vertices[next as int], vertices[c as int])
                && orient2_result(vertices, prev as int, curr as int, next as int, policy) == Ok::<Sign, Error>(o) && o != Sign::Zero
                && (e0 matches Ok(s0) && s0 != reversed_sign(o))
                && (e1 matches Ok(s1) && s1 != reversed_sign(o))
                && (e2 matches Ok(s2) && s2 != reversed_sign(o)))
                ==> ear_blocker(vertices, ring, prepared, prev, curr, next, k, policy) == Ok::<bool, Error>(true)
            &&& ear_blocker(vertices, ring, prepared, prev, curr, next, k, policy) == Ok::<bool, Error>(true)
                && !vertices[c as int].same_point(vertices[prev as int]) && !vertices[c as int].same_point(vertices[curr as int])
                && !vertices[c as int].same_point(vertices[next as int])
                ==> {
                    &&& c != prev && c != curr && c != next && !prepared[k]
                    &&& in_triangle_box(vertices[prev as int], vertices[curr as int], vertices[next as int], vertices[c as int])
                    &&& !((e0 == Ok::<Sign, Error>(Sign::Positive) || e1 == Ok::<Sign, Error>(Sign::Positive) || e2 == Ok::<Sign, Error>(Sign::Positive))
                        && (e0 == Ok::<Sign, Error>(Sign::Negative) || e1 == Ok::<Sign, Error>(Sign::Negative) || e2 == Ok::<Sign, Error>(Sign::Negative)))
                }
        }),
{
}

/// The cross product `(b - a) × (c - a)` of integer points.
pub open spec fn int_cross(ax: int, ay: int, bx: int, by: int, cx: int, cy: int) -> int {
    (bx - ax) * (cy - ay) - (by - ay) * (cx - ax)
}

/// The cross product of two vectors.
pub open spec fn vec_cross(ux: int, uy: int, vx: int, vy: int) -> int {
    ux * vy - uy * vx
}

/// The edge cross products with `p`, seen from `p`.
proof fn lemma_cross_from_point(ax: int, ay: int, bx: int, by: int, px: int, py: int)
    by (nonlinear_arith)
    ensures
        int_cross(ax, ay, bx, by, px, py) == vec_cross(ax - px, ay - py, bx - px, by - py),
{
}

/// The triangle's cross product from the edge vectors to `p`.
proof fn lemma_cross_sum(ux: int, uy: int, vx: int, vy: int, wx: int, wy: int)
    by (nonlinear_arith)
    ensures
        vec_cross(vx, vy, wx, wy) + vec_cross(wx, wy, ux, uy) + vec_cross(ux, uy, vx, vy) == vec_cross(vx - ux, vy - uy, wx - ux, wy - uy),
{
}

/// The barycentric identity: the edge cross products weight the vectors
/// to `p` to zero.
proof fn lemma_cross_weights(ux: int, uy: int, vx: int, vy: int, wx: int, wy: int)
    ensures
        vec_cross(vx, vy, wx, wy) * ux + vec_cross(wx, wy, ux, uy) * vx + vec_cross(ux, uy, vx, vy) * wx == 0,
        vec_cross(vx, vy, wx, wy) * uy + vec_cross(wx, wy, ux, uy) * vy + vec_cross(ux, uy, vx, vy) * wy == 0,
{
    lemma_cross_weight_component(ux, uy, vx, vy, wx, wy);
    lemma_cross_weight_component(uy, ux, vy, vx, wy, wx);
    assert(vec_cross(vy, vx, wy, wx) == -vec_cross(vx, vy, wx, wy));
    assert(vec_cross(wy, wx, uy, ux) == -vec_cross(wx, wy, ux, uy));
    assert(vec_cross(uy, ux, vy, vx) == -vec_cross(ux, uy, vx, vy));
    lemma_neg_weights(vec_cross(vx, vy, wx, wy), vec_cross(wx, wy, ux, uy), vec_cross(ux, uy, vx, vy), uy, vy, wy);
    lemma_neg_factor(vec_cross(vx, vy, wx, wy), uy);
    lemma_neg_factor(vec_cross(wx, wy, ux, uy), vy);
    lemma_neg_factor(vec_cross(ux, uy, vx, vy), wy);
}

proof fn lemma_neg_factor(a: int, b: int)
    by (nonlinear_arith)
    ensures
        (-a) * b == -(a * b),
{
}

proof fn lemma_cross_weight_component(ux: int, uy: int, vx: int, vy: int, wx: int, wy: int)
    ensures
        vec_cross(vx, vy, wx, wy) * ux + vec_cross(wx, wy, ux, uy) * vx + vec_cross(ux, uy, vx, vy) * wx == 0,
{
    lemma_distribute(vx, wy, vy, wx, ux);
    lemma_distribute(wx, uy, wy, ux, vx);
    lemma_distribute(ux, vy, uy, vx, wx);
    lemma_rotate3(vx, wy, ux);
    lemma_rotate3(vy, wx, ux);
    lemma_rotate3(wx, uy, vx);
    lemma_rotate3(wy, ux, vx);
    lemma_rotate3(ux, vy, wx);
    lemma_rotate3(uy, vx, wx);
}

proof fn lemma_distribute(a: int, b: int, c: int, d: int, e: int)
    by (nonlinear_arith)
    ensures
        (a * b - c * d) * e == a * b * e - c * d * e,
{
}

/// The six orderings of a product of three factors agree.
proof fn lemma_rotate3(a: int, b: int, c: int)
    by (nonlinear_arith)
    ensures
        a * b * c == b * c * a,
        a * b * c == c * a * b,
        a * b * c == a * c * b,
        a * b * c == b * a * c,
        a * b * c == c * b * a,
{
}

/// A point of the closed triangle `a`, `b`, `c` (integer coordinates, nonzero
/// area) lies in its bounding box: the three cross products of `p` with the
/// edges are barycentric weights of one sign summing to the area.
proof fn lemma_int_closed_triangle_box(ax: int, ay: int, bx: int, by: int, cx: int, cy: int, px: int, py: int)
    requires
        int_cross(ax, ay, bx, by, cx, cy) != 0,
        int_cross(ax, ay, bx, by, cx, cy) > 0 ==> int_cross(bx, by, cx, cy, px, py) >= 0 && int_cross(cx, cy, ax, ay, px, py) >= 0 && int_cross(ax, ay, bx, by, px, py) >= 0,
        int_cross(ax, ay, bx, by, cx, cy) < 0 ==> int_cross(bx, by, cx, cy, px, py) <= 0 && int_cross(cx, cy, ax, ay, px, py) <= 0 && int_cross(ax, ay, bx, by, px, py) <= 0,
    ensures
        !(px < ax && px < bx && px < cx),
        !(ax < px && bx < px && cx < px),
        !(py < ay && py < by && py < cy),
        !(ay < py && by < py && cy < py),
{
    let (ux, uy, vx, vy, wx, wy) = (ax - px, ay - py, bx - px, by - py, cx - px, cy - py);
    lemma_cross_from_point(bx, by, cx, cy, px, py);
    lemma_cross_from_point(cx, cy, ax, ay, px, py);
    lemma_cross_from_point(ax, ay, bx, by, px, py);
    lemma_cross_from_point(bx, by, cx, cy, ax, ay);
    lemma_cross_sum(ux, uy, vx, vy, wx, wy);
    lemma_cross_weights(ux, uy, vx, vy, wx, wy);
    let l = vec_cross(vx, vy, wx, wy);
    let m = vec_cross(wx, wy, ux, uy);
    let n = vec_cross(ux, uy, vx, vy);
    assert(int_cross(ax, ay, bx, by, cx, cy) == int_cross(bx, by, cx, cy, ax, ay)) by (nonlinear_arith);
    assert(vec_cross(vx - ux, vy - uy, wx - ux, wy - uy) == int_cross(bx, by, cx, cy, ax, ay) * 1 + 0) by {
        assert(vx - ux == bx - ax && vy - uy == by - ay && wx - ux == cx - ax && wy - uy == cy - ay);
        lemma_cross_from_point(bx, by, cx, cy, ax, ay);
        assert(vec_cross(vx - ux, vy - uy, wx - ux, wy - uy) == vec_cross(bx - ax, by - ay, cx - ax, cy - ay));
    }
    lemma_weighted_positive(l, m, n, ux, vx, wx);
    lemma_weighted_positive(l, m, n, -ux, -vx, -wx);
    lemma_weighted_positive(l, m, n, uy, vy, wy);
    lemma_weighted_positive(l, m, n, -uy, -vy, -wy);
    lemma_neg_weights(l, m, n, ux, vx, wx);
    lemma_neg_weights(l, m, n, uy, vy, wy);
}

proof fn lemma_neg_weights(l: int, m: int, n: int, u: int, v: int, w: int)
    by (nonlinear_arith)
    ensures
        l * (-u) + m * (-v) + n * (-w) == -(l * u + m * v + n * w),
{
}

/// Weights of one sign, not all zero, against positive values give a
/// nonzero weighted sum.
proof fn lemma_weighted_positive(l: int, m: int, n: int, u: int, v: int, w: int)
    requires
        l + m + n != 0,
        (l >= 0 && m >= 0 && n >= 0) || (l <= 0 && m <= 0 && n <= 0),
    ensures
        u > 0 && v > 0 && w > 0 ==> l * u + m * v + n * w != 0,
{
    if u > 0 && v > 0 && w > 0 {
        if l >= 0 && m >= 0 && n >= 0 {
            assert(l * u >= 0 && m * v >= 0 && n * w >= 0) by (nonlinear_arith)
                requires l >= 0, m >= 0, n >= 0, u > 0, v > 0, w > 0;
            assert(l * u > 0 || m * v > 0 || n * w > 0) by (nonlinear_arith)
                requires l >= 0, m >= 0, n >= 0, u > 0, v > 0, w > 0, l + m + n != 0;
        } else {
            assert(l * u <= 0 && m * v <= 0 && n * w <= 0) by (nonlinear_arith)
                requires l <= 0, m <= 0, n <= 0, u > 0, v > 0, w > 0;
            assert(l * u < 0 || m * v < 0 || n * w < 0) by (nonlinear_arith)
                requires l <= 0, m <= 0, n <= 0, u > 0, v > 0, w > 0, l + m + n != 0;
        }
    }
}

/// The orientation determinant of three fraction points, scaled to a common
/// denominator with a fourth point `z` per axis, is the cross product of the
/// scaled integer coordinates divided by `z`'s two denominators.
proof fn lemma_scaled_orientation(
    a: ((int, int), (int, int)),
    b: ((int, int), (int, int)),
    c: ((int, int), (int, int)),
    z: ((int, int), (int, int)),
)
    ensures
        int_cross(
            a.0.0 * b.0.1 * c.0.1 * z.0.1, a.1.0 * b.1.1 * c.1.1 * z.1.1,
            b.0.0 * a.0.1 * c.0.1 * z.0.1, b.1.0 * a.1.1 * c.1.1 * z.1.1,
            c.0.0 * a.0.1 * b.0.1 * z.0.1, c.1.0 * a.1.1 * b.1.1 * z.1.1,
        ) == z.0.1 * z.1.1 * orient2_det(a, b, c),
{
    let (axn, axd) = a.0;
    let (ayn, ayd) = a.1;
    let (bxn, bxd) = b.0;
    let (byn, byd) = b.1;
    let (cxn, cxd) = c.0;
    let (cyn, cyd) = c.1;
    let (zxd, zyd) = (z.0.1, z.1.1);
    let abx = bxn * axd * cxd - axn * bxd * cxd;
    let acx = cxn * axd * bxd - axn * bxd * cxd;
    let aby = byn * ayd * cyd - ayn * byd * cyd;
    let acy = cyn * ayd * byd - ayn * byd * cyd;
    assert(bxn * axd * cxd * zxd - axn * bxd * cxd * zxd == abx * zxd) by (nonlinear_arith)
        requires abx == bxn * axd * cxd - axn * bxd * cxd;
    assert(cxn * axd * bxd * zxd - axn * bxd * cxd * zxd == acx * zxd) by (nonlinear_arith)
        requires acx == cxn * axd * bxd - axn * bxd * cxd;
    assert(byn * ayd * cyd * zyd - ayn * byd * cyd * zyd == aby * zyd) by (nonlinear_arith)
        requires aby == byn * ayd * cyd - ayn * byd * cyd;
    assert(cyn * ayd * byd * zyd - ayn * byd * cyd * zyd == acy * zyd) by (nonlinear_arith)
        requires acy == cyn * ayd * byd - ayn * byd * cyd;
    lemma_scale_cross(abx, acy, aby, acx, zxd, zyd);
}

proof fn lemma_scale_cross(p: int, q: int, r: int, t: int, x: int, y: int)
    ensures
        (p * x) * (q * y) - (r * y) * (t * x) == x * y * (p * q - r * t),
{
    lemma_swap4(p, x, q, y);
    lemma_swap4(r, y, t, x);
    lemma_dist_sub(x * y, p * q, r * t);
}

proof fn lemma_swap4(a: int, b: int, c: int, d: int)
    by (nonlinear_arith)
    ensures
        (a * b) * (c * d) == (b * d) * (a * c),
        (a * b) * (c * d) == (d * b) * (a * c),
{
}

proof fn lemma_dist_sub(k: int, u: int, v: int)
    by (nonlinear_arith)
    ensures
        k * (u - v) == k * u - k * v,
{
}

/// Multiplying by a positive factor keeps the sign.
proof fn lemma_sign_scaled(k: int, v: int)
    requires
        k > 0,
    ensures
        int_sign(k * v) == int_sign(v),
{
    if v > 0 {
        assert(k * v > 0) by (nonlinear_arith) requires k > 0, v > 0;
    } else if v < 0 {
        assert(k * v < 0) by (nonlinear_arith) requires k > 0, v < 0;
    } else {
        assert(k * v == 0) by (nonlinear_arith) requires v == 0;
    }
}

/// Comparing two fractions is comparing them scaled by positive factors.
proof fn lemma_less_scaled(an: int, ad: int, bn: int, bd: int, k: int)
    requires
        k > 0,
    ensures
        (an * bd < bn * ad) == (an * bd * k < bn * ad * k),
{
    if an * bd < bn * ad {
        assert(an * bd * k < bn * ad * k) by (nonlinear_arith) requires an * bd < bn * ad, k > 0;
    } else {
        assert(an * bd * k >= bn * ad * k) by (nonlinear_arith) requires an * bd >= bn * ad, k > 0;
    }
}

/// A point of the closed triangle lies in the triangle's bounding box, where
/// each orientation is the decided sign of its exact determinant (as the
/// orientation predicate guarantees for a decided outcome on valid
/// fractions).
pub proof fn lemma_closed_triangle_in_box(vertices: Seq<Point2>, prev: usize, curr: usize, next: usize, c: usize, policy: PredicatePolicy, o: Sign)
    requires
        prev < vertices.len(),
        curr < vertices.len(),
        next < vertices.len(),
        c < vertices.len(),
        fractions_valid(vertices),
        orient2_result(vertices, prev as int, curr as int, next as int, policy)
            == Ok::<Sign, Error>(int_sign(orient2_det(point_fractions(vertices[prev as int]), point_fractions(vertices[curr as int]), point_fractions(vertices[next as int])))),
        orient2_result(vertices, prev as int, curr as int, c as int, policy)
            == Ok::<Sign, Error>(int_sign(orient2_det(point_fractions(vertices[prev as int]), point_fractions(vertices[curr as int]), point_fractions(vertices[c as int])))),
        orient2_result(vertices, curr as int, next as int, c as int, policy)
            == Ok::<Sign, Error>(int_sign(orient2_det(point_fractions(vertices[curr as int]), point_fractions(vertices[next as int]), point_fractions(vertices[c as int])))),
        orient2_result(vertices, next as int, prev as int, c as int, policy)
            == Ok::<Sign, Error>(int_sign(orient2_det(point_fractions(vertices[next as int]), point_fractions(vertices[prev as int]), point_fractions(vertices[c as int])))),
        orient2_result(vertices, prev as int, curr as int, next as int, policy) == Ok::<Sign, Error>(o),
        o != Sign::Zero,
        orient2_result(vertices, prev as int, curr as int, c as int, policy) != Ok::<Sign, Error>(reversed_sign(o)),
        orient2_result(vertices, curr as int, next as int, c as int, policy) != Ok::<Sign, Error>(reversed_sign(o)),
        orient2_result(vertices, next as int, prev as int, c as int, policy) != Ok::<Sign, Error>(reversed_sign(o)),
    ensures
        in_triangle_box(vertices[prev as int], vertices[curr as int], vertices[next as int], vertices[c as int]),
{
    let a = point_fractions(vertices[prev as int]);
    let b = point_fractions(vertices[curr as int]);
    let cc = point_fractions(vertices[next as int]);
    let p = point_fractions(vertices[c as int]);
    assert(fraction_pair_valid(a) && fraction_pair_valid(b) && fraction_pair_valid(cc) && fraction_pair_valid(p));
    // Integer coordinates over the common denominators of the four points.
    let ax = a.0.0 * b.0.1 * cc.0.1 * p.0.1;
    let ay = a.1.0 * b.1.1 * cc.1.1 * p.1.1;
    let bx = b.0.0 * a.0.1 * cc.0.1 * p.0.1;
    let by = b.1.0 * a.1.1 * cc.1.1 * p.1.1;
    let cx = cc.0.0 * a.0.1 * b.0.1 * p.0.1;
    let cy = cc.1.0 * a.1.1 * b.1.1 * p.1.1;
    let px = p.0.0 * a.0.1 * b.0.1 * cc.0.1;
    let py = p.1.0 * a.1.1 * b.1.1 * cc.1.1;
    assert(p.0.1 * p.1.1 > 0 && cc.0.1 * cc.1.1 > 0 && a.0.1 * a.1.1 > 0 && b.0.1 * b.1.1 > 0) by (nonlinear_arith)
        requires a.0.1 > 0, a.1.1 > 0, b.0.1 > 0, b.1.1 > 0, cc.0.1 > 0, cc.1.1 > 0, p.0.1 > 0, p.1.1 > 0;
    // The triangle.
    lemma_scaled_orientation(a, b, cc, p);
    lemma_sign_scaled(p.0.1 * p.1.1, orient2_det(a, b, cc));
    // Edge prev -> curr with the candidate.
    lemma_scaled_orientation(a, b, p, cc);
    assert(p.0.0 * a.0.1 * b.0.1 * cc.0.1 == px && p.1.0 * a.1.1 * b.1.1 * cc.1.1 == py
        && a.0.0 * b.0.1 * p.0.1 * cc.0.1 == ax && a.1.0 * b.1.1 * p.1.1 * cc.1.1 == ay
        && b.0.0 * a.0.1 * p.0.1 * cc.0.1 == bx && b.1.0 * a.1.1 * p.1.1 * cc.1.1 == by) by (nonlinear_arith)
        requires
            ax == a.0.0 * b.0.1 * cc.0.1 * p.0.1, ay == a.1.0 * b.1.1 * cc.1.1 * p.1.1,
            bx == b.0.0 * a.0.1 * cc.0.1 * p.0.1, by == b.1.0 * a.1.1 * cc.1.1 * p.1.1,
            px == p.0.0 * a.0.1 * b.0.1 * cc.0.1, py == p.1.0 * a.1.1 * b.1.1 * cc.1.1;
    lemma_sign_scaled(cc.0.1 * cc.1.1, orient2_det(a, b, p));
    // Edge curr -> next with the candidate.
    lemma_scaled_orientation(b, cc, p, a);
    assert(b.0.0 * cc.0.1 * p.0.1 * a.0.1 == bx && b.1.0 * cc.1.1 * p.1.1 * a.1.1 == by
        && cc.0.0 * b.0.1 * p.0.1 * a.0.1 == cx && cc.1.0 * b.1.1 * p.1.1 * a.1.1 == cy
        && p.0.0 * b.0.1 * cc.0.1 * a.0.1 == px && p.1.0 * b.1.1 * cc.1.1 * a.1.1 == py) by (nonlinear_arith)
        requires
            bx == b.0.0 * a.0.1 * cc.0.1 * p.0.1, by == b.1.0 * a.1.1 * cc.1.1 * p.1.1,
            cx == cc.0.0 * a.0.1 * b.0.1 * p.0.1, cy == cc.1.0 * a.1.1 * b.1.1 * p.1.1,
            px == p.0.0 * a.0.1 * b.0.1 * cc.0.1, py == p.1.0 * a.1.1 * b.1.1 * cc.1.1;
    lemma_sign_scaled(a.0.1 * a.1.1, orient2_det(b, cc, p));
    // Edge next -> prev with the candidate.
    lemma_scaled_orientation(cc, a, p, b);
    assert(cc.0.0 * a.0.1 * p.0.1 * b.0.1 == cx && cc.1.0 * a.1.1 * p.1.1 * b.1.1 == cy
        && a.0.0 * cc.0.1 * p.0.1 * b.0.1 == ax && a.1.0 * cc.1.1 * p.1.1 * b.1.1 == ay
        && p.0.0 * cc.0.1 * a.0.1 * b.0.1 == px && p.1.0 * cc.1.1 * a.1.1 * b.1.1 == py) by (nonlinear_arith)
        requires
            ax == a.0.0 * b.0.1 * cc.0.1 * p.0.1, ay == a.1.0 * b.1.1 * cc.1.1 * p.1.1,
            cx == cc.0.0 * a.0.1 * b.0.1 * p.0.1, cy == cc.1.0 * a.1.1 * b.1.1 * p.1.1,
            px == p.0.0 * a.0.1 * b.0.1 * cc.0.1, py == p.1.0 * a.1.1 * b.1.1 * cc.1.1;
    lemma_sign_scaled(b.0.1 * b.1.1, orient2_det(cc, a, p));
    lemma_int_closed_triangle_box(ax, ay, bx, by, cx, cy, px, py);
    // Back from the common denominators to the fraction comparisons.
    assert(b.0.1 * cc.0.1 > 0 && a.0.1 * cc.0.1 > 0 && a.0.1 * b.0.1 > 0 && b.1.1 * cc.1.1 > 0 && a.1.1 * cc.1.1 > 0 && a.1.1 * b.1.1 > 0) by (nonlinear_arith)
        requires a.0.1 > 0, a.1.1 > 0, b.0.1 > 0, b.1.1 > 0, cc.0.1 > 0, cc.1.1 > 0;
    lemma_less_scaled(p.0.0, p.0.1, a.0.0, a.0.1, b.0.1 * cc.0.1);
    lemma_less_scaled(p.0.0, p.0.1, b.0.0, b.0.1, a.0.1 * cc.0.1);
    lemma_less_scaled(p.0.0, p.0.1, cc.0.0, cc.0.1, a.0.1 * b.0.1);
    lemma_less_scaled(a.0.0, a.0.1, p.0.0, p.0.1, b.0.1 * cc.0.1);
    lemma_less_scaled(b.0.0, b.0.1, p.0.0, p.0.1, a.0.1 * cc.0.1);
    lemma_less_scaled(cc.0.0, cc.0.1, p.0.0, p.0.1, a.0.1 * b.0.1);
    lemma_less_scaled(p.1.0, p.1.1, a.1.0, a.1.1, b.1.1 * cc.1.1);
    lemma_less_scaled(p.1.0, p.1.1, b.1.0, b.1.1, a.1.1 * cc.1.1);
    lemma_less_scaled(p.1.0, p.1.1, cc.1.0, cc.1.1, a.1.1 * b.1.1);
    lemma_less_scaled(a.1.0, a.1.1, p.1.0, p.1.1, b.1.1 * cc.1.1);
    lemma_less_scaled(b.1.0, b.1.1, p.1.0, p.1.1, a.1.1 * cc.1.1);
    lemma_less_scaled(cc.1.0, cc.1.1, p.1.0, p.1.1, a.1.1 * b.1.1);
    assert(p.0.0 * a.0.1 * (b.0.1 * cc.0.1) == px && a.0.0 * p.0.1 * (b.0.1 * cc.0.1) == ax
        && p.0.0 * b.0.1 * (a.0.1 * cc.0.1) == px && b.0.0 * p.0.1 * (a.0.1 * cc.0.1) == bx
        && p.0.0 * cc.0.1 * (a.0.1 * b.0.1) == px && cc.0.0 * p.0.1 * (a.0.1 * b.0.1) == cx) by (nonlinear_arith)
        requires
            ax == a.0.0 * b.0.1 * cc.0.1 * p.0.1, bx == b.0.0 * a.0.1 * cc.0.1 * p.0.1,
            cx == cc.0.0 * a.0.1 * b.0.1 * p.0.1, px == p.0.0 * a.0.1 * b.0.1 * cc.0.1;
    assert(p.1.0 * a.1.1 * (b.1.1 * cc.1.1) == py && a.1.0 * p.1.1 * (b.1.1 * cc.1.1) == ay
        && p.1.0 * b.1.1 * (a.1.1 * cc.1.1) == py && b.1.0 * p.1.1 * (a.1.1 * cc.1.1) == by
        && p.1.0 * cc.1.1 * (a.1.1 * b.1.1) == py && cc.1.0 * p.1.1 * (a.1.1 * b.1.1) == cy) by (nonlinear_arith)
        requires
            ay == a.1.0 * b.1.1 * cc.1.1 * p.1.1, by == b.1.0 * a.1.1 * cc.1.1 * p.1.1,
            cy == cc.1.0 * a.1.1 * b.1.1 * p.1.1, py == p.1.0 * a.1.1 * b.1.1 * cc.1.1;
}

/// Whether the ring positions' points, with their exact orientation
/// determinants, decide every orientation the ear test asks about `c`: the
/// predicate's outcome is the determinant's sign.
pub open spec fn ear_orientations_exact(vertices: Seq<Point2>, prev: usize, curr: usize, next: usize, c: usize, policy: PredicatePolicy) -> bool {
    let a = point_fractions(vertices[prev as int]);
    let b = point_fractions(vertices[curr as int]);
    let d = point_fractions(vertices[next as int]);
    let p = point_fractions(vertices[c as int]);
    &&& orient2_result(vertices, prev as int, curr as int, next as int, policy) == Ok::<Sign, Error>(int_sign(orient2_det(a, b, d)))
    &&& orient2_result(vertices, prev as int, curr as int, c as int, policy) == Ok::<Sign, Error>(int_sign(orient2_det(a, b, p)))
    &&& orient2_result(vertices, curr as int, next as int, c as int, policy) == Ok::<Sign, Error>(int_sign(orient2_det(b, d, p)))
    &&& orient2_result(vertices, next as int, prev as int, c as int, policy) == Ok::<Sign, Error>(int_sign(orient2_det(d, a, p)))
}

/// Geometric form of the ear test: with the orientations decided exactly
/// (each outcome the sign of its determinant), a ring vertex other than the
/// ear's own and not marked convex whose point lies in the closed ear
/// triangle (the triangle has nonzero area and no edge determinant with the
/// point has the opposite sign) blocks the ear, wherever it sits in the
/// ring; so an ear that the scan accepts has no such vertex.
pub proof fn lemma_exact_closed_triangle_blocks_ear(
    vertices: Seq<Point2>,
    ring: Seq<usize>,
    prepared: Seq<bool>,
    prev: usize,
    curr: usize,
    next: usize,
    k: int,
    policy: PredicatePolicy,
)
    requires
        0 <= k < ring.len(),
        prev < vertices.len(),
        curr < vertices.len(),
        next < vertices.len(),
        ring[k] < vertices.len(),
        fractions_valid(vertices),
        ear_orientations_exact(vertices, prev, curr, next, ring[k], policy),
        ring[k] != prev && ring[k] != curr && ring[k] != next,
        !prepared[k],
        ({
            let a = point_fractions(vertices[prev as int]);
            let b = point_fractions(vertices[curr as int]);
            let d = point_fractions(vertices[next as int]);
            let p = point_fractions(vertices[ring[k] as int]);
            let t = int_sign(orient2_det(a, b, d));
            &&& t != Sign::Zero
            &&& int_sign(orient2_det(a, b, p)) != reversed_sign(t)
            &&& int_sign(orient2_det(b, d, p)) != reversed_sign(t)
            &&& int_sign(orient2_det(d, a, p)) != reversed_sign(t)
        }),
    ensures
        ear_blocker(vertices, ring, prepared, prev, curr, next, k, policy) == Ok::<bool, Error>(true),
        ear_clear_from(vertices, ring, prepared, prev, curr, next, 0, policy) != Ok::<bool, Error>(true),
{
    let o = int_sign(orient2_det(point_fractions(vertices[prev as int]), point_fractions(vertices[curr as int]), point_fractions(vertices[next as int])));
    lemma_closed_triangle_in_box(vertices, prev, curr, next, ring[k], policy, o);
    lemma_closed_triangle_blocks_ear(vertices, ring, prepared, prev, curr, next, k, policy, o);
    if ear_clear_from(vertices, ring, prepared, prev, curr, next, 0, policy) == Ok::<bool, Error>(true) {
        lemma_ear_clear_settles(vertices, ring, prepared, prev, curr, next, 0, k, policy);
    }
}

/// An ear accepted by the blocker scan has no candidate of the ring in its
/// closed triangle: every ring vertex other than the ear's own that is not
/// marked convex and lies in the ear's bounding box is decidedly seen on the
/// outer side of some edge of the ear (or the scan found an undecided
/// predicate).
pub proof fn lemma_clear_ear_has_empty_closed_triangle(
    vertices: Seq<Point2>,
    ring: Seq<usize>,
    prepared: Seq<bool>,
    prev: usize,
    curr: usize,
    next: usize,
    policy: PredicatePolicy,
    o: Sign,
    k: int,
)
    requires
        ear_clear_from(vertices, ring, prepared, prev, curr, next, 0, policy) == Ok::<bool, Error>(true),
        orient2_result(vertices, prev as int, curr as int, next as int, policy) == Ok::<Sign, Error>(o),
        o != Sign::Zero,
        0 <= k < ring.len(),
        ring[k] != prev && ring[k] != curr && ring[k] != next,
        !prepared[k],
        in_triangle_box(vertices[prev as int], vertices[curr as int], vertices[next as int], vertices[ring[k] as int]),
    ensures
        !(orient2_result(vertices, prev as int, curr as int, ring[k] as int, policy) matches Ok(s0) && s0 != reversed_sign(o)
            && (orient2_result(vertices, curr as int, next as int, ring[k] as int, policy) matches Ok(s1) && s1 != reversed_sign(o))
            && (orient2_result(vertices, next as int, prev as int, ring[k] as int, policy) matches Ok(s2) && s2 != reversed_sign(o))),
{
    lemma_ear_clear_settles(vertices, ring, prepared, prev, curr, next, 0, k, policy);
    lemma_closed_triangle_blocks_ear(vertices, ring, prepared, prev, curr, next, k, policy, o);
}

/// A clear scan from `j` on leaves every blocker test from `j` on false.
proof fn lemma_ear_clear_settles(vertices: Seq<Point2>, ring: Seq<usize>, prepared: Seq<bool>, prev: usize, curr: usize, next: usize, j: int, k: int, policy: PredicatePolicy)
    requires
        0 <= j <= k < ring.len(),
        ear_clear_from(vertices, ring, prepared, prev, curr, next, j, policy) == Ok::<bool, Error>(true),
    ensures
        ear_blocker(vertices, ring, prepared, prev, curr, next, k, policy) == Ok::<bool, Error>(false),
    decreases k - j,
{
    if j < k {
        lemma_ear_clear_settles(vertices, ring, prepared, prev, curr, next, j + 1, k, policy);
    }
}

/// Whether the ring vertex at `cursor` is an ear: strictly convex, and no
/// other reflex ring vertex inside or on its triangle.
fn is_ear(
    vertices: &[Point2],
    ring: &Vec<usize>,
    prepared: &Vec<bool>,
    cursor: usize,
    policy: PredicatePolicy,
    diagnostics: &mut EarcutDiagnostics,
) -> (r: Result<bool, Error>)
    requires
        indices_in_bounds(ring@, vertices@.len() as int),
        prepared@.len() == ring@.len(),
        cursor < ring@.len(),
    ensures
        r == (if !prepared@[cursor as int] {
            Ok::<bool, Error>(false)
        } else {
            ear_clear_from(vertices@, ring@, prepared@, ring@[previous_position_spec(ring@.len() as int, cursor as int)], ring@[cursor as int],
                ring@[next_position_spec(ring@.len() as int, cursor as int)], 0, policy)
        }),
        policy_decides(policy) && fractions_valid(vertices@) ==> r is Ok,
{
    proof {
        if policy_decides(policy) && fractions_valid(vertices@) {
            lemma_ear_clear_decided(vertices@, ring@, prepared@, ring@[previous_position_spec(ring@.len() as int, cursor as int)], ring@[cursor as int],
                ring@[next_position_spec(ring@.len() as int, cursor as int)], 0, policy);
        }
    }
    bump(&mut diagnostics.ear_tests);
    let len = ring.len();
    let prev = ring[previous_position(len, cursor)];
    let curr = ring[cursor];
    let next = ring[next_position(len, cursor)];
    if !prepared[cursor] {
        return Ok(false);
    }
    let mut k: usize = 0;
    while k < len
        invariant
            len == ring@.len(),
            prepared@.len() == len,
            indices_in_bounds(ring@, vertices@.len() as int),
            prev < vertices@.len(),
            curr < vertices@.len(),
            next < vertices@.len(),
            0 <= k <= len,
            cursor < len,
            prepared@[cursor as int],
            prev == ring@[previous_position_spec(ring@.len() as int, cursor as int)],
            curr == ring@[cursor as int],
            next == ring@[next_position_spec(ring@.len() as int, cursor as int)],
            ear_clear_from(vertices@, ring@, prepared@, prev, curr, next, 0, policy) == ear_clear_from(vertices@, ring@, prepared@, prev, curr, next, k as int, policy),
        decreases len - k,
    {
        let candidate = ring[k];
        if candidate != prev && candidate != curr && candidate != next {
            bump(&mut diagnostics.containment_candidates);
            bump(&mut diagnostics.containment_prepared_reflex_lookups);
            if prepared[k] {
                bump(&mut diagnostics.containment_convex_rejects);
            } else if !point_in_triangle_bbox(&vertices[prev], &vertices[curr], &vertices[next], &vertices[candidate]) {
                bump(&mut diagnostics.containment_bbox_rejects);
            } else {
                bump(&mut diagnostics.containment_tests);
                let location = classify_point_triangle(vertices, prev, curr, next, candidate, policy)?;
                if location == TriangleLocation::Inside || location == TriangleLocation::OnEdge || location == TriangleLocation::OnVertex {
                    return Ok(false);
                }
            }
        }
        k = k + 1;
    }
    Ok(true)
}

/// Whether the segment between the points at `from` and `to` meets no ring
/// edge that avoids both of them and the two removed vertices.
fn diagonal_clear_after_removing_local_pair(
    vertices: &[Point2],
    ring: &Vec<usize>,
    from: usize,
    removed_first: usize,
    removed_second: usize,
    to: usize,
    policy: PredicatePolicy,
) -> (r: Result<bool, Error>)
    requires
        indices_in_bounds(ring@, vertices@.len() as int),
        from < vertices@.len(),
        to < vertices@.len(),
    ensures
        r == pair_diagonal_clear_from(vertices@, ring@, from, removed_first, removed_second, to, 0, policy),
        policy_decides(policy) && fractions_valid(vertices@) ==> r is Ok,
{
    proof {
        if policy_decides(policy) && fractions_valid(vertices@) {
            lemma_pair_clear_decided(vertices@, ring@, from, removed_first, removed_second, to, 0, policy);
        }
    }
    let len = ring.len();
    let mut i: usize = 0;
    while i < len
        invariant
            len == ring@.len(),
            0 <= i <= len,
            indices_in_bounds(ring@, vertices@.len() as int),
            from < vertices@.len(),
            to < vertices@.len(),
            pair_diagonal_clear_from(vertices@, ring@, from, removed_first, removed_second, to, 0, policy)
                == pair_diagonal_clear_from(vertices@, ring@, from, removed_first, removed_second, to, i as int, policy),
        decreases len - i,
    {
        let edge_from = ring[i];
        let edge_to = ring[next_position(len, i)];
        let skipped = edge_from == removed_first || edge_from == removed_second || edge_to == removed_first || edge_to == removed_second
            || edge_from == from || edge_to == from || edge_from == to || edge_to == to;
        if !skipped && segment_intersection(vertices, from, to, edge_from, edge_to, policy)? != SegmentIntersection::Disjoint {
            return Ok(false);
        }
        i = i + 1;
    }
    Ok(true)
}

/// The scan of the ring edges from `i` on for the diagonal `from`-`to`,
/// skipping edges at the removed pair or at the diagonal's ends: the first
/// error, `false` at the first edge the diagonal meets, else `true`.
pub open spec fn pair_diagonal_clear_from(vertices: Seq<Point2>, ring: Seq<usize>, from: usize, removed_first: usize, removed_second: usize, to: usize, i: int, policy: PredicatePolicy) -> Result<bool, Error>
    decreases ring.len() - i,
{
    if i < 0 || i >= ring.len() {
        Ok(true)
    } else {
        let ef = ring[i];
        let et = ring[next_position_spec(ring.len() as int, i)];
        let skipped = ef == removed_first || ef == removed_second || et == removed_first || et == removed_second || ef == from || et == from || ef == to || et == to;
        if skipped {
            pair_diagonal_clear_from(vertices, ring, from, removed_first, removed_second, to, i + 1, policy)
        } else {
            match segment_intersection_result(vertices, from as int, to as int, ef as int, et as int, policy) {
                Err(e) => Err(e),
                Ok(k) => if k != SegmentIntersection::Disjoint { Ok(false) } else { pair_diagonal_clear_from(vertices, ring, from, removed_first, removed_second, to, i + 1, policy) },
            }
        }
    }
}

proof fn lemma_pair_clear_decided(vertices: Seq<Point2>, ring: Seq<usize>, from: usize, removed_first: usize, removed_second: usize, to: usize, i: int, policy: PredicatePolicy)
    requires
        from < vertices.len(),
        to < vertices.len(),
        indices_in_bounds(ring, vertices.len() as int),
        policy_decides(policy) && fractions_valid(vertices),
    ensures
        pair_diagonal_clear_from(vertices, ring, from, removed_first, removed_second, to, i, policy) is Ok,
    decreases ring.len() - i,
{
    if 0 <= i < ring.len() {
        lemma_pair_clear_decided(vertices, ring, from, removed_first, removed_second, to, i + 1, policy);
    }
}

proof fn lemma_segment_clear_decided(vertices: Seq<Point2>, from: int, to: int, ring: Seq<usize>, i: int, policy: PredicatePolicy)
    requires
        0 <= from < vertices.len(),
        0 <= to < vertices.len(),
        indices_in_bounds(ring, vertices.len() as int),
        policy_decides(policy) && fractions_valid(vertices),
    ensures
        segment_clear_from(vertices, from, to, ring, i, policy) is Ok,
    decreases ring.len() - i,
{
    if 0 <= i < ring.len() {
        lemma_segment_clear_decided(vertices, from, to, ring, i + 1, policy);
    }
}

/// Whether a local self-intersection at ring positions `a`, `p`, `q`, `b`
/// can be cured by the diagonal `a`-`b`.
pub open spec fn curable_result(vertices: Seq<Point2>, ring: Seq<usize>, a_pos: int, p_pos: int, q_pos: int, b_pos: int, policy: PredicatePolicy) -> Result<bool, Error> {
    let a = ring[a_pos];
    let p = ring[p_pos];
    let q = ring[q_pos];
    let b = ring[b_pos];
    if vertices[a as int].same_point(vertices[b as int]) || vertices[p as int].same_point(vertices[q as int]) {
        Ok(false)
    } else {
        match segment_intersection_result(vertices, a as int, p as int, q as int, b as int, policy) {
            Err(e) => Err(e),
            Ok(k) => if k != SegmentIntersection::Proper {
                Ok(false)
            } else {
                match orient2_result(vertices, a as int, p as int, b as int, policy) {
                    Err(e) => Err(e),
                    Ok(s) => if s == Sign::Zero { Ok(false) } else { pair_diagonal_clear_from(vertices, ring, a, p, q, b, 0, policy) },
                }
            },
        }
    }
}

/// Whether the ring's edges `a`-`p` and `q`-`b` around the consecutive
/// pair `p`, `q` properly cross, `a`, `p`, `b` turn, and the diagonal `a`-`b`
/// is clear once `p` and `q` are removed.
fn local_intersection_is_curable(
    vertices: &[Point2],
    ring: &Vec<usize>,
    a_pos: usize,
    p_pos: usize,
    q_pos: usize,
    b_pos: usize,
    policy: PredicatePolicy,
) -> (r: Result<bool, Error>)
    requires
        indices_in_bounds(ring@, vertices@.len() as int),
        a_pos < ring@.len(),
        p_pos < ring@.len(),
        q_pos < ring@.len(),
        b_pos < ring@.len(),
    ensures
        r == curable_result(vertices@, ring@, a_pos as int, p_pos as int, q_pos as int, b_pos as int, policy),
        policy_decides(policy) && fractions_valid(vertices@) ==> r is Ok,
{
    proof {
        if policy_decides(policy) && fractions_valid(vertices@) {
            lemma_pair_clear_decided(vertices@, ring@, ring@[a_pos as int], ring@[p_pos as int], ring@[q_pos as int], ring@[b_pos as int], 0, policy);
        }
    }
    let a = ring[a_pos];
    let p = ring[p_pos];
    let q = ring[q_pos];
    let b = ring[b_pos];
    if same_point(vertices, a, b) || same_point(vertices, p, q) {
        return Ok(false);
    }
    if segment_intersection(vertices, a, p, q, b, policy)? != SegmentIntersection::Proper {
        return Ok(false);
    }
    if orient2(vertices, a, p, b, policy)? == Sign::Zero {
        return Ok(false);
    }
    diagonal_clear_after_removing_local_pair(vertices, ring, a, p, q, b, policy)
}

/// Remove two cyclically consecutive ring positions.
fn remove_adjacent_positions(ring: &mut Vec<usize>, first: usize, second: usize)
    requires
        old(ring)@.len() >= 2,
        first < old(ring)@.len(),
        second < old(ring)@.len(),
        first != second,
    ensures
        final(ring)@.len() == old(ring)@.len() - 2,
        forall|i: int| 0 <= i < final(ring)@.len() ==> old(ring)@.contains(#[trigger] final(ring)@[i]),
{
    let ghost start = ring@;
    if second > first {
        ring.remove(second);
        ring.remove(first);
    } else {
        ring.remove(first);
        ring.remove(second);
    }
    proof {
        assert forall|i: int| 0 <= i < ring@.len() implies start.contains(#[trigger] ring@[i]) by {
            let lo = if first < second { first as int } else { second as int };
            let hi = if first < second { second as int } else { first as int };
            if i < lo {
                assert(ring@[i] == start[i]);
            } else if i + 1 < hi {
                assert(ring@[i] == start[i + 1]);
            } else {
                assert(ring@[i] == start[i + 2]);
            }
        }
    }
}

/// The result of a local-intersection cure: the ring, the emitted
/// triangles and whether a cure happened.
pub open spec fn cure_valid(ring: Seq<usize>, out: (Vec<usize>, Vec<usize>, bool), point_count: int) -> bool {
    &&& indices_in_bounds(out.0@, point_count)
    &&& flat_triangles_valid(out.1@, point_count)
    &&& (out.2 ==> out.0@.len() + 2 == ring.len())
    &&& (!out.2 ==> out.0@.len() == ring.len())
    &&& drawn_from(out.0@, ring)
    &&& drawn_from(out.1@, ring)
}

/// Cure the first local self-intersection: where the edges around a
/// consecutive vertex pair cross, emit the triangle bridging the twist and
/// drop the pair.
pub fn cure_local_intersections(vertices: &[Point2], ring: Vec<usize>, policy: PredicatePolicy) -> (r: Result<(Vec<usize>, Vec<usize>, bool), Error>)
    requires
        indices_in_bounds(ring@, vertices@.len() as int),
    ensures
        r matches Ok(out) ==> cure_valid(ring@, out, vertices@.len() as int),
        policy_decides(policy) && fractions_valid(vertices@) ==> r is Ok,
{
    let n = vertices.len();
    if ring.len() < 4 {
        return Ok((ring, Vec::new(), false));
    }
    let len = ring.len();
    let mut cursor: usize = 0;
    while cursor < len
        invariant
            n == vertices@.len(),
            len == ring@.len(),
            len >= 4,
            indices_in_bounds(ring@, n as int),
        decreases len - cursor,
    {
        let a_pos = previous_position(len, cursor);
        let p_pos = cursor;
        let q_pos = next_position(len, cursor);
        let b_pos = next_position(len, q_pos);
        if local_intersection_is_curable(vertices, &ring, a_pos, p_pos, q_pos, b_pos, policy)? {
            let a = ring[a_pos];
            let p = ring[p_pos];
            let b = ring[b_pos];
            let mut cured = vstd::slice::slice_to_vec(ring.as_slice());
            remove_adjacent_positions(&mut cured, p_pos, q_pos);
            let sign = orient2(vertices, a, p, b, policy)?;
            if sign == Sign::Zero {
                return Ok((ring, Vec::new(), false));
            }
            let mut triangles: Vec<usize> = Vec::new();
            push_triangle(&mut triangles, a, p, b, sign);
            proof {
                assert forall|i: int| 0 <= i < cured@.len() implies #[trigger] cured@[i] < n by {
                    let k = choose|k: int| 0 <= k < ring@.len() && ring@[k] == cured@[i];
                    assert(ring@[k] < n);
                }
                assert(flat_triangles_valid(triangles@, n as int)) by {
                    assert(triangles@.len() == 3);
                    assert(a < n && p < n && b < n);
                }
                assert(ring@.contains(ring@[a_pos as int]) && ring@.contains(ring@[p_pos as int]) && ring@.contains(ring@[b_pos as int]));
                assert(drawn_from(triangles@, ring@));
            }
            return Ok((cured, triangles, true));
        }
        cursor = cursor + 1;
    }
    Ok((ring, Vec::new(), false))
}

/// Whether the segment between two ring positions is a valid internal
/// diagonal: distinct points, clear of the ring, midpoint inside it.
fn diagonal_is_valid(vertices: &[Point2], ring: &Vec<usize>, first_pos: usize, second_pos: usize, policy: PredicatePolicy) -> (r: Result<bool, Error>)
    requires
        indices_in_bounds(ring@, vertices@.len() as int),
        first_pos < ring@.len(),
        second_pos < ring@.len(),
    ensures
        r == diagonal_valid_result(vertices@, ring@, first_pos as int, second_pos as int, policy),
        policy_decides(policy) && fractions_valid(vertices@) && all_midpoints_fit(vertices@) ==> r is Ok,
{
    let first = ring[first_pos];
    let second = ring[second_pos];
    if same_point(vertices, first, second) {
        return Ok(false);
    }
    if !segment_is_clear_of_ring(vertices, first, second, ring.as_slice(), policy)? {
        return Ok(false);
    }
    let middle = midpoint_of(vertices, first, second)?;
    point_in_ring_even_odd(vertices, ring.as_slice(), &middle, policy)
}

/// The first valid diagonal between nonadjacent ring positions, by
/// increasing gap and then start position, as an ordered pair.
fn find_split_diagonal(vertices: &[Point2], ring: &Vec<usize>, policy: PredicatePolicy) -> (r: Result<Option<(usize, usize)>, Error>)
    requires
        indices_in_bounds(ring@, vertices@.len() as int),
    ensures
        r matches Ok(Some(d)) ==> d.0 + 2 <= d.1 < ring@.len() && !(d.0 == 0 && d.1 + 1 == ring@.len()),
        r matches Ok(Some(d)) ==> diagonal_valid_result(vertices@, ring@, d.0 as int, d.1 as int, policy) == Ok::<bool, Error>(true)
            || diagonal_valid_result(vertices@, ring@, d.1 as int, d.0 as int, policy) == Ok::<bool, Error>(true),
        policy_decides(policy) && fractions_valid(vertices@) && all_midpoints_fit(vertices@) ==> r is Ok,
{
    let len = ring.len();
    let last_gap = len.saturating_sub(1);
    let mut gap: usize = 2;
    while gap < last_gap
        invariant
            len == ring@.len(),
            last_gap == (if len >= 1 { len - 1 } else { 0 }),
            2 <= gap,
            indices_in_bounds(ring@, vertices@.len() as int),
        decreases last_gap - gap,
    {
        let mut first: usize = 0;
        while first < len
            invariant
                len == ring@.len(),
                2 <= gap,
                gap + 1 < len,
                indices_in_bounds(ring@, vertices@.len() as int),
            decreases len - first,
        {
            let second = if gap < len - first { first + gap } else { gap - (len - first) };
            let adjacent = first == second || next_position(len, first) == second || next_position(len, second) == first;
            if !adjacent && diagonal_is_valid(vertices, ring, first, second, policy)? {
                let ordered = if first < second { (first, second) } else { (second, first) };
                return Ok(Some(ordered));
            }
            first = first + 1;
        }
        gap = gap + 1;
    }
    Ok(None)
}

/// The two rings on either side of the diagonal between positions `first`
/// and `second` (`first < second`), each including both diagonal ends.
fn split_ring(ring: &Vec<usize>, first: usize, second: usize) -> (r: (Vec<usize>, Vec<usize>))
    requires
        first < second < ring@.len(),
    ensures
        r.0@.len() == second - first + 1,
        r.1@.len() == ring@.len() - (second - first) + 1,
        forall|i: int| 0 <= i < r.0@.len() ==> ring@.contains(#[trigger] r.0@[i]),
        forall|i: int| 0 <= i < r.1@.len() ==> ring@.contains(#[trigger] r.1@[i]),
{
    let rlen = ring.len();
    let mut left: Vec<usize> = Vec::new();
    let mut i = first;
    while i <= second
        invariant
            rlen == ring@.len(),
            first <= i <= second + 1,
            second < rlen,
            left@.len() == i - first,
            forall|k: int| 0 <= k < left@.len() ==> ring@.contains(#[trigger] left@[k]),
        decreases second + 1 - i,
    {
        proof { assert(ring@.contains(ring@[i as int])); }
        left.push(ring[i]);
        i = i + 1;
    }
    let mut right: Vec<usize> = Vec::new();
    let mut i = second;
    while i < ring.len()
        invariant
            second <= i <= ring@.len(),
            right@.len() == i - second,
            forall|k: int| 0 <= k < right@.len() ==> ring@.contains(#[trigger] right@[k]),
        decreases ring@.len() - i,
    {
        proof { assert(ring@.contains(ring@[i as int])); }
        right.push(ring[i]);
        i = i + 1;
    }
    let mut i: usize = 0;
    while i <= first
        invariant
            first < second < ring@.len(),
            i <= first + 1,
            right@.len() == ring@.len() - second + i,
            forall|k: int| 0 <= k < right@.len() ==> ring@.contains(#[trigger] right@[k]),
        decreases first + 1 - i,
    {
        proof { assert(ring@.contains(ring@[i as int])); }
        right.push(ring[i]);
        i = i + 1;
    }
    (left, right)
}

/// Entries drawn from an in-range list are in range.
proof fn lemma_subset_in_bounds(part: Seq<usize>, whole: Seq<usize>, point_count: int)
    requires
        indices_in_bounds(whole, point_count),
        forall|i: int| 0 <= i < part.len() ==> whole.contains(#[trigger] part[i]),
    ensures
        indices_in_bounds(part, point_count),
{
    assert forall|i: int| 0 <= i < part.len() implies #[trigger] part[i] < point_count by {
        let k = choose|k: int| 0 <= k < whole.len() && whole[k] == part[i];
        assert(whole[k] < point_count);
    }
}

/// Split a difficult ring along its first valid diagonal and clip both
/// sides, failing once the split depth exceeds the ring size or no diagonal
/// is valid.
pub fn split_or_fail(
    vertices: &[Point2],
    ring: Vec<usize>,
    winding: Sign,
    split_depth: usize,
    policy: PredicatePolicy,
    diagnostics: &mut EarcutDiagnostics,
) -> (r: Result<Vec<usize>, Error>)
    requires
        indices_in_bounds(ring@, vertices@.len() as int),
    ensures
        r matches Ok(t) ==> flat_triangles_valid(t@, vertices@.len() as int),
        r matches Ok(t) ==> drawn_from(t@, ring@),
        r is Err && policy_decides(policy) && fractions_valid(vertices@) && all_midpoints_fit(vertices@) ==> r == Err::<Vec<usize>, Error>(Error::NoEarFound),
    decreases ring@.len(), 0int,
{
    let n = vertices.len();
    if split_depth > ring.len() {
        return Err(Error::NoEarFound);
    }
    bump(&mut diagnostics.split_fallbacks);
    let (first, second) = match find_split_diagonal(vertices, &ring, policy)? {
        Some(d) => d,
        None => return Err(Error::NoEarFound),
    };
    let (left, right) = split_ring(&ring, first, second);
    proof {
        lemma_subset_in_bounds(left@, ring@, n as int);
        lemma_subset_in_bounds(right@, ring@, n as int);
    }
    let ghost left_split = left@;
    let ghost right_split = right@;
    let left = filter_ring(vertices, left, policy)?;
    let right = filter_ring(vertices, right, policy)?;
    proof {
        lemma_drawn_from_transitive(left@, left_split, ring@);
        lemma_drawn_from_transitive(right@, right_split, ring@);
    }
    let mut triangles: Vec<usize> = Vec::new();
    if left.len() >= 3 {
        let ghost left_ring = left@;
        let part = clip_ring_with_splits(vertices, left, winding, split_depth.saturating_add(1), policy, diagnostics)?;
        proof {
            lemma_concat_valid(triangles@, part@, n as int);
            lemma_drawn_from_transitive(part@, left_ring, ring@);
            lemma_drawn_from_concat(triangles@, part@, ring@);
        }
        append_indices(&mut triangles, part);
    }
    if right.len() >= 3 {
        let ghost right_ring = right@;
        let part = clip_ring_with_splits(vertices, right, winding, split_depth.saturating_add(1), policy, diagnostics)?;
        proof {
            lemma_concat_valid(triangles@, part@, n as int);
            lemma_drawn_from_transitive(part@, right_ring, ring@);
            lemma_drawn_from_concat(triangles@, part@, ring@);
        }
        append_indices(&mut triangles, part);
    }
    Ok(triangles)
}

/// The clipping pass budget `4 len^2 + 1`, saturating at the largest
/// `usize`.
fn clip_budget(len: usize) -> (r: usize)
    ensures
        r == if 4 * len * len + 1 <= usize::MAX { (4 * len * len + 1) as int } else { usize::MAX as int },
{
    proof {
        assert(4 * len * len == 4 * (len * len)) by (nonlinear_arith);
        assert(len * len >= 0) by (nonlinear_arith);
    }
    match len.checked_mul(len) {
        Some(square) => match square.checked_mul(4) {
            Some(scaled) => scaled.saturating_add(1),
            None => usize::MAX,
        },
        None => usize::MAX,
    }
}

/// Clip ears around the ring, cursor by cursor; after a full pass without
/// an ear, filter the ring, then cure a local intersection or split along a
/// diagonal; a pass budget quadratic in the ring size bounds the clipping.
#[verifier::loop_isolation(false)]
#[verifier::rlimit(50)]
fn clip_ring_with_splits(
    vertices: &[Point2],
    ring: Vec<usize>,
    winding: Sign,
    split_depth: usize,
    policy: PredicatePolicy,
    diagnostics: &mut EarcutDiagnostics,
) -> (r: Result<Vec<usize>, Error>)
    requires
        indices_in_bounds(ring@, vertices@.len() as int),
    ensures
        r matches Ok(t) ==> flat_triangles_valid(t@, vertices@.len() as int),
        r matches Ok(t) ==> drawn_from(t@, ring@),
        r is Err && policy_decides(policy) && fractions_valid(vertices@) && all_midpoints_fit(vertices@) ==> r == Err::<Vec<usize>, Error>(Error::NoEarFound),
        policy_decides(policy) && fractions_valid(vertices@) && ring@.len() <= 3 ==> r is Ok,
        policy_decides(policy) && fractions_valid(vertices@) && ring@.len() == 3
            && (orient2_result(vertices@, ring@[0] as int, ring@[1] as int, ring@[2] as int, policy) matches Ok(s) && s != Sign::Zero)
            ==> (r matches Ok(t) && t@.len() == 3),
    decreases ring@.len(), 1int,
{
    let n = vertices.len();
    let ghost original = ring@.len();
    let ghost input = ring@;
    let mut ring = ring;
    let mut triangles: Vec<usize> = Vec::new();
    let mut cursor: usize = 0;
    let mut misses: usize = 0;
    let mut guard = clip_budget(ring.len());
    let mut prepared = prepare_local_convexity(vertices, &ring, winding, policy, diagnostics)?;
    while ring.len() > 3
        invariant
            n == vertices@.len(),
            indices_in_bounds(ring@, n as int),
            ring@.len() <= original,
            prepared@.len() == ring@.len(),
            ring@.len() > 3 ==> cursor < ring@.len(),
            misses <= ring@.len(),
            flat_triangles_valid(triangles@, n as int),
            drawn_from(ring@, input),
            drawn_from(triangles@, input),
            input.len() <= 3 ==> ring@ == input && triangles@.len() == 0,
        decreases ring@.len(), guard,
    {
        if guard == 0 {
            let (cured_ring, cured_triangles, cured) = cure_local_intersections(vertices, ring, policy)?;
            proof {
                lemma_drawn_from_transitive(cured_ring@, ring@, input);
                lemma_drawn_from_transitive(cured_triangles@, ring@, input);
            }
            if cured {
                proof {
                    lemma_concat_valid(triangles@, cured_triangles@, n as int);
                    lemma_drawn_from_concat(triangles@, cured_triangles@, input);
                }
                append_indices(&mut triangles, cured_triangles);
                let rest = clip_ring_with_splits(vertices, cured_ring, winding, split_depth, policy, diagnostics)?;
                proof {
                    lemma_concat_valid(triangles@, rest@, n as int);
                    lemma_drawn_from_transitive(rest@, cured_ring@, input);
                    lemma_drawn_from_concat(triangles@, rest@, input);
                }
                append_indices(&mut triangles, rest);
                return Ok(triangles);
            }
            let rest = split_or_fail(vertices, cured_ring, winding, split_depth, policy, diagnostics)?;
            proof { lemma_drawn_from_transitive(rest@, cured_ring@, input); }
            return Ok(rest);
        }
        guard = guard - 1;
        if is_ear(vertices, &ring, &prepared, cursor, policy, diagnostics)? {
            let len = ring.len();
            let prev = ring[previous_position(len, cursor)];
            let curr = ring[cursor];
            let next = ring[next_position(len, cursor)];
            let ghost before = triangles@;
            proof {
                let pi = previous_position_spec(len as int, cursor as int);
                let ni = next_position_spec(len as int, cursor as int);
                assert(ring@[pi] == prev && ring@[cursor as int] == curr && ring@[ni] == next);
                assert(ring@.contains(prev) && ring@.contains(curr) && ring@.contains(next));
            }
            push_triangle(&mut triangles, prev, curr, next, winding);
            proof {
                lemma_push_triangle_valid(before, triangles@.subrange(before.len() as int, triangles@.len() as int), n as int);
                assert(triangles@ =~= before + triangles@.subrange(before.len() as int, triangles@.len() as int));
                assert forall|i: int| 0 <= i < triangles@.len() implies input.contains(#[trigger] triangles@[i]) by {
                    if i < before.len() { assert(triangles@[i] == before[i]); }
                }
            }
            bump(&mut diagnostics.emitted_triangles);
            let ghost ring_before = ring@;
            ring.remove(cursor);
            prepared.remove(cursor);
            proof {
                lemma_remove_in_bounds(ring_before, cursor as int, n as int);
                assert forall|k: int| 0 <= k < ring@.len() implies input.contains(#[trigger] ring@[k]) by {
                    if k < cursor { assert(ring@[k] == ring_before[k]); } else { assert(ring@[k] == ring_before[k + 1]); }
                }
            }
            if cursor == ring.len() {
                cursor = 0;
            }
            update_prepared_convexity_after_clip(vertices, &ring, &mut prepared, cursor, winding, policy, diagnostics)?;
            misses = 0;
        } else {
            cursor = next_position(ring.len(), cursor);
            misses = misses.saturating_add(1);
            if misses > ring.len() {
                let previous_len = ring.len();
                let ghost unfiltered = ring@;
                ring = filter_ring(vertices, ring, policy)?;
                proof { lemma_drawn_from_transitive(ring@, unfiltered, input); }
                if ring.len() < 3 {
                    return Ok(triangles);
                }
                prepared = prepare_local_convexity(vertices, &ring, winding, policy, diagnostics)?;
                if ring.len() == previous_len {
                    let ghost uncured = ring@;
                    let (cured_ring, cured_triangles, cured) = cure_local_intersections(vertices, ring, policy)?;
                    proof {
                        lemma_concat_valid(triangles@, cured_triangles@, n as int);
                        lemma_drawn_from_transitive(cured_ring@, uncured, input);
                        lemma_drawn_from_transitive(cured_triangles@, uncured, input);
                        lemma_drawn_from_concat(triangles@, cured_triangles@, input);
                    }
                    append_indices(&mut triangles, cured_triangles);
                    if cured {
                        bump(&mut diagnostics.local_intersection_cures);
                        ring = cured_ring;
                        prepared = prepare_local_convexity(vertices, &ring, winding, policy, diagnostics)?;
                        cursor = 0;
                        misses = 0;
                        guard = clip_budget(ring.len());
                    } else {
                        let rest = split_or_fail(vertices, cured_ring, winding, split_depth, policy, diagnostics)?;
                        proof {
                            lemma_concat_valid(triangles@, rest@, n as int);
                            lemma_drawn_from_transitive(rest@, cured_ring@, input);
                            lemma_drawn_from_concat(triangles@, rest@, input);
                        }
                        append_indices(&mut triangles, rest);
                        return Ok(triangles);
                    }
                } else {
                    cursor = cursor % ring.len();
                    misses = 0;
                }
            }
        }
    }
    if ring.len() == 3 {
        let sign = orient2(vertices, ring[0], ring[1], ring[2], policy)?;
        if sign != Sign::Zero {
            let ghost before = triangles@;
            proof {
                assert(ring@.contains(ring@[0]) && ring@.contains(ring@[1]) && ring@.contains(ring@[2]));
            }
            push_triangle(&mut triangles, ring[0], ring[1], ring[2], sign);
            proof {
                lemma_push_triangle_valid(before, triangles@.subrange(before.len() as int, triangles@.len() as int), n as int);
                assert(triangles@ =~= before + triangles@.subrange(before.len() as int, triangles@.len() as int));
                assert forall|i: int| 0 <= i < triangles@.len() implies input.contains(#[trigger] triangles@[i]) by {
                    if i < before.len() { assert(triangles@[i] == before[i]); }
                }
            }
            bump(&mut diagnostics.emitted_triangles);
        }
    }
    Ok(triangles)
}

/// The ring clipped from scratch.
fn clip_ring(vertices: &[Point2], ring: Vec<usize>, winding: Sign, policy: PredicatePolicy, diagnostics: &mut EarcutDiagnostics) -> (r: Result<Vec<usize>, Error>)
    requires
        indices_in_bounds(ring@, vertices@.len() as int),
    ensures
        r matches Ok(t) ==> flat_triangles_valid(t@, vertices@.len() as int),
        r matches Ok(t) ==> drawn_from(t@, ring@),
        policy_decides(policy) && fractions_valid(vertices@) && ring@.len() <= 3 ==> r is Ok,
        policy_decides(policy) && fractions_valid(vertices@) && ring@.len() == 3
            && (orient2_result(vertices@, ring@[0] as int, ring@[1] as int, ring@[2] as int, policy) matches Ok(s) && s != Sign::Zero)
            ==> (r matches Ok(t) && t@.len() == 3),
        r is Err && policy_decides(policy) && fractions_valid(vertices@) && all_midpoints_fit(vertices@) ==> r == Err::<Vec<usize>, Error>(Error::NoEarFound),
{
    clip_ring_with_splits(vertices, ring, winding, 0, policy, diagnostics)
}

/// Check a flat triangle buffer's shape: whole triangles, every index
/// naming a vertex.
fn check_flat_triangles(vertices: &[Point2], triangles: &[usize]) -> (r: Result<(), Error>)
    ensures
        r is Ok <==> flat_triangles_valid(triangles@, vertices@.len() as int),
{
    if triangles.len() % 3 != 0 {
        return Err(Error::InvalidInput { reason: "triangle index buffer length is not a multiple of three" });
    }
    let mut k: usize = 0;
    while k < triangles.len()
        invariant
            triangles@.len() % 3 == 0,
            forall|i: int| 0 <= i < k ==> #[trigger] triangles@[i] < vertices@.len(),
        decreases triangles@.len() - k,
    {
        if triangles[k] >= vertices.len() {
            return Err(Error::InvalidInput { reason: "triangle index is out of bounds" });
        }
        k = k + 1;
    }
    Ok(())
}

/// Position of the first count entry for `edge` at or after `j`, or the
/// length when there is none.
pub open spec fn count_position(counts: Seq<(EdgeKey, usize)>, edge: EdgeKey, j: int) -> int
    decreases counts.len() - j,
{
    if j < 0 || j >= counts.len() {
        counts.len() as int
    } else if counts[j].0 == edge {
        j
    } else {
        count_position(counts, edge, j + 1)
    }
}

proof fn lemma_count_position_range(counts: Seq<(EdgeKey, usize)>, edge: EdgeKey, j: int)
    requires
        0 <= j <= counts.len(),
    ensures
        j <= count_position(counts, edge, j) <= counts.len(),
        count_position(counts, edge, j) < counts.len() ==> counts[count_position(counts, edge, j)].0 == edge,
    decreases counts.len() - j,
{
    if j < counts.len() && counts[j].0 != edge {
        lemma_count_position_range(counts, edge, j + 1);
    }
}

/// Add one use of `edge` to the per-edge use counts.
fn count_edge_use(counts: &mut Vec<(EdgeKey, usize)>, edge: EdgeKey, limit: usize)
    requires
        limit >= 1,
        forall|j: int| 0 <= j < old(counts)@.len() ==> (#[trigger] old(counts)@[j]).1 < limit,
    ensures
        forall|j: int| 0 <= j < final(counts)@.len() ==> (#[trigger] final(counts)@[j]).1 <= limit,
        ({
            let p = count_position(old(counts)@, edge, 0);
            if p < old(counts)@.len() {
                final(counts)@ == old(counts)@.update(p, (edge, (old(counts)@[p].1 + 1) as usize))
            } else {
                final(counts)@ == old(counts)@.push((edge, 1usize))
            }
        }),
{
    let mut j: usize = 0;
    while j < counts.len()
        invariant
            0 <= j <= counts@.len(),
            counts@ == old(counts)@,
            count_position(counts@, edge, 0) == count_position(counts@, edge, j as int),
            forall|i: int| 0 <= i < counts@.len() ==> (#[trigger] counts@[i]).1 < limit,
        decreases counts@.len() - j,
    {
        let entry = counts[j];
        if entry.0 == edge {
            counts.set(j, (edge, entry.1 + 1));
            return;
        }
        j = j + 1;
    }
    counts.push((edge, 1));
}

/// The use count of `edge`, when it is used at all.
fn edge_use_count(counts: &Vec<(EdgeKey, usize)>, edge: EdgeKey) -> (r: Option<usize>)
    ensures
        r == if count_position(counts@, edge, 0) < counts@.len() { Some(counts@[count_position(counts@, edge, 0)].1) } else { None::<usize> },
{
    let mut j: usize = 0;
    while j < counts.len()
        invariant
            0 <= j <= counts@.len(),
            count_position(counts@, edge, 0) == count_position(counts@, edge, j as int),
        decreases counts@.len() - j,
    {
        if counts[j].0 == edge {
            return Some(counts[j].1);
        }
        j = j + 1;
    }
    None
}

/// Add the distinct nondegenerate edges of one input ring.
/// The index range of a ring without a closing vertex that repeats its
/// first.
pub open spec fn open_ring_end(vertices: Seq<Point2>, range: RingRange) -> int {
    if range.end - range.start >= 2 && vertices[range.start as int].same_point(vertices[range.end - 1]) { range.end - 1 } else { range.end as int }
}

/// The nondegenerate edges of the open ring `start..end` (cyclically) among
/// its first `upto` edges.
pub open spec fn ring_edge_set(vertices: Seq<Point2>, start: int, end: int, upto: int) -> Set<EdgeKey>
    decreases upto,
{
    if upto <= 0 {
        Set::empty()
    } else {
        let p = upto - 1;
        let a = start + p;
        let b = start + next_position_spec(end - start, p);
        let rest = ring_edge_set(vertices, start, end, upto - 1);
        if vertices[a].same_point(vertices[b]) { rest } else { rest.insert(edge_key(a as usize, b as usize)) }
    }
}

/// The nondegenerate edges of an input ring.
pub open spec fn input_ring_edges(vertices: Seq<Point2>, range: RingRange) -> Set<EdgeKey> {
    let end = open_ring_end(vertices, range);
    ring_edge_set(vertices, range.start as int, end, end - range.start)
}

fn add_ring_edges(vertices: &[Point2], range: RingRange, edges: &mut Vec<EdgeKey>)
    requires
        range_in_bounds(range, vertices@.len() as int),
        edges_sorted(old(edges)@),
    ensures
        edges_sorted(final(edges)@),
        final(edges)@.to_set() == old(edges)@.to_set().union(input_ring_edges(vertices@, range)),
{
    let ghost initial = edges@.to_set();
    let ring = open_ring_indices(vertices, range);
    proof {
        assert forall|i: int| 0 <= i < ring@.len() implies #[trigger] ring@[i] < vertices@.len() by {
            assert(ring@[i] == range.start + i);
        }
    }
    let len = ring.len();
    let mut position: usize = 0;
    while position < len
        invariant
            len == ring@.len(),
            len == open_ring_end(vertices@, range) - range.start,
            forall|i: int| 0 <= i < ring@.len() ==> #[trigger] ring@[i] == range.start + i,
            0 <= position <= len,
            indices_in_bounds(ring@, vertices@.len() as int),
            edges_sorted(edges@),
            edges@.to_set() == initial.union(ring_edge_set(vertices@, range.start as int, open_ring_end(vertices@, range), position as int)),
        decreases len - position,
    {
        let start = ring[position];
        let end = ring[next_position(len, position)];
        if !same_point(vertices, start, end) {
            push_unique_edge(edges, EdgeKey::new(start, end));
        }
        proof {
            assert(edges@.to_set() =~= initial.union(ring_edge_set(vertices@, range.start as int, open_ring_end(vertices@, range), position + 1)));
        }
        position = position + 1;
    }
    proof {
        assert(edges@.to_set() =~= old(edges)@.to_set().union(input_ring_edges(vertices@, range)));
    }
}

/// The distinct nondegenerate edges of the input rings.
/// The nondegenerate edges of the exterior and of the first `h` holes.
pub open spec fn boundary_edge_set(vertices: Seq<Point2>, rings: PolygonRings, h: int) -> Set<EdgeKey>
    decreases h,
{
    if h <= 0 || h > rings.holes_view().len() {
        input_ring_edges(vertices, rings.exterior_view())
    } else {
        boundary_edge_set(vertices, rings, h - 1).union(input_ring_edges(vertices, rings.holes_view()[h - 1]))
    }
}

fn input_boundary_edges(vertices: &[Point2], rings: &PolygonRings) -> (r: Vec<EdgeKey>)
    requires
        rings_in_bounds(*rings, vertices@.len() as int),
    ensures
        edges_sorted(r@),
        r@.to_set() == boundary_edge_set(vertices@, *rings, rings.holes_view().len() as int),
{
    let mut edges: Vec<EdgeKey> = Vec::new();
    add_ring_edges(vertices, rings.exterior(), &mut edges);
    let holes = rings.holes();
    let mut h: usize = 0;
    while h < holes.len()
        invariant
            rings_in_bounds(*rings, vertices@.len() as int),
            holes@ == rings.holes_view(),
            edges_sorted(edges@),
            0 <= h <= holes@.len(),
            edges@.to_set() == boundary_edge_set(vertices@, *rings, h as int),
        decreases holes@.len() - h,
    {
        proof { assert(range_in_bounds(holes@[h as int], vertices@.len() as int)); }
        add_ring_edges(vertices, holes[h], &mut edges);
        proof { assert(edges@.to_set() =~= boundary_edge_set(vertices@, *rings, h + 1)); }
        h = h + 1;
    }
    edges
}

/// Whether the triangles use every nondegenerate input ring edge exactly
/// once and every other edge exactly twice.
pub fn triangles_match_input_boundary(vertices: &[Point2], rings: &PolygonRings, triangles: &Vec<usize>) -> (r: Result<bool, Error>)
    requires
        rings_in_bounds(*rings, vertices@.len() as int),
    ensures
        r is Ok <==> flat_triangles_valid(triangles@, vertices@.len() as int),
{
    check_flat_triangles(vertices, triangles.as_slice())?;
    let boundary = input_boundary_edges(vertices, rings);
    let mut counts: Vec<(EdgeKey, usize)> = Vec::new();
    let mut k: usize = 0;
    while k < triangles.len()
        invariant
            k <= triangles@.len(),
            k % 3 == 0,
            flat_triangles_valid(triangles@, vertices@.len() as int),
            forall|j: int| 0 <= j < counts@.len() ==> (#[trigger] counts@[j]).1 <= k,
        decreases triangles@.len() - k,
    {
        let a = triangles[k];
        let b = triangles[k + 1];
        let c = triangles[k + 2];
        count_edge_use(&mut counts, EdgeKey::new(a, b), k + 1);
        count_edge_use(&mut counts, EdgeKey::new(b, c), k + 2);
        count_edge_use(&mut counts, EdgeKey::new(c, a), k + 3);
        k = k + 3;
    }
    let mut i: usize = 0;
    while i < boundary.len()
        invariant
            flat_triangles_valid(triangles@, vertices@.len() as int),
        decreases boundary@.len() - i,
    {
        if edge_use_count(&counts, boundary[i]) != Some(1usize) {
            return Ok(false);
        }
        i = i + 1;
    }
    let mut j: usize = 0;
    while j < counts.len()
        invariant
            flat_triangles_valid(triangles@, vertices@.len() as int),
        decreases counts@.len() - j,
    {
        let (edge, count) = counts[j];
        let expected: usize = if contains_boundary_edge(&boundary, edge) { 1 } else { 2 };
        if count != expected {
            return Ok(false);
        }
        j = j + 1;
    }
    Ok(true)
}

/// Whether `edge` is one of the boundary edges.
fn contains_boundary_edge(edges: &Vec<EdgeKey>, edge: EdgeKey) -> (r: bool)
    ensures
        r == edges@.contains(edge),
{
    let mut i: usize = 0;
    while i < edges.len()
        invariant
            0 <= i <= edges@.len(),
            forall|k: int| 0 <= k < i ==> edges@[k] != edge,
        decreases edges@.len() - i,
    {
        if edges[i] == edge {
            return true;
        }
        i = i + 1;
    }
    false
}

/// The first input vertex, other than the triangle's own vertices and
/// their duplicates, lying on a triangle edge: the edge's ends, the
/// opposite vertex and the vertex.
fn find_edge_split(vertices: &[Point2], triangle: [usize; 3], policy: PredicatePolicy) -> (r: Result<Option<(usize, usize, usize, usize)>, Error>)
    requires
        triangle[0] < vertices@.len() && triangle[1] < vertices@.len() && triangle[2] < vertices@.len(),
    ensures
        r matches Ok(Some(split)) ==> split.0 < vertices@.len() && split.1 < vertices@.len() && split.2 < vertices@.len() && split.3 < vertices@.len(),
        policy_decides(policy) && fractions_valid(vertices@) ==> r is Ok,
{
    let n = vertices.len();
    let mut slot: usize = 0;
    while slot < 3
        invariant
            n == vertices@.len(),
            triangle[0] < n && triangle[1] < n && triangle[2] < n,
        decreases 3 - slot,
    {
        let edge_start = triangle[slot];
        let edge_end = triangle[if slot == 2 { 0 } else { slot + 1 }];
        let opposite = triangle[if slot == 0 { 2 } else { slot - 1 }];
        let mut candidate: usize = 0;
        while candidate < n
            invariant
                n == vertices@.len(),
                edge_start < n && edge_end < n && opposite < n,
            decreases n - candidate,
        {
            let skip = candidate == edge_start || candidate == edge_end || candidate == opposite
                || same_point(vertices, candidate, edge_start) || same_point(vertices, candidate, edge_end);
            if !skip && point_on_segment(vertices, edge_start, edge_end, candidate, policy)? {
                return Ok(Some((edge_start, edge_end, opposite, candidate)));
            }
            candidate = candidate + 1;
        }
        slot = slot + 1;
    }
    Ok(None)
}

/// Split triangle edges at input vertices lying on them until no triangle
/// edge holds one, so the mesh conforms to every input vertex. Each input
/// vertex refines the region of an input triangle at most twice, which
/// bounds the number of splits.
#[verifier::loop_isolation(false)]
pub fn split_edges_at_input_vertices(vertices: &[Point2], triangles: Vec<usize>, policy: PredicatePolicy) -> (r: Result<Vec<usize>, Error>)
    ensures
        r matches Ok(t) ==> flat_triangles_valid(t@, vertices@.len() as int),
        !flat_triangles_valid(triangles@, vertices@.len() as int) ==> r is Err,
        flat_triangles_valid(triangles@, vertices@.len() as int) && policy_decides(policy) && fractions_valid(vertices@) && r is Err
            ==> r == Err::<Vec<usize>, Error>(Error::InvalidInput { reason: "edge splitting exceeded its refinement bound" }),
{
    let n = vertices.len();
    check_flat_triangles(vertices, triangles.as_slice())?;
    let mut pending: Vec<[usize; 3]> = Vec::new();
    let mut k: usize = 0;
    while k < triangles.len()
        invariant
            k <= triangles@.len(),
            k % 3 == 0,
            n == vertices@.len(),
            flat_triangles_valid(triangles@, n as int),
            forall|t: int| 0 <= t < pending@.len() ==> (#[trigger] pending@[t])[0] < n && pending@[t][1] < n && pending@[t][2] < n,
        decreases triangles@.len() - k,
    {
        pending.push([triangles[k], triangles[k + 1], triangles[k + 2]]);
        k = k + 3;
    }
    let mut budget = (triangles.len() / 3).checked_mul(n).and_then(|refinements: usize| refinements.checked_mul(2)).unwrap_or(usize::MAX);
    let mut conforming: Vec<usize> = Vec::new();
    while pending.len() > 0
        invariant
            n == vertices@.len(),
            forall|t: int| 0 <= t < pending@.len() ==> (#[trigger] pending@[t])[0] < n && pending@[t][1] < n && pending@[t][2] < n,
            flat_triangles_valid(conforming@, n as int),
        decreases budget, pending@.len(),
    {
        let triangle = pending.pop().unwrap();
        match find_edge_split(vertices, triangle, policy)? {
            Some((edge_start, edge_end, opposite, candidate)) => {
                if budget == 0 {
                    return Err(Error::InvalidInput { reason: "edge splitting exceeded its refinement bound" });
                }
                budget = budget - 1;
                pending.push([candidate, edge_end, opposite]);
                pending.push([edge_start, candidate, opposite]);
            },
            None => {
                let ghost before = conforming@;
                conforming.push(triangle[0]);
                conforming.push(triangle[1]);
                conforming.push(triangle[2]);
                proof {
                    lemma_push_triangle_valid(before, seq![triangle[0], triangle[1], triangle[2]], n as int);
                    assert(conforming@ =~= before + seq![triangle[0], triangle[1], triangle[2]]);
                }
            },
        }
    }
    Ok(conforming)
}

/// Keep triangles that already match the input boundary; otherwise split
/// their edges at the input vertices they pass through.
pub fn ensure_input_conformity(vertices: &[Point2], rings: &PolygonRings, triangles: Vec<usize>, policy: PredicatePolicy) -> (r: Result<Vec<usize>, Error>)
    requires
        rings_in_bounds(*rings, vertices@.len() as int),
    ensures
        r matches Ok(t) ==> flat_triangles_valid(t@, vertices@.len() as int),
        !flat_triangles_valid(triangles@, vertices@.len() as int) ==> r is Err,
        flat_triangles_valid(triangles@, vertices@.len() as int) && policy_decides(policy) && fractions_valid(vertices@) && r is Err
            ==> r == Err::<Vec<usize>, Error>(Error::InvalidInput { reason: "edge splitting exceeded its refinement bound" }),
{
    if triangles_match_input_boundary(vertices, rings, &triangles)? {
        Ok(triangles)
    } else {
        split_edges_at_input_vertices(vertices, triangles, policy)
    }
}

/// Rings built from valid hole starts lie inside the buffer.
proof fn lemma_rings_in_bounds(rings: PolygonRings, hole_indices: Seq<usize>, n: int)
    requires
        rings_error(hole_indices, n) is None,
        0 < n <= usize::MAX,
        rings.exterior_view() == (RingRange { start: 0, end: exterior_end(hole_indices, n) as usize }),
        rings.holes_view().len() == hole_indices.len(),
        forall|i: int| 0 <= i < hole_indices.len() ==> #[trigger] rings.holes_view()[i] == (RingRange {
            start: hole_indices[i],
            end: hole_end(hole_indices, i, n) as usize,
        }),
    ensures
        rings_in_bounds(rings, n),
{
    assert(hole_starts_valid(hole_indices, n));
    assert forall|i: int| 0 <= i < rings.holes_view().len() implies range_in_bounds(#[trigger] rings.holes_view()[i], n) by {
        assert(rings.holes_view()[i] == (RingRange { start: hole_indices[i], end: hole_end(hole_indices, i, n) as usize }));
        if i + 1 < hole_indices.len() {
            assert(hole_indices[i] < hole_indices[i + 1]);
        }
    }
    if hole_indices.len() > 0 {
        assert(0 < hole_indices[0] < n);
    }
}

/// The empty report.
fn empty_report(diagnostics: EarcutDiagnostics) -> (r: EarcutReport)
    ensures
        r.triangles@.len() == 0,
        r.diagnostics == diagnostics,
{
    EarcutReport { triangles: Vec::new(), diagnostics }
}

/// Triangulate an exact polygon with holes and count the hot-loop work.
fn triangulate_report_inner(vertices: &[Point2], hole_indices: &[usize], policy: PredicatePolicy) -> (r: Result<EarcutReport, Error>)
    ensures
        rings_error(hole_indices@, vertices@.len() as int) matches Some(e) ==> r == Err::<EarcutReport, Error>(e),
        r matches Ok(report) ==> flat_triangles_valid(report.triangles@, vertices@.len() as int),
        vertices@.len() == 3 && hole_indices@.len() == 0 && policy_decides(policy) && fractions_valid(vertices@) ==> r is Ok,
        vertices@.len() == 3 && hole_indices@.len() == 0 && policy_decides(policy) && fractions_valid(vertices@)
            && proper_triangle_ring(vertices@, seq![0usize, 1, 2], policy)
            && (ring_area_result(vertices@, seq![0usize, 1, 2], policy) matches Ok(w) && w != Sign::Zero)
            ==> (r matches Ok(report) && report.triangles@.len() == 3),
{
    let n = vertices.len();
    let rings = rings_from_hole_indices(vertices, hole_indices)?;
    proof {
        if n > 0 {
            lemma_rings_in_bounds(rings, hole_indices@, n as int);
        }
    }
    let mut diagnostics = EarcutDiagnostics::default();
    if n == 0 {
        return Ok(empty_report(diagnostics));
    }
    let mut ring = normalized_ring(vertices, rings.exterior(), policy)?;
    if ring.len() < 3 {
        return Ok(empty_report(diagnostics));
    }
    proof {
        if policy_decides(policy) && fractions_valid(vertices@) {
            lemma_points_fractions_valid(vertices@);
            assert(ring_in_range(ring@, points_fractions(vertices@).len() as int));
        }
    }
    let winding = ring_area_sign(vertices, ring.as_slice(), policy)?;
    if winding == Sign::Zero {
        return Ok(empty_report(diagnostics));
    }
    let holes = normalized_holes(vertices, rings.holes(), winding, policy)?;
    if holes.len() == 1 {
        proof { assert(indices_in_bounds(holes@[0]@, n as int)); }
        match triangulate_rectangular_annulus(vertices, ring.as_slice(), holes[0].as_slice(), winding) {
            Some(triangles) => {
                if triangles_match_input_boundary(vertices, &rings, &triangles)? {
                    diagnostics.emitted_triangles = triangles.len() / 3;
                    return Ok(EarcutReport { triangles, diagnostics });
                }
            },
            None => {},
        }
    }
    if holes.len() > 0 {
        ring = bridge_holes(vertices, ring, &holes, policy)?;
        ring = filter_ring(vertices, ring, policy)?;
        if ring.len() < 3 {
            return Ok(empty_report(diagnostics));
        }
    }
    let triangles = clip_ring(vertices, ring, winding, policy, &mut diagnostics)?;
    let triangles = if holes.len() == 0 {
        triangles
    } else {
        ensure_input_conformity(vertices, &rings, triangles, policy)?
    };
    Ok(EarcutReport { triangles, diagnostics })
}

/// Triangulate an exact polygon (exterior from vertex zero, holes from the
/// listed starts) into a flat index buffer and report the hot-loop work.
pub fn triangulate_report(context: &TriangulationContext, vertices: &[Point2], hole_indices: &[usize]) -> (r: Result<TriangulationOutcome<EarcutReport>, Error>)
    ensures
        rings_error(hole_indices@, vertices@.len() as int) matches Some(e) ==> r == Err::<TriangulationOutcome<EarcutReport>, Error>(e),
        r matches Ok(out) ==> flat_triangles_valid(out.value.triangles@, vertices@.len() as int) && out.certainty == TriangulationCertainty::Certified,
        vertices@.len() == 3 && hole_indices@.len() == 0 && policy_decides(context.policy()) && fractions_valid(vertices@) ==> r is Ok,
        vertices@.len() == 3 && hole_indices@.len() == 0 && policy_decides(context.policy()) && fractions_valid(vertices@)
            && proper_triangle_ring(vertices@, seq![0usize, 1, 2], context.policy())
            && (ring_area_result(vertices@, seq![0usize, 1, 2], context.policy()) matches Ok(w) && w != Sign::Zero)
            ==> (r matches Ok(out) && out.value.triangles@.len() == 3),
{
    let report = triangulate_report_inner(vertices, hole_indices, context.predicate_policy())?;
    Ok(TriangulationOutcome::new(report, TriangulationCertainty::Certified))
}

/// A lone exact triangle with no holes, under a policy that decides every
/// query.
pub open spec fn lone_triangle_input(vertices: Seq<Point2>, hole_indices: Seq<usize>, policy: PredicatePolicy) -> bool {
    vertices.len() == 3 && hole_indices.len() == 0 && policy_decides(policy) && fractions_valid(vertices)
}

/// A lone triangle input whose ring is proper and has nonzero area.
pub open spec fn lone_proper_triangle(vertices: Seq<Point2>, hole_indices: Seq<usize>, policy: PredicatePolicy) -> bool {
    &&& lone_triangle_input(vertices, hole_indices, policy)
    &&& proper_triangle_ring(vertices, seq![0usize, 1, 2], policy)
    &&& ring_area_result(vertices, seq![0usize, 1, 2], policy) matches Ok(w) && w != Sign::Zero
}

/// Triangulate an exact polygon (exterior from vertex zero, holes from the
/// listed starts) into a flat earcut-compatible index buffer.
pub fn triangulate(context: &TriangulationContext, vertices: &[Point2], hole_indices: &[usize]) -> (r: Result<TriangulationOutcome<Vec<usize>>, Error>)
    ensures
        rings_error(hole_indices@, vertices@.len() as int) matches Some(e) ==> r == Err::<TriangulationOutcome<Vec<usize>>, Error>(e),
        r matches Ok(out) ==> flat_triangles_valid(out.value@, vertices@.len() as int) && out.certainty == TriangulationCertainty::Certified,
        vertices@.len() == 3 && hole_indices@.len() == 0 && policy_decides(context.policy()) && fractions_valid(vertices@) ==> r is Ok,
        vertices@.len() == 3 && hole_indices@.len() == 0 && policy_decides(context.policy()) && fractions_valid(vertices@)
            && proper_triangle_ring(vertices@, seq![0usize, 1, 2], context.policy())
            && (ring_area_result(vertices@, seq![0usize, 1, 2], context.policy()) matches Ok(w) && w != Sign::Zero)
            ==> (r matches Ok(out) && out.value@.len() == 3),
{
    let report = triangulate_report_inner(vertices, hole_indices, context.predicate_policy())?;
    Ok(TriangulationOutcome::new(report.triangles, TriangulationCertainty::Certified))
}

/// The flat triangle buffer of an exact polygon under `policy`.
pub fn triangulate_inner(vertices: &[Point2], hole_indices: &[usize], policy: PredicatePolicy) -> (r: Result<Vec<usize>, Error>)
    ensures
        rings_error(hole_indices@, vertices@.len() as int) matches Some(e) ==> r == Err::<Vec<usize>, Error>(e),
        r matches Ok(t) ==> flat_triangles_valid(t@, vertices@.len() as int),
        vertices@.len() == 3 && hole_indices@.len() == 0 && policy_decides(policy) && fractions_valid(vertices@) ==> r is Ok,
        vertices@.len() == 3 && hole_indices@.len() == 0 && policy_decides(policy) && fractions_valid(vertices@)
            && proper_triangle_ring(vertices@, seq![0usize, 1, 2], policy)
            && (ring_area_result(vertices@, seq![0usize, 1, 2], policy) matches Ok(w) && w != Sign::Zero)
            ==> (r matches Ok(t) && t@.len() == 3),
{
    let report = triangulate_report_inner(vertices, hole_indices, policy)?;
    Ok(report.triangles)
}

} // verus!
