//! Runtime algorithm selection between the exact ear-clipping polygon
//! triangulator and the constrained-Delaunay path.
use vstd::prelude::*;
use crate::context::{PredicatePolicy, TriangulationCertainty, TriangulationContext, TriangulationOutcome};
use crate::earcut::{flat_triangles_valid, lone_proper_triangle, lone_triangle_input, triangulate_inner};
use crate::error::Error;
use crate::cdt::constrained_delaunay;
use crate::polygon::{hole_end, exterior_end, open_ring_indices, rings_error, rings_from_hole_indices, RingRange};
use crate::types::{rings_total, Constraint, Point2, PolygonInput, PolygonInputFacts};

verus! {

/// Polygon triangulation algorithm requested at runtime.
#[derive(Clone, Copy, Debug, PartialEq, Eq, Structural)]
pub enum PolygonTriangulationAlgorithm {
    /// Select an available algorithm from input shape and options.
    Auto,
    /// Use the exact ear-clipping polygon algorithm.
    Earcut,
    /// Use the constrained-Delaunay path.
    ConstrainedDelaunay,
}

/// Triangle quality preference used by [`TriangulationOptions`].
#[derive(Clone, Copy, Debug, PartialEq, Eq, Structural)]
pub enum QualityPolicy {
    /// Prefer preserving the input polygon boundary with minimal extra work.
    PreserveBoundary,
    /// Prefer Delaunay-like triangle quality when that algorithm is compiled.
    PreferDelaunay,
}

/// Runtime options shared by polygon triangulation entry points.
#[derive(Clone, Copy, Debug, PartialEq, Eq, Structural)]
pub struct TriangulationOptions {
    /// Algorithm requested by the caller.
    pub algorithm: PolygonTriangulationAlgorithm,
    /// Quality preference used by `Auto`.
    pub quality: QualityPolicy,
}

impl Default for TriangulationOptions {
    fn default() -> (r: TriangulationOptions)
        ensures
            r.algorithm == PolygonTriangulationAlgorithm::Auto,
            r.quality == QualityPolicy::PreserveBoundary,
    {
        TriangulationOptions { algorithm: PolygonTriangulationAlgorithm::Auto, quality: QualityPolicy::PreserveBoundary }
    }
}

/// The selected algorithm, the quality preference that took part in the
/// selection, and the structural facts that justified it: advisory
/// scheduling metadata, never a topology certificate.
#[derive(Debug)]
pub struct PolygonTriangulationReport {
    /// Algorithm selected for the completed triangulation.
    pub algorithm: PolygonTriangulationAlgorithm,
    /// Quality preference that participated in selection.
    pub quality: QualityPolicy,
    /// Structural facts used during runtime selection.
    pub facts: PolygonInputFacts,
}

/// The error returned when no compiled polygon algorithm can serve a request.
pub open spec fn no_compiled_algorithm() -> Error {
    Error::UnsupportedFeature { feature: "compiled polygon triangulation algorithm" }
}

/// Whether the input's structural facts report a ring edge that collapses
/// or whose zero status is unknown: boundary clean-up that the
/// ear-clipping path handles before any ring edge becomes a constraint.
pub open spec fn boundary_cleanup_preferred(facts: PolygonInputFacts) -> bool {
    rings_total(facts.rings@, facts.rings@.len() as int, false) > 0 || rings_total(facts.rings@, facts.rings@.len() as int, true) > 0
}

/// The algorithm `Auto` selects: the constrained-Delaunay path for the
/// Delaunay preference unless boundary clean-up is preferred, ear clipping
/// otherwise.
pub open spec fn auto_algorithm(quality: QualityPolicy, cleanup: bool) -> PolygonTriangulationAlgorithm {
    match quality {
        QualityPolicy::PreferDelaunay => if cleanup { PolygonTriangulationAlgorithm::Earcut } else { PolygonTriangulationAlgorithm::ConstrainedDelaunay },
        QualityPolicy::PreserveBoundary => PolygonTriangulationAlgorithm::Earcut,
    }
}

/// Resolve `Auto` for a quality preference and, when given, the input's
/// structural facts: advisory scheduling, never a correctness certificate.
pub fn resolve_auto_algorithm(quality: QualityPolicy, facts: Option<&PolygonInputFacts>) -> (r: Result<PolygonTriangulationAlgorithm, Error>)
    ensures
        r == Ok::<PolygonTriangulationAlgorithm, Error>(auto_algorithm(quality, facts matches Some(f) && boundary_cleanup_preferred(*f))),
{
    let cleanup = match facts {
        Some(f) => f.known_degenerate_edge_count() > 0 || f.unknown_edge_zero_status_count() > 0,
        None => false,
    };
    match quality {
        QualityPolicy::PreferDelaunay => if cleanup { Ok(PolygonTriangulationAlgorithm::Earcut) } else { Ok(PolygonTriangulationAlgorithm::ConstrainedDelaunay) },
        QualityPolicy::PreserveBoundary => Ok(PolygonTriangulationAlgorithm::Earcut),
    }
}

/// The algorithm a request resolves to: `Auto` by its quality preference
/// and the clean-up preference, a named algorithm as itself.
pub open spec fn resolved(options: TriangulationOptions, cleanup: bool) -> PolygonTriangulationAlgorithm {
    match options.algorithm {
        PolygonTriangulationAlgorithm::Auto => auto_algorithm(options.quality, cleanup),
        other => other,
    }
}

/// Resolve the algorithm requested by `options`.
pub fn resolve_algorithm(options: TriangulationOptions) -> (r: Result<PolygonTriangulationAlgorithm, Error>)
    ensures
        r == Ok::<PolygonTriangulationAlgorithm, Error>(resolved(options, false)),
{
    match options.algorithm {
        PolygonTriangulationAlgorithm::Auto => resolve_auto_algorithm(options.quality, None),
        algorithm => Ok(algorithm),
    }
}

/// Resolve the algorithm requested by `options` for an input with the given
/// structural facts.
pub fn resolve_algorithm_for_facts(options: TriangulationOptions, facts: &PolygonInputFacts) -> (r: Result<PolygonTriangulationAlgorithm, Error>)
    ensures
        r == Ok::<PolygonTriangulationAlgorithm, Error>(resolved(options, boundary_cleanup_preferred(*facts))),
{
    match options.algorithm {
        PolygonTriangulationAlgorithm::Auto => resolve_auto_algorithm(options.quality, Some(facts)),
        algorithm => Ok(algorithm),
    }
}

/// Append the closing edges of the ring in `range` (a repeated closing
/// vertex dropped) as constraints.
pub fn append_ring_constraints(vertices: &[Point2], range: RingRange, constraints: &mut Vec<Constraint>) -> (r: Result<(), Error>)
    requires
        range.start <= range.end <= vertices@.len(),
        forall|k: int| 0 <= k < old(constraints)@.len() ==> (#[trigger] old(constraints)@[k]).from < vertices@.len() && old(constraints)@[k].to < vertices@.len(),
    ensures
        forall|k: int| 0 <= k < final(constraints)@.len() ==> (#[trigger] final(constraints)@[k]).from < vertices@.len() && final(constraints)@[k].to < vertices@.len(),
        r is Err ==> r == Err::<(), Error>(Error::InvalidInput { reason: "polygon ring is degenerate" }),
{
    let ring = open_ring_indices(vertices, range);
    if ring.len() < 3 {
        return Err(Error::InvalidInput { reason: "polygon ring is degenerate" });
    }
    let mut i: usize = 0;
    while i < ring.len()
        invariant
            ring@.len() >= 3,
            forall|j: int| 0 <= j < ring@.len() ==> #[trigger] ring@[j] < vertices@.len(),
            forall|k: int| 0 <= k < constraints@.len() ==> (#[trigger] constraints@[k]).from < vertices@.len() && constraints@[k].to < vertices@.len(),
        decreases ring@.len() - i,
    {
        let next = if i + 1 == ring.len() { 0 } else { i + 1 };
        let ghost before = constraints@;
        constraints.push(Constraint::new(ring[i], ring[next]));
        proof {
            assert forall|k: int| 0 <= k < constraints@.len() implies (#[trigger] constraints@[k]).from < vertices@.len() && constraints@[k].to < vertices@.len() by {
                if k < before.len() { assert(constraints@[k] == before[k]); }
            }
        }
        i = i + 1;
    }
    Ok(())
}

/// Triangulate a polygon with holes through the constrained-Delaunay path:
/// every ring edge becomes a constraint, and the triangles come back as a
/// flat index buffer into the points of the constrained triangulation.
fn triangulate_polygon_with_cdt(vertices: &[Point2], hole_indices: &[usize], policy: PredicatePolicy) -> (r: Result<Vec<usize>, Error>)
    ensures
        vertices@.len() >= 3 ==> (rings_error(hole_indices@, vertices@.len() as int) matches Some(e) ==> r == Err::<Vec<usize>, Error>(e)),
        r matches Ok(t) ==> t@.len() % 3 == 0,
{
    let n = vertices.len();
    if n < 3 {
        return Ok(Vec::new());
    }
    let rings = rings_from_hole_indices(vertices, hole_indices)?;
    let mut constraints: Vec<Constraint> = Vec::new();
    append_ring_constraints(vertices, rings.exterior(), &mut constraints)?;
    let holes = rings.holes();
    let mut h: usize = 0;
    while h < holes.len()
        invariant
            n == vertices@.len(),
            rings_error(hole_indices@, n as int) is None,
            holes@ == rings.holes_view(),
            rings.holes_view().len() == hole_indices@.len(),
            forall|i: int| 0 <= i < hole_indices@.len() ==> #[trigger] rings.holes_view()[i] == (RingRange {
                start: hole_indices@[i],
                end: hole_end(hole_indices@, i, n as int) as usize,
            }),
            forall|i: int| 0 <= i < hole_indices@.len() ==> 0 < #[trigger] hole_indices@[i] < n,
            forall|i: int, j: int| 0 <= i < j < hole_indices@.len() ==> hole_indices@[i] < hole_indices@[j],
            forall|i: int| 0 <= i < hole_indices@.len() ==> #[trigger] hole_end(hole_indices@, i, n as int) - hole_indices@[i] >= 3,
            forall|k: int| 0 <= k < constraints@.len() ==> (#[trigger] constraints@[k]).from < vertices@.len() && constraints@[k].to < vertices@.len(),
        decreases holes@.len() - h,
    {
        proof {
            assert(holes@[h as int] == rings.holes_view()[h as int]);
            if h + 1 < hole_indices@.len() {
                assert(hole_indices@[h as int] < hole_indices@[h + 1]);
            }
        }
        append_ring_constraints(vertices, holes[h], &mut constraints)?;
        h = h + 1;
    }
    if n > usize::MAX / 256 {
        return Err(Error::UnsupportedFeature { feature: "point count beyond the addressable range" });
    }
    let context = TriangulationContext::new(policy);
    let outcome = constrained_delaunay(&context, vertices, constraints.as_slice())?;
    let triangles = outcome.value.triangles();
    let mut flat: Vec<usize> = Vec::new();
    let mut k: usize = 0;
    while k < triangles.len()
        invariant
            flat@.len() == 3 * k,
            k <= triangles@.len(),
        decreases triangles@.len() - k,
    {
        let t = triangles[k];
        flat.push(t[0]);
        flat.push(t[1]);
        flat.push(t[2]);
        k = k + 1;
    }
    proof {
        assert((3 * k as int) % 3 == 0) by (nonlinear_arith);
    }
    Ok(flat)
}

/// Run the selected polygon algorithm; the unresolved `Auto` choice has no
/// executor.
pub fn triangulate_polygon_points_with_algorithm(
    vertices: &[Point2],
    hole_indices: &[usize],
    algorithm: PolygonTriangulationAlgorithm,
    policy: PredicatePolicy,
) -> (r: Result<Vec<usize>, Error>)
    ensures
        algorithm == PolygonTriangulationAlgorithm::Auto ==> r == Err::<Vec<usize>, Error>(no_compiled_algorithm()),
        algorithm == PolygonTriangulationAlgorithm::Earcut ==> {
            &&& rings_error(hole_indices@, vertices@.len() as int) matches Some(e) ==> r == Err::<Vec<usize>, Error>(e)
            &&& r matches Ok(t) ==> flat_triangles_valid(t@, vertices@.len() as int)
            &&& lone_triangle_input(vertices@, hole_indices@, policy) ==> r is Ok
            &&& lone_proper_triangle(vertices@, hole_indices@, policy) ==> (r matches Ok(t) && t@.len() == 3)
        },
        algorithm == PolygonTriangulationAlgorithm::ConstrainedDelaunay ==> {
            &&& vertices@.len() >= 3 ==> (rings_error(hole_indices@, vertices@.len() as int) matches Some(e) ==> r == Err::<Vec<usize>, Error>(e))
            &&& r matches Ok(t) ==> t@.len() % 3 == 0
        },
{
    match algorithm {
        PolygonTriangulationAlgorithm::Earcut => triangulate_inner(vertices, hole_indices, policy),
        PolygonTriangulationAlgorithm::ConstrainedDelaunay => triangulate_polygon_with_cdt(vertices, hole_indices, policy),
        PolygonTriangulationAlgorithm::Auto => Err(Error::UnsupportedFeature { feature: "compiled polygon triangulation algorithm" }),
    }
}

/// Triangulate borrowed polygon buffers using runtime algorithm selection.
pub fn triangulate_polygon_points(
    context: &TriangulationContext,
    vertices: &[Point2],
    hole_indices: &[usize],
    options: TriangulationOptions,
) -> (r: Result<TriangulationOutcome<Vec<usize>>, Error>)
    ensures
        resolved(options, false) == PolygonTriangulationAlgorithm::Earcut || vertices@.len() >= 3 ==>
            (rings_error(hole_indices@, vertices@.len() as int) matches Some(e) ==> r == Err::<TriangulationOutcome<Vec<usize>>, Error>(e)),
        r matches Ok(out) ==> out.value@.len() % 3 == 0 && out.certainty == TriangulationCertainty::Certified,
        resolved(options, false) == PolygonTriangulationAlgorithm::Earcut ==> (r matches Ok(out) ==> flat_triangles_valid(out.value@, vertices@.len() as int)),
{
    let algorithm = resolve_algorithm(options)?;
    let triangles = triangulate_polygon_points_with_algorithm(vertices, hole_indices, algorithm, context.predicate_policy())?;
    Ok(TriangulationOutcome::new(triangles, TriangulationCertainty::Certified))
}

/// Triangulate an input polygon with the algorithm its options and facts
/// select, returning the triangles and that algorithm.
fn triangulate_polygon_selected(input: &PolygonInput, options: TriangulationOptions, policy: PredicatePolicy) -> (r: Result<(Vec<usize>, PolygonTriangulationAlgorithm), Error>)
    ensures
        resolved(options, boundary_cleanup_preferred(input.facts_view())) == PolygonTriangulationAlgorithm::Earcut || input.vertices_view().len() >= 3 ==>
            (rings_error(input.hole_indices_view(), input.vertices_view().len() as int) matches Some(e) ==> r == Err::<(Vec<usize>, PolygonTriangulationAlgorithm), Error>(e)),
        r matches Ok(out) ==> out.0@.len() % 3 == 0 && out.1 == resolved(options, boundary_cleanup_preferred(input.facts_view())),
        r matches Ok(out) ==> (out.1 == PolygonTriangulationAlgorithm::Earcut ==> flat_triangles_valid(out.0@, input.vertices_view().len() as int)),
        resolved(options, boundary_cleanup_preferred(input.facts_view())) == PolygonTriangulationAlgorithm::Earcut ==> {
            &&& lone_triangle_input(input.vertices_view(), input.hole_indices_view(), policy) ==> r is Ok
            &&& lone_proper_triangle(input.vertices_view(), input.hole_indices_view(), policy) ==> (r matches Ok(out) && out.0@.len() == 3)
        },
{
    let algorithm = resolve_algorithm_for_facts(options, input.facts())?;
    let triangles = triangulate_polygon_points_with_algorithm(input.vertices(), input.hole_indices(), algorithm, policy)?;
    Ok((triangles, algorithm))
}

/// Triangulate a polygon input using runtime algorithm selection.
pub fn triangulate_polygon(context: &TriangulationContext, input: &PolygonInput, options: TriangulationOptions) -> (r: Result<TriangulationOutcome<Vec<usize>>, Error>)
    ensures
        resolved(options, boundary_cleanup_preferred(input.facts_view())) == PolygonTriangulationAlgorithm::Earcut || input.vertices_view().len() >= 3 ==>
            (rings_error(input.hole_indices_view(), input.vertices_view().len() as int) matches Some(e) ==> r == Err::<TriangulationOutcome<Vec<usize>>, Error>(e)),
        r matches Ok(out) ==> out.value@.len() % 3 == 0 && out.certainty == TriangulationCertainty::Certified,
        resolved(options, boundary_cleanup_preferred(input.facts_view())) == PolygonTriangulationAlgorithm::Earcut
            ==> (r matches Ok(out) ==> flat_triangles_valid(out.value@, input.vertices_view().len() as int)),
        resolved(options, boundary_cleanup_preferred(input.facts_view())) == PolygonTriangulationAlgorithm::Earcut ==> {
            &&& lone_triangle_input(input.vertices_view(), input.hole_indices_view(), context.policy()) ==> r is Ok
            &&& lone_proper_triangle(input.vertices_view(), input.hole_indices_view(), context.policy()) ==> (r matches Ok(out) && out.value@.len() == 3)
        },
{
    let (triangles, _) = triangulate_polygon_selected(input, options, context.predicate_policy())?;
    Ok(TriangulationOutcome::new(triangles, TriangulationCertainty::Certified))
}

/// Triangulate a polygon input and report the selected algorithm with the
/// facts behind the selection.
pub fn triangulate_polygon_with_report(
    context: &TriangulationContext,
    input: &PolygonInput,
    options: TriangulationOptions,
) -> (r: Result<TriangulationOutcome<(Vec<usize>, PolygonTriangulationReport)>, Error>)
    ensures
        resolved(options, boundary_cleanup_preferred(input.facts_view())) == PolygonTriangulationAlgorithm::Earcut || input.vertices_view().len() >= 3 ==>
            (rings_error(input.hole_indices_view(), input.vertices_view().len() as int) matches Some(e)
            ==> r == Err::<TriangulationOutcome<(Vec<usize>, PolygonTriangulationReport)>, Error>(e)),
        r matches Ok(out) ==> {
            &&& out.value.0@.len() % 3 == 0
            &&& out.value.1.algorithm == PolygonTriangulationAlgorithm::Earcut ==> flat_triangles_valid(out.value.0@, input.vertices_view().len() as int)
            &&& out.value.1.algorithm == resolved(options, boundary_cleanup_preferred(input.facts_view()))
            &&& out.value.1.quality == options.quality
            &&& out.value.1.facts.rings@ == input.facts_view().rings@
            &&& out.value.1.facts.vertex_count == input.facts_view().vertex_count
            &&& out.certainty == TriangulationCertainty::Certified
        },
        resolved(options, boundary_cleanup_preferred(input.facts_view())) == PolygonTriangulationAlgorithm::Earcut ==> {
            &&& lone_triangle_input(input.vertices_view(), input.hole_indices_view(), context.policy()) ==> r is Ok
            &&& lone_proper_triangle(input.vertices_view(), input.hole_indices_view(), context.policy()) ==> (r matches Ok(out) && out.value.0@.len() == 3)
        },
{
    let (triangles, algorithm) = triangulate_polygon_selected(input, options, context.predicate_policy())?;
    let report = PolygonTriangulationReport { algorithm, quality: options.quality, facts: input.facts().copy() };
    Ok(TriangulationOutcome::new((triangles, report), TriangulationCertainty::Certified))
}

} // verus!
