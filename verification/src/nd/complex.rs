//! Exact D-dimensional Delaunay complex oracle: exhaustive construction,
//! validation, insertion reports and functional bistellar flips.
use vstd::prelude::*;
use crate::context::{PredicatePolicy, TriangulationCertainty, TriangulationContext, TriangulationOutcome};
use crate::error::Error;
use crate::nd::handles::{copy_reals, copy_usizes, index_leq, lemma_index_leq_total, PointD, Simplex};
use crate::nd::lists::{contains_index, copy_without, copy_without_all, copy_without_position, count_list, count_of, lex_leq, list_views, lists_equal, sort_index_lists, sorted_copy, without, without_all, without_position};
use crate::nd::predicates::{coordinate_pairs, insphere_d_outcome, insphere_d_sign, orient_d_outcome, orient_d_sign, rows_view};
use crate::types::{reversed_sign, Real, Sign};

verus! {

/// Coordinates of a point list.
pub open spec fn point_coords(points: Seq<PointD>) -> Seq<Seq<Real>> {
    points.map_values(|p: PointD| p.coords())
}

/// Index lists of a simplex list.
pub open spec fn simplex_lists(cells: Seq<Simplex>) -> Seq<Seq<usize>> {
    cells.map_values(|s: Simplex| s.indices_view())
}

/// Exact numeric equality of two coordinate lists.
pub open spec fn same_point(a: Seq<Real>, b: Seq<Real>) -> bool {
    a.len() == b.len() && forall|k: int| 0 <= k < a.len() ==> (#[trigger] a[k]).same_value(b[k])
}

/// The coordinate rows of the points a simplex names.
pub open spec fn simplex_rows(points: Seq<Seq<Real>>, simplex: Seq<usize>) -> Seq<Seq<(int, int)>> {
    simplex.map_values(|i: usize| coordinate_pairs(points[i as int]))
}

/// Orientation sign of a simplex, or the undecided-predicate error.
pub open spec fn orientation_result(points: Seq<Seq<Real>>, simplex: Seq<usize>, policy: PredicatePolicy) -> Result<Sign, Error> {
    match orient_d_outcome(simplex_rows(points, simplex), policy) {
        Some(sign) => Ok(sign),
        None => Err(Error::PredicateUndecided { predicate: "D-dimensional orientation" }),
    }
}

/// In-sphere sign of `query` against a simplex, or the undecided-predicate
/// error.
pub open spec fn insphere_result(points: Seq<Seq<Real>>, simplex: Seq<usize>, query: Seq<Real>, policy: PredicatePolicy) -> Result<Sign, Error> {
    match insphere_d_outcome(simplex_rows(points, simplex), coordinate_pairs(query), policy) {
        Some(sign) => Ok(sign),
        None => Err(Error::PredicateUndecided { predicate: "D-dimensional in-sphere" }),
    }
}

/// The in-sphere sign that means "strictly inside" for a simplex of the
/// given orientation: the lifted determinant's sign alternates with the
/// dimension.
pub open spec fn inside_sign(dimension: int, orientation: Sign) -> Sign {
    if dimension % 2 == 0 { orientation } else { reversed_sign(orientation) }
}

/// The "strictly inside" in-sphere sign alternates with the dimension: in
/// the plane it is the orientation of the triangle (a counter-clockwise
/// triangle has the point inside its circle exactly when the lifted
/// determinant is positive), and each added dimension reverses it. So it is
/// the orientation exactly when the dimension is even, and the reverse of
/// the orientation exactly when the dimension is odd.
pub proof fn lemma_inside_sign_alternates(dimension: int, orientation: Sign)
    requires
        dimension >= 1,
    ensures
        inside_sign(2, orientation) == orientation,
        inside_sign(dimension + 1, orientation) == reversed_sign(inside_sign(dimension, orientation)),
        orientation != Sign::Zero ==> (inside_sign(dimension, orientation) == orientation <==> dimension % 2 == 0),
        orientation != Sign::Zero ==> (inside_sign(dimension, orientation) == reversed_sign(orientation) <==> dimension % 2 == 1),
{
}

/// What the empty-sphere test accepts and rejects, with the parity rule
/// written out: against a simplex of orientation `orientation` (nonzero), a
/// point `j` of dimension `d` that is not a vertex lies strictly inside the
/// circumsphere when the in-sphere sign is the orientation for even `d` and
/// its reverse for odd `d`. An accepted simplex has every such in-sphere
/// sign decided and none of them strictly inside; a rejected one has some
/// point strictly inside.
pub proof fn lemma_empty_sphere_law(points: Seq<Seq<Real>>, simplex: Seq<usize>, orientation: Sign, policy: PredicatePolicy)
    ensures
        empty_sphere(points, simplex, orientation, policy) == Ok::<bool, Error>(true) ==> forall|j: int|
            0 <= j < points.len() && !simplex.contains(j as usize) ==>
                (#[trigger] insphere_result(points, simplex, points[j], policy) matches Ok(s)
                    && s != (if points[j].len() % 2 == 0 { orientation } else { reversed_sign(orientation) })),
        empty_sphere(points, simplex, orientation, policy) == Ok::<bool, Error>(false) ==> exists|j: int|
            0 <= j < points.len() && !simplex.contains(j as usize)
                && #[trigger] insphere_result(points, simplex, points[j], policy)
                    == Ok::<Sign, Error>(if points[j].len() % 2 == 0 { orientation } else { reversed_sign(orientation) }),
{
    lemma_empty_sphere_upto_law(points, simplex, orientation, policy, points.len() as int);
}

proof fn lemma_empty_sphere_upto_law(points: Seq<Seq<Real>>, simplex: Seq<usize>, orientation: Sign, policy: PredicatePolicy, i: int)
    requires
        0 <= i <= points.len(),
    ensures
        empty_sphere_upto(points, simplex, orientation, policy, i) == Ok::<bool, Error>(true) ==> forall|j: int|
            0 <= j < i && !simplex.contains(j as usize) ==>
                (#[trigger] insphere_result(points, simplex, points[j], policy) matches Ok(s)
                    && s != (if points[j].len() % 2 == 0 { orientation } else { reversed_sign(orientation) })),
        empty_sphere_upto(points, simplex, orientation, policy, i) == Ok::<bool, Error>(false) ==> exists|j: int|
            0 <= j < i && !simplex.contains(j as usize)
                && #[trigger] insphere_result(points, simplex, points[j], policy)
                    == Ok::<Sign, Error>(if points[j].len() % 2 == 0 { orientation } else { reversed_sign(orientation) }),
    decreases i,
{
    if i > 0 {
        lemma_empty_sphere_upto_law(points, simplex, orientation, policy, i - 1);
        let d = points[i - 1].len() as int;
        assert(inside_sign(d, orientation) == (if points[i - 1].len() % 2 == 0 { orientation } else { reversed_sign(orientation) }));
        let prior = empty_sphere_upto(points, simplex, orientation, policy, i - 1);
        if prior == Ok::<bool, Error>(false) {
            let j = choose|j: int| 0 <= j < i - 1 && !simplex.contains(j as usize)
                && #[trigger] insphere_result(points, simplex, points[j], policy)
                    == Ok::<Sign, Error>(if points[j].len() % 2 == 0 { orientation } else { reversed_sign(orientation) });
            assert(insphere_result(points, simplex, points[j], policy)
                == Ok::<Sign, Error>(if points[j].len() % 2 == 0 { orientation } else { reversed_sign(orientation) }));
        }
        if empty_sphere_upto(points, simplex, orientation, policy, i) == Ok::<bool, Error>(false) && prior == Ok::<bool, Error>(true) {
            assert(insphere_result(points, simplex, points[i - 1], policy)
                == Ok::<Sign, Error>(if points[i - 1].len() % 2 == 0 { orientation } else { reversed_sign(orientation) }));
        }
    }
}

/// Empty-sphere test of a simplex against the points below `i`: `Ok(false)`
/// at the first point strictly inside, an error at the first undecided
/// predicate, `Ok(true)` otherwise.
pub open spec fn empty_sphere_upto(points: Seq<Seq<Real>>, simplex: Seq<usize>, orientation: Sign, policy: PredicatePolicy, i: int) -> Result<bool, Error>
    decreases i,
{
    if i <= 0 {
        Ok(true)
    } else {
        match empty_sphere_upto(points, simplex, orientation, policy, i - 1) {
            Ok(true) => if simplex.contains((i - 1) as usize) {
                Ok(true)
            } else {
                match insphere_result(points, simplex, points[i - 1], policy) {
                    Err(e) => Err(e),
                    Ok(s) => Ok(s != inside_sign(points[i - 1].len() as int, orientation)),
                }
            },
            other => other,
        }
    }
}

/// Empty-sphere test against all points.
pub open spec fn empty_sphere(points: Seq<Seq<Real>>, simplex: Seq<usize>, orientation: Sign, policy: PredicatePolicy) -> Result<bool, Error> {
    empty_sphere_upto(points, simplex, orientation, policy, points.len() as int)
}

proof fn lemma_empty_sphere_settled(points: Seq<Seq<Real>>, simplex: Seq<usize>, orientation: Sign, policy: PredicatePolicy, i: int, m: int)
    requires
        0 <= i <= m,
        empty_sphere_upto(points, simplex, orientation, policy, i) != Ok::<bool, Error>(true),
    ensures
        empty_sphere_upto(points, simplex, orientation, policy, m) == empty_sphere_upto(points, simplex, orientation, policy, i),
    decreases m - i,
{
    if m > i {
        lemma_empty_sphere_settled(points, simplex, orientation, policy, i, m - 1);
    }
}

/// Why a simplex's indices are malformed, checking offsets from `k` on.
pub open spec fn simplex_offset_error(indices: Seq<usize>, point_count: int, k: int) -> Option<&'static str>
    decreases indices.len() - k,
{
    if k < 0 || k >= indices.len() {
        None
    } else if indices[k] >= point_count {
        Some("D-dimensional simplex index out of bounds")
    } else if indices.subrange(0, k).contains(indices[k]) {
        Some("D-dimensional simplex repeats a point index")
    } else {
        simplex_offset_error(indices, point_count, k + 1)
    }
}

/// Why a simplex does not have `dimension + 1` distinct in-range indices.
pub open spec fn simplex_shape_error(indices: Seq<usize>, point_count: int, dimension: int) -> Option<&'static str> {
    if indices.len() != dimension + 1 {
        Some("D-dimensional simplex has wrong arity")
    } else {
        simplex_offset_error(indices, point_count, 0)
    }
}

/// Validation of an input point set for one ambient dimension.
pub open spec fn points_validation(points: Seq<Seq<Real>>, dimension: int) -> Result<(), Error> {
    if dimension == 0 {
        Err(Error::InvalidInput { reason: "D-dimensional points must have at least one coordinate" })
    } else if exists|i: int| 0 <= i < points.len() && (#[trigger] points[i]).len() != dimension {
        Err(Error::InvalidInput { reason: "D-dimensional points must share one ambient dimension" })
    } else if exists|i: int, j: int| 0 <= i < j < points.len() && same_point(#[trigger] points[i], #[trigger] points[j]) {
        Err(Error::InvalidInput { reason: "duplicate D-dimensional points are not supported" })
    } else {
        Ok(())
    }
}

/// Validation of one cell: shape, nonzero orientation, empty sphere.
pub open spec fn cell_validation(points: Seq<Seq<Real>>, cell: Seq<usize>, dimension: int, policy: PredicatePolicy) -> Result<(), Error> {
    match simplex_shape_error(cell, points.len() as int, dimension) {
        Some(reason) => Err(Error::InvalidInput { reason }),
        None => match orientation_result(points, cell, policy) {
            Err(e) => Err(e),
            Ok(o) => if o == Sign::Zero {
                Err(Error::InvalidInput { reason: "D-dimensional simplex is affinely dependent" })
            } else {
                match empty_sphere(points, cell, o, policy) {
                    Err(e) => Err(e),
                    Ok(true) => Ok(()),
                    Ok(false) => Err(Error::InvalidInput { reason: "D-dimensional simplex violates empty-sphere legality" }),
                }
            },
        },
    }
}

/// Validation of the cells below `c`, failing at the first bad cell.
pub open spec fn cells_validation_upto(points: Seq<Seq<Real>>, cells: Seq<Seq<usize>>, dimension: int, policy: PredicatePolicy, c: int) -> Result<(), Error>
    decreases c,
{
    if c <= 0 {
        Ok(())
    } else {
        match cells_validation_upto(points, cells, dimension, policy, c - 1) {
            Ok(()) => cell_validation(points, cells[c - 1], dimension, policy),
            Err(e) => Err(e),
        }
    }
}

/// Full validation of a complex: the points, then every cell in order.
pub open spec fn complex_validation(dimension: int, points: Seq<Seq<Real>>, cells: Seq<Seq<usize>>, policy: PredicatePolicy) -> Result<(), Error> {
    match points_validation(points, dimension) {
        Err(e) => Err(e),
        Ok(()) => cells_validation_upto(points, cells, dimension, policy, cells.len() as int),
    }
}

proof fn lemma_cells_validation_settled(points: Seq<Seq<Real>>, cells: Seq<Seq<usize>>, dimension: int, policy: PredicatePolicy, c: int, m: int)
    requires
        0 <= c <= m,
        cells_validation_upto(points, cells, dimension, policy, c) is Err,
    ensures
        cells_validation_upto(points, cells, dimension, policy, m) == cells_validation_upto(points, cells, dimension, policy, c),
    decreases m - c,
{
    if m > c {
        lemma_cells_validation_settled(points, cells, dimension, policy, c, m - 1);
    }
}

/// Exact D-dimensional Delaunay complex over finite input points: all
/// affinely independent `dimension + 1` point subsets whose circumsphere has
/// no input point strictly inside.
#[derive(Debug)]
pub struct DelaunayComplex {
    dimension: usize,
    points: Vec<PointD>,
    cells: Vec<Simplex>,
}

impl DelaunayComplex {
    /// Ambient dimension (spec view).
    pub closed spec fn dimension_view(&self) -> usize {
        self.dimension
    }

    /// Point coordinates (spec view).
    pub closed spec fn points_view(&self) -> Seq<Seq<Real>> {
        point_coords(self.points@)
    }

    /// Cell index lists (spec view).
    pub closed spec fn cells_view(&self) -> Seq<Seq<usize>> {
        simplex_lists(self.cells@)
    }

    /// Construct a Delaunay-complex record from raw parts.
    pub fn from_parts(dimension: usize, points: Vec<PointD>, cells: Vec<Simplex>) -> (r: DelaunayComplex)
        ensures
            r.dimension_view() == dimension,
            r.points_view() == point_coords(points@),
            r.cells_view() == simplex_lists(cells@),
    {
        DelaunayComplex { dimension, points, cells }
    }

    /// Return the ambient dimension.
    pub fn dimension(&self) -> (r: usize)
        ensures
            r == self.dimension_view(),
    {
        self.dimension
    }

    /// Borrow input points.
    pub fn points(&self) -> (r: &[PointD])
        ensures
            point_coords(r@) == self.points_view(),
    {
        self.points.as_slice()
    }

    /// Borrow certified D-dimensional cells.
    pub fn cells(&self) -> (r: &[Simplex])
        ensures
            simplex_lists(r@) == self.cells_view(),
    {
        self.cells.as_slice()
    }

    /// Validate point dimensions and distinctness, then every cell's arity,
    /// index bounds, affine independence, and empty sphere; fails with the
    /// first problem found.
    pub fn validate(&self, context: &TriangulationContext) -> (r: Result<TriangulationOutcome<()>, Error>)
        ensures
            match complex_validation(self.dimension_view() as int, self.points_view(), self.cells_view(), context.policy()) {
                Ok(()) => r matches Ok(o) && o.certainty == TriangulationCertainty::Certified,
                Err(e) => r == Err::<TriangulationOutcome<()>, Error>(e),
            },
    {
        match validate_complex_parts(self.dimension, self.points.as_slice(), self.cells.as_slice(), context.predicate_policy()) {
            Ok(()) => Ok(TriangulationOutcome::new((), TriangulationCertainty::Certified)),
            Err(e) => Err(e),
        }
    }
}

/// Exact equality of two points by exact coordinate comparison.
pub fn point_d_equal(left: &PointD, right: &PointD) -> (r: bool)
    ensures
        r == same_point(left.coords(), right.coords()),
{
    if left.dimension() != right.dimension() {
        return false;
    }
    let a = left.coordinates();
    let b = right.coordinates();
    let mut k: usize = 0;
    while k < a.len()
        invariant
            0 <= k <= a@.len(),
            a@ == left.coords(),
            b@ == right.coords(),
            a@.len() == b@.len(),
            forall|j: int| 0 <= j < k ==> (#[trigger] a@[j]).same_value(b@[j]),
        decreases a.len() - k,
    {
        if !a[k].exact_eq(&b[k]) {
            return false;
        }
        k = k + 1;
    }
    true
}

/// Check the points share `dimension` coordinates and are pairwise distinct.
#[verifier::loop_isolation(false)]
pub fn validate_points(points: &[PointD], dimension: usize) -> (r: Result<(), Error>)
    ensures
        r == points_validation(point_coords(points@), dimension as int),
{
    let ghost coords = point_coords(points@);
    assert(coords.len() == points@.len());
    if dimension == 0 {
        return Err(Error::InvalidInput { reason: "D-dimensional points must have at least one coordinate" });
    }
    let mut i: usize = 0;
    while i < points.len()
        invariant
            0 <= i <= points@.len(),
            coords == point_coords(points@),
            coords.len() == points@.len(),
            forall|j: int| 0 <= j < i ==> (#[trigger] coords[j]).len() == dimension,
        decreases points.len() - i,
    {
        if points[i].dimension() != dimension {
            assert(coords[i as int].len() != dimension);
            assert(exists|j: int| 0 <= j < coords.len() && (#[trigger] coords[j]).len() != dimension as int);
            return Err(Error::InvalidInput { reason: "D-dimensional points must share one ambient dimension" });
        }
        i = i + 1;
    }
    let mut first: usize = 0;
    while first < points.len()
        invariant
            0 <= first <= points@.len(),
            coords == point_coords(points@),
            coords.len() == points@.len(),
            forall|j: int| 0 <= j < points@.len() ==> (#[trigger] coords[j]).len() == dimension,
            forall|a: int, b: int| 0 <= a < first && a < b < points@.len() ==> !same_point(#[trigger] coords[a], #[trigger] coords[b]),
        decreases points.len() - first,
    {
        let mut second: usize = first + 1;
        while second < points.len()
            invariant
                first < second <= points@.len(),
                coords == point_coords(points@),
                coords.len() == points@.len(),
                forall|j: int| 0 <= j < points@.len() ==> (#[trigger] coords[j]).len() == dimension,
                forall|a: int, b: int| 0 <= a < first && a < b < points@.len() ==> !same_point(#[trigger] coords[a], #[trigger] coords[b]),
                forall|b: int| first < b < second ==> !same_point(coords[first as int], #[trigger] coords[b]),
            decreases points.len() - second,
        {
            if point_d_equal(&points[first], &points[second]) {
                assert(same_point(coords[first as int], coords[second as int]));
                assert(!(exists|j: int| 0 <= j < coords.len() && (#[trigger] coords[j]).len() != dimension as int));
                assert(exists|a: int, b: int| 0 <= a < b < coords.len() && same_point(#[trigger] coords[a], #[trigger] coords[b]));
                return Err(Error::InvalidInput { reason: "duplicate D-dimensional points are not supported" });
            }
            second = second + 1;
        }
        first = first + 1;
    }
    Ok(())
}

/// Check `dimension + 1` distinct point indices below `point_count`.
#[verifier::loop_isolation(false)]
pub fn validate_simplex_shape(indices: &[usize], point_count: usize, dimension: usize) -> (r: Result<(), Error>)
    ensures
        match simplex_shape_error(indices@, point_count as int, dimension as int) {
            Some(reason) => r == Err::<(), Error>(Error::InvalidInput { reason }),
            None => r is Ok,
        },
{
    if indices.len() == 0 || indices.len() - 1 != dimension {
        return Err(Error::InvalidInput { reason: "D-dimensional simplex has wrong arity" });
    }
    let mut offset: usize = 0;
    while offset < indices.len()
        invariant
            0 <= offset <= indices@.len(),
            indices@.len() == dimension + 1,
            simplex_offset_error(indices@, point_count as int, 0) == simplex_offset_error(indices@, point_count as int, offset as int),
        decreases indices.len() - offset,
    {
        let index = indices[offset];
        if index >= point_count {
            return Err(Error::InvalidInput { reason: "D-dimensional simplex index out of bounds" });
        }
        let mut k: usize = 0;
        while k < offset
            invariant
                0 <= k <= offset < indices@.len(),
                index == indices@[offset as int],
                forall|j: int| 0 <= j < k ==> indices@[j] != index,
            decreases offset - k,
        {
            if indices[k] == index {
                proof {
                    assert(indices@.subrange(0, offset as int)[k as int] == index);
                    assert(indices@.subrange(0, offset as int).contains(index));
                }
                return Err(Error::InvalidInput { reason: "D-dimensional simplex repeats a point index" });
            }
            k = k + 1;
        }
        proof {
            assert(!indices@.subrange(0, offset as int).contains(index)) by {
                if indices@.subrange(0, offset as int).contains(index) {
                    let j = choose|j: int| 0 <= j < offset && indices@.subrange(0, offset as int)[j] == index;
                    assert(indices@[j] == index);
                }
            }
        }
        offset = offset + 1;
    }
    Ok(())
}

/// Coordinates of the points a simplex names, in simplex order.
fn simplex_coordinates(points: &[PointD], simplex: &[usize]) -> (r: Vec<Vec<Real>>)
    requires
        forall|k: int| 0 <= k < simplex@.len() ==> #[trigger] simplex@[k] < points@.len(),
    ensures
        rows_view(r@) == simplex_rows(point_coords(points@), simplex@),
{
    let mut rows: Vec<Vec<Real>> = Vec::new();
    let mut k: usize = 0;
    while k < simplex.len()
        invariant
            0 <= k <= simplex@.len(),
            forall|j: int| 0 <= j < simplex@.len() ==> #[trigger] simplex@[j] < points@.len(),
            rows_view(rows@) == simplex_rows(point_coords(points@), simplex@.subrange(0, k as int)),
        decreases simplex.len() - k,
    {
        let row = copy_reals(points[simplex[k]].coordinates());
        let ghost before = rows@;
        rows.push(row);
        proof {
            assert(rows_view(rows@) =~= rows_view(before).push(coordinate_pairs(row@)));
            assert(simplex_rows(point_coords(points@), simplex@.subrange(0, k + 1)) =~= simplex_rows(point_coords(points@), simplex@.subrange(0, k as int)).push(coordinate_pairs(point_coords(points@)[simplex@[k as int] as int])));
        }
        k = k + 1;
    }
    proof {
        assert(simplex@.subrange(0, simplex@.len() as int) =~= simplex@);
    }
    rows
}

/// Exact orientation sign of a simplex of the point list.
pub fn simplex_orientation(points: &[PointD], simplex: &[usize], policy: PredicatePolicy) -> (r: Result<Sign, Error>)
    requires
        forall|k: int| 0 <= k < simplex@.len() ==> #[trigger] simplex@[k] < points@.len(),
    ensures
        r == orientation_result(point_coords(points@), simplex@, policy),
{
    let rows = simplex_coordinates(points, simplex);
    match orient_d_sign(rows.as_slice(), policy) {
        Some(sign) => Ok(sign),
        None => Err(Error::PredicateUndecided { predicate: "D-dimensional orientation" }),
    }
}

/// Exact in-sphere sign of `query` against a simplex of the point list.
pub fn insphere_sign_for_query(points: &[PointD], simplex: &[usize], query: &PointD, policy: PredicatePolicy) -> (r: Result<Sign, Error>)
    requires
        forall|k: int| 0 <= k < simplex@.len() ==> #[trigger] simplex@[k] < points@.len(),
    ensures
        r == insphere_result(point_coords(points@), simplex@, query.coords(), policy),
{
    let mut rows = simplex_coordinates(points, simplex);
    let ghost simplex_part = rows@;
    rows.push(copy_reals(query.coordinates()));
    proof {
        assert(rows@.drop_last() =~= simplex_part);
    }
    match insphere_d_sign(rows.as_slice(), policy) {
        Some(sign) => Ok(sign),
        None => Err(Error::PredicateUndecided { predicate: "D-dimensional in-sphere" }),
    }
}

/// The in-sphere sign meaning "strictly inside" for a simplex of
/// `orientation` in `dimension` dimensions.
pub fn insphere_inside_sign(dimension: usize, orientation: Sign) -> (r: Sign)
    ensures
        r == inside_sign(dimension as int, orientation),
{
    if dimension % 2 == 0 {
        orientation
    } else {
        orientation.reversed()
    }
}

/// Whether no point of the list lies strictly inside the simplex's
/// circumsphere.
#[verifier::loop_isolation(false)]
pub fn simplex_has_empty_sphere(points: &[PointD], simplex: &[usize], orientation: Sign, policy: PredicatePolicy) -> (r: Result<bool, Error>)
    requires
        forall|k: int| 0 <= k < simplex@.len() ==> #[trigger] simplex@[k] < points@.len(),
    ensures
        r == empty_sphere(point_coords(points@), simplex@, orientation, policy),
{
    let ghost coords = point_coords(points@);
    let mut i: usize = 0;
    while i < points.len()
        invariant
            0 <= i <= points@.len(),
            coords == point_coords(points@),
            forall|k: int| 0 <= k < simplex@.len() ==> #[trigger] simplex@[k] < points@.len(),
            empty_sphere_upto(coords, simplex@, orientation, policy, i as int) == Ok::<bool, Error>(true),
        decreases points.len() - i,
    {
        let mut listed = false;
        let mut k: usize = 0;
        while k < simplex.len()
            invariant
                0 <= k <= simplex@.len(),
                listed <==> exists|j: int| 0 <= j < k && simplex@[j] == i,
            decreases simplex.len() - k,
        {
            if simplex[k] == i {
                listed = true;
            }
            k = k + 1;
        }
        assert(listed == simplex@.contains(i));
        if !listed {
            let sphere = match insphere_sign_for_query(points, simplex, &points[i], policy) {
                Ok(s) => s,
                Err(e) => {
                    proof {
                        lemma_empty_sphere_settled(coords, simplex@, orientation, policy, i + 1, points@.len() as int);
                    }
                    return Err(e);
                },
            };
            if sphere == insphere_inside_sign(points[i].dimension(), orientation) {
                proof {
                    lemma_empty_sphere_settled(coords, simplex@, orientation, policy, i + 1, points@.len() as int);
                }
                return Ok(false);
            }
        }
        i = i + 1;
    }
    Ok(true)
}

/// Validate the parts of a complex: points, then each cell in order.
#[verifier::loop_isolation(false)]
fn validate_complex_parts(dimension: usize, points: &[PointD], cells: &[Simplex], policy: PredicatePolicy) -> (r: Result<(), Error>)
    ensures
        r == complex_validation(dimension as int, point_coords(points@), simplex_lists(cells@), policy),
{
    let ghost coords = point_coords(points@);
    let ghost lists = simplex_lists(cells@);
    match validate_points(points, dimension) {
        Ok(()) => {},
        Err(e) => return Err(e),
    }
    let mut c: usize = 0;
    while c < cells.len()
        invariant
            0 <= c <= cells@.len(),
            coords == point_coords(points@),
            lists == simplex_lists(cells@),
            points_validation(coords, dimension as int) is Ok,
            cells_validation_upto(coords, lists, dimension as int, policy, c as int) is Ok,
        decreases cells.len() - c,
    {
        let indices = cells[c].indices();
        assert(indices@ == lists[c as int]);
        let shape = validate_simplex_shape(indices, points.len(), dimension);
        if let Err(e) = shape {
            proof {
                lemma_cells_validation_settled(coords, lists, dimension as int, policy, c + 1, cells@.len() as int);
            }
            return Err(e);
        }
        proof {
            lemma_shape_in_bounds(indices@, points@.len() as int, dimension as int);
        }
        let orientation = match simplex_orientation(points, indices, policy) {
            Ok(o) => o,
            Err(e) => {
                proof {
                    lemma_cells_validation_settled(coords, lists, dimension as int, policy, c + 1, cells@.len() as int);
                }
                return Err(e);
            },
        };
        if orientation == Sign::Zero {
            proof {
                lemma_cells_validation_settled(coords, lists, dimension as int, policy, c + 1, cells@.len() as int);
            }
            return Err(Error::InvalidInput { reason: "D-dimensional simplex is affinely dependent" });
        }
        let empty = match simplex_has_empty_sphere(points, indices, orientation, policy) {
            Ok(b) => b,
            Err(e) => {
                proof {
                    lemma_cells_validation_settled(coords, lists, dimension as int, policy, c + 1, cells@.len() as int);
                }
                return Err(e);
            },
        };
        if !empty {
            proof {
                lemma_cells_validation_settled(coords, lists, dimension as int, policy, c + 1, cells@.len() as int);
            }
            return Err(Error::InvalidInput { reason: "D-dimensional simplex violates empty-sphere legality" });
        }
        c = c + 1;
    }
    Ok(())
}

/// A well-shaped simplex names only points of the list.
proof fn lemma_shape_in_bounds(indices: Seq<usize>, point_count: int, dimension: int)
    requires
        simplex_shape_error(indices, point_count, dimension) is None,
    ensures
        forall|k: int| 0 <= k < indices.len() ==> #[trigger] indices[k] < point_count,
{
    assert forall|k: int| 0 <= k < indices.len() implies #[trigger] indices[k] < point_count by {
        lemma_offset_bound(indices, point_count, 0, k);
    }
}

proof fn lemma_offset_bound(indices: Seq<usize>, point_count: int, start: int, k: int)
    requires
        0 <= start <= k < indices.len(),
        simplex_offset_error(indices, point_count, start) is None,
    ensures
        indices[k] < point_count,
    decreases k - start,
{
    if start < k {
        lemma_offset_bound(indices, point_count, start + 1, k);
    }
}

/// Index lists of a list of vectors.
pub open spec fn nested_views(v: Seq<Vec<usize>>) -> Seq<Seq<usize>> {
    v.map_values(|x: Vec<usize>| x@)
}

/// Each list of `lists` preceded by `prefix`.
pub open spec fn prefixed(prefix: Seq<usize>, lists: Seq<Seq<usize>>) -> Seq<Seq<usize>> {
    lists.map_values(|c: Seq<usize>| prefix + c)
}

/// The `k`-element subsets of `start..n` as increasing index lists, in
/// lexicographic order.
pub open spec fn combinations_from(start: int, n: int, k: int) -> Seq<Seq<usize>>
    decreases k, n - start,
{
    if k <= 0 {
        seq![Seq::<usize>::empty()]
    } else if start + k > n {
        Seq::empty()
    } else {
        prefixed(seq![start as usize], combinations_from(start + 1, n, k - 1)) + combinations_from(start + 1, n, k)
    }
}

/// Append to `result` every completion of `current` by increasing indices
/// from `start..n` up to `k` entries, in lexicographic order.
fn push_combinations(start: usize, n: usize, k: usize, current: &mut Vec<usize>, result: &mut Vec<Vec<usize>>)
    requires
        old(current)@.len() <= k <= n,
        start <= n,
    ensures
        final(current)@ == old(current)@,
        nested_views(final(result)@) == nested_views(old(result)@) + prefixed(old(current)@, combinations_from(start as int, n as int, k - old(current)@.len())),
    decreases k - current@.len(),
{
    let ghost cur = current@;
    let ghost res0 = nested_views(result@);
    if current.len() == k {
        let copy = copy_usizes(current.as_slice());
        result.push(copy);
        proof {
            assert(prefixed(cur, combinations_from(start as int, n as int, 0)) =~= seq![cur + Seq::<usize>::empty()]);
            assert(cur + Seq::<usize>::empty() =~= cur);
            assert(nested_views(result@) =~= res0 + seq![cur]);
        }
        return;
    }
    let remaining = k - current.len();
    let mut index = start;
    while index <= n - remaining
        invariant
            current@ == cur,
            cur == old(current)@,
            cur.len() < k <= n,
            remaining == k - cur.len(),
            start <= index,
            index <= n - remaining + 1 || index == start,
            nested_views(result@) + prefixed(cur, combinations_from(index as int, n as int, remaining as int))
                == res0 + prefixed(cur, combinations_from(start as int, n as int, remaining as int)),
        decreases n - remaining + 1 - index,
    {
        let ghost before = nested_views(result@);
        current.push(index);
        assert(k - current@.len() < k - cur.len());
        push_combinations(index + 1, n, k, current, result);
        current.pop();
        proof {
            assert(current@ =~= cur);
            let tail = combinations_from(index + 1, n as int, remaining - 1);
            let rest = combinations_from(index + 1, n as int, remaining as int);
            assert(combinations_from(index as int, n as int, remaining as int) == prefixed(seq![index], tail) + rest);
            assert(prefixed(cur, prefixed(seq![index], tail) + rest) =~= prefixed(cur, prefixed(seq![index], tail)) + prefixed(cur, rest));
            assert(prefixed(cur, prefixed(seq![index], tail)) =~= prefixed(cur.push(index), tail)) by {
                assert forall|j: int| 0 <= j < tail.len() implies cur + (seq![index] + tail[j]) =~= cur.push(index) + tail[j] by {}
            }
            assert(nested_views(result@) == before + prefixed(cur.push(index), tail));
            assert(nested_views(result@) + prefixed(cur, rest) =~= before + prefixed(cur, combinations_from(index as int, n as int, remaining as int)));
        }
        index = index + 1;
    }
    proof {
        assert(combinations_from(index as int, n as int, remaining as int) =~= Seq::<Seq<usize>>::empty());
        assert(nested_views(result@) + prefixed(cur, Seq::<Seq<usize>>::empty()) =~= nested_views(result@));
    }
}

/// All `k`-element subsets of `0..n` as increasing index lists, in
/// lexicographic order.
pub fn combinations(n: usize, k: usize) -> (r: Vec<Vec<usize>>)
    requires
        k <= n,
    ensures
        nested_views(r@) == combinations_from(0, n as int, k as int),
{
    let mut result: Vec<Vec<usize>> = Vec::new();
    let mut current: Vec<usize> = Vec::new();
    push_combinations(0, n, k, &mut current, &mut result);
    proof {
        let cs = combinations_from(0, n as int, k as int);
        assert(prefixed(Seq::<usize>::empty(), cs) =~= cs) by {
            assert forall|j: int| 0 <= j < cs.len() implies Seq::<usize>::empty() + cs[j] =~= cs[j] by {}
        }
        assert(nested_views(Seq::<Vec<usize>>::empty()) =~= Seq::<Seq<usize>>::empty());
        assert(Seq::<Seq<usize>>::empty() + cs =~= cs);
    }
    result
}

/// Delaunay cells among the first `j` candidate index lists, in order, or
/// the first undecided predicate.
pub open spec fn delaunay_cells_upto(points: Seq<Seq<Real>>, candidates: Seq<Seq<usize>>, policy: PredicatePolicy, j: int) -> Result<Seq<Seq<usize>>, Error>
    decreases j,
{
    if j <= 0 {
        Ok(Seq::empty())
    } else {
        match delaunay_cells_upto(points, candidates, policy, j - 1) {
            Err(e) => Err(e),
            Ok(acc) => match orientation_result(points, candidates[j - 1], policy) {
                Err(e) => Err(e),
                Ok(o) => if o == Sign::Zero {
                    Ok(acc)
                } else {
                    match empty_sphere(points, candidates[j - 1], o, policy) {
                        Err(e) => Err(e),
                        Ok(true) => Ok(acc.push(candidates[j - 1])),
                        Ok(false) => Ok(acc),
                    }
                },
            },
        }
    }
}

/// Whether `cell` has a decided nonzero orientation `o` and every point not
/// among its vertices has a decided in-sphere sign that is not "strictly
/// inside": not `o` in even dimension, not the reverse of `o` in odd
/// dimension.
pub open spec fn cell_sphere_empty(points: Seq<Seq<Real>>, cell: Seq<usize>, policy: PredicatePolicy) -> bool {
    orientation_result(points, cell, policy) matches Ok(o) && o != Sign::Zero
        && forall|j: int| 0 <= j < points.len() && !cell.contains(j as usize) ==>
            (#[trigger] insphere_result(points, cell, points[j], policy) matches Ok(s)
                && s != (if points[j].len() % 2 == 0 { o } else { reversed_sign(o) }))
}

proof fn lemma_cells_upto_empty(points: Seq<Seq<Real>>, candidates: Seq<Seq<usize>>, policy: PredicatePolicy, j: int)
    requires
        0 <= j <= candidates.len(),
        delaunay_cells_upto(points, candidates, policy, j) is Ok,
    ensures
        forall|c: int| 0 <= c < delaunay_cells_upto(points, candidates, policy, j).unwrap().len()
            ==> cell_sphere_empty(points, #[trigger] delaunay_cells_upto(points, candidates, policy, j).unwrap()[c], policy),
    decreases j,
{
    if j > 0 {
        lemma_cells_upto_empty(points, candidates, policy, j - 1);
        let acc = delaunay_cells_upto(points, candidates, policy, j - 1).unwrap();
        let cur = delaunay_cells_upto(points, candidates, policy, j).unwrap();
        let cell = candidates[j - 1];
        if cur.len() > acc.len() {
            let o = orientation_result(points, cell, policy).unwrap();
            lemma_empty_sphere_law(points, cell, o, policy);
            assert(cur == acc.push(cell));
            assert(cell_sphere_empty(points, cell, policy));
            assert forall|c: int| 0 <= c < cur.len() implies cell_sphere_empty(points, #[trigger] cur[c], policy) by {
                if c < acc.len() {
                    assert(cur[c] == acc[c]);
                }
            }
        } else {
            assert(cur == acc);
        }
    }
}

/// Every cell of the exact Delaunay complex has a decided nonzero
/// orientation and no input point strictly inside its circumsphere (with
/// the in-sphere sign read by the parity rule of the dimension).
pub proof fn lemma_delaunay_cells_empty(points: Seq<Seq<Real>>, policy: PredicatePolicy)
    requires
        delaunay_result(points, policy) is Ok,
    ensures
        forall|c: int| 0 <= c < delaunay_result(points, policy).unwrap().1.len()
            ==> cell_sphere_empty(points, #[trigger] delaunay_result(points, policy).unwrap().1[c], policy),
{
    let d = points[0].len() as int;
    if points.len() >= d + 1 {
        let candidates = combinations_from(0, points.len() as int, d + 1);
        lemma_cells_upto_empty(points, candidates, policy, candidates.len() as int);
    }
}

proof fn lemma_delaunay_cells_settled(points: Seq<Seq<Real>>, candidates: Seq<Seq<usize>>, policy: PredicatePolicy, j: int, m: int)
    requires
        0 <= j <= m,
        delaunay_cells_upto(points, candidates, policy, j) is Err,
    ensures
        delaunay_cells_upto(points, candidates, policy, m) == delaunay_cells_upto(points, candidates, policy, j),
    decreases m - j,
{
    if m > j {
        lemma_delaunay_cells_settled(points, candidates, policy, j, m - 1);
    }
}

/// The exact Delaunay complex of a point list: its dimension (that of the
/// first point) and cells, or why there is none.
pub open spec fn delaunay_result(points: Seq<Seq<Real>>, policy: PredicatePolicy) -> Result<(int, Seq<Seq<usize>>), Error> {
    if points.len() == 0 {
        Err(Error::InvalidInput { reason: "D-dimensional Delaunay input must contain at least one point" })
    } else if points[0].len() == 0 {
        Err(Error::InvalidInput { reason: "D-dimensional points must have at least one coordinate" })
    } else {
        let d = points[0].len() as int;
        match points_validation(points, d) {
            Err(e) => Err(e),
            Ok(()) => if points.len() < d + 1 {
                Ok((d, Seq::empty()))
            } else {
                let candidates = combinations_from(0, points.len() as int, d + 1);
                match delaunay_cells_upto(points, candidates, policy, candidates.len() as int) {
                    Err(e) => Err(e),
                    Ok(cells) => Ok((d, cells)),
                }
            },
        }
    }
}

/// Copy of a point list.
pub fn copy_points(points: &[PointD]) -> (r: Vec<PointD>)
    ensures
        point_coords(r@) == point_coords(points@),
{
    let mut out: Vec<PointD> = Vec::new();
    let mut i: usize = 0;
    while i < points.len()
        invariant
            0 <= i <= points@.len(),
            point_coords(out@) == point_coords(points@.subrange(0, i as int)),
        decreases points.len() - i,
    {
        let p = points[i].duplicate();
        let ghost before = out@;
        out.push(p);
        proof {
            assert(point_coords(out@) =~= point_coords(before).push(p.coords()));
            assert(point_coords(points@.subrange(0, i + 1)) =~= point_coords(points@.subrange(0, i as int)).push(points@[i as int].coords()));
        }
        i = i + 1;
    }
    proof {
        assert(points@.subrange(0, points@.len() as int) =~= points@);
    }
    out
}

/// Build the exact D-dimensional Delaunay complex by exhaustive predicates:
/// every `dimension + 1` point subset, in lexicographic order, that is
/// affinely independent and has an empty circumsphere.
pub fn delaunay_complex(context: &TriangulationContext, points: &[PointD]) -> (r: Result<TriangulationOutcome<DelaunayComplex>, Error>)
    ensures
        match delaunay_result(point_coords(points@), context.policy()) {
            Ok((d, cells)) => r matches Ok(o) && o.certainty == TriangulationCertainty::Certified
                && o.value.dimension_view() == d && o.value.points_view() == point_coords(points@) && o.value.cells_view() == cells,
            Err(e) => r == Err::<TriangulationOutcome<DelaunayComplex>, Error>(e),
        },
{
    match delaunay_complex_parts(points, context.predicate_policy()) {
        Ok(complex) => Ok(TriangulationOutcome::new(complex, TriangulationCertainty::Certified)),
        Err(e) => Err(e),
    }
}

/// The exact Delaunay complex of `points` under `policy`.
#[verifier::loop_isolation(false)]
fn delaunay_complex_parts(points: &[PointD], policy: PredicatePolicy) -> (r: Result<DelaunayComplex, Error>)
    ensures
        match delaunay_result(point_coords(points@), policy) {
            Ok((d, cells)) => r matches Ok(c) && c.dimension_view() == d && c.points_view() == point_coords(points@) && c.cells_view() == cells,
            Err(e) => r == Err::<DelaunayComplex, Error>(e),
        },
{
    let ghost coords = point_coords(points@);
    if points.len() == 0 {
        return Err(Error::InvalidInput { reason: "D-dimensional Delaunay input must contain at least one point" });
    }
    let dimension = points[0].dimension();
    if dimension == 0 {
        return Err(Error::InvalidInput { reason: "D-dimensional points must have at least one coordinate" });
    }
    match validate_points(points, dimension) {
        Ok(()) => {},
        Err(e) => return Err(e),
    }
    if points.len() - 1 < dimension {
        return Ok(DelaunayComplex::from_parts(dimension, copy_points(points), Vec::new()));
    }
    let candidates = combinations(points.len(), dimension + 1);
    let ghost cands = nested_views(candidates@);
    let mut cells: Vec<Simplex> = Vec::new();
    assert(simplex_lists(cells@) =~= Seq::<Seq<usize>>::empty());
    let mut j: usize = 0;
    while j < candidates.len()
        invariant
            0 <= j <= candidates@.len(),
            cands == nested_views(candidates@),
            cands == combinations_from(0, points@.len() as int, dimension + 1),
            delaunay_cells_upto(coords, cands, policy, j as int) == Ok::<Seq<Seq<usize>>, Error>(simplex_lists(cells@)),
        decreases candidates.len() - j,
    {
        let indices = candidates[j].as_slice();
        assert(indices@ == cands[j as int]);
        proof {
            lemma_combination_in_range(0, points@.len() as int, dimension + 1, j as int);
        }
        let orientation = match simplex_orientation(points, indices, policy) {
            Ok(o) => o,
            Err(e) => {
                proof {
                    lemma_delaunay_cells_settled(coords, cands, policy, j + 1, cands.len() as int);
                }
                return Err(e);
            },
        };
        if orientation != Sign::Zero {
            let empty = match simplex_has_empty_sphere(points, indices, orientation, policy) {
                Ok(b) => b,
                Err(e) => {
                    proof {
                        lemma_delaunay_cells_settled(coords, cands, policy, j + 1, cands.len() as int);
                    }
                    return Err(e);
                },
            };
            if empty {
                let ghost before = cells@;
                cells.push(Simplex::new(copy_usizes(indices)));
                proof {
                    assert(simplex_lists(cells@) =~= simplex_lists(before).push(cands[j as int]));
                }
            }
        }
        j = j + 1;
    }
    Ok(DelaunayComplex::from_parts(dimension, copy_points(points), cells))
}

/// Every entry of a combination of `start..n` lies in `start..n`.
proof fn lemma_combination_in_range(start: int, n: int, k: int, j: int)
    requires
        0 <= start,
        n <= usize::MAX,
        0 <= j < combinations_from(start, n, k).len(),
    ensures
        forall|i: int| 0 <= i < combinations_from(start, n, k)[j].len()
            ==> start <= #[trigger] combinations_from(start, n, k)[j][i] < n,
    decreases k, n - start,
{
    if k > 0 && start + k <= n {
        let tail = combinations_from(start + 1, n, k - 1);
        let rest = combinations_from(start + 1, n, k);
        let head = prefixed(seq![start as usize], tail);
        if j < head.len() {
            lemma_combination_in_range(start + 1, n, k - 1, j);
            let c = combinations_from(start, n, k)[j];
            assert(c == seq![start as usize] + tail[j]);
            assert forall|i: int| 0 <= i < c.len() implies start <= #[trigger] c[i] < n by {
                if i > 0 {
                    assert(c[i] == tail[j][i - 1]);
                }
            }
        } else {
            lemma_combination_in_range(start + 1, n, k, j - head.len());
            assert(combinations_from(start, n, k)[j] == rest[j - head.len()]);
        }
    }
}

/// Every combination of `start..n` has `k` entries, strictly increasing,
/// each in `start..n`.
proof fn lemma_combination_shape(start: int, n: int, k: int, j: int)
    requires
        0 <= start,
        0 <= k,
        n <= usize::MAX,
        0 <= j < combinations_from(start, n, k).len(),
    ensures
        combinations_from(start, n, k)[j].len() == k,
        forall|a: int, b: int| 0 <= a < b < k
            ==> #[trigger] combinations_from(start, n, k)[j][a] < #[trigger] combinations_from(start, n, k)[j][b],
        forall|i: int| 0 <= i < k ==> start <= #[trigger] combinations_from(start, n, k)[j][i] < n,
    decreases k, n - start,
{
    if k > 0 && start + k <= n {
        let tail = combinations_from(start + 1, n, k - 1);
        let rest = combinations_from(start + 1, n, k);
        let head = prefixed(seq![start as usize], tail);
        if j < head.len() {
            lemma_combination_shape(start + 1, n, k - 1, j);
            let c = combinations_from(start, n, k)[j];
            assert(c == seq![start as usize] + tail[j]);
            assert forall|i: int| 0 <= i < k implies start <= #[trigger] c[i] < n by {
                if i > 0 {
                    assert(c[i] == tail[j][i - 1]);
                }
            }
            assert forall|a: int, b: int| 0 <= a < b < k implies #[trigger] c[a] < #[trigger] c[b] by {
                assert(c[b] == tail[j][b - 1]);
                if a > 0 {
                    assert(c[a] == tail[j][a - 1]);
                }
            }
        } else {
            lemma_combination_shape(start + 1, n, k, j - head.len());
            assert(combinations_from(start, n, k)[j] == rest[j - head.len()]);
        }
    }
}

/// A strictly increasing index list below `point_count` has no malformed
/// offset from `k` on.
proof fn lemma_increasing_offsets(indices: Seq<usize>, point_count: int, k: int)
    requires
        0 <= k,
        forall|a: int, b: int| 0 <= a < b < indices.len() ==> #[trigger] indices[a] < #[trigger] indices[b],
        forall|i: int| 0 <= i < indices.len() ==> #[trigger] indices[i] < point_count,
    ensures
        simplex_offset_error(indices, point_count, k) is None,
    decreases indices.len() - k,
{
    if k < indices.len() {
        assert(!indices.subrange(0, k).contains(indices[k])) by {
            if indices.subrange(0, k).contains(indices[k]) {
                let a = choose|a: int| 0 <= a < k && indices.subrange(0, k)[a] == indices[k];
                assert(indices[a] < indices[k]);
            }
        }
        lemma_increasing_offsets(indices, point_count, k + 1);
    }
}

/// A cell the oracle keeps: decided, nonzero orientation and an empty sphere.
pub open spec fn accepted_cell(points: Seq<Seq<Real>>, cell: Seq<usize>, policy: PredicatePolicy) -> bool {
    match orientation_result(points, cell, policy) {
        Ok(o) => o != Sign::Zero && empty_sphere(points, cell, o, policy) == Ok::<bool, Error>(true),
        Err(_) => false,
    }
}

/// The cells kept among the first `j` candidates are accepted candidates.
proof fn lemma_delaunay_cells_accepted(points: Seq<Seq<Real>>, candidates: Seq<Seq<usize>>, policy: PredicatePolicy, j: int)
    requires
        0 <= j <= candidates.len(),
        delaunay_cells_upto(points, candidates, policy, j) is Ok,
    ensures
        forall|m: int| 0 <= m < delaunay_cells_upto(points, candidates, policy, j)->Ok_0.len() ==> {
            let cell = #[trigger] delaunay_cells_upto(points, candidates, policy, j)->Ok_0[m];
            accepted_cell(points, cell, policy) && exists|i: int| 0 <= i < j && candidates[i] == cell
        },
    decreases j,
{
    if j > 0 {
        lemma_delaunay_cells_accepted(points, candidates, policy, j - 1);
        let acc = delaunay_cells_upto(points, candidates, policy, j - 1)->Ok_0;
        let now = delaunay_cells_upto(points, candidates, policy, j)->Ok_0;
        assert forall|m: int| 0 <= m < now.len() implies {
            let cell = #[trigger] now[m];
            accepted_cell(points, cell, policy) && exists|i: int| 0 <= i < j && candidates[i] == cell
        } by {
            if m < acc.len() {
                assert(now[m] == acc[m]);
                let cell = acc[m];
                let i = choose|i: int| 0 <= i < j - 1 && candidates[i] == cell;
                assert(0 <= i < j && candidates[i] == cell);
            } else {
                assert(now[m] == candidates[j - 1]);
            }
        }
    }
}

/// Validation succeeds on every prefix of a list of accepted, well-shaped
/// cells.
proof fn lemma_accepted_cells_validate(points: Seq<Seq<Real>>, cells: Seq<Seq<usize>>, dimension: int, policy: PredicatePolicy, c: int)
    requires
        0 <= c <= cells.len(),
        forall|m: int| 0 <= m < cells.len() ==> accepted_cell(points, #[trigger] cells[m], policy),
        forall|m: int| 0 <= m < cells.len() ==> simplex_shape_error(#[trigger] cells[m], points.len() as int, dimension) is None,
    ensures
        cells_validation_upto(points, cells, dimension, policy, c) == Ok::<(), Error>(()),
    decreases c,
{
    if c > 0 {
        lemma_accepted_cells_validate(points, cells, dimension, policy, c - 1);
        assert(accepted_cell(points, cells[c - 1], policy));
        assert(simplex_shape_error(cells[c - 1], points.len() as int, dimension) is None);
    }
}

/// The exact Delaunay oracle's output passes the complex's own validation:
/// every cell it returns has the right arity and distinct in-range indices,
/// nonzero orientation and an empty circumsphere.
pub proof fn lemma_delaunay_result_validates(points: Seq<Seq<Real>>, policy: PredicatePolicy)
    requires
        points.len() <= usize::MAX,
    ensures
        match delaunay_result(points, policy) {
            Ok((d, cells)) => complex_validation(d, points, cells, policy) == Ok::<(), Error>(()),
            Err(_) => true,
        },
{
    if delaunay_result(points, policy) is Ok {
        let d = points[0].len() as int;
        let cells = delaunay_result(points, policy)->Ok_0.1;
        if points.len() >= d + 1 {
            let candidates = combinations_from(0, points.len() as int, d + 1);
            lemma_delaunay_cells_accepted(points, candidates, policy, candidates.len() as int);
            assert forall|m: int| 0 <= m < cells.len() implies simplex_shape_error(#[trigger] cells[m], points.len() as int, d) is None by {
                let cell = cells[m];
                let i = choose|i: int| 0 <= i < candidates.len() && candidates[i] == cell;
                lemma_combination_shape(0, points.len() as int, d + 1, i);
                lemma_increasing_offsets(cell, points.len() as int, 0);
            }
        }
        lemma_accepted_cells_validate(points, cells, d, policy, cells.len() as int);
    }
}

/// Candidate bistellar flip on a circuit of `d + 2` vertices: the removed
/// side holds the cells opposite `removed_opposite_vertices`, the inserted
/// side the cells opposite the remaining circuit vertices.
#[derive(Debug)]
pub struct BistellarFlipD {
    vertices: Vec<usize>,
    removed_opposite_vertices: Vec<usize>,
}

impl BistellarFlipD {
    /// Circuit vertices (spec view).
    pub closed spec fn vertices_view(&self) -> Seq<usize> {
        self.vertices@
    }

    /// Opposite vertices of the removed side (spec view).
    pub closed spec fn removed_view(&self) -> Seq<usize> {
        self.removed_opposite_vertices@
    }

    /// The circuit vertices are kept in ascending order.
    #[verifier::type_invariant]
    closed spec fn circuit_sorted(self) -> bool {
        forall|i: int, j: int| 0 <= i < j < self.vertices@.len() ==> self.vertices@[i] <= self.vertices@[j]
    }

    /// Constructs a circuit flip from all circuit vertices, stored sorted,
    /// and the removed side's opposite vertices.
    pub fn new(vertices: Vec<usize>, removed_opposite_vertices: Vec<usize>) -> (r: BistellarFlipD)
        ensures
            r.vertices_view() == vertices@.sort_by(index_leq()),
            r.removed_view() == removed_opposite_vertices@,
    {
        let sorted = sorted_copy(vertices.as_slice());
        proof {
            lemma_index_leq_total();
            vertices@.lemma_sort_by_ensures(index_leq());
            assert forall|i: int, j: int| 0 <= i < j < sorted@.len() implies sorted@[i] <= sorted@[j] by {
                assert(index_leq()(sorted@[i], sorted@[j]));
            }
        }
        BistellarFlipD { vertices: sorted, removed_opposite_vertices }
    }

    /// Sorted circuit vertices.
    pub fn vertices(&self) -> (r: &[usize])
        ensures
            r@ == self.vertices_view(),
            forall|i: int, j: int| 0 <= i < j < r@.len() ==> r@[i] <= r@[j],
    {
        proof { use_type_invariant(self); }
        self.vertices.as_slice()
    }

    /// Vertices opposite the removed side's cells.
    pub fn removed_opposite_vertices(&self) -> (r: &[usize])
        ensures
            r@ == self.removed_view(),
    {
        self.removed_opposite_vertices.as_slice()
    }
}

/// Report from validating a bistellar flip candidate.
#[derive(Debug)]
pub struct BistellarFlipReportD {
    p: usize,
    q: usize,
    removed_cells: Vec<Simplex>,
    inserted_cells: Vec<Simplex>,
    blocks_delaunay: bool,
    reason: Option<&'static str>,
    predicate_undecided: Option<&'static str>,
}

impl BistellarFlipReportD {
    /// Number of removed cells (spec view).
    pub closed spec fn p_view(&self) -> usize {
        self.p
    }

    /// Number of inserted cells (spec view).
    pub closed spec fn q_view(&self) -> usize {
        self.q
    }

    /// Removed cells (spec view).
    pub closed spec fn removed_cells_view(&self) -> Seq<Seq<usize>> {
        simplex_lists(self.removed_cells@)
    }

    /// Inserted cells (spec view).
    pub closed spec fn inserted_cells_view(&self) -> Seq<Seq<usize>> {
        simplex_lists(self.inserted_cells@)
    }

    /// Whether empty-sphere predicates reject the inserted side (spec view).
    pub closed spec fn blocks_view(&self) -> bool {
        self.blocks_delaunay
    }

    /// Failure reason (spec view).
    pub closed spec fn reason_view(&self) -> Option<&'static str> {
        self.reason
    }

    /// Undecided predicate (spec view).
    pub closed spec fn undecided_view(&self) -> Option<&'static str> {
        self.predicate_undecided
    }

    /// Number of cells removed by the candidate flip.
    pub fn p(&self) -> (r: usize)
        ensures
            r == self.p_view(),
    {
        self.p
    }

    /// Number of cells inserted by the candidate flip.
    pub fn q(&self) -> (r: usize)
        ensures
            r == self.q_view(),
    {
        self.q
    }

    /// Cells that would be removed.
    pub fn removed_cells(&self) -> (r: &[Simplex])
        ensures
            simplex_lists(r@) == self.removed_cells_view(),
    {
        self.removed_cells.as_slice()
    }

    /// Cells that would be inserted.
    pub fn inserted_cells(&self) -> (r: &[Simplex])
        ensures
            simplex_lists(r@) == self.inserted_cells_view(),
    {
        self.inserted_cells.as_slice()
    }

    /// True when exact empty-sphere predicates reject the inserted side.
    pub fn blocks_delaunay(&self) -> (r: bool)
        ensures
            r == self.blocks_view(),
    {
        self.blocks_delaunay
    }

    /// Validation failure reason, if any.
    pub fn reason(&self) -> (r: Option<&'static str>)
        ensures
            r == self.reason_view(),
    {
        self.reason
    }

    /// Predicate whose certainty budget was exhausted, when validation did
    /// not decide an invalid flip.
    pub fn undecided_predicate(&self) -> (r: Option<&'static str>)
        ensures
            r == self.undecided_view(),
    {
        self.predicate_undecided
    }

    /// Returns true when the flip is structurally valid and Delaunay-legal.
    pub fn is_valid(&self) -> (r: bool)
        ensures
            r == (self.reason_view() is None && !self.blocks_view()),
    {
        self.reason.is_none() && !self.blocks_delaunay
    }
}

/// Whether two neighbors of a sequence are equal.
pub open spec fn has_adjacent_repeat(s: Seq<usize>) -> bool {
    exists|i: int| 0 <= i < s.len() - 1 && #[trigger] s[i] == s[i + 1]
}

/// The cells of a circuit opposite each listed vertex, in that order.
pub open spec fn cells_from_opposite(vertices: Seq<usize>, opposite: Seq<usize>) -> Seq<Seq<usize>> {
    opposite.map_values(|o: usize| without(vertices, o))
}

/// Whether some cell has the same vertex set as `indices`.
pub open spec fn complex_has_cell(cells: Seq<Seq<usize>>, indices: Seq<usize>) -> bool {
    exists|c: int| 0 <= c < cells.len() && (#[trigger] cells[c]).sort_by(index_leq()) == indices.sort_by(index_leq())
}

/// Legality of the inserted cells below `j`: whether some of them fails the
/// empty-sphere test, or the first error.
pub open spec fn inserted_check_upto(points: Seq<Seq<Real>>, inserted: Seq<Seq<usize>>, policy: PredicatePolicy, j: int) -> Result<bool, Error>
    decreases j,
{
    if j <= 0 {
        Ok(false)
    } else {
        match inserted_check_upto(points, inserted, policy, j - 1) {
            Err(e) => Err(e),
            Ok(blocks) => match orientation_result(points, inserted[j - 1], policy) {
                Err(e) => Err(e),
                Ok(o) => if o == Sign::Zero {
                    Err(Error::InvalidInput { reason: "D-dimensional flip inserted cell is affinely dependent" })
                } else {
                    match empty_sphere(points, inserted[j - 1], o, policy) {
                        Err(e) => Err(e),
                        Ok(empty) => Ok(blocks || !empty),
                    }
                },
            },
        }
    }
}

proof fn lemma_inserted_check_settled(points: Seq<Seq<Real>>, inserted: Seq<Seq<usize>>, policy: PredicatePolicy, j: int, m: int)
    requires
        0 <= j <= m,
        inserted_check_upto(points, inserted, policy, j) is Err,
    ensures
        inserted_check_upto(points, inserted, policy, m) == inserted_check_upto(points, inserted, policy, j),
    decreases m - j,
{
    if m > j {
        lemma_inserted_check_settled(points, inserted, policy, j, m - 1);
    }
}

/// Validation of a flip candidate against a complex: the removed and
/// inserted cells and whether the inserted side fails the empty-sphere test,
/// or why the candidate is rejected.
pub open spec fn flip_validation(
    dimension: int,
    points: Seq<Seq<Real>>,
    cells: Seq<Seq<usize>>,
    vertices: Seq<usize>,
    removed: Seq<usize>,
    policy: PredicatePolicy,
) -> Result<(Seq<Seq<usize>>, Seq<Seq<usize>>, bool), Error> {
    let sv = vertices.sort_by(index_leq());
    let sr = removed.sort_by(index_leq());
    if points.len() == 0 || dimension == 0 {
        Err(Error::InvalidInput { reason: "D-dimensional flip requires a nonempty complex" })
    } else if sv.len() != dimension + 2 {
        Err(Error::InvalidInput { reason: "D-dimensional flip circuit has wrong arity" })
    } else if has_adjacent_repeat(sv) {
        Err(Error::InvalidInput { reason: "D-dimensional flip circuit repeats a vertex" })
    } else if exists|i: int| 0 <= i < sv.len() && #[trigger] sv[i] >= points.len() {
        Err(Error::InvalidInput { reason: "D-dimensional flip circuit vertex out of bounds" })
    } else if sr.len() == 0 || sr.len() >= sv.len() {
        Err(Error::InvalidInput { reason: "D-dimensional flip has invalid p/q arity" })
    } else if has_adjacent_repeat(sr) {
        Err(Error::InvalidInput { reason: "D-dimensional flip repeats a removed opposite vertex" })
    } else if exists|i: int| 0 <= i < sr.len() && !sv.contains(#[trigger] sr[i]) {
        Err(Error::InvalidInput { reason: "D-dimensional flip opposite vertex is outside the circuit" })
    } else {
        let removed_cells = cells_from_opposite(sv, sr);
        let inserted_cells = cells_from_opposite(sv, without_all(sv, sr));
        if exists|c: int| 0 <= c < removed_cells.len() && !complex_has_cell(cells, #[trigger] removed_cells[c]) {
            Err(Error::InvalidInput { reason: "D-dimensional flip removed cell is not present" })
        } else {
            match inserted_check_upto(points, inserted_cells, policy, inserted_cells.len() as int) {
                Err(e) => Err(e),
                Ok(blocks) => Ok((removed_cells, inserted_cells, blocks)),
            }
        }
    }
}

/// The reason text a failed validation reports for an error.
pub open spec fn error_reason_of(error: Error) -> &'static str {
    match error {
        Error::PredicateUndecided { predicate } => predicate,
        Error::InvalidInput { reason } => reason,
        Error::NoEarFound => "no valid polygon ear could be found",
        Error::UnsupportedFeature { feature } => feature,
    }
}

/// The reason text of an error.
pub fn error_reason(error: Error) -> (r: &'static str)
    ensures
        r == error_reason_of(error),
{
    match error {
        Error::PredicateUndecided { predicate } => predicate,
        Error::InvalidInput { reason } => reason,
        Error::NoEarFound => "no valid polygon ear could be found",
        Error::UnsupportedFeature { feature } => feature,
    }
}

/// Whether two index lists name the same vertex set.
pub fn simplex_indices_equal(left: &[usize], right: &[usize]) -> (r: bool)
    ensures
        r == (left@.sort_by(index_leq()) == right@.sort_by(index_leq())),
{
    let a = sorted_copy(left);
    let b = sorted_copy(right);
    lists_equal(a.as_slice(), b.as_slice())
}

/// Whether some cell of the list has the vertex set of `indices`.
pub fn has_cell(cells: &[Simplex], indices: &[usize]) -> (r: bool)
    ensures
        r == complex_has_cell(simplex_lists(cells@), indices@),
{
    let ghost lists = simplex_lists(cells@);
    let mut c: usize = 0;
    while c < cells.len()
        invariant
            0 <= c <= cells@.len(),
            lists == simplex_lists(cells@),
            forall|j: int| 0 <= j < c ==> (#[trigger] lists[j]).sort_by(index_leq()) != indices@.sort_by(index_leq()),
        decreases cells.len() - c,
    {
        if simplex_indices_equal(cells[c].indices(), indices) {
            assert(lists[c as int].sort_by(index_leq()) == indices@.sort_by(index_leq()));
            return true;
        }
        c = c + 1;
    }
    false
}

/// Every entry of `without(s, x)` is an entry of `s`.
proof fn lemma_without_subset(s: Seq<usize>, x: usize)
    ensures
        forall|k: int| 0 <= k < without(s, x).len() ==> s.contains(#[trigger] without(s, x)[k]),
    decreases s.len(),
{
    if s.len() > 0 {
        lemma_without_subset(s.drop_last(), x);
        let rest = without(s.drop_last(), x);
        assert forall|k: int| 0 <= k < without(s, x).len() implies s.contains(#[trigger] without(s, x)[k]) by {
            if k < rest.len() {
                assert(without(s, x)[k] == rest[k]);
                let j = choose|j: int| 0 <= j < s.drop_last().len() && s.drop_last()[j] == rest[k];
                assert(s[j] == rest[k]);
            } else {
                assert(without(s, x)[k] == s.last());
                assert(s[s.len() - 1] == s.last());
            }
        }
    }
}

/// The cells of a circuit opposite each listed vertex.
pub fn cells_from_opposite_vertices(vertices: &[usize], opposite: &[usize]) -> (r: Vec<Simplex>)
    ensures
        simplex_lists(r@) == cells_from_opposite(vertices@, opposite@),
{
    let mut out: Vec<Simplex> = Vec::new();
    let mut i: usize = 0;
    while i < opposite.len()
        invariant
            0 <= i <= opposite@.len(),
            simplex_lists(out@) == cells_from_opposite(vertices@, opposite@.subrange(0, i as int)),
        decreases opposite.len() - i,
    {
        let cell = Simplex::new(copy_without(vertices, opposite[i]));
        let ghost before = out@;
        out.push(cell);
        proof {
            assert(simplex_lists(out@) =~= simplex_lists(before).push(cell.indices_view()));
            assert(cells_from_opposite(vertices@, opposite@.subrange(0, i + 1)) =~= cells_from_opposite(vertices@, opposite@.subrange(0, i as int)).push(without(vertices@, opposite@[i as int])));
        }
        i = i + 1;
    }
    proof {
        assert(opposite@.subrange(0, opposite@.len() as int) =~= opposite@);
    }
    out
}

/// Whether a sorted list has two equal neighbors.
fn adjacent_repeat(values: &[usize]) -> (r: bool)
    ensures
        r == has_adjacent_repeat(values@),
{
    let mut i: usize = 1;
    while i < values.len()
        invariant
            1 <= i,
            i <= values@.len() || values@.len() == 0,
            forall|j: int| 0 <= j < i - 1 && j < values@.len() - 1 ==> #[trigger] values@[j] != values@[j + 1],
        decreases values.len() - i,
    {
        if values[i - 1] == values[i] {
            assert(values@[i - 1] == values@[(i - 1) + 1]);
            return true;
        }
        i = i + 1;
    }
    false
}

/// The report a failed flip validation produces.
pub open spec fn failed_flip_report(report: BistellarFlipReportD, flip: BistellarFlipD, error: Error) -> bool {
    let vertex_count = flip.vertices_view().len();
    let removed_count = flip.removed_view().len();
    &&& report.p_view() == removed_count
    &&& report.q_view() == if vertex_count >= removed_count { vertex_count - removed_count } else { 0 }
    &&& report.removed_cells_view().len() == 0
    &&& report.inserted_cells_view().len() == 0
    &&& !report.blocks_view()
    &&& report.reason_view() == Some(error_reason_of(error))
    &&& report.undecided_view() == match error {
        Error::PredicateUndecided { predicate } => Some(predicate),
        _ => None,
    }
}

/// The report a successful flip validation produces.
pub open spec fn passed_flip_report(report: BistellarFlipReportD, removed: Seq<Seq<usize>>, inserted: Seq<Seq<usize>>, blocks: bool) -> bool {
    &&& report.p_view() == removed.len()
    &&& report.q_view() == inserted.len()
    &&& report.removed_cells_view() == removed
    &&& report.inserted_cells_view() == inserted
    &&& report.blocks_view() == blocks
    &&& report.reason_view() is None
    &&& report.undecided_view() is None
}

/// A sorted list without neighboring repeats has no repeats at all.
proof fn lemma_sorted_distinct(s: Seq<usize>)
    requires
        vstd::relations::sorted_by(s, index_leq()),
        !has_adjacent_repeat(s),
    ensures
        s.no_duplicates(),
{
    assert forall|i: int, j: int| 0 <= i < s.len() && 0 <= j < s.len() && i != j implies s[i] != s[j] by {
        let (a, b) = if i < j { (i, j) } else { (j, i) };
        assert(s[a] != s[a + 1]);
        assert(index_leq()(s[a], s[a + 1]));
        if a + 1 < b {
            assert(index_leq()(s[a + 1], s[b]));
        }
    }
}

/// Removing the entries of `r` from a list without repeats leaves as many
/// entries as the list has outside `r`.
proof fn lemma_without_all_len(s: Seq<usize>, r: Seq<usize>)
    requires
        s.no_duplicates(),
    ensures
        without_all(s, r).len() == s.len() - s.to_set().intersect(r.to_set()).len(),
    decreases s.len(),
{
    broadcast use vstd::set::group_set_axioms, vstd::seq_lib::seq_to_set_is_finite;
    if s.len() == 0 {
        assert(s.to_set().intersect(r.to_set()) =~= Set::<usize>::empty());
    } else {
        let t = s.drop_last();
        let y = s.last();
        assert(t.no_duplicates());
        lemma_without_all_len(t, r);
        assert(s =~= t.push(y));
        assert(s.to_set() =~= t.to_set().insert(y));
        assert(!t.contains(y)) by {
            if t.contains(y) {
                let k = choose|k: int| 0 <= k < t.len() && t[k] == y;
                assert(s[k] == s[s.len() - 1]);
            }
        }
        let a = t.to_set().intersect(r.to_set());
        assert(!a.contains(y));
        if r.contains(y) {
            assert(r.to_set().contains(y));
            assert(s.to_set().intersect(r.to_set()) =~= a.insert(y));
        } else {
            assert(s.to_set().intersect(r.to_set()) =~= a);
        }
    }
}

/// The arity of a validated flip: with `d` the dimension, a flip that passes
/// validation removes `p` cells and inserts `q` cells with `1 <= p <= d + 1`
/// and `p + q == d + 2`, where `p` is the number of removed opposite
/// vertices and `q` the number of the other circuit vertices.
pub proof fn lemma_flip_arity(dimension: int, points: Seq<Seq<Real>>, cells: Seq<Seq<usize>>, vertices: Seq<usize>, removed: Seq<usize>, policy: PredicatePolicy)
    requires
        flip_validation(dimension, points, cells, vertices, removed, policy) is Ok,
    ensures
        ({
            let (removed_cells, inserted_cells, blocks) = flip_validation(dimension, points, cells, vertices, removed, policy).unwrap();
            &&& removed_cells.len() == removed.len()
            &&& inserted_cells.len() == vertices.len() - removed.len()
            &&& 1 <= removed_cells.len() <= dimension + 1
            &&& removed_cells.len() + inserted_cells.len() == dimension + 2
        }),
{
    broadcast use vstd::set::group_set_axioms, vstd::seq_lib::seq_to_set_is_finite;
    let sv = vertices.sort_by(index_leq());
    let sr = removed.sort_by(index_leq());
    lemma_index_leq_total();
    vertices.lemma_sort_by_ensures(index_leq());
    removed.lemma_sort_by_ensures(index_leq());
    vstd::seq_lib::to_multiset_len(vertices);
    vstd::seq_lib::to_multiset_len(sv);
    vstd::seq_lib::to_multiset_len(removed);
    vstd::seq_lib::to_multiset_len(sr);
    lemma_sorted_distinct(sv);
    lemma_sorted_distinct(sr);
    lemma_without_all_len(sv, sr);
    sr.unique_seq_to_set();
    assert(sv.to_set().intersect(sr.to_set()) =~= sr.to_set()) by {
        assert forall|x: usize| sr.to_set().contains(x) implies sv.to_set().contains(x) by {
            let i = choose|i: int| 0 <= i < sr.len() && sr[i] == x;
            assert(sv.contains(sr[i]));
        }
    }
}

/// Whether point `j` is not a vertex of the simplex and lies strictly
/// inside its circumsphere.
pub open spec fn strictly_inside(points: Seq<Seq<Real>>, simplex: Seq<usize>, orientation: Sign, policy: PredicatePolicy, j: int) -> bool {
    &&& !simplex.contains(j as usize)
    &&& insphere_result(points, simplex, points[j], policy) == Ok::<Sign, Error>(inside_sign(points[j].len() as int, orientation))
}

/// Whether a cell is decidedly oriented and some point lies strictly inside
/// its circumsphere.
pub open spec fn cell_blocked(points: Seq<Seq<Real>>, cell: Seq<usize>, policy: PredicatePolicy) -> bool {
    match orientation_result(points, cell, policy) {
        Ok(o) => exists|j: int| 0 <= j < points.len() && #[trigger] strictly_inside(points, cell, o, policy, j),
        Err(_) => false,
    }
}

/// Whether a cell has a decided nonzero orientation and a decided
/// empty-sphere test.
pub open spec fn cell_decided(points: Seq<Seq<Real>>, cell: Seq<usize>, policy: PredicatePolicy) -> bool {
    match orientation_result(points, cell, policy) {
        Ok(o) => o != Sign::Zero && empty_sphere(points, cell, o, policy) is Ok,
        Err(_) => false,
    }
}

proof fn lemma_empty_sphere_meaning(points: Seq<Seq<Real>>, simplex: Seq<usize>, orientation: Sign, policy: PredicatePolicy, i: int)
    requires
        0 <= i <= points.len(),
    ensures
        empty_sphere_upto(points, simplex, orientation, policy, i) == Ok::<bool, Error>(true)
            ==> forall|j: int| 0 <= j < i ==> !#[trigger] strictly_inside(points, simplex, orientation, policy, j),
        empty_sphere_upto(points, simplex, orientation, policy, i) == Ok::<bool, Error>(false)
            ==> exists|j: int| 0 <= j < i && #[trigger] strictly_inside(points, simplex, orientation, policy, j),
    decreases i,
{
    if i > 0 {
        lemma_empty_sphere_meaning(points, simplex, orientation, policy, i - 1);
        let prior = empty_sphere_upto(points, simplex, orientation, policy, i - 1);
        if prior == Ok::<bool, Error>(false) {
            let j = choose|j: int| 0 <= j < i - 1 && #[trigger] strictly_inside(points, simplex, orientation, policy, j);
            assert(strictly_inside(points, simplex, orientation, policy, j));
        }
        if empty_sphere_upto(points, simplex, orientation, policy, i) == Ok::<bool, Error>(false) && prior == Ok::<bool, Error>(true) {
            assert(strictly_inside(points, simplex, orientation, policy, i - 1));
        }
    }
}

proof fn lemma_inserted_check_meaning(points: Seq<Seq<Real>>, inserted: Seq<Seq<usize>>, policy: PredicatePolicy, j: int)
    requires
        0 <= j <= inserted.len(),
        inserted_check_upto(points, inserted, policy, j) is Ok,
    ensures
        forall|k: int| 0 <= k < j ==> #[trigger] cell_decided(points, inserted[k], policy),
        inserted_check_upto(points, inserted, policy, j) == Ok::<bool, Error>(exists|k: int| 0 <= k < j && #[trigger] cell_blocked(points, inserted[k], policy)),
    decreases j,
{
    if j > 0 {
        lemma_inserted_check_meaning(points, inserted, policy, j - 1);
        let cell = inserted[j - 1];
        let o = orientation_result(points, cell, policy).unwrap();
        lemma_empty_sphere_meaning(points, cell, o, policy, points.len() as int);
        let e = empty_sphere(points, cell, o, policy).unwrap();
        assert(cell_decided(points, cell, policy));
        assert(!e <==> cell_blocked(points, cell, policy));
        let before = exists|k: int| 0 <= k < j - 1 && #[trigger] cell_blocked(points, inserted[k], policy);
        let after = exists|k: int| 0 <= k < j && #[trigger] cell_blocked(points, inserted[k], policy);
        if before {
            let k = choose|k: int| 0 <= k < j - 1 && #[trigger] cell_blocked(points, inserted[k], policy);
            assert(cell_blocked(points, inserted[k], policy));
        }
        if after {
            let k = choose|k: int| 0 <= k < j && #[trigger] cell_blocked(points, inserted[k], policy);
            if k < j - 1 {
                assert(before);
            }
        }
        assert(after == (before || !e));
    }
}

/// The inserted side of a validated flip: every inserted cell has a decided
/// nonzero orientation and a decided empty-sphere test, and the flip blocks
/// Delaunay legality exactly when some point lies strictly inside the
/// circumsphere of some inserted cell.
pub proof fn lemma_flip_inserted_side(dimension: int, points: Seq<Seq<Real>>, cells: Seq<Seq<usize>>, vertices: Seq<usize>, removed: Seq<usize>, policy: PredicatePolicy)
    requires
        flip_validation(dimension, points, cells, vertices, removed, policy) is Ok,
    ensures
        ({
            let (removed_cells, inserted_cells, blocks) = flip_validation(dimension, points, cells, vertices, removed, policy).unwrap();
            &&& forall|k: int| 0 <= k < inserted_cells.len() ==> #[trigger] cell_decided(points, inserted_cells[k], policy)
            &&& blocks == exists|k: int| 0 <= k < inserted_cells.len() && #[trigger] cell_blocked(points, inserted_cells[k], policy)
        }),
{
    let sv = vertices.sort_by(index_leq());
    let sr = removed.sort_by(index_leq());
    let inserted_cells = cells_from_opposite(sv, without_all(sv, sr));
    lemma_inserted_check_meaning(points, inserted_cells, policy, inserted_cells.len() as int);
}

impl DelaunayComplex {
    /// Check a flip candidate against the complex without changing it.
    #[verifier::loop_isolation(false)]
    fn validate_flip_parts(&self, flip: &BistellarFlipD, policy: PredicatePolicy) -> (r: Result<BistellarFlipReportD, Error>)
        ensures
            match flip_validation(self.dimension_view() as int, self.points_view(), self.cells_view(), flip.vertices_view(), flip.removed_view(), policy) {
                Ok((removed, inserted, blocks)) => r matches Ok(report) && passed_flip_report(report, removed, inserted, blocks),
                Err(e) => r == Err::<BistellarFlipReportD, Error>(e),
            },
    {
        let ghost points = self.points_view();
        let ghost cells = self.cells_view();
        if self.points.len() == 0 || self.dimension == 0 {
            return Err(Error::InvalidInput { reason: "D-dimensional flip requires a nonempty complex" });
        }
        let vertices = sorted_copy(flip.vertices());
        let ghost sv = vertices@;
        if vertices.len() < 2 || vertices.len() - 2 != self.dimension {
            return Err(Error::InvalidInput { reason: "D-dimensional flip circuit has wrong arity" });
        }
        if adjacent_repeat(vertices.as_slice()) {
            return Err(Error::InvalidInput { reason: "D-dimensional flip circuit repeats a vertex" });
        }
        let mut i: usize = 0;
        while i < vertices.len()
            invariant
                0 <= i <= sv.len(),
                forall|j: int| 0 <= j < i ==> #[trigger] sv[j] < points.len(),
            decreases vertices.len() - i,
        {
            if vertices[i] >= self.points.len() {
                assert(sv[i as int] >= points.len());
                return Err(Error::InvalidInput { reason: "D-dimensional flip circuit vertex out of bounds" });
            }
            i = i + 1;
        }
        let removed = sorted_copy(flip.removed_opposite_vertices());
        let ghost sr = removed@;
        if removed.len() == 0 || removed.len() >= vertices.len() {
            return Err(Error::InvalidInput { reason: "D-dimensional flip has invalid p/q arity" });
        }
        if adjacent_repeat(removed.as_slice()) {
            return Err(Error::InvalidInput { reason: "D-dimensional flip repeats a removed opposite vertex" });
        }
        let mut i: usize = 0;
        while i < removed.len()
            invariant
                0 <= i <= sr.len(),
                forall|j: int| 0 <= j < i ==> sv.contains(#[trigger] sr[j]),
            decreases removed.len() - i,
        {
            if !contains_index(vertices.as_slice(), removed[i]) {
                assert(!sv.contains(sr[i as int]));
                return Err(Error::InvalidInput { reason: "D-dimensional flip opposite vertex is outside the circuit" });
            }
            i = i + 1;
        }
        let inserted_opposite = copy_without_all(vertices.as_slice(), removed.as_slice());
        let removed_cells = cells_from_opposite_vertices(vertices.as_slice(), removed.as_slice());
        let inserted_cells = cells_from_opposite_vertices(vertices.as_slice(), inserted_opposite.as_slice());
        let ghost rc = simplex_lists(removed_cells@);
        let ghost ic = simplex_lists(inserted_cells@);
        let mut c: usize = 0;
        while c < removed_cells.len()
            invariant
                0 <= c <= rc.len(),
                rc == simplex_lists(removed_cells@),
                forall|j: int| 0 <= j < c ==> complex_has_cell(cells, #[trigger] rc[j]),
            decreases removed_cells.len() - c,
        {
            if !has_cell(self.cells.as_slice(), removed_cells[c].indices()) {
                assert(!complex_has_cell(cells, rc[c as int]));
                return Err(Error::InvalidInput { reason: "D-dimensional flip removed cell is not present" });
            }
            c = c + 1;
        }
        let mut blocks = false;
        let mut c: usize = 0;
        while c < inserted_cells.len()
            invariant
                0 <= c <= ic.len(),
                ic == simplex_lists(inserted_cells@),
                inserted_check_upto(points, ic, policy, c as int) == Ok::<bool, Error>(blocks),
            decreases inserted_cells.len() - c,
        {
            let indices = inserted_cells[c].indices();
            proof {
                let o = without_all(sv, sr)[c as int];
                assert(ic == cells_from_opposite(sv, without_all(sv, sr)));
                assert(ic[c as int] == inserted_cells@[c as int].indices_view());
                assert(ic[c as int] == without(sv, o));
                assert(indices@ == without(sv, o));
                lemma_without_subset(sv, o);
                assert forall|k: int| 0 <= k < indices@.len() implies #[trigger] indices@[k] < self.points@.len() by {
                    assert(sv.contains(indices@[k]));
                }
            }
            let orientation = match simplex_orientation(self.points.as_slice(), indices, policy) {
                Ok(o) => o,
                Err(e) => {
                    proof {
                        lemma_inserted_check_settled(points, ic, policy, c + 1, ic.len() as int);
                    }
                    return Err(e);
                },
            };
            if orientation == Sign::Zero {
                proof {
                    lemma_inserted_check_settled(points, ic, policy, c + 1, ic.len() as int);
                }
                return Err(Error::InvalidInput { reason: "D-dimensional flip inserted cell is affinely dependent" });
            }
            let empty = match simplex_has_empty_sphere(self.points.as_slice(), indices, orientation, policy) {
                Ok(b) => b,
                Err(e) => {
                    proof {
                        lemma_inserted_check_settled(points, ic, policy, c + 1, ic.len() as int);
                    }
                    return Err(e);
                },
            };
            if !empty {
                blocks = true;
            }
            c = c + 1;
        }
        let p = removed_cells.len();
        let q = inserted_cells.len();
        Ok(BistellarFlipReportD {
            p,
            q,
            removed_cells,
            inserted_cells,
            blocks_delaunay: blocks,
            reason: None,
            predicate_undecided: None,
        })
    }

    /// Validate a bistellar flip without changing the complex: circuit
    /// arity, removed cells present, inserted cells affinely independent,
    /// and whether the inserted side fails the empty-sphere test. A rejected
    /// candidate yields a report that carries the reason.
    pub fn validate_bistellar_flip(&self, context: &TriangulationContext, flip: &BistellarFlipD) -> (r: TriangulationOutcome<BistellarFlipReportD>)
        ensures
            r.certainty == TriangulationCertainty::Certified,
            match flip_validation(self.dimension_view() as int, self.points_view(), self.cells_view(), flip.vertices_view(), flip.removed_view(), context.policy()) {
                Ok((removed, inserted, blocks)) => passed_flip_report(r.value, removed, inserted, blocks),
                Err(e) => failed_flip_report(r.value, *flip, e),
            },
    {
        let report = match self.validate_flip_parts(flip, context.predicate_policy()) {
            Ok(report) => report,
            Err(error) => {
                let predicate_undecided = match error {
                    Error::PredicateUndecided { predicate } => Some(predicate),
                    _ => None,
                };
                let vertex_count = flip.vertices().len();
                let removed_count = flip.removed_opposite_vertices().len();
                let report = BistellarFlipReportD {
                    p: removed_count,
                    q: vertex_count.saturating_sub(removed_count),
                    removed_cells: Vec::new(),
                    inserted_cells: Vec::new(),
                    blocks_delaunay: false,
                    reason: Some(error_reason(error)),
                    predicate_undecided,
                };
                proof {
                    assert(report.removed_cells_view() =~= Seq::<Seq<usize>>::empty());
                    assert(report.inserted_cells_view() =~= Seq::<Seq<usize>>::empty());
                }
                report
            },
        };
        TriangulationOutcome::new(report, TriangulationCertainty::Certified)
    }
}

/// Report from applying a validated flip to the exact complex oracle; the
/// original complex is left untouched.
#[derive(Debug)]
pub struct BistellarFlipApplyReportD {
    validation: BistellarFlipReportD,
    result: DelaunayComplex,
}

impl BistellarFlipApplyReportD {
    /// The validation report (spec view).
    pub closed spec fn validation_view(&self) -> BistellarFlipReportD {
        self.validation
    }

    /// The rewritten complex (spec view).
    pub closed spec fn result_view(&self) -> DelaunayComplex {
        self.result
    }

    /// Validation report that justified the rewrite.
    pub fn validation(&self) -> (r: &BistellarFlipReportD)
        ensures
            *r == self.validation_view(),
    {
        &self.validation
    }

    /// Exact complex after the flip rewrite.
    pub fn result(&self) -> (r: &DelaunayComplex)
        ensures
            *r == self.result_view(),
    {
        &self.result
    }
}

/// The cells whose vertex set is none of `removed`, in order.
pub open spec fn kept_cells(cells: Seq<Seq<usize>>, removed: Seq<Seq<usize>>) -> Seq<Seq<usize>>
    decreases cells.len(),
{
    if cells.len() == 0 {
        Seq::empty()
    } else if complex_has_cell(removed, cells.last()) {
        kept_cells(cells.drop_last(), removed)
    } else {
        kept_cells(cells.drop_last(), removed).push(cells.last())
    }
}

/// A sequence without repeats of neighboring entries (the first of each run
/// stays).
pub open spec fn dedup_adjacent(s: Seq<Seq<usize>>) -> Seq<Seq<usize>>
    decreases s.len(),
{
    if s.len() == 0 {
        Seq::empty()
    } else {
        let rest = dedup_adjacent(s.drop_last());
        if rest.len() > 0 && rest.last() == s.last() { rest } else { rest.push(s.last()) }
    }
}

/// Canonical cell list: each cell sorted, the list sorted
/// lexicographically, repeats removed.
pub open spec fn canonical_cells(cells: Seq<Seq<usize>>) -> Seq<Seq<usize>> {
    dedup_adjacent(cells.map_values(|c: Seq<usize>| c.sort_by(index_leq())).sort_by(lex_leq()))
}

/// Result of applying a flip to the complex: the removed and inserted cells
/// and the rewritten, revalidated cell list, or why the flip is refused.
pub open spec fn flip_result(
    dimension: int,
    points: Seq<Seq<Real>>,
    cells: Seq<Seq<usize>>,
    vertices: Seq<usize>,
    removed: Seq<usize>,
    policy: PredicatePolicy,
) -> Result<(Seq<Seq<usize>>, Seq<Seq<usize>>, Seq<Seq<usize>>), Error> {
    match flip_validation(dimension, points, cells, vertices, removed, policy) {
        Err(e) => Err(e),
        Ok((removed_cells, inserted_cells, blocks)) => if blocks {
            Err(Error::InvalidInput { reason: "D-dimensional flip is blocked by exact Delaunay legality" })
        } else {
            let rewritten = canonical_cells(kept_cells(cells, removed_cells) + inserted_cells);
            match complex_validation(dimension, points, rewritten, policy) {
                Err(e) => Err(e),
                Ok(()) => Ok((removed_cells, inserted_cells, rewritten)),
            }
        },
    }
}

/// Canonical form of a cell list.
fn canonical_cell_lists(cells: &Vec<Vec<usize>>) -> (r: Vec<Vec<usize>>)
    ensures
        list_views(r@) == canonical_cells(list_views(cells@)),
{
    let ghost views = list_views(cells@);
    let mut sorted: Vec<Vec<usize>> = Vec::new();
    let mut i: usize = 0;
    while i < cells.len()
        invariant
            0 <= i <= cells@.len(),
            views == list_views(cells@),
            list_views(sorted@) == views.subrange(0, i as int).map_values(|c: Seq<usize>| c.sort_by(index_leq())),
        decreases cells.len() - i,
    {
        let copy = sorted_copy(cells[i].as_slice());
        let ghost before = sorted@;
        sorted.push(copy);
        proof {
            assert(list_views(sorted@) =~= list_views(before).push(copy@));
            assert(views.subrange(0, i + 1).map_values(|c: Seq<usize>| c.sort_by(index_leq()))
                =~= views.subrange(0, i as int).map_values(|c: Seq<usize>| c.sort_by(index_leq())).push(views[i as int].sort_by(index_leq())));
        }
        i = i + 1;
    }
    proof {
        assert(views.subrange(0, views.len() as int) =~= views);
    }
    sort_index_lists(&mut sorted);
    let ghost ordered = list_views(sorted@);
    let mut out: Vec<Vec<usize>> = Vec::new();
    let mut i: usize = 0;
    while i < sorted.len()
        invariant
            0 <= i <= sorted@.len(),
            ordered == list_views(sorted@),
            list_views(out@) == dedup_adjacent(ordered.subrange(0, i as int)),
        decreases sorted.len() - i,
    {
        let ghost prefix = ordered.subrange(0, i + 1);
        proof {
            assert(prefix.drop_last() =~= ordered.subrange(0, i as int));
        }
        let repeat = out.len() > 0 && lists_equal(out[out.len() - 1].as_slice(), sorted[i].as_slice());
        if !repeat {
            let ghost before = out@;
            out.push(copy_usizes(sorted[i].as_slice()));
            proof {
                assert(list_views(out@) =~= list_views(before).push(ordered[i as int]));
            }
        }
        i = i + 1;
    }
    proof {
        assert(ordered.subrange(0, ordered.len() as int) =~= ordered);
    }
    out
}

impl DelaunayComplex {
    /// Apply a validated flip functionally: keep the cells not on the
    /// removed side, add the inserted side, canonicalize, and validate the
    /// rewritten complex. A Delaunay-blocked candidate is refused.
    pub fn flip_oracle(&self, context: &TriangulationContext, flip: &BistellarFlipD) -> (r: Result<TriangulationOutcome<BistellarFlipApplyReportD>, Error>)
        ensures
            match flip_result(self.dimension_view() as int, self.points_view(), self.cells_view(), flip.vertices_view(), flip.removed_view(), context.policy()) {
                Ok((removed, inserted, rewritten)) => r matches Ok(o) && o.certainty == TriangulationCertainty::Certified
                    && passed_flip_report(o.value.validation_view(), removed, inserted, false)
                    && o.value.result_view().dimension_view() == self.dimension_view()
                    && o.value.result_view().points_view() == self.points_view()
                    && o.value.result_view().cells_view() == rewritten,
                Err(e) => r == Err::<TriangulationOutcome<BistellarFlipApplyReportD>, Error>(e),
            },
    {
        let policy = context.predicate_policy();
        let ghost cells_view = self.cells_view();
        let validation = match self.validate_flip_parts(flip, policy) {
            Ok(report) => report,
            Err(e) => return Err(e),
        };
        if validation.blocks_delaunay() {
            return Err(Error::InvalidInput { reason: "D-dimensional flip is blocked by exact Delaunay legality" });
        }
        let ghost removed_view = validation.removed_cells_view();
        let ghost inserted_view = validation.inserted_cells_view();
        let mut lists: Vec<Vec<usize>> = Vec::new();
        let mut c: usize = 0;
        while c < self.cells.len()
            invariant
                0 <= c <= cells_view.len(),
                cells_view == self.cells_view(),
                removed_view == validation.removed_cells_view(),
                list_views(lists@) == kept_cells(cells_view.subrange(0, c as int), removed_view),
            decreases self.cells.len() - c,
        {
            let indices = self.cells[c].indices();
            proof {
                assert(cells_view.subrange(0, c + 1).drop_last() =~= cells_view.subrange(0, c as int));
                assert(indices@ == cells_view[c as int]);
            }
            if !has_cell(validation.removed_cells(), indices) {
                let ghost before = lists@;
                lists.push(copy_usizes(indices));
                proof {
                    assert(list_views(lists@) =~= list_views(before).push(indices@));
                }
            }
            c = c + 1;
        }
        proof {
            assert(cells_view.subrange(0, cells_view.len() as int) =~= cells_view);
        }
        let ghost kept = list_views(lists@);
        let inserted = validation.inserted_cells();
        let mut c: usize = 0;
        while c < inserted.len()
            invariant
                0 <= c <= inserted@.len(),
                simplex_lists(inserted@) == inserted_view,
                list_views(lists@) == kept + inserted_view.subrange(0, c as int),
            decreases inserted.len() - c,
        {
            let ghost before = lists@;
            lists.push(copy_usizes(inserted[c].indices()));
            proof {
                assert(list_views(lists@) =~= list_views(before).push(inserted_view[c as int]));
                assert(inserted_view.subrange(0, c + 1) =~= inserted_view.subrange(0, c as int).push(inserted_view[c as int]));
            }
            c = c + 1;
        }
        proof {
            assert(inserted_view.subrange(0, inserted_view.len() as int) =~= inserted_view);
        }
        let canonical = canonical_cell_lists(&lists);
        let ghost rewritten = list_views(canonical@);
        let mut cells: Vec<Simplex> = Vec::new();
        let mut c: usize = 0;
        while c < canonical.len()
            invariant
                0 <= c <= canonical@.len(),
                rewritten == list_views(canonical@),
                simplex_lists(cells@) == rewritten.subrange(0, c as int),
            decreases canonical.len() - c,
        {
            let ghost before = cells@;
            cells.push(Simplex::new(copy_usizes(canonical[c].as_slice())));
            proof {
                assert(simplex_lists(cells@) =~= simplex_lists(before).push(rewritten[c as int]));
                assert(rewritten.subrange(0, c + 1) =~= rewritten.subrange(0, c as int).push(rewritten[c as int]));
            }
            c = c + 1;
        }
        proof {
            assert(rewritten.subrange(0, rewritten.len() as int) =~= rewritten);
        }
        let points = copy_points(self.points.as_slice());
        match validate_complex_parts(self.dimension, points.as_slice(), cells.as_slice(), policy) {
            Ok(()) => {},
            Err(e) => return Err(e),
        }
        let result = DelaunayComplex::from_parts(self.dimension, points, cells);
        Ok(TriangulationOutcome::new(BistellarFlipApplyReportD { validation, result }, TriangulationCertainty::Certified))
    }
}

/// Report from inserting a point into the exact complex oracle: the cells in
/// conflict with the point, their boundary facets, and the rebuilt complex.
#[derive(Debug)]
pub struct DelaunayInsertionReportD {
    inserted_vertex: usize,
    old_cell_count: usize,
    new_cell_count: usize,
    conflict_cells: Vec<Simplex>,
    boundary_facets: Vec<Vec<usize>>,
    result: DelaunayComplex,
}

impl DelaunayInsertionReportD {
    /// Index of the inserted point (spec view).
    pub closed spec fn inserted_vertex_view(&self) -> usize {
        self.inserted_vertex
    }

    /// Cell count before insertion (spec view).
    pub closed spec fn old_cell_count_view(&self) -> usize {
        self.old_cell_count
    }

    /// Cell count after insertion (spec view).
    pub closed spec fn new_cell_count_view(&self) -> usize {
        self.new_cell_count
    }

    /// Conflict cells (spec view).
    pub closed spec fn conflict_cells_view(&self) -> Seq<Seq<usize>> {
        simplex_lists(self.conflict_cells@)
    }

    /// Boundary facets of the conflict region (spec view).
    pub closed spec fn boundary_facets_view(&self) -> Seq<Seq<usize>> {
        list_views(self.boundary_facets@)
    }

    /// Rebuilt complex (spec view).
    pub closed spec fn result_view(&self) -> DelaunayComplex {
        self.result
    }

    /// Index assigned to the inserted point in the rebuilt complex.
    pub fn inserted_vertex(&self) -> (r: usize)
        ensures
            r == self.inserted_vertex_view(),
    {
        self.inserted_vertex
    }

    /// Number of Delaunay cells before insertion.
    pub fn old_cell_count(&self) -> (r: usize)
        ensures
            r == self.old_cell_count_view(),
    {
        self.old_cell_count
    }

    /// Number of Delaunay cells after insertion.
    pub fn new_cell_count(&self) -> (r: usize)
        ensures
            r == self.new_cell_count_view(),
    {
        self.new_cell_count
    }

    /// Cells whose exact circumsphere contains the inserted point.
    pub fn conflict_cells(&self) -> (r: &[Simplex])
        ensures
            simplex_lists(r@) == self.conflict_cells_view(),
    {
        self.conflict_cells.as_slice()
    }

    /// Canonical conflict-boundary facets, as sorted point indices.
    pub fn boundary_facets(&self) -> (r: &[Vec<usize>])
        ensures
            list_views(r@) == self.boundary_facets_view(),
    {
        self.boundary_facets.as_slice()
    }

    /// Rebuilt exact Delaunay complex after insertion.
    pub fn result(&self) -> (r: &DelaunayComplex)
        ensures
            *r == self.result_view(),
    {
        &self.result
    }
}

/// Cells among those below `c` whose circumsphere strictly contains
/// `query`, in order, or the first undecided predicate.
pub open spec fn conflict_cells_upto(points: Seq<Seq<Real>>, cells: Seq<Seq<usize>>, query: Seq<Real>, dimension: int, policy: PredicatePolicy, c: int) -> Result<Seq<Seq<usize>>, Error>
    decreases c,
{
    if c <= 0 {
        Ok(Seq::empty())
    } else {
        match conflict_cells_upto(points, cells, query, dimension, policy, c - 1) {
            Err(e) => Err(e),
            Ok(acc) => match orientation_result(points, cells[c - 1], policy) {
                Err(e) => Err(e),
                Ok(o) => match insphere_result(points, cells[c - 1], query, policy) {
                    Err(e) => Err(e),
                    Ok(sphere) => if sphere == inside_sign(dimension, o) { Ok(acc.push(cells[c - 1])) } else { Ok(acc) },
                },
            },
        }
    }
}

proof fn lemma_conflict_cells_settled(points: Seq<Seq<Real>>, cells: Seq<Seq<usize>>, query: Seq<Real>, dimension: int, policy: PredicatePolicy, c: int, m: int)
    requires
        0 <= c <= m,
        conflict_cells_upto(points, cells, query, dimension, policy, c) is Err,
    ensures
        conflict_cells_upto(points, cells, query, dimension, policy, m) == conflict_cells_upto(points, cells, query, dimension, policy, c),
    decreases m - c,
{
    if m > c {
        lemma_conflict_cells_settled(points, cells, query, dimension, policy, c, m - 1);
    }
}

/// The sorted facets of each cell, cell by cell and slot by slot.
pub open spec fn cell_facets(cells: Seq<Seq<usize>>) -> Seq<Seq<usize>>
    decreases cells.len(),
{
    if cells.len() == 0 {
        Seq::empty()
    } else {
        let last = cells.last();
        cell_facets(cells.drop_last()) + Seq::new(last.len(), |s: int| without_position(last, s).sort_by(index_leq()))
    }
}

/// The entries of `s` that occur exactly once in `whole`, in order.
pub open spec fn single_entries(s: Seq<Seq<usize>>, whole: Seq<Seq<usize>>) -> Seq<Seq<usize>>
    decreases s.len(),
{
    if s.len() == 0 {
        Seq::empty()
    } else if count_of(whole, s.last()) == 1 {
        single_entries(s.drop_last(), whole).push(s.last())
    } else {
        single_entries(s.drop_last(), whole)
    }
}

/// The facets that exactly one conflict cell has, in lexicographic order.
pub open spec fn boundary_facets(conflicts: Seq<Seq<usize>>) -> Seq<Seq<usize>> {
    let sorted = cell_facets(conflicts).sort_by(lex_leq());
    single_entries(sorted, sorted)
}

/// Result of inserting `point`: the conflict cells, their boundary facets,
/// and the dimension and cells of the rebuilt complex, or why not.
pub open spec fn insertion_result(dimension: int, points: Seq<Seq<Real>>, cells: Seq<Seq<usize>>, point: Seq<Real>, policy: PredicatePolicy)
    -> Result<(Seq<Seq<usize>>, Seq<Seq<usize>>, int, Seq<Seq<usize>>), Error> {
    if point.len() != dimension {
        Err(Error::InvalidInput { reason: "D-dimensional points must share one ambient dimension" })
    } else if exists|i: int| 0 <= i < points.len() && same_point(#[trigger] points[i], point) {
        Err(Error::InvalidInput { reason: "duplicate D-dimensional points are not supported" })
    } else {
        match complex_validation(dimension, points, cells, policy) {
            Err(e) => Err(e),
            Ok(()) => match conflict_cells_upto(points, cells, point, dimension, policy, cells.len() as int) {
                Err(e) => Err(e),
                Ok(conflicts) => match delaunay_result(points.push(point), policy) {
                    Err(e) => Err(e),
                    Ok((d, rebuilt)) => Ok((conflicts, boundary_facets(conflicts), d, rebuilt)),
                },
            },
        }
    }
}

/// The complex an insertion rebuilds keeps the dimension and passes the
/// complex's own validation.
pub proof fn lemma_insertion_result_validates(dimension: int, points: Seq<Seq<Real>>, cells: Seq<Seq<usize>>, point: Seq<Real>, policy: PredicatePolicy)
    requires
        points.len() < usize::MAX,
    ensures
        match insertion_result(dimension, points, cells, point, policy) {
            Ok((_, _, d, rebuilt)) => d == dimension && complex_validation(d, points.push(point), rebuilt, policy) == Ok::<(), Error>(()),
            Err(_) => true,
        },
{
    if insertion_result(dimension, points, cells, point, policy) is Ok {
        let extended = points.push(point);
        lemma_delaunay_result_validates(extended, policy);
        if points.len() > 0 {
            assert(points_validation(points, dimension) is Ok);
            assert(extended[0] == points[0]);
        } else {
            assert(extended[0] == point);
        }
    }
}

/// Each cell of a valid cell list names only points of the list.
proof fn lemma_valid_cells_in_bounds(points: Seq<Seq<Real>>, cells: Seq<Seq<usize>>, dimension: int, policy: PredicatePolicy, m: int, c: int)
    requires
        0 <= c < m <= cells.len(),
        cells_validation_upto(points, cells, dimension, policy, m) is Ok,
    ensures
        forall|k: int| 0 <= k < cells[c].len() ==> #[trigger] cells[c][k] < points.len(),
    decreases m - c,
{
    if m - 1 > c {
        lemma_valid_cells_in_bounds(points, cells, dimension, policy, m - 1, c);
    } else {
        assert(cell_validation(points, cells[c], dimension, policy) is Ok);
        lemma_shape_in_bounds(cells[c], points.len() as int, dimension);
    }
}

/// The facets that exactly one of the conflict cells has, sorted.
pub fn conflict_boundary_facets(conflicts: &[Simplex]) -> (r: Vec<Vec<usize>>)
    ensures
        list_views(r@) == boundary_facets(simplex_lists(conflicts@)),
{
    let ghost lists = simplex_lists(conflicts@);
    let mut all: Vec<Vec<usize>> = Vec::new();
    let mut c: usize = 0;
    while c < conflicts.len()
        invariant
            0 <= c <= conflicts@.len(),
            lists == simplex_lists(conflicts@),
            list_views(all@) == cell_facets(lists.subrange(0, c as int)),
        decreases conflicts.len() - c,
    {
        let indices = conflicts[c].indices();
        let ghost base = list_views(all@);
        let mut slot: usize = 0;
        while slot < indices.len()
            invariant
                0 <= slot <= indices@.len(),
                list_views(all@) == base + Seq::new(slot as nat, |s: int| without_position(indices@, s).sort_by(index_leq())),
            decreases indices.len() - slot,
        {
            let facet = sorted_copy(copy_without_position(indices, slot).as_slice());
            let ghost before = all@;
            all.push(facet);
            proof {
                assert(list_views(all@) =~= list_views(before).push(facet@));
                assert(base + Seq::new((slot + 1) as nat, |s: int| without_position(indices@, s).sort_by(index_leq()))
                    =~= (base + Seq::new(slot as nat, |s: int| without_position(indices@, s).sort_by(index_leq()))).push(facet@));
            }
            slot = slot + 1;
        }
        proof {
            let next = lists.subrange(0, c + 1);
            assert(next.drop_last() =~= lists.subrange(0, c as int));
            assert(next.last() == indices@);
        }
        c = c + 1;
    }
    proof {
        assert(lists.subrange(0, lists.len() as int) =~= lists);
    }
    sort_index_lists(&mut all);
    let ghost sorted = list_views(all@);
    let mut out: Vec<Vec<usize>> = Vec::new();
    let mut i: usize = 0;
    while i < all.len()
        invariant
            0 <= i <= all@.len(),
            sorted == list_views(all@),
            list_views(out@) == single_entries(sorted.subrange(0, i as int), sorted),
        decreases all.len() - i,
    {
        proof {
            assert(sorted.subrange(0, i + 1).drop_last() =~= sorted.subrange(0, i as int));
        }
        if count_list(&all, all[i].as_slice()) == 1 {
            let ghost before = out@;
            out.push(copy_usizes(all[i].as_slice()));
            proof {
                assert(list_views(out@) =~= list_views(before).push(sorted[i as int]));
            }
        }
        i = i + 1;
    }
    proof {
        assert(sorted.subrange(0, sorted.len() as int) =~= sorted);
    }
    out
}

impl DelaunayComplex {
    /// Insert one finite point: reject a point of another dimension or equal
    /// to an existing one, validate the complex, find the cells whose
    /// circumsphere strictly contains the point and their boundary facets,
    /// and rebuild the exact complex over the extended point list.
    #[verifier::loop_isolation(false)]
    pub fn insert_point_oracle(&self, context: &TriangulationContext, point: PointD) -> (r: Result<TriangulationOutcome<DelaunayInsertionReportD>, Error>)
        ensures
            match insertion_result(self.dimension_view() as int, self.points_view(), self.cells_view(), point.coords(), context.policy()) {
                Ok((conflicts, boundary, d, rebuilt)) => r matches Ok(o) && o.certainty == TriangulationCertainty::Certified
                    && o.value.inserted_vertex_view() == self.points_view().len()
                    && o.value.old_cell_count_view() == self.cells_view().len()
                    && o.value.new_cell_count_view() == rebuilt.len()
                    && o.value.conflict_cells_view() == conflicts
                    && o.value.boundary_facets_view() == boundary
                    && o.value.result_view().dimension_view() == d
                    && o.value.result_view().points_view() == self.points_view().push(point.coords())
                    && o.value.result_view().cells_view() == rebuilt,
                Err(e) => r == Err::<TriangulationOutcome<DelaunayInsertionReportD>, Error>(e),
            },
    {
        let policy = context.predicate_policy();
        let ghost points_view = self.points_view();
        let ghost cells_view = self.cells_view();
        if point.dimension() != self.dimension {
            return Err(Error::InvalidInput { reason: "D-dimensional points must share one ambient dimension" });
        }
        let mut i: usize = 0;
        while i < self.points.len()
            invariant
                0 <= i <= points_view.len(),
                points_view == self.points_view(),
                forall|j: int| 0 <= j < i ==> !same_point(#[trigger] points_view[j], point.coords()),
            decreases self.points.len() - i,
        {
            if point_d_equal(&self.points[i], &point) {
                assert(same_point(points_view[i as int], point.coords()));
                return Err(Error::InvalidInput { reason: "duplicate D-dimensional points are not supported" });
            }
            i = i + 1;
        }
        match validate_complex_parts(self.dimension, self.points.as_slice(), self.cells.as_slice(), policy) {
            Ok(()) => {},
            Err(e) => return Err(e),
        }
        let inserted_vertex = self.points.len();
        let mut conflicts: Vec<Simplex> = Vec::new();
        assert(simplex_lists(conflicts@) =~= Seq::<Seq<usize>>::empty());
        let mut c: usize = 0;
        while c < self.cells.len()
            invariant
                0 <= c <= cells_view.len(),
                cells_view == self.cells_view(),
                points_view == self.points_view(),
                conflict_cells_upto(points_view, cells_view, point.coords(), self.dimension as int, policy, c as int)
                    == Ok::<Seq<Seq<usize>>, Error>(simplex_lists(conflicts@)),
            decreases self.cells.len() - c,
        {
            let indices = self.cells[c].indices();
            proof {
                assert(indices@ == cells_view[c as int]);
                lemma_valid_cells_in_bounds(points_view, cells_view, self.dimension as int, policy, cells_view.len() as int, c as int);
            }
            let orientation = match simplex_orientation(self.points.as_slice(), indices, policy) {
                Ok(o) => o,
                Err(e) => {
                    proof {
                        lemma_conflict_cells_settled(points_view, cells_view, point.coords(), self.dimension as int, policy, c + 1, cells_view.len() as int);
                    }
                    return Err(e);
                },
            };
            let sphere = match insphere_sign_for_query(self.points.as_slice(), indices, &point, policy) {
                Ok(s) => s,
                Err(e) => {
                    proof {
                        lemma_conflict_cells_settled(points_view, cells_view, point.coords(), self.dimension as int, policy, c + 1, cells_view.len() as int);
                    }
                    return Err(e);
                },
            };
            if sphere == insphere_inside_sign(self.dimension, orientation) {
                let ghost before = conflicts@;
                conflicts.push(Simplex::new(copy_usizes(indices)));
                proof {
                    assert(simplex_lists(conflicts@) =~= simplex_lists(before).push(cells_view[c as int]));
                }
            }
            c = c + 1;
        }
        let boundary_facets = conflict_boundary_facets(conflicts.as_slice());
        let mut points = copy_points(self.points.as_slice());
        let ghost before = points@;
        points.push(point);
        proof {
            assert(point_coords(points@) =~= point_coords(before).push(point.coords()));
        }
        let result = match delaunay_complex_parts(points.as_slice(), policy) {
            Ok(complex) => complex,
            Err(e) => return Err(e),
        };
        let new_cell_count = result.cells.len();
        let old_cell_count = self.cells.len();
        Ok(TriangulationOutcome::new(
            DelaunayInsertionReportD { inserted_vertex, old_cell_count, new_cell_count, conflict_cells: conflicts, boundary_facets, result },
            TriangulationCertainty::Certified,
        ))
    }
}

} // verus!
