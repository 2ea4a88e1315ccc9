//! Dynamic D-dimensional triangulation data structure: stable vertex and cell
//! handles, explicit finite/infinite hull semantics, and report-bearing
//! combinatorial and manifold validation.
use vstd::prelude::*;
use crate::error::Error;
use crate::nd::reports::{
    CombinatorialViolationView, GeometricViolationView, TdsCombinatorialValidationReportD, TdsCombinatorialViolationD,
    TdsGeometricValidationReportD, TdsGeometricViolationD,
};
use crate::context::{PredicatePolicy, TriangulationCertainty, TriangulationContext, TriangulationOutcome};
use crate::nd::complex::{inside_sign, insphere_inside_sign};
use crate::nd::handles::copy_reals;
use crate::nd::lists::{contains_index, copy_without_position, lemma_lex_antisymmetric, lemma_lex_reflexive, lemma_lex_total, lemma_lex_transitive, lex_le, lex_less_eq, list_views, lists_equal, without_position};
use crate::nd::reports::{ManifoldViolationView, TdsBoundaryPolicyD, TdsManifoldValidationReportD, TdsManifoldViolationD};
use crate::nd::handles::copy_usizes;
use crate::nd::predicates::{coordinate_pairs, insphere_d_outcome, insphere_d_sign, orient_d_outcome, orient_d_sign, rows_view};
use crate::types::{Real, Sign};
use crate::nd::handles::{
    canonical_indices, handle_indices, index_leq, lemma_index_leq_total, sort_handles, Cell, CellHandle, Facet, FacetKey, PointD,
    VertexD, VertexHandle,
};

verus! {

/// Reason reported when a cell has the wrong number of vertices.
pub open spec fn cell_shape_offset_error(vs: Seq<VertexHandle>, vertex_count: int, k: int) -> Option<&'static str>
    decreases k,
{
    if k <= 0 {
        None
    } else {
        match cell_shape_offset_error(vs, vertex_count, k - 1) {
            Some(e) => Some(e),
            None => if vs[k - 1]@ >= vertex_count {
                Some("TDS cell vertex handle out of bounds")
            } else if vs.subrange(0, k - 1).contains(vs[k - 1]) {
                Some("TDS cell repeats a vertex handle")
            } else {
                None
            },
        }
    }
}

/// The first shape error of a cell, in the order the checks run.
pub open spec fn cell_shape_error(cell: Cell, vertex_count: int, dimension: int) -> Option<&'static str> {
    if cell.vertices_view().len() != dimension + 1 {
        Some("TDS cell has wrong arity")
    } else if cell.neighbors_view().len() != dimension + 1 {
        Some("TDS cell has wrong neighbor arity")
    } else {
        cell_shape_offset_error(cell.vertices_view(), vertex_count, cell.vertices_view().len() as int)
    }
}

/// No offset error means every handle is in bounds and none repeats.
proof fn lemma_no_offset_error(vs: Seq<VertexHandle>, vertex_count: int, k: int)
    requires
        0 <= k <= vs.len(),
        cell_shape_offset_error(vs, vertex_count, k) is None,
    ensures
        forall|i: int| 0 <= i < k ==> #[trigger] vs[i]@ < vertex_count,
        forall|i: int, j: int| 0 <= i < j < k ==> #[trigger] vs[i] != #[trigger] vs[j],
    decreases k,
{
    if k > 0 {
        lemma_no_offset_error(vs, vertex_count, k - 1);
        assert forall|i: int| 0 <= i < k - 1 implies #[trigger] vs[i] != vs[k - 1] by {
            if vs[i] == vs[k - 1] {
                assert(vs.subrange(0, k - 1)[i] == vs[k - 1]);
            }
        }
    }
}

/// Whether a vertex table entry is the infinite vertex.
pub open spec fn vertex_is_infinite(vertices: Seq<VertexD>, handle: VertexHandle) -> bool {
    vertices[handle@ as int].infinite_view()
}

/// Whether some vertex of the cell is infinite.
pub open spec fn cell_touches_infinite(vertices: Seq<VertexD>, cell: Cell) -> bool {
    exists|i: int| 0 <= i < cell.vertices_view().len() && #[trigger] vertex_is_infinite(vertices, cell.vertices_view()[i])
}

/// Sorted vertex indices of the facet of `vs` opposite `slot`.
pub open spec fn facet_indices(vs: Seq<VertexHandle>, slot: int) -> Seq<usize> {
    canonical_indices(if 0 <= slot < vs.len() { vs.remove(slot) } else { vs })
}


/// First slot below `k` whose facet in `vs` has the sorted indices `key`.
pub open spec fn first_matching_slot(vs: Seq<VertexHandle>, key: Seq<usize>, k: int) -> Option<int>
    decreases k,
{
    if k <= 0 {
        None
    } else {
        match first_matching_slot(vs, key, k - 1) {
            Some(j) => Some(j),
            None => if facet_indices(vs, k - 1) == key { Some(k - 1) } else { None },
        }
    }
}

/// Why the link from slot `slot` of cell `c` to `neighbor` is not a
/// reciprocal facet link, if it is not.
pub open spec fn reciprocal_error(cells: Seq<Cell>, c: int, slot: int, neighbor: CellHandle) -> Option<&'static str> {
    if !(0 <= c < cells.len()) {
        Some("TDS reciprocal check references missing cell")
    } else if neighbor@ >= cells.len() {
        Some("TDS neighbor handle out of bounds")
    } else {
        let other = cells[neighbor@ as int];
        match first_matching_slot(
            other.vertices_view(),
            facet_indices(cells[c].vertices_view(), slot),
            other.vertices_view().len() as int,
        ) {
            None => Some("TDS neighbor does not share the referenced facet"),
            Some(k) => match other.neighbors_view()[k] {
                Some(back) => if back@ == c { None } else { Some("TDS neighbor link is not reciprocal") },
                None => Some("TDS neighbor link is not reciprocal"),
            },
        }
    }
}

/// Link violations of the neighbor slots below `k` of cell `c`.
pub open spec fn cell_link_violations(cells: Seq<Cell>, c: int, k: int) -> Seq<CombinatorialViolationView>
    decreases k,
{
    if k <= 0 {
        Seq::empty()
    } else {
        let prior = cell_link_violations(cells, c, k - 1);
        match cells[c].neighbors_view()[k - 1] {
            Some(n) => match reciprocal_error(cells, c, k - 1, n) {
                Some(reason) => prior.push((Some(c as usize), Some((k - 1) as usize), reason@)),
                None => prior,
            },
            None => prior,
        }
    }
}

/// Link violations of the cells below `m`, in cell and slot order.
pub open spec fn link_violations(cells: Seq<Cell>, m: int) -> Seq<CombinatorialViolationView>
    decreases m,
{
    if m <= 0 {
        Seq::empty()
    } else {
        link_violations(cells, m - 1) + cell_link_violations(cells, m - 1, cells[m - 1].neighbors_view().len() as int)
    }
}

/// The storage facts every TDS value keeps: a positive dimension, at most
/// one infinite vertex, each vertex infinite exactly when it carries no
/// point and each point of the ambient dimension, and each cell with
/// `dimension + 1` vertices and neighbor slots, vertex handles in range and
/// pairwise distinct, and an infinite flag that says whether it touches the
/// infinite vertex.
pub open spec fn tds_storage_valid(dimension: int, vertices: Seq<VertexD>, cells: Seq<Cell>) -> bool {
    &&& dimension > 0
    &&& forall|i: int, j: int| 0 <= i < j < vertices.len() ==>
        !(#[trigger] vertices[i].infinite_view() && #[trigger] vertices[j].infinite_view())
    &&& forall|i: int| 0 <= i < vertices.len() ==>
        (#[trigger] vertices[i].infinite_view() <==> vertices[i].point_view() is None)
    &&& forall|i: int| 0 <= i < vertices.len() ==>
        (#[trigger] vertices[i].point_view() matches Some(p) ==> p.len() == dimension)
    &&& forall|c: int| 0 <= c < cells.len() ==> {
        &&& (#[trigger] cells[c]).vertices_view().len() == dimension + 1
        &&& cells[c].neighbors_view().len() == dimension + 1
        &&& cells[c].infinite_view() == cell_touches_infinite(vertices, cells[c])
    }
    &&& forall|c: int, i: int| 0 <= c < cells.len() && 0 <= i < cells[c].vertices_view().len() ==>
        (#[trigger] cells[c].vertices_view()[i])@ < vertices.len()
    &&& forall|c: int, i: int, j: int| 0 <= c < cells.len() && 0 <= i < j < cells[c].vertices_view().len() ==>
        #[trigger] cells[c].vertices_view()[i] != #[trigger] cells[c].vertices_view()[j]
}

/// Every neighbor link names an existing cell that shares the linked facet
/// and links back through it.
pub open spec fn links_reciprocal(cells: Seq<Cell>) -> bool {
    forall|c: int, s: int| 0 <= c < cells.len() && 0 <= s < cells[c].neighbors_view().len() ==>
        (#[trigger] cells[c].neighbors_view()[s] matches Some(n) ==> reciprocal_error(cells, c, s, n) is None)
}

/// No link violation among the slots below `k` of cell `c` exactly when
/// each of those links is reciprocal.
proof fn lemma_cell_links(cells: Seq<Cell>, c: int, k: int)
    requires
        0 <= c < cells.len(),
        0 <= k <= cells[c].neighbors_view().len(),
    ensures
        cell_link_violations(cells, c, k).len() == 0 <==> forall|s: int| 0 <= s < k ==>
            (#[trigger] cells[c].neighbors_view()[s] matches Some(n) ==> reciprocal_error(cells, c, s, n) is None),
    decreases k,
{
    if k > 0 {
        lemma_cell_links(cells, c, k - 1);
        lemma_cell_links_grow(cells, c, k - 1);
    }
}

/// The link violations of a cell only grow with the slot bound.
proof fn lemma_cell_links_grow(cells: Seq<Cell>, c: int, k: int)
    requires
        0 <= k,
    ensures
        cell_link_violations(cells, c, k).len() <= cell_link_violations(cells, c, k + 1).len(),
{
}

/// No link violation among the cells below `m` exactly when each of their
/// links is reciprocal.
proof fn lemma_links(cells: Seq<Cell>, m: int)
    requires
        0 <= m <= cells.len(),
    ensures
        link_violations(cells, m).len() == 0 <==> forall|c: int, s: int| 0 <= c < m && 0 <= s < cells[c].neighbors_view().len() ==>
            (#[trigger] cells[c].neighbors_view()[s] matches Some(n) ==> reciprocal_error(cells, c, s, n) is None),
    decreases m,
{
    if m > 0 {
        lemma_links(cells, m - 1);
        lemma_cell_links(cells, m - 1, cells[m - 1].neighbors_view().len() as int);
        let all = forall|c: int, s: int| 0 <= c < m && 0 <= s < cells[c].neighbors_view().len() ==>
            (#[trigger] cells[c].neighbors_view()[s] matches Some(n) ==> reciprocal_error(cells, c, s, n) is None);
        if link_violations(cells, m).len() == 0 {
            assert forall|c: int, s: int| 0 <= c < m && 0 <= s < cells[c].neighbors_view().len() implies
                (#[trigger] cells[c].neighbors_view()[s] matches Some(n) ==> reciprocal_error(cells, c, s, n) is None) by {}
        }
        if all {
            assert forall|s: int| 0 <= s < cells[m - 1].neighbors_view().len() implies
                (#[trigger] cells[m - 1].neighbors_view()[s] matches Some(n) ==> reciprocal_error(cells, m - 1, s, n) is None) by {}
            assert forall|c: int, s: int| 0 <= c < m - 1 && 0 <= s < cells[c].neighbors_view().len() implies
                (#[trigger] cells[c].neighbors_view()[s] matches Some(n) ==> reciprocal_error(cells, c, s, n) is None) by {}
        }
    }
}

/// Canonical facet keys of the slots below `s` of `cell`.
pub open spec fn cell_facet_keys(cell: Cell, s: int) -> Set<Seq<usize>> {
    Set::new(|key: Seq<usize>| exists|t: int| 0 <= t < s && t < cell.vertices_view().len() && #[trigger] facet_indices(cell.vertices_view(), t) == key)
}

/// Canonical facet keys of all cells below `m`.
pub open spec fn facet_key_set(cells: Seq<Cell>, m: int) -> Set<Seq<usize>> {
    Set::new(|key: Seq<usize>| exists|c: int, t: int| 0 <= c < m && 0 <= t < cells[c].vertices_view().len() && #[trigger] facet_indices(cells[c].vertices_view(), t) == key)
}

/// Canonical facet keys of the slots below `s` of `cell` that hold a
/// neighbor link.
pub open spec fn cell_linked_keys(cell: Cell, s: int) -> Set<Seq<usize>> {
    Set::new(|key: Seq<usize>| exists|t: int| 0 <= t < s && t < cell.vertices_view().len() && t < cell.neighbors_view().len()
        && cell.neighbors_view()[t] is Some && #[trigger] facet_indices(cell.vertices_view(), t) == key)
}

/// Canonical facet keys of all cells below `m` that some slot holding them
/// links to a neighbor.
pub open spec fn linked_facet_key_set(cells: Seq<Cell>, m: int) -> Set<Seq<usize>> {
    Set::new(|key: Seq<usize>| exists|c: int, t: int| 0 <= c < m && 0 <= t < cells[c].vertices_view().len() && t < cells[c].neighbors_view().len()
        && cells[c].neighbors_view()[t] is Some && #[trigger] facet_indices(cells[c].vertices_view(), t) == key)
}

/// The facet keys below `m + 1` are those below `m` and those of cell `m`.
proof fn lemma_facet_key_set_step(cells: Seq<Cell>, m: int)
    requires
        0 <= m < cells.len(),
    ensures
        facet_key_set(cells, m).union(cell_facet_keys(cells[m], cells[m].vertices_view().len() as int)) == facet_key_set(cells, m + 1),
{
    let cell = cells[m];
    let all = cell_facet_keys(cell, cell.vertices_view().len() as int);
    assert forall|key: Seq<usize>| facet_key_set(cells, m + 1).contains(key) implies facet_key_set(cells, m).union(all).contains(key) by {
        let (c, t) = choose|c: int, t: int| 0 <= c < m + 1 && 0 <= t < cells[c].vertices_view().len() && #[trigger] facet_indices(cells[c].vertices_view(), t) == key;
        if c < m {
            assert(facet_key_set(cells, m).contains(key));
        } else {
            assert(all.contains(key));
        }
    }
    assert forall|key: Seq<usize>| facet_key_set(cells, m).union(all).contains(key) implies facet_key_set(cells, m + 1).contains(key) by {
        if facet_key_set(cells, m).contains(key) {
            let (c, t) = choose|c: int, t: int| 0 <= c < m && 0 <= t < cells[c].vertices_view().len() && #[trigger] facet_indices(cells[c].vertices_view(), t) == key;
            assert(facet_indices(cells[c].vertices_view(), t) == key);
        } else {
            let t = choose|t: int| 0 <= t < cell.vertices_view().len() && t < cell.vertices_view().len() && #[trigger] facet_indices(cell.vertices_view(), t) == key;
            assert(facet_indices(cells[m].vertices_view(), t) == key);
        }
    }
    assert(facet_key_set(cells, m).union(all) =~= facet_key_set(cells, m + 1));
}

/// The linked facet keys below `m + 1` are those below `m` and those of cell `m`.
proof fn lemma_linked_key_set_step(cells: Seq<Cell>, m: int)
    requires
        0 <= m < cells.len(),
    ensures
        linked_facet_key_set(cells, m).union(cell_linked_keys(cells[m], cells[m].vertices_view().len() as int)) == linked_facet_key_set(cells, m + 1),
{
    let cell = cells[m];
    let all = cell_linked_keys(cell, cell.vertices_view().len() as int);
    assert forall|key: Seq<usize>| linked_facet_key_set(cells, m + 1).contains(key) implies linked_facet_key_set(cells, m).union(all).contains(key) by {
        let (c, t) = choose|c: int, t: int| 0 <= c < m + 1 && 0 <= t < cells[c].vertices_view().len() && t < cells[c].neighbors_view().len()
            && cells[c].neighbors_view()[t] is Some && #[trigger] facet_indices(cells[c].vertices_view(), t) == key;
        if c < m {
            assert(linked_facet_key_set(cells, m).contains(key));
        } else {
            assert(all.contains(key));
        }
    }
    assert forall|key: Seq<usize>| linked_facet_key_set(cells, m).union(all).contains(key) implies linked_facet_key_set(cells, m + 1).contains(key) by {
        if linked_facet_key_set(cells, m).contains(key) {
            let (c, t) = choose|c: int, t: int| 0 <= c < m && 0 <= t < cells[c].vertices_view().len() && t < cells[c].neighbors_view().len()
                && cells[c].neighbors_view()[t] is Some && #[trigger] facet_indices(cells[c].vertices_view(), t) == key;
            assert(facet_indices(cells[c].vertices_view(), t) == key);
        } else {
            let t = choose|t: int| 0 <= t < cell.vertices_view().len() && t < cell.vertices_view().len() && t < cell.neighbors_view().len()
                && cell.neighbors_view()[t] is Some && #[trigger] facet_indices(cell.vertices_view(), t) == key;
            assert(facet_indices(cells[m].vertices_view(), t) == key);
        }
    }
    assert(linked_facet_key_set(cells, m).union(all) =~= linked_facet_key_set(cells, m + 1));
}

/// Adds `key` to a duplicate-free list of keys unless the list holds it.
fn insert_key(keys: &mut Vec<Vec<usize>>, key: Vec<usize>)
    requires
        old(keys)@.map_values(|k: Vec<usize>| k@).no_duplicates(),
    ensures
        final(keys)@.map_values(|k: Vec<usize>| k@).no_duplicates(),
        final(keys)@.map_values(|k: Vec<usize>| k@).to_set() == old(keys)@.map_values(|k: Vec<usize>| k@).to_set().insert(key@),
{
    let ghost kv = keys@.map_values(|k: Vec<usize>| k@);
    let ghost kk = key@;
    let mut present = false;
    let mut k: usize = 0;
    while k < keys.len()
        invariant
            0 <= k <= keys@.len(),
            kv == keys@.map_values(|k: Vec<usize>| k@),
            present == exists|j: int| 0 <= j < k && kv[j] == kk,
            kk == key@,
        decreases keys@.len() - k,
    {
        if indices_equal(keys[k].as_slice(), key.as_slice()) {
            present = true;
        }
        proof {
            assert(kv[k as int] == keys@[k as int]@);
        }
        k = k + 1;
    }
    if !present {
        keys.push(key);
        proof {
            let nv = keys@.map_values(|k: Vec<usize>| k@);
            assert(nv =~= kv.push(kk));
            assert(!kv.contains(kk));
            kv.lemma_push_to_set_commute(kk);
            assert(nv.to_set() =~= kv.to_set().insert(kk));
            assert(nv.no_duplicates()) by {
                assert forall|a: int, b: int| 0 <= a < b < nv.len() implies nv[a] != nv[b] by {
                    if b == nv.len() - 1 {
                        assert(kv[a] == nv[a]);
                    }
                }
            }
        }
    } else {
        proof {
            assert(kv.to_set().contains(kk));
            assert(kv.to_set() =~= kv.to_set().insert(kk));
        }
    }
}

/// Dynamic D-dimensional triangulation data structure.
#[derive(Debug)]
pub struct TriangulationDataStructureD {
    dimension: usize,
    vertices: Vec<VertexD>,
    cells: Vec<Cell>,
}

impl TriangulationDataStructureD {
    /// Ambient dimension.
    pub closed spec fn dimension_view(&self) -> usize {
        self.dimension
    }

    /// Vertex table.
    pub closed spec fn vertices_view(&self) -> Seq<VertexD> {
        self.vertices@
    }

    /// Cell table.
    pub closed spec fn cells_view(&self) -> Seq<Cell> {
        self.cells@
    }

    /// Storage invariant kept by every constructor and mutator: positive
    /// dimension, at most one infinite vertex, point payloads that agree with
    /// the infinite flag and the dimension, and cells of the right shape whose
    /// infinite flag matches their vertices.
    #[verifier::type_invariant]
    closed spec fn wf(&self) -> bool {
        &&& self.dimension > 0
        &&& forall|i: int, j: int| 0 <= i < j < self.vertices@.len() ==>
            !(#[trigger] self.vertices@[i].infinite_view() && #[trigger] self.vertices@[j].infinite_view())
        &&& forall|i: int| 0 <= i < self.vertices@.len() ==>
            (#[trigger] self.vertices@[i].infinite_view() <==> self.vertices@[i].point_view() is None)
        &&& forall|i: int| 0 <= i < self.vertices@.len() ==>
            (#[trigger] self.vertices@[i].point_view() matches Some(p) ==> p.len() == self.dimension)
        &&& forall|c: int| 0 <= c < self.cells@.len() ==> {
            &&& cell_shape_error(#[trigger] self.cells@[c], self.vertices@.len() as int, self.dimension as int) is None
            &&& self.cells@[c].infinite_view() == cell_touches_infinite(self.vertices@, self.cells@[c])
        }
    }

    /// Move the fields out, leaving a valid empty placeholder behind.
    fn take_parts(&mut self) -> (r: (usize, Vec<VertexD>, Vec<Cell>))
        ensures
            r.0 == old(self).dimension_view(),
            r.1@ == old(self).vertices_view(),
            r.2@ == old(self).cells_view(),
            r.0 > 0,
            forall|i: int, j: int| 0 <= i < j < r.1@.len() ==>
                !(#[trigger] r.1@[i].infinite_view() && #[trigger] r.1@[j].infinite_view()),
            forall|i: int| 0 <= i < r.1@.len() ==>
                (#[trigger] r.1@[i].infinite_view() <==> r.1@[i].point_view() is None),
            forall|i: int| 0 <= i < r.1@.len() ==>
                (#[trigger] r.1@[i].point_view() matches Some(p) ==> p.len() == r.0),
            forall|c: int| 0 <= c < r.2@.len() ==> {
                &&& cell_shape_error(#[trigger] r.2@[c], r.1@.len() as int, r.0 as int) is None
                &&& r.2@[c].infinite_view() == cell_touches_infinite(r.1@, r.2@[c])
            },
    {
        let mut this = TriangulationDataStructureD { dimension: 1, vertices: Vec::new(), cells: Vec::new() };
        std::mem::swap(self, &mut this);
        proof { use_type_invariant(&this); }
        let TriangulationDataStructureD { dimension, vertices, cells } = this;
        (dimension, vertices, cells)
    }

    /// Constructs an empty dynamic TDS for dimension `dimension`.
    pub fn new(dimension: usize) -> (r: Result<TriangulationDataStructureD, Error>)
        ensures
            dimension == 0 ==> r == Err::<TriangulationDataStructureD, Error>(Error::InvalidInput { reason: "D-dimensional TDS dimension must be positive" }),
            dimension > 0 ==> (r matches Ok(t) && t.dimension_view() == dimension && t.vertices_view().len() == 0 && t.cells_view().len() == 0),
    {
        if dimension == 0 {
            return Err(Error::InvalidInput { reason: "D-dimensional TDS dimension must be positive" });
        }
        Ok(TriangulationDataStructureD { dimension, vertices: Vec::new(), cells: Vec::new() })
    }

    /// Returns the ambient dimension.
    pub fn dimension(&self) -> (r: usize)
        ensures
            r == self.dimension_view(),
    {
        self.dimension
    }

    /// Inserts a finite vertex and returns its stable handle.
    pub fn add_finite_vertex(&mut self, point: PointD) -> (r: Result<VertexHandle, Error>)
        ensures
            point.coords().len() != old(self).dimension_view() ==> (r == Err::<VertexHandle, Error>(Error::InvalidInput { reason: "TDS vertex dimension does not match ambient dimension" })
                && *final(self) == *old(self)),
            point.coords().len() == old(self).dimension_view() ==> (r matches Ok(h) && h@ == old(self).vertices_view().len()
                && final(self).vertices_view().len() == old(self).vertices_view().len() + 1
                && final(self).vertices_view().subrange(0, h@ as int) == old(self).vertices_view()
                && final(self).vertices_view()[h@ as int].point_view() == Some(point.coords())
                && !final(self).vertices_view()[h@ as int].infinite_view()
                && final(self).cells_view() == old(self).cells_view()
                && final(self).dimension_view() == old(self).dimension_view()),
    {
        proof { use_type_invariant(&*self); }
        if point.dimension() != self.dimension {
            return Err(Error::InvalidInput { reason: "TDS vertex dimension does not match ambient dimension" });
        }
        let handle = VertexHandle::new(self.vertices.len());
        let (dimension, mut vertices, cells) = self.take_parts();
        let ghost old_vertices = vertices@;
        let vertex = VertexD::finite(point);
        vertices.push(vertex);
        proof {
            assert(vertices@.subrange(0, handle@ as int) =~= old_vertices);
            assert forall|c: int| 0 <= c < cells@.len() implies
                cell_touches_infinite(vertices@, #[trigger] cells@[c]) == cell_touches_infinite(old_vertices, cells@[c]) by {
                lemma_cell_handles_in_bounds(cells@[c], old_vertices.len() as int, dimension as int);
                lemma_touches_infinite_prefix(old_vertices, vertices@, cells@[c]);
            }
            assert forall|c: int| 0 <= c < cells@.len() implies
                cell_shape_error(#[trigger] cells@[c], vertices@.len() as int, dimension as int) is None by {
                lemma_cell_shape_monotone(cells@[c], old_vertices.len() as int, vertices@.len() as int, dimension as int);
            }
        }
        *self = TriangulationDataStructureD { dimension, vertices, cells };
        Ok(handle)
    }

    /// Builds a report for the combinatorial TDS validation layer.
    ///
    /// Arity, handle bounds, distinct vertices, point payloads and
    /// finite/infinite status are storage invariants of the TDS, so the
    /// reported violations are exactly the neighbor links that do not name a
    /// cell sharing the facet and linking back. Facets are counted once per
    /// canonical key: a facet is interior when some slot holding it has a
    /// neighbor link, and boundary otherwise.
    pub fn validate_combinatorial_report(&self) -> (r: TdsCombinatorialValidationReportD)
        ensures
            r.dimension_view() == self.dimension_view(),
            r.vertex_count_view() == self.vertices_view().len(),
            r.cell_count_view() == self.cells_view().len(),
            r.facet_count_view() == facet_key_set(self.cells_view(), self.cells_view().len() as int).len(),
            r.interior_facet_count_view() == linked_facet_key_set(self.cells_view(), self.cells_view().len() as int).len(),
            r.boundary_facet_count_view() + r.interior_facet_count_view() == r.facet_count_view(),
            r.violations_view() == link_violations(self.cells_view(), self.cells_view().len() as int),
            tds_storage_valid(self.dimension_view() as int, self.vertices_view(), self.cells_view()),
            r.violations_view().len() == 0 <==> links_reciprocal(self.cells_view()),
    {
        proof {
            use_type_invariant(self);
            assert forall|c: int| 0 <= c < self.cells@.len() implies
                (#[trigger] self.cells@[c]).vertices_view().len() == self.dimension + 1 && self.cells@[c].neighbors_view().len() == self.dimension + 1 by {
                lemma_cell_handles_in_bounds(self.cells@[c], self.vertices@.len() as int, self.dimension as int);
            }
            assert forall|c: int, i: int| 0 <= c < self.cells@.len() && 0 <= i < self.cells@[c].vertices_view().len() implies
                (#[trigger] self.cells@[c].vertices_view()[i])@ < self.vertices@.len() by {
                lemma_cell_handles_in_bounds(self.cells@[c], self.vertices@.len() as int, self.dimension as int);
            }
            assert forall|c: int, i: int, j: int| 0 <= c < self.cells@.len() && 0 <= i < j < self.cells@[c].vertices_view().len() implies
                #[trigger] self.cells@[c].vertices_view()[i] != #[trigger] self.cells@[c].vertices_view()[j] by {
                lemma_cell_handles_in_bounds(self.cells@[c], self.vertices@.len() as int, self.dimension as int);
            }
            lemma_links(self.cells@, self.cells@.len() as int);
        }
        let ghost cells = self.cells@;
        let ghost d = self.dimension as int;
        let mut violations: Vec<TdsCombinatorialViolationD> = Vec::new();
        let mut keys: Vec<Vec<usize>> = Vec::new();
        let mut linked: Vec<Vec<usize>> = Vec::new();
        let mut ci: usize = 0;
        while ci < self.cells.len()
            invariant
                0 <= ci <= cells.len(),
                cells == self.cells@,
                d == self.dimension as int,
                forall|c: int| 0 <= c < cells.len() ==> cell_shape_error(#[trigger] cells[c], self.vertices@.len() as int, d) is None,
                violations@.map_values(|v: TdsCombinatorialViolationD| v@) == link_violations(cells, ci as int),
                keys@.map_values(|k: Vec<usize>| k@).no_duplicates(),
                keys@.map_values(|k: Vec<usize>| k@).to_set() == facet_key_set(cells, ci as int),
                linked@.map_values(|k: Vec<usize>| k@).no_duplicates(),
                linked@.map_values(|k: Vec<usize>| k@).to_set() == linked_facet_key_set(cells, ci as int),
            decreases cells.len() - ci,
        {
            let cell = &self.cells[ci];
            let ns = cell.neighbors();
            proof {
                lemma_cell_handles_in_bounds(*cell, self.vertices@.len() as int, d);
                assert(cell_shape_error(cells[ci as int], self.vertices@.len() as int, d) is None);
            }
            // canonical facet keys, and those of the linked slots
            let mut slot: usize = 0;
            let ghost base_keys = facet_key_set(cells, ci as int);
            let ghost base_linked = linked_facet_key_set(cells, ci as int);
            while slot < cell.vertices().len()
                invariant
                    0 <= slot <= cell.vertices_view().len(),
                    *cell == cells[ci as int],
                    ns@ == cell.neighbors_view(),
                    ns@.len() == cell.vertices_view().len(),
                    keys@.map_values(|k: Vec<usize>| k@).no_duplicates(),
                    keys@.map_values(|k: Vec<usize>| k@).to_set() == base_keys.union(cell_facet_keys(*cell, slot as int)),
                    linked@.map_values(|k: Vec<usize>| k@).no_duplicates(),
                    linked@.map_values(|k: Vec<usize>| k@).to_set() == base_linked.union(cell_linked_keys(*cell, slot as int)),
                decreases cell.vertices_view().len() - slot,
            {
                let key = indices_of(facet_vertex_set(cell, slot).as_slice());
                let ghost kk = key@;
                proof {
                    assert(cell_facet_keys(*cell, slot + 1) =~= cell_facet_keys(*cell, slot as int).insert(kk));
                }
                if ns[slot].is_some() {
                    let linked_key = indices_of(facet_vertex_set(cell, slot).as_slice());
                    insert_key(&mut linked, linked_key);
                    proof {
                        assert(cell_linked_keys(*cell, slot + 1) =~= cell_linked_keys(*cell, slot as int).insert(kk));
                        assert(base_linked.union(cell_linked_keys(*cell, slot + 1)) =~=
                            base_linked.union(cell_linked_keys(*cell, slot as int)).insert(kk));
                    }
                } else {
                    proof {
                        assert(cell_linked_keys(*cell, slot + 1) =~= cell_linked_keys(*cell, slot as int));
                    }
                }
                insert_key(&mut keys, key);
                proof {
                    assert(base_keys.union(cell_facet_keys(*cell, slot + 1)) =~=
                        base_keys.union(cell_facet_keys(*cell, slot as int)).insert(kk));
                }
                slot = slot + 1;
            }
            proof {
                lemma_facet_key_set_step(cells, ci as int);
                lemma_linked_key_set_step(cells, ci as int);
            }
            // neighbor links
            let mut slot: usize = 0;
            let ghost base_violations = link_violations(cells, ci as int);
            while slot < ns.len()
                invariant
                    0 <= slot <= ns@.len(),
                    ns@ == cells[ci as int].neighbors_view(),
                    cells == self.cells@,
                    0 <= ci < cells.len(),
                    violations@.map_values(|v: TdsCombinatorialViolationD| v@) == base_violations + cell_link_violations(cells, ci as int, slot as int),
                decreases ns@.len() - slot,
            {
                let ghost old_view = violations@.map_values(|v: TdsCombinatorialViolationD| v@);
                match ns[slot] {
                    None => {},
                    Some(neighbor) => {
                        match validate_reciprocal_neighbor(self, CellHandle::new(ci), slot, neighbor) {
                            Err(error) => {
                                let reason = match error {
                                    Error::InvalidInput { reason } => reason,
                                    Error::PredicateUndecided { predicate } => predicate,
                                    Error::NoEarFound => "no valid polygon ear could be found",
                                    Error::UnsupportedFeature { feature } => feature,
                                };
                                violations.push(TdsCombinatorialViolationD::new(Some(CellHandle::new(ci)), Some(slot), reason));
                                proof {
                                    assert(violations@.map_values(|v: TdsCombinatorialViolationD| v@) =~= old_view.push(violations@.last()@));
                                }
                            },
                            Ok(()) => {},
                        }
                    },
                }
                proof {
                    assert(base_violations + cell_link_violations(cells, ci as int, slot + 1) =~=
                        (base_violations + cell_link_violations(cells, ci as int, slot as int)) + (cell_link_violations(cells, ci as int, slot + 1).subrange(cell_link_violations(cells, ci as int, slot as int).len() as int, cell_link_violations(cells, ci as int, slot + 1).len() as int)));
                }
                slot = slot + 1;
            }
            ci = ci + 1;
        }
        let facet_count = keys.len();
        let interior = linked.len();
        proof {
            let kv = keys@.map_values(|k: Vec<usize>| k@);
            let lv = linked@.map_values(|k: Vec<usize>| k@);
            kv.unique_seq_to_set();
            lv.unique_seq_to_set();
            let n = cells.len() as int;
            assert(linked_facet_key_set(cells, n).subset_of(facet_key_set(cells, n))) by {
                assert forall|key: Seq<usize>| linked_facet_key_set(cells, n).contains(key) implies facet_key_set(cells, n).contains(key) by {
                    let (c, t) = choose|c: int, t: int| 0 <= c < n && 0 <= t < cells[c].vertices_view().len() && t < cells[c].neighbors_view().len()
                        && cells[c].neighbors_view()[t] is Some && #[trigger] facet_indices(cells[c].vertices_view(), t) == key;
                    assert(facet_indices(cells[c].vertices_view(), t) == key);
                }
            }
            vstd::seq_lib::seq_to_set_is_finite(kv);
            vstd::set_lib::lemma_len_subset(linked_facet_key_set(cells, n), facet_key_set(cells, n));
        }
        let boundary = facet_count - interior;
        TdsCombinatorialValidationReportD::from_parts(
            self.dimension,
            self.vertices.len(),
            self.cells.len(),
            facet_count,
            boundary,
            interior,
            violations,
        )
    }

    /// Validates arity, handles, distinctness, finite/infinite status, and
    /// reciprocal neighbor links for every full cell; fails with the first
    /// reported violation.
    pub fn validate_combinatorial(&self) -> (r: Result<(), Error>)
        ensures
            link_violations(self.cells_view(), self.cells_view().len() as int).len() == 0 <==> r is Ok,
            link_violations(self.cells_view(), self.cells_view().len() as int).len() > 0 ==> (r matches Err(Error::InvalidInput { reason })
                && reason@ == link_violations(self.cells_view(), self.cells_view().len() as int)[0].2),
    {
        let report = self.validate_combinatorial_report();
        if !report.is_valid() {
            let reason = report.violations()[0].reason();
            return Err(Error::InvalidInput { reason });
        }
        Ok(())
    }

    /// Inserts the explicit infinite vertex and returns its stable handle.
    pub fn add_infinite_vertex(&mut self) -> (r: Result<VertexHandle, Error>)
        ensures
            (exists|i: int| 0 <= i < old(self).vertices_view().len() && #[trigger] old(self).vertices_view()[i].infinite_view())
                ==> (r == Err::<VertexHandle, Error>(Error::InvalidInput { reason: "TDS already has an infinite vertex" }) && *final(self) == *old(self)),
            !(exists|i: int| 0 <= i < old(self).vertices_view().len() && #[trigger] old(self).vertices_view()[i].infinite_view())
                ==> (r matches Ok(h) && h@ == old(self).vertices_view().len()
                && final(self).vertices_view().len() == old(self).vertices_view().len() + 1
                && final(self).vertices_view().subrange(0, h@ as int) == old(self).vertices_view()
                && final(self).vertices_view()[h@ as int].point_view() is None
                && final(self).vertices_view()[h@ as int].infinite_view()
                && final(self).cells_view() == old(self).cells_view()
                && final(self).dimension_view() == old(self).dimension_view()),
    {
        proof { use_type_invariant(&*self); }
        let mut i: usize = 0;
        while i < self.vertices.len()
            invariant
                0 <= i <= self.vertices@.len(),
                forall|j: int| 0 <= j < i ==> !(#[trigger] self.vertices@[j].infinite_view()),
            decreases self.vertices.len() - i,
        {
            if self.vertices[i].is_infinite() {
                return Err(Error::InvalidInput { reason: "TDS already has an infinite vertex" });
            }
            i = i + 1;
        }
        let handle = VertexHandle::new(self.vertices.len());
        let (dimension, mut vertices, cells) = self.take_parts();
        let ghost old_vertices = vertices@;
        vertices.push(VertexD::infinite());
        proof {
            assert(vertices@.subrange(0, handle@ as int) =~= old_vertices);
            assert forall|c: int| 0 <= c < cells@.len() implies
                cell_touches_infinite(vertices@, #[trigger] cells@[c]) == cell_touches_infinite(old_vertices, cells@[c]) by {
                lemma_cell_handles_in_bounds(cells@[c], old_vertices.len() as int, dimension as int);
                lemma_touches_infinite_prefix(old_vertices, vertices@, cells@[c]);
            }
            assert forall|c: int| 0 <= c < cells@.len() implies
                cell_shape_error(#[trigger] cells@[c], vertices@.len() as int, dimension as int) is None by {
                lemma_cell_shape_monotone(cells@[c], old_vertices.len() as int, vertices@.len() as int, dimension as int);
            }
        }
        *self = TriangulationDataStructureD { dimension, vertices, cells };
        Ok(handle)
    }

    /// Inserts a full cell and returns its stable handle after local
    /// validation of its shape and finite/infinite status.
    pub fn add_cell(&mut self, cell: Cell) -> (r: Result<CellHandle, Error>)
        ensures
            cell_shape_error(cell, old(self).vertices_view().len() as int, old(self).dimension_view() as int) matches Some(reason)
                ==> (r == Err::<CellHandle, Error>(Error::InvalidInput { reason }) && *final(self) == *old(self)),
            cell_shape_error(cell, old(self).vertices_view().len() as int, old(self).dimension_view() as int) is None
                && cell.infinite_view() != cell_touches_infinite(old(self).vertices_view(), cell)
                ==> (r == Err::<CellHandle, Error>(Error::InvalidInput { reason: "TDS cell finite/infinite status does not match vertices" })
                && *final(self) == *old(self)),
            cell_shape_error(cell, old(self).vertices_view().len() as int, old(self).dimension_view() as int) is None
                && cell.infinite_view() == cell_touches_infinite(old(self).vertices_view(), cell)
                ==> (r matches Ok(h) && h@ == old(self).cells_view().len()
                && final(self).cells_view() == old(self).cells_view().push(cell)
                && final(self).vertices_view() == old(self).vertices_view()
                && final(self).dimension_view() == old(self).dimension_view()),
    {
        proof { use_type_invariant(&*self); }
        if let Err(error) = validate_tds_cell_shape(&cell, self.vertices.len(), self.dimension) {
            return Err(error);
        }
        proof {
            lemma_cell_handles_in_bounds(cell, self.vertices@.len() as int, self.dimension as int);
        }
        let mut expected_infinite = false;
        let mut i: usize = 0;
        while i < cell.vertices().len()
            invariant
                0 <= i <= cell.vertices_view().len(),
                forall|j: int| 0 <= j < cell.vertices_view().len() ==> #[trigger] cell.vertices_view()[j]@ < self.vertices@.len(),
                expected_infinite == exists|j: int| 0 <= j < i && #[trigger] vertex_is_infinite(self.vertices@, cell.vertices_view()[j]),
            decreases cell.vertices_view().len() - i,
        {
            let vertex = cell.vertices()[i];
            if self.vertices[vertex.index()].is_infinite() {
                expected_infinite = true;
            }
            proof {
                if vertex_is_infinite(self.vertices@, cell.vertices_view()[i as int]) {
                    assert(exists|j: int| 0 <= j < i + 1 && #[trigger] vertex_is_infinite(self.vertices@, cell.vertices_view()[j]));
                }
            }
            i = i + 1;
        }
        if cell.is_infinite() != expected_infinite {
            return Err(Error::InvalidInput { reason: "TDS cell finite/infinite status does not match vertices" });
        }
        let handle = CellHandle::new(self.cells.len());
        let (dimension, vertices, mut cells) = self.take_parts();
        let ghost old_cells = cells@;
        cells.push(cell);
        proof {
            assert forall|c: int| 0 <= c < cells@.len() implies {
                &&& cell_shape_error(#[trigger] cells@[c], vertices@.len() as int, dimension as int) is None
                &&& cells@[c].infinite_view() == cell_touches_infinite(vertices@, cells@[c])
            } by {
                if c < old_cells.len() {
                    assert(cells@[c] == old_cells[c]);
                }
            }
        }
        *self = TriangulationDataStructureD { dimension, vertices, cells };
        Ok(handle)
    }

    /// Borrows all vertices.
    pub fn vertices(&self) -> (r: &[VertexD])
        ensures
            r@ == self.vertices_view(),
    {
        self.vertices.as_slice()
    }

    /// Borrows all cells.
    pub fn cells(&self) -> (r: &[Cell])
        ensures
            r@ == self.cells_view(),
    {
        self.cells.as_slice()
    }

    /// Returns a vertex by handle.
    pub fn vertex(&self, handle: VertexHandle) -> (r: Option<&VertexD>)
        ensures
            handle@ < self.vertices_view().len() ==> r == Some(&self.vertices_view()[handle@ as int]),
            handle@ >= self.vertices_view().len() ==> r is None,
    {
        if handle.index() < self.vertices.len() {
            Some(&self.vertices[handle.index()])
        } else {
            None
        }
    }

    /// Returns a cell by handle.
    pub fn cell(&self, handle: CellHandle) -> (r: Option<&Cell>)
        ensures
            handle@ < self.cells_view().len() ==> r == Some(&self.cells_view()[handle@ as int]),
            handle@ >= self.cells_view().len() ==> r is None,
    {
        if handle.index() < self.cells.len() {
            Some(&self.cells[handle.index()])
        } else {
            None
        }
    }

    /// Returns the facet of `cell` opposite `opposite_vertex`.
    pub fn facet(&self, cell: CellHandle, opposite_vertex: usize) -> (r: Result<Facet, Error>)
        ensures
            cell@ >= self.cells_view().len() ==> r == Err::<Facet, Error>(Error::InvalidInput { reason: "TDS facet references missing cell" }),
            cell@ < self.cells_view().len() && opposite_vertex >= self.cells_view()[cell@ as int].vertices_view().len()
                ==> r == Err::<Facet, Error>(Error::InvalidInput { reason: "TDS facet opposite vertex is out of bounds" }),
            cell@ < self.cells_view().len() && opposite_vertex < self.cells_view()[cell@ as int].vertices_view().len()
                ==> (r matches Ok(f) && f.cell_view() == cell && f.opposite_view() == opposite_vertex),
    {
        let cell_record = match self.cell(cell) {
            Some(c) => c,
            None => return Err(Error::InvalidInput { reason: "TDS facet references missing cell" }),
        };
        if opposite_vertex >= cell_record.vertices().len() {
            return Err(Error::InvalidInput { reason: "TDS facet opposite vertex is out of bounds" });
        }
        Ok(Facet::new(cell, opposite_vertex))
    }

    /// Returns the canonical key for a facet.
    pub fn facet_key(&self, facet: Facet) -> (r: Result<FacetKey, Error>)
        ensures
            facet.cell_view()@ >= self.cells_view().len() ==> r == Err::<FacetKey, Error>(Error::InvalidInput { reason: "TDS facet references missing cell" }),
            facet.cell_view()@ < self.cells_view().len() && facet.opposite_view() >= self.cells_view()[facet.cell_view()@ as int].vertices_view().len()
                ==> r == Err::<FacetKey, Error>(Error::InvalidInput { reason: "TDS facet opposite vertex is out of bounds" }),
            facet.cell_view()@ < self.cells_view().len() && facet.opposite_view() < self.cells_view()[facet.cell_view()@ as int].vertices_view().len()
                ==> (r matches Ok(k) && k.key_indices() == facet_indices(
                    self.cells_view()[facet.cell_view()@ as int].vertices_view(),
                    facet.opposite_view() as int,
                )),
    {
        let cell_record = match self.cell(facet.cell()) {
            Some(c) => c,
            None => return Err(Error::InvalidInput { reason: "TDS facet references missing cell" }),
        };
        if facet.opposite_vertex() >= cell_record.vertices().len() {
            return Err(Error::InvalidInput { reason: "TDS facet opposite vertex is out of bounds" });
        }
        let vertices = facet_vertex_set(cell_record, facet.opposite_vertex());
        let key = FacetKey::new(vertices);
        proof {
            let vs = self.cells@[facet.cell_view()@ as int].vertices_view();
            let kept = if 0 <= facet.opposite_view() < vs.len() { vs.remove(facet.opposite_view() as int) } else { vs };
            lemma_sort_idempotent(handle_indices(kept));
        }
        Ok(key)
    }
}

/// The vertex handles of `cell` except the one in `opposite_slot`, sorted by
/// index.
pub fn facet_vertex_set(cell: &Cell, opposite_slot: usize) -> (r: Vec<VertexHandle>)
    ensures
        handle_indices(r@) == facet_indices(cell.vertices_view(), opposite_slot as int),
{
    let vs = cell.vertices();
    let mut out: Vec<VertexHandle> = Vec::new();
    let mut slot: usize = 0;
    let ghost kept = if opposite_slot < vs@.len() { vs@.remove(opposite_slot as int) } else { vs@ };
    while slot < vs.len()
        invariant
            0 <= slot <= vs@.len(),
            vs@ == cell.vertices_view(),
            kept == (if opposite_slot < vs@.len() { vs@.remove(opposite_slot as int) } else { vs@ }),
            out@ == (if opposite_slot < slot { vs@.subrange(0, slot as int).remove(opposite_slot as int) } else { vs@.subrange(0, slot as int) }),
        decreases vs.len() - slot,
    {
        if slot != opposite_slot {
            out.push(vs[slot]);
        }
        proof {
            let sub1 = vs@.subrange(0, slot + 1);
            if opposite_slot < slot {
                assert(sub1.remove(opposite_slot as int) =~= vs@.subrange(0, slot as int).remove(opposite_slot as int).push(vs@[slot as int]));
            } else if opposite_slot == slot {
                assert(sub1.remove(opposite_slot as int) =~= vs@.subrange(0, slot as int));
            } else {
                assert(sub1 =~= vs@.subrange(0, slot as int).push(vs@[slot as int]));
            }
        }
        slot = slot + 1;
    }
    proof {
        assert(vs@.subrange(0, vs@.len() as int) =~= vs@);
        assert(out@ == kept);
    }
    sort_handles(&mut out);
    out
}

/// Sorting an already sorted sequence changes nothing.
pub proof fn lemma_sort_idempotent(s: Seq<usize>)
    ensures
        s.sort_by(index_leq()).sort_by(index_leq()) == s.sort_by(index_leq()),
{
    lemma_index_leq_total();
    s.lemma_sort_by_ensures(index_leq());
    s.sort_by(index_leq()).lemma_sort_by_ensures(index_leq());
    vstd::seq_lib::lemma_sorted_unique(s.sort_by(index_leq()).sort_by(index_leq()), s.sort_by(index_leq()), index_leq());
}


/// Indices of a handle slice.
pub fn indices_of(handles: &[VertexHandle]) -> (r: Vec<usize>)
    ensures
        r@ == handle_indices(handles@),
{
    let mut out: Vec<usize> = Vec::new();
    let mut i: usize = 0;
    while i < handles.len()
        invariant
            0 <= i <= handles@.len(),
            out@ == handle_indices(handles@.subrange(0, i as int)),
        decreases handles.len() - i,
    {
        out.push(handles[i].index());
        proof {
            assert(handle_indices(handles@.subrange(0, i + 1)) =~= handle_indices(handles@.subrange(0, i as int)).push(handles@[i as int]@));
        }
        i = i + 1;
    }
    proof {
        assert(handles@.subrange(0, handles@.len() as int) =~= handles@);
    }
    out
}

/// Elementwise equality of two index slices.
pub fn indices_equal(a: &[usize], b: &[usize]) -> (r: bool)
    ensures
        r == (a@ == b@),
{
    if a.len() != b.len() {
        return false;
    }
    let mut i: usize = 0;
    while i < a.len()
        invariant
            0 <= i <= a@.len(),
            a@.len() == b@.len(),
            forall|j: int| 0 <= j < i ==> a@[j] == b@[j],
        decreases a.len() - i,
    {
        if a[i] != b[i] {
            return false;
        }
        i = i + 1;
    }
    proof {
        assert(a@ =~= b@);
    }
    true
}

/// Check that slot `slot` of cell `cell_handle` links to a neighbor that
/// shares the facet and links back.
pub fn validate_reciprocal_neighbor(
    tds: &TriangulationDataStructureD,
    cell_handle: CellHandle,
    slot: usize,
    neighbor_handle: CellHandle,
) -> (r: Result<(), Error>)
    ensures
        match reciprocal_error(tds.cells_view(), cell_handle@ as int, slot as int, neighbor_handle) {
            Some(reason) => r == Err::<(), Error>(Error::InvalidInput { reason }),
            None => r is Ok,
        },
{
    proof { use_type_invariant(tds); }
    let cell = match tds.cell(cell_handle) {
        Some(c) => c,
        None => return Err(Error::InvalidInput { reason: "TDS reciprocal check references missing cell" }),
    };
    let neighbor = match tds.cell(neighbor_handle) {
        Some(n) => n,
        None => return Err(Error::InvalidInput { reason: "TDS neighbor handle out of bounds" }),
    };
    let facet_vertices = indices_of(facet_vertex_set(cell, slot).as_slice());
    let ghost key = facet_indices(cell.vertices_view(), slot as int);
    let ghost nvs = neighbor.vertices_view();
    let mut candidate: usize = 0;
    let mut found: Option<usize> = None;
    while candidate < neighbor.vertices().len() && found.is_none()
        invariant
            0 <= candidate <= nvs.len(),
            nvs == neighbor.vertices_view(),
            facet_vertices@ == key,
            found is None ==> first_matching_slot(nvs, key, candidate as int) is None,
            found matches Some(k) ==> k < nvs.len() && first_matching_slot(nvs, key, k + 1) == Some(k as int),
        decreases nvs.len() - candidate, if found is None { 1int } else { 0int },
    {
        let candidate_key = indices_of(facet_vertex_set(neighbor, candidate).as_slice());
        if indices_equal(candidate_key.as_slice(), facet_vertices.as_slice()) {
            found = Some(candidate);
        } else {
            candidate = candidate + 1;
        }
    }
    let neighbor_slot = match found {
        Some(k) => k,
        None => {
            return Err(Error::InvalidInput { reason: "TDS neighbor does not share the referenced facet" });
        },
    };
    proof {
        lemma_first_match_persists(nvs, key, neighbor_slot as int + 1, nvs.len() as int);
        lemma_cell_handles_in_bounds(*neighbor, tds.vertices_view().len() as int, tds.dimension_view() as int);
    }
    match neighbor.neighbors()[neighbor_slot] {
        Some(back) => {
            if back.index() != cell_handle.index() {
                return Err(Error::InvalidInput { reason: "TDS neighbor link is not reciprocal" });
            }
        },
        None => {
            return Err(Error::InvalidInput { reason: "TDS neighbor link is not reciprocal" });
        },
    }
    Ok(())
}

/// Once a matching slot is found it stays the first match.
proof fn lemma_first_match_persists(vs: Seq<VertexHandle>, key: Seq<usize>, k: int, m: int)
    requires
        0 < k <= m,
        first_matching_slot(vs, key, k) is Some,
    ensures
        first_matching_slot(vs, key, m) == first_matching_slot(vs, key, k),
    decreases m - k,
{
    if m > k {
        lemma_first_match_persists(vs, key, k, m - 1);
    }
}

/// Check a cell's arity, handle bounds and distinct vertices.
pub fn validate_tds_cell_shape(cell: &Cell, vertex_count: usize, dimension: usize) -> (r: Result<(), Error>)
    ensures
        match cell_shape_error(*cell, vertex_count as int, dimension as int) {
            Some(reason) => r == Err::<(), Error>(Error::InvalidInput { reason }),
            None => r is Ok,
        },
{
    let vertex_arity = cell.vertices().len();
    if dimension == usize::MAX || vertex_arity != dimension + 1 {
        return Err(Error::InvalidInput { reason: "TDS cell has wrong arity" });
    }
    if cell.neighbors().len() != dimension + 1 {
        return Err(Error::InvalidInput { reason: "TDS cell has wrong neighbor arity" });
    }
    let vs = cell.vertices();
    let mut offset: usize = 0;
    while offset < vs.len()
        invariant
            0 <= offset <= vs@.len(),
            vs@ == cell.vertices_view(),
            vs@.len() == dimension + 1,
            cell.neighbors_view().len() == dimension + 1,
            cell_shape_offset_error(vs@, vertex_count as int, offset as int) is None,
        decreases vs.len() - offset,
    {
        let vertex = vs[offset];
        if vertex.index() >= vertex_count {
            proof {
                assert(cell_shape_offset_error(vs@, vertex_count as int, offset as int + 1) == Some("TDS cell vertex handle out of bounds"));
                lemma_offset_error_persists(vs@, vertex_count as int, offset as int + 1, vs@.len() as int);
            }
            return Err(Error::InvalidInput { reason: "TDS cell vertex handle out of bounds" });
        }
        let mut k: usize = 0;
        while k < offset
            invariant
                0 <= k <= offset < vs@.len(),
                vertex == vs@[offset as int],
                vertex@ < vertex_count,
                vs@ == cell.vertices_view(),
                vs@.len() == dimension + 1,
                cell.neighbors_view().len() == dimension + 1,
                cell_shape_offset_error(vs@, vertex_count as int, offset as int) is None,
                forall|j: int| 0 <= j < k ==> #[trigger] vs@[j] != vertex,
            decreases offset - k,
        {
            if vs[k] == vertex {
                proof {
                    assert(vs@.subrange(0, offset as int)[k as int] == vertex);
                    assert(vs@.subrange(0, offset as int).contains(vs@[offset as int]));
                    assert(cell_shape_offset_error(vs@, vertex_count as int, offset as int + 1) == Some("TDS cell repeats a vertex handle"));
                    lemma_offset_error_persists(vs@, vertex_count as int, offset as int + 1, vs@.len() as int);
                }
                return Err(Error::InvalidInput { reason: "TDS cell repeats a vertex handle" });
            }
            k = k + 1;
        }
        proof {
            assert(!vs@.subrange(0, offset as int).contains(vertex)) by {
                if vs@.subrange(0, offset as int).contains(vertex) {
                    let j = choose|j: int| 0 <= j < offset && vs@.subrange(0, offset as int)[j] == vertex;
                    assert(vs@[j] == vertex);
                }
            }
        }
        offset = offset + 1;
    }
    Ok(())
}

/// Once an offset error is found, it stays the first error.
proof fn lemma_offset_error_persists(vs: Seq<VertexHandle>, vertex_count: int, k: int, m: int)
    requires
        0 < k <= m <= vs.len(),
        cell_shape_offset_error(vs, vertex_count, k) is Some,
    ensures
        cell_shape_offset_error(vs, vertex_count, m) == cell_shape_offset_error(vs, vertex_count, k),
    decreases m - k,
{
    if m > k {
        lemma_offset_error_persists(vs, vertex_count, k, m - 1);
    }
}

/// A well-shaped cell references only vertices below `vertex_count`.
proof fn lemma_cell_handles_in_bounds(cell: Cell, vertex_count: int, dimension: int)
    requires
        cell_shape_error(cell, vertex_count, dimension) is None,
    ensures
        forall|i: int| 0 <= i < cell.vertices_view().len() ==> #[trigger] cell.vertices_view()[i]@ < vertex_count,
        forall|i: int, j: int| 0 <= i < j < cell.vertices_view().len() ==> #[trigger] cell.vertices_view()[i] != #[trigger] cell.vertices_view()[j],
        cell.vertices_view().len() == dimension + 1,
        cell.neighbors_view().len() == dimension + 1,
{
    lemma_no_offset_error(cell.vertices_view(), vertex_count, cell.vertices_view().len() as int);
}

/// Growing the vertex table keeps a well-shaped cell well shaped.
proof fn lemma_cell_shape_monotone(cell: Cell, small: int, large: int, dimension: int)
    requires
        cell_shape_error(cell, small, dimension) is None,
        small <= large,
    ensures
        cell_shape_error(cell, large, dimension) is None,
{
    lemma_offset_error_monotone(cell.vertices_view(), small, large, cell.vertices_view().len() as int);
}

proof fn lemma_offset_error_monotone(vs: Seq<VertexHandle>, small: int, large: int, k: int)
    requires
        0 <= k <= vs.len(),
        cell_shape_offset_error(vs, small, k) is None,
        small <= large,
    ensures
        cell_shape_offset_error(vs, large, k) is None,
    decreases k,
{
    if k > 0 {
        lemma_offset_error_monotone(vs, small, large, k - 1);
    }
}

/// Appending vertices does not change which existing cells touch the
/// infinite vertex.
proof fn lemma_touches_infinite_prefix(old_vertices: Seq<VertexD>, new_vertices: Seq<VertexD>, cell: Cell)
    requires
        old_vertices.len() <= new_vertices.len(),
        forall|i: int| 0 <= i < old_vertices.len() ==> new_vertices[i] == old_vertices[i],
        forall|i: int| 0 <= i < cell.vertices_view().len() ==> #[trigger] cell.vertices_view()[i]@ < old_vertices.len(),
    ensures
        cell_touches_infinite(new_vertices, cell) == cell_touches_infinite(old_vertices, cell),
{
    if cell_touches_infinite(new_vertices, cell) {
        let i = choose|i: int| 0 <= i < cell.vertices_view().len() && #[trigger] vertex_is_infinite(new_vertices, cell.vertices_view()[i]);
        assert(vertex_is_infinite(old_vertices, cell.vertices_view()[i]));
    }
    if cell_touches_infinite(old_vertices, cell) {
        let i = choose|i: int| 0 <= i < cell.vertices_view().len() && #[trigger] vertex_is_infinite(old_vertices, cell.vertices_view()[i]);
        assert(vertex_is_infinite(new_vertices, cell.vertices_view()[i]));
    }
}

/// Counts of the geometric pass (finite cells, positive and negative
/// orientations, cospherical queries) and its violations.
pub type GeometricTally = (int, int, int, int, Seq<GeometricViolationView>);

/// The coordinate rows of a finite cell's vertices.
pub open spec fn finite_cell_rows(vertices: Seq<VertexD>, cell: Cell) -> Seq<Seq<(int, int)>> {
    cell.vertices_view().map_values(|h: VertexHandle| match vertices[h@ as int].point_view() {
        Some(p) => coordinate_pairs(p),
        None => Seq::empty(),
    })
}

/// `t` with one more violation.
pub open spec fn with_violation(t: GeometricTally, v: GeometricViolationView) -> GeometricTally {
    (t.0, t.1, t.2, t.3, t.4.push(v))
}

/// The empty-sphere part of the geometric pass for cell `c`, over the
/// finite vertices below `v` that are not in the cell.
pub open spec fn sphere_tally(vertices: Seq<VertexD>, cell: Cell, c: int, orientation: Sign, dimension: int, policy: PredicatePolicy, t: GeometricTally, v: int) -> GeometricTally
    decreases v,
{
    if v <= 0 {
        t
    } else {
        let prior = sphere_tally(vertices, cell, c, orientation, dimension, policy, t, v - 1);
        match vertices[v - 1].point_view() {
            None => prior,
            Some(p) => if handle_indices(cell.vertices_view()).contains((v - 1) as usize) {
                prior
            } else {
                match insphere_d_outcome(finite_cell_rows(vertices, cell), coordinate_pairs(p), policy) {
                    None => with_violation(prior, (Some(c as usize), "D-dimensional in-sphere"@, Some("D-dimensional in-sphere"@))),
                    Some(s) => if s == Sign::Zero {
                        (prior.0, prior.1, prior.2, prior.3 + 1, prior.4)
                    } else if s == inside_sign(dimension, orientation) {
                        with_violation(prior, (Some(c as usize), "D-dimensional simplex violates empty-sphere legality"@, None))
                    } else {
                        prior
                    },
                }
            },
        }
    }
}

/// The geometric pass over cell `c`: skipped when infinite; otherwise
/// counted, oriented, and tested against every other finite vertex.
pub open spec fn cell_tally(vertices: Seq<VertexD>, cells: Seq<Cell>, c: int, dimension: int, policy: PredicatePolicy, t: GeometricTally) -> GeometricTally {
    let cell = cells[c];
    if cell.infinite_view() {
        t
    } else {
        let counted = (t.0 + 1, t.1, t.2, t.3, t.4);
        match orient_d_outcome(finite_cell_rows(vertices, cell), policy) {
            None => with_violation(counted, (Some(c as usize), "D-dimensional orientation"@, Some("D-dimensional orientation"@))),
            Some(Sign::Zero) => with_violation(counted, (Some(c as usize), "D-dimensional simplex is affinely dependent"@, None)),
            Some(Sign::Positive) => sphere_tally(vertices, cell, c, Sign::Positive, dimension, policy,
                (counted.0, counted.1 + 1, counted.2, counted.3, counted.4), vertices.len() as int),
            Some(Sign::Negative) => sphere_tally(vertices, cell, c, Sign::Negative, dimension, policy,
                (counted.0, counted.1, counted.2 + 1, counted.3, counted.4), vertices.len() as int),
        }
    }
}

/// The geometric pass over the cells below `m`.
pub open spec fn geometric_tally(vertices: Seq<VertexD>, cells: Seq<Cell>, dimension: int, policy: PredicatePolicy, m: int) -> GeometricTally
    decreases m,
{
    if m <= 0 {
        (0, 0, 0, 0, Seq::empty())
    } else {
        cell_tally(vertices, cells, m - 1, dimension, policy, geometric_tally(vertices, cells, dimension, policy, m - 1))
    }
}

/// The geometric report: refused when combinatorial validation fails.
pub open spec fn geometric_report(vertices: Seq<VertexD>, cells: Seq<Cell>, dimension: int, policy: PredicatePolicy) -> GeometricTally {
    if link_violations(cells, cells.len() as int).len() > 0 {
        (0, 0, 0, 0, seq![(None::<usize>, "TDS combinatorial validation must pass before geometric validation"@, None::<Seq<char>>)])
    } else {
        geometric_tally(vertices, cells, dimension, policy, cells.len() as int)
    }
}

/// Number of finite (not infinite) cells below `m`.
pub open spec fn finite_cells_below(cells: Seq<Cell>, m: int) -> int
    decreases m,
{
    if m <= 0 {
        0
    } else {
        finite_cells_below(cells, m - 1) + if cells[m - 1].infinite_view() { 0int } else { 1int }
    }
}

/// Whether a violation reports a cell whose orientation was zero or could
/// not be decided.
pub open spec fn is_orientation_failure(v: GeometricViolationView) -> bool {
    v.1 == "D-dimensional orientation"@ || v.1 == "D-dimensional simplex is affinely dependent"@
}

/// Number of orientation failures among `vs`.
pub open spec fn orientation_failures(vs: Seq<GeometricViolationView>) -> int
    decreases vs.len(),
{
    if vs.len() == 0 {
        0
    } else {
        orientation_failures(vs.drop_last()) + if is_orientation_failure(vs.last()) { 1int } else { 0int }
    }
}

/// Whether every violation that names an undecided predicate has that
/// predicate as its reason.
pub open spec fn undecided_named_by_reason(vs: Seq<GeometricViolationView>) -> bool {
    forall|i: int| 0 <= i < vs.len() ==> ((#[trigger] vs[i]).2 matches Some(p) ==> p == vs[i].1)
}

proof fn lemma_push_failures(vs: Seq<GeometricViolationView>, v: GeometricViolationView)
    requires
        undecided_named_by_reason(vs),
        v.2 matches Some(p) ==> p == v.1,
    ensures
        orientation_failures(vs.push(v)) == orientation_failures(vs) + if is_orientation_failure(v) { 1int } else { 0int },
        undecided_named_by_reason(vs.push(v)),
{
    assert(vs.push(v).drop_last() =~= vs);
    assert forall|i: int| 0 <= i < vs.push(v).len() implies ((#[trigger] vs.push(v)[i]).2 matches Some(p) ==> p == vs.push(v)[i].1) by {
        if i < vs.len() {
            assert(vs.push(v)[i] == vs[i]);
        }
    }
}

proof fn lemma_sphere_tally_counts(vertices: Seq<VertexD>, cell: Cell, c: int, orientation: Sign, dimension: int, policy: PredicatePolicy, t: GeometricTally, v: int)
    requires
        undecided_named_by_reason(t.4),
    ensures
        ({
            let s = sphere_tally(vertices, cell, c, orientation, dimension, policy, t, v);
            &&& s.0 == t.0 && s.1 == t.1 && s.2 == t.2
            &&& orientation_failures(s.4) == orientation_failures(t.4)
            &&& undecided_named_by_reason(s.4)
        }),
    decreases v,
{
    reveal_strlit("D-dimensional orientation");
    reveal_strlit("D-dimensional simplex is affinely dependent");
    reveal_strlit("D-dimensional in-sphere");
    reveal_strlit("D-dimensional simplex violates empty-sphere legality");
    if v > 0 {
        lemma_sphere_tally_counts(vertices, cell, c, orientation, dimension, policy, t, v - 1);
        let prior = sphere_tally(vertices, cell, c, orientation, dimension, policy, t, v - 1);
        let undecided = (Some(c as usize), "D-dimensional in-sphere"@, Some("D-dimensional in-sphere"@));
        let illegal = (Some(c as usize), "D-dimensional simplex violates empty-sphere legality"@, None::<Seq<char>>);
        assert("D-dimensional in-sphere"@.len() == 23);
        assert("D-dimensional simplex violates empty-sphere legality"@.len() == 52);
        assert("D-dimensional orientation"@.len() == 25);
        assert("D-dimensional simplex is affinely dependent"@.len() == 43);
        assert(!is_orientation_failure(undecided));
        assert(!is_orientation_failure(illegal));
        lemma_push_failures(prior.4, undecided);
        lemma_push_failures(prior.4, illegal);
    }
}

proof fn lemma_geometric_tally_counts(vertices: Seq<VertexD>, cells: Seq<Cell>, dimension: int, policy: PredicatePolicy, m: int)
    ensures
        ({
            let t = geometric_tally(vertices, cells, dimension, policy, m);
            &&& t.0 == finite_cells_below(cells, m)
            &&& t.1 + t.2 == t.0 - orientation_failures(t.4)
            &&& undecided_named_by_reason(t.4)
        }),
    decreases m,
{
    reveal_strlit("D-dimensional orientation");
    reveal_strlit("D-dimensional simplex is affinely dependent");
    if m > 0 {
        lemma_geometric_tally_counts(vertices, cells, dimension, policy, m - 1);
        let t = geometric_tally(vertices, cells, dimension, policy, m - 1);
        let cell = cells[m - 1];
        if !cell.infinite_view() {
            let c = m - 1;
            let counted = (t.0 + 1, t.1, t.2, t.3, t.4);
            let undecided = (Some(c as usize), "D-dimensional orientation"@, Some("D-dimensional orientation"@));
            let flat = (Some(c as usize), "D-dimensional simplex is affinely dependent"@, None::<Seq<char>>);
            lemma_push_failures(t.4, undecided);
            lemma_push_failures(t.4, flat);
            lemma_sphere_tally_counts(vertices, cell, c, Sign::Positive, dimension, policy,
                (counted.0, counted.1 + 1, counted.2, counted.3, counted.4), vertices.len() as int);
            lemma_sphere_tally_counts(vertices, cell, c, Sign::Negative, dimension, policy,
                (counted.0, counted.1, counted.2 + 1, counted.3, counted.4), vertices.len() as int);
        }
    }
}

/// The counts of the geometric report: when combinatorial validation
/// fails, the report is one cell-less refusal with every count zero;
/// otherwise the finite-cell count is the number of finite cells, the
/// positive and negative orientation counts add up to it less the cells
/// whose orientation was zero or undecided (one violation each), and every
/// violation that names an undecided predicate has that predicate as its
/// reason.
pub proof fn lemma_geometric_counts(vertices: Seq<VertexD>, cells: Seq<Cell>, dimension: int, policy: PredicatePolicy)
    ensures
        ({
            let t = geometric_report(vertices, cells, dimension, policy);
            &&& link_violations(cells, cells.len() as int).len() > 0 ==> {
                &&& t.0 == 0 && t.1 == 0 && t.2 == 0 && t.3 == 0
                &&& t.4 == seq![(None::<usize>, "TDS combinatorial validation must pass before geometric validation"@, None::<Seq<char>>)]
            }
            &&& link_violations(cells, cells.len() as int).len() == 0 ==> {
                &&& t.0 == finite_cells_below(cells, cells.len() as int)
                &&& t.1 + t.2 == t.0 - orientation_failures(t.4)
            }
            &&& undecided_named_by_reason(t.4)
        }),
{
    lemma_geometric_tally_counts(vertices, cells, dimension, policy, cells.len() as int);
    let t = geometric_report(vertices, cells, dimension, policy);
    if link_violations(cells, cells.len() as int).len() > 0 {
        assert(t.4[0].2 is None);
    }
}

/// The coordinates of the vertices of a finite cell, in cell order.
fn finite_cell_coordinates(vertices: &[VertexD], cell: &Cell) -> (r: Vec<Vec<Real>>)
    requires
        forall|i: int| 0 <= i < cell.vertices_view().len() ==> (#[trigger] cell.vertices_view()[i])@ < vertices@.len()
            && vertices@[cell.vertices_view()[i]@ as int].point_view() is Some,
    ensures
        rows_view(r@) == finite_cell_rows(vertices@, *cell),
{
    let handles = cell.vertices();
    let mut rows: Vec<Vec<Real>> = Vec::new();
    let mut i: usize = 0;
    while i < handles.len()
        invariant
            0 <= i <= handles@.len(),
            handles@ == cell.vertices_view(),
            forall|j: int| 0 <= j < cell.vertices_view().len() ==> (#[trigger] cell.vertices_view()[j])@ < vertices@.len()
                && vertices@[cell.vertices_view()[j]@ as int].point_view() is Some,
            rows_view(rows@) == finite_cell_rows(vertices@, *cell).subrange(0, i as int),
        decreases handles.len() - i,
    {
        let h = handles[i];
        assert(h == cell.vertices_view()[i as int]);
        let point = vertices[h.index()].point();
        let row = match point {
            Some(p) => copy_reals(p.coordinates()),
            None => {
                assert(false);
                Vec::new()
            },
        };
        let ghost before = rows@;
        rows.push(row);
        proof {
            assert(rows_view(rows@) =~= rows_view(before).push(coordinate_pairs(row@)));
            assert(finite_cell_rows(vertices@, *cell).subrange(0, i + 1) =~= finite_cell_rows(vertices@, *cell).subrange(0, i as int).push(coordinate_pairs(row@)));
        }
        i = i + 1;
    }
    proof {
        assert(finite_cell_rows(vertices@, *cell).subrange(0, handles@.len() as int) =~= finite_cell_rows(vertices@, *cell));
    }
    rows
}

impl TriangulationDataStructureD {
    /// Builds a geometric validation report for finite cells: orientation
    /// counts, cospherical queries, and the cells that are affinely dependent
    /// or whose circumsphere strictly contains another finite vertex.
    pub fn validate_geometric_report(&self, context: &TriangulationContext) -> (r: TriangulationOutcome<TdsGeometricValidationReportD>)
        requires
            self.cells_view().len() * self.vertices_view().len() <= usize::MAX,
        ensures
            r.certainty == TriangulationCertainty::Certified,
            r.value.tally_view() == geometric_report(self.vertices_view(), self.cells_view(), self.dimension_view() as int, context.policy()),
    {
        TriangulationOutcome::new(self.geometric_report_parts(context.predicate_policy()), TriangulationCertainty::Certified)
    }

    /// Validates finite-cell geometric facts, failing with the first
    /// violation of the geometric report.
    pub fn validate_geometric(&self, context: &TriangulationContext) -> (r: Result<TriangulationOutcome<()>, Error>)
        requires
            self.cells_view().len() * self.vertices_view().len() <= usize::MAX,
        ensures
            ({
                let violations = geometric_report(self.vertices_view(), self.cells_view(), self.dimension_view() as int, context.policy()).4;
                &&& violations.len() == 0 ==> (r matches Ok(o) && o.certainty == TriangulationCertainty::Certified)
                &&& violations.len() > 0 ==> (r matches Err(e) && match violations[0].2 {
                    Some(p) => (e matches Error::PredicateUndecided { predicate } && predicate@ == p),
                    None => (e matches Error::InvalidInput { reason } && reason@ == violations[0].1),
                })
            }),
    {
        let report = self.geometric_report_parts(context.predicate_policy());
        if !report.is_valid() {
            let violation = &report.violations()[0];
            return match violation.undecided_predicate() {
                Some(predicate) => Err(Error::PredicateUndecided { predicate }),
                None => Err(Error::InvalidInput { reason: violation.reason() }),
            };
        }
        Ok(TriangulationOutcome::new((), TriangulationCertainty::Certified))
    }

    /// The geometric validation pass.
    #[verifier::loop_isolation(false)]
    fn geometric_report_parts(&self, policy: PredicatePolicy) -> (r: TdsGeometricValidationReportD)
        requires
            self.cells_view().len() * self.vertices_view().len() <= usize::MAX,
        ensures
            r.tally_view() == geometric_report(self.vertices_view(), self.cells_view(), self.dimension_view() as int, policy),
    {
        proof { use_type_invariant(self); }
        let ghost vertices = self.vertices@;
        let ghost cells = self.cells@;
        let ghost d = self.dimension as int;
        let combinatorial = self.validate_combinatorial_report();
        if !combinatorial.is_valid() {
            let mut violations: Vec<TdsGeometricViolationD> = Vec::new();
            violations.push(TdsGeometricViolationD::new(None, "TDS combinatorial validation must pass before geometric validation"));
            proof {
                assert(violations@.map_values(|v: TdsGeometricViolationD| v@) =~= seq![(None::<usize>, "TDS combinatorial validation must pass before geometric validation"@, None::<Seq<char>>)]);
            }
            return TdsGeometricValidationReportD::from_parts(0, 0, 0, 0, violations);
        }
        let nv = self.vertices.len();
        let mut finite: usize = 0;
        let mut positive: usize = 0;
        let mut negative: usize = 0;
        let mut cospherical: usize = 0;
        let mut violations: Vec<TdsGeometricViolationD> = Vec::new();
        let ghost mut tally: GeometricTally = (0, 0, 0, 0, Seq::empty());
        proof {
            assert(violations@.map_values(|v: TdsGeometricViolationD| v@) =~= Seq::<GeometricViolationView>::empty());
        }
        let mut c: usize = 0;
        while c < self.cells.len()
            invariant
                0 <= c <= cells.len(),
                tally == geometric_tally(vertices, cells, d, policy, c as int),
                tally == (finite as int, positive as int, negative as int, cospherical as int, violations@.map_values(|v: TdsGeometricViolationD| v@)),
                finite <= c,
                positive + negative <= c,
                cospherical <= c * nv,
            decreases self.cells.len() - c,
        {
            let cell = &self.cells[c];
            assert(*cell == cells[c as int]);
            proof {
                lemma_cell_handles_in_bounds(*cell, vertices.len() as int, d);
            }
            if !cell.is_infinite() {
                proof {
                    assert forall|i: int| 0 <= i < cell.vertices_view().len() implies (#[trigger] cell.vertices_view()[i])@ < vertices.len()
                        && vertices[cell.vertices_view()[i]@ as int].point_view() is Some by {
                        if vertices[cell.vertices_view()[i]@ as int].point_view() is None {
                            assert(vertex_is_infinite(vertices, cell.vertices_view()[i]));
                        }
                    }
                }
                finite = finite + 1;
                let mut rows = finite_cell_coordinates(self.vertices.as_slice(), cell);
                let ghost counted = (tally.0 + 1, tally.1, tally.2, tally.3, tally.4);
                let cell_index = CellHandle::new(c);
                match orient_d_sign(rows.as_slice(), policy) {
                    None => {
                        let ghost before = violations@;
                        violations.push(TdsGeometricViolationD::undecided(Some(cell_index), "D-dimensional orientation"));
                        proof {
                            assert(violations@.map_values(|v: TdsGeometricViolationD| v@) =~= before.map_values(|v: TdsGeometricViolationD| v@).push(violations@.last()@));
                            tally = with_violation(counted, (Some(c), "D-dimensional orientation"@, Some("D-dimensional orientation"@)));
                        }
                    },
                    Some(Sign::Zero) => {
                        let ghost before = violations@;
                        violations.push(TdsGeometricViolationD::new(Some(cell_index), "D-dimensional simplex is affinely dependent"));
                        proof {
                            assert(violations@.map_values(|v: TdsGeometricViolationD| v@) =~= before.map_values(|v: TdsGeometricViolationD| v@).push(violations@.last()@));
                            tally = with_violation(counted, (Some(c), "D-dimensional simplex is affinely dependent"@, None));
                        }
                    },
                    Some(orientation) => {
                        if orientation == Sign::Positive {
                            positive = positive + 1;
                        } else {
                            negative = negative + 1;
                        }
                        let ghost start = (counted.0, positive as int, negative as int, counted.3, counted.4);
                        proof {
                            tally = start;
                        }
                        let cell_indices = indices_of(cell.vertices());
                        let mut v: usize = 0;
                        while v < nv
                            invariant
                                0 <= v <= nv,
                                nv == vertices.len(),
                                cell_indices@ == handle_indices(cell.vertices_view()),
                                rows_view(rows@) == finite_cell_rows(vertices, *cell),
                                tally == sphere_tally(vertices, *cell, c as int, orientation, d, policy, start, v as int),
                                tally == (finite as int, positive as int, negative as int, cospherical as int, violations@.map_values(|v: TdsGeometricViolationD| v@)),
                                cospherical <= c * nv + v,
                            decreases nv - v,
                        {
                            match self.vertices[v].point() {
                                None => {},
                                Some(point) => {
                                    if !contains_index(cell_indices.as_slice(), v) {
                                        let ghost simplex_rows = rows@;
                                        rows.push(copy_reals(point.coordinates()));
                                        proof {
                                            assert(rows@.drop_last() =~= simplex_rows);
                                        }
                                        let sphere = insphere_d_sign(rows.as_slice(), policy);
                                        rows.pop();
                                        proof {
                                            assert(rows@ =~= simplex_rows);
                                        }
                                        match sphere {
                                            None => {
                                                let ghost before = violations@;
                                                violations.push(TdsGeometricViolationD::undecided(Some(cell_index), "D-dimensional in-sphere"));
                                                proof {
                                                    assert(violations@.map_values(|v: TdsGeometricViolationD| v@) =~= before.map_values(|v: TdsGeometricViolationD| v@).push(violations@.last()@));
                                                }
                                            },
                                            Some(s) => {
                                                if s == Sign::Zero {
                                                    proof {
                                                        assert(c * nv + v + 1 <= self.cells@.len() * nv) by (nonlinear_arith)
                                                            requires
                                                                c < self.cells@.len(),
                                                                v < nv;
                                                    }
                                                    cospherical = cospherical + 1;
                                                } else if s == insphere_inside_sign(self.dimension, orientation) {
                                                    let ghost before = violations@;
                                                    violations.push(TdsGeometricViolationD::new(Some(cell_index), "D-dimensional simplex violates empty-sphere legality"));
                                                    proof {
                                                        assert(violations@.map_values(|v: TdsGeometricViolationD| v@) =~= before.map_values(|v: TdsGeometricViolationD| v@).push(violations@.last()@));
                                                    }
                                                }
                                            },
                                        }
                                    }
                                },
                            }
                            proof {
                                tally = sphere_tally(vertices, *cell, c as int, orientation, d, policy, start, v + 1);
                            }
                            v = v + 1;
                        }
                    },
                }
            }
            proof {
                assert(c * nv + nv == (c + 1) * nv) by (nonlinear_arith);
                assert(c * nv <= (c + 1) * nv) by (nonlinear_arith);
                tally = geometric_tally(vertices, cells, d, policy, c + 1);
            }
            c = c + 1;
        }
        TdsGeometricValidationReportD::from_parts(finite, positive, negative, cospherical, violations)
    }
}

/// A facet record: the facet's sorted vertex indices, its cell, and the
/// opposite slot.
pub type FacetRecord = (Seq<usize>, usize, usize);

/// Facet records of the cells below `m`, cell by cell and slot by slot.
pub open spec fn facet_records(cells: Seq<Cell>, m: int) -> Seq<FacetRecord>
    decreases m,
{
    if m <= 0 {
        Seq::empty()
    } else {
        let vs = cells[m - 1].vertices_view();
        facet_records(cells, m - 1) + Seq::new(vs.len(), |t: int| (facet_indices(vs, t), (m - 1) as usize, t as usize))
    }
}

/// Whether some record has facet key `key`.
pub open spec fn record_has_key(records: Seq<FacetRecord>, key: Seq<usize>) -> bool {
    exists|i: int| 0 <= i < records.len() && (#[trigger] records[i]).0 == key
}

/// The cells and slots of the records with facet key `key`, in order.
pub open spec fn incidences(records: Seq<FacetRecord>, key: Seq<usize>) -> Seq<(usize, usize)>
    decreases records.len(),
{
    if records.len() == 0 {
        Seq::empty()
    } else if records.last().0 == key {
        incidences(records.drop_last(), key).push((records.last().1, records.last().2))
    } else {
        incidences(records.drop_last(), key)
    }
}

/// Strictly increasing in lexicographic order.
pub open spec fn lex_strictly_sorted(keys: Seq<Seq<usize>>) -> bool {
    forall|i: int, j: int| 0 <= i < j < keys.len() ==> lex_le(#[trigger] keys[i], #[trigger] keys[j]) && keys[i] != keys[j]
}

/// Whether every vertex of a facet key is a finite vertex of the table.
pub open spec fn key_finite(vertices: Seq<VertexD>, key: Seq<usize>) -> bool {
    forall|i: int| 0 <= i < key.len() ==> #[trigger] key[i] < vertices.len() && vertices[key[i] as int].point_view() is Some
}

/// First position of `v` in `key` from `i` on, or `usize::MAX`.
pub open spec fn key_position(key: Seq<usize>, v: usize, i: int) -> usize
    decreases key.len() - i,
{
    if i < 0 || i >= key.len() {
        usize::MAX
    } else if key[i] == v {
        i as usize
    } else {
        key_position(key, v, i + 1)
    }
}

/// Number of `a < a_end` with `p[a] > p[b]`.
pub open spec fn inverted_before(p: Seq<usize>, b: int, a_end: int) -> int
    decreases a_end,
{
    if a_end <= 0 { 0 } else { inverted_before(p, b, a_end - 1) + if p[a_end - 1] > p[b] { 1int } else { 0int } }
}

/// Number of inverted pairs among the first `m` entries.
pub open spec fn inversions_below(p: Seq<usize>, m: int) -> int
    decreases m,
{
    if m <= 0 { 0 } else { inversions_below(p, m - 1) + inverted_before(p, m - 1, m - 1) }
}

/// The orientation a cell induces on its facet opposite `slot`: the parity
/// of the permutation taking the facet's vertices in cell order to the
/// sorted key, flipped for an odd slot.
pub open spec fn induced_orientation(vs: Seq<VertexHandle>, slot: int, key: Seq<usize>) -> bool {
    let face = without_position(handle_indices(vs), slot);
    let positions = face.map_values(|v: usize| key_position(key, v, 0));
    (inversions_below(positions, positions.len() as int) % 2 == 1) != (slot % 2 == 1)
}

/// Counts of the manifold pass (finite facets, boundary facets, interior
/// facets) and its violations.
pub type ManifoldTally = (int, int, int, Seq<ManifoldViolationView>);

/// The manifold pass over one facet key.
pub open spec fn key_tally(vertices: Seq<VertexD>, cells: Seq<Cell>, records: Seq<FacetRecord>, policy: TdsBoundaryPolicyD, key: Seq<usize>, t: ManifoldTally) -> ManifoldTally {
    if !key_finite(vertices, key) {
        t
    } else {
        let inc = incidences(records, key);
        if inc.len() == 1 {
            if policy == TdsBoundaryPolicyD::Closed {
                (t.0 + 1, t.1 + 1, t.2, t.3.push((Some(key), seq![inc[0].0], "finite facet has boundary degree under closed policy"@)))
            } else {
                (t.0 + 1, t.1 + 1, t.2, t.3)
            }
        } else if inc.len() == 2 {
            if induced_orientation(cells[inc[0].0 as int].vertices_view(), inc[0].1 as int, key)
                == induced_orientation(cells[inc[1].0 as int].vertices_view(), inc[1].1 as int, key) {
                (t.0 + 1, t.1, t.2 + 1, t.3.push((Some(key), seq![inc[0].0, inc[1].0], "adjacent cells have the same induced facet orientation"@)))
            } else {
                (t.0 + 1, t.1, t.2 + 1, t.3)
            }
        } else {
            (t.0 + 1, t.1, t.2, t.3.push((Some(key), inc.map_values(|x: (usize, usize)| x.0), "finite facet has degree greater than two"@)))
        }
    }
}

/// The manifold pass over the first `m` keys.
pub open spec fn manifold_tally(vertices: Seq<VertexD>, cells: Seq<Cell>, records: Seq<FacetRecord>, policy: TdsBoundaryPolicyD, keys: Seq<Seq<usize>>, m: int) -> ManifoldTally
    decreases m,
{
    if m <= 0 {
        (0, 0, 0, Seq::empty())
    } else {
        key_tally(vertices, cells, records, policy, keys[m - 1], manifold_tally(vertices, cells, records, policy, keys, m - 1))
    }
}

/// What the manifold report states: refusal when combinatorial validation
/// fails; otherwise the manifold pass over the distinct facet keys in
/// increasing lexicographic order.
pub open spec fn manifold_outcome(vertices: Seq<VertexD>, cells: Seq<Cell>, policy: TdsBoundaryPolicyD, tally: ManifoldTally) -> bool {
    let records = facet_records(cells, cells.len() as int);
    if link_violations(cells, cells.len() as int).len() > 0 {
        tally == (0int, 0int, 0int, seq![(None::<Seq<usize>>, Seq::<usize>::empty(), "TDS combinatorial validation must pass before manifold validation"@)])
    } else {
        exists|keys: Seq<Seq<usize>>| {
            &&& lex_strictly_sorted(keys)
            &&& forall|k: Seq<usize>| keys.contains(k) <==> #[trigger] record_has_key(records, k)
            &&& tally == #[trigger] manifold_tally(vertices, cells, records, policy, keys, keys.len() as int)
        }
    }
}

/// How many of the violations report a finite facet of degree greater
/// than two.
pub open spec fn degree_violation_count(violations: Seq<ManifoldViolationView>) -> int
    decreases violations.len(),
{
    if violations.len() == 0 {
        0
    } else {
        degree_violation_count(violations.drop_last())
            + if violations.last().2 == "finite facet has degree greater than two"@ { 1int } else { 0int }
    }
}

/// Pushing a violation adds one to the count exactly when it reports a
/// facet of degree greater than two.
proof fn lemma_degree_count_push(violations: Seq<ManifoldViolationView>, v: ManifoldViolationView)
    ensures
        degree_violation_count(violations.push(v)) == degree_violation_count(violations)
            + if v.2 == "finite facet has degree greater than two"@ { 1int } else { 0int },
{
    assert(violations.push(v).drop_last() =~= violations);
}

/// The manifold tally over the first `m` keys counts every finite facet
/// once: as a boundary facet, an interior facet, or a facet of degree
/// greater than two.
proof fn lemma_tally_counts(vertices: Seq<VertexD>, cells: Seq<Cell>, records: Seq<FacetRecord>, policy: TdsBoundaryPolicyD, keys: Seq<Seq<usize>>, m: int)
    ensures
        ({
            let t = manifold_tally(vertices, cells, records, policy, keys, m);
            t.0 == t.1 + t.2 + degree_violation_count(t.3)
        }),
    decreases m,
{
    reveal_strlit("finite facet has degree greater than two");
    reveal_strlit("finite facet has boundary degree under closed policy");
    reveal_strlit("adjacent cells have the same induced facet orientation");
    if m > 0 {
        lemma_tally_counts(vertices, cells, records, policy, keys, m - 1);
        let t = manifold_tally(vertices, cells, records, policy, keys, m - 1);
        let key = keys[m - 1];
        if key_finite(vertices, key) {
            let inc = incidences(records, key);
            let boundary_msg = "finite facet has boundary degree under closed policy"@;
            let orientation_msg = "adjacent cells have the same induced facet orientation"@;
            let degree_msg = "finite facet has degree greater than two"@;
            assert(boundary_msg[17] != degree_msg[17]);
            assert(orientation_msg[0] != degree_msg[0]);
            lemma_degree_count_push(t.3, (Some(key), seq![inc[0].0], boundary_msg));
            if inc.len() >= 2 {
                lemma_degree_count_push(t.3, (Some(key), seq![inc[0].0, inc[1].0], orientation_msg));
            }
            lemma_degree_count_push(t.3, (Some(key), inc.map_values(|x: (usize, usize)| x.0), degree_msg));
        }
    }
}

/// Manifold report counts: every finite facet the report counts is a
/// boundary facet, an interior facet, or reported as having degree greater
/// than two.
pub proof fn lemma_manifold_counts(vertices: Seq<VertexD>, cells: Seq<Cell>, policy: TdsBoundaryPolicyD, tally: ManifoldTally)
    requires
        manifold_outcome(vertices, cells, policy, tally),
    ensures
        tally.0 == tally.1 + tally.2 + degree_violation_count(tally.3),
{
    reveal_strlit("TDS combinatorial validation must pass before manifold validation");
    reveal_strlit("finite facet has degree greater than two");
    let records = facet_records(cells, cells.len() as int);
    if link_violations(cells, cells.len() as int).len() > 0 {
        let msg = "TDS combinatorial validation must pass before manifold validation"@;
        let degree_msg = "finite facet has degree greater than two"@;
        assert(msg[0] != degree_msg[0]);
        let single = seq![(None::<Seq<usize>>, Seq::<usize>::empty(), msg)];
        lemma_degree_count_push(Seq::<ManifoldViolationView>::empty(), (None::<Seq<usize>>, Seq::<usize>::empty(), msg));
        assert(Seq::<ManifoldViolationView>::empty().push((None::<Seq<usize>>, Seq::<usize>::empty(), msg)) =~= single);
    } else {
        let keys = choose|keys: Seq<Seq<usize>>| {
            &&& lex_strictly_sorted(keys)
            &&& forall|k: Seq<usize>| keys.contains(k) <==> #[trigger] record_has_key(records, k)
            &&& tally == #[trigger] manifold_tally(vertices, cells, records, policy, keys, keys.len() as int)
        };
        lemma_tally_counts(vertices, cells, records, policy, keys, keys.len() as int);
    }
}

/// Under the closed policy, a finite facet key passes when it lies in
/// exactly two cells that induce opposite orientations on it.
pub open spec fn closed_key_ok(vertices: Seq<VertexD>, cells: Seq<Cell>, records: Seq<FacetRecord>, key: Seq<usize>) -> bool {
    key_finite(vertices, key) ==> {
        let inc = incidences(records, key);
        &&& inc.len() == 2
        &&& induced_orientation(cells[inc[0].0 as int].vertices_view(), inc[0].1 as int, key)
            != induced_orientation(cells[inc[1].0 as int].vertices_view(), inc[1].1 as int, key)
    }
}

/// A closed manifold pass without violations over the first `m` keys passed
/// every one of them.
proof fn lemma_closed_tally_clean(vertices: Seq<VertexD>, cells: Seq<Cell>, records: Seq<FacetRecord>, keys: Seq<Seq<usize>>, m: int)
    requires
        manifold_tally(vertices, cells, records, TdsBoundaryPolicyD::Closed, keys, m).3.len() == 0,
    ensures
        forall|j: int| 0 <= j < m ==> closed_key_ok(vertices, cells, records, #[trigger] keys[j]),
    decreases m,
{
    if m > 0 {
        let t = manifold_tally(vertices, cells, records, TdsBoundaryPolicyD::Closed, keys, m - 1);
        assert(t.3.len() == 0);
        lemma_closed_tally_clean(vertices, cells, records, keys, m - 1);
    }
}

/// A valid manifold report under the closed policy: combinatorial
/// validation passed, and every finite facet key of the cells lies in
/// exactly two cells that induce opposite orientations on it.
pub proof fn lemma_closed_report_valid(vertices: Seq<VertexD>, cells: Seq<Cell>, tally: ManifoldTally)
    requires
        manifold_outcome(vertices, cells, TdsBoundaryPolicyD::Closed, tally),
        tally.3.len() == 0,
    ensures
        link_violations(cells, cells.len() as int).len() == 0,
        forall|key: Seq<usize>| #[trigger] record_has_key(facet_records(cells, cells.len() as int), key)
            ==> closed_key_ok(vertices, cells, facet_records(cells, cells.len() as int), key),
{
    let records = facet_records(cells, cells.len() as int);
    if link_violations(cells, cells.len() as int).len() == 0 {
        let keys = choose|keys: Seq<Seq<usize>>| {
            &&& lex_strictly_sorted(keys)
            &&& forall|k: Seq<usize>| keys.contains(k) <==> #[trigger] record_has_key(records, k)
            &&& tally == #[trigger] manifold_tally(vertices, cells, records, TdsBoundaryPolicyD::Closed, keys, keys.len() as int)
        };
        lemma_closed_tally_clean(vertices, cells, records, keys, keys.len() as int);
        assert forall|key: Seq<usize>| #[trigger] record_has_key(records, key) implies closed_key_ok(vertices, cells, records, key) by {
            assert(keys.contains(key));
            let j = choose|j: int| 0 <= j < keys.len() && keys[j] == key;
            assert(closed_key_ok(vertices, cells, records, keys[j]));
        }
    }
}

/// Two strictly sorted key lists holding the same keys are equal.
proof fn lemma_strictly_sorted_unique(x: Seq<Seq<usize>>, y: Seq<Seq<usize>>)
    requires
        lex_strictly_sorted(x),
        lex_strictly_sorted(y),
        forall|k: Seq<usize>| x.contains(k) <==> y.contains(k),
    ensures
        x == y,
    decreases x.len(),
{
    if x.len() == 0 {
        if y.len() > 0 {
            assert(y.contains(y[0]));
        }
        assert(x =~= y);
    } else if y.len() == 0 {
        assert(x.contains(x[0]));
    } else {
        assert(x.contains(x[0]));
        assert(y.contains(y[0]));
        let i = choose|i: int| 0 <= i < x.len() && x[i] == y[0];
        let j = choose|j: int| 0 <= j < y.len() && y[j] == x[0];
        if i > 0 {
            assert(lex_le(x[0], x[i]));
        } else {
            lemma_lex_reflexive(x[0]);
        }
        if j > 0 {
            assert(lex_le(y[0], y[j]));
        } else {
            lemma_lex_reflexive(y[0]);
        }
        lemma_lex_antisymmetric(x[0], y[0]);
        let xt = x.drop_first();
        let yt = y.drop_first();
        assert forall|k: Seq<usize>| xt.contains(k) <==> yt.contains(k) by {
            if xt.contains(k) {
                let a = choose|a: int| 0 <= a < xt.len() && xt[a] == k;
                assert(x[a + 1] == k);
                assert(x[0] != x[a + 1]);
                assert(y.contains(k));
                let b = choose|b: int| 0 <= b < y.len() && y[b] == k;
                assert(b != 0);
                assert(yt[b - 1] == k);
            }
            if yt.contains(k) {
                let a = choose|a: int| 0 <= a < yt.len() && yt[a] == k;
                assert(y[a + 1] == k);
                assert(y[0] != y[a + 1]);
                assert(x.contains(k));
                let b = choose|b: int| 0 <= b < x.len() && x[b] == k;
                assert(b != 0);
                assert(xt[b - 1] == k);
            }
        }
        assert(lex_strictly_sorted(xt)) by {
            assert forall|a: int, b: int| 0 <= a < b < xt.len() implies lex_le(#[trigger] xt[a], #[trigger] xt[b]) && xt[a] != xt[b] by {
                assert(xt[a] == x[a + 1] && xt[b] == x[b + 1]);
            }
        }
        assert(lex_strictly_sorted(yt)) by {
            assert forall|a: int, b: int| 0 <= a < b < yt.len() implies lex_le(#[trigger] yt[a], #[trigger] yt[b]) && yt[a] != yt[b] by {
                assert(yt[a] == y[a + 1] && yt[b] == y[b + 1]);
            }
        }
        lemma_strictly_sorted_unique(xt, yt);
        assert(x =~= y) by {
            assert forall|a: int| 0 <= a < x.len() implies x[a] == y[a] by {
                if a > 0 {
                    assert(x[a] == xt[a - 1] && y[a] == yt[a - 1]);
                }
            }
        }
    }
}

/// The manifold tally of a TDS under a boundary policy: the one that
/// `manifold_outcome` admits.
pub open spec fn manifold_tally_of(vertices: Seq<VertexD>, cells: Seq<Cell>, policy: TdsBoundaryPolicyD) -> ManifoldTally {
    choose|tally: ManifoldTally| manifold_outcome(vertices, cells, policy, tally)
}

/// Any tally the manifold outcome admits is the manifold tally.
proof fn lemma_manifold_tally_of(vertices: Seq<VertexD>, cells: Seq<Cell>, policy: TdsBoundaryPolicyD, tally: ManifoldTally)
    requires
        manifold_outcome(vertices, cells, policy, tally),
    ensures
        manifold_tally_of(vertices, cells, policy) == tally,
{
    lemma_manifold_outcome_unique(vertices, cells, policy, tally, manifold_tally_of(vertices, cells, policy));
}

/// The manifold outcome of a TDS under a boundary policy is unique: the
/// facet counts and violations of the manifold report, and so the
/// fail-fast manifold validation, are functions of the TDS and the policy.
pub proof fn lemma_manifold_outcome_unique(vertices: Seq<VertexD>, cells: Seq<Cell>, policy: TdsBoundaryPolicyD, a: ManifoldTally, b: ManifoldTally)
    requires
        manifold_outcome(vertices, cells, policy, a),
        manifold_outcome(vertices, cells, policy, b),
    ensures
        a == b,
{
    if link_violations(cells, cells.len() as int).len() == 0 {
        let records = facet_records(cells, cells.len() as int);
        let ka = choose|keys: Seq<Seq<usize>>| {
            &&& lex_strictly_sorted(keys)
            &&& forall|k: Seq<usize>| keys.contains(k) <==> #[trigger] record_has_key(records, k)
            &&& a == #[trigger] manifold_tally(vertices, cells, records, policy, keys, keys.len() as int)
        };
        let kb = choose|keys: Seq<Seq<usize>>| {
            &&& lex_strictly_sorted(keys)
            &&& forall|k: Seq<usize>| keys.contains(k) <==> #[trigger] record_has_key(records, k)
            &&& b == #[trigger] manifold_tally(vertices, cells, records, policy, keys, keys.len() as int)
        };
        assert forall|k: Seq<usize>| ka.contains(k) <==> kb.contains(k) by {
            assert(ka.contains(k) <==> record_has_key(records, k));
            assert(kb.contains(k) <==> record_has_key(records, k));
        }
        lemma_strictly_sorted_unique(ka, kb);
    }
}

proof fn lemma_facet_records_shape(cells: Seq<Cell>, m: int)
    requires
        0 <= m <= cells.len(),
        cells.len() <= usize::MAX,
        forall|c: int| 0 <= c < cells.len() ==> (#[trigger] cells[c]).vertices_view().len() <= usize::MAX + 1,
    ensures
        forall|i: int| 0 <= i < facet_records(cells, m).len() ==> {
            let r = #[trigger] facet_records(cells, m)[i];
            &&& r.1 < m
            &&& r.2 < cells[r.1 as int].vertices_view().len()
            &&& r.0 == facet_indices(cells[r.1 as int].vertices_view(), r.2 as int)
        },
    decreases m,
{
    if m > 0 {
        lemma_facet_records_shape(cells, m - 1);
        let prior = facet_records(cells, m - 1);
        let vs = cells[m - 1].vertices_view();
        assert forall|i: int| 0 <= i < facet_records(cells, m).len() implies {
            let r = #[trigger] facet_records(cells, m)[i];
            &&& r.1 < m
            &&& r.2 < cells[r.1 as int].vertices_view().len()
            &&& r.0 == facet_indices(cells[r.1 as int].vertices_view(), r.2 as int)
        } by {
            if i < prior.len() {
                assert(facet_records(cells, m)[i] == prior[i]);
            } else {
                let t = i - prior.len();
                assert(facet_records(cells, m)[i] == (facet_indices(vs, t), (m - 1) as usize, t as usize));
            }
        }
    }
}

proof fn lemma_incidences_nonempty(records: Seq<FacetRecord>, key: Seq<usize>)
    requires
        record_has_key(records, key),
    ensures
        incidences(records, key).len() > 0,
    decreases records.len(),
{
    if records.last().0 != key {
        let j = choose|j: int| 0 <= j < records.len() && (#[trigger] records[j]).0 == key;
        assert(records.drop_last()[j] == records[j]);
        lemma_incidences_nonempty(records.drop_last(), key);
    }
}

/// Position of `v` in `key`, or `usize::MAX`.
fn position_in_key(key: &[usize], v: usize) -> (r: usize)
    ensures
        r == key_position(key@, v, 0),
{
    let mut i: usize = 0;
    while i < key.len()
        invariant
            0 <= i <= key@.len(),
            key_position(key@, v, 0) == key_position(key@, v, i as int),
        decreases key.len() - i,
    {
        if key[i] == v {
            return i;
        }
        i = i + 1;
    }
    usize::MAX
}

/// The orientation a cell induces on its facet opposite `slot` relative to
/// the sorted key.
fn induced_facet_orientation(cell: &Cell, slot: usize, key: &[usize]) -> (r: bool)
    ensures
        r == induced_orientation(cell.vertices_view(), slot as int, key@),
{
    let indices = indices_of(cell.vertices());
    let face = copy_without_position(indices.as_slice(), slot);
    let ghost positions = face@.map_values(|v: usize| key_position(key@, v, 0));
    let mut pos: Vec<usize> = Vec::new();
    let mut i: usize = 0;
    while i < face.len()
        invariant
            0 <= i <= face@.len(),
            positions == face@.map_values(|v: usize| key_position(key@, v, 0)),
            pos@ == positions.subrange(0, i as int),
        decreases face.len() - i,
    {
        pos.push(position_in_key(key, face[i]));
        proof {
            assert(positions.subrange(0, i + 1) =~= positions.subrange(0, i as int).push(positions[i as int]));
        }
        i = i + 1;
    }
    proof {
        assert(positions.subrange(0, positions.len() as int) =~= positions);
    }
    let n = pos.len();
    let mut parity = false;
    let mut b: usize = 0;
    while b < n
        invariant
            0 <= b <= n,
            n == pos@.len(),
            pos@ == positions,
            parity == (inversions_below(positions, b as int) % 2 == 1),
        decreases n - b,
    {
        let mut a: usize = 0;
        while a < b
            invariant
                0 <= a <= b < n,
                n == pos@.len(),
                pos@ == positions,
                parity == ((inversions_below(positions, b as int) + inverted_before(positions, b as int, a as int)) % 2 == 1),
            decreases b - a,
        {
            if pos[a] > pos[b] {
                parity = !parity;
            }
            a = a + 1;
        }
        b = b + 1;
    }
    proof {
        assert(handle_indices(cell.vertices_view()) == indices@);
    }
    parity != (slot % 2 == 1)
}

/// Facet records of a record vector.
pub open spec fn record_views(records: Seq<(Vec<usize>, usize, usize)>) -> Seq<FacetRecord> {
    records.map_values(|r: (Vec<usize>, usize, usize)| (r.0@, r.1, r.2))
}

proof fn lemma_incidences_from_records(records: Seq<FacetRecord>, key: Seq<usize>)
    ensures
        forall|x: int| 0 <= x < incidences(records, key).len() ==> exists|i: int| 0 <= i < records.len()
            && #[trigger] records[i] == (key, (#[trigger] incidences(records, key)[x]).0, incidences(records, key)[x].1),
    decreases records.len(),
{
    if records.len() > 0 {
        lemma_incidences_from_records(records.drop_last(), key);
        let prior = incidences(records.drop_last(), key);
        assert forall|x: int| 0 <= x < incidences(records, key).len() implies exists|i: int| 0 <= i < records.len()
            && #[trigger] records[i] == (key, (#[trigger] incidences(records, key)[x]).0, incidences(records, key)[x].1) by {
            if x < prior.len() {
                assert(incidences(records, key)[x] == prior[x]);
                let i = choose|i: int| 0 <= i < records.drop_last().len() && #[trigger] records.drop_last()[i] == (key, prior[x].0, prior[x].1);
                assert(records[i] == records.drop_last()[i]);
            } else {
                assert(records[records.len() - 1] == (key, incidences(records, key)[x].0, incidences(records, key)[x].1));
            }
        }
    }
}

/// Distinct keys of the records, in increasing lexicographic order.
#[verifier::loop_isolation(false)]
fn distinct_sorted_keys(records: &Vec<(Vec<usize>, usize, usize)>) -> (r: Vec<Vec<usize>>)
    ensures
        lex_strictly_sorted(list_views(r@)),
        forall|k: Seq<usize>| list_views(r@).contains(k) <==> #[trigger] record_has_key(record_views(records@), k),
{
    let ghost recs = record_views(records@);
    let mut keys: Vec<Vec<usize>> = Vec::new();
    let mut i: usize = 0;
    while i < records.len()
        invariant
            0 <= i <= recs.len(),
            lex_strictly_sorted(list_views(keys@)),
            forall|k: Seq<usize>| list_views(keys@).contains(k) <==> #[trigger] record_has_key(recs.subrange(0, i as int), k),
        decreases records.len() - i,
    {
        let key = records[i].0.as_slice();
        assert(key@ == recs[i as int].0);
        let ghost kv = list_views(keys@);
        let mut p: usize = 0;
        while p < keys.len() && !lex_less_eq(key, keys[p].as_slice())
            invariant
                0 <= p <= keys@.len(),
                kv == list_views(keys@),
                forall|j: int| 0 <= j < p ==> lex_le(#[trigger] kv[j], key@) && kv[j] != key@,
            decreases keys.len() - p,
        {
            proof {
                lemma_lex_total(key@, kv[p as int]);
            }
            p = p + 1;
        }
        let present = p < keys.len() && lists_equal(keys[p].as_slice(), key);
        if !present {
            keys.insert(p, copy_usizes(key));
            proof {
                let nk = list_views(keys@);
                assert(nk =~= kv.insert(p as int, key@));
                assert forall|a: int, b: int| 0 <= a < b < nk.len() implies lex_le(#[trigger] nk[a], #[trigger] nk[b]) && nk[a] != nk[b] by {
                    if b == p {
                        assert(nk[a] == kv[a]);
                    } else if a == p {
                        assert(nk[b] == kv[b - 1]);
                        assert(lex_le(key@, kv[p as int]));
                        if b - 1 > p {
                            assert(lex_le(kv[p as int], kv[b - 1]));
                            lemma_lex_transitive(key@, kv[p as int], kv[b - 1]);
                        }
                        if key@ == kv[b - 1] {
                            if b - 1 > p {
                                lemma_lex_antisymmetric(kv[p as int], key@);
                            }
                        }
                    } else if a < p && b > p {
                        assert(nk[a] == kv[a]);
                        assert(nk[b] == kv[b - 1]);
                        assert(lex_le(key@, kv[p as int]));
                        if b - 1 > p {
                            lemma_lex_transitive(key@, kv[p as int], kv[b - 1]);
                        }
                        lemma_lex_transitive(kv[a], key@, kv[b - 1]);
                        if kv[a] == kv[b - 1] {
                            lemma_lex_antisymmetric(kv[a], key@);
                        }
                    } else if a > p {
                        assert(nk[a] == kv[a - 1]);
                        assert(nk[b] == kv[b - 1]);
                    } else {
                        assert(nk[a] == kv[a]);
                        assert(nk[b] == kv[b]);
                    }
                }
            }
        }
        proof {
            let nk = list_views(keys@);
            let sub = recs.subrange(0, i + 1);
            assert forall|k: Seq<usize>| nk.contains(k) <==> #[trigger] record_has_key(sub, k) by {
                if record_has_key(sub, k) {
                    let j = choose|j: int| 0 <= j < sub.len() && (#[trigger] sub[j]).0 == k;
                    if j < i {
                        assert(recs.subrange(0, i as int)[j] == sub[j]);
                        assert(record_has_key(recs.subrange(0, i as int), k));
                        assert(kv.contains(k));
                        let q = choose|q: int| 0 <= q < kv.len() && kv[q] == k;
                        if !present {
                            if q < p { assert(nk[q] == k); } else { assert(nk[q + 1] == k); }
                        }
                    } else {
                        if present {
                            assert(kv[p as int] == k);
                        } else {
                            assert(nk[p as int] == k);
                        }
                    }
                }
                if nk.contains(k) {
                    let q = choose|q: int| 0 <= q < nk.len() && nk[q] == k;
                    if !present && q == p {
                        assert(sub[i as int].0 == k);
                    } else {
                        let q0 = if !present && q > p { q - 1 } else { q };
                        assert(kv[q0] == k);
                        assert(kv.contains(k));
                        assert(record_has_key(recs.subrange(0, i as int), k));
                        let j = choose|j: int| 0 <= j < i && (#[trigger] recs.subrange(0, i as int)[j]).0 == k;
                        assert(sub[j] == recs.subrange(0, i as int)[j]);
                    }
                }
            }
        }
        i = i + 1;
    }
    proof {
        assert(recs.subrange(0, recs.len() as int) =~= recs);
    }
    keys
}

/// The cells and slots of the records with facet key `key`.
fn key_incidences(records: &Vec<(Vec<usize>, usize, usize)>, key: &[usize]) -> (r: Vec<(usize, usize)>)
    ensures
        r@ == incidences(record_views(records@), key@),
{
    let ghost recs = record_views(records@);
    let mut inc: Vec<(usize, usize)> = Vec::new();
    let mut r: usize = 0;
    while r < records.len()
        invariant
            0 <= r <= recs.len(),
            recs == record_views(records@),
            inc@ == incidences(recs.subrange(0, r as int), key@),
        decreases records.len() - r,
    {
        proof {
            assert(recs.subrange(0, r + 1).drop_last() =~= recs.subrange(0, r as int));
        }
        if lists_equal(records[r].0.as_slice(), key) {
            inc.push((records[r].1, records[r].2));
        }
        r = r + 1;
    }
    proof {
        assert(recs.subrange(0, recs.len() as int) =~= recs);
    }
    inc
}

impl TriangulationDataStructureD {
    /// Facet records of every cell, cell by cell and slot by slot.
    fn facet_record_list(&self) -> (r: Vec<(Vec<usize>, usize, usize)>)
        ensures
            record_views(r@) == facet_records(self.cells_view(), self.cells_view().len() as int),
    {
        let ghost cells = self.cells@;
        let mut records: Vec<(Vec<usize>, usize, usize)> = Vec::new();
        let mut c: usize = 0;
        while c < self.cells.len()
            invariant
                0 <= c <= cells.len(),
                cells == self.cells@,
                record_views(records@) == facet_records(cells, c as int),
            decreases self.cells.len() - c,
        {
            let cell = &self.cells[c];
            let ghost base = facet_records(cells, c as int);
            let mut slot: usize = 0;
            while slot < cell.vertices().len()
                invariant
                    0 <= slot <= cell.vertices_view().len(),
                    *cell == cells[c as int],
                    record_views(records@) == base + Seq::new(slot as nat, |t: int| (facet_indices(cell.vertices_view(), t), c, t as usize)),
                decreases cell.vertices_view().len() - slot,
            {
                let key = indices_of(facet_vertex_set(cell, slot).as_slice());
                let ghost before = records@;
                records.push((key, c, slot));
                proof {
                    assert(record_views(records@) =~= record_views(before).push((key@, c, slot)));
                    assert(base + Seq::new((slot + 1) as nat, |t: int| (facet_indices(cell.vertices_view(), t), c, t as usize))
                        =~= (base + Seq::new(slot as nat, |t: int| (facet_indices(cell.vertices_view(), t), c, t as usize))).push((key@, c, slot)));
                }
                slot = slot + 1;
            }
            c = c + 1;
        }
        records
    }

    /// The manifold pass over one facet key.
    #[verifier::loop_isolation(false)]
    fn tally_key(
        &self,
        records: &Vec<(Vec<usize>, usize, usize)>,
        key: &[usize],
        boundary_policy: TdsBoundaryPolicyD,
        finite: &mut usize,
        boundary: &mut usize,
        interior: &mut usize,
        violations: &mut Vec<TdsManifoldViolationD>,
    )
        requires
            record_views(records@) == facet_records(self.cells_view(), self.cells_view().len() as int),
            record_has_key(record_views(records@), key@),
            *old(finite) < usize::MAX,
            *old(boundary) < usize::MAX,
            *old(interior) < usize::MAX,
        ensures
            (*final(finite) as int, *final(boundary) as int, *final(interior) as int, final(violations)@.map_values(|v: TdsManifoldViolationD| v@))
                == key_tally(self.vertices_view(), self.cells_view(), record_views(records@), boundary_policy, key@,
                    (*old(finite) as int, *old(boundary) as int, *old(interior) as int, old(violations)@.map_values(|v: TdsManifoldViolationD| v@))),
    {
        proof { use_type_invariant(self); }
        let ghost vertices = self.vertices@;
        let ghost cells = self.cells@;
        let ghost recs = record_views(records@);
        let mut is_finite = true;
        let mut j: usize = 0;
        while j < key.len()
            invariant
                0 <= j <= key@.len(),
                is_finite == (forall|x: int| 0 <= x < j ==> #[trigger] key@[x] < vertices.len() && vertices[key@[x] as int].point_view() is Some),
            decreases key.len() - j,
        {
            if key[j] >= self.vertices.len() || self.vertices[key[j]].point().is_none() {
                is_finite = false;
            }
            j = j + 1;
        }
        if !is_finite {
            return;
        }
        let inc = key_incidences(records, key);
        let cell_count = self.cells.len();
        proof {
            assert(cells.len() == cell_count);
            lemma_incidences_nonempty(recs, key@);
            assert forall|c: int| 0 <= c < cells.len() implies (#[trigger] cells[c]).vertices_view().len() <= usize::MAX + 1 by {
                lemma_cell_handles_in_bounds(cells[c], vertices.len() as int, self.dimension as int);
            }
            lemma_facet_records_shape(cells, cells.len() as int);
            lemma_incidences_from_records(recs, key@);
            assert forall|x: int| 0 <= x < inc@.len() implies (#[trigger] inc@[x]).0 < cells.len()
                && inc@[x].1 < cells[inc@[x].0 as int].vertices_view().len()
                && facet_indices(cells[inc@[x].0 as int].vertices_view(), inc@[x].1 as int) == key@ by {
                let i = choose|i: int| 0 <= i < recs.len() && #[trigger] recs[i] == (key@, inc@[x].0, inc@[x].1);
                assert(recs[i] == facet_records(cells, cells.len() as int)[i]);
            }
        }
        *finite = *finite + 1;
        let facet = FacetKey::new(facet_vertex_set(&self.cells[inc[0].0], inc[0].1));
        proof {
            let vs = cells[inc@[0].0 as int].vertices_view();
            let kept = if 0 <= inc@[0].1 < vs.len() { vs.remove(inc@[0].1 as int) } else { vs };
            lemma_sort_idempotent(handle_indices(kept));
        }
        let ghost before = violations@;
        if inc.len() == 1 {
            *boundary = *boundary + 1;
            if boundary_policy == TdsBoundaryPolicyD::Closed {
                let mut cell_list: Vec<CellHandle> = Vec::new();
                cell_list.push(CellHandle::new(inc[0].0));
                violations.push(TdsManifoldViolationD::new(Some(facet), cell_list, "finite facet has boundary degree under closed policy"));
                proof {
                    assert(violations@.map_values(|v: TdsManifoldViolationD| v@) =~= before.map_values(|v: TdsManifoldViolationD| v@).push(violations@.last()@));
                    assert(cell_list@.map_values(|c: CellHandle| c@) =~= seq![inc@[0].0]);
                }
            }
        } else if inc.len() == 2 {
            *interior = *interior + 1;
            let first = induced_facet_orientation(&self.cells[inc[0].0], inc[0].1, key);
            let second = induced_facet_orientation(&self.cells[inc[1].0], inc[1].1, key);
            if first == second {
                let mut cell_list: Vec<CellHandle> = Vec::new();
                cell_list.push(CellHandle::new(inc[0].0));
                cell_list.push(CellHandle::new(inc[1].0));
                violations.push(TdsManifoldViolationD::new(Some(facet), cell_list, "adjacent cells have the same induced facet orientation"));
                proof {
                    assert(violations@.map_values(|v: TdsManifoldViolationD| v@) =~= before.map_values(|v: TdsManifoldViolationD| v@).push(violations@.last()@));
                    assert(cell_list@.map_values(|c: CellHandle| c@) =~= seq![inc@[0].0, inc@[1].0]);
                }
            }
        } else {
            let mut cell_list: Vec<CellHandle> = Vec::new();
            let mut x: usize = 0;
            while x < inc.len()
                invariant
                    0 <= x <= inc@.len(),
                    cell_list@.map_values(|c: CellHandle| c@) == inc@.subrange(0, x as int).map_values(|y: (usize, usize)| y.0),
                decreases inc.len() - x,
            {
                let ghost cells_before = cell_list@;
                cell_list.push(CellHandle::new(inc[x].0));
                proof {
                    assert(cell_list@.map_values(|c: CellHandle| c@) =~= cells_before.map_values(|c: CellHandle| c@).push(inc@[x as int].0));
                    assert(inc@.subrange(0, x + 1).map_values(|y: (usize, usize)| y.0) =~= inc@.subrange(0, x as int).map_values(|y: (usize, usize)| y.0).push(inc@[x as int].0));
                }
                x = x + 1;
            }
            proof {
                assert(inc@.subrange(0, inc@.len() as int) =~= inc@);
            }
            violations.push(TdsManifoldViolationD::new(Some(facet), cell_list, "finite facet has degree greater than two"));
            proof {
                assert(violations@.map_values(|v: TdsManifoldViolationD| v@) =~= before.map_values(|v: TdsManifoldViolationD| v@).push(violations@.last()@));
            }
        }
    }

    /// Builds a local finite-facet manifold validation report: every finite
    /// facet key in lexicographic order, with its degree checked against
    /// the boundary policy and its two cells' induced orientations compared.
    #[verifier::loop_isolation(false)]
    pub fn validate_manifold_report(&self, boundary_policy: TdsBoundaryPolicyD) -> (r: TdsManifoldValidationReportD)
        ensures
            r.boundary_policy_view() == boundary_policy,
            manifold_outcome(self.vertices_view(), self.cells_view(), boundary_policy, (
                r.finite_facet_count_view() as int,
                r.boundary_facet_count_view() as int,
                r.interior_facet_count_view() as int,
                r.violations_view(),
            )),
            manifold_tally_of(self.vertices_view(), self.cells_view(), boundary_policy) == (
                r.finite_facet_count_view() as int,
                r.boundary_facet_count_view() as int,
                r.interior_facet_count_view() as int,
                r.violations_view(),
            ),
            r.finite_facet_count_view() == r.boundary_facet_count_view() + r.interior_facet_count_view()
                + degree_violation_count(r.violations_view()),
    {
        let ghost vertices = self.vertices_view();
        let ghost cells = self.cells_view();
        let combinatorial = self.validate_combinatorial_report();
        if !combinatorial.is_valid() {
            let mut violations: Vec<TdsManifoldViolationD> = Vec::new();
            let no_cells: Vec<CellHandle> = Vec::new();
            assert(no_cells@.map_values(|c: CellHandle| c@) =~= Seq::<usize>::empty());
            violations.push(TdsManifoldViolationD::new(None, no_cells, "TDS combinatorial validation must pass before manifold validation"));
            let report = TdsManifoldValidationReportD::from_parts(boundary_policy, 0, 0, 0, violations);
            proof {
                assert(report.violations_view() =~= seq![(None::<Seq<usize>>, Seq::<usize>::empty(), "TDS combinatorial validation must pass before manifold validation"@)]);
                let tally = (0int, 0int, 0int, report.violations_view());
                assert(manifold_outcome(vertices, cells, boundary_policy, tally));
                lemma_manifold_tally_of(vertices, cells, boundary_policy, tally);
                lemma_manifold_counts(vertices, cells, boundary_policy, tally);
            }
            return report;
        }
        let records = self.facet_record_list();
        let ghost recs = record_views(records@);
        let keys = distinct_sorted_keys(&records);
        let ghost kv = list_views(keys@);
        let mut finite: usize = 0;
        let mut boundary: usize = 0;
        let mut interior: usize = 0;
        let mut violations: Vec<TdsManifoldViolationD> = Vec::new();
        proof {
            assert(violations@.map_values(|v: TdsManifoldViolationD| v@) =~= Seq::<ManifoldViolationView>::empty());
        }
        let mut ki: usize = 0;
        while ki < keys.len()
            invariant
                0 <= ki <= kv.len(),
                kv == list_views(keys@),
                manifold_tally(vertices, cells, recs, boundary_policy, kv, ki as int)
                    == (finite as int, boundary as int, interior as int, violations@.map_values(|v: TdsManifoldViolationD| v@)),
                finite <= ki,
                boundary <= ki,
                interior <= ki,
            decreases keys.len() - ki,
        {
            let key = keys[ki].as_slice();
            assert(key@ == kv[ki as int]);
            proof {
                assert(kv.contains(kv[ki as int]));
            }
            self.tally_key(&records, key, boundary_policy, &mut finite, &mut boundary, &mut interior, &mut violations);
            ki = ki + 1;
        }
        let report = TdsManifoldValidationReportD::from_parts(boundary_policy, finite, boundary, interior, violations);
        proof {
            assert(manifold_tally(vertices, cells, recs, boundary_policy, kv, kv.len() as int) == (
                report.finite_facet_count_view() as int,
                report.boundary_facet_count_view() as int,
                report.interior_facet_count_view() as int,
                report.violations_view(),
            ));
            let tally = (
                report.finite_facet_count_view() as int,
                report.boundary_facet_count_view() as int,
                report.interior_facet_count_view() as int,
                report.violations_view(),
            );
            assert(manifold_outcome(vertices, cells, boundary_policy, tally));
            lemma_manifold_tally_of(vertices, cells, boundary_policy, tally);
                lemma_manifold_counts(vertices, cells, boundary_policy, tally);
        }
        report
    }

    /// Validates finite-facet manifold facts using `boundary_policy`,
    /// failing with the first violation of the manifold report.
    pub fn validate_manifold(&self, boundary_policy: TdsBoundaryPolicyD) -> (r: Result<(), Error>)
        ensures
            manifold_tally_of(self.vertices_view(), self.cells_view(), boundary_policy).3.len() == 0 ==> r is Ok,
            manifold_tally_of(self.vertices_view(), self.cells_view(), boundary_policy).3.len() > 0 ==> (r matches Err(Error::InvalidInput { reason })
                && reason@ == manifold_tally_of(self.vertices_view(), self.cells_view(), boundary_policy).3[0].2),
    {
        let report = self.validate_manifold_report(boundary_policy);
        let ghost tally = (
            report.finite_facet_count_view() as int,
            report.boundary_facet_count_view() as int,
            report.interior_facet_count_view() as int,
            report.violations_view(),
        );
        if !report.is_valid() {
            let reason = report.violations()[0].reason();
            return Err(Error::InvalidInput { reason });
        }
        Ok(())
    }
}

} // verus!
