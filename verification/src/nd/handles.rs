//! Handles, points, vertices, facets and cells of a D-dimensional
//! triangulation data structure.
use vstd::prelude::*;
use vstd::relations::{sorted_by, total_ordering};
use crate::types::Real;

verus! {

/// Opaque stable handle for a D-dimensional TDS vertex.
#[derive(Clone, Copy, Debug, PartialEq, Eq, Hash, PartialOrd, Ord, Structural)]
pub struct VertexHandle(usize);

impl View for VertexHandle {
    type V = usize;

    closed spec fn view(&self) -> usize {
        self.0
    }
}

/// Handles are equal exactly when their table indices are.
pub broadcast proof fn lemma_vertex_handle_view_injective(a: VertexHandle, b: VertexHandle)
    ensures
        (#[trigger] a@ == #[trigger] b@) <==> a == b,
{
}

impl VertexHandle {
    /// Constructs a vertex handle from a table index.
    pub fn new(index: usize) -> (r: VertexHandle)
        ensures
            r@ == index,
    {
        VertexHandle(index)
    }

    /// Returns the underlying table index.
    pub fn index(self) -> (r: usize)
        ensures
            r == self@,
    {
        self.0
    }
}

/// Opaque stable handle for a full D-dimensional TDS cell.
#[derive(Clone, Copy, Debug, PartialEq, Eq, Hash, PartialOrd, Ord, Structural)]
pub struct CellHandle(usize);

impl View for CellHandle {
    type V = usize;

    closed spec fn view(&self) -> usize {
        self.0
    }
}

/// Cell handles are equal exactly when their table indices are.
pub broadcast proof fn lemma_cell_handle_view_injective(a: CellHandle, b: CellHandle)
    ensures
        (#[trigger] a@ == #[trigger] b@) <==> a == b,
{
}

impl CellHandle {
    /// Constructs a cell handle from a table index.
    pub fn new(index: usize) -> (r: CellHandle)
        ensures
            r@ == index,
    {
        CellHandle(index)
    }

    /// Returns the underlying table index.
    pub fn index(self) -> (r: usize)
        ensures
            r == self@,
    {
        self.0
    }
}

/// Indices of a handle sequence.
pub open spec fn handle_indices(handles: Seq<VertexHandle>) -> Seq<usize> {
    handles.map_values(|h: VertexHandle| h@)
}

/// Order of natural numbers, used to sort indices.
pub open spec fn index_leq() -> spec_fn(usize, usize) -> bool {
    |a: usize, b: usize| a <= b
}

/// `index_leq` is a total order.
pub proof fn lemma_index_leq_total()
    ensures
        total_ordering(index_leq()),
{
}

/// Sorted indices of a handle sequence: the canonical form of a vertex set.
pub open spec fn canonical_indices(handles: Seq<VertexHandle>) -> Seq<usize> {
    handle_indices(handles).sort_by(index_leq())
}

/// Canonical key for a D-dimensional TDS facet: its vertex handles sorted by
/// index.
#[derive(Clone, Debug, PartialEq, Eq, Hash, PartialOrd, Ord)]
pub struct FacetKey(Vec<VertexHandle>);

impl FacetKey {
    /// The sorted vertex indices of the key.
    pub closed spec fn key_indices(&self) -> Seq<usize> {
        handle_indices(self.0@)
    }

    /// Constructs a canonical key from unsorted facet vertices.
    pub fn new(vertices: Vec<VertexHandle>) -> (r: FacetKey)
        ensures
            r.key_indices() == canonical_indices(vertices@),
    {
        let mut vertices = vertices;
        sort_handles(&mut vertices);
        FacetKey(vertices)
    }

    /// Borrows the sorted vertex handles that identify this facet.
    pub fn vertices(&self) -> (r: &[VertexHandle])
        ensures
            handle_indices(r@) == self.key_indices(),
    {
        self.0.as_slice()
    }
}

/// Keys built from two orderings of one vertex multiset are identical.
pub proof fn lemma_facet_key_order_independent(a: Seq<VertexHandle>, b: Seq<VertexHandle>)
    requires
        handle_indices(a).to_multiset() == handle_indices(b).to_multiset(),
    ensures
        canonical_indices(a) == canonical_indices(b),
{
    lemma_index_leq_total();
    handle_indices(a).lemma_sort_by_ensures(index_leq());
    handle_indices(b).lemma_sort_by_ensures(index_leq());
    vstd::seq_lib::lemma_sorted_unique(canonical_indices(a), canonical_indices(b), index_leq());
}

/// Sort handles by index (insertion sort); the result is the canonical order.
pub fn sort_handles(v: &mut Vec<VertexHandle>)
    ensures
        handle_indices(final(v)@) == canonical_indices(old(v)@),
        final(v)@.len() == old(v)@.len(),
{
    let ghost original = handle_indices(v@);
    let n = v.len();
    let mut i: usize = 1;
    if n == 0 {
        proof {
            lemma_sorted_canonical(original, handle_indices(v@));
        }
        return;
    }
    while i < n
        invariant
            1 <= i <= n,
            n == v@.len(),
            handle_indices(v@).to_multiset() == original.to_multiset(),
            forall|a: int, b: int| 0 <= a < b < i ==> #[trigger] v@[a]@ <= #[trigger] v@[b]@,
        decreases n - i,
    {
        let mut j = i;
        while j > 0 && v[j - 1].index() > v[j].index()
            invariant
                0 <= j <= i < n,
                n == v@.len(),
                handle_indices(v@).to_multiset() == original.to_multiset(),
                forall|a: int, b: int| 0 <= a < b <= i && a != j && b != j ==> #[trigger] v@[a]@ <= #[trigger] v@[b]@,
                forall|b: int| j < b <= i ==> v@[j as int]@ <= #[trigger] v@[b]@,
            decreases j,
        {
            let x = v[j - 1];
            let y = v[j];
            let ghost before = v@;
            v.set(j - 1, y);
            v.set(j, x);
            proof {
                let hb = handle_indices(before);
                let ha = handle_indices(v@);
                assert(ha =~= hb.update(j - 1, hb[j as int]).update(j as int, hb[j - 1]));
                crate::seqs::lemma_seq_swap_multiset(hb, j - 1, j as int);
            }
            j = j - 1;
        }
        proof {
            assert forall|a: int, b: int| 0 <= a < b < i + 1 implies #[trigger] v@[a]@ <= #[trigger] v@[b]@ by {
                if b == j && a < j {
                    assert(v@[j - 1]@ <= v@[j as int]@);
                    if a < j - 1 {
                        assert(v@[a]@ <= v@[j - 1]@);
                    }
                }
            }
        }
        i = i + 1;
    }
    proof {
        let h = handle_indices(v@);
        assert forall|a: int, b: int| 0 <= a < b < h.len() implies #[trigger] index_leq()(h[a], h[b]) by {
            assert(v@[a]@ <= v@[b]@);
        }
        lemma_sorted_canonical(original, h);
    }
}

/// A sorted permutation of a sequence is its canonical sort.
proof fn lemma_sorted_canonical(original: Seq<usize>, s: Seq<usize>)
    requires
        sorted_by(s, index_leq()),
        s.to_multiset() == original.to_multiset(),
    ensures
        s == original.sort_by(index_leq()),
{
    lemma_index_leq_total();
    original.lemma_sort_by_ensures(index_leq());
    vstd::seq_lib::lemma_sorted_unique(s, original.sort_by(index_leq()), index_leq());
}

/// Exact point in an arbitrary-dimensional Euclidean coordinate space.
#[derive(Debug)]
pub struct PointD {
    coordinates: Vec<Real>,
}

impl PointD {
    /// The point's coordinates.
    pub closed spec fn coords(&self) -> Seq<Real> {
        self.coordinates@
    }

    /// Construct a point from exact coordinates.
    pub fn new(coordinates: Vec<Real>) -> (r: PointD)
        ensures
            r.coords() == coordinates@,
    {
        PointD { coordinates }
    }

    /// Borrow the point coordinates.
    pub fn coordinates(&self) -> (r: &[Real])
        ensures
            r@ == self.coords(),
    {
        self.coordinates.as_slice()
    }

    /// Return the point dimension.
    pub fn dimension(&self) -> (r: usize)
        ensures
            r == self.coords().len(),
    {
        self.coordinates.len()
    }

    /// Copy of the point.
    pub fn duplicate(&self) -> (r: PointD)
        ensures
            r.coords() == self.coords(),
    {
        PointD { coordinates: copy_reals(self.coordinates.as_slice()) }
    }
}

impl Clone for PointD {
    fn clone(&self) -> (r: PointD)
        ensures
            r.coords() == self.coords(),
    {
        self.duplicate()
    }
}

/// Copy a slice of exact numbers into a new vector.
pub fn copy_reals(values: &[Real]) -> (r: Vec<Real>)
    ensures
        r@ == values@,
{
    let mut out: Vec<Real> = Vec::new();
    let mut i: usize = 0;
    while i < values.len()
        invariant
            0 <= i <= values@.len(),
            out@ == values@.subrange(0, i as int),
        decreases values.len() - i,
    {
        out.push(values[i]);
        i = i + 1;
    }
    proof {
        assert(values@.subrange(0, values@.len() as int) =~= values@);
    }
    out
}

/// Vertex record in a D-dimensional triangulation data structure.
#[derive(Debug)]
pub struct VertexD {
    point: Option<PointD>,
    infinite: bool,
}

impl VertexD {
    /// The finite point payload, if any.
    pub closed spec fn point_view(&self) -> Option<Seq<Real>> {
        match self.point {
            Some(p) => Some(p.coords()),
            None => None,
        }
    }

    /// The infinite flag.
    pub closed spec fn infinite_view(&self) -> bool {
        self.infinite
    }

    /// Constructs a finite vertex with exact coordinates.
    pub fn finite(point: PointD) -> (r: VertexD)
        ensures
            r.point_view() == Some(point.coords()),
            !r.infinite_view(),
    {
        VertexD { point: Some(point), infinite: false }
    }

    /// Constructs the explicit infinite vertex used for hull semantics.
    pub fn infinite() -> (r: VertexD)
        ensures
            r.point_view() is None,
            r.infinite_view(),
    {
        VertexD { point: None, infinite: true }
    }

    /// Returns the finite point coordinates, if this is not the infinite vertex.
    pub fn point(&self) -> (r: Option<&PointD>)
        ensures
            match r {
                Some(p) => self.point_view() == Some(p.coords()),
                None => self.point_view() is None,
            },
    {
        match &self.point {
            Some(p) => Some(p),
            None => None,
        }
    }

    /// Returns true for the explicit infinite vertex.
    pub fn is_infinite(&self) -> (r: bool)
        ensures
            r == self.infinite_view(),
    {
        self.infinite
    }
}

/// A codimension-one facet of a full D-dimensional cell.
#[derive(Clone, Copy, Debug, PartialEq, Eq, Structural)]
pub struct Facet {
    cell: CellHandle,
    opposite_vertex: usize,
}

impl Facet {
    /// The owning cell (spec view).
    pub closed spec fn cell_view(self) -> CellHandle {
        self.cell
    }

    /// The opposite vertex slot (spec view).
    pub closed spec fn opposite_view(self) -> usize {
        self.opposite_vertex
    }

    /// Constructs a facet as `(cell, opposite_vertex_slot)`.
    pub fn new(cell: CellHandle, opposite_vertex: usize) -> (r: Facet)
        ensures
            r.cell_view() == cell,
            r.opposite_view() == opposite_vertex,
    {
        Facet { cell, opposite_vertex }
    }

    /// Returns the owning cell.
    pub fn cell(self) -> (r: CellHandle)
        ensures
            r == self.cell_view(),
    {
        self.cell
    }

    /// Returns the vertex slot opposite this facet.
    pub fn opposite_vertex(self) -> (r: usize)
        ensures
            r == self.opposite_view(),
    {
        self.opposite_vertex
    }
}

/// A lower-dimensional face represented by an owning cell and vertex slots.
#[derive(Debug)]
pub struct Face {
    cell: CellHandle,
    vertex_slots: Vec<usize>,
}

impl Face {
    /// The owning cell (spec view).
    pub closed spec fn cell_view(&self) -> CellHandle {
        self.cell
    }

    /// The vertex slots (spec view).
    pub closed spec fn slots_view(&self) -> Seq<usize> {
        self.vertex_slots@
    }

    /// Constructs a face from an owning cell and sorted vertex slots.
    pub fn new(cell: CellHandle, vertex_slots: Vec<usize>) -> (r: Face)
        ensures
            r.cell_view() == cell,
            r.slots_view() == vertex_slots@,
    {
        Face { cell, vertex_slots }
    }

    /// Returns the owning cell.
    pub fn cell(&self) -> (r: CellHandle)
        ensures
            r == self.cell_view(),
    {
        self.cell
    }

    /// Returns the vertex slots that span this face.
    pub fn vertex_slots(&self) -> (r: &[usize])
        ensures
            r@ == self.slots_view(),
    {
        self.vertex_slots.as_slice()
    }
}

/// Full D-dimensional cell with `dimension + 1` vertex slots; neighbor slot
/// `i` is the cell across the facet opposite vertex slot `i`.
#[derive(Debug)]
pub struct Cell {
    vertices: Vec<VertexHandle>,
    neighbors: Vec<Option<CellHandle>>,
    infinite: bool,
}

impl Cell {
    /// Vertex handles in cell order.
    pub closed spec fn vertices_view(&self) -> Seq<VertexHandle> {
        self.vertices@
    }

    /// Neighbor handles by opposite-vertex slot.
    pub closed spec fn neighbors_view(&self) -> Seq<Option<CellHandle>> {
        self.neighbors@
    }

    /// The recorded infinite flag.
    pub closed spec fn infinite_view(&self) -> bool {
        self.infinite
    }

    /// Constructs a finite full cell from vertex handles and opposite-facet
    /// neighbors.
    pub fn new(vertices: Vec<VertexHandle>, neighbors: Vec<Option<CellHandle>>) -> (r: Cell)
        ensures
            r.vertices_view() == vertices@,
            r.neighbors_view() == neighbors@,
            !r.infinite_view(),
    {
        Cell { vertices, neighbors, infinite: false }
    }

    /// Constructs a full cell and explicitly records whether it is infinite.
    pub fn with_infinite_status(
        vertices: Vec<VertexHandle>,
        neighbors: Vec<Option<CellHandle>>,
        infinite: bool,
    ) -> (r: Cell)
        ensures
            r.vertices_view() == vertices@,
            r.neighbors_view() == neighbors@,
            r.infinite_view() == infinite,
    {
        Cell { vertices, neighbors, infinite }
    }

    /// Returns vertex handles in cell order.
    pub fn vertices(&self) -> (r: &[VertexHandle])
        ensures
            r@ == self.vertices_view(),
    {
        self.vertices.as_slice()
    }

    /// Returns neighbor handles by opposite-vertex slot.
    pub fn neighbors(&self) -> (r: &[Option<CellHandle>])
        ensures
            r@ == self.neighbors_view(),
    {
        self.neighbors.as_slice()
    }

    /// Returns true for a hull cell that includes the explicit infinite vertex.
    pub fn is_infinite(&self) -> (r: bool)
        ensures
            r == self.infinite_view(),
    {
        self.infinite
    }
}

/// D-dimensional simplex expressed as point indices.
#[derive(Debug)]
pub struct Simplex {
    indices: Vec<usize>,
}

impl Simplex {
    /// The point indices (spec view).
    pub closed spec fn indices_view(&self) -> Seq<usize> {
        self.indices@
    }

    /// Construct a simplex from point indices.
    pub fn new(indices: Vec<usize>) -> (r: Simplex)
        ensures
            r.indices_view() == indices@,
    {
        Simplex { indices }
    }

    /// Borrow simplex point indices.
    pub fn indices(&self) -> (r: &[usize])
        ensures
            r@ == self.indices_view(),
    {
        self.indices.as_slice()
    }

    /// Copy of the simplex.
    pub fn duplicate(&self) -> (r: Simplex)
        ensures
            r.indices_view() == self.indices_view(),
    {
        Simplex { indices: copy_usizes(self.indices.as_slice()) }
    }
}

impl Clone for Simplex {
    fn clone(&self) -> (r: Simplex)
        ensures
            r.indices_view() == self.indices_view(),
    {
        self.duplicate()
    }
}

/// Copy a slice of indices into a new vector.
pub fn copy_usizes(values: &[usize]) -> (r: Vec<usize>)
    ensures
        r@ == values@,
{
    let mut out: Vec<usize> = Vec::new();
    let mut i: usize = 0;
    while i < values.len()
        invariant
            0 <= i <= values@.len(),
            out@ == values@.subrange(0, i as int),
        decreases values.len() - i,
    {
        out.push(values[i]);
        i = i + 1;
    }
    proof {
        assert(values@.subrange(0, values@.len() as int) =~= values@);
    }
    out
}

} // verus!
