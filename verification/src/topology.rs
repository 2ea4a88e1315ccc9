//! Retained 2D triangle adjacency: edge keys, edge-use streams, reciprocal
//! neighbor tables and checked local region replacement.
use vstd::prelude::*;
use crate::error::Error;
use crate::types::{Sign, Triangle};

verus! {

/// Undirected triangulation edge with `from <= to`.
#[derive(Clone, Copy, Debug, PartialEq, Eq, PartialOrd, Ord, Structural)]
pub struct EdgeKey {
    /// Smaller endpoint.
    pub from: usize,
    /// Larger endpoint.
    pub to: usize,
}

/// The undirected edge between two vertices.
pub open spec fn edge_key(first: usize, second: usize) -> EdgeKey {
    if first <= second {
        EdgeKey { from: first, to: second }
    } else {
        EdgeKey { from: second, to: first }
    }
}

impl EdgeKey {
    /// Construct the undirected edge between two vertices.
    pub fn new(first: usize, second: usize) -> (r: EdgeKey)
        ensures
            r == edge_key(first, second),
    {
        if first <= second {
            EdgeKey { from: first, to: second }
        } else {
            EdgeKey { from: second, to: first }
        }
    }

    /// Whether `index` is an endpoint of the edge.
    pub fn contains(self, index: usize) -> (r: bool)
        ensures
            r == (self.from == index || self.to == index),
    {
        self.from == index || self.to == index
    }
}

/// An edge key does not depend on the order of its endpoints.
pub proof fn lemma_edge_key_symmetric(first: usize, second: usize)
    ensures
        edge_key(first, second) == edge_key(second, first),
        edge_key(first, second).from <= edge_key(first, second).to,
{
}

/// Edge `slot` of a triangle: the edge from vertex `slot` to the next one.
pub open spec fn tri_edge(triangle: Triangle, slot: int) -> EdgeKey {
    if slot == 0 {
        edge_key(triangle[0], triangle[1])
    } else if slot == 1 {
        edge_key(triangle[1], triangle[2])
    } else {
        edge_key(triangle[2], triangle[0])
    }
}

/// A triangle with three distinct vertices.
pub open spec fn nondegenerate(triangle: Triangle) -> bool {
    triangle[0] != triangle[1] && triangle[1] != triangle[2] && triangle[2] != triangle[0]
}

/// The three edges of a triangle, in slot order.
pub fn triangle_edges(triangle: Triangle) -> (r: [EdgeKey; 3])
    ensures
        forall|slot: int| 0 <= slot < 3 ==> #[trigger] r[slot] == tri_edge(triangle, slot),
{
    [
        EdgeKey::new(triangle[0], triangle[1]),
        EdgeKey::new(triangle[1], triangle[2]),
        EdgeKey::new(triangle[2], triangle[0]),
    ]
}

/// First slot of `triangle` whose edge is `edge`, if any.
pub open spec fn edge_slot_of(triangle: Triangle, edge: EdgeKey) -> Option<int> {
    if tri_edge(triangle, 0) == edge {
        Some(0)
    } else if tri_edge(triangle, 1) == edge {
        Some(1)
    } else if tri_edge(triangle, 2) == edge {
        Some(2)
    } else {
        None
    }
}

/// The slot of `triangle` whose edge is `edge`.
pub fn triangle_edge_slot(triangle: Triangle, edge: EdgeKey) -> (r: Result<usize, Error>)
    ensures
        match edge_slot_of(triangle, edge) {
            Some(slot) => r == Ok::<usize, Error>(slot as usize),
            None => r == Err::<usize, Error>(Error::InvalidInput { reason: "triangle topology references an absent edge" }),
        },
{
    let edges = triangle_edges(triangle);
    if edges[0] == edge {
        Ok(0)
    } else if edges[1] == edge {
        Ok(1)
    } else if edges[2] == edge {
        Ok(2)
    } else {
        Err(Error::InvalidInput { reason: "triangle topology references an absent edge" })
    }
}

/// Whether both endpoints of `edge` are vertices of `triangle`.
pub open spec fn triangle_has_edge(triangle: Triangle, edge: EdgeKey) -> bool {
    (triangle[0] == edge.from || triangle[1] == edge.from || triangle[2] == edge.from)
        && (triangle[0] == edge.to || triangle[1] == edge.to || triangle[2] == edge.to)
}

/// Whether both endpoints of `edge` are vertices of `triangle`.
pub fn triangle_contains_edge(triangle: Triangle, edge: EdgeKey) -> (r: bool)
    ensures
        r == triangle_has_edge(triangle, edge),
{
    (triangle[0] == edge.from || triangle[1] == edge.from || triangle[2] == edge.from)
        && (triangle[0] == edge.to || triangle[1] == edge.to || triangle[2] == edge.to)
}

/// Whether some triangle contains both endpoints of `edge`.
pub fn triangulation_has_edge(triangles: &[Triangle], edge: EdgeKey) -> (r: bool)
    ensures
        r == exists|t: int| 0 <= t < triangles@.len() && #[trigger] triangle_has_edge(triangles@[t], edge),
{
    let mut i: usize = 0;
    while i < triangles.len()
        invariant
            0 <= i <= triangles@.len(),
            forall|t: int| 0 <= t < i ==> !#[trigger] triangle_has_edge(triangles@[t], edge),
        decreases triangles.len() - i,
    {
        if triangle_contains_edge(triangles[i], edge) {
            return true;
        }
        i = i + 1;
    }
    false
}

/// Strict lexicographic order of edge keys.
pub open spec fn edge_lt(a: EdgeKey, b: EdgeKey) -> bool {
    a.from < b.from || (a.from == b.from && a.to < b.to)
}

/// Whether `a` orders strictly before `b`.
pub fn edge_less(a: EdgeKey, b: EdgeKey) -> (r: bool)
    ensures
        r == edge_lt(a, b),
{
    a.from < b.from || (a.from == b.from && a.to < b.to)
}

/// Strictly increasing edge keys.
pub open spec fn edges_sorted(edges: Seq<EdgeKey>) -> bool {
    forall|i: int, j: int| 0 <= i < j < edges.len() ==> edge_lt(#[trigger] edges[i], #[trigger] edges[j])
}

/// Insert `edge` into a sorted edge set unless it is already present.
pub fn push_unique_edge(edges: &mut Vec<EdgeKey>, edge: EdgeKey)
    requires
        edges_sorted(old(edges)@),
    ensures
        edges_sorted(final(edges)@),
        final(edges)@.to_set() == old(edges)@.to_set().insert(edge),
{
    let mut position: usize = 0;
    while position < edges.len() && edge_less(edges[position], edge)
        invariant
            0 <= position <= edges@.len(),
            forall|j: int| 0 <= j < position ==> edge_lt(#[trigger] edges@[j], edge),
        decreases edges@.len() - position,
    {
        position = position + 1;
    }
    if position < edges.len() && edges[position] == edge {
        proof {
            assert(edges@.to_set().contains(edge));
            assert(edges@.to_set().insert(edge) =~= edges@.to_set());
        }
        return;
    }
    let ghost before = edges@;
    edges.insert(position, edge);
    proof {
        assert(edges@ =~= before.insert(position as int, edge));
        assert forall|i: int, j: int| 0 <= i < j < edges@.len() implies edge_lt(#[trigger] edges@[i], #[trigger] edges@[j]) by {
            if j < position {
            } else if j == position {
                assert(edge_lt(before[i], edge));
            } else if i == position {
                assert(!edge_lt(before[position as int], edge));
                assert(before[position as int] != edge);
                if j > position + 1 {
                    assert(edge_lt(before[position as int], before[j - 1]));
                }
            } else if i < position {
                assert(edge_lt(before[i], edge));
                assert(!edge_lt(before[position as int], edge));
                if j > position + 1 {
                    assert(edge_lt(before[position as int], before[j - 1]));
                }
            }
        }
        broadcast use vstd::seq_lib::group_seq_properties;
        assert forall|x: EdgeKey| edges@.to_set().contains(x) <==> before.to_set().insert(edge).contains(x) by {
            if edges@.contains(x) {
                let k = choose|k: int| 0 <= k < edges@.len() && edges@[k] == x;
                if k < position {
                    assert(before[k] == x);
                } else if k > position {
                    assert(before[k - 1] == x);
                }
            }
            if before.contains(x) {
                let k = choose|k: int| 0 <= k < before.len() && before[k] == x;
                if k < position {
                    assert(edges@[k] == x);
                } else {
                    assert(edges@[k + 1] == x);
                }
            }
        }
        assert(edges@.to_set() =~= before.to_set().insert(edge));
    }
}

/// Whether two signs are strictly opposite.
pub fn signs_strictly_differ(first: Sign, second: Sign) -> (r: bool)
    ensures
        r == ((first == Sign::Negative && second == Sign::Positive) || (first == Sign::Positive && second == Sign::Negative)),
{
    match (first, second) {
        (Sign::Negative, Sign::Positive) => true,
        (Sign::Positive, Sign::Negative) => true,
        _ => false,
    }
}

/// Reorder a triangle to positive orientation given its orientation sign.
pub fn oriented_triangle(sign: Sign, triangle: Triangle) -> (r: Result<Triangle, Error>)
    ensures
        sign == Sign::Positive ==> r == Ok::<Triangle, Error>(triangle),
        sign == Sign::Negative ==> r == Ok::<Triangle, Error>([triangle[0], triangle[2], triangle[1]]),
        sign == Sign::Zero ==> r == Err::<Triangle, Error>(Error::InvalidInput { reason: "degenerate triangle" }),
{
    match sign {
        Sign::Positive => Ok(triangle),
        Sign::Negative => Ok([triangle[0], triangle[2], triangle[1]]),
        Sign::Zero => Err(Error::InvalidInput { reason: "degenerate triangle" }),
    }
}

/// A triangle adjacent to an edge with the vertex opposite that edge.
#[derive(Clone, Copy, Debug, PartialEq, Eq, Structural)]
pub struct AdjacentTriangle {
    /// Triangle slot.
    pub triangle: usize,
    /// Vertex of the triangle opposite the edge.
    pub opposite: usize,
}

/// First vertex of `triangle` that is not an endpoint of `edge`.
pub open spec fn opposite_vertex_of(triangle: Triangle, edge: EdgeKey) -> Option<usize> {
    if triangle[0] != edge.from && triangle[0] != edge.to {
        Some(triangle[0])
    } else if triangle[1] != edge.from && triangle[1] != edge.to {
        Some(triangle[1])
    } else if triangle[2] != edge.from && triangle[2] != edge.to {
        Some(triangle[2])
    } else {
        None
    }
}

/// The adjacency record of one owner of an edge, or why it has none.
pub open spec fn adjacent_of(triangles: Seq<Triangle>, edge: EdgeKey, owner: usize) -> Result<AdjacentTriangle, Error> {
    if owner >= triangles.len() {
        Err(Error::InvalidInput { reason: "triangle topology references an absent triangle" })
    } else {
        match opposite_vertex_of(triangles[owner as int], edge) {
            Some(opposite) => Ok(AdjacentTriangle { triangle: owner, opposite }),
            None => Err(Error::InvalidInput { reason: "triangle edge has no opposite vertex" }),
        }
    }
}

fn adjacent_triangle(triangles: &[Triangle], edge: EdgeKey, owner: usize) -> (r: Result<AdjacentTriangle, Error>)
    ensures
        r == adjacent_of(triangles@, edge, owner),
{
    if owner >= triangles.len() {
        return Err(Error::InvalidInput { reason: "triangle topology references an absent triangle" });
    }
    let t = triangles[owner];
    if t[0] != edge.from && t[0] != edge.to {
        Ok(AdjacentTriangle { triangle: owner, opposite: t[0] })
    } else if t[1] != edge.from && t[1] != edge.to {
        Ok(AdjacentTriangle { triangle: owner, opposite: t[1] })
    } else if t[2] != edge.from && t[2] != edge.to {
        Ok(AdjacentTriangle { triangle: owner, opposite: t[2] })
    } else {
        Err(Error::InvalidInput { reason: "triangle edge has no opposite vertex" })
    }
}

/// The two triangles owning `edge`, each with its vertex opposite the edge.
pub fn adjacent_triangles(triangles: &[Triangle], edge: EdgeKey, owners: [usize; 2]) -> (r: Result<[AdjacentTriangle; 2], Error>)
    ensures
        match (adjacent_of(triangles@, edge, owners[0]), adjacent_of(triangles@, edge, owners[1])) {
            (Ok(a), Ok(b)) => r == Ok::<[AdjacentTriangle; 2], Error>([a, b]),
            (Err(e), _) => r == Err::<[AdjacentTriangle; 2], Error>(e),
            (Ok(_), Err(e)) => r == Err::<[AdjacentTriangle; 2], Error>(e),
        },
{
    let first = match adjacent_triangle(triangles, edge, owners[0]) {
        Ok(a) => a,
        Err(e) => return Err(e),
    };
    let second = match adjacent_triangle(triangles, edge, owners[1]) {
        Ok(a) => a,
        Err(e) => return Err(e),
    };
    Ok([first, second])
}

/// Triangle slot written by replacement triangle `local`: the listed slot
/// for the first `indices.len()` triangles, then appended slots.
pub open spec fn replacement_slot(indices: Seq<usize>, original_len: int, local: int) -> int {
    if local < indices.len() { indices[local] as int } else { original_len + local - indices.len() }
}

/// Triangle slot written by replacement triangle `local`.
pub fn replacement_triangle_index(indices: &[usize], original_len: usize, local: usize) -> (r: usize)
    requires
        local < indices@.len() || original_len + local - indices@.len() <= usize::MAX,
    ensures
        r == replacement_slot(indices@, original_len as int, local as int),
{
    if local < indices.len() {
        indices[local]
    } else {
        original_len + (local - indices.len())
    }
}

/// The replacement position that writes `triangle`, or why none does.
pub open spec fn replacement_local_of(indices: Seq<usize>, original_len: int, replacement_len: int, triangle: int) -> Result<usize, Error> {
    if triangle < original_len {
        if exists|k: int| 0 <= k < indices.len() && indices[k] == triangle {
            Ok((choose|k: int| 0 <= k < indices.len() && indices[k] == triangle) as usize)
        } else {
            Err(Error::InvalidInput { reason: "topology replacement edge has no triangle slot" })
        }
    } else if indices.len() + triangle - original_len < replacement_len {
        Ok((indices.len() + triangle - original_len) as usize)
    } else {
        Err(Error::InvalidInput { reason: "topology replacement edge has no appended slot" })
    }
}

/// Strictly increasing slots.
pub open spec fn strictly_increasing(s: Seq<usize>) -> bool {
    forall|i: int, j: int| 0 <= i < j < s.len() ==> #[trigger] s[i] < #[trigger] s[j]
}

/// Replacement position that writes `triangle`.
pub fn replacement_local_index(indices: &[usize], original_len: usize, replacement_len: usize, triangle: usize) -> (r: Result<usize, Error>)
    requires
        strictly_increasing(indices@),
    ensures
        r == replacement_local_of(indices@, original_len as int, replacement_len as int, triangle as int),
        r matches Ok(local) ==> local < indices@.len() || local < replacement_len,
{
    if triangle < original_len {
        let mut k: usize = 0;
        while k < indices.len()
            invariant
                0 <= k <= indices@.len(),
                strictly_increasing(indices@),
                triangle < original_len,
                forall|j: int| 0 <= j < k ==> indices@[j] != triangle,
            decreases indices.len() - k,
        {
            if indices[k] == triangle {
                proof {
                    let c = choose|c: int| 0 <= c < indices@.len() && indices@[c] == triangle;
                    if c != k {
                        if c < k { assert(indices@[c] < indices@[k as int]); } else { assert(indices@[k as int] < indices@[c]); }
                    }
                }
                return Ok(k);
            }
            k = k + 1;
        }
        return Err(Error::InvalidInput { reason: "topology replacement edge has no triangle slot" });
    }
    if triangle - original_len < replacement_len && indices.len() < replacement_len - (triangle - original_len) {
        Ok(indices.len() + (triangle - original_len))
    } else {
        Err(Error::InvalidInput { reason: "topology replacement edge has no appended slot" })
    }
}

/// Edge of the `u`-th edge use: triangle `u / 3`, slot `u % 3`.
pub open spec fn use_edge(triangles: Seq<Triangle>, u: int) -> EdgeKey {
    tri_edge(triangles[u / 3], u % 3)
}

/// Number of edge uses below `n` whose edge is `edge`.
pub open spec fn use_count(triangles: Seq<Triangle>, edge: EdgeKey, n: int) -> int
    decreases n,
{
    if n <= 0 { 0 } else { use_count(triangles, edge, n - 1) + if use_edge(triangles, n - 1) == edge { 1int } else { 0int } }
}

/// Distinct edges among the uses below `n`.
pub open spec fn prefix_edges(triangles: Seq<Triangle>, n: int) -> Set<EdgeKey> {
    Set::new(|edge: EdgeKey| exists|u: int| 0 <= u < n && #[trigger] use_edge(triangles, u) == edge)
}

/// Use `u` is the third use of its edge.
pub open spec fn third_use_at(triangles: Seq<Triangle>, u: int) -> bool {
    use_count(triangles, use_edge(triangles, u), u + 1) >= 3
}

/// Use `u` introduces a new edge when `capacity` distinct edges are known.
pub open spec fn overflow_at(triangles: Seq<Triangle>, u: int, capacity: int) -> bool {
    !prefix_edges(triangles, u).contains(use_edge(triangles, u)) && prefix_edges(triangles, u).len() >= capacity
}

/// First use below `n` at which adjacency construction fails.
pub open spec fn first_failure(triangles: Seq<Triangle>, capacity: int, n: int) -> Option<int>
    decreases n,
{
    if n <= 0 {
        None
    } else {
        match first_failure(triangles, capacity, n - 1) {
            Some(u) => Some(u),
            None => if third_use_at(triangles, n - 1) || overflow_at(triangles, n - 1, capacity) { Some(n - 1) } else { None },
        }
    }
}

/// The other use of the same edge, if there is one.
pub open spec fn partner_use(triangles: Seq<Triangle>, u: int) -> Option<int> {
    if exists|v: int| 0 <= v < 3 * triangles.len() && v != u && use_edge(triangles, v) == use_edge(triangles, u) {
        Some(choose|v: int| 0 <= v < 3 * triangles.len() && v != u && use_edge(triangles, v) == use_edge(triangles, u))
    } else {
        None
    }
}

/// The neighbor across slot `slot` of triangle `t`: the triangle of the
/// other use of that edge.
pub open spec fn neighbor_of(triangles: Seq<Triangle>, t: int, slot: int) -> Option<usize> {
    match partner_use(triangles, 3 * t + slot) {
        Some(v) => Some((v / 3) as usize),
        None => None,
    }
}

/// Smallest power of two reached by doubling `c` until it is at least `x`.
pub open spec fn doubled_until(c: int, x: int) -> int
    decreases (if x > c { x - c } else { 0 }),
{
    if c <= 0 || c >= x { c } else { doubled_until(2 * c, x) }
}

/// Size of the edge table for `n` triangles: the power of two at or above
/// `2n + 1`, and at least 8.
pub open spec fn adjacency_capacity(n: int) -> int {
    let c = doubled_until(1, 2 * n + 1);
    if c < 8 { 8 } else { c }
}

/// Error of adjacency construction: an edge with a third incident use, or
/// more distinct edges than the table holds.
pub open spec fn adjacency_failure(triangles: Seq<Triangle>) -> Option<Error> {
    match first_failure(triangles, adjacency_capacity(triangles.len() as int), (3 * triangles.len()) as int) {
        Some(u) => if third_use_at(triangles, u) {
            Some(Error::InvalidInput { reason: "Delaunay edge has more than two incident faces" })
        } else {
            Some(Error::InvalidInput { reason: "triangle adjacency table occupancy invariant failed" })
        },
        None => None,
    }
}

proof fn lemma_doubled_until(c: int, x: int)
    requires
        c >= 1,
    ensures
        doubled_until(c, x) >= c,
        doubled_until(c, x) >= x,
        doubled_until(c, x) < 2 * x || doubled_until(c, x) == c,
    decreases (if x > c { x - c } else { 0 }),
{
    if c < x {
        lemma_doubled_until(2 * c, x);
    }
}


/// Counting uses of one edge: one more for each later use.
proof fn lemma_use_count_monotone(triangles: Seq<Triangle>, edge: EdgeKey, a: int, b: int)
    requires
        0 <= a <= b,
    ensures
        use_count(triangles, edge, a) <= use_count(triangles, edge, b),
        0 <= use_count(triangles, edge, a),
    decreases b - a,
{
    if a < b {
        lemma_use_count_monotone(triangles, edge, a, b - 1);
    } else {
        lemma_use_count_nonneg(triangles, edge, a);
    }
}

proof fn lemma_use_count_nonneg(triangles: Seq<Triangle>, edge: EdgeKey, n: int)
    ensures
        0 <= use_count(triangles, edge, n),
    decreases n,
{
    if n > 0 {
        lemma_use_count_nonneg(triangles, edge, n - 1);
    }
}

/// A use of `edge` at `i < n` adds one to the count below `n`.
proof fn lemma_use_count_step(triangles: Seq<Triangle>, edge: EdgeKey, i: int, n: int)
    requires
        0 <= i < n,
        use_edge(triangles, i) == edge,
    ensures
        use_count(triangles, edge, n) >= use_count(triangles, edge, i) + 1,
{
    lemma_use_count_monotone(triangles, edge, i + 1, n);
}

/// Two distinct earlier uses of the edge of `w` make three uses in all.
proof fn lemma_three_uses(triangles: Seq<Triangle>, a: int, b: int, c: int, n: int)
    requires
        0 <= a < b < c < n,
        use_edge(triangles, a) == use_edge(triangles, b),
        use_edge(triangles, b) == use_edge(triangles, c),
    ensures
        use_count(triangles, use_edge(triangles, a), n) >= 3,
{
    let e = use_edge(triangles, a);
    lemma_use_count_monotone(triangles, e, 0, a);
    lemma_use_count_step(triangles, e, a, b);
    lemma_use_count_step(triangles, e, b, c);
    lemma_use_count_step(triangles, e, c, n);
}

/// No use of an edge below `n` means a zero count, and conversely.
proof fn lemma_use_count_zero(triangles: Seq<Triangle>, edge: EdgeKey, n: int)
    requires
        0 <= n,
    ensures
        (use_count(triangles, edge, n) == 0) <==> !prefix_edges(triangles, n).contains(edge),
    decreases n,
{
    if n > 0 {
        lemma_use_count_zero(triangles, edge, n - 1);
        lemma_use_count_monotone(triangles, edge, 0, n - 1);
        if prefix_edges(triangles, n - 1).contains(edge) {
            let u = choose|u: int| 0 <= u < n - 1 && #[trigger] use_edge(triangles, u) == edge;
            assert(use_edge(triangles, u) == edge);
        }
        if prefix_edges(triangles, n).contains(edge) {
            let u = choose|u: int| 0 <= u < n && #[trigger] use_edge(triangles, u) == edge;
            if u < n - 1 {
                assert(prefix_edges(triangles, n - 1).contains(edge));
            }
        } else {
            assert(use_edge(triangles, n - 1) != edge);
        }
    }
}

/// The distinct edges of a longer prefix add the next use's edge.
proof fn lemma_prefix_edges_step(triangles: Seq<Triangle>, n: int)
    requires
        0 <= n,
    ensures
        prefix_edges(triangles, n + 1) == prefix_edges(triangles, n).insert(use_edge(triangles, n)),
{
    assert(prefix_edges(triangles, n + 1) =~= prefix_edges(triangles, n).insert(use_edge(triangles, n))) by {
        assert forall|e: EdgeKey| prefix_edges(triangles, n + 1).contains(e) implies prefix_edges(triangles, n).insert(use_edge(triangles, n)).contains(e) by {
            let u = choose|u: int| 0 <= u < n + 1 && #[trigger] use_edge(triangles, u) == e;
            if u < n {
                assert(prefix_edges(triangles, n).contains(e));
            }
        }
        assert forall|e: EdgeKey| prefix_edges(triangles, n).insert(use_edge(triangles, n)).contains(e) implies prefix_edges(triangles, n + 1).contains(e) by {
            if e == use_edge(triangles, n) {
                assert(use_edge(triangles, n) == e);
            } else {
                let u = choose|u: int| 0 <= u < n && #[trigger] use_edge(triangles, u) == e;
                assert(use_edge(triangles, u) == e);
            }
        }
    }
}

/// A failure found at `k` remains the first failure for longer prefixes.
proof fn lemma_first_failure_persists(triangles: Seq<Triangle>, capacity: int, k: int, m: int)
    requires
        0 < k <= m,
        first_failure(triangles, capacity, k) is Some,
    ensures
        first_failure(triangles, capacity, m) == first_failure(triangles, capacity, k),
    decreases m - k,
{
    if m > k {
        lemma_first_failure_persists(triangles, capacity, k, m - 1);
    }
}

/// Every edge has at most two uses, so the other use of an edge is unique.
proof fn lemma_partner_unique(triangles: Seq<Triangle>, w: int, edges: Seq<EdgeKey>, table: Seq<EdgeEntry>)
    requires
        0 <= w < 3 * triangles.len(),
        edges == table.map_values(|e: EdgeEntry| e.edge),
        edges.to_set() == prefix_edges(triangles, 3 * triangles.len() as int),
        forall|k: int| 0 <= k < table.len() ==> use_count(triangles, (#[trigger] table[k]).edge, 3 * triangles.len() as int) <= 2,
    ensures
        forall|v1: int, v2: int| 0 <= v1 < 3 * triangles.len() && 0 <= v2 < 3 * triangles.len() && v1 != w && v2 != w
            && use_edge(triangles, v1) == use_edge(triangles, w) && use_edge(triangles, v2) == use_edge(triangles, w) ==> v1 == v2,
{
    let n = 3 * triangles.len() as int;
    let e = use_edge(triangles, w);
    assert(prefix_edges(triangles, n).contains(e));
    assert(edges.contains(e));
    let k = choose|k: int| 0 <= k < edges.len() && edges[k] == e;
    assert(table[k].edge == e);
    assert forall|v1: int, v2: int| 0 <= v1 < n && 0 <= v2 < n && v1 != w && v2 != w
        && use_edge(triangles, v1) == e && use_edge(triangles, v2) == e implies v1 == v2 by {
        if v1 != v2 {
            let a = if v1 < v2 { if v1 < w { v1 } else { w } } else { if v2 < w { v2 } else { w } };
            let c = if v1 > v2 { if v1 > w { v1 } else { w } } else { if v2 > w { v2 } else { w } };
            let b = if a != v1 && c != v1 { v1 } else if a != v2 && c != v2 { v2 } else { w };
            lemma_three_uses(triangles, a, b, c, n);
        }
    }
}

/// Table size for `n` triangles.
fn adjacency_table_capacity(n: usize) -> (r: usize)
    requires
        n <= usize::MAX / 8,
    ensures
        r == adjacency_capacity(n as int),
{
    let target = 2 * n + 1;
    let mut c: usize = 1;
    proof { lemma_doubled_until(1, target as int); }
    while c < target
        invariant
            1 <= c,
            c <= 2 * target,
            n <= usize::MAX / 8,
            target == 2 * n + 1,
            doubled_until(c as int, target as int) == doubled_until(1, target as int),
        decreases (if c < target { target - c } else { 0 }),
    {
        c = c * 2;
    }
    if c < 8 { 8 } else { c }
}

/// One entry of the edge table: the edge and its single owner use, or `None`
/// once the edge has been paired.
struct EdgeEntry {
    edge: EdgeKey,
    owner: Option<usize>,
}

/// Reciprocal triangle adjacency: slot `e` of triangle `t` names the other
/// triangle that uses the same edge, or `None` on the boundary.
pub fn triangle_neighbors(triangles: &[Triangle]) -> (r: Result<Vec<[Option<usize>; 3]>, Error>)
    requires
        triangles@.len() <= usize::MAX / 8,
    ensures
        match adjacency_failure(triangles@) {
            Some(e) => r == Err::<Vec<[Option<usize>; 3]>, Error>(e),
            None => r matches Ok(neighbors) && neighbors@.len() == triangles@.len()
                && forall|t: int, slot: int| 0 <= t < triangles@.len() && 0 <= slot < 3
                    ==> #[trigger] neighbors@[t][slot] == neighbor_of(triangles@, t, slot),
        },
{
    let n = triangles.len();
    let ghost tris = triangles@;
    let mut neighbors: Vec<[Option<usize>; 3]> = Vec::new();
    let mut i: usize = 0;
    while i < n
        invariant
            0 <= i <= n,
            n == triangles@.len(),
            neighbors@.len() == i,
            forall|j: int| 0 <= j < i ==> #[trigger] neighbors@[j] == [None::<usize>, None, None],
        decreases n - i,
    {
        neighbors.push([None, None, None]);
        i = i + 1;
    }
    let capacity = adjacency_table_capacity(n);
    let mut table: Vec<EdgeEntry> = Vec::new();
    let mut u: usize = 0;
    let total = 3 * n;
    proof {
        assert(table@.map_values(|e: EdgeEntry| e.edge).to_set() =~= prefix_edges(tris, 0));
    }
    while u < total
        invariant
            0 <= u <= total,
            total == 3 * n,
            n == tris.len(),
            tris == triangles@,
            capacity == adjacency_capacity(n as int),
            neighbors@.len() == n,
            first_failure(tris, capacity as int, u as int) is None,
            table@.len() <= capacity,
            table@.map_values(|e: EdgeEntry| e.edge).no_duplicates(),
            table@.map_values(|e: EdgeEntry| e.edge).to_set() == prefix_edges(tris, u as int),
            forall|k: int| 0 <= k < table@.len() ==> match (#[trigger] table@[k]).owner {
                Some(o) => o < u && use_edge(tris, o as int) == table@[k].edge && use_count(tris, table@[k].edge, u as int) == 1,
                None => use_count(tris, table@[k].edge, u as int) == 2,
            },
            forall|w: int| 0 <= w < total ==> match #[trigger] neighbors@[w / 3][w % 3] {
                Some(x) => w < u && exists|v: int| 0 <= v < u && v != w && use_edge(tris, v) == use_edge(tris, w) && v / 3 == x,
                None => !(w < u && exists|v: int| 0 <= v < u && v != w && use_edge(tris, v) == use_edge(tris, w)),
            },
        decreases total - u,
    {
        let t = u / 3;
        let slot = u % 3;
        let tri = triangles[t];
        let edge = if slot == 0 { EdgeKey::new(tri[0], tri[1]) } else if slot == 1 { EdgeKey::new(tri[1], tri[2]) } else { EdgeKey::new(tri[2], tri[0]) };
        assert(edge == use_edge(tris, u as int));
        let ghost edges = table@.map_values(|e: EdgeEntry| e.edge);
        proof {
            lemma_prefix_edges_step(tris, u as int);
            lemma_use_count_zero(tris, edge, u as int);
            lemma_use_count_nonneg(tris, edge, u as int);
        }
        let mut k: usize = 0;
        let mut found: Option<usize> = None;
        while k < table.len() && found.is_none()
            invariant
                0 <= k <= table@.len(),
                found is None ==> forall|j: int| 0 <= j < k ==> (#[trigger] table@[j]).edge != edge,
                found matches Some(j) ==> j < table@.len() && table@[j as int].edge == edge,
            decreases table@.len() - k, if found is None { 1int } else { 0int },
        {
            if table[k].edge == edge {
                found = Some(k);
            } else {
                k = k + 1;
            }
        }
        match found {
            Some(position) => {
                proof {
                    assert(edges[position as int] == edge);
                    assert(prefix_edges(tris, u as int).contains(edge));
                }
                match table[position].owner {
                    None => {
                        proof {
                            assert(use_count(tris, edge, u as int) == 2);
                            assert(third_use_at(tris, u as int));
                            assert(first_failure(tris, capacity as int, u as int + 1) == Some(u as int));
                            lemma_first_failure_persists(tris, capacity as int, u as int + 1, total as int);
                        }
                        return Err(Error::InvalidInput { reason: "Delaunay edge has more than two incident faces" });
                    },
                    Some(owner) => {
                        let first_triangle = owner / 3;
                        let first_slot = owner % 3;
                        let ghost old_neighbors = neighbors@;
                        let mut row = neighbors[first_triangle];
                        row[first_slot] = Some(t);
                        neighbors.set(first_triangle, row);
                        let mut row = neighbors[t];
                        row[slot] = Some(first_triangle);
                        neighbors.set(t, row);
                        let ghost old_table = table@;
                        table.set(position, EdgeEntry { edge, owner: None });
                        proof {
                            assert(use_count(tris, edge, u as int + 1) == 2);
                            assert(!third_use_at(tris, u as int));
                            assert(!overflow_at(tris, u as int, capacity as int));
                            assert(table@.map_values(|e: EdgeEntry| e.edge) =~= edges);
                            assert(prefix_edges(tris, u as int + 1) =~= prefix_edges(tris, u as int));
                            assert forall|k: int| 0 <= k < table@.len() implies match (#[trigger] table@[k]).owner {
                                Some(o) => o < u + 1 && use_edge(tris, o as int) == table@[k].edge && use_count(tris, table@[k].edge, u + 1) == 1,
                                None => use_count(tris, table@[k].edge, u + 1) == 2,
                            } by {
                                if k != position {
                                    assert(old_table[k] == table@[k]);
                                    assert(edges[k] != edges[position as int]);
                                }
                            }
                            assert forall|w: int| 0 <= w < total implies match #[trigger] neighbors@[w / 3][w % 3] {
                                Some(x) => w < u + 1 && exists|v: int| 0 <= v < u + 1 && v != w && use_edge(tris, v) == use_edge(tris, w) && v / 3 == x,
                                None => !(w < u + 1 && exists|v: int| 0 <= v < u + 1 && v != w && use_edge(tris, v) == use_edge(tris, w)),
                            } by {
                                if w == u as int {
                                    assert(neighbors@[w / 3][w % 3] == Some(first_triangle));
                                    assert(0 <= owner < u + 1 && owner != w && use_edge(tris, owner as int) == use_edge(tris, w) && owner / 3 == first_triangle);
                                } else if w == owner as int {
                                    assert(neighbors@[w / 3][w % 3] == Some(t));
                                    assert(0 <= u < u + 1 && u != w && use_edge(tris, u as int) == use_edge(tris, w) && u / 3 == t);
                                } else {
                                    assert(w / 3 != t || w % 3 != slot);
                                    assert(w / 3 != first_triangle || w % 3 != first_slot);
                                    assert(neighbors@[w / 3][w % 3] == old_neighbors[w / 3][w % 3]);
                                    if w < u && use_edge(tris, w) == edge {
                                        // a third use of the edge would make its count exceed one below u
                                        if w < owner {
                                            lemma_use_count_step(tris, edge, w, owner as int);
                                            lemma_use_count_step(tris, edge, owner as int, u as int);
                                            lemma_use_count_nonneg(tris, edge, w);
                                        } else {
                                            lemma_use_count_step(tris, edge, owner as int, w);
                                            lemma_use_count_step(tris, edge, w, u as int);
                                            lemma_use_count_nonneg(tris, edge, owner as int);
                                        }
                                        assert(false);
                                    }
                                    if w < u && (exists|v: int| 0 <= v < u + 1 && v != w && use_edge(tris, v) == use_edge(tris, w)) {
                                        let v = choose|v: int| 0 <= v < u + 1 && v != w && use_edge(tris, v) == use_edge(tris, w);
                                        assert(v < u);
                                    }
                                }
                            }
                        }
                    },
                }
            },
            None => {
                proof {
                    assert(!edges.contains(edge)) by {
                        if edges.contains(edge) {
                            let j = choose|j: int| 0 <= j < edges.len() && edges[j] == edge;
                            assert(table@[j].edge == edge);
                        }
                    }
                    assert(!prefix_edges(tris, u as int).contains(edge));
                    edges.unique_seq_to_set();
                    assert(use_count(tris, edge, u as int + 1) == 1);
                    assert(!third_use_at(tris, u as int));
                }
                if table.len() == capacity {
                    proof {
                        assert(overflow_at(tris, u as int, capacity as int));
                        assert(first_failure(tris, capacity as int, u as int + 1) == Some(u as int));
                        lemma_first_failure_persists(tris, capacity as int, u as int + 1, total as int);
                    }
                    return Err(Error::InvalidInput { reason: "triangle adjacency table occupancy invariant failed" });
                }
                let ghost old_table = table@;
                table.push(EdgeEntry { edge, owner: Some(u) });
                proof {
                    edges.unique_seq_to_set();
                    assert(!overflow_at(tris, u as int, capacity as int));
                    let ne = table@.map_values(|e: EdgeEntry| e.edge);
                    assert(ne =~= edges.push(edge));
                    edges.lemma_push_to_set_commute(edge);
                    assert(ne.no_duplicates()) by {
                        assert forall|a: int, b: int| 0 <= a < b < ne.len() implies ne[a] != ne[b] by {
                            if b == ne.len() - 1 {
                                assert(edges[a] == ne[a]);
                            }
                        }
                    }
                    assert forall|k: int| 0 <= k < table@.len() implies match (#[trigger] table@[k]).owner {
                        Some(o) => o < u + 1 && use_edge(tris, o as int) == table@[k].edge && use_count(tris, table@[k].edge, u + 1) == 1,
                        None => use_count(tris, table@[k].edge, u + 1) == 2,
                    } by {
                        if k < old_table.len() {
                            assert(old_table[k] == table@[k]);
                            assert(edges[k] != edge);
                        }
                    }
                    assert forall|w: int| 0 <= w < total implies match #[trigger] neighbors@[w / 3][w % 3] {
                        Some(x) => w < u + 1 && exists|v: int| 0 <= v < u + 1 && v != w && use_edge(tris, v) == use_edge(tris, w) && v / 3 == x,
                        None => !(w < u + 1 && exists|v: int| 0 <= v < u + 1 && v != w && use_edge(tris, v) == use_edge(tris, w)),
                    } by {
                        if w == u as int {
                            if exists|v: int| 0 <= v < u + 1 && v != w && use_edge(tris, v) == use_edge(tris, w) {
                                let v = choose|v: int| 0 <= v < u + 1 && v != w && use_edge(tris, v) == use_edge(tris, w);
                                assert(prefix_edges(tris, u as int).contains(edge)) by {
                                    assert(use_edge(tris, v) == edge);
                                }
                            }
                        } else if w < u {
                            if exists|v: int| 0 <= v < u + 1 && v != w && use_edge(tris, v) == use_edge(tris, w) {
                                let v = choose|v: int| 0 <= v < u + 1 && v != w && use_edge(tris, v) == use_edge(tris, w);
                                if v == u as int {
                                    assert(prefix_edges(tris, u as int).contains(edge)) by {
                                        assert(use_edge(tris, w) == edge);
                                    }
                                }
                            }
                        }
                    }
                    assert(table@.map_values(|e: EdgeEntry| e.edge).to_set() == prefix_edges(tris, u as int + 1));
                }
            },
        }
        u = u + 1;
    }
    proof {
        assert forall|t: int, slot: int| 0 <= t < n && 0 <= slot < 3 implies #[trigger] neighbors@[t][slot] == neighbor_of(tris, t, slot) by {
            let w = 3 * t + slot;
            assert(w / 3 == t && w % 3 == slot);
            lemma_partner_unique(tris, w, table@.map_values(|e: EdgeEntry| e.edge), table@);
            match neighbors@[w / 3][w % 3] {
                Some(x) => {
                    let v0 = choose|v: int| 0 <= v < total && v != w && use_edge(tris, v) == use_edge(tris, w) && v / 3 == x;
                    assert(partner_use(tris, w) == Some(v0));
                },
                None => {},
            }
        }
    }
    Ok(neighbors)
}

/// Without a construction failure, no use is the third use of its edge.
proof fn lemma_no_third_use(triangles: Seq<Triangle>, capacity: int, n: int, u: int)
    requires
        0 <= u < n,
        first_failure(triangles, capacity, n) is None,
    ensures
        !third_use_at(triangles, u),
{
    if third_use_at(triangles, u) {
        assert(first_failure(triangles, capacity, u + 1) is Some);
        lemma_first_failure_persists(triangles, capacity, u + 1, n);
    }
}

/// Adjacency is reciprocal: when triangle `t` names triangle `u` across one
/// of its edges, `u` names `t` across one of its own edges.
pub proof fn lemma_neighbors_reciprocal(triangles: Seq<Triangle>, t: int, slot: int)
    requires
        triangles.len() <= usize::MAX / 8,
        adjacency_failure(triangles) is None,
        0 <= t < triangles.len(),
        0 <= slot < 3,
        neighbor_of(triangles, t, slot) is Some,
    ensures
        (neighbor_of(triangles, t, slot)->0 as int) < triangles.len(),
        exists|other: int| 0 <= other < 3
            && #[trigger] neighbor_of(triangles, neighbor_of(triangles, t, slot)->0 as int, other) == Some(t as usize),
{
    let n = (3 * triangles.len()) as int;
    let capacity = adjacency_capacity(triangles.len() as int);
    let w = 3 * t + slot;
    let v = partner_use(triangles, w)->0;
    assert(0 <= v < n && v != w && use_edge(triangles, v) == use_edge(triangles, w));
    let u = v / 3;
    assert(3 * u + v % 3 == v);
    assert(exists|x: int| 0 <= x < n && x != v && use_edge(triangles, x) == use_edge(triangles, v)) by {
        assert(0 <= w < n && w != v && use_edge(triangles, w) == use_edge(triangles, v));
    }
    let x = partner_use(triangles, v)->0;
    assert(0 <= x < n && x != v && use_edge(triangles, x) == use_edge(triangles, v));
    if x != w {
        let a = if v < w { if v < x { v } else { x } } else { if w < x { w } else { x } };
        let c = if v > w { if v > x { v } else { x } } else { if w > x { w } else { x } };
        let b = if a != v && c != v { v } else if a != w && c != w { w } else { x };
        lemma_three_uses(triangles, a, b, c, c + 1);
        assert(use_edge(triangles, c) == use_edge(triangles, a));
        lemma_no_third_use(triangles, capacity, n, c);
    }
    assert(w / 3 == t);
    assert(neighbor_of(triangles, t, slot)->0 as int == u);
    assert(neighbor_of(triangles, u, v % 3) == Some(t as usize));
}

/// One use of an edge by a triangle.
#[derive(Clone, Copy, Debug, PartialEq, Eq, PartialOrd, Ord, Structural)]
pub struct EdgeUse {
    /// The undirected edge.
    pub edge: EdgeKey,
    /// The triangle using it.
    pub triangle: usize,
}

/// Order of edge uses: by edge, then by triangle.
pub open spec fn use_leq() -> spec_fn(EdgeUse, EdgeUse) -> bool {
    |a: EdgeUse, b: EdgeUse| edge_lt(a.edge, b.edge) || (a.edge == b.edge && a.triangle <= b.triangle)
}

/// `use_leq` is a total order.
pub proof fn lemma_use_leq_total()
    ensures
        vstd::relations::total_ordering(use_leq()),
{
}

/// The edge uses of a triangle list in triangle and slot order.
pub open spec fn all_uses(triangles: Seq<Triangle>) -> Seq<EdgeUse> {
    Seq::new((3 * triangles.len()) as nat, |u: int| EdgeUse { edge: use_edge(triangles, u), triangle: (u / 3) as usize })
}

/// Index one past the run of uses sharing the edge of `uses[i]`.
pub open spec fn run_end(uses: Seq<EdgeUse>, i: int) -> int
    decreases uses.len() - i,
{
    if i + 1 < uses.len() && uses[i + 1].edge == uses[i].edge {
        run_end(uses, i + 1)
    } else {
        i + 1
    }
}

/// Grouped edges of sorted uses from position `i`: each edge with its one
/// owner (`None`) or two owners, failing on a repeated owner or a third use.
pub open spec fn edge_groups(uses: Seq<EdgeUse>, i: int) -> Result<Seq<(EdgeKey, Option<[usize; 2]>)>, Error>
    decreases uses.len() - i,
{
    if i < 0 || i >= uses.len() {
        Ok(Seq::empty())
    } else {
        let j = run_end(uses, i);
        if j <= i {
            Ok(Seq::empty())
        } else {
            let head: Result<(EdgeKey, Option<[usize; 2]>), Error> = if j - i == 1 {
                Ok((uses[i].edge, None))
            } else if j - i == 2 {
                if uses[i].triangle == uses[i + 1].triangle {
                    Err(Error::InvalidInput { reason: "triangle contains the same edge more than once" })
                } else {
                    Ok((uses[i].edge, Some([uses[i].triangle, uses[i + 1].triangle])))
                }
            } else {
                Err(Error::InvalidInput { reason: "triangulation edge has more than two adjacent triangles" })
            };
            match head {
                Err(e) => Err(e),
                Ok(g) => match edge_groups(uses, j) {
                    Err(e) => Err(e),
                    Ok(rest) => Ok(seq![g] + rest),
                },
            }
        }
    }
}

pub(crate) proof fn lemma_run_end_bounds(uses: Seq<EdgeUse>, i: int)
    requires
        0 <= i < uses.len(),
    ensures
        i < run_end(uses, i) <= uses.len(),
        forall|k: int| i <= k < run_end(uses, i) ==> #[trigger] uses[k].edge == uses[i].edge,
        run_end(uses, i) < uses.len() ==> uses[run_end(uses, i)].edge != uses[i].edge,
    decreases uses.len() - i,
{
    if i + 1 < uses.len() && uses[i + 1].edge == uses[i].edge {
        lemma_run_end_bounds(uses, i + 1);
    }
}

/// Sorted edge-use stream of a triangulation.
#[derive(Debug)]
pub struct TopologyEdges {
    uses: Vec<EdgeUse>,
}

/// Whether use `a` orders at or before `b`.
fn use_less_eq(a: EdgeUse, b: EdgeUse) -> (r: bool)
    ensures
        r == use_leq()(a, b),
{
    edge_less(a.edge, b.edge) || (a.edge == b.edge && a.triangle <= b.triangle)
}

/// Sort edge uses by edge then triangle.
fn sort_uses(v: &mut Vec<EdgeUse>)
    ensures
        final(v)@ == old(v)@.sort_by(use_leq()),
{
    let ghost original = v@;
    let n = v.len();
    proof { lemma_use_leq_total(); }
    if n == 0 {
        proof {
            original.lemma_sort_by_ensures(use_leq());
            vstd::seq_lib::lemma_sorted_unique(v@, original.sort_by(use_leq()), use_leq());
        }
        return;
    }
    let mut i: usize = 1;
    while i < n
        invariant
            1 <= i <= n,
            n == v@.len(),
            v@.to_multiset() == original.to_multiset(),
            vstd::relations::total_ordering(use_leq()),
            forall|a: int, b: int| 0 <= a < b < i ==> use_leq()(#[trigger] v@[a], #[trigger] v@[b]),
        decreases n - i,
    {
        let mut j = i;
        while j > 0 && !use_less_eq(v[j - 1], v[j])
            invariant
                0 <= j <= i < n,
                n == v@.len(),
                v@.to_multiset() == original.to_multiset(),
                vstd::relations::total_ordering(use_leq()),
                forall|a: int, b: int| 0 <= a < b <= i && a != j && b != j ==> use_leq()(#[trigger] v@[a], #[trigger] v@[b]),
                forall|b: int| j < b <= i ==> use_leq()(v@[j as int], #[trigger] v@[b]),
            decreases j,
        {
            let x = v[j - 1];
            let y = v[j];
            let ghost before = v@;
            v.set(j - 1, y);
            v.set(j, x);
            proof {
                assert(v@ =~= before.update(j - 1, before[j as int]).update(j as int, before[j - 1]));
                crate::seqs::lemma_seq_swap_multiset(before, j - 1, j as int);
            }
            j = j - 1;
        }
        proof {
            assert forall|a: int, b: int| 0 <= a < b < i + 1 implies use_leq()(#[trigger] v@[a], #[trigger] v@[b]) by {
                if b == j && a < j {
                    assert(use_leq()(v@[j - 1], v@[j as int]));
                    if a < j - 1 {
                        assert(use_leq()(v@[a], v@[j - 1]));
                    }
                }
            }
        }
        i = i + 1;
    }
    proof {
        original.lemma_sort_by_ensures(use_leq());
        vstd::seq_lib::lemma_sorted_unique(v@, original.sort_by(use_leq()), use_leq());
    }
}

impl TopologyEdges {
    /// The sorted uses.
    pub closed spec fn uses_view(&self) -> Seq<EdgeUse> {
        self.uses@
    }

    /// Builds one deterministic edge-use stream for the current
    /// triangulation, rejecting triangles with a repeated vertex.
    pub fn new(triangles: &[Triangle]) -> (r: Result<TopologyEdges, Error>)
        ensures
            3 * triangles@.len() > usize::MAX ==> r == Err::<TopologyEdges, Error>(Error::InvalidInput { reason: "triangle topology capacity overflow" }),
            3 * triangles@.len() <= usize::MAX && (exists|t: int| 0 <= t < triangles@.len() && !nondegenerate(#[trigger] triangles@[t]))
                ==> r == Err::<TopologyEdges, Error>(Error::InvalidInput { reason: "triangle edge has no opposite vertex" }),
            3 * triangles@.len() <= usize::MAX && (forall|t: int| 0 <= t < triangles@.len() ==> nondegenerate(#[trigger] triangles@[t]))
                ==> (r matches Ok(edges) && edges.uses_view() == all_uses(triangles@).sort_by(use_leq())),
    {
        let capacity = match triangles.len().checked_mul(3) {
            Some(c) => c,
            None => return Err(Error::InvalidInput { reason: "triangle topology capacity overflow" }),
        };
        let mut uses: Vec<EdgeUse> = Vec::new();
        let mut t: usize = 0;
        while t < triangles.len()
            invariant
                0 <= t <= triangles@.len(),
                capacity == 3 * triangles@.len(),
                uses@ == all_uses(triangles@).subrange(0, 3 * t as int),
                forall|k: int| 0 <= k < t ==> nondegenerate(#[trigger] triangles@[k]),
            decreases triangles.len() - t,
        {
            let tri = triangles[t];
            if tri[0] == tri[1] || tri[1] == tri[2] || tri[2] == tri[0] {
                return Err(Error::InvalidInput { reason: "triangle edge has no opposite vertex" });
            }
            uses.push(EdgeUse { edge: EdgeKey::new(tri[0], tri[1]), triangle: t });
            uses.push(EdgeUse { edge: EdgeKey::new(tri[1], tri[2]), triangle: t });
            uses.push(EdgeUse { edge: EdgeKey::new(tri[2], tri[0]), triangle: t });
            proof {
                let all = all_uses(triangles@);
                assert((3 * t) / 3 == t && (3 * t + 1) / 3 == t && (3 * t + 2) / 3 == t);
                assert((3 * t) % 3 == 0 && (3 * t + 1) % 3 == 1 && (3 * t + 2) % 3 == 2);
                assert(uses@ =~= all.subrange(0, 3 * (t + 1)));
            }
            t = t + 1;
        }
        proof {
            assert(all_uses(triangles@).subrange(0, 3 * triangles@.len() as int) =~= all_uses(triangles@));
        }
        sort_uses(&mut uses);
        Ok(TopologyEdges { uses })
    }

    /// Group the sorted uses by edge: each edge with its single owner or its
    /// two owners, failing at the first edge with a repeated owner or more
    /// than two owners.
    pub fn collect_edges(&self) -> (r: Result<Vec<(EdgeKey, Option<[usize; 2]>)>, Error>)
        ensures
            match edge_groups(self.uses_view(), 0) {
                Ok(groups) => r matches Ok(v) && v@ == groups,
                Err(e) => r == Err::<Vec<(EdgeKey, Option<[usize; 2]>)>, Error>(e),
            },
    {
        let uses = &self.uses;
        let mut out: Vec<(EdgeKey, Option<[usize; 2]>)> = Vec::new();
        let mut next: usize = 0;
        while next < uses.len()
            invariant
                0 <= next <= uses@.len(),
                uses@ == self.uses_view(),
                match edge_groups(uses@, 0) {
                    Ok(groups) => edge_groups(uses@, next as int) matches Ok(rest) && groups == out@ + rest,
                    Err(e) => edge_groups(uses@, next as int) == Err::<Seq<(EdgeKey, Option<[usize; 2]>)>, Error>(e),
                },
            decreases uses@.len() - next,
        {
            let first = uses[next];
            let mut end = next + 1;
            proof { lemma_run_end_bounds(uses@, next as int); }
            while end < uses.len() && uses[end].edge == first.edge
                invariant
                    next < end <= uses@.len(),
                    first == uses@[next as int],
                    forall|k: int| next <= k < end ==> #[trigger] uses@[k].edge == first.edge,
                    run_end(uses@, next as int) == run_end(uses@, end - 1),
                decreases uses@.len() - end,
            {
                assert(uses@[end - 1].edge == first.edge);
                end = end + 1;
            }
            proof {
                assert(uses@[end - 1].edge == first.edge);
                assert(run_end(uses@, end - 1) == end);
            }
            let count = end - next;
            let ghost rest = edge_groups(uses@, end as int);
            if count == 1 {
                out.push((first.edge, None));
            } else if count == 2 {
                let second = uses[end - 1];
                if first.triangle == second.triangle {
                    return Err(Error::InvalidInput { reason: "triangle contains the same edge more than once" });
                }
                out.push((first.edge, Some([first.triangle, second.triangle])));
            } else {
                return Err(Error::InvalidInput { reason: "triangulation edge has more than two adjacent triangles" });
            }
            proof {
                match edge_groups(uses@, 0) {
                    Ok(groups) => {
                        assert(out@ + rest->Ok_0 =~= (out@.drop_last() + (seq![out@.last()] + rest->Ok_0)));
                    },
                    Err(e) => {},
                }
            }
            next = end;
        }
        Ok(out)
    }
}

/// The first input error of retained-topology construction among the
/// triangles below `k`.
pub open spec fn topology_input_error(triangles: Seq<Triangle>, point_count: int, k: int) -> Option<Error>
    decreases k,
{
    if k <= 0 {
        None
    } else {
        match topology_input_error(triangles, point_count, k - 1) {
            Some(e) => Some(e),
            None => {
                let tri = triangles[k - 1];
                if !nondegenerate(tri) {
                    Some(Error::InvalidInput { reason: "triangle edge has no opposite vertex" })
                } else if tri[0] >= point_count || tri[1] >= point_count || tri[2] >= point_count {
                    Some(Error::InvalidInput { reason: "triangle vertex index is out of bounds" })
                } else {
                    None
                }
            },
        }
    }
}

/// Whether `v` is a vertex of `triangle`.
pub open spec fn has_vertex(triangle: Triangle, v: int) -> bool {
    triangle[0] == v || triangle[1] == v || triangle[2] == v
}

/// The last triangle below `k` that has vertex `v`.
pub open spec fn last_triangle_with(triangles: Seq<Triangle>, v: int, k: int) -> Option<usize>
    decreases k,
{
    if k <= 0 {
        None
    } else if has_vertex(triangles[k - 1], v) {
        Some((k - 1) as usize)
    } else {
        last_triangle_with(triangles, v, k - 1)
    }
}

proof fn lemma_topology_error_persists(triangles: Seq<Triangle>, point_count: int, k: int, m: int)
    requires
        0 < k <= m,
        topology_input_error(triangles, point_count, k) is Some,
    ensures
        topology_input_error(triangles, point_count, m) == topology_input_error(triangles, point_count, k),
    decreases m - k,
{
    if m > k {
        lemma_topology_error_persists(triangles, point_count, k, m - 1);
    }
}

/// Checked triangle adjacency retained through a batch of local mutations:
/// one reciprocal neighbor row per triangle slot and one representative
/// triangle per vertex.
#[derive(Debug)]
pub struct TriangleTopology {
    /// Neighbor across each edge slot of each triangle.
    pub neighbors: Vec<[Option<usize>; 3]>,
    /// Some triangle incident to each vertex.
    pub vertex_triangles: Vec<Option<usize>>,
}

impl TriangleTopology {
    /// Build the retained topology of `triangles` over `point_count` vertices.
    pub fn new(triangles: &[Triangle], point_count: usize) -> (r: Result<TriangleTopology, Error>)
        requires
            triangles@.len() <= usize::MAX / 8,
        ensures
            match topology_input_error(triangles@, point_count as int, triangles@.len() as int) {
                Some(e) => r == Err::<TriangleTopology, Error>(e),
                None => match adjacency_failure(triangles@) {
                    Some(e) => r == Err::<TriangleTopology, Error>(e),
                    None => r matches Ok(topology) && {
                        &&& topology.neighbors@.len() == triangles@.len()
                        &&& forall|t: int, slot: int| 0 <= t < triangles@.len() && 0 <= slot < 3
                            ==> #[trigger] topology.neighbors@[t][slot] == neighbor_of(triangles@, t, slot)
                        &&& topology.vertex_triangles@.len() == point_count
                        &&& forall|v: int| 0 <= v < point_count ==> #[trigger] topology.vertex_triangles@[v]
                            == last_triangle_with(triangles@, v, triangles@.len() as int)
                    },
                },
            },
    {
        let mut vertex_triangles: Vec<Option<usize>> = Vec::new();
        let mut v: usize = 0;
        while v < point_count
            invariant
                0 <= v <= point_count,
                vertex_triangles@.len() == v,
                forall|w: int| 0 <= w < v ==> #[trigger] vertex_triangles@[w] is None,
            decreases point_count - v,
        {
            vertex_triangles.push(None);
            v = v + 1;
        }
        let mut t: usize = 0;
        while t < triangles.len()
            invariant
                0 <= t <= triangles@.len(),
                vertex_triangles@.len() == point_count,
                topology_input_error(triangles@, point_count as int, t as int) is None,
                forall|w: int| 0 <= w < point_count ==> #[trigger] vertex_triangles@[w] == last_triangle_with(triangles@, w, t as int),
            decreases triangles.len() - t,
        {
            let tri = triangles[t];
            if tri[0] == tri[1] || tri[1] == tri[2] || tri[2] == tri[0] {
                proof {
                    lemma_topology_error_persists(triangles@, point_count as int, t + 1, triangles@.len() as int);
                }
                return Err(Error::InvalidInput { reason: "triangle edge has no opposite vertex" });
            }
            if tri[0] >= point_count || tri[1] >= point_count || tri[2] >= point_count {
                proof {
                    lemma_topology_error_persists(triangles@, point_count as int, t + 1, triangles@.len() as int);
                }
                return Err(Error::InvalidInput { reason: "triangle vertex index is out of bounds" });
            }
            vertex_triangles.set(tri[0], Some(t));
            vertex_triangles.set(tri[1], Some(t));
            vertex_triangles.set(tri[2], Some(t));
            t = t + 1;
        }
        let neighbors = match triangle_neighbors(triangles) {
            Ok(n) => n,
            Err(e) => return Err(e),
        };
        Ok(TriangleTopology { neighbors, vertex_triangles })
    }

    /// Borrow the neighbor rows.
    pub fn neighbors(&self) -> (r: &[[Option<usize>; 3]])
        ensures
            r@ == self.neighbors@,
    {
        self.neighbors.as_slice()
    }

    /// A triangle incident to `vertex`, if one is recorded.
    pub fn vertex_triangle(&self, vertex: usize) -> (r: Option<usize>)
        ensures
            vertex < self.vertex_triangles@.len() ==> r == self.vertex_triangles@[vertex as int],
            vertex >= self.vertex_triangles@.len() ==> r is None,
    {
        if vertex < self.vertex_triangles.len() {
            self.vertex_triangles[vertex]
        } else {
            None
        }
    }

    /// The neighbor across the edge `first`-`second` of `triangle`.
    pub fn neighbor_across_vertices(&self, triangles: &[Triangle], triangle: usize, first: usize, second: usize) -> (r: Result<Option<usize>, Error>)
        requires
            self.neighbors@.len() >= triangles@.len(),
        ensures
            r == neighbor_across_result(self.neighbors@, triangles@, triangle as int, edge_key(first, second)),
    {
        self.neighbor_across(triangles, triangle, EdgeKey::new(first, second))
    }

    /// The neighbor across `edge` of `triangle`, checking that the link is
    /// reciprocal.
    pub fn neighbor_across(&self, triangles: &[Triangle], triangle: usize, edge: EdgeKey) -> (r: Result<Option<usize>, Error>)
        requires
            self.neighbors@.len() >= triangles@.len(),
        ensures
            r == neighbor_across_result(self.neighbors@, triangles@, triangle as int, edge),
    {
        if triangle >= triangles.len() {
            return Err(Error::InvalidInput { reason: "triangle topology references an absent triangle" });
        }
        let indices = triangles[triangle];
        let slot = match triangle_edge_slot(indices, edge) {
            Ok(s) => s,
            Err(e) => return Err(e),
        };
        let neighbor = match self.neighbors[triangle][slot] {
            None => return Ok(None),
            Some(n) => n,
        };
        if neighbor >= triangles.len() {
            return Err(Error::InvalidInput { reason: "triangle adjacency references an absent triangle" });
        }
        let neighbor_indices = triangles[neighbor];
        let neighbor_slot = match triangle_edge_slot(neighbor_indices, edge) {
            Ok(s) => s,
            Err(e) => return Err(e),
        };
        if self.neighbors[neighbor][neighbor_slot] != Some(triangle) {
            return Err(Error::InvalidInput { reason: "triangle adjacency is not reciprocal" });
        }
        Ok(Some(neighbor))
    }
}

/// Result of looking up the neighbor across `edge` of triangle `t`.
pub open spec fn neighbor_across_result(neighbors: Seq<[Option<usize>; 3]>, triangles: Seq<Triangle>, t: int, edge: EdgeKey) -> Result<Option<usize>, Error> {
    if !(0 <= t < triangles.len()) {
        Err(Error::InvalidInput { reason: "triangle topology references an absent triangle" })
    } else {
        match edge_slot_of(triangles[t], edge) {
            None => Err(Error::InvalidInput { reason: "triangle topology references an absent edge" }),
            Some(slot) => match neighbors[t][slot] {
                None => Ok(None),
                Some(n) => if n >= triangles.len() {
                    Err(Error::InvalidInput { reason: "triangle adjacency references an absent triangle" })
                } else {
                    match edge_slot_of(triangles[n as int], edge) {
                        None => Err(Error::InvalidInput { reason: "triangle topology references an absent edge" }),
                        Some(back) => if neighbors[n as int][back] == Some(t as usize) {
                            Ok(Some(n))
                        } else {
                            Err(Error::InvalidInput { reason: "triangle adjacency is not reciprocal" })
                        },
                    }
                },
            },
        }
    }
}

/// Whether `x` is one of `s`.
pub(crate) fn contains_usize(s: &[usize], x: usize) -> (r: bool)
    ensures
        r == s@.contains(x),
{
    let mut i: usize = 0;
    while i < s.len()
        invariant
            0 <= i <= s@.len(),
            forall|j: int| 0 <= j < i ==> s@[j] != x,
        decreases s.len() - i,
    {
        if s[i] == x {
            proof { assert(s@[i as int] == x); }
            return true;
        }
        i = i + 1;
    }
    false
}

/// Order of boundary records by edge.
pub open spec fn boundary_leq() -> spec_fn((EdgeKey, Option<usize>), (EdgeKey, Option<usize>)) -> bool {
    |a: (EdgeKey, Option<usize>), b: (EdgeKey, Option<usize>)| !edge_lt(b.0, a.0)
}

/// Sort boundary records by edge (stable insertion sort).
fn sort_boundary(v: &mut Vec<(EdgeKey, Option<usize>)>)
    ensures
        final(v)@.to_multiset() == old(v)@.to_multiset(),
        vstd::relations::sorted_by(final(v)@, boundary_leq()),
        final(v)@.len() == old(v)@.len(),
{
    let ghost original = v@;
    let n = v.len();
    if n == 0 {
        return;
    }
    let mut i: usize = 1;
    while i < n
        invariant
            1 <= i <= n,
            n == v@.len(),
            v@.to_multiset() == original.to_multiset(),
            forall|a: int, b: int| 0 <= a < b < i ==> !edge_lt((#[trigger] v@[b]).0, (#[trigger] v@[a]).0),
        decreases n - i,
    {
        let mut j = i;
        while j > 0 && edge_less(v[j].0, v[j - 1].0)
            invariant
                0 <= j <= i < n,
                n == v@.len(),
                v@.to_multiset() == original.to_multiset(),
                forall|a: int, b: int| 0 <= a < b <= i && a != j && b != j ==> !edge_lt((#[trigger] v@[b]).0, (#[trigger] v@[a]).0),
                forall|b: int| j < b <= i ==> edge_lt(v@[j as int].0, (#[trigger] v@[b]).0),
            decreases j,
        {
            let x = v[j - 1];
            let y = v[j];
            let ghost before = v@;
            v.set(j - 1, y);
            v.set(j, x);
            proof {
                assert(v@ =~= before.update(j - 1, before[j as int]).update(j as int, before[j - 1]));
                crate::seqs::lemma_seq_swap_multiset(before, j - 1, j as int);
            }
            j = j - 1;
        }
        i = i + 1;
    }
    proof {
        assert forall|a: int, b: int| 0 <= a < b < v@.len() implies #[trigger] boundary_leq()(v@[a], v@[b]) by {}
    }
}

/// Whether the outside triangle of a boundary record, if any, lies below `n`.
pub open spec fn outside_below(record: (EdgeKey, Option<usize>), n: int) -> bool {
    match record.1 {
        Some(o) => o < n,
        None => true,
    }
}

/// `row` with entry `slot` replaced by `value`.
fn with_slot(row: [Option<usize>; 3], slot: usize, value: Option<usize>) -> (r: [Option<usize>; 3])
    requires
        slot < 3,
    ensures
        r@ == row@.update(slot as int, value),
{
    if slot == 0 {
        [value, row[1], row[2]]
    } else if slot == 1 {
        [row[0], value, row[2]]
    } else {
        [row[0], row[1], value]
    }
}

/// Position of the first record with `edge`, if any.
fn find_boundary_edge(boundary: &[(EdgeKey, Option<usize>)], edge: EdgeKey) -> (r: Option<usize>)
    ensures
        match r {
            Some(p) => p < boundary@.len() && boundary@[p as int].0 == edge
                && forall|j: int| 0 <= j < p ==> (#[trigger] boundary@[j]).0 != edge,
            None => forall|j: int| 0 <= j < boundary@.len() ==> (#[trigger] boundary@[j]).0 != edge,
        },
{
    let mut i: usize = 0;
    while i < boundary.len()
        invariant
            0 <= i <= boundary@.len(),
            forall|j: int| 0 <= j < i ==> (#[trigger] boundary@[j]).0 != edge,
        decreases boundary.len() - i,
    {
        if boundary[i].0 == edge {
            return Some(i);
        }
        i = i + 1;
    }
    None
}

/// Number of the first `k` listed region triangles that contain both
/// endpoints of `edge`.
pub open spec fn region_uses(triangles: Seq<Triangle>, indices: Seq<usize>, edge: EdgeKey, k: int) -> int
    decreases k,
{
    if k <= 0 {
        0
    } else {
        region_uses(triangles, indices, edge, k - 1) + if triangle_has_edge(triangles[indices[k - 1] as int], edge) { 1int } else { 0int }
    }
}

/// Number of region triangles that contain both endpoints of `edge`.
fn count_region_uses(triangles: &[Triangle], indices: &[usize], edge: EdgeKey) -> (r: usize)
    requires
        forall|k: int| 0 <= k < indices@.len() ==> #[trigger] indices@[k] < triangles@.len(),
    ensures
        r <= indices@.len(),
        r == region_uses(triangles@, indices@, edge, indices@.len() as int),
{
    let mut count: usize = 0;
    let mut i: usize = 0;
    while i < indices.len()
        invariant
            0 <= i <= indices@.len(),
            count <= i,
            count == region_uses(triangles@, indices@, edge, i as int),
            forall|k: int| 0 <= k < indices@.len() ==> #[trigger] indices@[k] < triangles@.len(),
        decreases indices.len() - i,
    {
        if triangle_contains_edge(triangles[indices[i]], edge) {
            count = count + 1;
        }
        i = i + 1;
    }
    count
}

/// Whether a triangle list is a valid replacement: distinct vertices below
/// `vertex_count`.
pub open spec fn replacement_valid(replacement: Seq<Triangle>, vertex_count: int) -> bool {
    forall|l: int| 0 <= l < replacement.len() ==> nondegenerate(#[trigger] replacement[l])
        && replacement[l][0] < vertex_count && replacement[l][1] < vertex_count && replacement[l][2] < vertex_count
}

/// The slot-level precondition failure of a region replacement, if any.
pub open spec fn replacement_shape_error(
    triangle_count: int,
    vertex_count: int,
    indices: Seq<usize>,
    replacement: Seq<Triangle>,
) -> Option<Error> {
    if indices.len() == 0 || replacement.len() < indices.len() {
        Some(Error::InvalidInput { reason: "topology replacement has mismatched triangle slots" })
    } else if !strictly_increasing(indices) {
        Some(Error::InvalidInput { reason: "topology replacement triangle slots are not unique and sorted" })
    } else if exists|k: int| 0 <= k < indices.len() && #[trigger] indices[k] >= triangle_count {
        Some(Error::InvalidInput { reason: "topology replacement references an absent triangle" })
    } else if !replacement_valid(replacement, vertex_count) {
        Some(Error::InvalidInput { reason: "topology replacement contains an invalid triangle" })
    } else if triangle_count + replacement.len() - indices.len() > usize::MAX {
        Some(Error::InvalidInput { reason: "topology replacement triangle count overflow" })
    } else {
        None
    }
}

/// The triangle list after replacing the listed slots and appending the
/// extra replacement triangles.
pub open spec fn replaced_triangles(triangles: Seq<Triangle>, indices: Seq<usize>, replacement: Seq<Triangle>) -> Seq<Triangle> {
    Seq::new((triangles.len() + replacement.len() - indices.len()) as nat, |i: int|
        if i < triangles.len() {
            if exists|l: int| 0 <= l < indices.len() && indices[l] == i {
                replacement[choose|l: int| 0 <= l < indices.len() && indices[l] == i]
            } else {
                triangles[i]
            }
        } else {
            replacement[indices.len() + i - triangles.len()]
        })
}

/// The last replacement position below `m` whose triangle has vertex `v`.
pub open spec fn last_local_with(replacement: Seq<Triangle>, v: int, m: int) -> Option<int>
    decreases m,
{
    if m <= 0 {
        None
    } else if has_vertex(replacement[m - 1], v) {
        Some(m - 1)
    } else {
        last_local_with(replacement, v, m - 1)
    }
}

/// Whether edge slot `s` of replacement triangle `l` is also an edge of
/// another replacement triangle.
pub open spec fn replacement_edge_shared(replacement: Seq<Triangle>, l: int, s: int) -> bool {
    exists|l2: int, s2: int| 0 <= l2 < replacement.len() && 0 <= s2 < 3 && l2 != l
        && #[trigger] tri_edge(replacement[l2], s2) == tri_edge(replacement[l], s)
}

/// Whether `edge` is an edge of a region triangle whose recorded neighbor
/// across it is absent or outside the region.
pub open spec fn region_boundary_has(triangles: Seq<Triangle>, neighbors: Seq<[Option<usize>; 3]>, indices: Seq<usize>, edge: EdgeKey) -> bool {
    exists|k: int, s: int| 0 <= k < indices.len() && 0 <= s < 3 && #[trigger] tri_edge(triangles[indices[k] as int], s) == edge
        && boundary_slot_outside(triangles, neighbors, indices, k, s)
}

/// Whether the recorded neighbor across slot `s` of region triangle `k` is
/// absent or outside the region.
pub open spec fn boundary_slot_outside(triangles: Seq<Triangle>, neighbors: Seq<[Option<usize>; 3]>, indices: Seq<usize>, k: int, s: int) -> bool {
    match neighbor_across_result(neighbors, triangles, indices[k] as int, tri_edge(triangles[indices[k] as int], s)) {
        Ok(None) => true,
        Ok(Some(n)) => !indices.contains(n),
        Err(_) => false,
    }
}

/// Whether some replacement triangle has `edge`.
pub open spec fn replacement_has_edge(replacement: Seq<Triangle>, edge: EdgeKey) -> bool {
    exists|l: int, s: int| 0 <= l < replacement.len() && 0 <= s < 3 && #[trigger] tri_edge(replacement[l], s) == edge
}

/// Whether some record of a boundary list has `edge`.
pub open spec fn lists_edge(boundary: Seq<(EdgeKey, Option<usize>)>, edge: EdgeKey) -> bool {
    exists|j: int| 0 <= j < boundary.len() && (#[trigger] boundary[j]).0 == edge
}

/// The edge use that position `i` of the replacement's use list records:
/// slot `i % 3` of replacement triangle `i / 3`, with the triangle slot it
/// is written to.
pub open spec fn expected_use(replacement: Seq<Triangle>, indices: Seq<usize>, original_len: int, i: int) -> EdgeUse {
    EdgeUse { edge: tri_edge(replacement[i / 3], i % 3), triangle: replacement_slot(indices, original_len, i / 3) as usize }
}

/// Whether use `i` of a use list shares its edge with another use, or lies
/// on the old region boundary.
pub open spec fn use_settled(uses: Seq<EdgeUse>, triangles: Seq<Triangle>, neighbors: Seq<[Option<usize>; 3]>, indices: Seq<usize>, i: int) -> bool {
    ||| exists|j: int| 0 <= j < uses.len() && j != i && #[trigger] uses[j].edge == uses[i].edge
    ||| region_boundary_has(triangles, neighbors, indices, uses[i].edge)
}

/// Distinct slots of a triangle with three distinct vertices are distinct
/// edges.
proof fn lemma_distinct_slots(triangle: Triangle, s: int, s2: int)
    requires
        nondegenerate(triangle),
        0 <= s < 3,
        0 <= s2 < 3,
        s != s2,
    ensures
        tri_edge(triangle, s) != tri_edge(triangle, s2),
{
}

/// Division by three of `3 * l + s`.
proof fn lemma_div3(i: int, l: int, s: int)
    requires
        0 <= s < 3,
        i == 3 * l + s,
    ensures
        i / 3 == l,
        i % 3 == s,
{
    assert(i / 3 == l && i % 3 == s) by (nonlinear_arith)
        requires
            0 <= s < 3,
            i == 3 * l + s;
}

/// Whether some use below `bound` has `edge`.
pub open spec fn edge_seen(uses: Seq<EdgeUse>, edge: EdgeKey, bound: int) -> bool {
    exists|i: int| 0 <= i < bound && i < uses.len() && (#[trigger] uses[i]).edge == edge
}

proof fn lemma_edge_seen_mono(uses: Seq<EdgeUse>, edge: EdgeKey, a: int, b: int)
    requires
        edge_seen(uses, edge, a),
        a <= b,
    ensures
        edge_seen(uses, edge, b),
{
    let i = choose|i: int| 0 <= i < a && i < uses.len() && (#[trigger] uses[i]).edge == edge;
    assert(uses[i].edge == edge);
}

/// An edge that some use of the sorted list has is an edge of some
/// replacement triangle.
proof fn lemma_seen_edge_replaced(replacement: Seq<Triangle>, indices: Seq<usize>, original_len: int, pre: Seq<EdgeUse>, eu: Seq<EdgeUse>, edge: EdgeKey, bound: int)
    requires
        pre.len() == 3 * replacement.len(),
        forall|i: int| 0 <= i < pre.len() ==> #[trigger] pre[i] == expected_use(replacement, indices, original_len, i),
        pre.to_multiset() == eu.to_multiset(),
        edge_seen(eu, edge, bound),
    ensures
        replacement_has_edge(replacement, edge),
{
    let i = choose|i: int| 0 <= i < bound && i < eu.len() && (#[trigger] eu[i]).edge == edge;
    let y = eu[i];
    vstd::seq_lib::to_multiset_contains(pre, y);
    vstd::seq_lib::to_multiset_contains(eu, y);
    assert(eu.contains(y));
    let pj = choose|pj: int| 0 <= pj < pre.len() && pre[pj] == y;
    let l2 = pj / 3;
    let s2 = pj % 3;
    assert(0 <= s2 < 3 && 0 <= l2 < replacement.len()) by (nonlinear_arith)
        requires
            0 <= pj < pre.len(),
            pre.len() == 3 * replacement.len(),
            l2 == pj / 3,
            s2 == pj % 3;
    assert(pre[pj] == expected_use(replacement, indices, original_len, pj));
    assert(tri_edge(replacement[l2], s2) == edge);
}

/// Slot `s` of replacement triangle `l` either shares its edge with another
/// replacement triangle or lies on the old boundary, once every use of the
/// sorted list is settled.
proof fn lemma_same_edge_elsewhere(
    replacement: Seq<Triangle>,
    indices: Seq<usize>,
    original_len: int,
    pre: Seq<EdgeUse>,
    eu: Seq<EdgeUse>,
    triangles: Seq<Triangle>,
    neighbors: Seq<[Option<usize>; 3]>,
    l: int,
    s: int,
)
    requires
        0 <= l < replacement.len(),
        0 <= s < 3,
        forall|j: int| 0 <= j < replacement.len() ==> nondegenerate(#[trigger] replacement[j]),
        pre.len() == 3 * replacement.len(),
        forall|i: int| 0 <= i < pre.len() ==> #[trigger] pre[i] == expected_use(replacement, indices, original_len, i),
        pre.to_multiset() == eu.to_multiset(),
        eu.no_duplicates(),
        forall|i: int| 0 <= i < eu.len() ==> #[trigger] use_settled(eu, triangles, neighbors, indices, i),
    ensures
        replacement_edge_shared(replacement, l, s) || region_boundary_has(triangles, neighbors, indices, tri_edge(replacement[l], s)),
{
    let i0 = 3 * l + s;
    lemma_div3(i0, l, s);
    assert(0 <= i0 < pre.len()) by (nonlinear_arith)
        requires
            i0 == 3 * l + s,
            0 <= s < 3,
            0 <= l < replacement.len(),
            pre.len() == 3 * replacement.len();
    let x = pre[i0];
    assert(x == expected_use(replacement, indices, original_len, i0));
    assert(x.edge == tri_edge(replacement[l], s));
    vstd::seq_lib::to_multiset_contains(pre, x);
    vstd::seq_lib::to_multiset_contains(eu, x);
    assert(pre.contains(x));
    let i = choose|i: int| 0 <= i < eu.len() && eu[i] == x;
    assert(use_settled(eu, triangles, neighbors, indices, i));
    if !region_boundary_has(triangles, neighbors, indices, x.edge) {
        let j = choose|j: int| 0 <= j < eu.len() && j != i && #[trigger] eu[j].edge == eu[i].edge;
        let y = eu[j];
        assert(y != x);
        vstd::seq_lib::to_multiset_contains(pre, y);
        vstd::seq_lib::to_multiset_contains(eu, y);
        assert(eu.contains(y));
        let pj = choose|pj: int| 0 <= pj < pre.len() && pre[pj] == y;
        let l2 = pj / 3;
        let s2 = pj % 3;
        assert(pj == 3 * l2 + s2 && 0 <= s2 < 3 && 0 <= l2 < replacement.len()) by (nonlinear_arith)
            requires
                0 <= pj < pre.len(),
                pre.len() == 3 * replacement.len(),
                l2 == pj / 3,
                s2 == pj % 3;
        assert(pre[pj] == expected_use(replacement, indices, original_len, pj));
        assert(tri_edge(replacement[l2], s2) == tri_edge(replacement[l], s));
        if l2 == l {
            assert(s2 != s);
            lemma_distinct_slots(replacement[l], s, s2);
        }
        assert(replacement_edge_shared(replacement, l, s));
    }
}

/// Whether a boundary record's outside triangle, if any, is not a region
/// slot.
pub open spec fn outside_region(record: (EdgeKey, Option<usize>), indices: Seq<usize>) -> bool {
    match record.1 {
        Some(o) => !indices.contains(o),
        None => true,
    }
}

/// The replacement position whose neighbor row a use fills.
pub open spec fn use_local(replacement: Seq<Triangle>, indices: Seq<usize>, original_len: int, u: EdgeUse) -> int {
    match replacement_local_of(indices, original_len, replacement.len() as int, u.triangle as int) {
        Ok(l) => l as int,
        Err(_) => -1,
    }
}

/// The slot of that row a use fills.
pub open spec fn use_slot(replacement: Seq<Triangle>, indices: Seq<usize>, original_len: int, u: EdgeUse) -> int {
    match edge_slot_of(replacement[use_local(replacement, indices, original_len, u)], u.edge) {
        Some(s) => s,
        None => -1,
    }
}

/// Whether the neighbor entry that use `i` fills links to the triangle of
/// use `j`.
pub open spec fn pair_linked(rows: Seq<[Option<usize>; 3]>, replacement: Seq<Triangle>, indices: Seq<usize>, original_len: int, uses: Seq<EdgeUse>, i: int, j: int) -> bool {
    let l = use_local(replacement, indices, original_len, uses[i]);
    let s = use_slot(replacement, indices, original_len, uses[i]);
    &&& 0 <= l < rows.len()
    &&& 0 <= s < 3
    &&& rows[l]@[s] == Some(uses[j].triangle)
}

/// The use lists of a replacement: `pre` in construction order, `eu` a
/// reordering of it, for strictly increasing slots of triangles with three
/// distinct vertices.
pub open spec fn uses_of(replacement: Seq<Triangle>, indices: Seq<usize>, original_len: int, pre: Seq<EdgeUse>, eu: Seq<EdgeUse>) -> bool {
    &&& strictly_increasing(indices)
    &&& forall|i: int| 0 <= i < indices.len() ==> #[trigger] indices[i] < original_len
    &&& forall|j: int| 0 <= j < replacement.len() ==> nondegenerate(#[trigger] replacement[j])
    &&& 0 <= original_len
    &&& indices.len() <= replacement.len()
    &&& replacement.len() <= usize::MAX
    &&& original_len + replacement.len() - indices.len() <= usize::MAX
    &&& pre.len() == 3 * replacement.len()
    &&& forall|i: int| 0 <= i < pre.len() ==> #[trigger] pre[i] == expected_use(replacement, indices, original_len, i)
    &&& pre.to_multiset() == eu.to_multiset()
    &&& eu.no_duplicates()
}

/// Distinct uses fill distinct neighbor entries.
proof fn lemma_entries_differ(replacement: Seq<Triangle>, indices: Seq<usize>, original_len: int, pre: Seq<EdgeUse>, eu: Seq<EdgeUse>, i: int, w: int)
    requires
        uses_of(replacement, indices, original_len, pre, eu),
        0 <= i < eu.len(),
        0 <= w < eu.len(),
        i != w,
    ensures
        0 <= use_local(replacement, indices, original_len, eu[i]) < replacement.len(),
        0 <= use_slot(replacement, indices, original_len, eu[i]) < 3,
        use_local(replacement, indices, original_len, eu[i]) != use_local(replacement, indices, original_len, eu[w])
            || use_slot(replacement, indices, original_len, eu[i]) != use_slot(replacement, indices, original_len, eu[w]),
{
    let a = lemma_use_entry(replacement, indices, original_len, pre, eu, i);
    let b = lemma_use_entry(replacement, indices, original_len, pre, eu, w);
    assert(use_local(replacement, indices, original_len, eu[i]) == a.0);
    assert(use_local(replacement, indices, original_len, eu[w]) == b.0);
    assert(use_slot(replacement, indices, original_len, eu[i]) == a.1);
    assert(use_slot(replacement, indices, original_len, eu[w]) == b.1);
    if a.0 == b.0 && a.1 == b.1 {
        assert(eu[i].triangle == eu[w].triangle);
        assert(eu[i].edge == eu[w].edge);
        assert(eu[i] == eu[w]);
    }
}

/// Writing one neighbor entry keeps the links of every other use.
proof fn lemma_pairs_kept(
    rows0: Seq<[Option<usize>; 3]>,
    rows1: Seq<[Option<usize>; 3]>,
    replacement: Seq<Triangle>,
    indices: Seq<usize>,
    original_len: int,
    pre: Seq<EdgeUse>,
    eu: Seq<EdgeUse>,
    bound: int,
    w: int,
    row: [Option<usize>; 3],
    v: Option<usize>,
)
    requires
        uses_of(replacement, indices, original_len, pre, eu),
        0 <= bound <= w < eu.len(),
        0 <= use_local(replacement, indices, original_len, eu[w]) < rows0.len(),
        0 <= use_slot(replacement, indices, original_len, eu[w]) < 3,
        row@ == rows0[use_local(replacement, indices, original_len, eu[w])]@.update(use_slot(replacement, indices, original_len, eu[w]), v),
        rows1 == rows0.update(use_local(replacement, indices, original_len, eu[w]), row),
        forall|i: int, j: int| 0 <= i < bound && 0 <= j < bound && i != j && eu[i].edge == eu[j].edge
            ==> #[trigger] pair_linked(rows0, replacement, indices, original_len, eu, i, j),
    ensures
        forall|i: int, j: int| 0 <= i < bound && 0 <= j < bound && i != j && eu[i].edge == eu[j].edge
            ==> #[trigger] pair_linked(rows1, replacement, indices, original_len, eu, i, j),
{
    assert forall|i: int, j: int| 0 <= i < bound && 0 <= j < bound && i != j && eu[i].edge == eu[j].edge
        implies #[trigger] pair_linked(rows1, replacement, indices, original_len, eu, i, j) by {
        assert(pair_linked(rows0, replacement, indices, original_len, eu, i, j));
        lemma_entries_differ(replacement, indices, original_len, pre, eu, i, w);
    }
}

/// Whether `record` holds the neighbor that some region triangle records
/// across the record's edge.
#[verifier::opaque]
pub open spec fn recorded_across(triangles: Seq<Triangle>, neighbors: Seq<[Option<usize>; 3]>, indices: Seq<usize>, record: (EdgeKey, Option<usize>)) -> bool {
    exists|k: int, s: int| 0 <= k < indices.len() && 0 <= s < 3 && #[trigger] tri_edge(triangles[indices[k] as int], s) == record.0
        && neighbor_across_result(neighbors, triangles, indices[k] as int, record.0) == Ok::<Option<usize>, Error>(record.1)
}

/// Whether some other use below `bound` has the edge of use `i`.
#[verifier::opaque]
pub open spec fn partnered(uses: Seq<EdgeUse>, i: int, bound: int) -> bool {
    exists|j: int| 0 <= j < bound && j != i && (#[trigger] uses[j]).edge == uses[i].edge
}

proof fn lemma_partnered_mono(uses: Seq<EdgeUse>, i: int, a: int, b: int)
    requires
        partnered(uses, i, a),
        a <= b,
    ensures
        partnered(uses, i, b),
{
    reveal(partnered);
    let j = choose|j: int| 0 <= j < a && j != i && (#[trigger] uses[j]).edge == uses[i].edge;
    assert(uses[j].edge == uses[i].edge);
}

/// Whether the neighbor entry that use `i` fills holds a neighbor recorded
/// across its edge in the old region.
#[verifier::opaque]
pub open spec fn single_linked(rows: Seq<[Option<usize>; 3]>, replacement: Seq<Triangle>, indices: Seq<usize>, original_len: int, uses: Seq<EdgeUse>, triangles: Seq<Triangle>, neighbors: Seq<[Option<usize>; 3]>, i: int) -> bool {
    let l = use_local(replacement, indices, original_len, uses[i]);
    let s = use_slot(replacement, indices, original_len, uses[i]);
    &&& 0 <= l < rows.len()
    &&& 0 <= s < 3
    &&& recorded_across(triangles, neighbors, indices, (uses[i].edge, rows[l]@[s]))
}

/// Writing one neighbor entry keeps the entries of every other use.
proof fn lemma_singles_kept(
    rows0: Seq<[Option<usize>; 3]>,
    rows1: Seq<[Option<usize>; 3]>,
    replacement: Seq<Triangle>,
    indices: Seq<usize>,
    original_len: int,
    pre: Seq<EdgeUse>,
    eu: Seq<EdgeUse>,
    triangles: Seq<Triangle>,
    neighbors: Seq<[Option<usize>; 3]>,
    bound: int,
    w: int,
    row: [Option<usize>; 3],
    v: Option<usize>,
)
    requires
        uses_of(replacement, indices, original_len, pre, eu),
        0 <= bound <= w < eu.len(),
        0 <= use_local(replacement, indices, original_len, eu[w]) < rows0.len(),
        0 <= use_slot(replacement, indices, original_len, eu[w]) < 3,
        row@ == rows0[use_local(replacement, indices, original_len, eu[w])]@.update(use_slot(replacement, indices, original_len, eu[w]), v),
        rows1 == rows0.update(use_local(replacement, indices, original_len, eu[w]), row),
        forall|i: int| 0 <= i < bound ==> partnered(eu, i, bound) || #[trigger] single_linked(rows0, replacement, indices, original_len, eu, triangles, neighbors, i),
    ensures
        forall|i: int| 0 <= i < bound ==> partnered(eu, i, bound) || #[trigger] single_linked(rows1, replacement, indices, original_len, eu, triangles, neighbors, i),
{
    reveal(single_linked);
    assert forall|i: int| 0 <= i < bound implies partnered(eu, i, bound) || #[trigger] single_linked(rows1, replacement, indices, original_len, eu, triangles, neighbors, i) by {
        if !partnered(eu, i, bound) {
            assert(single_linked(rows0, replacement, indices, original_len, eu, triangles, neighbors, i));
            lemma_entries_differ(replacement, indices, original_len, pre, eu, i, w);
        }
    }
}

/// A replacement slot whose edge no other replacement triangle has holds a
/// neighbor recorded across that edge, once every unpartnered use is
/// single-linked.
proof fn lemma_unshared_edge_linked(rows: Seq<[Option<usize>; 3]>, replacement: Seq<Triangle>, indices: Seq<usize>, original_len: int, pre: Seq<EdgeUse>, eu: Seq<EdgeUse>, triangles: Seq<Triangle>, neighbors: Seq<[Option<usize>; 3]>, l: int, s: int)
    requires
        uses_of(replacement, indices, original_len, pre, eu),
        forall|i: int| 0 <= i < eu.len() ==> partnered(eu, i, eu.len() as int) || #[trigger] single_linked(rows, replacement, indices, original_len, eu, triangles, neighbors, i),
        0 <= l < replacement.len(),
        0 <= s < 3,
        !replacement_edge_shared(replacement, l, s),
    ensures
        recorded_across(triangles, neighbors, indices, (tri_edge(replacement[l], s), rows[l]@[s])),
{
    reveal(partnered);
    reveal(single_linked);
    let a = 3 * l + s;
    lemma_div3(a, l, s);
    assert(0 <= a < pre.len()) by (nonlinear_arith)
        requires
            a == 3 * l + s,
            0 <= s < 3,
            0 <= l < replacement.len(),
            pre.len() == 3 * replacement.len();
    let x = pre[a];
    assert(x == expected_use(replacement, indices, original_len, a));
    vstd::seq_lib::to_multiset_contains(pre, x);
    vstd::seq_lib::to_multiset_contains(eu, x);
    assert(pre.contains(x));
    let i = choose|i: int| 0 <= i < eu.len() && eu[i] == x;
    if partnered(eu, i, eu.len() as int) {
        let j = choose|j: int| 0 <= j < eu.len() && j != i && (#[trigger] eu[j]).edge == eu[i].edge;
        let e = lemma_use_entry(replacement, indices, original_len, pre, eu, j);
        if e.0 == l {
            assert(e.1 != s) by {
                if e.1 == s {
                    assert(eu[j] == eu[i]);
                }
            }
            lemma_distinct_slots(replacement[l], s, e.1);
        }
        assert(tri_edge(replacement[e.0], e.1) == tri_edge(replacement[l], s));
        assert(replacement_edge_shared(replacement, l, s));
    }
    assert(single_linked(rows, replacement, indices, original_len, eu, triangles, neighbors, i));
    lemma_local_of_slot(indices, original_len, replacement.len() as int, l);
    assert(0 <= replacement_slot(indices, original_len, l) <= usize::MAX);
    lemma_slot_of_edge(replacement[l], s);
    assert(use_local(replacement, indices, original_len, eu[i]) == l);
    assert(use_slot(replacement, indices, original_len, eu[i]) == s);
}

/// Two replacement triangles sharing an edge have linked neighbor entries
/// across it, once every pair of uses is linked.
proof fn lemma_shared_edge_linked(rows: Seq<[Option<usize>; 3]>, replacement: Seq<Triangle>, indices: Seq<usize>, original_len: int, pre: Seq<EdgeUse>, eu: Seq<EdgeUse>, l: int, s: int, l2: int, s2: int)
    requires
        uses_of(replacement, indices, original_len, pre, eu),
        forall|i: int, j: int| 0 <= i < eu.len() && 0 <= j < eu.len() && i != j && eu[i].edge == eu[j].edge
            ==> #[trigger] pair_linked(rows, replacement, indices, original_len, eu, i, j),
        0 <= l < replacement.len(),
        0 <= l2 < replacement.len(),
        0 <= s < 3,
        0 <= s2 < 3,
        l != l2,
        tri_edge(replacement[l], s) == tri_edge(replacement[l2], s2),
    ensures
        rows[l]@[s] == Some(replacement_slot(indices, original_len, l2) as usize),
{
    let a = 3 * l + s;
    let b = 3 * l2 + s2;
    lemma_div3(a, l, s);
    lemma_div3(b, l2, s2);
    assert(0 <= a < pre.len() && 0 <= b < pre.len()) by (nonlinear_arith)
        requires
            a == 3 * l + s,
            b == 3 * l2 + s2,
            0 <= s < 3,
            0 <= s2 < 3,
            0 <= l < replacement.len(),
            0 <= l2 < replacement.len(),
            pre.len() == 3 * replacement.len();
    let x = pre[a];
    let y = pre[b];
    assert(x == expected_use(replacement, indices, original_len, a));
    assert(y == expected_use(replacement, indices, original_len, b));
    lemma_local_of_slot(indices, original_len, replacement.len() as int, l);
    lemma_local_of_slot(indices, original_len, replacement.len() as int, l2);
    assert(0 <= replacement_slot(indices, original_len, l) <= usize::MAX);
    assert(0 <= replacement_slot(indices, original_len, l2) <= usize::MAX);
    assert(x.triangle != y.triangle) by {
        if x.triangle == y.triangle {
            assert(replacement_slot(indices, original_len, l) == replacement_slot(indices, original_len, l2));
        }
    }
    assert(x != y);
    vstd::seq_lib::to_multiset_contains(pre, x);
    vstd::seq_lib::to_multiset_contains(eu, x);
    vstd::seq_lib::to_multiset_contains(pre, y);
    vstd::seq_lib::to_multiset_contains(eu, y);
    assert(pre.contains(x));
    assert(pre.contains(y));
    let i = choose|i: int| 0 <= i < eu.len() && eu[i] == x;
    let j = choose|j: int| 0 <= j < eu.len() && eu[j] == y;
    assert(pair_linked(rows, replacement, indices, original_len, eu, i, j));
    lemma_slot_of_edge(replacement[l], s);
    assert(use_local(replacement, indices, original_len, eu[i]) == l);
    assert(use_slot(replacement, indices, original_len, eu[i]) == s);
}

/// The triangle slot of replacement position `l` maps back to `l`.
proof fn lemma_local_of_slot(indices: Seq<usize>, original_len: int, replacement_len: int, l: int)
    requires
        strictly_increasing(indices),
        forall|k: int| 0 <= k < indices.len() ==> #[trigger] indices[k] < original_len,
        0 <= l < replacement_len,
        indices.len() <= replacement_len,
        0 <= original_len,
    ensures
        replacement_local_of(indices, original_len, replacement_len, replacement_slot(indices, original_len, l)) == Ok::<usize, Error>(l as usize),
{
    if l < indices.len() {
        let t = indices[l] as int;
        assert(indices[l] == t);
        let k = choose|k: int| 0 <= k < indices.len() && indices[k] == t;
        if k < l {
            assert(indices[k] < indices[l]);
        } else if k > l {
            assert(indices[l] < indices[k]);
        }
    }
}

/// A slot of a triangle with three distinct vertices is the slot of its edge.
proof fn lemma_slot_of_edge(triangle: Triangle, s: int)
    requires
        nondegenerate(triangle),
        0 <= s < 3,
    ensures
        edge_slot_of(triangle, tri_edge(triangle, s)) == Some(s),
{
    if s != 0 {
        lemma_distinct_slots(triangle, 0, s);
    }
    if s == 2 {
        lemma_distinct_slots(triangle, 1, 2);
    }
}

/// Use `k` of the sorted list is the use of replacement position `l`, slot
/// `s`, and maps back to that entry.
proof fn lemma_use_entry(replacement: Seq<Triangle>, indices: Seq<usize>, original_len: int, pre: Seq<EdgeUse>, eu: Seq<EdgeUse>, k: int) -> (r: (int, int))
    requires
        strictly_increasing(indices),
        forall|i: int| 0 <= i < indices.len() ==> #[trigger] indices[i] < original_len,
        forall|j: int| 0 <= j < replacement.len() ==> nondegenerate(#[trigger] replacement[j]),
        0 <= original_len,
        indices.len() <= replacement.len(),
        original_len + replacement.len() - indices.len() <= usize::MAX,
        pre.len() == 3 * replacement.len(),
        forall|i: int| 0 <= i < pre.len() ==> #[trigger] pre[i] == expected_use(replacement, indices, original_len, i),
        pre.to_multiset() == eu.to_multiset(),
        0 <= k < eu.len(),
    ensures
        0 <= r.0 < replacement.len(),
        0 <= r.1 < 3,
        eu[k].triangle as int == replacement_slot(indices, original_len, r.0),
        eu[k].edge == tri_edge(replacement[r.0], r.1),
        replacement_local_of(indices, original_len, replacement.len() as int, eu[k].triangle as int) == Ok::<usize, Error>(r.0 as usize),
        edge_slot_of(replacement[r.0], eu[k].edge) == Some(r.1),
{
    let y = eu[k];
    vstd::seq_lib::to_multiset_contains(pre, y);
    vstd::seq_lib::to_multiset_contains(eu, y);
    assert(eu.contains(y));
    let pj = choose|pj: int| 0 <= pj < pre.len() && pre[pj] == y;
    let l = pj / 3;
    let s = pj % 3;
    assert(0 <= s < 3 && 0 <= l < replacement.len()) by (nonlinear_arith)
        requires
            0 <= pj < pre.len(),
            pre.len() == 3 * replacement.len(),
            l == pj / 3,
            s == pj % 3;
    assert(pre[pj] == expected_use(replacement, indices, original_len, pj));
    assert(0 <= replacement_slot(indices, original_len, l) <= usize::MAX);
    lemma_local_of_slot(indices, original_len, replacement.len() as int, l);
    lemma_slot_of_edge(replacement[l], s);
    (l, s)
}

/// The use list of a replacement with distinct slots has no repeats.
proof fn lemma_uses_distinct(replacement: Seq<Triangle>, indices: Seq<usize>, original_len: int, uses: Seq<EdgeUse>)
    requires
        strictly_increasing(indices),
        forall|k: int| 0 <= k < indices.len() ==> #[trigger] indices[k] < original_len,
        forall|j: int| 0 <= j < replacement.len() ==> nondegenerate(#[trigger] replacement[j]),
        uses.len() == 3 * replacement.len(),
        forall|i: int| 0 <= i < uses.len() ==> #[trigger] uses[i] == expected_use(replacement, indices, original_len, i),
        0 <= original_len,
        indices.len() <= replacement.len(),
        original_len + replacement.len() - indices.len() <= usize::MAX,
    ensures
        uses.no_duplicates(),
{
    assert forall|i: int, j: int| 0 <= i < uses.len() && 0 <= j < uses.len() && i != j implies uses[i] != uses[j] by {
        let l = i / 3;
        let s = i % 3;
        let l2 = j / 3;
        let s2 = j % 3;
        assert(i == 3 * l + s && 0 <= s < 3 && j == 3 * l2 + s2 && 0 <= s2 < 3) by (nonlinear_arith)
            requires
                0 <= i,
                0 <= j,
                l == i / 3,
                s == i % 3,
                l2 == j / 3,
                s2 == j % 3;
        assert(0 <= l < replacement.len() && 0 <= l2 < replacement.len()) by (nonlinear_arith)
            requires
                i == 3 * l + s,
                j == 3 * l2 + s2,
                0 <= s < 3,
                0 <= s2 < 3,
                0 <= i < 3 * replacement.len(),
                0 <= j < 3 * replacement.len();
        if uses[i] == uses[j] {
            assert(uses[i] == expected_use(replacement, indices, original_len, i));
            assert(uses[j] == expected_use(replacement, indices, original_len, j));
            assert(0 <= replacement_slot(indices, original_len, l) <= usize::MAX);
            assert(0 <= replacement_slot(indices, original_len, l2) <= usize::MAX);
            assert(replacement_slot(indices, original_len, l) == replacement_slot(indices, original_len, l2));
            if l != l2 {
                if l < indices.len() && l2 < indices.len() {
                    if l < l2 {
                        assert(indices[l] < indices[l2]);
                    } else {
                        assert(indices[l2] < indices[l]);
                    }
                } else if l < indices.len() {
                    assert(indices[l] < original_len);
                } else if l2 < indices.len() {
                    assert(indices[l2] < original_len);
                }
            }
            assert(l == l2);
            assert(s != s2);
            lemma_distinct_slots(replacement[l], s, s2);
        }
    }
}


impl TriangleTopology {
    /// Replace a point-insertion region of at most two triangles by at most
    /// four.
    pub fn replace_point_region(
        &mut self,
        triangles: &mut Vec<Triangle>,
        indices: &[usize],
        replacement: &[Triangle],
        boundary_split: Option<(usize, usize, usize)>,
    ) -> (r: Result<(), Error>)
        requires
            old(self).neighbors@.len() == old(triangles)@.len(),
        ensures
            (indices@.len() > 2 || replacement@.len() > 4) ==> r == Err::<(), Error>(Error::InvalidInput { reason: "point insertion exceeds its local topology bound" }),
            r is Err ==> *final(triangles) == *old(triangles) && *final(self) == *old(self),
            r is Ok ==> final(triangles)@ == replaced_triangles(old(triangles)@, indices@, replacement@)
                && final(self).neighbors@.len() == final(triangles)@.len()
                && replacement_shape_error(old(triangles)@.len() as int, old(self).vertex_triangles@.len() as int, indices@, replacement@) is None,
            r is Ok && boundary_split is None ==> forall|l: int, s: int| 0 <= l < replacement@.len() && 0 <= s < 3 ==>
                replacement_edge_shared(replacement@, l, s)
                || region_boundary_has(old(triangles)@, old(self).neighbors@, indices@, #[trigger] tri_edge(replacement@[l], s)),
            r is Ok && boundary_split is None ==> forall|k: int, s: int| 0 <= k < indices@.len() && 0 <= s < 3
                && boundary_slot_outside(old(triangles)@, old(self).neighbors@, indices@, k, s)
                ==> replacement_has_edge(replacement@, #[trigger] tri_edge(old(triangles)@[indices@[k] as int], s)),
            r is Ok ==> forall|l: int, s: int, l2: int, s2: int|
                0 <= l < replacement@.len() && 0 <= s < 3 && 0 <= l2 < replacement@.len() && 0 <= s2 < 3 && l != l2
                && #[trigger] tri_edge(replacement@[l], s) == #[trigger] tri_edge(replacement@[l2], s2)
                ==> final(self).neighbors@[replacement_slot(indices@, old(triangles)@.len() as int, l)]@[s]
                    == Some(replacement_slot(indices@, old(triangles)@.len() as int, l2) as usize),
            r is Ok && boundary_split is None ==> forall|l: int, s: int| 0 <= l < replacement@.len() && 0 <= s < 3 && !replacement_edge_shared(replacement@, l, s)
                ==> recorded_across(old(triangles)@, old(self).neighbors@, indices@,
                    (#[trigger] tri_edge(replacement@[l], s), final(self).neighbors@[replacement_slot(indices@, old(triangles)@.len() as int, l)]@[s])),
    {
        if indices.len() > 2 || replacement.len() > 4 {
            return Err(Error::InvalidInput { reason: "point insertion exceeds its local topology bound" });
        }
        let split = match boundary_split {
            Some((first, second, point)) => Some((EdgeKey::new(first, second), point)),
            None => None,
        };
        self.replace_region(triangles, indices, replacement, split)
    }

    /// Write a checked replacement: triangles and neighbor rows into their
    /// slots, the vertex back-references, then the links from outside.
    #[verifier::loop_isolation(false)]
    fn commit_replacement(
        &mut self,
        triangles: &mut Vec<Triangle>,
        indices: &[usize],
        replacement: &[Triangle],
        new_neighbors: &[[Option<usize>; 3]],
        outside_updates: &[(usize, usize, usize)],
    )
        requires
            old(self).neighbors@.len() == old(triangles)@.len(),
            replacement_shape_error(old(triangles)@.len() as int, old(self).vertex_triangles@.len() as int, indices@, replacement@) is None,
            new_neighbors@.len() == replacement@.len(),
            forall|j: int| 0 <= j < outside_updates@.len() ==> (#[trigger] outside_updates@[j]).0 < old(triangles)@.len()
                && outside_updates@[j].1 < 3,
            forall|j: int| 0 <= j < outside_updates@.len() ==> !indices@.contains((#[trigger] outside_updates@[j]).0),
        ensures
            final(triangles)@ == replaced_triangles(old(triangles)@, indices@, replacement@),
            final(self).neighbors@.len() == final(triangles)@.len(),
            forall|l: int| 0 <= l < replacement@.len() ==> final(self).neighbors@[replacement_slot(indices@, old(triangles)@.len() as int, l)] == #[trigger] new_neighbors@[l],
            final(self).vertex_triangles@.len() == old(self).vertex_triangles@.len(),
            forall|v: int| 0 <= v < final(self).vertex_triangles@.len() ==> #[trigger] final(self).vertex_triangles@[v] == match last_local_with(replacement@, v, replacement@.len() as int) {
                Some(l) => Some(replacement_slot(indices@, old(triangles)@.len() as int, l) as usize),
                None => old(self).vertex_triangles@[v],
            },
    {
        let ghost t0 = triangles@;
        let ghost vt = self.vertex_triangles@;
        let original_len = triangles.len();
        let mut local: usize = 0;
        while local < replacement.len()
            invariant
                0 <= local <= replacement@.len(),
                original_len == t0.len(),
                triangles@.len() == self.neighbors@.len(),
                triangles@.len() == if local <= indices@.len() { t0.len() as int } else { t0.len() + local - indices@.len() },
                forall|l: int| 0 <= l < local && l < indices@.len() ==> triangles@[#[trigger] indices@[l] as int] == replacement@[l],
                forall|i: int| 0 <= i < t0.len() && (forall|l: int| 0 <= l < local && l < indices@.len() ==> #[trigger] indices@[l] != i)
                    ==> #[trigger] triangles@[i] == t0[i],
                forall|l: int| indices@.len() <= l < local ==> #[trigger] replacement@[l] == triangles@[t0.len() + l - indices@.len()],
                self.vertex_triangles@.len() == vt.len(),
                forall|v: int| 0 <= v < vt.len() ==> #[trigger] self.vertex_triangles@[v] == match last_local_with(replacement@, v, local as int) {
                    Some(l) => Some(replacement_slot(indices@, t0.len() as int, l) as usize),
                    None => vt[v],
                },
                forall|l: int| 0 <= l < local ==> self.neighbors@[replacement_slot(indices@, t0.len() as int, l)] == #[trigger] new_neighbors@[l],
            decreases replacement.len() - local,
        {
            let tri = replacement[local];
            let triangle_index = replacement_triangle_index(indices, original_len, local);
            let ghost before = triangles@;
            let ghost rows_before = self.neighbors@;
            if local < indices.len() {
                triangles.set(triangle_index, tri);
                self.neighbors.set(triangle_index, new_neighbors[local]);
                proof {
                    assert forall|l: int| 0 <= l < local + 1 implies self.neighbors@[replacement_slot(indices@, t0.len() as int, l)] == #[trigger] new_neighbors@[l] by {
                        if l < local {
                            assert(indices@[l] < indices@[local as int]);
                            assert(self.neighbors@[indices@[l] as int] == rows_before[indices@[l] as int]);
                        }
                    }
                }
                proof {
                    assert forall|l: int| 0 <= l < local + 1 && l < indices@.len() implies triangles@[#[trigger] indices@[l] as int] == replacement@[l] by {
                        if l < local {
                            assert(indices@[l] < indices@[local as int]);
                        }
                    }
                }
            } else {
                triangles.push(tri);
                self.neighbors.push(new_neighbors[local]);
                proof {
                    assert forall|l: int| 0 <= l < local + 1 implies self.neighbors@[replacement_slot(indices@, t0.len() as int, l)] == #[trigger] new_neighbors@[l] by {
                        if l < local {
                            assert(replacement_slot(indices@, t0.len() as int, l) < rows_before.len());
                            assert(self.neighbors@[replacement_slot(indices@, t0.len() as int, l)] == rows_before[replacement_slot(indices@, t0.len() as int, l)]);
                        }
                    }
                }
            }
            self.vertex_triangles.set(tri[0], Some(triangle_index));
            self.vertex_triangles.set(tri[1], Some(triangle_index));
            self.vertex_triangles.set(tri[2], Some(triangle_index));
            local = local + 1;
        }
        let ghost placed = triangles@;
        let ghost back = self.vertex_triangles@;
        let mut k: usize = 0;
        while k < outside_updates.len()
            invariant
                0 <= k <= outside_updates@.len(),
                triangles@ == placed,
                self.vertex_triangles@ == back,
                self.neighbors@.len() == placed.len(),
                placed.len() >= t0.len(),
                forall|l: int| 0 <= l < replacement@.len() ==> self.neighbors@[replacement_slot(indices@, t0.len() as int, l)] == #[trigger] new_neighbors@[l],
                forall|j: int| 0 <= j < outside_updates@.len() ==> (#[trigger] outside_updates@[j]).0 < t0.len()
                    && outside_updates@[j].1 < 3 && !indices@.contains(outside_updates@[j].0),
            decreases outside_updates.len() - k,
        {
            let update = outside_updates[k];
            let ghost rows_before = self.neighbors@;
            let row = with_slot(self.neighbors[update.0], update.1, Some(update.2));
            self.neighbors.set(update.0, row);
            proof {
                assert(update == outside_updates@[k as int]);
                assert forall|l: int| 0 <= l < replacement@.len() implies self.neighbors@[replacement_slot(indices@, t0.len() as int, l)] == #[trigger] new_neighbors@[l] by {
                    if l < indices@.len() {
                        assert(indices@.contains(indices@[l]));
                        assert(replacement_slot(indices@, t0.len() as int, l) != update.0 as int);
                    }
                    assert(self.neighbors@[replacement_slot(indices@, t0.len() as int, l)] == rows_before[replacement_slot(indices@, t0.len() as int, l)]);
                }
            }
            k = k + 1;
        }
        proof {
            assert forall|i: int| 0 <= i < triangles@.len() implies #[trigger] triangles@[i] == replaced_triangles(t0, indices@, replacement@)[i] by {
                if i < t0.len() {
                    if exists|l: int| 0 <= l < indices@.len() && indices@[l] == i {
                        let l = choose|l: int| 0 <= l < indices@.len() && indices@[l] == i;
                        assert(triangles@[indices@[l] as int] == replacement@[l]);
                    }
                } else {
                    let l = indices@.len() + i - t0.len();
                    assert(replacement@[l] == triangles@[t0.len() + l - indices@.len()]);
                }
            }
            assert(triangles@ =~= replaced_triangles(t0, indices@, replacement@));
        }
    }

    /// Atomically replace triangle slots after proving that the new local
    /// triangulation has exactly the old region boundary. An optional split
    /// refines one boundary or interior edge through a new vertex.
    #[verifier::loop_isolation(false)]
    #[verifier::rlimit(100)]
    #[verifier::spinoff_prover]
    pub fn replace_region(
        &mut self,
        triangles: &mut Vec<Triangle>,
        indices: &[usize],
        replacement: &[Triangle],
        boundary_split: Option<(EdgeKey, usize)>,
    ) -> (r: Result<(), Error>)
        requires
            old(self).neighbors@.len() == old(triangles)@.len(),
        ensures
            replacement_shape_error(old(triangles)@.len() as int, old(self).vertex_triangles@.len() as int, indices@, replacement@) matches Some(e)
                ==> r == Err::<(), Error>(e),
            r is Err ==> *final(triangles) == *old(triangles) && *final(self) == *old(self),
            r is Ok ==> {
                &&& replacement_shape_error(old(triangles)@.len() as int, old(self).vertex_triangles@.len() as int, indices@, replacement@) is None
                &&& final(triangles)@ == replaced_triangles(old(triangles)@, indices@, replacement@)
                &&& final(self).neighbors@.len() == final(triangles)@.len()
                &&& final(self).vertex_triangles@.len() == old(self).vertex_triangles@.len()
                &&& forall|v: int| 0 <= v < final(self).vertex_triangles@.len() ==> #[trigger] final(self).vertex_triangles@[v] == match last_local_with(replacement@, v, replacement@.len() as int) {
                    Some(l) => Some(replacement_slot(indices@, old(triangles)@.len() as int, l) as usize),
                    None => old(self).vertex_triangles@[v],
                }
            },
            r is Ok && boundary_split is None ==> forall|l: int, s: int| 0 <= l < replacement@.len() && 0 <= s < 3 ==>
                replacement_edge_shared(replacement@, l, s)
                || region_boundary_has(old(triangles)@, old(self).neighbors@, indices@, #[trigger] tri_edge(replacement@[l], s)),
            r is Ok && boundary_split is None ==> forall|k: int, s: int| 0 <= k < indices@.len() && 0 <= s < 3
                && boundary_slot_outside(old(triangles)@, old(self).neighbors@, indices@, k, s)
                ==> replacement_has_edge(replacement@, #[trigger] tri_edge(old(triangles)@[indices@[k] as int], s)),
            r is Ok ==> forall|l: int, s: int, l2: int, s2: int|
                0 <= l < replacement@.len() && 0 <= s < 3 && 0 <= l2 < replacement@.len() && 0 <= s2 < 3 && l != l2
                && #[trigger] tri_edge(replacement@[l], s) == #[trigger] tri_edge(replacement@[l2], s2)
                ==> final(self).neighbors@[replacement_slot(indices@, old(triangles)@.len() as int, l)]@[s]
                    == Some(replacement_slot(indices@, old(triangles)@.len() as int, l2) as usize),
            r is Ok && boundary_split is None ==> forall|l: int, s: int| 0 <= l < replacement@.len() && 0 <= s < 3 && !replacement_edge_shared(replacement@, l, s)
                ==> recorded_across(old(triangles)@, old(self).neighbors@, indices@,
                    (#[trigger] tri_edge(replacement@[l], s), final(self).neighbors@[replacement_slot(indices@, old(triangles)@.len() as int, l)]@[s])),
    {
        let ghost t0 = triangles@;
        let ghost nb0 = self.neighbors@;
        let ghost vt = self.vertex_triangles@;
        if indices.len() == 0 || replacement.len() < indices.len() {
            return Err(Error::InvalidInput { reason: "topology replacement has mismatched triangle slots" });
        }
        let mut k: usize = 1;
        while k < indices.len()
            invariant
                1 <= k <= indices@.len(),
                forall|a: int, b: int| 0 <= a < b < k ==> #[trigger] indices@[a] < #[trigger] indices@[b],
            decreases indices.len() - k,
        {
            if indices[k - 1] >= indices[k] {
                return Err(Error::InvalidInput { reason: "topology replacement triangle slots are not unique and sorted" });
            }
            proof {
                assert forall|a: int, b: int| 0 <= a < b < k + 1 implies #[trigger] indices@[a] < #[trigger] indices@[b] by {
                    if b == k && a < k - 1 {
                        assert(indices@[a] < indices@[k - 1]);
                    }
                }
            }
            k = k + 1;
        }
        let mut k: usize = 0;
        while k < indices.len()
            invariant
                0 <= k <= indices@.len(),
                strictly_increasing(indices@),
                forall|j: int| 0 <= j < k ==> #[trigger] indices@[j] < triangles@.len(),
            decreases indices.len() - k,
        {
            if indices[k] >= triangles.len() {
                return Err(Error::InvalidInput { reason: "topology replacement references an absent triangle" });
            }
            k = k + 1;
        }
        let vertex_count = self.vertex_triangles.len();
        let mut l: usize = 0;
        while l < replacement.len()
            invariant
                0 <= l <= replacement@.len(),
                vertex_count == self.vertex_triangles@.len(),
                forall|j: int| 0 <= j < l ==> nondegenerate(#[trigger] replacement@[j])
                    && replacement@[j][0] < vertex_count && replacement@[j][1] < vertex_count && replacement@[j][2] < vertex_count,
            decreases replacement.len() - l,
        {
            let tri = replacement[l];
            if tri[0] == tri[1] || tri[1] == tri[2] || tri[2] == tri[0] || tri[0] >= vertex_count || tri[1] >= vertex_count || tri[2] >= vertex_count {
                return Err(Error::InvalidInput { reason: "topology replacement contains an invalid triangle" });
            }
            l = l + 1;
        }
        let appended = replacement.len() - indices.len();
        let original_len = triangles.len();
        if original_len > usize::MAX - appended {
            return Err(Error::InvalidInput { reason: "topology replacement triangle count overflow" });
        }
        assert(replacement_shape_error(t0.len() as int, vt.len() as int, indices@, replacement@) is None);

        // Boundary of the old region, with the triangle outside each edge.
        let mut old_boundary: Vec<(EdgeKey, Option<usize>)> = Vec::new();
        let mut k: usize = 0;
        while k < indices.len()
            invariant
                0 <= k <= indices@.len(),
                triangles@ == t0,
                self.neighbors@.len() == t0.len(),
                strictly_increasing(indices@),
                forall|j: int| 0 <= j < indices@.len() ==> #[trigger] indices@[j] < t0.len(),
                forall|j: int| 0 <= j < old_boundary@.len() ==> outside_below(#[trigger] old_boundary@[j], t0.len() as int),
                self.neighbors@ == nb0,
                forall|j: int| 0 <= j < old_boundary@.len() ==> region_boundary_has(t0, nb0, indices@, (#[trigger] old_boundary@[j]).0),
                forall|j: int| 0 <= j < old_boundary@.len() ==> outside_region(#[trigger] old_boundary@[j], indices@),
                forall|j: int| 0 <= j < old_boundary@.len() ==> recorded_across(t0, nb0, indices@, #[trigger] old_boundary@[j]),
                forall|k2: int, s2: int| 0 <= k2 < k && 0 <= s2 < 3 && boundary_slot_outside(t0, nb0, indices@, k2, s2)
                    ==> lists_edge(old_boundary@, #[trigger] tri_edge(t0[indices@[k2] as int], s2)),
            decreases indices.len() - k,
        {
            let triangle_index = indices[k];
            let edges = triangle_edges(triangles[triangle_index]);
            let mut e: usize = 0;
            while e < 3
                invariant
                    0 <= e <= 3,
                    triangles@ == t0,
                    self.neighbors@.len() == t0.len(),
                    triangle_index < t0.len(),
                    forall|j: int| 0 <= j < old_boundary@.len() ==> outside_below(#[trigger] old_boundary@[j], t0.len() as int),
                    self.neighbors@ == nb0,
                    triangle_index == indices@[k as int],
                    k < indices@.len(),
                    forall|slot: int| 0 <= slot < 3 ==> #[trigger] edges[slot] == tri_edge(t0[triangle_index as int], slot),
                    forall|j: int| 0 <= j < old_boundary@.len() ==> region_boundary_has(t0, nb0, indices@, (#[trigger] old_boundary@[j]).0),
                    forall|j: int| 0 <= j < old_boundary@.len() ==> outside_region(#[trigger] old_boundary@[j], indices@),
                    forall|j: int| 0 <= j < old_boundary@.len() ==> recorded_across(t0, nb0, indices@, #[trigger] old_boundary@[j]),
                    forall|k2: int, s2: int| (0 <= k2 < k && 0 <= s2 < 3 || k2 == k && 0 <= s2 < e) && boundary_slot_outside(t0, nb0, indices@, k2, s2)
                        ==> lists_edge(old_boundary@, #[trigger] tri_edge(t0[indices@[k2] as int], s2)),
                decreases 3 - e,
            {
                let edge = edges[e];
                let neighbor = match self.neighbor_across(triangles.as_slice(), triangle_index, edge) {
                    Ok(n) => n,
                    Err(error) => return Err(error),
                };
                let outside = match neighbor {
                    None => true,
                    Some(n) => !contains_usize(indices, n),
                };
                if outside {
                    proof {
                        assert(tri_edge(t0[indices@[k as int] as int], e as int) == edge);
                        assert(region_boundary_has(t0, nb0, indices@, edge));
                    }
                    let ghost before = old_boundary@;
                    old_boundary.push((edge, neighbor));
                    proof {
                        assert forall|j: int| 0 <= j < old_boundary@.len() implies region_boundary_has(t0, nb0, indices@, (#[trigger] old_boundary@[j]).0) by {
                            if j < before.len() {
                                assert(old_boundary@[j] == before[j]);
                            }
                        }
                        assert(recorded_across(t0, nb0, indices@, (edge, neighbor))) by {
                            reveal(recorded_across);
                        }
                        assert forall|j: int| 0 <= j < old_boundary@.len() implies recorded_across(t0, nb0, indices@, #[trigger] old_boundary@[j]) by {
                            if j < before.len() {
                                assert(old_boundary@[j] == before[j]);
                            }
                        }
                        assert forall|j: int| 0 <= j < old_boundary@.len() implies outside_region(#[trigger] old_boundary@[j], indices@) by {
                            if j < before.len() {
                                assert(old_boundary@[j] == before[j]);
                            }
                        }
                        assert forall|x: EdgeKey| lists_edge(before, x) implies lists_edge(old_boundary@, x) by {
                            let j = choose|j: int| 0 <= j < before.len() && (#[trigger] before[j]).0 == x;
                            assert(old_boundary@[j] == before[j]);
                        }
                        assert(old_boundary@[before.len() as int].0 == edge);
                        assert(lists_edge(old_boundary@, edge));
                    }
                }
                proof {
                    assert(tri_edge(t0[indices@[k as int] as int], e as int) == edge);
                    assert(boundary_slot_outside(t0, nb0, indices@, k as int, e as int) == outside);
                }
                e = e + 1;
            }
            k = k + 1;
        }
        let ghost before_split = old_boundary@;
        match boundary_split {
            Some((split, point)) => {
                if split.contains(point) {
                    return Err(Error::InvalidInput { reason: "topology replacement does not split an edge interior" });
                }
                let old_uses = count_region_uses(triangles.as_slice(), indices, split);
                if old_uses == 1 {
                    let position = match find_boundary_edge(old_boundary.as_slice(), split) {
                        Some(p) => p,
                        None => return Err(Error::InvalidInput { reason: "split edge is absent from the topology boundary" }),
                    };
                    if old_boundary[position].1.is_some() {
                        return Err(Error::InvalidInput { reason: "split edge omitted an adjacent triangle" });
                    }
                    let last = old_boundary.len() - 1;
                    let moved = old_boundary[last];
                    old_boundary.set(position, moved);
                    old_boundary.pop();
                    old_boundary.push((EdgeKey::new(split.from, point), None));
                    old_boundary.push((EdgeKey::new(point, split.to), None));
                } else if old_uses == 2 {
                    if find_boundary_edge(old_boundary.as_slice(), split).is_some() {
                        return Err(Error::InvalidInput { reason: "interior split edge remained on the topology boundary" });
                    }
                } else {
                    return Err(Error::InvalidInput { reason: "split edge has invalid topology incidence" });
                }
            },
            None => {},
        }
        assert(boundary_split is None ==> old_boundary@ == before_split);
        let ghost unsorted = old_boundary@;
        sort_boundary(&mut old_boundary);
        proof {
            assert forall|j: int| 0 <= j < old_boundary@.len() implies outside_below(#[trigger] old_boundary@[j], t0.len() as int) by {
                let rec = old_boundary@[j];
                vstd::seq_lib::to_multiset_contains(old_boundary@, rec);
                vstd::seq_lib::to_multiset_contains(unsorted, rec);
                assert(old_boundary@.contains(rec));
                assert(unsorted.contains(rec));
                let i = choose|i: int| 0 <= i < unsorted.len() && unsorted[i] == rec;
                assert(outside_below(unsorted[i], t0.len() as int));
            }
            assert forall|j: int| 0 <= j < old_boundary@.len() implies outside_region(#[trigger] old_boundary@[j], indices@) by {
                let rec = old_boundary@[j];
                vstd::seq_lib::to_multiset_contains(old_boundary@, rec);
                vstd::seq_lib::to_multiset_contains(unsorted, rec);
                assert(old_boundary@.contains(rec));
                assert(unsorted.contains(rec));
                let i = choose|i: int| 0 <= i < unsorted.len() && unsorted[i] == rec;
                assert(outside_region(unsorted[i], indices@));
            }
            if boundary_split is None {
                assert forall|j: int| 0 <= j < old_boundary@.len() implies recorded_across(t0, nb0, indices@, #[trigger] old_boundary@[j]) by {
                    let rec = old_boundary@[j];
                    vstd::seq_lib::to_multiset_contains(old_boundary@, rec);
                    vstd::seq_lib::to_multiset_contains(unsorted, rec);
                    assert(old_boundary@.contains(rec));
                    assert(unsorted.contains(rec));
                    let i = choose|i: int| 0 <= i < unsorted.len() && unsorted[i] == rec;
                    assert(recorded_across(t0, nb0, indices@, unsorted[i]));
                }
                assert forall|j: int| 0 <= j < old_boundary@.len() implies region_boundary_has(t0, nb0, indices@, (#[trigger] old_boundary@[j]).0) by {
                    let rec = old_boundary@[j];
                    vstd::seq_lib::to_multiset_contains(old_boundary@, rec);
                    vstd::seq_lib::to_multiset_contains(unsorted, rec);
                    assert(old_boundary@.contains(rec));
                    assert(unsorted.contains(rec));
                    let i = choose|i: int| 0 <= i < unsorted.len() && unsorted[i] == rec;
                    assert(region_boundary_has(t0, nb0, indices@, unsorted[i].0));
                }
                assert forall|x: EdgeKey| lists_edge(unsorted, x) implies lists_edge(old_boundary@, x) by {
                    let j = choose|j: int| 0 <= j < unsorted.len() && (#[trigger] unsorted[j]).0 == x;
                    let rec = unsorted[j];
                    vstd::seq_lib::to_multiset_contains(old_boundary@, rec);
                    vstd::seq_lib::to_multiset_contains(unsorted, rec);
                    assert(unsorted.contains(rec));
                    assert(old_boundary@.contains(rec));
                    let i = choose|i: int| 0 <= i < old_boundary@.len() && old_boundary@[i] == rec;
                    assert(old_boundary@[i].0 == x);
                }
            }
        }
        let mut k: usize = 1;
        while k < old_boundary.len()
            invariant
                1 <= k,
            decreases old_boundary.len() - k,
        {
            if old_boundary[k - 1].0 == old_boundary[k].0 {
                return Err(Error::InvalidInput { reason: "topology replacement boundary contains a duplicate edge" });
            }
            k = k + 1;
        }
        // Edge uses of the replacement, keyed by the slot each triangle takes.
        let mut edge_uses: Vec<EdgeUse> = Vec::new();
        let mut local: usize = 0;
        while local < replacement.len()
            invariant
                0 <= local <= replacement@.len(),
                edge_uses@.len() == 3 * local,
                forall|i: int| 0 <= i < edge_uses@.len() ==> #[trigger] edge_uses@[i] == expected_use(replacement@, indices@, original_len as int, i),
            decreases replacement.len() - local,
        {
            let tri = replacement[local];
            let triangle = replacement_triangle_index(indices, original_len, local);
            let ghost before = edge_uses@;
            edge_uses.push(EdgeUse { edge: EdgeKey::new(tri[0], tri[1]), triangle });
            edge_uses.push(EdgeUse { edge: EdgeKey::new(tri[1], tri[2]), triangle });
            edge_uses.push(EdgeUse { edge: EdgeKey::new(tri[2], tri[0]), triangle });
            proof {
                lemma_div3(3 * local, local as int, 0);
                lemma_div3(3 * local + 1, local as int, 1);
                lemma_div3(3 * local + 2, local as int, 2);
                assert forall|i: int| 0 <= i < edge_uses@.len() implies #[trigger] edge_uses@[i] == expected_use(replacement@, indices@, original_len as int, i) by {
                    if i < before.len() {
                        assert(edge_uses@[i] == before[i]);
                    }
                }
            }
            local = local + 1;
        }
        let ghost pre = edge_uses@;
        sort_uses(&mut edge_uses);
        let ghost eu = edge_uses@;
        proof {
            lemma_uses_distinct(replacement@, indices@, original_len as int, pre);
            lemma_use_leq_total();
            pre.lemma_sort_by_ensures(use_leq());
            pre.lemma_multiset_has_no_duplicates();
            eu.lemma_multiset_has_no_duplicates_conv();
            assert(uses_of(replacement@, indices@, original_len as int, pre, eu));
        }
        let mut new_neighbors: Vec<[Option<usize>; 3]> = Vec::new();
        let mut local: usize = 0;
        while local < replacement.len()
            invariant
                0 <= local <= replacement@.len(),
                new_neighbors@.len() == local,
            decreases replacement.len() - local,
        {
            new_neighbors.push([None, None, None]);
            local = local + 1;
        }
        let mut outside_updates: Vec<(usize, usize, usize)> = Vec::new();
        let mut boundary_count: usize = 0;
        let ghost mut matched: Set<int> = Set::empty();
        proof {
            assert(vstd::relations::sorted_by(eu, use_leq()));
        }
        let mut start: usize = 0;
        while start < edge_uses.len()
            invariant
                0 <= start <= edge_uses@.len(),
                boundary_count <= start,
                new_neighbors@.len() == replacement@.len(),
                forall|j: int| 0 <= j < outside_updates@.len() ==> (#[trigger] outside_updates@[j]).0 < t0.len()
                    && outside_updates@[j].1 < 3,
                boundary_split is None ==> forall|i: int| 0 <= i < start ==> #[trigger] use_settled(eu, t0, nb0, indices@, i),
                forall|j: int| 0 <= j < outside_updates@.len() ==> !indices@.contains((#[trigger] outside_updates@[j]).0),
                forall|i: int, j: int| 0 <= i < start && 0 <= j < start && i != j && eu[i].edge == eu[j].edge
                    ==> #[trigger] pair_linked(new_neighbors@, replacement@, indices@, original_len as int, eu, i, j),
                boundary_split is None ==> forall|i: int| 0 <= i < start ==> partnered(eu, i, start as int)
                    || #[trigger] single_linked(new_neighbors@, replacement@, indices@, original_len as int, eu, t0, nb0, i),
                matched.finite(),
                matched.len() == boundary_count,
                forall|p: int| #[trigger] matched.contains(p) ==> 0 <= p < old_boundary@.len() && edge_seen(eu, old_boundary@[p].0, start as int),
                start < eu.len() ==> forall|i: int| 0 <= i < start ==> (#[trigger] eu[i]).edge != eu[start as int].edge,
            decreases edge_uses.len() - start,
        {
            let edge = edge_uses[start].edge;
            let mut end = start + 1;
            while end < edge_uses.len() && edge_uses[end].edge == edge
                invariant
                    start < end <= edge_uses@.len(),
                    forall|i: int| start <= i < end ==> #[trigger] edge_uses@[i].edge == edge,
                decreases edge_uses.len() - end,
            {
                end = end + 1;
            }
            let count = end - start;
            if count == 1 {
                boundary_count = boundary_count + 1;
                let position = match find_boundary_edge(old_boundary.as_slice(), edge) {
                    Some(p) => p,
                    None => return Err(Error::InvalidInput { reason: "topology replacement changes the region boundary" }),
                };
                proof {
                    if boundary_split is None {
                        assert(old_boundary@[position as int].0 == edge);
                        assert(use_settled(eu, t0, nb0, indices@, start as int));
                    }
                    if matched.contains(position as int) {
                        let i = choose|i: int| 0 <= i < start && (#[trigger] eu[i]).edge == old_boundary@[position as int].0;
                        assert(eu[i].edge != eu[start as int].edge);
                    }
                    let ghost prior = matched;
                    matched = matched.insert(position as int);
                    assert(end == start + 1);
                    assert forall|q: int| #[trigger] matched.contains(q) implies 0 <= q < old_boundary@.len() && edge_seen(eu, old_boundary@[q].0, end as int) by {
                        if q == position as int {
                            assert(eu[start as int].edge == old_boundary@[q].0);
                        } else {
                            assert(prior.contains(q));
                            lemma_edge_seen_mono(eu, old_boundary@[q].0, start as int, end as int);
                        }
                    }
                }
                let triangle = edge_uses[start].triangle;
                let local = match replacement_local_index(indices, original_len, replacement.len(), triangle) {
                    Ok(l) => l,
                    Err(error) => return Err(error),
                };
                let slot = match triangle_edge_slot(replacement[local], edge) {
                    Ok(s) => s,
                    Err(error) => return Err(error),
                };
                let outside = old_boundary[position].1;
                let ghost rows0 = new_neighbors@;
                let row = with_slot(new_neighbors[local], slot, outside);
                new_neighbors.set(local, row);
                proof {
                    assert(use_local(replacement@, indices@, original_len as int, eu[start as int]) == local);
                    assert(use_slot(replacement@, indices@, original_len as int, eu[start as int]) == slot);
                    lemma_pairs_kept(rows0, new_neighbors@, replacement@, indices@, original_len as int, pre, eu, start as int, start as int, row, outside);
                    assert(end == start + 1);
                    if boundary_split is None {
                        lemma_singles_kept(rows0, new_neighbors@, replacement@, indices@, original_len as int, pre, eu, t0, nb0, start as int, start as int, row, outside);
                        assert(recorded_across(t0, nb0, indices@, old_boundary@[position as int]));
                        assert(single_linked(new_neighbors@, replacement@, indices@, original_len as int, eu, t0, nb0, start as int)) by {
                            reveal(single_linked);
                        }
                        assert forall|i: int| 0 <= i < end implies partnered(eu, i, end as int)
                            || #[trigger] single_linked(new_neighbors@, replacement@, indices@, original_len as int, eu, t0, nb0, i) by {
                            if i < start && partnered(eu, i, start as int) {
                                lemma_partnered_mono(eu, i, start as int, end as int);
                            }
                        }
                    }
                    assert forall|i: int, j: int| 0 <= i < end && 0 <= j < end && i != j && eu[i].edge == eu[j].edge
                        implies #[trigger] pair_linked(new_neighbors@, replacement@, indices@, original_len as int, eu, i, j) by {
                        if i == start as int {
                            assert(eu[j].edge != eu[start as int].edge);
                        } else if j == start as int {
                            assert(eu[i].edge != eu[start as int].edge);
                        }
                    }
                }
                match outside {
                    Some(o) => {
                        assert(outside_below(old_boundary@[position as int], t0.len() as int));
                        let outside_slot = match triangle_edge_slot(triangles[o], edge) {
                            Ok(s) => s,
                            Err(error) => return Err(error),
                        };
                        let old_inside = match self.neighbors[o][outside_slot] {
                            Some(x) => x,
                            None => return Err(Error::InvalidInput { reason: "topology replacement boundary is not reciprocal" }),
                        };
                        if !contains_usize(indices, old_inside) {
                            return Err(Error::InvalidInput { reason: "topology replacement boundary is not reciprocal" });
                        }
                        assert(outside_region(old_boundary@[position as int], indices@));
                        let ghost updates_before = outside_updates@;
                        outside_updates.push((o, outside_slot, triangle));
                        assert forall|j: int| 0 <= j < outside_updates@.len() implies !indices@.contains((#[trigger] outside_updates@[j]).0) by {
                            if j < updates_before.len() {
                                assert(outside_updates@[j] == updates_before[j]);
                            }
                        }
                    },
                    None => {},
                }
            } else if count == 2 {
                let first = edge_uses[start].triangle;
                let second = edge_uses[start + 1].triangle;
                let first_local = match replacement_local_index(indices, original_len, replacement.len(), first) {
                    Ok(l) => l,
                    Err(error) => return Err(error),
                };
                let second_local = match replacement_local_index(indices, original_len, replacement.len(), second) {
                    Ok(l) => l,
                    Err(error) => return Err(error),
                };
                let first_slot = match triangle_edge_slot(replacement[first_local], edge) {
                    Ok(s) => s,
                    Err(error) => return Err(error),
                };
                let second_slot = match triangle_edge_slot(replacement[second_local], edge) {
                    Ok(s) => s,
                    Err(error) => return Err(error),
                };
                let ghost rows0 = new_neighbors@;
                let row = with_slot(new_neighbors[first_local], first_slot, Some(second));
                new_neighbors.set(first_local, row);
                let ghost rows_mid = new_neighbors@;
                proof {
                    assert(use_local(replacement@, indices@, original_len as int, eu[start as int]) == first_local);
                    assert(use_slot(replacement@, indices@, original_len as int, eu[start as int]) == first_slot);
                    lemma_pairs_kept(rows0, rows_mid, replacement@, indices@, original_len as int, pre, eu, start as int, start as int, row, Some(second));
                    if boundary_split is None {
                        lemma_singles_kept(rows0, rows_mid, replacement@, indices@, original_len as int, pre, eu, t0, nb0, start as int, start as int, row, Some(second));
                    }
                }
                let row2 = with_slot(new_neighbors[second_local], second_slot, Some(first));
                new_neighbors.set(second_local, row2);
                proof {
                    assert(use_local(replacement@, indices@, original_len as int, eu[start + 1]) == second_local);
                    assert(use_slot(replacement@, indices@, original_len as int, eu[start + 1]) == second_slot);
                    lemma_pairs_kept(rows_mid, new_neighbors@, replacement@, indices@, original_len as int, pre, eu, start as int, start + 1, row2, Some(first));
                    if boundary_split is None {
                        lemma_singles_kept(rows_mid, new_neighbors@, replacement@, indices@, original_len as int, pre, eu, t0, nb0, start as int, start + 1, row2, Some(first));
                        assert(eu[start + 1 as int].edge == eu[start as int].edge);
                        assert(partnered(eu, start as int, start + 2)) by {
                            reveal(partnered);
                            assert(eu[start + 1 as int].edge == eu[start as int].edge);
                        }
                        assert(partnered(eu, start + 1, start + 2)) by {
                            reveal(partnered);
                            assert(eu[start as int].edge == eu[start + 1 as int].edge);
                        }
                        assert forall|i: int| 0 <= i < start + 2 implies partnered(eu, i, start + 2)
                            || #[trigger] single_linked(new_neighbors@, replacement@, indices@, original_len as int, eu, t0, nb0, i) by {
                            if i < start && partnered(eu, i, start as int) {
                                lemma_partnered_mono(eu, i, start as int, start + 2);
                            }
                        }
                    }
                    lemma_entries_differ(replacement@, indices@, original_len as int, pre, eu, start as int, start + 1);
                    assert(pair_linked(rows_mid, replacement@, indices@, original_len as int, eu, start as int, start + 1));
                    assert(pair_linked(new_neighbors@, replacement@, indices@, original_len as int, eu, start as int, start + 1));
                    assert(pair_linked(new_neighbors@, replacement@, indices@, original_len as int, eu, start + 1, start as int));
                    assert(end == start + 2);
                    assert forall|i: int, j: int| 0 <= i < end && 0 <= j < end && i != j && eu[i].edge == eu[j].edge
                        implies #[trigger] pair_linked(new_neighbors@, replacement@, indices@, original_len as int, eu, i, j) by {
                        if i >= start && j < start {
                            assert(eu[j].edge != eu[start as int].edge);
                        } else if j >= start && i < start {
                            assert(eu[i].edge != eu[start as int].edge);
                        }
                    }
                }
                proof {
                    assert forall|q: int| #[trigger] matched.contains(q) implies 0 <= q < old_boundary@.len() && edge_seen(eu, old_boundary@[q].0, end as int) by {
                        lemma_edge_seen_mono(eu, old_boundary@[q].0, start as int, end as int);
                    }
                    assert(eu[start + 1 as int].edge == eu[start as int].edge);
                    assert(use_settled(eu, t0, nb0, indices@, start as int));
                    assert(use_settled(eu, t0, nb0, indices@, start + 1));
                }
            } else {
                return Err(Error::InvalidInput { reason: "topology replacement contains a non-manifold edge" });
            }
            proof {
                if end < edge_uses.len() {
                    assert(eu[end as int].edge != edge);
                    assert forall|i: int| 0 <= i < end implies (#[trigger] eu[i]).edge != eu[end as int].edge by {
                        if i < start {
                            assert(use_leq()(eu[i], eu[start as int]));
                            assert(use_leq()(eu[start as int], eu[end as int]));
                        } else {
                            assert(eu[i].edge == edge);
                        }
                    }
                }
                if boundary_split is None {
                    assert forall|i: int| 0 <= i < end implies #[trigger] use_settled(eu, t0, nb0, indices@, i) by {
                        if i >= start {
                            if count == 1 {
                                assert(i == start);
                            } else {
                                assert(i == start || i == start + 1);
                            }
                        }
                    }
                }
            }
            start = end;
        }
        if boundary_count != old_boundary.len() {
            return Err(Error::InvalidInput { reason: "topology replacement omits an existing boundary edge" });
        }
        proof {
            if boundary_split is None {
                assert forall|l: int, s: int| 0 <= l < replacement@.len() && 0 <= s < 3 implies
                    replacement_edge_shared(replacement@, l, s)
                    || region_boundary_has(t0, nb0, indices@, #[trigger] tri_edge(replacement@[l], s)) by {
                    lemma_same_edge_elsewhere(replacement@, indices@, original_len as int, pre, eu, t0, nb0, l, s);
                }
                vstd::set_lib::lemma_int_range(0, old_boundary@.len() as int);
                assert(matched.subset_of(vstd::set_lib::set_int_range(0, old_boundary@.len() as int)));
                vstd::set_lib::lemma_subset_equality(matched, vstd::set_lib::set_int_range(0, old_boundary@.len() as int));
                assert forall|k: int, s: int| 0 <= k < indices@.len() && 0 <= s < 3
                    && boundary_slot_outside(t0, nb0, indices@, k, s)
                    implies replacement_has_edge(replacement@, #[trigger] tri_edge(t0[indices@[k] as int], s)) by {
                    let e = tri_edge(t0[indices@[k] as int], s);
                    assert(lists_edge(old_boundary@, e));
                    let p = choose|p: int| 0 <= p < old_boundary@.len() && (#[trigger] old_boundary@[p]).0 == e;
                    assert(vstd::set_lib::set_int_range(0, old_boundary@.len() as int).contains(p));
                    assert(matched.contains(p));
                    lemma_seen_edge_replaced(replacement@, indices@, original_len as int, pre, eu, e, start as int);
                }
            }
        }
        proof {
            assert forall|l: int, s: int, l2: int, s2: int|
                0 <= l < replacement@.len() && 0 <= s < 3 && 0 <= l2 < replacement@.len() && 0 <= s2 < 3 && l != l2
                && #[trigger] tri_edge(replacement@[l], s) == #[trigger] tri_edge(replacement@[l2], s2)
                implies new_neighbors@[l]@[s] == Some(replacement_slot(indices@, original_len as int, l2) as usize) by {
                lemma_shared_edge_linked(new_neighbors@, replacement@, indices@, original_len as int, pre, eu, l, s, l2, s2);
            }
            if boundary_split is None {
                assert forall|l: int, s: int| 0 <= l < replacement@.len() && 0 <= s < 3 && !replacement_edge_shared(replacement@, l, s)
                    implies recorded_across(t0, nb0, indices@, (#[trigger] tri_edge(replacement@[l], s), new_neighbors@[l]@[s])) by {
                    lemma_unshared_edge_linked(new_neighbors@, replacement@, indices@, original_len as int, pre, eu, t0, nb0, l, s);
                }
            }
        }
        self.commit_replacement(triangles, indices, replacement, new_neighbors.as_slice(), outside_updates.as_slice());
        Ok(())
    }
}

} // verus!
