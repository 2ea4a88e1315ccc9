//! Recognition of constraint sets that are disjoint closed rings.
use vstd::prelude::*;
use crate::types::Constraint;
use crate::topology::contains_usize;

verus! {

/// Whether constraint `c` joins `v` to `w`, in either direction.
pub open spec fn joins(c: Constraint, v: int, w: int) -> bool {
    (c.from == v && c.to == w) || (c.to == v && c.from == w)
}

/// The endpoint occurrences of `v` among the first `n` constraints, in
/// constraint order: each is the constraint's index and its other endpoint.
pub open spec fn occurrences(constraints: Seq<Constraint>, v: int, n: int) -> Seq<(usize, usize)>
    decreases n,
{
    if n <= 0 {
        Seq::empty()
    } else {
        let prev = occurrences(constraints, v, n - 1);
        let c = constraints[n - 1];
        let with_from = if c.from == v { prev.push(((n - 1) as usize, c.to)) } else { prev };
        if c.to == v { with_from.push(((n - 1) as usize, c.from)) } else { with_from }
    }
}

/// Number of constraint endpoints at `v` (a self-loop counts twice).
pub open spec fn degree(constraints: Seq<Constraint>, v: int) -> int {
    occurrences(constraints, v, constraints.len() as int).len() as int
}

/// The vertex after position `p` of a closed ring.
pub open spec fn cyclic_next(ring: Seq<usize>, p: int) -> usize {
    if p + 1 < ring.len() { ring[p + 1] } else { ring[0] }
}

/// A ring of at least three distinct vertices.
pub open spec fn simple_ring(ring: Seq<usize>) -> bool {
    &&& ring.len() >= 3
    &&& forall|a: int, b: int| 0 <= a < b < ring.len() ==> #[trigger] ring[a] != #[trigger] ring[b]
}

/// `pos` places every constraint on one position of one ring, each ring
/// position holds exactly one constraint joining it to the next vertex, and
/// each ring starts with the lowest-numbered constraint not in an earlier
/// ring, walked from its `from` to its `to` endpoint.
pub open spec fn ring_cover(constraints: Seq<Constraint>, rings: Seq<Seq<usize>>, pos: Seq<(int, int)>) -> bool {
    &&& pos.len() == constraints.len()
    &&& forall|i: int| 0 <= i < rings.len() ==> simple_ring(#[trigger] rings[i])
    &&& forall|k: int| 0 <= k < constraints.len() ==> {
        let (i, p) = #[trigger] pos[k];
        &&& 0 <= i < rings.len()
        &&& 0 <= p < rings[i].len()
        &&& joins(constraints[k], rings[i][p] as int, cyclic_next(rings[i], p) as int)
        &&& p == 0 ==> constraints[k].from == rings[i][0] && constraints[k].to == rings[i][1]
            && forall|j: int| 0 <= j < k ==> (#[trigger] pos[j]).0 < i
    }
    &&& forall|a: int, b: int| 0 <= a < b < constraints.len() ==> #[trigger] pos[a] != #[trigger] pos[b]
    &&& forall|i: int, p: int| 0 <= i < rings.len() && 0 <= p < rings[i].len() ==> #[trigger] occupied(pos, i, p)
}

/// The rings are simple, vertex sequences that use every constraint exactly
/// once as the edge from one position to the next (see `ring_cover`).
pub open spec fn ring_decomposition(constraints: Seq<Constraint>, rings: Seq<Seq<usize>>) -> bool {
    exists|pos: Seq<(int, int)>| #[trigger] ring_cover(constraints, rings, pos)
}

/// Some constraint sits at position `p` of ring `i`.
pub open spec fn occupied(pos: Seq<(int, int)>, i: int, p: int) -> bool {
    exists|k: int| 0 <= k < pos.len() && #[trigger] pos[k] == (i, p)
}

/// Some used constraint sits at position `p` of ring `i`.
pub open spec fn occupied_by_used(used: Seq<bool>, pos: Seq<(int, int)>, i: int, p: int) -> bool {
    exists|k: int| 0 <= k < pos.len() && used[k] && #[trigger] pos[k] == (i, p)
}

/// The rings of a result, as sequences.
pub open spec fn ring_views(rings: Seq<Vec<usize>>) -> Seq<Seq<usize>> {
    rings.map_values(|r: Vec<usize>| r@)
}

proof fn lemma_occurrences_prefix(constraints: Seq<Constraint>, v: int, a: int, b: int)
    requires
        0 <= a <= b <= constraints.len(),
    ensures
        occurrences(constraints, v, a).len() <= occurrences(constraints, v, b).len(),
        occurrences(constraints, v, b).subrange(0, occurrences(constraints, v, a).len() as int) == occurrences(constraints, v, a),
    decreases b,
{
    if a < b {
        lemma_occurrences_prefix(constraints, v, a, b - 1);
        let pa = occurrences(constraints, v, a);
        let pb = occurrences(constraints, v, b - 1);
        let full = occurrences(constraints, v, b);
        assert(full.subrange(0, pb.len() as int) == pb);
        assert(full.subrange(0, pa.len() as int) =~= pb.subrange(0, pa.len() as int));
    } else {
        assert(occurrences(constraints, v, b).subrange(0, occurrences(constraints, v, a).len() as int) =~= occurrences(constraints, v, a));
    }
}

proof fn lemma_occurrences_join(constraints: Seq<Constraint>, v: int, n: int)
    requires
        0 <= n <= constraints.len(),
        constraints.len() <= usize::MAX,
    ensures
        forall|j: int| 0 <= j < occurrences(constraints, v, n).len() ==> {
            let (k, w) = #[trigger] occurrences(constraints, v, n)[j];
            k < n && joins(constraints[k as int], v, w as int)
        },
    decreases n,
{
    if n > 0 {
        lemma_occurrences_join(constraints, v, n - 1);
        let prev = occurrences(constraints, v, n - 1);
        let c = constraints[n - 1];
        let with_from = if c.from == v { prev.push(((n - 1) as usize, c.to)) } else { prev };
        assert forall|j: int| 0 <= j < with_from.len() implies {
            let (k, w) = #[trigger] with_from[j];
            k < n && joins(constraints[k as int], v, w as int)
        } by {
            if j < prev.len() {
                assert(with_from[j] == prev[j]);
            }
        }
        let full = occurrences(constraints, v, n);
        assert(full == if c.to == v { with_from.push(((n - 1) as usize, c.from)) } else { with_from });
        assert forall|j: int| 0 <= j < full.len() implies {
            let (k, w) = #[trigger] full[j];
            k < n && joins(constraints[k as int], v, w as int)
        } by {
            if j < with_from.len() {
                assert(full[j] == with_from[j]);
            }
        }
    }
}

/// A duplicate-free sequence of values below `n` has at most `n` entries.
proof fn lemma_distinct_bounded(s: Seq<usize>, n: int)
    requires
        0 <= n,
        forall|a: int, b: int| 0 <= a < b < s.len() ==> #[trigger] s[a] != #[trigger] s[b],
        forall|a: int| 0 <= a < s.len() ==> #[trigger] s[a] < n,
    ensures
        s.len() <= n,
    decreases n,
{
    if n <= 0 {
        if s.len() > 0 {
            assert(s[0] < n);
        }
    } else if exists|a: int| 0 <= a < s.len() && s[a] == n - 1 {
        let a = choose|a: int| 0 <= a < s.len() && s[a] == n - 1;
        let t = s.remove(a);
        assert(t.len() == s.len() - 1);
        assert forall|x: int| 0 <= x < t.len() implies #[trigger] t[x] < n - 1 by {
            if x < a {
                assert(t[x] == s[x]);
            } else {
                assert(t[x] == s[x + 1]);
            }
        }
        assert forall|x: int, y: int| 0 <= x < y < t.len() implies #[trigger] t[x] != #[trigger] t[y] by {
            let sx = if x < a { x } else { x + 1 };
            let sy = if y < a { y } else { y + 1 };
            assert(t[x] == s[sx] && t[y] == s[sy]);
        }
        lemma_distinct_bounded(t, n - 1);
        assert(s.len() <= n);
    } else {
        assert forall|x: int| 0 <= x < s.len() implies #[trigger] s[x] < n - 1 by {
            assert(s[x] != n - 1);
        }
        lemma_distinct_bounded(s, n - 1);
    }
}

/// `row` with entry `j` replaced by `value`.
fn with_entry(row: [(usize, usize); 2], j: usize, value: (usize, usize)) -> (r: [(usize, usize); 2])
    requires
        j < 2,
    ensures
        r@ == row@.update(j as int, value),
{
    if j == 0 {
        [value, row[1]]
    } else {
        [row[0], value]
    }
}

/// The unused edge to continue a ring walk from a vertex whose two
/// incidences are `row`: preferably one that does not lead back to
/// `previous`.
pub open spec fn next_step(row: Seq<(usize, usize)>, used: Seq<bool>, previous: usize) -> Option<(usize, usize)> {
    if !used[row[0].0 as int] && row[0].1 != previous {
        Some(row[0])
    } else if !used[row[1].0 as int] && row[1].1 != previous {
        Some(row[1])
    } else if !used[row[0].0 as int] {
        Some(row[0])
    } else if !used[row[1].0 as int] {
        Some(row[1])
    } else {
        None
    }
}

fn find_next(row: [(usize, usize); 2], used: &Vec<bool>, previous: usize) -> (r: Option<(usize, usize)>)
    requires
        row[0].0 < used@.len(),
        row[1].0 < used@.len(),
    ensures
        r == next_step(row@, used@, previous),
{
    if !used[row[0].0] && row[0].1 != previous {
        Some(row[0])
    } else if !used[row[1].0] && row[1].1 != previous {
        Some(row[1])
    } else if !used[row[0].0] {
        Some(row[0])
    } else if !used[row[1].0] {
        Some(row[1])
    } else {
        None
    }
}

/// `x`, or 3 when it is larger.
pub open spec fn capped(x: int) -> int {
    if x < 3 { x } else { 3 }
}

/// The vertex after position `p` of a ring still being walked, whose last
/// vertex leads to `current`.
pub open spec fn open_next(ring: Seq<usize>, current: usize, p: int) -> usize {
    if p + 1 < ring.len() { ring[p + 1] } else { current }
}

/// Constraint `k` sits at its position in one of the finished `rings`.
pub open spec fn placed(constraints: Seq<Constraint>, pos: Seq<(int, int)>, rings: Seq<Seq<usize>>, k: int) -> bool {
    let (i, p) = pos[k];
    &&& 0 <= i < rings.len()
    &&& 0 <= p < rings[i].len()
    &&& joins(constraints[k], rings[i][p] as int, cyclic_next(rings[i], p) as int)
    &&& p == 0 ==> constraints[k].from == rings[i][0] && constraints[k].to == rings[i][1]
        && forall|j: int| 0 <= j < k ==> (#[trigger] pos[j]).0 < i
}

/// Constraint `k` sits at its position in the ring `i` still being walked.
pub open spec fn placed_open(constraints: Seq<Constraint>, pos: Seq<(int, int)>, i: int, ring: Seq<usize>, current: usize, k: int) -> bool {
    let (i2, p) = pos[k];
    &&& i2 == i
    &&& 0 <= p < ring.len()
    &&& joins(constraints[k], ring[p] as int, open_next(ring, current, p) as int)
    &&& p == 0 ==> constraints[k].from == ring[0] && constraints[k].to == open_next(ring, current, 0)
        && forall|j: int| 0 <= j < k ==> (#[trigger] pos[j]).0 < i
}

proof fn lemma_endpoint_degree(constraints: Seq<Constraint>, k: int, v: int)
    requires
        0 <= k < constraints.len(),
        constraints[k].from == v || constraints[k].to == v,
    ensures
        degree(constraints, v) >= 1,
{
    lemma_occurrences_prefix(constraints, v, k + 1, constraints.len() as int);
}

/// What the ring walk keeps between rings: the first `done` constraints are
/// used, every used constraint sits at a distinct position of a finished
/// ring, every ring position holds one, and the rings are simple.
pub open spec fn cover_state(constraints: Seq<Constraint>, used: Seq<bool>, pos: Seq<(int, int)>, rings: Seq<Seq<usize>>, done: int) -> bool {
    &&& used.len() == constraints.len()
    &&& pos.len() == constraints.len()
    &&& forall|j: int| 0 <= j < done ==> #[trigger] used[j]
    &&& forall|j: int| 0 <= j < constraints.len() && #[trigger] used[j] ==> placed(constraints, pos, rings, j)
    &&& forall|j: int| 0 <= j < constraints.len() && #[trigger] used[j] && pos[j].1 == 0 ==> j < done
    &&& forall|a: int, b: int| 0 <= a < b < constraints.len() && used[a] && used[b] ==> #[trigger] pos[a] != #[trigger] pos[b]
    &&& forall|i: int| 0 <= i < rings.len() ==> simple_ring(#[trigger] rings[i])
    &&& forall|i: int, p: int| 0 <= i < rings.len() && 0 <= p < rings[i].len() ==> #[trigger] occupied_by_used(used, pos, i, p)
}

proof fn lemma_cover_witness(constraints: Seq<Constraint>, used: Seq<bool>, pos: Seq<(int, int)>, rings: Seq<Seq<usize>>, done: int, i: int, p: int)
    requires
        cover_state(constraints, used, pos, rings, done),
        0 <= i < rings.len(),
        0 <= p < rings[i].len(),
    ensures
        exists|j: int| 0 <= j < constraints.len() && used[j] && #[trigger] pos[j] == (i, p),
{
    assert(occupied_by_used(used, pos, i, p));
}

proof fn lemma_cover_step(constraints: Seq<Constraint>, used: Seq<bool>, pos: Seq<(int, int)>, rings: Seq<Seq<usize>>, done: int)
    requires
        cover_state(constraints, used, pos, rings, done),
        0 <= done < constraints.len(),
        used[done],
    ensures
        cover_state(constraints, used, pos, rings, done + 1),
{
}

proof fn lemma_cover_complete(constraints: Seq<Constraint>, used: Seq<bool>, pos: Seq<(int, int)>, rings: Seq<Seq<usize>>)
    requires
        cover_state(constraints, used, pos, rings, constraints.len() as int),
    ensures
        ring_cover(constraints, rings, pos),
{
    assert forall|k: int| 0 <= k < constraints.len() implies {
        let (i, p) = #[trigger] pos[k];
        &&& 0 <= i < rings.len()
        &&& 0 <= p < rings[i].len()
        &&& joins(constraints[k], rings[i][p] as int, cyclic_next(rings[i], p) as int)
        &&& p == 0 ==> constraints[k].from == rings[i][0] && constraints[k].to == rings[i][1]
            && forall|j: int| 0 <= j < k ==> (#[trigger] pos[j]).0 < i
    } by {
        assert(used[k]);
        assert(placed(constraints, pos, rings, k));
    }
    assert forall|a: int, b: int| 0 <= a < b < constraints.len() implies #[trigger] pos[a] != #[trigger] pos[b] by {
        assert(used[a] && used[b]);
    }
    assert forall|i: int, p: int| 0 <= i < rings.len() && 0 <= p < rings[i].len() implies #[trigger] occupied(pos, i, p) by {
        lemma_cover_witness(constraints, used, pos, rings, constraints.len() as int, i, p);
        let j = choose|j: int| 0 <= j < constraints.len() && used[j] && #[trigger] pos[j] == (i, p);
        assert(pos[j] == (i, p));
    }
}

/// The incidence rows of a constraint set whose vertices all have degree
/// zero or two: row `u` lists the two endpoint occurrences of `u`.
pub open spec fn incidence_ok(point_count: int, constraints: Seq<Constraint>, rows: Seq<[(usize, usize); 2]>) -> bool {
    &&& rows.len() == point_count
    &&& constraints.len() <= usize::MAX
    &&& forall|k: int| 0 <= k < constraints.len() ==> (#[trigger] constraints[k]).from < point_count && constraints[k].to < point_count
    &&& forall|u: int| 0 <= u < point_count ==> #[trigger] degree(constraints, u) == 0 || degree(constraints, u) == 2
    &&& forall|u: int| 0 <= u < point_count && #[trigger] degree(constraints, u) == 2
        ==> rows[u]@ == occurrences(constraints, u, constraints.len() as int)
}

/// The two endpoint occurrences of every vertex, or `None` when some vertex
/// has a degree other than zero or two.
fn incidence_rows(point_count: usize, constraints: &[Constraint]) -> (r: Option<Vec<[(usize, usize); 2]>>)
    requires
        forall|k: int| 0 <= k < constraints@.len() ==> (#[trigger] constraints@[k]).from < point_count && constraints@[k].to < point_count,
    ensures
        r is None <==> exists|v: int| 0 <= v < point_count && #[trigger] degree(constraints@, v) != 0 && degree(constraints@, v) != 2,
        r matches Some(rows) ==> incidence_ok(point_count as int, constraints@, rows@),
{
    let ghost c = constraints@;
    let n = constraints.len();
    let mut degrees: Vec<usize> = Vec::new();
    let mut v: usize = 0;
    while v < point_count
        invariant
            v <= point_count,
            degrees@.len() == v,
            forall|u: int| 0 <= u < v ==> degrees@[u] == 0,
        decreases point_count - v,
    {
        degrees.push(0);
        v = v + 1;
    }
    let mut k: usize = 0;
    while k < n
        invariant
            k <= n,
            n == c.len(),
            c == constraints@,
            forall|j: int| 0 <= j < n ==> (#[trigger] c[j]).from < point_count && c[j].to < point_count,
            degrees@.len() == point_count,
            forall|u: int| 0 <= u < point_count ==> #[trigger] degrees@[u] == capped(occurrences(c, u, k as int).len() as int),
        decreases n - k,
    {
        let e = constraints[k];
        let ghost before = degrees@;
        if degrees[e.from] < 3 {
            degrees.set(e.from, degrees[e.from] + 1);
        }
        if degrees[e.to] < 3 {
            degrees.set(e.to, degrees[e.to] + 1);
        }
        proof {
            assert forall|u: int| 0 <= u < point_count implies #[trigger] degrees@[u] == capped(occurrences(c, u, k + 1).len() as int) by {
                assert(before[u] == capped(occurrences(c, u, k as int).len() as int));
            }
        }
        k = k + 1;
    }
    let mut v: usize = 0;
    while v < point_count
        invariant
            v <= point_count,
            n == c.len(),
            c == constraints@,
            degrees@.len() == point_count,
            forall|u: int| 0 <= u < point_count ==> #[trigger] degrees@[u] == capped(occurrences(c, u, n as int).len() as int),
            forall|u: int| 0 <= u < v ==> #[trigger] degree(c, u) == 0 || degree(c, u) == 2,
        decreases point_count - v,
    {
        if degrees[v] != 0 && degrees[v] != 2 {
            assert(degree(c, v as int) != 0 && degree(c, v as int) != 2) by {
                assert(degrees@[v as int] == capped(occurrences(c, v as int, n as int).len() as int));
            }
            return None;
        }
        assert(degree(c, v as int) == 0 || degree(c, v as int) == 2) by {
            assert(degrees@[v as int] == capped(occurrences(c, v as int, n as int).len() as int));
        }
        v = v + 1;
    }
    let mut adjacency: Vec<[(usize, usize); 2]> = Vec::new();
    let mut filled: Vec<usize> = Vec::new();
    let mut v: usize = 0;
    while v < point_count
        invariant
            v <= point_count,
            adjacency@.len() == v,
            filled@.len() == v,
            forall|u: int| 0 <= u < v ==> filled@[u] == 0,
        decreases point_count - v,
    {
        adjacency.push([(0, 0), (0, 0)]);
        filled.push(0);
        v = v + 1;
    }
    let mut k: usize = 0;
    while k < n
        invariant
            k <= n,
            n == c.len(),
            c == constraints@,
            forall|j: int| 0 <= j < n ==> (#[trigger] c[j]).from < point_count && c[j].to < point_count,
            forall|u: int| 0 <= u < point_count ==> #[trigger] degree(c, u) == 0 || degree(c, u) == 2,
            adjacency@.len() == point_count,
            filled@.len() == point_count,
            forall|u: int| 0 <= u < point_count ==> #[trigger] filled@[u] == occurrences(c, u, k as int).len(),
            forall|u: int| 0 <= u < point_count ==> #[trigger] filled@[u] <= 2,
            forall|u: int, j: int| 0 <= u < point_count && 0 <= j < filled@[u]
                ==> #[trigger] adjacency@[u][j] == occurrences(c, u, k as int)[j],
        decreases n - k,
    {
        let e = constraints[k];
        proof {
            lemma_occurrences_prefix(c, e.from as int, k + 1, n as int);
            lemma_occurrences_prefix(c, e.to as int, k + 1, n as int);
            assert(degree(c, e.from as int) == 0 || degree(c, e.from as int) == 2);
            assert(degree(c, e.to as int) == 0 || degree(c, e.to as int) == 2);
            let occ_from = occurrences(c, e.from as int, k as int);
            let occ_to = occurrences(c, e.to as int, k as int);
            assert(occurrences(c, e.from as int, k + 1).len() >= occ_from.len() + 1);
            assert(occurrences(c, e.to as int, k + 1).len() >= occ_to.len() + 1 + if e.from == e.to { 1int } else { 0 });
        }
        let ghost adj0 = adjacency@;
        let ghost fill0 = filled@;
        let f = filled[e.from];
        adjacency.set(e.from, with_entry(adjacency[e.from], f, (k, e.to)));
        filled.set(e.from, f + 1);
        let g = filled[e.to];
        adjacency.set(e.to, with_entry(adjacency[e.to], g, (k, e.from)));
        filled.set(e.to, g + 1);
        proof {
            assert forall|u: int| 0 <= u < point_count implies #[trigger] filled@[u] == occurrences(c, u, k + 1).len() && filled@[u] <= 2 by {
                lemma_occurrences_prefix(c, u, k + 1, n as int);
            }
            assert forall|u: int, j: int| 0 <= u < point_count && 0 <= j < filled@[u]
                implies #[trigger] adjacency@[u][j] == occurrences(c, u, k + 1)[j] by {
                if j < fill0[u] {
                    assert(adj0[u][j] == occurrences(c, u, k as int)[j]);
                }
            }
        }
        k = k + 1;
    }
    proof {
        assert forall|u: int| 0 <= u < point_count && #[trigger] degree(c, u) == 2
            implies adjacency@[u]@ == occurrences(c, u, n as int) by {
            assert(adjacency@[u][0] == occurrences(c, u, n as int)[0]);
            assert(adjacency@[u][1] == occurrences(c, u, n as int)[1]);
            assert(adjacency@[u]@ =~= occurrences(c, u, n as int));
        }
    }
    Some(adjacency)
}

/// No constraint joins a vertex to itself.
pub open spec fn no_self_loops(constraints: Seq<Constraint>) -> bool {
    forall|k: int| 0 <= k < constraints.len() ==> (#[trigger] constraints[k]).from != constraints[k].to
}

/// No two constraints join the same pair of vertices.
pub open spec fn no_repeated_pairs(constraints: Seq<Constraint>) -> bool {
    forall|a: int, b: int| 0 <= a < b < constraints.len()
        ==> !joins(#[trigger] constraints[a], (#[trigger] constraints[b]).from as int, constraints[b].to as int)
}

/// Constraints without loops or repeated segments.
pub open spec fn simple_constraints(constraints: Seq<Constraint>) -> bool {
    no_self_loops(constraints) && no_repeated_pairs(constraints)
}

/// How many of the (two) constraints at `v` are used.
pub open spec fn used_in(constraints: Seq<Constraint>, used: Seq<bool>, v: int) -> int {
    let occ = occurrences(constraints, v, constraints.len() as int);
    if occ.len() == 2 {
        (if used[occ[0].0 as int] { 1int } else { 0int }) + (if used[occ[1].0 as int] { 1int } else { 0int })
    } else {
        0
    }
}

/// Every vertex has none or all of its constraints used.
pub open spec fn balanced(constraints: Seq<Constraint>, used: Seq<bool>, point_count: int) -> bool {
    forall|v: int| 0 <= v < point_count ==> #[trigger] used_in(constraints, used, v) == 0 || used_in(constraints, used, v) == 2
}

proof fn lemma_occurrence_indices_distinct(constraints: Seq<Constraint>, v: int, m: int)
    requires
        no_self_loops(constraints),
        0 <= m <= constraints.len(),
        constraints.len() <= usize::MAX,
    ensures
        forall|i: int, j: int| 0 <= i < j < occurrences(constraints, v, m).len()
            ==> (#[trigger] occurrences(constraints, v, m)[i]).0 != (#[trigger] occurrences(constraints, v, m)[j]).0,
    decreases m,
{
    if m > 0 {
        lemma_occurrence_indices_distinct(constraints, v, m - 1);
        lemma_occurrences_join(constraints, v, m - 1);
        let prev = occurrences(constraints, v, m - 1);
        let full = occurrences(constraints, v, m);
        let c = constraints[m - 1];
        assert(c.from != c.to);
        assert forall|i: int, j: int| 0 <= i < j < full.len() implies (#[trigger] full[i]).0 != (#[trigger] full[j]).0 by {
            if j < prev.len() {
                assert(full[i] == prev[i]);
                assert(full[j] == prev[j]);
            } else {
                assert(full[j].0 == m - 1);
                assert(i < prev.len());
                assert(full[i] == prev[i]);
                assert(prev[i].0 < m - 1);
            }
        }
    }
}

proof fn lemma_incident_has_entry(constraints: Seq<Constraint>, v: int, k: int)
    requires
        0 <= k < constraints.len(),
        constraints.len() <= usize::MAX,
        constraints[k].from == v || constraints[k].to == v,
    ensures
        exists|j: int| 0 <= j < occurrences(constraints, v, constraints.len() as int).len()
            && (#[trigger] occurrences(constraints, v, constraints.len() as int)[j]).0 == k,
{
    let n = constraints.len() as int;
    lemma_occurrences_prefix(constraints, v, k + 1, n);
    let before = occurrences(constraints, v, k);
    let upto = occurrences(constraints, v, k + 1);
    let full = occurrences(constraints, v, n);
    let j = before.len() as int;
    assert(upto[j].0 == k);
    assert(full.subrange(0, upto.len() as int)[j] == full[j]);
}

proof fn lemma_mark_used(constraints: Seq<Constraint>, used: Seq<bool>, g: int, v: int)
    requires
        simple_constraints(constraints),
        constraints.len() <= usize::MAX,
        used.len() == constraints.len(),
        0 <= g < constraints.len(),
        !used[g],
        degree(constraints, v) == 0 || degree(constraints, v) == 2,
    ensures
        used_in(constraints, used.update(g, true), v)
            == used_in(constraints, used, v) + if constraints[g].from == v || constraints[g].to == v { 1int } else { 0int },
{
    let n = constraints.len() as int;
    let occ = occurrences(constraints, v, n);
    lemma_occurrences_join(constraints, v, n);
    if constraints[g].from == v || constraints[g].to == v {
        lemma_incident_has_entry(constraints, v, g);
    }
    if occ.len() == 2 {
        lemma_occurrence_indices_distinct(constraints, v, n);
        assert(occ[0].0 != occ[1].0);
    }
}

proof fn lemma_unused_incident(constraints: Seq<Constraint>, used: Seq<bool>, g: int, v: int)
    requires
        constraints.len() <= usize::MAX,
        used.len() == constraints.len(),
        0 <= g < constraints.len(),
        !used[g],
        constraints[g].from == v || constraints[g].to == v,
        degree(constraints, v) == 0 || degree(constraints, v) == 2,
    ensures
        used_in(constraints, used, v) < 2,
        degree(constraints, v) == 2,
{
    lemma_incident_has_entry(constraints, v, g);
}

/// Walk the ring that starts with the unused constraint `edge_index`,
/// marking its constraints used; `None` when the walk meets a vertex twice
/// or closes with fewer than three vertices.
#[verifier::loop_isolation(false)]
fn walk_ring(
    point_count: usize,
    constraints: &[Constraint],
    adjacency: &Vec<[(usize, usize); 2]>,
    used: &mut Vec<bool>,
    edge_index: usize,
    Ghost(rings): Ghost<Seq<Seq<usize>>>,
    Ghost(pos0): Ghost<Seq<(int, int)>>,
) -> (r: (Option<Vec<usize>>, Ghost<Seq<(int, int)>>))
    requires
        incidence_ok(point_count as int, constraints@, adjacency@),
        cover_state(constraints@, old(used)@, pos0, rings, edge_index as int),
        edge_index < constraints@.len(),
        !old(used)@[edge_index as int],
        simple_constraints(constraints@) ==> balanced(constraints@, old(used)@, point_count as int),
    ensures
        r.0 matches Some(ring) ==> cover_state(constraints@, final(used)@, r.1@, rings.push(ring@), edge_index + 1),
        simple_constraints(constraints@) ==> (r.0 is Some && balanced(constraints@, final(used)@, point_count as int)),
{
    let ghost c = constraints@;
    let n = constraints.len();
    let ghost i = rings.len() as int;
    let edge = constraints[edge_index];
    let mut ring: Vec<usize> = Vec::new();
    let start = edge.from;
    let mut current = edge.to;
    let mut previous = start;
    let ghost pos0_used = used@;
    used.set(edge_index, true);
    ring.push(start);
    let ghost mut pos = pos0.update(edge_index as int, (i, 0int));
    let ghost mut last = edge_index as int;
    proof {
        if simple_constraints(c) {
            assert(c[edge_index as int].from != c[edge_index as int].to);
            lemma_unused_incident(c, pos0_used, edge_index as int, start as int);
            lemma_unused_incident(c, pos0_used, edge_index as int, current as int);
            lemma_mark_used(c, pos0_used, edge_index as int, start as int);
            lemma_mark_used(c, pos0_used, edge_index as int, current as int);
            assert(used@ == pos0_used.update(edge_index as int, true));
            assert forall|v: int| 0 <= v < point_count && v != start && v != current
                implies (#[trigger] used_in(c, used@, v) == 0 || used_in(c, used@, v) == 2) by {
                lemma_mark_used(c, pos0_used, edge_index as int, v);
                assert(used_in(c, pos0_used, v) == 0 || used_in(c, pos0_used, v) == 2);
            }
        }
        lemma_endpoint_degree(c, edge_index as int, current as int);
        assert forall|j: int| 0 <= j < n && #[trigger] used@[j] implies (pos[j].0 < i && placed(c, pos, rings, j))
            || placed_open(c, pos, i, ring@, current, j) by {
            if j != edge_index {
                assert(pos0_used[j]);
                assert(placed(c, pos0, rings, j));
                assert(pos[j] == pos0[j]);
                if pos[j].1 == 0 {
                    assert forall|j2: int| 0 <= j2 < j implies (#[trigger] pos[j2]).0 < pos[j].0 by {
                        assert(pos0[j2].0 < pos0[j].0);
                        if j2 == edge_index {
                            assert(false);
                        }
                    }
                }
            } else {
                assert forall|j2: int| 0 <= j2 < j implies (#[trigger] pos[j2]).0 < i by {
                    assert(pos0_used[j2]);
                    assert(placed(c, pos0, rings, j2));
                }
            }
        }
        assert forall|a: int, b: int| 0 <= a < b < n && used@[a] && used@[b] implies #[trigger] pos[a] != #[trigger] pos[b] by {
            if a != edge_index && b != edge_index {
                assert(pos0[a] != pos0[b]);
            } else if a == edge_index {
                assert(placed(c, pos0, rings, b));
            } else {
                assert(placed(c, pos0, rings, a));
            }
        }
        assert forall|i2: int, p: int| 0 <= i2 < rings.len() && 0 <= p < rings[i2].len()
            implies #[trigger] occupied_by_used(used@, pos, i2, p) by {
            lemma_cover_witness(c, pos0_used, pos0, rings, edge_index as int, i2, p);
            let j = choose|j: int| 0 <= j < n && pos0_used[j] && #[trigger] pos0[j] == (i2, p);
            assert(pos[j] == (i2, p));
        }
        assert forall|p: int| 0 <= p < ring@.len() implies #[trigger] occupied_by_used(used@, pos, i, p) by {
            assert(pos[edge_index as int] == (i, p));
        }
    }
    while current != start
        invariant
            used@.len() == n,
            pos.len() == n,
            1 <= ring@.len() <= point_count,
            ring@[0] == start,
            start == c[edge_index as int].from,
            forall|a: int, b: int| 0 <= a < b < ring@.len() ==> #[trigger] ring@[a] != #[trigger] ring@[b],
            forall|a: int| 0 <= a < ring@.len() ==> #[trigger] ring@[a] < point_count,
            previous == ring@[ring@.len() - 1],
            current < point_count,
            degree(c, current as int) >= 1,
            used@[edge_index as int],
            pos[edge_index as int] == (i, 0int),
            forall|j: int| 0 <= j < edge_index ==> #[trigger] used@[j],
            forall|j: int| 0 <= j < n && #[trigger] used@[j] ==> (pos[j].0 < i && placed(c, pos, rings, j))
                || placed_open(c, pos, i, ring@, current, j),
            forall|j: int| 0 <= j < n && #[trigger] used@[j] && pos[j].1 == 0 ==> j <= edge_index,
            forall|a: int, b: int| 0 <= a < b < n && used@[a] && used@[b] ==> #[trigger] pos[a] != #[trigger] pos[b],
            forall|i2: int, p: int| 0 <= i2 < rings.len() && 0 <= p < rings[i2].len() ==> #[trigger] occupied_by_used(used@, pos, i2, p),
            forall|p: int| 0 <= p < ring@.len() ==> #[trigger] occupied_by_used(used@, pos, i, p),
            simple_constraints(c) ==> used_in(c, used@, start as int) == if current == start { 2int } else { 1int },
            simple_constraints(c) && current != start ==> used_in(c, used@, current as int) == 1,
            simple_constraints(c) ==> forall|p: int| 1 <= p < ring@.len() ==> used_in(c, used@, #[trigger] ring@[p] as int) == 2,
            simple_constraints(c) ==> forall|v: int| 0 <= v < point_count && v != start && v != current
                ==> (#[trigger] used_in(c, used@, v) == 0 || used_in(c, used@, v) == 2),
            0 <= last < n,
            used@[last],
            joins(c[last], ring@[ring@.len() - 1] as int, current as int),
            ring@.len() == 1 ==> last == edge_index,
            ring@.len() >= 2 ==> last != edge_index,
        decreases point_count - ring@.len(),
    {
        if contains_usize(ring.as_slice(), current) {
            proof {
                if simple_constraints(c) {
                    let p = choose|p: int| 0 <= p < ring@.len() && ring@[p] == current;
                    if p >= 1 {
                        assert(used_in(c, used@, ring@[p] as int) == 2);
                    }
                }
            }
            return (None, Ghost(pos));
        }
        let ghost old_ring = ring@;
        let ghost old_current = current;
        ring.push(current);
        proof {
            lemma_distinct_bounded(ring@, point_count as int);
        }
        let row = adjacency[current];
        proof {
            lemma_occurrences_join(c, current as int, n as int);
            assert(row@[0] == occurrences(c, current as int, n as int)[0]);
            assert(row@[1] == occurrences(c, current as int, n as int)[1]);
        }
        let found = find_next(row, &used, previous);
        proof {
            if simple_constraints(c) {
                assert(degree(c, current as int) == 2);
                assert(used_in(c, used@, current as int) == 1);
                assert(found is Some);
            }
        }
        let next = match found {
            Some(x) => x,
            None => return (None, Ghost(pos)),
        };
        let ghost old_used = used@;
        let ghost old_pos = pos;
        proof {
            assert(!old_used[next.0 as int]);
            assert(joins(c[next.0 as int], current as int, next.1 as int));
        }
        used.set(next.0, true);
        proof {
            pos = pos.update(next.0 as int, (i, old_ring.len() as int));
            lemma_endpoint_degree(c, next.0 as int, next.1 as int);
            last = next.0 as int;
            if simple_constraints(c) {
                let g = next.0 as int;
                let w = next.1 as int;
                assert(c[g].from != c[g].to);
                assert(used@ == old_used.update(g, true));
                lemma_unused_incident(c, old_used, g, w);
                lemma_mark_used(c, old_used, g, w);
                lemma_mark_used(c, old_used, g, current as int);
                lemma_mark_used(c, old_used, g, start as int);
                assert forall|p: int| 1 <= p < ring@.len() implies used_in(c, used@, #[trigger] ring@[p] as int) == 2 by {
                    if p < old_ring.len() {
                        assert(ring@[p] == old_ring[p]);
                        assert(used_in(c, old_used, old_ring[p] as int) == 2);
                        lemma_mark_used(c, old_used, g, old_ring[p] as int);
                        assert(old_ring[p] != current);
                        if old_ring[p] == w {
                            assert(used_in(c, old_used, w) < 2);
                        }
                    }
                }
                assert forall|v: int| 0 <= v < point_count && v != start && v != w
                    implies (#[trigger] used_in(c, used@, v) == 0 || used_in(c, used@, v) == 2) by {
                    lemma_mark_used(c, old_used, g, v);
                    if v != current {
                        assert(used_in(c, old_used, v) == 0 || used_in(c, old_used, v) == 2);
                    }
                }
            }
        }
        previous = current;
        current = next.1;
        proof {
            assert forall|j: int| 0 <= j < n && #[trigger] used@[j] implies (pos[j].0 < i && placed(c, pos, rings, j))
                || placed_open(c, pos, i, ring@, current, j) by {
                if j != next.0 {
                    assert(old_used[j]);
                    assert(pos[j] == old_pos[j]);
                    if !(old_pos[j].0 < i && placed(c, old_pos, rings, j)) {
                        assert(placed_open(c, old_pos, i, old_ring, old_current, j));
                    }
                    if pos[j].1 == 0 {
                        assert forall|j2: int| 0 <= j2 < j implies (#[trigger] pos[j2]).0 < pos[j].0 by {
                            assert(old_pos[j2].0 < old_pos[j].0);
                            if j2 == next.0 {
                                assert(old_used[j2]);
                            }
                        }
                    }
                }
            }
            assert forall|a: int, b: int| 0 <= a < b < n && used@[a] && used@[b] implies #[trigger] pos[a] != #[trigger] pos[b] by {
                if a != next.0 && b != next.0 {
                    assert(old_pos[a] != old_pos[b]);
                } else if a == next.0 {
                    assert(old_used[b]);
                } else {
                    assert(old_used[a]);
                }
            }
            assert forall|p: int| 0 <= p < ring@.len() implies #[trigger] occupied_by_used(used@, pos, i, p) by {
                if p < old_ring.len() {
                    assert(occupied_by_used(old_used, old_pos, i, p));
                    let j = choose|j: int| 0 <= j < n && old_used[j] && #[trigger] old_pos[j] == (i, p);
                    assert(pos[j] == (i, p));
                } else {
                    assert(pos[next.0 as int] == (i, p));
                }
            }
            assert forall|i2: int, p: int| 0 <= i2 < rings.len() && 0 <= p < rings[i2].len()
                implies #[trigger] occupied_by_used(used@, pos, i2, p) by {
                assert(occupied_by_used(old_used, old_pos, i2, p));
                let j = choose|j: int| 0 <= j < n && old_used[j] && #[trigger] old_pos[j] == (i2, p);
                assert(pos[j] == (i2, p));
            }
        }
    }
    if ring.len() < 3 {
        proof {
            if simple_constraints(c) {
                let e = edge_index as int;
                if ring@.len() == 1 {
                    assert(c[e].from != c[e].to);
                } else {
                    assert(placed_open(c, pos, i, ring@, current, e));
                    assert(joins(c[e], start as int, ring@[1] as int));
                    assert(joins(c[last], ring@[1] as int, start as int));
                    if e < last {
                        assert(!joins(c[e], c[last].from as int, c[last].to as int));
                    } else {
                        assert(!joins(c[last], c[e].from as int, c[e].to as int));
                    }
                }
            }
        }
        return (None, Ghost(pos));
    }
    proof {
        if simple_constraints(c) {
            assert forall|v: int| 0 <= v < point_count implies #[trigger] used_in(c, used@, v) == 0 || used_in(c, used@, v) == 2 by {}
        }
        let all = rings.push(ring@);
        assert forall|j: int| 0 <= j < n && #[trigger] used@[j] implies placed(c, pos, all, j) by {
            if !(pos[j].0 < i && placed(c, pos, rings, j)) {
                assert(placed_open(c, pos, i, ring@, current, j));
            }
        }
        assert forall|i2: int, p: int| 0 <= i2 < all.len() && 0 <= p < all[i2].len()
            implies #[trigger] occupied_by_used(used@, pos, i2, p) by {
            if i2 < i {
                assert(occupied_by_used(used@, pos, i2, p));
            } else {
                assert(occupied_by_used(used@, pos, i, p));
            }
        }
        assert forall|i2: int| 0 <= i2 < all.len() implies simple_ring(#[trigger] all[i2]) by {}
    }
    (Some(ring), Ghost(pos))
}

/// The closed rings formed by `constraints` over `point_count` vertices:
/// `None` unless the constraints split into vertex-disjoint cycles of at
/// least three distinct vertices. Rings come in the order of their
/// lowest-numbered constraint, each walked from that constraint's `from`.
pub fn extract_closed_rings(point_count: usize, constraints: &[Constraint]) -> (r: Option<Vec<Vec<usize>>>)
    requires
        forall|k: int| 0 <= k < constraints@.len() ==> (#[trigger] constraints@[k]).from < point_count && constraints@[k].to < point_count,
    ensures
        (constraints@.len() == 0 || point_count < 3) ==> r is None,
        (exists|v: int| 0 <= v < point_count && #[trigger] degree(constraints@, v) != 0 && degree(constraints@, v) != 2) ==> r is None,
        r matches Some(rings) ==> ring_decomposition(constraints@, ring_views(rings@)),
        (constraints@.len() > 0 && point_count >= 3 && simple_constraints(constraints@)
            && forall|v: int| 0 <= v < point_count ==> #[trigger] degree(constraints@, v) == 0 || degree(constraints@, v) == 2)
            ==> r is Some,
{
    if constraints.len() == 0 || point_count < 3 {
        return None;
    }
    let ghost c = constraints@;
    let n = constraints.len();
    let adjacency = match incidence_rows(point_count, constraints) {
        Some(rows) => rows,
        None => return None,
    };
    let mut used: Vec<bool> = Vec::new();
    let mut k: usize = 0;
    while k < n
        invariant
            k <= n,
            used@.len() == k,
            forall|j: int| 0 <= j < k ==> !used@[j],
        decreases n - k,
    {
        used.push(false);
        k = k + 1;
    }
    let mut rings: Vec<Vec<usize>> = Vec::new();
    let ghost mut pos: Seq<(int, int)> = Seq::new(n as nat, |k: int| (0int, 0int));
    proof {
        assert forall|v: int| 0 <= v < point_count implies #[trigger] used_in(c, used@, v) == 0 || used_in(c, used@, v) == 2 by {
            let occ = occurrences(c, v, n as int);
            if occ.len() == 2 {
                lemma_occurrences_join(c, v, n as int);
                assert(!used@[occ[0].0 as int]);
                assert(!used@[occ[1].0 as int]);
            }
        }
    }
    proof {
        assert(ring_views(rings@) =~= Seq::<Seq<usize>>::empty());
    }
    let mut edge_index: usize = 0;
    while edge_index < n
        invariant
            edge_index <= n,
            n == c.len(),
            c == constraints@,
            incidence_ok(point_count as int, c, adjacency@),
            cover_state(c, used@, pos, ring_views(rings@), edge_index as int),
            simple_constraints(c) ==> balanced(c, used@, point_count as int),
        decreases n - edge_index,
    {
        if !used[edge_index] {
            let (walked, Ghost(new_pos)) = walk_ring(point_count, constraints, &adjacency, &mut used, edge_index, Ghost(ring_views(rings@)), Ghost(pos));
            let ring = match walked {
                Some(ring) => ring,
                None => return None,
            };
            let ghost old_rings = rings@;
            let ghost ring_view = ring@;
            rings.push(ring);
            proof {
                pos = new_pos;
                assert(ring_views(rings@) =~= ring_views(old_rings).push(ring_view));
            }
        } else {
            proof {
                lemma_cover_step(c, used@, pos, ring_views(rings@), edge_index as int);
            }
        }
        edge_index = edge_index + 1;
    }
    let mut k: usize = 0;
    while k < n
        invariant
            k <= n,
            n == c.len(),
            cover_state(c, used@, pos, ring_views(rings@), n as int),
            forall|j: int| 0 <= j < k ==> used@[j],
        decreases n - k,
    {
        if !used[k] {
            return None;
        }
        k = k + 1;
    }
    proof {
        lemma_cover_complete(c, used@, pos, ring_views(rings@));
        assert(ring_decomposition(constraints@, ring_views(rings@)));
    }
    Some(rings)
}

} // verus!
