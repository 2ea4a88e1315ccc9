//! Ordering of closed constraint rings as one polygon: the exterior ring,
//! found by exact even-odd containment, then the holes in lexicographic order
//! of their leftmost points.
use vstd::prelude::*;
use vstd::multiset::Multiset;
use crate::constraints::{degree, extract_closed_rings, joins, ring_cover, ring_decomposition, ring_views, simple_constraints};
use crate::nd::handles::copy_usizes;
use crate::context::PredicatePolicy;
use crate::error::Error;
use crate::predicates::{point_in_ring_even_odd, ring_contains_result};
use crate::types::{Constraint, ExactPoint, Point2};

verus! {

/// Every ring is nonempty and names points of the list.
pub open spec fn rings_in_bounds(rings: Seq<Seq<usize>>, point_count: int) -> bool {
    forall|r: int| 0 <= r < rings.len() ==> (#[trigger] rings[r]).len() >= 1
        && forall|i: int| 0 <= i < rings[r].len() ==> #[trigger] rings[r][i] < point_count
}

/// Even-odd containment of the first point of ring `other` in ring `ring`.
pub open spec fn first_point_in_ring(points: Seq<Point2>, rings: Seq<Seq<usize>>, ring: int, other: int, policy: PredicatePolicy) -> Result<bool, Error> {
    ring_contains_result(points, rings[ring], points[rings[other][0] as int], policy)
}

/// Whether ring `r` contains the first point of every other ring below `k`,
/// in ring order, stopping at the first `false` or undecided test.
pub open spec fn contains_others_upto(points: Seq<Point2>, rings: Seq<Seq<usize>>, r: int, policy: PredicatePolicy, k: int) -> Result<bool, Error>
    decreases k,
{
    if k <= 0 {
        Ok(true)
    } else {
        match contains_others_upto(points, rings, r, policy, k - 1) {
            Ok(true) => if k - 1 == r { Ok(true) } else { first_point_in_ring(points, rings, r, k - 1, policy) },
            other => other,
        }
    }
}

/// Exterior search over the rings below `i`: the ring found so far that
/// contains all others, flagged once a second such ring appears.
pub open spec fn exterior_upto(points: Seq<Point2>, rings: Seq<Seq<usize>>, policy: PredicatePolicy, i: int) -> Result<(bool, Option<int>), Error>
    decreases i,
{
    if i <= 0 {
        Ok((false, None))
    } else {
        match exterior_upto(points, rings, policy, i - 1) {
            Err(e) => Err(e),
            Ok((true, c)) => Ok((true, c)),
            Ok((false, c)) => match contains_others_upto(points, rings, i - 1, policy, rings.len() as int) {
                Err(e) => Err(e),
                Ok(false) => Ok((false, c)),
                Ok(true) => if c is Some { Ok((true, c)) } else { Ok((false, Some(i - 1))) },
            },
        }
    }
}

/// The unique ring that contains the first point of every other ring, or
/// `None` when there is none or more than one.
pub open spec fn exterior_result(points: Seq<Point2>, rings: Seq<Seq<usize>>, policy: PredicatePolicy) -> Result<Option<int>, Error> {
    match exterior_upto(points, rings, policy, rings.len() as int) {
        Err(e) => Err(e),
        Ok((true, _)) => Ok(None),
        Ok((false, c)) => Ok(c),
    }
}

/// Whether the first point of ring `r` lies in some ring below `k` other than
/// `exterior` and `r` itself, in ring order.
pub open spec fn inside_other_upto(points: Seq<Point2>, rings: Seq<Seq<usize>>, exterior: int, r: int, policy: PredicatePolicy, k: int) -> Result<bool, Error>
    decreases k,
{
    if k <= 0 {
        Ok(false)
    } else {
        match inside_other_upto(points, rings, exterior, r, policy, k - 1) {
            Ok(false) => if k - 1 == exterior || k - 1 == r { Ok(false) } else { first_point_in_ring(points, rings, k - 1, r, policy) },
            other => other,
        }
    }
}

/// Position of the first lexicographically smallest point among the first
/// `k` positions of a ring.
pub open spec fn leftmost_upto(points: Seq<Point2>, ring: Seq<usize>, k: int) -> int
    decreases k,
{
    if k <= 1 {
        0
    } else {
        let best = leftmost_upto(points, ring, k - 1);
        if points[ring[k - 1] as int].lex_before(points[ring[best] as int]) { k - 1 } else { best }
    }
}

/// The leftmost (then lowest) point of a ring.
pub open spec fn representative(points: Seq<Point2>, ring: Seq<usize>) -> Point2 {
    points[ring[leftmost_upto(points, ring, ring.len() as int)] as int]
}

/// Where a hole goes among the holes from position `k`: before the first
/// hole whose representative it precedes, else at the end.
pub open spec fn hole_insert_position(points: Seq<Point2>, holes: Seq<Seq<usize>>, hole: Seq<usize>, k: int) -> int
    decreases holes.len() - k,
{
    if k < 0 || k >= holes.len() {
        holes.len() as int
    } else if representative(points, hole).lex_before(representative(points, holes[k])) {
        k
    } else {
        hole_insert_position(points, holes, hole, k + 1)
    }
}

/// The holes after placing the rings below `k` other than the exterior, or
/// `None` once a ring lies inside another hole.
pub open spec fn holes_upto(points: Seq<Point2>, rings: Seq<Seq<usize>>, exterior: int, policy: PredicatePolicy, k: int) -> Result<Option<Seq<Seq<usize>>>, Error>
    decreases k,
{
    if k <= 0 {
        Ok(Some(Seq::empty()))
    } else {
        match holes_upto(points, rings, exterior, policy, k - 1) {
            Err(e) => Err(e),
            Ok(None) => Ok(None),
            Ok(Some(holes)) => if k - 1 == exterior {
                Ok(Some(holes))
            } else {
                match inside_other_upto(points, rings, exterior, k - 1, policy, rings.len() as int) {
                    Err(e) => Err(e),
                    Ok(true) => Ok(None),
                    Ok(false) => Ok(Some(holes.insert(hole_insert_position(points, holes, rings[k - 1], 0), rings[k - 1]))),
                }
            },
        }
    }
}

/// The rings as one polygon: a single ring as it is; otherwise the unique
/// exterior ring followed by the other rings sorted by representative, or
/// `None` when there is no unique exterior or a ring lies inside another
/// hole.
pub open spec fn ring_order_result(points: Seq<Point2>, rings: Seq<Seq<usize>>, policy: PredicatePolicy) -> Result<Option<Seq<Seq<usize>>>, Error> {
    if rings.len() == 1 {
        Ok(Some(rings))
    } else {
        match exterior_result(points, rings, policy) {
            Err(e) => Err(e),
            Ok(None) => Ok(None),
            Ok(Some(exterior)) => match holes_upto(points, rings, exterior, policy, rings.len() as int) {
                Err(e) => Err(e),
                Ok(None) => Ok(None),
                Ok(Some(holes)) => Ok(Some(seq![rings[exterior]] + holes)),
            },
        }
    }
}

proof fn lemma_contains_others_settled(points: Seq<Point2>, rings: Seq<Seq<usize>>, r: int, policy: PredicatePolicy, k: int, m: int)
    requires
        0 <= k <= m,
        contains_others_upto(points, rings, r, policy, k) != Ok::<bool, Error>(true),
    ensures
        contains_others_upto(points, rings, r, policy, m) == contains_others_upto(points, rings, r, policy, k),
    decreases m - k,
{
    if m > k {
        lemma_contains_others_settled(points, rings, r, policy, k, m - 1);
    }
}

proof fn lemma_exterior_settled(points: Seq<Point2>, rings: Seq<Seq<usize>>, policy: PredicatePolicy, k: int, m: int)
    requires
        0 <= k <= m,
        exterior_upto(points, rings, policy, k) is Err || exterior_upto(points, rings, policy, k)->Ok_0.0,
    ensures
        exterior_upto(points, rings, policy, m) == exterior_upto(points, rings, policy, k),
    decreases m - k,
{
    if m > k {
        lemma_exterior_settled(points, rings, policy, k, m - 1);
    }
}

proof fn lemma_inside_other_settled(points: Seq<Point2>, rings: Seq<Seq<usize>>, exterior: int, r: int, policy: PredicatePolicy, k: int, m: int)
    requires
        0 <= k <= m,
        inside_other_upto(points, rings, exterior, r, policy, k) != Ok::<bool, Error>(false),
    ensures
        inside_other_upto(points, rings, exterior, r, policy, m) == inside_other_upto(points, rings, exterior, r, policy, k),
    decreases m - k,
{
    if m > k {
        lemma_inside_other_settled(points, rings, exterior, r, policy, k, m - 1);
    }
}

proof fn lemma_holes_settled(points: Seq<Point2>, rings: Seq<Seq<usize>>, exterior: int, policy: PredicatePolicy, k: int, m: int)
    requires
        0 <= k <= m,
        !(holes_upto(points, rings, exterior, policy, k) matches Ok(Some(_))),
    ensures
        holes_upto(points, rings, exterior, policy, m) == holes_upto(points, rings, exterior, policy, k),
    decreases m - k,
{
    if m > k {
        lemma_holes_settled(points, rings, exterior, policy, k, m - 1);
    }
}

/// Whether ring `r` contains the first point of every other ring.
fn ring_contains_all_others(points: &[Point2], rings: &[Vec<usize>], r: usize, policy: PredicatePolicy) -> (res: Result<bool, Error>)
    requires
        r < rings@.len(),
        rings_in_bounds(ring_views(rings@), points@.len() as int),
    ensures
        res == contains_others_upto(points@, ring_views(rings@), r as int, policy, rings@.len() as int),
{
    let ghost views = ring_views(rings@);
    let mut other: usize = 0;
    while other < rings.len()
        invariant
            0 <= other <= rings@.len(),
            r < rings@.len(),
            views == ring_views(rings@),
            rings_in_bounds(views, points@.len() as int),
            contains_others_upto(points@, views, r as int, policy, other as int) == Ok::<bool, Error>(true),
        decreases rings@.len() - other,
    {
        if other != r {
            assert(views[other as int] == rings@[other as int]@);
            assert(views[r as int] == rings@[r as int]@);
            let first = rings[other][0];
            assert(views[other as int][0] < points@.len());
            let inside = match point_in_ring_even_odd(points, rings[r].as_slice(), &points[first], policy) {
                Ok(b) => b,
                Err(e) => {
                    proof { lemma_contains_others_settled(points@, views, r as int, policy, other + 1, rings@.len() as int); }
                    return Err(e);
                },
            };
            if !inside {
                proof { lemma_contains_others_settled(points@, views, r as int, policy, other + 1, rings@.len() as int); }
                return Ok(false);
            }
        }
        other = other + 1;
    }
    Ok(true)
}

/// The unique ring that contains the first point of every other ring by
/// exact even-odd containment, or `None` when there is none or more than
/// one.
pub fn exterior_ring_index(points: &[Point2], rings: &[Vec<usize>], policy: PredicatePolicy) -> (r: Result<Option<usize>, Error>)
    requires
        rings_in_bounds(ring_views(rings@), points@.len() as int),
    ensures
        match exterior_result(points@, ring_views(rings@), policy) {
            Err(e) => r == Err::<Option<usize>, Error>(e),
            Ok(None) => r == Ok::<Option<usize>, Error>(None),
            Ok(Some(i)) => r matches Ok(Some(j)) && j == i,
        },
        r matches Ok(Some(j)) ==> j < rings@.len(),
{
    let ghost views = ring_views(rings@);
    let mut candidate: Option<usize> = None;
    let mut index: usize = 0;
    while index < rings.len()
        invariant
            0 <= index <= rings@.len(),
            views == ring_views(rings@),
            rings_in_bounds(views, points@.len() as int),
            exterior_upto(points@, views, policy, index as int) matches Ok((false, c))
                && (match c { Some(i) => candidate matches Some(j) && j == i && i < index, None => candidate is None }),
        decreases rings@.len() - index,
    {
        let contains_all = match ring_contains_all_others(points, rings, index, policy) {
            Ok(b) => b,
            Err(e) => {
                proof { lemma_exterior_settled(points@, views, policy, index + 1, rings@.len() as int); }
                return Err(e);
            },
        };
        if contains_all {
            if candidate.is_some() {
                proof { lemma_exterior_settled(points@, views, policy, index + 1, rings@.len() as int); }
                return Ok(None);
            }
            candidate = Some(index);
        }
        index = index + 1;
    }
    Ok(candidate)
}

/// Whether the first point of ring `r` lies inside or on another ring than
/// the exterior and itself.
pub fn ring_is_inside_any_other_hole(points: &[Point2], rings: &[Vec<usize>], exterior: usize, r: usize, policy: PredicatePolicy) -> (res: Result<bool, Error>)
    requires
        r < rings@.len(),
        rings_in_bounds(ring_views(rings@), points@.len() as int),
    ensures
        res == inside_other_upto(points@, ring_views(rings@), exterior as int, r as int, policy, rings@.len() as int),
{
    let ghost views = ring_views(rings@);
    let mut other: usize = 0;
    while other < rings.len()
        invariant
            0 <= other <= rings@.len(),
            r < rings@.len(),
            views == ring_views(rings@),
            rings_in_bounds(views, points@.len() as int),
            inside_other_upto(points@, views, exterior as int, r as int, policy, other as int) == Ok::<bool, Error>(false),
        decreases rings@.len() - other,
    {
        if other != exterior && other != r {
            assert(views[other as int] == rings@[other as int]@);
            assert(views[r as int] == rings@[r as int]@);
            let first = rings[r][0];
            assert(views[r as int][0] < points@.len());
            let inside = match point_in_ring_even_odd(points, rings[other].as_slice(), &points[first], policy) {
                Ok(b) => b,
                Err(e) => {
                    proof { lemma_inside_other_settled(points@, views, exterior as int, r as int, policy, other + 1, rings@.len() as int); }
                    return Err(e);
                },
            };
            if inside {
                proof { lemma_inside_other_settled(points@, views, exterior as int, r as int, policy, other + 1, rings@.len() as int); }
                return Ok(true);
            }
        }
        other = other + 1;
    }
    Ok(false)
}

/// Position of the first lexicographically smallest point of a ring.
pub fn leftmost_position(points: &[Point2], ring: &[usize]) -> (r: usize)
    requires
        ring@.len() >= 1,
        forall|i: int| 0 <= i < ring@.len() ==> #[trigger] ring@[i] < points@.len(),
    ensures
        r == leftmost_upto(points@, ring@, ring@.len() as int),
        r < ring@.len(),
{
    let mut best: usize = 0;
    let mut position: usize = 1;
    while position < ring.len()
        invariant
            1 <= position <= ring@.len(),
            best < position,
            best == leftmost_upto(points@, ring@, position as int),
            forall|i: int| 0 <= i < ring@.len() ==> #[trigger] ring@[i] < points@.len(),
        decreases ring@.len() - position,
    {
        if points[ring[position]].exact_lex_lt(&points[ring[best]]) {
            best = position;
        }
        position = position + 1;
    }
    best
}

/// Whether the representative of `left` precedes that of `right`.
pub fn compare_ring_representatives(points: &[Point2], left: &[usize], right: &[usize]) -> (r: bool)
    requires
        left@.len() >= 1,
        right@.len() >= 1,
        forall|i: int| 0 <= i < left@.len() ==> #[trigger] left@[i] < points@.len(),
        forall|i: int| 0 <= i < right@.len() ==> #[trigger] right@[i] < points@.len(),
    ensures
        r == representative(points@, left@).lex_before(representative(points@, right@)),
{
    let left_rep = leftmost_position(points, left);
    let right_rep = leftmost_position(points, right);
    points[left[left_rep]].exact_lex_lt(&points[right[right_rep]])
}

/// Insert a hole before the first hole whose representative it precedes.
pub fn insert_hole_sorted(points: &[Point2], holes: &mut Vec<Vec<usize>>, hole: Vec<usize>)
    requires
        rings_in_bounds(ring_views(old(holes)@), points@.len() as int),
        rings_in_bounds(seq![hole@], points@.len() as int),
    ensures
        ring_views(final(holes)@) == ring_views(old(holes)@).insert(hole_insert_position(points@, ring_views(old(holes)@), hole@, 0), hole@),
        rings_in_bounds(ring_views(final(holes)@), points@.len() as int),
{
    let ghost views = ring_views(holes@);
    assert(seq![hole@][0] == hole@);
    let mut insert_at: usize = 0;
    while insert_at < holes.len() && !compare_ring_representatives(points, hole.as_slice(), holes[insert_at].as_slice())
        invariant
            0 <= insert_at <= holes@.len(),
            views == ring_views(holes@),
            rings_in_bounds(views, points@.len() as int),
            hole@.len() >= 1,
            forall|i: int| 0 <= i < hole@.len() ==> #[trigger] hole@[i] < points@.len(),
            hole_insert_position(points@, views, hole@, 0) == hole_insert_position(points@, views, hole@, insert_at as int),
        decreases holes@.len() - insert_at,
    {
        assert(views[insert_at as int] == holes@[insert_at as int]@);
        insert_at = insert_at + 1;
    }
    proof {
        if insert_at < holes@.len() {
            assert(views[insert_at as int] == holes@[insert_at as int]@);
        }
    }
    let ghost hole_view = hole@;
    holes.insert(insert_at, hole);
    proof {
        assert(ring_views(holes@) =~= views.insert(insert_at as int, hole_view));
        assert forall|r: int| 0 <= r < ring_views(holes@).len() implies (#[trigger] ring_views(holes@)[r]).len() >= 1
            && forall|i: int| 0 <= i < ring_views(holes@)[r].len() ==> #[trigger] ring_views(holes@)[r][i] < points@.len() by {
            if r < insert_at {
                assert(ring_views(holes@)[r] == views[r]);
            } else if r > insert_at {
                assert(ring_views(holes@)[r] == views[r - 1]);
            }
        }
    }
}

/// Closed polygonal constraint rings ordered as exterior first, then holes.
#[derive(Debug, PartialEq, Eq)]
pub struct ConstraintPolygon {
    rings: Vec<Vec<usize>>,
}

/// The rings laid end to end.
pub open spec fn flattened(rings: Seq<Seq<usize>>) -> Seq<usize>
    decreases rings.len(),
{
    if rings.len() == 0 {
        Seq::empty()
    } else {
        flattened(rings.drop_last()) + rings.last()
    }
}

/// Offsets in the flattened rings at which each ring after the first
/// starts.
pub open spec fn hole_offsets(rings: Seq<Seq<usize>>) -> Seq<usize> {
    Seq::new((if rings.len() == 0 { 0 } else { rings.len() - 1 }) as nat, |i: int| flattened(rings.take(i + 1)).len() as usize)
}

impl ConstraintPolygon {
    /// The ordered rings (spec view).
    pub closed spec fn rings_view(&self) -> Seq<Seq<usize>> {
        ring_views(self.rings@)
    }

    /// Borrow the ordered rings: the exterior first, then the holes.
    pub fn rings(&self) -> (r: &[Vec<usize>])
        ensures
            ring_views(r@) == self.rings_view(),
    {
        self.rings.as_slice()
    }

    /// Convert the ordered source-index rings into earcut-compatible flat
    /// buffers: the points in ring order, the start of each hole, and the
    /// source index of each flat point.
    pub fn to_flat_polygon(&self, points: &[ExactPoint]) -> (r: (Vec<ExactPoint>, Vec<usize>, Vec<usize>))
        requires
            forall|i: int, k: int| 0 <= i < self.rings_view().len() && 0 <= k < self.rings_view()[i].len() ==> #[trigger] self.rings_view()[i][k] < points@.len(),
            flattened(self.rings_view()).len() <= usize::MAX,
        ensures
            r.2@ == flattened(self.rings_view()),
            r.0@.len() == r.2@.len(),
            forall|k: int| 0 <= k < r.0@.len() ==> #[trigger] r.0@[k] == points@[r.2@[k] as int],
            r.1@ == hole_offsets(self.rings_view()),
    {
        let ghost views = self.rings_view();
        let mut flat: Vec<ExactPoint> = Vec::new();
        let mut holes: Vec<usize> = Vec::new();
        let mut sources: Vec<usize> = Vec::new();
        let mut ring_index: usize = 0;
        while ring_index < self.rings.len()
            invariant
                0 <= ring_index <= views.len(),
                views == ring_views(self.rings@),
                forall|i: int, k: int| 0 <= i < views.len() && 0 <= k < views[i].len() ==> #[trigger] views[i][k] < points@.len(),
                flattened(views).len() <= usize::MAX,
                sources@ == flattened(views.take(ring_index as int)),
                flat@.len() == sources@.len(),
                forall|k: int| 0 <= k < flat@.len() ==> #[trigger] flat@[k] == points@[sources@[k] as int],
                holes@ == hole_offsets(views.take(ring_index as int)),
            decreases views.len() - ring_index,
        {
            let ghost before = sources@;
            proof {
                lemma_flattened_prefix(views, ring_index as int + 1);
            }
            if ring_index > 0 {
                holes.push(flat.len());
                proof {
                    let t = views.take(ring_index + 1);
                    assert(holes@ =~= hole_offsets(t)) by {
                        assert forall|i: int| 0 <= i < holes@.len() implies holes@[i] == hole_offsets(t)[i] by {
                            assert(t.take(i + 1) =~= views.take(ring_index as int).take(i + 1)) by {
                                if i + 1 < ring_index {
                                }
                            }
                        }
                    }
                }
            } else {
                proof { assert(holes@ =~= hole_offsets(views.take(1))); }
            }
            let ring = &self.rings[ring_index];
            assert(ring@ == views[ring_index as int]);
            let mut position: usize = 0;
            while position < ring.len()
                invariant
                    0 <= position <= ring@.len(),
                    ring@ == views[ring_index as int],
                    ring_index < views.len(),
                    forall|i: int, k: int| 0 <= i < views.len() && 0 <= k < views[i].len() ==> #[trigger] views[i][k] < points@.len(),
                    flattened(views.take(ring_index + 1)).len() <= usize::MAX,
                    flattened(views.take(ring_index + 1)) == flattened(views.take(ring_index as int)) + views[ring_index as int],
                    sources@ == before + ring@.take(position as int),
                    flat@.len() == sources@.len(),
                    forall|k: int| 0 <= k < flat@.len() ==> #[trigger] flat@[k] == points@[sources@[k] as int],
                decreases ring@.len() - position,
            {
                let source = ring[position];
                assert(views[ring_index as int][position as int] < points@.len());
                flat.push(points[source]);
                sources.push(source);
                proof {
                    assert(sources@ =~= before + ring@.take(position + 1));
                }
                position = position + 1;
            }
            proof {
                assert(ring@.take(ring@.len() as int) =~= ring@);
            }
            ring_index = ring_index + 1;
        }
        proof {
            assert(views.take(views.len() as int) =~= views);
        }
        (flat, holes, sources)
    }
}

/// The flattened prefix of one more ring appends that ring, and every
/// flattened prefix is no longer than the whole.
proof fn lemma_flattened_prefix(rings: Seq<Seq<usize>>, k: int)
    requires
        1 <= k <= rings.len(),
    ensures
        flattened(rings.take(k)) == flattened(rings.take(k - 1)) + rings[k - 1],
        flattened(rings.take(k)).len() <= flattened(rings).len(),
    decreases rings.len() - k,
{
    assert(rings.take(k).drop_last() =~= rings.take(k - 1));
    if k < rings.len() {
        lemma_flattened_prefix(rings, k + 1);
    } else {
        assert(rings.take(k) =~= rings);
    }
}

/// Order rings as one polygon: a single ring as it is; otherwise the unique
/// exterior ring followed by the other rings sorted by representative, or
/// `None` when there is no unique exterior or a ring lies inside another
/// hole.
#[verifier::loop_isolation(false)]
pub fn order_polygon_rings(points: &[Point2], rings: Vec<Vec<usize>>, policy: PredicatePolicy) -> (r: Result<Option<ConstraintPolygon>, Error>)
    requires
        rings_in_bounds(ring_views(rings@), points@.len() as int),
    ensures
        match ring_order_result(points@, ring_views(rings@), policy) {
            Err(e) => r matches Err(x) && x == e,
            Ok(None) => r matches Ok(None),
            Ok(Some(ordered)) => r matches Ok(Some(p)) && p.rings_view() == ordered,
        },
{
    let ghost views = ring_views(rings@);
    if rings.len() == 1 {
        return Ok(Some(ConstraintPolygon { rings }));
    }
    let exterior = match exterior_ring_index(points, rings.as_slice(), policy)? {
        Some(i) => i,
        None => return Ok(None),
    };
    let mut holes: Vec<Vec<usize>> = Vec::new();
    proof {
        assert(ring_views(holes@) =~= Seq::<Seq<usize>>::empty());
    }
    let mut ring_index: usize = 0;
    while ring_index < rings.len()
        invariant
            0 <= ring_index <= rings@.len(),
            views == ring_views(rings@),
            exterior < rings@.len(),
            rings_in_bounds(views, points@.len() as int),
            rings_in_bounds(ring_views(holes@), points@.len() as int),
            holes_upto(points@, views, exterior as int, policy, ring_index as int) == Ok::<Option<Seq<Seq<usize>>>, Error>(Some(ring_views(holes@))),
        decreases rings@.len() - ring_index,
    {
        if ring_index != exterior {
            let inside = match ring_is_inside_any_other_hole(points, rings.as_slice(), exterior, ring_index, policy) {
                Ok(b) => b,
                Err(e) => {
                    proof { lemma_holes_settled(points@, views, exterior as int, policy, ring_index + 1, rings@.len() as int); }
                    return Err(e);
                },
            };
            if inside {
                proof { lemma_holes_settled(points@, views, exterior as int, policy, ring_index + 1, rings@.len() as int); }
                return Ok(None);
            }
            assert(views[ring_index as int] == rings@[ring_index as int]@);
            let hole = copy_usizes(rings[ring_index].as_slice());
            proof {
                assert(seq![hole@][0] == hole@);
                assert(rings_in_bounds(seq![hole@], points@.len() as int));
            }
            insert_hole_sorted(points, &mut holes, hole);
        }
        ring_index = ring_index + 1;
    }
    let mut ordered: Vec<Vec<usize>> = Vec::new();
    assert(views[exterior as int] == rings@[exterior as int]@);
    ordered.push(copy_usizes(rings[exterior].as_slice()));
    let mut k: usize = 0;
    while k < holes.len()
        invariant
            0 <= k <= holes@.len(),
            ring_views(ordered@) == seq![views[exterior as int]] + ring_views(holes@).take(k as int),
        decreases holes@.len() - k,
    {
        let ghost before = ring_views(ordered@);
        ordered.push(copy_usizes(holes[k].as_slice()));
        proof {
            assert(ring_views(ordered@) =~= before.push(holes@[k as int]@));
            assert(ring_views(holes@).take(k + 1) =~= ring_views(holes@).take(k as int).push(holes@[k as int]@));
            assert(ring_views(ordered@) =~= seq![views[exterior as int]] + ring_views(holes@).take(k + 1));
        }
        k = k + 1;
    }
    proof {
        assert(ring_views(holes@).take(holes@.len() as int) =~= ring_views(holes@));
    }
    Ok(Some(ConstraintPolygon { rings: ordered }))
}

/// The ring ordering's result, as a polygon record.
pub open spec fn ordering_matches(points: Seq<Point2>, rings: Seq<Seq<usize>>, policy: PredicatePolicy, r: Result<Option<ConstraintPolygon>, Error>) -> bool {
    match ring_order_result(points, rings, policy) {
        Err(e) => r matches Err(x) && x == e,
        Ok(None) => r matches Ok(None),
        Ok(Some(ordered)) => r matches Ok(Some(p)) && p.rings_view() == ordered,
    }
}

/// Rings that decompose in-range constraints are nonempty and in range.
proof fn lemma_decomposition_in_bounds(constraints: Seq<Constraint>, rings: Seq<Seq<usize>>, point_count: int)
    requires
        ring_decomposition(constraints, rings),
        forall|k: int| 0 <= k < constraints.len() ==> (#[trigger] constraints[k]).from < point_count && constraints[k].to < point_count,
    ensures
        rings_in_bounds(rings, point_count),
{
    let pos = choose|pos: Seq<(int, int)>| #[trigger] ring_cover(constraints, rings, pos);
    assert forall|r: int| 0 <= r < rings.len() implies (#[trigger] rings[r]).len() >= 1
        && forall|i: int| 0 <= i < rings[r].len() ==> #[trigger] rings[r][i] < point_count by {
        assert(crate::constraints::simple_ring(rings[r]));
        assert forall|i: int| 0 <= i < rings[r].len() implies #[trigger] rings[r][i] < point_count by {
            assert(crate::constraints::occupied(pos, r, i));
            let k = choose|k: int| 0 <= k < pos.len() && #[trigger] pos[k] == (r, i);
            assert(joins(constraints[k], rings[r][i] as int, crate::constraints::cyclic_next(rings[r], i) as int));
        }
    }
}

/// Recognize a disjoint set of closed constraint rings as one polygon: the
/// rings the constraints decompose into, ordered exterior first and then
/// holes; `None` when the constraints are not disjoint closed rings or the
/// rings do not form one polygon.
pub fn polygon_from_closed_constraints(points: &[Point2], constraints: &[Constraint], policy: PredicatePolicy) -> (r: Result<Option<ConstraintPolygon>, Error>)
    requires
        forall|k: int| 0 <= k < constraints@.len() ==> (#[trigger] constraints@[k]).from < points@.len() && constraints@[k].to < points@.len(),
    ensures
        (constraints@.len() == 0 || points@.len() < 3) ==> r matches Ok(None),
        (exists|v: int| 0 <= v < points@.len() && #[trigger] degree(constraints@, v) != 0 && degree(constraints@, v) != 2) ==> r matches Ok(None),
        (constraints@.len() > 0 && points@.len() >= 3 && simple_constraints(constraints@)
            && forall|v: int| 0 <= v < points@.len() ==> #[trigger] degree(constraints@, v) == 0 || degree(constraints@, v) == 2)
            ==> exists|rings: Seq<Seq<usize>>| ring_decomposition(constraints@, rings) && #[trigger] ordering_matches(points@, rings, policy, r),
        r matches Ok(None) || exists|rings: Seq<Seq<usize>>| ring_decomposition(constraints@, rings) && #[trigger] ordering_matches(points@, rings, policy, r),
{
    let rings = match extract_closed_rings(points.len(), constraints) {
        Some(rings) => rings,
        None => return Ok(None),
    };
    let ghost views = ring_views(rings@);
    proof { lemma_decomposition_in_bounds(constraints@, views, points@.len() as int); }
    let result = order_polygon_rings(points, rings, policy);
    proof {
        assert(ordering_matches(points@, views, policy, result));
    }
    result
}

/// The rings below `k` other than `exterior`, as a multiset.
pub open spec fn other_rings(rings: Seq<Seq<usize>>, exterior: int, k: int) -> Multiset<Seq<usize>>
    decreases k,
{
    if k <= 0 {
        Multiset::empty()
    } else if k - 1 == exterior {
        other_rings(rings, exterior, k - 1)
    } else {
        other_rings(rings, exterior, k - 1).insert(rings[k - 1])
    }
}

proof fn lemma_hole_insert_position_bounds(points: Seq<Point2>, holes: Seq<Seq<usize>>, hole: Seq<usize>, k: int)
    requires
        0 <= k,
    ensures
        0 <= hole_insert_position(points, holes, hole, k) <= holes.len(),
    decreases holes.len() - k,
{
    if k < holes.len() && !representative(points, hole).lex_before(representative(points, holes[k])) {
        lemma_hole_insert_position_bounds(points, holes, hole, k + 1);
    }
}

proof fn lemma_holes_multiset(points: Seq<Point2>, rings: Seq<Seq<usize>>, exterior: int, policy: PredicatePolicy, k: int)
    requires
        0 <= k <= rings.len(),
        holes_upto(points, rings, exterior, policy, k) matches Ok(Some(_)),
    ensures
        holes_upto(points, rings, exterior, policy, k) matches Ok(Some(holes)) && holes.to_multiset() == other_rings(rings, exterior, k),
    decreases k,
{
    broadcast use vstd::seq_lib::to_multiset_insert;
    if k == 0 {
        assert(Seq::<Seq<usize>>::empty().to_multiset() =~= Multiset::<Seq<usize>>::empty()) by {
            broadcast use vstd::seq_lib::group_to_multiset_ensures;
        }
    } else {
        lemma_holes_multiset(points, rings, exterior, policy, k - 1);
        let holes = holes_upto(points, rings, exterior, policy, k - 1)->Ok_0->0;
        lemma_hole_insert_position_bounds(points, holes, rings[k - 1], 0);
    }
}

proof fn lemma_rings_take_multiset(rings: Seq<Seq<usize>>, exterior: int, k: int)
    requires
        0 <= k <= rings.len(),
        0 <= exterior < rings.len(),
    ensures
        rings.take(k).to_multiset() == (if exterior < k { other_rings(rings, exterior, k).insert(rings[exterior]) } else { other_rings(rings, exterior, k) }),
    decreases k,
{
    broadcast use vstd::seq_lib::group_to_multiset_ensures;
    if k == 0 {
        assert(rings.take(0) =~= Seq::<Seq<usize>>::empty());
        assert(rings.take(0).to_multiset() =~= Multiset::<Seq<usize>>::empty());
    } else {
        lemma_rings_take_multiset(rings, exterior, k - 1);
        assert(rings.take(k) =~= rings.take(k - 1).push(rings[k - 1]));
        let m = other_rings(rings, exterior, k - 1);
        if k - 1 != exterior && exterior < k - 1 {
            assert(m.insert(rings[exterior]).insert(rings[k - 1]) =~= m.insert(rings[k - 1]).insert(rings[exterior]));
        }
    }
}

proof fn lemma_exterior_candidate(points: Seq<Point2>, rings: Seq<Seq<usize>>, policy: PredicatePolicy, i: int)
    requires
        0 <= i,
        exterior_upto(points, rings, policy, i) matches Ok((false, Some(_))),
    ensures
        exterior_upto(points, rings, policy, i) matches Ok((false, Some(c)))
            && 0 <= c < i && contains_others_upto(points, rings, c, policy, rings.len() as int) == Ok::<bool, Error>(true),
    decreases i,
{
    if i > 0 && exterior_upto(points, rings, policy, i - 1) matches Ok((false, Some(_))) {
        lemma_exterior_candidate(points, rings, policy, i - 1);
    }
}

/// Ring ordering only rearranges: the ordered rings are the input rings,
/// each as often as given, and unless there is a single ring the first one
/// contains the first point of every other ring.
pub proof fn lemma_ring_order_permutes(points: Seq<Point2>, rings: Seq<Seq<usize>>, policy: PredicatePolicy)
    ensures
        ring_order_result(points, rings, policy) matches Ok(Some(ordered)) ==> {
            &&& ordered.to_multiset() == rings.to_multiset()
            &&& rings.len() != 1 ==> exists|e: int| 0 <= e < rings.len() && ordered[0] == rings[e]
                && #[trigger] contains_others_upto(points, rings, e, policy, rings.len() as int) == Ok::<bool, Error>(true)
        },
{
    broadcast use vstd::seq_lib::group_to_multiset_ensures;
    if ring_order_result(points, rings, policy) is Ok && ring_order_result(points, rings, policy)->Ok_0 is Some {
        let ordered = ring_order_result(points, rings, policy)->Ok_0->0;
        if rings.len() != 1 {
            let n = rings.len() as int;
            lemma_exterior_candidate(points, rings, policy, n);
            let e = exterior_result(points, rings, policy)->Ok_0->0;
            lemma_holes_multiset(points, rings, e, policy, n);
            lemma_rings_take_multiset(rings, e, n);
            assert(rings.take(n) =~= rings);
            let holes = holes_upto(points, rings, e, policy, n)->Ok_0->0;
            assert(ordered == seq![rings[e]] + holes);
            vstd::seq_lib::lemma_multiset_commutative(seq![rings[e]], holes);
            assert(seq![rings[e]].to_multiset() =~= Multiset::<Seq<usize>>::empty().insert(rings[e])) by {
                assert(seq![rings[e]] =~= Seq::<Seq<usize>>::empty().push(rings[e]));
                assert(Seq::<Seq<usize>>::empty().to_multiset() =~= Multiset::<Seq<usize>>::empty());
            }
            assert(ordered.to_multiset() =~= rings.to_multiset());
            assert(ordered[0] == rings[e]);
        }
    }
}

} // verus!
