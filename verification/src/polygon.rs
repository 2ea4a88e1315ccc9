//! Shared polygon input normalization: earcut-compatible hole starts over one
//! flat vertex buffer become validated ring ranges.
use vstd::prelude::*;
use crate::error::Error;
use crate::types::ExactPoint;

verus! {

/// A borrowed ring over a flat polygon vertex buffer.
#[derive(Clone, Copy, Debug, PartialEq, Eq, Structural)]
pub struct RingRange {
    /// First vertex index in the flat input.
    pub start: usize,
    /// One-past-the-end vertex index in the flat input.
    pub end: usize,
}

impl RingRange {
    /// Number of vertices in the ring range.
    pub fn len(self) -> (r: usize)
        requires
            self.start <= self.end,
        ensures
            r == self.end - self.start,
    {
        self.end - self.start
    }

    /// Returns true when the ring has no vertices.
    pub fn is_empty(self) -> (r: bool)
        ensures
            r == (self.start == self.end),
    {
        self.start == self.end
    }
}

/// Validated borrowed polygon rings.
#[derive(Clone, Debug, PartialEq, Eq)]
pub struct PolygonRings {
    exterior: RingRange,
    holes: Vec<RingRange>,
}

impl PolygonRings {
    /// Exterior ring range (spec view).
    pub closed spec fn exterior_view(&self) -> RingRange {
        self.exterior
    }

    /// Hole ring ranges (spec view).
    pub closed spec fn holes_view(&self) -> Seq<RingRange> {
        self.holes@
    }

    /// Exterior ring range.
    pub fn exterior(&self) -> (r: RingRange)
        ensures
            r == self.exterior_view(),
    {
        self.exterior
    }

    /// Hole ring ranges.
    pub fn holes(&self) -> (r: &[RingRange])
        ensures
            r@ == self.holes_view(),
    {
        self.holes.as_slice()
    }

    /// Returns true when the polygon has holes.
    pub fn has_holes(&self) -> (r: bool)
        ensures
            r == (self.holes_view().len() > 0),
    {
        self.holes.len() > 0
    }
}

/// Hole starts are strictly increasing and lie strictly inside `1..n`.
pub open spec fn hole_starts_valid(hole_indices: Seq<usize>, n: int) -> bool {
    &&& forall|i: int| 0 <= i < hole_indices.len() ==> 0 < #[trigger] hole_indices[i] < n
    &&& forall|i: int, j: int| 0 <= i < j < hole_indices.len() ==> hole_indices[i] < hole_indices[j]
}

/// End of the exterior ring: the first hole start, or `n` without holes.
pub open spec fn exterior_end(hole_indices: Seq<usize>, n: int) -> int {
    if hole_indices.len() == 0 { n } else { hole_indices[0] as int }
}

/// End of hole `i`: the next hole start, or `n` for the last hole.
pub open spec fn hole_end(hole_indices: Seq<usize>, i: int, n: int) -> int {
    if i + 1 < hole_indices.len() { hole_indices[i + 1] as int } else { n }
}

/// The error `rings_from_hole_indices` reports for `n` vertices, if any.
pub open spec fn rings_error(hole_indices: Seq<usize>, n: int) -> Option<Error> {
    if n == 0 {
        if hole_indices.len() == 0 {
            None
        } else {
            Some(Error::InvalidInput { reason: "holes require exterior vertices" })
        }
    } else if !hole_starts_valid(hole_indices, n) {
        Some(Error::InvalidInput { reason: "hole indices must be strictly increasing interior starts" })
    } else if exterior_end(hole_indices, n) < 3 {
        Some(Error::InvalidInput { reason: "exterior ring requires at least three vertices" })
    } else if exists|i: int| 0 <= i < hole_indices.len() && #[trigger] hole_end(hole_indices, i, n) - hole_indices[i] < 3 {
        Some(Error::InvalidInput { reason: "hole ring requires at least three vertices" })
    } else {
        None
    }
}

/// Validate earcut-compatible hole indices and return ring ranges.
///
/// On success the exterior is `0..exterior_end` and hole `i` runs from its
/// start to the next hole start (or the end of the buffer).
pub fn rings_from_hole_indices(vertices: &[ExactPoint], hole_indices: &[usize]) -> (r: Result<PolygonRings, Error>)
    ensures
        rings_error(hole_indices@, vertices@.len() as int) matches Some(e) ==> r == Err::<PolygonRings, Error>(e),
        rings_error(hole_indices@, vertices@.len() as int) is None ==> (r matches Ok(rings) && {
            &&& rings.exterior_view() == (RingRange { start: 0, end: exterior_end(hole_indices@, vertices@.len() as int) as usize })
            &&& rings.holes_view().len() == hole_indices@.len()
            &&& forall|i: int| 0 <= i < hole_indices@.len() ==> #[trigger] rings.holes_view()[i] == (RingRange {
                start: hole_indices@[i],
                end: hole_end(hole_indices@, i, vertices@.len() as int) as usize,
            })
        }),
{
    let n = vertices.len();
    if n == 0 {
        if hole_indices.len() == 0 {
            return Ok(PolygonRings { exterior: RingRange { start: 0, end: 0 }, holes: Vec::new() });
        }
        return Err(Error::InvalidInput { reason: "holes require exterior vertices" });
    }
    let mut previous: usize = 0;
    let mut k: usize = 0;
    while k < hole_indices.len()
        invariant
            0 <= k <= hole_indices.len(),
            n == vertices@.len(),
            n > 0,
            forall|i: int| 0 <= i < k ==> 0 < #[trigger] hole_indices@[i] < n,
            forall|i: int, j: int| 0 <= i < j < k ==> hole_indices@[i] < hole_indices@[j],
            k == 0 ==> previous == 0,
            k > 0 ==> previous == hole_indices@[k - 1],
        decreases hole_indices.len() - k,
    {
        let hole_start = hole_indices[k];
        if hole_start <= previous || hole_start >= n {
            proof {
                if hole_starts_valid(hole_indices@, n as int) {
                    assert(0 < hole_indices@[k as int] < n);
                    if k > 0 {
                        assert(hole_indices@[k - 1] < hole_indices@[k as int]);
                    }
                }
            }
            return Err(Error::InvalidInput { reason: "hole indices must be strictly increasing interior starts" });
        }
        previous = hole_start;
        k = k + 1;
    }
    assert(hole_starts_valid(hole_indices@, n as int));
    let ext_end = if hole_indices.len() == 0 { n } else { hole_indices[0] };
    if ext_end < 3 {
        return Err(Error::InvalidInput { reason: "exterior ring requires at least three vertices" });
    }
    let mut holes: Vec<RingRange> = Vec::new();
    let mut i: usize = 0;
    while i < hole_indices.len()
        invariant
            0 <= i <= hole_indices.len(),
            n == vertices@.len(),
            hole_starts_valid(hole_indices@, n as int),
            n > 0,
            exterior_end(hole_indices@, n as int) >= 3,
            holes@.len() == i,
            forall|j: int| 0 <= j < i ==> hole_end(hole_indices@, j, n as int) - hole_indices@[j] >= 3,
            forall|j: int| 0 <= j < i ==> #[trigger] holes@[j] == (RingRange {
                start: hole_indices@[j],
                end: hole_end(hole_indices@, j, n as int) as usize,
            }),
        decreases hole_indices.len() - i,
    {
        let start = hole_indices[i];
        let end = if i + 1 < hole_indices.len() { hole_indices[i + 1] } else { n };
        proof {
            if i + 1 < hole_indices.len() {
                assert(hole_indices@[i as int] < hole_indices@[i + 1]);
            }
        }
        if end - start < 3 {
            proof {
                assert(hole_end(hole_indices@, i as int, n as int) - hole_indices@[i as int] < 3);
            }
            return Err(Error::InvalidInput { reason: "hole ring requires at least three vertices" });
        }
        holes.push(RingRange { start, end });
        i = i + 1;
    }
    Ok(PolygonRings { exterior: RingRange { start: 0, end: ext_end }, holes })
}

/// Indices of a ring, dropping a closing vertex that numerically repeats the
/// first one.
pub fn open_ring_indices(vertices: &[ExactPoint], range: RingRange) -> (r: Vec<usize>)
    requires
        range.start <= range.end <= vertices@.len(),
    ensures
        ({
            let end = if range.end - range.start >= 2 && vertices@[range.start as int].same_point(
                vertices@[range.end - 1],
            ) {
                range.end - 1
            } else {
                range.end as int
            };
            &&& r@.len() == end - range.start
            &&& forall|i: int| 0 <= i < r@.len() ==> #[trigger] r@[i] == range.start + i
        }),
{
    let mut end = range.end;
    if range.end - range.start >= 2 && vertices[range.start].exact_eq(&vertices[range.end - 1]) {
        end = end - 1;
    }
    let mut out: Vec<usize> = Vec::new();
    let mut i = range.start;
    while i < end
        invariant
            range.start <= i <= end <= range.end,
            out@.len() == i - range.start,
            forall|j: int| 0 <= j < out@.len() ==> #[trigger] out@[j] == range.start + j,
        decreases end - i,
    {
        out.push(i);
        i = i + 1;
    }
    out
}

} // verus!
