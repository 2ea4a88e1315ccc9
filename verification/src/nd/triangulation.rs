//! Validated wrappers over the dynamic D-dimensional TDS.
use vstd::prelude::*;
use crate::error::Error;
use crate::nd::tds::{link_violations, TriangulationDataStructureD};

verus! {

/// Algorithm-facing triangulation wrapper over a TDS whose neighbor links
/// passed combinatorial validation.
#[derive(Debug)]
pub struct TriangulationD {
    tds: TriangulationDataStructureD,
}

impl TriangulationD {
    /// The wrapped TDS (spec view).
    pub closed spec fn tds_view(&self) -> TriangulationDataStructureD {
        self.tds
    }

    /// Constructs a triangulation wrapper after combinatorial validation.
    pub fn new(tds: TriangulationDataStructureD) -> (r: Result<TriangulationD, Error>)
        ensures
            link_violations(tds.cells_view(), tds.cells_view().len() as int).len() == 0 <==> r is Ok,
            r matches Ok(t) ==> t.tds_view() == tds,
            link_violations(tds.cells_view(), tds.cells_view().len() as int).len() > 0 ==> (r matches Err(Error::InvalidInput { reason })
                && reason@ == link_violations(tds.cells_view(), tds.cells_view().len() as int)[0].2),
    {
        match tds.validate_combinatorial() {
            Ok(()) => Ok(TriangulationD { tds }),
            Err(error) => Err(error),
        }
    }

    /// Borrows the underlying TDS.
    pub fn tds(&self) -> (r: &TriangulationDataStructureD)
        ensures
            *r == self.tds_view(),
    {
        &self.tds
    }
}

/// Delaunay-labelled wrapper over an already validated triangulation; the
/// geometric certificate stays with the exact complex oracle.
#[derive(Debug)]
pub struct DelaunayTriangulationD {
    triangulation: TriangulationD,
}

impl DelaunayTriangulationD {
    /// The wrapped triangulation (spec view).
    pub closed spec fn triangulation_view(&self) -> TriangulationD {
        self.triangulation
    }

    /// Constructs a Delaunay-labelled wrapper over a validated triangulation.
    pub fn new(triangulation: TriangulationD) -> (r: DelaunayTriangulationD)
        ensures
            r.triangulation_view() == triangulation,
    {
        DelaunayTriangulationD { triangulation }
    }

    /// Borrows the underlying triangulation wrapper.
    pub fn triangulation(&self) -> (r: &TriangulationD)
        ensures
            *r == self.triangulation_view(),
    {
        &self.triangulation
    }
}

} // verus!
