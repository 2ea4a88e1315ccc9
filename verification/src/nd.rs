//! Exact D-dimensional triangulation storage and semantic oracles.
//!
//! [`TriangulationDataStructureD`] stores stable vertex and cell handles with
//! explicit finite/infinite hull semantics and report-bearing validation.
//! [`DelaunayComplex`] is a small exhaustive exact oracle for validation,
//! insertion-cavity reports, and functional bistellar flips.
pub mod handles;

pub use handles::{Cell, CellHandle, Face, Facet, FacetKey, PointD, Simplex, VertexD, VertexHandle};
pub mod reports;
pub use reports::{TdsBoundaryPolicyD, TdsCombinatorialValidationReportD, TdsCombinatorialViolationD, TdsGeometricValidationReportD, TdsGeometricViolationD, TdsManifoldValidationReportD, TdsManifoldViolationD};
pub mod tds;
pub use tds::TriangulationDataStructureD;
pub mod triangulation;
pub use triangulation::{DelaunayTriangulationD, TriangulationD};
pub mod predicates;
pub mod complex;
pub use complex::{delaunay_complex, BistellarFlipApplyReportD, BistellarFlipD, BistellarFlipReportD, DelaunayComplex, DelaunayInsertionReportD};
pub mod lists;
