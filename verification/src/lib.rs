//! Exact triangulation topology: D-dimensional triangulation storage and
//! validation, retained 2D triangle adjacency, constraint-ring recognition,
//! and exact-predicate oracles, with contracts proved by Verus.
pub mod error;
pub mod types;

pub use error::Error;
pub use types::{Constraint, ExactPoint, Point2, PolygonInput, PolygonInputFacts, Real, RingInputFacts, Sign, Triangle, TriangleIndices, TriangleLocation};
pub mod context;
pub use context::{PredicatePolicy, TriangulationCertainty, TriangulationContext, TriangulationOutcome};
pub mod polygon;
pub mod runtime;
pub use runtime::{triangulate_polygon, triangulate_polygon_with_report, PolygonTriangulationAlgorithm, PolygonTriangulationReport, QualityPolicy, TriangulationOptions};
pub mod seqs;
pub mod predicates;
pub mod topology;
pub mod nd;
pub mod constraints;
pub mod constraint_polygon;
pub mod cdt;
pub mod delaunay;
pub mod point_set;
pub mod cdt_validate;
pub mod constraint_recovery;
pub mod legalize;
pub mod earcut;
pub use earcut::{triangulate as earcut, triangulate_report as earcut_report, EarcutDiagnostics, EarcutReport};
