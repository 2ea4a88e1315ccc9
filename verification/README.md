# hypertri

Exact planar and D-dimensional triangulation topology, written in Verus.
Every decision that depends on geometry goes through an exact predicate of
the `hyperlimit` crate (orientation, in-circle, segment relations, ring
containment and area); the library's own logic around those decisions is
proved against its `requires` / `ensures` contracts.

## Layout

- `src/types.rs`, `src/context.rs`, `src/error.rs`: exact coordinates as
  bounded fractions, points, constraints, policies and errors.
- `src/predicates.rs`, `src/nd/predicates.rs`: the calls into `hyperlimit`,
  each behind a small trusted wrapper whose result is named by an
  uninterpreted spec function.
- `src/topology.rs`: retained triangle adjacency and region replacement.
- `src/point_set.rs`, `src/delaunay.rs`: incremental point-set
  triangulation and Bowyer–Watson Delaunay triangulation (input order and
  a deterministic spatial order).
- `src/constraint_recovery.rs`, `src/legalize.rs`, `src/cdt.rs`:
  constraint recovery by flips and cavity retriangulation, empty-circle
  legalization of the unconstrained edges, and the planar straight-line
  graph entry points, with exact crossing points added as Steiner
  vertices.
- `src/cdt_validate.rs`: exact validators for triangulations, constrained
  topology and the local Delaunay condition.
- `src/earcut.rs`, `src/polygon.rs`, `src/constraint_polygon.rs`: ear
  clipping of polygons with holes, and recognition of closed constraint
  rings as a polygon.
- `src/runtime.rs`: runtime selection between ear clipping and the
  constrained-Delaunay path for polygon input.
- `src/nd/`: the dynamic D-dimensional triangulation data structure, its
  combinatorial, manifold and geometric validation reports, and the exact
  Delaunay complex with bistellar flips.
- `tests/`: executable tests of the public API.
- `app/`: thin adapters from binary64 input to exact points.
