//! Point-field simulation and the graph and geometry analytics built on it:
//! toroidal wrap, exact polygon centroids, disjoint sets, Kruskal spanning
//! forests and breadth-first trees, all on fixed-point coordinates.
pub mod bfs;
pub mod centroid;
pub mod field;
pub mod geom;
pub mod kruskals;
pub mod nearest;
pub mod point;
pub mod triangulation;
pub mod union_find;
