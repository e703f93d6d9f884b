//! Shortest routes over an OpenStreetMap extract.
//!
//! The map is held as plain values: nodes, ways (polylines of node ids) and
//! relations. Route search runs A* over the graph implied by the ways, with
//! the distance between two nodes supplied by the caller.
pub mod entities;
pub mod osm;
pub mod pathfinder;
