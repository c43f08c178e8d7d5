//! A route-planning engine for hiking and skiing tracks over real terrain.
//!
//! The planner searches for a track between a sequence of waypoints that
//! minimises an estimated traversal time.  The cost of a step depends on the
//! slope of the terrain along it; polyline barriers forbid steps outright.
//! Planning runs in three stages per waypoint pair: a coarse grid-graph
//! shortest-path search, a fine corridor search around the coarse result,
//! and an iterative local relaxation of the polyline.
//!
//! All geometry is exact integer arithmetic: planar coordinates are held in
//! millimetres, slopes in thousandths, and times in nanoseconds.

pub mod atlas;
pub mod barrier;
pub mod config;
pub mod coord;
pub mod expander;
pub mod field;
pub mod graph;
pub mod num;
pub mod params;
pub mod path;
pub mod search;
