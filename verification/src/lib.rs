//! Road-network connectivity engine.
//!
//! A road network is a collection of roads, each an ordered sequence of
//! nodes with projected planar coordinates. Two roads are adjacent when
//! they are distinct and share a node (by node identity). The engine
//! answers which roads are reachable from a root road within a bounded
//! number of adjacency hops, inside an axis-aligned bounding box, and
//! persists the parsed network in a binary cache keyed by the source
//! file's name.
//!
//! Coordinates are planar fixed-point integers; the projection from
//! geographic coordinates to the plane is performed by the surrounding
//! application, which chooses the unit (the defaults below assume meters).

pub mod cache;
pub mod connections;
pub mod models;
pub mod query;
pub mod resolve;
pub mod store;
