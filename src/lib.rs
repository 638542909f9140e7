//! Routing engine core: tile windows, a bounded tile cache, the connector
//! graph of a transport network and the best-first route search over it.

pub mod cache;
pub mod features;
pub mod graph;
pub mod route;
pub mod search;
pub mod tile;
