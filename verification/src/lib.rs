//! Verified core of moka's concurrency shims: the state of a bounded
//! channel and the bucketed hash map that stands in for the segmented
//! concurrent map.

pub mod channel;
pub mod map_laws;
pub mod shuttle_map;
