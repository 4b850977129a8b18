//! Listing every chain of segments that a trip may follow, and what such
//! chains have in common.

pub mod best_route;
pub mod prune;
pub mod segment_ends;
pub mod start_end;
pub mod stops;
