//! Rebuilding the path of a timetabled trip from the segments of the
//! catalogue.

pub mod assembler;
pub mod resolver;
pub mod round_trip;
pub mod snapper;
