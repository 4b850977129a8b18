//! Reconstruction of public-transit routes from timetabled stop sequences
//! and a catalogue of surveyed route segments.
//!
//! A timetabled trip is a list of stops. The catalogue holds segments:
//! surveyed paths between two stops. `builder` finds the chain of segments
//! that a trip follows, snaps the stops between the ends of each segment onto
//! its geometry, and flattens the chain into one route that names the stops
//! of the trip at their points. `data` holds the records, `data_utils` the
//! stop table and the catalogue, `timetables` the trips by their stops.
//! `route_resolver` and `routing` list the chains that a trip may follow
//! without weighing them.
//!
//! Positions are whole numbers of a fixed decimal fraction of a degree, and
//! distances are whole numbers of the same unit, so that the cost of a chain
//! is exact and the choice among chains does not depend on rounding.

pub mod builder;
pub mod data;
pub mod data_utils;
pub mod geometry;
pub mod ordered_map;
pub mod route_resolver;
pub mod routing;
pub mod text;
pub mod timetables;
pub mod utils;
