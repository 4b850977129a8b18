//! The records of the transit data set: stops, surveyed route segments and
//! the scalar values that they carry.

pub mod fare_zone;
pub mod files;
pub mod lat_long;
pub mod route;
pub mod service_mode;
pub mod stop;
pub mod timetable;

pub use self::fare_zone::FareZone;
pub use self::route::{PointView, Route, RouteSegment, RouteView};
pub use self::service_mode::ServiceMode;
pub use self::stop::{Stop, StopView};
pub use self::timetable::{
    Date, Direction, RouteDirection, Timestamp, Timetable, TimetabledRoute,
};
