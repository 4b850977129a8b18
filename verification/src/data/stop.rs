//! Stops.

use crate::data::fare_zone::FareZone;
use vstd::prelude::*;

verus! {

/// A boarding point. `lat` and `lon` count a fixed decimal fraction of a
/// degree, so that a position is held exactly.
#[derive(Debug, PartialEq, Eq)]
pub struct Stop {
    pub name: String,
    pub sms: String,
    pub farezone: FareZone,
    pub lat: i32,
    pub lon: i32,
}

/// What a `Stop` holds.
pub struct StopView {
    pub name: Seq<char>,
    pub sms: Seq<char>,
    pub farezone: FareZone,
    pub lat: int,
    pub lon: int,
}

impl View for Stop {
    type V = StopView;

    open spec fn view(&self) -> StopView {
        StopView {
            name: self.name@,
            sms: self.sms@,
            farezone: self.farezone,
            lat: self.lat as int,
            lon: self.lon as int,
        }
    }
}

impl Clone for Stop {
    fn clone(&self) -> (r: Self)
        ensures
            r == *self,
    {
        Stop {
            name: self.name.clone(),
            sms: self.sms.clone(),
            farezone: self.farezone,
            lat: self.lat,
            lon: self.lon,
        }
    }
}

} // verus!
