//! The direction of a timetabled trip.

use crate::text::{lowercase_of, same_text, to_lowercase, trim, trimmed_of};
use chrono::NaiveDate;
use vstd::prelude::*;

verus! {

/// The direction in which a route is travelled.
#[derive(Clone, Copy, Debug, PartialEq, Eq, Structural)]
pub enum RouteDirection {
    Inbound,
    Outbound,
}

/// The direction of a timetable. Inbound comes before outbound.
#[derive(Clone, Copy, Debug, PartialEq, Eq, PartialOrd, Ord, Structural)]
pub enum Direction {
    Inbound,
    Outbound,
}

/// The name of a direction.
pub open spec fn direction_name(direction: RouteDirection) -> Seq<char> {
    match direction {
        RouteDirection::Inbound => "inbound"@,
        RouteDirection::Outbound => "outbound"@,
    }
}

/// The direction that a name in its normal form stands for.
pub open spec fn direction_named(name: Seq<char>) -> Option<RouteDirection> {
    if name == "inbound"@ {
        Some(RouteDirection::Inbound)
    } else if name == "outbound"@ {
        Some(RouteDirection::Outbound)
    } else {
        None
    }
}

/// The two names differ, so each direction is found again by its name.
pub proof fn lemma_direction_names(direction: RouteDirection)
    ensures
        direction_named(direction_name(direction)) == Some(direction),
{
    reveal_strlit("inbound");
    reveal_strlit("outbound");
    assert("inbound"@.len() == 7);
    assert("outbound"@.len() == 8);
}

impl RouteDirection {
    /// The name of the direction, in lower case.
    pub fn name(&self) -> (name: String)
        ensures
            name@ == direction_name(*self),
    {
        match self {
            Self::Inbound => "inbound".to_string(),
            Self::Outbound => "outbound".to_string(),
        }
    }

    /// The direction that bears `name`, which is taken as it stands.
    pub fn from_normal_name(name: &str) -> (direction: Option<Self>)
        ensures
            direction == direction_named(name@),
    {
        if same_text(name, "inbound") {
            Some(Self::Inbound)
        } else if same_text(name, "outbound") {
            Some(Self::Outbound)
        } else {
            None
        }
    }

    /// The direction that bears `name`, whatever the case of its letters and
    /// the white space around it.
    pub fn from_name(name: &str) -> (direction: Option<Self>)
        ensures
            direction == direction_named(trimmed_of(lowercase_of(name@))),
    {
        let lower = to_lowercase(name);
        Self::from_normal_name(trim(lower.as_str()))
    }
}

/// A day of the calendar.
#[derive(Clone, Copy, Debug, PartialEq, Eq, Structural)]
pub struct Date {
    pub year: i32,
    pub month: u32,
    pub day: u32,
}

/// The day `a` comes before the day `b`.
pub open spec fn date_before(a: Date, b: Date) -> bool {
    a.year < b.year || (a.year == b.year && (a.month < b.month || (a.month == b.month && a.day
        < b.day)))
}

impl Date {
    /// Whether this day comes before `other`.
    pub fn is_before(&self, other: &Date) -> (b: bool)
        ensures
            b == date_before(*self, *other),
    {
        self.year < other.year || (self.year == other.year && (self.month < other.month || (
        self.month == other.month && self.day < other.day)))
    }
}

/// The text of a day as year, month and day with hyphens between them, as
/// `NaiveDate::format` writes it, or nothing where the calendar has no such
/// day.
pub uninterp spec fn date_text(year: int, month: int, day: int) -> Option<Seq<char>>;

/// What an optional text holds.
pub open spec fn optional_text(text: Option<String>) -> Option<Seq<char>> {
    match text {
        Some(text) => Some(text@),
        None => None,
    }
}

/// Calls `NaiveDate::from_ymd_opt`, which gives nothing for a day that the
/// calendar does not have, and `NaiveDate::format` with year, month and day.
/// The contract gives the result a name: it depends on the three numbers
/// alone.
#[verifier::external_body]
fn format_date(date: Date) -> (text: Option<String>)
    ensures
        optional_text(text) == date_text(date.year as int, date.month as int, date.day as int),
{
    match NaiveDate::from_ymd_opt(date.year, date.month, date.day) {
        Some(day) => Some(day.format("%Y-%m-%d").to_string()),
        None => None,
    }
}

impl Date {
    /// The day as year, month and day with hyphens between them, or nothing
    /// where the calendar has no such day.
    pub fn to_text(&self) -> (text: Option<String>)
        ensures
            optional_text(text) == date_text(
                self.year as int,
                self.month as int,
                self.day as int,
            ),
    {
        format_date(*self)
    }
}

/// A moment: seconds and nanoseconds since the start of 1970, and the
/// offset of the local time in seconds.
#[derive(Clone, Copy, Debug, PartialEq, Eq, Structural)]
pub struct Timestamp {
    pub seconds: i64,
    pub nanos: u32,
    pub offset: i32,
}

/// A trip of a timetable: the stops that it visits and the times at which
/// it does.
#[derive(Debug, PartialEq, Eq)]
pub struct TimetabledRoute {
    pub stops: Vec<String>,
    pub times: Vec<Timestamp>,
}

/// The timetable of a service for one day and one direction.
#[derive(Debug, PartialEq, Eq)]
pub struct Timetable {
    pub day: Date,
    pub direction: RouteDirection,
    pub service: String,
    pub timetables: Vec<TimetabledRoute>,
}

} // verus!
