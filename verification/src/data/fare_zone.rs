//! Fare zones and the texts that stand for them.

use crate::text::{find_char, first_index_of, lemma_first_index_of, same_text};
use core::num::ParseIntError;
use vstd::prelude::*;
use vstd::string::{StrSliceExecFns, StringExecFns};

verus! {

/// The error that `str::parse` gives for a text that is no integer.
#[verifier::external_type_specification]
#[verifier::external_body]
pub struct ExParseIntError(ParseIntError);

/// The fare zone of a stop: one zone, the boundary of two zones (the lower
/// zone first), or none.
#[derive(Clone, Copy, Debug, PartialEq, Eq, Structural)]
pub enum FareZone {
    Zone(u8),
    ZoneBoundry(u8, u8),
    NotZoned,
}

/// Why a text stands for no fare zone.
#[derive(Copy, Clone, Debug, PartialEq, Eq, Structural)]
pub enum FareZoneErrorKind {
    NotAnInteger,
    InvalidString,
}

/// The name of the kind of a failure.
pub open spec fn kind_name(kind: FareZoneErrorKind) -> Seq<char> {
    match kind {
        FareZoneErrorKind::NotAnInteger => "NotAnInteger"@,
        FareZoneErrorKind::InvalidString => "InvalidString"@,
    }
}

impl FareZoneErrorKind {
    /// The name of the kind.
    pub fn to_string(&self) -> (text: String)
        ensures
            text@ == kind_name(*self),
    {
        match self {
            FareZoneErrorKind::NotAnInteger => "NotAnInteger".to_string(),
            FareZoneErrorKind::InvalidString => "InvalidString".to_string(),
        }
    }
}

/// The failure to read a fare zone, with the error of the integer that
/// could not be read, where there was one.
#[derive(Clone, Debug, PartialEq, Eq)]
pub struct ParseFareZoneError {
    kind: FareZoneErrorKind,
    inner: Option<ParseIntError>,
}

impl ParseFareZoneError {
    /// Why the text stands for no fare zone.
    pub closed spec fn spec_kind(&self) -> FareZoneErrorKind {
        self.kind
    }

    /// Whether the failure holds the error of an integer.
    pub closed spec fn has_inner(&self) -> bool {
        self.inner is Some
    }

    /// Why the text stands for no fare zone.
    pub fn kind(&self) -> (kind: FareZoneErrorKind)
        ensures
            kind == self.spec_kind(),
    {
        self.kind
    }

    /// The error of the integer that could not be read.
    pub fn inner(&self) -> (inner: &Option<ParseIntError>)
        ensures
            inner is Some == self.has_inner(),
    {
        &self.inner
    }

    /// The failure in words.
    pub fn to_string(&self) -> (text: String)
        ensures
            self.spec_kind() == FareZoneErrorKind::InvalidString ==> text@
                == "fare zone not in expected form"@,
            self.spec_kind() == FareZoneErrorKind::NotAnInteger && !self.has_inner() ==> text@
                == "fare zone contains an invalid numeric component"@,
            self.spec_kind() == FareZoneErrorKind::NotAnInteger && self.has_inner()
                ==> "fare zone contains an invalid numeric component: "@.is_prefix_of(text@),
    {
        match (self.kind, &self.inner) {
            (FareZoneErrorKind::InvalidString, _) => "fare zone not in expected form".to_string(),
            (FareZoneErrorKind::NotAnInteger, None) => {
                "fare zone contains an invalid numeric component".to_string()
            },
            (FareZoneErrorKind::NotAnInteger, Some(e)) => {
                let head = "fare zone contains an invalid numeric component: ".to_string();
                let tail = int_error_text(e);
                head.concat(tail.as_str())
            },
        }
    }
}

/// Calls the `to_string` of `ParseIntError`, which puts the error in words.
/// Nothing is claimed of the words.
#[verifier::external_body]
fn int_error_text(e: &ParseIntError) -> (text: String) {
    e.to_string()
}

/// `c` is one of the ten digits.
pub open spec fn is_digit(c: char) -> bool {
    '0' <= c && c <= '9'
}

/// The number that a run of digits stands for.
pub open spec fn digits_value(digits: Seq<char>) -> nat
    decreases digits.len(),
{
    if digits.len() == 0 {
        0
    } else {
        (digits_value(digits.drop_last()) * 10 + (digits.last() as nat - '0' as nat)) as nat
    }
}

/// The text without the plus sign that may stand before the digits.
pub open spec fn unsigned_part(text: Seq<char>) -> Seq<char> {
    if text.len() > 0 && text[0] == '+' {
        text.skip(1)
    } else {
        text
    }
}

/// The text is a number that a `u8` holds: digits, at least one, with or
/// without a plus sign before them, that stand for no more than 255.
pub open spec fn is_u8_text(text: Seq<char>) -> bool {
    let digits = unsigned_part(text);
    &&& digits.len() > 0
    &&& forall|i: int| 0 <= i < digits.len() ==> is_digit(#[trigger] digits[i])
    &&& digits_value(digits) <= 255
}

/// The number that a text stands for.
pub open spec fn u8_value(text: Seq<char>) -> nat {
    digits_value(unsigned_part(text))
}

/// Calls `str::parse::<u8>`. It takes an optional plus sign followed by
/// digits only and fails on the empty text, on any other character and on a
/// number above 255; the contract says so.
#[verifier::external_body]
fn parse_u8(text: &str) -> (r: Result<u8, ParseIntError>)
    ensures
        r is Ok <==> is_u8_text(text@),
        r matches Ok(v) ==> v == u8_value(text@),
{
    text.parse::<u8>()
}

/// The zone that the text of one number stands for.
pub open spec fn spec_single_zone(text: Seq<char>) -> Result<FareZone, FareZoneErrorKind> {
    if is_u8_text(text) {
        Ok(FareZone::Zone(u8_value(text) as u8))
    } else {
        Err(FareZoneErrorKind::NotAnInteger)
    }
}

/// The boundary that the texts of two numbers stand for, the lower zone
/// first.
pub open spec fn spec_boundary(left: Seq<char>, right: Seq<char>) -> Result<
    FareZone,
    FareZoneErrorKind,
> {
    if is_u8_text(left) && is_u8_text(right) {
        let l = u8_value(left) as u8;
        let r = u8_value(right) as u8;
        if l < r {
            Ok(FareZone::ZoneBoundry(l, r))
        } else {
            Ok(FareZone::ZoneBoundry(r, l))
        }
    } else {
        Err(FareZoneErrorKind::NotAnInteger)
    }
}

/// The fare zone that a text stands for: none for the empty text, a zone
/// for one number, a boundary for two numbers with a slash between them.
pub open spec fn spec_parse_fare_zone(text: Seq<char>) -> Result<FareZone, FareZoneErrorKind> {
    if text.len() == 0 {
        Ok(FareZone::NotZoned)
    } else {
        match first_index_of(text, '/', 0) {
            None => spec_single_zone(text),
            Some(i) => {
                let rest = text.skip(i + 1);
                match first_index_of(rest, '/', 0) {
                    Some(_) => Err(FareZoneErrorKind::InvalidString),
                    None => spec_boundary(text.take(i), rest),
                }
            },
        }
    }
}

/// The character of a digit.
pub open spec fn digit_char(d: nat) -> char {
    if d == 0 {
        '0'
    } else if d == 1 {
        '1'
    } else if d == 2 {
        '2'
    } else if d == 3 {
        '3'
    } else if d == 4 {
        '4'
    } else if d == 5 {
        '5'
    } else if d == 6 {
        '6'
    } else if d == 7 {
        '7'
    } else if d == 8 {
        '8'
    } else {
        '9'
    }
}

/// A number in decimal digits.
pub open spec fn decimal_text(v: nat) -> Seq<char>
    decreases v,
{
    if v < 10 {
        seq![digit_char(v)]
    } else {
        decimal_text(v / 10).push(digit_char(v % 10))
    }
}

/// The text of a digit.
fn digit_text(d: u8) -> (text: &'static str)
    requires
        d < 10,
    ensures
        text@ == seq![digit_char(d as nat)],
{
    let text = if d == 0 {
        proof {
            reveal_strlit("0");
        }
        "0"
    } else if d == 1 {
        proof {
            reveal_strlit("1");
        }
        "1"
    } else if d == 2 {
        proof {
            reveal_strlit("2");
        }
        "2"
    } else if d == 3 {
        proof {
            reveal_strlit("3");
        }
        "3"
    } else if d == 4 {
        proof {
            reveal_strlit("4");
        }
        "4"
    } else if d == 5 {
        proof {
            reveal_strlit("5");
        }
        "5"
    } else if d == 6 {
        proof {
            reveal_strlit("6");
        }
        "6"
    } else if d == 7 {
        proof {
            reveal_strlit("7");
        }
        "7"
    } else if d == 8 {
        proof {
            reveal_strlit("8");
        }
        "8"
    } else {
        proof {
            reveal_strlit("9");
        }
        "9"
    };
    assert(text@ =~= seq![digit_char(d as nat)]);
    text
}

/// A zone number in decimal digits.
pub fn zone_text(v: u8) -> (text: String)
    ensures
        text@ == decimal_text(v as nat),
{
    let mut text = String::new();
    if v >= 100 {
        text.append(digit_text(v / 100));
    }
    if v >= 10 {
        text.append(digit_text((v / 10) % 10));
    }
    text.append(digit_text(v % 10));
    proof {
        reveal_with_fuel(decimal_text, 3);
        assert(text@ =~= decimal_text(v as nat));
    }
    text
}

/// The text that stands for a fare zone in the data of the operator: empty
/// for no zone, and for a boundary the even zone first.
pub open spec fn metlink_text(zone: FareZone) -> Seq<char> {
    match zone {
        FareZone::NotZoned => Seq::<char>::empty(),
        FareZone::Zone(z) => decimal_text(z as nat),
        FareZone::ZoneBoundry(inner, outer) => if inner % 2 == 0 {
            decimal_text(inner as nat) + seq!['/'] + decimal_text(outer as nat)
        } else {
            decimal_text(outer as nat) + seq!['/'] + decimal_text(inner as nat)
        },
    }
}

/// The text that shows a fare zone to a reader.
pub open spec fn display_text(zone: FareZone) -> Seq<char> {
    match zone {
        FareZone::NotZoned => "Not covered by fare zones"@,
        FareZone::Zone(z) => decimal_text(z as nat),
        FareZone::ZoneBoundry(inner, outer) => decimal_text(inner as nat) + seq!['/']
            + decimal_text(outer as nat),
    }
}

/// Two zone numbers with a slash between them.
fn pair_text(first: u8, second: u8) -> (text: String)
    ensures
        text@ == decimal_text(first as nat) + seq!['/'] + decimal_text(second as nat),
{
    let mut text = zone_text(first);
    proof {
        reveal_strlit("/");
    }
    text.append("/");
    assert(text@ =~= decimal_text(first as nat) + seq!['/']);
    let tail = zone_text(second);
    text.append(tail.as_str());
    text
}

impl FareZone {
    /// The text that stands for the fare zone in the data of the operator.
    pub fn to_metlink_str(&self) -> (text: String)
        ensures
            text@ == metlink_text(*self),
    {
        match self {
            FareZone::NotZoned => String::new(),
            FareZone::Zone(zone) => zone_text(*zone),
            FareZone::ZoneBoundry(inner_zone, outer_zone) => {
                if *inner_zone % 2 == 0 {
                    pair_text(*inner_zone, *outer_zone)
                } else {
                    pair_text(*outer_zone, *inner_zone)
                }
            },
        }
    }

    /// The text that shows the fare zone to a reader.
    pub fn to_string(&self) -> (text: String)
        ensures
            text@ == display_text(*self),
    {
        match self {
            FareZone::NotZoned => "Not covered by fare zones".to_string(),
            FareZone::Zone(zone) => zone_text(*zone),
            FareZone::ZoneBoundry(inner_zone, outer_zone) => pair_text(*inner_zone, *outer_zone),
        }
    }

    /// Reads a fare zone. The empty text stands for no zone, one number for
    /// a zone, and two numbers with a slash between them for the boundary of
    /// two zones, which is held with the lower zone first. A number that no
    /// `u8` holds fails as `NotAnInteger`, with the error of the first such
    /// number, and more than one slash as `InvalidString`.
    pub fn from_str(s: &str) -> (r: Result<Self, ParseFareZoneError>)
        ensures
            match spec_parse_fare_zone(s@) {
                Ok(zone) => r == Ok::<FareZone, ParseFareZoneError>(zone),
                Err(kind) => r matches Err(e) && e.spec_kind() == kind && (e.has_inner() <==> kind
                    == FareZoneErrorKind::NotAnInteger),
            },
    {
        proof {
            reveal_strlit("");
            if s@.len() == 0 {
                assert(s@ =~= ""@);
            }
        }
        if same_text(s, "") {
            return Ok(FareZone::NotZoned);
        }
        let n: usize = s.unicode_len();
        proof {
            lemma_first_index_of(s@, '/', 0);
        }
        match find_char(s, '/') {
            None => match parse_u8(s) {
                Ok(zone) => Ok(FareZone::Zone(zone)),
                Err(e) => Err(
                    ParseFareZoneError { kind: FareZoneErrorKind::NotAnInteger, inner: Some(e) },
                ),
            },
            Some(i) => {
                let left_zone = s.substring_char(0, i);
                let right_zone = s.substring_char(i + 1, n);
                proof {
                    assert(s@.subrange(0, i as int) =~= s@.take(i as int));
                    assert(s@.subrange(i + 1, n as int) =~= s@.skip(i + 1));
                }
                match find_char(right_zone, '/') {
                    Some(_) => Err(
                        ParseFareZoneError { kind: FareZoneErrorKind::InvalidString, inner: None },
                    ),
                    None => match (parse_u8(left_zone), parse_u8(right_zone)) {
                        (Ok(left_zone), Ok(right_zone)) => {
                            if left_zone < right_zone {
                                Ok(FareZone::ZoneBoundry(left_zone, right_zone))
                            } else {
                                Ok(FareZone::ZoneBoundry(right_zone, left_zone))
                            }
                        },
                        (Err(e), _) => Err(
                            ParseFareZoneError {
                                kind: FareZoneErrorKind::NotAnInteger,
                                inner: Some(e),
                            },
                        ),
                        (_, Err(e)) => Err(
                            ParseFareZoneError {
                                kind: FareZoneErrorKind::NotAnInteger,
                                inner: Some(e),
                            },
                        ),
                    },
                }
            },
        }
    }

    /// Reads a fare zone as `from_str` does, and hands back only the kind of
    /// a failure.
    pub fn from_metlink_str(s: &str) -> (r: Result<Self, FareZoneErrorKind>)
        ensures
            r == spec_parse_fare_zone(s@),
    {
        match Self::from_str(s) {
            Ok(zone) => Ok(zone),
            Err(e) => Err(e.kind()),
        }
    }
}

} // verus!
