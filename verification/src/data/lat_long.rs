//! Positions as the operator writes them: two decimal numbers with a comma
//! between them.

use crate::text::{find_char, first_index_of, lemma_first_index_of, same_text};
use bigdecimal::num_bigint::BigInt;
use bigdecimal::BigDecimal;
use std::str::FromStr;
use vstd::prelude::*;
use vstd::string::{StrSliceExecFns, StringExecFns};

verus! {

/// A decimal number, held exactly: `digits` is a whole number in decimal
/// digits, with a minus sign before them where it is negative, and the
/// number is that whole number divided by ten to the power of `scale`.
#[derive(Debug, PartialEq, Eq)]
pub struct Decimal {
    pub digits: String,
    pub scale: i64,
}

impl Clone for Decimal {
    fn clone(&self) -> (r: Self)
        ensures
            r == *self,
    {
        Decimal { digits: self.digits.clone(), scale: self.scale }
    }
}

/// What a decimal number holds: its digits and its scale.
pub open spec fn decimal_view(d: Decimal) -> (Seq<char>, int) {
    (d.digits@, d.scale as int)
}

/// What an optional decimal number holds.
pub open spec fn optional_decimal_view(d: Option<Decimal>) -> Option<(Seq<char>, int)> {
    match d {
        Some(d) => Some(decimal_view(d)),
        None => None,
    }
}

/// The digits and the scale of the number that `BigDecimal::from_str` reads
/// from a text, or nothing where it reads none.
pub uninterp spec fn decimal_of_text(text: Seq<char>) -> Option<(Seq<char>, int)>;

/// Calls `BigDecimal::from_str` and takes the number apart with
/// `into_bigint_and_exponent`. The contract gives the result a name: the
/// digits and the scale depend on the text alone.
#[verifier::external_body]
fn parse_decimal(text: &str) -> (r: Option<Decimal>)
    ensures
        optional_decimal_view(r) == decimal_of_text(text@),
{
    match BigDecimal::from_str(text) {
        Ok(number) => {
            let (digits, scale) = number.into_bigint_and_exponent();
            Some(Decimal { digits: digits.to_string(), scale })
        },
        Err(_) => None,
    }
}

/// Calls the `to_string` of `BigDecimal` on the number made of the digits
/// and the scale. How the number is written depends on how the outside crate
/// was built, so nothing is claimed of the text.
#[verifier::external_body]
fn decimal_text(d: &Decimal) -> (text: String) {
    let digits = BigInt::from_str(d.digits.as_str()).unwrap_or_default();
    BigDecimal::new(digits, d.scale).to_string()
}

/// Why a text stands for no position.
#[derive(Copy, Clone, Debug, PartialEq, Eq, Structural)]
pub enum StringedLatLongErrorKind {
    EmptyString,
    NotAnNumber,
    InvalidString,
}

/// The failure to read a position.
#[derive(Clone, Copy, Debug, PartialEq, Eq, Structural)]
pub struct ParseStringedLatLongError {
    pub kind: StringedLatLongErrorKind,
}

/// Why a text stands for no position.
#[derive(Copy, Clone, Debug, PartialEq, Eq, Structural)]
pub enum StringedLatLongError {
    EmptyString,
    NotAnNumber,
    InvalidString,
}

/// The failure in words.
pub open spec fn kind_text(kind: StringedLatLongErrorKind) -> Seq<char> {
    match kind {
        StringedLatLongErrorKind::EmptyString => "cannot parse lat/long from empty string"@,
        StringedLatLongErrorKind::NotAnNumber => "lat/long contains an invalid decimal component"@,
        StringedLatLongErrorKind::InvalidString => "cannot parse lat/long"@,
    }
}

/// The name of the failure.
pub open spec fn error_name(error: StringedLatLongError) -> Seq<char> {
    match error {
        StringedLatLongError::EmptyString => "EmptyString"@,
        StringedLatLongError::NotAnNumber => "NotAnNumber"@,
        StringedLatLongError::InvalidString => "InvalidString"@,
    }
}

/// The failure that bears the same name.
pub open spec fn error_of_kind(kind: StringedLatLongErrorKind) -> StringedLatLongError {
    match kind {
        StringedLatLongErrorKind::EmptyString => StringedLatLongError::EmptyString,
        StringedLatLongErrorKind::NotAnNumber => StringedLatLongError::NotAnNumber,
        StringedLatLongErrorKind::InvalidString => StringedLatLongError::InvalidString,
    }
}

impl ParseStringedLatLongError {
    /// The failure in words.
    pub fn to_string(&self) -> (text: String)
        ensures
            text@ == kind_text(self.kind),
    {
        match self.kind {
            StringedLatLongErrorKind::EmptyString => {
                "cannot parse lat/long from empty string".to_string()
            },
            StringedLatLongErrorKind::NotAnNumber => {
                "lat/long contains an invalid decimal component".to_string()
            },
            StringedLatLongErrorKind::InvalidString => "cannot parse lat/long".to_string(),
        }
    }
}

impl StringedLatLongError {
    /// The name of the failure.
    pub fn to_string(&self) -> (text: String)
        ensures
            text@ == error_name(*self),
    {
        match self {
            Self::EmptyString => "EmptyString".to_string(),
            Self::NotAnNumber => "NotAnNumber".to_string(),
            Self::InvalidString => "InvalidString".to_string(),
        }
    }
}

/// A position as the operator writes it: latitude and longitude, and
/// whether a third part, a zero, follows them.
#[derive(Debug, PartialEq, Eq)]
pub struct StringedLatLong {
    pub lat: Decimal,
    pub long: Decimal,
    pub extra: bool,
}

/// What a position holds.
pub struct LatLongView {
    pub lat: (Seq<char>, int),
    pub long: (Seq<char>, int),
    pub extra: bool,
}

impl View for StringedLatLong {
    type V = LatLongView;

    open spec fn view(&self) -> LatLongView {
        LatLongView { lat: decimal_view(self.lat), long: decimal_view(self.long), extra: self.extra }
    }
}

impl Clone for StringedLatLong {
    fn clone(&self) -> (r: Self)
        ensures
            r == *self,
    {
        StringedLatLong { lat: self.lat.clone(), long: self.long.clone(), extra: self.extra }
    }
}

/// The part of a text before its first comma, or the whole text where it
/// has none.
pub open spec fn first_part(text: Seq<char>) -> Seq<char> {
    match first_index_of(text, ',', 0) {
        Some(i) => text.take(i),
        None => text,
    }
}

/// What follows the first comma of a text.
pub open spec fn after_first_part(text: Seq<char>) -> Option<Seq<char>> {
    match first_index_of(text, ',', 0) {
        Some(i) => Some(text.skip(i + 1)),
        None => None,
    }
}

/// The position that the texts of two numbers stand for.
pub open spec fn spec_position(lat: Seq<char>, long: Seq<char>, extra: bool) -> Result<
    LatLongView,
    StringedLatLongErrorKind,
> {
    match (decimal_of_text(lat), decimal_of_text(long)) {
        (Some(lat), Some(long)) => Ok(LatLongView { lat, long, extra }),
        _ => Err(StringedLatLongErrorKind::NotAnNumber),
    }
}

/// The position that a text stands for. The text holds parts with commas
/// between them. The first two are the latitude and the longitude; a third
/// part has to be a single zero; what follows a third part is not read.
pub open spec fn spec_parse_lat_long(text: Seq<char>) -> Result<
    LatLongView,
    StringedLatLongErrorKind,
> {
    if text.len() == 0 {
        Err(StringedLatLongErrorKind::EmptyString)
    } else {
        match after_first_part(text) {
            None => Err(StringedLatLongErrorKind::InvalidString),
            Some(rest) => match after_first_part(rest) {
                None => spec_position(first_part(text), rest, false),
                Some(tail) => if first_part(tail) == "0"@ {
                    spec_position(first_part(text), first_part(rest), true)
                } else {
                    Err(StringedLatLongErrorKind::InvalidString)
                },
            },
        }
    }
}

/// The text of a position in the data of the operator, made of the texts
/// of its two numbers.
pub open spec fn metlink_text_of(lat: Seq<char>, long: Seq<char>, extra: bool) -> Seq<char> {
    if extra {
        lat + seq![','] + long + seq![',', '0']
    } else {
        lat + seq![','] + long
    }
}

/// The text that shows a position to a reader, made of the texts of its two
/// numbers.
pub open spec fn display_text_of(lat: Seq<char>, long: Seq<char>) -> Seq<char> {
    lat + seq![',', ' '] + long
}

/// Splits a text at its first comma.
fn split_at_comma(text: &str) -> (r: (&str, Option<&str>))
    ensures
        r.0@ == first_part(text@),
        match after_first_part(text@) {
            Some(rest) => r.1 matches Some(found) && found@ == rest,
            None => r.1 is None,
        },
{
    let n: usize = text.unicode_len();
    proof {
        lemma_first_index_of(text@, ',', 0);
    }
    match find_char(text, ',') {
        None => (text, None),
        Some(i) => {
            let head = text.substring_char(0, i);
            let rest = text.substring_char(i + 1, n);
            proof {
                assert(text@.subrange(0, i as int) =~= text@.take(i as int));
                assert(text@.subrange(i + 1, n as int) =~= text@.skip(i + 1));
            }
            (head, Some(rest))
        },
    }
}

/// Puts the texts of two numbers together as the operator writes a
/// position.
pub fn join_metlink(lat: &str, long: &str, extra: bool) -> (text: String)
    ensures
        text@ == metlink_text_of(lat@, long@, extra),
{
    proof {
        reveal_strlit(",");
        reveal_strlit(",0");
    }
    let mut text = lat.to_string();
    text.append(",");
    text.append(long);
    if extra {
        text.append(",0");
        assert(text@ =~= lat@ + seq![','] + long@ + seq![',', '0']);
    } else {
        assert(text@ =~= lat@ + seq![','] + long@);
    }
    text
}

/// Puts the texts of two numbers together as a reader sees a position.
pub fn join_display(lat: &str, long: &str) -> (text: String)
    ensures
        text@ == display_text_of(lat@, long@),
{
    proof {
        reveal_strlit(", ");
    }
    let mut text = lat.to_string();
    text.append(", ");
    text.append(long);
    assert(text@ =~= lat@ + seq![',', ' '] + long@);
    text
}

impl StringedLatLong {
    /// The position as the operator writes it: the two numbers with a comma
    /// between them, and a zero as a third part where the position has one.
    /// How each number is written is left to the decimal numbers themselves.
    pub fn to_metlink_str(&self) -> (text: String)
        ensures
            exists|lat: Seq<char>, long: Seq<char>| text@ == metlink_text_of(lat, long, self.extra),
    {
        let lat = decimal_text(&self.lat);
        let long = decimal_text(&self.long);
        join_metlink(lat.as_str(), long.as_str(), self.extra)
    }

    /// The position as a reader sees it: the two numbers with a comma and a
    /// space between them.
    pub fn to_string(&self) -> (text: String)
        ensures
            exists|lat: Seq<char>, long: Seq<char>| text@ == display_text_of(lat, long),
    {
        let lat = decimal_text(&self.lat);
        let long = decimal_text(&self.long);
        join_display(lat.as_str(), long.as_str())
    }

    /// Makes a position of the texts of its two numbers. Fails as
    /// `NotAnNumber` where one of them is no decimal number.
    pub fn from_parts(lat: &str, long: &str, extra: bool) -> (r: Result<
        Self,
        ParseStringedLatLongError,
    >)
        ensures
            match spec_position(lat@, long@, extra) {
                Ok(position) => r matches Ok(found) && found@ == position,
                Err(kind) => r == Err::<Self, ParseStringedLatLongError>(
                    ParseStringedLatLongError { kind },
                ),
            },
    {
        match (parse_decimal(lat), parse_decimal(long)) {
            (Some(lat), Some(long)) => Ok(StringedLatLong { lat, long, extra }),
            _ => Err(ParseStringedLatLongError { kind: StringedLatLongErrorKind::NotAnNumber }),
        }
    }

    /// Reads a position. The text holds the latitude and the longitude with
    /// a comma between them, and may go on with a comma and a zero. The empty
    /// text fails as `EmptyString`; a text without a comma, or with a third
    /// part that is no single zero, as `InvalidString`; and a latitude or
    /// longitude that is no decimal number as `NotAnNumber`.
    pub fn from_str(s: &str) -> (r: Result<Self, ParseStringedLatLongError>)
        ensures
            match spec_parse_lat_long(s@) {
                Ok(position) => r matches Ok(found) && found@ == position,
                Err(kind) => r == Err::<Self, ParseStringedLatLongError>(
                    ParseStringedLatLongError { kind },
                ),
            },
    {
        proof {
            reveal_strlit("");
            if s@.len() == 0 {
                assert(s@ =~= ""@);
            }
        }
        if same_text(s, "") {
            return Err(ParseStringedLatLongError { kind: StringedLatLongErrorKind::EmptyString });
        }
        let (lat, rest) = split_at_comma(s);
        let rest = match rest {
            Some(rest) => rest,
            None => {
                return Err(
                    ParseStringedLatLongError { kind: StringedLatLongErrorKind::InvalidString },
                );
            },
        };
        let (long, tail) = split_at_comma(rest);
        let extra = match tail {
            None => false,
            Some(tail) => {
                let (third, _) = split_at_comma(tail);
                if same_text(third, "0") {
                    true
                } else {
                    return Err(
                        ParseStringedLatLongError { kind: StringedLatLongErrorKind::InvalidString },
                    );
                }
            },
        };
        proof {
            if tail is None {
                lemma_first_index_of(rest@, ',', 0);
            }
        }
        Self::from_parts(lat, long, extra)
    }

    /// Reads a position as `from_str` does, and hands back a failure by its
    /// name.
    pub fn from_metlink_str(s: &str) -> (r: Result<Self, StringedLatLongError>)
        ensures
            match spec_parse_lat_long(s@) {
                Ok(position) => r matches Ok(found) && found@ == position,
                Err(kind) => r == Err::<Self, StringedLatLongError>(error_of_kind(kind)),
            },
    {
        match Self::from_str(s) {
            Ok(position) => Ok(position),
            Err(e) => Err(
                match e.kind {
                    StringedLatLongErrorKind::EmptyString => StringedLatLongError::EmptyString,
                    StringedLatLongErrorKind::NotAnNumber => StringedLatLongError::NotAnNumber,
                    StringedLatLongErrorKind::InvalidString => StringedLatLongError::InvalidString,
                },
            ),
        }
    }
}

} // verus!
