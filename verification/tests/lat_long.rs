use route_builder::data::lat_long::{
    join_display, join_metlink, Decimal, ParseStringedLatLongError, StringedLatLong,
    StringedLatLongError, StringedLatLongErrorKind,
};

fn decimal(digits: &str, scale: i64) -> Decimal {
    Decimal { digits: digits.to_string(), scale }
}

#[test]
fn stringed_lat_long_test_fare_zone_serde() {
    let plain = StringedLatLong { lat: decimal("5", 0), long: decimal("-2", 0), extra: false };
    assert_eq!(plain.to_metlink_str(), "5,-2");
    assert_eq!(StringedLatLong::from_str("5,-2"), Ok(plain));
    let extra = StringedLatLong { lat: decimal("5", 0), long: decimal("-2", 0), extra: true };
    assert_eq!(extra.to_metlink_str(), "5,-2,0");
    assert_eq!(StringedLatLong::from_str("5,-2,0"), Ok(extra));
}

#[test]
fn service_map_test_fare_zone_serde() {
    let plain = StringedLatLong { lat: decimal("5", 0), long: decimal("-2", 0), extra: false };
    assert_eq!(plain.to_metlink_str(), "5,-2");
    assert_eq!(StringedLatLong::from_metlink_str("5,-2"), Ok(plain));
    let extra = StringedLatLong { lat: decimal("5", 0), long: decimal("-2", 0), extra: true };
    assert_eq!(extra.to_metlink_str(), "5,-2,0");
    assert_eq!(StringedLatLong::from_metlink_str("5,-2,0"), Ok(extra));
}

#[test]
fn position_keeps_the_digits_of_its_numbers() {
    let position = StringedLatLong::from_str("-41.2790337,174.7803802").unwrap();
    assert_eq!(position.lat, decimal("-412790337", 7));
    assert_eq!(position.long, decimal("1747803802", 7));
    assert!(!position.extra);
    assert_eq!(position.to_metlink_str(), "-41.2790337,174.7803802");
    assert_eq!(position.to_string(), "-41.2790337, 174.7803802");
    let zeros = StringedLatLong::from_str("-41.058710,175.494751").unwrap();
    assert_eq!(zeros.lat, decimal("-41058710", 6));
    assert_eq!(zeros.to_metlink_str(), "-41.058710,175.494751");
}

#[test]
fn position_failures() {
    let kind = |text: &str| StringedLatLong::from_str(text).unwrap_err().kind;
    assert_eq!(kind(""), StringedLatLongErrorKind::EmptyString);
    assert_eq!(kind("5"), StringedLatLongErrorKind::InvalidString);
    assert_eq!(kind("5,-2,1"), StringedLatLongErrorKind::InvalidString);
    assert_eq!(kind("5,-2,"), StringedLatLongErrorKind::InvalidString);
    assert_eq!(kind("x,y,1"), StringedLatLongErrorKind::InvalidString);
    assert_eq!(kind("5,x"), StringedLatLongErrorKind::NotAnNumber);
    assert_eq!(kind("x,5"), StringedLatLongErrorKind::NotAnNumber);
    assert_eq!(kind(","), StringedLatLongErrorKind::NotAnNumber);
    assert_eq!(kind("5,"), StringedLatLongErrorKind::NotAnNumber);
    assert_eq!(StringedLatLong::from_metlink_str(""), Err(StringedLatLongError::EmptyString));
    assert_eq!(StringedLatLong::from_metlink_str("1"), Err(StringedLatLongError::InvalidString));
    assert_eq!(StringedLatLong::from_metlink_str("1,b"), Err(StringedLatLongError::NotAnNumber));
}

#[test]
fn parts_after_the_third_are_not_read() {
    let position = StringedLatLong::from_str("5,-2,0,junk").unwrap();
    assert!(position.extra);
    assert_eq!(position.long, decimal("-2", 0));
}

#[test]
fn failures_in_words() {
    let text = |kind| ParseStringedLatLongError { kind }.to_string();
    assert_eq!(text(StringedLatLongErrorKind::EmptyString), "cannot parse lat/long from empty string");
    assert_eq!(
        text(StringedLatLongErrorKind::NotAnNumber),
        "lat/long contains an invalid decimal component"
    );
    assert_eq!(text(StringedLatLongErrorKind::InvalidString), "cannot parse lat/long");
    assert_eq!(StringedLatLongError::EmptyString.to_string(), "EmptyString");
    assert_eq!(StringedLatLongError::NotAnNumber.to_string(), "NotAnNumber");
    assert_eq!(StringedLatLongError::InvalidString.to_string(), "InvalidString");
}

#[test]
fn texts_are_joined() {
    assert_eq!(join_metlink("1.5", "-2", false), "1.5,-2");
    assert_eq!(join_metlink("1.5", "-2", true), "1.5,-2,0");
    assert_eq!(join_display("1.5", "-2"), "1.5, -2");
}
