use route_builder::data::fare_zone::{FareZone, FareZoneErrorKind};
use route_builder::data::files::{
    routes_json, service_folder, service_json, services_json, stops_json, timetables_folder,
    timetables_json, DataPath,
};
use route_builder::data::service_mode::ServiceMode;
use route_builder::data::timetable::{Direction, RouteDirection};
use route_builder::data::route::{compare_route_ids, compare_routes, Route};
use route_builder::text::KeyOrder;
use route_builder::utils::collect_results;

fn path(parts: &[&str]) -> DataPath {
    DataPath { components: parts.iter().map(|s| s.to_string()).collect() }
}

#[test]
fn fare_zone_texts_of_the_operator() {
    assert_eq!(FareZone::NotZoned.to_metlink_str(), "");
    assert_eq!(FareZone::Zone(10).to_metlink_str(), "10");
    assert_eq!(FareZone::Zone(0).to_metlink_str(), "0");
    assert_eq!(FareZone::Zone(255).to_metlink_str(), "255");
    assert_eq!(FareZone::ZoneBoundry(2, 3).to_metlink_str(), "2/3");
    assert_eq!(FareZone::ZoneBoundry(3, 4).to_metlink_str(), "4/3");
    assert_eq!(FareZone::ZoneBoundry(5, 6).to_metlink_str(), "6/5");
    assert_eq!(FareZone::ZoneBoundry(12, 13).to_metlink_str(), "12/13");
}

#[test]
fn fare_zone_texts_for_a_reader() {
    assert_eq!(FareZone::NotZoned.to_string(), "Not covered by fare zones");
    assert_eq!(FareZone::Zone(7).to_string(), "7");
    assert_eq!(FareZone::ZoneBoundry(3, 4).to_string(), "3/4");
    assert_eq!(FareZone::ZoneBoundry(100, 101).to_string(), "100/101");
}

#[test]
fn fare_zone_is_read_from_text() {
    assert_eq!(FareZone::from_str(""), Ok(FareZone::NotZoned));
    assert_eq!(FareZone::from_str("4"), Ok(FareZone::Zone(4)));
    assert_eq!(FareZone::from_str("+4"), Ok(FareZone::Zone(4)));
    assert_eq!(FareZone::from_str("007"), Ok(FareZone::Zone(7)));
    assert_eq!(FareZone::from_str("6/5"), Ok(FareZone::ZoneBoundry(5, 6)));
    assert_eq!(FareZone::from_str("5/6"), Ok(FareZone::ZoneBoundry(5, 6)));
    assert_eq!(FareZone::from_str("12/13"), Ok(FareZone::ZoneBoundry(12, 13)));
    assert_eq!(FareZone::from_str("3/3"), Ok(FareZone::ZoneBoundry(3, 3)));
}

#[test]
fn fare_zone_failures() {
    let e = FareZone::from_str("x").unwrap_err();
    assert_eq!(e.kind(), FareZoneErrorKind::NotAnInteger);
    assert!(e.inner().is_some());
    assert!(e.to_string().starts_with("fare zone contains an invalid numeric component: "));
    assert_eq!(FareZone::from_str("256").unwrap_err().kind(), FareZoneErrorKind::NotAnInteger);
    assert_eq!(FareZone::from_str("-1").unwrap_err().kind(), FareZoneErrorKind::NotAnInteger);
    assert_eq!(FareZone::from_str("1/").unwrap_err().kind(), FareZoneErrorKind::NotAnInteger);
    assert_eq!(FareZone::from_str("/1").unwrap_err().kind(), FareZoneErrorKind::NotAnInteger);
    assert_eq!(FareZone::from_str("/").unwrap_err().kind(), FareZoneErrorKind::NotAnInteger);
    assert_eq!(FareZone::from_str(" 1").unwrap_err().kind(), FareZoneErrorKind::NotAnInteger);
    let e = FareZone::from_str("1/2/3").unwrap_err();
    assert_eq!(e.kind(), FareZoneErrorKind::InvalidString);
    assert!(e.inner().is_none());
    assert_eq!(e.to_string(), "fare zone not in expected form");
    assert_eq!(FareZone::from_str("a/b/c").unwrap_err().kind(), FareZoneErrorKind::InvalidString);
    assert_eq!(FareZone::from_metlink_str("1//"), Err(FareZoneErrorKind::InvalidString));
    assert_eq!(FareZone::from_metlink_str("9"), Ok(FareZone::Zone(9)));
    assert_eq!(FareZoneErrorKind::InvalidString.to_string(), "InvalidString");
    assert_eq!(FareZoneErrorKind::NotAnInteger.to_string(), "NotAnInteger");
    let e = FareZone::from_str("1/2/3").unwrap_err();
    assert_eq!(e.clone(), e);
}

#[test]
fn fare_zone_text_is_read_back() {
    for zone in [FareZone::NotZoned, FareZone::Zone(0), FareZone::Zone(199), FareZone::ZoneBoundry(5, 6), FareZone::ZoneBoundry(6, 7)] {
        assert_eq!(FareZone::from_metlink_str(&zone.to_metlink_str()), Ok(zone));
    }
}

#[test]
fn service_mode_texts() {
    assert_eq!(ServiceMode::Bus.to_str(), "Bus");
    assert_eq!(ServiceMode::Train.to_str(), "Train");
    assert_eq!(ServiceMode::Ferry.to_str(), "Ferry");
    assert_eq!(ServiceMode::CableCar.to_str(), "Cable Car");
    assert_eq!(ServiceMode::Other("Back of a Moa".to_owned()).to_str(), "Back of a Moa");
    assert_eq!(ServiceMode::from_str("Bus"), ServiceMode::Bus);
    assert_eq!(ServiceMode::from_str("Train"), ServiceMode::Train);
    assert_eq!(ServiceMode::from_str("Ferry"), ServiceMode::Ferry);
    assert_eq!(ServiceMode::from_str("Cable Car"), ServiceMode::CableCar);
    assert_eq!(
        ServiceMode::from_str("Back of a Moa"),
        ServiceMode::Other("Back of a Moa".to_owned())
    );
    assert_eq!(ServiceMode::from_str("bus"), ServiceMode::Other("bus".to_owned()));
}

#[test]
fn direction_names() {
    assert_eq!(RouteDirection::Inbound.name(), "inbound");
    assert_eq!(RouteDirection::Outbound.name(), "outbound");
    assert_eq!(RouteDirection::from_name("inbound"), Some(RouteDirection::Inbound));
    assert_eq!(RouteDirection::from_name("  OutBound\n"), Some(RouteDirection::Outbound));
    assert_eq!(RouteDirection::from_name("INBOUND"), Some(RouteDirection::Inbound));
    assert_eq!(RouteDirection::from_name("in bound"), None);
    assert_eq!(RouteDirection::from_name(""), None);
    assert_eq!(RouteDirection::from_normal_name("outbound"), Some(RouteDirection::Outbound));
    assert_eq!(RouteDirection::from_normal_name("Outbound"), None);
    assert!(Direction::Inbound < Direction::Outbound);
}

#[test]
fn files_of_the_data_set() {
    let data = path(&[".", "data"]);
    assert_eq!(services_json(&data), path(&[".", "data", "services.json"]));
    assert_eq!(stops_json(&data), path(&[".", "data", "stops.json"]));
    assert_eq!(service_folder(&data, "854"), path(&[".", "data", "service-854"]));
    assert_eq!(service_json(&data, "854"), path(&[".", "data", "service-854", "service.json"]));
    assert_eq!(
        timetables_json(&data, "CCL"),
        path(&[".", "data", "service-CCL", "timetables.json"])
    );
    assert_eq!(timetables_folder(&data, "1"), path(&[".", "data", "service-1", "timetables"]));
    assert_eq!(routes_json(&data, "1"), path(&[".", "data", "service-1", "routes.json"]));
}

#[test]
fn results_are_gathered_up_to_the_first_failure() {
    let good: Vec<Result<u8, String>> = vec![Ok(1), Ok(2), Ok(3)];
    assert_eq!(collect_results(good), Ok(vec![1, 2, 3]));
    let bad: Vec<Result<u8, String>> =
        vec![Ok(1), Err("first".to_string()), Ok(3), Err("second".to_string())];
    assert_eq!(collect_results(bad), Err("first".to_string()));
    let none: Vec<Result<u8, String>> = vec![];
    assert_eq!(collect_results(none), Ok(vec![]));
}

#[test]
fn farezone_test_fare_zone_serde() {
    for (zone, token) in [
        (FareZone::NotZoned, ""),
        (FareZone::Zone(10), "10"),
        (FareZone::Zone(0), "0"),
        (FareZone::ZoneBoundry(2, 3), "2/3"),
        (FareZone::ZoneBoundry(3, 4), "4/3"),
    ] {
        assert_eq!(zone.to_metlink_str(), token);
        assert_eq!(FareZone::from_str(token), Ok(zone));
    }
}

#[test]
fn shared_test_fare_zone_serde() {
    for (zone, token) in
        [(FareZone::Zone(4), "4"), (FareZone::ZoneBoundry(5, 6), "6/5"), (FareZone::NotZoned, "")]
    {
        assert_eq!(zone.to_metlink_str(), token);
        assert_eq!(FareZone::from_metlink_str(token), Ok(zone));
    }
}

#[test]
fn service_mode_test_service_mode_serde() {
    for (mode, token) in [
        (ServiceMode::Bus, "Bus"),
        (ServiceMode::Train, "Train"),
        (ServiceMode::Ferry, "Ferry"),
        (ServiceMode::CableCar, "Cable Car"),
        (ServiceMode::Other("Back of a Moa".to_owned()), "Back of a Moa"),
    ] {
        assert_eq!(mode.to_str(), token);
        assert_eq!(ServiceMode::from_str(token), mode);
    }
}

#[test]
fn shared_test_service_mode_serde() {
    for (mode, token) in [
        (ServiceMode::Bus, "Bus"),
        (ServiceMode::Train, "Train"),
        (ServiceMode::Ferry, "Ferry"),
        (ServiceMode::CableCar, "Cable Car"),
        (ServiceMode::Other("Back of a Moa".to_owned()), "Back of a Moa"),
    ] {
        assert_eq!(mode.to_str(), token);
        assert_eq!(ServiceMode::from_str(token), mode);
    }
}

#[test]
fn routes_are_ordered_by_start_end_and_identifier() {
    let route = |start: &str, end: &str, id: &str| Route {
        start_id: start.to_string(),
        end_id: end.to_string(),
        id: id.to_string(),
        route: vec![],
        stops: vec![],
    };
    assert_eq!(compare_routes(&route("A", "B", "1"), &route("A", "B", "1")), KeyOrder::Equal);
    assert_eq!(compare_routes(&route("A", "B", "1"), &route("A", "B", "2")), KeyOrder::Less);
    assert_eq!(compare_routes(&route("A", "C", "1"), &route("A", "B", "2")), KeyOrder::Greater);
    assert_eq!(compare_routes(&route("A", "Z", "9"), &route("B", "A", "0")), KeyOrder::Less);
    assert_eq!(compare_route_ids(("B", "A", "0"), ("A", "Z", "9")), KeyOrder::Greater);
}
