use route_builder::data::files::{timetable_file, timetable_json, DataPath};
use route_builder::data::{Date, Direction, RouteDirection, Timestamp, Timetable, TimetabledRoute};
use route_builder::timetables::{
    add_timing, from_py_timetables, organise_timetables, same_ids, RouteTimings, ServiceTimetable,
    ServiceTimetableEntry,
};

fn strings(names: &[&str]) -> Vec<String> {
    names.iter().map(|s| s.to_string()).collect()
}

fn day(year: i32, month: u32, day: u32) -> Date {
    Date { year, month, day }
}

fn at(seconds: i64) -> Timestamp {
    Timestamp { seconds, nanos: 0, offset: 43200 }
}

fn trip(stops: &[&str], first: i64) -> TimetabledRoute {
    TimetabledRoute {
        stops: strings(stops),
        times: (0..stops.len() as i64).map(|i| at(first + 60 * i)).collect(),
    }
}

fn timetable(date: Date, direction: RouteDirection, service: &str, trips: Vec<TimetabledRoute>) -> Timetable {
    Timetable { day: date, direction, service: service.to_string(), timetables: trips }
}

fn sample() -> Vec<Timetable> {
    vec![
        timetable(
            day(2019, 4, 13),
            RouteDirection::Inbound,
            "WHF",
            vec![trip(&["9997", "9998"], 100), trip(&["9998", "9999"], 200), trip(&["9997", "9998"], 300)],
        ),
        timetable(day(2019, 4, 12), RouteDirection::Outbound, "1", vec![trip(&["9997", "9998"], 400)]),
        timetable(day(2019, 4, 14), RouteDirection::Outbound, "WHF", vec![trip(&["9998", "9999"], 500)]),
        timetable(day(2019, 4, 15), RouteDirection::Inbound, "2", vec![]),
    ]
}

#[test]
fn days_are_ordered_by_year_month_and_day() {
    assert!(day(2019, 4, 12).is_before(&day(2019, 4, 13)));
    assert!(day(2019, 3, 30).is_before(&day(2019, 4, 1)));
    assert!(day(2018, 12, 31).is_before(&day(2019, 1, 1)));
    assert!(!day(2019, 4, 13).is_before(&day(2019, 4, 13)));
    assert!(!day(2019, 5, 1).is_before(&day(2019, 4, 30)));
    assert!(!day(2020, 1, 1).is_before(&day(2019, 12, 31)));
}

#[test]
fn days_are_written_with_hyphens() {
    assert_eq!(day(2019, 4, 13).to_text(), Some("2019-04-13".to_string()));
    assert_eq!(day(2015, 9, 5).to_text(), Some("2015-09-05".to_string()));
    assert_eq!(day(2019, 2, 29).to_text(), None);
    assert_eq!(day(2019, 13, 1).to_text(), None);
    assert_eq!(day(2019, 0, 1).to_text(), None);
}

#[test]
fn timetable_of_a_day_has_its_file() {
    let data = DataPath { components: strings(&["data"]) };
    assert_eq!(timetable_file("2019-04-13", RouteDirection::Inbound), "2019-04-13-inbound.json");
    assert_eq!(
        timetable_json(&data, "WHF", day(2019, 4, 13), RouteDirection::Outbound),
        Some(DataPath {
            components: strings(&["data", "service-WHF", "timetables", "2019-04-13-outbound.json"])
        })
    );
    assert_eq!(timetable_json(&data, "WHF", day(2019, 4, 31), RouteDirection::Outbound), None);
}

#[test]
fn trips_are_gathered_by_their_stops() {
    let grouped = organise_timetables(sample(), None);
    assert_eq!(
        grouped,
        vec![
            RouteTimings {
                stops: strings(&["9997", "9998"]),
                timings: vec![
                    (day(2019, 4, 13), RouteDirection::Inbound, vec![at(100), at(160)]),
                    (day(2019, 4, 13), RouteDirection::Inbound, vec![at(300), at(360)]),
                    (day(2019, 4, 12), RouteDirection::Outbound, vec![at(400), at(460)]),
                ],
            },
            RouteTimings {
                stops: strings(&["9998", "9999"]),
                timings: vec![
                    (day(2019, 4, 13), RouteDirection::Inbound, vec![at(200), at(260)]),
                    (day(2019, 4, 14), RouteDirection::Outbound, vec![at(500), at(560)]),
                ],
            },
        ]
    );
}

#[test]
fn earlier_timetables_are_passed_over() {
    let grouped = organise_timetables(sample(), Some(day(2019, 4, 13)));
    assert_eq!(grouped.len(), 2);
    assert_eq!(grouped[0].timings.len(), 2);
    assert_eq!(grouped[1].timings.len(), 2);
    let late = organise_timetables(sample(), Some(day(2019, 4, 14)));
    assert_eq!(
        late,
        vec![RouteTimings {
            stops: strings(&["9998", "9999"]),
            timings: vec![(day(2019, 4, 14), RouteDirection::Outbound, vec![at(500), at(560)])],
        }]
    );
    assert_eq!(organise_timetables(sample(), Some(day(2020, 1, 1))), vec![]);
}

#[test]
fn a_trip_is_put_under_its_stops() {
    let mut routes = vec![];
    add_timing(&mut routes, strings(&["a", "b"]), (day(2019, 1, 1), RouteDirection::Inbound, vec![]));
    add_timing(&mut routes, strings(&["a"]), (day(2019, 1, 2), RouteDirection::Inbound, vec![]));
    add_timing(&mut routes, strings(&["a", "b"]), (day(2019, 1, 3), RouteDirection::Outbound, vec![]));
    assert_eq!(routes.len(), 2);
    assert_eq!(routes[0].timings.len(), 2);
    assert_eq!(routes[0].timings[1].0, day(2019, 1, 3));
    assert_eq!(routes[1].stops, strings(&["a"]));
    assert!(same_ids(&strings(&["a", "b"]), &strings(&["a", "b"])));
    assert!(!same_ids(&strings(&["a", "b"]), &strings(&["a", "c"])));
    assert!(!same_ids(&strings(&["a", "b"]), &strings(&["a"])));
}

#[test]
fn trips_are_gathered_by_their_services() {
    let entry = |direction, stops: &[&str], first: i64| ServiceTimetableEntry {
        direction,
        stops: strings(stops),
        times: (0..stops.len() as i64).map(|i| at(first + 60 * i)).collect(),
    };
    assert_eq!(
        from_py_timetables(sample()),
        vec![
            ServiceTimetable {
                code: "1".to_string(),
                entries: vec![entry(Direction::Outbound, &["9997", "9998"], 400)],
            },
            ServiceTimetable { code: "2".to_string(), entries: vec![] },
            ServiceTimetable {
                code: "WHF".to_string(),
                entries: vec![
                    entry(Direction::Inbound, &["9997", "9998"], 100),
                    entry(Direction::Inbound, &["9998", "9999"], 200),
                    entry(Direction::Inbound, &["9997", "9998"], 300),
                    entry(Direction::Outbound, &["9998", "9999"], 500),
                ],
            },
        ]
    );
    assert_eq!(from_py_timetables(vec![]), vec![]);
}
