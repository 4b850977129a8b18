use route_builder::builder::assembler::{assemble, find_route};
use route_builder::builder::resolver::{
    do_find_route, find_next_checks, resolve, RouteError, RouteFailure,
};
use route_builder::builder::snapper::{
    distance, find_bestest_route_stops, find_route_stops, order_route_idxs_by_closest,
};
use route_builder::data::{FareZone, Route, RouteSegment, Stop};
use route_builder::data_utils::{index_stops, organise_routes};

fn stop(sms: &str, lat: i32, lon: i32) -> Stop {
    Stop { name: format!("Stop {}", sms), sms: sms.to_string(), farezone: FareZone::Zone(1), lat, lon }
}

fn point(lat: i32, lon: i32) -> RouteSegment {
    RouteSegment { lat, lon, stop: None }
}

fn tagged(lat: i32, lon: i32, stop: &str) -> RouteSegment {
    RouteSegment { lat, lon, stop: Some(stop.to_string()) }
}

fn segment(id: &str, start: &str, end: &str, route: Vec<RouteSegment>) -> Route {
    Route {
        start_id: start.to_string(),
        end_id: end.to_string(),
        id: id.to_string(),
        route,
        stops: vec![start.to_string(), end.to_string()],
    }
}

fn ids(names: &[&str]) -> Vec<String> {
    names.iter().map(|s| s.to_string()).collect()
}

fn failure(trip: &[String], error: RouteError) -> Result<(Vec<Route>, Route), RouteFailure> {
    Err(RouteFailure { timetabled_route: trip.to_vec(), error })
}

fn annotations(route: &Route) -> Vec<String> {
    route.route.iter().filter_map(|p| p.stop.clone()).collect()
}

fn line(start: &str, end: &str, from: i32, to: i32, step: i32) -> Vec<RouteSegment> {
    let mut points = vec![tagged(0, from, start)];
    let mut at = from + step;
    while (step > 0 && at < to) || (step < 0 && at > to) {
        points.push(point(0, at));
        at += step;
    }
    points.push(tagged(0, to, end));
    points
}

#[test]
fn distance_is_the_rounded_down_euclidean_distance() {
    assert_eq!(distance(&stop("A", 0, 0), &point(3, 4)), 5);
    assert_eq!(distance(&stop("A", 0, 0), &point(1, 1)), 1);
    assert_eq!(distance(&stop("A", 10, 10), &point(10, 10)), 0);
    assert_eq!(distance(&stop("A", -5, 7), &point(7, 2)), 13);
    assert_eq!(
        distance(&stop("A", i32::MIN, i32::MIN), &point(i32::MAX, i32::MAX)),
        6074000998
    );
    let here = route_builder::geometry::Position { lat: 6, lon: -8 };
    let there = route_builder::geometry::Position { lat: 0, lon: 0 };
    assert_eq!(here.distance_to(&there), 10);
}

#[test]
fn candidates_are_ordered_nearest_first() {
    let route = segment("A-B", "A", "B", vec![point(0, 0), point(0, 10), point(0, 4), point(0, 6)]);
    let ordered = order_route_idxs_by_closest(&stop("S", 0, 5), &route);
    assert_eq!(ordered, vec![(2, 1), (3, 1), (0, 5), (1, 5)]);
}

#[test]
fn search_takes_first_feasible_candidate() {
    let lists = vec![vec![(3usize, 1u64), (0, 2), (1, 7)], vec![(1usize, 1u64), (2, 4), (3, 9)]];
    // The nearest candidate of the first stop leaves nothing for the second.
    assert_eq!(find_bestest_route_stops(0, &lists), Some((3, vec![1, 0])));
    assert_eq!(find_bestest_route_stops(1, &lists), Some((11, vec![2, 1])));
    assert_eq!(find_bestest_route_stops(3, &lists), None);
    assert_eq!(find_bestest_route_stops(0, &[]), Some((0, vec![])));
    assert_eq!(find_bestest_route_stops(0, &[vec![]]), None);
}

#[test]
fn snap_without_stops_succeeds_at_no_cost() {
    let route = segment("A-B", "A", "B", line("A", "B", 0, 100, 10));
    assert_eq!(find_route_stops(&[], &route), Some((0, vec![])));
    let bare = segment("A-B", "A", "B", vec![]);
    assert_eq!(find_route_stops(&[], &bare), Some((0, vec![])));
    assert_eq!(find_route_stops(&[stop("S", 0, 0)], &bare), None);
}

#[test]
fn snap_indices_are_strictly_increasing() {
    let route = segment("A-B", "A", "B", line("A", "B", 0, 100, 10));
    let stops = vec![stop("S1", 0, 42), stop("S2", 0, 41), stop("S3", 0, 40), stop("S4", 3, 97)];
    let (cost, indices) = find_route_stops(&stops, &route).unwrap();
    assert_eq!(indices, vec![4, 5, 6, 10]);
    assert_eq!(cost, 2 + 9 + 20 + 4);
    for pair in indices.windows(2) {
        assert!(pair[0] < pair[1]);
    }
}

#[test]
fn snap_leaves_a_point_for_each_later_stop() {
    let route = segment("A-B", "A", "B", vec![point(0, 0), point(0, 10), point(0, 20)]);
    // Both stops lie nearest to the last point; the first has to leave it.
    let stops = vec![stop("S1", 0, 20), stop("S2", 0, 20)];
    assert_eq!(find_route_stops(&stops, &route), Some((10, vec![1, 2])));
    let many = vec![stop("S1", 0, 0), stop("S2", 0, 0), stop("S3", 0, 0), stop("S4", 0, 0)];
    assert_eq!(find_route_stops(&many, &route), None);
}

#[test]
fn snap_cost_is_the_sum_of_the_distances() {
    let route = segment("A-B", "A", "B", line("A", "B", 0, 100, 10));
    let all = vec![stop("S1", 0, 12), stop("S2", 0, 38), stop("S3", 0, 75)];
    let mut last = 0;
    for n in 0..=all.len() {
        let (cost, indices) = find_route_stops(&all[..n], &route).unwrap();
        let sum: u128 = (0..n).map(|i| distance(&all[i], &route.route[indices[i]]) as u128).sum();
        assert_eq!(cost, sum);
        assert!(cost >= last);
        last = cost;
    }
    assert_eq!(last, 2 + 2 + 5);
}

#[test]
fn two_segment_chain_with_snapped_stop() {
    let stops = index_stops(vec![
        stop("A", 0, 0),
        stop("B", 1, 100),
        stop("C", 0, 200),
        stop("D", 0, 300),
    ]);
    let catalogue = organise_routes(vec![
        segment("C-D", "C", "D", line("C", "D", 200, 300, 50)),
        segment("A-C", "A", "C", line("A", "C", 0, 200, 50)),
    ]);
    let trip = ids(&["A", "B", "C", "D"]);
    let (cost, chain, idxs) = resolve(&trip, &catalogue, &stops).unwrap();
    assert_eq!(cost, 1);
    assert_eq!(chain.iter().map(|r| r.id.as_str()).collect::<Vec<_>>(), vec!["C-D", "A-C"]);
    assert_eq!(idxs, vec![vec![], vec![2]]);
    let (segments, route) = find_route(&trip, &catalogue, &stops).unwrap();
    assert_eq!(segments.iter().map(|r| r.id.as_str()).collect::<Vec<_>>(), vec!["A-C", "C-D"]);
    assert_eq!(route.id, "A-C,C-D");
    assert_eq!(route.start_id, "A");
    assert_eq!(route.end_id, "D");
    assert_eq!(route.stops, trip);
    assert_eq!(
        route.route,
        vec![
            tagged(0, 0, "A"),
            point(0, 50),
            tagged(0, 100, "B"),
            point(0, 150),
            tagged(0, 200, "C"),
            point(0, 250),
            tagged(0, 300, "D"),
        ]
    );
    assert_eq!(annotations(&route), trip);
}

#[test]
fn loop_reuses_a_stop_as_waypoint() {
    let stops = index_stops(vec![stop("X", 0, 0), stop("Y", 0, 100), stop("Z", 100, 0)]);
    let catalogue = organise_routes(vec![
        segment("X-Y", "X", "Y", line("X", "Y", 0, 100, 25)),
        segment("Y-X", "Y", "X", line("Y", "X", 100, 0, -25)),
        segment("X-Z", "X", "Z", vec![tagged(0, 0, "X"), point(50, 0), tagged(100, 0, "Z")]),
    ]);
    let trip = ids(&["X", "Y", "X", "Z"]);
    let (segments, route) = find_route(&trip, &catalogue, &stops).unwrap();
    assert_eq!(
        segments.iter().map(|r| r.id.as_str()).collect::<Vec<_>>(),
        vec!["X-Y", "Y-X", "X-Z"]
    );
    assert_eq!(route.id, "X-Y,Y-X,X-Z");
    assert_eq!(annotations(&route), trip);
    assert_eq!(route.route.len(), 5 + 4 + 2);
}

#[test]
fn same_segment_may_be_taken_twice() {
    let stops = index_stops(vec![stop("X", 0, 0), stop("Y", 0, 100)]);
    let catalogue = organise_routes(vec![
        segment("X-Y", "X", "Y", line("X", "Y", 0, 100, 50)),
        segment("Y-X", "Y", "X", line("Y", "X", 100, 0, -50)),
    ]);
    let trip = ids(&["X", "Y", "X", "Y"]);
    let (segments, route) = find_route(&trip, &catalogue, &stops).unwrap();
    assert_eq!(
        segments.iter().map(|r| r.id.as_str()).collect::<Vec<_>>(),
        vec!["X-Y", "Y-X", "X-Y"]
    );
    assert_eq!(annotations(&route), trip);
}

#[test]
fn snap_failure_falls_back_to_the_other_segment() {
    let stops = index_stops(vec![
        stop("A", 0, 0),
        stop("B", 0, 30),
        stop("C", 0, 60),
        stop("D", 0, 90),
    ]);
    // The first segment between A and D has too few points for B and C.
    let short = segment("short", "A", "D", vec![tagged(0, 0, "A")]);
    let long = segment("long", "A", "D", line("A", "D", 0, 90, 30));
    let catalogue = organise_routes(vec![short, long]);
    let trip = ids(&["A", "B", "C", "D"]);
    let (segments, route) = find_route(&trip, &catalogue, &stops).unwrap();
    assert_eq!(segments.iter().map(|r| r.id.as_str()).collect::<Vec<_>>(), vec!["long"]);
    assert_eq!(annotations(&route), trip);

    let only_short =
        organise_routes(vec![segment("short", "A", "D", vec![tagged(0, 0, "A")])]);
    assert_eq!(find_route(&trip, &only_short, &stops), failure(&trip, RouteError::NoCandidateStep));
}

#[test]
fn stops_out_of_order_are_forced_into_geometry_order() {
    let stops = vec![stop("B", 0, 60), stop("C", 0, 30)];
    let route = segment("A-D", "A", "D", line("A", "D", 0, 90, 30));
    // B lies nearest to point 2 and C to point 1; C has to follow B.
    assert_eq!(find_route_stops(&stops, &route), Some((60, vec![2, 3])));
}

#[test]
fn stop_without_outgoing_segment_is_reported() {
    let stops = index_stops(vec![stop("A", 0, 0), stop("B", 0, 100), stop("C", 0, 200)]);
    let catalogue = organise_routes(vec![segment("A-B", "A", "B", line("A", "B", 0, 100, 50))]);
    assert_eq!(
        find_route(&ids(&["B", "C"]), &catalogue, &stops),
        failure(&ids(&["B", "C"]), RouteError::NoSegmentsFrom("B".to_string()))
    );
    assert_eq!(
        find_route(&ids(&["A", "B", "C"]), &catalogue, &stops),
        failure(&ids(&["A", "B", "C"]), RouteError::NoViableChain)
    );
    assert_eq!(
        find_route(&ids(&["A", "C"]), &catalogue, &stops),
        failure(&ids(&["A", "C"]), RouteError::NoCandidateStep)
    );
    assert_eq!(
        resolve(&ids(&["B", "C"]), &catalogue, &stops),
        Err(RouteError::NoSegmentsFrom("B".to_string()))
    );
}

#[test]
fn unknown_stop_is_reported() {
    let stops = index_stops(vec![stop("A", 0, 0), stop("B", 0, 100)]);
    let catalogue = organise_routes(vec![segment("A-B", "A", "B", line("A", "B", 0, 100, 50))]);
    assert_eq!(
        find_route(&ids(&["A", "Q", "B", "R"]), &catalogue, &stops),
        failure(&ids(&["A", "Q", "B", "R"]), RouteError::UnknownStop("Q".to_string()))
    );
}

#[test]
fn trip_of_one_stop_has_no_geometry() {
    let stops = index_stops(vec![]);
    let catalogue = organise_routes(vec![]);
    let trip = ids(&["A"]);
    assert_eq!(resolve(&trip, &catalogue, &stops), Ok((0, vec![], vec![])));
    let (segments, route) = find_route(&trip, &catalogue, &stops).unwrap();
    assert!(segments.is_empty());
    assert_eq!(route, Route {
        start_id: "A".to_string(),
        end_id: "A".to_string(),
        id: String::new(),
        route: vec![],
        stops: trip,
    });
}

#[test]
fn stop_on_first_point_cannot_be_segmented() {
    let stops = index_stops(vec![stop("A", 0, 0), stop("B", 0, 1), stop("C", 0, 100)]);
    let catalogue = organise_routes(vec![segment("A-C", "A", "C", line("A", "C", 0, 100, 50))]);
    assert_eq!(
        find_route(&ids(&["A", "B", "C"]), &catalogue, &stops),
        failure(&ids(&["A", "B", "C"]), RouteError::CannotSegment)
    );
}

#[test]
fn ties_keep_the_first_segment() {
    let stops = index_stops(vec![stop("A", 0, 0), stop("B", 0, 100)]);
    let catalogue = organise_routes(vec![
        segment("first", "A", "B", line("A", "B", 0, 100, 50)),
        segment("second", "A", "B", line("A", "B", 0, 100, 25)),
    ]);
    let (segments, _) = find_route(&ids(&["A", "B"]), &catalogue, &stops).unwrap();
    assert_eq!(segments[0].id, "first");
}

#[test]
fn lower_cost_segment_is_chosen() {
    let stops = index_stops(vec![stop("A", 0, 0), stop("B", 0, 100)]);
    let catalogue = organise_routes(vec![
        segment("far", "A", "B", vec![tagged(40, 0, "A"), tagged(40, 100, "B")]),
        segment("near", "A", "B", vec![tagged(1, 0, "A"), tagged(1, 100, "B")]),
    ]);
    let trip = ids(&["A", "B"]);
    let (cost, chain, _) = resolve(&trip, &catalogue, &stops).unwrap();
    assert_eq!(cost, 2);
    assert_eq!(chain[0].id, "near");
}

#[test]
fn end_stops_are_tried_in_the_order_of_their_identifiers() {
    let stops = index_stops(vec![stop("A", 0, 0), stop("B", 0, 50), stop("C", 0, 100)]);
    // A-C with B snapped costs as much as A-B followed by B-C.
    let catalogue = organise_routes(vec![
        segment("A-C", "A", "C", line("A", "C", 0, 100, 50)),
        segment("B-C", "B", "C", line("B", "C", 50, 100, 50)),
        segment("A-B", "A", "B", line("A", "B", 0, 50, 50)),
    ]);
    let (segments, _) = find_route(&ids(&["A", "B", "C"]), &catalogue, &stops).unwrap();
    assert_eq!(segments.iter().map(|r| r.id.as_str()).collect::<Vec<_>>(), vec!["A-B", "B-C"]);
}

#[test]
fn resolution_is_repeatable() {
    let stops = index_stops(vec![stop("X", 0, 0), stop("Y", 0, 100), stop("Z", 100, 0)]);
    let catalogue = organise_routes(vec![
        segment("X-Y", "X", "Y", line("X", "Y", 0, 100, 25)),
        segment("Y-X", "Y", "X", line("Y", "X", 100, 0, -25)),
        segment("X-Z", "X", "Z", vec![tagged(0, 0, "X"), point(50, 0), tagged(100, 0, "Z")]),
    ]);
    let trip = ids(&["X", "Y", "X", "Z"]);
    assert_eq!(find_route(&trip, &catalogue, &stops), find_route(&trip, &catalogue, &stops));
}

#[test]
fn assemble_names_the_snapped_points() {
    let chain = vec![segment("A-C", "A", "C", line("A", "C", 0, 200, 50))];
    let trip = ids(&["A", "B", "C"]);
    let route = assemble(&trip, &chain, &vec![vec![3]]).unwrap();
    assert_eq!(
        route.route,
        vec![tagged(0, 0, "A"), point(0, 50), point(0, 100), tagged(0, 150, "B"), tagged(0, 200, "C")]
    );
    assert_eq!(assemble(&trip, &chain, &vec![vec![0]]), Err(RouteError::CannotSegment));
}

#[test]
fn catalogue_keeps_parallel_segments_in_order() {
    let catalogue = organise_routes(vec![
        segment("one", "B", "C", vec![]),
        segment("two", "A", "C", vec![]),
        segment("three", "B", "C", vec![]),
        segment("four", "B", "A", vec![]),
    ]);
    assert_eq!(catalogue.len(), 2);
    assert_eq!(catalogue.key_at(0), "A");
    assert_eq!(catalogue.key_at(1), "B");
    let from_b = catalogue.get("B").unwrap();
    assert_eq!(from_b.len(), 2);
    assert_eq!(from_b.key_at(0), "A");
    assert_eq!(from_b.key_at(1), "C");
    let to_c = from_b.get("C").unwrap();
    assert_eq!(to_c.iter().map(|r| r.id.as_str()).collect::<Vec<_>>(), vec!["one", "three"]);
    assert!(catalogue.get("C").is_none());
}

#[test]
fn stop_table_keeps_the_last_of_equal_identifiers() {
    let table = index_stops(vec![stop("A", 1, 1), stop("B", 2, 2), stop("A", 3, 3)]);
    assert_eq!(table.len(), 2);
    assert_eq!(table.get("A").unwrap().lat, 3);
    assert_eq!(table.get("B").unwrap().lat, 2);
    assert!(table.get("C").is_none());
}

#[test]
fn errors_in_words() {
    assert_eq!(RouteError::UnknownStop("Q".to_string()).to_string(), "Cannot find stop Q in stops");
    assert_eq!(
        RouteError::NoSegmentsFrom("B".to_string()).to_string(),
        "Cannot find stop B in possible routes"
    );
    assert_eq!(RouteError::NoCandidateStep.to_string(), "Failed to find any routes.");
    assert_eq!(RouteError::NoViableChain.to_string(), "Failed to find suitable route");
    assert_eq!(RouteError::CannotSegment.to_string(), "Cannot segment route");
}

#[test]
fn a_further_stop_may_lower_the_cost_of_snapping() {
    let route = segment("A-B", "A", "B", vec![point(0, 0), point(0, 10), point(0, 20), point(0, 30)]);
    let two = vec![stop("S1", 0, 16), stop("S2", 0, 20)];
    // The first stop takes the third point and leaves the second stop the last.
    assert_eq!(find_route_stops(&two, &route), Some((14, vec![2, 3])));
    let three = vec![stop("S1", 0, 16), stop("S2", 0, 20), stop("S3", 0, 30)];
    // It has to leave two points now, and every later stop finds its own.
    assert_eq!(find_route_stops(&three, &route), Some((6, vec![1, 2, 3])));
}

#[test]
fn segment_without_points_is_a_step_that_gives_no_chain() {
    let table = index_stops(vec![stop("A", 0, 0), stop("B", 0, 100)]);
    let resolved = vec![stop("A", 0, 0), stop("B", 0, 100)];
    let trip = ids(&["A", "B"]);
    let b = "B".to_string();
    let catalogue = organise_routes(vec![segment("bare", "A", "B", vec![])]);
    // No stop lies between, so the segment takes the stops between.
    let checks = find_next_checks(&trip, &resolved, catalogue.get("A").unwrap()).unwrap();
    assert_eq!(checks, vec![(1, (&b, 0), 0, vec![])]);
    // It has no first point and no last, so the step is discarded.
    assert_eq!(do_find_route(&trip, &resolved, &catalogue), Err(RouteError::NoViableChain));
    assert_eq!(find_route(&trip, &catalogue, &table), failure(&trip, RouteError::NoViableChain));
}

#[test]
fn segment_without_points_is_listed_beside_a_good_one() {
    let table = index_stops(vec![stop("A", 0, 0), stop("B", 0, 100)]);
    let resolved = vec![stop("A", 0, 0), stop("B", 0, 100)];
    let trip = ids(&["A", "B"]);
    let b = "B".to_string();
    let catalogue = organise_routes(vec![
        segment("bare", "A", "B", vec![]),
        segment("good", "A", "B", line("A", "B", 0, 100, 50)),
    ]);
    let checks = find_next_checks(&trip, &resolved, catalogue.get("A").unwrap()).unwrap();
    assert_eq!(checks, vec![(1, (&b, 0), 0, vec![]), (1, (&b, 1), 0, vec![])]);
    let (segments, route) = find_route(&trip, &catalogue, &table).unwrap();
    assert_eq!(segments.iter().map(|r| r.id.as_str()).collect::<Vec<_>>(), vec!["good"]);
    assert_eq!(annotations(&route), trip);
}

#[test]
fn segment_without_points_before_a_dead_end_leaves_no_chain() {
    let table = index_stops(vec![stop("A", 0, 0), stop("B", 0, 100), stop("C", 0, 200)]);
    let catalogue = organise_routes(vec![segment("bare", "A", "B", vec![])]);
    let trip = ids(&["A", "B", "C"]);
    assert_eq!(find_route(&trip, &catalogue, &table), failure(&trip, RouteError::NoViableChain));
}

#[test]
fn steps_are_listed_by_end_stop_and_then_by_segment() {
    let resolved =
        vec![stop("A", 0, 0), stop("B", 0, 50), stop("C", 0, 100), stop("B", 0, 50)];
    let trip = ids(&["A", "B", "C", "B"]);
    let b = "B".to_string();
    let c = "C".to_string();
    let catalogue = organise_routes(vec![
        segment("A-C", "A", "C", line("A", "C", 0, 100, 50)),
        segment("A-D", "A", "D", line("A", "D", 0, 300, 50)),
        segment("A-B", "A", "B", line("A", "B", 0, 50, 25)),
        segment("A-C short", "A", "C", vec![tagged(0, 0, "A")]),
        segment("A-B other", "A", "B", line("A", "B", 0, 50, 10)),
    ]);
    let checks = find_next_checks(&trip, &resolved, catalogue.get("A").unwrap()).unwrap();
    // B is found at its first place after the start; D is not in the trip.
    assert_eq!(
        checks,
        vec![(1, (&b, 0), 0, vec![]), (1, (&b, 1), 0, vec![]), (2, (&c, 0), 0, vec![1]), (2, (&c, 1), 50, vec![0])]
    );
    let none = organise_routes(vec![segment("A-D", "A", "D", line("A", "D", 0, 300, 50))]);
    assert_eq!(
        find_next_checks(&trip, &resolved, none.get("A").unwrap()),
        Err(RouteError::NoCandidateStep)
    );
}
