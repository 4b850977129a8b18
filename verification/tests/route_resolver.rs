use route_builder::ordered_map::OrderedMap;
use route_builder::route_resolver::best_route::remove_common_elements;
use route_builder::route_resolver::stops::{generate_routes_for, StartEndRouteMap};

fn ends_of(entries: Vec<(String, Vec<usize>)>) -> OrderedMap<Vec<usize>> {
    let mut ends = OrderedMap::new();
    for (end, segments) in entries {
        ends.insert(end, segments);
    }
    ends
}

#[test]
fn test_remove_common_elements() {
    let elms = [vec![0, 1, 2, 3], vec![0, 4, 5, 3], vec![3, 4, 5], vec![0, 4, 5]];
    assert_eq!(remove_common_elements(&elms[0..1]), (vec![0, 1, 2, 3], vec![vec![]], vec![]));
    assert_eq!(
        remove_common_elements(&elms[0..=1]),
        (vec![0], vec![vec![1, 2], vec![4, 5]], vec![3])
    );
    assert_eq!(
        remove_common_elements(&elms[1..=2]),
        (vec![], vec![vec![0, 4, 5, 3], vec![3, 4, 5]], vec![])
    );
    assert_eq!(remove_common_elements(&elms[2..=3]), (vec![], vec![vec![3], vec![0]], vec![4, 5]));
}

#[test]
fn test_simples() {
    let mut map_start_to_ends: StartEndRouteMap = OrderedMap::new();
    map_start_to_ends.insert(
        "123".to_string(),
        ends_of(vec![("124".to_string(), vec![0usize, 2]), ("126".to_string(), vec![1usize])]),
    );

    let routes = generate_routes_for(
        &["123".to_string(), "124".to_string(), "125".to_string(), "126".to_string()],
        &map_start_to_ends,
    );
    assert_eq!(routes, vec![vec![1]])
}

#[test]
fn common_elements_of_no_chains() {
    assert_eq!(remove_common_elements(&[]), (vec![], vec![], vec![]));
}

#[test]
fn common_end_stops_at_the_first_difference() {
    // The chains agree on their last segment and on the one before the
    // segment before it, but not on the one between.
    let chains = [vec![5, 1, 2, 3], vec![6, 1, 7, 3]];
    assert_eq!(remove_common_elements(&chains), (vec![], vec![vec![5, 1, 2], vec![6, 1, 7]], vec![3]));
}

#[test]
fn equal_chains_are_all_prefix() {
    let chains = [vec![1, 2], vec![1, 2], vec![1, 2]];
    assert_eq!(remove_common_elements(&chains), (vec![1, 2], vec![vec![], vec![], vec![]], vec![]));
}

#[test]
fn chains_multiply_over_parallel_segments() {
    let mut map: StartEndRouteMap = OrderedMap::new();
    map.insert("A".to_string(), ends_of(vec![("B".to_string(), vec![0, 1]), ("C".to_string(), vec![2])]));
    map.insert("B".to_string(), ends_of(vec![("C".to_string(), vec![3, 4])]));
    let trip = ["A".to_string(), "B".to_string(), "C".to_string()];
    assert_eq!(
        generate_routes_for(&trip, &map),
        vec![vec![0, 3], vec![0, 4], vec![1, 3], vec![1, 4], vec![2]]
    );
    assert_eq!(generate_routes_for(&[], &map), Vec::<Vec<usize>>::new());
    assert_eq!(generate_routes_for(&["Q".to_string()], &map), Vec::<Vec<usize>>::new());
}

#[test]
fn end_that_the_trip_names_first_is_passed_over() {
    let mut map: StartEndRouteMap = OrderedMap::new();
    map.insert("A".to_string(), ends_of(vec![("A".to_string(), vec![0]), ("B".to_string(), vec![1])]));
    let trip = ["A".to_string(), "A".to_string(), "B".to_string()];
    assert_eq!(generate_routes_for(&trip, &map), vec![vec![1]]);
}
