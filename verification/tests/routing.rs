use route_builder::data::Route;
use route_builder::geometry::Position;
use route_builder::route_resolver::start_end::{build_start_end_map, closest_point};
use route_builder::ordered_map::OrderedMap;
use route_builder::route_resolver::prune::{
    prune_common_segments_from_route, reverse_map_start_to_end,
};
use route_builder::route_resolver::stops::StartEndRouteMap;
use route_builder::routing::{
    find_route_components_used_in_stop_list, get_route_for_timetabled_service,
};

fn strings(names: &[&str]) -> Vec<String> {
    names.iter().map(|s| s.to_string()).collect()
}

fn lists(parts: &[&[&str]]) -> Vec<Vec<String>> {
    parts.iter().map(|p| strings(p)).collect()
}

fn sample_map() -> StartEndRouteMap {
    let mut map: StartEndRouteMap = OrderedMap::new();
    let mut from_a = OrderedMap::new();
    from_a.insert("B".to_string(), vec![0usize, 1]);
    from_a.insert("C".to_string(), vec![2usize]);
    let mut from_b = OrderedMap::new();
    from_b.insert("C".to_string(), vec![3usize]);
    let mut from_c = OrderedMap::new();
    from_c.insert("D".to_string(), vec![4usize]);
    map.insert("A".to_string(), from_a);
    map.insert("C".to_string(), from_c);
    map.insert("B".to_string(), from_b);
    map
}

#[test]
fn test_simple() {
    let components = find_route_components_used_in_stop_list(
        &strings(&["a", "b", "c", "d"]),
        &lists(&[&["b", "a"], &["a", "b"], &["b", "c", "d"], &["b", "d"]]),
    );
    assert_eq!(components, Some(vec![1, 2]));
}

#[test]
fn test_real_route_1() {
    let components = find_route_components_used_in_stop_list(
        &strings(&[
            "3050", "3052", "3054", "3056", "3058", "3060", "3062", "3064", "3066", "3068",
            "3070", "3072", "3074", "3076", "3078", /* End 12, Start 11*/ "3080",
            /* End 11, Start 8 */ "3081", "3252", "3254", "3256", "3258", "5486", "5488",
            "5490", "5492", "5494", "5496", "5498", "5500", "5502", "5506", "5508", "5510",
            "5513", "5514", "5516",
        ]),
        &lists(&[
            &[
                "7158", "7134", "7133", "7132", "7131", "7129", "7128", "7126", "7125", "7124",
                "7123", "7122", "7121", "7120", "7018", "7017", "7016", "7015", "7014", "7013",
                "7012", "5000",
            ][..],
            &["5000", "5002", "5515", "5006", "5008", "5010", "5012", "5014", "5016"],
            &[
                "5016", "5018", "5020", "5022", "5024", "5025", "5026", "5028", "3260", "3262",
                "3264", "3266", "3268", "3000",
            ],
            &["3000", "3010"],
            &["3010", "3270", "3271", "3272", "3273", "3274", "3275", "3276", "3277", "3279"],
            &[
                "3000", "3400", "3402", "3404", "3406", "3408", "3410", "3412", "3414", "3416",
                "3418", "3420", "3422", "3424", "3426", "3428", "3430", "3432", "3450", "3434",
                "3451",
            ],
            &[
                "3010", "3012", "3014", "3016", "3018", "3020", "3022", "3024", "3026", "3028",
                "3030", "3034", "3036", "3038", "3040",
            ],
            &[
                "3451", "3435", "3448", "3452", "3454", "3456", "3458", "3460", "3462", "3464",
                "3466", "3468", "3470", "3472", "3474", "3476", "3478", "3480", "3482", "3081",
            ],
            &[
                "3081", "3252", "3254", "3256", "3258", "5486", "5488", "5490", "5492", "5494",
                "5496", "5498", "5500", "5502", "5506", "5508", "5510", "5513", "5514", "5516",
            ],
            &[
                "5516", "6012", "6013", "6014", "6015", "6016", "6055", "6119", "6120", "6121",
                "6123", "6124", "6125", "6126", "6127", "6128", "6129", "6131", "6132", "6133",
                "6134", "6158",
            ],
            &[
                "3297", "3299", "3218", "3234", "3236", "3238", "3240", "3242", "3244", "3246",
                "3080",
            ],
            &["3080", "3081"],
            &[
                "3050", "3052", "3054", "3056", "3058", "3060", "3062", "3064", "3066", "3068",
                "3070", "3072", "3074", "3076", "3078", "3080",
            ],
        ]),
    );
    assert_eq!(components, Some(vec![12, 11, 8]));
}

#[test]
fn cover_fails_where_nothing_matches() {
    let components = lists(&[&["a", "b"], &["c", "d"]]);
    assert_eq!(find_route_components_used_in_stop_list(&strings(&["a", "b", "c"]), &components), None);
    assert_eq!(find_route_components_used_in_stop_list(&strings(&["a"]), &components), Some(vec![]));
    assert_eq!(find_route_components_used_in_stop_list(&[], &components), Some(vec![]));
}

#[test]
fn short_components_match_nowhere() {
    let components = lists(&[&[], &["a"], &["a", "b"]]);
    assert_eq!(
        find_route_components_used_in_stop_list(&strings(&["a", "b"]), &components),
        Some(vec![2])
    );
}

#[test]
fn routes_cover_a_trip_by_their_stops() {
    let route = |stops: &[&str]| Route {
        start_id: stops[0].to_string(),
        end_id: stops[stops.len() - 1].to_string(),
        id: stops.join("-"),
        route: vec![],
        stops: strings(stops),
    };
    let routes = vec![route(&["b", "c"]), route(&["a", "b"]), route(&["c", "d", "e"])];
    assert_eq!(
        get_route_for_timetabled_service(&strings(&["a", "b", "c", "d", "e"]), &routes),
        Some(vec![1, 0, 2])
    );
}

#[test]
fn segments_are_found_by_their_numbers() {
    let map = sample_map();
    let ends = reverse_map_start_to_end(&map);
    assert_eq!(ends.len(), 5);
    let a = "A".to_string();
    let b = "B".to_string();
    let c = "C".to_string();
    let d = "D".to_string();
    assert_eq!(ends[&0], (&a, &b));
    assert_eq!(ends[&1], (&a, &b));
    assert_eq!(ends[&2], (&a, &c));
    assert_eq!(ends[&3], (&b, &c));
    assert_eq!(ends[&4], (&c, &d));
}

#[test]
fn common_segments_are_cut_from_a_trip() {
    let map = sample_map();
    let ends = reverse_map_start_to_end(&map);
    let trip = strings(&["A", "x", "B", "y", "C", "z", "D"]);
    assert_eq!(
        prune_common_segments_from_route(&trip, &ends, &vec![0], &vec![4]),
        Some(strings(&["B", "y", "C"]))
    );
    assert_eq!(
        prune_common_segments_from_route(&trip, &ends, &vec![0, 3], &vec![]),
        Some(strings(&["C", "z", "D"]))
    );
    assert_eq!(
        prune_common_segments_from_route(&trip, &ends, &vec![0, 3, 4], &vec![]),
        Some(vec![])
    );
    assert_eq!(
        prune_common_segments_from_route(&trip, &ends, &vec![], &vec![3, 4]),
        Some(strings(&["A", "x", "B"]))
    );
    assert_eq!(prune_common_segments_from_route(&trip, &ends, &vec![3], &vec![]), None);
    assert_eq!(prune_common_segments_from_route(&trip, &ends, &vec![9], &vec![]), None);
    assert_eq!(prune_common_segments_from_route(&trip, &ends, &vec![], &vec![0]), None);
}

fn position(lat: i32, lon: i32) -> Position {
    Position { lat, lon }
}

#[test]
fn test_closest_point() {
    let target = &position(1, 1);
    let points = [(position(2, 2), "a"), (position(3, 1), "b"), (position(5, 5), "c")];
    assert_eq!(closest_point(target, &points[0..0]), None);

    let (point, _dist, id) = closest_point(target, &points).unwrap();
    assert_eq!((*point, *id), points[0]);

    let (point, _dist, id) = closest_point(target, &points[1..]).unwrap();
    assert_eq!((*point, *id), points[1]);
}

#[test]
fn closest_point_keeps_the_first_of_equals() {
    let points = [(position(0, 3), "a"), (position(3, 0), "b"), (position(0, -3), "c")];
    assert_eq!(closest_point(&position(0, 0), &points), Some((&points[0].0, 3, &"a")));
    assert_eq!(closest_point(&position(3, 1), &points), Some((&points[1].0, 1, &"b")));
}

#[test]
fn route_maps_are_gathered_by_their_ends() {
    let mut stops: OrderedMap<Position> = OrderedMap::new();
    stops.insert("C".to_string(), position(0, 200));
    stops.insert("A".to_string(), position(0, 0));
    stops.insert("B".to_string(), position(0, 100));
    let paths = vec![
        vec![position(1, 1), position(0, 50), position(2, 99)],
        vec![position(0, 98), position(0, 210)],
        vec![position(-1, 0), position(0, 120)],
        vec![],
        vec![position(0, 149)],
    ];
    let map = build_start_end_map(&stops, &paths);
    assert_eq!(map.len(), 2);
    let from_a = map.get("A").unwrap();
    assert_eq!(from_a.len(), 1);
    assert_eq!(from_a.get("B"), Some(&vec![0, 2]));
    let from_b = map.get("B").unwrap();
    assert_eq!(from_b.get("C"), Some(&vec![1]));
    assert_eq!(from_b.get("B"), Some(&vec![4]));
    assert_eq!(build_start_end_map(&OrderedMap::new(), &paths).len(), 0);
}
