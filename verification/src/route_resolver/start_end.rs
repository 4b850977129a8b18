//! Finding the two stops of each route map and gathering the route maps by
//! them.

use crate::geometry::{position_distance, Position};
use crate::ordered_map::OrderedMap;
use crate::route_resolver::stops::StartEndRouteMap;
use vstd::prelude::*;

verus! {

/// The positions of a list of points that carry a value each.
pub open spec fn positions_of<S>(points: Seq<(Position, S)>) -> Seq<Position> {
    Seq::new(points.len(), |i: int| points[i].0)
}

/// The index, among the first `n` of `positions`, of the one that lies
/// closest to `target`; of several such the first.
pub open spec fn closest_index(target: Position, positions: Seq<Position>, n: int) -> int
    decreases n,
{
    if n <= 1 {
        0
    } else {
        let best = closest_index(target, positions, n - 1);
        if position_distance(target, positions[n - 1]) < position_distance(
            target,
            positions[best],
        ) {
            n - 1
        } else {
            best
        }
    }
}

/// `closest_index` names one of the positions, and none of them lies
/// closer.
pub proof fn lemma_closest_index(target: Position, positions: Seq<Position>, n: int)
    requires
        1 <= n,
    ensures
        0 <= closest_index(target, positions, n) < n,
        forall|i: int|
            0 <= i < n ==> position_distance(target, positions[closest_index(target, positions, n)])
                <= position_distance(target, #[trigger] positions[i]),
    decreases n,
{
    if n > 1 {
        lemma_closest_index(target, positions, n - 1);
    }
}

/// The point that lies closest to `target`, with its distance and the value
/// that it carries; of several such points the first. Nothing where there
/// are no points.
pub fn closest_point<'a, S>(target: &Position, points: &'a [(Position, S)]) -> (r: Option<
    (&'a Position, u64, &'a S),
>)
    ensures
        points@.len() == 0 ==> r is None,
        points@.len() > 0 ==> (r matches Some(found) && {
            let i = closest_index(*target, positions_of(points@), points@.len() as int);
            &&& 0 <= i < points@.len()
            &&& *found.0 == points@[i].0
            &&& found.1 == position_distance(*target, points@[i].0)
            &&& *found.2 == points@[i].1
        }),
        r matches Some(found) ==> forall|i: int|
            0 <= i < points@.len() ==> found.1 <= position_distance(
                *target,
                (#[trigger] points@[i]).0,
            ),
{
    if points.len() == 0 {
        return None;
    }
    let ghost positions = positions_of(points@);
    proof {
        lemma_closest_index(*target, positions, points@.len() as int);
        assert forall|i: int| 0 <= i < points@.len() implies positions[i] == (
        #[trigger] points@[i]).0 by {}
    }
    let mut best: usize = 0;
    let mut best_dist: u64 = target.distance_to(&points[0].0);
    let mut k: usize = 1;
    while k < points.len()
        invariant
            1 <= k <= points@.len(),
            positions == positions_of(points@),
            best == closest_index(*target, positions, k as int),
            best < k,
            best_dist == position_distance(*target, positions[best as int]),
        decreases points@.len() - k,
    {
        let dist: u64 = target.distance_to(&points[k].0);
        assert(positions[k as int] == points@[k as int].0);
        if best_dist > dist {
            best = k;
            best_dist = dist;
        }
        k += 1;
    }
    assert(positions[best as int] == points@[best as int].0);
    Some((&points[best].0, best_dist, &points[best].1))
}

/// The stops at which a path starts and ends: for its first point and for
/// its last the stop that lies closest, of several such stops the first in
/// the order of the identifiers. Nothing where there is no stop or no point.
pub open spec fn ends_of_path(stops: OrderedMap<Position>, path: Seq<Position>) -> Option<
    (Seq<char>, Seq<char>),
> {
    if stops.keys().len() == 0 || path.len() == 0 {
        None
    } else {
        let count = stops.keys().len() as int;
        Some(
            (
                stops.keys()[closest_index(path[0], stops.values(), count)],
                stops.keys()[closest_index(path.last(), stops.values(), count)],
            ),
        )
    }
}

/// What a list of paths holds.
pub open spec fn path_views(paths: Seq<Vec<Position>>) -> Seq<Seq<Position>> {
    Seq::new(paths.len(), |i: int| paths[i]@)
}

/// The numbers of the first `n` paths that run from `start` to `end`, in
/// ascending order.
pub open spec fn paths_between(
    stops: OrderedMap<Position>,
    paths: Seq<Seq<Position>>,
    start: Seq<char>,
    end: Seq<char>,
    n: nat,
) -> Seq<usize>
    decreases n,
{
    if n == 0 {
        Seq::<usize>::empty()
    } else {
        let before = paths_between(stops, paths, start, end, (n - 1) as nat);
        if ends_of_path(stops, paths[n - 1]) == Some((start, end)) {
            before.push((n - 1) as usize)
        } else {
            before
        }
    }
}

/// The map lists numbers from `start` to `end`.
pub open spec fn lists_ends(map: StartEndRouteMap, start: Seq<char>, end: Seq<char>) -> bool {
    map@.contains_key(start) && map@[start]@.contains_key(end)
}

/// The numbers that the map lists from `start` to `end`.
pub open spec fn numbers_between(map: StartEndRouteMap, start: Seq<char>, end: Seq<char>) -> Seq<
    usize,
> {
    if lists_ends(map, start, end) {
        map@[start]@[end]@
    } else {
        Seq::<usize>::empty()
    }
}

/// The map lists a stop at which paths from `start` end.
pub open spec fn lists_start(map: StartEndRouteMap, start: Seq<char>) -> bool {
    exists|end: Seq<char>| lists_ends(map, start, end)
}

/// The map holds the first `n` paths by their two stops: between any two
/// stops the numbers of the paths that join them, in ascending order, and no
/// key without a path.
pub open spec fn is_start_end_map(
    map: StartEndRouteMap,
    stops: OrderedMap<Position>,
    paths: Seq<Seq<Position>>,
    n: nat,
) -> bool {
    &&& forall|start: Seq<char>, end: Seq<char>| #[trigger]
        numbers_between(map, start, end) == paths_between(stops, paths, start, end, n)
    &&& forall|start: Seq<char>, end: Seq<char>| #[trigger]
        lists_ends(map, start, end) ==> numbers_between(map, start, end).len() > 0
    &&& forall|start: Seq<char>| #[trigger] map@.contains_key(start) ==> lists_start(map, start)
}

/// The stops with their positions, in the order of their identifiers.
fn stop_points(stop_locations: &OrderedMap<Position>) -> (stops: Vec<(Position, String)>)
    ensures
        stop_locations.wf(),
        stops@.len() == stop_locations.keys().len(),
        positions_of(stops@) == stop_locations.values(),
        forall|i: int| 0 <= i < stops@.len() ==> (#[trigger] stops@[i]).1@ == stop_locations.keys()[i],
{
    let mut stops: Vec<(Position, String)> = Vec::new();
    let count: usize = stop_locations.len();
    let mut i: usize = 0;
    while i < count
        invariant
            i <= count,
            count == stop_locations.keys().len(),
            stop_locations.wf(),
            stops@.len() == i,
            forall|j: int|
                0 <= j < i ==> (#[trigger] stops@[j]).0 == stop_locations.values()[j]
                    && stops@[j].1@ == stop_locations.keys()[j],
        decreases count - i,
    {
        stops.push((*stop_locations.value_at(i), stop_locations.key_at(i).clone()));
        i += 1;
    }
    assert(positions_of(stops@) =~= stop_locations.values());
    stops
}

/// Finds for each path the stop at which it starts and the stop at which
/// it ends, each as the stop that lies closest to the end of the path, and
/// gathers the numbers of the paths by these two stops. A path without
/// points is passed over, and so are all paths where there is no stop.
pub fn build_start_end_map(
    stop_locations: &OrderedMap<Position>,
    route_maps: &[Vec<Position>],
) -> (map_start_to_ends: StartEndRouteMap)
    ensures
        is_start_end_map(
            map_start_to_ends,
            *stop_locations,
            path_views(route_maps@),
            route_maps@.len() as nat,
        ),
{
    let ghost paths = path_views(route_maps@);
    let mut map_start_to_ends: StartEndRouteMap = OrderedMap::new();
    let stops = stop_points(stop_locations);
    let mut i: usize = 0;
    while i < route_maps.len()
        invariant
            i <= route_maps@.len(),
            paths == path_views(route_maps@),
            stop_locations.wf(),
            stops@.len() == stop_locations.keys().len(),
            positions_of(stops@) == stop_locations.values(),
            forall|k: int|
                0 <= k < stops@.len() ==> (#[trigger] stops@[k]).1@ == stop_locations.keys()[k],
            is_start_end_map(map_start_to_ends, *stop_locations, paths, i as nat),
        decreases route_maps@.len() - i,
    {
        let path = &route_maps[i];
        let ghost before = map_start_to_ends;
        assert(paths[i as int] == path@);
        if stops.len() > 0 && path.len() > 0 {
            let first = closest_point(&path[0], stops.as_slice()).unwrap();
            let last = closest_point(&path[path.len() - 1], stops.as_slice()).unwrap();
            let start_key = first.2.clone();
            let end_key = last.2.clone();
            proof {
                assert(path@.last() == path@[path@.len() - 1]);
                assert(ends_of_path(*stop_locations, path@) == Some((start_key@, end_key@)));
            }
            let mut ends: OrderedMap<Vec<usize>> = match map_start_to_ends.remove(
                start_key.as_str(),
            ) {
                Some(ends) => ends,
                None => OrderedMap::new(),
            };
            let ghost ends_before = ends;
            let mut list: Vec<usize> = match ends.remove(end_key.as_str()) {
                Some(list) => list,
                None => Vec::new(),
            };
            list.push(i);
            ends.insert(end_key, list);
            map_start_to_ends.insert(start_key, ends);
            proof {
                let s0 = start_key@;
                let e0 = end_key@;
                assert forall|start: Seq<char>, end: Seq<char>| #[trigger]
                    numbers_between(map_start_to_ends, start, end) == paths_between(
                        *stop_locations,
                        paths,
                        start,
                        end,
                        (i + 1) as nat,
                    ) by {
                    assert(numbers_between(before, start, end) == paths_between(
                        *stop_locations,
                        paths,
                        start,
                        end,
                        i as nat,
                    ));
                    if start == s0 && end != e0 {
                        assert(ends@.contains_key(end) == ends_before@.contains_key(end));
                    }
                }
                assert forall|start: Seq<char>, end: Seq<char>| #[trigger]
                    lists_ends(map_start_to_ends, start, end) implies numbers_between(
                    map_start_to_ends,
                    start,
                    end,
                ).len() > 0 by {
                    if !(start == s0 && end == e0) {
                        if start == s0 {
                            assert(ends@.contains_key(end) == ends_before@.contains_key(end));
                        }
                        assert(lists_ends(before, start, end));
                        assert(numbers_between(before, start, end).len() > 0);
                    }
                }
                assert forall|start: Seq<char>| #[trigger]
                    map_start_to_ends@.contains_key(start) implies lists_start(
                    map_start_to_ends,
                    start,
                ) by {
                    if start == s0 {
                        assert(lists_ends(map_start_to_ends, s0, e0));
                    } else {
                        assert(lists_start(before, start));
                        let end = choose|end: Seq<char>| lists_ends(before, start, end);
                        assert(lists_ends(map_start_to_ends, start, end));
                    }
                }
            }
        } else {
            proof {
                assert(ends_of_path(*stop_locations, path@) is None);
                assert forall|start: Seq<char>, end: Seq<char>| #[trigger]
                    numbers_between(map_start_to_ends, start, end) == paths_between(
                        *stop_locations,
                        paths,
                        start,
                        end,
                        (i + 1) as nat,
                    ) by {
                    assert(numbers_between(before, start, end) == paths_between(
                        *stop_locations,
                        paths,
                        start,
                        end,
                        i as nat,
                    ));
                }
            }
        }
        i += 1;
    }
    map_start_to_ends
}

} // verus!
