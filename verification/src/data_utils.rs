//! The stop table and the catalogue of segments.

use crate::data::route::Route;
use crate::data::stop::Stop;
use crate::ordered_map::OrderedMap;
use vstd::prelude::*;

verus! {

/// The identifier of a stop.
pub type StopId = String;

/// The stops by their identifiers.
pub type StopList = OrderedMap<Stop>;

/// The segments that leave one stop, by the stop at which they end. Segments
/// with the same ends stand in the order in which they were given.
pub type RoutesByEnd = OrderedMap<Vec<Route>>;

/// The catalogue: the segments by the stop at which they start, and then by
/// the stop at which they end.
pub type RoutesByStartEnd = OrderedMap<RoutesByEnd>;

/// The segment `route` runs from `start` to `end`.
pub open spec fn joins(start: Seq<char>, end: Seq<char>) -> spec_fn(Route) -> bool {
    |route: Route| route.start_id@ == start && route.end_id@ == end
}

/// The catalogue lists segments from `start` to `end`.
pub open spec fn lists_pair(catalogue: RoutesByStartEnd, start: Seq<char>, end: Seq<char>) -> bool {
    catalogue@.contains_key(start) && catalogue@[start]@.contains_key(end)
}

/// The segments that the catalogue lists from `start` to `end`, in its
/// order.
pub open spec fn segments_between(
    catalogue: RoutesByStartEnd,
    start: Seq<char>,
    end: Seq<char>,
) -> Seq<Route> {
    if lists_pair(catalogue, start, end) {
        catalogue@[start]@[end]@
    } else {
        Seq::<Route>::empty()
    }
}

/// The catalogue lists a stop at which segments from `start` end.
pub open spec fn has_end(catalogue: RoutesByStartEnd, start: Seq<char>) -> bool {
    exists|end: Seq<char>| lists_pair(catalogue, start, end)
}

/// The catalogue holds exactly `routes`: between any two stops the segments
/// that join them, in the order of `routes`, and no key without a segment.
pub open spec fn is_catalogue_of(catalogue: RoutesByStartEnd, routes: Seq<Route>) -> bool {
    &&& forall|start: Seq<char>, end: Seq<char>| #[trigger]
        segments_between(catalogue, start, end) == routes.filter(joins(start, end))
    &&& forall|start: Seq<char>, end: Seq<char>| #[trigger]
        lists_pair(catalogue, start, end) ==> segments_between(catalogue, start, end).len() > 0
    &&& forall|start: Seq<char>| #[trigger]
        catalogue@.contains_key(start) ==> has_end(catalogue, start)
}

/// In the catalogue of `routes` every segment stands under the two stops
/// that it names as its own, and every one of `routes` stands under its two
/// stops.
pub proof fn lemma_catalogue_keys(catalogue: RoutesByStartEnd, routes: Seq<Route>)
    requires
        is_catalogue_of(catalogue, routes),
    ensures
        forall|start: Seq<char>, end: Seq<char>, j: int|
            lists_pair(catalogue, start, end) && 0 <= j < catalogue@[start]@[end]@.len() ==> {
                let segment = #[trigger] catalogue@[start]@[end]@[j];
                segment.start_id@ == start && segment.end_id@ == end && routes.contains(segment)
            },
        forall|i: int|
            0 <= i < routes.len() ==> segments_between(
                catalogue,
                (#[trigger] routes[i]).start_id@,
                routes[i].end_id@,
            ).contains(routes[i]),
{
    assert forall|start: Seq<char>, end: Seq<char>, j: int|
        lists_pair(catalogue, start, end) && 0 <= j < catalogue@[start]@[end]@.len() implies {
        let segment = #[trigger] catalogue@[start]@[end]@[j];
        segment.start_id@ == start && segment.end_id@ == end && routes.contains(segment)
    } by {
        let listed = segments_between(catalogue, start, end);
        assert(listed == routes.filter(joins(start, end)));
        let segment = catalogue@[start]@[end]@[j];
        assert(listed[j] == segment);
        assert(listed.contains(segment));
        routes.lemma_filter_pred(joins(start, end), j);
        routes.lemma_filter_contains_rev(joins(start, end), segment);
    }
    assert forall|i: int| 0 <= i < routes.len() implies segments_between(
        catalogue,
        (#[trigger] routes[i]).start_id@,
        routes[i].end_id@,
    ).contains(routes[i]) by {
        let start = routes[i].start_id@;
        let end = routes[i].end_id@;
        assert(segments_between(catalogue, start, end) == routes.filter(joins(start, end)));
        assert(joins(start, end)(routes[i]));
        routes.lemma_filter_contains(joins(start, end), i);
    }
}

/// Builds the catalogue of a service: groups the segments by the stops at
/// which they start and end. Segments that join the same two stops are all
/// kept, in the order in which they were given.
pub fn organise_routes(service_routes: Vec<Route>) -> (routes: RoutesByStartEnd)
    ensures
        is_catalogue_of(routes, service_routes@),
        routes.wf(),
        forall|start: Seq<char>| #[trigger]
            routes@.contains_key(start) ==> routes@[start].wf(),
{
    let ghost all = service_routes@;
    let mut routes: RoutesByStartEnd = OrderedMap::new();
    let mut rest = service_routes;
    let mut pending: Vec<Route> = Vec::new();
    // The segments are taken from the back and put in again from the back, so
    // that each is moved, not copied, and the first is handled first.
    while rest.len() > 0
        invariant
            rest@.len() <= all.len(),
            rest@ == all.take(rest@.len() as int),
            pending@.len() == all.len() - rest@.len(),
            forall|k: int| 0 <= k < pending@.len() ==> pending@[k] == all[all.len() - 1 - k],
        decreases rest@.len(),
    {
        let route = rest.pop().unwrap();
        pending.push(route);
    }
    let ghost done: int = 0;
    assert(all.take(0) =~= Seq::<Route>::empty());
    assert forall|start: Seq<char>, end: Seq<char>| #[trigger]
        segments_between(routes, start, end) == all.take(0).filter(joins(start, end)) by {
        reveal(Seq::filter);
    }
    while pending.len() > 0
        invariant
            0 <= done <= all.len(),
            pending@.len() == all.len() - done,
            forall|k: int| 0 <= k < pending@.len() ==> pending@[k] == all[all.len() - 1 - k],
            is_catalogue_of(routes, all.take(done)),
            routes.wf(),
            forall|start: Seq<char>| #[trigger]
                routes@.contains_key(start) ==> routes@[start].wf(),
        decreases pending@.len(),
    {
        let route = pending.pop().unwrap();
        assert(route == all[done]);
        let ghost before = routes;
        let start_key = route.start_id.clone();
        let end_key = route.end_id.clone();
        let mut ends: RoutesByEnd = match routes.remove(start_key.as_str()) {
            Some(ends) => ends,
            None => OrderedMap::new(),
        };
        let ghost ends_before = ends;
        let mut list: Vec<Route> = match ends.remove(end_key.as_str()) {
            Some(list) => list,
            None => Vec::new(),
        };
        let ghost list_before = list@;
        list.push(route);
        ends.insert(end_key, list);
        routes.insert(start_key, ends);
        proof {
            let s0 = route.start_id@;
            let e0 = route.end_id@;
            let seen = all.take(done);
            let now = all.take(done + 1);
            assert(now =~= seen.push(route));
            assert(now.drop_last() =~= seen);
            assert(segments_between(before, s0, e0) == seen.filter(joins(s0, e0)));
            assert(list_before == segments_between(before, s0, e0));
            assert forall|start: Seq<char>, end: Seq<char>| #[trigger]
                segments_between(routes, start, end) == now.filter(joins(start, end)) by {
                seen.lemma_filter_push(route, joins(start, end));
                assert(segments_between(before, start, end) == seen.filter(joins(start, end)));
                if start == s0 && end == e0 {
                    assert(joins(start, end)(route));
                } else {
                    assert(!joins(start, end)(route));
                    if start == s0 {
                        assert(ends@.contains_key(end) == ends_before@.contains_key(end));
                    }
                }
            }
            assert forall|start: Seq<char>, end: Seq<char>| #[trigger]
                lists_pair(routes, start, end) implies segments_between(routes, start, end).len()
                > 0 by {
                if !(start == s0 && end == e0) {
                    if start == s0 {
                        assert(ends@.contains_key(end) == ends_before@.contains_key(end));
                    }
                    assert(lists_pair(before, start, end));
                    assert(segments_between(before, start, end).len() > 0);
                }
            }
            assert forall|start: Seq<char>| #[trigger]
                routes@.contains_key(start) implies has_end(routes, start) by {
                if start == s0 {
                    assert(lists_pair(routes, s0, e0));
                } else {
                    assert(has_end(before, start));
                    let end = choose|end: Seq<char>| lists_pair(before, start, end);
                    assert(lists_pair(routes, start, end));
                }
            }
            done = done + 1;
        }
    }
    proof {
        assert(all.take(done) =~= all);
    }
    routes
}

/// The stop table is made of `stops`: it holds a stop under each identifier
/// that one of them bears, and of several that bear the same identifier the
/// last.
pub open spec fn is_table_of(table: StopList, stops: Seq<Stop>) -> bool {
    &&& forall|id: Seq<char>| #[trigger]
        table@.contains_key(id) <==> exists|i: int| 0 <= i < stops.len() && #[trigger] stops[i].sms@ == id
    &&& forall|i: int|
        0 <= i < stops.len() && (forall|j: int| i < j < stops.len() ==> stops[j].sms@ != stops[i].sms@)
            ==> table@[stops[i].sms@] == #[trigger] stops[i]
}

/// Builds the stop table: each stop under its identifier. Where several
/// stops bear the same identifier, the last one stands.
pub fn index_stops(stops: Vec<Stop>) -> (table: StopList)
    ensures
        is_table_of(table, stops@),
        table.wf(),
{
    let ghost all = stops@;
    let mut rest = stops;
    let mut pending: Vec<Stop> = Vec::new();
    while rest.len() > 0
        invariant
            rest@.len() <= all.len(),
            rest@ == all.take(rest@.len() as int),
            pending@.len() == all.len() - rest@.len(),
            forall|k: int| 0 <= k < pending@.len() ==> pending@[k] == all[all.len() - 1 - k],
        decreases rest@.len(),
    {
        let stop = rest.pop().unwrap();
        pending.push(stop);
    }
    let mut table: StopList = OrderedMap::new();
    let ghost done: int = 0;
    while pending.len() > 0
        invariant
            0 <= done <= all.len(),
            pending@.len() == all.len() - done,
            forall|k: int| 0 <= k < pending@.len() ==> pending@[k] == all[all.len() - 1 - k],
            is_table_of(table, all.take(done)),
            table.wf(),
        decreases pending@.len(),
    {
        let stop = pending.pop().unwrap();
        assert(stop == all[done]);
        let ghost before = table;
        let key = stop.sms.clone();
        table.insert(key, stop);
        proof {
            let seen = all.take(done);
            let now = all.take(done + 1);
            assert(now.len() == done + 1);
            assert(now[done] == stop);
            assert forall|id: Seq<char>| #[trigger]
                table@.contains_key(id) <==> exists|i: int|
                    0 <= i < now.len() && #[trigger] now[i].sms@ == id by {
                if before@.contains_key(id) {
                    let i = choose|i: int| 0 <= i < seen.len() && #[trigger] seen[i].sms@ == id;
                    assert(now[i].sms@ == id);
                }
                if exists|i: int| 0 <= i < now.len() && #[trigger] now[i].sms@ == id {
                    let i = choose|i: int| 0 <= i < now.len() && #[trigger] now[i].sms@ == id;
                    if i < done {
                        assert(seen[i].sms@ == id);
                    }
                }
            }
            assert forall|i: int|
                0 <= i < now.len() && (forall|j: int|
                    i < j < now.len() ==> now[j].sms@ != now[i].sms@) implies table@[now[i].sms@]
                == #[trigger] now[i] by {
                if i < done {
                    assert(now[done].sms@ != now[i].sms@);
                    assert(seen[i] == now[i]);
                    assert forall|j: int| i < j < seen.len() implies seen[j].sms@
                        != seen[i].sms@ by {
                        assert(now[j].sms@ != now[i].sms@);
                    }
                }
            }
            done = done + 1;
        }
    }
    proof {
        assert(all.take(done) =~= all);
    }
    table
}

} // verus!
