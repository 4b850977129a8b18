//! Listing every chain of segments that a trip may follow.

use crate::builder::resolver::{
    find_position_from, first_position_from, lemma_first_position_from,
};
use crate::data::route::id_views;
use crate::ordered_map::OrderedMap;
use crate::utils::index_lists;
use vstd::prelude::*;
use vstd::slice::slice_subrange;

verus! {

/// The numbers of the segments by the stop at which they start, and then by
/// the stop at which they end.
pub type StartEndRouteMap = OrderedMap<OrderedMap<Vec<usize>>>;

/// Each chain of `partial` with `segment` put before it.
pub open spec fn with_first(segment: usize, partial: Seq<Seq<usize>>) -> Seq<Seq<usize>> {
    Seq::new(partial.len(), |i: int| seq![segment] + partial[i])
}

/// The chains that start with one of the first `n` of `segments` and go on
/// as one of `partial` does: for each segment in turn, each chain of
/// `partial` in turn.
pub open spec fn chains_of_segments(
    segments: Seq<usize>,
    partial: Seq<Seq<usize>>,
    n: nat,
) -> Seq<Seq<usize>>
    decreases n,
{
    if n == 0 {
        Seq::<Seq<usize>>::empty()
    } else {
        chains_of_segments(segments, partial, (n - 1) as nat) + with_first(segments[n - 1], partial)
    }
}

/// The chains that start with a segment to the end stop at position `e` of
/// `ends`. There are none where the trip does not name that stop, or names
/// it first. Where the trip names it last, each segment is a chain; else
/// each segment goes on as each chain from that stop does.
pub open spec fn chains_of_end(
    route: Seq<Seq<char>>,
    map: StartEndRouteMap,
    ends: OrderedMap<Vec<usize>>,
    e: int,
) -> Seq<Seq<usize>>
    decreases route.len(), 0nat, 0nat,
{
    let end = ends.keys()[e];
    let segments = ends@[end]@;
    match first_position_from(route, end, 0) {
        Some(pos) => if 0 < pos < route.len() {
            let partial = if pos == route.len() - 1 {
                seq![Seq::<usize>::empty()]
            } else {
                spec_generate_routes_for(route.skip(pos), map)
            };
            chains_of_segments(segments, partial, segments.len())
        } else {
            Seq::<Seq<usize>>::empty()
        },
        None => Seq::<Seq<usize>>::empty(),
    }
}

/// The chains that start with a segment to one of the first `e` end stops.
pub open spec fn chains_upto(
    route: Seq<Seq<char>>,
    map: StartEndRouteMap,
    ends: OrderedMap<Vec<usize>>,
    e: nat,
) -> Seq<Seq<usize>>
    decreases route.len(), 1nat, e,
{
    if e == 0 {
        Seq::<Seq<usize>>::empty()
    } else {
        chains_upto(route, map, ends, (e - 1) as nat) + chains_of_end(route, map, ends, e - 1)
    }
}

/// Every chain of segments that leads from the first stop of the trip to
/// its last by way of stops that the trip names, each chain as the numbers
/// of its segments. The end stops are taken in the order of their keys, and
/// a stop counts where the trip names it first.
pub open spec fn spec_generate_routes_for(
    route: Seq<Seq<char>>,
    map: StartEndRouteMap,
) -> Seq<Seq<usize>>
    decreases route.len(), 2nat, 0nat,
{
    if route.len() == 0 || !map@.contains_key(route[0]) {
        Seq::<Seq<usize>>::empty()
    } else {
        let ends = map@[route[0]];
        chains_upto(route, map, ends, ends.keys().len())
    }
}

/// Lists every chain of segments that a trip may follow. `map_start_to_ends`
/// holds the numbers of the segments by the stops at which they start and
/// end. A chain starts with a segment from the first stop of the trip to a
/// stop that the trip names later, and goes on from there in the same way
/// up to the last stop.
pub fn generate_routes_for(route: &[String], map_start_to_ends: &StartEndRouteMap) -> (r: Vec<
    Vec<usize>,
>)
    ensures
        index_lists(r@) == spec_generate_routes_for(id_views(route@), *map_start_to_ends),
    decreases route@.len(),
{
    let ghost ids = id_views(route@);
    let mut current_routes: Vec<Vec<usize>> = Vec::new();
    if route.len() == 0 {
        assert(index_lists(current_routes@) =~= Seq::<Seq<usize>>::empty());
        return current_routes;
    }
    let ends = match map_start_to_ends.get(route[0].as_str()) {
        Some(e) => e,
        None => {
            assert(index_lists(current_routes@) =~= Seq::<Seq<usize>>::empty());
            return current_routes;
        },
    };
    let count: usize = ends.len();
    let mut e: usize = 0;
    assert(index_lists(current_routes@) =~= chains_upto(ids, *map_start_to_ends, *ends, 0));
    while e < count
        invariant
            e <= count,
            count == ends.keys().len(),
            ends.wf(),
            ids == id_views(route@),
            route@.len() > 0,
            index_lists(current_routes@) == chains_upto(ids, *map_start_to_ends, *ends, e as nat),
        decreases count - e,
    {
        let end = ends.key_at(e);
        let route_segments = ends.value_at(e);
        let ghost done = index_lists(current_routes@);
        proof {
            assert(ends@[ends.keys()[e as int]] == ends.values()[e as int]);
            lemma_first_position_from(ids, end@, 0);
        }
        match find_position_from(route, end, 0) {
            None => {
                assert(done + chains_of_end(ids, *map_start_to_ends, *ends, e as int) =~= done);
            },
            Some(pos) => {
                if pos == 0 {
                    assert(done + chains_of_end(ids, *map_start_to_ends, *ends, e as int)
                        =~= done);
                } else {
                    let partial_routes: Vec<Vec<usize>> = if pos == route.len() - 1 {
                        let mut only: Vec<Vec<usize>> = Vec::new();
                        only.push(Vec::new());
                        assert(index_lists(only@) =~= seq![Seq::<usize>::empty()]);
                        only
                    } else {
                        let rest = slice_subrange(route, pos, route.len());
                        assert(id_views(rest@) =~= ids.skip(pos as int));
                        generate_routes_for(rest, map_start_to_ends)
                    };
                    let ghost partial = index_lists(partial_routes@);
                    let ghost segments = route_segments@;
                    let mut s: usize = 0;
                    assert(done + chains_of_segments(segments, partial, 0) =~= done);
                    while s < route_segments.len()
                        invariant
                            s <= route_segments@.len(),
                            segments == route_segments@,
                            partial == index_lists(partial_routes@),
                            index_lists(current_routes@) == done + chains_of_segments(
                                segments,
                                partial,
                                s as nat,
                            ),
                        decreases route_segments@.len() - s,
                    {
                        let segment: usize = route_segments[s];
                        let ghost base = index_lists(current_routes@);
                        let ghost row = with_first(segment, partial);
                        let mut t: usize = 0;
                        assert(base + row.take(0) =~= base);
                        while t < partial_routes.len()
                            invariant
                                t <= partial_routes@.len(),
                                partial == index_lists(partial_routes@),
                                row == with_first(segment, partial),
                                index_lists(current_routes@) == base + row.take(t as int),
                            decreases partial_routes@.len() - t,
                        {
                            let partial_route = &partial_routes[t];
                            let mut new_route: Vec<usize> = Vec::new();
                            new_route.push(segment);
                            let mut u: usize = 0;
                            while u < partial_route.len()
                                invariant
                                    u <= partial_route@.len(),
                                    new_route@ == seq![segment] + partial_route@.take(u as int),
                                decreases partial_route@.len() - u,
                            {
                                new_route.push(partial_route[u]);
                                u += 1;
                                assert(new_route@ =~= seq![segment] + partial_route@.take(
                                    u as int,
                                ));
                            }
                            proof {
                                assert(partial_route@.take(u as int) =~= partial_route@);
                                assert(partial[t as int] == partial_route@);
                                assert(row[t as int] == new_route@);
                            }
                            let ghost held = index_lists(current_routes@);
                            current_routes.push(new_route);
                            assert(index_lists(current_routes@) =~= held.push(row[t as int]));
                            assert(base + row.take(t + 1) =~= (base + row.take(t as int)).push(
                                row[t as int],
                            ));
                            t += 1;
                        }
                        proof {
                            assert(row.take(t as int) =~= row);
                            assert(done + chains_of_segments(segments, partial, (s + 1) as nat)
                                =~= base + row);
                        }
                        s += 1;
                    }
                }
            },
        }
        e += 1;
    }
    current_routes
}

} // verus!
