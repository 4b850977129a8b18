//! The stops that an assembled route names are the stops of the trip.

use crate::builder::assembler::{
    chain_fits, first_point_taken, flattened_upto, hop_fits, hop_part, hop_points, hop_start,
    lemma_matched_at, lemma_resolve_sound, lemma_sound_chain_fits, lemma_stops_covered_reverse,
    lemma_stops_covered_take, matched_at, cannot_segment, spec_find_route,
};
use crate::builder::resolver::{
    best_of, candidate_total, chain_sound, check_fits, lemma_best_of_sound, lemma_candidate_sound,
    lemma_checks_fit, lemma_do_find_route_sound, resolved_stops, spec_do_find_route,
    spec_find_next_checks, spec_resolve, stops_covered, NextCheckView,
};
use crate::builder::snapper::strictly_increasing;
use crate::data::route::{route_views, PointView, Route, RouteView};
use crate::data::stop::Stop;
use crate::data_utils::{lists_pair, RoutesByEnd, RoutesByStartEnd, StopList};
use vstd::prelude::*;

verus! {

/// The stops that the points of a geometry name, in the order of the points.
pub open spec fn annotations(points: Seq<PointView>) -> Seq<Seq<char>>
    decreases points.len(),
{
    if points.len() == 0 {
        Seq::<Seq<char>>::empty()
    } else {
        match points.last().stop {
            Some(stop) => annotations(points.drop_last()).push(stop),
            None => annotations(points.drop_last()),
        }
    }
}

/// The geometry of a segment names the stop at which it starts on its first
/// point, the stop at which it ends on its last point, and no stop between.
pub open spec fn tagged_at_ends(segment: RouteView, start: Seq<char>, end: Seq<char>) -> bool {
    &&& segment.route.len() >= 2
    &&& segment.route[0].stop == Some(start)
    &&& segment.route.last().stop == Some(end)
    &&& forall|q: int| 0 < q < segment.route.len() - 1 ==> (#[trigger] segment.route[q]).stop is None
}

/// Hop `g` of a chain, which lists the last hop first, names the stops of
/// the trip at which it starts and ends on the first and the last point of
/// its segment, and no stop between.
pub open spec fn hop_tagged(
    ids: Seq<Seq<char>>,
    chain: (nat, Seq<Route>, Seq<Seq<usize>>),
    g: int,
) -> bool {
    let from = stops_covered(chain.2.skip(g + 1)) as int;
    let between = chain.2[g].len() as int;
    tagged_at_ends(chain.1[g]@, ids[from], ids[from + between + 1])
}

/// Every segment of the chain names the two stops of its hop at its ends
/// and no stop between.
pub open spec fn chain_tagged(ids: Seq<Seq<char>>, chain: (nat, Seq<Route>, Seq<Seq<usize>>)) -> bool {
    forall|g: int| 0 <= g < chain.1.len() ==> #[trigger] hop_tagged(ids, chain, g)
}

/// Every segment of `routes` names the stop at which it starts on its first
/// point, the stop at which it ends on its last point, and no stop between.
pub open spec fn segments_tagged(routes: Seq<Route>) -> bool {
    forall|h: int|
        0 <= h < routes.len() ==> tagged_at_ends(
            (#[trigger] routes[h])@,
            routes[h].start_id@,
            routes[h].end_id@,
        )
}

/// Every segment of the catalogue stands under the two stops that it names
/// as its own.
pub open spec fn catalogue_keyed(catalogue: RoutesByStartEnd) -> bool {
    forall|start: Seq<char>, end: Seq<char>, j: int|
        lists_pair(catalogue, start, end) && 0 <= j < catalogue@[start]@[end]@.len() ==> {
            let segment = #[trigger] catalogue@[start]@[end]@[j];
            segment.start_id@ == start && segment.end_id@ == end
        }
}

/// No stop of a hop is snapped onto the last point of its segment.
pub open spec fn ends_kept(routes: Seq<Route>, idxs: Seq<Seq<usize>>) -> bool {
    forall|h: int|
        0 <= h < idxs.len() && (#[trigger] idxs[h]).len() > 0 ==> idxs[h].last() + 1
            < routes[h].route@.len()
}

/// The catalogue lists `segment` among the segments from `start` to `end`.
pub open spec fn in_catalogue(
    catalogue: RoutesByStartEnd,
    start: Seq<char>,
    end: Seq<char>,
    segment: Route,
) -> bool {
    &&& lists_pair(catalogue, start, end)
    &&& exists|j: int|
        0 <= j < catalogue@[start]@[end]@.len() && #[trigger] catalogue@[start]@[end]@[j]
            == segment
}

/// Hop `g` of a chain, which lists the last hop first, is a segment of the
/// catalogue between the two stops of the trip at which the hop starts and
/// ends.
pub open spec fn link_at(
    ids: Seq<Seq<char>>,
    catalogue: RoutesByStartEnd,
    chain: (nat, Seq<Route>, Seq<Seq<usize>>),
    g: int,
) -> bool {
    let from = stops_covered(chain.2.skip(g + 1)) as int;
    let between = chain.2[g].len() as int;
    &&& from + between + 1 < ids.len()
    &&& in_catalogue(catalogue, ids[from], ids[from + between + 1], chain.1[g])
}

/// Every hop of a chain is a segment of the catalogue between its stops.
pub open spec fn chain_linked(
    ids: Seq<Seq<char>>,
    catalogue: RoutesByStartEnd,
    chain: (nat, Seq<Route>, Seq<Seq<usize>>),
) -> bool {
    forall|g: int| 0 <= g < chain.1.len() ==> #[trigger] link_at(ids, catalogue, chain, g)
}

/// What taking a fitting step gives is a linked chain.
proof fn lemma_candidate_linked(
    route: Seq<Seq<char>>,
    stops: Seq<Stop>,
    catalogue: RoutesByStartEnd,
    possible_ends: RoutesByEnd,
    check: NextCheckView,
)
    requires
        route.len() == stops.len(),
        route.len() <= usize::MAX,
        route.len() > 1,
        catalogue@.contains_key(route[0]),
        possible_ends == catalogue@[route[0]],
        check_fits(check, route, possible_ends),
    ensures
        candidate_total(route, stops, catalogue, possible_ends, check) matches Some(chain)
            ==> chain_linked(route, catalogue, chain),
    decreases route.len(), 0nat, 0nat,
{
    let ns = check.0 as int;
    let rest_route = route.skip(ns);
    let rest_stops = stops.skip(ns);
    lemma_do_find_route_linked(rest_route, rest_stops, catalogue);
    lemma_do_find_route_sound(rest_route, rest_stops, catalogue);
    if candidate_total(route, stops, catalogue, possible_ends, check) is Some {
        let rest = spec_do_find_route(rest_route, rest_stops, catalogue)->Ok_0;
        let segment = possible_ends@[check.1.0]@[check.1.1 as int];
        let chain = candidate_total(route, stops, catalogue, possible_ends, check)->Some_0;
        assert(chain.1 == rest.1.push(segment));
        assert(chain.2 == rest.2.push(check.3));
        assert forall|g: int| 0 <= g < chain.1.len() implies #[trigger] link_at(
            route,
            catalogue,
            chain,
            g,
        ) by {
            if g == rest.1.len() {
                assert(chain.2.skip(g + 1) =~= Seq::<Seq<usize>>::empty());
                assert(chain.2[g] == check.3);
                assert(chain.1[g] == segment);
                assert(lists_pair(catalogue, route[0], route[ns]));
                assert(catalogue@[route[0]]@[route[ns]]@[check.1.1 as int] == segment);
            } else {
                let tail = rest.2.skip(g + 1);
                assert(chain.2.skip(g + 1) =~= tail.push(check.3));
                assert(tail.push(check.3).drop_last() =~= tail);
                assert(link_at(rest_route, catalogue, rest, g));
                assert(chain.2[g] == rest.2[g]);
                assert(chain.1[g] == rest.1[g]);
                let from = stops_covered(tail) as int;
                let between = rest.2[g].len() as int;
                assert(rest_route[from] == route[from + ns]);
                assert(rest_route[from + between + 1] == route[from + ns + between + 1]);
            }
        }
    }
}

/// The best of what fitting steps give is a linked chain.
proof fn lemma_best_of_linked(
    route: Seq<Seq<char>>,
    stops: Seq<Stop>,
    catalogue: RoutesByStartEnd,
    possible_ends: RoutesByEnd,
    checks: Seq<NextCheckView>,
    n: nat,
)
    requires
        route.len() == stops.len(),
        route.len() <= usize::MAX,
        route.len() > 1,
        catalogue@.contains_key(route[0]),
        possible_ends == catalogue@[route[0]],
        n <= checks.len(),
        forall|k: int| 0 <= k < checks.len() ==> check_fits(#[trigger] checks[k], route, possible_ends),
    ensures
        best_of(route, stops, catalogue, possible_ends, checks, n) matches Some(chain)
            ==> chain_linked(route, catalogue, chain),
    decreases route.len(), 1nat, n,
{
    if n > 0 {
        lemma_best_of_linked(route, stops, catalogue, possible_ends, checks, (n - 1) as nat);
        lemma_candidate_linked(route, stops, catalogue, possible_ends, checks[n - 1]);
    }
}

/// Every hop of the chain that the search finds is a segment of the
/// catalogue between the stops of the trip at which the hop starts and ends.
pub proof fn lemma_do_find_route_linked(
    route: Seq<Seq<char>>,
    stops: Seq<Stop>,
    catalogue: RoutesByStartEnd,
)
    requires
        route.len() == stops.len(),
        route.len() <= usize::MAX,
    ensures
        spec_do_find_route(route, stops, catalogue) matches Ok(chain) ==> chain_linked(
            route,
            catalogue,
            chain,
        ),
    decreases route.len(), 2nat, 0nat,
{
    if route.len() > 1 && catalogue@.contains_key(route[0]) {
        let possible_ends = catalogue@[route[0]];
        let checks = spec_find_next_checks(route, stops, possible_ends);
        lemma_checks_fit(route, stops, possible_ends, possible_ends.keys().len());
        lemma_best_of_linked(route, stops, catalogue, possible_ends, checks, checks.len());
    }
}

/// The stops that two geometries name, one after the other.
pub proof fn lemma_annotations_concat(a: Seq<PointView>, b: Seq<PointView>)
    ensures
        annotations(a + b) == annotations(a) + annotations(b),
    decreases b.len(),
{
    if b.len() == 0 {
        assert(a + b =~= a);
        assert(annotations(a) + annotations(b) =~= annotations(a));
    } else {
        lemma_annotations_concat(a, b.drop_last());
        assert((a + b).drop_last() =~= a + b.drop_last());
        assert((a + b).last() == b.last());
        match b.last().stop {
            Some(stop) => {
                assert(annotations(a) + annotations(b.drop_last()).push(stop) =~= (annotations(a)
                    + annotations(b.drop_last())).push(stop));
            },
            None => {},
        }
    }
}

/// Up to the point `q` of a hop, the assembled geometry names the stops
/// that were snapped before `q`, and no others.
proof fn lemma_hop_annotations(
    route: RouteView,
    idxs: Seq<usize>,
    names: Seq<Seq<char>>,
    start: Seq<char>,
    end: Seq<char>,
    q: int,
    t: int,
)
    requires
        tagged_at_ends(route, start, end),
        hop_fits(route, idxs),
        names.len() == idxs.len(),
        !first_point_taken(idxs),
        1 <= q <= route.route.len() - 1,
        0 <= t <= idxs.len(),
        t > 0 ==> idxs[t - 1] < q,
        t < idxs.len() ==> idxs[t] >= q,
    ensures
        annotations(hop_points(route, idxs, names).subrange(1, q)) == names.take(t),
    decreases q,
{
    let whole = hop_points(route, idxs, names);
    if q == 1 {
        if t > 0 {
            if t - 1 > 0 {
                assert(idxs[0] < idxs[t - 1]);
            }
            assert(false);
        }
        assert(whole.subrange(1, 1) =~= Seq::<PointView>::empty());
        assert(names.take(0) =~= Seq::<Seq<char>>::empty());
    } else {
        let p = q - 1;
        let upto = whole.subrange(1, q);
        assert(upto.drop_last() =~= whole.subrange(1, p));
        assert(upto.last() == whole[p]);
        if t > 0 && idxs[t - 1] == p {
            if t - 1 > 0 {
                assert(idxs[t - 2] < idxs[t - 1]);
            }
            lemma_hop_annotations(route, idxs, names, start, end, p, t - 1);
            lemma_matched_at(idxs, t - 1);
            assert(whole[p].stop == Some(names[t - 1]));
            assert(names.take(t) =~= names.take(t - 1).push(names[t - 1]));
        } else {
            lemma_hop_annotations(route, idxs, names, start, end, p, t);
            assert(matched_at(idxs, p) is None) by {
                if exists|c: int| 0 <= c < idxs.len() && #[trigger] idxs[c] == p {
                    let c = choose|c: int| 0 <= c < idxs.len() && #[trigger] idxs[c] == p;
                    if c < t {
                        if c < t - 1 {
                            assert(idxs[c] < idxs[t - 1]);
                        }
                    } else {
                        if t < c {
                            assert(idxs[t] < idxs[c]);
                        }
                    }
                }
            }
            assert(whole[p] == route.route[p]);
            assert(route.route[p].stop is None);
        }
    }
}

/// Beyond its first point a hop names the stops that were snapped onto it
/// and then the stop at which it ends.
proof fn lemma_hop_part_annotations(
    route: RouteView,
    idxs: Seq<usize>,
    names: Seq<Seq<char>>,
    start: Seq<char>,
    end: Seq<char>,
)
    requires
        tagged_at_ends(route, start, end),
        hop_fits(route, idxs),
        names.len() == idxs.len(),
        !first_point_taken(idxs),
        idxs.len() > 0 ==> idxs.last() + 1 < route.route.len(),
    ensures
        annotations(hop_points(route, idxs, names).skip(1)) == names.push(end),
{
    let whole = hop_points(route, idxs, names);
    let len = route.route.len() as int;
    let count = idxs.len() as int;
    lemma_hop_annotations(route, idxs, names, start, end, len - 1, count);
    let part = whole.skip(1);
    assert(part.drop_last() =~= whole.subrange(1, len - 1));
    assert(part.last() == whole[len - 1]);
    assert(matched_at(idxs, len - 1) is None) by {
        if exists|c: int| 0 <= c < idxs.len() && #[trigger] idxs[c] == len - 1 {
            let c = choose|c: int| 0 <= c < idxs.len() && #[trigger] idxs[c] == len - 1;
            if c < count - 1 {
                assert(idxs[c] < idxs[count - 1]);
            }
        }
    }
    assert(whole[len - 1] == route.route[len - 1]);
    assert(names.take(count) =~= names);
}

/// Hop `h` of a chain in the order of travel is ready to be named: its
/// segment names the stops of the trip at which the hop starts and ends, its
/// snapped points lie within the geometry, and none of them is the first
/// point or the last.
pub open spec fn hop_ready(
    ids: Seq<Seq<char>>,
    routes: Seq<RouteView>,
    idxs: Seq<Seq<usize>>,
    h: int,
) -> bool {
    let first = hop_start(idxs, h);
    let between = idxs[h].len() as int;
    &&& first + between < ids.len()
    &&& tagged_at_ends(routes[h], ids[first - 1], ids[first + between])
    &&& hop_fits(routes[h], idxs[h])
    &&& !first_point_taken(idxs[h])
    &&& between > 0 ==> idxs[h].last() + 1 < routes[h].route.len()
}

/// The geometry assembled from the first `n` hops names the stops of the
/// trip up to the end of the last of them.
proof fn lemma_flattened_annotations(
    ids: Seq<Seq<char>>,
    routes: Seq<RouteView>,
    idxs: Seq<Seq<usize>>,
    n: nat,
)
    requires
        1 <= n <= routes.len(),
        routes.len() == idxs.len(),
        forall|h: int| 0 <= h < n ==> #[trigger] hop_ready(ids, routes, idxs, h),
    ensures
        hop_start(idxs, n as int) <= ids.len(),
        annotations(flattened_upto(ids, routes, idxs, n)) == ids.take(hop_start(idxs, n as int)),
    decreases n,
{
    let h = n - 1;
    assert(hop_ready(ids, routes, idxs, h));
    let first = hop_start(idxs, h);
    let between = idxs[h].len() as int;
    let names = ids.subrange(first, first + between);
    lemma_stops_covered_take(idxs, h);
    lemma_hop_part_annotations(routes[h], idxs[h], names, ids[first - 1], ids[first + between]);
    let part = hop_part(ids, routes, idxs, h);
    assert(annotations(part) == names.push(ids[first + between]));
    if n == 1 {
        assert(idxs.take(0).len() == 0);
        assert(first == 1);
        let seed = seq![routes[0].route[0]];
        lemma_annotations_concat(seed, part);
        assert(seed.drop_last() =~= Seq::<PointView>::empty());
        assert(annotations(seed.drop_last()) =~= Seq::<Seq<char>>::empty());
        assert(seed.last() == routes[0].route[0]);
        assert(seed.last().stop == Some(ids[0]));
        assert(annotations(seed) =~= seq![ids[0]]);
        assert(seq![ids[0]] + names.push(ids[first + between]) =~= ids.take(
            hop_start(idxs, n as int),
        ));
    } else {
        lemma_flattened_annotations(ids, routes, idxs, (n - 1) as nat);
        let before = flattened_upto(ids, routes, idxs, (n - 1) as nat);
        lemma_annotations_concat(before, part);
        assert(ids.take(first) + names.push(ids[first + between]) =~= ids.take(
            hop_start(idxs, n as int),
        ));
    }
}

/// Round trip: where the route of a trip of more than one stop is rebuilt,
/// every segment of the chain names the two stops of its hop at its ends and
/// no stop between, and no stop of the trip is snapped onto the last point of
/// a segment, the stops that the assembled geometry names, read in the order
/// of its points, are the stops of the trip.
pub proof fn lemma_round_trip(ids: Seq<Seq<char>>, catalogue: RoutesByStartEnd, stops: StopList)
    requires
        1 < ids.len() <= usize::MAX,
        spec_find_route(ids, catalogue, stops) is Ok,
        spec_resolve(ids, catalogue, stops) matches Ok(chain) && ends_kept(chain.1, chain.2)
            && chain_tagged(ids, chain),
    ensures
        spec_find_route(ids, catalogue, stops) matches Ok(built) && annotations(built.1.route)
            == ids,
{
    let chain = spec_resolve(ids, catalogue, stops)->Ok_0;
    lemma_resolve_sound(ids, catalogue, stops);
    lemma_sound_chain_fits(ids.len(), chain);
    lemma_stops_covered_reverse(chain.2);
    let routes = route_views(chain.1.reverse());
    let idxs = chain.2.reverse();
    let hops = chain.1.len() as int;
    assert(!cannot_segment(idxs));
    assert(hops >= 1) by {
        if hops == 0 {
            assert(stops_covered(chain.2) == 0);
        }
    }
    assert forall|h: int| 0 <= h < hops implies #[trigger] hop_ready(ids, routes, idxs, h) by {
        let g = hops - 1 - h;
        assert(hop_tagged(ids, chain, g));
        assert(routes[h] == chain.1[g]@);
        assert(idxs[h] == chain.2[g]);
        let behind = chain.2.skip(g + 1);
        lemma_stops_covered_reverse(behind);
        assert(idxs.take(h) =~= behind.reverse());
        let from = stops_covered(behind) as int;
        let between = chain.2[g].len() as int;
        assert(hop_start(idxs, h) == from + 1);
        lemma_stops_covered_take(idxs, h);
        assert(from + 1 + between < ids.len());
        assert(hop_fits(routes[h], idxs[h]));
        if first_point_taken(idxs[h]) {
            assert(cannot_segment(idxs));
        }
        if between > 0 {
            assert(chain.2[g].last() + 1 < chain.1[g].route@.len());
        }
    }
    lemma_flattened_annotations(ids, routes, idxs, hops as nat);
    assert(idxs.take(hops) =~= idxs);
    assert(ids.take(ids.len() as int) =~= ids);
}

/// Round trip, from the segments' own stops: where the catalogue keeps every
/// segment under the two stops that it names as its own, the segments of the
/// chain name these two stops at their ends and no stop between, and no stop
/// of the trip is snapped onto the last point of a segment, the stops that
/// the assembled geometry names are the stops of the trip.
pub proof fn lemma_round_trip_by_own_stops(
    ids: Seq<Seq<char>>,
    catalogue: RoutesByStartEnd,
    stops: StopList,
)
    requires
        1 < ids.len() <= usize::MAX,
        catalogue_keyed(catalogue),
        spec_find_route(ids, catalogue, stops) is Ok,
        spec_resolve(ids, catalogue, stops) matches Ok(chain) && ends_kept(chain.1, chain.2)
            && segments_tagged(chain.1),
    ensures
        spec_find_route(ids, catalogue, stops) matches Ok(built) && annotations(built.1.route)
            == ids,
{
    let chain = spec_resolve(ids, catalogue, stops)->Ok_0;
    lemma_do_find_route_linked(ids, resolved_stops(ids, stops@), catalogue);
    assert forall|g: int| 0 <= g < chain.1.len() implies #[trigger] hop_tagged(ids, chain, g) by {
        assert(link_at(ids, catalogue, chain, g));
        let from = stops_covered(chain.2.skip(g + 1)) as int;
        let between = chain.2[g].len() as int;
        let start = ids[from];
        let end = ids[from + between + 1];
        let j = choose|j: int|
            0 <= j < catalogue@[start]@[end]@.len() && #[trigger] catalogue@[start]@[end]@[j]
                == chain.1[g];
        assert(catalogue@[start]@[end]@[j].start_id@ == start);
        assert(tagged_at_ends(chain.1[g]@, chain.1[g].start_id@, chain.1[g].end_id@));
    }
    lemma_round_trip(ids, catalogue, stops);
}

} // verus!
