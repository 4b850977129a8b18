//! Flattening a chain of segments into one route.

use crate::builder::resolver::{
    chain_sound, lemma_do_find_route_sound, resolve, resolved_stops, spec_resolve,
    step_fits, stops_covered, RouteError, RouteErrorView, RouteFailure,
};
use crate::builder::snapper::strictly_increasing;
use crate::data::route::{
    clone_ids, id_views, point_views, route_views, PointView, Route, RouteSegment, RouteView,
};
use crate::data_utils::{RoutesByStartEnd, StopId, StopList};
use crate::utils::{index_lists, reverse_list};
use vstd::prelude::*;

verus! {

/// The snapped points of a hop lie within its geometry, each later than the
/// one before, and the geometry is not empty.
pub open spec fn hop_fits(route: RouteView, idxs: Seq<usize>) -> bool {
    &&& route.route.len() > 0
    &&& strictly_increasing(idxs)
    &&& forall|t: int| 0 <= t < idxs.len() ==> (#[trigger] idxs[t]) < route.route.len()
}

/// A chain, in the order of travel, fits a trip of `count` stops: each hop
/// has its snapped points, they lie within its geometry, and the trip has a
/// stop for each of them and for each end.
pub open spec fn chain_fits(count: nat, routes: Seq<RouteView>, idxs: Seq<Seq<usize>>) -> bool {
    &&& routes.len() == idxs.len()
    &&& forall|h: int| 0 <= h < routes.len() ==> hop_fits(#[trigger] routes[h], idxs[h])
    &&& stops_covered(idxs) < count
}

/// A stop of some hop was snapped onto the first point of its segment.
pub open spec fn cannot_segment(idxs: Seq<Seq<usize>>) -> bool {
    exists|h: int| 0 <= h < idxs.len() && first_point_taken(#[trigger] idxs[h])
}

/// The first snapped point of a hop is the first point of its segment.
pub open spec fn first_point_taken(idxs: Seq<usize>) -> bool {
    idxs.len() > 0 && idxs[0] == 0
}

/// The place in `idxs` of the point `q`, where a stop was snapped onto it.
pub open spec fn matched_at(idxs: Seq<usize>, q: int) -> Option<int> {
    if exists|t: int| 0 <= t < idxs.len() && #[trigger] idxs[t] == q {
        Some(choose|t: int| 0 <= t < idxs.len() && #[trigger] idxs[t] == q)
    } else {
        None
    }
}

/// The point `q` of a hop as the assembled route holds it: named after the
/// stop that was snapped onto it, where one was, else as the segment has it.
pub open spec fn hop_point(
    route: RouteView,
    idxs: Seq<usize>,
    names: Seq<Seq<char>>,
    q: int,
) -> PointView {
    match matched_at(idxs, q) {
        Some(t) => PointView { lat: route.route[q].lat, lon: route.route[q].lon, stop: Some(names[t]) },
        None => route.route[q],
    }
}

/// The geometry of a hop with the snapped stops named.
pub open spec fn hop_points(route: RouteView, idxs: Seq<usize>, names: Seq<Seq<char>>) -> Seq<
    PointView,
> {
    Seq::new(route.route.len(), |q: int| hop_point(route, idxs, names, q))
}

/// The position in the trip of the first stop snapped onto hop `h`.
pub open spec fn hop_start(idxs: Seq<Seq<usize>>, h: int) -> int {
    1 + stops_covered(idxs.take(h)) as int
}

/// What hop `h` adds to the assembled geometry: its points after the first,
/// with the snapped stops named after the stops of the trip.
pub open spec fn hop_part(
    ids: Seq<Seq<char>>,
    routes: Seq<RouteView>,
    idxs: Seq<Seq<usize>>,
    h: int,
) -> Seq<PointView> {
    hop_points(
        routes[h],
        idxs[h],
        ids.subrange(hop_start(idxs, h), hop_start(idxs, h) + idxs[h].len()),
    ).skip(1)
}

/// The assembled geometry of the first `n` hops: the first point of the
/// first segment, and then the part of each hop.
pub open spec fn flattened_upto(
    ids: Seq<Seq<char>>,
    routes: Seq<RouteView>,
    idxs: Seq<Seq<usize>>,
    n: nat,
) -> Seq<PointView>
    decreases n,
{
    if n == 0 {
        Seq::<PointView>::empty()
    } else if n == 1 {
        seq![routes[0].route[0]] + hop_part(ids, routes, idxs, 0)
    } else {
        flattened_upto(ids, routes, idxs, (n - 1) as nat) + hop_part(ids, routes, idxs, n - 1)
    }
}

/// The identifiers of the first `n` routes, joined by commas.
pub open spec fn joined_ids(routes: Seq<RouteView>, n: nat) -> Seq<char>
    decreases n,
{
    if n == 0 {
        Seq::<char>::empty()
    } else if n == 1 {
        routes[0].id
    } else {
        joined_ids(routes, (n - 1) as nat) + seq![','] + routes[n - 1].id
    }
}

/// The route assembled from a chain in the order of travel.
pub open spec fn spec_assemble(
    ids: Seq<Seq<char>>,
    routes: Seq<RouteView>,
    idxs: Seq<Seq<usize>>,
) -> RouteView {
    RouteView {
        start_id: ids.first(),
        end_id: ids.last(),
        id: joined_ids(routes, routes.len()),
        route: flattened_upto(ids, routes, idxs, routes.len()),
        stops: ids,
    }
}

/// In a list that ascends strictly, a point is matched at the place where
/// it stands.
pub proof fn lemma_matched_at(idxs: Seq<usize>, t: int)
    requires
        strictly_increasing(idxs),
        0 <= t < idxs.len(),
    ensures
        matched_at(idxs, idxs[t] as int) == Some(t),
{
    let q = idxs[t] as int;
    let c = choose|c: int| 0 <= c < idxs.len() && #[trigger] idxs[c] == q;
    if c < t {
        assert(idxs[c] < idxs[t]);
    } else if t < c {
        assert(idxs[t] < idxs[c]);
    }
}

/// Taking one more hop covers its snapped stops and its end.
pub proof fn lemma_stops_covered_take(idxs: Seq<Seq<usize>>, h: int)
    requires
        0 <= h < idxs.len(),
    ensures
        stops_covered(idxs.take(h + 1)) == stops_covered(idxs.take(h)) + idxs[h].len() + 1,
        stops_covered(idxs.take(h + 1)) <= stops_covered(idxs),
    decreases idxs.len() - h,
{
    assert(idxs.take(h + 1).drop_last() =~= idxs.take(h));
    assert(idxs.take(h + 1).last() == idxs[h]);
    if h + 1 < idxs.len() {
        lemma_stops_covered_take(idxs, h + 1);
    } else {
        assert(idxs.take(h + 1) =~= idxs);
    }
}

/// Puts copies of the points from `from` up to `to` behind `out`.
fn push_points(out: &mut Vec<RouteSegment>, points: &Vec<RouteSegment>, from: usize, to: usize)
    requires
        from <= to <= points@.len(),
    ensures
        final(out)@ == old(out)@ + points@.subrange(from as int, to as int),
{
    let mut q: usize = from;
    while q < to
        invariant
            from <= q <= to <= points@.len(),
            out@ == old(out)@ + points@.subrange(from as int, q as int),
        decreases to - q,
    {
        out.push(points[q].clone());
        q += 1;
        assert(out@ =~= old(out)@ + points@.subrange(from as int, q as int));
    }
    assert(points@.subrange(from as int, from as int) =~= Seq::<RouteSegment>::empty());
}

/// The identifiers of the routes, joined by commas.
pub fn join_ids(route_list: &Vec<Route>) -> (id: String)
    ensures
        id@ == joined_ids(route_views(route_list@), route_list@.len() as nat),
{
    let ghost routes = route_views(route_list@);
    let mut id = String::new();
    let mut h: usize = 0;
    while h < route_list.len()
        invariant
            h <= route_list@.len(),
            routes == route_views(route_list@),
            id@ == joined_ids(routes, h as nat),
        decreases route_list@.len() - h,
    {
        let ghost before = id@;
        if h > 0 {
            proof {
                reveal_strlit(",");
            }
            id.append(",");
            assert(id@ =~= before + seq![',']);
        }
        id.append(route_list[h].id.as_str());
        proof {
            assert(routes[h as int].id == route_list@[h as int].id@);
            if h == 0 {
                assert(id@ =~= routes[0].id);
            }
        }
        h += 1;
    }
    id
}

/// No stop is snapped onto a point from `lo` up to but not including `hi`,
/// where `lo` lies behind the point of the stop before place `t` and `hi`
/// is not behind the point of the stop at `t`.
proof fn lemma_unmatched_between(idxs: Seq<usize>, t: int, lo: int, hi: int, q: int)
    requires
        strictly_increasing(idxs),
        0 <= t <= idxs.len(),
        t > 0 ==> idxs[t - 1] < lo,
        t < idxs.len() ==> hi <= idxs[t],
        lo <= q < hi,
    ensures
        matched_at(idxs, q) is None,
{
    if exists|c: int| 0 <= c < idxs.len() && #[trigger] idxs[c] == q {
        let c = choose|c: int| 0 <= c < idxs.len() && #[trigger] idxs[c] == q;
        if c < t {
            if c < t - 1 {
                assert(idxs[c] < idxs[t - 1]);
            }
        } else {
            if t < c {
                assert(idxs[t] < idxs[c]);
            }
        }
    }
}

/// Flattens a chain of segments, given in the order of travel, into one
/// route from the first stop of the trip to its last. The geometry starts
/// with the first point of the first segment and goes on with the points of
/// each segment after its first; a point that a stop was snapped onto is
/// named after that stop of the trip. Fails where a stop was snapped onto
/// the first point of a segment.
pub fn assemble(
    timetabled_route: &[StopId],
    route_list: &Vec<Route>,
    stop_idxs: &Vec<Vec<usize>>,
) -> (r: Result<Route, RouteError>)
    requires
        timetabled_route@.len() >= 1,
        chain_fits(
            timetabled_route@.len() as nat,
            route_views(route_list@),
            index_lists(stop_idxs@),
        ),
    ensures
        match r {
            Ok(route) => !cannot_segment(index_lists(stop_idxs@)) && route@ == spec_assemble(
                id_views(timetabled_route@),
                route_views(route_list@),
                index_lists(stop_idxs@),
            ),
            Err(e) => e@ == RouteErrorView::CannotSegment && cannot_segment(
                index_lists(stop_idxs@),
            ),
        },
{
    let ghost ids = id_views(timetabled_route@);
    let ghost routes = route_views(route_list@);
    let ghost idxs = index_lists(stop_idxs@);
    let count: usize = timetabled_route.len();
    let hops: usize = route_list.len();
    let mut flattened: Vec<RouteSegment> = Vec::new();
    let mut current_stop_index: usize = 0;
    let mut h: usize = 0;
    assert(point_views(flattened@) =~= flattened_upto(ids, routes, idxs, 0));
    while h < hops
        invariant
            h <= hops,
            hops == route_list@.len(),
            hops == stop_idxs@.len(),
            ids == id_views(timetabled_route@),
            routes == route_views(route_list@),
            idxs == index_lists(stop_idxs@),
            count == timetabled_route@.len(),
            count >= 1,
            chain_fits(count as nat, routes, idxs),
            h == 0 ==> current_stop_index == 0 && flattened@.len() == 0,
            h > 0 ==> current_stop_index == hop_start(idxs, h as int) && flattened@.len() > 0,
            point_views(flattened@) == flattened_upto(ids, routes, idxs, h as nat),
            forall|g: int| 0 <= g < h ==> !first_point_taken(#[trigger] idxs[g]),
        decreases hops - h,
    {
        let route_segment = &route_list[h];
        let stop_idx_segment = &stop_idxs[h];
        proof {
            assert(routes[h as int] == route_segment@);
            assert(idxs[h as int] == stop_idx_segment@);
            assert(hop_fits(routes[h as int], idxs[h as int]));
            lemma_stops_covered_take(idxs, h as int);
            assert(idxs.take(0).len() == 0);
        }
        if flattened.len() == 0 {
            flattened.push(route_segment.route[0].clone());
            current_stop_index += 1;
        }
        let ghost base = point_views(flattened@);
        let ghost start = current_stop_index as int;
        let ghost names = ids.subrange(start, start + idxs[h as int].len());
        let ghost whole = hop_points(routes[h as int], idxs[h as int], names);
        let mut prev: usize = 1;
        let mut t: usize = 0;
        proof {
            assert(route_segment.route.len() == route_segment.route@.len());
            assert(start == hop_start(idxs, h as int));
            assert(base + whole.subrange(1, 1) =~= base);
            if h == 0 {
                assert(base =~= seq![routes[0].route[0]]);
            }
        }
        while t < stop_idx_segment.len()
            invariant
                t <= stop_idx_segment@.len(),
                h < hops,
                hops == stop_idxs@.len(),
                hops == route_list@.len(),
                idxs == index_lists(stop_idxs@),
                routes == route_views(route_list@),
                route_segment.route@.len() <= usize::MAX,
                whole.len() == route_segment.route@.len(),
                stop_idx_segment@ == idxs[h as int],
                route_segment@ == routes[h as int],
                hop_fits(routes[h as int], idxs[h as int]),
                1 <= prev <= route_segment.route@.len(),
                t > 0 ==> prev == stop_idx_segment@[t - 1] + 1 && idxs[h as int][0] >= 1,
                t == 0 ==> prev == 1,
                current_stop_index == start + t,
                0 <= start,
                start + idxs[h as int].len() < count,
                count == timetabled_route@.len(),
                count == ids.len(),
                ids == id_views(timetabled_route@),
                names == ids.subrange(start, start + idxs[h as int].len()),
                whole == hop_points(routes[h as int], idxs[h as int], names),
                point_views(flattened@) == base + whole.subrange(1, prev as int),
                forall|g: int| 0 <= g < h ==> !first_point_taken(#[trigger] idxs[g]),
            decreases stop_idx_segment@.len() - t,
        {
            let idx: usize = stop_idx_segment[t];
            proof {
                assert(idxs[h as int][t as int] < routes[h as int].route.len());
                if t > 0 {
                    assert(stop_idx_segment@[t - 1] < stop_idx_segment@[t as int]);
                }
            }
            if idx < prev {
                proof {
                    assert(first_point_taken(idxs[h as int]));
                }
                return Err(RouteError::CannotSegment);
            }
            let ghost before = flattened@;
            push_points(&mut flattened, &route_segment.route, prev, idx);
            let point = &route_segment.route[idx];
            flattened.push(
                RouteSegment {
                    lat: point.lat,
                    lon: point.lon,
                    stop: Some(timetabled_route[current_stop_index].clone()),
                },
            );
            proof {
                let list = idxs[h as int];
                assert forall|q: int| prev <= q < idx implies #[trigger] whole[q]
                    == route_segment.route@[q]@ by {
                    lemma_unmatched_between(list, t as int, prev as int, idx as int, q);
                }
                lemma_matched_at(list, t as int);
                assert(names[t as int] == ids[start + t]);
                assert(ids[start + t] == timetabled_route@[start + t]@);
                assert(whole[idx as int] == flattened@[flattened@.len() - 1]@);
                let now = point_views(flattened@);
                let target = base + whole.subrange(1, idx + 1);
                let held = point_views(before);
                assert(held.len() == base.len() + prev - 1);
                assert(now.len() == target.len());
                assert forall|k: int| 0 <= k < now.len() implies now[k] == target[k] by {
                    if k < before.len() {
                        assert(flattened@[k] == before[k]);
                        assert(now[k] == held[k]);
                    } else if k < before.len() + idx - prev {
                        let q = prev + (k - before.len());
                        assert(flattened@[k] == route_segment.route@[q]);
                        assert(whole[q] == route_segment.route@[q]@);
                    }
                }
                assert(now =~= target);
            }
            current_stop_index += 1;
            prev = idx + 1;
            t += 1;
        }
        let ghost before = flattened@;
        push_points(&mut flattened, &route_segment.route, prev, route_segment.route.len());
        proof {
            let list = idxs[h as int];
            let len = route_segment.route@.len() as int;
            assert forall|q: int| prev <= q < len implies #[trigger] whole[q]
                == route_segment.route@[q]@ by {
                lemma_unmatched_between(list, t as int, prev as int, len, q);
            }
            assert(whole.subrange(1, len) =~= whole.skip(1));
            let now = point_views(flattened@);
            let target = base + whole.subrange(1, len);
            let held = point_views(before);
            assert(held.len() == base.len() + prev - 1);
            assert(now.len() == target.len());
            assert forall|k: int| 0 <= k < now.len() implies now[k] == target[k] by {
                if k < before.len() {
                    assert(flattened@[k] == before[k]);
                    assert(now[k] == held[k]);
                } else {
                    let q = prev + (k - before.len());
                    assert(flattened@[k] == route_segment.route@[q]);
                    assert(whole[q] == route_segment.route@[q]@);
                }
            }
            assert(now =~= target);
            assert(whole.skip(1) == hop_part(ids, routes, idxs, h as int));
            assert(!first_point_taken(list));
        }
        current_stop_index += 1;
        h += 1;
    }
    proof {
        if cannot_segment(idxs) {
            let g = choose|g: int| 0 <= g < idxs.len() && first_point_taken(#[trigger] idxs[g]);
            assert(!first_point_taken(idxs[g]));
        }
    }
    let route_id = join_ids(route_list);
    let end_id = timetabled_route[count - 1].clone();
    let start_id = timetabled_route[0].clone();
    let stops = clone_ids(timetabled_route);
    Ok(Route { start_id, end_id, id: route_id, route: flattened, stops })
}

/// The stops that a chain covers can be counted from its first hop.
pub proof fn lemma_stops_covered_front(idxs: Seq<Seq<usize>>)
    requires
        idxs.len() > 0,
    ensures
        stops_covered(idxs) == idxs.first().len() + 1 + stops_covered(idxs.drop_first()),
    decreases idxs.len(),
{
    if idxs.len() == 1 {
        assert(idxs.drop_last() =~= idxs.drop_first());
        assert(stops_covered(idxs.drop_last()) == 0);
    } else {
        lemma_stops_covered_front(idxs.drop_last());
        assert(idxs.drop_last().drop_first() =~= idxs.drop_first().drop_last());
        assert(idxs.drop_first().last() == idxs.last());
        assert(idxs.drop_last().first() == idxs.first());
    }
}

/// A chain covers as many stops in either order.
pub proof fn lemma_stops_covered_reverse(idxs: Seq<Seq<usize>>)
    ensures
        stops_covered(idxs.reverse()) == stops_covered(idxs),
    decreases idxs.len(),
{
    if idxs.len() > 0 {
        let turned = idxs.reverse();
        lemma_stops_covered_front(idxs);
        lemma_stops_covered_reverse(idxs.drop_first());
        assert(turned.drop_last() =~= idxs.drop_first().reverse());
        assert(turned.last() == idxs.first());
    } else {
        assert(idxs.reverse() =~= idxs);
    }
}

/// What rebuilding the route of a trip gives: the error of the search where
/// it fails; else the segments of the chain in the order of travel and the
/// route assembled from them, unless a stop was snapped onto the first
/// point of a segment.
pub open spec fn spec_find_route(
    ids: Seq<Seq<char>>,
    possible_routes: RoutesByStartEnd,
    stops: StopList,
) -> Result<(Seq<RouteView>, RouteView), RouteErrorView> {
    match spec_resolve(ids, possible_routes, stops) {
        Err(e) => Err(e),
        Ok(chain) => {
            let routes = route_views(chain.1.reverse());
            let idxs = chain.2.reverse();
            if cannot_segment(idxs) {
                Err(RouteErrorView::CannotSegment)
            } else {
                Ok((routes, spec_assemble(ids, routes, idxs)))
            }
        },
    }
}

/// `r` is what rebuilding the route of the trip gives: the segments and the
/// assembled route that `spec_find_route` names, or its error.
pub open spec fn is_find_route_result(
    ids: Seq<Seq<char>>,
    possible_routes: RoutesByStartEnd,
    stops: StopList,
    r: Result<(Vec<Route>, Route), RouteFailure>,
) -> bool {
    match spec_find_route(ids, possible_routes, stops) {
        Ok(built) => r matches Ok(found) && route_views(found.0@) == built.0 && found.1@
            == built.1,
        Err(e) => r matches Err(x) && x.error@ == e && id_views(x.timetabled_route@) == ids,
    }
}

/// Rebuilding the route of a trip twice, from the same catalogue and the
/// same stop table, gives the same segments and the same assembled route, or
/// the same error.
pub proof fn lemma_find_route_repeatable(
    ids: Seq<Seq<char>>,
    possible_routes: RoutesByStartEnd,
    stops: StopList,
    first: Result<(Vec<Route>, Route), RouteFailure>,
    second: Result<(Vec<Route>, Route), RouteFailure>,
)
    requires
        is_find_route_result(ids, possible_routes, stops, first),
        is_find_route_result(ids, possible_routes, stops, second),
    ensures
        match (first, second) {
            (Ok(a), Ok(b)) => route_views(a.0@) == route_views(b.0@) && a.1@ == b.1@,
            (Err(a), Err(b)) => a.error@ == b.error@ && id_views(a.timetabled_route@) == id_views(
                b.timetabled_route@,
            ),
            _ => false,
        },
{
}

/// The chain that resolving a trip gives is sound.
pub proof fn lemma_resolve_sound(
    ids: Seq<Seq<char>>,
    possible_routes: RoutesByStartEnd,
    stops: StopList,
)
    requires
        ids.len() <= usize::MAX,
    ensures
        spec_resolve(ids, possible_routes, stops) matches Ok(chain) ==> chain_sound(
            ids.len(),
            chain,
        ),
{
    if ids.len() > 1 {
        lemma_do_find_route_sound(ids, resolved_stops(ids, stops@), possible_routes);
    }
}

/// A sound chain, turned into the order of travel, fits the trip.
pub proof fn lemma_sound_chain_fits(count: nat, chain: (nat, Seq<Route>, Seq<Seq<usize>>))
    requires
        count >= 1,
        chain_sound(count, chain),
    ensures
        chain_fits(count, route_views(chain.1.reverse()), chain.2.reverse()),
{
    let routes = route_views(chain.1.reverse());
    let idxs = chain.2.reverse();
    lemma_stops_covered_reverse(chain.2);
    assert forall|h: int| 0 <= h < routes.len() implies hop_fits(#[trigger] routes[h], idxs[h]) by {
        let g = chain.1.len() - 1 - h;
        assert(step_fits(chain.1[g], chain.2[g]));
        assert(routes[h] == chain.1[g]@);
        assert(idxs[h] == chain.2[g]);
    }
}

/// Rebuilds the route of a timetabled trip: resolves the trip into a chain
/// of catalogue segments and flattens the chain into one route. Hands back
/// the segments in the order of travel and the assembled route, or the trip
/// with the reason for which no route was found.
pub fn find_route(
    timetabled_route: &[StopId],
    possible_routes: &RoutesByStartEnd,
    stops: &StopList,
) -> (r: Result<(Vec<Route>, Route), RouteFailure>)
    requires
        timetabled_route@.len() >= 1,
    ensures
        is_find_route_result(id_views(timetabled_route@), *possible_routes, *stops, r),
{
    let ghost ids = id_views(timetabled_route@);
    let count: usize = timetabled_route.len();
    let (route_list, stop_idxs) = match resolve(timetabled_route, possible_routes, stops) {
        Err(error) => {
            return Err(RouteFailure { timetabled_route: clone_ids(timetabled_route), error });
        },
        Ok((_, route_list, stop_idxs)) => (route_list, stop_idxs),
    };
    let ghost chain = spec_resolve(ids, *possible_routes, *stops)->Ok_0;
    let ghost held_routes = route_list@;
    let ghost held_idxs = stop_idxs@;
    let route_list = reverse_list(route_list);
    let stop_idxs = reverse_list(stop_idxs);
    proof {
        lemma_resolve_sound(ids, *possible_routes, *stops);
        lemma_sound_chain_fits(count as nat, chain);
        assert(route_views(held_routes) == route_views(chain.1));
        assert(route_views(held_routes).len() == held_routes.len());
        assert(route_views(chain.1).len() == chain.1.len());
        assert(index_lists(held_idxs) == chain.2);
        assert(index_lists(held_idxs).len() == held_idxs.len());
        assert forall|h: int| 0 <= h < route_list@.len() implies route_list@[h]@
            == chain.1.reverse()[h]@ by {
            let g = held_routes.len() - 1 - h;
            assert(route_list@[h] == held_routes[g]);
            assert(route_views(held_routes)[g] == held_routes[g]@);
            assert(route_views(chain.1)[g] == chain.1[g]@);
            assert(chain.1.reverse()[h] == chain.1[g]);
        }
        assert(route_views(route_list@) =~= route_views(chain.1.reverse()));
        assert forall|h: int| 0 <= h < stop_idxs@.len() implies stop_idxs@[h]@
            == chain.2.reverse()[h] by {
            let g = held_idxs.len() - 1 - h;
            assert(stop_idxs@[h] == held_idxs[g]);
            assert(index_lists(held_idxs)[g] == held_idxs[g]@);
            assert(chain.2.reverse()[h] == chain.2[g]);
        }
        assert(index_lists(stop_idxs@) =~= chain.2.reverse());
    }
    match assemble(timetabled_route, &route_list, &stop_idxs) {
        Err(error) => Err(RouteFailure { timetabled_route: clone_ids(timetabled_route), error }),
        Ok(route) => Ok((route_list, route)),
    }
}

} // verus!
