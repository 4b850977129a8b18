//! The search for the chain of segments that a timetabled trip follows.

use crate::builder::snapper::{
    distance, find_route_stops, lemma_assignment_cost_bound, lemma_snap_indices, point_distance,
    snap_indices, spec_find_route_stops, strictly_increasing,
};
use crate::data::route::{id_views, route_views, Route};
use crate::data::stop::Stop;
use crate::data_utils::{RoutesByEnd, RoutesByStartEnd, StopId, StopList};
use crate::geometry::distance_limit;
use crate::utils::index_lists;
use vstd::prelude::*;
use vstd::slice::{slice_subrange, slice_to_vec};
use vstd::string::StringExecFns;

verus! {

/// Why no route could be rebuilt for a trip.
#[derive(Debug, PartialEq, Eq)]
pub enum RouteError {
    /// The stop table does not hold this stop of the trip.
    UnknownStop(String),
    /// The catalogue holds no segment that starts at this stop.
    NoSegmentsFrom(String),
    /// No segment that leaves the first stop ends at a later stop of the
    /// trip and takes the stops between.
    NoCandidateStep,
    /// From the end of every segment that could be taken, the rest of the
    /// trip cannot be rebuilt.
    NoViableChain,
    /// A stop was snapped onto the first point of a segment, which belongs
    /// to the stop at which the segment starts.
    CannotSegment,
}

/// What a `RouteError` holds.
pub enum RouteErrorView {
    UnknownStop(Seq<char>),
    NoSegmentsFrom(Seq<char>),
    NoCandidateStep,
    NoViableChain,
    CannotSegment,
}

/// The failure to rebuild the route of a trip: the trip, for which no route
/// was found, and why.
#[derive(Debug, PartialEq, Eq)]
pub struct RouteFailure {
    pub timetabled_route: Vec<StopId>,
    pub error: RouteError,
}

impl RouteError {
    /// The error in words.
    pub fn to_string(&self) -> (text: String)
        ensures
            text@ == error_text(self@),
    {
        match self {
            RouteError::UnknownStop(id) => {
                let text = "Cannot find stop ".to_string().concat(id.as_str());
                text.concat(" in stops")
            },
            RouteError::NoSegmentsFrom(id) => {
                let text = "Cannot find stop ".to_string().concat(id.as_str());
                text.concat(" in possible routes")
            },
            RouteError::NoCandidateStep => "Failed to find any routes.".to_string(),
            RouteError::NoViableChain => "Failed to find suitable route".to_string(),
            RouteError::CannotSegment => "Cannot segment route".to_string(),
        }
    }
}

/// An error in words.
pub open spec fn error_text(error: RouteErrorView) -> Seq<char> {
    match error {
        RouteErrorView::UnknownStop(id) => "Cannot find stop "@ + id + " in stops"@,
        RouteErrorView::NoSegmentsFrom(id) => "Cannot find stop "@ + id + " in possible routes"@,
        RouteErrorView::NoCandidateStep => "Failed to find any routes."@,
        RouteErrorView::NoViableChain => "Failed to find suitable route"@,
        RouteErrorView::CannotSegment => "Cannot segment route"@,
    }
}

impl View for RouteError {
    type V = RouteErrorView;

    open spec fn view(&self) -> RouteErrorView {
        match self {
            RouteError::UnknownStop(id) => RouteErrorView::UnknownStop(id@),
            RouteError::NoSegmentsFrom(id) => RouteErrorView::NoSegmentsFrom(id@),
            RouteError::NoCandidateStep => RouteErrorView::NoCandidateStep,
            RouteError::NoViableChain => RouteErrorView::NoViableChain,
            RouteError::CannotSegment => RouteErrorView::CannotSegment,
        }
    }
}

/// The first position at or after `from` at which `route` names `stop`.
pub open spec fn first_position_from(route: Seq<Seq<char>>, stop: Seq<char>, from: int) -> Option<
    int,
>
    decreases route.len() - from,
{
    if from >= route.len() {
        None
    } else if from >= 0 && route[from] == stop {
        Some(from)
    } else {
        first_position_from(route, stop, from + 1)
    }
}

/// `first_position_from` names a position of `stop`, and the first one.
pub proof fn lemma_first_position_from(route: Seq<Seq<char>>, stop: Seq<char>, from: int)
    requires
        0 <= from,
    ensures
        match first_position_from(route, stop, from) {
            Some(p) => from <= p < route.len() && route[p] == stop && forall|i: int|
                from <= i < p ==> route[i] != stop,
            None => forall|i: int| from <= i < route.len() ==> route[i] != stop,
        },
    decreases route.len() - from,
{
    if from < route.len() && route[from] != stop {
        lemma_first_position_from(route, stop, from + 1);
    }
}

/// The first position at or after `from` at which the trip names `stop`.
pub fn find_position_from(timetabled_route: &[StopId], stop: &StopId, from: usize) -> (r: Option<
    usize,
>)
    ensures
        match first_position_from(id_views(timetabled_route@), stop@, from as int) {
            Some(p) => r matches Some(q) && q == p,
            None => r is None,
        },
        r matches Some(p) ==> from <= p < timetabled_route@.len(),
{
    let ghost ids = id_views(timetabled_route@);
    let mut i: usize = from;
    while i < timetabled_route.len()
        invariant
            from <= i,
            ids == id_views(timetabled_route@),
            first_position_from(ids, stop@, i as int) == first_position_from(
                ids,
                stop@,
                from as int,
            ),
        decreases timetabled_route@.len() - i,
    {
        assert(ids[i as int] == timetabled_route@[i as int]@);
        if timetabled_route[i] == *stop {
            return Some(i);
        }
        i += 1;
    }
    None
}

/// A step that the search may take next: the position in the trip at which
/// the step ends, the stop there with the number of the segment among those
/// that join the two stops, the distance that snapping the stops between
/// costs, and the points that they are snapped to.
pub type NextCheck<'a> = (usize, (&'a StopId, usize), u128, Vec<usize>);

/// What a `NextCheck` holds.
pub type NextCheckView = (usize, (Seq<char>, usize), nat, Seq<usize>);

/// What a step holds.
pub open spec fn check_view(check: NextCheck) -> NextCheckView {
    (check.0, (check.1.0@, check.1.1), check.2 as nat, check.3@)
}

/// What a list of steps holds.
pub open spec fn check_views(checks: Seq<NextCheck>) -> Seq<NextCheckView> {
    Seq::new(checks.len(), |i: int| check_view(checks[i]))
}

/// The steps that the first `n` of `routes` offer, in their order. All of
/// `routes` end at `end`, which the trip names at `end_pos`, and `span` holds
/// the stops between.
pub open spec fn checks_of_routes(
    span: Seq<Stop>,
    end_pos: usize,
    end: Seq<char>,
    routes: Seq<Route>,
    n: nat,
) -> Seq<NextCheckView>
    decreases n,
{
    if n == 0 {
        Seq::<NextCheckView>::empty()
    } else {
        let before = checks_of_routes(span, end_pos, end, routes, (n - 1) as nat);
        match spec_find_route_stops(span, routes[n - 1].route@) {
            Some(snap) => before.push((end_pos, (end, (n - 1) as usize), snap.0, snap.1)),
            None => before,
        }
    }
}

/// The steps that the segments to the end stop at position `e` of
/// `possible_ends` offer: none where the trip does not name that stop after
/// its start, else those of the segments that take the stops up to the first
/// place where it does.
pub open spec fn checks_of_end(
    route: Seq<Seq<char>>,
    stops: Seq<Stop>,
    possible_ends: RoutesByEnd,
    e: int,
) -> Seq<NextCheckView> {
    let end = possible_ends.keys()[e];
    let routes = possible_ends@[end]@;
    match first_position_from(route, end, 1) {
        Some(end_pos) => checks_of_routes(
            stops.subrange(1, end_pos),
            end_pos as usize,
            end,
            routes,
            routes.len(),
        ),
        None => Seq::<NextCheckView>::empty(),
    }
}

/// The steps that the first `e` end stops of `possible_ends` offer.
pub open spec fn checks_upto(
    route: Seq<Seq<char>>,
    stops: Seq<Stop>,
    possible_ends: RoutesByEnd,
    e: nat,
) -> Seq<NextCheckView>
    decreases e,
{
    if e == 0 {
        Seq::<NextCheckView>::empty()
    } else {
        checks_upto(route, stops, possible_ends, (e - 1) as nat) + checks_of_end(
            route,
            stops,
            possible_ends,
            e - 1,
        )
    }
}

/// The steps that the search may take from the first stop of `route`: for
/// each end stop of `possible_ends`, in the order of the keys, and each
/// segment to it, in the order of the catalogue, a step where the segment
/// takes the stops between.
pub open spec fn spec_find_next_checks(
    route: Seq<Seq<char>>,
    stops: Seq<Stop>,
    possible_ends: RoutesByEnd,
) -> Seq<NextCheckView> {
    checks_upto(route, stops, possible_ends, possible_ends.keys().len())
}

/// A step fits a trip and the segments that leave its first stop: it ends
/// after the start, where the trip names its end stop; its segment is in the
/// catalogue; and its stops are snapped to points of the geometry of that
/// segment, each to a later one than the stop before.
pub open spec fn check_fits(
    check: NextCheckView,
    route: Seq<Seq<char>>,
    possible_ends: RoutesByEnd,
) -> bool {
    &&& 1 <= check.0 < route.len()
    &&& route[check.0 as int] == check.1.0
    &&& possible_ends@.contains_key(check.1.0)
    &&& check.1.1 < possible_ends@[check.1.0]@.len()
    &&& check.2 <= (check.0 - 1) * distance_limit()
    &&& check.3.len() == check.0 - 1
    &&& strictly_increasing(check.3)
    &&& forall|i: int|
        0 <= i < check.3.len() ==> check.3[i] < possible_ends@[check.1.0]@[check.1.1 as int].route@.len()
}

/// Lists the steps that the search may take from the first stop of the trip.
/// `stops` holds the stops that `timetabled_route` names, and `possible_ends`
/// the segments that leave the first of them. Fails where there is no step.
pub fn find_next_checks<'a>(
    timetabled_route: &[StopId],
    stops: &[Stop],
    possible_ends: &'a RoutesByEnd,
) -> (r: Result<Vec<NextCheck<'a>>, RouteError>)
    requires
        timetabled_route@.len() == stops@.len(),
    ensures
        match r {
            Ok(checks) => checks@.len() > 0 && check_views(checks@) == spec_find_next_checks(
                id_views(timetabled_route@),
                stops@,
                *possible_ends,
            ),
            Err(e) => e@ == RouteErrorView::NoCandidateStep && spec_find_next_checks(
                id_views(timetabled_route@),
                stops@,
                *possible_ends,
            ).len() == 0,
        },
        r matches Ok(checks) ==> forall|k: int|
            0 <= k < checks@.len() ==> check_fits(
                #[trigger] check_view(checks@[k]),
                id_views(timetabled_route@),
                *possible_ends,
            ),
{
    let ghost ids = id_views(timetabled_route@);
    let mut new_to_check: Vec<NextCheck<'a>> = Vec::new();
    let ends: usize = possible_ends.len();
    let mut e: usize = 0;
    assert(check_views(new_to_check@) =~= checks_upto(ids, stops@, *possible_ends, 0));
    while e < ends
        invariant
            e <= ends,
            ends == possible_ends.keys().len(),
            possible_ends.wf(),
            ids == id_views(timetabled_route@),
            timetabled_route@.len() == stops@.len(),
            check_views(new_to_check@) == checks_upto(ids, stops@, *possible_ends, e as nat),
            forall|k: int|
                0 <= k < new_to_check@.len() ==> check_fits(
                    #[trigger] check_view(new_to_check@[k]),
                    ids,
                    *possible_ends,
                ),
        decreases ends - e,
    {
        let end = possible_ends.key_at(e);
        let routes = possible_ends.value_at(e);
        let ghost done = check_views(new_to_check@);
        proof {
            assert(possible_ends@[possible_ends.keys()[e as int]] == possible_ends.values()[e as int]);
            assert(possible_ends.keys().contains(possible_ends.keys()[e as int]));
            lemma_first_position_from(ids, end@, 1);
        }
        match find_position_from(timetabled_route, end, 1) {
            None => {
                assert(done + checks_of_end(ids, stops@, *possible_ends, e as int) =~= done);
            },
            Some(end_pos) => {
                let route_segment = slice_subrange(stops, 1, end_pos);
                let mut idx: usize = 0;
                assert(done + checks_of_routes(route_segment@, end_pos, end@, routes@, 0) =~= done);
                while idx < routes.len()
                    invariant
                        idx <= routes@.len(),
                        1 <= end_pos < ids.len(),
                        ids[end_pos as int] == end@,
                        possible_ends@.contains_key(end@),
                        possible_ends@[end@] == *routes,
                        route_segment@ == stops@.subrange(1, end_pos as int),
                        stops@.len() == ids.len(),
                        check_views(new_to_check@) == done + checks_of_routes(
                            route_segment@,
                            end_pos,
                            end@,
                            routes@,
                            idx as nat,
                        ),
                        forall|k: int|
                            0 <= k < new_to_check@.len() ==> check_fits(
                                #[trigger] check_view(new_to_check@[k]),
                                ids,
                                *possible_ends,
                            ),
                    decreases routes@.len() - idx,
                {
                    let route = &routes[idx];
                    let ghost listed = check_views(new_to_check@);
                    match find_route_stops(route_segment, route) {
                        Some((closest_approach, stop_indexes)) => {
                            new_to_check.push((end_pos, (end, idx), closest_approach, stop_indexes));
                            proof {
                                let last = new_to_check@[new_to_check@.len() - 1];
                                assert(check_views(new_to_check@) =~= listed.push(
                                    check_view(last),
                                ));
                                assert forall|k: int|
                                    0 <= k < new_to_check@.len() implies check_fits(
                                    #[trigger] check_view(new_to_check@[k]),
                                    ids,
                                    *possible_ends,
                                ) by {
                                    if k < new_to_check@.len() - 1 {
                                        assert(check_view(new_to_check@[k]) == listed[k]);
                                    }
                                }
                                assert(done + checks_of_routes(
                                    route_segment@,
                                    end_pos,
                                    end@,
                                    routes@,
                                    idx as nat,
                                ).push(check_view(last)) =~= listed.push(check_view(last)));
                            }
                        },
                        None => {},
                    }
                    idx += 1;
                }
            },
        }
        e += 1;
    }
    if new_to_check.len() == 0 {
        return Err(RouteError::NoCandidateStep);
    }
    Ok(new_to_check)
}

/// What taking the step `check` gives: nothing where its segment has no
/// points, which leaves the ends of the segment without a distance, or where
/// the rest of the trip cannot be rebuilt from its end; else the cost of the
/// whole, which is the distance from the first stop to the first point of the
/// segment, the cost of snapping the stops between, the distance from the end
/// stop to the last point of the segment and the cost of the rest, and the
/// chain of the rest with the segment and its snapped points put behind it.
pub open spec fn candidate_total(
    route: Seq<Seq<char>>,
    stops: Seq<Stop>,
    catalogue: RoutesByStartEnd,
    possible_ends: RoutesByEnd,
    check: NextCheckView,
) -> Option<(nat, Seq<Route>, Seq<Seq<usize>>)>
    decreases route.len(), 0nat, 0nat,
{
    if 1 <= check.0 < route.len() && check.0 < stops.len() && possible_ends@.contains_key(
        check.1.0,
    ) && check.1.1 < possible_ends@[check.1.0]@.len() && possible_ends@[check.1.0]@[check.1.1 as int].route@.len()
        > 0 {
        let segment = possible_ends@[check.1.0]@[check.1.1 as int];
        match spec_do_find_route(
            route.skip(check.0 as int),
            stops.skip(check.0 as int),
            catalogue,
        ) {
            Ok(rest) => Some(
                (
                    (point_distance(stops[0], segment.route@[0]) + check.2 + point_distance(
                        stops[check.0 as int],
                        segment.route@.last(),
                    ) + rest.0) as nat,
                    rest.1.push(segment),
                    rest.2.push(check.3),
                ),
            ),
            Err(_) => None,
        }
    } else {
        None
    }
}

/// The best of what the first `n` steps of `checks` give: the one of lowest
/// cost, and of several such the first.
pub open spec fn best_of(
    route: Seq<Seq<char>>,
    stops: Seq<Stop>,
    catalogue: RoutesByStartEnd,
    possible_ends: RoutesByEnd,
    checks: Seq<NextCheckView>,
    n: nat,
) -> Option<(nat, Seq<Route>, Seq<Seq<usize>>)>
    decreases route.len(), 1nat, n,
{
    if n == 0 {
        None
    } else {
        let before = best_of(route, stops, catalogue, possible_ends, checks, (n - 1) as nat);
        match candidate_total(route, stops, catalogue, possible_ends, checks[n - 1]) {
            Some(candidate) => match before {
                Some(best) => if candidate.0 < best.0 {
                    Some(candidate)
                } else {
                    before
                },
                None => Some(candidate),
            },
            None => before,
        }
    }
}

/// The chain of segments that the search finds for a trip. `stops` holds
/// the stops that `route` names. The result is the cost, the segments of the
/// chain, the last one first, and for each segment the points that the stops
/// between its ends are snapped to.
pub open spec fn spec_do_find_route(
    route: Seq<Seq<char>>,
    stops: Seq<Stop>,
    catalogue: RoutesByStartEnd,
) -> Result<(nat, Seq<Route>, Seq<Seq<usize>>), RouteErrorView>
    decreases route.len(), 2nat, 0nat,
{
    if route.len() <= 1 {
        Ok((0nat, Seq::<Route>::empty(), Seq::<Seq<usize>>::empty()))
    } else if !catalogue@.contains_key(route[0]) {
        Err(RouteErrorView::NoSegmentsFrom(route[0]))
    } else {
        let possible_ends = catalogue@[route[0]];
        let checks = spec_find_next_checks(route, stops, possible_ends);
        if checks.len() == 0 {
            Err(RouteErrorView::NoCandidateStep)
        } else {
            match best_of(route, stops, catalogue, possible_ends, checks, checks.len()) {
                Some(best) => Ok(best),
                None => Err(RouteErrorView::NoViableChain),
            }
        }
    }
}

/// Searches for the chain of segments that a trip follows. `stops` holds
/// the stops that `timetabled_route` names. Of the steps that can be taken
/// from the first stop, the search takes the one that, with the best chain
/// for the rest of the trip, costs least, and of several such the first. A
/// step along a segment without points is discarded. A trip of one stop or
/// none has the empty chain, at no cost.
pub fn do_find_route(
    timetabled_route: &[StopId],
    stops: &[Stop],
    possible_routes: &RoutesByStartEnd,
) -> (r: Result<(u128, Vec<Route>, Vec<Vec<usize>>), RouteError>)
    requires
        timetabled_route@.len() == stops@.len(),
    ensures
        match spec_do_find_route(id_views(timetabled_route@), stops@, *possible_routes) {
            Ok(best) => r matches Ok(found) && found.0 == best.0 && route_views(found.1@)
                == route_views(best.1) && index_lists(found.2@) == best.2,
            Err(e) => r matches Err(x) && x@ == e,
        },
        r matches Ok(found) ==> found.0 <= 2 * distance_limit() * timetabled_route@.len(),
    decreases timetabled_route@.len(),
{
    let ghost ids = id_views(timetabled_route@);
    let len: usize = timetabled_route.len();
    if len <= 1 {
        let route_list: Vec<Route> = Vec::new();
        let stop_idxs: Vec<Vec<usize>> = Vec::new();
        proof {
            assert(route_views(route_list@) =~= route_views(Seq::<Route>::empty()));
            assert(index_lists(stop_idxs@) =~= Seq::<Seq<usize>>::empty());
        }
        return Ok((0, route_list, stop_idxs));
    }
    let start_id = &timetabled_route[0];
    let start_stop = &stops[0];
    let possible_ends = match possible_routes.get(start_id.as_str()) {
        None => {
            return Err(RouteError::NoSegmentsFrom(start_id.clone()));
        },
        Some(map) => map,
    };
    let new_to_check = match find_next_checks(timetabled_route, stops, possible_ends) {
        Err(e) => {
            return Err(e);
        },
        Ok(checks) => checks,
    };
    let ghost checks = check_views(new_to_check@);
    let mut best_closest: u128 = 0;
    let mut best_route: Option<(Vec<Route>, Vec<Vec<usize>>)> = None;
    let mut k: usize = 0;
    while k < new_to_check.len()
        invariant
            k <= new_to_check@.len(),
            checks == check_views(new_to_check@),
            ids == id_views(timetabled_route@),
            len == timetabled_route@.len(),
            len == stops@.len(),
            len >= 2,
            *start_stop == stops@[0],
            forall|i: int|
                0 <= i < new_to_check@.len() ==> check_fits(
                    #[trigger] check_view(new_to_check@[i]),
                    ids,
                    *possible_ends,
                ),
            match best_of(ids, stops@, *possible_routes, *possible_ends, checks, k as nat) {
                Some(best) => best_route matches Some(held) && best_closest == best.0
                    && route_views(held.0@) == route_views(best.1) && index_lists(held.1@)
                    == best.2 && best.0 <= 2 * distance_limit() * len,
                None => best_route is None,
            },
        decreases new_to_check@.len() - k,
    {
        let check = &new_to_check[k];
        let new_start: usize = check.0;
        let end_stop_id = check.1.0;
        let route_idx: usize = check.1.1;
        let closest_app: u128 = check.2;
        proof {
            assert(check_fits(check_view(new_to_check@[k as int]), ids, *possible_ends));
            assert(checks[k as int] == check_view(new_to_check@[k as int]));
        }
        let routes = possible_ends.get(end_stop_id.as_str()).unwrap();
        let route = &routes[route_idx];
        let end_stop = &stops[new_start];
        let rest_route = slice_subrange(timetabled_route, new_start, len);
        let rest_stops = slice_subrange(stops, new_start, len);
        proof {
            assert(id_views(rest_route@) =~= ids.skip(new_start as int));
            assert(rest_stops@ =~= stops@.skip(new_start as int));
        }
        let ghost candidate = candidate_total(
            ids,
            stops@,
            *possible_routes,
            *possible_ends,
            checks[k as int],
        );
        proof {
            assert(possible_ends@[end_stop_id@]@[route_idx as int] == *route);
            assert(route.route@.last() == route.route@[route.route@.len() - 1]);
            assert(distance_limit() == 0x2_0000_0000);
            assert(closest_app <= (new_start - 1) * 0x2_0000_0000);
        }
        let rest = if route.route.len() == 0 {
            None
        } else {
            match do_find_route(rest_route, rest_stops, possible_routes) {
                Err(_) => None,
                Ok(found) => Some(found),
            }
        };
        match rest {
            None => {
                assert(candidate is None);
            },
            Some((sub_closest, sub_best_route, sub_stop_idxs)) => {
                let mut sub_best_route = sub_best_route;
                let mut sub_stop_idxs = sub_stop_idxs;
                assert(sub_closest <= 2 * 0x2_0000_0000 * (len - new_start));
                let from_start: u64 = distance(start_stop, &route.route[0]);
                let from_end: u64 = distance(end_stop, &route.route[route.route.len() - 1]);
                assert(from_start < 0x2_0000_0000 && from_end < 0x2_0000_0000);
                assert(len <= 0xffff_ffff_ffff_ffff);
                assert(from_start + closest_app + from_end + sub_closest <= 2 * 0x2_0000_0000
                    * len) by (nonlinear_arith)
                    requires
                        from_start < 0x2_0000_0000,
                        from_end < 0x2_0000_0000,
                        closest_app <= (new_start - 1) * 0x2_0000_0000,
                        sub_closest <= 2 * 0x2_0000_0000 * (len - new_start),
                        1 <= new_start < len,
                ;
                let new_closest: u128 = from_start as u128 + closest_app + from_end as u128
                    + sub_closest;
                assert(candidate is Some);
                assert(new_closest == candidate->Some_0.0);
                assert(new_closest <= 2 * 0x2_0000_0000 * len);
                let improves = match &best_route {
                    None => true,
                    Some(_) => new_closest < best_closest,
                };
                if improves {
                    let ghost rest = spec_do_find_route(
                        ids.skip(new_start as int),
                        stops@.skip(new_start as int),
                        *possible_routes,
                    )->Ok_0;
                    let ghost before_routes = sub_best_route@;
                    let ghost before_idxs = sub_stop_idxs@;
                    best_closest = new_closest;
                    sub_best_route.push(route.clone());
                    sub_stop_idxs.push(slice_to_vec(check.3.as_slice()));
                    proof {
                        assert(route_views(sub_best_route@) =~= route_views(before_routes).push(
                            route@,
                        ));
                        assert(route_views(rest.1.push(*route)) =~= route_views(rest.1).push(
                            route@,
                        ));
                        assert(index_lists(sub_stop_idxs@) =~= index_lists(before_idxs).push(
                            check.3@,
                        ));
                    }
                    best_route = Some((sub_best_route, sub_stop_idxs));
                }
            },
        }
        k += 1;
    }
    match best_route {
        None => Err(RouteError::NoViableChain),
        Some((route_list, stop_idxs)) => Ok((best_closest, route_list, stop_idxs)),
    }
}

/// The first stop of `route`, from position `from` on, that the table does
/// not hold.
pub open spec fn first_unknown_from(route: Seq<Seq<char>>, table: Map<Seq<char>, Stop>, from: int) -> Option<
    Seq<char>,
>
    decreases route.len() - from,
{
    if from < 0 || from >= route.len() {
        None
    } else if !table.contains_key(route[from]) {
        Some(route[from])
    } else {
        first_unknown_from(route, table, from + 1)
    }
}

/// The stops that `route` names, each as the table holds it.
pub open spec fn resolved_stops(route: Seq<Seq<char>>, table: Map<Seq<char>, Stop>) -> Seq<Stop> {
    Seq::new(route.len(), |i: int| table[route[i]])
}

/// Looks up the stops of a trip in the stop table. Fails with the first
/// stop that the table does not hold.
pub fn lookup_stops(timetabled_route: &[StopId], stops: &StopList) -> (r: Result<
    Vec<Stop>,
    RouteError,
>)
    ensures
        match first_unknown_from(id_views(timetabled_route@), stops@, 0) {
            Some(id) => r matches Err(e) && e@ == RouteErrorView::UnknownStop(id),
            None => r matches Ok(found) && found@ == resolved_stops(
                id_views(timetabled_route@),
                stops@,
            ),
        },
{
    let ghost ids = id_views(timetabled_route@);
    let mut found: Vec<Stop> = Vec::new();
    let mut i: usize = 0;
    while i < timetabled_route.len()
        invariant
            i <= timetabled_route@.len(),
            ids == id_views(timetabled_route@),
            found@.len() == i,
            forall|j: int| 0 <= j < i ==> found@[j] == stops@[ids[j]],
            first_unknown_from(ids, stops@, i as int) == first_unknown_from(ids, stops@, 0),
        decreases timetabled_route@.len() - i,
    {
        assert(ids[i as int] == timetabled_route@[i as int]@);
        match stops.get(timetabled_route[i].as_str()) {
            None => {
                return Err(RouteError::UnknownStop(timetabled_route[i].clone()));
            },
            Some(stop) => {
                found.push(stop.clone());
            },
        }
        i += 1;
    }
    assert(found@ =~= resolved_stops(ids, stops@));
    Ok(found)
}

/// What resolving a trip gives. A trip of one stop or none has the empty
/// chain. A longer trip fails with the first of its stops that the table
/// does not hold; where the table holds them all, the search decides.
pub open spec fn spec_resolve(
    route: Seq<Seq<char>>,
    catalogue: RoutesByStartEnd,
    stops: StopList,
) -> Result<(nat, Seq<Route>, Seq<Seq<usize>>), RouteErrorView> {
    if route.len() <= 1 {
        Ok((0nat, Seq::<Route>::empty(), Seq::<Seq<usize>>::empty()))
    } else {
        match first_unknown_from(route, stops@, 0) {
            Some(id) => Err(RouteErrorView::UnknownStop(id)),
            None => spec_do_find_route(route, resolved_stops(route, stops@), catalogue),
        }
    }
}

/// Resolves a timetabled trip into the chain of catalogue segments that it
/// follows. Hands back the cost of the chain, its segments, the last one
/// first, and for each segment the points of its geometry that the stops
/// between its ends are snapped to.
pub fn resolve(timetabled_route: &[StopId], catalogue: &RoutesByStartEnd, stops: &StopList) -> (r:
    Result<(u128, Vec<Route>, Vec<Vec<usize>>), RouteError>)
    ensures
        match spec_resolve(id_views(timetabled_route@), *catalogue, *stops) {
            Ok(best) => r matches Ok(found) && found.0 == best.0 && route_views(found.1@)
                == route_views(best.1) && index_lists(found.2@) == best.2,
            Err(e) => r matches Err(x) && x@ == e,
        },
{
    if timetabled_route.len() <= 1 {
        let route_list: Vec<Route> = Vec::new();
        let stop_idxs: Vec<Vec<usize>> = Vec::new();
        proof {
            assert(route_views(route_list@) =~= route_views(Seq::<Route>::empty()));
            assert(index_lists(stop_idxs@) =~= Seq::<Seq<usize>>::empty());
        }
        return Ok((0, route_list, stop_idxs));
    }
    match lookup_stops(timetabled_route, stops) {
        Err(e) => Err(e),
        Ok(found) => do_find_route(timetabled_route, found.as_slice(), catalogue),
    }
}

/// The snapped points of a hop lie within the geometry of its segment, each
/// later than the one before, and the geometry is not empty.
pub open spec fn step_fits(segment: Route, idxs: Seq<usize>) -> bool {
    &&& segment.route@.len() > 0
    &&& strictly_increasing(idxs)
    &&& forall|t: int| 0 <= t < idxs.len() ==> (#[trigger] idxs[t]) < segment.route@.len()
}

/// The number of stops that the hops of a chain account for beyond the
/// first stop of the trip: for each hop the stops snapped onto it and the
/// stop at its end.
pub open spec fn stops_covered(idxs: Seq<Seq<usize>>) -> nat
    decreases idxs.len(),
{
    if idxs.len() == 0 {
        0
    } else {
        stops_covered(idxs.drop_last()) + idxs.last().len() + 1
    }
}

/// A chain is sound for a trip of `count` stops: each segment has its
/// snapped points, they lie within its geometry, and together with the ends
/// of the hops they account for every stop of the trip.
pub open spec fn chain_sound(count: nat, chain: (nat, Seq<Route>, Seq<Seq<usize>>)) -> bool {
    &&& chain.1.len() == chain.2.len()
    &&& forall|h: int| 0 <= h < chain.1.len() ==> step_fits(#[trigger] chain.1[h], chain.2[h])
    &&& count >= 1 ==> stops_covered(chain.2) + 1 == count
    &&& count == 0 ==> chain.2.len() == 0
}

/// Every step that the first `n` of `routes` offer fits the trip.
pub proof fn lemma_checks_of_routes_fit(
    span: Seq<Stop>,
    end_pos: usize,
    end: Seq<char>,
    routes: Seq<Route>,
    n: nat,
    route: Seq<Seq<char>>,
    possible_ends: RoutesByEnd,
)
    requires
        1 <= end_pos < route.len(),
        route[end_pos as int] == end,
        possible_ends@.contains_key(end),
        possible_ends@[end]@ == routes,
        span.len() == end_pos - 1,
        n <= routes.len(),
    ensures
        forall|k: int|
            0 <= k < checks_of_routes(span, end_pos, end, routes, n).len() ==> check_fits(
                #[trigger] checks_of_routes(span, end_pos, end, routes, n)[k],
                route,
                possible_ends,
            ),
    decreases n,
{
    if n > 0 {
        lemma_checks_of_routes_fit(span, end_pos, end, routes, (n - 1) as nat, route, possible_ends);
        let before = checks_of_routes(span, end_pos, end, routes, (n - 1) as nat);
        let all = checks_of_routes(span, end_pos, end, routes, n);
        let segment = routes[n - 1];
        assert(possible_ends@[end].len() == routes.len());
        assert(segment.route.len() == segment.route@.len());
        match spec_find_route_stops(span, segment.route@) {
            Some(snap) => {
                lemma_snap_indices(span, segment.route@, 0);
                lemma_assignment_cost_bound(span, segment.route@, snap_indices(span, segment.route@, 0));
                assert forall|k: int| 0 <= k < all.len() implies check_fits(
                    #[trigger] all[k],
                    route,
                    possible_ends,
                ) by {
                    if k < before.len() {
                        assert(all[k] == before[k]);
                    }
                }
            },
            None => {},
        }
    }
}

/// Every step that the first `e` end stops offer fits the trip.
pub proof fn lemma_checks_fit(
    route: Seq<Seq<char>>,
    stops: Seq<Stop>,
    possible_ends: RoutesByEnd,
    e: nat,
)
    requires
        route.len() == stops.len(),
        route.len() <= usize::MAX,
        e <= possible_ends.keys().len(),
    ensures
        forall|k: int|
            0 <= k < checks_upto(route, stops, possible_ends, e).len() ==> check_fits(
                #[trigger] checks_upto(route, stops, possible_ends, e)[k],
                route,
                possible_ends,
            ),
    decreases e,
{
    if e > 0 {
        lemma_checks_fit(route, stops, possible_ends, (e - 1) as nat);
        let before = checks_upto(route, stops, possible_ends, (e - 1) as nat);
        let added = checks_of_end(route, stops, possible_ends, e - 1);
        let all = checks_upto(route, stops, possible_ends, e);
        let end = possible_ends.keys()[e - 1];
        let routes = possible_ends@[end]@;
        possible_ends.lemma_view_domain();
        assert(possible_ends.keys().contains(end));
        lemma_first_position_from(route, end, 1);
        match first_position_from(route, end, 1) {
            Some(end_pos) => {
                lemma_checks_of_routes_fit(
                    stops.subrange(1, end_pos),
                    end_pos as usize,
                    end,
                    routes,
                    routes.len(),
                    route,
                    possible_ends,
                );
            },
            None => {},
        }
        assert forall|k: int| 0 <= k < all.len() implies check_fits(
            #[trigger] all[k],
            route,
            possible_ends,
        ) by {
            if k < before.len() {
                assert(all[k] == before[k]);
            } else {
                assert(all[k] == added[k - before.len()]);
            }
        }
    }
}

/// What taking a fitting step gives is a sound chain.
pub proof fn lemma_candidate_sound(
    route: Seq<Seq<char>>,
    stops: Seq<Stop>,
    catalogue: RoutesByStartEnd,
    possible_ends: RoutesByEnd,
    check: NextCheckView,
)
    requires
        route.len() == stops.len(),
        route.len() <= usize::MAX,
        check_fits(check, route, possible_ends),
    ensures
        candidate_total(route, stops, catalogue, possible_ends, check) matches Some(chain)
            ==> chain_sound(route.len(), chain),
    decreases route.len(), 0nat, 0nat,
{
    let rest_route = route.skip(check.0 as int);
    let rest_stops = stops.skip(check.0 as int);
    lemma_do_find_route_sound(rest_route, rest_stops, catalogue);
    if candidate_total(route, stops, catalogue, possible_ends, check) is Some {
        let rest = spec_do_find_route(rest_route, rest_stops, catalogue)->Ok_0;
        let segment = possible_ends@[check.1.0]@[check.1.1 as int];
        let chain = candidate_total(route, stops, catalogue, possible_ends, check)->Some_0;
        assert(chain.1 == rest.1.push(segment));
        assert(chain.2 == rest.2.push(check.3));
        assert(chain.2.drop_last() =~= rest.2);
        assert forall|h: int| 0 <= h < chain.1.len() implies step_fits(
            #[trigger] chain.1[h],
            chain.2[h],
        ) by {
            if h < rest.1.len() {
                assert(chain.1[h] == rest.1[h]);
                assert(chain.2[h] == rest.2[h]);
            }
        }
    }
}

/// The best of what fitting steps give is a sound chain.
pub proof fn lemma_best_of_sound(
    route: Seq<Seq<char>>,
    stops: Seq<Stop>,
    catalogue: RoutesByStartEnd,
    possible_ends: RoutesByEnd,
    checks: Seq<NextCheckView>,
    n: nat,
)
    requires
        route.len() == stops.len(),
        route.len() <= usize::MAX,
        n <= checks.len(),
        forall|k: int| 0 <= k < checks.len() ==> check_fits(#[trigger] checks[k], route, possible_ends),
    ensures
        best_of(route, stops, catalogue, possible_ends, checks, n) matches Some(chain)
            ==> chain_sound(route.len(), chain),
    decreases route.len(), 1nat, n,
{
    if n > 0 {
        lemma_best_of_sound(route, stops, catalogue, possible_ends, checks, (n - 1) as nat);
        lemma_candidate_sound(route, stops, catalogue, possible_ends, checks[n - 1]);
    }
}

/// The chain that the search finds is sound.
pub proof fn lemma_do_find_route_sound(
    route: Seq<Seq<char>>,
    stops: Seq<Stop>,
    catalogue: RoutesByStartEnd,
)
    requires
        route.len() == stops.len(),
        route.len() <= usize::MAX,
    ensures
        spec_do_find_route(route, stops, catalogue) matches Ok(chain) ==> chain_sound(
            route.len(),
            chain,
        ),
    decreases route.len(), 2nat, 0nat,
{
    if route.len() > 1 && catalogue@.contains_key(route[0]) {
        let possible_ends = catalogue@[route[0]];
        let checks = spec_find_next_checks(route, stops, possible_ends);
        lemma_checks_fit(route, stops, possible_ends, possible_ends.keys().len());
        lemma_best_of_sound(route, stops, catalogue, possible_ends, checks, checks.len());
    }
}

/// Taking a step costs at least what the rest of the trip costs: the cost
/// of a chain does not fall as a hop is put before it.
pub proof fn lemma_step_adds_cost(
    route: Seq<Seq<char>>,
    stops: Seq<Stop>,
    catalogue: RoutesByStartEnd,
    possible_ends: RoutesByEnd,
    check: NextCheckView,
)
    ensures
        candidate_total(route, stops, catalogue, possible_ends, check) matches Some(chain) ==> {
            &&& spec_do_find_route(
                route.skip(check.0 as int),
                stops.skip(check.0 as int),
                catalogue,
            ) matches Ok(rest)
            &&& chain.0 >= rest.0 + check.2
        },
{
}

/// The step at position `k` is the one that the choice among the first `n`
/// steps falls on: it gives `best`, no earlier step gives a chain that costs
/// as little, and no later one a chain that costs less.
pub open spec fn is_choice(
    route: Seq<Seq<char>>,
    stops: Seq<Stop>,
    catalogue: RoutesByStartEnd,
    possible_ends: RoutesByEnd,
    checks: Seq<NextCheckView>,
    n: nat,
    best: (nat, Seq<Route>, Seq<Seq<usize>>),
    k: int,
) -> bool {
    &&& 0 <= k < n
    &&& candidate_total(route, stops, catalogue, possible_ends, checks[k]) == Some(best)
    &&& forall|j: int|
        0 <= j < n ==> (#[trigger] candidate_total(
            route,
            stops,
            catalogue,
            possible_ends,
            checks[j],
        ) matches Some(other) ==> if j < k {
            best.0 < other.0
        } else {
            best.0 <= other.0
        })
}

/// The choice among steps falls on the one whose chain costs least, and of
/// several such on the first; there is no choice only where no step gives a
/// chain.
pub proof fn lemma_best_of_is_least(
    route: Seq<Seq<char>>,
    stops: Seq<Stop>,
    catalogue: RoutesByStartEnd,
    possible_ends: RoutesByEnd,
    checks: Seq<NextCheckView>,
    n: nat,
)
    requires
        n <= checks.len(),
    ensures
        match best_of(route, stops, catalogue, possible_ends, checks, n) {
            Some(best) => exists|k: int|
                is_choice(route, stops, catalogue, possible_ends, checks, n, best, k),
            None => forall|j: int|
                0 <= j < n ==> (#[trigger] candidate_total(
                    route,
                    stops,
                    catalogue,
                    possible_ends,
                    checks[j],
                )) is None,
        },
    decreases n,
{
    if n > 0 {
        let less = (n - 1) as nat;
        lemma_best_of_is_least(route, stops, catalogue, possible_ends, checks, less);
        let before = best_of(route, stops, catalogue, possible_ends, checks, less);
        let last = candidate_total(route, stops, catalogue, possible_ends, checks[n - 1]);
        match best_of(route, stops, catalogue, possible_ends, checks, n) {
            Some(best) => {
                match before {
                    Some(held) => {
                        let k = choose|k: int|
                            is_choice(route, stops, catalogue, possible_ends, checks, less, held, k);
                        if last is Some && last->Some_0.0 < held.0 {
                            assert(is_choice(
                                route,
                                stops,
                                catalogue,
                                possible_ends,
                                checks,
                                n,
                                best,
                                n - 1,
                            ));
                        } else {
                            assert(is_choice(
                                route,
                                stops,
                                catalogue,
                                possible_ends,
                                checks,
                                n,
                                best,
                                k,
                            ));
                        }
                    },
                    None => {
                        assert(is_choice(
                            route,
                            stops,
                            catalogue,
                            possible_ends,
                            checks,
                            n,
                            best,
                            n - 1,
                        ));
                    },
                }
            },
            None => {},
        }
    }
}

} // verus!
