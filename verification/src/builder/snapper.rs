//! Snapping stops onto the geometry of one segment.
//!
//! The stops between the two ends of a segment are assigned to points of its
//! geometry, each stop to a later point than the stop before it.

use crate::data::route::{Route, RouteSegment};
use crate::data::stop::Stop;
use crate::geometry::{distance_between, distance_limit, spec_distance};
use vstd::prelude::*;
use vstd::slice::slice_subrange;

verus! {

/// The distance from a stop to a point of a geometry.
pub open spec fn point_distance(stop: Stop, point: RouteSegment) -> nat {
    spec_distance(stop.lat as int, stop.lon as int, point.lat as int, point.lon as int)
}

/// The distance from a stop to a point of a geometry.
pub fn distance(a: &Stop, segment: &RouteSegment) -> (d: u64)
    ensures
        d == point_distance(*a, *segment),
        d < distance_limit(),
{
    distance_between(a.lat, a.lon, segment.lat, segment.lon)
}

/// The order of candidates: the nearer point first, and of two points at
/// the same distance the one that comes first in the geometry.
pub open spec fn candidate_before(a: (usize, u64), b: (usize, u64)) -> bool {
    a.1 < b.1 || (a.1 == b.1 && a.0 < b.0)
}

/// `ordered` holds a candidate for the point at index `i`.
pub open spec fn lists_index(ordered: Seq<(usize, u64)>, i: int) -> bool {
    exists|j: int| 0 <= j < ordered.len() && (#[trigger] ordered[j]).0 == i
}

/// `ordered` lists every point of `points` once, as its index and its
/// distance from `location`, the nearest first.
pub open spec fn is_nearest_first(
    ordered: Seq<(usize, u64)>,
    location: Stop,
    points: Seq<RouteSegment>,
) -> bool {
    &&& ordered.len() == points.len()
    &&& forall|j: int|
        0 <= j < ordered.len() ==> (#[trigger] ordered[j]).0 < points.len() && ordered[j].1
            == point_distance(location, points[ordered[j].0 as int])
    &&& forall|j: int, k: int|
        0 <= j < k < ordered.len() ==> candidate_before(#[trigger] ordered[j], #[trigger] ordered[k])
    &&& forall|i: int| 0 <= i < points.len() ==> #[trigger] lists_index(ordered, i)
}

/// `ordered` lists the first `n` points of `points`, the nearest first.
spec fn is_nearest_first_of(
    ordered: Seq<(usize, u64)>,
    location: Stop,
    points: Seq<RouteSegment>,
    n: int,
) -> bool {
    &&& ordered.len() == n
    &&& forall|j: int|
        0 <= j < ordered.len() ==> (#[trigger] ordered[j]).0 < n && ordered[j].1
            == point_distance(location, points[ordered[j].0 as int])
    &&& forall|j: int, k: int|
        0 <= j < k < ordered.len() ==> candidate_before(#[trigger] ordered[j], #[trigger] ordered[k])
    &&& forall|i: int| 0 <= i < n ==> #[trigger] lists_index(ordered, i)
}

/// The points of a route by their distance from `location`, the nearest
/// first, each with its index in the geometry.
pub fn order_route_idxs_by_closest(location: &Stop, route: &Route) -> (route_idxs: Vec<
    (usize, u64),
>)
    ensures
        is_nearest_first(route_idxs@, *location, route.route@),
{
    let mut route_idxs: Vec<(usize, u64)> = Vec::new();
    let n: usize = route.route.len();
    let mut i: usize = 0;
    while i < n
        invariant
            i <= n,
            n == route.route@.len(),
            is_nearest_first_of(route_idxs@, *location, route.route@, i as int),
        decreases n - i,
    {
        let d: u64 = distance(location, &route.route[i]);
        let mut p: usize = route_idxs.len();
        while p > 0 && route_idxs[p - 1].1 > d
            invariant
                p <= route_idxs@.len(),
                forall|k: int| p <= k < route_idxs@.len() ==> (#[trigger] route_idxs@[k]).1 > d,
            decreases p,
        {
            p -= 1;
        }
        let ghost before = route_idxs@;
        route_idxs.insert(p, (i, d));
        proof {
            let after = route_idxs@;
            assert forall|j: int| 0 <= j < after.len() implies (#[trigger] after[j]).0 < i + 1
                && after[j].1 == point_distance(*location, route.route@[after[j].0 as int]) by {
                if j < p {
                    assert(after[j] == before[j]);
                } else if j > p {
                    assert(after[j] == before[j - 1]);
                }
            }
            assert forall|j: int, k: int| 0 <= j < k < after.len() implies candidate_before(
                #[trigger] after[j],
                #[trigger] after[k],
            ) by {
                let j0 = if j < p { j } else { j - 1 };
                let k0 = if k < p { k } else { k - 1 };
                if j != p && k != p {
                    assert(candidate_before(before[j0], before[k0]));
                } else if k == p {
                    assert(after[j] == before[j]);
                    if j < p - 1 {
                        assert(candidate_before(before[j], before[p - 1]));
                    }
                    assert(before[p - 1].1 <= d);
                    assert(before[j].0 < i);
                } else {
                    assert(after[k] == before[k - 1]);
                    assert(before[k - 1].1 > d);
                }
            }
            assert forall|t: int| 0 <= t < i + 1 implies #[trigger] lists_index(after, t) by {
                if t == i {
                    assert(after[p as int].0 == t);
                } else {
                    assert(lists_index(before, t));
                    let j0 = choose|j: int| 0 <= j < before.len() && (#[trigger] before[j]).0 == t;
                    let j1 = if j0 < p { j0 } else { j0 + 1 };
                    assert(after[j1] == before[j0]);
                }
            }
        }
        i += 1;
    }
    route_idxs
}

/// The candidate lists of a run of stops, one list for each stop.
pub open spec fn candidate_lists(lists: Seq<Vec<(usize, u64)>>) -> Seq<Seq<(usize, u64)>> {
    Seq::new(lists.len(), |i: int| lists[i]@)
}

/// The depth-first search for an assignment, from the candidate at position
/// `j` of the first stop on. A candidate is taken when its index is at least
/// `min_idx` and the stops after it can be assigned to later points; the
/// first such candidate in the list wins. The result is the sum of the
/// distances and the indices chosen, that of the last stop first.
pub open spec fn search_from(min_idx: nat, ordered: Seq<Seq<(usize, u64)>>, j: nat) -> Option<
    (nat, Seq<usize>),
>
    decreases ordered.len(),
        (if ordered.len() > 0 {
            ordered[0].len() - j
        } else {
            0
        }),
{
    if ordered.len() == 0 {
        Some((0nat, Seq::<usize>::empty()))
    } else if j >= ordered[0].len() {
        None
    } else {
        let candidate = ordered[0][j as int];
        let sub = if candidate.0 >= min_idx {
            search_from((candidate.0 + 1) as nat, ordered.drop_first(), 0)
        } else {
            None
        };
        match sub {
            Some(found) => Some(((candidate.1 + found.0) as nat, found.1.push(candidate.0))),
            None => search_from(min_idx, ordered, j + 1),
        }
    }
}

/// The assignment that the search finds for the stops whose candidates are
/// `ordered`, on points from `min_idx` on.
pub open spec fn spec_find_bestest_route_stops(
    min_idx: nat,
    ordered: Seq<Seq<(usize, u64)>>,
) -> Option<(nat, Seq<usize>)> {
    search_from(min_idx, ordered, 0)
}

/// Each element of `s` is greater than the next.
pub open spec fn strictly_decreasing(s: Seq<usize>) -> bool {
    forall|a: int, b: int| 0 <= a < b < s.len() ==> s[a] > s[b]
}

/// Each element of `s` is less than the next.
pub open spec fn strictly_increasing(s: Seq<usize>) -> bool {
    forall|a: int, b: int| 0 <= a < b < s.len() ==> s[a] < s[b]
}

/// What the search finds has one index for each stop, none below `min_idx`,
/// each greater than the next, and a sum that fits the machine.
pub proof fn lemma_search_shape(min_idx: nat, ordered: Seq<Seq<(usize, u64)>>, j: nat)
    ensures
        search_from(min_idx, ordered, j) matches Some(found) ==> {
            &&& found.1.len() == ordered.len()
            &&& found.0 <= ordered.len() * 0xffff_ffff_ffff_ffff
            &&& strictly_decreasing(found.1)
            &&& forall|i: int| 0 <= i < found.1.len() ==> found.1[i] >= min_idx
        },
    decreases ordered.len(),
        (if ordered.len() > 0 {
            ordered[0].len() - j
        } else {
            0
        }),
{
    if ordered.len() == 0 {
    } else if j >= ordered[0].len() {
    } else {
        let candidate = ordered[0][j as int];
        let rest = ordered.drop_first();
        if candidate.0 >= min_idx {
            lemma_search_shape((candidate.0 + 1) as nat, rest, 0);
        }
        let sub = if candidate.0 >= min_idx {
            search_from((candidate.0 + 1) as nat, rest, 0)
        } else {
            None
        };
        match sub {
            Some(found) => {
                assert((ordered.len() - 1) * 0xffff_ffff_ffff_ffff + 0xffff_ffff_ffff_ffff
                    == ordered.len() * 0xffff_ffff_ffff_ffff) by (nonlinear_arith);
            },
            None => {
                lemma_search_shape(min_idx, ordered, j + 1);
            },
        }
    }
}

/// No assignment starts beyond the last index that the machine can hold.
pub proof fn lemma_search_beyond(min_idx: nat, ordered: Seq<Seq<(usize, u64)>>, j: nat)
    requires
        min_idx > usize::MAX,
        ordered.len() > 0,
    ensures
        search_from(min_idx, ordered, j) is None,
    decreases ordered[0].len() - j,
{
    if j < ordered[0].len() {
        lemma_search_beyond(min_idx, ordered, j + 1);
    }
}

/// Searches, depth first, for an assignment of stops to points. Each stop
/// has a list of candidates, nearest first; a stop takes the first of its
/// candidates that lies at or after `min_idx` and leaves the stops after it
/// an assignment to later points. Hands back the sum of the distances and the
/// indices, that of the last stop first.
pub fn find_bestest_route_stops(min_idx: usize, ordered_stop_idxs: &[Vec<(usize, u64)>]) -> (r:
    Option<(u128, Vec<usize>)>)
    ensures
        match spec_find_bestest_route_stops(min_idx as nat, candidate_lists(ordered_stop_idxs@)) {
            Some(found) => r matches Some(res) && res.0 == found.0 && res.1@ == found.1,
            None => r is None,
        },
        r matches Some(res) ==> {
            &&& res.1@.len() == ordered_stop_idxs@.len()
            &&& strictly_decreasing(res.1@)
            &&& forall|i: int| 0 <= i < res.1@.len() ==> res.1@[i] >= min_idx
        },
    decreases ordered_stop_idxs@.len(),
{
    let ghost lists = candidate_lists(ordered_stop_idxs@);
    proof {
        lemma_search_shape(min_idx as nat, lists, 0);
    }
    if ordered_stop_idxs.len() == 0 {
        return Some((0, Vec::new()));
    }
    let this_idxs = &ordered_stop_idxs[0];
    let other_idxs = slice_subrange(ordered_stop_idxs, 1, ordered_stop_idxs.len());
    assert(candidate_lists(other_idxs@) =~= lists.drop_first());
    let mut j: usize = 0;
    while j < this_idxs.len()
        invariant
            j <= this_idxs@.len(),
            lists == candidate_lists(ordered_stop_idxs@),
            0 < lists.len() <= usize::MAX,
            lists[0] == this_idxs@,
            candidate_lists(other_idxs@) == lists.drop_first(),
            other_idxs@.len() == ordered_stop_idxs@.len() - 1,
            search_from(min_idx as nat, lists, j as nat) == search_from(min_idx as nat, lists, 0),
            search_from(min_idx as nat, lists, 0) matches Some(found) ==> {
                &&& found.1.len() == lists.len()
                &&& found.0 <= lists.len() * 0xffff_ffff_ffff_ffff
                &&& strictly_decreasing(found.1)
                &&& forall|i: int| 0 <= i < found.1.len() ==> found.1[i] >= min_idx
            },
        decreases this_idxs@.len() - j,
    {
        let (idx, dist) = this_idxs[j];
        if idx >= min_idx {
            if idx == usize::MAX {
                if other_idxs.len() == 0 {
                    let mut stop_idxs: Vec<usize> = Vec::new();
                    stop_idxs.push(idx);
                    proof {
                        assert(lists.drop_first().len() == 0);
                        assert(search_from((idx + 1) as nat, lists.drop_first(), 0) == Some(
                            (0nat, Seq::<usize>::empty()),
                        ));
                        assert(stop_idxs@ =~= Seq::<usize>::empty().push(idx));
                    }
                    return Some((dist as u128, stop_idxs));
                }
                proof {
                    lemma_search_beyond((idx + 1) as nat, lists.drop_first(), 0);
                }
            } else {
                proof {
                    lemma_search_shape((idx + 1) as nat, lists.drop_first(), 0);
                }
                match find_bestest_route_stops(idx + 1, other_idxs) {
                    Some((sub_dist, mut stop_idxs)) => {
                        assert((lists.len() - 1) * 0xffff_ffff_ffff_ffff + 0xffff_ffff_ffff_ffff
                            == lists.len() * 0xffff_ffff_ffff_ffff) by (nonlinear_arith);
                        assert(lists.len() * 0xffff_ffff_ffff_ffff
                            <= 0xffff_ffff_ffff_ffff * 0xffff_ffff_ffff_ffff) by (nonlinear_arith)
                            requires
                                lists.len() <= 0xffff_ffff_ffff_ffff,
                        ;
                        stop_idxs.push(idx);
                        return Some((dist as u128 + sub_dist, stop_idxs));
                    },
                    None => {},
                }
            }
        }
        j += 1;
    }
    None
}

/// The index, from `lo` up to but not including `hi`, of the point that
/// lies nearest to `stop`; of several such points the first.
pub open spec fn nearest_index(stop: Stop, points: Seq<RouteSegment>, lo: int, hi: int) -> int
    decreases hi - lo,
{
    if hi - lo <= 1 {
        lo
    } else {
        let best = nearest_index(stop, points, lo, hi - 1);
        if point_distance(stop, points[hi - 1]) < point_distance(stop, points[best]) {
            hi - 1
        } else {
            best
        }
    }
}

/// The points that the stops are snapped to, from `min_idx` on: each stop
/// takes the nearest point that lies after the point of the stop before it
/// and leaves one point for each stop still to come.
pub open spec fn snap_indices(stops: Seq<Stop>, points: Seq<RouteSegment>, min_idx: int) -> Seq<
    usize,
>
    decreases stops.len(),
{
    if stops.len() == 0 {
        Seq::<usize>::empty()
    } else {
        let i = nearest_index(stops[0], points, min_idx, points.len() - stops.len() + 1);
        seq![i as usize] + snap_indices(stops.drop_first(), points, i + 1)
    }
}

/// The sum of the distances from each stop to the point assigned to it.
pub open spec fn assignment_cost(
    stops: Seq<Stop>,
    points: Seq<RouteSegment>,
    indices: Seq<usize>,
) -> nat
    decreases stops.len(),
{
    if stops.len() == 0 || indices.len() == 0 {
        0
    } else {
        point_distance(stops[0], points[indices[0] as int]) + assignment_cost(
            stops.drop_first(),
            points,
            indices.drop_first(),
        )
    }
}

/// What snapping `stops` onto `points` gives: nothing where there are more
/// stops than points, else the sum of the distances and the indices of the
/// points, in the order of the stops.
pub open spec fn spec_find_route_stops(stops: Seq<Stop>, points: Seq<RouteSegment>) -> Option<
    (nat, Seq<usize>),
> {
    if stops.len() <= points.len() {
        let indices = snap_indices(stops, points, 0);
        Some((assignment_cost(stops, points, indices), indices))
    } else {
        None
    }
}

/// `nearest_index` stays within its bounds, and no point within them comes
/// before the one it names.
pub proof fn lemma_nearest_index(stop: Stop, points: Seq<RouteSegment>, lo: int, hi: int)
    requires
        lo < hi,
    ensures
        lo <= nearest_index(stop, points, lo, hi) < hi,
        forall|i: int|
            lo <= i < hi ==> {
                let best = nearest_index(stop, points, lo, hi);
                point_distance(stop, points[best]) < point_distance(stop, #[trigger] points[i])
                    || (point_distance(stop, points[best]) == point_distance(stop, points[i])
                    && best <= i)
            },
    decreases hi - lo,
{
    if hi - lo > 1 {
        lemma_nearest_index(stop, points, lo, hi - 1);
    }
}

/// The snapped indices: one for each stop, each less than the next, none
/// below `min_idx` and all within the geometry.
pub proof fn lemma_snap_indices(stops: Seq<Stop>, points: Seq<RouteSegment>, min_idx: int)
    requires
        0 <= min_idx,
        min_idx + stops.len() <= points.len() <= usize::MAX,
    ensures
        snap_indices(stops, points, min_idx).len() == stops.len(),
        strictly_increasing(snap_indices(stops, points, min_idx)),
        forall|i: int|
            0 <= i < stops.len() ==> min_idx <= #[trigger] snap_indices(stops, points, min_idx)[i]
                < points.len(),
    decreases stops.len(),
{
    if stops.len() > 0 {
        let first = nearest_index(stops[0], points, min_idx, points.len() - stops.len() + 1);
        lemma_nearest_index(stops[0], points, min_idx, points.len() - stops.len() + 1);
        lemma_snap_indices(stops.drop_first(), points, first + 1);
        let rest = snap_indices(stops.drop_first(), points, first + 1);
        let all = snap_indices(stops, points, min_idx);
        assert forall|a: int, b: int| 0 <= a < b < all.len() implies all[a] < all[b] by {
            assert(all[b] == rest[b - 1]);
            if a > 0 {
                assert(all[a] == rest[a - 1]);
            }
        }
        assert forall|i: int| 0 <= i < stops.len() implies min_idx <= #[trigger] all[i]
            < points.len() by {
            if i > 0 {
                assert(all[i] == rest[i - 1]);
            }
        }
    }
}

/// The cost of an assignment is bounded by the number of stops.
pub proof fn lemma_assignment_cost_bound(
    stops: Seq<Stop>,
    points: Seq<RouteSegment>,
    indices: Seq<usize>,
)
    ensures
        assignment_cost(stops, points, indices) <= stops.len() * distance_limit(),
    decreases stops.len(),
{
    if stops.len() == 0 || indices.len() == 0 {
        assert(0 <= stops.len() * distance_limit()) by (nonlinear_arith);
    } else {
        lemma_assignment_cost_bound(stops.drop_first(), points, indices.drop_first());
        lemma_point_distance_bound(stops[0], points[indices[0] as int]);
        assert((stops.len() - 1) * distance_limit() + distance_limit() == stops.len()
            * distance_limit()) by (nonlinear_arith);
    }
}

/// With the geometry and the assignment fixed, the cost does not fall as
/// more of the stops are counted: the cost of the first `n` stops is at most
/// that of the first `n + 1`.
pub proof fn lemma_assignment_cost_monotone(
    stops: Seq<Stop>,
    points: Seq<RouteSegment>,
    indices: Seq<usize>,
    n: int,
)
    requires
        0 <= n < stops.len(),
        stops.len() == indices.len(),
    ensures
        assignment_cost(stops.take(n), points, indices.take(n)) <= assignment_cost(
            stops.take(n + 1),
            points,
            indices.take(n + 1),
        ),
    decreases n,
{
    let few = stops.take(n);
    let more = stops.take(n + 1);
    if n == 0 {
        assert(few.len() == 0);
    } else {
        lemma_assignment_cost_monotone(stops.drop_first(), points, indices.drop_first(), n - 1);
        assert(few.drop_first() =~= stops.drop_first().take(n - 1));
        assert(more.drop_first() =~= stops.drop_first().take(n));
        assert(indices.take(n).drop_first() =~= indices.drop_first().take(n - 1));
        assert(indices.take(n + 1).drop_first() =~= indices.drop_first().take(n));
        assert(few[0] == more[0]);
        assert(indices.take(n)[0] == indices.take(n + 1)[0]);
    }
}

/// Snapping no stops costs nothing.
pub proof fn lemma_snap_nothing(points: Seq<RouteSegment>)
    ensures
        spec_find_route_stops(Seq::<Stop>::empty(), points) == Some(
            (0nat, Seq::<usize>::empty()),
        ),
{
}

/// No two positions are as far apart as `distance_limit`.
pub proof fn lemma_point_distance_bound(stop: Stop, point: RouteSegment)
    ensures
        point_distance(stop, point) < distance_limit(),
{
    crate::geometry::lemma_distance_bound(stop.lat, stop.lon, point.lat, point.lon);
}

/// Each of `lists` is the nearest-first list of the stop at its position.
pub open spec fn all_nearest_first(
    lists: Seq<Seq<(usize, u64)>>,
    stops: Seq<Stop>,
    points: Seq<RouteSegment>,
) -> bool {
    &&& lists.len() == stops.len()
    &&& forall|s: int| 0 <= s < lists.len() ==> is_nearest_first(#[trigger] lists[s], stops[s], points)
}

/// Where fewer points are left than there are stops, the search fails.
proof fn lemma_search_infeasible(
    min_idx: nat,
    lists: Seq<Seq<(usize, u64)>>,
    stops: Seq<Stop>,
    points: Seq<RouteSegment>,
    j: nat,
)
    requires
        all_nearest_first(lists, stops, points),
        lists.len() >= 1,
        min_idx + lists.len() > points.len(),
    ensures
        search_from(min_idx, lists, j) is None,
    decreases lists.len(), lists[0].len() - j,
{
    if j < lists[0].len() {
        let candidate = lists[0][j as int];
        let rest = lists.drop_first();
        assert(is_nearest_first(lists[0], stops[0], points));
        assert(candidate.0 < points.len());
        if candidate.0 >= min_idx {
            assert(rest.len() >= 1);
            assert forall|s: int| 0 <= s < rest.len() implies is_nearest_first(
                #[trigger] rest[s],
                stops.drop_first()[s],
                points,
            ) by {
                assert(rest[s] == lists[s + 1]);
            }
            lemma_search_infeasible((candidate.0 + 1) as nat, rest, stops.drop_first(), points, 0);
        }
        lemma_search_infeasible(min_idx, lists, stops, points, j + 1);
    }
}

/// The candidates that stand before the nearest point of the window in the
/// list of the first stop are all passed over.
proof fn lemma_search_skips(
    min_idx: nat,
    lists: Seq<Seq<(usize, u64)>>,
    stops: Seq<Stop>,
    points: Seq<RouteSegment>,
    j: nat,
    target: nat,
)
    requires
        all_nearest_first(lists, stops, points),
        lists.len() >= 1,
        min_idx + lists.len() <= points.len(),
        j <= target < lists[0].len(),
        lists[0][target as int].0 == nearest_index(
            stops[0],
            points,
            min_idx as int,
            points.len() - lists.len() + 1,
        ),
    ensures
        search_from(min_idx, lists, j) == search_from(min_idx, lists, target),
    decreases target - j,
{
    if j < target {
        let candidate = lists[0][j as int];
        let goal = lists[0][target as int];
        let rest = lists.drop_first();
        assert(is_nearest_first(lists[0], stops[0], points));
        assert(candidate_before(candidate, goal));
        lemma_nearest_index(stops[0], points, min_idx as int, points.len() - lists.len() + 1);
        if candidate.0 >= min_idx {
            if candidate.0 <= points.len() - lists.len() {
                assert(point_distance(stops[0], points[goal.0 as int]) < point_distance(
                    stops[0],
                    points[candidate.0 as int],
                ) || (point_distance(stops[0], points[goal.0 as int]) == point_distance(
                    stops[0],
                    points[candidate.0 as int],
                ) && goal.0 <= candidate.0));
                assert(false);
            }
            assert(candidate.0 < points.len());
            assert(rest.len() >= 1);
            assert forall|s: int| 0 <= s < rest.len() implies is_nearest_first(
                #[trigger] rest[s],
                stops.drop_first()[s],
                points,
            ) by {
                assert(rest[s] == lists[s + 1]);
            }
            lemma_search_infeasible((candidate.0 + 1) as nat, rest, stops.drop_first(), points, 0);
        }
        lemma_search_skips(min_idx, lists, stops, points, j + 1, target);
    }
}

/// On nearest-first lists the depth-first search takes, for each stop, the
/// nearest point of its window.
pub proof fn lemma_search_is_snap(
    min_idx: nat,
    lists: Seq<Seq<(usize, u64)>>,
    stops: Seq<Stop>,
    points: Seq<RouteSegment>,
)
    requires
        all_nearest_first(lists, stops, points),
        points.len() <= usize::MAX,
    ensures
        min_idx + stops.len() <= points.len() ==> search_from(min_idx, lists, 0) == Some(
            (
                assignment_cost(stops, points, snap_indices(stops, points, min_idx as int)),
                snap_indices(stops, points, min_idx as int).reverse(),
            ),
        ),
        min_idx + stops.len() > points.len() && stops.len() >= 1 ==> search_from(
            min_idx,
            lists,
            0,
        ) is None,
    decreases stops.len(),
{
    if stops.len() == 0 {
        assert(snap_indices(stops, points, min_idx as int).reverse() =~= Seq::<usize>::empty());
    } else if min_idx + stops.len() > points.len() {
        lemma_search_infeasible(min_idx, lists, stops, points, 0);
    } else {
        let hi = points.len() - stops.len() + 1;
        let first = nearest_index(stops[0], points, min_idx as int, hi);
        lemma_nearest_index(stops[0], points, min_idx as int, hi);
        assert(is_nearest_first(lists[0], stops[0], points));
        assert(lists_index(lists[0], first));
        let target = choose|t: int| 0 <= t < lists[0].len() && (#[trigger] lists[0][t]).0 == first;
        lemma_search_skips(min_idx, lists, stops, points, 0, target as nat);
        let rest = lists.drop_first();
        let rest_stops = stops.drop_first();
        assert forall|s: int| 0 <= s < rest.len() implies is_nearest_first(
            #[trigger] rest[s],
            rest_stops[s],
            points,
        ) by {
            assert(rest[s] == lists[s + 1]);
        }
        lemma_search_is_snap((first + 1) as nat, rest, rest_stops, points);
        let tail = snap_indices(rest_stops, points, first + 1);
        let all = snap_indices(stops, points, min_idx as int);
        assert(all == seq![first as usize] + tail);
        assert(all.drop_first() =~= tail);
        lemma_snap_indices(rest_stops, points, first + 1);
        assert(all.reverse() =~= tail.reverse().push(first as usize));
        let goal = lists[0][target];
        assert(goal.1 == point_distance(stops[0], points[first]));
        assert(search_from((goal.0 + 1) as nat, rest, 0) == Some(
            (assignment_cost(rest_stops, points, tail), tail.reverse()),
        ));
    }
}

/// The elements of `v` in reverse order.
pub fn reversed(v: &Vec<usize>) -> (r: Vec<usize>)
    ensures
        r@ == v@.reverse(),
{
    let mut r: Vec<usize> = Vec::new();
    let mut i: usize = v.len();
    while i > 0
        invariant
            i <= v@.len(),
            r@.len() == v@.len() - i,
            forall|k: int| 0 <= k < r@.len() ==> r@[k] == v@[v@.len() - 1 - k],
        decreases i,
    {
        i -= 1;
        r.push(v[i]);
    }
    assert(r@ =~= v@.reverse());
    r
}

/// Snaps the stops that lie between the ends of a segment onto its
/// geometry. Each stop is assigned the nearest point that lies after the
/// point of the stop before it and leaves a point for each stop still to
/// come. Hands back the sum of the distances and the indices of the points,
/// in the order of the stops, or nothing where the geometry has fewer points
/// than there are stops.
pub fn find_route_stops(stops: &[Stop], route: &Route) -> (r: Option<(u128, Vec<usize>)>)
    ensures
        match spec_find_route_stops(stops@, route.route@) {
            Some(snap) => r matches Some(res) && res.0 == snap.0 && res.1@ == snap.1,
            None => r is None,
        },
        r is Some <==> stops@.len() <= route.route@.len(),
        r matches Some(res) ==> {
            &&& res.1@.len() == stops@.len()
            &&& strictly_increasing(res.1@)
            &&& forall|i: int| 0 <= i < res.1@.len() ==> res.1@[i] < route.route@.len()
            &&& res.0 == assignment_cost(stops@, route.route@, res.1@)
            &&& res.0 <= stops@.len() * distance_limit()
        },
{
    let mut ordered_routes: Vec<Vec<(usize, u64)>> = Vec::new();
    let mut s: usize = 0;
    while s < stops.len()
        invariant
            s <= stops@.len(),
            ordered_routes@.len() == s,
            forall|t: int|
                0 <= t < s ==> is_nearest_first(
                    (#[trigger] ordered_routes@[t])@,
                    stops@[t],
                    route.route@,
                ),
        decreases stops@.len() - s,
    {
        ordered_routes.push(order_route_idxs_by_closest(&stops[s], route));
        s += 1;
    }
    let ghost lists = candidate_lists(ordered_routes@);
    let ghost n = route.route@.len();
    proof {
        assert(route.route.len() == n);
        assert(all_nearest_first(lists, stops@, route.route@));
        lemma_search_is_snap(0, lists, stops@, route.route@);
        if stops@.len() <= n {
            lemma_snap_indices(stops@, route.route@, 0);
            lemma_assignment_cost_bound(stops@, route.route@, snap_indices(stops@, route.route@, 0));
        }
    }
    match find_bestest_route_stops(0, ordered_routes.as_slice()) {
        Some((dist, stop_indexes)) => {
            let stop_indexes = reversed(&stop_indexes);
            proof {
                let forward = snap_indices(stops@, route.route@, 0);
                assert(forward.reverse().reverse() =~= forward);
            }
            Some((dist, stop_indexes))
        },
        None => None,
    }
}

} // verus!
