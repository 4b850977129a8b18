//! Cutting from a trip the stops that the common segments of its chains
//! cover.

use crate::builder::resolver::{find_position_from, first_position_from};
use crate::data::route::{clone_ids, id_views};
use crate::route_resolver::segment_ends::{
    no_segment_ends, put_segment_ends, segment_ends_of, SegmentEnds,
};
use crate::route_resolver::stops::StartEndRouteMap;
use vstd::prelude::*;
use vstd::slice::slice_subrange;

verus! {

/// What a map of segment ends holds.
pub open spec fn ends_view(ends: Map<usize, (&String, &String)>) -> Map<
    usize,
    (Seq<char>, Seq<char>),
> {
    Map::new(|i: usize| ends.contains_key(i), |i: usize| (ends[i].0@, ends[i].1@))
}

/// `held` with the first `n` of `segments` put in as segments from `start`
/// to `end`.
pub open spec fn ends_with_segments(
    held: Map<usize, (Seq<char>, Seq<char>)>,
    start: Seq<char>,
    end: Seq<char>,
    segments: Seq<usize>,
    n: int,
) -> Map<usize, (Seq<char>, Seq<char>)>
    decreases n,
{
    if n <= 0 {
        held
    } else {
        ends_with_segments(held, start, end, segments, n - 1).insert(segments[n - 1], (start, end))
    }
}

/// `held` with the segments to the first `e` end stops of `ends` put in.
pub open spec fn ends_with_ends(
    held: Map<usize, (Seq<char>, Seq<char>)>,
    start: Seq<char>,
    ends: crate::ordered_map::OrderedMap<Vec<usize>>,
    e: int,
) -> Map<usize, (Seq<char>, Seq<char>)>
    decreases e,
{
    if e <= 0 {
        held
    } else {
        let end = ends.keys()[e - 1];
        ends_with_segments(
            ends_with_ends(held, start, ends, e - 1),
            start,
            end,
            ends@[end]@,
            ends@[end]@.len() as int,
        )
    }
}

/// The two stops of each segment from the first `s` start stops of `map`.
pub open spec fn ends_upto(map: StartEndRouteMap, s: int) -> Map<usize, (Seq<char>, Seq<char>)>
    decreases s,
{
    if s <= 0 {
        Map::<usize, (Seq<char>, Seq<char>)>::empty()
    } else {
        let start = map.keys()[s - 1];
        ends_with_ends(ends_upto(map, s - 1), start, map@[start], map@[start].keys().len() as int)
    }
}

/// The two stops of each segment that `map` lists. Where it lists a segment
/// more than once, the last listing stands, in the order of the keys.
pub open spec fn spec_reverse_map(map: StartEndRouteMap) -> Map<usize, (Seq<char>, Seq<char>)> {
    ends_upto(map, map.keys().len() as int)
}

/// Turns the map from stops to segments round: gives for each segment the
/// two stops that it joins.
pub fn reverse_map_start_to_end<'a>(map_start_to_ends: &'a StartEndRouteMap) -> (r: SegmentEnds<
    'a,
>)
    ensures
        ends_view(r@) == spec_reverse_map(*map_start_to_ends),
{
    let mut r: SegmentEnds<'a> = no_segment_ends();
    let starts: usize = map_start_to_ends.len();
    let mut s: usize = 0;
    assert(ends_view(r@) =~= ends_upto(*map_start_to_ends, 0));
    while s < starts
        invariant
            s <= starts,
            starts == map_start_to_ends.keys().len(),
            map_start_to_ends.wf(),
            ends_view(r@) == ends_upto(*map_start_to_ends, s as int),
        decreases starts - s,
    {
        let start = map_start_to_ends.key_at(s);
        let ends_to_route = map_start_to_ends.value_at(s);
        assert(map_start_to_ends@[map_start_to_ends.keys()[s as int]] == map_start_to_ends.values()[s as int]);
        let ends: usize = ends_to_route.len();
        let ghost base = ends_view(r@);
        let mut e: usize = 0;
        while e < ends
            invariant
                e <= ends,
                ends == ends_to_route.keys().len(),
                ends_to_route.wf(),
                ends_view(r@) == ends_with_ends(base, start@, *ends_to_route, e as int),
            decreases ends - e,
        {
            let end = ends_to_route.key_at(e);
            let route_ids = ends_to_route.value_at(e);
            assert(ends_to_route@[ends_to_route.keys()[e as int]] == ends_to_route.values()[e as int]);
            let ghost inner = ends_view(r@);
            let mut k: usize = 0;
            while k < route_ids.len()
                invariant
                    k <= route_ids@.len(),
                    ends_view(r@) == ends_with_segments(inner, start@, end@, route_ids@, k as int),
                decreases route_ids@.len() - k,
            {
                let ghost before = ends_view(r@);
                put_segment_ends(&mut r, route_ids[k], start, end);
                assert(ends_view(r@) =~= before.insert(route_ids@[k as int], (start@, end@)));
                k += 1;
            }
            e += 1;
        }
        s += 1;
    }
    r
}

/// The last position at which `route` names `stop`, looking from before
/// `upto` backwards.
pub open spec fn last_position_before(route: Seq<Seq<char>>, stop: Seq<char>, upto: int) -> Option<
    int,
>
    decreases upto,
{
    if upto <= 0 || upto > route.len() {
        None
    } else if route[upto - 1] == stop {
        Some(upto - 1)
    } else {
        last_position_before(route, stop, upto - 1)
    }
}

/// What is left of a trip when a common segment is cut from its start: the
/// trip from the first place where it names the end of the segment, or
/// nothing where only that stop is left. There is no answer where the trip
/// does not start at the start of the segment or does not name its end.
pub open spec fn cut_from_start(route: Seq<Seq<char>>, start: Seq<char>, end: Seq<char>) -> Option<
    Seq<Seq<char>>,
> {
    if route.len() == 0 || route[0] != start {
        None
    } else {
        match first_position_from(route, end, 0) {
            None => None,
            Some(p) => if route.len() - p == 1 {
                Some(Seq::<Seq<char>>::empty())
            } else {
                Some(route.skip(p))
            },
        }
    }
}

/// What is left of a trip when a common segment is cut from its end: the
/// trip up to the last place where it names the start of the segment, or
/// nothing where only that stop is left. There is no answer where the trip
/// does not end at the end of the segment or does not name its start.
pub open spec fn cut_from_end(route: Seq<Seq<char>>, start: Seq<char>, end: Seq<char>) -> Option<
    Seq<Seq<char>>,
> {
    if route.len() == 0 || route.last() != end {
        None
    } else {
        match last_position_before(route, start, route.len() as int) {
            None => None,
            Some(p) => if p == 0 {
                Some(Seq::<Seq<char>>::empty())
            } else {
                Some(route.take(p + 1))
            },
        }
    }
}

/// What is left of `route` when the segments of `prefix` from number `k` on
/// are cut from its start, in their order.
pub open spec fn cut_prefix(
    route: Seq<Seq<char>>,
    ends: Map<usize, (Seq<char>, Seq<char>)>,
    prefix: Seq<usize>,
    k: int,
) -> Option<Seq<Seq<char>>>
    decreases prefix.len() - k,
{
    if k < 0 || k >= prefix.len() {
        Some(route)
    } else if !ends.contains_key(prefix[k]) {
        None
    } else {
        match cut_from_start(route, ends[prefix[k]].0, ends[prefix[k]].1) {
            None => None,
            Some(rest) => cut_prefix(rest, ends, prefix, k + 1),
        }
    }
}

/// What is left of `route` when the first `k` segments of `postfix` are cut
/// from its end, the last of them first.
pub open spec fn cut_postfix(
    route: Seq<Seq<char>>,
    ends: Map<usize, (Seq<char>, Seq<char>)>,
    postfix: Seq<usize>,
    k: int,
) -> Option<Seq<Seq<char>>>
    decreases k,
{
    if k <= 0 || k > postfix.len() {
        Some(route)
    } else if !ends.contains_key(postfix[k - 1]) {
        None
    } else {
        match cut_from_end(route, ends[postfix[k - 1]].0, ends[postfix[k - 1]].1) {
            None => None,
            Some(rest) => cut_postfix(rest, ends, postfix, k - 1),
        }
    }
}

/// What is left of a trip when the common segments are cut from it.
pub open spec fn spec_prune(
    route: Seq<Seq<char>>,
    ends: Map<usize, (Seq<char>, Seq<char>)>,
    prefix: Seq<usize>,
    postfix: Seq<usize>,
) -> Option<Seq<Seq<char>>> {
    match cut_prefix(route, ends, prefix, 0) {
        None => None,
        Some(rest) => cut_postfix(rest, ends, postfix, postfix.len() as int),
    }
}

/// The last position at which the trip names `stop`.
fn last_position_of(route: &Vec<String>, stop: &String) -> (r: Option<usize>)
    ensures
        match last_position_before(id_views(route@), stop@, route@.len() as int) {
            Some(p) => r matches Some(q) && q == p,
            None => r is None,
        },
        r matches Some(p) ==> p < route@.len(),
{
    let ghost ids = id_views(route@);
    let mut i: usize = route.len();
    while i > 0
        invariant
            i <= route@.len(),
            ids == id_views(route@),
            last_position_before(ids, stop@, i as int) == last_position_before(
                ids,
                stop@,
                route@.len() as int,
            ),
        decreases i,
    {
        assert(ids[i - 1] == route@[i - 1]@);
        if route[i - 1] == *stop {
            return Some(i - 1);
        }
        i -= 1;
    }
    None
}

/// Cuts from a trip the stops that the common segments of its chains cover:
/// the segments of `prefix` from its start, in their order, and those of
/// `postfix` from its end, the last first. Hands back what is left of the
/// trip, or nothing where a segment is not in `ids_to_start_end` or the trip
/// does not run along it.
pub fn prune_common_segments_from_route(
    orig_route: &[String],
    ids_to_start_end: &SegmentEnds,
    prefix: &Vec<usize>,
    postfix: &Vec<usize>,
) -> (r: Option<Vec<String>>)
    ensures
        match spec_prune(
            id_views(orig_route@),
            ends_view(ids_to_start_end@),
            prefix@,
            postfix@,
        ) {
            Some(left) => r matches Some(route) && id_views(route@) == left,
            None => r is None,
        },
{
    let ghost ends = ends_view(ids_to_start_end@);
    let ghost whole = id_views(orig_route@);
    let mut route: Vec<String> = clone_ids(orig_route);
    let mut k: usize = 0;
    while k < prefix.len()
        invariant
            k <= prefix@.len(),
            ends == ends_view(ids_to_start_end@),
            whole == id_views(orig_route@),
            cut_prefix(id_views(route@), ends, prefix@, k as int) == cut_prefix(
                whole,
                ends,
                prefix@,
                0,
            ),
        decreases prefix@.len() - k,
    {
        let idx: usize = prefix[k];
        let (start, end) = match segment_ends_of(ids_to_start_end, idx) {
            Some(pair) => pair,
            None => {
                return None;
            },
        };
        if route.len() == 0 || route[0] != *start {
            proof {
                if route@.len() > 0 {
                    assert(id_views(route@)[0] == route@[0]@);
                }
            }
            return None;
        }
        assert(id_views(route@)[0] == route@[0]@);
        let end_idx: usize = match find_position_from(route.as_slice(), end, 0) {
            Some(p) => p,
            None => {
                return None;
            },
        };
        let ghost before = id_views(route@);
        if route.len() - end_idx == 1 {
            route = Vec::new();
            assert(id_views(route@) =~= Seq::<Seq<char>>::empty());
        } else {
            route = clone_ids(slice_subrange(route.as_slice(), end_idx, route.len()));
            assert(id_views(route@) =~= before.skip(end_idx as int));
        }
        k += 1;
    }
    let ghost middle = id_views(route@);
    let mut k: usize = postfix.len();
    while k > 0
        invariant
            k <= postfix@.len(),
            ends == ends_view(ids_to_start_end@),
            whole == id_views(orig_route@),
            cut_prefix(whole, ends, prefix@, 0) == Some(middle),
            cut_postfix(id_views(route@), ends, postfix@, k as int) == cut_postfix(
                middle,
                ends,
                postfix@,
                postfix@.len() as int,
            ),
        decreases k,
    {
        let idx: usize = postfix[k - 1];
        let (start, end) = match segment_ends_of(ids_to_start_end, idx) {
            Some(pair) => pair,
            None => {
                return None;
            },
        };
        if route.len() == 0 || route[route.len() - 1] != *end {
            proof {
                if route@.len() > 0 {
                    assert(id_views(route@).last() == route@[route@.len() - 1]@);
                }
            }
            return None;
        }
        assert(id_views(route@).last() == route@[route@.len() - 1]@);
        let start_idx: usize = match last_position_of(&route, start) {
            Some(p) => p,
            None => {
                return None;
            },
        };
        let ghost before = id_views(route@);
        if start_idx == 0 {
            route = Vec::new();
            assert(id_views(route@) =~= Seq::<Seq<char>>::empty());
        } else {
            route = clone_ids(slice_subrange(route.as_slice(), 0, start_idx + 1));
            assert(id_views(route@) =~= before.take(start_idx + 1));
        }
        k -= 1;
    }
    Some(route)
}

} // verus!
