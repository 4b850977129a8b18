//! Covering a trip with segments whose stops it names one after another.

use crate::data::route::{clone_ids, id_views, Route};
use vstd::prelude::*;

verus! {

/// What a list of stop lists holds.
pub open spec fn component_views(components: Seq<Vec<String>>) -> Seq<Seq<Seq<char>>> {
    Seq::new(components.len(), |i: int| id_views(components[i]@))
}

/// The trip names the stops of `component`, which are at least two, one
/// after another from position `offset` on.
pub open spec fn matches_at(
    stop_list: Seq<Seq<char>>,
    component: Seq<Seq<char>>,
    offset: int,
) -> bool {
    &&& component.len() >= 2
    &&& 0 <= offset
    &&& offset + component.len() <= stop_list.len()
    &&& stop_list.subrange(offset, offset + component.len()) == component
}

/// The first component, from number `from` on, that matches the trip at
/// `offset`.
pub open spec fn first_match(
    stop_list: Seq<Seq<char>>,
    components: Seq<Seq<Seq<char>>>,
    offset: int,
    from: int,
) -> Option<int>
    decreases components.len() - from,
{
    if from < 0 || from >= components.len() {
        None
    } else if matches_at(stop_list, components[from], offset) {
        Some(from)
    } else {
        first_match(stop_list, components, offset, from + 1)
    }
}

/// The components that cover the trip from `offset` on: at each place the
/// first component that matches there, and then what covers the trip from
/// the last stop of that component on. Nothing where, before the last stop of
/// the trip, no component matches.
pub open spec fn spec_components_from(
    stop_list: Seq<Seq<char>>,
    components: Seq<Seq<Seq<char>>>,
    offset: int,
) -> Option<Seq<usize>>
    decreases stop_list.len() - offset,
{
    if offset < 0 || offset + 1 >= stop_list.len() {
        Some(Seq::<usize>::empty())
    } else {
        match first_match(stop_list, components, offset, 0) {
            None => None,
            Some(i) => if 0 <= i < components.len() && components[i].len() >= 2 && offset
                + components[i].len() <= stop_list.len() {
                match spec_components_from(
                    stop_list,
                    components,
                    offset + components[i].len() - 1,
                ) {
                    Some(rest) => Some(seq![i as usize] + rest),
                    None => None,
                }
            } else {
                None
            },
        }
    }
}

/// `first_match` names a component that matches, within the list.
pub proof fn lemma_first_match(
    stop_list: Seq<Seq<char>>,
    components: Seq<Seq<Seq<char>>>,
    offset: int,
    from: int,
)
    requires
        0 <= from,
    ensures
        first_match(stop_list, components, offset, from) matches Some(i) ==> from <= i
            < components.len() && matches_at(stop_list, components[i], offset),
    decreases components.len() - from,
{
    if from < components.len() && !matches_at(stop_list, components[from], offset) {
        lemma_first_match(stop_list, components, offset, from + 1);
    }
}

/// Whether the trip names the stops of `component` from `offset` on.
fn component_matches(stop_list: &[String], component: &Vec<String>, offset: usize) -> (b: bool)
    requires
        offset <= stop_list@.len(),
    ensures
        b == matches_at(id_views(stop_list@), id_views(component@), offset as int),
{
    let ghost ids = id_views(stop_list@);
    let ghost part = id_views(component@);
    let n: usize = component.len();
    if n < 2 || n > stop_list.len() - offset {
        return false;
    }
    let mut k: usize = 0;
    while k < n
        invariant
            k <= n,
            n == component@.len(),
            offset + n <= stop_list@.len() <= usize::MAX,
            ids == id_views(stop_list@),
            part == id_views(component@),
            forall|j: int| 0 <= j < k ==> ids[offset + j] == part[j],
        decreases n - k,
    {
        assert(ids[offset + k] == stop_list@[offset + k]@);
        assert(part[k as int] == component@[k as int]@);
        if stop_list[offset + k] != component[k] {
            assert(ids.subrange(offset as int, offset + n)[k as int] != part[k as int]);
            return false;
        }
        k += 1;
    }
    assert(ids.subrange(offset as int, offset + n) =~= part);
    true
}

/// Covers a trip with components: lists of stops that the trip names one
/// after another, each starting at the stop at which the one before ends.
/// At each place the first component that matches is taken. Hands back the
/// numbers of the components, or nothing where, before the last stop of the
/// trip, no component matches. A component of fewer than two stops matches
/// nowhere.
pub fn find_route_components_used_in_stop_list(
    stop_list: &[String],
    components: &[Vec<String>],
) -> (r: Option<Vec<usize>>)
    ensures
        match spec_components_from(id_views(stop_list@), component_views(components@), 0) {
            Some(found) => r matches Some(list) && list@ == found,
            None => r is None,
        },
{
    let ghost ids = id_views(stop_list@);
    let ghost parts = component_views(components@);
    let len: usize = stop_list.len();
    let mut stop_offset: usize = 0;
    let mut route_components: Vec<usize> = Vec::new();
    while stop_offset < len && stop_offset + 1 < len
        invariant
            stop_offset <= len,
            len == stop_list@.len(),
            ids == id_views(stop_list@),
            parts == component_views(components@),
            match spec_components_from(ids, parts, stop_offset as int) {
                Some(rest) => spec_components_from(ids, parts, 0) == Some(
                    route_components@ + rest,
                ),
                None => spec_components_from(ids, parts, 0) is None,
            },
        decreases len - stop_offset,
    {
        let mut i: usize = 0;
        let mut found: Option<usize> = None;
        while i < components.len() && found.is_none()
            invariant
                i <= components@.len(),
                stop_offset + 1 < len,
                len == stop_list@.len(),
                ids == id_views(stop_list@),
                parts == component_views(components@),
                found is None ==> first_match(ids, parts, stop_offset as int, i as int)
                    == first_match(ids, parts, stop_offset as int, 0),
                found matches Some(c) ==> c < components@.len() && first_match(
                    ids,
                    parts,
                    stop_offset as int,
                    0,
                ) == Some(c as int),
            decreases components@.len() - i + (if found is None { 1int } else { 0int }),
        {
            assert(parts[i as int] == id_views(components@[i as int]@));
            if component_matches(stop_list, &components[i], stop_offset) {
                found = Some(i);
            } else {
                i += 1;
            }
        }
        match found {
            Some(c) => {
                proof {
                    lemma_first_match(ids, parts, stop_offset as int, 0);
                    assert(parts[c as int].len() == components@[c as int]@.len());
                    let next = stop_offset + parts[c as int].len() - 1;
                    match spec_components_from(ids, parts, next) {
                        Some(rest) => {
                            assert(route_components@ + (seq![c] + rest) =~= route_components@.push(
                                c,
                            ) + rest);
                        },
                        None => {},
                    }
                }
                route_components.push(c);
                stop_offset += components[c].len() - 1;
            },
            None => {
                return None;
            },
        }
    }
    proof {
        assert(route_components@ + Seq::<usize>::empty() =~= route_components@);
    }
    Some(route_components)
}

/// The stops of each route.
pub fn stop_lists(routes: &[Route]) -> (r: Vec<Vec<String>>)
    ensures
        r@.len() == routes@.len(),
        forall|i: int| 0 <= i < r@.len() ==> id_views((#[trigger] r@[i])@) == id_views(routes@[i].stops@),
{
    let mut r: Vec<Vec<String>> = Vec::new();
    let mut i: usize = 0;
    while i < routes.len()
        invariant
            i <= routes@.len(),
            r@.len() == i,
            forall|j: int| 0 <= j < i ==> id_views((#[trigger] r@[j])@) == id_views(routes@[j].stops@),
        decreases routes@.len() - i,
    {
        r.push(clone_ids(routes[i].stops.as_slice()));
        i += 1;
    }
    r
}

/// What the stops of each route hold.
pub open spec fn route_stop_views(routes: Seq<Route>) -> Seq<Seq<Seq<char>>> {
    Seq::new(routes.len(), |i: int| id_views(routes[i].stops@))
}

/// Covers a timetabled trip with the routes of a service, each taken by
/// the stops that it is held to pass.
pub fn get_route_for_timetabled_service(stops: &[String], routes: &[Route]) -> (r: Option<
    Vec<usize>,
>)
    ensures
        match spec_components_from(id_views(stops@), route_stop_views(routes@), 0) {
            Some(found) => r matches Some(list) && list@ == found,
            None => r is None,
        },
{
    let components = stop_lists(routes);
    assert(component_views(components@) =~= route_stop_views(routes@));
    find_route_components_used_in_stop_list(stops, components.as_slice())
}

} // verus!
