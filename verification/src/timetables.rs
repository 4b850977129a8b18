//! Gathering the trips of the timetables by the stops that they visit.

use crate::data::route::id_views;
use crate::data::timetable::{
    date_before, Date, Direction, RouteDirection, Timestamp, Timetable, TimetabledRoute,
};
use crate::ordered_map::OrderedMap;
use crate::text::keys_ascending;
use crate::utils::reverse_list;
use vstd::prelude::*;

verus! {

/// When a trip runs: the day, the direction and the times at its stops.
pub type TimetableTiming = (Date, RouteDirection, Vec<Timestamp>);

/// The trips that visit the same stops in the same order.
#[derive(Debug, PartialEq, Eq)]
pub struct RouteTimings {
    pub stops: Vec<String>,
    pub timings: Vec<TimetableTiming>,
}

/// The trips of the timetables by the stops that they visit.
pub type TimetablesByRoute = Vec<RouteTimings>;

/// A trip as the timetables list it: its stops, and when it runs.
pub type ListedTrip = (Seq<Seq<char>>, TimetableTiming);

/// Whether a timetable counts: it does unless its day comes before `after`.
pub open spec fn counts(timetable: Timetable, after: Option<Date>) -> bool {
    match after {
        Some(after) => !date_before(timetable.day, after),
        None => true,
    }
}

/// The first `n` trips of a timetable.
pub open spec fn trips_of(timetable: Timetable, n: nat) -> Seq<ListedTrip>
    decreases n,
{
    if n == 0 {
        Seq::<ListedTrip>::empty()
    } else {
        let trip = timetable.timetables@[n - 1];
        trips_of(timetable, (n - 1) as nat).push(
            (id_views(trip.stops@), (timetable.day, timetable.direction, trip.times)),
        )
    }
}

/// The trips of the timetables that count, in their order.
pub open spec fn listed_trips(timetables: Seq<Timetable>, after: Option<Date>) -> Seq<ListedTrip>
    decreases timetables.len(),
{
    if timetables.len() == 0 {
        Seq::<ListedTrip>::empty()
    } else {
        let last = timetables.last();
        let before = listed_trips(timetables.drop_last(), after);
        if counts(last, after) {
            before + trips_of(last, last.timetables@.len())
        } else {
            before
        }
    }
}

/// When the trips of `trips` that visit `stops` run, in their order.
pub open spec fn timings_listed(trips: Seq<ListedTrip>, stops: Seq<Seq<char>>) -> Seq<
    TimetableTiming,
>
    decreases trips.len(),
{
    if trips.len() == 0 {
        Seq::<TimetableTiming>::empty()
    } else if trips.last().0 == stops {
        timings_listed(trips.drop_last(), stops).push(trips.last().1)
    } else {
        timings_listed(trips.drop_last(), stops)
    }
}

/// The first entry, from position `from` on, that holds the trips that
/// visit `stops`.
pub open spec fn entry_of(routes: Seq<RouteTimings>, stops: Seq<Seq<char>>, from: int) -> Option<
    int,
>
    decreases routes.len() - from,
{
    if from < 0 || from >= routes.len() {
        None
    } else if id_views(routes[from].stops@) == stops {
        Some(from)
    } else {
        entry_of(routes, stops, from + 1)
    }
}

/// When the trips that visit `stops` run, as `routes` holds it.
pub open spec fn timings_under(routes: Seq<RouteTimings>, stops: Seq<Seq<char>>) -> Seq<
    TimetableTiming,
> {
    match entry_of(routes, stops, 0) {
        Some(i) => routes[i].timings@,
        None => Seq::<TimetableTiming>::empty(),
    }
}

/// No two entries hold the trips of the same stops, and no entry is empty.
pub open spec fn entries_distinct(routes: Seq<RouteTimings>) -> bool {
    &&& forall|i: int, j: int|
        0 <= i < j < routes.len() ==> id_views((#[trigger] routes[i]).stops@) != id_views(
            (#[trigger] routes[j]).stops@,
        )
    &&& forall|i: int| 0 <= i < routes.len() ==> (#[trigger] routes[i]).timings@.len() > 0
}

/// `routes` holds the trips of `trips` by their stops: under each list of
/// stops the trips that visit it, in their order.
pub open spec fn is_grouping(routes: Seq<RouteTimings>, trips: Seq<ListedTrip>) -> bool {
    &&& entries_distinct(routes)
    &&& forall|stops: Seq<Seq<char>>| #[trigger]
        timings_under(routes, stops) == timings_listed(trips, stops)
}

/// `entry_of` names an entry of the stops, and the first one.
pub proof fn lemma_entry_of(routes: Seq<RouteTimings>, stops: Seq<Seq<char>>, from: int)
    requires
        0 <= from,
    ensures
        match entry_of(routes, stops, from) {
            Some(i) => from <= i < routes.len() && id_views(routes[i].stops@) == stops
                && forall|j: int| from <= j < i ==> id_views(routes[j].stops@) != stops,
            None => forall|j: int| from <= j < routes.len() ==> id_views(routes[j].stops@) != stops,
        },
    decreases routes.len() - from,
{
    if from < routes.len() && id_views(routes[from].stops@) != stops {
        lemma_entry_of(routes, stops, from + 1);
    }
}

/// Whether two lists hold the same identifiers.
pub fn same_ids(a: &Vec<String>, b: &Vec<String>) -> (same: bool)
    ensures
        same == (id_views(a@) == id_views(b@)),
{
    if a.len() != b.len() {
        assert(id_views(a@).len() != id_views(b@).len());
        return false;
    }
    let mut i: usize = 0;
    while i < a.len()
        invariant
            i <= a@.len(),
            a@.len() == b@.len(),
            forall|j: int| 0 <= j < i ==> a@[j]@ == b@[j]@,
        decreases a@.len() - i,
    {
        if a[i] != b[i] {
            assert(id_views(a@)[i as int] != id_views(b@)[i as int]);
            return false;
        }
        i += 1;
    }
    assert(id_views(a@) =~= id_views(b@));
    true
}

/// The position of the entry that holds the trips of `stops`.
fn find_entry(routes: &Vec<RouteTimings>, stops: &Vec<String>) -> (r: Option<usize>)
    ensures
        match entry_of(routes@, id_views(stops@), 0) {
            Some(i) => r matches Some(p) && p == i,
            None => r is None,
        },
        r matches Some(p) ==> p < routes@.len(),
{
    let mut i: usize = 0;
    while i < routes.len()
        invariant
            entry_of(routes@, id_views(stops@), i as int) == entry_of(routes@, id_views(stops@), 0),
        decreases routes@.len() - i,
    {
        if same_ids(&routes[i].stops, stops) {
            return Some(i);
        }
        i += 1;
    }
    None
}

/// Puts a trip under its stops: behind the trips that are held for the same
/// stops, or into a new entry where there are none.
pub fn add_timing(routes: &mut Vec<RouteTimings>, stops: Vec<String>, timing: TimetableTiming)
    requires
        entries_distinct(old(routes)@),
    ensures
        entries_distinct(final(routes)@),
        forall|key: Seq<Seq<char>>| #[trigger]
            timings_under(final(routes)@, key) == if key == id_views(stops@) {
                timings_under(old(routes)@, key).push(timing)
            } else {
                timings_under(old(routes)@, key)
            },
{
    let ghost before = routes@;
    let ghost added = id_views(stops@);
    proof {
        lemma_entry_of(before, added, 0);
    }
    match find_entry(routes, &stops) {
        Some(i) => {
            let mut entry = routes.remove(i);
            entry.timings.push(timing);
            routes.insert(i, entry);
            proof {
                let now = routes@;
                assert(now.len() == before.len());
                assert forall|j: int| 0 <= j < now.len() implies id_views(
                    (#[trigger] now[j]).stops@,
                ) == id_views(before[j].stops@) by {}
                assert forall|key: Seq<Seq<char>>| #[trigger]
                    timings_under(now, key) == if key == added {
                        timings_under(before, key).push(timing)
                    } else {
                        timings_under(before, key)
                    } by {
                    lemma_entry_of(before, key, 0);
                    lemma_entry_of(now, key, 0);
                    match entry_of(before, key, 0) {
                        Some(a) => {
                            match entry_of(now, key, 0) {
                                Some(b) => {
                                    if a < b {
                                        assert(id_views(now[a].stops@) == key);
                                    } else if b < a {
                                        assert(id_views(before[b].stops@) == key);
                                    }
                                    if key != added {
                                        assert(a != i);
                                        assert(now[a] == before[a]);
                                    }
                                },
                                None => {
                                    assert(id_views(now[a].stops@) == key);
                                },
                            }
                        },
                        None => {
                            match entry_of(now, key, 0) {
                                Some(b) => {
                                    assert(id_views(before[b].stops@) == key);
                                },
                                None => {},
                            }
                        },
                    }
                }
            }
        },
        None => {
            let mut timings: Vec<TimetableTiming> = Vec::new();
            timings.push(timing);
            routes.push(RouteTimings { stops, timings });
            proof {
                let now = routes@;
                assert forall|key: Seq<Seq<char>>| #[trigger]
                    timings_under(now, key) == if key == added {
                        timings_under(before, key).push(timing)
                    } else {
                        timings_under(before, key)
                    } by {
                    lemma_entry_of(before, key, 0);
                    lemma_entry_of(now, key, 0);
                    match entry_of(now, key, 0) {
                        Some(b) => {
                            if b < before.len() {
                                assert(now[b] == before[b]);
                                match entry_of(before, key, 0) {
                                    Some(a) => {
                                        if a < b {
                                            assert(now[a] == before[a]);
                                        }
                                    },
                                    None => {},
                                }
                            } else {
                                assert(now[b].timings@ =~= Seq::<TimetableTiming>::empty().push(
                                    timing,
                                ));
                            }
                        },
                        None => {
                            assert(id_views(now[before.len() as int].stops@) == added);
                            match entry_of(before, key, 0) {
                                Some(a) => {
                                    assert(now[a] == before[a]);
                                },
                                None => {},
                            }
                        },
                    }
                }
            }
        },
    }
}

/// Gathers the trips of the timetables by the stops that they visit. A
/// timetable whose day comes before `after` is passed over. Under each list
/// of stops stand the trips that visit it, each with its day, its direction
/// and its times, in the order of the timetables.
pub fn organise_timetables(ttbls: Vec<Timetable>, after: Option<Date>) -> (timetables:
    TimetablesByRoute)
    ensures
        is_grouping(timetables@, listed_trips(ttbls@, after)),
{
    let ghost all = ttbls@;
    let mut timetables: TimetablesByRoute = Vec::new();
    let mut pending = reverse_list(ttbls);
    let ghost done: int = 0;
    proof {
        assert(all.take(0) =~= Seq::<Timetable>::empty());
        assert forall|stops: Seq<Seq<char>>| #[trigger]
            timings_under(timetables@, stops) == timings_listed(
                listed_trips(all.take(0), after),
                stops,
            ) by {}
    }
    while pending.len() > 0
        invariant
            0 <= done <= all.len(),
            pending@.len() == all.len() - done,
            forall|k: int| 0 <= k < pending@.len() ==> pending@[k] == all[all.len() - 1 - k],
            is_grouping(timetables@, listed_trips(all.take(done), after)),
        decreases pending@.len(),
    {
        let timetable = pending.pop().unwrap();
        assert(timetable == all[done]);
        proof {
            assert(all.take(done + 1).drop_last() =~= all.take(done));
            assert(all.take(done + 1).last() == timetable);
        }
        let ghost seen = listed_trips(all.take(done), after);
        let date = timetable.day;
        let keep = match after {
            None => true,
            Some(after) => !date.is_before(&after),
        };
        if keep {
            let direction = timetable.direction;
            let ghost whole = timetable;
            let ghost trips = timetable.timetables@;
            let mut routes = reverse_list(timetable.timetables);
            let ghost taken: nat = 0;
            assert(seen + trips_of(whole, 0) =~= seen);
            while routes.len() > 0
                invariant
                    taken <= trips.len(),
                    trips == whole.timetables@,
                    date == whole.day,
                    direction == whole.direction,
                    routes@.len() == trips.len() - taken,
                    forall|k: int|
                        0 <= k < routes@.len() ==> routes@[k] == trips[trips.len() - 1 - k],
                    is_grouping(timetables@, seen + trips_of(whole, taken)),
                decreases routes@.len(),
            {
                let route = routes.pop().unwrap();
                assert(route == trips[taken as int]);
                let ghost listed = seen + trips_of(whole, taken);
                let ghost trip: ListedTrip = (id_views(route.stops@), (date, direction, route.times));
                add_timing(&mut timetables, route.stops, (date, direction, route.times));
                proof {
                    let more = seen + trips_of(whole, taken + 1);
                    assert(more =~= listed.push(trip));
                    assert(more.drop_last() =~= listed);
                    assert forall|stops: Seq<Seq<char>>| #[trigger]
                        timings_under(timetables@, stops) == timings_listed(more, stops) by {
                        assert(timings_under(timetables@, stops) == if stops == trip.0 {
                            timings_listed(listed, stops).push(trip.1)
                        } else {
                            timings_listed(listed, stops)
                        });
                    }
                    taken = taken + 1;
                }
            }
        }
        proof {
            done = done + 1;
        }
    }
    proof {
        assert(all.take(done) =~= all);
    }
    timetables
}

/// A trip of a service: its direction, the stops that it visits and the
/// times at which it does.
#[derive(Debug, PartialEq, Eq)]
pub struct ServiceTimetableEntry {
    pub direction: Direction,
    pub stops: Vec<String>,
    pub times: Vec<Timestamp>,
}

/// The trips of a service.
#[derive(Debug, PartialEq, Eq)]
pub struct ServiceTimetable {
    pub code: String,
    pub entries: Vec<ServiceTimetableEntry>,
}

/// The direction of a timetable.
pub open spec fn direction_of(direction: RouteDirection) -> Direction {
    match direction {
        RouteDirection::Inbound => Direction::Inbound,
        RouteDirection::Outbound => Direction::Outbound,
    }
}

/// The first `n` trips of a timetable as trips of its service.
pub open spec fn entries_of(timetable: Timetable, n: nat) -> Seq<ServiceTimetableEntry>
    decreases n,
{
    if n == 0 {
        Seq::<ServiceTimetableEntry>::empty()
    } else {
        let trip = timetable.timetables@[n - 1];
        entries_of(timetable, (n - 1) as nat).push(
            ServiceTimetableEntry {
                direction: direction_of(timetable.direction),
                stops: trip.stops,
                times: trip.times,
            },
        )
    }
}

/// The trips of the service `code` in the timetables, in their order.
pub open spec fn entries_listed(timetables: Seq<Timetable>, code: Seq<char>) -> Seq<
    ServiceTimetableEntry,
>
    decreases timetables.len(),
{
    if timetables.len() == 0 {
        Seq::<ServiceTimetableEntry>::empty()
    } else {
        let last = timetables.last();
        let before = entries_listed(timetables.drop_last(), code);
        if last.service@ == code {
            before + entries_of(last, last.timetables@.len())
        } else {
            before
        }
    }
}

/// One of the timetables is a timetable of the service `code`.
pub open spec fn names_service(timetables: Seq<Timetable>, code: Seq<char>) -> bool {
    exists|i: int| 0 <= i < timetables.len() && (#[trigger] timetables[i]).service@ == code
}

/// One of the services bears the code `code`.
pub open spec fn has_service(services: Seq<ServiceTimetable>, code: Seq<char>) -> bool {
    exists|i: int| 0 <= i < services.len() && (#[trigger] services[i]).code@ == code
}

/// The codes of the services.
pub open spec fn service_codes(services: Seq<ServiceTimetable>) -> Seq<Seq<char>> {
    Seq::new(services.len(), |i: int| services[i].code@)
}

/// A service that no timetable names has no trips.
pub proof fn lemma_entries_of_unnamed(timetables: Seq<Timetable>, code: Seq<char>)
    requires
        !names_service(timetables, code),
    ensures
        entries_listed(timetables, code) == Seq::<ServiceTimetableEntry>::empty(),
    decreases timetables.len(),
{
    if timetables.len() > 0 {
        let before = timetables.drop_last();
        assert(timetables.last() == timetables[timetables.len() - 1]);
        assert forall|i: int| 0 <= i < before.len() implies (#[trigger] before[i]).service@
            != code by {
            assert(before[i] == timetables[i]);
        }
        lemma_entries_of_unnamed(before, code);
    }
}

/// Gathers the trips of the timetables by their services. Hands back the
/// services in the order of their codes, each with the trips of its
/// timetables in their order.
pub fn from_py_timetables(ts: Vec<Timetable>) -> (services: Vec<ServiceTimetable>)
    ensures
        keys_ascending(service_codes(services@)),
        forall|i: int|
            0 <= i < services@.len() ==> (#[trigger] services@[i]).entries@ == entries_listed(
                ts@,
                services@[i].code@,
            ),
        forall|code: Seq<char>| #[trigger]
            has_service(services@, code) <==> names_service(ts@, code),
{
    let ghost all = ts@;
    let mut by_code: OrderedMap<Vec<ServiceTimetableEntry>> = OrderedMap::new();
    let mut pending = reverse_list(ts);
    let ghost done: int = 0;
    assert(all.take(0) =~= Seq::<Timetable>::empty());
    while pending.len() > 0
        invariant
            0 <= done <= all.len(),
            pending@.len() == all.len() - done,
            forall|k: int| 0 <= k < pending@.len() ==> pending@[k] == all[all.len() - 1 - k],
            forall|code: Seq<char>| #[trigger]
                by_code@.contains_key(code) <==> names_service(all.take(done), code),
            forall|code: Seq<char>| #[trigger]
                by_code@.contains_key(code) ==> by_code@[code]@ == entries_listed(
                    all.take(done),
                    code,
                ),
        decreases pending@.len(),
    {
        let timetable = pending.pop().unwrap();
        assert(timetable == all[done]);
        let ghost whole = timetable;
        let ghost seen = all.take(done);
        let ghost now = all.take(done + 1);
        let ghost before = by_code@;
        let ghost this = timetable.service@;
        proof {
            assert(now.drop_last() =~= seen);
            assert(now.last() == timetable);
            if !names_service(seen, this) {
                lemma_entries_of_unnamed(seen, this);
            }
        }
        let direction = match timetable.direction {
            RouteDirection::Inbound => Direction::Inbound,
            RouteDirection::Outbound => Direction::Outbound,
        };
        let mut entries: Vec<ServiceTimetableEntry> = match by_code.remove(
            timetable.service.as_str(),
        ) {
            Some(entries) => entries,
            None => Vec::new(),
        };
        let ghost held = entries@;
        assert(held == entries_listed(seen, this));
        let ghost trips = timetable.timetables@;
        let mut routes = reverse_list(timetable.timetables);
        let ghost taken: nat = 0;
        assert(held + entries_of(whole, 0) =~= held);
        while routes.len() > 0
            invariant
                taken <= trips.len(),
                trips == whole.timetables@,
                direction == direction_of(whole.direction),
                routes@.len() == trips.len() - taken,
                forall|k: int| 0 <= k < routes@.len() ==> routes@[k] == trips[trips.len() - 1 - k],
                entries@ == held + entries_of(whole, taken),
            decreases routes@.len(),
        {
            let route = routes.pop().unwrap();
            assert(route == trips[taken as int]);
            let ghost listed = entries@;
            entries.push(
                ServiceTimetableEntry { direction, stops: route.stops, times: route.times },
            );
            proof {
                assert(held + entries_of(whole, taken + 1) =~= listed.push(
                    entries@[entries@.len() - 1],
                ));
                taken = taken + 1;
            }
        }
        by_code.insert(timetable.service, entries);
        proof {
            assert forall|code: Seq<char>| #[trigger]
                by_code@.contains_key(code) <==> names_service(now, code) by {
                if names_service(seen, code) {
                    let i = choose|i: int| 0 <= i < seen.len() && (#[trigger] seen[i]).service@
                        == code;
                    assert(now[i].service@ == code);
                }
                if code == this {
                    assert(now[done].service@ == code);
                }
                if names_service(now, code) && code != this {
                    let i = choose|i: int| 0 <= i < now.len() && (#[trigger] now[i]).service@
                        == code;
                    assert(seen[i].service@ == code);
                }
                assert(before.contains_key(code) == names_service(seen, code));
            }
            assert forall|code: Seq<char>| #[trigger]
                by_code@.contains_key(code) implies by_code@[code]@ == entries_listed(
                now,
                code,
            ) by {
                if code != this {
                    assert(before.contains_key(code));
                    assert(before[code]@ == entries_listed(seen, code));
                }
            }
            done = done + 1;
        }
    }
    proof {
        assert(all.take(done) =~= all);
    }
    let ghost grouped = by_code;
    let (codes, lists) = by_code.into_lists();
    let mut codes = reverse_list(codes);
    let mut lists = reverse_list(lists);
    let mut services: Vec<ServiceTimetable> = Vec::new();
    let ghost keys = grouped.keys();
    let ghost values = grouped.values();
    while codes.len() > 0 && lists.len() > 0
        invariant
            grouped.wf(),
            forall|code: Seq<char>| #[trigger]
                grouped@.contains_key(code) <==> names_service(all, code),
            forall|code: Seq<char>| #[trigger]
                grouped@.contains_key(code) ==> grouped@[code]@ == entries_listed(all, code),
            keys == grouped.keys(),
            values == grouped.values(),
            codes@.len() == lists@.len(),
            codes@.len() + services@.len() == keys.len(),
            forall|k: int| 0 <= k < codes@.len() ==> (#[trigger] codes@[k])@ == keys[keys.len() - 1 - k],
            forall|k: int| 0 <= k < lists@.len() ==> #[trigger] lists@[k] == values[keys.len() - 1 - k],
            forall|i: int|
                0 <= i < services@.len() ==> (#[trigger] services@[i]).code@ == keys[i]
                    && services@[i].entries == values[i],
        decreases codes@.len(),
    {
        let ghost code_view = codes@[codes@.len() - 1]@;
        let ghost list_view = lists@[lists@.len() - 1];
        let code = codes.pop().unwrap();
        let entries = lists.pop().unwrap();
        assert(code@ == code_view && entries == list_view);
        services.push(ServiceTimetable { code, entries });
    }
    proof {
        assert(service_codes(services@) =~= keys);
        assert forall|i: int| 0 <= i < services@.len() implies (#[trigger] services@[i]).entries@
            == entries_listed(all, services@[i].code@) by {
            assert(keys.contains(keys[i]));
            assert(grouped@.contains_key(keys[i]));
            assert(grouped@[keys[i]] == values[i]);
            assert(grouped@[keys[i]]@ == entries_listed(all, keys[i]));
        }
        assert forall|code: Seq<char>| #[trigger]
            has_service(services@, code) <==> names_service(all, code) by {
            if has_service(services@, code) {
                let i = choose|i: int| 0 <= i < services@.len() && (#[trigger] services@[i]).code@
                    == code;
                assert(keys[i] == code);
                assert(keys.contains(code));
                assert(grouped@.contains_key(code));
                assert(names_service(all, code));
            }
            if names_service(all, code) {
                assert(grouped@.contains_key(code));
                assert(keys.contains(code));
                let i = keys.index_of(code);
                assert(0 <= i < keys.len() && keys[i] == code);
                assert(services@.len() == keys.len());
                assert(services@[i].code@ == code);
                assert(has_service(services@, code));
            }
        }
    }
    services
}

} // verus!
