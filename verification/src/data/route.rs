//! Surveyed route segments and assembled routes.

use crate::text::{compare_keys, key_lt, lemma_key_lt_asymmetric, KeyOrder};
use vstd::prelude::*;

verus! {

/// A point of a geometry. `stop` names the stop that lies at the point, if
/// one does.
#[derive(Debug, PartialEq, Eq)]
pub struct RouteSegment {
    pub lat: i32,
    pub lon: i32,
    pub stop: Option<String>,
}

/// What a `RouteSegment` holds.
pub struct PointView {
    pub lat: int,
    pub lon: int,
    pub stop: Option<Seq<char>>,
}

/// What an optional identifier holds.
pub open spec fn optional_id_view(id: Option<String>) -> Option<Seq<char>> {
    match id {
        Some(s) => Some(s@),
        None => None,
    }
}

impl View for RouteSegment {
    type V = PointView;

    open spec fn view(&self) -> PointView {
        PointView { lat: self.lat as int, lon: self.lon as int, stop: optional_id_view(self.stop) }
    }
}

impl Clone for RouteSegment {
    fn clone(&self) -> (r: Self)
        ensures
            r == *self,
    {
        let stop = match &self.stop {
            Some(s) => Some(s.clone()),
            None => None,
        };
        RouteSegment { lat: self.lat, lon: self.lon, stop }
    }
}

/// What a list of identifiers holds.
pub open spec fn id_views(ids: Seq<String>) -> Seq<Seq<char>> {
    Seq::new(ids.len(), |i: int| ids[i]@)
}

/// What a list of points holds.
pub open spec fn point_views(points: Seq<RouteSegment>) -> Seq<PointView> {
    Seq::new(points.len(), |i: int| points[i]@)
}

/// A path between two stops: a surveyed segment of the catalogue, or a route
/// assembled from such segments. `route` is the geometry, `stops` the stops
/// that the path is held to pass.
#[derive(Debug, PartialEq, Eq)]
pub struct Route {
    pub start_id: String,
    pub end_id: String,
    pub id: String,
    pub route: Vec<RouteSegment>,
    pub stops: Vec<String>,
}

/// What a `Route` holds.
pub struct RouteView {
    pub start_id: Seq<char>,
    pub end_id: Seq<char>,
    pub id: Seq<char>,
    pub route: Seq<PointView>,
    pub stops: Seq<Seq<char>>,
}

impl View for Route {
    type V = RouteView;

    open spec fn view(&self) -> RouteView {
        RouteView {
            start_id: self.start_id@,
            end_id: self.end_id@,
            id: self.id@,
            route: point_views(self.route@),
            stops: id_views(self.stops@),
        }
    }
}

/// What a list of routes holds.
pub open spec fn route_views(routes: Seq<Route>) -> Seq<RouteView> {
    Seq::new(routes.len(), |i: int| routes[i]@)
}

/// A copy of a list of identifiers.
pub fn clone_ids(ids: &[String]) -> (r: Vec<String>)
    ensures
        id_views(r@) == id_views(ids@),
{
    let mut r: Vec<String> = Vec::new();
    let mut i: usize = 0;
    while i < ids.len()
        invariant
            i <= ids.len(),
            r@.len() == i,
            forall|j: int| 0 <= j < i ==> r@[j]@ == ids@[j]@,
        decreases ids.len() - i,
    {
        r.push(ids[i].clone());
        i += 1;
    }
    assert(id_views(r@) =~= id_views(ids@));
    r
}

/// A copy of a list of points.
pub fn clone_points(points: &[RouteSegment]) -> (r: Vec<RouteSegment>)
    ensures
        point_views(r@) == point_views(points@),
{
    let mut r: Vec<RouteSegment> = Vec::new();
    let mut i: usize = 0;
    while i < points.len()
        invariant
            i <= points.len(),
            r@.len() == i,
            forall|j: int| 0 <= j < i ==> r@[j]@ == points@[j]@,
        decreases points.len() - i,
    {
        r.push(points[i].clone());
        i += 1;
    }
    assert(point_views(r@) =~= point_views(points@));
    r
}

impl Clone for Route {
    fn clone(&self) -> (r: Self)
        ensures
            r@ == self@,
    {
        Route {
            start_id: self.start_id.clone(),
            end_id: self.end_id.clone(),
            id: self.id.clone(),
            route: clone_points(self.route.as_slice()),
            stops: clone_ids(self.stops.as_slice()),
        }
    }
}

/// The route `a` comes before the route `b`: by the stops at which they
/// start, then by the stops at which they end, then by their identifiers.
pub open spec fn route_before(a: RouteView, b: RouteView) -> bool {
    key_lt(a.start_id, b.start_id) || (a.start_id == b.start_id && (key_lt(a.end_id, b.end_id) || (
    a.end_id == b.end_id && key_lt(a.id, b.id))))
}

/// The two routes start and end at the same stops and bear the same
/// identifier.
pub open spec fn route_alike(a: RouteView, b: RouteView) -> bool {
    a.start_id == b.start_id && a.end_id == b.end_id && a.id == b.id
}

/// Compares two routes, each given by the stop at which it starts, the
/// stop at which it ends and its identifier, in this order.
pub fn compare_route_ids(a: (&str, &str, &str), b: (&str, &str, &str)) -> (o: KeyOrder)
    ensures
        o is Less <==> key_lt(a.0@, b.0@) || (a.0@ == b.0@ && (key_lt(a.1@, b.1@) || (a.1@ == b.1@
            && key_lt(a.2@, b.2@)))),
        o is Equal <==> a.0@ == b.0@ && a.1@ == b.1@ && a.2@ == b.2@,
        o is Greater <==> key_lt(b.0@, a.0@) || (a.0@ == b.0@ && (key_lt(b.1@, a.1@) || (a.1@
            == b.1@ && key_lt(b.2@, a.2@)))),
{
    proof {
        if key_lt(a.0@, b.0@) {
            lemma_key_lt_asymmetric(a.0@, b.0@);
        }
        if key_lt(b.0@, a.0@) {
            lemma_key_lt_asymmetric(b.0@, a.0@);
        }
        if key_lt(a.1@, b.1@) {
            lemma_key_lt_asymmetric(a.1@, b.1@);
        }
        if key_lt(b.1@, a.1@) {
            lemma_key_lt_asymmetric(b.1@, a.1@);
        }
        if key_lt(a.2@, b.2@) {
            lemma_key_lt_asymmetric(a.2@, b.2@);
        }
        if key_lt(b.2@, a.2@) {
            lemma_key_lt_asymmetric(b.2@, a.2@);
        }
    }
    match compare_keys(a.0, b.0) {
        KeyOrder::Equal => match compare_keys(a.1, b.1) {
            KeyOrder::Equal => compare_keys(a.2, b.2),
            other => other,
        },
        other => other,
    }
}

/// Compares two routes by the stops at which they start, then by the stops
/// at which they end, then by their identifiers. The geometry does not
/// count.
pub fn compare_routes(a: &Route, b: &Route) -> (o: KeyOrder)
    ensures
        o is Less <==> route_before(a@, b@),
        o is Equal <==> route_alike(a@, b@),
        o is Greater <==> route_before(b@, a@),
{
    compare_route_ids(
        (a.start_id.as_str(), a.end_id.as_str(), a.id.as_str()),
        (b.start_id.as_str(), b.end_id.as_str(), b.id.as_str()),
    )
}

} // verus!
