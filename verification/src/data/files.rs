//! Where the files of the data set lie.
//!
//! A path is held as the list of its components, so that what a function
//! returns can be said exactly.

use crate::data::route::id_views;
use crate::data::timetable::{date_text, direction_name, Date, RouteDirection};
use vstd::prelude::*;
use vstd::string::StringExecFns;

verus! {

/// A path in the data set, as the names of its components from the outermost
/// on.
#[derive(Debug, PartialEq, Eq)]
pub struct DataPath {
    pub components: Vec<String>,
}

impl View for DataPath {
    type V = Seq<Seq<char>>;

    open spec fn view(&self) -> Seq<Seq<char>> {
        id_views(self.components@)
    }
}

impl DataPath {
    /// The path that lies one component below this one.
    pub fn join(&self, name: &str) -> (path: DataPath)
        ensures
            path@ == self@.push(name@),
    {
        let mut components = crate::data::route::clone_ids(self.components.as_slice());
        components.push(name.to_string());
        let path = DataPath { components };
        assert(path@ =~= self@.push(name@));
        path
    }
}

/// The name of the folder of a service.
pub open spec fn service_folder_name(service_code: Seq<char>) -> Seq<char> {
    "service-"@ + service_code
}

/// The list of the services.
pub fn services_json(data_folder: &DataPath) -> (path: DataPath)
    ensures
        path@ == data_folder@.push("services.json"@),
{
    data_folder.join("services.json")
}

/// The list of the stops.
pub fn stops_json(data_folder: &DataPath) -> (path: DataPath)
    ensures
        path@ == data_folder@.push("stops.json"@),
{
    data_folder.join("stops.json")
}

/// The folder of a service.
pub fn service_folder(data_folder: &DataPath, service_code: &str) -> (path: DataPath)
    ensures
        path@ == data_folder@.push(service_folder_name(service_code@)),
{
    let name = "service-".to_string().concat(service_code);
    data_folder.join(name.as_str())
}

/// The description of a service.
pub fn service_json(data_folder: &DataPath, service_code: &str) -> (path: DataPath)
    ensures
        path@ == data_folder@.push(service_folder_name(service_code@)).push("service.json"@),
{
    service_folder(data_folder, service_code).join("service.json")
}

/// The timetables of a service.
pub fn timetables_json(data_folder: &DataPath, service_code: &str) -> (path: DataPath)
    ensures
        path@ == data_folder@.push(service_folder_name(service_code@)).push("timetables.json"@),
{
    service_folder(data_folder, service_code).join("timetables.json")
}

/// The folder of the timetables of a service.
pub fn timetables_folder(data_folder: &DataPath, service_code: &str) -> (path: DataPath)
    ensures
        path@ == data_folder@.push(service_folder_name(service_code@)).push("timetables"@),
{
    service_folder(data_folder, service_code).join("timetables")
}

/// The routes of a service.
pub fn routes_json(data_folder: &DataPath, service_code: &str) -> (path: DataPath)
    ensures
        path@ == data_folder@.push(service_folder_name(service_code@)).push("routes.json"@),
{
    service_folder(data_folder, service_code).join("routes.json")
}

/// The routes of a service as a feature collection.
pub fn routes_geojson(data_folder: &DataPath, service_code: &str) -> (path: DataPath)
    ensures
        path@ == data_folder@.push(service_folder_name(service_code@)).push("routes.geojson"@),
{
    service_folder(data_folder, service_code).join("routes.geojson")
}

/// The name of the file that holds the timetable of a day and a
/// direction.
pub open spec fn timetable_file_name(day: Seq<char>, direction: RouteDirection) -> Seq<char> {
    day + seq!['-'] + direction_name(direction) + ".json"@
}

/// The name of the file that holds the timetable of a day, given as its
/// text, and a direction.
pub fn timetable_file(day: &str, direction: RouteDirection) -> (name: String)
    ensures
        name@ == timetable_file_name(day@, direction),
{
    proof {
        reveal_strlit("-");
    }
    let mut name = day.to_string();
    name.append("-");
    assert(name@ =~= day@ + seq!['-']);
    let direction_name = direction.name();
    name.append(direction_name.as_str());
    name.append(".json");
    name
}

/// The timetable of a service for a day and a direction, or nothing where
/// the calendar has no such day.
pub fn timetable_json(
    data_folder: &DataPath,
    service_code: &str,
    date: Date,
    direction: RouteDirection,
) -> (path: Option<DataPath>)
    ensures
        match date_text(date.year as int, date.month as int, date.day as int) {
            Some(day) => path matches Some(found) && found@ == data_folder@.push(
                service_folder_name(service_code@),
            ).push("timetables"@).push(timetable_file_name(day, direction)),
            None => path is None,
        },
{
    match date.to_text() {
        Some(day) => {
            let name = timetable_file(day.as_str(), direction);
            Some(timetables_folder(data_folder, service_code).join(name.as_str()))
        },
        None => None,
    }
}

} // verus!
