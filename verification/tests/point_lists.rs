use std::collections::HashMap;

use tracks::point_collection::{
    allkinds, is_osm, onekind, InputPoint, Kind, Packet, PacketProvider, PointCollection,
    RenderResult, RenderedFeature,
};
use tracks::waypoint_values::{hard_value, move_index, next_with_value};
use tracks::waypoint::{group_waypoints, Waypoint, WaypointOrigin};
use tracks::waypoints_table::{show_waypoints_in_table, shows_waypoint, ProfileBoundingBox};

fn place(kind: Kind, population: u64, elevation: i32, close: bool) -> InputPoint {
    InputPoint { kind, population, elevation, close_to_track: close, index: None, map_id: population }
}

#[test]
fn osm_kinds() {
    assert!(is_osm(&Kind::Cities));
    assert!(is_osm(&Kind::Villages));
    assert!(is_osm(&Kind::Hamlets));
    assert!(is_osm(&Kind::Mountains));
    assert!(!is_osm(&Kind::Controls));
    assert!(!is_osm(&Kind::GPXWaypoints));
    assert!(!is_osm(&Kind::CutOff));
    assert_eq!(allkinds().len(), 7);
    assert_eq!(onekind(Kind::Hamlets), vec![Kind::Hamlets]);
    assert_eq!(Kind::GPXWaypoints.to_string(), "GPXWaypoints");
}

#[test]
fn import_osm_files_and_sorts() {
    let mut c = PointCollection::new();
    c.import_other(&Kind::Controls, vec![place(Kind::Controls, 0, 0, true)]);
    let points = vec![
        place(Kind::Cities, 100, 0, false),
        place(Kind::Villages, 50, 0, false),
        place(Kind::Cities, 5000, 0, true),
        place(Kind::Mountains, 0, 1200, true),
        place(Kind::Villages, 70, 0, true),
        place(Kind::Mountains, 0, 2400, true),
        place(Kind::Cities, 100, 0, true),
        place(Kind::Hamlets, 3, 0, true),
        place(Kind::Controls, 0, 0, true),
    ];
    c.import_osm(&points);
    let cities = c.get_vector(&Kind::Cities);
    assert_eq!(
        cities,
        vec![
            place(Kind::Cities, 5000, 0, true),
            place(Kind::Cities, 100, 0, false),
            place(Kind::Cities, 100, 0, true),
        ]
    );
    assert_eq!(c.get_vector(&Kind::Villages), vec![place(Kind::Villages, 70, 0, true)]);
    assert_eq!(
        c.get_vector(&Kind::Mountains),
        vec![place(Kind::Mountains, 0, 2400, true), place(Kind::Mountains, 0, 1200, true)]
    );
    assert_eq!(c.get_vector(&Kind::Hamlets).len(), 1);
    // the controls filed before stay as they were
    let controls = c.get_vector(&Kind::Controls);
    assert_eq!(controls.len(), 1);
    assert_eq!(controls[0].index, Some(0));
}

#[test]
fn import_other_then_get() {
    let mut c = PointCollection::new();
    let gpx = vec![
        place(Kind::GPXWaypoints, 0, 0, true),
        place(Kind::GPXWaypoints, 0, 10, false),
    ];
    c.import_other(&Kind::GPXWaypoints, gpx.clone());
    let got = c.get_vector(&Kind::GPXWaypoints);
    assert_eq!(got.len(), 2);
    assert_eq!(got[0], InputPoint { index: Some(0), ..gpx[0] });
    assert_eq!(got[1], InputPoint { index: Some(1), ..gpx[1] });
    c.import_other(&Kind::GPXWaypoints, Vec::new());
    assert!(c.get_vector(&Kind::GPXWaypoints).is_empty());
    assert!(c.get_vector(&Kind::Cities).is_empty());
}

#[test]
fn potential_controls_in_order() {
    let mut c = PointCollection::new();
    c.import_osm(&vec![
        place(Kind::Mountains, 0, 100, true),
        place(Kind::Hamlets, 1, 0, true),
        place(Kind::Villages, 2, 0, true),
        place(Kind::Cities, 3, 0, false),
    ]);
    let kinds: Vec<Kind> = c.potential_controls().iter().map(|p| p.kind).collect();
    assert_eq!(kinds, vec![Kind::Cities, Kind::Villages, Kind::Hamlets, Kind::Mountains]);
}

#[test]
fn offtrack_cities_keeps_eight_largest() {
    let mut c = PointCollection::new();
    let mut points = Vec::new();
    for k in 0..12u64 {
        points.push(place(Kind::Cities, k * 10, 0, false));
    }
    points.push(place(Kind::Cities, 1_000_000, 0, true));
    c.import_osm(&points);
    let off = c.offtrack_cities();
    let pops: Vec<u64> = off.iter().map(|p| p.population).collect();
    assert_eq!(pops, vec![110, 100, 90, 80, 70, 60, 50, 40]);
}

#[test]
fn kinds_cut_keeps_listed_kinds() {
    let mut c = PointCollection::new();
    c.import_osm(&vec![place(Kind::Cities, 3, 0, true), place(Kind::Villages, 2, 0, true)]);
    c.import_other(&Kind::CutOff, vec![place(Kind::CutOff, 0, 0, true)]);
    c.kinds_cut(&vec![Kind::Villages, Kind::CutOff]);
    assert!(c.get_vector(&Kind::Cities).is_empty());
    assert_eq!(c.get_vector(&Kind::Villages).len(), 1);
    assert_eq!(c.get_vector(&Kind::CutOff).len(), 1);
}

#[test]
fn packets_hardness() {
    let one = vec![place(Kind::Villages, 1, 0, true)];
    assert_eq!(PointCollection::osm_packet(one.clone()).hardness, 9);
    assert_eq!(PointCollection::osm_packet(Vec::new()).hardness, 10);
    let ten = vec![place(Kind::Villages, 1, 0, true); 10];
    assert_eq!(PointCollection::osm_packet(ten).hardness, 0);
    let twelve = vec![place(Kind::Villages, 1, 0, true); 12];
    assert_eq!(PointCollection::osm_packet(twelve.clone()).hardness, 0);
    let forced: Packet = Packet::make_forced_packet(twelve);
    assert_eq!(forced.hardness, 11);
    assert_eq!(forced.points.len(), 12);
    let provider = PacketProvider::new();
    assert!(provider.collection.get_vector(&Kind::Cities).is_empty());
}

fn waypoint(origin: WaypointOrigin, distance: i64) -> Waypoint {
    Waypoint { origin, track_index: None, distance: Some(distance), elevation: 0 }
}

fn at(track_index: usize) -> Waypoint {
    Waypoint { origin: WaypointOrigin::GPX, track_index: Some(track_index), distance: None, elevation: 0 }
}

#[test]
fn groups_merge_small_ones() {
    let ws: Vec<Waypoint> = [1, 2, 3, 10, 11, 20, 21, 22, 23].iter().map(|t| at(*t)).collect();
    let groups = group_waypoints(&ws, &vec![5, 15]);
    assert_eq!(groups.len(), 2);
    assert_eq!(groups[0], ws[0..5].to_vec());
    assert_eq!(groups[1], ws[5..9].to_vec());
    let flat: Vec<Waypoint> = groups.concat();
    assert_eq!(flat, ws);
}

#[test]
fn groups_keep_an_empty_first_group() {
    let ws: Vec<Waypoint> = [1, 2, 3, 4].iter().map(|t| at(*t)).collect();
    let groups = group_waypoints(&ws, &vec![0]);
    assert_eq!(groups, vec![Vec::new(), ws.clone()]);
    let whole = group_waypoints(&ws, &Vec::new());
    assert_eq!(whole, vec![ws.clone()]);
    let none = group_waypoints(&Vec::new(), &vec![3, 7]);
    assert_eq!(none, vec![Vec::<Waypoint>::new()]);
}

#[test]
fn waypoints_in_table() {
    let bbox = ProfileBoundingBox { min_distance: 100, max_distance: 200 };
    assert!(shows_waypoint(&waypoint(WaypointOrigin::GPX, 100), &bbox));
    assert!(shows_waypoint(&waypoint(WaypointOrigin::GPX, 200), &bbox));
    assert!(!shows_waypoint(&waypoint(WaypointOrigin::GPX, 201), &bbox));
    let waypoints = vec![
        waypoint(WaypointOrigin::GPX, 50),
        waypoint(WaypointOrigin::GPX, 150),
        waypoint(WaypointOrigin::DouglasPeucker, 160),
        waypoint(WaypointOrigin::GPX, 200),
        waypoint(WaypointOrigin::MaxStepSize, 170),
        waypoint(WaypointOrigin::GPX, 250),
    ];
    assert_eq!(show_waypoints_in_table(&waypoints, &bbox), vec![1, 3]);
    assert!(show_waypoints_in_table(&Vec::new(), &bbox).is_empty());
}

#[test]
fn move_index_stops_at_zero() {
    assert_eq!(move_index(5, -1), 4);
    assert_eq!(move_index(0, -1), 0);
    assert_eq!(move_index(3, -7), 0);
    assert_eq!(move_index(3, 2), 5);
    let wide: u64 = (1u64 << 32) + 5;
    if let Ok(w) = usize::try_from(wide) {
        // the index is taken as an i32, keeping its low 32 bits
        assert_eq!(move_index(w, 1), 6);
    }
}

#[test]
fn next_with_value_walks_to_values() {
    let mut values: HashMap<usize, usize> = HashMap::new();
    values.insert(2, 0);
    values.insert(6, 1);
    assert_eq!(next_with_value(10, &values, 3, 1), 6);
    assert_eq!(next_with_value(10, &values, 6, 1), 10);
    assert_eq!(next_with_value(10, &values, 5, -1), 2);
    assert_eq!(next_with_value(10, &values, 2, -1), 0);
    assert_eq!(next_with_value(10, &values, 0, -1), 0);
    assert_eq!(next_with_value(10, &values, 9, 1), 10);
}

fn high(origin: WaypointOrigin, elevation: i64) -> Waypoint {
    Waypoint { origin, track_index: None, distance: None, elevation }
}

#[test]
fn hard_values_by_kind() {
    let ws = vec![
        high(WaypointOrigin::DouglasPeucker, 10),
        high(WaypointOrigin::DouglasPeucker, 20),
        high(WaypointOrigin::DouglasPeucker, 5),
        high(WaypointOrigin::GPX, 0),
        high(WaypointOrigin::MaxStepSize, 0),
        high(WaypointOrigin::DouglasPeucker, 30),
    ];
    assert_eq!(hard_value(&ws, 0, false), Some(1));
    assert_eq!(hard_value(&ws, 1, false), Some(1));
    assert_eq!(hard_value(&ws, 2, true), None);
    assert_eq!(hard_value(&ws, 3, false), Some(0));
    assert_eq!(hard_value(&ws, 4, true), Some(2));
    assert_eq!(hard_value(&ws, 4, false), None);
    assert_eq!(hard_value(&ws, 5, false), Some(1));
}

fn feature(hardness: usize, point: Option<InputPoint>) -> RenderedFeature {
    RenderedFeature { hardness, input_point: point }
}

#[test]
fn packets_for_map_by_hardness() {
    let city = place(Kind::Cities, 7, 0, true);
    let other_city = place(Kind::Cities, 8, 0, true);
    let control = place(Kind::Controls, 7, 0, true);
    let cutoff = place(Kind::CutOff, 0, 0, true);
    let result = RenderResult {
        svg: String::new(),
        rendered: vec![
            feature(3, Some(city)),
            feature(11, Some(control)),
            feature(3, None),
            feature(3, Some(cutoff)),
            feature(3, Some(city)),
            feature(3, Some(control)),
            feature(3, Some(other_city)),
            feature(11, Some(control)),
            feature(5, None),
            feature(0, Some(cutoff)),
        ],
    };
    let packets = result.packets_for_map();
    let hardnesses: Vec<usize> = packets.iter().map(|p| p.hardness).collect();
    assert_eq!(hardnesses, vec![11, 3, 0]);
    assert_eq!(packets[0].points, vec![control, control]);
    assert_eq!(packets[1].points, vec![city, control, other_city]);
    assert!(packets[2].points.is_empty());
    assert_eq!(result.rendered_input_points().len(), 8);
    assert_eq!(result.rendered_input_points_for_table().len(), 6);
}

#[test]
fn collection_from_result() {
    let city = place(Kind::Cities, 7, 0, true);
    let village = place(Kind::Villages, 3, 0, true);
    let result = RenderResult {
        svg: String::new(),
        rendered: vec![feature(1, Some(village)), feature(2, None), feature(1, Some(city)), feature(4, Some(village))],
    };
    let c = PointCollection::from_result(&result);
    assert_eq!(c.get_vector(&Kind::Villages), vec![village, village]);
    assert_eq!(c.get_vector(&Kind::Cities), vec![city]);
    assert!(c.get_vector(&Kind::Controls).is_empty());
}

#[test]
fn packets_for_profile_and_map() {
    let mut c = PointCollection::new();
    let mut osm = vec![
        place(Kind::Cities, 10, 0, true),
        place(Kind::Cities, 30, 0, true),
        place(Kind::Villages, 5, 0, true),
        place(Kind::Mountains, 0, 900, true),
    ];
    for k in 0..10u64 {
        osm.push(place(Kind::Cities, 100 + k, 0, false));
    }
    c.import_osm(&osm);
    c.import_other(&Kind::Controls, vec![place(Kind::Controls, 0, 0, true)]);
    c.import_other(&Kind::CutOff, vec![place(Kind::CutOff, 0, 0, true)]);
    let gpx = vec![place(Kind::GPXWaypoints, 0, 0, true)];
    let profile = c.profile_packets(gpx.clone());
    let hardness: Vec<usize> = profile.iter().map(|p| p.hardness).collect();
    assert_eq!(hardness, vec![11, 11, 0, 8, 9, 9]);
    let pops: Vec<u64> = profile[3].points.iter().map(|p| p.population).collect();
    assert_eq!(pops, vec![30, 10]);
    assert_eq!(profile[1].points, gpx);
    let map = c.map_packets(gpx);
    let hardness: Vec<usize> = map.iter().map(|p| p.hardness).collect();
    assert_eq!(hardness, vec![11, 11, 8, 9, 9, 2]);
    let off: Vec<u64> = map[5].points.iter().map(|p| p.population).collect();
    assert_eq!(off, vec![109, 108, 107, 106, 105, 104, 103, 102]);
}
