use tracks::parameters::TrackPart;
use tracks::split_ambiguity::{
    ambiguities_count, candidate_indices, clear_range, select_splits, user_steps_split, Point,
};
use tracks::trackfile::{ControlDataset, TrackDataset, TrackError};
use tracks::trackparts::{controls_to_segments, parts_to_ranges, ControlPosition};
use tracks::wheel::{IntegerSize2D, Page};

fn part(length: usize) -> TrackPart {
    TrackPart { name: String::from("p"), part_index: 0, length }
}

#[test]
fn ranges_follow_each_other() {
    let ranges = parts_to_ranges(&vec![part(3), part(0), part(5)]);
    assert_eq!(ranges, vec![0..3, 3..3, 3..8]);
    assert!(parts_to_ranges(&Vec::new()).is_empty());
}

fn control(name: &str, track_index: usize) -> ControlPosition {
    ControlPosition { name: name.to_string(), track_index }
}

#[test]
fn segments_between_controls() {
    let controls = vec![control("Start", 0), control("Mortagne", 40), control("Brest", 99)];
    let segments = controls_to_segments(100, &controls);
    assert_eq!(segments.len(), 2);
    assert_eq!(segments[0].name, "to Mortagne");
    assert_eq!(segments[0].range, 0..41);
    assert_eq!(segments[1].name, "to Brest");
    assert_eq!(segments[1].range, 40..100);
}

#[test]
fn segments_reach_the_end() {
    let controls = vec![control("Mortagne", 40)];
    let segments = controls_to_segments(100, &controls);
    assert_eq!(segments.len(), 2);
    assert_eq!(segments[1].name, "to end");
    assert_eq!(segments[1].range, 40..100);
    let none = controls_to_segments(1, &Vec::new());
    assert!(none.is_empty());
    let whole = controls_to_segments(5, &Vec::new());
    assert_eq!(whole.len(), 1);
    assert_eq!(whole[0].range, 0..5);
}

fn point(primary: usize, secondary: Vec<usize>) -> Point {
    Point { primary, secondary }
}

#[test]
fn counting_ambiguities() {
    let points = vec![point(1, vec![2, 3, 9]), point(8, vec![1]), point(4, vec![])];
    assert_eq!(ambiguities_count(&points, &(0..5)), 2);
    assert_eq!(ambiguities_count(&points, &(0..10)), 4);
    assert_eq!(ambiguities_count(&points, &(5..9)), 0);
    let mut kept = points.clone();
    clear_range(&mut kept, &(0..5));
    assert_eq!(kept.len(), 1);
    assert_eq!(kept[0].primary, 8);
    assert_eq!(ambiguities_count(&kept, &(0..5)), 0);
}

#[test]
fn candidates_from_controls_or_parts() {
    assert_eq!(candidate_indices(&vec![7, 3, 7], &Vec::new(), 10), vec![3, 7, 9]);
    assert_eq!(candidate_indices(&Vec::new(), &vec![part(5), part(5)], 10), vec![5, 9, 10]);
    assert_eq!(candidate_indices(&vec![9], &Vec::new(), 10), vec![9]);
}

#[test]
fn split_where_ambiguous() {
    let points = vec![point(1, vec![2, 3, 4, 0])];
    assert_eq!(user_steps_split(points, &Vec::new(), &vec![part(5), part(5)], 10), vec![5]);
    let calm = vec![point(1, vec![2])];
    assert!(user_steps_split(calm, &Vec::new(), &vec![part(5), part(5)], 10).is_empty());
    assert!(user_steps_split(Vec::new(), &vec![3], &Vec::new(), 10).is_empty());
}

#[test]
fn split_keeps_last_good_range() {
    // [0, 3) holds one ambiguity, [0, 6) holds five: the split falls at 3.
    let points = vec![point(1, vec![2]), point(4, vec![0, 1, 2, 5])];
    assert_eq!(select_splits(points, &vec![3, 6, 9]), vec![3]);
}

#[test]
fn datasets_hold_their_text() {
    let d = TrackDataset::from_string("<gpx/>").unwrap();
    assert_eq!(d.as_string().unwrap(), "<gpx/>");
    let c = ControlDataset::from_string("<gpx>c</gpx>").unwrap();
    assert_eq!(c.clone().as_string().unwrap(), "<gpx>c</gpx>");
    assert_eq!(ControlDataset::empty().as_string().unwrap(), "");
    assert_ne!(TrackError::IOError, TrackError::MissingElevation { index: 3 });
}

#[test]
fn wheel_page_radii() {
    let page = Page {
        total_size: IntegerSize2D { width: 400, height: 301 },
        wheel_width: 50,
        margin: 20,
    };
    assert_eq!(page.size(), IntegerSize2D { width: 400, height: 301 });
    assert_eq!(page.wheel_outer_radius(), 130);
    assert_eq!(page.wheel_inner_radius(), 80);
    let odd = Page { total_size: IntegerSize2D { width: -7, height: 10 }, wheel_width: 1, margin: 0 };
    assert_eq!(odd.wheel_outer_radius(), -3);
}

use tracks::trackfile::{entries_of_track, free_track_number, trackfile_entries};

fn names(v: &[&str]) -> Vec<String> {
    v.iter().map(|s| s.to_string()).collect()
}

#[test]
fn listing_keeps_track_descriptions() {
    let entries = names(&[
        "00000000.trackfile.json",
        "00000000.track.gpx",
        "00000001.trackfile.json",
        "trackfile.json.bak",
    ]);
    assert_eq!(
        trackfile_entries(&entries),
        names(&["00000000.trackfile.json", "00000001.trackfile.json"])
    );
}

#[test]
fn files_of_one_track() {
    let entries = names(&[
        "00000000.trackfile.json",
        "00000001.track.gpx",
        "00000001.controls.gpx",
        "000000010.track.gpx",
        "00000001",
    ]);
    assert_eq!(
        entries_of_track(&entries, 1),
        names(&["00000001.track.gpx", "00000001.controls.gpx"])
    );
    assert!(entries_of_track(&entries, 7).is_empty());
}

#[test]
fn new_track_number_is_the_first_free_one() {
    assert_eq!(free_track_number(&Vec::new()), Ok(0));
    let entries = names(&[
        "00000001.trackfile.json",
        "00000000.trackfile.json",
        "00000002.track.gpx",
    ]);
    assert_eq!(free_track_number(&entries), Ok(2));
}

