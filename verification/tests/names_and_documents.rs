use tracks::parameters::{karl_order, MapOptions, ProfileOptions, RenderFunction, TimeAxis, TrackPart};
use tracks::pdf::{get_font_url, get_host, get_host_with_version, has_version};
use tracks::trackfile::basename;
use tracks::svgtable::{escape_xml, name_and_description};
use tracks::text::is_whitespace;
use tracks::typst::{document_pages, get_typst_bytes, link, replace_text, Templates};
use tracks::wheel::{shorten_name, zone_anchor, Region};
use tracks::zipexport::{sanitize_filename_regex, tidy_filename};

fn part(name: &str, part_index: usize) -> TrackPart {
    TrackPart { name: name.to_string(), part_index, length: 10 }
}

#[test]
fn karl_order_puts_start_first_and_end_last() {
    let parts = vec![
        part("Zurich", 0),
        part("Ziel Berlin", 1),
        part("Bern", 2),
        part("Start Basel", 3),
        part("Weekend", 4),
        part("", 5),
        part("apple", 6),
    ];
    let order: Vec<usize> = karl_order(&parts).iter().map(|p| p.part_index).collect();
    // "Start Basel" and "" share the first key and keep their order; "Ziel Berlin" and
    // "Weekend" share the last key and keep theirs.
    assert_eq!(order, vec![3, 5, 6, 2, 0, 1, 4]);
}

#[test]
fn karl_order_keeps_names_and_lengths() {
    let parts = vec![part("b", 0), part("a", 1)];
    let r = karl_order(&parts);
    assert_eq!(r.len(), 2);
    assert_eq!(r[0].name, "a");
    assert_eq!(r[1].name, "b");
    assert_eq!(r[0].length, 10);
}

#[test]
fn shorten_name_keeps_short_names() {
    assert_eq!(shorten_name("Brest"), "Brest");
    assert_eq!(shorten_name("Fougères"), "Fougères");
}

#[test]
fn shorten_name_keeps_first_words() {
    assert_eq!(shorten_name("Mortagne-au-Perche"), "Mortagne");
    assert_eq!(shorten_name("Le Mans  Sud Est"), "Le Mans");
    assert_eq!(shorten_name("a b c d e f g"), "a b c d");
    assert_eq!(shorten_name("--a--b--c--d--"), "a b c d");
}

#[test]
fn track_file_basename() {
    assert_eq!(basename(12, "track.gpx"), "00000012.track.gpx");
    assert_eq!(basename(123456789, "json"), "123456789.json");
}

#[test]
fn zone_anchors() {
    assert_eq!(zone_anchor(1, Region::Inner), "middle");
    assert_eq!(zone_anchor(5, Region::Outer), "middle");
    assert_eq!(zone_anchor(3, Region::Inner), "end");
    assert_eq!(zone_anchor(3, Region::Outer), "start");
    assert_eq!(zone_anchor(7, Region::Inner), "start");
    assert_eq!(zone_anchor(8, Region::Outer), "end");
}

const PUBSPEC: &str = "name: ui\ndescription: \"maps\"\n  version: 9.9.9\nversion:  0.5.0+3 \r\nenvironment:\n";

#[test]
fn host_and_version() {
    assert_eq!(get_host(), "https://vps-e637d6c5.vps.ovh.net:8123");
    assert!(has_version(PUBSPEC));
    assert!(!has_version("name: ui\n  version: 1.0\n"));
    assert_eq!(
        get_host_with_version(PUBSPEC),
        "https://vps-e637d6c5.vps.ovh.net:8123/0.5.0+3"
    );
    assert_eq!(
        get_host_with_version("version:1.2.3"),
        "https://vps-e637d6c5.vps.ovh.net:8123/1.2.3"
    );
}

#[test]
fn font_url() {
    assert_eq!(
        get_font_url(PUBSPEC, "LibertinusSerif-Regular.ttf"),
        "https://vps-e637d6c5.vps.ovh.net:8123/0.5.0+3/assets/fonts/LibertinusSerif-Regular.ttf"
    );
}

#[test]
fn sanitize_file_names() {
    assert_eq!(sanitize_filename_regex("my  route\t2024.gpx"), Some("my-route-2024.gpx".to_string()));
    assert_eq!(sanitize_filename_regex("a/b:c?.zip"), Some("abc.zip".to_string()));
    assert_eq!(sanitize_filename_regex("Brest–Paris"), Some("BrestParis".to_string()));
    assert_eq!(sanitize_filename_regex("été à Brest"), Some("été-à-Brest".to_string()));
    assert_eq!(sanitize_filename_regex("???"), Some("default_filename".to_string()));
    assert_eq!(sanitize_filename_regex(".."), Some("default_filename".to_string()));
    assert_eq!(sanitize_filename_regex(".?"), Some("default_filename".to_string()));
    assert_eq!(sanitize_filename_regex(""), Some("default_filename".to_string()));
}

#[test]
fn tidy_names() {
    assert_eq!(tidy_filename(String::new()), "default_filename");
    assert_eq!(tidy_filename(".".to_string()), "default_filename");
    assert_eq!(tidy_filename("..".to_string()), "default_filename");
    assert_eq!(tidy_filename("...".to_string()), "...");
    assert_eq!(tidy_filename("a.".to_string()), "a.");
}

#[test]
fn xml_escape() {
    assert_eq!(escape_xml("a<b>&\"c\""), "a&lt;b&gt;&amp;&quot;c&quot;");
    assert_eq!(escape_xml("&amp;"), "&amp;amp;");
    assert_eq!(escape_xml("plain 'text'"), "plain 'text'");
    let escaped = escape_xml("<<\">>");
    assert!(!escaped.contains('<') && !escaped.contains('>') && !escaped.contains('"'));
}

#[test]
fn typst_bytes() {
    assert_eq!(get_typst_bytes("hi"), "bytes((104,105))");
    assert_eq!(get_typst_bytes(""), "bytes(())");
    assert_eq!(get_typst_bytes("é"), "bytes((195,169))");
}

#[test]
fn replace_is_left_to_right() {
    assert_eq!(replace_text("aaa", "aa", "b"), "ba");
    assert_eq!(replace_text("x{a}y{a}", "{a}", "1"), "x1y1");
    assert_eq!(replace_text("none", "{a}", "1"), "none");
}

#[test]
fn link_fills_the_page() {
    let templates = Templates::new("header", "[{table-points}|{profile.svg}|{map.svg}]", "pts");
    assert_eq!(templates.header, "header");
    let mut document = String::from("doc:");
    link(&templates, "p", "m", &"T".to_string(), &mut document);
    assert_eq!(document, "doc:[T|bytes((112))|bytes((109))]");
}

#[test]
fn options_and_functions() {
    assert_eq!(ProfileOptions::default().time_axis, TimeAxis::ConstantSpeed);
    assert_eq!(MapOptions::default(), MapOptions {});
    assert_eq!(RenderFunction::default(), RenderFunction::Unknown);
    assert!(RenderFunction::TrackMap < RenderFunction::Profile);
}

#[test]
fn waypoint_names_in_tables() {
    assert_eq!(name_and_description("Brest", "control"), "Brest, control");
    assert_eq!(name_and_description("", "control"), "control");
    assert_eq!(name_and_description("Brest", ""), "Brest");
    assert_eq!(name_and_description("", ""), "unknown");
}

#[test]
fn whitespace_is_the_white_space_property() {
    for code in 0..=0x10FFFFu32 {
        if let Some(c) = char::from_u32(code) {
            assert_eq!(is_whitespace(c), c.is_whitespace(), "U+{:04X}", code);
        }
    }
}

#[test]
fn pages_of_the_document() {
    let ranges = vec![0..0, 0..10, 10..10, 10..20, 20..30, 30..40];
    assert_eq!(document_pages(&ranges, 30), vec![1, 3, 4]);
    assert_eq!(document_pages(&ranges, 100), vec![1, 3, 4, 5]);
    assert!(document_pages(&Vec::new(), 5).is_empty());
}
