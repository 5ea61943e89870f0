use csv2kml::aggregate::Aggregator;
use csv2kml::document::emit;
use csv2kml::document::join;
use csv2kml::record::RawRecord;

const HEAD: &str = "<?xml version=\"1.0\" encoding=\"UTF-8\"?><kml><Document>";
const TAIL: &str = "</Document></kml>";
const BEFORE_COORDINATES: &str = "<Placemark><Style><LineStyle><color>ff0000ff</color>\
<width>4</width></LineStyle></Style><LineString><altitudeMode>clampToGround</altitudeMode>\
<coordinates>";
const AFTER_COORDINATES: &str = "</coordinates></LineString></Placemark>";

fn texts(parts: &[&str]) -> Vec<String> {
    parts.iter().map(|part| part.to_string()).collect()
}

fn emitted(parts: &[&str]) -> String {
    String::from_utf8(emit(&texts(parts))).unwrap()
}

fn with_coordinates(text: &str) -> String {
    format!("{}{}{}{}{}", HEAD, BEFORE_COORDINATES, text, AFTER_COORDINATES, TAIL)
}

#[test]
fn join_puts_the_separator_between_parts() {
    assert_eq!(join(&texts(&[]), " "), "");
    assert_eq!(join(&texts(&["a"]), " "), "a");
    assert_eq!(join(&texts(&["a", "b"]), " "), "a b");
    assert_eq!(join(&texts(&["a", "b", "c"]), ", "), "a, b, c");
    assert_eq!(join(&texts(&["a", "b", "c"]), ""), "abc");
    assert_eq!(join(&texts(&["", "", ""]), "-"), "--");
    assert_eq!(join(&texts(&["", "x"]), "-"), "-x");
}

#[test]
fn join_agrees_with_the_standard_join() {
    let parts = texts(&["1,2,0", "", "3,4,0", " ", "é,ü,0"]);
    assert_eq!(join(&parts, " "), parts.join(" "));
    assert_eq!(join(&parts, "<>"), parts.join("<>"));
}

#[test]
fn empty_track_gives_the_containers_and_no_placemark() {
    let document = emitted(&[]);
    assert_eq!(
        document,
        "<?xml version=\"1.0\" encoding=\"UTF-8\"?><kml><Document></Document></kml>"
    );
    assert!(!document.contains("Placemark"));
    assert!(!document.contains("coordinates"));
}

#[test]
fn single_coordinate_gives_one_placemark() {
    let document = emitted(&["20.0,10.0,0"]);
    assert_eq!(
        document,
        "<?xml version=\"1.0\" encoding=\"UTF-8\"?><kml><Document><Placemark><Style>\
<LineStyle><color>ff0000ff</color><width>4</width></LineStyle></Style><LineString>\
<altitudeMode>clampToGround</altitudeMode><coordinates>20.0,10.0,0</coordinates>\
</LineString></Placemark></Document></kml>"
    );
    assert_eq!(document.matches("<Placemark>").count(), 1);
    assert_eq!(document.matches("</Placemark>").count(), 1);
}

#[test]
fn coordinates_are_joined_by_single_spaces_in_track_order() {
    assert_eq!(
        emitted(&["30.0,3.0,0", "40.0,4.0,0", "50.0,5.0,0"]),
        with_coordinates("30.0,3.0,0 40.0,4.0,0 50.0,5.0,0")
    );
    assert_eq!(emitted(&["b", "a"]), with_coordinates("b a"));
}

#[test]
fn track_of_one_empty_coordinate_still_gives_a_placemark() {
    assert_eq!(emitted(&[""]), with_coordinates(""));
}

#[test]
fn markup_characters_in_coordinates_are_escaped() {
    assert_eq!(emitted(&["<1>,2,0"]), with_coordinates("&lt;1&gt;,2,0"));
    assert_eq!(emitted(&["a&b"]), with_coordinates("a&amp;b"));
    assert_eq!(emitted(&["'x'"]), with_coordinates("&apos;x&apos;"));
    assert_eq!(emitted(&["\"x\""]), with_coordinates("&quot;x&quot;"));
    assert_eq!(emitted(&["a\rb"]), with_coordinates("a&#13;b"));
    assert_eq!(emitted(&["&amp;"]), with_coordinates("&amp;amp;"));
    assert_eq!(
        emitted(&["<", ">", "&", "'", "\""]),
        with_coordinates("&lt; &gt; &amp; &apos; &quot;")
    );
}

#[test]
fn other_characters_in_coordinates_stay_as_they_are() {
    assert_eq!(emitted(&["a\tb\nc"]), with_coordinates("a\tb\nc"));
    assert_eq!(emitted(&["é,ü,0"]), with_coordinates("é,ü,0"));
    assert_eq!(emitted(&["東京,北,0"]), with_coordinates("東京,北,0"));
    assert_eq!(emitted(&["a;b/c?d=e"]), with_coordinates("a;b/c?d=e"));
}

#[test]
fn document_is_utf8_bytes() {
    let bytes = emit(&texts(&["é,ü,0"]));
    assert_eq!(bytes, with_coordinates("é,ü,0").into_bytes());
    assert_eq!(&bytes[..5], b"<?xml");
}

#[test]
fn document_closes_what_it_opens_in_reverse_order() {
    let document = emitted(&["1,2,0", "3,4,0"]);
    let mut open: Vec<String> = Vec::new();
    let mut rest = &document[document.find("?>").unwrap() + 2..];
    while let Some(start) = rest.find('<') {
        let end = rest.find('>').unwrap();
        let tag = &rest[start + 1..end];
        if let Some(name) = tag.strip_prefix('/') {
            assert_eq!(open.pop(), Some(name.to_string()));
        } else {
            open.push(tag.to_string());
        }
        rest = &rest[end + 1..];
    }
    assert!(open.is_empty());
}

#[test]
fn records_to_document() {
    let rows = [
        ("timestamp", "latitude", "longitude"),
        ("1700000002", "10.2", "20.2"),
        ("1700000000", "10.0", "20.0"),
        ("1700000000.4", "10.1", "20.1"),
        ("not-a-date", "1.0", "2.0"),
        ("2023-11-14T22:13:21Z", "10.15", "20.15"),
    ];
    let mut aggregator = Aggregator::new();
    for (timestamp, latitude, longitude) in rows {
        let record = RawRecord {
            timestamp: timestamp.to_string(),
            latitude: latitude.to_string(),
            longitude: longitude.to_string(),
        };
        let reading = timestamp.parse::<f64>().ok().map(|seconds| seconds as i64);
        aggregator.offer_record(&record, reading);
    }
    let document = String::from_utf8(emit(&aggregator.drain())).unwrap();
    assert_eq!(document, with_coordinates("20.0,10.0,0 20.15,10.15,0 20.2,10.2,0"));
}

#[test]
fn records_without_a_timestamp_give_the_empty_document() {
    let mut aggregator = Aggregator::new();
    for timestamp in ["not-a-date", "", "n/a"] {
        let record = RawRecord {
            timestamp: timestamp.to_string(),
            latitude: "1.0".to_string(),
            longitude: "2.0".to_string(),
        };
        aggregator.offer_record(&record, None);
    }
    let document = String::from_utf8(emit(&aggregator.drain())).unwrap();
    assert_eq!(document, format!("{}{}", HEAD, TAIL));
}
