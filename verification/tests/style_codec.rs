use battery_svg::style::{map_as_style, parse_style_map};
use battery_svg::attrs::AttrMap;

#[test]
fn parse_two_pairs() {
    let m = parse_style_map("fill:red;opacity:1").unwrap();
    assert_eq!(m.len(), 2);
    assert_eq!(m.get("fill").unwrap(), "red");
    assert_eq!(m.get("opacity").unwrap(), "1");
}

#[test]
fn parse_empty_string_is_empty_map() {
    let m = parse_style_map("").unwrap();
    assert_eq!(m.len(), 0);
}

#[test]
fn parse_bad_segment_fails() {
    assert!(parse_style_map("badsegment").is_err());
}

#[test]
fn parse_segment_without_colon_fails_whole_string() {
    assert!(parse_style_map("fill:red;oops").is_err());
}

#[test]
fn parse_trims_whitespace_around_pairs() {
    let m = parse_style_map("  fill : red ; opacity:1").unwrap();
    assert_eq!(m.get("fill ").unwrap(), " red");
    assert_eq!(m.get("opacity").unwrap(), "1");
}

#[test]
fn parse_value_keeps_extra_colons() {
    let m = parse_style_map("font:a:b").unwrap();
    assert_eq!(m.get("font").unwrap(), "a:b");
}

#[test]
fn parse_duplicate_key_last_wins() {
    let m = parse_style_map("fill:red;fill:blue").unwrap();
    assert_eq!(m.len(), 1);
    assert_eq!(m.get("fill").unwrap(), "blue");
}

#[test]
fn render_empty_map_is_empty_string() {
    let m = AttrMap::new();
    assert_eq!(map_as_style(&m), "");
}

#[test]
fn render_joins_with_semicolons() {
    let mut m = AttrMap::new();
    m.insert("fill".to_string(), "red".to_string());
    m.insert("opacity".to_string(), "1".to_string());
    assert_eq!(map_as_style(&m), "fill:red;opacity:1");
}

#[test]
fn round_trip_reproduces_pairs() {
    let s = "fill:green;stroke:black;stroke-width:2";
    let m = parse_style_map(s).unwrap();
    let rendered = map_as_style(&m);
    let m2 = parse_style_map(&rendered).unwrap();
    assert_eq!(m2.len(), m.len());
    assert_eq!(m2.get("fill").unwrap(), "green");
    assert_eq!(m2.get("stroke").unwrap(), "black");
    assert_eq!(m2.get("stroke-width").unwrap(), "2");
    assert_eq!(map_as_style(&m2), rendered);
}

#[test]
fn round_trip_empty_key_or_value() {
    let m = parse_style_map(":v;k:").unwrap();
    let rendered = map_as_style(&m);
    let m2 = parse_style_map(&rendered).unwrap();
    assert_eq!(m2.get("").unwrap(), "v");
    assert_eq!(m2.get("k").unwrap(), "");
}
