use battery_svg::attrs::AttrMap;
use battery_svg::style::parse_style_map;
use battery_svg::transform::{battery_fraction, TransformError};

fn map_with(entries: &[(&str, &str)]) -> AttrMap {
    let mut m = AttrMap::new();
    for (k, v) in entries {
        m.insert(k.to_string(), v.to_string());
    }
    m
}

#[test]
fn width_scaled_by_half() {
    let mut m = map_with(&[("width", "200")]);
    battery_fraction(&mut m, 500).unwrap();
    assert_eq!(m.get("width").unwrap(), "100");
}

#[test]
fn width_unchanged_at_full_charge() {
    let mut m = map_with(&[("width", "200")]);
    battery_fraction(&mut m, 1000).unwrap();
    assert_eq!(m.get("width").unwrap(), "200");
}

#[test]
fn fractional_width_scales_exactly() {
    let mut m = map_with(&[("width", "12.5")]);
    battery_fraction(&mut m, 500).unwrap();
    assert_eq!(m.get("width").unwrap(), "6.25");
}

#[test]
fn missing_width_fails() {
    let mut m = map_with(&[("height", "20")]);
    let e = battery_fraction(&mut m, 500).unwrap_err();
    assert_eq!(e, TransformError::MissingAttribute);
}

#[test]
fn unreadable_width_fails() {
    let mut m = map_with(&[("width", "abc")]);
    let e = battery_fraction(&mut m, 500).unwrap_err();
    assert_eq!(e, TransformError::NumericParse);
}

#[test]
fn half_charge_leaves_style_alone() {
    let mut m = map_with(&[("width", "200"), ("style", "fill:green")]);
    battery_fraction(&mut m, 500).unwrap();
    assert_eq!(m.get("style").unwrap(), "fill:green");
}

#[test]
fn boundary_charge_three_tenths_leaves_style_alone() {
    let mut m = map_with(&[("width", "200"), ("style", "fill:green")]);
    battery_fraction(&mut m, 300).unwrap();
    assert_eq!(m.get("style").unwrap(), "fill:green");
}

#[test]
fn low_charge_recolors_orange() {
    let mut m = map_with(&[("width", "200"), ("style", "fill:green")]);
    battery_fraction(&mut m, 200).unwrap();
    let style = parse_style_map(m.get("style").unwrap()).unwrap();
    assert_eq!(style.get("fill").unwrap(), "#ff8000");
}

#[test]
fn boundary_charge_fifteen_hundredths_is_orange() {
    let mut m = map_with(&[("width", "200"), ("style", "fill:green")]);
    battery_fraction(&mut m, 150).unwrap();
    let style = parse_style_map(m.get("style").unwrap()).unwrap();
    assert_eq!(style.get("fill").unwrap(), "#ff8000");
}

#[test]
fn very_low_charge_recolors_red() {
    let mut m = map_with(&[("width", "200"), ("style", "fill:green")]);
    battery_fraction(&mut m, 100).unwrap();
    let style = parse_style_map(m.get("style").unwrap()).unwrap();
    assert_eq!(style.get("fill").unwrap(), "#ff0000");
}

#[test]
fn recolor_keeps_other_style_keys() {
    let mut m = map_with(&[("width", "200"), ("style", "fill:green;stroke:black")]);
    battery_fraction(&mut m, 200).unwrap();
    let style = parse_style_map(m.get("style").unwrap()).unwrap();
    assert_eq!(style.get("fill").unwrap(), "#ff8000");
    assert_eq!(style.get("stroke").unwrap(), "black");
}

#[test]
fn recolor_with_absent_style_writes_fill_only() {
    let mut m = map_with(&[("width", "200")]);
    battery_fraction(&mut m, 200).unwrap();
    assert_eq!(m.get("style").unwrap(), "fill:#ff8000");
}

#[test]
fn unreadable_style_recovers_to_fill_only() {
    let mut m = map_with(&[("width", "200"), ("style", "notastyle")]);
    battery_fraction(&mut m, 100).unwrap();
    assert_eq!(m.get("style").unwrap(), "fill:#ff0000");
}

#[test]
fn other_attributes_survive_the_transform() {
    let mut m = map_with(&[("id", "fraction"), ("width", "200"), ("height", "20")]);
    battery_fraction(&mut m, 500).unwrap();
    assert_eq!(m.get("id").unwrap(), "fraction");
    assert_eq!(m.get("height").unwrap(), "20");
    assert_eq!(m.len(), 3);
}

#[test]
fn truncating_scale() {
    let mut m = map_with(&[("width", "1")]);
    battery_fraction(&mut m, 333).unwrap();
    assert_eq!(m.get("width").unwrap(), "0.333");
}
