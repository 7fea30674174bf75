use battery_svg::engine::{
    process_attributes, Element, EngineError, EngineState, StreamEngine, SvgEvent,
};
use battery_svg::matcher::new_tag_matcher;
use battery_svg::style::parse_style_map;
use battery_svg::transform::TransformError;

fn element(name: &str, attrs: &[(&str, &str)]) -> Element {
    Element {
        name: name.to_string(),
        attrs: attrs.iter().map(|(k, v)| (k.to_string(), v.to_string())).collect(),
    }
}

fn engine(selector: &str, charge: u32) -> StreamEngine {
    StreamEngine::new(new_tag_matcher(selector).unwrap(), charge)
}

#[test]
fn end_to_end_low_charge_scenario() {
    let mut eng = engine("rect#fraction", 200);
    assert_eq!(eng.depth(), 0);

    let out = eng.step(SvgEvent::Open(element("svg", &[]))).unwrap();
    assert!(matches!(out, SvgEvent::Open(ref el) if el.name == "svg"));
    assert_eq!(eng.depth(), 1);

    let rect = element("rect", &[("id", "fraction"), ("width", "200"), ("style", "fill:green")]);
    let out = eng.step(SvgEvent::SelfClosing(rect)).unwrap();
    let SvgEvent::SelfClosing(el) = out else {
        panic!("expected a self-closing element back");
    };
    assert_eq!(el.name, "rect");
    assert_eq!(el.attrs[0], ("id".to_string(), "fraction".to_string()));
    assert_eq!(el.attrs[1], ("width".to_string(), "40".to_string()));
    let style = parse_style_map(&el.attrs[2].1).unwrap();
    assert_eq!(style.get("fill").unwrap(), "#ff8000");

    let out = eng.step(SvgEvent::Close("svg".to_string())).unwrap();
    assert!(matches!(out, SvgEvent::Close(ref n) if n == "svg"));
    assert_eq!(eng.depth(), 0);

    eng.finish().unwrap();
    assert_eq!(eng.state(), EngineState::Done);
}

#[test]
fn non_matching_elements_pass_through() {
    let mut eng = engine("rect#fraction", 200);
    let circle = element("circle", &[("width", "bad")]);
    let out = eng.step(SvgEvent::SelfClosing(circle)).unwrap();
    let SvgEvent::SelfClosing(el) = out else {
        panic!("expected a self-closing element back");
    };
    assert_eq!(el.name, "circle");
    assert_eq!(el.attrs, vec![("width".to_string(), "bad".to_string())]);
}

#[test]
fn other_events_pass_through() {
    let mut eng = engine("rect", 500);
    let out = eng.step(SvgEvent::Other).unwrap();
    assert!(matches!(out, SvgEvent::Other));
    assert_eq!(eng.depth(), 0);
}

#[test]
fn unexpected_close_fails() {
    let mut eng = engine("rect", 500);
    let e = eng.step(SvgEvent::Close("svg".to_string())).unwrap_err();
    assert_eq!(e, EngineError::UnexpectedClose);
    assert_eq!(eng.state(), EngineState::Failed);
}

#[test]
fn mismatched_close_fails() {
    let mut eng = engine("rect", 500);
    eng.step(SvgEvent::Open(element("svg", &[]))).unwrap();
    eng.step(SvgEvent::Open(element("g", &[]))).unwrap();
    let e = eng.step(SvgEvent::Close("svg".to_string())).unwrap_err();
    assert_eq!(e, EngineError::MismatchedClose);
    assert_eq!(eng.state(), EngineState::Failed);
    assert_eq!(eng.depth(), 2);
}

#[test]
fn unclosed_element_fails_at_finish() {
    let mut eng = engine("rect", 500);
    eng.step(SvgEvent::Open(element("svg", &[]))).unwrap();
    let e = eng.finish().unwrap_err();
    assert_eq!(e, EngineError::UnclosedElement);
    assert_eq!(eng.state(), EngineState::Failed);
}

#[test]
fn matched_transform_error_fails_the_pass() {
    let mut eng = engine("rect#fraction", 200);
    let rect = element("rect", &[("id", "fraction")]);
    let e = eng.step(SvgEvent::SelfClosing(rect)).unwrap_err();
    assert_eq!(e, EngineError::Transform(TransformError::MissingAttribute));
    assert_eq!(eng.state(), EngineState::Failed);
}

#[test]
fn open_tags_are_not_transformed() {
    let mut eng = engine("rect#fraction", 200);
    let rect = element("rect", &[("id", "fraction"), ("width", "200")]);
    let out = eng.step(SvgEvent::Open(rect)).unwrap();
    let SvgEvent::Open(el) = out else {
        panic!("expected an open element back");
    };
    assert_eq!(el.attrs[1].1, "200");
    eng.step(SvgEvent::Close("rect".to_string())).unwrap();
    eng.finish().unwrap();
}

#[test]
fn process_attributes_duplicate_keys_collapse_on_match() {
    let matcher = new_tag_matcher("rect").unwrap();
    let rect = element("rect", &[("width", "100"), ("width", "200")]);
    let out = process_attributes(&rect, &matcher, 500).unwrap();
    assert_eq!(out.attrs, vec![("width".to_string(), "100".to_string())]);
}

#[test]
fn process_attributes_ignores_non_match() {
    let matcher = new_tag_matcher("rect#fraction").unwrap();
    let rect = element("rect", &[("width", "200")]);
    let out = process_attributes(&rect, &matcher, 500).unwrap();
    assert_eq!(out.attrs, vec![("width".to_string(), "200".to_string())]);
}
