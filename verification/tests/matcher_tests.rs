use battery_svg::matcher::{new_tag_matcher, AndMatcher, IdMatcher, NameMatcher, StackMatcher, TagMatcher};
use battery_svg::tag::Tag;

fn tag(name: &str, id: &str) -> Tag {
    Tag { name: name.to_string(), id: id.to_string() }
}

#[test]
fn selector_name_and_id() {
    let m = new_tag_matcher("rect#fraction").unwrap();
    assert!(m.matches(&vec![tag("rect", "fraction")]));
    assert!(!m.matches(&vec![tag("rect", "other")]));
    assert!(!m.matches(&vec![tag("circle", "fraction")]));
    assert!(!m.matches(&vec![]));
}

#[test]
fn selector_name_only() {
    let m = new_tag_matcher("rect").unwrap();
    assert!(m.matches(&vec![tag("rect", "fraction")]));
    assert!(m.matches(&vec![tag("rect", "")]));
    assert!(!m.matches(&vec![tag("circle", "")]));
}

#[test]
fn selector_id_only() {
    let m = new_tag_matcher("#fraction").unwrap();
    assert!(m.matches(&vec![tag("rect", "fraction")]));
    assert!(m.matches(&vec![tag("circle", "fraction")]));
    assert!(!m.matches(&vec![tag("rect", "")]));
}

#[test]
fn selector_empty_fails() {
    assert!(new_tag_matcher("").is_err());
    assert!(new_tag_matcher("#").is_err());
}

#[test]
fn matching_looks_at_top_of_stack_only() {
    let m = new_tag_matcher("rect#fraction").unwrap();
    assert!(m.matches(&vec![tag("svg", ""), tag("rect", "fraction")]));
    assert!(!m.matches(&vec![tag("rect", "fraction"), tag("svg", "")]));
}

#[test]
fn atomic_matchers_refuse_empty_stack() {
    let nm = NameMatcher { name: "rect".to_string() };
    let im = IdMatcher { id: "fraction".to_string() };
    assert!(!nm.matches(&vec![]));
    assert!(!im.matches(&vec![]));
    assert!(nm.matches(&vec![tag("rect", "x")]));
    assert!(im.matches(&vec![tag("x", "fraction")]));
}

#[test]
fn and_matcher_is_conjunction() {
    let m = AndMatcher {
        matchers: vec![
            TagMatcher::Name(NameMatcher { name: "rect".to_string() }),
            TagMatcher::Id(IdMatcher { id: "fraction".to_string() }),
        ],
    };
    assert!(m.matches(&vec![tag("rect", "fraction")]));
    assert!(!m.matches(&vec![tag("rect", "x")]));
    let empty = AndMatcher { matchers: vec![] };
    assert!(empty.matches(&vec![]));
}

#[test]
fn absent_id_behaves_like_empty_id() {
    let m = new_tag_matcher("rect").unwrap();
    assert!(m.matches(&vec![tag("rect", "")]));
}
