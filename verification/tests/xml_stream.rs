use battery_svg::engine::{Element, StreamEngine, SvgEvent};
use battery_svg::matcher::new_tag_matcher;

use quick_xml::events::{BytesStart, Event};
use quick_xml::reader::Reader;
use quick_xml::writer::Writer;

fn element_of(e: &BytesStart) -> Element {
    let name = e.name().into_inner().to_string();
    let attrs = e
        .attributes()
        .map(|a| {
            let a = a.unwrap();
            (a.key.into_inner().to_string(), a.value.to_string())
        })
        .collect();
    Element { name, attrs }
}

fn start_of(el: &Element) -> BytesStart<'static> {
    let mut out = BytesStart::new(el.name.clone());
    for (k, v) in &el.attrs {
        out.push_attribute((k.as_str(), v.as_str()));
    }
    out
}

/// Streams `input` through the engine and returns the rewritten document.
fn rewrite(input: &str, selector: &str, charge: u32) -> Result<String, String> {
    let mut reader = Reader::from_str(input);
    let mut writer = Writer::new(Vec::new());
    let mut engine = StreamEngine::new(new_tag_matcher(selector).unwrap(), charge);
    loop {
        let event = reader.read_event().map_err(|e| e.to_string())?;
        match event {
            Event::Eof => {
                engine.finish().map_err(|e| e.message())?;
                break;
            }
            Event::Empty(e) => {
                let out = engine
                    .step(SvgEvent::SelfClosing(element_of(&e)))
                    .map_err(|e| e.message())?;
                let SvgEvent::SelfClosing(el) = out else {
                    return Err("engine changed the event kind".to_string());
                };
                writer.write_event(Event::Empty(start_of(&el))).map_err(|e| e.to_string())?;
            }
            Event::Start(e) => {
                engine
                    .step(SvgEvent::Open(element_of(&e)))
                    .map_err(|e| e.message())?;
                writer.write_event(Event::Start(e)).map_err(|e| e.to_string())?;
            }
            Event::End(e) => {
                engine
                    .step(SvgEvent::Close(e.name().into_inner().to_string()))
                    .map_err(|e| e.message())?;
                writer.write_event(Event::End(e)).map_err(|e| e.to_string())?;
            }
            e => {
                engine.step(SvgEvent::Other).map_err(|e| e.message())?;
                writer.write_event(e).map_err(|e| e.to_string())?;
            }
        }
    }
    String::from_utf8(writer.into_inner()).map_err(|e| e.to_string())
}

#[test]
fn end_to_end_document_rewrite() {
    let input = r#"<svg><rect id="fraction" width="200" style="fill:green"/></svg>"#;
    let output = rewrite(input, "rect#fraction", 200).unwrap();
    assert_eq!(
        output,
        r#"<svg><rect id="fraction" width="40" style="fill:#ff8000"/></svg>"#
    );
}

#[test]
fn document_without_match_is_unchanged() {
    let input = r#"<svg><circle r="5"/><g><rect id="other" width="9"/></g>text</svg>"#;
    let output = rewrite(input, "rect#fraction", 200).unwrap();
    assert_eq!(output, input);
}

#[test]
fn half_charge_scales_width_only() {
    let input = r#"<svg><rect id="fraction" width="200" style="fill:green"/></svg>"#;
    let output = rewrite(input, "rect#fraction", 500).unwrap();
    assert_eq!(
        output,
        r#"<svg><rect id="fraction" width="100" style="fill:green"/></svg>"#
    );
}

#[test]
fn malformed_document_fails() {
    let input = r#"<svg><g></svg>"#;
    assert!(rewrite(input, "rect#fraction", 500).is_err());
    let unclosed = r#"<svg><g>"#;
    assert!(rewrite(unclosed, "rect#fraction", 500).is_err());
}
