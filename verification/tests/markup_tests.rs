use catalog_core::markup::{
    parse_description_elements, serialize_description_elements, DescriptionElement,
    DescriptionImage, DescriptionSound, Link,
};

fn text(s: &str) -> DescriptionElement {
    DescriptionElement::Text(s.to_string())
}

fn link(target: &str, label: &str) -> DescriptionElement {
    DescriptionElement::Link(Link { text: label.to_string(), link: target.to_string() })
}

#[test]
fn parse_link_example() {
    let parsed = parse_description_elements("see <link=\"http://x\" text=\"here\"> now".to_string());
    assert_eq!(parsed, vec![text("see "), link("http://x", "here"), text(" now")]);
}

#[test]
fn parse_empty_is_no_elements() {
    let parsed = parse_description_elements(String::new());
    assert_eq!(parsed, Vec::new());
}

#[test]
fn parse_plain_text_is_one_element() {
    let parsed = parse_description_elements("just words".to_string());
    assert_eq!(parsed, vec![text("just words")]);
}

#[test]
fn parse_adjacent_tags_no_separator() {
    let parsed = parse_description_elements(
        "<image=\"a.png\" text=\"A\"><sound=\"b.ogg\" text=\"B\">".to_string(),
    );
    assert_eq!(
        parsed,
        vec![
            DescriptionElement::Image(DescriptionImage {
                text: "A".to_string(),
                image: "a.png".to_string(),
            }),
            DescriptionElement::Sound(DescriptionSound {
                text: "B".to_string(),
                sound: "b.ogg".to_string(),
            }),
        ]
    );
}

#[test]
fn parse_unknown_kind_stays_text() {
    let raw = "a <video=\"v\" text=\"t\"> b".to_string();
    let parsed = parse_description_elements(raw.clone());
    assert_eq!(parsed, vec![text("a <video=\"v\" text=\"t\"> b")]);
}

#[test]
fn parse_malformed_tag_stays_text() {
    let raw = "start <link=\"no close text".to_string();
    let parsed = parse_description_elements(raw.clone());
    assert_eq!(parsed, vec![text("start <link=\"no close text")]);
}

#[test]
fn parse_empty_value_or_text_not_a_tag() {
    let parsed = parse_description_elements("<link=\"\" text=\"x\">".to_string());
    assert_eq!(parsed, vec![text("<link=\"\" text=\"x\">")]);
    let parsed = parse_description_elements("<link=\"u\" text=\"\">".to_string());
    assert_eq!(parsed, vec![text("<link=\"u\" text=\"\">")]);
}

#[test]
fn serialize_maps_each_element_to_its_tag() {
    let s = serialize_description_elements(vec![
        text("see "),
        link("http://x", "here"),
        text(" now"),
    ]);
    assert_eq!(s, "see <link=\"http://x\" text=\"here\"> now");
}

#[test]
fn serialize_restores_parsed_input_exactly() {
    for raw in [
        "",
        "plain",
        "see <link=\"http://x\" text=\"here\"> now",
        "<image=\"i\" text=\"x\"><image=\"j\" text=\"y\">",
        "broken <link=\"a\" text=\"b\" trailing",
        "< link=\"a\" text=\"b\">",
        "quotes \" and <brackets>",
    ] {
        let s = serialize_description_elements(parse_description_elements(raw.to_string()));
        assert_eq!(s, raw);
    }
}

#[test]
fn parse_is_idempotent_through_serialize() {
    for raw in [
        "see <link=\"http://x\" text=\"here\"> now",
        "no tags at all",
        "<sound=\"s.ogg\" text=\"play\"> tail",
        "malformed <link=\"",
    ] {
        let once = parse_description_elements(raw.to_string());
        let again =
            parse_description_elements(serialize_description_elements(parse_description_elements(
                raw.to_string(),
            )));
        assert_eq!(once, again);
    }
}
