use sciink::dom::{Doc, DomError};
use sciink::xml::XmlEvent;

const SIMPLE: &str = r#"<?xml version="1.0"?>
<svg xmlns="http://www.w3.org/2000/svg" xmlns:xlink="http://www.w3.org/1999/xlink" id="root"><g id="g1"><rect id="r1" x="1"/><text id="t1">Hello <tspan id="s1">big</tspan> world</text></g><!-- note --></svg>"#;

fn parse(s: &str) -> Doc {
    match Doc::parse(s.as_bytes()) {
        Ok(d) => d,
        Err(e) => panic!("{}", e.message()),
    }
}

fn written(d: &Doc) -> String {
    let mut out = Vec::new();
    d.write(&mut out);
    String::from_utf8(out).unwrap()
}

#[test]
fn parse_then_write_gives_the_input_back() {
    let d = parse(SIMPLE);
    assert_eq!(written(&d), SIMPLE);
}

#[test]
fn write_keeps_entities_escaped() {
    let src = r#"<svg xmlns="http://www.w3.org/2000/svg"><text a="x &amp; &quot;y&quot;">a &lt; b &amp; c</text></svg>"#;
    let d = parse(src);
    let t = d.by_id("nothing");
    assert!(t.is_none());
    assert_eq!(written(&d), src);
}

#[test]
fn entities_are_decoded_in_the_model() {
    let d = parse(r#"<svg xmlns="http://www.w3.org/2000/svg"><text id="t" a="1 &lt; 2">x &amp; y&#33;</text></svg>"#);
    let t = d.by_id("t").unwrap();
    assert_eq!(d.attr(t, "a"), Some("1 < 2"));
    assert_eq!(d.text_content(t), "x & y!");
}

#[test]
fn byte_order_mark_is_skipped() {
    let mut bytes = vec![0xEF, 0xBB, 0xBF];
    bytes.extend_from_slice(br#"<svg xmlns="http://www.w3.org/2000/svg"/>"#);
    let d = Doc::parse(&bytes).ok().unwrap();
    assert_eq!(d.tag(d.svg()), "svg");
}

#[test]
fn non_utf8_input_is_unsupported() {
    let bytes = [0x3c, 0x73, 0xff, 0xfe];
    match Doc::parse(&bytes) {
        Err(DomError::Unsupported(_)) => {}
        _ => panic!("expected an unsupported-document error"),
    }
}

#[test]
fn root_must_be_svg() {
    match Doc::parse(b"<html/>") {
        Err(DomError::Unsupported(_)) => {}
        _ => panic!("expected an unsupported-document error"),
    }
}

#[test]
fn known_namespace_under_another_prefix_is_unsupported() {
    match Doc::parse(br#"<svg xmlns="http://www.w3.org/2000/svg" xmlns:foo="http://www.w3.org/1999/xlink"/>"#) {
        Err(DomError::Unsupported(m)) => assert!(m.contains("'foo'")),
        _ => panic!("expected an unsupported-document error"),
    }
}

#[test]
fn unknown_prefixes_are_accepted() {
    assert!(Doc::parse(br#"<svg xmlns="http://www.w3.org/2000/svg"><foo:bar/></svg>"#).is_ok());
}

#[test]
fn undefined_entity_is_unsupported() {
    match Doc::parse(br#"<svg xmlns="http://www.w3.org/2000/svg"><text>&nbsp;</text></svg>"#) {
        Err(DomError::Unsupported(m)) => assert_eq!(m, "undefined entity &nbsp;"),
        _ => panic!("expected an unsupported-document error"),
    }
}

#[test]
fn unclosed_element_is_an_xml_error() {
    match Doc::parse(br#"<svg xmlns="http://www.w3.org/2000/svg"><g></svg>"#) {
        Err(DomError::Xml(_)) => {}
        _ => panic!("expected an XML error"),
    }
}

#[test]
fn error_messages_name_their_kind() {
    let e = DomError::Xml("bad".to_string());
    assert_eq!(e.message(), "invalid XML: bad");
    let e = DomError::Unsupported("odd".to_string());
    assert_eq!(e.message(), "unsupported document: odd");
}

#[test]
fn navigation_follows_the_tree() {
    let d = parse(SIMPLE);
    let g = d.by_id("g1").unwrap();
    let r = d.by_id("r1").unwrap();
    let t = d.by_id("t1").unwrap();
    assert_eq!(d.parent(r), Some(g));
    assert_eq!(d.first_child(g), Some(r));
    assert_eq!(d.last_child(g), Some(t));
    assert_eq!(d.next_sibling(r), Some(t));
    assert_eq!(d.prev_sibling(t), Some(r));
    assert_eq!(d.children(g), vec![r, t]);
    assert_eq!(d.ancestors(r), vec![g, d.svg(), d.root()]);
    assert!(d.is_element(r));
    assert_eq!(d.tag(t), "text");
    assert_eq!(d.text_content(t), "Hello big world");
    assert_eq!(d.descendants(g).len(), 7);
    assert_eq!(d.element_count(), 4);
}

#[test]
fn attributes_can_be_set_and_removed() {
    let mut d = parse(SIMPLE);
    let r = d.by_id("r1").unwrap();
    d.set_attr(r, "x", "5");
    assert_eq!(d.attr(r, "x"), Some("5"));
    d.set_attr(r, "fill", "red");
    assert_eq!(d.attr(r, "fill"), Some("red"));
    assert_eq!(d.remove_attr(r, "x"), Some("5".to_string()));
    assert_eq!(d.attr(r, "x"), None);
    assert_eq!(d.remove_attr(r, "x"), None);
}

#[test]
fn setting_an_id_reindexes() {
    let mut d = parse(SIMPLE);
    let r = d.by_id("r1").unwrap();
    d.set_attr(r, "id", "other");
    assert_eq!(d.by_id("r1"), None);
    assert_eq!(d.by_id("other"), Some(r));
}

#[test]
fn detach_and_append_move_nodes() {
    let mut d = parse(SIMPLE);
    let g = d.by_id("g1").unwrap();
    let r = d.by_id("r1").unwrap();
    let svg = d.svg();
    d.detach(r);
    assert_eq!(d.parent(r), None);
    assert_eq!(d.by_id("r1"), None);
    d.append_child(svg, r);
    assert_eq!(d.parent(r), Some(svg));
    assert_eq!(d.last_child(svg), Some(r));
    assert_eq!(d.by_id("r1"), Some(r));
    assert!(!d.children(g).contains(&r));
}

#[test]
fn insert_before_and_after_place_nodes() {
    let mut d = parse(SIMPLE);
    let r = d.by_id("r1").unwrap();
    let t = d.by_id("t1").unwrap();
    let a = d.new_element("circle");
    d.insert_before(a, t);
    assert_eq!(d.next_sibling(r), Some(a));
    let b = d.new_element("line");
    d.insert_after(b, r);
    assert_eq!(d.next_sibling(r), Some(b));
    assert_eq!(d.next_sibling(b), Some(a));
    let c = d.new_comment("c");
    d.prepend_child(d.svg(), c);
    assert_eq!(d.first_child(d.svg()), Some(c));
    assert_eq!(d.comment(c), Some("c"));
}

#[test]
fn text_nodes_can_be_rewritten() {
    let mut d = parse(r#"<svg xmlns="http://www.w3.org/2000/svg"><text id="t">a</text></svg>"#);
    let t = d.by_id("t").unwrap();
    let tx = d.first_child(t).unwrap();
    d.set_text(tx, "b < c");
    assert_eq!(d.text(tx), Some("b < c"));
    assert_eq!(written(&d), r#"<svg xmlns="http://www.w3.org/2000/svg"><text id="t">b &lt; c</text></svg>"#);
}

#[test]
fn ensure_id_keeps_or_makes_an_id() {
    let mut d = parse(SIMPLE);
    let r = d.by_id("r1").unwrap();
    assert_eq!(d.ensure_id(r), "r1");
    let n = d.new_element("rect");
    d.append_child(d.svg(), n);
    let id = d.ensure_id(n);
    assert!(id.starts_with("sciink-"));
    assert_eq!(d.by_id(&id), Some(n));
    let n2 = d.new_element("rect");
    d.append_child(d.svg(), n2);
    let id2 = d.ensure_id(n2);
    assert_ne!(id, id2);
}

#[test]
fn deep_clone_copies_without_ids() {
    let mut d = parse(SIMPLE);
    let g = d.by_id("g1").unwrap();
    let c = d.deep_clone(g);
    assert_eq!(d.parent(c), None);
    assert_eq!(d.attr(c, "id"), None);
    assert_eq!(d.tag(c), "g");
    assert_eq!(d.children(c).len(), 2);
    assert_eq!(d.text_content(c), "Hello big world");
    assert_eq!(d.by_id("g1"), Some(g));
}

#[test]
fn selection_follows_ids() {
    let d = parse(SIMPLE);
    let ids = vec!["t1".to_string(), "r1".to_string(), "missing".to_string()];
    let r = d.by_id("r1").unwrap();
    let t = d.by_id("t1").unwrap();
    assert_eq!(d.selection(&ids), vec![r, t]);
    assert_eq!(d.selection_ordered(&ids), vec![t, r]);
}

#[test]
fn defs_is_made_on_demand() {
    let mut d = parse(SIMPLE);
    let defs = d.defs();
    assert_eq!(d.tag(defs), "defs");
    assert_eq!(d.parent(defs), Some(d.svg()));
    assert_eq!(d.defs(), defs);
}

#[test]
fn href_and_xml_space() {
    let d = parse(r##"<svg xmlns="http://www.w3.org/2000/svg" xmlns:xlink="http://www.w3.org/1999/xlink" xml:space="preserve"><rect id="a"/><use id="u" xlink:href="#a"/></svg>"##);
    let u = d.by_id("u").unwrap();
    let a = d.by_id("a").unwrap();
    assert_eq!(d.href(u), Some("#a"));
    assert_eq!(d.resolve_href(u), Some(a));
    assert!(d.xml_space_preserve(a));
}

#[test]
fn generations_grow_with_mutations() {
    let mut d = parse(SIMPLE);
    let g0 = d.generation();
    let r = d.by_id("r1").unwrap();
    d.set_attr(r, "x", "2");
    assert!(d.generation() > g0);
}

#[test]
fn comment_only_input_is_unsupported() {
    match Doc::parse(b"<!-- c -->") {
        Err(DomError::Unsupported(_)) => {}
        _ => panic!("expected an unsupported-document error"),
    }
}

#[test]
fn from_reading_builds_the_described_document() {
    let events = vec![
        XmlEvent::Start { name: "svg".to_string(), attrs: String::new() },
        XmlEvent::Text("hi".to_string()),
        XmlEvent::End,
    ];
    let d = Doc::from_reading(&events, None, 17).ok().unwrap();
    assert_eq!(d.tag(d.svg()), "svg");
    assert_eq!(d.text_content(d.svg()), "hi");
}

#[test]
fn from_reading_reports_a_reader_error_after_the_events() {
    let events = vec![XmlEvent::Start { name: "svg".to_string(), attrs: String::new() }];
    match Doc::from_reading(&events, Some("unexpected end".to_string()), 5) {
        Err(DomError::Xml(m)) => assert_eq!(m, "unexpected end"),
        _ => panic!("expected an XML error"),
    }
}

#[test]
fn from_reading_refuses_a_root_other_than_svg() {
    let events = vec![XmlEvent::Empty { name: "g".to_string(), attrs: String::new() }];
    match Doc::from_reading(&events, None, 4) {
        Err(DomError::Unsupported(_)) => {}
        _ => panic!("expected an unsupported-document error"),
    }
}

#[test]
fn document_node_can_be_moved_under_a_detached_element() {
    let mut d = parse(SIMPLE);
    let g = d.new_element("g");
    let root = d.root();
    d.append_child(g, root);
    assert_eq!(d.parent(root), Some(g));
    assert_eq!(d.last_child(g), Some(root));
}

#[test]
fn character_references_in_both_bases() {
    let d = parse(r#"<svg xmlns="http://www.w3.org/2000/svg"><text id="t">&#65;&#x42;&#X43;</text></svg>"#.replace("&#X43;", "&#x43;").as_str());
    let t = d.by_id("t").unwrap();
    assert_eq!(d.text_content(t), "ABC");
}

#[test]
fn a_zero_character_reference_is_an_xml_error() {
    match Doc::parse(br#"<svg xmlns="http://www.w3.org/2000/svg"><text>&#0;</text></svg>"#) {
        Err(DomError::Xml(_)) => {}
        _ => panic!("expected an XML error"),
    }
}

#[test]
fn writing_what_canonical_events_build_gives_their_text_back() {
    let events = vec![
        XmlEvent::Start { name: "svg".to_string(), attrs: r#" xmlns="http://www.w3.org/2000/svg""#.to_string() },
        XmlEvent::Text("hi ".to_string()),
        XmlEvent::Ref("amp".to_string()),
        XmlEvent::Comment(" c ".to_string()),
        XmlEvent::Empty { name: "g".to_string(), attrs: r#" id="a""#.to_string() },
        XmlEvent::End,
    ];
    let text = r#"<svg xmlns="http://www.w3.org/2000/svg">hi &amp;<!-- c --><g id="a"/></svg>"#;
    let d = Doc::from_events(&events, text.len()).ok().unwrap();
    assert_eq!(written(&d), text);
}
