use sciink::cleanup::ClipKind;
use sciink::dom::Doc;
use sciink::ops::bbox::{has_bbox, is_drawn};
use sciink::ops::clip::{group, lang_matches, preferences_language};
use sciink::ops::style::{compose_style, fix_css_clipmask, remove_inline};
use sciink::style::Style;
use sciink::tools::flattener::{attached, groups, mark_exclusions, non_containers, replace_fonts, working_set, Options, EXCLUDE_ATTR};

fn parse(s: &str) -> Doc {
    match Doc::parse(s.as_bytes()) {
        Ok(d) => d,
        Err(e) => panic!("{}", e.message()),
    }
}

fn written(d: &Doc) -> String {
    let mut out = Vec::new();
    d.write(&mut out);
    String::from_utf8(out).unwrap()
}

#[test]
fn boxes_need_a_rendered_chain_to_the_root() {
    let d = parse(r#"<svg xmlns="http://www.w3.org/2000/svg"><g id="g"><rect id="r"/><rect id="h" style="display:none"/></g><defs><rect id="d"/></defs></svg>"#);
    let g = d.by_id("g").unwrap();
    let r = d.by_id("r").unwrap();
    assert!(has_bbox(&d, r));
    assert!(has_bbox(&d, d.svg()));
    assert!(!has_bbox(&d, d.by_id("d").unwrap()));
    assert!(is_drawn(&d, r));
    assert!(!is_drawn(&d, g));
    assert!(!is_drawn(&d, d.by_id("h").unwrap()));
    assert!(!is_drawn(&d, d.by_id("d").unwrap()));
}

#[test]
fn languages_match_by_tag_or_primary_subtag() {
    assert!(lang_matches("en-US, fr", "en"));
    assert!(lang_matches("EN", "en"));
    assert!(lang_matches("en_GB", "en-AU"));
    assert!(!lang_matches("de", "en"));
    assert!(!lang_matches("en", ""));
    assert!(!lang_matches(" , ", "en"));
}

#[test]
fn ui_language_comes_from_the_ui_group() {
    assert_eq!(preferences_language(r#"<prefs><group id="other" language="fr"/><group id="ui" language="de"/></prefs>"#), Some("de".to_string()));
    assert_eq!(preferences_language(r#"<prefs><group id="ui" language=" "/></prefs>"#), None);
    assert_eq!(preferences_language(r#"<prefs><group id="ui"/><group id="ui" language="de"/></prefs>"#), None);
    assert_eq!(preferences_language("no tags at all"), None);
}

#[test]
fn group_wraps_elements_after_the_first() {
    let mut d = parse(r#"<svg xmlns="http://www.w3.org/2000/svg"><rect id="a"/><rect id="b"/><rect id="c"/></svg>"#);
    let b = d.by_id("b").unwrap();
    let c = d.by_id("c").unwrap();
    let g = group(&mut d, &[b, c]);
    assert_eq!(d.parent(g), Some(d.svg()));
    assert_eq!(d.children(g), vec![b, c]);
    assert_eq!(written(&d), r#"<svg xmlns="http://www.w3.org/2000/svg"><rect id="a"/><g><rect id="b"/><rect id="c"/></g></svg>"#);
    let lone = group(&mut d, &[]);
    assert_eq!(d.parent(lone), None);
}

#[test]
fn remove_inline_leaves_the_attribute() {
    let mut d = parse(r#"<svg xmlns="http://www.w3.org/2000/svg"><rect id="r" style="fill:red;clip-path:url(#x)" clip-path="url(#y)"/></svg>"#);
    let r = d.by_id("r").unwrap();
    remove_inline(&mut d, r, "clip-path");
    assert_eq!(d.attr(r, "style"), Some("fill:red"));
    assert_eq!(d.attr(r, "clip-path"), Some("url(#y)"));
    remove_inline(&mut d, r, "fill");
    assert_eq!(d.attr(r, "style"), None);
}

#[test]
fn compose_style_puts_the_group_under_the_child() {
    let mut d = parse(r#"<svg xmlns="http://www.w3.org/2000/svg"><rect id="r" fill="red" style="opacity:0.5"/></svg>"#);
    let r = d.by_id("r").unwrap();
    let gs = Style::parse("fill:blue;stroke:black");
    compose_style(&mut d, r, &gs, Some("0.25"));
    assert_eq!(d.attr(r, "style"), Some("fill:red;stroke:black;opacity:0.25"));
    compose_style(&mut d, r, &Style::parse("stroke:none"), None);
    assert_eq!(d.attr(r, "style"), Some("stroke:black;fill:red"));
}

#[test]
fn clip_pinned_against_an_overriding_sheet() {
    let mut d = parse(r#"<svg xmlns="http://www.w3.org/2000/svg"><style>#r{clip-path:url(#a)}</style><rect id="r" clip-path="url(#b)" style="clip-path:url(#c);fill:red"/></svg>"#);
    let r = d.by_id("r").unwrap();
    fix_css_clipmask(&mut d, r, ClipKind::Clip);
    assert_eq!(written(&d), "<svg xmlns=\"http://www.w3.org/2000/svg\"><style>#r{clip-path:url(#a)}\n#r{clip-path:url(#b)}</style><rect id=\"r\" clip-path=\"url(#b)\" style=\"fill:red\"/></svg>");
}

#[test]
fn unpinnable_value_is_not_written_into_the_sheet() {
    let mut d = parse(r#"<svg xmlns="http://www.w3.org/2000/svg"><style>#r{mask:url(#a)}</style><rect id="r" mask="url(#b}x)"/></svg>"#);
    let r = d.by_id("r").unwrap();
    fix_css_clipmask(&mut d, r, ClipKind::Mask);
    assert_eq!(written(&d), r#"<svg xmlns="http://www.w3.org/2000/svg"><style>#r{mask:url(#a)}</style><rect id="r" mask="url(#b}x)"/></svg>"#);
}

#[test]
fn missing_attribute_is_pinned_as_none_in_a_new_root_style() {
    let mut d = parse(r#"<svg xmlns="http://www.w3.org/2000/svg"><defs><style>rect{clip-path:url(#a)}</style></defs><rect/></svg>"#);
    let svg = d.svg();
    let rect = d.children(svg)[1];
    fix_css_clipmask(&mut d, rect, ClipKind::Clip);
    let first = d.first_child(svg).unwrap();
    assert_eq!(d.tag(first), "style");
    let id = d.attr(rect, "id").unwrap().to_string();
    assert_eq!(d.text_content(first), format!("\n#{id}{{clip-path:none}}"));
}

const FLAT: &str = r#"<svg xmlns="http://www.w3.org/2000/svg"><g id="g"><rect id="a"/><g id="h" inkscape-scientific-flattenexclude="True"><rect id="b"/></g><defs id="d"/></g><text id="t" style="font-family:'DejaVu Sans';-inkscape-font-specification:Foo"/></svg>"#;

#[test]
fn exclusions_are_marked_and_cleared() {
    let mut d = parse(FLAT);
    let a = d.by_id("a").unwrap();
    mark_exclusions(&mut d, &[a], true);
    assert_eq!(d.attr(a, EXCLUDE_ATTR), Some("True"));
    mark_exclusions(&mut d, &[a], false);
    assert_eq!(d.attr(a, EXCLUDE_ATTR), None);
}

#[test]
fn working_set_skips_excluded_elements() {
    let d = parse(FLAT);
    let g = d.by_id("g").unwrap();
    let a = d.by_id("a").unwrap();
    let b = d.by_id("b").unwrap();
    let defs = d.by_id("d").unwrap();
    let ws = working_set(&d, &[g, a]);
    assert_eq!(ws, vec![g, a, b, defs]);
    assert_eq!(non_containers(&d, &ws), vec![a, b]);
    assert_eq!(groups(&d, &ws), vec![g]);
}

#[test]
fn detached_elements_drop_out() {
    let mut d = parse(FLAT);
    let a = d.by_id("a").unwrap();
    let g = d.by_id("g").unwrap();
    d.detach(a);
    assert_eq!(attached(&d, &[a, g]), vec![g]);
}

#[test]
fn fonts_get_the_replacement_appended() {
    let mut d = parse(FLAT);
    let t = d.by_id("t").unwrap();
    let a = d.by_id("a").unwrap();
    replace_fonts(&mut d, &[t, a], "Arial");
    assert_eq!(d.attr(t, "style"), Some("font-family:DejaVu Sans,Arial"));
    replace_fonts(&mut d, &[t], "arial");
    assert_eq!(d.attr(t, "style"), Some("font-family:DejaVu Sans,Arial"));
}

#[test]
fn testmode_turns_everything_on() {
    let o = Options::testmode();
    assert!(o.fixtext && o.mergesubsuper && o.setreplacement);
    assert_eq!(o.replacement, "sans-serif");
    assert_eq!(o.justification, 1);
}
