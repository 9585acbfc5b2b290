use sciink::dom::Doc;
use sciink::ops::clip::{deswitch_children, element_children, ui_language_of};
use sciink::ops::xform::remove_inkscape_attrs;
use sciink::text::fontcache::{esc, style_code, style_from, unesc};
use sciink::text::fonts::{generic_list, is_generic, FontStyle, GENERIC_MONO, GENERIC_SANS, GENERIC_SERIF};
use sciink::tools::favorite_markers::template_name;
use sciink::tools::flattener::move_defs_and_clips_to_root;

fn parse(s: &str) -> Doc {
    match Doc::parse(s.as_bytes()) {
        Ok(d) => d,
        Err(e) => panic!("{}", e.message()),
    }
}

fn written(d: &Doc) -> String {
    let mut out = Vec::new();
    d.write(&mut out);
    String::from_utf8(out).unwrap()
}

#[test]
fn cache_fields_escape_backslash_tab_and_newline() {
    assert_eq!(esc("a\\b\tc\nd"), "a\\\\b\\tc\\nd");
    assert_eq!(esc("plain"), "plain");
    assert_eq!(unesc("a\\\\b\\tc\\nd"), Some("a\\b\tc\nd".to_string()));
}

#[test]
fn unknown_or_dangling_escapes_are_refused() {
    assert_eq!(unesc("a\\x"), None);
    assert_eq!(unesc("trailing\\"), None);
    assert_eq!(unesc(""), Some(String::new()));
}

#[test]
fn escaped_fields_read_back() {
    for s in ["", "\\", "\\\\t", "tab\there", "C:\\Fonts\\n.ttf", "line\n\\n"] {
        assert_eq!(unesc(&esc(s)), Some(s.to_string()));
    }
}

#[test]
fn style_codes_read_back() {
    for s in [FontStyle::Normal, FontStyle::Italic, FontStyle::Oblique] {
        assert_eq!(style_from(&style_code(s).to_string()), Some(s));
    }
    assert_eq!(style_code(FontStyle::Oblique), 2);
    assert_eq!(style_from("3"), None);
    assert_eq!(style_from(""), None);
}

#[test]
fn template_options_name_the_builtins_or_the_custom_name() {
    assert_eq!(template_name(0, ""), Ok("Arrow".to_string()));
    assert_eq!(template_name(1, "x"), Ok("Triangle".to_string()));
    assert_eq!(template_name(2, ""), Ok("Distance".to_string()));
    assert_eq!(template_name(3, "  Mine "), Ok("Mine".to_string()));
    assert_eq!(
        template_name(3, "   "),
        Err("Custom template selected: type its template name in the box below the template list.".to_string())
    );
    assert_eq!(template_name(7, ""), Err("unknown template option 7 (0\u{2013}3)".to_string()));
}

#[test]
fn generic_families_map_to_their_face_lists() {
    assert_eq!(generic_list("Sans-Serif"), Some(&GENERIC_SANS[..]));
    assert_eq!(generic_list("UI-SERIF"), Some(&GENERIC_SERIF[..]));
    assert_eq!(generic_list("mono"), Some(&GENERIC_MONO[..]));
    assert_eq!(generic_list("fantasy"), Some(&GENERIC_SANS[..]));
    assert_eq!(generic_list("Arial"), None);
    assert!(is_generic("SERIF"));
    assert!(is_generic("system-ui"));
    assert!(!is_generic("ui-serif"));
    assert!(!is_generic("Helvetica"));
}

#[test]
fn ui_language_prefers_the_preferences_then_the_locale() {
    let prefs = r#"<inkscape><group id="ui" language="de" /></inkscape>"#;
    assert_eq!(ui_language_of(Some(prefs), &[Some("fr_FR.UTF-8".to_string())]), "de");
    assert_eq!(ui_language_of(Some("<inkscape/>"), &[None, Some("C".to_string()), Some("pt_BR.UTF-8".to_string())]), "pt");
    assert_eq!(ui_language_of(None, &[Some("POSIX".to_string()), Some(" ja @x".to_string())]), "ja");
    assert_eq!(ui_language_of(None, &[None, None, None]), "en");
    assert_eq!(ui_language_of(None, &[Some("_US".to_string())]), "en");
}

#[test]
fn editor_attributes_leave_a_transformed_path() {
    let mut d = parse(r#"<svg xmlns="http://www.w3.org/2000/svg"><path id="p" d="M 0 0" sodipodi:nodetypes="cc" inkscape:label="x" inkscape-academic-x="1" data-inkscape-scientific="2" fill="red"/></svg>"#);
    let p = d.by_id("p").unwrap();
    remove_inkscape_attrs(&mut d, p);
    assert_eq!(
        written(&d),
        r#"<svg xmlns="http://www.w3.org/2000/svg"><path id="p" d="M 0 0" inkscape-academic-x="1" data-inkscape-scientific="2" fill="red"/></svg>"#
    );
}

#[test]
fn selected_defs_and_clips_move_to_the_root_defs() {
    let mut d = parse(r#"<svg xmlns="http://www.w3.org/2000/svg"><g id="g"><defs id="d"><path id="q"/></defs><clipPath id="c"><rect id="r"/></clipPath><rect id="k"/></g></svg>"#);
    let ids = ["g", "d", "q", "c", "r", "k"];
    let mut seld: Vec<_> = ids.iter().map(|i| d.by_id(i).unwrap()).collect();
    move_defs_and_clips_to_root(&mut d, &mut seld);
    let want: Vec<_> = ["g", "k"].iter().map(|i| d.by_id(i).unwrap()).collect();
    assert_eq!(seld, want);
    let out = written(&d);
    assert!(out.starts_with(r#"<svg xmlns="http://www.w3.org/2000/svg"><defs"#));
    let root_defs = d.children(d.svg())[0];
    let moved: Vec<_> = d.children(root_defs);
    assert_eq!(moved, vec![d.by_id("d").unwrap(), d.by_id("c").unwrap()]);
}

#[test]
fn nothing_to_move_creates_no_defs() {
    let mut d = parse(r#"<svg xmlns="http://www.w3.org/2000/svg"><g id="g"><rect id="k"/></g></svg>"#);
    let mut seld = vec![d.by_id("g").unwrap(), d.by_id("k").unwrap()];
    let before = written(&d);
    move_defs_and_clips_to_root(&mut d, &mut seld);
    assert_eq!(written(&d), before);
    assert_eq!(seld.len(), 2);
}

#[test]
fn a_switch_keeps_its_first_matching_child() {
    let mut d = parse(r#"<svg xmlns="http://www.w3.org/2000/svg"><switch id="s"><g id="a" systemLanguage="de"/><g id="b" systemLanguage="fr,en-US"/><g id="c"/></switch></svg>"#);
    let sw = d.by_id("s").unwrap();
    assert_eq!(element_children(&d, sw).len(), 3);
    deswitch_children(&mut d, sw, "en");
    assert_eq!(element_children(&d, sw), vec![d.by_id("b").unwrap()]);
    assert_eq!(d.attr(d.by_id("b").unwrap(), "systemLanguage"), None);
}

#[test]
fn a_switch_never_loses_its_last_child() {
    let mut d = parse(r#"<svg xmlns="http://www.w3.org/2000/svg"><switch id="s"><g id="a" systemLanguage="de"/><g id="b" systemLanguage="fr"/></switch></svg>"#);
    let sw = d.by_id("s").unwrap();
    deswitch_children(&mut d, sw, "en");
    assert_eq!(element_children(&d, sw), vec![d.by_id("a").unwrap()]);
    assert_eq!(d.attr(d.by_id("a").unwrap(), "systemLanguage"), None);
}
