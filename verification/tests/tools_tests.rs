use sciink::dom::Doc;
use sciink::text::Warnings;
use sciink::tools::combine_by_color::candidates;
use sciink::tools::favorite_markers::{add_remove, marker_props, marker_template_of, shapes, MarkerData, Store};
use sciink::tools::font_probe::text_elements;
use sciink::tools::scaler::{ordinal, warn_non_plot};
use sciink::tools::slimmer::{dedup_stylesheets, Report};

fn parse(s: &str) -> Doc {
    match Doc::parse(s.as_bytes()) {
        Ok(d) => d,
        Err(e) => panic!("{}", e.message()),
    }
}

fn written(d: &Doc) -> String {
    let mut out = Vec::new();
    d.write(&mut out);
    String::from_utf8(out).unwrap()
}

fn pair(k: &str, v: &str) -> (String, String) {
    (k.to_string(), v.to_string())
}

fn builtins() -> Store {
    match Store::builtins() {
        Ok(s) => s,
        Err(e) => panic!("{}", e.message()),
    }
}

#[test]
fn builtin_templates_are_listed_in_order() {
    let s = builtins();
    assert_eq!(s.templates(), vec!["Arrow".to_string(), "Triangle".to_string(), "Distance".to_string()]);
}

#[test]
fn a_builtin_template_has_three_markers_without_ids() {
    let s = builtins();
    let t = s.get("Distance").unwrap();
    let start = t[0].as_ref().unwrap();
    assert_eq!(start.attrs[0], pair("inkscape:stockid", "DistanceStart"));
    assert!(start.attrs.iter().all(|(k, _)| k != "id" && k != "sciink:template" && k != "sciink:position"));
    assert_eq!(start.paths.len(), 3);
    assert_eq!(start.paths[0][0], pair("d", "M 0,0 L 2,0"));
    assert_eq!(t[1].as_ref().unwrap().paths.len(), 1);
    assert_eq!(t[2].as_ref().unwrap().paths.len(), 3);
    assert!(s.get("Nothing").is_none());
}

#[test]
fn removing_a_template_drops_its_markers() {
    let mut s = builtins();
    assert!(s.remove("Triangle"));
    assert_eq!(s.templates(), vec!["Arrow".to_string(), "Distance".to_string()]);
    assert!(s.get("Triangle").is_none());
    assert!(!s.remove("Triangle"));
}

#[test]
fn a_stored_template_reads_back() {
    let mut s = builtins();
    let m = MarkerData {
        attrs: vec![pair("orient", "auto"), pair("refX", "1")],
        paths: vec![vec![pair("d", "M 0,0 L 1,1"), pair("style", "fill:red")]],
    };
    s.set("Mine", &[None, Some(m), None]);
    assert_eq!(s.templates(), vec!["Arrow".to_string(), "Triangle".to_string(), "Distance".to_string(), "Mine".to_string()]);
    let t = s.get("Mine").unwrap();
    assert!(t[0].is_none());
    assert!(t[2].is_none());
    let mid = t[1].as_ref().unwrap();
    assert_eq!(mid.attrs, vec![pair("orient", "auto"), pair("refX", "1")]);
    assert_eq!(mid.paths, vec![vec![pair("d", "M 0,0 L 1,1"), pair("style", "fill:red")]]);
}

#[test]
fn replacing_a_template_keeps_its_place_in_the_list() {
    let mut s = builtins();
    let m = MarkerData { attrs: vec![pair("id", "dropped"), pair("orient", "auto")], paths: vec![] };
    s.set("Triangle", &[Some(m), None, None]);
    assert_eq!(s.templates(), vec!["Arrow".to_string(), "Triangle".to_string(), "Distance".to_string()]);
    let t = s.get("Triangle").unwrap();
    assert_eq!(t[0].as_ref().unwrap().attrs, vec![pair("orient", "auto")]);
    assert!(t[1].is_none());
}

#[test]
fn the_first_template_replaced_goes_back_to_the_front() {
    let mut s = builtins();
    let m = MarkerData { attrs: vec![], paths: vec![] };
    s.set("Arrow", &[None, None, Some(m)]);
    assert_eq!(s.templates(), vec!["Arrow".to_string(), "Triangle".to_string(), "Distance".to_string()]);
}

#[test]
fn a_shape_marker_becomes_template_data() {
    let d = parse(r##"<svg xmlns="http://www.w3.org/2000/svg"><defs><marker id="m" orient="auto"><g><path id="p" d="M 0,0"/></g></marker><marker id="e"/></defs></svg>"##);
    let m = marker_props(&d, Some(" url(#m) ")).unwrap();
    assert_eq!(m.attrs, vec![pair("orient", "auto")]);
    assert_eq!(m.paths, vec![vec![pair("d", "M 0,0")]]);
    assert!(marker_props(&d, Some("url(#e)")).is_none());
    assert!(marker_props(&d, Some("none")).is_none());
    assert!(marker_props(&d, Some("url(#missing)")).is_none());
    assert!(marker_props(&d, None).is_none());
}

#[test]
fn ordinals_follow_english() {
    assert_eq!(ordinal(1), "1st");
    assert_eq!(ordinal(2), "2nd");
    assert_eq!(ordinal(3), "3rd");
    assert_eq!(ordinal(4), "4th");
    assert_eq!(ordinal(11), "11th");
    assert_eq!(ordinal(12), "12th");
    assert_eq!(ordinal(20), "20th");
    assert_eq!(ordinal(21), "21st");
    assert_eq!(ordinal(112), "112th");
    assert_eq!(ordinal(123), "123rd");
}

#[test]
fn the_plot_warning_is_given_once() {
    let mut w = Warnings::new();
    warn_non_plot(&mut w, 1, "g7");
    warn_non_plot(&mut w, 1, "g7");
    assert_eq!(w.0.len(), 1);
    assert!(w.0[0].starts_with("A box-like plot area could not be automatically detected on the 2nd selected plot (group ID g7)."));
    warn_non_plot(&mut w, 0, "g1");
    assert_eq!(w.0.len(), 2);
}

#[test]
fn combine_candidates_are_pathlike_and_unique() {
    let d = parse(r#"<svg xmlns="http://www.w3.org/2000/svg"><g id="a"><path id="p" d="M 0 0"/><rect id="r"/><line id="l" x1="0"/><defs><path id="q" d="M 1 1"/></defs></g><polyline id="y" points="0 0"/></svg>"#);
    let ids = vec!["a".to_string(), "p".to_string(), "y".to_string()];
    let c = candidates(&d, &ids);
    let want: Vec<_> = ["p", "l", "q", "y"].iter().map(|i| d.by_id(i).unwrap()).collect();
    assert_eq!(c, want);
}

#[test]
fn text_elements_of_the_whole_drawing_or_the_selection() {
    let d = parse(r#"<svg xmlns="http://www.w3.org/2000/svg"><g id="g"><text id="t1">a</text></g><flowRoot id="f"/><text id="t2">b</text></svg>"#);
    let all = text_elements(&d, &[]);
    let want: Vec<_> = ["t1", "f", "t2"].iter().map(|i| d.by_id(i).unwrap()).collect();
    assert_eq!(all, want);
    let sel = text_elements(&d, &["t2".to_string(), "g".to_string(), "t1".to_string()]);
    assert_eq!(sel, vec![d.by_id("t1").unwrap(), d.by_id("t2").unwrap()]);
}

#[test]
fn duplicate_sheets_go_and_the_last_moves_to_the_front() {
    let mut d = parse(r#"<svg xmlns="http://www.w3.org/2000/svg"><rect/><style>.a{fill:red}</style><g><style>.a{fill:red}</style></g></svg>"#);
    let (removed, moved) = dedup_stylesheets(&mut d);
    assert_eq!(removed, 1);
    assert!(moved);
    let out = written(&d);
    assert!(out.starts_with(r#"<svg xmlns="http://www.w3.org/2000/svg"><style>.a{fill:red}</style><rect/><g"#));
    assert_eq!(out.matches("<style>").count(), 1);
}

#[test]
fn a_fresh_report_says_nothing_changed() {
    let mut r = Report::new();
    assert!(!r.changed());
    r.sheet_moved = true;
    assert!(r.changed());
}

const DRAWING: &str = r##"<svg xmlns="http://www.w3.org/2000/svg"><defs><marker id="m" orient="auto"><path d="M 0,0 L 1,1"/></marker></defs><g id="g"><path id="p" d="M 0 0 L 5 5" style="marker-end:url(#m)"/><circle id="c" r="1"/><text id="t">x</text></g><rect id="r"/></svg>"##;

#[test]
fn shapes_of_the_selection_in_selection_order() {
    let d = parse(DRAWING);
    let s = shapes(&d, &["r".to_string(), "g".to_string(), "p".to_string()]);
    let want: Vec<_> = ["r", "p", "c"].iter().map(|i| d.by_id(i).unwrap()).collect();
    assert_eq!(s, want);
}

#[test]
fn a_shape_template_holds_its_markers() {
    let d = parse(DRAWING);
    let t = marker_template_of(&d, d.by_id("p").unwrap());
    assert!(t[0].is_none());
    assert!(t[1].is_none());
    let end = t[2].as_ref().unwrap();
    assert_eq!(end.attrs, vec![pair("orient", "auto")]);
    assert_eq!(end.paths, vec![vec![pair("d", "M 0,0 L 1,1")]]);
}

#[test]
fn adding_a_template_from_the_selection() {
    let d = parse(DRAWING);
    let mut s = builtins();
    let done = add_remove(&d, &mut s, &["p".to_string()], true, " Mine ", false, "", true).unwrap();
    assert!(done.changed);
    assert_eq!(
        done.messages,
        vec![
            "Templates successfully updated!".to_string(),
            "favorite-markers: stored templates: Arrow, Triangle, Distance, Mine".to_string()
        ]
    );
    let t = s.get("Mine").unwrap();
    assert_eq!(t[2].as_ref().unwrap().paths, vec![vec![pair("d", "M 0,0 L 1,1")]]);
}

#[test]
fn adding_a_template_needs_a_name_a_shape_and_markers() {
    let d = parse(DRAWING);
    let mut s = builtins();
    let e = add_remove(&d, &mut s, &["p".to_string()], true, "  ", false, "", false).err().unwrap();
    assert_eq!(e, "Give the new template a name.");
    let e = add_remove(&d, &mut s, &["t".to_string()], true, "X", false, "", false).err().unwrap();
    assert_eq!(e, "Select a path whose markers should become the template.");
    let e = add_remove(&d, &mut s, &["r".to_string()], true, "X", false, "", false).err().unwrap();
    assert_eq!(e, "The selected path has no markers to store.");
    assert_eq!(s.templates().len(), 3);
}

#[test]
fn removing_an_unknown_template_warns_and_changes_nothing() {
    let d = parse(DRAWING);
    let mut s = builtins();
    let done = add_remove(&d, &mut s, &[], false, "", true, " Nope ", false).unwrap();
    assert!(!done.changed);
    assert_eq!(done.messages, vec!["warning: template 'Nope' is not stored; nothing removed".to_string()]);
    let done = add_remove(&d, &mut s, &[], false, "", true, "Arrow", false).unwrap();
    assert!(done.changed);
    assert_eq!(done.messages, vec!["Templates successfully updated!".to_string()]);
    assert_eq!(s.templates(), vec!["Triangle".to_string(), "Distance".to_string()]);
}

#[test]
fn font_specification_reads_family_and_face_words() {
    let fams = vec!["DejaVu Sans".to_string(), "Arial".to_string()];
    let s = sciink::tools::homogenizer::inkscape_spec_to_css("DejaVu Sans Bold Italic", &fams).unwrap();
    assert_eq!(s.to_css(), "font-family:DejaVu Sans;font-weight:bold;font-style:italic");
}

#[test]
fn font_specification_matches_a_family_at_the_end_and_weight_numbers() {
    let fams = vec!["Arial".to_string()];
    let s = sciink::tools::homogenizer::inkscape_spec_to_css("Weight700, Condensed ARIAL", &fams).unwrap();
    assert_eq!(s.to_css(), "font-family:Arial;font-weight:700;font-stretch:condensed");
}

#[test]
fn font_specification_normal_sets_all_three_and_generic_families_count() {
    let s = sciink::tools::homogenizer::inkscape_spec_to_css("sans normal", &Vec::new()).unwrap();
    assert_eq!(s.to_css(), "font-family:Sans;font-weight:normal;font-style:normal;font-stretch:normal");
}

#[test]
fn font_specification_with_an_unknown_word_has_no_css() {
    let fams = vec!["Arial".to_string()];
    assert!(sciink::tools::homogenizer::inkscape_spec_to_css("Arial Fancy", &fams).is_none());
}

#[test]
fn testmode_duplicates_sit_before_their_originals() {
    let src = r#"<svg xmlns="http://www.w3.org/2000/svg" xmlns:inkscape="http://www.inkscape.org/namespaces/inkscape"><g id="a" inkscape:label="Plot"><rect id="r"/><path id="p"/></g></svg>"#;
    let mut doc = Doc::parse(src.as_bytes()).ok().unwrap();
    let g = doc.by_id("a").unwrap();
    let svg = doc.svg();
    let out = sciink::tools::flattener::duplicate_for_testmode(&mut doc, &[g]);
    let kids = doc.children(svg);
    assert_eq!(kids.len(), 2);
    let copy = kids[0];
    assert_eq!(kids[1], g);
    assert_eq!(doc.attr(g, "inkscape:label"), Some("Plot flat"));
    assert_eq!(doc.attr(copy, "inkscape:label"), Some("Plot original"));
    assert_eq!(doc.attr(copy, "sodipodi:insensitive"), Some("true"));
    assert_eq!(doc.attr(copy, "opacity"), Some("0.3"));
    assert_eq!(doc.attr(copy, "id"), None);
    assert_eq!(out, vec![doc.by_id("r").unwrap(), doc.by_id("p").unwrap()]);
}
