use sciink::dom::Doc;
use sciink::text::anchor::Anchor;
use sciink::text::lines::{line_openings, position_sources, Coord, XyFlags};
use sciink::text::parse::SprlType;
use sciink::text::tree::TextTree;

const TWO_LINES: &str = r#"<svg xmlns="http://www.w3.org/2000/svg" xmlns:sodipodi="http://sodipodi.sourceforge.net/DTD/sodipodi-0.dtd"><text id="t" x="5" y="10"><tspan sodipodi:role="line" x="5" y="10">A</tspan><tspan sodipodi:role="line" x="5" y="20">B</tspan></text></svg>"#;

fn all_set(n: usize) -> Vec<XyFlags> {
    vec![XyFlags { x_set: true, x_single: true, y_set: true, y_single: true }; n]
}

#[test]
fn line_roles_of_direct_children_are_stacked_lines() {
    let doc = Doc::parse(TWO_LINES.as_bytes()).ok().unwrap();
    let t = doc.by_id("t").unwrap();
    let tree = TextTree::new(&doc, t);
    let plan = position_sources(&doc, &tree, &all_set(3));
    assert_eq!(plan.esprl, vec![false, true, true]);
    assert_eq!(plan.types, vec![SprlType::Normal, SprlType::TlvlSprl, SprlType::TlvlSprl]);
    assert_eq!(plan.xsrc, vec![0, 1, 2]);
    assert_eq!(plan.ysrc, vec![0, 1, 2]);
}

#[test]
fn stacked_lines_open_under_the_previous_one() {
    let doc = Doc::parse(TWO_LINES.as_bytes()).ok().unwrap();
    let t = doc.by_id("t").unwrap();
    let tree = TextTree::new(&doc, t);
    let fl = all_set(3);
    let plan = position_sources(&doc, &tree, &fl);
    let runs = tree.runs(&doc);
    let lines = line_openings(&doc, &tree, &runs, &plan, &fl);
    assert_eq!(lines.len(), 2);
    assert_eq!(lines[0].first_run, 1);
    assert_eq!(lines[0].x, Coord::FirstOf(0));
    assert_eq!(lines[0].tlvlno, Some(0));
    assert!(lines[0].sprl);
    assert_eq!(lines[0].anchor, Anchor::Start);
    assert_eq!(lines[1].first_run, 3);
    assert_eq!(lines[1].x, Coord::LineFirst(0));
    assert_eq!(lines[1].y, Coord::Below(0));
    assert_eq!(lines[1].tlvlno, Some(1));
}

#[test]
fn a_missing_position_is_taken_from_the_parent() {
    let src = r#"<svg xmlns="http://www.w3.org/2000/svg"><text id="t" x="5" y="10"><tspan>A</tspan></text></svg>"#;
    let doc = Doc::parse(src.as_bytes()).ok().unwrap();
    let t = doc.by_id("t").unwrap();
    let tree = TextTree::new(&doc, t);
    let mut fl = all_set(2);
    fl[1] = XyFlags { x_set: false, x_single: true, y_set: false, y_single: true };
    let plan = position_sources(&doc, &tree, &fl);
    assert_eq!(plan.esprl, vec![false, false]);
    assert_eq!(plan.xsrc, vec![0, 0]);
    assert_eq!(plan.ysrc, vec![0, 0]);
    let runs = tree.runs(&doc);
    let lines = line_openings(&doc, &tree, &runs, &plan, &fl);
    assert_eq!(lines.len(), 1);
    assert_eq!(lines[0].first_run, 1);
    assert_eq!(lines[0].x, Coord::Entry(1));
    assert!(!lines[0].continue_x);
}
