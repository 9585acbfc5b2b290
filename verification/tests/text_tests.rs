use sciink::dom::Doc;
use sciink::style::Style;
use sciink::text::anchor::Anchor;
use sciink::text::edit::{sel, style_eq, WType};
use sciink::text::fonts::{FontSpec, FontStyle};
use sciink::text::kerning::{isnumeric, merge_wtypes, trailing_leading, twospaces, wstrip, MergeType};
use sciink::text::parse::CharLoc;
use sciink::text::tree::{run_text, set_run_text, Run, TextTree};
use sciink::text::write::clip_of;
use sciink::text::Warnings;

fn parse(s: &str) -> Doc {
    match Doc::parse(s.as_bytes()) {
        Ok(d) => d,
        Err(e) => panic!("{}", e.message()),
    }
}

#[test]
fn numbers_as_tick_labels_write_them() {
    assert!(isnumeric("  1,234.5 ", false));
    assert!(isnumeric("\u{2212}3", false));
    assert!(isnumeric("1e5", false));
    assert!(isnumeric("1.e3", false));
    assert!(isnumeric("+.5", false));
    assert!(isnumeric("inf", false));
    assert!(isnumeric("NaN", false));
    assert!(!isnumeric("abc", false));
    assert!(!isnumeric(".", false));
    assert!(!isnumeric("e5", false));
    assert!(!isnumeric("", false));
    assert!(!isnumeric("-", false));
    assert!(isnumeric("-", true));
    assert!(isnumeric(" \u{2212} ", true));
}

#[test]
fn wstrip_drops_spaces_tabs_and_newlines() {
    assert_eq!(wstrip(" a\tb\r\nc "), "abc");
    assert_eq!(wstrip("a\u{A0}b"), "a\u{A0}b");
}

#[test]
fn twospaces_detects_double_spaces() {
    assert!(twospaces("a  ", "b"));
    assert!(twospaces("a ", " b"));
    assert!(twospaces("a", "  b"));
    assert!(!twospaces("a ", "b"));
    assert!(!twospaces("a", " b"));
}

#[test]
fn trailing_and_leading_spaces_are_counted() {
    assert_eq!(trailing_leading("ab   ", "  cd "), (3, 2));
    assert_eq!(trailing_leading("", ""), (0, 0));
    assert_eq!(trailing_leading("a b", "x"), (0, 0));
}

#[test]
fn merge_chains_walk_the_state_machine() {
    let c = vec![((0usize, 1u32), MergeType::Sub), ((0usize, 2u32), MergeType::Same), ((1usize, 3u32), MergeType::SubReturn)];
    assert_eq!(merge_wtypes(&c), Some(vec![WType::Normal, WType::Sub, WType::Sub, WType::Normal]));
    let bad = vec![((0usize, 1u32), MergeType::SuperReturn)];
    assert_eq!(merge_wtypes(&bad), None);
    let mixed = vec![((0usize, 1u32), MergeType::Super), ((0usize, 2u32), MergeType::SubReturn)];
    assert_eq!(merge_wtypes(&mixed), None);
    assert_eq!(merge_wtypes(&[]), Some(vec![WType::Normal]));
}

#[test]
fn font_spec_reads_the_four_properties() {
    let st = Style::parse("font-family:'Arial', \"Times New Roman\",;font-weight:bold;font-style:italic;font-stretch:condensed");
    let f = FontSpec::from_style(&st);
    assert_eq!(f.families, vec!["Arial".to_string(), "Times New Roman".to_string()]);
    assert_eq!(f.weight, 700);
    assert_eq!(f.style, FontStyle::Italic);
    assert_eq!(f.width, 3);
    assert_eq!(f.key(), "'Arial','Times New Roman'|700|italic|3");
}

#[test]
fn font_spec_defaults_and_weights() {
    let f = FontSpec::from_style(&Style::new());
    assert_eq!(f.families, vec!["sans-serif".to_string()]);
    assert_eq!(f.weight, 400);
    assert_eq!(f.style, FontStyle::Normal);
    assert_eq!(f.width, 5);
    assert_eq!(f.key(), "'sans-serif'|400|normal|5");
    let w = |v: &str| FontSpec::from_style(&Style::parse(&format!("font-weight:{v}"))).weight;
    assert_eq!(w("350"), 350);
    assert_eq!(w("+600"), 600);
    assert_eq!(w("1050"), 400);
    assert_eq!(w("625"), 400);
    assert_eq!(w("lighter"), 400);
    assert_eq!(w("99999"), 400);
}

#[test]
fn anchors_parse_and_print() {
    assert_eq!(Anchor::parse(" middle "), Some(Anchor::Middle));
    assert_eq!(Anchor::parse("end"), Some(Anchor::End));
    assert_eq!(Anchor::parse("left"), None);
    assert_eq!(Anchor::Start.css(), "start");
    assert_eq!(Anchor::parse(Anchor::End.css()), Some(Anchor::End));
}

#[test]
fn styles_compare_regardless_of_order() {
    assert!(style_eq(&Style::parse("a:1;b:2"), &Style::parse("b:2;a:1")));
    assert!(!style_eq(&Style::parse("a:1;b:2"), &Style::parse("a:1")));
    assert!(!style_eq(&Style::parse("a:1"), &Style::parse("a:2")));
}

#[test]
fn warnings_are_kept_once() {
    let mut w = Warnings::new();
    w.push("x");
    w.push("y");
    w.push("x");
    assert_eq!(w.0, vec!["x".to_string(), "y".to_string()]);
}

const TEXT: &str = r#"<svg xmlns="http://www.w3.org/2000/svg"><text id="t">A<tspan id="s">B</tspan>C<!--x-->D</text></svg>"#;

#[test]
fn text_tree_lists_elements_and_comments() {
    let d = parse(TEXT);
    let t = d.by_id("t").unwrap();
    let s = d.by_id("s").unwrap();
    let tree = TextTree::new(&d, t);
    assert_eq!(tree.dds.len(), 3);
    assert_eq!(tree.dds[0], t);
    assert_eq!(tree.dds[1], s);
    assert!(d.is_comment(tree.dds[2]));
    assert_eq!(tree.parent, vec![None, Some(0), Some(0)]);
    assert!(tree.is_top_level(1));
    assert!(!tree.is_top_level(0));
    assert!(!tree.is_top_level(9));
}

#[test]
fn runs_come_in_document_order() {
    let d = parse(TEXT);
    let t = d.by_id("t").unwrap();
    let s = d.by_id("s").unwrap();
    let tree = TextTree::new(&d, t);
    let c = tree.dds[2];
    let runs = tree.runs(&d);
    assert_eq!(
        runs,
        vec![
            Run { ddi: 0, node: t, is_tail: false, style_node: t },
            Run { ddi: 1, node: s, is_tail: false, style_node: s },
            Run { ddi: 1, node: s, is_tail: true, style_node: t },
            Run { ddi: 2, node: c, is_tail: true, style_node: t },
        ]
    );
    let texts: Vec<Option<String>> = runs.iter().map(|r| run_text(&d, r)).collect();
    assert_eq!(texts, vec![Some("A".to_string()), Some("B".to_string()), Some("C".to_string()), Some("D".to_string())]);
}

#[test]
fn run_text_can_be_replaced_removed_and_created() {
    let mut d = parse(r#"<svg xmlns="http://www.w3.org/2000/svg"><text id="t"><tspan id="s">B</tspan></text></svg>"#);
    let t = d.by_id("t").unwrap();
    let s = d.by_id("s").unwrap();
    let text_t = Run { ddi: 0, node: t, is_tail: false, style_node: t };
    let tail_s = Run { ddi: 1, node: s, is_tail: true, style_node: t };
    let text_s = Run { ddi: 1, node: s, is_tail: false, style_node: s };
    assert_eq!(run_text(&d, &text_t), None);
    set_run_text(&mut d, &text_t, Some("A"));
    set_run_text(&mut d, &tail_s, Some("C"));
    set_run_text(&mut d, &text_s, Some("b"));
    assert_eq!(d.text_content(t), "AbC");
    set_run_text(&mut d, &text_s, None);
    assert_eq!(d.text_content(t), "AC");
    let mut out = Vec::new();
    d.write(&mut out);
    assert_eq!(String::from_utf8(out).unwrap(), r#"<svg xmlns="http://www.w3.org/2000/svg"><text id="t">A<tspan id="s"></tspan>C</text></svg>"#);
}

#[test]
fn sel_picks_the_parent_for_tails() {
    let d = parse(TEXT);
    let t = d.by_id("t").unwrap();
    let s = d.by_id("s").unwrap();
    assert_eq!(sel(&d, &CharLoc { node: s, tail: true, idx: 0 }), t);
    assert_eq!(sel(&d, &CharLoc { node: s, tail: false, idx: 0 }), s);
}

#[test]
fn clip_of_reads_attribute_then_style() {
    let d = parse(r#"<svg xmlns="http://www.w3.org/2000/svg"><clipPath id="c"/><text id="a" clip-path=" url(#c) "/><g style="clip-path:url(#c)"><text id="b"/></g><text id="n" clip-path="url(#zz)"/><text id="m"/></svg>"#);
    let c = d.by_id("c").unwrap();
    assert_eq!(clip_of(&d, d.by_id("a").unwrap()), Some(c));
    assert_eq!(clip_of(&d, d.by_id("n").unwrap()), None);
    assert_eq!(clip_of(&d, d.by_id("m").unwrap()), None);
}

use sciink::text::whitespace::{cleanup_returns, collapse, depathologize, first_newline_to_space, split_whitespace, trim6};

fn written(d: &Doc) -> String {
    let mut out = Vec::new();
    d.write(&mut out);
    String::from_utf8(out).unwrap()
}

#[test]
fn whitespace_helpers() {
    assert_eq!(collapse(" a \t\n b  "), " a b ");
    assert_eq!(trim6(" \u{b}a b\u{c} "), "a b");
    assert_eq!(trim6("\u{A0}a"), "\u{A0}a");
    assert_eq!(first_newline_to_space("a \n\n b\rc"), "a   b c");
    assert_eq!(cleanup_returns("a \n", true), "a ");
    assert_eq!(cleanup_returns("ab", true), "ab");
    assert_eq!(cleanup_returns("a\nb", false), "a b");
    assert_eq!(split_whitespace("  1 2\t3\n"), vec!["1".to_string(), "2".to_string(), "3".to_string()]);
}

#[test]
fn surplus_positions_are_cut_quietly_for_a_leaf() {
    let mut d = parse(r#"<svg xmlns="http://www.w3.org/2000/svg"><text id="t" x="1 2 3" y="5">ab</text></svg>"#);
    let t = d.by_id("t").unwrap();
    let mut w = Warnings::new();
    depathologize(&mut d, t, false, &mut w);
    assert_eq!(d.attr(t, "x"), Some("1 2"));
    assert_eq!(d.attr(t, "y"), Some("5"));
    assert!(w.0.is_empty());
}

#[test]
fn surplus_positions_before_more_text_are_reported() {
    let mut d = parse(r#"<svg xmlns="http://www.w3.org/2000/svg"><text id="t" x="1 2 3">a<tspan>bc</tspan></text></svg>"#);
    let t = d.by_id("t").unwrap();
    let mut w = Warnings::new();
    depathologize(&mut d, t, false, &mut w);
    assert_eq!(d.attr(t, "x"), Some("1"));
    assert_eq!(w.0, vec!["t: x has more values than characters; extra values dropped".to_string()]);
}

#[test]
fn whitespace_is_collapsed_and_trimmed() {
    let mut d = parse("<svg xmlns=\"http://www.w3.org/2000/svg\"><text id=\"t\">  a \n  b  </text></svg>");
    let t = d.by_id("t").unwrap();
    let mut w = Warnings::new();
    depathologize(&mut d, t, false, &mut w);
    assert_eq!(d.text_content(t), "a b");
}

#[test]
fn preserved_whitespace_is_kept() {
    let mut d = parse("<svg xmlns=\"http://www.w3.org/2000/svg\"><text id=\"t\" xml:space=\"preserve\">  a  b  </text></svg>");
    let t = d.by_id("t").unwrap();
    let mut w = Warnings::new();
    depathologize(&mut d, t, true, &mut w);
    assert_eq!(d.text_content(t), "  a  b  ");
}

#[test]
fn text_after_a_comment_moves_before_it() {
    let mut d = parse(r#"<svg xmlns="http://www.w3.org/2000/svg"><text id="t">A<!--c-->B</text></svg>"#);
    let t = d.by_id("t").unwrap();
    let mut w = Warnings::new();
    depathologize(&mut d, t, false, &mut w);
    assert_eq!(written(&d), r#"<svg xmlns="http://www.w3.org/2000/svg"><text id="t">AB<!--c--></text></svg>"#);
}
