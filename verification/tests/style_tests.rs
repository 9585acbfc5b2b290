use sciink::dom::Doc;
use sciink::sheet::parse_stylesheet;
use sciink::style::{default_value, presentation_attr, split_declarations, Style};

fn parse(s: &str) -> Doc {
    match Doc::parse(s.as_bytes()) {
        Ok(d) => d,
        Err(e) => panic!("{}", e.message()),
    }
}

#[test]
fn style_parse_lowercases_and_trims_names() {
    let st = Style::parse(" Fill : red ; stroke:blue;;bad; :x;y: ");
    assert_eq!(st.get("fill"), Some("red"));
    assert_eq!(st.get("stroke"), Some("blue"));
    assert_eq!(st.get("bad"), None);
    assert_eq!(st.get("y"), None);
    assert_eq!(st.to_css(), "fill:red;stroke:blue");
}

#[test]
fn style_later_declaration_wins_in_place() {
    let st = Style::parse("fill:red;stroke:blue;fill:green");
    assert_eq!(st.to_css(), "fill:green;stroke:blue");
}

#[test]
fn style_set_get_remove() {
    let mut st = Style::new();
    assert!(st.is_empty());
    st.set("a", "1");
    st.set("b", "2");
    st.set("a", "3");
    assert_eq!(st.get("a"), Some("3"));
    assert_eq!(st.to_css(), "a:3;b:2");
    assert_eq!(st.remove("a"), Some("3".to_string()));
    assert_eq!(st.remove("a"), None);
    assert_eq!(st.to_css(), "b:2");
    assert!(!st.is_empty());
}

#[test]
fn style_merge_over_overrides() {
    let mut a = Style::parse("fill:red;stroke:blue");
    let b = Style::parse("stroke:green;opacity:0.5");
    a.merge_over(&b);
    assert_eq!(a.to_css(), "fill:red;stroke:green;opacity:0.5");
}

#[test]
fn style_cloned_is_equal() {
    let a = Style::parse("fill:red;stroke:blue");
    let b = a.cloned();
    assert_eq!(b.to_css(), a.to_css());
}

#[test]
fn font_shorthand_is_expanded() {
    let st = Style::parse("font: italic bold 10px/1.25 'DejaVu Sans', sans-serif");
    assert_eq!(st.get("font-style"), Some("italic"));
    assert_eq!(st.get("font-weight"), Some("bold"));
    assert_eq!(st.get("font-size"), Some("10px"));
    assert_eq!(st.get("line-height"), Some("1.25"));
    assert_eq!(st.get("font-family"), Some("'DejaVu Sans', sans-serif"));
    assert_eq!(st.get("font"), None);
}

#[test]
fn declarations_split_outside_quotes_and_parens() {
    let ds = split_declarations("a:1;b:url(x;y);c:'p;q'");
    assert_eq!(ds, vec!["a:1".to_string(), "b:url(x;y)".to_string(), "c:'p;q'".to_string()]);
}

#[test]
fn presentation_attributes_and_defaults() {
    assert!(presentation_attr("fill"));
    assert!(presentation_attr("font-kerning"));
    assert!(!presentation_attr("clip-path"));
    assert!(!presentation_attr("transform"));
    assert_eq!(default_value("fill"), Some("black"));
    assert_eq!(default_value("no-such-property"), None);
}

#[test]
fn stylesheet_counts_rules_and_unsupported() {
    let sh = parse_stylesheet("/* c */ rect, .a { fill: red } @media print { x{} } a:hover{fill:blue} * {stroke:none}");
    assert_eq!(sh.rule_count(), 3);
    assert_eq!(sh.unsupported_rules(), 2);
    assert!(!sh.only_universal_rules());
    assert!(sh.declares_any(&["stroke"]));
    assert!(!sh.declares_any(&["opacity"]));
}

#[test]
fn universal_only_sheet() {
    let sh = parse_stylesheet("* { fill: red }");
    assert_eq!(sh.rule_count(), 1);
    assert!(sh.only_universal_rules());
}

const STYLED: &str = r#"<svg xmlns="http://www.w3.org/2000/svg"><style>rect { fill: blue } #r2 { fill: green } .c { stroke: red !important }</style><g id="g" fill="yellow" stroke="black"><rect id="r1"/><rect id="r2" class="c" style="stroke:white" fill="pink"/><circle id="c1" style="fill:orange"/></g></svg>"#;

#[test]
fn cascade_orders_attributes_rules_and_inline() {
    let d = parse(STYLED);
    let r1 = d.by_id("r1").unwrap();
    let r2 = d.by_id("r2").unwrap();
    let c1 = d.by_id("c1").unwrap();
    assert_eq!(d.specified(r1, "fill"), Some("blue".to_string()));
    assert_eq!(d.specified(r2, "fill"), Some("green".to_string()));
    assert_eq!(d.specified(r2, "stroke"), Some("red".to_string()));
    assert_eq!(d.specified(c1, "fill"), Some("orange".to_string()));
    assert_eq!(d.specified(c1, "stroke"), Some("black".to_string()));
    assert_eq!(d.specified(r1, "opacity"), None);
    assert_eq!(d.computed(r1, "opacity"), "1");
}

#[test]
fn cascaded_style_of_an_element() {
    let d = parse(STYLED);
    let c1 = d.by_id("c1").unwrap();
    assert_eq!(d.cascaded_style(c1).to_css(), "fill:orange");
    let g = d.by_id("g").unwrap();
    assert_eq!(d.cascaded_style(g).get("fill"), Some("yellow"));
}

#[test]
fn sheet_value_ignores_attributes_and_inline() {
    let d = parse(STYLED);
    let r2 = d.by_id("r2").unwrap();
    let c1 = d.by_id("c1").unwrap();
    assert_eq!(d.sheet_value(r2, "fill"), Some("green".to_string()));
    assert_eq!(d.sheet_value(r2, "stroke"), Some("red".to_string()));
    assert_eq!(d.sheet_value(c1, "fill"), None);
}

#[test]
fn set_style_writes_inline_and_drops_the_attribute() {
    let mut d = parse(STYLED);
    let g = d.by_id("g").unwrap();
    d.set_style(g, "fill", "purple");
    assert_eq!(d.attr(g, "fill"), None);
    assert_eq!(d.attr(g, "style"), Some("fill:purple"));
    d.remove_style(g, "fill");
    assert_eq!(d.attr(g, "style"), None);
}

#[test]
fn set_style_map_replaces_inline_style() {
    let mut d = parse(STYLED);
    let c1 = d.by_id("c1").unwrap();
    let st = Style::parse("stroke:none;opacity:0.5");
    d.set_style_map(c1, &st);
    assert_eq!(d.attr(c1, "style"), Some("stroke:none;opacity:0.5"));
    d.set_style_map(c1, &Style::new());
    assert_eq!(d.attr(c1, "style"), None);
}

#[test]
fn the_highest_ranked_declaration_wins() {
    let d = parse(r#"<svg xmlns="http://www.w3.org/2000/svg"><style>rect{fill:blue;stroke:green!important} #r{fill:yellow}</style><rect id="r" fill="red" stroke="black" style="fill:orange;stroke:white"/><rect id="q" fill="red"/><circle id="c" fill="red"/></svg>"#);
    let r = d.by_id("r").unwrap();
    assert_eq!(d.specified(r, "fill").as_deref(), Some("orange"));
    assert_eq!(d.specified(r, "stroke").as_deref(), Some("green"));
    let q = d.by_id("q").unwrap();
    assert_eq!(d.specified(q, "fill").as_deref(), Some("blue"));
    let c = d.by_id("c").unwrap();
    assert_eq!(d.specified(c, "fill").as_deref(), Some("red"));
}

#[test]
fn plain_css_survives_parse_and_write() {
    let css = "fill:red;stroke-width:0.5px;font-family:DejaVu Sans";
    assert_eq!(Style::parse(css).to_css(), css);
}

#[test]
fn defs_asked_twice_gives_one_element() {
    let mut d = Doc::parse(br#"<svg xmlns="http://www.w3.org/2000/svg"><g/></svg>"#).ok().unwrap();
    let first = d.defs();
    let n = d.node_count();
    let again = d.defs();
    assert_eq!(first, again);
    assert_eq!(d.node_count(), n);
    assert_eq!(d.first_child(d.svg()), Some(first));
}

#[test]
fn css_with_functions_and_quotes_survives_parse_and_write() {
    let css = "fill:url(#a);stroke:rgb(1, 2, 3);font-family:'a;b'";
    assert_eq!(Style::parse(css).to_css(), css);
}
