//! Style-level operations: pushing a group's declarations under a child, removing an inline
//! declaration, and pinning a `clip-path`/`mask` against a stylesheet that overrides it.
use vstd::prelude::*;
use crate::cascade::{doc_sheet, cascaded, sheet_value_of, style_map_written};
use crate::cleanup::{ClipKind, clip_attr_name, url_id, url_id_of};
use crate::dom::{Doc, DocV, NodeId, KindV, lemma_child, lemma_node_ok, lemma_fresh_not_anc};
use crate::strs::{alphanumeric, chars_of, decimal, is_alphanumeric, str_eq};
use crate::style::{Decls, Style, style_get, style_merge, style_parsed, style_remove, style_set};
use crate::xml::{trim, trimmed};

verus! {

// ---------------------------------------------------------------------------------------------
// Inline declarations

/// The document after `prop` is removed from `n`'s inline `style` (a presentation attribute of
/// the same name is left alone); unchanged when the inline style does not declare it.
pub open spec fn inline_removed(d: DocV, n: NodeId, prop: Seq<char>) -> DocV {
    match d.attr(n, "style"@) {
        None => d,
        Some(v) => {
            let st = style_parsed(v);
            if style_get(st, prop) is Some {
                style_map_written(d, n, style_remove(st, prop))
            } else {
                d
            }
        },
    }
}

/// Removes `prop` from the inline `style` attribute only.
pub fn remove_inline(doc: &mut Doc, n: NodeId, prop: &str)
    requires
        old(doc).wf(),
        old(doc)@.valid(n),
    ensures
        final(doc).wf(),
        final(doc)@ == inline_removed(old(doc)@, n, prop@),
{
    let inline: Option<String> = match doc.attr(n, "style") {
        Some(v) => Some(v.to_owned()),
        None => None,
    };
    if let Some(inline) = inline {
        let mut st = Style::parse(inline.as_str());
        if st.remove(prop).is_some() {
            doc.set_style_map(n, &st);
        }
    }
}

// ---------------------------------------------------------------------------------------------
// Composing a group's style onto a child

/// The child's new inline declarations: the group's, overridden by the child's cascaded ones,
/// with `opacity` set to `opacity` (the product of both sides' opacities, as text) when either
/// side declared one and removed otherwise.
pub open spec fn composed(group: Decls, own: Decls, opacity: Option<Seq<char>>) -> Decls {
    let merged = style_merge(group, own);
    match opacity {
        None => style_remove(merged, "opacity"@),
        Some(o) => style_set(merged, "opacity"@, o),
    }
}

/// Pushes a group's own declarations under a child's: the child's inline style becomes
/// `group_style` overridden by its cascaded style. `opacity` is the product of the two sides'
/// opacities, written as text, when either side declares one (`None` otherwise).
pub fn compose_style(doc: &mut Doc, child: NodeId, group_style: &Style, opacity: Option<&str>)
    requires
        old(doc).wf(),
        old(doc)@.valid(child),
    ensures
        final(doc).wf(),
        final(doc)@ == style_map_written(
            old(doc)@,
            child,
            composed(
                group_style@,
                cascaded(old(doc)@, doc_sheet(old(doc)@), child),
                match opacity {
                    Some(o) => Some(o@),
                    None => None,
                },
            ),
        ),
{
    let own = doc.cascaded_style(child);
    let mut merged = group_style.cloned();
    merged.merge_over(&own);
    match opacity {
        None => {
            let _ = merged.remove("opacity");
        },
        Some(o) => merged.set("opacity", o),
    }
    doc.set_style_map(child, &merged);
}

// ---------------------------------------------------------------------------------------------
// Pinning a clip or mask against the stylesheet

/// What `char::is_alphabetic` gives: the Unicode `Alphabetic` property.
pub uninterp spec fn alphabetic(c: char) -> bool;

/// `char::is_alphabetic`; on ASCII it holds exactly of letters.
#[verifier::external_body]
fn is_alphabetic(c: char) -> (r: bool)
    ensures
        r == alphabetic(c),
        (c as u32) < 128 ==> (r == (('a' <= c && c <= 'z') || ('A' <= c && c <= 'Z'))),
{
    c.is_alphabetic()
}

/// A character that may continue an XML name.
pub open spec fn name_char(c: char) -> bool {
    alphanumeric(c) || c == '_' || c == '-' || c == '.' || c == ':'
}

/// An XML-name-like id: a letter or `_`, then letters, digits, `_`, `-`, `.`, `:`.
pub open spec fn name_like(id: Seq<char>) -> bool {
    id.len() > 0 && (alphabetic(id[0]) || id[0] == '_') && forall|i: int|
        1 <= i < id.len() ==> #[trigger] name_char(id[i])
}

/// `none` or `url(#name)` with a name-like id: the only values worth pinning, so that a
/// crafted attribute value cannot inject rules into the document's stylesheet.
pub open spec fn pinnable_spec(v: Seq<char>) -> bool {
    v == "none"@ || match url_id_of(v) {
        Some(id) => name_like(id),
        None => false,
    }
}

fn pinnable(v: &str) -> (r: bool)
    ensures
        r == pinnable_spec(v@),
{
    if str_eq(v, "none") {
        return true;
    }
    match url_id(v) {
        None => false,
        Some(id) => {
            let cs = chars_of(id.as_str());
            proof {
                assert(url_id_of(v@) == Some(id@));
                assert(v@ != "none"@);
            }
            if cs.len() == 0 {
                return false;
            }
            if !(is_alphabetic(cs[0]) || cs[0] == '_') {
                proof {
                    assert(cs@[0] == id@[0]);
                    assert(!(alphabetic(id@[0]) || id@[0] == '_'));
                    assert(!name_like(id@));
                }
                return false;
            }
            let mut i: usize = 1;
            while i < cs.len()
                invariant
                    cs@ == id@,
                    url_id_of(v@) == Some(id@),
                    v@ != "none"@,
                    1 <= i <= cs@.len(),
                    forall|j: int| 1 <= j < i ==> #[trigger] name_char(cs@[j]),
                decreases cs@.len() - i,
            {
                let c = cs[i];
                if !(is_alphanumeric(c) || c == '_' || c == '-' || c == '.' || c == ':') {
                    proof {
                        assert(!name_char(cs@[i as int]));
                    }
                    return false;
                }
                i = i + 1;
            }
            true
        },
    }
}

/// The first `<style>` element child of `<svg>`.
pub open spec fn style_child_from(d: DocV, cs: Seq<NodeId>, i: int) -> Option<NodeId>
    decreases cs.len() - i,
{
    if i < 0 || i >= cs.len() {
        None
    } else if d.is_element(cs[i]) && d.tag(cs[i]) == "style"@ {
        Some(cs[i])
    } else {
        style_child_from(d, cs, i + 1)
    }
}

/// The root `<style>` and the document it is in: the first `<style>` child of `<svg>`, else a
/// new `<style>` made the first child of `<svg>`.
pub open spec fn root_style_of(d: DocV) -> (DocV, NodeId) {
    match style_child_from(d, d.children(d.svg), 0) {
        Some(s) => (d, s),
        None => {
            let s = d.nodes.len() as NodeId;
            let d1 = d.allocated(KindV::Element { name: "style"@, attrs: seq![], self_closing: true, close_ws: seq![] });
            let cs = d.children(d.svg);
            (if cs.len() == 0 {
                d1.appended(d.svg, s)
            } else {
                d1.inserted_before(s, cs[0])
            }, s)
        },
    }
}

fn root_style(doc: &mut Doc) -> (s: NodeId)
    requires
        old(doc).wf(),
        old(doc)@.nodes.len() + 1 < u32::MAX,
        old(doc)@.svg != 0,
    ensures
        final(doc).wf(),
        (final(doc)@, s) == root_style_of(old(doc)@),
        final(doc)@.valid(s),
{
    let svg = doc.svg();
    let cs = doc.children(svg);
    let mut i: usize = 0;
    while i < cs.len()
        invariant
            doc.wf(),
            svg == doc@.svg,
            doc@.valid(svg),
            cs@ == doc@.children(svg),
            i <= cs@.len(),
            style_child_from(doc@, cs@, i as int) == style_child_from(doc@, cs@, 0),
        decreases cs@.len() - i,
    {
        let c = cs[i];
        proof {
            lemma_child(doc@, svg, i as int);
        }
        if doc.is_element(c) && str_eq(doc.tag(c), "style") {
            return c;
        }
        i = i + 1;
    }
    let ghost d0 = doc@;
    let s = doc.new_element("style");
    proof {
        let d1 = doc@;
        lemma_node_ok(d0, svg);
        assert(d1.nodes[svg as int] == d0.nodes[svg as int]);
        lemma_fresh_not_anc(d0, d1.nodes[s as int].kind, svg, d1.dep(svg));
        if d0.children(svg).len() > 0 {
            lemma_child(d0, svg, 0);
        }
    }
    doc.prepend_child(svg, s);
    s
}

/// The last text child of `sty`.
pub open spec fn last_text_child(d: DocV, cs: Seq<NodeId>) -> Option<NodeId>
    decreases cs.len(),
{
    if cs.len() == 0 {
        None
    } else if d.text(cs.last()) is Some {
        Some(cs.last())
    } else {
        last_text_child(d, cs.drop_last())
    }
}

/// The document after `add` is appended to the sheet text of `sty`: its last text child, or a
/// new text node appended to it.
pub open spec fn sheet_text_appended(d: DocV, sty: NodeId, add: Seq<char>) -> DocV {
    match last_text_child(d, d.children(sty)) {
        Some(t) => d.text_set(t, d.text(t).unwrap() + add),
        None => {
            let t = d.nodes.len() as NodeId;
            let d1 = d.allocated(KindV::Text(seq![])).appended(sty, t);
            d1.text_set(t, add)
        },
    }
}

fn append_sheet_text(doc: &mut Doc, sty: NodeId, add: &str)
    requires
        old(doc).wf(),
        old(doc)@.valid(sty),
        old(doc)@.nodes.len() + 1 < u32::MAX,
    ensures
        final(doc).wf(),
        final(doc)@ == sheet_text_appended(old(doc)@, sty, add@),
{
    let cs = doc.children(sty);
    let mut i = cs.len();
    proof {
        assert(cs@.subrange(0, cs@.len() as int) =~= cs@);
    }
    while i > 0
        invariant
            doc.wf(),
            doc@ == old(doc)@,
            doc@.nodes.len() + 1 < u32::MAX,
            doc@.valid(sty),
            cs@ == doc@.children(sty),
            i <= cs@.len(),
            last_text_child(doc@, cs@.subrange(0, i as int)) == last_text_child(doc@, cs@),
        decreases i,
    {
        proof {
            lemma_child(doc@, sty, i - 1);
            assert(cs@.subrange(0, i as int).drop_last() =~= cs@.subrange(0, i - 1));
        }
        let c = cs[i - 1];
        proof {
            assert(cs@.subrange(0, i as int).last() == c);
        }
        if let Some(old_text) = doc.text(c) {
            let mut s = old_text.to_owned();
            s.append(add);
            doc.set_text(c, s.as_str());
            return;
        }
        i = i - 1;
    }
    proof {
        assert(last_text_child(doc@, cs@.subrange(0, 0)) is None);
    }
    let ghost d0 = doc@;
    let t = doc.new_text("");
    proof {
        let d1 = doc@;
        lemma_fresh_not_anc(d0, KindV::Text(""@), sty, d1.dep(sty));
        reveal_strlit("");
        assert(""@ =~= Seq::<char>::empty());
    }
    doc.append_child(sty, t);
    proof {
        lemma_node_ok(doc@, t);
    }
    doc.set_text(t, add);
}

/// The value the attribute gives, trimmed (`none` when absent).
pub open spec fn attr_value_or_none(d: DocV, n: NodeId, att: Seq<char>) -> Seq<char> {
    match d.attr(n, att) {
        Some(v) => trimmed(v),
        None => "none"@,
    }
}

/// The stylesheet disagrees with the attribute and the attribute's value may be pinned.
pub open spec fn pin_needed(d: DocV, n: NodeId, att: Seq<char>) -> bool {
    match sheet_value_of(d, n, att) {
        Some(css) => trimmed(css) != attr_value_or_none(d, n, att) && pinnable_spec(attr_value_or_none(d, n, att)),
        None => false,
    }
}

/// `d1` and `id` are what making sure `n` has an id gives from `d0`: its id, or a fresh
/// `sciink-<k>` id set on it.
pub open spec fn id_ensured(d0: DocV, n: NodeId, d1: DocV, id: Seq<char>) -> bool {
    &&& (d0.attr(n, "id"@) matches Some(v) ==> id == v && d1 == d0)
    &&& (d0.attr(n, "id"@) is None ==> exists|j: nat| #[trigger] d0.first_free("sciink-"@, d0.next_auto_id as nat, j)
        && id == "sciink-"@ + decimal(j) && d1 == (DocV { next_auto_id: (j + 1) as u32, ..d0 }).attr_set(n, "id"@, id))
}

/// The rule that pins `att: value` on the element with id `id`.
pub open spec fn pin_rule(id: Seq<char>, att: Seq<char>, value: Seq<char>) -> Seq<char> {
    "\n#"@ + id + "{"@ + att + ":"@ + value + "}"@
}

/// Inkscape lets a stylesheet `clip-path`/`mask` override the attribute, so when the sheet
/// disagrees with the attribute, pin the attribute's value (`none` when absent) with an id rule
/// appended to the root `<style>`, and clear any inline-style copy. A value that is not
/// `pinnable` is left unpinned.
pub fn fix_css_clipmask(doc: &mut Doc, n: NodeId, kind: ClipKind)
    requires
        old(doc).wf(),
        old(doc)@.valid(n),
        old(doc)@.svg != 0,
        old(doc)@.nodes.len() + 3 < u32::MAX,
        old(doc)@.next_auto_id + old(doc)@.ids.dom().len() + 1 < u32::MAX,
    ensures
        final(doc).wf(),
        !pin_needed(old(doc)@, n, clip_attr_name(kind)) ==> final(doc)@ == inline_removed(old(doc)@, n, clip_attr_name(kind)),
        pin_needed(old(doc)@, n, clip_attr_name(kind)) ==> exists|d1: DocV, id: Seq<char>| {
            &&& #[trigger] id_ensured(old(doc)@, n, d1, id)
            &&& final(doc)@ == inline_removed(
                sheet_text_appended(
                    root_style_of(d1).0,
                    root_style_of(d1).1,
                    pin_rule(id, clip_attr_name(kind), attr_value_or_none(old(doc)@, n, clip_attr_name(kind))),
                ),
                n,
                clip_attr_name(kind),
            )
        },
{
    let att = kind.attr();
    proof {
        reveal_strlit("clip-path");
        reveal_strlit("mask");
        assert(att@ == clip_attr_name(kind));
    }
    if let Some(css) = doc.sheet_value(n, att) {
        let value: String = match doc.attr(n, att) {
            Some(v) => trim(v),
            None => String::from_str("none"),
        };
        let ct = trim(css.as_str());
        if !str_eq(ct.as_str(), value.as_str()) && pinnable(value.as_str()) {
            let ghost d0 = doc@;
            let id = doc.ensure_id(n);
            let ghost d1 = doc@;
            proof {
                assert(id_ensured(d0, n, d1, id@));
                assert(d1.nodes.len() == d0.nodes.len());
                assert(d1.svg == d0.svg);
            }
            let sty = root_style(doc);
            let mut rule = String::from_str("\n#");
            rule.append(id.as_str());
            rule.append("{");
            rule.append(att);
            rule.append(":");
            rule.append(value.as_str());
            rule.append("}");
            append_sheet_text(doc, sty, rule.as_str());
            proof {
                assert(rule@ == pin_rule(id@, clip_attr_name(kind), attr_value_or_none(d0, n, clip_attr_name(kind))));
            }
            remove_inline(doc, n, att);
            return;
        }
    }
    remove_inline(doc, n, att);
}

} // verus!
