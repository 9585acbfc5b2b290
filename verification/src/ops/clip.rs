//! Grouping, and the language tests `<switch>` resolution rests on.
use vstd::prelude::*;
use crate::cleanup::{contains_pat, contains_pat_exec, split_on, split_pat};
use crate::dom::{Doc, DocV, NodeId, KindV, all_detached, lemma_node_ok, lemma_fresh_not_anc, lemma_child, lemma_anc_unfold, lemma_detach_keeps_non_anc};
use crate::strs::{chars_of, slice_range, str_eq, string_from};
use crate::style::{ascii_lower, to_ascii_lowercase};
use crate::xml::{skip_ws_exec, trim, trimmed, trimmed_start};
use crate::tools::flattener::{all_valid, kept_where};

verus! {

// ---------------------------------------------------------------------------------------------
// Grouping

/// Where two documents give the same parent to every node on `x`'s parent chain (within `f`
/// steps), they agree on which nodes are on it.
pub proof fn lemma_chain_kept(d1: DocV, d2: DocV, y: NodeId, x: NodeId, f: nat)
    requires
        forall|z: NodeId| #[trigger] d1.anc_f(z, x, f) ==> d1.parent(z) == d2.parent(z),
    ensures
        d1.anc_f(y, x, f) == d2.anc_f(y, x, f),
    decreases f,
{
    if f > 0 && x != y {
        assert(d1.anc_f(x, x, f));
        if let Some(p) = d1.parent(x) {
            assert forall|z: NodeId| #[trigger] d1.anc_f(z, p, (f - 1) as nat) implies d1.parent(z) == d2.parent(z) by {
                assert(d1.anc_f(z, x, f));
            }
            lemma_chain_kept(d1, d2, y, p, (f - 1) as nat);
        }
    }
}

/// Moving `e` (detached, then attached anywhere) leaves the ancestors of a node `x` it is not
/// an ancestor of as they were.
proof fn lemma_move_keeps_anc(d: DocV, e: NodeId, p: NodeId, i: int, x: NodeId)
    requires
        d.wf(),
        d.valid(e),
        d.valid(x),
        d.valid(p),
        e != 0,
        !d.anc_or_self(e, x),
    ensures
        forall|y: NodeId| #[trigger] d.detached(e).attached_at(p, i, e).anc_or_self(y, x) == d.anc_or_self(y, x),
{
    let d1 = d.detached(e);
    let d2 = d1.attached_at(p, i, e);
    lemma_node_ok(d, e);
    if let Some(q) = d.parent(e) {
        lemma_detach_keeps_non_anc(d, e, x);
        assert(d1.nodes == d.detach_struct(e, q).nodes);
        assert(d1.depth == d.detach_struct(e, q).depth);
        assert(d1.dep(x) == d.dep(x));
        assert forall|z: NodeId| #[trigger] d.anc_f(z, x, d.dep(x)) implies d.parent(z) == d1.parent(z) by {
            lemma_chain_valid(d, z, x, d.dep(x));
            if z == e {
                assert(d.anc_or_self(e, x));
            }
        }
        assert forall|y: NodeId| d1.anc_or_self(y, x) == d.anc_or_self(y, x) by {
            lemma_chain_kept(d, d1, y, x, d.dep(x));
        }
    }
    assert(!d1.anc_or_self(e, x));
    assert(d2.nodes == d1.attach_struct(p, i, e).nodes);
    assert(d2.depth == d1.attach_struct(p, i, e).depth);
    assert(d2.dep(x) == d1.dep(x));
    assert(d1.nodes.len() == d.nodes.len());
    assert forall|z: NodeId| #[trigger] d1.anc_f(z, x, d1.dep(x)) implies d1.parent(z) == d2.parent(z) by {
        assert(d1.anc_or_self(z, x) == d.anc_or_self(z, x));
        lemma_chain_valid(d, z, x, d.dep(x));
        if z == e {
            assert(d1.anc_or_self(e, x));
        }
    }
    assert forall|y: NodeId| #[trigger] d2.anc_or_self(y, x) == d.anc_or_self(y, x) by {
        lemma_chain_kept(d1, d2, y, x, d1.dep(x));
    }
}

/// `els` moved one after the other to the end of `g`'s children.
pub open spec fn appended_all(d: DocV, g: NodeId, els: Seq<NodeId>) -> DocV
    decreases els.len(),
{
    if els.len() == 0 {
        d
    } else {
        appended_all(d, g, els.drop_last()).appended(g, els.last())
    }
}

/// The document after `group(els)`: a new `<g>` placed right after the first element (detached
/// when `els` is empty), then every element of `els` moved into it, in order.
pub open spec fn grouped(d: DocV, els: Seq<NodeId>) -> DocV {
    let g = d.nodes.len() as NodeId;
    let d1 = d.allocated(KindV::Element { name: "g"@, attrs: seq![], self_closing: true, close_ws: seq![] });
    if els.len() == 0 {
        d1
    } else {
        let d2 = match d.next_sibling(els[0]) {
            None => d1.appended(d.parent(els[0]).unwrap(), g),
            Some(nx) => d1.inserted_before(g, nx),
        };
        appended_all(d2, g, els)
    }
}

/// `els` can be grouped: each is an element node other than the document node, the first is
/// attached, and none contains the first one's parent.
pub open spec fn groupable(d: DocV, els: Seq<NodeId>) -> bool {
    &&& forall|k: int| 0 <= k < els.len() ==> d.valid(#[trigger] els[k]) && els[k] != 0
    &&& els.len() > 0 ==> {
        &&& d.parent(els[0]) is Some
        &&& forall|k: int| 0 <= k < els.len() ==> !d.anc_or_self(#[trigger] els[k], d.parent(els[0]).unwrap())
    }
}

/// Wraps `els` in a new `<g>` placed right after the first element; an empty list gives a
/// detached group.
pub fn group(doc: &mut Doc, els: &[NodeId]) -> (g: NodeId)
    requires
        old(doc).wf(),
        old(doc)@.nodes.len() + 1 < u32::MAX,
        groupable(old(doc)@, els@),
    ensures
        final(doc).wf(),
        g as int == old(doc)@.nodes.len(),
        final(doc)@ == grouped(old(doc)@, els@),
{
    let ghost d0 = doc@;
    let g = doc.new_element("g");
    if els.len() == 0 {
        return g;
    }
    let first = els[0];
    let ghost p = d0.parent(first).unwrap();
    let ghost d1 = doc@;
    proof {
        lemma_node_ok(d0, first);
        lemma_node_ok(d0, p);
        assert(d1.nodes[first as int] == d0.nodes[first as int]);
        assert(d1.nodes[p as int] == d0.nodes[p as int]);
        lemma_fresh_not_anc(d0, d1.kind(g), first, d1.dep(first));
        assert(d1.next_sibling(first) == d0.next_sibling(first));
        let k = crate::dom::pos_in(d0.children(p), first) + 1;
        if 0 <= k < d0.children(p).len() {
            lemma_child(d0, p, k);
        }
        lemma_fresh_not_anc(d0, d1.kind(g), p, d1.dep(p));
        assert forall|z: NodeId| #[trigger] d0.anc_f(z, p, d0.dep(p)) implies d0.parent(z) == d1.parent(z) by {
            lemma_chain_valid(d0, z, p, d0.dep(p));
        }
        assert(d1.dep(p) == d0.dep(p));
        assert forall|y: NodeId| #[trigger] d1.anc_or_self(y, p) == d0.anc_or_self(y, p) by {
            lemma_chain_kept(d0, d1, y, p, d0.dep(p));
        }
    }
    doc.insert_after(g, first);
    proof {
        let d2 = doc@;
        // d2 moves the parentless `g` under `p`
        let i = if d1.next_sibling(first) is None {
            d1.detached(g).children(p).len() as int
        } else {
            crate::dom::pos_in(d1.detached(g).children(p), d1.next_sibling(first).unwrap())
        };
        if let Some(nx) = d1.next_sibling(first) {
            assert(nx != g);
            lemma_node_ok(d1, nx);
            assert(d1.detached(g) == d1);
            assert(d1.parent(nx) == Some(p));
        }
        lemma_move_keeps_anc(d1, g, p, i, p);
        assert(d2 == d1.detached(g).attached_at(p, i, g));
        assert(d2.parent(g) == Some(p));
        assert forall|y: NodeId| #[trigger] d2.anc_or_self(y, g) == (y == g || d0.anc_or_self(y, p)) by {
            lemma_anc_unfold(d2, y, g);
        }
    }
    let n = els.len();
    let mut k: usize = 0;
    while k < n
        invariant
            doc.wf(),
            n == els@.len(),
            k <= n,
            groupable(d0, els@),
            p == d0.parent(els@[0]).unwrap(),
            g as int == d0.nodes.len(),
            doc@.nodes.len() == d0.nodes.len() + 1,
            doc@ == appended_all(grouped_base(d0, els@), g, els@.subrange(0, k as int)),
            forall|y: NodeId| #[trigger] doc@.anc_or_self(y, g) == (y == g || d0.anc_or_self(y, p)),
        decreases n - k,
    {
        let e = els[k];
        proof {
            assert(d0.valid(els@[k as int]) && els@[k as int] != 0);
            assert(!d0.anc_or_self(e, p));
            assert(doc@.anc_or_self(e, g) == (e == g || d0.anc_or_self(e, p)));
            assert(els@.subrange(0, k + 1).drop_last() =~= els@.subrange(0, k as int));
            let dd = doc@;
            lemma_move_keeps_anc(dd, e, g, dd.detached(e).children(g).len() as int, g);
        }
        doc.append_child(g, e);
        k = k + 1;
    }
    proof {
        assert(els@.subrange(0, n as int) =~= els@);
    }
    g
}

/// The document right after the new `<g>` is placed (before anything is moved into it).
pub open spec fn grouped_base(d: DocV, els: Seq<NodeId>) -> DocV {
    let g = d.nodes.len() as NodeId;
    let d1 = d.allocated(KindV::Element { name: "g"@, attrs: seq![], self_closing: true, close_ws: seq![] });
    match d.next_sibling(els[0]) {
        None => d1.appended(d.parent(els[0]).unwrap(), g),
        Some(nx) => d1.inserted_before(g, nx),
    }
}

/// The nodes on a valid node's parent chain are valid.
pub proof fn lemma_chain_valid(d: DocV, z: NodeId, x: NodeId, f: nat)
    requires
        d.wf(),
        d.valid(x),
        d.anc_f(z, x, f),
    ensures
        d.valid(z),
    decreases f,
{
    if z != x {
        lemma_node_ok(d, x);
        lemma_chain_valid(d, z, d.parent(x).unwrap(), (f - 1) as nat);
    }
}

// ---------------------------------------------------------------------------------------------
// Languages

/// Index of the first `-` or `_` in `s`, or its length.
pub open spec fn subtag_end(s: Seq<char>, i: int) -> int
    decreases s.len() - i,
{
    if i < 0 || i >= s.len() {
        s.len() as int
    } else if s[i] == '-' || s[i] == '_' {
        i
    } else {
        subtag_end(s, i + 1)
    }
}

/// The primary subtag of a language tag (`en` of `en-US`), trimmed and lower-cased.
pub open spec fn primary_subtag(s: Seq<char>) -> Seq<char> {
    let t = trimmed(s);
    ascii_lower(t.subrange(0, subtag_end(t, 0)))
}

/// One comma-separated token of `systemLanguage` accepts the wanted (lower-cased) language.
pub open spec fn token_matches(tok: Seq<char>, want: Seq<char>) -> bool {
    let t = trimmed(tok);
    t.len() > 0 && (ascii_lower(t) == want || primary_subtag(t) == primary_subtag(want))
}

/// `systemLanguage` matching: a comma-separated token equal to `lang` (ASCII case aside) or
/// sharing its primary subtag (`en-US` ~ `en`) matches; an empty `lang` matches nothing.
pub open spec fn lang_matches_spec(attr: Seq<char>, lang: Seq<char>) -> bool {
    let want = ascii_lower(trimmed(lang));
    want.len() > 0 && exists|i: int| 0 <= i < split_pat(attr, ","@).len() && #[trigger] token_matches(split_pat(attr, ","@)[i], want)
}

fn primary(s: &str) -> (r: String)
    ensures
        r@ == primary_subtag(s@),
{
    let t = trim(s);
    let cs = chars_of(t.as_str());
    let mut i: usize = 0;
    while i < cs.len() && cs[i] != '-' && cs[i] != '_'
        invariant
            i <= cs@.len(),
            subtag_end(cs@, i as int) == subtag_end(cs@, 0),
        decreases cs@.len() - i,
    {
        i = i + 1;
    }
    let head = string_from(slice_range(cs.as_slice(), 0, i));
    to_ascii_lowercase(head.as_str())
}

pub fn lang_matches(attr: &str, lang: &str) -> (r: bool)
    ensures
        r == lang_matches_spec(attr@, lang@),
{
    let w = trim(lang);
    let want = to_ascii_lowercase(w.as_str());
    if want.as_str().is_empty() {
        return false;
    }
    let pw = primary(want.as_str());
    proof {
        reveal_strlit(",");
    }
    let toks = split_on(attr, ",");
    let ghost ts = split_pat(attr@, ","@);
    let mut i: usize = 0;
    while i < toks.len()
        invariant
            crate::style::strings_view(toks@) == ts,
            ts == split_pat(attr@, ","@),
            want@ == ascii_lower(trimmed(lang@)),
            pw@ == primary_subtag(want@),
            want@.len() > 0,
            i <= toks@.len(),
            forall|j: int| 0 <= j < i ==> !#[trigger] token_matches(ts[j], want@),
        decreases toks@.len() - i,
    {
        proof {
            assert(ts[i as int] == toks@[i as int]@);
        }
        let t = trim(toks[i].as_str());
        if !t.as_str().is_empty() {
            let lt = to_ascii_lowercase(t.as_str());
            if str_eq(lt.as_str(), want.as_str()) {
                proof {
                    assert(token_matches(ts[i as int], want@));
                }
                return true;
            }
            let pt = primary(t.as_str());
            if str_eq(pt.as_str(), pw.as_str()) {
                proof {
                    assert(token_matches(ts[i as int], want@));
                }
                return true;
            }
        }
        i = i + 1;
    }
    false
}

/// The text before the first `c` in `s` (all of `s` when there is none).
pub open spec fn before_char(s: Seq<char>, c: char) -> Seq<char> {
    split_pat(s, seq![c])[0]
}

/// What the tag text `tag` of `preferences.xml` says of the UI language, when it is the
/// `<group id="ui">` tag: `Some(None)` when it has no `language` or an empty one.
pub open spec fn ui_group_language(tag: Seq<char>) -> Option<Option<Seq<char>>> {
    let ts = trimmed_start(tag);
    if !(ts.len() >= 5 && ts.subrange(0, 5) == "group"@) || !contains_pat(tag, "id=\"ui\""@) {
        None
    } else {
        let parts = split_pat(tag, "language=\""@);
        if parts.len() < 2 {
            Some(None)
        } else {
            let lang = trimmed(before_char(parts[1], '"'));
            if lang.len() == 0 {
                Some(None)
            } else {
                Some(Some(lang))
            }
        }
    }
}

/// The language of the first `<group ... id="ui">` tag among the tags from the `i`-th on.
pub open spec fn ui_language_from(tags: Seq<Seq<char>>, i: int) -> Option<Seq<char>>
    decreases tags.len() - i,
{
    if i < 0 || i >= tags.len() {
        None
    } else {
        match ui_group_language(before_char(tags[i], '>')) {
            Some(l) => l,
            None => ui_language_from(tags, i + 1),
        }
    }
}

/// The `language` of `<group id="ui">` in Inkscape's `preferences.xml`, if set.
pub open spec fn preferences_language_spec(xml: Seq<char>) -> Option<Seq<char>> {
    ui_language_from(split_pat(xml, "<"@), 1)
}

pub proof fn lemma_split_nonempty(s: Seq<char>, pat: Seq<char>)
    ensures
        split_pat(s, pat).len() >= 1,
{
    lemma_split_from_nonempty(s, 0, 0, pat);
}

proof fn lemma_split_from_nonempty(s: Seq<char>, i: int, start: int, pat: Seq<char>)
    ensures
        crate::cleanup::split_pat_from(s, i, start, pat).len() >= 1,
    decreases s.len() - i,
{
    if i < 0 || i >= s.len() || pat.len() == 0 {
    } else if crate::cleanup::at_pat(s, i, pat) {
        lemma_split_from_nonempty(s, i + pat.len(), i + pat.len(), pat);
    } else {
        lemma_split_from_nonempty(s, i + 1, start, pat);
    }
}

fn first_piece(s: &str, pat: &str) -> (r: String)
    requires
        pat@.len() > 0,
    ensures
        r@ == split_pat(s@, pat@)[0],
{
    let parts = split_on(s, pat);
    proof {
        lemma_split_nonempty(s@, pat@);
        assert(crate::style::strings_view(parts@)[0] == parts@[0]@);
    }
    parts[0].clone()
}

fn group_language(tag: &str) -> (r: Option<Option<String>>)
    ensures
        match r {
            None => ui_group_language(tag@) is None,
            Some(None) => ui_group_language(tag@) == Some(None::<Seq<char>>),
            Some(Some(l)) => ui_group_language(tag@) == Some(Some(l@)),
        },
{
    let cs = chars_of(tag);
    let a = skip_ws_exec(&cs, 0);
    proof {
        crate::xml::lemma_skip_ws(cs@, 0);
        reveal_strlit("group");
    }
    let ts = string_from(slice_range(cs.as_slice(), a, cs.len()));
    let tcs = chars_of(ts.as_str());
    let starts = tcs.len() >= 5 && tcs[0] == 'g' && tcs[1] == 'r' && tcs[2] == 'o' && tcs[3] == 'u' && tcs[4] == 'p';
    proof {
        assert(tcs@ == trimmed_start(tag@));
        assert("group"@ =~= seq!['g', 'r', 'o', 'u', 'p']);
        if tcs@.len() >= 5 {
            if starts {
                assert(tcs@.subrange(0, 5) =~= "group"@);
            } else {
                assert(tcs@.subrange(0, 5)[0] == tcs@[0]);
                assert(tcs@.subrange(0, 5)[1] == tcs@[1]);
                assert(tcs@.subrange(0, 5)[2] == tcs@[2]);
                assert(tcs@.subrange(0, 5)[3] == tcs@[3]);
                assert(tcs@.subrange(0, 5)[4] == tcs@[4]);
                assert(tcs@.subrange(0, 5) != "group"@);
            }
        }
    }
    if !starts || !contains_pat_exec(tag, "id=\"ui\"") {
        return None;
    }
    proof {
        reveal_strlit("language=\"");
    }
    let parts = split_on(tag, "language=\"");
    if parts.len() < 2 {
        return Some(None);
    }
    proof {
        assert(crate::style::strings_view(parts@)[1] == parts@[1]@);
        reveal_strlit("\"");
        assert("\""@ =~= seq!['"']);
    }
    let head = first_piece(parts[1].as_str(), "\"");
    let lang = trim(head.as_str());
    if lang.as_str().is_empty() {
        Some(None)
    } else {
        Some(Some(lang))
    }
}

pub fn preferences_language(xml: &str) -> (r: Option<String>)
    ensures
        crate::cli::opt_view(r) == preferences_language_spec(xml@),
{
    proof {
        reveal_strlit("<");
        reveal_strlit(">");
        assert(">"@ =~= seq!['>']);
    }
    let tags = split_on(xml, "<");
    let ghost ts = split_pat(xml@, "<"@);
    let mut i: usize = 1;
    while i < tags.len()
        invariant
            crate::style::strings_view(tags@) == ts,
            ts == split_pat(xml@, "<"@),
            1 <= i,
            ui_language_from(ts, i as int) == preferences_language_spec(xml@),
        decreases tags@.len() - i,
    {
        proof {
            assert(ts[i as int] == tags@[i as int]@);
            reveal_strlit(">");
            assert(">"@ =~= seq!['>']);
        }
        let tag = first_piece(tags[i].as_str(), ">");
        match group_language(tag.as_str()) {
            Some(l) => {
                return l;
            },
            None => {},
        }
        i = i + 1;
    }
    None
}

/// A locale separator ending the primary subtag (`_`, `.`, `-`, `@`).
pub open spec fn is_locale_sep(c: char) -> bool {
    c == '_' || c == '.' || c == '-' || c == '@'
}

pub open spec fn primary_end(v: Seq<char>, i: int) -> int
    decreases v.len() - i,
{
    if i < 0 || i >= v.len() {
        v.len() as int
    } else if is_locale_sep(v[i]) {
        i
    } else {
        primary_end(v, i + 1)
    }
}

/// The language a locale variable names: its primary subtag, trimmed, unless empty, `C` or
/// `POSIX`.
pub open spec fn locale_language(v: Seq<char>) -> Option<Seq<char>> {
    let p = trimmed(v.subrange(0, primary_end(v, 0)));
    if p.len() == 0 || p == "C"@ || p == "POSIX"@ {
        None
    } else {
        Some(p)
    }
}

/// The language of the first locale variable from `i` on that names one, else `en`.
pub open spec fn locale_from(vars: Seq<Option<Seq<char>>>, i: int) -> Seq<char>
    decreases vars.len() - i,
{
    if i < 0 || i >= vars.len() {
        "en"@
    } else {
        match vars[i] {
            Some(v) => match locale_language(v) {
                Some(l) => l,
                None => locale_from(vars, i + 1),
            },
            None => locale_from(vars, i + 1),
        }
    }
}

/// Inkscape's UI language: the one `preferences.xml` sets, else the first locale variable's
/// (`LC_ALL`, `LC_MESSAGES`, `LANG`, as given), else `en`.
pub open spec fn ui_language_spec(prefs: Option<Seq<char>>, vars: Seq<Option<Seq<char>>>) -> Seq<char> {
    match prefs {
        Some(x) => match preferences_language_spec(x) {
            Some(l) => l,
            None => locale_from(vars, 0),
        },
        None => locale_from(vars, 0),
    }
}

fn locale_language_exec(v: &str) -> (r: Option<String>)
    ensures
        crate::cli::opt_view(r) == locale_language(v@),
{
    let cs = chars_of(v);
    let mut e: usize = 0;
    while e < cs.len() && !(cs[e] == '_' || cs[e] == '.' || cs[e] == '-' || cs[e] == '@')
        invariant
            cs@ == v@,
            e <= cs@.len(),
            primary_end(cs@, e as int) == primary_end(cs@, 0),
        decreases cs@.len() - e,
    {
        e = e + 1;
    }
    let head = string_from(slice_range(cs.as_slice(), 0, e));
    let p = trim(head.as_str());
    proof {
        reveal_strlit("C");
        reveal_strlit("POSIX");
    }
    if p.as_str().is_empty() || str_eq(p.as_str(), "C") || str_eq(p.as_str(), "POSIX") {
        None
    } else {
        Some(p)
    }
}

/// Inkscape's UI language from the text of `preferences.xml` (when it could be read) and the
/// locale variables `LC_ALL`, `LC_MESSAGES`, `LANG` in that order (`None` where unset).
pub fn ui_language_of(prefs: Option<&str>, locale_vars: &[Option<String>]) -> (r: String)
    ensures
        r@ == ui_language_spec(
            match prefs {
                Some(x) => Some(x@),
                None => None,
            },
            locale_vars@.map_values(|o: Option<String>| crate::cli::opt_view(o)),
        ),
{
    let ghost vs = locale_vars@.map_values(|o: Option<String>| crate::cli::opt_view(o));
    let ghost pv = match prefs {
        Some(x) => Some(x@),
        None => None,
    };
    if let Some(x) = prefs {
        if let Some(l) = preferences_language(x) {
            return l;
        }
    }
    let mut i: usize = 0;
    while i < locale_vars.len()
        invariant
            i <= locale_vars@.len(),
            vs == locale_vars@.map_values(|o: Option<String>| crate::cli::opt_view(o)),
            locale_from(vs, i as int) == locale_from(vs, 0),
            ui_language_spec(pv, vs) == locale_from(vs, 0),
            pv == match prefs {
                Some(x) => Some(x@),
                None => None,
            },
        decreases locale_vars@.len() - i,
    {
        proof {
            assert(vs[i as int] == crate::cli::opt_view(locale_vars@[i as int]));
        }
        match &locale_vars[i] {
            Some(v) => {
                proof {
                    assert(vs[i as int] == Some(v@));
                }
                match locale_language_exec(v.as_str()) {
                    Some(l) => {
                        proof {
                            assert(locale_from(vs, i as int) == l@);
                        }
                        return l;
                    },
                    None => {},
                }
            },
            None => {},
        }
        i = i + 1;
    }
    proof {
        reveal_strlit("en");
    }
    String::from_str("en")
}

// ---------------------------------------------------------------------------------------------
// <switch>

pub open spec fn is_elem(d: DocV) -> spec_fn(NodeId) -> bool {
    |n: NodeId| d.is_element(n)
}

/// The element children of `n`, in order.
pub open spec fn element_kids(d: DocV, n: NodeId) -> Seq<NodeId> {
    kept_where(d.children(n), is_elem(d))
}

pub fn element_children(doc: &Doc, n: NodeId) -> (r: Vec<NodeId>)
    requires
        doc.wf(),
        doc@.valid(n),
    ensures
        r@ == element_kids(doc@, n),
        all_valid(doc@, r@),
{
    let cs = doc.children(n);
    proof {
        assert forall|k: int| 0 <= k < cs@.len() implies doc@.valid(#[trigger] cs@[k]) by {
            lemma_child(doc@, n, k);
        }
    }
    let mut out: Vec<NodeId> = Vec::new();
    let mut i: usize = 0;
    while i < cs.len()
        invariant
            doc.wf(),
            cs@ == doc@.children(n),
            forall|k: int| 0 <= k < cs@.len() ==> doc@.valid(#[trigger] cs@[k]),
            i <= cs@.len(),
            out@ == kept_where(cs@.subrange(0, i as int), is_elem(doc@)),
            all_valid(doc@, out@),
        decreases cs@.len() - i,
    {
        proof {
            assert(cs@.subrange(0, i + 1).drop_last() =~= cs@.subrange(0, i as int));
        }
        if doc.is_element(cs[i]) {
            out.push(cs[i]);
        }
        i = i + 1;
    }
    proof {
        assert(cs@.subrange(0, cs@.len() as int) =~= cs@);
    }
    out
}

/// A child without `systemLanguage`, or whose `systemLanguage` matches `lang`.
pub open spec fn lang_ok(d: DocV, k: NodeId, lang: Seq<char>) -> bool {
    match d.attr(k, "systemLanguage"@) {
        None => true,
        Some(v) => lang_matches_spec(v, lang),
    }
}

/// Walking `kids` from position `k - 1` down to the first: a child whose language does not
/// match is detached while more than one child remains.
pub open spec fn unmatched_pruned(d: DocV, kids: Seq<NodeId>, k: int, remaining: int, lang: Seq<char>) -> DocV
    decreases k,
{
    if k <= 0 || k > kids.len() {
        d
    } else {
        let c = kids[k - 1];
        if !lang_ok(d, c, lang) && remaining > 1 {
            unmatched_pruned(d.detached(c), kids, k - 1, remaining - 1, lang)
        } else {
            unmatched_pruned(d, kids, k - 1, remaining, lang)
        }
    }
}

/// What `deswitch_children` leaves: the non-matching children pruned (never the last one), then
/// every element child but the first detached, and the first one's `systemLanguage` removed.
pub open spec fn switch_resolved(d: DocV, sw: NodeId, lang: Seq<char>) -> DocV {
    let kids = element_kids(d, sw);
    let d1 = unmatched_pruned(d, kids, kids.len() as int, kids.len() as int, lang);
    let kids2 = element_kids(d1, sw);
    if kids2.len() > 0 {
        all_detached(d1, kids2.drop_first()).attr_removed(kids2[0], "systemLanguage"@)
    } else {
        d1
    }
}

/// A `<switch>`: keep the children whose `systemLanguage` matches `lang` (children without one
/// always match), never removing the last one; then keep only the first, without its
/// `systemLanguage`. (Ungrouping the switch itself moves geometry and is not done here.)
pub fn deswitch_children(doc: &mut Doc, sw: NodeId, lang: &str)
    requires
        old(doc).wf(),
        old(doc)@.valid(sw),
    ensures
        final(doc).wf(),
        final(doc)@ == switch_resolved(old(doc)@, sw, lang@),
{
    let ghost d0 = doc@;
    let kids = element_children(doc, sw);
    let ghost ks = kids@;
    let mut remaining: usize = kids.len();
    let mut k: usize = kids.len();
    proof {
        reveal_strlit("systemLanguage");
    }
    while k > 0
        invariant
            doc.wf(),
            doc@.nodes.len() == d0.nodes.len(),
            kids@ == ks,
            ks == element_kids(d0, sw),
            all_valid(d0, ks),
            k <= ks.len(),
            1 <= remaining || ks.len() == 0,
            unmatched_pruned(doc@, ks, k as int, remaining as int, lang@) == unmatched_pruned(d0, ks, ks.len() as int, ks.len() as int, lang@),
        decreases k,
    {
        let c = kids[k - 1];
        proof {
            assert(d0.valid(ks[k - 1]));
        }
        let matches = match doc.attr(c, "systemLanguage") {
            None => true,
            Some(v) => lang_matches(v, lang),
        };
        if !matches && remaining > 1 {
            proof {
                crate::dom::lemma_detached_wf(doc@, c);
            }
            doc.detach(c);
            remaining = remaining - 1;
        }
        k = k - 1;
    }
    proof {
        assert(doc@.valid(sw));
    }
    let ghost d1 = doc@;
    let kids2 = element_children(doc, sw);
    let mut j: usize = 1;
    proof {
        if kids2@.len() > 0 {
            assert(kids2@.drop_first().subrange(0, 0) =~= Seq::<NodeId>::empty());
        }
    }
    while j < kids2.len()
        invariant
            doc.wf(),
            d1.wf(),
            kids2@ == element_kids(d1, sw),
            all_valid(d1, kids2@),
            1 <= j,
            kids2@.len() > 0 ==> j <= kids2@.len(),
            doc@.nodes.len() == d1.nodes.len(),
            kids2@.len() > 0 ==> doc@ == all_detached(d1, kids2@.drop_first().subrange(0, j - 1)),
            kids2@.len() == 0 ==> doc@ == d1,
        decreases kids2@.len() - j,
    {
        proof {
            let r = kids2@.drop_first();
            assert(r.subrange(0, j as int).drop_last() =~= r.subrange(0, j - 1));
            assert(r.subrange(0, j as int).last() == kids2@[j as int]);
            assert(d1.valid(kids2@[j as int]));
        }
        doc.detach(kids2[j]);
        j = j + 1;
    }
    proof {
        if kids2@.len() > 0 {
            assert(kids2@.drop_first().subrange(0, kids2@.len() - 1) =~= kids2@.drop_first());
        }
        assert(d1 == unmatched_pruned(d0, ks, ks.len() as int, ks.len() as int, lang@));
    }
    if kids2.len() > 0 {
        proof {
            assert(d1.valid(kids2@[0]));
        }
        doc.remove_attr(kids2[0], "systemLanguage");
    }
}

} // verus!

