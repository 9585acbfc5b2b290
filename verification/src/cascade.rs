//! The style cascade on a document: the document stylesheet, selector matching, and each
//! element's cascaded and specified style.
use vstd::prelude::*;
use crate::dom::{Doc, DocV, NodeId, text_concat, lemma_node_ok, lemma_subtree_valid, attrs_view, Attr};
use crate::strs::{str_eq, chars_of, string_from, slice_range, push_char};
use crate::xml::{trimmed, trim};
use crate::style::{
    Style, Decls, split_declarations, split_decls, strings_view, decl_parts, important_split,
    strip_important, decl_applied, style_get, style_set, style_merge, style_remove, css_of,
    is_presentation_attr, presentation_attr, default_of, default_value, style_parsed, split_decl,
};
use crate::sheet::{
    Stylesheet, SheetV, RuleV, CompoundV, PartsV, Combinator, Compound, Selector, parse_stylesheet,
    parsed_sheet, is_ascii_ws, contains_string,
};

verus! {

// ---------------------------------------------------------------------------------------------
// Class lists

/// The ASCII-whitespace-separated words of `s` from `i` on; `cur` is the word being read.
pub open spec fn words_from(s: Seq<char>, i: int, cur: Seq<char>) -> Seq<Seq<char>>
    decreases s.len() - i,
{
    if i < 0 || i >= s.len() {
        if cur.len() > 0 {
            seq![cur]
        } else {
            seq![]
        }
    } else if is_ascii_ws(s[i]) {
        if cur.len() > 0 {
            seq![cur] + words_from(s, i + 1, seq![])
        } else {
            words_from(s, i + 1, seq![])
        }
    } else {
        words_from(s, i + 1, cur.push(s[i]))
    }
}

/// `str::split_ascii_whitespace`.
pub open spec fn ascii_words(s: Seq<char>) -> Seq<Seq<char>> {
    words_from(s, 0, seq![])
}

/// Whether `w` is one of the words of `s`.
pub fn has_word(s: &str, w: &str) -> (r: bool)
    ensures
        r == ascii_words(s@).contains(w@),
{
    let cs = chars_of(s);
    let mut words: Vec<String> = Vec::new();
    let mut cur = String::new();
    let mut i: usize = 0;
    while i < cs.len()
        invariant
            cs@ == s@,
            i <= cs@.len(),
            strings_view(words@) + words_from(cs@, i as int, cur@) == ascii_words(s@),
        decreases cs@.len() - i,
    {
        let c = cs[i];
        if c == ' ' || c == '\t' || c == '\n' || c == '\x0C' || c == '\r' {
            if !cur.as_str().is_empty() {
                let ghost o = strings_view(words@);
                let ghost c0 = cur@;
                words.push(cur);
                cur = String::new();
                proof {
                    assert(strings_view(words@) =~= o.push(c0));
                    assert(o + (seq![c0] + words_from(cs@, i + 1, seq![])) =~= o.push(c0) + words_from(cs@, i + 1, seq![]));
                }
            } else {
                proof {
                    assert(cur@ =~= Seq::<char>::empty());
                }
            }
        } else {
            push_char(&mut cur, c);
        }
        i = i + 1;
    }
    if !cur.as_str().is_empty() {
        let ghost o = strings_view(words@);
        let ghost c0 = cur@;
        words.push(cur);
        proof {
            assert(strings_view(words@) =~= o.push(c0));
            assert(o + seq![c0] =~= o.push(c0));
        }
    } else {
        proof {
            assert(strings_view(words@) + Seq::<Seq<char>>::empty() =~= strings_view(words@));
        }
    }
    contains_string(&words, w)
}

// ---------------------------------------------------------------------------------------------
// Matching

/// Whether the compound matches element `n`: tag, id and every class.
pub open spec fn compound_matches(d: DocV, c: CompoundV, n: NodeId) -> bool {
    &&& (c.tag matches Some(t) ==> d.tag(n) == t)
    &&& (c.id matches Some(i) ==> d.attr(n, "id"@) == Some(i))
    &&& (c.classes.len() > 0 ==> {
        let cls = match d.attr(n, "class"@) {
            Some(v) => v,
            None => seq![],
        };
        forall|k: int| 0 <= k < c.classes.len() ==> ascii_words(cls).contains(#[trigger] c.classes[k])
    })
}

/// Compounds `0..=idx` of `p` match `n` and its ancestors through the combinators.
pub open spec fn sel_match(d: DocV, p: PartsV, n: NodeId, idx: int) -> bool
    decreases idx, 0nat, 0nat,
{
    if idx < 0 || idx >= p.len() {
        false
    } else if !compound_matches(d, p[idx].0, n) {
        false
    } else if idx == 0 {
        true
    } else {
        match p[idx].1 {
            Some(Combinator::Descendant) => anc_match(d, p, d.parent(n), idx - 1, d.dep(n)),
            _ => match d.parent(n) {
                Some(q) => d.is_element(q) && sel_match(d, p, q, idx - 1),
                None => false,
            },
        }
    }
}

/// Some element among `a` and its ancestors matches compounds `0..=idx`.
pub open spec fn anc_match(d: DocV, p: PartsV, a: Option<NodeId>, idx: int, fuel: nat) -> bool
    decreases idx, 1nat, fuel,
{
    match a {
        None => false,
        Some(q) => (d.is_element(q) && sel_match(d, p, q, idx)) || (fuel > 0 && anc_match(
            d,
            p,
            d.parent(q),
            idx,
            (fuel - 1) as nat,
        )),
    }
}

pub open spec fn selector_matches(d: DocV, p: PartsV, n: NodeId) -> bool {
    sel_match(d, p, n, p.len() - 1)
}

impl Doc {
    fn compound_match(&self, c: &Compound, n: NodeId) -> (r: bool)
        requires
            self@.valid(n),
        ensures
            r == compound_matches(self@, c@, n),
    {
        proof {
            reveal_strlit("id");
            reveal_strlit("class");
        }
        match &c.tag {
            Some(t) => {
                if !str_eq(self.tag(n), t.as_str()) {
                    return false;
                }
            },
            None => {},
        }
        match &c.id {
            Some(i) => {
                match self.attr(n, "id") {
                    Some(v) => {
                        if !str_eq(v, i.as_str()) {
                            return false;
                        }
                    },
                    None => {
                        return false;
                    },
                }
            },
            None => {},
        }
        if c.classes.len() > 0 {
            let cls: &str = match self.attr(n, "class") {
                Some(v) => v,
                None => "",
            };
            proof {
                reveal_strlit("");
                assert(cls@ == match self@.attr(n, "class"@) {
                    Some(v) => v,
                    None => seq![],
                });
            }
            let mut k: usize = 0;
            while k < c.classes.len()
                invariant
                    k <= c.classes@.len(),
                    c@.classes.len() == c.classes@.len(),
                    cls@ == match self@.attr(n, "class"@) {
                        Some(v) => v,
                        None => seq![],
                    },
                    forall|j: int| 0 <= j < k ==> ascii_words(cls@).contains(#[trigger] c@.classes[j]),
                decreases c.classes@.len() - k,
            {
                proof {
                    assert(c@.classes[k as int] == c.classes@[k as int]@);
                }
                if !has_word(cls, c.classes[k].as_str()) {
                    return false;
                }
                k = k + 1;
            }
            proof {
                assert(cls@ == match self@.attr(n, "class"@) {
                    Some(v) => v,
                    None => seq![],
                });
            }
        }
        true
    }

    /// Compounds `0..=idx` of the selector match `n` through the combinators.
    fn match_from(&self, sel: &Selector, n: NodeId, idx: usize) -> (r: bool)
        requires
            self.wf(),
            self@.valid(n),
            idx < sel.parts@.len(),
        ensures
            r == sel_match(self@, sel@.parts, n, idx as int),
        decreases idx,
    {
        proof {
            assert(sel@.parts[idx as int] == (sel.parts@[idx as int].0@, sel.parts@[idx as int].1));
        }
        if !self.compound_match(&sel.parts[idx].0, n) {
            return false;
        }
        if idx == 0 {
            return true;
        }
        proof {
            lemma_node_ok(self@, n);
        }
        match sel.parts[idx].1 {
            Some(Combinator::Descendant) => {
                let mut a = self.parent(n);
                let ghost mut fuel: nat = self@.dep(n);
                proof {
                    assert(sel_match(self@, sel@.parts, n, idx as int) == anc_match(self@, sel@.parts, self@.parent(n), idx - 1, self@.dep(n)));
                }
                loop
                    invariant
                        self.wf(),
                        idx >= 1,
                        idx < sel.parts@.len(),
                        sel_match(self@, sel@.parts, n, idx as int) == anc_match(self@, sel@.parts, self@.parent(n), idx - 1, self@.dep(n)),
                        a matches Some(q) ==> self@.valid(q) && self@.dep(q) <= fuel,
                        anc_match(self@, sel@.parts, self@.parent(n), idx - 1, self@.dep(n)) == anc_match(
                            self@,
                            sel@.parts,
                            a,
                            idx - 1,
                            fuel,
                        ),
                    decreases fuel + if a is Some { 1nat } else { 0nat },
                {
                    match a {
                        None => {
                            return false;
                        },
                        Some(q) => {
                            if self.is_element(q) && self.match_from(sel, q, idx - 1) {
                                return true;
                            }
                            proof {
                                lemma_node_ok(self@, q);
                            }
                            a = self.parent(q);
                            proof {
                                if fuel > 0 {
                                    fuel = (fuel - 1) as nat;
                                }
                            }
                        },
                    }
                }
            },
            _ => {
                match self.parent(n) {
                    Some(q) => self.is_element(q) && self.match_from(sel, q, idx - 1),
                    None => false,
                }
            },
        }
    }

    /// Whether the selector matches `n`.
    fn sel_matches(&self, sel: &Selector, n: NodeId) -> (r: bool)
        requires
            self.wf(),
            self@.valid(n),
            sel.parts@.len() > 0,
        ensures
            r == selector_matches(self@, sel@.parts, n),
    {
        self.match_from(sel, n, sel.parts.len() - 1)
    }
}


// ---------------------------------------------------------------------------------------------
// The document stylesheet

/// The text of every `<style>` element among `ns`, each followed by a newline.
pub open spec fn style_text(d: DocV, ns: Seq<NodeId>) -> Seq<char>
    decreases ns.len(),
{
    if ns.len() == 0 {
        seq![]
    } else {
        style_text(d, ns.drop_last()) + if d.is_element(ns.last()) && d.tag(ns.last()) == "style"@ {
            text_concat(d, d.subtree(ns.last())) + "\n"@
        } else {
            seq![]
        }
    }
}

/// The document stylesheet: every `<style>` element under the root `<svg>`, in document order.
pub open spec fn doc_sheet(d: DocV) -> SheetV {
    parsed_sheet(style_text(d, d.subtree(d.svg)))
}

impl Doc {
    /// The document stylesheet: every `<style>` element's text concatenated in document order
    /// (any depth), each followed by a newline.
    pub fn stylesheet(&self) -> (r: Stylesheet)
        requires
            self.wf(),
        ensures
            r@ == doc_sheet(self@),
    {
        let ds = self.descendants(self.svg());
        proof {
            lemma_subtree_valid(self@, self@.svg);
            reveal_strlit("style");
            reveal_strlit("\n");
        }
        let mut css = String::new();
        let mut i: usize = 0;
        while i < ds.len()
            invariant
                self.wf(),
                ds@ == self@.subtree(self@.svg),
                forall|j: int| 0 <= j < ds@.len() ==> self@.valid(#[trigger] ds@[j]),
                i <= ds@.len(),
                css@ == style_text(self@, ds@.subrange(0, i as int)),
            decreases ds@.len() - i,
        {
            proof {
                assert(ds@.subrange(0, i + 1).drop_last() =~= ds@.subrange(0, i as int));
            }
            let n = ds[i];
            if self.is_element(n) && str_eq(self.tag(n), "style") {
                let t = self.text_content(n);
                css.append(t.as_str());
                css.append("\n");
            }
            i = i + 1;
        }
        proof {
            assert(ds@.subrange(0, ds@.len() as int) =~= ds@);
        }
        parse_stylesheet(css.as_str())
    }
}

// ---------------------------------------------------------------------------------------------
// Cascaded style

/// Cascade order of a declaration: `(important, inline, specificity, order)`, compared
/// lexicographically; the highest wins.
pub type CascadeKey = (bool, bool, (u128, u128, u128), u128);

/// One declaration taking part in the cascade.
pub type Entry = (CascadeKey, Seq<char>, Seq<char>);

pub open spec fn bool_lt(a: bool, b: bool) -> bool {
    !a && b
}

pub open spec fn triple_le(a: (u128, u128, u128), b: (u128, u128, u128)) -> bool {
    a.0 < b.0 || (a.0 == b.0 && (a.1 < b.1 || (a.1 == b.1 && a.2 <= b.2)))
}

pub open spec fn key_le(a: CascadeKey, b: CascadeKey) -> bool {
    bool_lt(a.0, b.0) || (a.0 == b.0 && (bool_lt(a.1, b.1) || (a.1 == b.1 && (
    (triple_le(a.2, b.2) && a.2 != b.2) || (a.2 == b.2 && a.3 <= b.3)))))
}

/// `x` placed after every entry of the (sorted) `s` whose key is not greater.
pub open spec fn insert_sorted(s: Seq<Entry>, x: Entry) -> Seq<Entry>
    decreases s.len(),
{
    if s.len() == 0 {
        seq![x]
    } else if key_le(s.last().0, x.0) {
        s.push(x)
    } else {
        insert_sorted(s.drop_last(), x).push(s.last())
    }
}

/// The entries stably sorted by key.
pub open spec fn stable_sorted(es: Seq<Entry>) -> Seq<Entry>
    decreases es.len(),
{
    if es.len() == 0 {
        seq![]
    } else {
        insert_sorted(stable_sorted(es.drop_last()), es.last())
    }
}

/// The entries applied in order.
pub open spec fn entries_applied(st: Decls, es: Seq<Entry>) -> Decls
    decreases es.len(),
{
    if es.len() == 0 {
        st
    } else {
        decl_applied(entries_applied(st, es.drop_last()), es.last().1, es.last().2)
    }
}

pub open spec fn zero_key(important: bool, order: u128) -> CascadeKey {
    (important, false, (0u128, 0u128, 0u128), order)
}

/// Presentation attributes, lowest in the cascade.
pub open spec fn pres_entries(attrs: Seq<crate::dom::AttrV>) -> Seq<Entry>
    decreases attrs.len(),
{
    if attrs.len() == 0 {
        seq![]
    } else {
        let r = pres_entries(attrs.drop_last());
        if is_presentation_attr(attrs.last().name) {
            r.push((zero_key(false, 0), attrs.last().name, attrs.last().value))
        } else {
            r
        }
    }
}

/// A style's declarations under one key.
pub open spec fn style_entries(st: Decls, key: CascadeKey) -> Seq<Entry> {
    st.map_values(|p: (Seq<char>, Seq<char>)| (key, p.0, p.1))
}

/// The declarations of one rule under its key.
pub open spec fn decl_entries(r: RuleV) -> Seq<Entry> {
    r.decls.map_values(|t: (Seq<char>, Seq<char>, bool)| ((t.2, false, r.selector.specificity, (r.order + 1) as u128), t.0, t.1))
}

/// The declarations of the matching rules (lone `*` rules left to the folded block).
pub open spec fn rule_entries(d: DocV, rules: Seq<RuleV>, folded: bool, n: NodeId) -> Seq<Entry>
    decreases rules.len(),
{
    if rules.len() == 0 {
        seq![]
    } else {
        let r = rules.last();
        rule_entries(d, rules.drop_last(), folded, n) + if (folded && r.universal) || !selector_matches(d, r.selector.parts, n) {
            seq![]
        } else {
            decl_entries(r)
        }
    }
}

/// The inline declarations, each keyed by its position among the pieces.
pub open spec fn inline_entries(ds: Seq<Seq<char>>) -> Seq<Entry>
    decreases ds.len(),
{
    if ds.len() == 0 {
        seq![]
    } else {
        let r = inline_entries(ds.drop_last());
        match decl_parts(ds.last()) {
            None => r,
            Some((k, v0)) => {
                let (v, imp) = important_split(v0);
                if k.len() == 0 || v.len() == 0 {
                    r
                } else {
                    r.push(((imp, true, (0u128, 0u128, 0u128), (ds.len() - 1) as u128), k, v))
                }
            },
        }
    }
}

/// Every declaration that bears on `n`, before sorting.
pub open spec fn cascade_entries(d: DocV, sh: SheetV, n: NodeId) -> Seq<Entry> {
    let uo = (sh.universal_order + 1) as u128;
    pres_entries(d.attrs(n)) + (if sh.universal_folded {
        style_entries(sh.universal_normal, zero_key(false, uo)) + style_entries(sh.universal_important, zero_key(true, uo))
    } else {
        seq![]
    }) + rule_entries(d, sh.rules, sh.universal_folded, n) + match d.attr(n, "style"@) {
        Some(s) => inline_entries(split_decls(s)),
        None => seq![],
    }
}

/// `n`'s own declarations from all three sources, no inheritance.
pub open spec fn cascaded(d: DocV, sh: SheetV, n: NodeId) -> Decls {
    entries_applied(seq![], stable_sorted(cascade_entries(d, sh, n)))
}

fn key_le_exec(a: &CascadeKey, b: &CascadeKey) -> (r: bool)
    ensures
        r == key_le(*a, *b),
{
    if a.0 != b.0 {
        return !a.0 && b.0;
    }
    if a.1 != b.1 {
        return !a.1 && b.1;
    }
    let (x, y) = (a.2, b.2);
    if x.0 != y.0 || x.1 != y.1 || x.2 != y.2 {
        return x.0 < y.0 || (x.0 == y.0 && (x.1 < y.1 || (x.1 == y.1 && x.2 <= y.2)));
    }
    a.3 <= b.3
}

pub struct CascadeEntry {
    pub key: CascadeKey,
    pub name: String,
    pub value: String,
}

pub open spec fn entries_view(v: Seq<CascadeEntry>) -> Seq<Entry> {
    v.map_values(|e: CascadeEntry| (e.key, e.name@, e.value@))
}

/// Inserts `x` after every entry whose key is not greater.
fn insert_entry(out: &mut Vec<CascadeEntry>, x: CascadeEntry)
    ensures
        entries_view(final(out)@) == insert_sorted(entries_view(old(out)@), (x.key, x.name@, x.value@)),
{
    let ghost s = entries_view(out@);
    let ghost xv = (x.key, x.name@, x.value@);
    let mut j = out.len();
    proof {
        assert(s.subrange(0, j as int) =~= s);
        assert(s.subrange(j as int, s.len() as int) =~= Seq::<Entry>::empty());
        assert(insert_sorted(s, xv) + Seq::<Entry>::empty() =~= insert_sorted(s, xv));
    }
    while j > 0
        invariant
            j <= out@.len(),
            s == entries_view(out@),
            xv.0 == x.key,
            insert_sorted(s, xv) == insert_sorted(s.subrange(0, j as int), xv) + s.subrange(j as int, s.len() as int),
        ensures
            j <= out@.len(),
            insert_sorted(s, xv) == insert_sorted(s.subrange(0, j as int), xv) + s.subrange(j as int, s.len() as int),
            j == 0 || key_le(out@[j - 1].key, x.key),
        decreases j,
    {
        if key_le_exec(&out[j - 1].key, &x.key) {
            break;
        }
        proof {
            let p = s.subrange(0, j as int);
            assert(p.last() == s[j - 1]);
            assert(s[j - 1].0 == out@[j - 1].key);
            assert(p.drop_last() =~= s.subrange(0, j - 1));
            assert(!key_le(p.last().0, xv.0));
            assert(p.len() > 0);
            assert(insert_sorted(p, xv) == insert_sorted(p.drop_last(), xv).push(p.last()));
            assert(insert_sorted(p, xv) == insert_sorted(s.subrange(0, j - 1), xv).push(s[j - 1]));
            assert(insert_sorted(s.subrange(0, j - 1), xv).push(s[j - 1]) + s.subrange(j as int, s.len() as int)
                =~= insert_sorted(s.subrange(0, j - 1), xv) + s.subrange(j - 1, s.len() as int));
        }
        j = j - 1;
    }
    proof {
        let p = s.subrange(0, j as int);
        if j > 0 {
            assert(s[j - 1].0 == out@[j - 1].key);
            assert(insert_sorted(p, xv) == p.push(xv));
        } else {
            assert(insert_sorted(p, xv) == seq![xv]);
        }
        assert(insert_sorted(s, xv) =~= s.insert(j as int, xv));
    }
    out.insert(j, x);
    proof {
        assert(entries_view(out@) =~= s.insert(j as int, xv));
    }
}


impl Doc {
    /// Whether rule `r`'s selector matches `n` (a selector with no compound matches nothing).
    fn rule_matches(&self, sel: &Selector, n: NodeId) -> (r: bool)
        requires
            self.wf(),
            self@.valid(n),
        ensures
            r == selector_matches(self@, sel@.parts, n),
    {
        if sel.parts.len() == 0 {
            false
        } else {
            self.sel_matches(sel, n)
        }
    }

    /// Every declaration bearing on `n`, before sorting (see `cascade_entries`).
    fn entries_for(&self, sheet: &Stylesheet, n: NodeId) -> (r: Vec<CascadeEntry>)
        requires
            self.wf(),
            self@.valid(n),
        ensures
            entries_view(r@) == cascade_entries(self@, sheet@, n),
    {
        let mut out: Vec<CascadeEntry> = Vec::new();
        // presentation attributes
        let attrs = self.attrs(n);
        let ghost av = attrs_view(attrs@);
        let mut i: usize = 0;
        while i < attrs.len()
            invariant
                av == attrs_view(attrs@),
                av == self@.attrs(n),
                i <= attrs@.len(),
                entries_view(out@) == pres_entries(av.subrange(0, i as int)),
            decreases attrs@.len() - i,
        {
            proof {
                assert(av.subrange(0, i + 1).drop_last() =~= av.subrange(0, i as int));
                assert(av[i as int] == attrs@[i as int]@);
            }
            if presentation_attr(attrs[i].name.as_str()) {
                let ghost o = entries_view(out@);
                let e = CascadeEntry { key: (false, false, (0, 0, 0), 0), name: attrs[i].name.clone(), value: attrs[i].value.clone() };
                out.push(e);
                proof {
                    assert(entries_view(out@) =~= o.push((zero_key(false, 0), av[i as int].name, av[i as int].value)));
                }
            }
            i = i + 1;
        }
        proof {
            assert(av.subrange(0, attrs@.len() as int) =~= av);
        }
        let ghost e1 = entries_view(out@);
        // the folded lone-`*` block
        if sheet.universal_folded {
            let uo: u128 = (sheet.universal_order as u128) + 1;
            let mut k: usize = 0;
            while k < sheet.universal_normal.0.len()
                invariant
                    k <= sheet.universal_normal.0@.len(),
                    entries_view(out@) == e1 + style_entries(sheet@.universal_normal.subrange(0, k as int), zero_key(false, uo)),
                decreases sheet.universal_normal.0@.len() - k,
            {
                let ghost o = entries_view(out@);
                let e = CascadeEntry {
                    key: (false, false, (0, 0, 0), uo),
                    name: sheet.universal_normal.0[k].0.clone(),
                    value: sheet.universal_normal.0[k].1.clone(),
                };
                out.push(e);
                proof {
                    assert(sheet@.universal_normal[k as int] == (sheet.universal_normal.0@[k as int].0@, sheet.universal_normal.0@[k as int].1@));
                    assert(style_entries(sheet@.universal_normal.subrange(0, k + 1), zero_key(false, uo)) =~= style_entries(
                        sheet@.universal_normal.subrange(0, k as int),
                        zero_key(false, uo),
                    ).push((zero_key(false, uo), sheet@.universal_normal[k as int].0, sheet@.universal_normal[k as int].1)));
                    assert(entries_view(out@) =~= o.push((zero_key(false, uo), sheet@.universal_normal[k as int].0, sheet@.universal_normal[k as int].1)));
                }
                k = k + 1;
            }
            proof {
                assert(sheet@.universal_normal.subrange(0, sheet@.universal_normal.len() as int) =~= sheet@.universal_normal);
            }
            let ghost e2 = entries_view(out@);
            let mut k: usize = 0;
            while k < sheet.universal_important.0.len()
                invariant
                    k <= sheet.universal_important.0@.len(),
                    entries_view(out@) == e2 + style_entries(sheet@.universal_important.subrange(0, k as int), zero_key(true, uo)),
                decreases sheet.universal_important.0@.len() - k,
            {
                let ghost o = entries_view(out@);
                let e = CascadeEntry {
                    key: (true, false, (0, 0, 0), uo),
                    name: sheet.universal_important.0[k].0.clone(),
                    value: sheet.universal_important.0[k].1.clone(),
                };
                out.push(e);
                proof {
                    assert(sheet@.universal_important[k as int] == (sheet.universal_important.0@[k as int].0@, sheet.universal_important.0@[k as int].1@));
                    assert(style_entries(sheet@.universal_important.subrange(0, k + 1), zero_key(true, uo)) =~= style_entries(
                        sheet@.universal_important.subrange(0, k as int),
                        zero_key(true, uo),
                    ).push((zero_key(true, uo), sheet@.universal_important[k as int].0, sheet@.universal_important[k as int].1)));
                    assert(entries_view(out@) =~= o.push((zero_key(true, uo), sheet@.universal_important[k as int].0, sheet@.universal_important[k as int].1)));
                }
                k = k + 1;
            }
            proof {
                assert(sheet@.universal_important.subrange(0, sheet@.universal_important.len() as int) =~= sheet@.universal_important);
                assert(entries_view(out@) =~= e1 + (style_entries(sheet@.universal_normal, zero_key(false, uo)) + style_entries(sheet@.universal_important, zero_key(true, uo))));
            }
        } else {
            proof {
                assert(entries_view(out@) =~= e1 + Seq::<Entry>::empty());
            }
        }
        let ghost e3 = entries_view(out@);
        // matching rules
        let ghost rv = sheet@.rules;
        let mut k: usize = 0;
        while k < sheet.rules.len()
            invariant
                self.wf(),
                self@.valid(n),
                rv == sheet@.rules,
                k <= sheet.rules@.len(),
                entries_view(out@) == e3 + rule_entries(self@, rv.subrange(0, k as int), sheet@.universal_folded, n),
            decreases sheet.rules@.len() - k,
        {
            proof {
                assert(rv.subrange(0, k + 1).drop_last() =~= rv.subrange(0, k as int));
                assert(rv[k as int] == sheet.rules@[k as int]@);
            }
            let r = &sheet.rules[k];
            let skip = (sheet.universal_folded && r.universal) || !self.rule_matches(&r.selector, n);
            let ghost o = entries_view(out@);
            if !skip {
                let key: CascadeKey = (false, false, r.selector.specificity, (r.order as u128) + 1);
                let mut d: usize = 0;
                while d < r.decls.len()
                    invariant
                        d <= r.decls@.len(),
                        r@ == rv[k as int],
                        entries_view(out@) == o + decl_entries(r@).subrange(0, d as int),
                    decreases r.decls@.len() - d,
                {
                    let ghost o2 = entries_view(out@);
                    let e = CascadeEntry {
                        key: (r.decls[d].2, false, r.selector.specificity, (r.order as u128) + 1),
                        name: r.decls[d].0.clone(),
                        value: r.decls[d].1.clone(),
                    };
                    out.push(e);
                    proof {
                        assert(r@.decls[d as int] == (r.decls@[d as int].0@, r.decls@[d as int].1@, r.decls@[d as int].2));
                        assert(decl_entries(r@).subrange(0, d + 1) =~= decl_entries(r@).subrange(0, d as int).push(decl_entries(r@)[d as int]));
                        assert(entries_view(out@) =~= o2.push(decl_entries(r@)[d as int]));
                    }
                    d = d + 1;
                }
                proof {
                    assert(decl_entries(r@).subrange(0, r.decls@.len() as int) =~= decl_entries(r@));
                    assert(entries_view(out@) =~= e3 + rule_entries(self@, rv.subrange(0, k + 1), sheet@.universal_folded, n));
                }
            } else {
                proof {
                    assert(entries_view(out@) =~= e3 + rule_entries(self@, rv.subrange(0, k + 1), sheet@.universal_folded, n));
                }
            }
            k = k + 1;
        }
        proof {
            assert(rv.subrange(0, sheet.rules@.len() as int) =~= rv);
        }
        let ghost e4 = entries_view(out@);
        // inline declarations
        proof {
            reveal_strlit("style");
        }
        match self.attr(n, "style") {
            Some(inline) => {
                let ds = split_declarations(inline);
                let ghost dv = strings_view(ds@);
                let mut idx: usize = 0;
                while idx < ds.len()
                    invariant
                        dv == strings_view(ds@),
                        idx <= ds@.len(),
                        entries_view(out@) == e4 + inline_entries(dv.subrange(0, idx as int)),
                    decreases ds@.len() - idx,
                {
                    proof {
                        assert(dv.subrange(0, idx + 1).drop_last() =~= dv.subrange(0, idx as int));
                        assert(dv[idx as int] == ds@[idx as int]@);
                    }
                    match split_decl(ds[idx].as_str()) {
                        Some((k, v0)) => {
                            let (v, imp) = strip_important(v0.as_str());
                            if !k.as_str().is_empty() && !v.as_str().is_empty() {
                                let ghost o = entries_view(out@);
                                let ghost ev = ((imp, true, (0u128, 0u128, 0u128), idx as u128), k@, v@);
                                out.push(CascadeEntry { key: (imp, true, (0, 0, 0), idx as u128), name: k, value: v });
                                proof {
                                    assert(entries_view(out@) =~= o.push(ev));
                                }
                            }
                        },
                        None => {},
                    }
                    idx = idx + 1;
                }
                proof {
                    assert(dv.subrange(0, ds@.len() as int) =~= dv);
                }
            },
            None => {
                proof {
                    assert(entries_view(out@) =~= e4 + Seq::<Entry>::empty());
                }
            },
        }
        out
    }

    /// `n`'s cascaded style under `sheet`.
    fn cascaded_with(&self, sheet: &Stylesheet, n: NodeId) -> (r: Style)
        requires
            self.wf(),
            self@.valid(n),
        ensures
            r@ == cascaded(self@, sheet@, n),
    {
        let es = self.entries_for(sheet, n);
        let ghost ev = entries_view(es@);
        let mut sorted: Vec<CascadeEntry> = Vec::new();
        let mut i: usize = 0;
        proof {
            assert(entries_view(sorted@) =~= stable_sorted(ev.subrange(0, 0)));
        }
        while i < es.len()
            invariant
                ev == entries_view(es@),
                i <= es@.len(),
                entries_view(sorted@) == stable_sorted(ev.subrange(0, i as int)),
            decreases es@.len() - i,
        {
            let e = CascadeEntry { key: es[i].key, name: es[i].name.clone(), value: es[i].value.clone() };
            proof {
                assert(ev.subrange(0, i + 1).drop_last() =~= ev.subrange(0, i as int));
                assert(ev.subrange(0, i + 1).last() == (e.key, e.name@, e.value@));
            }
            insert_entry(&mut sorted, e);
            i = i + 1;
        }
        proof {
            assert(ev.subrange(0, es@.len() as int) =~= ev);
        }
        let ghost sv = entries_view(sorted@);
        let mut st = Style::new();
        let mut k: usize = 0;
        while k < sorted.len()
            invariant
                sv == entries_view(sorted@),
                k <= sorted@.len(),
                st@ == entries_applied(seq![], sv.subrange(0, k as int)),
            decreases sorted@.len() - k,
        {
            proof {
                assert(sv.subrange(0, k + 1).drop_last() =~= sv.subrange(0, k as int));
                assert(sv[k as int] == (sorted@[k as int].key, sorted@[k as int].name@, sorted@[k as int].value@));
            }
            st.set_decl(sorted[k].name.as_str(), sorted[k].value.as_str());
            k = k + 1;
        }
        proof {
            assert(sv.subrange(0, sorted@.len() as int) =~= sv);
        }
        st
    }

    /// The element's own declarations from all three sources, no inheritance: presentation
    /// attributes < matching `<style>` rules (by `!important`, specificity, source order) <
    /// inline `style`.
    pub fn cascaded_style(&self, n: NodeId) -> (r: Style)
        requires
            self.wf(),
            self@.valid(n),
        ensures
            r@ == cascaded(self@, doc_sheet(self@), n),
    {
        let sheet = self.stylesheet();
        self.cascaded_with(&sheet, n)
    }
}

// ---------------------------------------------------------------------------------------------
// Specified style

/// The parent's specified style overridden by `n`'s cascaded style, up to the first ancestor
/// that is no element.
pub open spec fn specified_f(d: DocV, sh: SheetV, n: NodeId, fuel: nat) -> Decls
    decreases fuel,
{
    let c = cascaded(d, sh, n);
    match d.parent(n) {
        Some(p) => if fuel > 0 && d.is_element(p) {
            style_merge(specified_f(d, sh, p, (fuel - 1) as nat), c)
        } else {
            style_merge(seq![], c)
        },
        None => style_merge(seq![], c),
    }
}

pub open spec fn specified_of(d: DocV, n: NodeId) -> Decls {
    specified_f(d, doc_sheet(d), n, d.dep(n))
}

impl Doc {
    /// Parent's specified style overridden by this element's cascaded style.
    pub fn specified_style(&self, n: NodeId) -> (r: Style)
        requires
            self.wf(),
            self@.valid(n),
        ensures
            r@ == specified_of(self@, n),
    {
        let sheet = self.stylesheet();
        let mut chain: Vec<NodeId> = Vec::new();
        chain.push(n);
        let mut cur = n;
        loop
            invariant
                self.wf(),
                self@.valid(cur),
                chain@.len() >= 1,
                chain@[0] == n,
                chain@.last() == cur,
                forall|j: int| 0 <= j < chain@.len() ==> self@.valid(#[trigger] chain@[j]),
                forall|j: int| 0 <= j < chain@.len() - 1 ==> self@.parent(#[trigger] chain@[j]) == Some(chain@[j + 1])
                    && self@.is_element(chain@[j + 1]),
            ensures
                chain@.len() >= 1,
                chain@[0] == n,
                forall|j: int| 0 <= j < chain@.len() ==> self@.valid(#[trigger] chain@[j]),
                forall|j: int| 0 <= j < chain@.len() - 1 ==> self@.parent(#[trigger] chain@[j]) == Some(chain@[j + 1])
                    && self@.is_element(chain@[j + 1]),
                match self@.parent(chain@.last()) {
                    Some(p) => !self@.is_element(p),
                    None => true,
                },
            decreases self@.dep(cur),
        {
            proof {
                lemma_node_ok(self@, cur);
            }
            match self.parent(cur) {
                Some(p) => {
                    if !self.is_element(p) {
                        break;
                    }
                    chain.push(p);
                    cur = p;
                },
                None => {
                    break;
                },
            }
        }
        let ghost sh = sheet@;
        let mut k = chain.len();
        let mut acc = Style::new();
        while k > 0
            invariant
                self.wf(),
                sh == sheet@,
                k <= chain@.len(),
                chain@.len() >= 1,
                forall|j: int| 0 <= j < chain@.len() ==> self@.valid(#[trigger] chain@[j]),
                forall|j: int| 0 <= j < chain@.len() - 1 ==> self@.parent(#[trigger] chain@[j]) == Some(chain@[j + 1])
                    && self@.is_element(chain@[j + 1]),
                match self@.parent(chain@.last()) {
                    Some(p) => !self@.is_element(p),
                    None => true,
                },
                k < chain@.len() ==> acc@ == specified_f(self@, sh, chain@[k as int], self@.dep(chain@[k as int])),
                k == chain@.len() ==> acc@ == Seq::<(Seq<char>, Seq<char>)>::empty(),
            decreases k,
        {
            let node = chain[k - 1];
            let c = self.cascaded_with(&sheet, node);
            proof {
                lemma_node_ok(self@, node);
                if k < chain@.len() {
                    assert(self@.parent(node) == Some(chain@[k as int]));
                    lemma_node_ok(self@, chain@[k as int]);
                    assert(self@.dep(node) == self@.dep(chain@[k as int]) + 1);
                } else {
                    assert(node == chain@.last());
                }
            }
            acc.merge_over(&c);
            k = k - 1;
        }
        acc
    }

    /// The specified value of `prop` on `n`.
    pub fn specified(&self, n: NodeId, prop: &str) -> (r: Option<String>)
        requires
            self.wf(),
            self@.valid(n),
        ensures
            r matches Some(v) ==> style_get(specified_of(self@, n), prop@) == Some(v@),
            r is None ==> style_get(specified_of(self@, n), prop@) is None,
    {
        let st = self.specified_style(n);
        match st.get(prop) {
            Some(v) => Some(v.to_owned()),
            None => None,
        }
    }

    /// The specified value, or else the SVG initial value (`""` for unknown properties).
    pub fn computed(&self, n: NodeId, prop: &str) -> (r: String)
        requires
            self.wf(),
            self@.valid(n),
        ensures
            r@ == match style_get(specified_of(self@, n), prop@) {
                Some(v) => v,
                None => match default_of(prop@) {
                    Some(v) => v,
                    None => seq![],
                },
            },
    {
        match self.specified(n, prop) {
            Some(v) => v,
            None => match default_value(prop) {
                Some(v) => v.to_owned(),
                None => String::new(),
            },
        }
    }
}


// ---------------------------------------------------------------------------------------------
// Writing styles

/// The element's inline style (empty without a `style` attribute).
pub open spec fn inline_style(d: DocV, n: NodeId) -> Decls {
    match d.attr(n, "style"@) {
        Some(s) => style_parsed(s),
        None => seq![],
    }
}

/// The document after `set_style(n, prop, value)`.
pub open spec fn style_written(d: DocV, n: NodeId, prop: Seq<char>, value: Seq<char>) -> DocV {
    let d1 = d.attr_set(n, "style"@, css_of(style_set(inline_style(d, n), prop, value)));
    if is_presentation_attr(prop) {
        d1.attr_removed(n, prop)
    } else {
        d1
    }
}

/// The document after `set_style_map(n, st)`.
pub open spec fn style_map_written(d: DocV, n: NodeId, st: Decls) -> DocV {
    if st.len() == 0 {
        d.attr_removed(n, "style"@)
    } else {
        d.attr_set(n, "style"@, css_of(st))
    }
}

/// The document after `remove_style(n, prop)`.
pub open spec fn style_removed(d: DocV, n: NodeId, prop: Seq<char>) -> DocV {
    let d1 = match d.attr(n, "style"@) {
        Some(s) => {
            let st = style_parsed(s);
            if style_get(st, prop) is Some {
                style_map_written(d, n, style_remove(st, prop))
            } else {
                d
            }
        },
        None => d,
    };
    if is_presentation_attr(prop) {
        d1.attr_removed(n, prop)
    } else {
        d1
    }
}

impl Doc {
    /// Writes into the inline `style` attribute and drops a same-named presentation attribute.
    pub fn set_style(&mut self, n: NodeId, prop: &str, value: &str)
        requires
            old(self).wf(),
            old(self)@.valid(n),
        ensures
            final(self).wf(),
            final(self)@ == style_written(old(self)@, n, prop@, value@),
    {
        proof {
            reveal_strlit("style");
        }
        let mut st = match self.attr(n, "style") {
            Some(s) => Style::parse(s),
            None => Style::new(),
        };
        st.set(prop, value);
        let css = st.to_css();
        self.set_attr(n, "style", css.as_str());
        if presentation_attr(prop) {
            self.remove_attr(n, prop);
        }
    }

    /// Replaces the whole inline `style` attribute (removing it for an empty style).
    pub fn set_style_map(&mut self, n: NodeId, st: &Style)
        requires
            old(self).wf(),
            old(self)@.valid(n),
        ensures
            final(self).wf(),
            final(self)@ == style_map_written(old(self)@, n, st@),
    {
        if st.is_empty() {
            self.remove_attr(n, "style");
        } else {
            let css = st.to_css();
            self.set_attr(n, "style", css.as_str());
        }
    }

    /// Removes the property from the inline style and as a presentation attribute.
    pub fn remove_style(&mut self, n: NodeId, prop: &str)
        requires
            old(self).wf(),
            old(self)@.valid(n),
        ensures
            final(self).wf(),
            final(self)@ == style_removed(old(self)@, n, prop@),
    {
        proof {
            reveal_strlit("style");
        }
        let inline = match self.attr(n, "style") {
            Some(s) => Some(s.to_owned()),
            None => None,
        };
        match inline {
            Some(s) => {
                let mut st = Style::parse(s.as_str());
                if st.remove(prop).is_some() {
                    self.set_style_map(n, &st);
                }
            },
            None => {},
        }
        if presentation_attr(prop) {
            self.remove_attr(n, prop);
        }
    }
}

// ---------------------------------------------------------------------------------------------
// What the sheets alone give

/// Order of a sheet declaration: `(important, specificity, source order)`.
pub type SheetKey = (bool, (u128, u128, u128), usize);

pub open spec fn sheet_key_ge(a: SheetKey, b: SheetKey) -> bool {
    bool_lt(b.0, a.0) || (a.0 == b.0 && ((triple_le(b.1, a.1) && a.1 != b.1) || (a.1 == b.1 && a.2 >= b.2)))
}

/// The best declaration of `prop` among `ds` (of rule `r`) and `best`; later ones win ties.
pub open spec fn best_in_decls(best: Option<(SheetKey, Seq<char>)>, r: RuleV, ds: Seq<(Seq<char>, Seq<char>, bool)>, prop: Seq<char>) -> Option<(SheetKey, Seq<char>)>
    decreases ds.len(),
{
    if ds.len() == 0 {
        best
    } else {
        let b = best_in_decls(best, r, ds.drop_last(), prop);
        let t = ds.last();
        if t.0 != prop {
            b
        } else {
            let key = (t.2, r.selector.specificity, r.order);
            match b {
                None => Some((key, t.1)),
                Some((bk, bv)) => if sheet_key_ge(key, bk) {
                    Some((key, t.1))
                } else {
                    b
                },
            }
        }
    }
}

/// The best declaration of `prop` among the rules matching `n`.
pub open spec fn best_in_rules(d: DocV, rules: Seq<RuleV>, n: NodeId, prop: Seq<char>) -> Option<(SheetKey, Seq<char>)>
    decreases rules.len(),
{
    if rules.len() == 0 {
        None
    } else {
        let b = best_in_rules(d, rules.drop_last(), n, prop);
        let r = rules.last();
        if selector_matches(d, r.selector.parts, n) {
            best_in_decls(b, r, r.decls, prop)
        } else {
            b
        }
    }
}

/// The value the `<style>` sheets alone give `prop` on `n`.
pub open spec fn sheet_value_of(d: DocV, n: NodeId, prop: Seq<char>) -> Option<Seq<char>> {
    let sh = doc_sheet(d);
    if !sh.props.contains(prop) {
        None
    } else {
        match best_in_rules(d, sh.rules, n, prop) {
            Some((_, v)) => Some(v),
            None => None,
        }
    }
}

pub open spec fn best_view(b: Option<(SheetKey, String)>) -> Option<(SheetKey, Seq<char>)> {
    match b {
        Some((k, v)) => Some((k, v@)),
        None => None,
    }
}

fn sheet_key_ge_exec(a: &SheetKey, b: &SheetKey) -> (r: bool)
    ensures
        r == sheet_key_ge(*a, *b),
{
    if a.0 != b.0 {
        return a.0 && !b.0;
    }
    let (x, y) = (a.1, b.1);
    if x.0 != y.0 || x.1 != y.1 || x.2 != y.2 {
        return y.0 < x.0 || (y.0 == x.0 && (y.1 < x.1 || (y.1 == x.1 && y.2 <= x.2)));
    }
    a.2 >= b.2
}

impl Doc {
    /// The value the `<style>` sheets alone give `prop` on `n` (no presentation attribute, no
    /// inline `style`): the highest `(!important, specificity, source order)` wins, later
    /// declarations win ties.
    pub fn sheet_value(&self, n: NodeId, prop: &str) -> (r: Option<String>)
        requires
            self.wf(),
            self@.valid(n),
        ensures
            r matches Some(v) ==> sheet_value_of(self@, n, prop@) == Some(v@),
            r is None ==> sheet_value_of(self@, n, prop@) is None,
    {
        let sheet = self.stylesheet();
        if !contains_string(&sheet.props, prop) {
            return None;
        }
        let ghost rv = sheet@.rules;
        let mut best: Option<(SheetKey, String)> = None;
        let mut k: usize = 0;
        while k < sheet.rules.len()
            invariant
                self.wf(),
                self@.valid(n),
                rv == sheet@.rules,
                k <= sheet.rules@.len(),
                best_view(best) == best_in_rules(self@, rv.subrange(0, k as int), n, prop@),
            decreases sheet.rules@.len() - k,
        {
            proof {
                assert(rv.subrange(0, k + 1).drop_last() =~= rv.subrange(0, k as int));
                assert(rv[k as int] == sheet.rules@[k as int]@);
            }
            let r = &sheet.rules[k];
            if self.rule_matches(&r.selector, n) {
                let ghost b0 = best_view(best);
                let mut d: usize = 0;
                while d < r.decls.len()
                    invariant
                        d <= r.decls@.len(),
                        r@ == rv[k as int],
                        best_view(best) == best_in_decls(b0, r@, r@.decls.subrange(0, d as int), prop@),
                    decreases r.decls@.len() - d,
                {
                    proof {
                        assert(r@.decls.subrange(0, d + 1).drop_last() =~= r@.decls.subrange(0, d as int));
                        assert(r@.decls[d as int] == (r.decls@[d as int].0@, r.decls@[d as int].1@, r.decls@[d as int].2));
                    }
                    if str_eq(r.decls[d].0.as_str(), prop) {
                        let key: SheetKey = (r.decls[d].2, r.selector.specificity, r.order);
                        let take = match &best {
                            None => true,
                            Some((bk, _)) => sheet_key_ge_exec(&key, bk),
                        };
                        if take {
                            best = Some((key, r.decls[d].1.clone()));
                        }
                    }
                    d = d + 1;
                }
                proof {
                    assert(r@.decls.subrange(0, r.decls@.len() as int) =~= r@.decls);
                }
            }
            k = k + 1;
        }
        proof {
            assert(rv.subrange(0, sheet.rules@.len() as int) =~= rv);
        }
        match best {
            Some((_, v)) => Some(v),
            None => None,
        }
    }
}

} // verus!
