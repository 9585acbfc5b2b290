//! Laws of the style cascade: an element's own declaration decides its specified value, and
//! what it does not declare it inherits from its parent element.
use vstd::prelude::*;
use crate::cascade::{cascaded, cascade_entries, decl_entries, doc_sheet, entries_applied, insert_sorted, key_le, pres_entries, rule_entries, selector_matches, specified_f, specified_of, stable_sorted, Entry};
use crate::sheet::{SheetV, CompoundV, Combinator, PartsV, RuleV, SelectorV, specificity_of};
use crate::dom::{DocV, NodeId, lemma_node_ok};
use crate::style::{decl_applied, decl_pos, font_expand_from, font_size_family, last_value, law_style_get_after_set, law_style_merge, law_style_set_distinct, lemma_decl_pos, names_distinct, style_get, Decls};

verus! {

/// A property an element declares itself (last declaration in its cascaded style) is its
/// specified value, whatever its ancestors say.
pub proof fn law_own_declaration_wins(d: DocV, n: NodeId, k: Seq<char>)
    requires
        d.wf(),
        d.valid(n),
        last_value(cascaded(d, doc_sheet(d), n), k) is Some,
    ensures
        style_get(specified_of(d, n), k) == last_value(cascaded(d, doc_sheet(d), n), k),
{
    let c = cascaded(d, doc_sheet(d), n);
    match d.parent(n) {
        Some(p) => if d.dep(n) > 0 && d.is_element(p) {
            law_style_merge(specified_f(d, doc_sheet(d), p, (d.dep(n) - 1) as nat), c, k);
        } else {
            law_style_merge(seq![], c, k);
        },
        None => law_style_merge(seq![], c, k),
    }
}

/// A property an element does not declare is inherited: its specified value is its parent
/// element's.
pub proof fn law_undeclared_is_inherited(d: DocV, n: NodeId, p: NodeId, k: Seq<char>)
    requires
        d.wf(),
        d.valid(n),
        d.parent(n) == Some(p),
        d.is_element(p),
        last_value(cascaded(d, doc_sheet(d), n), k) is None,
    ensures
        style_get(specified_of(d, n), k) == style_get(specified_of(d, p), k),
{
    lemma_node_ok(d, n);
    let c = cascaded(d, doc_sheet(d), n);
    assert(d.dep(n) == d.dep(p) + 1);
    law_style_merge(specified_f(d, doc_sheet(d), p, (d.dep(n) - 1) as nat), c, k);
}

/// An element whose parent is not an element (the root `<svg>` under the document node)
/// specifies only what it declares.
pub proof fn law_top_specifies_own(d: DocV, n: NodeId, k: Seq<char>)
    requires
        d.wf(),
        d.valid(n),
        d.parent(n) matches Some(p) ==> !d.is_element(p),
    ensures
        style_get(specified_of(d, n), k) == last_value(cascaded(d, doc_sheet(d), n), k),
{
    let c = cascaded(d, doc_sheet(d), n);
    law_style_merge(seq![], c, k);
    assert(style_get(seq![], k) is None) by {
        assert(crate::style::decl_pos(seq![], k) == -1);
    }
}

/// Every property propagates down: an element's specified value of `k` is its own cascaded
/// value when it declares `k`, else its parent element's specified value (nothing under a parent
/// that is not an element).
pub proof fn law_specified_propagates(d: DocV, n: NodeId, k: Seq<char>)
    requires
        d.wf(),
        d.valid(n),
    ensures
        style_get(specified_of(d, n), k) == match last_value(cascaded(d, doc_sheet(d), n), k) {
            Some(v) => Some(v),
            None => match d.parent(n) {
                Some(p) => if d.is_element(p) {
                    style_get(specified_of(d, p), k)
                } else {
                    None
                },
                None => None,
            },
        },
{
    if last_value(cascaded(d, doc_sheet(d), n), k) is Some {
        law_own_declaration_wins(d, n, k);
    } else {
        match d.parent(n) {
            Some(p) => if d.is_element(p) {
                law_undeclared_is_inherited(d, n, p, k);
            } else {
                law_top_specifies_own(d, n, k);
            },
            None => law_top_specifies_own(d, n, k),
        }
    }
}

/// Expanding the `font` shorthand keeps names distinct.
proof fn lemma_font_distinct(st: Decls, toks: Seq<Seq<char>>, i: int)
    requires
        names_distinct(st),
    ensures
        names_distinct(font_expand_from(st, toks, i)),
    decreases toks.len() - i,
{
    if 0 <= i < toks.len() {
        match crate::style::font_keyword(toks[i]) {
            Some(Some(p)) => {
                law_style_set_distinct(st, p, toks[i]);
                lemma_font_distinct(crate::style::style_set(st, p, toks[i]), toks, i + 1);
            },
            Some(None) => lemma_font_distinct(st, toks, i + 1),
            None => {
                let size = toks[i];
                let c = crate::xml::find_char(size, 0, '/');
                if c >= 0 {
                    law_style_set_distinct(st, "font-size"@, size.subrange(0, c));
                    law_style_set_distinct(crate::style::style_set(st, "font-size"@, size.subrange(0, c)), "line-height"@, size.subrange(c + 1, size.len() as int));
                } else {
                    law_style_set_distinct(st, "font-size"@, size);
                }
                let st1 = if c >= 0 {
                    crate::style::style_set(crate::style::style_set(st, "font-size"@, size.subrange(0, c)), "line-height"@, size.subrange(c + 1, size.len() as int))
                } else {
                    crate::style::style_set(st, "font-size"@, size)
                };
                law_style_set_distinct(st1, "font-family"@, crate::style::joined(toks.subrange(i + 1, toks.len() as int)));
                assert(font_expand_from(st, toks, i) == font_size_family(st, toks, i));
            },
        }
    }
}

/// Applying declarations keeps names distinct.
proof fn lemma_applied_distinct(st: Decls, es: Seq<Entry>)
    requires
        names_distinct(st),
    ensures
        names_distinct(entries_applied(st, es)),
    decreases es.len(),
{
    if es.len() > 0 {
        lemma_applied_distinct(st, es.drop_last());
        let s1 = entries_applied(st, es.drop_last());
        if es.last().1 == "font"@ {
            lemma_font_distinct(s1, crate::style::font_tokens(es.last().2), 0);
        } else {
            law_style_set_distinct(s1, es.last().1, es.last().2);
        }
    }
}

/// With distinct names, the value of `k` is that of its last declaration.
proof fn lemma_get_is_last(s: Decls, k: Seq<char>)
    requires
        names_distinct(s),
    ensures
        style_get(s, k) == last_value(s, k),
    decreases s.len(),
{
    if s.len() > 0 {
        let t = s.drop_last();
        assert(names_distinct(t));
        lemma_get_is_last(t, k);
        lemma_decl_pos(s, k);
        lemma_decl_pos(t, k);
        if s.last().0 == k {
            assert(s[s.len() - 1].0 == k);
            let i = decl_pos(s, k);
            assert(i >= 0);
            assert(i == s.len() - 1);
        } else {
            let i = decl_pos(s, k);
            let j = decl_pos(t, k);
            if i >= 0 {
                assert(i < s.len() - 1);
                assert(t[i] == s[i]);
                if j < 0 || j > i {
                } else if j < i {
                    assert(t[j] == s[j]);
                }
                assert(j == i);
            } else {
                if j >= 0 {
                    assert(t[j] == s[j]);
                }
            }
        }
    } else {
        assert(decl_pos(s, k) == -1);
    }
}

/// Every property propagates down, read as `get` reads a style: an element's specified value of
/// `k` is its cascaded style's value when that has one, else its parent element's specified
/// value (nothing under a parent that is not an element).
pub proof fn law_specified_style_inherits(d: DocV, n: NodeId, k: Seq<char>)
    requires
        d.wf(),
        d.valid(n),
    ensures
        style_get(specified_of(d, n), k) == match style_get(cascaded(d, doc_sheet(d), n), k) {
            Some(v) => Some(v),
            None => match d.parent(n) {
                Some(p) => if d.is_element(p) {
                    style_get(specified_of(d, p), k)
                } else {
                    None
                },
                None => None,
            },
        },
{
    assert(names_distinct(Seq::<(Seq<char>, Seq<char>)>::empty()));
    lemma_applied_distinct(seq![], stable_sorted(cascade_entries(d, doc_sheet(d), n)));
    lemma_get_is_last(cascaded(d, doc_sheet(d), n), k);
    law_specified_propagates(d, n, k);
}

/// A selector's specificity counts its id, class and type selectors, each in its own place:
/// a compound with none counts nothing, and giving the last compound one more class raises the
/// class count by one, giving it a type (it had none) raises the type count by one, giving it
/// an id (it had none) raises the id count by one, and nothing else changes.
pub proof fn law_specificity_counts(p: PartsV, x: Seq<char>, comb: Option<Combinator>)
    requires
        p.len() > 0,
    ensures
        specificity_of(seq![(CompoundV { tag: None, id: None, classes: seq![] }, comb)]) == (0int, 0int, 0int),
        specificity_of(p.drop_last().push((CompoundV { classes: p.last().0.classes.push(x), ..p.last().0 }, p.last().1)))
            == (specificity_of(p).0, specificity_of(p).1 + 1, specificity_of(p).2),
        p.last().0.tag is None ==> specificity_of(p.drop_last().push((CompoundV { tag: Some(x), ..p.last().0 }, p.last().1)))
            == (specificity_of(p).0, specificity_of(p).1, specificity_of(p).2 + 1),
        p.last().0.id is None ==> specificity_of(p.drop_last().push((CompoundV { id: Some(x), ..p.last().0 }, p.last().1)))
            == (specificity_of(p).0 + 1, specificity_of(p).1, specificity_of(p).2),
{
    let q1 = p.drop_last().push((CompoundV { classes: p.last().0.classes.push(x), ..p.last().0 }, p.last().1));
    let q2 = p.drop_last().push((CompoundV { tag: Some(x), ..p.last().0 }, p.last().1));
    let q3 = p.drop_last().push((CompoundV { id: Some(x), ..p.last().0 }, p.last().1));
    assert(q1.drop_last() =~= p.drop_last());
    assert(q2.drop_last() =~= p.drop_last());
    assert(q3.drop_last() =~= p.drop_last());
    let e = seq![(CompoundV { tag: None, id: None, classes: seq![] }, comb)];
    assert(e.drop_last() =~= Seq::<(CompoundV, Option<Combinator>)>::empty());
    assert(specificity_of(e.drop_last()) == (0int, 0int, 0int));
    assert(e.last().0.classes.len() == 0);
}

/// The cascade key a sheet declaration gets from its selector's parts.
pub open spec fn rule_key(important: bool, inline: bool, p: PartsV, order: u128) -> crate::cascade::CascadeKey {
    let s = specificity_of(p);
    (important, inline, (s.0 as u128, s.1 as u128, s.2 as u128), order)
}

/// A class selector outranks a type selector: at equal importance and origin, a declaration of
/// `.c` ranks above one of `t`, whichever comes later, so an element both match takes the
/// class rule's value.
pub proof fn law_class_outranks_type(cls: Seq<char>, tag: Seq<char>, ca: Option<Combinator>, cb: Option<Combinator>, imp: bool, inl: bool, o1: u128, o2: u128)
    ensures
        key_le(rule_key(imp, inl, seq![(CompoundV { tag: Some(tag), id: None, classes: seq![] }, cb)], o2),
            rule_key(imp, inl, seq![(CompoundV { tag: None, id: None, classes: seq![cls] }, ca)], o1)),
        !key_le(rule_key(imp, inl, seq![(CompoundV { tag: None, id: None, classes: seq![cls] }, ca)], o1),
            rule_key(imp, inl, seq![(CompoundV { tag: Some(tag), id: None, classes: seq![] }, cb)], o2)),
{
    let a = seq![(CompoundV { tag: None, id: None, classes: seq![cls] }, ca)];
    let b = seq![(CompoundV { tag: Some(tag), id: None, classes: seq![] }, cb)];
    assert(a.drop_last() =~= Seq::<(CompoundV, Option<Combinator>)>::empty());
    assert(b.drop_last() =~= Seq::<(CompoundV, Option<Combinator>)>::empty());
    assert(specificity_of(a.drop_last()) == (0int, 0int, 0int));
    assert(specificity_of(b.drop_last()) == (0int, 0int, 0int));
    assert(a.last().0.classes.len() == 1);
    assert(b.last().0.classes.len() == 0);
    assert(specificity_of(a) == (0int, 1int, 0int));
    assert(specificity_of(b) == (0int, 0int, 1int));
}

/// A selector as parsing gives it: its parts with their specificity.
pub open spec fn parsed_selector(p: PartsV) -> SelectorV {
    SelectorV { parts: p, specificity: (specificity_of(p).0 as u128, specificity_of(p).1 as u128, specificity_of(p).2 as u128) }
}

/// A class rule beats a type rule: where a sheet holds `.c{k:a}` followed by `t{k:b}`
/// (neither `!important`), an element both match that has no attribute `k`, no `font`
/// attribute and no inline style takes `a` as its own value of `k`.
pub proof fn law_class_rule_beats_later_type_rule(
    d: DocV,
    sh: SheetV,
    n: NodeId,
    cls: Seq<char>,
    tag: Seq<char>,
    ca: Option<Combinator>,
    cb: Option<Combinator>,
    k: Seq<char>,
    a: Seq<char>,
    b: Seq<char>,
    o1: usize,
    o2: usize,
)
    requires
        sh.rules == seq![
            RuleV {
                selector: parsed_selector(seq![(CompoundV { tag: None, id: None, classes: seq![cls] }, ca)]),
                decls: seq![(k, a, false)],
                order: o1,
                universal: false,
            },
            RuleV {
                selector: parsed_selector(seq![(CompoundV { tag: Some(tag), id: None, classes: seq![] }, cb)]),
                decls: seq![(k, b, false)],
                order: o2,
                universal: false,
            },
        ],
        !sh.universal_folded,
        selector_matches(d, seq![(CompoundV { tag: None, id: None, classes: seq![cls] }, ca)], n),
        selector_matches(d, seq![(CompoundV { tag: Some(tag), id: None, classes: seq![] }, cb)], n),
        k != "font"@,
        forall|i: int| 0 <= i < d.attrs(n).len() ==> (#[trigger] d.attrs(n)[i]).name != k && d.attrs(n)[i].name != "font"@,
        d.attr(n, "style"@) is None,
    ensures
        style_get(cascaded(d, sh, n), k) == Some(a),
{
    let pc = seq![(CompoundV { tag: None, id: None, classes: seq![cls] }, ca)];
    let pt = seq![(CompoundV { tag: Some(tag), id: None, classes: seq![] }, cb)];
    assert(pc.drop_last() =~= Seq::<(CompoundV, Option<Combinator>)>::empty());
    assert(pt.drop_last() =~= Seq::<(CompoundV, Option<Combinator>)>::empty());
    assert(specificity_of(pc.drop_last()) == (0int, 0int, 0int));
    assert(specificity_of(pt.drop_last()) == (0int, 0int, 0int));
    assert(pc.last().0.classes.len() == 1);
    assert(pt.last().0.classes.len() == 0);
    assert(specificity_of(pc) == (0int, 1int, 0int));
    assert(specificity_of(pt) == (0int, 0int, 1int));
    let r1 = sh.rules[0];
    let r2 = sh.rules[1];
    let e1: Entry = ((false, false, (0u128, 1u128, 0u128), (o1 + 1) as u128), k, a);
    let e2: Entry = ((false, false, (0u128, 0u128, 1u128), (o2 + 1) as u128), k, b);
    assert(decl_entries(r1) =~= seq![e1]);
    assert(decl_entries(r2) =~= seq![e2]);
    assert(sh.rules.drop_last() =~= seq![r1]);
    assert(seq![r1].drop_last() =~= Seq::<RuleV>::empty());
    assert(rule_entries(d, Seq::<RuleV>::empty(), false, n) =~= Seq::<Entry>::empty());
    assert(rule_entries(d, seq![r1], false, n) =~= seq![e1]);
    assert(rule_entries(d, sh.rules, false, n) =~= seq![e1, e2]);
    let pr = pres_entries(d.attrs(n));
    lemma_pres_names(d.attrs(n), k);
    let es = cascade_entries(d, sh, n);
    assert(es =~= pr + seq![e1, e2]);
    assert forall|i: int| 0 <= i < es.len() implies (#[trigger] es[i]).1 != "font"@ by {
        if i < pr.len() {
            assert(es[i] == pr[i]);
        }
    }
    law_highest_declaration_wins(d, sh, n, k);
    lemma_winner_none(pr, k);
    assert(es.drop_last() =~= pr.push(e1));
    assert(pr.push(e1).drop_last() =~= pr);
    assert(winner(pr.push(e1), k) == Some(e1));
    assert(!key_le(e1.0, e2.0));
}

/// Presentation entries come from the attributes, so none is named what no attribute is.
proof fn lemma_pres_names(attrs: Seq<crate::dom::AttrV>, k: Seq<char>)
    requires
        forall|i: int| 0 <= i < attrs.len() ==> (#[trigger] attrs[i]).name != k && attrs[i].name != "font"@,
    ensures
        forall|i: int| 0 <= i < pres_entries(attrs).len() ==> (#[trigger] pres_entries(attrs)[i]).1 != k
            && pres_entries(attrs)[i].1 != "font"@,
    decreases attrs.len(),
{
    if attrs.len() > 0 {
        assert forall|i: int| 0 <= i < attrs.drop_last().len() implies (#[trigger] attrs.drop_last()[i]).name != k
            && attrs.drop_last()[i].name != "font"@ by {
            assert(attrs.drop_last()[i] == attrs[i]);
        }
        lemma_pres_names(attrs.drop_last(), k);
        assert(attrs.last() == attrs[attrs.len() - 1]);
        let r = pres_entries(attrs.drop_last());
        assert forall|i: int| 0 <= i < pres_entries(attrs).len() implies (#[trigger] pres_entries(attrs)[i]).1 != k
            && pres_entries(attrs)[i].1 != "font"@ by {
            if i < r.len() {
                assert(pres_entries(attrs)[i] == r[i]);
            }
        }
    }
}

/// With no entry named `k`, nothing wins for `k`.
proof fn lemma_winner_none(es: Seq<Entry>, k: Seq<char>)
    requires
        forall|i: int| 0 <= i < es.len() ==> (#[trigger] es[i]).1 != k,
    ensures
        winner(es, k) is None,
    decreases es.len(),
{
    if es.len() > 0 {
        assert forall|i: int| 0 <= i < es.drop_last().len() implies (#[trigger] es.drop_last()[i]).1 != k by {
            assert(es.drop_last()[i] == es[i]);
        }
        lemma_winner_none(es.drop_last(), k);
        assert(es.last() == es[es.len() - 1]);
    }
}

// ---------------------------------------------------------------------------------------------
// Which declaration wins

/// The winning declaration of `k` among `es`: the highest key (importance, then inline, then
/// specificity, then order), the later one among equal keys.
pub open spec fn winner(es: Seq<Entry>, k: Seq<char>) -> Option<Entry>
    decreases es.len(),
{
    if es.len() == 0 {
        None
    } else {
        let w = winner(es.drop_last(), k);
        let x = es.last();
        if x.1 == k && (w is None || key_le(w.unwrap().0, x.0)) {
            Some(x)
        } else {
            w
        }
    }
}

/// The last entry of `es` declaring `k`.
pub open spec fn last_named(es: Seq<Entry>, k: Seq<char>) -> Option<Entry>
    decreases es.len(),
{
    if es.len() == 0 {
        None
    } else if es.last().1 == k {
        Some(es.last())
    } else {
        last_named(es.drop_last(), k)
    }
}

pub open spec fn keys_sorted(es: Seq<Entry>) -> bool {
    forall|i: int, j: int| 0 <= i < j < es.len() ==> key_le(#[trigger] es[i].0, #[trigger] es[j].0)
}

proof fn lemma_key_order(a: (bool, bool, (u128, u128, u128), u128), b: (bool, bool, (u128, u128, u128), u128), c: (bool, bool, (u128, u128, u128), u128))
    ensures
        key_le(a, b) || key_le(b, a),
        key_le(a, b) && key_le(b, c) ==> key_le(a, c),
{
}

proof fn lemma_last_named_in(es: Seq<Entry>, k: Seq<char>)
    ensures
        last_named(es, k) matches Some(e) ==> es.contains(e),
    decreases es.len(),
{
    if es.len() > 0 {
        lemma_last_named_in(es.drop_last(), k);
        if es.last().1 == k {
            assert(es[es.len() - 1] == es.last());
        } else if let Some(e) = last_named(es.drop_last(), k) {
            let i = choose|i: int| 0 <= i < es.drop_last().len() && es.drop_last()[i] == e;
            assert(es[i] == e);
        }
    }
}

/// Inserting into a sorted list keeps it sorted, adds only `x`, and leaves `k` declared by `x`
/// exactly when `x` ranks at least as high as the earlier last declaration of `k`.
proof fn lemma_insert_sorted(r: Seq<Entry>, x: Entry, k: Seq<char>)
    requires
        keys_sorted(r),
    ensures
        keys_sorted(insert_sorted(r, x)),
        forall|i: int| 0 <= i < insert_sorted(r, x).len() ==> #[trigger] insert_sorted(r, x)[i] == x || r.contains(insert_sorted(r, x)[i]),
        last_named(insert_sorted(r, x), k) == (if x.1 == k && (last_named(r, k) is None || key_le(last_named(r, k).unwrap().0, x.0)) {
            Some(x)
        } else {
            last_named(r, k)
        }),
    decreases r.len(),
{
    let res = insert_sorted(r, x);
    if r.len() == 0 {
        assert(res =~= seq![x]);
    } else if key_le(r.last().0, x.0) {
        assert(res == r.push(x));
        assert forall|i: int, j: int| 0 <= i < j < res.len() implies key_le(#[trigger] res[i].0, #[trigger] res[j].0) by {
            if j == r.len() {
                if i < r.len() - 1 {
                    assert(key_le(r[i].0, r[r.len() - 1].0));
                    lemma_key_order(r[i].0, r[r.len() - 1].0, x.0);
                }
            } else {
                assert(res[i] == r[i] && res[j] == r[j]);
            }
        }
        assert forall|i: int| 0 <= i < res.len() implies #[trigger] res[i] == x || r.contains(res[i]) by {
            if i < r.len() {
                assert(res[i] == r[i]);
            }
        }
        lemma_last_named_in(r, k);
        assert(res.drop_last() =~= r);
        assert(res.last() == x);
        if x.1 == k {
            if let Some(w) = last_named(r, k) {
                let q = choose|q: int| 0 <= q < r.len() && r[q] == w;
                if q < r.len() - 1 {
                    assert(key_le(r[q].0, r[r.len() - 1].0));
                }
                lemma_key_order(w.0, r.last().0, x.0);
            }
        }
        assert(res.drop_last() =~= r);
    } else {
        let r1 = r.drop_last();
        let y = r.last();
        assert(keys_sorted(r1)) by {
            assert forall|i: int, j: int| 0 <= i < j < r1.len() implies key_le(#[trigger] r1[i].0, #[trigger] r1[j].0) by {
                assert(r1[i] == r[i] && r1[j] == r[j]);
            }
        }
        lemma_insert_sorted(r1, x, k);
        let m = insert_sorted(r1, x);
        assert(res == m.push(y));
        lemma_key_order(x.0, y.0, y.0);
        assert forall|i: int, j: int| 0 <= i < j < res.len() implies key_le(#[trigger] res[i].0, #[trigger] res[j].0) by {
            if j == m.len() {
                assert(res[j] == y);
                assert(res[i] == m[i]);
                if m[i] != x {
                    let q = choose|q: int| 0 <= q < r1.len() && r1[q] == m[i];
                    assert(r[q] == m[i]);
                    assert(key_le(r[q].0, r[r.len() - 1].0));
                }
            } else {
                assert(res[i] == m[i] && res[j] == m[j]);
            }
        }
        assert forall|i: int| 0 <= i < res.len() implies #[trigger] res[i] == x || r.contains(res[i]) by {
            if i < m.len() {
                assert(res[i] == m[i]);
                if m[i] != x {
                    let q = choose|q: int| 0 <= q < r1.len() && r1[q] == m[i];
                    assert(r[q] == m[i]);
                }
            } else {
                assert(r[r.len() - 1] == y);
            }
        }
        assert(res.drop_last() =~= m);
        assert(r.drop_last() =~= r1);
        assert(res.last() == y);
        if y.1 == k {
            assert(last_named(r, k) == Some(y));
            assert(last_named(res, k) == Some(y));
        } else {
            assert(last_named(r, k) == last_named(r1, k));
            assert(last_named(res, k) == last_named(m, k));
        }
    }
}

proof fn lemma_stable_sorted(es: Seq<Entry>, k: Seq<char>)
    ensures
        keys_sorted(stable_sorted(es)),
        last_named(stable_sorted(es), k) == winner(es, k),
    decreases es.len(),
{
    if es.len() > 0 {
        lemma_stable_sorted(es.drop_last(), k);
        lemma_insert_sorted(stable_sorted(es.drop_last()), es.last(), k);
    }
}

/// Applying entries, none of them the `font` shorthand, leaves each property at its last
/// declaration.
proof fn lemma_applied_last(st: Decls, es: Seq<Entry>, k: Seq<char>)
    requires
        forall|i: int| 0 <= i < es.len() ==> (#[trigger] es[i]).1 != "font"@,
    ensures
        style_get(entries_applied(st, es), k) == match last_named(es, k) {
            Some(e) => Some(e.2),
            None => style_get(st, k),
        },
    decreases es.len(),
{
    if es.len() > 0 {
        assert forall|i: int| 0 <= i < es.drop_last().len() implies (#[trigger] es.drop_last()[i]).1 != "font"@ by {
            assert(es.drop_last()[i] == es[i]);
        }
        lemma_applied_last(st, es.drop_last(), k);
        assert(es[es.len() - 1] == es.last());
        law_style_get_after_set(entries_applied(st, es.drop_last()), es.last().1, es.last().2, k);
    }
}

/// Whatever the sources, an element's own value of a property is that of its winning
/// declaration: the highest key (an `!important` one over the rest, then inline over
/// stylesheet and attribute, then the more specific selector, then the later rule), the later
/// one among equal keys. (Stated where no declaration is the `font` shorthand, which sets
/// several properties at once.)
pub proof fn law_highest_declaration_wins(d: DocV, sh: SheetV, n: NodeId, k: Seq<char>)
    requires
        forall|i: int| 0 <= i < cascade_entries(d, sh, n).len() ==> (#[trigger] cascade_entries(d, sh, n)[i]).1 != "font"@,
    ensures
        style_get(cascaded(d, sh, n), k) == match winner(cascade_entries(d, sh, n), k) {
            Some(e) => Some(e.2),
            None => None,
        },
{
    let es = cascade_entries(d, sh, n);
    lemma_stable_sorted(es, k);
    let ss = stable_sorted(es);
    assert forall|i: int| 0 <= i < ss.len() implies (#[trigger] ss[i]).1 != "font"@ by {
        lemma_sorted_members(es, ss[i]);
    }
    lemma_applied_last(seq![], ss, k);
    assert(style_get(seq![], k) is None) by {
        assert(crate::style::decl_pos(seq![], k) == -1);
    }
}

/// What the sort lists comes from the entries.
proof fn lemma_sorted_members(es: Seq<Entry>, e: Entry)
    ensures
        stable_sorted(es).contains(e) ==> es.contains(e),
    decreases es.len(),
{
    if es.len() > 0 {
        let r = stable_sorted(es.drop_last());
        lemma_stable_sorted(es.drop_last(), seq![]);
        lemma_insert_sorted(r, es.last(), seq![]);
        lemma_sorted_members(es.drop_last(), e);
        if stable_sorted(es).contains(e) {
            let i = choose|i: int| 0 <= i < stable_sorted(es).len() && stable_sorted(es)[i] == e;
            assert(insert_sorted(r, es.last())[i] == e);
            if e == es.last() {
                assert(es[es.len() - 1] == e);
            } else {
                assert(r.contains(e));
                let q = choose|q: int| 0 <= q < es.drop_last().len() && es.drop_last()[q] == e;
                assert(es[q] == e);
            }
        }
    }
}

} // verus!

