//! The Slimmer: duplicate stylesheets removed, the lone remaining sheet moved to the root.
use vstd::prelude::*;
use crate::cleanup::{detach_tidy, detached_tidy};
use crate::cli::Common;
use crate::dom::{Doc, DocV, NodeId, AttrV, attrs_view, text_concat, lemma_node_ok, lemma_child, lemma_subtree_valid, lemma_subtree_members, lemma_anc_unfold, lemma_anc_dep};
use crate::strs::str_eq;
use crate::style::{ascii_lower, to_ascii_lowercase, strings_view};
use crate::tools::flattener::{kept_where, all_valid};
use crate::xml::{trim, trimmed};

verus! {

/// The Slimmer's command line.
pub struct SlimmerCli {
    pub common: Common,
    /// The notebook page Inkscape reports; unused.
    pub tab: String,
    pub dedupstyles: bool,
    pub removeempty: bool,
    pub collapsegroups: bool,
    pub pruneunused: bool,
    pub mergedefs: bool,
    /// Significant digits for path and shape coordinates; 0 keeps them as written.
    pub precision: u8,
    /// Show the report dialog.
    pub report: bool,
}

/// What a run did; every counter feeds one report line.
pub struct Report {
    pub sheets_removed: usize,
    pub sheet_moved: bool,
    pub empty_removed: usize,
    pub wrappers_collapsed: usize,
    pub defs_pruned: usize,
    pub prune_rounds: usize,
    pub containers_removed: usize,
    pub defs_merged: usize,
    pub attrs_repointed: usize,
    pub numbers_rounded: usize,
    /// Extra lines: a skipped step and why.
    pub notes: Vec<String>,
}

impl Report {
    /// Something was removed, moved, merged or rounded.
    pub fn changed(&self) -> (r: bool)
        ensures
            r == (self.sheet_moved || self.sheets_removed + self.empty_removed + self.wrappers_collapsed
                + self.defs_pruned + self.containers_removed + self.defs_merged + self.numbers_rounded > 0),
    {
        self.sheet_moved || self.sheets_removed > 0 || self.empty_removed > 0 || self.wrappers_collapsed > 0
            || self.defs_pruned > 0 || self.containers_removed > 0 || self.defs_merged > 0
            || self.numbers_rounded > 0
    }

    pub fn new() -> (r: Report)
        ensures
            r.sheets_removed == 0 && !r.sheet_moved && r.empty_removed == 0 && r.wrappers_collapsed == 0,
            r.defs_pruned == 0 && r.prune_rounds == 0 && r.containers_removed == 0,
            r.defs_merged == 0 && r.attrs_repointed == 0 && r.numbers_rounded == 0,
            r.notes@.len() == 0,
    {
        Report {
            sheets_removed: 0,
            sheet_moved: false,
            empty_removed: 0,
            wrappers_collapsed: 0,
            defs_pruned: 0,
            prune_rounds: 0,
            containers_removed: 0,
            defs_merged: 0,
            attrs_repointed: 0,
            numbers_rounded: 0,
            notes: Vec::new(),
        }
    }
}

pub open spec fn is_style_el(d: DocV) -> spec_fn(NodeId) -> bool {
    |n: NodeId| d.is_element(n) && d.tag(n) == "style"@
}

/// The `<style>` elements under the root `<svg>`, in document order.
pub open spec fn style_elements(d: DocV) -> Seq<NodeId> {
    kept_where(d.subtree(d.svg), is_style_el(d))
}

/// An attribute a plain sheet may carry: `id`, or `type="text/css"`.
pub open spec fn plain_attr(a: AttrV) -> bool {
    a.name == "id"@ || (a.name == "type"@ && ascii_lower(trimmed(a.value)) == "text/css"@)
}

/// What a sheet is compared by: its text, trimmed.
pub open spec fn sheet_key(d: DocV, s: NodeId) -> Seq<char> {
    trimmed(text_concat(d, d.subtree(s)))
}

/// A sheet that may be merged: plain attributes and no `@` rule.
pub open spec fn mergeable(d: DocV) -> spec_fn(NodeId) -> bool {
    |s: NodeId| (forall|i: int| 0 <= i < d.attrs(s).len() ==> #[trigger] plain_attr(d.attrs(s)[i]))
        && !sheet_key(d, s).contains('@')
}

/// Sheets whose only attributes are `id` and `type="text/css"` (the value in any ASCII case,
/// surrounding whitespace aside) and whose text holds no `@` rule are merged; any other
/// attribute keeps a sheet out.
pub proof fn law_plain_sheets_merge(d: DocV, s: NodeId)
    ensures
        (forall|i: int| 0 <= i < d.attrs(s).len() ==> #[trigger] d.attrs(s)[i].name == "id"@
            || (d.attrs(s)[i].name == "type"@ && ascii_lower(trimmed(d.attrs(s)[i].value)) == "text/css"@))
            && !sheet_key(d, s).contains('@') ==> mergeable(d)(s),
        (exists|i: int| 0 <= i < d.attrs(s).len() && #[trigger] d.attrs(s)[i].name != "id"@ && d.attrs(s)[i].name != "type"@)
            ==> !mergeable(d)(s),
{
    if exists|i: int| 0 <= i < d.attrs(s).len() && #[trigger] d.attrs(s)[i].name != "id"@ && d.attrs(s)[i].name != "type"@ {
        let i = choose|i: int| 0 <= i < d.attrs(s).len() && #[trigger] d.attrs(s)[i].name != "id"@ && d.attrs(s)[i].name != "type"@;
        assert(!plain_attr(d.attrs(s)[i]));
    }
    if (forall|i: int| 0 <= i < d.attrs(s).len() ==> #[trigger] d.attrs(s)[i].name == "id"@
        || (d.attrs(s)[i].name == "type"@ && ascii_lower(trimmed(d.attrs(s)[i].value)) == "text/css"@)) {
        assert forall|i: int| 0 <= i < d.attrs(s).len() implies #[trigger] plain_attr(d.attrs(s)[i]) by {
            assert(d.attrs(s)[i].name == "id"@ || (d.attrs(s)[i].name == "type"@ && ascii_lower(trimmed(d.attrs(s)[i].value)) == "text/css"@));
        }
    }
}

/// A later mergeable sheet has the same text.
pub open spec fn has_later_copy(d: DocV, el: Seq<NodeId>, i: int) -> bool {
    exists|j: int| i < j < el.len() && #[trigger] sheet_key(d, el[j]) == sheet_key(d, el[i])
}

/// The first `k` mergeable sheets of `el` that have a later copy, detached one after the other.
pub open spec fn copies_removed(d0: DocV, d: DocV, el: Seq<NodeId>, k: int) -> DocV
    decreases k,
{
    if k <= 0 || k > el.len() {
        d
    } else {
        let d1 = copies_removed(d0, d, el, k - 1);
        if has_later_copy(d0, el, k - 1) {
            detached_tidy(d1, el[k - 1])
        } else {
            d1
        }
    }
}

pub open spec fn copies_count(d0: DocV, el: Seq<NodeId>, k: int) -> nat
    decreases k,
{
    if k <= 0 || k > el.len() {
        0
    } else {
        copies_count(d0, el, k - 1) + if has_later_copy(d0, el, k - 1) {
            1nat
        } else {
            0nat
        }
    }
}

/// The first element child of `n`.
pub open spec fn first_element_from(d: DocV, cs: Seq<NodeId>, i: int) -> Option<NodeId>
    decreases cs.len() - i,
{
    if i < 0 || i >= cs.len() {
        None
    } else if d.is_element(cs[i]) {
        Some(cs[i])
    } else {
        first_element_from(d, cs, i + 1)
    }
}

/// The lone remaining sheet, when it is not directly under the root `<svg>`, moved to its front.
pub open spec fn lone_sheet_moved(d: DocV) -> (DocV, bool) {
    let rem = style_elements(d);
    if rem.len() == 1 && d.parent(rem[0]) != Some(d.svg) && rem[0] != d.svg {
        let only = rem[0];
        match first_element_from(d, d.children(d.svg), 0) {
            Some(f) => if f != only {
                (d.inserted_before(only, f), true)
            } else {
                (d.appended(d.svg, only), true)
            },
            None => (d.appended(d.svg, only), true),
        }
    } else {
        (d, false)
    }
}

/// `<style>` elements with identical text collapse onto the last copy (later sheets win ties, so
/// the last copy decides); sheets with other attributes or `@` rules are left alone. A lone
/// remaining sheet moves to the front of the root (unless it is the root itself). The result: the document, how many sheets
/// went, whether the lone one moved.
pub open spec fn stylesheets_deduped(d: DocV) -> (DocV, nat, bool) {
    let el = kept_where(style_elements(d), mergeable(d));
    let d1 = copies_removed(d, d, el, el.len() as int);
    let (d2, moved) = lone_sheet_moved(d1);
    (d2, copies_count(d, el, el.len() as int), moved)
}

/// Only `id` and `type="text/css"` (any ASCII case, surrounding whitespace aside) on a sheet.
pub open spec fn plain_sheet_attrs(d: DocV, s: NodeId) -> bool {
    forall|i: int| 0 <= i < d.attrs(s).len() ==> #[trigger] d.attrs(s)[i].name == "id"@
        || (d.attrs(s)[i].name == "type"@ && ascii_lower(trimmed(d.attrs(s)[i].value)) == "text/css"@)
}

/// Two sheets with the same text, nothing but `id` and `type="text/css"` on them and no `@`
/// rule, collapse into one: the first goes.
pub proof fn law_identical_plain_sheets_collapse(d: DocV, s1: NodeId, s2: NodeId)
    requires
        style_elements(d) == seq![s1, s2],
        plain_sheet_attrs(d, s1),
        plain_sheet_attrs(d, s2),
        !sheet_key(d, s1).contains('@'),
        sheet_key(d, s1) == sheet_key(d, s2),
    ensures
        stylesheets_deduped(d).1 == 1,
{
    law_plain_sheets_merge(d, s1);
    law_plain_sheets_merge(d, s2);
    let ss = seq![s1, s2];
    assert(ss.drop_last() =~= seq![s1]);
    assert(seq![s1].drop_last() =~= Seq::<NodeId>::empty());
    assert(mergeable(d)(s1));
    assert(mergeable(d)(s2));
    assert(kept_where(Seq::<NodeId>::empty(), mergeable(d)) =~= Seq::<NodeId>::empty());
    assert(kept_where(seq![s1], mergeable(d)) =~= seq![s1]);
    let el = kept_where(ss, mergeable(d));
    assert(el =~= seq![s1, s2]);
    assert(has_later_copy(d, el, 0)) by {
        assert(sheet_key(d, el[1]) == sheet_key(d, el[0]));
    }
    assert(!has_later_copy(d, el, 1));
    assert(copies_count(d, el, 0) == 0);
    assert(copies_count(d, el, 1) == 1);
    assert(copies_count(d, el, 2) == 1);
}

/// What `kept_where` keeps from position `from` on is in the list.
proof fn lemma_kept_member(ns: Seq<NodeId>, keep: spec_fn(NodeId) -> bool, from: int)
    ensures
        forall|i: int| 0 <= i < kept_where(ns, keep).len() ==> ns.contains(#[trigger] kept_where(ns, keep)[i]),
    decreases ns.len(),
{
    if ns.len() > 0 {
        lemma_kept_member(ns.drop_last(), keep, from);
        let r = kept_where(ns.drop_last(), keep);
        assert forall|i: int| 0 <= i < kept_where(ns, keep).len() implies ns.contains(#[trigger] kept_where(ns, keep)[i]) by {
            if i < r.len() {
                assert(kept_where(ns, keep)[i] == r[i]);
                assert(ns.drop_last().contains(r[i]));
                let j = choose|j: int| 0 <= j < ns.drop_last().len() && ns.drop_last()[j] == r[i];
                assert(ns[j] == r[i]);
            } else {
                assert(ns[ns.len() - 1] == ns.last());
            }
        }
    }
}

fn style_elements_exec(doc: &Doc) -> (r: Vec<NodeId>)
    requires
        doc.wf(),
    ensures
        r@ == style_elements(doc@),
        all_valid(doc@, r@),
{
    let ds = doc.descendants(doc.svg());
    proof {
        lemma_subtree_valid(doc@, doc@.svg);
    }
    let mut out: Vec<NodeId> = Vec::new();
    let mut i: usize = 0;
    while i < ds.len()
        invariant
            doc.wf(),
            ds@ == doc@.subtree(doc@.svg),
            forall|k: int| 0 <= k < ds@.len() ==> doc@.valid(#[trigger] ds@[k]),
            i <= ds@.len(),
            out@ == kept_where(ds@.subrange(0, i as int), is_style_el(doc@)),
            all_valid(doc@, out@),
        decreases ds@.len() - i,
    {
        proof {
            assert(ds@.subrange(0, i + 1).drop_last() =~= ds@.subrange(0, i as int));
            assert(doc@.valid(ds@[i as int]));
        }
        let n = ds[i];
        if doc.is_element(n) && str_eq(doc.tag(n), "style") {
            out.push(n);
        }
        i = i + 1;
    }
    proof {
        assert(ds@.subrange(0, ds@.len() as int) =~= ds@);
    }
    out
}

fn is_plain(doc: &Doc, s: NodeId) -> (r: bool)
    requires
        doc@.valid(s),
    ensures
        r == forall|i: int| 0 <= i < doc@.attrs(s).len() ==> #[trigger] plain_attr(doc@.attrs(s)[i]),
{
    let attrs = doc.attrs(s);
    let mut i: usize = 0;
    while i < attrs.len()
        invariant
            attrs_view(attrs@) == doc@.attrs(s),
            i <= attrs@.len(),
            forall|j: int| 0 <= j < i ==> #[trigger] plain_attr(doc@.attrs(s)[j]),
        decreases attrs@.len() - i,
    {
        let a = &attrs[i];
        proof {
            assert(doc@.attrs(s)[i as int] == a@);
        }
        let ok = if str_eq(a.name.as_str(), "id") {
            true
        } else if str_eq(a.name.as_str(), "type") {
            let t = trim(a.value.as_str());
            let l = to_ascii_lowercase(t.as_str());
            str_eq(l.as_str(), "text/css")
        } else {
            false
        };
        if !ok {
            proof {
                assert(!plain_attr(doc@.attrs(s)[i as int]));
            }
            return false;
        }
        i = i + 1;
    }
    true
}

fn has_at(s: &str) -> (r: bool)
    ensures
        r == s@.contains('@'),
{
    let cs = crate::strs::chars_of(s);
    let mut i: usize = 0;
    while i < cs.len()
        invariant
            cs@ == s@,
            i <= cs@.len(),
            forall|j: int| 0 <= j < i ==> cs@[j] != '@',
        decreases cs@.len() - i,
    {
        if cs[i] == '@' {
            return true;
        }
        i = i + 1;
    }
    false
}

/// Removes sheets whose text a later sheet repeats; moves a lone remaining sheet to the front
/// of the root. Returns (removed, moved).
pub fn dedup_stylesheets(doc: &mut Doc) -> (r: (usize, bool))
    requires
        old(doc).wf(),
    ensures
        final(doc).wf(),
        (final(doc)@, r.0 as nat, r.1) == stylesheets_deduped(old(doc)@),
{
    let ghost d0 = doc@;
    let styles = style_elements_exec(doc);
    let mut el: Vec<NodeId> = Vec::new();
    let mut keys: Vec<String> = Vec::new();
    let mut i: usize = 0;
    while i < styles.len()
        invariant
            doc@ == d0,
            doc.wf(),
            styles@ == style_elements(d0),
            all_valid(d0, styles@),
            i <= styles@.len(),
            el@ == kept_where(styles@.subrange(0, i as int), mergeable(d0)),
            keys@.len() == el@.len(),
            forall|k: int| 0 <= k < el@.len() ==> #[trigger] keys@[k]@ == sheet_key(d0, el@[k]),
            all_valid(d0, el@),
        decreases styles@.len() - i,
    {
        let s = styles[i];
        proof {
            assert(styles@.subrange(0, i + 1).drop_last() =~= styles@.subrange(0, i as int));
            assert(d0.valid(styles@[i as int]));
        }
        let plain = is_plain(doc, s);
        let text = doc.text_content(s);
        let key = trim(text.as_str());
        if plain && !has_at(key.as_str()) {
            el.push(s);
            keys.push(key);
        }
        i = i + 1;
    }
    proof {
        assert(styles@.subrange(0, styles@.len() as int) =~= styles@);
    }
    let mut removed: usize = 0;
    let mut k: usize = 0;
    while k < el.len()
        invariant
            doc.wf(),
            el@ == kept_where(style_elements(d0), mergeable(d0)),
            keys@.len() == el@.len(),
            forall|q: int| 0 <= q < el@.len() ==> #[trigger] keys@[q]@ == sheet_key(d0, el@[q]),
            all_valid(d0, el@),
            k <= el@.len(),
            doc@.nodes.len() == d0.nodes.len(),
            doc@ == copies_removed(d0, d0, el@, k as int),
            removed == copies_count(d0, el@, k as int),
            removed <= k,
        decreases el@.len() - k,
    {
        let mut later = false;
        let mut j = k + 1;
        while j < el.len()
            invariant
                k < el@.len(),
                keys@.len() == el@.len(),
                forall|q: int| 0 <= q < el@.len() ==> #[trigger] keys@[q]@ == sheet_key(d0, el@[q]),
                k + 1 <= j <= el@.len(),
                later == exists|q: int| k < q < j && #[trigger] sheet_key(d0, el@[q]) == sheet_key(d0, el@[k as int]),
            decreases el@.len() - j,
        {
            if str_eq(keys[j].as_str(), keys[k].as_str()) {
                later = true;
            }
            proof {
                assert(keys@[j as int]@ == sheet_key(d0, el@[j as int]));
                assert(keys@[k as int]@ == sheet_key(d0, el@[k as int]));
            }
            j = j + 1;
        }
        proof {
            assert(later == has_later_copy(d0, el@, k as int));
            assert(d0.valid(el@[k as int]));
        }
        if later {
            let ghost dd = doc@;
            detach_tidy(doc, el[k]);
            removed = removed + 1;
        }
        k = k + 1;
    }
    let svg = doc.svg();
    let remaining = style_elements_exec(doc);
    let mut moved = false;
    if remaining.len() == 1 {
        let only = remaining[0];
        if doc.parent(only) != Some(svg) && only != svg {
            proof {
                lemma_kept_member(doc@.subtree(doc@.svg), is_style_el(doc@), 0);
                lemma_subtree_members(doc@, svg);
                assert(doc@.anc_or_self(svg, only));
                if doc@.anc_or_self(only, svg) {
                    lemma_anc_dep(doc@, only, svg);
                    lemma_anc_dep(doc@, svg, only);
                }
                assert(!doc@.anc_or_self(only, svg));
                lemma_node_ok(doc@, 0);
            }
            let cs = doc.children(svg);
            proof {
                assert forall|k: int| 0 <= k < cs@.len() implies doc@.valid(#[trigger] cs@[k]) by {
                    lemma_child(doc@, svg, k);
                }
            }
            let mut q: usize = 0;
            while q < cs.len() && !doc.is_element(cs[q])
                invariant
                    doc.wf(),
                    cs@ == doc@.children(doc@.svg),
                    forall|k: int| 0 <= k < cs@.len() ==> doc@.valid(#[trigger] cs@[k]),
                    svg == doc@.svg,
                    q <= cs@.len(),
                    first_element_from(doc@, cs@, q as int) == first_element_from(doc@, cs@, 0),
                decreases cs@.len() - q,
            {
                proof {
                    lemma_child(doc@, svg, q as int);
                }
                q = q + 1;
            }
            if q < cs.len() && cs[q] != only {
                let f = cs[q];
                proof {
                    lemma_child(doc@, svg, q as int);
                    lemma_anc_unfold(doc@, only, f);
                }
                doc.insert_before(only, f);
            } else {
                doc.append_child(svg, only);
            }
            moved = true;
        }
    }
    (removed, moved)
}

/// Runs the enabled steps in order and reports what they did.
pub fn slim(doc: &mut Doc, o: &SlimmerCli) -> (r: Report)
    requires
        old(doc).wf(),
    ensures
        final(doc).wf(),
        o.dedupstyles ==> (final(doc)@, r.sheets_removed as nat, r.sheet_moved) == stylesheets_deduped(old(doc)@),
        !o.dedupstyles ==> final(doc)@ == old(doc)@ && r.sheets_removed == 0 && !r.sheet_moved,
        r.empty_removed == 0 && r.wrappers_collapsed == 0 && r.defs_pruned == 0 && r.prune_rounds == 0,
        r.containers_removed == 0 && r.defs_merged == 0 && r.attrs_repointed == 0 && r.numbers_rounded == 0,
        r.notes@.len() == 0,
{
    let mut r = Report::new();
    if o.dedupstyles {
        let (n, moved) = dedup_stylesheets(doc);
        r.sheets_removed = n;
        r.sheet_moved = moved;
    }
    r
}

} // verus!
