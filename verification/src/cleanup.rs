//! Housekeeping: `url(#id)` references, deleting emptied ancestors, dropping references to
//! deleted ids, collecting unreferenced clips, stray whitespace text.
use vstd::prelude::*;
use crate::dom::{Doc, DocV, NodeId, lemma_node_ok, lemma_subtree_valid, attrs_view, text_concat};
use crate::strs::{str_eq, chars_of, string_from, slice_range, is_alphanumeric, alphanumeric};
use crate::xml::{trimmed, trim};
use crate::style::{Style, Decls, style_get, style_remove, style_parsed, lower_char, strings_view};
use crate::sheet::contains_string;
use crate::cascade::style_map_written;

verus! {

// ---------------------------------------------------------------------------------------------
// Id lists (each id at most once)

/// `items` added to `out` in order, each unless already there.
pub open spec fn added(out: Seq<Seq<char>>, items: Seq<Seq<char>>) -> Seq<Seq<char>>
    decreases items.len(),
{
    if items.len() == 0 {
        out
    } else {
        let o = added(out, items.drop_last());
        if o.contains(items.last()) {
            o
        } else {
            o.push(items.last())
        }
    }
}

/// Adds `s` unless already present.
pub fn add_id(out: &mut Vec<String>, s: String)
    ensures
        strings_view(final(out)@) == added(strings_view(old(out)@), seq![s@]),
{
    let ghost o = strings_view(out@);
    proof {
        assert(seq![s@].drop_last() =~= Seq::<Seq<char>>::empty());
        assert(added(o, Seq::<Seq<char>>::empty()) == o);
        assert(added(o, seq![s@]) == if o.contains(s@) { o } else { o.push(s@) });
    }
    if !contains_string(out, s.as_str()) {
        let ghost sv = s@;
        out.push(s);
        proof {
            assert(strings_view(out@) =~= o.push(sv));
        }
    }
}

// ---------------------------------------------------------------------------------------------
// url(#id)

/// `url(#id)` (surrounding whitespace allowed) to `id`, trimmed.
pub open spec fn url_id_of(v: Seq<char>) -> Option<Seq<char>> {
    let t = trimmed(v);
    if t.len() >= 5 && t.subrange(0, 5) == "url(#"@ {
        let r = t.subrange(5, t.len() as int);
        if r.len() >= 1 && r.last() == ')' {
            Some(trimmed(r.drop_last()))
        } else {
            None
        }
    } else {
        None
    }
}

/// `url(#id)` to `id`.
pub fn url_id(v: &str) -> (r: Option<String>)
    ensures
        r matches Some(x) ==> url_id_of(v@) == Some(x@),
        r is None ==> url_id_of(v@) is None,
{
    let t = trim(v);
    let cs = chars_of(t.as_str());
    proof {
        reveal_strlit("url(#");
    }
    if cs.len() < 5 {
        return None;
    }
    let head = string_from(slice_range(cs.as_slice(), 0, 5));
    if !str_eq(head.as_str(), "url(#") {
        return None;
    }
    if cs.len() < 6 || cs[cs.len() - 1] != ')' {
        return None;
    }
    let inner = string_from(slice_range(cs.as_slice(), 5, cs.len() - 1));
    proof {
        assert(inner@ =~= t@.subrange(5, t@.len() as int).drop_last());
    }
    Some(trim(inner.as_str()))
}

/// Whether `n`'s attribute `att` points (`url(#id)`) at an id of `deleted`.
pub open spec fn points_at_deleted(v: Option<Seq<char>>, deleted: Seq<Seq<char>>) -> bool {
    v matches Some(val) && (url_id_of(val) matches Some(id) && deleted.contains(id))
}

/// `haystack` contains `needle` ignoring ASCII case.
pub open spec fn contains_ci(h: Seq<char>, n: Seq<char>) -> bool {
    exists|i: int| 0 <= i && i + n.len() <= h.len() && #[trigger] matches_ci_at(h, n, i)
}

pub open spec fn matches_ci_at(h: Seq<char>, n: Seq<char>, i: int) -> bool {
    forall|j: int| 0 <= j < n.len() ==> lower_char(#[trigger] h[i + j]) == lower_char(n[j])
}

fn matches_ci_at_exec(h: &Vec<char>, n: &Vec<char>, i: usize) -> (r: bool)
    requires
        i + n@.len() <= h@.len(),
    ensures
        r == matches_ci_at(h@, n@, i as int),
{
    let hl = h.len();
    let mut j: usize = 0;
    while j < n.len()
        invariant
            hl == h@.len(),
            i + n@.len() <= h@.len(),
            j <= n@.len(),
            forall|k: int| 0 <= k < j ==> lower_char(#[trigger] h@[i + k]) == lower_char(n@[k]),
        decreases n@.len() - j,
    {
        let a = h[i + j];
        let b = n[j];
        let la = if 'A' <= a && a <= 'Z' { ((a as u32) + 32) as u8 as char } else { a };
        let lb = if 'A' <= b && b <= 'Z' { ((b as u32) + 32) as u8 as char } else { b };
        if la != lb {
            assert(lower_char(h@[i + j]) != lower_char(n@[j as int]));
            return false;
        }
        j = j + 1;
    }
    true
}

/// `haystack` contains `needle` ignoring ASCII case.
fn contains_ignore_ascii_case(haystack: &str, needle: &str) -> (r: bool)
    ensures
        r == contains_ci(haystack@, needle@),
{
    let h = chars_of(haystack);
    let n = chars_of(needle);
    if n.len() > h.len() {
        return false;
    }
    let mut i: usize = 0;
    let last = h.len() - n.len();
    while i <= last
        invariant
            last == h@.len() - n@.len(),
            h@ == haystack@,
            n@ == needle@,
            n@.len() <= h@.len(),
            i <= h@.len() - n@.len() + 1,
            forall|k: int| 0 <= k < i ==> !#[trigger] matches_ci_at(h@, n@, k),
        decreases h@.len() - i,
    {
        if matches_ci_at_exec(&h, &n, i) {
            return true;
        }
        if i == last {
            return false;
        }
        i = i + 1;
    }
    false
}

// ---------------------------------------------------------------------------------------------
// Dropping references to deleted ids

/// A style with its `clip-path`/`mask` entries that point at a deleted id removed, and whether
/// any went.
pub open spec fn style_undangled(st: Decls, deleted: Seq<Seq<char>>) -> (Decls, bool) {
    let c = points_at_deleted(style_get(st, "clip-path"@), deleted);
    let st1 = if c {
        style_remove(st, "clip-path"@)
    } else {
        st
    };
    let m = points_at_deleted(style_get(st1, "mask"@), deleted);
    let st2 = if m {
        style_remove(st1, "mask"@)
    } else {
        st1
    };
    (st2, c || m)
}

/// One element's `clip-path`/`mask` attributes and inline-style entries that point at a deleted
/// id removed.
pub open spec fn undangled(d: DocV, deleted: Seq<Seq<char>>, n: NodeId) -> DocV {
    let d1 = if points_at_deleted(d.attr(n, "clip-path"@), deleted) {
        d.attr_removed(n, "clip-path"@)
    } else {
        d
    };
    let d2 = if points_at_deleted(d1.attr(n, "mask"@), deleted) {
        d1.attr_removed(n, "mask"@)
    } else {
        d1
    };
    match d2.attr(n, "style"@) {
        Some(inline) => if !(contains_ci(inline, "clip-path"@) || contains_ci(inline, "mask"@)) {
            d2
        } else {
            let (st, changed) = style_undangled(style_parsed(inline), deleted);
            if changed {
                style_map_written(d2, n, st)
            } else {
                d2
            }
        },
        None => d2,
    }
}

pub open spec fn undangled_all(d: DocV, deleted: Seq<Seq<char>>, ns: Seq<NodeId>) -> DocV
    decreases ns.len(),
{
    if ns.len() == 0 {
        d
    } else {
        undangled(undangled_all(d, deleted, ns.drop_last()), deleted, ns.last())
    }
}

/// The elements among `ns`.
pub open spec fn elements_of(d: DocV, ns: Seq<NodeId>) -> Seq<NodeId>
    decreases ns.len(),
{
    if ns.len() == 0 {
        seq![]
    } else if d.is_element(ns.last()) {
        elements_of(d, ns.drop_last()).push(ns.last())
    } else {
        elements_of(d, ns.drop_last())
    }
}

/// The elements of the document under (and including) the root `<svg>`.
pub open spec fn svg_elements(d: DocV) -> Seq<NodeId> {
    elements_of(d, d.subtree(d.svg))
}

impl Doc {
    /// The elements under (and including) the root `<svg>`, in document order.
    pub fn svg_elements(&self) -> (r: Vec<NodeId>)
        requires
            self.wf(),
        ensures
            r@ == svg_elements(self@),
            forall|i: int| 0 <= i < r@.len() ==> self@.valid(#[trigger] r@[i]) && self@.is_element(r@[i]),
    {
        let ds = self.descendants(self.svg());
        proof {
            lemma_subtree_valid(self@, self@.svg);
        }
        let mut out: Vec<NodeId> = Vec::new();
        let mut i: usize = 0;
        while i < ds.len()
            invariant
                self.wf(),
                ds@ == self@.subtree(self@.svg),
                forall|j: int| 0 <= j < ds@.len() ==> self@.valid(#[trigger] ds@[j]),
                i <= ds@.len(),
                out@ == elements_of(self@, ds@.subrange(0, i as int)),
                forall|j: int| 0 <= j < out@.len() ==> self@.valid(#[trigger] out@[j]) && self@.is_element(out@[j]),
            decreases ds@.len() - i,
        {
            proof {
                assert(ds@.subrange(0, i + 1).drop_last() =~= ds@.subrange(0, i as int));
            }
            if self.is_element(ds[i]) {
                out.push(ds[i]);
            }
            i = i + 1;
        }
        proof {
            assert(ds@.subrange(0, ds@.len() as int) =~= ds@);
        }
        out
    }

    /// Whether attribute `att` of `n` points at a deleted id.
    fn attr_dead(&self, n: NodeId, att: &str, deleted: &Vec<String>) -> (r: bool)
        requires
            self@.valid(n),
        ensures
            r == points_at_deleted(self@.attr(n, att@), strings_view(deleted@)),
    {
        match self.attr(n, att) {
            Some(v) => match url_id(v) {
                Some(id) => contains_string(deleted, id.as_str()),
                None => false,
            },
            None => false,
        }
    }

    fn undangle(&mut self, n: NodeId, deleted: &Vec<String>)
        requires
            old(self).wf(),
            old(self)@.valid(n),
        ensures
            final(self).wf(),
            final(self)@ == undangled(old(self)@, strings_view(deleted@), n),
            final(self)@.nodes.len() == old(self)@.nodes.len(),
    {
        proof {
            reveal_strlit("clip-path");
            reveal_strlit("mask");
            reveal_strlit("style");
        }
        if self.attr_dead(n, "clip-path", deleted) {
            self.remove_attr(n, "clip-path");
        }
        if self.attr_dead(n, "mask", deleted) {
            self.remove_attr(n, "mask");
        }
        let inline = match self.attr(n, "style") {
            Some(s) => s.to_owned(),
            None => {
                return;
            },
        };
        if !(contains_ignore_ascii_case(inline.as_str(), "clip-path") || contains_ignore_ascii_case(inline.as_str(), "mask")) {
            return;
        }
        let mut st = Style::parse(inline.as_str());
        let mut changed = false;
        let dead_clip = match st.get("clip-path") {
            Some(v) => match url_id(v) {
                Some(id) => contains_string(deleted, id.as_str()),
                None => false,
            },
            None => false,
        };
        if dead_clip {
            st.remove("clip-path");
            changed = true;
        }
        let dead_mask = match st.get("mask") {
            Some(v) => match url_id(v) {
                Some(id) => contains_string(deleted, id.as_str()),
                None => false,
            },
            None => false,
        };
        if dead_mask {
            st.remove("mask");
            changed = true;
        }
        if changed {
            self.set_style_map(n, &st);
        }
    }

    /// Removes `clip-path`/`mask` attributes and inline-style entries that reference an id in
    /// `deleted`, so no orphan `url(#…)` survives a deletion.
    pub fn drop_dangling_refs(&mut self, deleted: &Vec<String>)
        requires
            old(self).wf(),
        ensures
            final(self).wf(),
            final(self)@ == if deleted@.len() == 0 {
                old(self)@
            } else {
                undangled_all(old(self)@, strings_view(deleted@), svg_elements(old(self)@))
            },
            final(self)@.nodes.len() == old(self)@.nodes.len(),
    {
        if deleted.len() == 0 {
            return;
        }
        let ghost d0 = self@;
        let nodes = self.svg_elements();
        let mut i: usize = 0;
        while i < nodes.len()
            invariant
                self.wf(),
                self@.nodes.len() == d0.nodes.len(),
                nodes@ == svg_elements(d0),
                forall|j: int| 0 <= j < nodes@.len() ==> d0.valid(#[trigger] nodes@[j]),
                i <= nodes@.len(),
                self@ == undangled_all(d0, strings_view(deleted@), nodes@.subrange(0, i as int)),
            decreases nodes@.len() - i,
        {
            proof {
                assert(nodes@.subrange(0, i + 1).drop_last() =~= nodes@.subrange(0, i as int));
            }
            self.undangle(nodes[i], deleted);
            i = i + 1;
        }
        proof {
            assert(nodes@.subrange(0, nodes@.len() as int) =~= nodes@);
        }
    }
}


// ---------------------------------------------------------------------------------------------
// Layers, attributes, whitespace

/// `inkscape:groupmode="layer"` on a `<g>`: an Inkscape layer, kept even when empty.
pub open spec fn is_layer_spec(d: DocV, n: NodeId) -> bool {
    d.tag(n) == "g"@ && d.attr(n, "inkscape:groupmode"@) == Some("layer"@)
}

/// Whether `n` is an Inkscape layer.
pub fn is_layer(doc: &Doc, n: NodeId) -> (r: bool)
    requires
        doc@.valid(n),
    ensures
        r == is_layer_spec(doc@, n),
{
    proof {
        reveal_strlit("g");
        reveal_strlit("layer");
    }
    if !str_eq(doc.tag(n), "g") {
        return false;
    }
    match doc.attr(n, "inkscape:groupmode") {
        Some(v) => str_eq(v, "layer"),
        None => false,
    }
}

/// The elements among `ns` that carry attribute `name`.
pub open spec fn with_attr(d: DocV, ns: Seq<NodeId>, name: Seq<char>) -> Seq<NodeId>
    decreases ns.len(),
{
    if ns.len() == 0 {
        seq![]
    } else if d.is_element(ns.last()) && d.attr(ns.last(), name) is Some {
        with_attr(d, ns.drop_last(), name).push(ns.last())
    } else {
        with_attr(d, ns.drop_last(), name)
    }
}

/// The document once attribute `name` is removed from each of `ns` in turn.
pub open spec fn attr_stripped(d: DocV, ns: Seq<NodeId>, name: Seq<char>) -> DocV
    decreases ns.len(),
{
    if ns.len() == 0 {
        d
    } else {
        attr_stripped(d, ns.drop_last(), name).attr_removed(ns.last(), name)
    }
}

/// Removes `name` from every element under the root; returns how many attributes went.
pub fn strip_attr(doc: &mut Doc, name: &str) -> (r: usize)
    requires
        old(doc).wf(),
    ensures
        final(doc).wf(),
        r == with_attr(old(doc)@, old(doc)@.subtree(old(doc)@.svg), name@).len(),
        final(doc)@ == attr_stripped(old(doc)@, with_attr(old(doc)@, old(doc)@.subtree(old(doc)@.svg), name@), name@),
{
    let ghost d0 = doc@;
    let ds = doc.descendants(doc.svg());
    proof {
        lemma_subtree_valid(doc@, doc@.svg);
    }
    let mut nodes: Vec<NodeId> = Vec::new();
    let mut i: usize = 0;
    while i < ds.len()
        invariant
            doc.wf(),
            ds@ == doc@.subtree(doc@.svg),
            forall|j: int| 0 <= j < ds@.len() ==> doc@.valid(#[trigger] ds@[j]),
            i <= ds@.len(),
            nodes@ == with_attr(doc@, ds@.subrange(0, i as int), name@),
            forall|j: int| 0 <= j < nodes@.len() ==> doc@.valid(#[trigger] nodes@[j]),
        decreases ds@.len() - i,
    {
        proof {
            assert(ds@.subrange(0, i + 1).drop_last() =~= ds@.subrange(0, i as int));
        }
        if doc.is_element(ds[i]) && doc.attr(ds[i], name).is_some() {
            nodes.push(ds[i]);
        }
        i = i + 1;
    }
    proof {
        assert(ds@.subrange(0, ds@.len() as int) =~= ds@);
    }
    let mut k: usize = 0;
    while k < nodes.len()
        invariant
            doc.wf(),
            doc@.nodes.len() == d0.nodes.len(),
            nodes@ == with_attr(d0, d0.subtree(d0.svg), name@),
            forall|j: int| 0 <= j < nodes@.len() ==> d0.valid(#[trigger] nodes@[j]),
            k <= nodes@.len(),
            doc@ == attr_stripped(d0, nodes@.subrange(0, k as int), name@),
        decreases nodes@.len() - k,
    {
        proof {
            assert(nodes@.subrange(0, k + 1).drop_last() =~= nodes@.subrange(0, k as int));
        }
        doc.remove_attr(nodes[k], name);
        k = k + 1;
    }
    proof {
        assert(nodes@.subrange(0, nodes@.len() as int) =~= nodes@);
    }
    nodes.len()
}

/// Elements whose tail text Inkscape needs.
pub const TAIL_KEEP: [&'static str; 5] = ["tspan", "textPath", "flowPara", "flowRegion", "flowSpan"];

/// Elements whose leading text Inkscape needs.
pub const TEXT_KEEP: [&'static str; 8] = [
    "style",
    "text",
    "tspan",
    "textPath",
    "flowRoot",
    "flowPara",
    "flowRegion",
    "flowSpan",
];

pub open spec fn in_tail_keep(t: Seq<char>) -> bool {
    exists|i: int| 0 <= i < 5 && #[trigger] TAIL_KEEP[i]@ == t
}

pub open spec fn in_text_keep(t: Seq<char>) -> bool {
    exists|i: int| 0 <= i < 8 && #[trigger] TEXT_KEEP[i]@ == t
}

fn tail_keep(t: &str) -> (r: bool)
    ensures
        r == in_tail_keep(t@),
{
    let mut i: usize = 0;
    while i < 5
        invariant
            i <= 5,
            forall|j: int| 0 <= j < i ==> TAIL_KEEP[j]@ != t@,
        decreases 5 - i,
    {
        if str_eq(TAIL_KEEP[i], t) {
            return true;
        }
        i = i + 1;
    }
    false
}

fn text_keep(t: &str) -> (r: bool)
    ensures
        r == in_text_keep(t@),
{
    let mut i: usize = 0;
    while i < 8
        invariant
            i <= 8,
            forall|j: int| 0 <= j < i ==> TEXT_KEEP[j]@ != t@,
        decreases 8 - i,
    {
        if str_eq(TEXT_KEEP[i], t) {
            return true;
        }
        i = i + 1;
    }
    false
}

/// The parent of `n` is a text-bearing element, whose text is content.
pub open spec fn in_text_parent(d: DocV, n: NodeId) -> bool {
    d.parent(n) matches Some(p) && d.is_element(p) && in_text_keep(d.tag(p))
}

/// A text node Inkscape needs: the tail of a text-run element, or (first, or after a comment)
/// text inside a text-bearing element.
pub open spec fn text_kept(d: DocV, t: NodeId) -> bool {
    match d.prev_sibling(t) {
        Some(prev) => if d.is_element(prev) {
            in_tail_keep(d.tag(prev))
        } else {
            in_text_parent(d, t)
        },
        None => in_text_parent(d, t),
    }
}

/// The text nodes among `ns`.
pub open spec fn texts_of(d: DocV, ns: Seq<NodeId>) -> Seq<NodeId>
    decreases ns.len(),
{
    if ns.len() == 0 {
        seq![]
    } else if d.is_text(ns.last()) {
        texts_of(d, ns.drop_last()).push(ns.last())
    } else {
        texts_of(d, ns.drop_last())
    }
}

/// Each of `ts` in turn detached unless Inkscape needs it.
pub open spec fn whitespace_stripped(d: DocV, ts: Seq<NodeId>) -> DocV
    decreases ts.len(),
{
    if ts.len() == 0 {
        d
    } else {
        let d1 = whitespace_stripped(d, ts.drop_last());
        if text_kept(d1, ts.last()) {
            d1
        } else {
            d1.detached(ts.last())
        }
    }
}

impl Doc {
    fn in_text_parent(&self, n: NodeId) -> (r: bool)
        requires
            self.wf(),
            self@.valid(n),
        ensures
            r == in_text_parent(self@, n),
    {
        proof {
            lemma_node_ok(self@, n);
        }
        match self.parent(n) {
            Some(p) => self.is_element(p) && text_keep(self.tag(p)),
            None => false,
        }
    }

    fn text_kept(&self, t: NodeId) -> (r: bool)
        requires
            self.wf(),
            self@.valid(t),
        ensures
            r == text_kept(self@, t),
    {
        match self.prev_sibling(t) {
            Some(prev) => {
                proof {
                    crate::dom_laws::law_sibling_valid(self@, t);
                }
                if self.is_element(prev) {
                    tail_keep(self.tag(prev))
                } else {
                    self.in_text_parent(t)
                }
            },
            None => self.in_text_parent(t),
        }
    }
}

/// Removes every text node that is neither the leading text of a text-bearing element nor the
/// tail of a text-run element: the indentation whitespace an ungroup leaves behind. Text after
/// a comment counts as leading text.
pub fn strip_whitespace(doc: &mut Doc)
    requires
        old(doc).wf(),
    ensures
        final(doc).wf(),
        final(doc)@ == whitespace_stripped(old(doc)@, texts_of(old(doc)@, old(doc)@.subtree(old(doc)@.svg))),
{
    let ghost d0 = doc@;
    let ds = doc.descendants(doc.svg());
    proof {
        lemma_subtree_valid(doc@, doc@.svg);
    }
    let mut texts: Vec<NodeId> = Vec::new();
    let mut i: usize = 0;
    while i < ds.len()
        invariant
            doc.wf(),
            ds@ == doc@.subtree(doc@.svg),
            forall|j: int| 0 <= j < ds@.len() ==> doc@.valid(#[trigger] ds@[j]),
            i <= ds@.len(),
            texts@ == texts_of(doc@, ds@.subrange(0, i as int)),
            forall|j: int| 0 <= j < texts@.len() ==> doc@.valid(#[trigger] texts@[j]),
        decreases ds@.len() - i,
    {
        proof {
            assert(ds@.subrange(0, i + 1).drop_last() =~= ds@.subrange(0, i as int));
        }
        if doc.is_text(ds[i]) {
            texts.push(ds[i]);
        }
        i = i + 1;
    }
    proof {
        assert(ds@.subrange(0, ds@.len() as int) =~= ds@);
    }
    let mut k: usize = 0;
    while k < texts.len()
        invariant
            doc.wf(),
            doc@.nodes.len() == d0.nodes.len(),
            texts@ == texts_of(d0, d0.subtree(d0.svg)),
            forall|j: int| 0 <= j < texts@.len() ==> d0.valid(#[trigger] texts@[j]),
            k <= texts@.len(),
            doc@ == whitespace_stripped(d0, texts@.subrange(0, k as int)),
        decreases texts@.len() - k,
    {
        proof {
            assert(texts@.subrange(0, k + 1).drop_last() =~= texts@.subrange(0, k as int));
        }
        let t = texts[k];
        if !doc.text_kept(t) {
            doc.detach(t);
        }
        k = k + 1;
    }
    proof {
        assert(texts@.subrange(0, texts@.len() as int) =~= texts@);
    }
}

/// `detach(n)` plus the blank text node right before it, unless that text is content (the
/// parent is text-bearing).
pub open spec fn detached_tidy(d: DocV, n: NodeId) -> DocV {
    let d1 = match d.prev_sibling(n) {
        Some(prev) => if d.is_text(prev) && (d.text(prev) matches Some(t) && trimmed(t).len() == 0)
            && !in_text_parent(d, n) {
            d.detached(prev)
        } else {
            d
        },
        None => d,
    };
    d1.detached(n)
}

/// Detaches `n` and the indentation text before it.
pub fn detach_tidy(doc: &mut Doc, n: NodeId)
    requires
        old(doc).wf(),
        old(doc)@.valid(n),
    ensures
        final(doc).wf(),
        final(doc)@ == detached_tidy(old(doc)@, n),
{
    match doc.prev_sibling(n) {
        Some(prev) => {
            proof {
                crate::dom_laws::law_sibling_valid(doc@, n);
            }
            let blank = doc.is_text(prev) && match doc.text(prev) {
                Some(t) => trim(t).as_str().is_empty(),
                None => false,
            };
            let content = doc.in_text_parent(n);
            if blank && !content {
                doc.detach(prev);
            }
        },
        None => {},
    }
    doc.detach(n);
}


// ---------------------------------------------------------------------------------------------
// Splitting on patterns

/// `pat` occurs at `i`.
pub open spec fn at_pat(s: Seq<char>, i: int, pat: Seq<char>) -> bool {
    0 <= i && i + pat.len() <= s.len() && s.subrange(i, i + pat.len()) == pat
}

/// `s` split at each (non-overlapping, leftmost) `pat`, from `i` on; the current piece
/// started at `start`.
pub open spec fn split_pat_from(s: Seq<char>, i: int, start: int, pat: Seq<char>) -> Seq<Seq<char>>
    decreases s.len() - i,
{
    if i < 0 || i >= s.len() || pat.len() == 0 {
        seq![s.subrange(start, s.len() as int)]
    } else if at_pat(s, i, pat) {
        seq![s.subrange(start, i)] + split_pat_from(s, i + pat.len(), i + pat.len(), pat)
    } else {
        split_pat_from(s, i + 1, start, pat)
    }
}

/// `str::split` with a string pattern.
pub open spec fn split_pat(s: Seq<char>, pat: Seq<char>) -> Seq<Seq<char>> {
    split_pat_from(s, 0, 0, pat)
}

fn at_pat_exec(s: &Vec<char>, i: usize, pat: &Vec<char>) -> (r: bool)
    requires
        i <= s@.len(),
    ensures
        r == at_pat(s@, i as int, pat@),
{
    if pat.len() > s.len() - i {
        return false;
    }
    let sl = s.len();
    let mut j: usize = 0;
    while j < pat.len()
        invariant
            sl == s@.len(),
            i + pat@.len() <= s@.len(),
            j <= pat@.len(),
            forall|k: int| 0 <= k < j ==> s@[i + k] == pat@[k],
        decreases pat@.len() - j,
    {
        if s[i + j] != pat[j] {
            proof {
                assert(s@.subrange(i as int, i + pat@.len())[j as int] != pat@[j as int]);
            }
            return false;
        }
        j = j + 1;
    }
    proof {
        assert(s@.subrange(i as int, i + pat@.len()) =~= pat@);
    }
    true
}

/// The pieces of `s` between occurrences of `pat` (non-empty).
pub fn split_on(s: &str, pat: &str) -> (r: Vec<String>)
    requires
        pat@.len() > 0,
    ensures
        strings_view(r@) == split_pat(s@, pat@),
{
    let cs = chars_of(s);
    let ps = chars_of(pat);
    let mut out: Vec<String> = Vec::new();
    let mut start: usize = 0;
    let mut i: usize = 0;
    while i < cs.len()
        invariant
            cs@ == s@,
            ps@ == pat@,
            ps@.len() > 0,
            start <= i <= cs@.len(),
            strings_view(out@) + split_pat_from(cs@, i as int, start as int, ps@) == split_pat(s@, pat@),
        decreases cs@.len() - i,
    {
        if at_pat_exec(&cs, i, &ps) {
            let piece = string_from(slice_range(cs.as_slice(), start, i));
            let ghost o = strings_view(out@);
            out.push(piece);
            proof {
                assert(strings_view(out@) =~= o.push(piece@));
                assert(o + (seq![cs@.subrange(start as int, i as int)] + split_pat_from(cs@, i + ps@.len(), i + ps@.len(), ps@))
                    =~= o.push(piece@) + split_pat_from(cs@, i + ps@.len(), i + ps@.len(), ps@));
            }
            i = i + ps.len();
            start = i;
        } else {
            i = i + 1;
        }
    }
    let piece = string_from(slice_range(cs.as_slice(), start, cs.len()));
    let ghost o = strings_view(out@);
    out.push(piece);
    proof {
        assert(strings_view(out@) =~= o.push(piece@));
        assert(o + seq![cs@.subrange(start as int, cs@.len() as int)] =~= o.push(piece@));
    }
    out
}

/// Adding a run of items one after another is adding their concatenation.
pub proof fn lemma_added_concat(o: Seq<Seq<char>>, a: Seq<Seq<char>>, b: Seq<Seq<char>>)
    ensures
        added(added(o, a), b) == added(o, a + b),
    decreases b.len(),
{
    if b.len() == 0 {
        assert(a + b =~= a);
    } else {
        lemma_added_concat(o, a, b.drop_last());
        assert((a + b).drop_last() =~= a + b.drop_last());
        assert((a + b).last() == b.last());
    }
}

/// Adds every item of `items` to `out`.
fn add_all(out: &mut Vec<String>, items: &Vec<String>)
    ensures
        strings_view(final(out)@) == added(strings_view(old(out)@), strings_view(items@)),
{
    let ghost o = strings_view(out@);
    let ghost iv = strings_view(items@);
    let mut k: usize = 0;
    while k < items.len()
        invariant
            iv == strings_view(items@),
            k <= items@.len(),
            strings_view(out@) == added(o, iv.subrange(0, k as int)),
        decreases items@.len() - k,
    {
        proof {
            assert(iv.subrange(0, k + 1) =~= iv.subrange(0, k as int) + seq![iv[k as int]]);
            lemma_added_concat(o, iv.subrange(0, k as int), seq![iv[k as int]]);
            assert(iv[k as int] == items@[k as int]@);
        }
        add_id(out, items[k].clone());
        k = k + 1;
    }
    proof {
        assert(iv.subrange(0, items@.len() as int) =~= iv);
    }
}

// ---------------------------------------------------------------------------------------------
// Referenced ids

pub open spec fn is_quote(c: char) -> bool {
    c == '\'' || c == '"'
}

/// `s` without leading and trailing quote characters (`trim_matches(['\'', '"'])`).
pub open spec fn unquoted(s: Seq<char>) -> Seq<char> {
    let a = quote_run_end(s, 0);
    let b = quote_run_start(s, s.len() as int);
    if a >= b {
        seq![]
    } else {
        s.subrange(a, b)
    }
}

pub open spec fn quote_run_end(s: Seq<char>, i: int) -> int
    decreases s.len() - i,
{
    if i < 0 || i >= s.len() {
        s.len() as int
    } else if is_quote(s[i]) {
        quote_run_end(s, i + 1)
    } else {
        i
    }
}

pub open spec fn quote_run_start(s: Seq<char>, j: int) -> int
    decreases j,
{
    if j <= 0 || j > s.len() {
        0
    } else if is_quote(s[j - 1]) {
        quote_run_start(s, j - 1)
    } else {
        j
    }
}

fn unquote(s: &str) -> (r: String)
    ensures
        r@ == unquoted(s@),
{
    let cs = chars_of(s);
    let mut a: usize = 0;
    while a < cs.len() && (cs[a] == '\'' || cs[a] == '"')
        invariant
            a <= cs@.len(),
            quote_run_end(cs@, a as int) == quote_run_end(cs@, 0),
        decreases cs@.len() - a,
    {
        a = a + 1;
    }
    let mut b = cs.len();
    while b > 0 && (cs[b - 1] == '\'' || cs[b - 1] == '"')
        invariant
            b <= cs@.len(),
            quote_run_start(cs@, b as int) == quote_run_start(cs@, cs@.len() as int),
        decreases b,
    {
        b = b - 1;
    }
    if a >= b {
        String::new()
    } else {
        string_from(slice_range(cs.as_slice(), a, b))
    }
}

/// The ids `url( … )` pieces name, from piece `k` on (stopping at a piece without `)`).
pub open spec fn url_ids_from(ps: Seq<Seq<char>>, k: int) -> Seq<Seq<char>>
    decreases ps.len() - k,
{
    if k < 0 || k >= ps.len() {
        seq![]
    } else {
        let p = ps[k];
        let e = crate::xml::find_char(p, 0, ')');
        if e < 0 {
            seq![]
        } else {
            let inner = trimmed(unquoted(trimmed(p.subrange(0, e))));
            (if inner.len() > 0 && inner[0] == '#' {
                seq![inner.drop_first()]
            } else {
                seq![]
            }) + url_ids_from(ps, k + 1)
        }
    }
}

/// Every `#id` inside `url( … )`, tolerating whitespace and quotes (`url( '#a' )`).
pub open spec fn url_ids_of(v: Seq<char>) -> Seq<Seq<char>> {
    url_ids_from(split_pat(v, "url("@), 1)
}

/// Adds every `#id` inside `url( … )` in `v`.
pub fn url_ids(v: &str, out: &mut Vec<String>)
    ensures
        strings_view(final(out)@) == added(strings_view(old(out)@), url_ids_of(v@)),
{
    let found = url_ids_list(v);
    add_all(out, &found);
}

/// Every `#id` inside `url( … )` in `v`, in order.
fn url_ids_list(v: &str) -> (r: Vec<String>)
    ensures
        strings_view(r@) == url_ids_of(v@),
{
    proof {
        reveal_strlit("url(");
    }
    let pieces = split_on(v, "url(");
    let ghost pv = strings_view(pieces@);
    let mut found: Vec<String> = Vec::new();
    let mut k: usize = 1;
    proof {
        if pieces@.len() <= 1 {
            assert(url_ids_from(pv, 1) =~= Seq::<Seq<char>>::empty());
        }
        assert(strings_view(found@) =~= Seq::<Seq<char>>::empty());
    }
    while k < pieces.len()
        invariant
            pv == strings_view(pieces@),
            pv == split_pat(v@, "url("@),
            1 <= k,
            url_ids_of(v@) == strings_view(found@) + url_ids_from(pv, k as int),
        decreases pieces@.len() - k,
    {
        proof {
            assert(pv[k as int] == pieces@[k as int]@);
        }
        let piece = chars_of(pieces[k].as_str());
        let mut e: usize = 0;
        while e < piece.len() && piece[e] != ')'
            invariant
                e <= piece@.len(),
                crate::xml::find_char(piece@, e as int, ')') == crate::xml::find_char(piece@, 0, ')'),
            decreases piece@.len() - e,
        {
            e = e + 1;
        }
        if e >= piece.len() {
            proof {
                assert(url_ids_from(pv, k as int) =~= Seq::<Seq<char>>::empty());
                assert(strings_view(found@) + Seq::<Seq<char>>::empty() =~= strings_view(found@));
            }
            return found;
        }
        let head = string_from(slice_range(piece.as_slice(), 0, e));
        let inner = trim(unquote(trim(head.as_str()).as_str()).as_str());
        let ic = chars_of(inner.as_str());
        let ghost f0 = strings_view(found@);
        if ic.len() > 0 && ic[0] == '#' {
            let id = string_from(slice_range(ic.as_slice(), 1, ic.len()));
            proof {
                assert(id@ =~= inner@.drop_first());
            }
            found.push(id);
            proof {
                assert(strings_view(found@) =~= f0.push(inner@.drop_first()));
                assert(f0 + (seq![inner@.drop_first()] + url_ids_from(pv, k + 1)) =~= strings_view(found@) + url_ids_from(pv, k + 1));
            }
        } else {
            proof {
                assert(f0 + (Seq::<Seq<char>>::empty() + url_ids_from(pv, k + 1)) =~= f0 + url_ids_from(pv, k + 1));
            }
        }
        k = k + 1;
    }
    proof {
        assert(url_ids_from(pv, k as int) =~= Seq::<Seq<char>>::empty());
        assert(strings_view(found@) + Seq::<Seq<char>>::empty() =~= strings_view(found@));
    }
    found
}

/// A character that continues a CSS `#ident`.
pub open spec fn is_run_char(c: char) -> bool {
    alphanumeric(c) || c == '-' || c == '_' || c == '.' || c == ':' || (c as u32) >= 128
}

/// End of the run of identifier characters at the start of `p` (from `i` on).
pub open spec fn run_end(p: Seq<char>, i: int) -> int
    decreases p.len() - i,
{
    if i < 0 || i >= p.len() {
        p.len() as int
    } else if is_run_char(p[i]) {
        run_end(p, i + 1)
    } else {
        i
    }
}

/// The run cut before each `.` and `:` past its first character, from position `i` on.
pub open spec fn run_cuts(run: Seq<char>, i: int) -> Seq<Seq<char>>
    decreases run.len() - i,
{
    if i < 1 || i >= run.len() {
        seq![]
    } else {
        (if run[i] == '.' || run[i] == ':' {
            seq![run.subrange(0, i)]
        } else {
            seq![]
        }) + run_cuts(run, i + 1)
    }
}

/// The `#ident` readings of the pieces from `k` on.
pub open spec fn css_ids_from(ps: Seq<Seq<char>>, k: int) -> Seq<Seq<char>>
    decreases ps.len() - k,
{
    if k < 0 || k >= ps.len() {
        seq![]
    } else {
        let run = ps[k].subrange(0, run_end(ps[k], 0));
        (if run.len() == 0 {
            seq![]
        } else {
            run_cuts(run, 1) + seq![run]
        }) + css_ids_from(ps, k + 1)
    }
}

/// Every `#ident` in CSS text, plus, for `#id.class` / `#id:hover`, the ident cut at each `.`
/// and `:`.
pub open spec fn css_idents_of(css: Seq<char>) -> Seq<Seq<char>> {
    css_ids_from(split_pat(css, "#"@), 1)
}

/// The run's cuts from position `i` on.
fn push_cuts(run: &Vec<char>, out: &mut Vec<String>)
    ensures
        strings_view(final(out)@) == strings_view(old(out)@) + run_cuts(run@, 1),
{
    let ghost o = strings_view(out@);
    let mut i: usize = 1;
    if run.len() <= 1 {
        proof {
            assert(run_cuts(run@, 1) =~= Seq::<Seq<char>>::empty());
            assert(o + Seq::<Seq<char>>::empty() =~= o);
        }
        return;
    }
    while i < run.len()
        invariant
            1 <= i <= run@.len(),
            o + run_cuts(run@, 1) == strings_view(out@) + run_cuts(run@, i as int),
        decreases run@.len() - i,
    {
        let ghost before = strings_view(out@);
        if run[i] == '.' || run[i] == ':' {
            let cut = string_from(slice_range(run.as_slice(), 0, i));
            out.push(cut);
            proof {
                assert(strings_view(out@) =~= before.push(run@.subrange(0, i as int)));
                assert(before + (seq![run@.subrange(0, i as int)] + run_cuts(run@, i + 1)) =~= strings_view(out@) + run_cuts(run@, i + 1));
            }
        } else {
            proof {
                assert(before + (Seq::<Seq<char>>::empty() + run_cuts(run@, i + 1)) =~= before + run_cuts(run@, i + 1));
            }
        }
        i = i + 1;
    }
    proof {
        assert(run_cuts(run@, i as int) =~= Seq::<Seq<char>>::empty());
        assert(strings_view(out@) + Seq::<Seq<char>>::empty() =~= strings_view(out@));
    }
}

/// Adds every `#ident` in CSS text (see `css_idents_of`).
pub fn css_idents(css: &str, out: &mut Vec<String>)
    ensures
        strings_view(final(out)@) == added(strings_view(old(out)@), css_idents_of(css@)),
{
    let found = css_idents_list(css);
    add_all(out, &found);
}

/// Every `#ident` reading in CSS text, in order.
fn css_idents_list(css: &str) -> (r: Vec<String>)
    ensures
        strings_view(r@) == css_idents_of(css@),
{
    proof {
        reveal_strlit("#");
    }
    let pieces = split_on(css, "#");
    let ghost pv = strings_view(pieces@);
    let mut found: Vec<String> = Vec::new();
    let mut k: usize = 1;
    proof {
        if pieces@.len() <= 1 {
            assert(css_ids_from(pv, 1) =~= Seq::<Seq<char>>::empty());
        }
        assert(strings_view(found@) =~= Seq::<Seq<char>>::empty());
    }
    while k < pieces.len()
        invariant
            pv == strings_view(pieces@),
            pv == split_pat(css@, "#"@),
            1 <= k,
            css_idents_of(css@) == strings_view(found@) + css_ids_from(pv, k as int),
        decreases pieces@.len() - k,
    {
        proof {
            assert(pv[k as int] == pieces@[k as int]@);
        }
        let p = chars_of(pieces[k].as_str());
        let mut e: usize = 0;
        while e < p.len() && (is_alphanumeric(p[e]) || p[e] == '-' || p[e] == '_' || p[e] == '.' || p[e] == ':' || (p[e] as u32) >= 128)
            invariant
                e <= p@.len(),
                run_end(p@, e as int) == run_end(p@, 0),
            decreases p@.len() - e,
        {
            e = e + 1;
        }
        let run = slice_to_vec(slice_range(p.as_slice(), 0, e));
        let ghost f0 = strings_view(found@);
        if run.len() > 0 {
            push_cuts(&run, &mut found);
            let whole = string_from(run.as_slice());
            let ghost f1 = strings_view(found@);
            found.push(whole);
            proof {
                assert(strings_view(found@) =~= f1.push(run@));
                assert(f0 + ((run_cuts(run@, 1) + seq![run@]) + css_ids_from(pv, k + 1)) =~= strings_view(found@) + css_ids_from(pv, k + 1));
            }
        } else {
            proof {
                assert(f0 + (Seq::<Seq<char>>::empty() + css_ids_from(pv, k + 1)) =~= f0 + css_ids_from(pv, k + 1));
            }
        }
        k = k + 1;
    }
    proof {
        assert(css_ids_from(pv, k as int) =~= Seq::<Seq<char>>::empty());
        assert(strings_view(found@) + Seq::<Seq<char>>::empty() =~= strings_view(found@));
    }
    found
}

/// A vector holding the slice's characters.
fn slice_to_vec(s: &[char]) -> (r: Vec<char>)
    ensures
        r@ == s@,
{
    let mut v: Vec<char> = Vec::new();
    let mut i: usize = 0;
    while i < s.len()
        invariant
            i <= s@.len(),
            v@ == s@.subrange(0, i as int),
        decreases s@.len() - i,
    {
        v.push(s[i]);
        proof {
            assert(v@ =~= s@.subrange(0, i + 1));
        }
        i = i + 1;
    }
    proof {
        assert(s@.subrange(0, s@.len() as int) =~= s@);
    }
    v
}


/// `s` split at every `;`, `,` and space, from `i` on; the current piece started at `start`.
pub open spec fn list_from(s: Seq<char>, i: int, start: int) -> Seq<Seq<char>>
    decreases s.len() - i,
{
    if i < 0 || i >= s.len() {
        seq![s.subrange(start, s.len() as int)]
    } else if s[i] == ';' || s[i] == ',' || s[i] == ' ' {
        seq![s.subrange(start, i)] + list_from(s, i + 1, i + 1)
    } else {
        list_from(s, i + 1, start)
    }
}

/// The non-empty `#id` tokens of a list, from token `k` on.
pub open spec fn hash_ids_from(ts: Seq<Seq<char>>, k: int) -> Seq<Seq<char>>
    decreases ts.len() - k,
{
    if k < 0 || k >= ts.len() {
        seq![]
    } else {
        let t = trimmed(ts[k]);
        (if t.len() > 1 && t[0] == '#' {
            seq![t.drop_first()]
        } else {
            seq![]
        }) + hash_ids_from(ts, k + 1)
    }
}

/// `s` contains `pat`.
pub open spec fn contains_pat(s: Seq<char>, pat: Seq<char>) -> bool {
    exists|i: int| #[trigger] at_pat(s, i, pat)
}

/// The ids one attribute points at (over-inclusively).
pub open spec fn attr_refs(a: crate::dom::AttrV) -> Seq<Seq<char>> {
    if a.name == "id"@ || a.name == "d"@ || a.name == "points"@ {
        seq![]
    } else if a.name == "href"@ || a.name == "xlink:href"@ {
        let t = trimmed(a.value);
        if t.len() > 0 && t[0] == '#' {
            seq![t.drop_first()]
        } else {
            seq![]
        }
    } else if contains_pat(a.value, "url("@) {
        url_ids_of(a.value)
    } else if crate::xml::trimmed_start(a.value).len() > 0 && crate::xml::trimmed_start(a.value)[0] == '#' {
        hash_ids_from(list_from(a.value, 0, 0), 0)
    } else {
        seq![]
    }
}

pub open spec fn attrs_refs(attrs: Seq<crate::dom::AttrV>) -> Seq<Seq<char>>
    decreases attrs.len(),
{
    if attrs.len() == 0 {
        seq![]
    } else {
        attrs_refs(attrs.drop_last()) + attr_refs(attrs.last())
    }
}

/// The ids an element points at: through its attributes, and in a `<style>` through its text.
pub open spec fn node_refs(d: DocV, n: NodeId) -> Seq<Seq<char>> {
    attrs_refs(d.attrs(n)) + if d.tag(n) == "style"@ {
        css_idents_of(text_concat(d, d.subtree(n)))
    } else {
        seq![]
    }
}

pub open spec fn refs_in(d: DocV, ns: Seq<NodeId>) -> Seq<Seq<char>>
    decreases ns.len(),
{
    if ns.len() == 0 {
        seq![]
    } else {
        refs_in(d, ns.drop_last()) + if d.is_element(ns.last()) {
            node_refs(d, ns.last())
        } else {
            seq![]
        }
    }
}

/// Every id the document points at, each once.
pub open spec fn referenced_ids_of(d: DocV) -> Seq<Seq<char>> {
    added(seq![], refs_in(d, d.subtree(d.svg)))
}

pub fn contains_pat_exec(s: &str, pat: &str) -> (r: bool)
    ensures
        r == contains_pat(s@, pat@),
{
    let cs = chars_of(s);
    let ps = chars_of(pat);
    let mut i: usize = 0;
    while i <= cs.len()
        invariant
            cs@ == s@,
            ps@ == pat@,
            i <= cs@.len() + 1,
            forall|k: int| 0 <= k < i ==> !#[trigger] at_pat(cs@, k, ps@),
        decreases cs@.len() + 1 - i,
    {
        if at_pat_exec(&cs, i, &ps) {
            return true;
        }
        if i == cs.len() {
            proof {
                assert forall|k: int| #[trigger] at_pat(cs@, k, ps@) implies false by {
                    if k > cs@.len() {
                    }
                }
            }
            return false;
        }
        i = i + 1;
    }
    false
}

fn hash_ids(v: &str) -> (r: Vec<String>)
    ensures
        strings_view(r@) == hash_ids_from(list_from(v@, 0, 0), 0),
{
    let cs = chars_of(v);
    let mut toks: Vec<String> = Vec::new();
    let mut start: usize = 0;
    let mut i: usize = 0;
    while i < cs.len()
        invariant
            cs@ == v@,
            start <= i <= cs@.len(),
            strings_view(toks@) + list_from(cs@, i as int, start as int) == list_from(v@, 0, 0),
        decreases cs@.len() - i,
    {
        if cs[i] == ';' || cs[i] == ',' || cs[i] == ' ' {
            let piece = string_from(slice_range(cs.as_slice(), start, i));
            let ghost o = strings_view(toks@);
            toks.push(piece);
            proof {
                assert(strings_view(toks@) =~= o.push(piece@));
                assert(o + (seq![cs@.subrange(start as int, i as int)] + list_from(cs@, i + 1, i + 1)) =~= o.push(piece@)
                    + list_from(cs@, i + 1, i + 1));
            }
            start = i + 1;
        }
        i = i + 1;
    }
    let piece = string_from(slice_range(cs.as_slice(), start, cs.len()));
    let ghost o = strings_view(toks@);
    toks.push(piece);
    proof {
        assert(strings_view(toks@) =~= o.push(piece@));
        assert(o + seq![cs@.subrange(start as int, cs@.len() as int)] =~= o.push(piece@));
    }
    let ghost tv = strings_view(toks@);
    let mut out: Vec<String> = Vec::new();
    let mut k: usize = 0;
    while k < toks.len()
        invariant
            tv == strings_view(toks@),
            tv == list_from(v@, 0, 0),
            k <= toks@.len(),
            hash_ids_from(tv, 0) == strings_view(out@) + hash_ids_from(tv, k as int),
        decreases toks@.len() - k,
    {
        proof {
            assert(tv[k as int] == toks@[k as int]@);
        }
        let t = trim(toks[k].as_str());
        let tc = chars_of(t.as_str());
        let ghost o = strings_view(out@);
        if tc.len() > 1 && tc[0] == '#' {
            let id = string_from(slice_range(tc.as_slice(), 1, tc.len()));
            proof {
                assert(id@ =~= t@.drop_first());
            }
            out.push(id);
            proof {
                assert(strings_view(out@) =~= o.push(t@.drop_first()));
                assert(o + (seq![t@.drop_first()] + hash_ids_from(tv, k + 1)) =~= strings_view(out@) + hash_ids_from(tv, k + 1));
            }
        } else {
            proof {
                assert(o + (Seq::<Seq<char>>::empty() + hash_ids_from(tv, k + 1)) =~= o + hash_ids_from(tv, k + 1));
            }
        }
        k = k + 1;
    }
    proof {
        assert(hash_ids_from(tv, k as int) =~= Seq::<Seq<char>>::empty());
        assert(strings_view(out@) + Seq::<Seq<char>>::empty() =~= strings_view(out@));
    }
    out
}

fn attr_refs_exec(a: &crate::dom::Attr, out: &mut Vec<String>)
    ensures
        strings_view(final(out)@) == strings_view(old(out)@) + attr_refs(a@),
{
    proof {
        reveal_strlit("id");
        reveal_strlit("d");
        reveal_strlit("points");
        reveal_strlit("href");
        reveal_strlit("xlink:href");
        reveal_strlit("url(");
    }
    let ghost o = strings_view(out@);
    let name = a.name.as_str();
    if str_eq(name, "id") || str_eq(name, "d") || str_eq(name, "points") {
        proof {
            assert(o + Seq::<Seq<char>>::empty() =~= o);
        }
        return;
    }
    if str_eq(name, "href") || str_eq(name, "xlink:href") {
        let t = trim(a.value.as_str());
        let tc = chars_of(t.as_str());
        if tc.len() > 0 && tc[0] == '#' {
            let id = string_from(slice_range(tc.as_slice(), 1, tc.len()));
            proof {
                assert(id@ =~= t@.drop_first());
            }
            out.push(id);
            proof {
                assert(strings_view(out@) =~= o + seq![t@.drop_first()]);
            }
        } else {
            proof {
                assert(o + Seq::<Seq<char>>::empty() =~= o);
            }
        }
        return;
    }
    if contains_pat_exec(a.value.as_str(), "url(") {
        let found = url_ids_list(a.value.as_str());
        append_strings(out, &found);
        return;
    }
    let cs = chars_of(a.value.as_str());
    let mut i: usize = 0;
    proof {
        crate::xml::lemma_skip_ws(cs@, 0);
    }
    while i < cs.len() && crate::xml::is_whitespace(cs[i])
        invariant
            i <= cs@.len(),
            crate::xml::skip_ws(cs@, i as int) == crate::xml::skip_ws(cs@, 0),
        decreases cs@.len() - i,
    {
        i = i + 1;
    }
    if i < cs.len() && cs[i] == '#' {
        let found = hash_ids(a.value.as_str());
        append_strings(out, &found);
    } else {
        proof {
            assert(o + Seq::<Seq<char>>::empty() =~= o);
        }
    }
}

/// Appends all of `items`.
fn append_strings(out: &mut Vec<String>, items: &Vec<String>)
    ensures
        strings_view(final(out)@) == strings_view(old(out)@) + strings_view(items@),
{
    let ghost o = strings_view(out@);
    let mut k: usize = 0;
    while k < items.len()
        invariant
            k <= items@.len(),
            strings_view(out@) == o + strings_view(items@).subrange(0, k as int),
        decreases items@.len() - k,
    {
        let ghost before = strings_view(out@);
        out.push(items[k].clone());
        proof {
            assert(strings_view(out@) =~= before.push(items@[k as int]@));
            assert(strings_view(items@).subrange(0, k + 1) =~= strings_view(items@).subrange(0, k as int).push(items@[k as int]@));
        }
        k = k + 1;
    }
    proof {
        assert(strings_view(items@).subrange(0, items@.len() as int) =~= strings_view(items@));
    }
}

/// Every id the document points at, over-inclusively (a false positive keeps an element): any
/// `url(#id)` in an attribute value or in `<style>` text, `href`/`xlink:href` equal to `#id`,
/// any other attribute that is one `#id` or a `;`/`,`/space list of them, and every `#ident` in
/// `<style>` text. `id`, `d` and `points` are skipped.
pub fn referenced_ids(doc: &Doc) -> (r: Vec<String>)
    requires
        doc.wf(),
    ensures
        strings_view(r@) == referenced_ids_of(doc@),
{
    let ds = doc.descendants(doc.svg());
    proof {
        lemma_subtree_valid(doc@, doc@.svg);
        reveal_strlit("style");
    }
    let mut items: Vec<String> = Vec::new();
    let mut i: usize = 0;
    while i < ds.len()
        invariant
            doc.wf(),
            ds@ == doc@.subtree(doc@.svg),
            forall|j: int| 0 <= j < ds@.len() ==> doc@.valid(#[trigger] ds@[j]),
            i <= ds@.len(),
            strings_view(items@) == refs_in(doc@, ds@.subrange(0, i as int)),
        decreases ds@.len() - i,
    {
        proof {
            assert(ds@.subrange(0, i + 1).drop_last() =~= ds@.subrange(0, i as int));
        }
        let n = ds[i];
        let ghost i0 = strings_view(items@);
        if doc.is_element(n) {
            let attrs = doc.attrs(n);
            let ghost av = attrs_view(attrs@);
            let mut k: usize = 0;
            while k < attrs.len()
                invariant
                    av == attrs_view(attrs@),
                    k <= attrs@.len(),
                    strings_view(items@) == i0 + attrs_refs(av.subrange(0, k as int)),
                decreases attrs@.len() - k,
            {
                proof {
                    assert(av.subrange(0, k + 1).drop_last() =~= av.subrange(0, k as int));
                    assert(av[k as int] == attrs@[k as int]@);
                }
                let ghost before = strings_view(items@);
                attr_refs_exec(&attrs[k], &mut items);
                proof {
                    assert(before + attr_refs(av[k as int]) =~= i0 + attrs_refs(av.subrange(0, k + 1)));
                }
                k = k + 1;
            }
            proof {
                assert(av.subrange(0, attrs@.len() as int) =~= av);
            }
            let ghost i1 = strings_view(items@);
            if str_eq(doc.tag(n), "style") {
                let css = doc.text_content(n);
                let found = css_idents_list(css.as_str());
                append_strings(&mut items, &found);
            } else {
                proof {
                    assert(i1 + Seq::<Seq<char>>::empty() =~= i1);
                }
            }
            proof {
                assert(strings_view(items@) =~= i0 + node_refs(doc@, n));
            }
        } else {
            proof {
                assert(i0 + Seq::<Seq<char>>::empty() =~= i0);
            }
        }
        i = i + 1;
    }
    proof {
        assert(ds@.subrange(0, ds@.len() as int) =~= ds@);
    }
    let mut out: Vec<String> = Vec::new();
    proof {
        assert(strings_view(out@) =~= Seq::<Seq<char>>::empty());
    }
    add_all(&mut out, &items);
    out
}


// ---------------------------------------------------------------------------------------------
// Clip garbage collection

pub open spec fn opt_seq(o: Option<Seq<char>>) -> Seq<Seq<char>> {
    match o {
        Some(x) => seq![x],
        None => seq![],
    }
}

/// The id a `url(#id)` value names, if any, as a list of zero or one.
pub open spec fn url_of_opt(v: Option<Seq<char>>) -> Seq<Seq<char>> {
    match v {
        Some(x) => opt_seq(url_id_of(x)),
        None => seq![],
    }
}

/// The text up to the first `)` of each piece from `k` on, trimmed.
pub open spec fn style_url_refs_from(ps: Seq<Seq<char>>, k: int) -> Seq<Seq<char>>
    decreases ps.len() - k,
{
    if k < 0 || k >= ps.len() {
        seq![]
    } else {
        let p = ps[k];
        let e = crate::xml::find_char(p, 0, ')');
        let head = if e < 0 {
            p
        } else {
            p.subrange(0, e)
        };
        seq![trimmed(head)] + style_url_refs_from(ps, k + 1)
    }
}

/// The clip and mask ids one element points at: `clip-path`/`mask` attributes, inline style
/// entries, and in a `<style>` every `url(#…)`.
pub open spec fn node_clip_refs(d: DocV, n: NodeId) -> Seq<Seq<char>> {
    url_of_opt(d.attr(n, "clip-path"@)) + url_of_opt(d.attr(n, "mask"@)) + inline_clip_refs(d, n) + sheet_clip_refs(d, n)
}

/// The clip and mask ids an inline style names.
pub open spec fn inline_clip_refs(d: DocV, n: NodeId) -> Seq<Seq<char>> {
    match d.attr(n, "style"@) {
        Some(inl) => if contains_ci(inl, "clip-path"@) || contains_ci(inl, "mask"@) {
            let st = style_parsed(inl);
            url_of_opt(style_get(st, "clip-path"@)) + url_of_opt(style_get(st, "mask"@))
        } else {
            seq![]
        },
        None => seq![],
    }
}

/// Every `url(#…)` in a `<style>` element's text.
pub open spec fn sheet_clip_refs(d: DocV, n: NodeId) -> Seq<Seq<char>> {
    if d.tag(n) == "style"@ {
        style_url_refs_from(split_pat(text_concat(d, d.subtree(n)), "url(#"@), 1)
    } else {
        seq![]
    }
}

pub open spec fn clip_refs_in(d: DocV, ns: Seq<NodeId>) -> Seq<Seq<char>>
    decreases ns.len(),
{
    if ns.len() == 0 {
        seq![]
    } else {
        clip_refs_in(d, ns.drop_last()) + if d.is_element(ns.last()) {
            node_clip_refs(d, ns.last())
        } else {
            seq![]
        }
    }
}

/// Every id referenced as `url(#id)` by a `clip-path`/`mask` attribute, an inline style, or a
/// `<style>` sheet, each once.
pub open spec fn referenced_clip_ids_of(d: DocV) -> Seq<Seq<char>> {
    added(seq![], clip_refs_in(d, d.subtree(d.svg)))
}

fn push_url_of(v: Option<&str>, out: &mut Vec<String>)
    ensures
        strings_view(final(out)@) == strings_view(old(out)@) + url_of_opt(match v {
            Some(x) => Some(x@),
            None => None,
        }),
{
    let ghost o = strings_view(out@);
    match v {
        Some(x) => match url_id(x) {
            Some(id) => {
                out.push(id);
                proof {
                    assert(strings_view(out@) =~= o + seq![url_id_of(x@).unwrap()]);
                }
            },
            None => {
                proof {
                    assert(o + Seq::<Seq<char>>::empty() =~= o);
                }
            },
        },
        None => {
            proof {
                assert(o + Seq::<Seq<char>>::empty() =~= o);
            }
        },
    }
}

fn style_url_refs(css: &str, out: &mut Vec<String>)
    ensures
        strings_view(final(out)@) == strings_view(old(out)@) + style_url_refs_from(split_pat(css@, "url(#"@), 1),
{
    proof {
        reveal_strlit("url(#");
    }
    let ghost o = strings_view(out@);
    let pieces = split_on(css, "url(#");
    let ghost pv = strings_view(pieces@);
    let mut k: usize = 1;
    proof {
        if pieces@.len() <= 1 {
            assert(style_url_refs_from(pv, 1) =~= Seq::<Seq<char>>::empty());
        }
        assert(o + style_url_refs_from(pv, 1) == strings_view(out@) + style_url_refs_from(pv, 1));
    }
    while k < pieces.len()
        invariant
            pv == strings_view(pieces@),
            1 <= k,
            o + style_url_refs_from(pv, 1) == strings_view(out@) + style_url_refs_from(pv, k as int),
        decreases pieces@.len() - k,
    {
        proof {
            assert(pv[k as int] == pieces@[k as int]@);
        }
        let p = chars_of(pieces[k].as_str());
        let mut e: usize = 0;
        while e < p.len() && p[e] != ')'
            invariant
                e <= p@.len(),
                crate::xml::find_char(p@, e as int, ')') == crate::xml::find_char(p@, 0, ')'),
            decreases p@.len() - e,
        {
            e = e + 1;
        }
        let head = string_from(slice_range(p.as_slice(), 0, e));
        proof {
            if e >= p@.len() {
                assert(head@ =~= p@);
            }
        }
        let ghost before = strings_view(out@);
        let t = trim(head.as_str());
        let ghost tv = t@;
        out.push(t);
        proof {
            assert(strings_view(out@) =~= before.push(tv));
            assert(before + (seq![tv] + style_url_refs_from(pv, k + 1)) =~= strings_view(out@) + style_url_refs_from(pv, k + 1));
        }
        k = k + 1;
    }
    proof {
        assert(style_url_refs_from(pv, k as int) =~= Seq::<Seq<char>>::empty());
        assert(strings_view(out@) + Seq::<Seq<char>>::empty() =~= strings_view(out@));
    }
}

fn inline_clip_refs_exec(doc: &Doc, n: NodeId, out: &mut Vec<String>)
    requires
        doc@.valid(n),
    ensures
        strings_view(final(out)@) == strings_view(old(out)@) + inline_clip_refs(doc@, n),
{
    proof {
        reveal_strlit("clip-path");
        reveal_strlit("mask");
        reveal_strlit("style");
    }
    let ghost o = strings_view(out@);
    match doc.attr(n, "style") {
        Some(inl) => {
            if contains_ignore_ascii_case(inl, "clip-path") || contains_ignore_ascii_case(inl, "mask") {
                let st = Style::parse(inl);
                push_url_of(st.get("clip-path"), out);
                push_url_of(st.get("mask"), out);
                proof {
                    assert(strings_view(out@) =~= o + inline_clip_refs(doc@, n));
                }
            } else {
                proof {
                    assert(o + Seq::<Seq<char>>::empty() =~= o);
                }
            }
        },
        None => {
            proof {
                assert(o + Seq::<Seq<char>>::empty() =~= o);
            }
        },
    }
}

fn sheet_clip_refs_exec(doc: &Doc, n: NodeId, out: &mut Vec<String>)
    requires
        doc.wf(),
        doc@.valid(n),
    ensures
        strings_view(final(out)@) == strings_view(old(out)@) + sheet_clip_refs(doc@, n),
{
    proof {
        reveal_strlit("style");
    }
    let ghost o = strings_view(out@);
    if str_eq(doc.tag(n), "style") {
        let css = doc.text_content(n);
        style_url_refs(css.as_str(), out);
    } else {
        proof {
            assert(o + Seq::<Seq<char>>::empty() =~= o);
        }
    }
}

#[verifier::rlimit(50)]
#[verifier::spinoff_prover]
fn node_clip_refs_exec(doc: &Doc, n: NodeId, out: &mut Vec<String>)
    requires
        doc.wf(),
        doc@.valid(n),
    ensures
        strings_view(final(out)@) == strings_view(old(out)@) + node_clip_refs(doc@, n),
{
    proof {
        reveal_strlit("clip-path");
        reveal_strlit("mask");
    }
    let ghost o = strings_view(out@);
    push_url_of(doc.attr(n, "clip-path"), out);
    push_url_of(doc.attr(n, "mask"), out);
    inline_clip_refs_exec(doc, n, out);
    sheet_clip_refs_exec(doc, n, out);
    proof {
        assert(strings_view(out@) =~= o + node_clip_refs(doc@, n));
    }
}

/// Every clip/mask id the document references (see `referenced_clip_ids_of`).
pub fn referenced_clip_ids(doc: &Doc) -> (r: Vec<String>)
    requires
        doc.wf(),
    ensures
        strings_view(r@) == referenced_clip_ids_of(doc@),
{
    let ds = doc.descendants(doc.svg());
    proof {
        lemma_subtree_valid(doc@, doc@.svg);
    }
    let mut items: Vec<String> = Vec::new();
    let mut i: usize = 0;
    proof {
        assert(strings_view(items@) =~= clip_refs_in(doc@, ds@.subrange(0, 0)));
    }
    while i < ds.len()
        invariant
            doc.wf(),
            ds@ == doc@.subtree(doc@.svg),
            forall|j: int| 0 <= j < ds@.len() ==> doc@.valid(#[trigger] ds@[j]),
            i <= ds@.len(),
            strings_view(items@) == clip_refs_in(doc@, ds@.subrange(0, i as int)),
        decreases ds@.len() - i,
    {
        proof {
            assert(ds@.subrange(0, i + 1).drop_last() =~= ds@.subrange(0, i as int));
        }
        let ghost i0 = strings_view(items@);
        if doc.is_element(ds[i]) {
            node_clip_refs_exec(doc, ds[i], &mut items);
        } else {
            proof {
                assert(i0 + Seq::<Seq<char>>::empty() =~= i0);
            }
        }
        i = i + 1;
    }
    proof {
        assert(ds@.subrange(0, ds@.len() as int) =~= ds@);
    }
    let mut out: Vec<String> = Vec::new();
    proof {
        assert(strings_view(out@) =~= Seq::<Seq<char>>::empty());
    }
    add_all(&mut out, &items);
    out
}

/// One pass: every created clip that is attached but unreferenced is detached; the attached
/// ones that stay are kept, in order.
pub open spec fn gc_round(d: DocV, refs: Seq<Seq<char>>, cs: Seq<NodeId>) -> (DocV, Seq<NodeId>)
    decreases cs.len(),
{
    if cs.len() == 0 {
        (d, seq![])
    } else {
        let (d1, keep) = gc_round(d, refs, cs.drop_last());
        let c = cs.last();
        let alive = d1.parent(c) is Some;
        let used = d1.attr(c, "id"@) matches Some(id) && refs.contains(id);
        if alive && !used {
            (d1.detached(c), keep)
        } else if alive {
            (d1, keep.push(c))
        } else {
            (d1, keep)
        }
    }
}

pub proof fn lemma_gc_round_len(d: DocV, refs: Seq<Seq<char>>, cs: Seq<NodeId>)
    ensures
        gc_round(d, refs, cs).1.len() <= cs.len(),
        forall|i: int| 0 <= i < gc_round(d, refs, cs).1.len() ==> cs.contains(#[trigger] gc_round(d, refs, cs).1[i]),
    decreases cs.len(),
{
    if cs.len() > 0 {
        lemma_gc_round_len(d, refs, cs.drop_last());
        let (d1, keep) = gc_round(d, refs, cs.drop_last());
        assert forall|i: int| 0 <= i < gc_round(d, refs, cs).1.len() implies cs.contains(#[trigger] gc_round(d, refs, cs).1[i]) by {
            let k2 = gc_round(d, refs, cs).1;
            if i < keep.len() {
                assert(k2[i] == keep[i]);
                assert(cs.drop_last().contains(keep[i]));
                let j = choose|j: int| 0 <= j < cs.drop_last().len() && cs.drop_last()[j] == keep[i];
                assert(cs[j] == keep[i]);
            } else {
                assert(k2[i] == cs.last());
                assert(cs[cs.len() - 1] == cs.last());
            }
        }
    }
}

/// Rounds until one removes nothing more.
pub open spec fn gc_from(d: DocV, cs: Seq<NodeId>) -> (DocV, Seq<NodeId>)
    decreases cs.len(),
{
    let (d1, keep) = gc_round(d, referenced_clip_ids_of(d), cs);
    if keep.len() < cs.len() {
        gc_from(d1, keep)
    } else {
        (d1, keep)
    }
}

/// Deletes every created clip/mask nothing references any more, repeating until stable (a clip
/// may be referenced only from another dead clip). The attached ones stay in `created`.
pub fn gc_created_clips(doc: &mut Doc, created: &mut Vec<NodeId>)
    requires
        old(doc).wf(),
        forall|i: int| 0 <= i < old(created)@.len() ==> old(doc)@.valid(#[trigger] old(created)@[i]),
    ensures
        final(doc).wf(),
        old(created)@.len() == 0 ==> final(doc)@ == old(doc)@ && final(created)@ == old(created)@,
        old(created)@.len() > 0 ==> (final(doc)@, final(created)@) == gc_from(old(doc)@, old(created)@),
{
    if created.len() == 0 {
        return;
    }
    let ghost d0 = doc@;
    let ghost c0 = created@;
    loop
        invariant
            doc.wf(),
            d0 == old(doc)@,
            c0 == old(created)@,
            c0.len() > 0,
            doc@.nodes.len() == d0.nodes.len(),
            forall|i: int| 0 <= i < created@.len() ==> d0.valid(#[trigger] created@[i]),
            gc_from(d0, c0) == gc_from(doc@, created@),
        decreases created@.len(),
    {
        let referenced = referenced_clip_ids(doc);
        let ghost refs = strings_view(referenced@);
        let ghost da = doc@;
        let ghost ca = created@;
        let before = created.len();
        let mut keep: Vec<NodeId> = Vec::new();
        let mut i: usize = 0;
        proof {
            assert(ca.subrange(0, 0) =~= Seq::<NodeId>::empty());
        }
        while i < created.len()
            invariant
                doc.wf(),
                doc@.nodes.len() == d0.nodes.len(),
                created@ == ca,
                refs == strings_view(referenced@),
                forall|j: int| 0 <= j < ca.len() ==> d0.valid(#[trigger] ca[j]),
                i <= ca.len(),
                (doc@, keep@) == gc_round(da, refs, ca.subrange(0, i as int)),
            decreases ca.len() - i,
        {
            proof {
                assert(ca.subrange(0, i + 1).drop_last() =~= ca.subrange(0, i as int));
            }
            let c = created[i];
            let alive = doc.parent(c).is_some();
            proof {
                reveal_strlit("id");
            }
            let used = match doc.attr(c, "id") {
                Some(id) => contains_string(&referenced, id),
                None => false,
            };
            if alive && !used {
                doc.detach(c);
            } else if alive {
                keep.push(c);
            }
            i = i + 1;
        }
        proof {
            assert(ca.subrange(0, ca.len() as int) =~= ca);
            lemma_gc_round_len(da, refs, ca);
            assert forall|j: int| 0 <= j < keep@.len() implies d0.valid(#[trigger] keep@[j]) by {
                assert(ca.contains(keep@[j]));
            }
        }
        let after = keep.len();
        proof {
            assert(refs == referenced_clip_ids_of(da));
            if after == before {
                assert(gc_from(da, ca) == (doc@, keep@));
            } else {
                assert(gc_from(da, ca) == gc_from(doc@, keep@));
            }
        }
        *created = keep;
        if after == before {
            return;
        }
    }
}

// ---------------------------------------------------------------------------------------------
// Deleting upwards

/// Per-run state a tool threads through the operations.
pub struct Ctx {
    /// `<clipPath>`/`<mask>` elements the operations duplicated; `finish` removes the ones nothing
    /// references any more.
    pub created: Vec<NodeId>,
    /// Ids of elements `delete_up` removed (each once); `finish` strips `clip-path`/`mask`
    /// references that still point at them.
    pub deleted: Vec<String>,
    pub warn: crate::text::Warnings,
}

impl Ctx {
    pub fn new() -> (r: Ctx)
        ensures
            r.created@.len() == 0,
            strings_view(r.deleted@) == Seq::<Seq<char>>::empty(),
            strings_view(r.warn.0@) == Seq::<Seq<char>>::empty(),
    {
        let r = Ctx { created: Vec::new(), deleted: Vec::new(), warn: crate::text::Warnings::new() };
        assert(strings_view(r.deleted@) =~= Seq::<Seq<char>>::empty());
        r
    }

    /// End-of-run housekeeping: references to deleted ids dropped, then unreferenced created
    /// clips collected.
    pub fn finish(&mut self, doc: &mut Doc)
        requires
            old(doc).wf(),
            forall|i: int| 0 <= i < old(self).created@.len() ==> old(doc)@.valid(#[trigger] old(self).created@[i]),
        ensures
            final(doc).wf(),
            ({
                let d1 = if old(self).deleted@.len() == 0 {
                    old(doc)@
                } else {
                    undangled_all(old(doc)@, strings_view(old(self).deleted@), svg_elements(old(doc)@))
                };
                if old(self).created@.len() == 0 {
                    final(doc)@ == d1 && final(self).created@ == old(self).created@
                } else {
                    (final(doc)@, final(self).created@) == gc_from(d1, old(self).created@)
                }
            }),
            final(self).deleted@ == old(self).deleted@,
    {
        doc.drop_dangling_refs(&self.deleted);
        gc_created_clips(doc, &mut self.created);
    }
}

/// The ids carried by the elements among `ns`.
pub open spec fn ids_in(d: DocV, ns: Seq<NodeId>) -> Seq<Seq<char>>
    decreases ns.len(),
{
    if ns.len() == 0 {
        seq![]
    } else {
        ids_in(d, ns.drop_last()) + opt_seq(d.attr(ns.last(), "id"@))
    }
}

/// Some node of `cs` is an element or a comment.
pub open spec fn has_content(d: DocV, cs: Seq<NodeId>) -> bool {
    exists|i: int| 0 <= i < cs.len() && (d.is_element(#[trigger] cs[i]) || d.is_comment(cs[i]))
}

/// `t` deleted, then each ancestor left without element or comment children, stopping below
/// the root `<svg>`; the removed ids added to `del`.
pub open spec fn deleting_up(d: DocV, del: Seq<Seq<char>>, t: NodeId, fuel: nat) -> (DocV, Seq<Seq<char>>)
    decreases fuel,
{
    let del2 = added(del, ids_in(d, d.subtree(t)));
    let d2 = d.detached(t);
    match d.parent(t) {
        Some(q) => if fuel > 0 && q != d2.svg && d2.is_element(q) && !has_content(d2, d2.children(q)) {
            deleting_up(d2, del2, q, (fuel - 1) as nat)
        } else {
            (d2, del2)
        },
        None => (d2, del2),
    }
}

/// Deletes `n`, then every ancestor left without element or comment children, stopping below
/// the root `<svg>`, which is never deleted (a call on it does nothing). Every removed id lands
/// in `ctx.deleted`.
pub fn delete_up(doc: &mut Doc, ctx: &mut Ctx, n: NodeId)
    requires
        old(doc).wf(),
        old(doc)@.valid(n),
    ensures
        final(doc).wf(),
        n == old(doc)@.svg ==> final(doc)@ == old(doc)@ && final(ctx).deleted@ == old(ctx).deleted@,
        n != old(doc)@.svg ==> (final(doc)@, strings_view(final(ctx).deleted@)) == deleting_up(
            old(doc)@,
            strings_view(old(ctx).deleted@),
            n,
            old(doc)@.dep(n),
        ),
        final(ctx).created@ == old(ctx).created@,
{
    if n == doc.svg() {
        return;
    }
    let ghost d0 = doc@;
    let ghost del0 = strings_view(ctx.deleted@);
    let mut target = n;
    loop
        invariant
            doc.wf(),
            doc@.valid(target),
            n != d0.svg,
            d0 == old(doc)@,
            del0 == strings_view(old(ctx).deleted@),
            doc@.svg == d0.svg,
            ctx.created@ == old(ctx).created@,
            deleting_up(d0, del0, n, d0.dep(n)) == deleting_up(doc@, strings_view(ctx.deleted@), target, doc@.dep(target)),
        decreases doc@.dep(target),
    {
        let ghost d1 = doc@;
        let ghost del1 = strings_view(ctx.deleted@);
        proof {
            lemma_node_ok(doc@, target);
            reveal_strlit("id");
        }
        let parent = doc.parent(target);
        let ds = doc.descendants(target);
        proof {
            lemma_subtree_valid(doc@, target);
        }
        let mut ids: Vec<String> = Vec::new();
        let mut i: usize = 0;
        while i < ds.len()
            invariant
                doc.wf(),
                ds@ == doc@.subtree(target),
                forall|j: int| 0 <= j < ds@.len() ==> doc@.valid(#[trigger] ds@[j]),
                i <= ds@.len(),
                strings_view(ids@) == ids_in(doc@, ds@.subrange(0, i as int)),
            decreases ds@.len() - i,
        {
            proof {
                assert(ds@.subrange(0, i + 1).drop_last() =~= ds@.subrange(0, i as int));
            }
            let ghost o = strings_view(ids@);
            match doc.attr(ds[i], "id") {
                Some(v) => {
                    ids.push(v.to_owned());
                    proof {
                        assert(strings_view(ids@) =~= o + seq![v@]);
                    }
                },
                None => {
                    proof {
                        assert(o + Seq::<Seq<char>>::empty() =~= o);
                    }
                },
            }
            i = i + 1;
        }
        proof {
            assert(ds@.subrange(0, ds@.len() as int) =~= ds@);
        }
        add_all(&mut ctx.deleted, &ids);
        doc.detach(target);
        let ghost d2 = doc@;
        proof {
            assert(d1.parent(target) == parent);
            if parent is None {
                assert(deleting_up(d1, del1, target, d1.dep(target)) == (d2, strings_view(ctx.deleted@)));
            }
        }
        match parent {
            Some(p) => {
                proof {
                    lemma_node_ok(d1, p);
                    lemma_node_ok(d2, p);
                }
                proof {
                    crate::dom_laws::law_detach_keeps_depth(d1, target, p);
                    assert(d1.dep(target) == d1.dep(p) + 1);
                }
                if p != doc.svg() && doc.is_element(p) && !has_content_exec(doc, p) {
                    proof {
                        assert(deleting_up(d1, del1, target, d1.dep(target)) == deleting_up(d2, strings_view(ctx.deleted@), p, d2.dep(p)));
                    }
                    target = p;
                } else {
                    proof {
                        assert(deleting_up(d1, del1, target, d1.dep(target)) == (d2, strings_view(ctx.deleted@)));
                    }
                    return;
                }
            },
            None => {
                return;
            },
        }
    }
}

/// Whether `p` has an element or comment child.
fn has_content_exec(doc: &Doc, p: NodeId) -> (r: bool)
    requires
        doc.wf(),
        doc@.valid(p),
    ensures
        r == has_content(doc@, doc@.children(p)),
{
    let cs = doc.children(p);
    proof {
        lemma_node_ok(doc@, p);
    }
    let mut i: usize = 0;
    while i < cs.len()
        invariant
            doc.wf(),
            doc@.valid(p),
            cs@ == doc@.children(p),
            i <= cs@.len(),
            forall|j: int| 0 <= j < i ==> !(doc@.is_element(#[trigger] cs@[j]) || doc@.is_comment(cs@[j])),
        decreases cs@.len() - i,
    {
        proof {
            crate::dom::lemma_child(doc@, p, i as int);
        }
        if doc.is_element(cs[i]) || doc.is_comment(cs[i]) {
            return true;
        }
        i = i + 1;
    }
    false
}


// ---------------------------------------------------------------------------------------------
// Clip and mask references

/// The two url-referencing attributes the operations manage.
#[derive(PartialEq, Eq, Structural, Clone, Copy)]
pub enum ClipKind {
    Clip,
    Mask,
}

pub open spec fn clip_attr_name(k: ClipKind) -> Seq<char> {
    match k {
        ClipKind::Clip => "clip-path"@,
        ClipKind::Mask => "mask"@,
    }
}

impl ClipKind {
    pub fn attr(self) -> (r: &'static str)
        ensures
            r@ == clip_attr_name(self),
    {
        match self {
            ClipKind::Clip => "clip-path",
            ClipKind::Mask => "mask",
        }
    }
}

/// The `<clipPath>`/`<mask>` an attribute `url(#id)` names, when indexed.
pub open spec fn clip_ref_of(d: DocV, n: NodeId, kind: ClipKind) -> Option<NodeId> {
    match d.attr(n, clip_attr_name(kind)) {
        Some(v) => match url_id_of(v) {
            Some(id) => if d.ids.contains_key(id) {
                Some(d.ids[id])
            } else {
                None
            },
            None => None,
        },
        None => None,
    }
}

/// The `<clipPath>`/`<mask>` the element's attribute points at (`url(#id)`), if it resolves.
pub fn clip_ref(doc: &Doc, n: NodeId, kind: ClipKind) -> (r: Option<NodeId>)
    requires
        doc.wf(),
        doc@.valid(n),
    ensures
        r == clip_ref_of(doc@, n, kind),
{
    match doc.attr(n, kind.attr()) {
        Some(v) => match url_id(v) {
            Some(id) => doc.by_id(id.as_str()),
            None => None,
        },
        None => None,
    }
}

/// `<tag id="…">` (or `<tag>`) for messages.
pub open spec fn label_of(d: DocV, n: NodeId) -> Seq<char> {
    match d.attr(n, "id"@) {
        Some(id) => "<"@ + d.tag(n) + " id=\""@ + id + "\">"@,
        None => "<"@ + d.tag(n) + ">"@,
    }
}

/// `<tag id="…">` for messages.
pub fn label(doc: &Doc, n: NodeId) -> (r: String)
    requires
        doc@.valid(n),
    ensures
        r@ == label_of(doc@, n),
{
    proof {
        reveal_strlit("id");
    }
    let mut out = "<".to_owned();
    out.append(doc.tag(n));
    match doc.attr(n, "id") {
        Some(id) => {
            out.append(" id=\"");
            out.append(id);
            out.append("\">");
        },
        None => {
            out.append(">");
        },
    }
    out
}

} // verus!
