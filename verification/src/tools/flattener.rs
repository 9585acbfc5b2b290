//! The Flattener's options, exclusions and working sets, and the font-replacement step.
use vstd::prelude::*;
use crate::cascade::{specified_of, style_written};
use crate::cleanup::{split_on, split_pat, split_pat_from};
use crate::cli::Common;
use crate::dom::{Doc, DocV, KindV, NodeId, pos_in, vec_contains, lemma_subtree_valid, lemma_subtree_len, lemma_anc_back};
use crate::ops::clip::{element_children, element_kids};
use crate::ops::style::{inline_removed, remove_inline};
use crate::strs::{chars_of, in_list, listed, slice_range, str_eq, string_from};
use crate::style::{ascii_lower, style_get, strings_view, to_ascii_lowercase};
use crate::xml::{trim, trimmed};

verus! {

/// Marks an element as excluded from flattening: any non-blank value counts.
pub const EXCLUDE_ATTR: &'static str = "inkscape-scientific-flattenexclude";

/// Tags that are neither drawn nor flattened themselves.
pub const CONTAINER_TAGS: [&'static str; 5] = ["namedview", "defs", "metadata", "foreignObject", "g"];

/// The Flattener's command line.
pub struct FlattenerCli {
    pub common: Common,
    /// The notebook page Inkscape reports (`Options`, `Options2`, `Exclusions`).
    pub tab: String,
    pub deepungroup: bool,
    pub fixtext: bool,
    pub revertpaths: bool,
    pub removeduppaths: bool,
    pub removerectw: bool,
    pub splitdistant: bool,
    pub mergenearby: bool,
    pub removemanualkerning: bool,
    pub mergesubsuper: bool,
    pub reversions: bool,
    pub removetextclips: bool,
    /// 1 = centre, 2 = left, 3 = right, 4 = unchanged.
    pub justification: u8,
    pub setreplacement: bool,
    pub replacement: String,
    /// Exclusions page: 1 = mark the selection as not flattened, 2 = flattened again.
    pub markexc: u8,
    /// Duplicate the selection and flatten the original's children with every fix on.
    pub testmode: bool,
    /// Accepted for compatibility; unused.
    pub debugparser: bool,
    /// Accepted for compatibility; unused.
    pub v: String,
}

/// The effective options: the text sub-options are ANDed with `fixtext`.
pub struct Options {
    pub deepungroup: bool,
    pub fixtext: bool,
    pub revertpaths: bool,
    pub removeduppaths: bool,
    pub removerectw: bool,
    pub splitdistant: bool,
    pub mergenearby: bool,
    pub removemanualkerning: bool,
    pub mergesubsuper: bool,
    pub reversions: bool,
    pub removetextclips: bool,
    pub setreplacement: bool,
    pub replacement: String,
    pub justification: u8,
}

impl Options {
    pub fn from_cli(c: &FlattenerCli) -> (r: Options)
        ensures
            r.deepungroup == c.deepungroup,
            r.fixtext == c.fixtext,
            r.revertpaths == c.revertpaths,
            r.removeduppaths == c.removeduppaths,
            r.removerectw == c.removerectw,
            r.splitdistant == (c.splitdistant && c.fixtext),
            r.mergenearby == (c.mergenearby && c.fixtext),
            r.removemanualkerning == (c.removemanualkerning && c.fixtext),
            r.mergesubsuper == (c.mergesubsuper && c.fixtext),
            r.reversions == (c.reversions && c.fixtext),
            r.removetextclips == (c.removetextclips && c.fixtext),
            r.setreplacement == (c.setreplacement && c.fixtext),
            r.replacement@ == c.replacement@,
            r.justification == c.justification,
    {
        let t = c.fixtext;
        Options {
            deepungroup: c.deepungroup,
            fixtext: t,
            revertpaths: c.revertpaths,
            removeduppaths: c.removeduppaths,
            removerectw: c.removerectw,
            splitdistant: c.splitdistant && t,
            mergenearby: c.mergenearby && t,
            removemanualkerning: c.removemanualkerning && t,
            mergesubsuper: c.mergesubsuper && t,
            reversions: c.reversions && t,
            removetextclips: c.removetextclips && t,
            setreplacement: c.setreplacement && t,
            replacement: c.replacement.clone(),
            justification: c.justification,
        }
    }

    /// Everything on, `sans-serif` as the replacement family, centred.
    pub fn testmode() -> (r: Options)
        ensures
            r.deepungroup && r.fixtext && r.revertpaths && r.removeduppaths && r.removerectw,
            r.splitdistant && r.mergenearby && r.removemanualkerning && r.mergesubsuper,
            r.reversions && r.removetextclips && r.setreplacement,
            r.replacement@ == "sans-serif"@,
            r.justification == 1,
    {
        Options {
            deepungroup: true,
            fixtext: true,
            revertpaths: true,
            removeduppaths: true,
            removerectw: true,
            splitdistant: true,
            mergenearby: true,
            removemanualkerning: true,
            mergesubsuper: true,
            reversions: true,
            removetextclips: true,
            setreplacement: true,
            replacement: String::from_str("sans-serif"),
            justification: 1,
        }
    }
}

pub open spec fn all_valid(d: DocV, ns: Seq<NodeId>) -> bool {
    forall|i: int| 0 <= i < ns.len() ==> d.valid(#[trigger] ns[i])
}

/// The exclusion marker set (`True`) on, or removed from, each element of `sel` in turn.
pub open spec fn exclusions_marked(d: DocV, sel: Seq<NodeId>, exclude: bool) -> DocV
    decreases sel.len(),
{
    if sel.len() == 0 {
        d
    } else {
        let d1 = exclusions_marked(d, sel.drop_last(), exclude);
        if exclude {
            d1.attr_set(sel.last(), EXCLUDE_ATTR@, "True"@)
        } else {
            d1.attr_removed(sel.last(), EXCLUDE_ATTR@)
        }
    }
}

/// `n` nodes doubled `k` times keep room for one more node at each doubling.
pub open spec fn doubling_fits(n: nat, k: nat) -> bool
    decreases k,
{
    if k == 0 {
        true
    } else {
        2 * n + 1 < u32::MAX && doubling_fits(2 * n, (k - 1) as nat)
    }
}

proof fn lemma_doubling_fits_smaller(m: nat, n: nat, k: nat)
    requires
        m <= n,
        doubling_fits(n, k),
    ensures
        doubling_fits(m, k),
    decreases k,
{
    if k > 0 {
        lemma_doubling_fits_smaller(2 * m, 2 * n, (k - 1) as nat);
    }
}

/// What `deep_clone(el)` may leave of `d`: a detached copy of `el` (without ids) as the new node
/// `d.nodes.len()`, every older node as it was.
pub open spec fn cloned_into(d: DocV, el: NodeId, dc: DocV) -> bool {
    let c = d.nodes.len() as NodeId;
    &&& dc.wf()
    &&& dc.parent(c) is None
    &&& dc.copy_of(c, d, el)
    &&& d.nodes.len() < dc.nodes.len() <= d.nodes.len() + d.subtree(el).len()
    &&& forall|x: int| 0 <= x < d.nodes.len() ==> #[trigger] dc.nodes[x] == d.nodes[x]
    &&& dc == (DocV { nodes: dc.nodes, depth: dc.depth, ..d })
}

/// The copy `c` of `el` in `dc` put right before `el`; when `el` has an `inkscape:label` L, `el`
/// labelled "L flat" and the copy "L original"; the copy locked and at opacity 0.3.
pub open spec fn testmode_marked(dc: DocV, el: NodeId, c: NodeId) -> DocV {
    let d1 = dc.inserted_before(c, el);
    let d2 = match d1.attr(el, "inkscape:label"@) {
        Some(l) => d1.attr_set(el, "inkscape:label"@, l + " flat"@).attr_set(c, "inkscape:label"@, l + " original"@),
        None => d1,
    };
    d2.attr_set(c, "sodipodi:insensitive"@, "true"@).attr_set(c, "opacity"@, "0.3"@)
}

/// `d2` is `d` after the test-mode duplicate of `el`.
pub open spec fn testmode_step(d: DocV, el: NodeId, d2: DocV) -> bool {
    exists|dc: DocV| cloned_into(d, el, dc) && d2 == testmode_marked(dc, el, d.nodes.len() as NodeId)
}

/// `docs` are the documents of a test-mode run over `sel`: each the one before after the
/// duplicate of the next selected element.
pub open spec fn testmode_run(docs: Seq<DocV>, sel: Seq<NodeId>) -> bool {
    &&& docs.len() == sel.len() + 1
    &&& forall|i: int| 0 <= i < sel.len() ==> testmode_step(docs[i], sel[i], #[trigger] docs[i + 1])
}

/// The element children of the first `k` selected elements, each taken right after its
/// duplicate was made, in order.
pub open spec fn testmode_selection(docs: Seq<DocV>, sel: Seq<NodeId>, k: int) -> Seq<NodeId>
    decreases k,
{
    if k <= 0 {
        seq![]
    } else {
        testmode_selection(docs, sel, k - 1) + element_kids(docs[k], sel[k - 1])
    }
}

/// Marking the copy and `el` keeps every other node's parent and the number of nodes.
proof fn lemma_marked_parent(dc: DocV, el: NodeId, c: NodeId, y: NodeId)
    requires
        dc.wf(),
        dc.valid(c),
        dc.valid(y),
        dc.parent(c) is None,
        dc.valid(el),
        dc.parent(el) is Some,
        y != c,
    ensures
        testmode_marked(dc, el, c).parent(y) == dc.parent(y),
        testmode_marked(dc, el, c).nodes.len() == dc.nodes.len(),
{
    let d1 = dc.inserted_before(c, el);
    assert(dc.detached(c) == dc);
    let p = dc.parent(el).unwrap();
    crate::dom::lemma_node_ok(dc, el);
    let a = dc.attach_struct(p, pos_in(dc.children(p), el), c);
    assert(d1.nodes == a.nodes);
    assert(a.nodes[y as int].parent == dc.nodes[y as int].parent);
    assert(d1.parent(y) == dc.parent(y));
    assert(d1.nodes.len() == dc.nodes.len());
}

proof fn lemma_selection_prefix(a: Seq<DocV>, b: Seq<DocV>, sel: Seq<NodeId>, k: int)
    requires
        forall|i: int| 0 <= i <= k ==> a[i] == b[i],
    ensures
        testmode_selection(a, sel, k) == testmode_selection(b, sel, k),
    decreases k,
{
    if k > 0 {
        lemma_selection_prefix(a, b, sel, k - 1);
    }
}

/// Test mode: each selected element gets a copy right before it (see `testmode_marked`), and the
/// element children of the selected elements become the selection to flatten. Each copy at most
/// doubles the number of nodes, so the document needs room for that.
pub fn duplicate_for_testmode(doc: &mut Doc, sel: &[NodeId]) -> (r: Vec<NodeId>)
    requires
        old(doc).wf(),
        forall|i: int| 0 <= i < sel@.len() ==> old(doc)@.valid(#[trigger] sel@[i]) && old(doc)@.parent(sel@[i]) is Some,
        doubling_fits(old(doc)@.nodes.len(), sel@.len()),
    ensures
        final(doc).wf(),
        exists|docs: Seq<DocV>| #![trigger testmode_run(docs, sel@)]
            testmode_run(docs, sel@) && docs[0] == old(doc)@ && docs.last() == final(doc)@
            && r@ == testmode_selection(docs, sel@, sel@.len() as int),
{
    let ghost d0 = doc@;
    let ghost mut docs: Seq<DocV> = seq![d0];
    let mut out: Vec<NodeId> = Vec::new();
    let mut k: usize = 0;
    while k < sel.len()
        invariant
            doc.wf(),
            k <= sel@.len(),
            docs.len() == k + 1,
            docs[0] == d0,
            docs[k as int] == doc@,
            forall|i: int| 0 <= i < k ==> testmode_step(docs[i], sel@[i], #[trigger] docs[i + 1]),
            out@ == testmode_selection(docs, sel@, k as int),
            forall|i: int| k <= i < sel@.len() ==> doc@.valid(#[trigger] sel@[i]) && doc@.parent(sel@[i]) is Some,
            d0.nodes.len() <= doc@.nodes.len(),
            forall|i: int| 0 <= i < sel@.len() ==> d0.valid(#[trigger] sel@[i]),
            doubling_fits(doc@.nodes.len(), (sel@.len() - k) as nat),
        decreases sel@.len() - k,
    {
        let el = sel[k];
        let ghost d = doc@;
        proof {
            assert(d.valid(sel@[k as int]));
            lemma_subtree_len(d, el);
        }
        let c = doc.deep_clone(el);
        let ghost dc = doc@;
        proof {
            assert(cloned_into(d, el, dc));
            assert forall|y: NodeId| d.valid(y) && (#[trigger] dc.parent(y)) is Some implies dc.parent(y) == d.parent(y) by {
                assert(dc.nodes[y as int] == d.nodes[y as int]);
            }
            assert(dc.nodes[el as int] == d.nodes[el as int]);
            if dc.anc_or_self(c, el) {
                lemma_anc_back(d, dc, c, el, dc.dep(el));
                crate::ops::clip::lemma_chain_valid(d, c, el, dc.dep(el));
                assert(false);
            }
        }
        doc.insert_before(c, el);
        let lab: Option<String> = match doc.attr(el, "inkscape:label") {
            Some(l) => Some(l.to_owned()),
            None => None,
        };
        match lab {
            Some(l) => {
                let mut flat = l.as_str().to_owned();
                flat.append(" flat");
                doc.set_attr(el, "inkscape:label", flat.as_str());
                let mut orig = l;
                orig.append(" original");
                doc.set_attr(c, "inkscape:label", orig.as_str());
            },
            None => {},
        }
        doc.set_attr(c, "sodipodi:insensitive", "true");
        doc.set_attr(c, "opacity", "0.3");
        let kids = element_children(doc, el);
        let ghost o = out@;
        let mut j: usize = 0;
        while j < kids.len()
            invariant
                j <= kids@.len(),
                out@ == o + kids@.subrange(0, j as int),
            decreases kids@.len() - j,
        {
            out.push(kids[j]);
            proof {
                assert(out@ =~= o + kids@.subrange(0, j + 1));
            }
            j = j + 1;
        }
        proof {
            assert(kids@.subrange(0, kids@.len() as int) =~= kids@);
            assert(doc@ == testmode_marked(dc, el, c));
            assert(testmode_step(d, el, doc@));
            assert forall|i: int| k < i < sel@.len() implies doc@.valid(#[trigger] sel@[i]) && doc@.parent(sel@[i]) is Some by {
                let y = sel@[i];
                assert(d.valid(y) && d.parent(y) is Some);
                assert(dc.nodes[y as int] == d.nodes[y as int]);
                lemma_marked_parent(dc, el, c, y);
            }
            let docs2 = docs.push(doc@);
            lemma_selection_prefix(docs, docs2, sel@, k as int);
            assert(docs2[k + 1] == doc@);
            assert forall|i: int| 0 <= i < k + 1 implies testmode_step(docs2[i], sel@[i], #[trigger] docs2[i + 1]) by {
                if i < k {
                    assert(docs2[i] == docs[i] && docs2[i + 1] == docs[i + 1]);
                }
            }
            assert(out@ == testmode_selection(docs2, sel@, k + 1));
            docs = docs2;
            assert(doc@.nodes.len() <= 2 * d.nodes.len());
            lemma_doubling_fits_smaller(doc@.nodes.len(), 2 * d.nodes.len(), (sel@.len() - k - 1) as nat);
        }
        k = k + 1;
    }
    proof {
        assert(testmode_run(docs, sel@));
    }
    out
}

/// The Exclusions page sets (`True`) or removes the marker on the selection.
pub fn mark_exclusions(doc: &mut Doc, sel: &[NodeId], exclude: bool)
    requires
        old(doc).wf(),
        all_valid(old(doc)@, sel@),
    ensures
        final(doc).wf(),
        final(doc)@ == exclusions_marked(old(doc)@, sel@, exclude),
{
    let ghost d0 = doc@;
    let mut i: usize = 0;
    while i < sel.len()
        invariant
            doc.wf(),
            i <= sel@.len(),
            all_valid(d0, sel@),
            doc@.nodes.len() == d0.nodes.len(),
            doc@ == exclusions_marked(d0, sel@.subrange(0, i as int), exclude),
        decreases sel@.len() - i,
    {
        let el = sel[i];
        proof {
            assert(sel@.subrange(0, i + 1).drop_last() =~= sel@.subrange(0, i as int));
            assert(d0.valid(sel@[i as int]));
        }
        if exclude {
            doc.set_attr(el, EXCLUDE_ATTR, "True");
        } else {
            let _ = doc.remove_attr(el, EXCLUDE_ATTR);
        }
        i = i + 1;
    }
    proof {
        assert(sel@.subrange(0, sel@.len() as int) =~= sel@);
    }
}

/// `n` carries a non-blank exclusion marker.
pub open spec fn excluded(d: DocV, n: NodeId) -> bool {
    match d.attr(n, EXCLUDE_ATTR@) {
        Some(v) => trimmed(v).len() > 0,
        None => false,
    }
}

fn is_excluded(doc: &Doc, n: NodeId) -> (r: bool)
    requires
        doc@.valid(n),
    ensures
        r == excluded(doc@, n),
{
    match doc.attr(n, EXCLUDE_ATTR) {
        Some(v) => {
            let t = trim(v);
            !t.as_str().is_empty()
        },
        None => false,
    }
}

/// `acc` followed by the elements of `ns` that are not excluded and not already listed, each once.
pub open spec fn added_elements(d: DocV, acc: Seq<NodeId>, ns: Seq<NodeId>) -> Seq<NodeId>
    decreases ns.len(),
{
    if ns.len() == 0 {
        acc
    } else {
        let a = added_elements(d, acc, ns.drop_last());
        let n = ns.last();
        if d.is_element(n) && !excluded(d, n) && !a.contains(n) {
            a.push(n)
        } else {
            a
        }
    }
}

/// The working set built from the first `k` selected roots.
pub open spec fn working_set_of(d: DocV, sel: Seq<NodeId>) -> Seq<NodeId>
    decreases sel.len(),
{
    if sel.len() == 0 {
        seq![]
    } else {
        let acc = working_set_of(d, sel.drop_last());
        let root = sel.last();
        if excluded(d, root) {
            acc
        } else {
            added_elements(d, acc, d.subtree(root))
        }
    }
}

/// The selection (minus excluded roots) and every element under it, in document order, each once,
/// minus the elements that carry the exclusion marker themselves.
pub fn working_set(doc: &Doc, sel: &[NodeId]) -> (r: Vec<NodeId>)
    requires
        doc.wf(),
        all_valid(doc@, sel@),
    ensures
        r@ == working_set_of(doc@, sel@),
{
    let mut out: Vec<NodeId> = Vec::new();
    let mut i: usize = 0;
    while i < sel.len()
        invariant
            doc.wf(),
            all_valid(doc@, sel@),
            i <= sel@.len(),
            out@ == working_set_of(doc@, sel@.subrange(0, i as int)),
        decreases sel@.len() - i,
    {
        let root = sel[i];
        proof {
            assert(sel@.subrange(0, i + 1).drop_last() =~= sel@.subrange(0, i as int));
            assert(doc@.valid(sel@[i as int]));
        }
        if !is_excluded(doc, root) {
            let ds = doc.descendants(root);
            let ghost acc = out@;
            proof {
                lemma_subtree_valid(doc@, root);
                assert(ds@.subrange(0, 0) =~= Seq::<NodeId>::empty());
            }
            let mut j: usize = 0;
            while j < ds.len()
                invariant
                    doc.wf(),
                    ds@ == doc@.subtree(root),
                    forall|k: int| 0 <= k < ds@.len() ==> doc@.valid(#[trigger] ds@[k]),
                    j <= ds@.len(),
                    out@ == added_elements(doc@, acc, ds@.subrange(0, j as int)),
                decreases ds@.len() - j,
            {
                let n = ds[j];
                proof {
                    assert(ds@.subrange(0, j + 1).drop_last() =~= ds@.subrange(0, j as int));
                    assert(doc@.valid(ds@[j as int]));
                }
                if doc.is_element(n) && !is_excluded(doc, n) && !vec_contains(&out, n) {
                    out.push(n);
                }
                j = j + 1;
            }
            proof {
                assert(ds@.subrange(0, ds@.len() as int) =~= ds@);
            }
        }
        i = i + 1;
    }
    proof {
        assert(sel@.subrange(0, sel@.len() as int) =~= sel@);
    }
    out
}

/// The members of `els` that pass `keep`, in order.
pub open spec fn kept_where(els: Seq<NodeId>, keep: spec_fn(NodeId) -> bool) -> Seq<NodeId>
    decreases els.len(),
{
    if els.len() == 0 {
        seq![]
    } else if keep(els.last()) {
        kept_where(els.drop_last(), keep).push(els.last())
    } else {
        kept_where(els.drop_last(), keep)
    }
}

pub open spec fn is_attached(d: DocV) -> spec_fn(NodeId) -> bool {
    |n: NodeId| d.parent(n) is Some
}

pub open spec fn is_non_container(d: DocV) -> spec_fn(NodeId) -> bool {
    |n: NodeId| d.parent(n) is Some && !listed(CONTAINER_TAGS@, d.tag(n))
}

pub open spec fn is_attached_group(d: DocV) -> spec_fn(NodeId) -> bool {
    |n: NodeId| d.parent(n) is Some && d.tag(n) == "g"@
}

/// The members of `els` still in the document.
pub fn attached(doc: &Doc, els: &[NodeId]) -> (r: Vec<NodeId>)
    requires
        all_valid(doc@, els@),
    ensures
        r@ == kept_where(els@, is_attached(doc@)),
{
    let mut out: Vec<NodeId> = Vec::new();
    let mut i: usize = 0;
    while i < els.len()
        invariant
            all_valid(doc@, els@),
            i <= els@.len(),
            out@ == kept_where(els@.subrange(0, i as int), is_attached(doc@)),
        decreases els@.len() - i,
    {
        proof {
            assert(els@.subrange(0, i + 1).drop_last() =~= els@.subrange(0, i as int));
            assert(doc@.valid(els@[i as int]));
        }
        if doc.parent(els[i]).is_some() {
            out.push(els[i]);
        }
        i = i + 1;
    }
    proof {
        assert(els@.subrange(0, els@.len() as int) =~= els@);
    }
    out
}

/// The attached members of `seld` that are neither containers nor unrendered.
pub fn non_containers(doc: &Doc, seld: &[NodeId]) -> (r: Vec<NodeId>)
    requires
        all_valid(doc@, seld@),
    ensures
        r@ == kept_where(seld@, is_non_container(doc@)),
{
    let mut out: Vec<NodeId> = Vec::new();
    let mut i: usize = 0;
    while i < seld.len()
        invariant
            all_valid(doc@, seld@),
            i <= seld@.len(),
            out@ == kept_where(seld@.subrange(0, i as int), is_non_container(doc@)),
        decreases seld@.len() - i,
    {
        proof {
            assert(seld@.subrange(0, i + 1).drop_last() =~= seld@.subrange(0, i as int));
            assert(doc@.valid(seld@[i as int]));
        }
        let n = seld[i];
        if doc.parent(n).is_some() && !in_list(&CONTAINER_TAGS, doc.tag(n)) {
            out.push(n);
        }
        i = i + 1;
    }
    proof {
        assert(seld@.subrange(0, seld@.len() as int) =~= seld@);
    }
    out
}

/// The attached groups of `seld`.
pub fn groups(doc: &Doc, seld: &[NodeId]) -> (r: Vec<NodeId>)
    requires
        all_valid(doc@, seld@),
    ensures
        r@ == kept_where(seld@, is_attached_group(doc@)),
{
    let mut out: Vec<NodeId> = Vec::new();
    let mut i: usize = 0;
    while i < seld.len()
        invariant
            all_valid(doc@, seld@),
            i <= seld@.len(),
            out@ == kept_where(seld@.subrange(0, i as int), is_attached_group(doc@)),
        decreases seld@.len() - i,
    {
        proof {
            assert(seld@.subrange(0, i + 1).drop_last() =~= seld@.subrange(0, i as int));
            assert(doc@.valid(seld@[i as int]));
        }
        let n = seld[i];
        if doc.parent(n).is_some() && str_eq(doc.tag(n), "g") {
            out.push(n);
        }
        i = i + 1;
    }
    proof {
        assert(seld@.subrange(0, seld@.len() as int) =~= seld@);
    }
    out
}

// ---------------------------------------------------------------------------------------------
// Font replacement

pub open spec fn family_trim_char(c: char) -> bool {
    c == '\'' || c == '"' || c == ' '
}

pub open spec fn ftrim_start(s: Seq<char>, i: int) -> int
    decreases s.len() - i,
{
    if i < 0 || i >= s.len() || !family_trim_char(s[i]) {
        i
    } else {
        ftrim_start(s, i + 1)
    }
}

pub open spec fn ftrim_end(s: Seq<char>, j: int) -> int
    decreases j,
{
    if j <= 0 || j > s.len() || !family_trim_char(s[j - 1]) {
        j
    } else {
        ftrim_end(s, j - 1)
    }
}

/// A family of a `font-family` list without the quotes and spaces around it.
pub open spec fn family_item(s: Seq<char>) -> Seq<char> {
    let a = ftrim_start(s, 0);
    let b = ftrim_end(s, s.len() as int);
    if a >= b {
        seq![]
    } else {
        s.subrange(a, b)
    }
}

pub open spec fn family_items(parts: Seq<Seq<char>>) -> Seq<Seq<char>> {
    parts.map_values(|p: Seq<char>| family_item(p))
}

/// Items joined by commas.
pub open spec fn comma_joined(ts: Seq<Seq<char>>) -> Seq<char>
    decreases ts.len(),
{
    if ts.len() == 0 {
        seq![]
    } else if ts.len() == 1 {
        ts[0]
    } else {
        comma_joined(ts.drop_last()) + ","@ + ts.last()
    }
}

/// The document after the font replacement of one element: a `<text>` or `<tspan>` loses its
/// inline `-inkscape-font-specification` and gets `rep` as its family (when it has none) or
/// appended to its family list (unless the list already ends with it, ASCII case aside).
pub open spec fn font_replaced(d: DocV, el: NodeId, rep: Seq<char>) -> DocV {
    if !(d.tag(el) == "text"@ || d.tag(el) == "tspan"@) {
        d
    } else {
        let f = match style_get(specified_of(d, el), "font-family"@) {
            Some(v) => trimmed(v),
            None => seq![],
        };
        let d1 = inline_removed(d, el, "-inkscape-font-specification"@);
        if f.len() == 0 || f == "none"@ {
            style_written(d1, el, "font-family"@, rep)
        } else if f == rep {
            d1
        } else {
            let fams = family_items(split_pat(f, ","@));
            let fams2 = if ascii_lower(fams.last()) == ascii_lower(rep) {
                fams
            } else {
                fams.push(rep)
            };
            style_written(d1, el, "font-family"@, comma_joined(fams2))
        }
    }
}

proof fn lemma_split_pat_nonempty(s: Seq<char>, i: int, start: int, pat: Seq<char>)
    ensures
        split_pat_from(s, i, start, pat).len() >= 1,
    decreases s.len() - i,
{
    if !(i < 0 || i >= s.len() || pat.len() == 0) {
        if !crate::cleanup::at_pat(s, i, pat) {
            lemma_split_pat_nonempty(s, i + 1, start, pat);
        }
    }
}

/// The font replacement keeps a text's family list: when the specified `font-family` of a
/// `<text>` or `<tspan>` is a list `f1, ..., fn` (not `none`, not `rep` itself) whose last
/// family is not `rep` (ASCII case aside), the family written is every family already listed,
/// unquoted and in order, then `rep`.
pub proof fn law_font_replacement_appends(d: DocV, el: NodeId, rep: Seq<char>, v: Seq<char>)
    requires
        d.tag(el) == "text"@ || d.tag(el) == "tspan"@,
        style_get(specified_of(d, el), "font-family"@) == Some(v),
        trimmed(v).len() > 0,
        trimmed(v) != "none"@,
        trimmed(v) != rep,
        ascii_lower(family_items(split_pat(trimmed(v), ","@)).last()) != ascii_lower(rep),
    ensures
        font_replaced(d, el, rep) == style_written(
            inline_removed(d, el, "-inkscape-font-specification"@),
            el,
            "font-family"@,
            comma_joined(family_items(split_pat(trimmed(v), ","@))) + ","@ + rep,
        ),
{
    let fams = family_items(split_pat(trimmed(v), ","@));
    lemma_split_pat_nonempty(trimmed(v), 0, 0, ","@);
    assert(fams.push(rep).drop_last() =~= fams);
    assert(comma_joined(fams.push(rep)) == comma_joined(fams) + ","@ + rep);
}

/// The other cases of the font replacement: only `<text>` and `<tspan>` change; one without a
/// family (or with `none`) gets `rep` alone; one whose list already ends with `rep` (ASCII case
/// aside) keeps its families, unquoted, without a second `rep`.
pub proof fn law_font_replacement_cases(d: DocV, el: NodeId, rep: Seq<char>)
    ensures
        !(d.tag(el) == "text"@ || d.tag(el) == "tspan"@) ==> font_replaced(d, el, rep) == d,
        (d.tag(el) == "text"@ || d.tag(el) == "tspan"@) && (style_get(specified_of(d, el), "font-family"@) is None
            || (style_get(specified_of(d, el), "font-family"@) matches Some(v) && (trimmed(v).len() == 0 || trimmed(v) == "none"@)))
            ==> font_replaced(d, el, rep) == style_written(inline_removed(d, el, "-inkscape-font-specification"@), el, "font-family"@, rep),
        (d.tag(el) == "text"@ || d.tag(el) == "tspan"@) && (style_get(specified_of(d, el), "font-family"@) matches Some(v)
            && trimmed(v).len() > 0 && trimmed(v) != "none"@ && trimmed(v) != rep
            && ascii_lower(family_items(split_pat(trimmed(v), ","@)).last()) == ascii_lower(rep))
            ==> font_replaced(d, el, rep) == style_written(inline_removed(d, el, "-inkscape-font-specification"@), el, "font-family"@,
                comma_joined(family_items(split_pat(trimmed(style_get(specified_of(d, el), "font-family"@)->Some_0), ","@)))),
{
}

pub open spec fn fonts_replaced(d: DocV, els: Seq<NodeId>, rep: Seq<char>) -> DocV
    decreases els.len(),
{
    if els.len() == 0 {
        d
    } else {
        font_replaced(fonts_replaced(d, els.drop_last(), rep), els.last(), rep)
    }
}

fn family_item_exec(s: &str) -> (r: String)
    ensures
        r@ == family_item(s@),
{
    let cs = chars_of(s);
    let mut a: usize = 0;
    while a < cs.len() && (cs[a] == '\'' || cs[a] == '"' || cs[a] == ' ')
        invariant
            a <= cs@.len(),
            ftrim_start(cs@, a as int) == ftrim_start(cs@, 0),
        decreases cs@.len() - a,
    {
        a = a + 1;
    }
    let mut b = cs.len();
    while b > 0 && (cs[b - 1] == '\'' || cs[b - 1] == '"' || cs[b - 1] == ' ')
        invariant
            b <= cs@.len(),
            ftrim_end(cs@, b as int) == ftrim_end(cs@, cs@.len() as int),
        decreases b,
    {
        b = b - 1;
    }
    if a >= b {
        String::new()
    } else {
        string_from(slice_range(cs.as_slice(), a, b))
    }
}

fn comma_join(ts: &Vec<String>) -> (r: String)
    ensures
        r@ == comma_joined(strings_view(ts@)),
{
    let mut out = String::new();
    let mut i: usize = 0;
    while i < ts.len()
        invariant
            i <= ts@.len(),
            out@ == comma_joined(strings_view(ts@).subrange(0, i as int)),
        decreases ts@.len() - i,
    {
        let ghost fs = strings_view(ts@).subrange(0, i + 1);
        proof {
            assert(fs.drop_last() =~= strings_view(ts@).subrange(0, i as int));
            assert(fs.last() == ts@[i as int]@);
        }
        if i > 0 {
            out.append(",");
        }
        out.append(ts[i].as_str());
        proof {
            if i == 0 {
                assert(out@ =~= fs[0]);
            }
        }
        i = i + 1;
    }
    proof {
        assert(strings_view(ts@).subrange(0, ts@.len() as int) =~= strings_view(ts@));
    }
    out
}

fn replace_font_of(doc: &mut Doc, el: NodeId, replacement: &str)
    requires
        old(doc).wf(),
        old(doc)@.valid(el),
    ensures
        final(doc).wf(),
        final(doc)@ == font_replaced(old(doc)@, el, replacement@),
        final(doc)@.nodes.len() == old(doc)@.nodes.len(),
{
    let tag = doc.tag(el);
    if !(str_eq(tag, "text") || str_eq(tag, "tspan")) {
        return;
    }
    let ff = doc.specified(el, "font-family");
    remove_inline(doc, el, "-inkscape-font-specification");
    let f: String = match ff {
        Some(v) => trim(v.as_str()),
        None => String::new(),
    };
    if f.as_str().is_empty() || str_eq(f.as_str(), "none") {
        doc.set_style(el, "font-family", replacement);
    } else if str_eq(f.as_str(), replacement) {
    } else {
        proof {
            reveal_strlit(",");
        }
        let parts = split_on(f.as_str(), ",");
        let mut fams: Vec<String> = Vec::new();
        let mut i: usize = 0;
        while i < parts.len()
            invariant
                i <= parts@.len(),
                strings_view(fams@) == family_items(strings_view(parts@).subrange(0, i as int)),
            decreases parts@.len() - i,
        {
            let it = family_item_exec(parts[i].as_str());
            let ghost o = strings_view(fams@);
            fams.push(it);
            proof {
                assert(strings_view(fams@) =~= o.push(it@));
                assert(strings_view(parts@)[i as int] == parts@[i as int]@);
                assert(family_items(strings_view(parts@).subrange(0, i + 1)) =~= family_items(strings_view(parts@).subrange(0, i as int)).push(family_item(parts@[i as int]@)));
            }
            i = i + 1;
        }
        proof {
            assert(strings_view(parts@).subrange(0, parts@.len() as int) =~= strings_view(parts@));
            crate::ops::clip::lemma_split_nonempty(f@, ","@);
        }
        let n = fams.len();
        let last = to_ascii_lowercase(fams[n - 1].as_str());
        let rl = to_ascii_lowercase(replacement);
        if !str_eq(last.as_str(), rl.as_str()) {
            let ghost o = strings_view(fams@);
            fams.push(replacement.to_owned());
            proof {
                assert(strings_view(fams@) =~= o.push(replacement@));
            }
        }
        proof {
            assert(strings_view(fams@).len() > 0);
        }
        let joined = comma_join(&fams);
        doc.set_style(el, "font-family", joined.as_str());
    }
}

/// Every attached `<text>`/`<tspan>` of `ngs`, in turn, loses its inline
/// `-inkscape-font-specification` and gets `replacement` as (or appended to) its family list.
pub fn replace_fonts(doc: &mut Doc, ngs: &[NodeId], replacement: &str)
    requires
        old(doc).wf(),
        all_valid(old(doc)@, ngs@),
    ensures
        final(doc).wf(),
        final(doc)@ == fonts_replaced(old(doc)@, kept_where(ngs@, is_attached(old(doc)@)), replacement@),
{
    let els = attached(doc, ngs);
    let ghost d0 = doc@;
    proof {
        lemma_kept_valid(d0, ngs@, is_attached(d0));
    }
    let mut i: usize = 0;
    while i < els.len()
        invariant
            doc.wf(),
            i <= els@.len(),
            els@ == kept_where(ngs@, is_attached(d0)),
            all_valid(d0, els@),
            doc@.nodes.len() == d0.nodes.len(),
            doc@ == fonts_replaced(d0, els@.subrange(0, i as int), replacement@),
        decreases els@.len() - i,
    {
        proof {
            assert(els@.subrange(0, i + 1).drop_last() =~= els@.subrange(0, i as int));
            assert(d0.valid(els@[i as int]));
        }
        replace_font_of(doc, els[i], replacement);
        i = i + 1;
    }
    proof {
        assert(els@.subrange(0, els@.len() as int) =~= els@);
    }
}

// ---------------------------------------------------------------------------------------------
// Definitions and clip paths moved to the root's <defs>

/// A member of the working set that a pass moves: attached, with one of the pass's tags.
pub open spec fn is_mover(d: DocV, tags: Seq<&'static str>) -> spec_fn(NodeId) -> bool {
    |n: NodeId| d.parent(n) is Some && listed(tags, d.tag(n))
}

/// The root's first `<defs>` child, created in front of the root's children when there is none.
pub open spec fn root_defs(d: DocV) -> (DocV, NodeId) {
    match d.first_defs(d.children(d.svg)) {
        Some(x) => (d, x),
        None => {
            let r = d.nodes.len() as NodeId;
            let d1 = d.allocated(KindV::Element { name: "defs"@, attrs: seq![], self_closing: true, close_ws: seq![] });
            if d1.children(d.svg).len() == 0 {
                (d1.appended(d.svg, r), r)
            } else {
                (d1.inserted_before(r, d1.children(d.svg)[0]), r)
            }
        },
    }
}

/// `ms` appended to `root` one after the other, each but `root` and its ancestors; what each
/// moved element holds leaves the working set.
pub open spec fn moved_into(d: DocV, seld: Seq<NodeId>, root: NodeId, ms: Seq<NodeId>) -> (DocV, Seq<NodeId>)
    decreases ms.len(),
{
    if ms.len() == 0 {
        (d, seld)
    } else {
        let (d1, s1) = moved_into(d, seld, root, ms.drop_last());
        let m = ms.last();
        if d1.anc_or_self(m, root) {
            (d1, s1)
        } else {
            let d2 = d1.appended(root, m);
            (d2, kept_where(s1, |n: NodeId| !d2.subtree(m).contains(n)))
        }
    }
}

/// One pass: the movers with the pass's tags, when there are any, appended to the root `<defs>`.
pub open spec fn pass_moved(d: DocV, seld: Seq<NodeId>, tags: Seq<&'static str>) -> (DocV, Seq<NodeId>) {
    let ms = kept_where(seld, is_mover(d, tags));
    if ms.len() == 0 {
        (d, seld)
    } else {
        let (d1, root) = root_defs(d);
        moved_into(d1, seld, root, ms)
    }
}

/// `<defs>` first, then `<clipPath>` and `<mask>`.
pub open spec fn defs_and_clips_moved(d: DocV, seld: Seq<NodeId>) -> (DocV, Seq<NodeId>) {
    let (d1, s1) = pass_moved(d, seld, seq!["defs"]);
    pass_moved(d1, s1, seq!["clipPath", "mask"])
}

proof fn lemma_first_defs_in(d: DocV, cs: Seq<NodeId>)
    ensures
        d.first_defs(cs) matches Some(x) ==> cs.contains(x),
    decreases cs.len(),
{
    if cs.len() > 0 {
        lemma_first_defs_in(d, cs.drop_first());
        if let Some(x) = d.first_defs(cs.drop_first()) {
            let i = choose|i: int| 0 <= i < cs.drop_first().len() && cs.drop_first()[i] == x;
            assert(cs[i + 1] == x);
        }
        assert(cs[0] == cs[0]);
    }
}

fn move_pass(doc: &mut Doc, seld: &mut Vec<NodeId>, tags: &[&'static str])
    requires
        old(doc).wf(),
        all_valid(old(doc)@, old(seld)@),
        old(doc)@.nodes.len() + 1 < u32::MAX,
    ensures
        final(doc).wf(),
        (final(doc)@, final(seld)@) == pass_moved(old(doc)@, old(seld)@, tags@),
        old(doc)@.nodes.len() <= final(doc)@.nodes.len() <= old(doc)@.nodes.len() + 1,
        all_valid(final(doc)@, final(seld)@),
{
    let ghost d0 = doc@;
    let ghost s0 = seld@;
    let mut movers: Vec<NodeId> = Vec::new();
    let mut i: usize = 0;
    while i < seld.len()
        invariant
            doc@ == d0,
            doc.wf(),
            seld@ == s0,
            all_valid(d0, s0),
            i <= s0.len(),
            movers@ == kept_where(s0.subrange(0, i as int), is_mover(d0, tags@)),
        decreases s0.len() - i,
    {
        proof {
            assert(s0.subrange(0, i + 1).drop_last() =~= s0.subrange(0, i as int));
            assert(d0.valid(s0[i as int]));
        }
        let n = seld[i];
        if doc.parent(n).is_some() && in_list(tags, doc.tag(n)) {
            movers.push(n);
        }
        i = i + 1;
    }
    proof {
        assert(s0.subrange(0, s0.len() as int) =~= s0);
        lemma_kept_valid(d0, s0, is_mover(d0, tags@));
    }
    if movers.len() == 0 {
        return;
    }
    let root = doc.defs();
    let ghost d1 = doc@;
    proof {
        reveal_strlit("defs");
        lemma_first_defs_in(d0, d0.children(d0.svg));
        crate::dom::lemma_node_ok(d0, d0.svg);
        match d0.first_defs(d0.children(d0.svg)) {
            Some(x) => {
                let k = choose|k: int| 0 <= k < d0.children(d0.svg).len() && d0.children(d0.svg)[k] == x;
                crate::dom::lemma_child(d0, d0.svg, k);
            },
            None => {},
        }
        assert(root_defs(d0) == (d1, root));
        assert(d1.nodes.len() >= d0.nodes.len());
        assert(d1.valid(root));
        assert(all_valid(d1, s0));
    }
    let mut k: usize = 0;
    while k < movers.len()
        invariant
            doc.wf(),
            d0.wf(),
            d1.valid(root),
            d1.nodes.len() <= d0.nodes.len() + 1,
            d0.nodes.len() <= d1.nodes.len(),
            movers@ == kept_where(s0, is_mover(d0, tags@)),
            all_valid(d0, movers@),
            forall|j: int| 0 <= j < movers@.len() ==> d0.parent(#[trigger] movers@[j]) is Some,
            k <= movers@.len(),
            (doc@, seld@) == moved_into(d1, s0, root, movers@.subrange(0, k as int)),
            doc@.nodes.len() == d1.nodes.len(),
            all_valid(doc@, seld@),
        decreases movers@.len() - k,
    {
        proof {
            assert(movers@.subrange(0, k + 1).drop_last() =~= movers@.subrange(0, k as int));
            assert(movers@.subrange(0, k + 1).last() == movers@[k as int]);
            assert(d0.valid(movers@[k as int]));
            assert(d0.parent(movers@[k as int]) is Some);
        }
        let m = movers[k];
        if doc.can_attach(m, root) {
            let ghost dp = doc@;
            doc.append_child(root, m);
            proof {
                assert(doc@.nodes.len() == dp.nodes.len());
            }
            let sub = doc.descendants(m);
            let ghost s1 = seld@;
            let mut out: Vec<NodeId> = Vec::new();
            let mut j: usize = 0;
            while j < seld.len()
                invariant
                    seld@ == s1,
                    all_valid(doc@, s1),
                    sub@ == doc@.subtree(m),
                    j <= s1.len(),
                    out@ == kept_where(s1.subrange(0, j as int), |n: NodeId| !doc@.subtree(m).contains(n)),
                decreases s1.len() - j,
            {
                proof {
                    assert(s1.subrange(0, j + 1).drop_last() =~= s1.subrange(0, j as int));
                }
                if !vec_contains(&sub, seld[j]) {
                    out.push(seld[j]);
                }
                j = j + 1;
            }
            proof {
                assert(s1.subrange(0, s1.len() as int) =~= s1);
                lemma_kept_valid(doc@, s1, |n: NodeId| !doc@.subtree(m).contains(n));
            }
            *seld = out;
        }
        k = k + 1;
    }
    proof {
        assert(movers@.subrange(0, movers@.len() as int) =~= movers@);
    }
}

/// Every `<defs>`, then every `<clipPath>` and `<mask>`, of the working set that is attached is
/// appended to the root `<defs>` (created on demand, only when something has to move); it and what
/// it holds leave the working set. The root `<defs>` itself and anything holding it stay.
pub fn move_defs_and_clips_to_root(doc: &mut Doc, seld: &mut Vec<NodeId>)
    requires
        old(doc).wf(),
        all_valid(old(doc)@, old(seld)@),
        old(doc)@.nodes.len() + 2 < u32::MAX,
    ensures
        final(doc).wf(),
        (final(doc)@, final(seld)@) == defs_and_clips_moved(old(doc)@, old(seld)@),
        all_valid(final(doc)@, final(seld)@),
{
    let defs_tags: [&'static str; 1] = ["defs"];
    move_pass(doc, seld, &defs_tags);
    let clip_tags: [&'static str; 2] = ["clipPath", "mask"];
    move_pass(doc, seld, &clip_tags);
    proof {
        assert(defs_tags@ =~= seq!["defs"]);
        assert(clip_tags@ =~= seq!["clipPath", "mask"]);
    }
}

/// What `kept_where` keeps comes from `els` and passes `keep`; what passes `keep` is kept.
pub proof fn lemma_kept_members(els: Seq<NodeId>, keep: spec_fn(NodeId) -> bool)
    ensures
        forall|i: int| 0 <= i < kept_where(els, keep).len() ==> els.contains(#[trigger] kept_where(els, keep)[i])
            && keep(kept_where(els, keep)[i]),
        forall|i: int| 0 <= i < els.len() && keep(#[trigger] els[i]) ==> kept_where(els, keep).contains(els[i]),
    decreases els.len(),
{
    if els.len() > 0 {
        let p = els.drop_last();
        let r = kept_where(p, keep);
        lemma_kept_members(p, keep);
        assert forall|i: int| 0 <= i < kept_where(els, keep).len() implies els.contains(#[trigger] kept_where(els, keep)[i])
            && keep(kept_where(els, keep)[i]) by {
            if i < r.len() {
                assert(kept_where(els, keep)[i] == r[i]);
                let j = choose|j: int| 0 <= j < p.len() && p[j] == r[i];
                assert(els[j] == p[j]);
            } else {
                assert(kept_where(els, keep)[i] == els.last());
                assert(els[els.len() - 1] == els.last());
            }
        }
        assert forall|i: int| 0 <= i < els.len() && keep(#[trigger] els[i]) implies kept_where(els, keep).contains(els[i]) by {
            if i < els.len() - 1 {
                assert(p[i] == els[i]);
                let j = choose|j: int| 0 <= j < r.len() && r[j] == els[i];
                if keep(els.last()) {
                    assert(r.push(els.last())[j] == els[i]);
                }
            } else {
                assert(r.push(els.last())[r.len() as int] == els[i]);
            }
        }
    }
}

/// What `kept_where` keeps of valid nodes is valid.
pub proof fn lemma_kept_valid(d: DocV, els: Seq<NodeId>, keep: spec_fn(NodeId) -> bool)
    requires
        all_valid(d, els),
    ensures
        all_valid(d, kept_where(els, keep)),
        forall|i: int| 0 <= i < kept_where(els, keep).len() ==> keep(#[trigger] kept_where(els, keep)[i]),
    decreases els.len(),
{
    if els.len() > 0 {
        assert(all_valid(d, els.drop_last()));
        lemma_kept_valid(d, els.drop_last(), keep);
    }
}

} // verus!
