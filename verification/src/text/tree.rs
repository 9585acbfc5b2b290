//! The lxml-style view of a text element: every element or comment descendant has a `.text`
//! (its leading text child) and a `.tail` (the text sibling that follows it).
use vstd::prelude::*;
use crate::dom::{Doc, DocV, NodeId, KindV, lemma_child, lemma_depth_bound, lemma_fresh_not_anc, lemma_node_ok};
use crate::cli::opt_view;

verus! {

/// A block of text in document order: the `.text` of `node` or, with `is_tail`, its `.tail`;
/// `ddi` is the node's index in the tree and `style_node` the node whose style applies.
#[derive(Debug, Clone, Copy, PartialEq, Eq, Structural)]
pub struct Run {
    pub ddi: usize,
    pub node: NodeId,
    pub is_tail: bool,
    pub style_node: NodeId,
}

/// The element and comment descendants of a text element in pre-order (the element itself
/// first), each with the index of its parent in the same list.
pub struct TextTree {
    pub dds: Vec<NodeId>,
    pub parent: Vec<Option<usize>>,
}

/// Elements and comments take part in the tree; text nodes are `.text`/`.tail`.
pub open spec fn kept(d: DocV, c: NodeId) -> bool {
    d.is_element(c) || d.is_comment(c)
}

pub open spec fn opt_int(o: Option<usize>) -> Option<int> {
    match o {
        Some(p) => Some(p as int),
        None => None,
    }
}

/// The entries for `x` (index `me`, parent index `p`) and, when `expand`, its kept descendants.
pub open spec fn tt_f(d: DocV, x: NodeId, p: Option<int>, me: int, expand: bool, fuel: nat) -> Seq<(NodeId, Option<int>)>
    decreases fuel, 0nat,
{
    if fuel == 0 {
        seq![]
    } else {
        let kids = if expand {
            d.children(x)
        } else {
            seq![]
        };
        seq![(x, p)] + tt_list(d, kids, me, me + 1, (fuel - 1) as nat)
    }
}

/// The entries for the kept nodes of `cs` and their descendants, the first at index `start`;
/// `parent` is the index of the node they are children of.
pub open spec fn tt_list(d: DocV, cs: Seq<NodeId>, parent: int, start: int, fuel: nat) -> Seq<(NodeId, Option<int>)>
    decreases fuel, cs.len(),
{
    if cs.len() == 0 {
        seq![]
    } else {
        let pre = tt_list(d, cs.drop_last(), parent, start, fuel);
        let c = cs.last();
        if kept(d, c) {
            pre + tt_f(d, c, Some(parent), start + pre.len(), d.is_element(c), fuel)
        } else {
            pre
        }
    }
}

pub open spec fn fuel_of(d: DocV, x: NodeId) -> nat {
    (d.nodes.len() - d.dep(x)) as nat
}

/// The tree of `el`.
pub open spec fn text_tree(d: DocV, el: NodeId) -> Seq<(NodeId, Option<int>)> {
    tt_f(d, el, None, 0, true, fuel_of(d, el))
}

/// The runs of `x` (index `me`) and its kept descendants: its `.text` unless it is a comment,
/// then for each kept child its runs followed by its `.tail`, styled by `x`.
pub open spec fn runs_f(d: DocV, x: NodeId, me: int, expand: bool, fuel: nat) -> Seq<Run>
    decreases fuel, 0nat,
{
    if fuel == 0 {
        seq![]
    } else {
        let kids = if expand {
            d.children(x)
        } else {
            seq![]
        };
        let own = if d.is_comment(x) {
            seq![]
        } else {
            seq![Run { ddi: me as usize, node: x, is_tail: false, style_node: x }]
        };
        own + runs_list(d, kids, x, me, me + 1, (fuel - 1) as nat)
    }
}

pub open spec fn runs_list(d: DocV, cs: Seq<NodeId>, pnode: NodeId, parent: int, start: int, fuel: nat) -> Seq<Run>
    decreases fuel, cs.len(),
{
    if cs.len() == 0 {
        seq![]
    } else {
        let pre = runs_list(d, cs.drop_last(), pnode, parent, start, fuel);
        let c = cs.last();
        let at = start + tt_list(d, cs.drop_last(), parent, start, fuel).len();
        if kept(d, c) {
            pre + runs_f(d, c, at, d.is_element(c), fuel) + seq![
                Run { ddi: at as usize, node: c, is_tail: true, style_node: pnode },
            ]
        } else {
            pre
        }
    }
}

/// The runs of the text element `el`, in document order; `el`'s own tail is not part of it.
pub open spec fn text_runs(d: DocV, el: NodeId) -> Seq<Run> {
    runs_f(d, el, 0, true, fuel_of(d, el))
}

/// A prefix of a child list has no more entries than the whole list.
proof fn lemma_tt_list_prefix(d: DocV, cs: Seq<NodeId>, parent: int, start: int, fuel: nat, k: int)
    requires
        0 <= k <= cs.len(),
    ensures
        tt_list(d, cs.subrange(0, k), parent, start, fuel).len() <= tt_list(d, cs, parent, start, fuel).len(),
    decreases cs.len() - k,
{
    if k < cs.len() {
        lemma_tt_list_prefix(d, cs.drop_last(), parent, start, fuel, k);
        assert(cs.drop_last().subrange(0, k) =~= cs.subrange(0, k));
    } else {
        assert(cs.subrange(0, k) =~= cs);
    }
}

impl TextTree {
    /// The tree as `(node, parent index)` pairs.
    pub open spec fn entries(&self) -> Seq<(NodeId, Option<int>)> {
        Seq::new(self.dds@.len(), |i: int| (self.dds@[i], opt_int(self.parent@[i])))
    }

    pub open spec fn well_formed(&self) -> bool {
        self.dds@.len() == self.parent@.len()
    }

    /// Adds the entries of `x` (with parent index `p`) and, when `expand`, of its kept
    /// descendants.
    fn collect(
        doc: &Doc,
        x: NodeId,
        p: Option<usize>,
        expand: bool,
        dds: &mut Vec<NodeId>,
        parent: &mut Vec<Option<usize>>,
        Ghost(fuel): Ghost<nat>,
    )
        requires
            doc.wf(),
            doc@.valid(x),
            fuel == fuel_of(doc@, x),
            old(dds)@.len() == old(parent)@.len(),
        ensures
            final(dds)@.len() == final(parent)@.len(),
            (TextTree { dds: *final(dds), parent: *final(parent) }).entries() == (TextTree {
                dds: *old(dds),
                parent: *old(parent),
            }).entries() + tt_f(doc@, x, opt_int(p), old(dds)@.len() as int, expand, fuel),
        decreases fuel,
    {
        proof {
            lemma_depth_bound(doc@, x);
        }
        let ghost e0 = (TextTree { dds: *dds, parent: *parent }).entries();
        let me = dds.len();
        dds.push(x);
        parent.push(p);
        proof {
            assert((TextTree { dds: *dds, parent: *parent }).entries() =~= e0.push((x, opt_int(p))));
        }
        if expand {
            let cs = doc.children(x);
            let ghost mid = (TextTree { dds: *dds, parent: *parent }).entries();
            let mut i: usize = 0;
            while i < cs.len()
                invariant
                    doc.wf(),
                    doc@.valid(x),
                    cs@ == doc@.children(x),
                    fuel == fuel_of(doc@, x),
                    fuel >= 1,
                    i <= cs@.len(),
                    dds@.len() == parent@.len(),
                    me as int + 1 == mid.len(),
                    (TextTree { dds: *dds, parent: *parent }).entries() == mid + tt_list(
                        doc@,
                        cs@.subrange(0, i as int),
                        me as int,
                        me + 1,
                        (fuel - 1) as nat,
                    ),
                decreases cs@.len() - i,
            {
                let c = cs[i];
                proof {
                    lemma_child(doc@, x, i as int);
                    lemma_depth_bound(doc@, c);
                    assert(cs@.subrange(0, i + 1).drop_last() =~= cs@.subrange(0, i as int));
                    assert(cs@.subrange(0, i + 1).last() == c);
                }
                let ghost pre = tt_list(doc@, cs@.subrange(0, i as int), me as int, me + 1, (fuel - 1) as nat);
                if doc.is_element(c) || doc.is_comment(c) {
                    let ghost before = (TextTree { dds: *dds, parent: *parent }).entries();
                    proof {
                        assert(before.len() == dds@.len());
                        assert(dds@.len() == me + 1 + pre.len());
                    }
                    Self::collect(doc, c, Some(me), doc.is_element(c), dds, parent, Ghost((fuel - 1) as nat));
                    proof {
                        assert((TextTree { dds: *dds, parent: *parent }).entries() =~= mid + tt_list(
                            doc@,
                            cs@.subrange(0, i + 1),
                            me as int,
                            me + 1,
                            (fuel - 1) as nat,
                        ));
                    }
                }
                i = i + 1;
            }
            proof {
                assert(cs@.subrange(0, cs@.len() as int) =~= cs@);
                assert((TextTree { dds: *dds, parent: *parent }).entries() =~= e0 + tt_f(doc@, x, opt_int(p), me as int, expand, fuel));
            }
        } else {
            proof {
                assert((TextTree { dds: *dds, parent: *parent }).entries() =~= e0 + tt_f(doc@, x, opt_int(p), me as int, expand, fuel));
            }
        }
    }

    /// Pre-order element and comment descendants of `el`, starting with `el` itself.
    pub fn new(doc: &Doc, el: NodeId) -> (r: TextTree)
        requires
            doc.wf(),
            doc@.valid(el),
        ensures
            r.well_formed(),
            r.entries() == text_tree(doc@, el),
    {
        let mut dds: Vec<NodeId> = Vec::new();
        let mut parent: Vec<Option<usize>> = Vec::new();
        proof {
            assert((TextTree { dds: dds, parent: parent }).entries() =~= Seq::<(NodeId, Option<int>)>::empty());
        }
        Self::collect(doc, el, None, true, &mut dds, &mut parent, Ghost(fuel_of(doc@, el)));
        let r = TextTree { dds, parent };
        proof {
            assert(r.entries() =~= text_tree(doc@, el));
        }
        r
    }

    /// Adds the runs of `x` (index `me`) and its kept descendants; returns the index that
    /// follows them.
    fn emit_runs(
        doc: &Doc,
        x: NodeId,
        me: usize,
        expand: bool,
        out: &mut Vec<Run>,
        Ghost(p): Ghost<Option<int>>,
        Ghost(fuel): Ghost<nat>,
    ) -> (next: usize)
        requires
            doc.wf(),
            doc@.valid(x),
            fuel == fuel_of(doc@, x),
            me + tt_f(doc@, x, p, me as int, expand, fuel).len() <= usize::MAX,
        ensures
            final(out)@ == old(out)@ + runs_f(doc@, x, me as int, expand, fuel),
            next == me + tt_f(doc@, x, p, me as int, expand, fuel).len(),
        decreases fuel,
    {
        proof {
            lemma_depth_bound(doc@, x);
        }
        let ghost start = out@;
        let comment = doc.is_comment(x);
        if !comment {
            out.push(Run { ddi: me, node: x, is_tail: false, style_node: x });
        }
        let ghost own = if comment {
            Seq::<Run>::empty()
        } else {
            seq![Run { ddi: me, node: x, is_tail: false, style_node: x }]
        };
        proof {
            assert(out@ =~= start + own);
        }
        let mut at: usize = me + 1;
        if expand {
            let cs = doc.children(x);
            let mut i: usize = 0;
            while i < cs.len()
                invariant
                    doc.wf(),
                    doc@.valid(x),
                    cs@ == doc@.children(x),
                    fuel == fuel_of(doc@, x),
                    fuel >= 1,
                    expand,
                    i <= cs@.len(),
                    me + 1 + tt_list(doc@, cs@, me as int, me + 1, (fuel - 1) as nat).len() <= usize::MAX,
                    at == me + 1 + tt_list(doc@, cs@.subrange(0, i as int), me as int, me + 1, (fuel - 1) as nat).len(),
                    out@ == start + own + runs_list(
                        doc@,
                        cs@.subrange(0, i as int),
                        x,
                        me as int,
                        me + 1,
                        (fuel - 1) as nat,
                    ),
                decreases cs@.len() - i,
            {
                let c = cs[i];
                proof {
                    lemma_child(doc@, x, i as int);
                    lemma_depth_bound(doc@, c);
                    assert(cs@.subrange(0, i + 1).drop_last() =~= cs@.subrange(0, i as int));
                    assert(cs@.subrange(0, i + 1).last() == c);
                    lemma_tt_list_prefix(doc@, cs@, me as int, me + 1, (fuel - 1) as nat, i + 1);
                }
                if doc.is_element(c) || doc.is_comment(c) {
                    let nx = Self::emit_runs(
                        doc,
                        c,
                        at,
                        doc.is_element(c),
                        out,
                        Ghost(Some(me as int)),
                        Ghost((fuel - 1) as nat),
                    );
                    out.push(Run { ddi: at, node: c, is_tail: true, style_node: x });
                    proof {
                        assert(out@ =~= start + own + runs_list(
                            doc@,
                            cs@.subrange(0, i + 1),
                            x,
                            me as int,
                            me + 1,
                            (fuel - 1) as nat,
                        ));
                    }
                    at = nx;
                }
                i = i + 1;
            }
            proof {
                assert(cs@.subrange(0, cs@.len() as int) =~= cs@);
            }
        }
        proof {
            assert(out@ =~= start + runs_f(doc@, x, me as int, expand, fuel));
        }
        at
    }

    /// Text blocks in document order: the `.text` of each node when entering it (none for a
    /// comment), and its `.tail` right after its last descendant, styled by its parent. The
    /// text element's own tail is not part of it.
    pub fn runs(&self, doc: &Doc) -> (r: Vec<Run>)
        requires
            doc.wf(),
            self.well_formed(),
            self.dds@.len() > 0,
            doc@.valid(self.dds@[0]),
            self.entries() == text_tree(doc@, self.dds@[0]),
        ensures
            r@ == text_runs(doc@, self.dds@[0]),
    {
        let mut out: Vec<Run> = Vec::new();
        let el = self.dds[0];
        let n = self.dds.len();
        proof {
            assert(self.entries().len() == self.dds@.len());
            assert(text_tree(doc@, el).len() == n);
        }
        let _ = Self::emit_runs(doc, el, 0, true, &mut out, Ghost(None), Ghost(fuel_of(doc@, el)));
        proof {
            assert(out@ =~= text_runs(doc@, el));
        }
        out
    }

    /// Whether entry `ddi` is a child of the text element itself.
    pub fn is_top_level(&self, ddi: usize) -> (r: bool)
        ensures
            r == (ddi < self.parent@.len() && self.parent@[ddi as int] == Some(0usize)),
    {
        if ddi < self.parent.len() {
            match self.parent[ddi] {
                Some(p) => p == 0,
                None => false,
            }
        } else {
            false
        }
    }
}

/// The text node holding a run's text: the first child of the node for a `.text`, its next
/// sibling for a `.tail`; none when that node is missing or not text.
pub open spec fn run_text_node(d: DocV, r: Run) -> Option<NodeId> {
    let cand = if r.is_tail {
        d.next_sibling(r.node)
    } else if d.children(r.node).len() == 0 {
        None
    } else {
        Some(d.children(r.node)[0])
    };
    match cand {
        Some(t) => if d.text(t) is Some {
            Some(t)
        } else {
            None
        },
        None => None,
    }
}

/// The `.text` or `.tail` a run stands for.
pub open spec fn run_text_of(d: DocV, r: Run) -> Option<Seq<char>> {
    match run_text_node(d, r) {
        Some(t) => d.text(t),
        None => None,
    }
}

/// The document after a run's text is set to `s`: the text node is rewritten, detached (`None`),
/// or, when there is none, a new one is made and placed as the node's first child (`.text`) or
/// right after the node (`.tail`).
pub open spec fn run_text_set(d: DocV, r: Run, s: Option<Seq<char>>) -> DocV {
    match (run_text_node(d, r), s) {
        (Some(t), Some(v)) => d.text_set(t, v),
        (Some(t), None) => d.detached(t),
        (None, Some(v)) => {
            let d1 = d.allocated(KindV::Text(v));
            let t = d.nodes.len() as NodeId;
            if r.is_tail {
                match d.next_sibling(r.node) {
                    None => d1.appended(d.parent(r.node).unwrap(), t),
                    Some(nx) => d1.inserted_before(t, nx),
                }
            } else if d.children(r.node).len() == 0 {
                d1.appended(r.node, t)
            } else {
                d1.inserted_before(t, d.children(r.node)[0])
            }
        },
        (None, None) => d,
    }
}

/// The text node of a run is a node of the document.
pub proof fn lemma_run_text_node_valid(d: DocV, r: Run)
    requires
        d.wf(),
        d.valid(r.node),
    ensures
        run_text_node(d, r) matches Some(t) ==> d.valid(t),
{
    lemma_node_ok(d, r.node);
    if r.is_tail {
        if let Some(p) = d.parent(r.node) {
            lemma_node_ok(d, p);
            let k = crate::dom::pos_in(d.children(p), r.node) + 1;
            if 0 <= k < d.children(p).len() {
                lemma_child(d, p, k);
            }
        }
    } else if d.children(r.node).len() > 0 {
        lemma_child(d, r.node, 0);
    }
}

fn text_node(doc: &Doc, r: &Run) -> (t: Option<NodeId>)
    requires
        doc.wf(),
        doc@.valid(r.node),
    ensures
        t == run_text_node(doc@, *r),
        t matches Some(x) ==> doc@.valid(x),
{
    let cand = if r.is_tail {
        doc.next_sibling(r.node)
    } else {
        doc.first_child(r.node)
    };
    proof {
        lemma_node_ok(doc@, r.node);
        if r.is_tail {
            if let Some(p) = doc@.parent(r.node) {
                lemma_node_ok(doc@, p);
                let k = crate::dom::pos_in(doc@.children(p), r.node) + 1;
                if 0 <= k < doc@.children(p).len() {
                    lemma_child(doc@, p, k);
                }
            }
        } else if doc@.children(r.node).len() > 0 {
            lemma_child(doc@, r.node, 0);
        }
    }
    match cand {
        Some(t) => {
            if doc.text(t).is_some() {
                Some(t)
            } else {
                None
            }
        },
        None => None,
    }
}

/// The `.text` or `.tail` of the run's node.
pub fn run_text(doc: &Doc, r: &Run) -> (s: Option<String>)
    requires
        doc.wf(),
        doc@.valid(r.node),
    ensures
        opt_view(s) == run_text_of(doc@, *r),
{
    match text_node(doc, r) {
        Some(t) => match doc.text(t) {
            Some(x) => Some(x.to_owned()),
            None => None,
        },
        None => None,
    }
}

/// Creates, replaces or removes the run's text node.
pub fn set_run_text(doc: &mut Doc, r: &Run, s: Option<&str>)
    requires
        old(doc).wf(),
        old(doc)@.valid(r.node),
        run_text_node(old(doc)@, *r) is None && s is Some ==> {
            &&& old(doc)@.nodes.len() + 1 < u32::MAX
            &&& r.is_tail ==> old(doc)@.parent(r.node) is Some
        },
    ensures
        final(doc).wf(),
        final(doc)@ == run_text_set(old(doc)@, *r, match s {
            Some(v) => Some(v@),
            None => None,
        }),
{
    let ghost d0 = doc@;
    match (text_node(doc, r), s) {
        (Some(t), Some(v)) => doc.set_text(t, v),
        (Some(t), None) => doc.detach(t),
        (None, Some(v)) => {
            let t = doc.new_text(v);
            proof {
                let d1 = doc@;
                lemma_fresh_not_anc(d0, KindV::Text(v@), r.node, d1.dep(r.node));
                lemma_node_ok(d0, r.node);
                assert(d1.nodes[r.node as int] == d0.nodes[r.node as int]);
                if let Some(p) = d0.parent(r.node) {
                    lemma_node_ok(d0, p);
                    assert(d1.nodes[p as int] == d0.nodes[p as int]);
                    assert(d1.next_sibling(r.node) == d0.next_sibling(r.node));
                    let k = crate::dom::pos_in(d0.children(p), r.node) + 1;
                    if 0 <= k < d0.children(p).len() {
                        lemma_child(d0, p, k);
                    }
                }
                if d0.children(r.node).len() > 0 {
                    lemma_child(d0, r.node, 0);
                }
            }
            if r.is_tail {
                doc.insert_after(t, r.node);
            } else {
                doc.prepend_child(r.node, t);
            }
        },
        (None, None) => {},
    }
}

} // verus!
