//! Elements gathered from the subtrees of a selection, in document order, each once.
use vstd::prelude::*;
use crate::dom::{Doc, DocV, NodeId, vec_contains, lemma_subtree_valid};
use crate::style::strings_view;

verus! {

/// `acc` followed by the members of `ns` that pass `keep` and are not yet listed.
pub open spec fn added_where(acc: Seq<NodeId>, ns: Seq<NodeId>, keep: spec_fn(NodeId) -> bool) -> Seq<NodeId>
    decreases ns.len(),
{
    if ns.len() == 0 {
        acc
    } else {
        let a = added_where(acc, ns.drop_last(), keep);
        if keep(ns.last()) && !a.contains(ns.last()) {
            a.push(ns.last())
        } else {
            a
        }
    }
}

/// The members of the subtrees of `roots` that pass `keep`, in order, each once.
pub open spec fn gathered(d: DocV, roots: Seq<NodeId>, keep: spec_fn(NodeId) -> bool) -> Seq<NodeId>
    decreases roots.len(),
{
    if roots.len() == 0 {
        seq![]
    } else {
        added_where(gathered(d, roots.drop_last(), keep), d.subtree(roots.last()), keep)
    }
}

/// The selected nodes are nodes of the document.
pub proof fn lemma_selection_valid(d: DocV, ids: Seq<Seq<char>>, ns: Seq<NodeId>)
    requires
        forall|i: int| 0 <= i < ns.len() ==> d.valid(#[trigger] ns[i]),
    ensures
        forall|i: int| 0 <= i < d.keep_selected(ids, ns).len() ==> d.valid(#[trigger] d.keep_selected(ids, ns)[i]),
    decreases ns.len(),
{
    if ns.len() > 0 {
        lemma_selection_valid(d, ids, ns.drop_last());
        let r = d.keep_selected(ids, ns.drop_last());
        assert(d.valid(ns[ns.len() - 1]));
        if d.selected(ids, ns.last()) {
            assert forall|i: int| 0 <= i < r.push(ns.last()).len() implies d.valid(#[trigger] r.push(ns.last())[i]) by {
                if i < r.len() {
                    assert(r.push(ns.last())[i] == r[i]);
                }
            }
        }
    }
}

} // verus!
