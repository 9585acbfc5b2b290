//! The font probe's choice of text elements.
use vstd::prelude::*;
use crate::dom::{Doc, DocV, NodeId, vec_contains, lemma_subtree_valid};
use crate::strs::str_eq;
use crate::style::strings_view;
use crate::tools::gather::{added_where, gathered, lemma_selection_valid};

verus! {

pub open spec fn is_text_element(d: DocV) -> spec_fn(NodeId) -> bool {
    |n: NodeId| d.is_element(n) && (d.tag(n) == "text"@ || d.tag(n) == "flowRoot"@)
}

/// The roots searched: the selection, or the whole `<svg>` when nothing is selected.
pub open spec fn probe_roots(d: DocV, ids: Seq<Seq<char>>) -> Seq<NodeId> {
    if ids.len() == 0 {
        seq![d.svg]
    } else {
        d.keep_selected(ids, d.subtree(d.svg))
    }
}

/// Text elements in the selection (with descendants) or the whole document, in document order,
/// each once.
pub fn text_elements(doc: &Doc, ids: &[String]) -> (r: Vec<NodeId>)
    requires
        doc.wf(),
    ensures
        r@ == gathered(doc@, probe_roots(doc@, strings_view(ids@)), is_text_element(doc@)),
{
    let roots: Vec<NodeId> = if ids.len() == 0 {
        let mut v = Vec::new();
        v.push(doc.svg());
        v
    } else {
        doc.selection(ids)
    };
    let ghost rs = probe_roots(doc@, strings_view(ids@));
    proof {
        lemma_subtree_valid(doc@, doc@.svg);
        lemma_selection_valid(doc@, strings_view(ids@), doc@.subtree(doc@.svg));
        assert(roots@ =~= rs);
    }
    let mut out: Vec<NodeId> = Vec::new();
    let mut i: usize = 0;
    while i < roots.len()
        invariant
            doc.wf(),
            roots@ == rs,
            forall|k: int| 0 <= k < rs.len() ==> doc@.valid(#[trigger] rs[k]),
            i <= roots@.len(),
            out@ == gathered(doc@, rs.subrange(0, i as int), is_text_element(doc@)),
        decreases roots@.len() - i,
    {
        let root = roots[i];
        proof {
            assert(rs.subrange(0, i + 1).drop_last() =~= rs.subrange(0, i as int));
            assert(doc@.valid(rs[i as int]));
        }
        let ds = doc.descendants(root);
        let ghost acc = out@;
        proof {
            lemma_subtree_valid(doc@, root);
            assert(ds@.subrange(0, 0) =~= Seq::<NodeId>::empty());
        }
        let mut j: usize = 0;
        while j < ds.len()
            invariant
                doc.wf(),
                ds@ == doc@.subtree(root),
                forall|k: int| 0 <= k < ds@.len() ==> doc@.valid(#[trigger] ds@[k]),
                j <= ds@.len(),
                out@ == added_where(acc, ds@.subrange(0, j as int), is_text_element(doc@)),
            decreases ds@.len() - j,
        {
            let n = ds[j];
            proof {
                assert(ds@.subrange(0, j + 1).drop_last() =~= ds@.subrange(0, j as int));
                assert(doc@.valid(ds@[j as int]));
            }
            if doc.is_element(n) && (str_eq(doc.tag(n), "text") || str_eq(doc.tag(n), "flowRoot")) && !vec_contains(&out, n) {
                out.push(n);
            }
            j = j + 1;
        }
        proof {
            assert(ds@.subrange(0, ds@.len() as int) =~= ds@);
        }
        i = i + 1;
    }
    proof {
        assert(rs.subrange(0, rs.len() as int) =~= rs);
    }
    out
}

} // verus!
