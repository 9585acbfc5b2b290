//! Combine by Color: which selected elements are path-like.
use vstd::prelude::*;
use crate::dom::{Doc, DocV, NodeId, vec_contains, lemma_subtree_valid};
use crate::strs::{in_list, listed};
use crate::style::strings_view;
use crate::tools::gather::{added_where, gathered, lemma_selection_valid};

verus! {

/// Tags that are never combined.
pub const SKIP_TAGS: [&'static str; 6] = ["namedview", "defs", "metadata", "foreignObject", "g", "missing-glyph"];

/// An element not of a skipped tag that carries `d`, `points` or `x1`.
pub open spec fn is_pathlike(d: DocV) -> spec_fn(NodeId) -> bool {
    |n: NodeId| d.is_element(n) && !listed(SKIP_TAGS@, d.tag(n)) && (d.attr(n, "d"@) is Some
        || d.attr(n, "points"@) is Some || d.attr(n, "x1"@) is Some)
}

/// The selection and its descendants (document order, each once), keeping the path-like
/// elements.
pub fn candidates(doc: &Doc, ids: &[String]) -> (r: Vec<NodeId>)
    requires
        doc.wf(),
    ensures
        r@ == gathered(doc@, doc@.keep_selected(strings_view(ids@), doc@.subtree(doc@.svg)), is_pathlike(doc@)),
{
    let roots = doc.selection(ids);
    let ghost rs = roots@;
    proof {
        lemma_subtree_valid(doc@, doc@.svg);
        lemma_selection_valid(doc@, strings_view(ids@), doc@.subtree(doc@.svg));
    }
    let mut out: Vec<NodeId> = Vec::new();
    let mut i: usize = 0;
    while i < roots.len()
        invariant
            doc.wf(),
            roots@ == rs,
            forall|k: int| 0 <= k < rs.len() ==> doc@.valid(#[trigger] rs[k]),
            i <= roots@.len(),
            out@ == gathered(doc@, rs.subrange(0, i as int), is_pathlike(doc@)),
        decreases roots@.len() - i,
    {
        let root = roots[i];
        proof {
            assert(rs.subrange(0, i + 1).drop_last() =~= rs.subrange(0, i as int));
            assert(doc@.valid(rs[i as int]));
        }
        let ds = doc.descendants(root);
        let ghost acc = out@;
        proof {
            lemma_subtree_valid(doc@, root);
            assert(ds@.subrange(0, 0) =~= Seq::<NodeId>::empty());
        }
        let mut j: usize = 0;
        while j < ds.len()
            invariant
                doc.wf(),
                ds@ == doc@.subtree(root),
                forall|k: int| 0 <= k < ds@.len() ==> doc@.valid(#[trigger] ds@[k]),
                j <= ds@.len(),
                out@ == added_where(acc, ds@.subrange(0, j as int), is_pathlike(doc@)),
            decreases ds@.len() - j,
        {
            let n = ds[j];
            proof {
                assert(ds@.subrange(0, j + 1).drop_last() =~= ds@.subrange(0, j as int));
                assert(doc@.valid(ds@[j as int]));
            }
            if doc.is_element(n) && !in_list(&SKIP_TAGS, doc.tag(n)) {
                let pathlike = doc.attr(n, "d").is_some() || doc.attr(n, "points").is_some() || doc.attr(n, "x1").is_some();
                if pathlike && !vec_contains(&out, n) {
                    out.push(n);
                }
            }
            j = j + 1;
        }
        proof {
            assert(ds@.subrange(0, ds@.len() as int) =~= ds@);
        }
        i = i + 1;
    }
    proof {
        assert(rs.subrange(0, rs.len() as int) =~= rs);
    }
    out
}

} // verus!
