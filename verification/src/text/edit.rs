//! Model-editing vocabulary: which node's style a character carries, style equality, and how a
//! merged chunk relates to the text it joins.
use vstd::prelude::*;
use crate::dom::{Doc, DocV, NodeId};
use crate::style::{Style, Decls, style_get};
use crate::text::parse::CharLoc;

verus! {

/// The node whose style a character carries: the node itself for a text run, its parent for a
/// tail (the node itself when it has none).
pub open spec fn sel_spec(d: DocV, loc: CharLoc) -> NodeId {
    if loc.tail {
        match d.parent(loc.node) {
            Some(p) => p,
            None => loc.node,
        }
    } else {
        loc.node
    }
}

pub fn sel(doc: &Doc, loc: &CharLoc) -> (r: NodeId)
    requires
        doc.wf(),
        doc@.valid(loc.node),
    ensures
        r == sel_spec(doc@, *loc),
{
    if loc.tail {
        match doc.parent(loc.node) {
            Some(p) => p,
            None => loc.node,
        }
    } else {
        loc.node
    }
}

/// Order-insensitive equality: as many declarations, and each of `a`'s is what `b` gives.
pub open spec fn styles_equal(a: Decls, b: Decls) -> bool {
    a.len() == b.len() && forall|i: int| 0 <= i < a.len() ==> #[trigger] style_get(b, a[i].0) == Some(a[i].1)
}

pub fn style_eq(a: &Style, b: &Style) -> (r: bool)
    ensures
        r == styles_equal(a@, b@),
{
    proof {
        assert(a@.len() == a.0@.len() && b@.len() == b.0@.len());
    }
    if a.0.len() != b.0.len() {
        return false;
    }
    let mut i: usize = 0;
    while i < a.0.len()
        invariant
            a@.len() == a.0@.len(),
            i <= a.0@.len(),
            a.0@.len() == b.0@.len(),
            forall|j: int| 0 <= j < i ==> #[trigger] style_get(b@, a@[j].0) == Some(a@[j].1),
        decreases a.0@.len() - i,
    {
        let (k, v) = (&a.0[i].0, &a.0[i].1);
        proof {
            assert(a@[i as int] == (k@, v@));
        }
        match b.get(k.as_str()) {
            Some(w) => {
                if !crate::strs::str_eq(w, v.as_str()) {
                    proof {
                        assert(style_get(b@, a@[i as int].0) != Some(a@[i as int].1));
                    }
                    return false;
                }
            },
            None => {
                proof {
                    assert(style_get(b@, a@[i as int].0) != Some(a@[i as int].1));
                }
                return false;
            },
        }
        i = i + 1;
    }
    true
}

/// How a merged chunk relates to the text it joins.
#[derive(Debug, Clone, Copy, PartialEq, Eq, Structural)]
pub enum WType {
    Normal,
    Sub,
    Super,
}

/// `(index into the parsed-text arena, chunk id)`: how merge plans name a chunk.
pub type ChunkRef = (usize, u32);

/// A chunk to be typed after a target chunk.
pub struct Incoming {
    pub chunk: ChunkRef,
    pub wtype: WType,
    /// Cap on the spaces inserted before this block (`None` = as many as the gap says).
    pub max_spaces: Option<usize>,
}

} // verus!
