//! Records the text stages hand to the document writer, and the clip a text element is under.
use vstd::prelude::*;
use crate::cascade::specified_of;
use crate::cleanup::{url_id, url_id_of};
use crate::dom::{Doc, DocV, NodeId};
use crate::style::style_get;

verus! {

/// Elements whose `clip-path`s must be unioned onto `target` because their text was merged
/// into it.
#[derive(Debug, Clone)]
pub struct ClipUnion {
    pub target: NodeId,
    pub others: Vec<NodeId>,
}

/// The `clip-path` of `el`: its attribute, else its specified style.
pub open spec fn clip_value(d: DocV, el: NodeId) -> Option<Seq<char>> {
    match d.attr(el, "clip-path"@) {
        Some(v) => Some(v),
        None => style_get(specified_of(d, el), "clip-path"@),
    }
}

/// The element `el`'s `clip-path` points at; none for no or a dangling reference.
pub open spec fn clip_of_spec(d: DocV, el: NodeId) -> Option<NodeId> {
    match clip_value(d, el) {
        None => None,
        Some(v) => match url_id_of(v) {
            None => None,
            Some(id) => if d.ids.contains_key(id) {
                Some(d.ids[id])
            } else {
                None
            },
        },
    }
}

pub fn clip_of(doc: &Doc, el: NodeId) -> (r: Option<NodeId>)
    requires
        doc.wf(),
        doc@.valid(el),
    ensures
        r == clip_of_spec(doc@, el),
{
    let v: String = match doc.attr(el, "clip-path") {
        Some(v) => v.to_owned(),
        None => {
            let st = doc.specified_style(el);
            match st.get("clip-path") {
                Some(v) => v.to_owned(),
                None => {
                    return None;
                },
            }
        },
    };
    match url_id(v.as_str()) {
        Some(id) => doc.by_id(id.as_str()),
        None => None,
    }
}

} // verus!
