//! Which elements have a bounding box and which are drawn.
use vstd::prelude::*;
use crate::cascade::specified_of;
use crate::dom::{Doc, DocV, NodeId, lemma_node_ok};
use crate::strs::{in_list, listed, str_eq};
use crate::style::style_get;
use crate::xml::{trim, trimmed};

verus! {

/// Which box: `transform` = in root coordinates (else in the element's own frame); `stroke` =
/// grow shapes by half the stroke width; `rough` = control-point box instead of the tight one;
/// `clip` = clamp by `clip-path`/`mask`.
#[derive(Debug, Clone, Copy, PartialEq, Eq, Structural)]
pub struct BboxOpts {
    pub transform: bool,
    pub stroke: bool,
    pub rough: bool,
    pub clip: bool,
}

/// Tags Inkscape never renders, with everything under them (local names).
pub const UNRENDERED: [&'static str; 15] = [
    "namedview",
    "defs",
    "metadata",
    "foreignObject",
    "guide",
    "clipPath",
    "style",
    "tspan",
    "flowRegion",
    "flowPara",
    "mask",
    "RDF",
    "Work",
    "format",
    "type",
];

/// Containers whose box is the union of their children.
pub const GROUPLIKE: [&'static str; 7] = ["svg", "g", "clipPath", "symbol", "mask", "a", "switch"];

/// `cur` and every ancestor up to the root `<svg>` is a rendered element, and the chain reaches
/// the root `<svg>`.
pub open spec fn rendered_up(d: DocV, cur: NodeId, fuel: nat) -> bool
    decreases fuel,
{
    if cur == d.svg {
        true
    } else if !d.is_element(cur) || listed(UNRENDERED@, d.tag(cur)) {
        false
    } else if fuel == 0 {
        false
    } else {
        match d.parent(cur) {
            Some(p) => rendered_up(d, p, (fuel - 1) as nat),
            None => false,
        }
    }
}

pub open spec fn has_bbox_spec(d: DocV, n: NodeId) -> bool {
    rendered_up(d, n, d.dep(n))
}

/// `n` and every ancestor is a rendered tag, and the chain reaches the root `<svg>`.
pub fn has_bbox(doc: &Doc, n: NodeId) -> (r: bool)
    requires
        doc.wf(),
        doc@.valid(n),
    ensures
        r == has_bbox_spec(doc@, n),
{
    let svg = doc.svg();
    let mut cur = n;
    loop
        invariant
            doc.wf(),
            doc@.valid(cur),
            svg == doc@.svg,
            rendered_up(doc@, cur, doc@.dep(cur)) == has_bbox_spec(doc@, n),
        decreases doc@.dep(cur),
    {
        proof {
            lemma_node_ok(doc@, cur);
        }
        if cur == svg {
            return true;
        }
        if !doc.is_element(cur) || in_list(&UNRENDERED, doc.tag(cur)) {
            return false;
        }
        match doc.parent(cur) {
            Some(p) => {
                proof {
                    lemma_node_ok(doc@, p);
                }
                cur = p;
            },
            None => {
                return false;
            },
        }
    }
}

/// Has a box, is not a container, and is not `display:none`.
pub open spec fn is_drawn_spec(d: DocV, n: NodeId) -> bool {
    &&& d.is_element(n)
    &&& !listed(GROUPLIKE@, d.tag(n))
    &&& has_bbox_spec(d, n)
    &&& match style_get(specified_of(d, n), "display"@) {
        Some(v) => trimmed(v) != "none"@,
        None => true,
    }
}

pub fn is_drawn(doc: &Doc, n: NodeId) -> (r: bool)
    requires
        doc.wf(),
        doc@.valid(n),
    ensures
        r == is_drawn_spec(doc@, n),
{
    if !doc.is_element(n) || in_list(&GROUPLIKE, doc.tag(n)) || !has_bbox(doc, n) {
        return false;
    }
    match doc.specified(n, "display") {
        Some(v) => {
            let t = trim(v.as_str());
            !str_eq(t.as_str(), "none")
        },
        None => true,
    }
}

} // verus!
