//! Vocabulary of the parsed-text model: where a character sits in the document and where a
//! parsed element came from.
use vstd::prelude::*;
use crate::dom::NodeId;

verus! {

/// How a line's first character is positioned relative to the `sodipodi:role="line"` structure.
#[derive(Debug, Clone, Copy, PartialEq, Eq, Structural)]
pub enum SprlType {
    Normal,
    PrecededSprl,
    TlvlSprl,
}

/// A character's place: the node whose `.text` (or, with `tail`, whose `.tail`) holds it, and its
/// index there.
#[derive(Debug, Clone, Copy, PartialEq, Eq, Structural)]
pub struct CharLoc {
    pub node: NodeId,
    pub tail: bool,
    pub idx: u32,
}

/// Where a parsed element came from: an element of the document, or a piece split off another.
#[derive(Debug, Clone, Copy, PartialEq, Eq, Structural)]
pub enum Origin {
    Existing,
    SplitFrom,
}

} // verus!
