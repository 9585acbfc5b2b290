//! Inkscape extension logic for scientific figures: an arena SVG document model, style
//! declarations and the style cascade, document housekeeping and text-run normalisation.

pub mod cli;
pub mod dom;
pub mod dom_laws;
pub mod dom_write_laws;
pub mod ops;
pub mod strs;
pub mod style;
pub mod sheet;
pub mod cascade;
pub mod cascade_laws;
pub mod cleanup;
pub mod text;
pub mod tools;
pub mod xml;

use vstd::prelude::*;

verus! {

/// What a tool produces: the document to hand back to Inkscape and messages for the user.
pub struct Output {
    pub svg: Vec<u8>,
    pub messages: Vec<String>,
}

} // verus!
