//! Element-level operations: which elements are drawn, style composition, grouping.
pub mod bbox;
pub mod clip;
pub mod style;
pub mod xform;
