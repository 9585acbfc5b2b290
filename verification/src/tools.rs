//! The tools' own logic, on top of the document model: options, selections, stores.
pub mod about;
pub mod combine_by_color;
pub mod favorite_markers;
pub mod flattener;
pub mod gather;
pub mod homogenizer;
pub mod font_probe;
pub mod scaler;
pub mod slimmer;
pub mod text_tools;
