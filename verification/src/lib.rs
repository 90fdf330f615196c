//! Patience diff: align the elements that occur exactly once in each of two
//! sequences, then diff the gaps between those anchors recursively.

pub mod component;
pub mod affix;
pub mod indexed;
pub mod unique;
pub mod anchors;
pub mod fallback;
pub mod engine;

pub use component::DiffComponent;
pub use affix::{common_prefix, common_suffix};
pub use unique::unique_elements;
pub use engine::patience_diff;
