//! Verified core of an Alight Motion scene importer: the scene model, color
//! and blend-mode parsing, scene validation, and the id and mask bookkeeping
//! done while nested scenes are flattened.
pub mod schema;
pub mod text;
pub mod validation;
pub mod color;
pub mod blending;
pub mod sdf;
pub mod masks;
pub mod ids;
pub mod flatten;
pub mod components;
pub mod effects;
pub mod report;
pub mod path;
pub mod fields;
pub mod easing;
