//! CSS selector parsing and matching, style-rule indexing, the cascade, and
//! the front-end tables of a small HTML/CSS/JS-to-native toolchain.
pub mod text;
pub mod runtime;
pub mod toolchain;
pub mod laws;
pub mod value_laws;
pub mod style;
