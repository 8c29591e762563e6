//! The style engine's front end: style sheets, selectors with combinators,
//! values and animation settings.
pub mod stylesheet;
pub mod values;
pub mod animations;
pub mod selector;
pub mod properties;
