//! The compiler's tables and text passes: built-in mappings, the Canvas API,
//! style sheets and markup.
pub mod builtins;
pub mod canvas_codegen;
pub mod css;
pub mod html;
pub mod js;
pub mod jsexpr;
pub mod jsstyle;
pub mod jsfuncs;
pub mod jsbody;
pub mod jsrun;
pub mod cli;
pub mod parser;
