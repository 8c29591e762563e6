//! The runtime: selectors, style sheets, rule indexing and the cascade.
pub mod specificity;
pub mod selector_match;
pub mod select;
pub mod css_rule;
pub mod style_sheet;
pub mod vnode;
pub mod node_id;
pub mod cascade;
pub mod style_manager;
pub mod index;
pub mod dom_node;
pub mod registry;
pub mod node_match;
pub mod rule_order;
pub mod dom_ops;
pub mod depth;
