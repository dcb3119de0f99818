//! Verified core of a flexbox-like ui flow layout: the layout value types, flow
//! directions and justification templates, grid line packing, margin template
//! injection and the flow tree arena with its subtree traversal.

pub mod flow;
pub mod layouts;
pub mod tree;
pub mod units;
