//! A small symbolic reasoning engine built around a knowledge tree whose
//! paths of symbols are joined by non-exclusive (`.`) and exclusive (`!`)
//! edges.  On top of the tree sit a partial order and a greatest lower
//! bound capturing information content, a pattern-binding engine that
//! matches statements with variables against the tree, and a
//! forward-chaining implication driver that runs rules to a fixed point.

pub mod errors;
pub mod sid;
pub mod vecmap;
pub mod rellcore;
pub mod symbols;
pub mod parser;
pub mod tree;
pub mod tree_traits;
pub mod glb;
pub mod binding;
pub mod logic;
pub mod query;
pub mod runtime;
pub mod laws;
