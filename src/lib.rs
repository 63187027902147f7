//! A domain-agnostic state-space search engine: an arena search tree, three
//! frontier orderings and a budgeted search driver, with their contracts.

pub mod text;
pub mod value;
pub mod fields;
pub mod state;
pub mod action;
pub mod node;
pub mod tree;
pub mod frontier;
pub mod search;
pub mod problem;
