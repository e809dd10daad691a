//! An augmented disjoint-set forest: classical union and find, extraction of a
//! single element from its set into another set, and constant-time cardinality
//! and value-sum queries per set.
pub mod aggregate;
pub mod climb;
pub mod commands;
pub mod laws;
pub mod merge;
pub mod model;
pub mod order;
pub mod parse;
pub mod relocate;
pub mod tree;
pub mod union_find;
