//! A small term-rewriting engine: labeled ordered trees, patterns with
//! capture variables, structural matching, substitution, and a session that
//! applies a chosen rule to its current tree.

pub mod building;
pub mod engine;
pub mod laws;
pub mod matching;
pub mod parse;
pub mod render;
pub mod tree;
