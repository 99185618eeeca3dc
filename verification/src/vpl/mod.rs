//! VPL documents: the tree, the parser that builds it, and the printer that writes it back.

pub mod ast;
pub mod document;
pub mod edit;
pub mod grammar;
pub mod operations;
pub mod parse;
pub mod print;
pub mod read;
pub mod semantics;
pub mod spans;
pub mod validate;

pub use read::{read_node, read_node_with};
