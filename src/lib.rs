//! A reader for S-expressions: integers, floats, symbols, string literals
//! and nested lists, read off a text into a tree.

pub mod laws;
pub mod layout;
pub mod model;
pub mod number;
pub mod parse;
pub mod scan;
pub mod whitespace;
