//! A small JSON reader: a tokenizer that turns text into tokens and a
//! recursive-descent parser that turns tokens into a value tree.
pub mod json;
