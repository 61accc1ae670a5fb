//! A small in-memory positional inverted index with a Boolean / phrase query engine.
pub mod index;
pub mod search;
pub mod tokenizer;
