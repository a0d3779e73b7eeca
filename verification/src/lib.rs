//! A Markdown parsing library: a grapheme-aware tokenizer, a block grouper
//! that merges tokenized lines into block-sized groups, a block parser that
//! classifies each group into a tree of block elements, and an inline parser
//! that resolves emphasis, links, images and code spans.

pub mod config;
pub mod lexer;
pub mod parser;
pub mod types;
pub mod unicode;
pub mod utils;
