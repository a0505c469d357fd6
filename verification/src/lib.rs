//! A parser and renderer for a small Markdown dialect.
//!
//! Text is parsed into a [`Document`], an ordered list of [`Block`]s whose
//! text-bearing parts are trees of inline elements, and a document renders
//! back to Markdown text. Every executable function carries a contract over
//! sequences of characters, and the contracts are proved.

pub mod block;
pub mod block_facts;
pub mod document;
pub mod error;
pub mod inline;
pub mod inline_facts;
pub mod inline_parser;
pub mod navigation;
pub mod parser;
pub mod round_trip;
pub mod table;
pub mod text;
pub mod text_facts;
pub mod tokenizer;

pub use block::Block;
pub use document::Document;
pub use error::Error;
