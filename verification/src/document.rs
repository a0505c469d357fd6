//! The document: an ordered list of blocks.

use vstd::prelude::*;
use crate::block::{blocks_view, Block, BlockView};
use crate::error::Error;
use crate::parser::{document_blocks, parse, render_document, to_markdown};

verus! {

/// A parsed text: its blocks in reading order.
#[derive(Debug, Clone, PartialEq)]
pub struct Document {
    pub blocks: Vec<Block>,
}

impl View for Document {
    type V = Seq<BlockView>;

    open spec fn view(&self) -> Seq<BlockView> {
        blocks_view(self.blocks@)
    }
}

impl Document {
    /// The document that holds `blocks`.
    pub fn new(blocks: Vec<Block>) -> (r: Self)
        ensures
            r.blocks == blocks,
            r@ == blocks_view(blocks@),
    {
        Self { blocks }
    }

    /// The document that the text `markdown` stands for. Every text stands
    /// for one: the result is never an error.
    pub fn parse(markdown: &str) -> (r: Result<Self, Error>)
        ensures
            r matches Ok(doc) && doc@ == document_blocks(markdown@),
    {
        parse(markdown)
    }

    /// The Markdown text of this document.
    pub fn to_markdown(&self) -> (r: String)
        ensures
            r@ == render_document(self@),
    {
        to_markdown(self)
    }
}

} // verus!
