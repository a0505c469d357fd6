//! Blocks: the parts that a document is made of.

use vstd::prelude::*;
use crate::inline::{InlineElementView, InlineText};
use crate::table::{Table, TableView};

verus! {

/// One block of a document.
#[derive(Debug, Clone, PartialEq)]
pub enum Block {
    Paragraph(InlineText),
    Header { level: usize, text: InlineText },
    UnorderedList(Vec<InlineText>),
    OrderedList(Vec<InlineText>),
    CodeBlock { language: Option<String>, code: String },
    Blockquote(InlineText),
    Table(Table),
}

/// What a [`Block`] stands for.
pub enum BlockView {
    Paragraph(Seq<InlineElementView>),
    Header { level: nat, text: Seq<InlineElementView> },
    UnorderedList(Seq<Seq<InlineElementView>>),
    OrderedList(Seq<Seq<InlineElementView>>),
    CodeBlock { language: Option<Seq<char>>, code: Seq<char> },
    Blockquote(Seq<InlineElementView>),
    Table(TableView),
}

/// What the runs of `items` stand for, in order.
pub open spec fn items_view(items: Seq<InlineText>) -> Seq<Seq<InlineElementView>> {
    items.map_values(|item: InlineText| item@)
}

/// The text that `language` holds, if any.
pub open spec fn language_view(language: Option<String>) -> Option<Seq<char>> {
    match language {
        Some(l) => Some(l@),
        None => None,
    }
}

impl View for Block {
    type V = BlockView;

    open spec fn view(&self) -> BlockView {
        match self {
            Block::Paragraph(text) => BlockView::Paragraph(text@),
            Block::Header { level, text } => BlockView::Header { level: *level as nat, text: text@ },
            Block::UnorderedList(items) => BlockView::UnorderedList(items_view(items@)),
            Block::OrderedList(items) => BlockView::OrderedList(items_view(items@)),
            Block::CodeBlock { language, code } => BlockView::CodeBlock {
                language: language_view(*language),
                code: code@,
            },
            Block::Blockquote(text) => BlockView::Blockquote(text@),
            Block::Table(table) => BlockView::Table(table@),
        }
    }
}

/// What the blocks of `v` stand for, in order.
pub open spec fn blocks_view(v: Seq<Block>) -> Seq<BlockView> {
    v.map_values(|b: Block| b@)
}

} // verus!
