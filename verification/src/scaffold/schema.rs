//! The blocks a draft is made of.

use vstd::prelude::*;

verus! {

/// One element of a draft.
#[derive(Debug, Clone, PartialEq, Eq)]
pub enum Block {
    /// A heading of an outline level.
    Heading { level: u8, text: String },
    /// A paragraph of body text.
    Paragraph { text: String },
    /// A table: its rows, each a list of cells.
    Table { rows: Vec<Vec<String>> },
}

/// The mathematical value of a [`Block`].
#[verifier::ext_equal]
pub enum BlockView {
    Heading { level: u8, text: Seq<char> },
    Paragraph { text: Seq<char> },
    Table { rows: Seq<Seq<Seq<char>>> },
}

impl DeepView for Block {
    type V = BlockView;

    open spec fn deep_view(&self) -> BlockView {
        match self {
            Block::Heading { level, text } => BlockView::Heading { level: *level, text: text@ },
            Block::Paragraph { text } => BlockView::Paragraph { text: text@ },
            Block::Table { rows } => BlockView::Table { rows: rows.deep_view() },
        }
    }
}

}
