//! Paragraphs.

use vstd::prelude::*;

verus! {

/// What a paragraph starts besides itself.
#[derive(Debug, Clone, Copy, PartialEq, Eq, Structural)]
pub enum ColumnBreakType {
    /// Nothing.
    NoBreak,
    /// A section.
    Section,
    /// A run of columns.
    MultiColumn,
    /// A page.
    Page,
    /// A column.
    Column,
}

/// The character shape that holds from a position of a paragraph on.
#[derive(Debug, Clone, Copy, PartialEq, Eq, Structural)]
pub struct CharShapeRef {
    /// The position in the paragraph.
    pub start_pos: u32,
    /// The index of the character shape.
    pub char_shape_id: u32,
}

/// A table that a paragraph holds.
#[derive(Debug, Clone, PartialEq, Eq)]
pub struct Table {
    /// The rows, each a list of the texts of its cells.
    pub rows: Vec<Vec<String>>,
    /// The width that the table is laid out in.
    pub width: u32,
    /// The border of the table and its cells, counted from 1.
    pub border_fill_id: u16,
    /// The character shape of the cells.
    pub char_shape_id: u32,
}

/// A paragraph.
#[derive(Debug, Clone, PartialEq, Eq)]
pub struct Paragraph {
    /// The text.
    pub text: String,
    /// The index of the paragraph shape.
    pub para_shape_id: u16,
    /// The index of the style.
    pub style_id: u8,
    /// The character shapes of the text, by position.
    pub char_shapes: Vec<CharShapeRef>,
    /// What the paragraph starts besides itself.
    pub column_type: ColumnBreakType,
    /// The break flags as they are stored.
    pub raw_break_type: u8,
    /// Whether the paragraph has a text record of its own.
    pub has_para_text: bool,
    /// The table that the paragraph holds, if any.
    pub table: Option<Table>,
}

/// The mathematical value of a [`Table`].
#[verifier::ext_equal]
pub struct TableView {
    pub rows: Seq<Seq<Seq<char>>>,
    pub width: u32,
    pub border_fill_id: u16,
    pub char_shape_id: u32,
}

/// The mathematical value of a [`Paragraph`].
#[verifier::ext_equal]
pub struct ParagraphView {
    pub text: Seq<char>,
    pub para_shape_id: u16,
    pub style_id: u8,
    pub char_shapes: Seq<CharShapeRef>,
    pub column_type: ColumnBreakType,
    pub raw_break_type: u8,
    pub has_para_text: bool,
    pub table: Option<TableView>,
}

impl DeepView for Table {
    type V = TableView;

    open spec fn deep_view(&self) -> TableView {
        TableView {
            rows: self.rows.deep_view(),
            width: self.width,
            border_fill_id: self.border_fill_id,
            char_shape_id: self.char_shape_id,
        }
    }
}

impl DeepView for Paragraph {
    type V = ParagraphView;

    open spec fn deep_view(&self) -> ParagraphView {
        ParagraphView {
            text: self.text@,
            para_shape_id: self.para_shape_id,
            style_id: self.style_id,
            char_shapes: self.char_shapes@,
            column_type: self.column_type,
            raw_break_type: self.raw_break_type,
            has_para_text: self.has_para_text,
            table: self.table.deep_view(),
        }
    }
}

}
