//! Shapes and styles.

use vstd::prelude::*;

verus! {

/// What a paragraph is headed by.
#[derive(Debug, Clone, Copy, PartialEq, Eq, Structural)]
pub enum HeadType {
    /// Nothing.
    Plain,
    /// The number of an outline level.
    Outline,
    /// A number.
    Number,
    /// A bullet.
    Bullet,
}

/// The shape of a paragraph.
#[derive(Debug, Clone, PartialEq, Eq)]
pub struct ParaShape {
    /// The bytes that the shape was read from, while it still equals them.
    pub raw_data: Option<Vec<u8>>,
    pub margin_left: i32,
    pub margin_right: i32,
    pub indent: i32,
    pub spacing_before: i32,
    pub spacing_after: i32,
    pub line_spacing: i32,
    pub tab_def_id: u16,
    pub numbering_id: u16,
    pub border_fill_id: u16,
    pub head_type: HeadType,
    /// The outline level, from 0 on.
    pub para_level: u8,
}

/// The shape of characters.
#[derive(Debug, Clone, PartialEq, Eq)]
pub struct CharShape {
    /// The bytes that the shape was read from, while it still equals them.
    pub raw_data: Option<Vec<u8>>,
    pub base_size: i32,
    pub text_color: u32,
    pub bold: bool,
    pub italic: bool,
}

/// The line of a border.
#[derive(Debug, Clone, Copy, PartialEq, Eq, Structural)]
pub enum BorderLineType {
    /// No line.
    NoLine,
    Solid,
    Dash,
    Dot,
    Double,
}

/// One side of a border.
#[derive(Debug, Clone, Copy, PartialEq, Eq, Structural)]
pub struct BorderLine {
    pub line_type: BorderLineType,
    pub width: u8,
    pub color: u32,
}

/// A border and a fill.
#[derive(Debug, Clone, PartialEq, Eq)]
pub struct BorderFill {
    /// The bytes that the entry was read from, while it still equals them.
    pub raw_data: Option<Vec<u8>>,
    pub attr: u16,
    /// The four sides.
    pub borders: [BorderLine; 4],
    pub fill_color: Option<u32>,
}

/// A named style.
#[derive(Debug, Clone, Copy, PartialEq, Eq, Structural)]
pub struct Style {
    /// The index of its paragraph shape.
    pub para_shape_id: u16,
    /// The index of its character shape.
    pub char_shape_id: u16,
}

/// The paragraph shape that nothing is set in.
pub open spec fn plain_para_shape() -> ParaShape {
    ParaShape {
        raw_data: None,
        margin_left: 0,
        margin_right: 0,
        indent: 0,
        spacing_before: 0,
        spacing_after: 0,
        line_spacing: 0,
        tab_def_id: 0,
        numbering_id: 0,
        border_fill_id: 0,
        head_type: HeadType::Plain,
        para_level: 0,
    }
}

impl Default for ParaShape {
    fn default() -> (shape: Self)
        ensures
            shape == plain_para_shape(),
    {
        ParaShape {
            raw_data: None,
            margin_left: 0,
            margin_right: 0,
            indent: 0,
            spacing_before: 0,
            spacing_after: 0,
            line_spacing: 0,
            tab_def_id: 0,
            numbering_id: 0,
            border_fill_id: 0,
            head_type: HeadType::Plain,
            para_level: 0,
        }
    }
}

/// The character shape that nothing is set in.
pub open spec fn plain_char_shape() -> CharShape {
    CharShape { raw_data: None, base_size: 0, text_color: 0, bold: false, italic: false }
}

impl Default for CharShape {
    fn default() -> (shape: Self)
        ensures
            shape == plain_char_shape(),
    {
        CharShape { raw_data: None, base_size: 0, text_color: 0, bold: false, italic: false }
    }
}

/// The shape with the index `id`, or the plain one where there is none.
pub open spec fn para_shape_or_plain(shapes: Seq<ParaShape>, id: u16) -> ParaShape {
    if id < shapes.len() {
        shapes[id as int]
    } else {
        plain_para_shape()
    }
}

/// The shape with the index `id`, or the plain one where there is none.
pub open spec fn char_shape_or_plain(shapes: Seq<CharShape>, id: u32) -> CharShape {
    if id < shapes.len() {
        shapes[id as int]
    } else {
        plain_char_shape()
    }
}

}
