//! A document, its sections, and its tables of shapes.

use crate::model::paragraph::Paragraph;
use crate::model::style::{BorderFill, CharShape, ParaShape, Style};
use vstd::prelude::*;

verus! {

/// The tables that paragraphs refer to by index.
#[derive(Debug, Clone, PartialEq, Eq)]
pub struct DocInfo {
    /// Paragraph shapes, from index 0 on.
    pub para_shapes: Vec<ParaShape>,
    /// Character shapes, from index 0 on.
    pub char_shapes: Vec<CharShape>,
    /// Borders and fills. Tables and cells refer to the first one as 1.
    pub border_fills: Vec<BorderFill>,
    /// Named styles. The first one is the style of body text.
    pub styles: Vec<Style>,
}

/// A section of a document.
#[derive(Debug, Clone, PartialEq, Eq)]
pub struct Section {
    /// The paragraphs, in order.
    pub paragraphs: Vec<Paragraph>,
    /// The width that the page leaves to its content.
    pub content_width: u32,
    /// The bytes that the section was read from, while it still equals them.
    pub raw_stream: Option<Vec<u8>>,
}

/// A document.
#[derive(Debug, Clone, PartialEq, Eq)]
pub struct Document {
    /// The sections, in order.
    pub sections: Vec<Section>,
    /// The tables of shapes.
    pub doc_info: DocInfo,
}

}
