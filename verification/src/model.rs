//! The document model: sections of paragraphs, and the shapes that they refer to by index.

pub mod document;
pub mod paragraph;
pub mod style;
