//! Turns Markdown drafts into document blocks and inserts them into an open document.

pub mod document_core;
pub mod error;
pub mod model;
pub mod scaffold;
pub mod text;
pub mod text_laws;
