//! Blocks of a draft: how they are parsed and how they enter a document.

pub mod builder;
pub mod document_laws;
pub mod draft_laws;
pub mod inline;
pub mod inline_laws;
pub mod insert;
pub mod insert_laws;
pub mod markdown;
pub mod markdown_laws;
pub mod markup_laws;
pub mod schema;

pub use inline::strip_inline;
pub use markdown::parse_markdown_blocks;
pub use schema::Block;
