//! Errors of document operations.

use vstd::prelude::*;

verus! {

/// Why an operation on a document was refused.
#[derive(Debug, Clone, PartialEq, Eq)]
pub enum HwpError {
    /// The operation does not fit the document; the text says how.
    RenderError(String),
}

}
