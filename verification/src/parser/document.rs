//! The DOCX document parser.
use vstd::prelude::*;

verus! {

/// Reads a DOCX document into the document model.
pub struct DocumentParser;

} // verus!
