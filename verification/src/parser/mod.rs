//! Parsers that read a document into the document model.

pub mod document;
