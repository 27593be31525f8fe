//! The data types of the service: languages, API messages, pipeline state and
//! the document model's plain parts.

pub mod document;
pub mod request;
pub mod state;
