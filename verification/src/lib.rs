//! Verified core of a document translation service: the text, XML, CSV
//! and archive handling that surrounds calls to a translation API.

pub mod text;
pub mod sentences;
pub mod fonts;
pub mod docx;
pub mod archive;
pub mod parser;
pub mod types;
pub mod txt;
pub mod csv;
pub mod client;
pub mod handler;
pub mod server;
