//! Verified core of a structured-document viewer.

pub mod ascii;
pub mod bytes;
pub mod columns;
pub mod doc;
pub mod doc_view;
pub mod format;
pub mod json_view;
pub mod line_laws;
pub mod markdown_core;
pub mod markdown_laws;
pub mod markdown_text;
pub mod markview;
pub mod parser;
pub mod pretty;
pub mod search;
pub mod sorted;
pub mod text;
pub mod text_laws;
pub mod window;
