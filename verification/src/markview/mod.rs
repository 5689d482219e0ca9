//! The markdown viewer: document model, the two views' layout, and the
//! window state.

pub mod block_laws;
pub mod doc;
pub mod inline_laws;
pub mod list_laws;
pub mod rendered;
pub mod source;
pub mod window;
