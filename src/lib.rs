//! Book outlines: the item tree, the outline parser and the numbering iterator.

pub mod book;
pub mod bookitem;
pub mod summary;
mod text;
