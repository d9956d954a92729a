//! Editing of PackFile archives: the in-memory model, tree operations on the
//! entry namespace, the binary container codec and the inner-format codecs.

pub mod model;
pub mod tree;
pub mod siege;
pub mod bytes;
pub mod codec;
pub mod loc;
pub mod rigidmodel;
pub mod editor;
