//! A mutable text buffer kept as an unbalanced binary tree of byte fragments.
//!
//! The buffer owns an append-only arena of byte buffers; the leaves of the
//! tree name ranges of those buffers. Every operation is specified over the
//! byte sequence that an in-order walk of the tree spells out.

pub mod arena;
pub mod chars;
pub mod error;
pub mod laws;
pub mod node;
pub mod rope;
pub mod seqs;
pub mod slice;
pub mod utf8;

pub use crate::chars::RopeChars;
pub use crate::error::RopeError;
pub use crate::rope::Rope;
pub use crate::slice::RopeSlice;
