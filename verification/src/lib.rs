//! A write-once prefix-tree index over 60-bit identifiers.
//!
//! An index is a byte string: the nodes of a prefix tree, each child before
//! its parent, followed by the offset of the root. [`writer::Writer`] makes
//! one from keys that arrive in ascending order, holding in memory only the
//! nodes on the path of the key added last. [`builder::Builder`] takes keys
//! in any order, stages each under its normal form and under its
//! word-boundary suffixes, and writes the index once everything is staged.
//! [`tree::Tree`] answers exact and prefix queries from the bytes, and
//! [`window`] answers them from the bytes of one node at a time.
//!
//! [`layout`] says what the bytes of an index mean to a reader, [`content`]
//! what an index holds, and [`laws`] what follows: a reader finds what was
//! put in, under the key itself and under every prefix of it.

pub mod error;
pub mod wire;
pub mod text;
pub mod layout;
pub mod values;
pub mod node;
pub mod content;
pub mod tree;
pub mod spine;
pub mod writer;
pub mod staging;
pub mod progress;
pub mod builder;
pub mod laws;
pub mod window;
