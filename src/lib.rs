//! A tree that is built quickly by appending nodes under any parent, then
//! burnt in one go into an immutable, range-indexed form.
//!
//! - [`fire::ForestFire`] is the mutable, append-only builder.
//! - [`ashes::Ashes`] is the immutable snapshot: children of a node occupy a
//!   contiguous range of the node array, in insertion order.
//! - [`ashes::codec`] encodes a snapshot as nested maps and decodes it back
//!   with a reusable, non-recursive decode context.
pub mod internal;
pub mod fire;
pub mod ashes;
