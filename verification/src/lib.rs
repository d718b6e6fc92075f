//! Node-level engine of an in-memory, arena-addressed B-tree.
//!
//! Both leaf and internal nodes store key/value items. Nodes reference each
//! other through opaque arena addresses (`usize`); an external driver owns the
//! arena, walks the tree, and composes the primitive mutations offered here
//! (split, merge, append, boundary push/pop, insert/replace/remove) into full
//! insert and delete algorithms, reacting to the `Balance` classification and
//! the recoverable error signals this layer returns.

pub mod balance;
pub mod internal;
pub mod item;
pub mod leaf;
pub mod node;
pub mod offset;
