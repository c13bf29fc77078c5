//! A multimap that keeps the order in which its values were inserted, both
//! across all keys and among the values of each key.
//!
//! Keys are found through a hash index from their digest to a record of
//! where the key and its values are stored. Keys and values sit in slot
//! storage whose occupied slots keep insertion order; the values of one key
//! are linked to each other through their slots. `model` states what a
//! multimap holds, `layout` how the storage stands for it, and the operations
//! in `list_ordered_multimap` are proved against both.
pub mod entry;
pub mod index;
pub mod iter;
pub mod layout;
pub mod list_ordered_multimap;
pub mod model;
pub mod slots;

pub use crate::list_ordered_multimap::ListOrderedMultimap;
