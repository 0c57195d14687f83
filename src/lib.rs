//! Core engine of an in-memory key-value server: framed byte buffers, the
//! tagged reply encoding, a progressively rehashed hash map, an
//! order-statistic AVL tree behind sorted sets, an expiration heap, the idle
//! list and the command dispatcher.

pub mod buffer;
pub mod reply;
pub mod avl;
pub mod bst;
pub mod hmap;
pub mod zset;
pub mod heap;
pub mod store;
pub mod parse;
pub mod server;
pub mod idle;
