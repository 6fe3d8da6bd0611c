//! One-dimensional range tree: tracks which values of a fixed inclusive
//! domain are taken and which are free.
//!
//! The free values are kept as maximal closed intervals.  Every interval is a
//! node of an arena; the nodes form an ascending doubly linked list and, at the
//! same time, a left-leaning red-black tree keyed by the interval's lower bound.

pub mod list;
pub mod llrb;
pub mod mempool_elem;
pub mod range_tree;
pub mod ranges;
pub mod rb;
pub mod types;

pub use mempool_elem::{MemElem, MemElemUtils, MemPool, NIL};
pub use range_tree::RangeTree;
pub use types::{List, Node, One, RType, Zero};
