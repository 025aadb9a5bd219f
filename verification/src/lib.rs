//! An ordered associative container: an arena-backed linked list that keeps
//! its elements in key order behind skip-list-style sentinels and node
//! towers, together with a key/value map layered on top of it. The
//! structure proved here maintains the single base level only — every
//! tower has height one — so lookups are linear, not logarithmic.

pub mod order;
pub mod skiplist;
pub mod skipmap;

pub use order::KeyOrd;
pub use skiplist::Link;
pub use skiplist::Node;
pub use skiplist::SkipList;
pub use skipmap::Entry;
pub use skipmap::SkipMap;
