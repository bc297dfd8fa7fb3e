//! An ordered key-value map backed by a splay tree: every lookup hit,
//! insertion and removal rotates the touched node up to the root, which
//! yields amortized logarithmic cost over any sequence of operations.

mod entry;
mod tree;

pub use entry::Entry;
pub use entry::OccupiedEntry;
pub use entry::VacantEntry;
pub use tree::Node;
pub use tree::SplayTree;
