//! A persistent vector: a 32-way trie of shared nodes plus a tail buffer
//! that collects the most recent elements before they move into the trie.

pub mod index;
pub mod shared;
pub mod node;
pub mod pvec;
pub mod laws;
pub mod compare;

pub use index::{Index, Shift, BITS_PER_LEVEL, BRANCH_FACTOR};
pub use node::Node;
pub use pvec::PVec;
