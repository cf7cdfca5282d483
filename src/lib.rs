//! A compact record of the storage locations that a piece of code reads or
//! writes, as a trie of symbolic access paths keyed by their roots.
pub mod collect;
pub mod laws;
pub mod node;
pub mod path;
pub mod set;
pub mod visit;

pub use collect::{PathCollector, PruningCollector};
pub use node::TrieNode;
pub use path::{Access, AccessPath, Offset, Root};
pub use set::ReadWriteSet;
pub use visit::PathVisitor;
