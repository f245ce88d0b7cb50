//! Sparse 8-ary Merkle trees over an occupancy bitmap.
//!
//! A bitmap records which leaves of a tree of fixed depth are occupied. The tree
//! over it is built bottom-up in one pass, or kept with one of its levels cached
//! so that setting a leaf rebuilds only the leaf's bucket and what lies above the
//! cached level. The hash is an oracle handed in by the caller.

use vstd::prelude::*;

pub mod bitmap;
pub mod builder;
pub mod cached;
pub mod digest;
pub mod error;
pub mod inspect;
pub mod laws;
pub mod lemmas;
pub mod memory;
pub mod model;
pub mod oracle;
pub mod store;

pub use bitmap::Bitmap;
pub use builder::{build_tree_from_bitmap, Tree};
pub use cached::PartialCachedTree;
pub use digest::Digest;
pub use error::MerkleError;
pub use memory::{get_allocated_memory, get_net_allocated_memory};
pub use store::{make_db, NodeStore};

verus! {

/// The store that holds the nodes of a tree.
pub type Db = NodeStore;

/// A value of the tree: a leaf value or a digest.
pub type El = Digest;

} // verus!
