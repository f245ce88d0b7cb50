use vstd::prelude::*;

verus! {

/// Why an operation of this library was refused.
#[derive(Clone, Copy, Debug, PartialEq, Eq, Structural)]
pub enum MerkleError {
    /// A depth, a capacity or a cache level that does not fit the tree's shape.
    InvalidConfiguration,
    /// A leaf index at or beyond the capacity.
    OutOfRange,
    /// The hash oracle gave no digest.
    HashComputationFailed,
}

} // verus!
