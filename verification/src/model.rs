use vstd::prelude::*;

use crate::bitmap::with_bit;
use crate::digest::{leaf_value, zero_value};
use crate::error::MerkleError;

verus! {

/// A hash oracle as a function: the digest of an ordered group of children, or
/// `None` where it fails.
pub type Oracle = spec_fn(Seq<Seq<u8>>) -> Option<Seq<u8>>;

/// The tree's branching factor.
pub const ARITY: usize = 8;

/// Eight to the power `n`: the number of leaves below a node of height `n`.
pub open spec fn pow8(n: nat) -> nat
    decreases n,
{
    if n == 0 {
        1
    } else {
        8 * pow8((n - 1) as nat)
    }
}

/// A tree of depth `depth` has `len` leaves.
pub open spec fn shape_ok(depth: nat, len: nat) -> bool {
    depth >= 1 && len == pow8(depth)
}

/// The digest the oracle gives for `node`; the empty digest where it fails.
pub open spec fn digest_of(f: Oracle, node: Seq<Seq<u8>>) -> Seq<u8> {
    match f(node) {
        Some(d) => d,
        None => Seq::empty(),
    }
}

/// The `i`-th group of eight consecutive entries of `s`, in ascending order.
pub open spec fn chunk(s: Seq<Seq<u8>>, i: int) -> Seq<Seq<u8>> {
    s.subrange(8 * i, 8 * i + 8)
}

/// The level above `s`: the digest of each group of eight, in order.
pub open spec fn hash_chunks(f: Oracle, s: Seq<Seq<u8>>) -> Seq<Seq<u8>> {
    Seq::new((s.len() / 8) as nat, |i: int| digest_of(f, chunk(s, i)))
}

/// The oracle answers for every group of eight of `s`.
pub open spec fn chunks_ok(f: Oracle, s: Seq<Seq<u8>>) -> bool {
    forall|i: int| 0 <= i < s.len() / 8 ==> (#[trigger] f(chunk(s, i))) is Some
}

/// `s` hashed upwards `n` levels.
pub open spec fn climb(f: Oracle, s: Seq<Seq<u8>>, n: nat) -> Seq<Seq<u8>>
    decreases n,
{
    if n == 0 {
        s
    } else {
        hash_chunks(f, climb(f, s, (n - 1) as nat))
    }
}

/// The oracle answers for every group met while hashing `s` upwards `n` levels.
pub open spec fn climb_ok(f: Oracle, s: Seq<Seq<u8>>, n: nat) -> bool
    decreases n,
{
    n == 0 || (climb_ok(f, s, (n - 1) as nat) && chunks_ok(f, climb(f, s, (n - 1) as nat)))
}

/// The leaf values of a bitmap, in index order.
pub open spec fn leaves(bits: Seq<bool>) -> Seq<Seq<u8>> {
    Seq::new(bits.len(), |i: int| leaf_value(bits[i]))
}

/// The digests of the nodes of height `h` over `bits`, left to right; height 0 is
/// the leaves themselves.
pub open spec fn level(f: Oracle, bits: Seq<bool>, h: nat) -> Seq<Seq<u8>> {
    climb(f, leaves(bits), h)
}

/// The root of the tree of depth `depth` over `bits`.
pub open spec fn merkle_root(f: Oracle, bits: Seq<bool>, depth: nat) -> Seq<u8> {
    level(f, bits, depth)[0]
}

/// The group of eight vacant leaves.
pub open spec fn zero_group() -> Seq<Seq<u8>> {
    Seq::new(8, |k: int| zero_value())
}

/// Every hash that building the tree of depth `depth` over `bits` asks for
/// succeeds: that of the vacant group, which is always taken, and that of every
/// group of every level.
pub open spec fn hashes_ok(f: Oracle, bits: Seq<bool>, depth: nat) -> bool {
    f(zero_group()) is Some && climb_ok(f, leaves(bits), depth)
}

/// What a build of depth `depth` over `bits` comes to: the root, or why there is
/// none. The shape is judged before any hash is taken.
pub open spec fn build_outcome(f: Oracle, bits: Seq<bool>, depth: nat) -> Result<
    Seq<u8>,
    MerkleError,
> {
    if !shape_ok(depth, bits.len()) {
        Err(MerkleError::InvalidConfiguration)
    } else if !hashes_ok(f, bits, depth) {
        Err(MerkleError::HashComputationFailed)
    } else {
        Ok(merkle_root(f, bits, depth))
    }
}

/// The root of a wholly vacant tree of depth `depth`: the oracle applied `depth`
/// times, first to the vacant group and then to eight copies of its last answer.
pub open spec fn empty_root(f: Oracle, depth: nat) -> Seq<u8>
    decreases depth,
{
    if depth == 0 {
        zero_value()
    } else {
        digest_of(f, Seq::new(8, |k: int| empty_root(f, (depth - 1) as nat)))
    }
}

/// The store `m` with `node` filed under `key`, unless the key is taken.
pub open spec fn put_new(
    m: Map<Seq<u8>, Seq<Seq<u8>>>,
    key: Seq<u8>,
    node: Seq<Seq<u8>>,
) -> Map<Seq<u8>, Seq<Seq<u8>>> {
    if m.dom().contains(key) {
        m
    } else {
        m.insert(key, node)
    }
}

/// The store `m` after the first `n` groups of eight of `below` were filed, in
/// order, the `i`-th under `keys[i]`, each unless its key was taken; with
/// `skip_vacant`, a vacant group is passed over.
pub open spec fn record(
    keys: Seq<Seq<u8>>,
    below: Seq<Seq<u8>>,
    n: nat,
    m: Map<Seq<u8>, Seq<Seq<u8>>>,
    skip_vacant: bool,
) -> Map<Seq<u8>, Seq<Seq<u8>>>
    decreases n,
{
    if n == 0 {
        m
    } else {
        let before = record(keys, below, (n - 1) as nat, m, skip_vacant);
        let node = chunk(below, n - 1);
        if skip_vacant && node == zero_group() {
            before
        } else {
            put_new(before, keys[n - 1], node)
        }
    }
}

/// The store `m` after a build filed the nodes of heights 1 to `h` over `bits`,
/// each under its digest: level by level from the leaves up, each level left to
/// right. Vacant leaf groups are not filed.
pub open spec fn store_after(
    f: Oracle,
    bits: Seq<bool>,
    h: nat,
    m: Map<Seq<u8>, Seq<Seq<u8>>>,
) -> Map<Seq<u8>, Seq<Seq<u8>>>
    decreases h,
{
    if h == 0 {
        m
    } else {
        let keys = level(f, bits, h);
        let below = level(f, bits, (h - 1) as nat);
        record(keys, below, keys.len(), store_after(f, bits, (h - 1) as nat, m), h == 1)
    }
}

/// What a tree with a cached level holds.
pub struct CachedTreeView {
    /// The root digest.
    pub root: Seq<u8>,
    /// The tree's depth.
    pub depth: nat,
    /// The height of the cached level above the leaves.
    pub cache_level: nat,
    /// The cached level: one digest for each bucket of leaves.
    pub cached: Seq<Seq<u8>>,
    /// Which leaves are occupied.
    pub bits: Seq<bool>,
    /// The nodes filed by the last build or update.
    pub store: Map<Seq<u8>, Seq<Seq<u8>>>,
}

/// The cache level `cache_level` fits a tree of depth `depth` with `len` leaves.
pub open spec fn cache_shape_ok(depth: nat, cache_level: nat, len: nat) -> bool {
    shape_ok(depth, len) && 1 <= cache_level <= depth
}

/// What building a tree with a cached level comes to: the tree, or why there is
/// none.
pub open spec fn cached_outcome(f: Oracle, bits: Seq<bool>, cache_level: nat, depth: nat) -> Result<
    CachedTreeView,
    MerkleError,
> {
    if !cache_shape_ok(depth, cache_level, bits.len()) {
        Err(MerkleError::InvalidConfiguration)
    } else if !hashes_ok(f, bits, depth) {
        Err(MerkleError::HashComputationFailed)
    } else {
        Ok(
            CachedTreeView {
                root: merkle_root(f, bits, depth),
                depth,
                cache_level,
                cached: level(f, bits, cache_level),
                bits,
                store: store_after(f, bits, depth, Map::empty()),
            },
        )
    }
}

/// The leaves of the bucket that holds leaf `idx`, as the update sees them: taken
/// from the supplied bitmap, with the bit of `idx` set.
pub open spec fn bucket_bits(supplied: Seq<bool>, cache_level: nat, idx: nat) -> Seq<bool> {
    let size = pow8(cache_level);
    let offset = (idx / size) * size;
    with_bit(supplied.subrange(offset as int, (offset + size) as int), idx - offset)
}

/// What an update of leaf `idx` comes to, on the tree `t` with the bitmap
/// `supplied`: the new tree, or why the tree stays as it is. The bucket of `idx`
/// is rebuilt from the supplied bits, its root replaces the bucket's cached
/// digest, and the cached level is hashed upwards to the new root.
pub open spec fn update_outcome(f: Oracle, t: CachedTreeView, supplied: Seq<bool>, idx: nat) -> Result<
    CachedTreeView,
    MerkleError,
> {
    let bucket = bucket_bits(supplied, t.cache_level, idx);
    let cached = t.cached.update(
        (idx / pow8(t.cache_level)) as int,
        merkle_root(f, bucket, t.cache_level),
    );
    let above = (t.depth - t.cache_level) as nat;
    if supplied.len() != t.bits.len() {
        Err(MerkleError::InvalidConfiguration)
    } else if idx >= t.bits.len() {
        Err(MerkleError::OutOfRange)
    } else if !hashes_ok(f, bucket, t.cache_level) || !climb_ok(f, cached, above) {
        Err(MerkleError::HashComputationFailed)
    } else {
        Ok(
            CachedTreeView {
                root: climb(f, cached, above)[0],
                depth: t.depth,
                cache_level: t.cache_level,
                cached,
                bits: with_bit(t.bits, idx as int),
                store: store_after(f, bucket, t.cache_level, Map::empty()),
            },
        )
    }
}

/// Two bitmaps hold the same bits in the bucket of leaf `idx`, but perhaps at
/// `idx` itself.
pub open spec fn agree_in_bucket(a: Seq<bool>, b: Seq<bool>, cache_level: nat, idx: nat) -> bool {
    let size = pow8(cache_level);
    let offset = (idx / size) * size;
    forall|j: int|
        0 <= j < a.len() && j < b.len() && offset <= j < offset + size && j != idx ==> a[j] == b[j]
}

/// The cached level and the root are those of the tree over the recorded leaves.
pub open spec fn consistent(f: Oracle, t: CachedTreeView) -> bool {
    t.cached == level(f, t.bits, t.cache_level) && t.root == merkle_root(f, t.bits, t.depth)
}

} // verus!
