use vstd::prelude::*;

use crate::bitmap::with_bit;
use crate::builder::{build_post, BuildResult};
use crate::error::MerkleError;
use crate::lemmas::{
    lemma_climb_len, lemma_climb_ok_joins, lemma_climb_subrange, lemma_climb_sum,
    lemma_leaves_subrange, lemma_pow8_grows, lemma_pow8_sum,
};
use crate::model::{
    agree_in_bucket, bucket_bits, build_outcome, cache_shape_ok, cached_outcome, chunk, climb,
    climb_ok, consistent, empty_root, hashes_ok, leaves, level, merkle_root, pow8, shape_ok,
    update_outcome, CachedTreeView, Oracle,
};

verus! {

/// Setting a bit twice is setting it once: the bitmap is the same, and so is
/// whatever is built from it, with a cached level or without.
pub proof fn law_set_bit_idempotent(
    f: Oracle,
    bits: Seq<bool>,
    i: int,
    cache_level: nat,
    depth: nat,
)
    requires
        0 <= i < bits.len(),
    ensures
        with_bit(with_bit(bits, i), i) == with_bit(bits, i),
        build_outcome(f, with_bit(with_bit(bits, i), i), depth) == build_outcome(
            f,
            with_bit(bits, i),
            depth,
        ),
        cached_outcome(f, with_bit(with_bit(bits, i), i), cache_level, depth) == cached_outcome(
            f,
            with_bit(bits, i),
            cache_level,
            depth,
        ),
{
    assert(with_bit(with_bit(bits, i), i) =~= with_bit(bits, i));
}

/// A build with a cached level comes to what a plain build comes to, whatever
/// level between 1 and the depth is cached: the same root, or the same error.
/// The cached level is that level of the tree, and hashing it upwards gives the
/// root.
pub proof fn law_cached_build_matches_bulk(
    f: Oracle,
    bits: Seq<bool>,
    cache_level: nat,
    depth: nat,
)
    requires
        1 <= cache_level <= depth,
    ensures
        match cached_outcome(f, bits, cache_level, depth) {
            Ok(t) => build_outcome(f, bits, depth) == Ok::<Seq<u8>, MerkleError>(
                t.root,
            ) && consistent(f, t) && climb(f, t.cached, (depth - cache_level) as nat)[0]
                == t.root,
            Err(e) => build_outcome(f, bits, depth) == Err::<Seq<u8>, MerkleError>(
                e,
            ),
        },
{
    lemma_climb_sum(f, leaves(bits), cache_level, (depth - cache_level) as nat);
}

/// Two builds over the same bits with the same oracle come to the same root or
/// error, and from equal stores to equal stores.
pub proof fn law_build_deterministic(
    f: Oracle,
    bits: Seq<bool>,
    depth: nat,
    store: Map<Seq<u8>, Seq<Seq<u8>>>,
    first: BuildResult,
    second: BuildResult,
)
    requires
        build_post(f, bits, depth, store, first),
        build_post(f, bits, depth, store, second),
    ensures
        first == second,
{
}

/// The levels of a wholly vacant tree hold the vacant subtree's digest throughout.
proof fn lemma_vacant_level(f: Oracle, bits: Seq<bool>, h: nat, m: nat)
    requires
        bits.len() == m * pow8(h),
        forall|i: int| 0 <= i < bits.len() ==> !bits[i],
    ensures
        level(f, bits, h) == Seq::new(m, |i: int| empty_root(f, h)),
    decreases h,
{
    if h == 0 {
        assert(m * 1 == m);
        assert(level(f, bits, 0) =~= Seq::new(m, |i: int| empty_root(f, 0)));
    } else {
        let below = level(f, bits, (h - 1) as nat);
        assert(m * (8 * pow8((h - 1) as nat)) == (8 * m) * pow8((h - 1) as nat))
            by (nonlinear_arith);
        lemma_vacant_level(f, bits, (h - 1) as nat, 8 * m);
        let e = empty_root(f, (h - 1) as nat);
        assert forall|i: int| 0 <= i < m implies #[trigger] chunk(below, i) == Seq::new(
            8,
            |k: int| e,
        ) by {
            assert(chunk(below, i) =~= Seq::new(8, |k: int| e));
        }
        assert((8 * m) / 8 == m);
        assert(level(f, bits, h) =~= Seq::new(m, |i: int| empty_root(f, h)));
    }
}

/// The root of a wholly vacant tree is the oracle applied `depth` times, first to
/// the vacant group and then to eight copies of its last answer.
pub proof fn law_empty_root(f: Oracle, bits: Seq<bool>, depth: nat)
    requires
        shape_ok(depth, bits.len()),
        forall|i: int| 0 <= i < bits.len() ==> !bits[i],
    ensures
        merkle_root(f, bits, depth) == empty_root(f, depth),
{
    assert(1 * pow8(depth) == pow8(depth));
    lemma_vacant_level(f, bits, depth, 1);
}

/// The leaf `idx` lies in bucket `idx / size`.
proof fn lemma_bucket_of(idx: nat, size: nat, m: nat)
    requires
        size > 0,
        idx < m * size,
    ensures
        idx / size < m,
        (idx / size) * size <= idx < (idx / size) * size + size,
        (idx / size) * size + size <= m * size,
{
    assert(idx / size < m && (idx / size) * size <= idx < (idx / size) * size + size && (idx
        / size) * size + size <= m * size) by (nonlinear_arith)
        requires
            size > 0,
            idx < m * size,
    ;
}

/// The leaf `idx` lies in no bucket but `idx / size`.
proof fn lemma_bucket_bounds(idx: nat, size: nat, m: nat, j: int)
    requires
        size > 0,
        idx < m * size,
        0 <= j < m,
    ensures
        j != idx / size ==> !(j * size <= idx < j * size + size),
        j * size + size <= m * size,
        (j + 1) * size == j * size + size,
{
    assert(j * size + size <= m * size && (j + 1) * size == j * size + size) by (nonlinear_arith)
        requires
            0 <= j < m,
            size > 0,
    ;
    if j != idx / size && j * size <= idx < j * size + size {
        assert(idx / size == j) by (nonlinear_arith)
            requires
                j * size <= idx < j * size + size,
                size > 0,
        ;
    }
}

/// The heart of an update: with the bucket's digest replaced by the root of the
/// rebuilt bucket, the cached level is that level of the tree over the recorded
/// leaves with `idx` set.
proof fn lemma_update_core(f: Oracle, t: CachedTreeView, supplied: Seq<bool>, idx: nat)
    requires
        cache_shape_ok(t.depth, t.cache_level, t.bits.len()),
        t.cached == level(f, t.bits, t.cache_level),
        supplied.len() == t.bits.len(),
        idx < t.bits.len(),
        agree_in_bucket(supplied, t.bits, t.cache_level, idx),
    ensures
        ({
            let size = pow8(t.cache_level);
            let bucket = (idx / size) as int;
            let part = bucket_bits(supplied, t.cache_level, idx);
            let bits2 = with_bit(t.bits, idx as int);
            &&& 0 <= bucket < pow8((t.depth - t.cache_level) as nat)
            &&& t.bits.len() == pow8((t.depth - t.cache_level) as nat) * size
            &&& 0 <= bucket * size <= (bucket + 1) * size <= t.bits.len()
            &&& leaves(part) == leaves(bits2).subrange(bucket * size, (bucket + 1) * size)
            &&& t.cached.update(bucket, merkle_root(f, part, t.cache_level)) == level(
                f,
                bits2,
                t.cache_level,
            )
            &&& forall|j: int|
                0 <= j < pow8((t.depth - t.cache_level) as nat) && j != bucket ==> (
                #[trigger] leaves(bits2).subrange(j * size, (j + 1) * size)) == leaves(
                    t.bits,
                ).subrange(j * size, (j + 1) * size)
        }),
{
    let lvl = t.cache_level;
    let above = (t.depth - lvl) as nat;
    let size = pow8(lvl);
    let m = pow8(above);
    let bucket = (idx / size) as int;
    let offset = bucket * size;
    let bits2 = with_bit(t.bits, idx as int);
    let s = leaves(t.bits);
    let s2 = leaves(bits2);
    lemma_pow8_grows(0, lvl);
    lemma_pow8_sum(above, lvl);
    lemma_bucket_of(idx, size, m);
    lemma_bucket_bounds(idx, size, m, bucket);
    let part = bucket_bits(supplied, lvl, idx);
    assert(part =~= bits2.subrange(offset, offset + size));
    lemma_leaves_subrange(bits2, offset, offset + size);
    lemma_climb_subrange(f, s2, lvl, m, bucket, bucket + 1);
    lemma_climb_len(f, s2, lvl, m);
    lemma_climb_len(f, s, lvl, m);
    assert(merkle_root(f, part, lvl) == climb(f, s2, lvl)[bucket]) by {
        assert(climb(f, s2, lvl).subrange(bucket, bucket + 1)[0] == climb(f, s2, lvl)[bucket]);
    }
    assert forall|j: int| 0 <= j < m && j != bucket implies (#[trigger] s2.subrange(
        j * size,
        (j + 1) * size,
    )) == s.subrange(j * size, (j + 1) * size) by {
        lemma_bucket_bounds(idx, size, m, j);
        assert(s2.subrange(j * size, (j + 1) * size) =~= s.subrange(j * size, (j + 1) * size));
    }
    assert forall|j: int| 0 <= j < m && j != bucket implies climb(f, s2, lvl)[j] == climb(
        f,
        s,
        lvl,
    )[j] by {
        lemma_bucket_bounds(idx, size, m, j);
        lemma_climb_subrange(f, s2, lvl, m, j, j + 1);
        lemma_climb_subrange(f, s, lvl, m, j, j + 1);
        assert(s2.subrange(j * size, (j + 1) * size) == s.subrange(j * size, (j + 1) * size));
        assert(climb(f, s2, lvl).subrange(j, j + 1)[0] == climb(f, s2, lvl)[j]);
        assert(climb(f, s, lvl).subrange(j, j + 1)[0] == climb(f, s, lvl)[j]);
    }
    assert(t.cached.update(bucket, merkle_root(f, part, lvl)) =~= climb(f, s2, lvl));
}

/// An update gives what a fresh build gives. Let a tree be consistent with its
/// recorded leaves, and let the supplied bitmap agree with them inside the bucket
/// of `idx`, but perhaps at `idx` itself. Then a successful update of `idx` leaves
/// the cached level and the root of the tree over the recorded leaves with `idx`
/// set, and the tree is consistent again.
pub proof fn law_update_matches_rebuild(f: Oracle, t: CachedTreeView, supplied: Seq<bool>, idx: nat)
    requires
        cache_shape_ok(t.depth, t.cache_level, t.bits.len()),
        consistent(f, t),
        supplied.len() == t.bits.len(),
        idx < t.bits.len(),
        agree_in_bucket(supplied, t.bits, t.cache_level, idx),
        update_outcome(f, t, supplied, idx) is Ok,
    ensures
        ({
            let u = update_outcome(f, t, supplied, idx)->Ok_0;
            &&& u.bits == with_bit(t.bits, idx as int)
            &&& u.cached == level(f, u.bits, t.cache_level)
            &&& u.root == merkle_root(f, u.bits, t.depth)
            &&& consistent(f, u)
        }),
{
    lemma_update_core(f, t, supplied, idx);
    lemma_climb_sum(
        f,
        leaves(with_bit(t.bits, idx as int)),
        t.cache_level,
        (t.depth - t.cache_level) as nat,
    );
}

/// An update succeeds exactly where a fresh build would. Let a tree be
/// consistent with its recorded leaves, every hash of it having succeeded, and
/// let the supplied bitmap agree with them inside the bucket of `idx`, but
/// perhaps at `idx` itself. Then the update of `idx` comes to the root to which
/// a fresh build over the recorded leaves with `idx` set comes, or fails as that
/// build fails.
pub proof fn law_update_succeeds_with_rebuild(
    f: Oracle,
    t: CachedTreeView,
    supplied: Seq<bool>,
    idx: nat,
)
    requires
        cache_shape_ok(t.depth, t.cache_level, t.bits.len()),
        consistent(f, t),
        hashes_ok(f, t.bits, t.depth),
        supplied.len() == t.bits.len(),
        idx < t.bits.len(),
        agree_in_bucket(supplied, t.bits, t.cache_level, idx),
    ensures
        match update_outcome(f, t, supplied, idx) {
            Ok(u) => build_outcome(f, with_bit(t.bits, idx as int), t.depth) == Ok::<
                Seq<u8>,
                MerkleError,
            >(u.root),
            Err(e) => build_outcome(f, with_bit(t.bits, idx as int), t.depth) == Err::<
                Seq<u8>,
                MerkleError,
            >(e),
        },
{
    let lvl = t.cache_level;
    let above = (t.depth - lvl) as nat;
    let size = pow8(lvl);
    let m = pow8(above);
    let bucket = (idx / size) as int;
    let bits2 = with_bit(t.bits, idx as int);
    let s = leaves(t.bits);
    let s2 = leaves(bits2);
    let part = bucket_bits(supplied, lvl, idx);
    lemma_update_core(f, t, supplied, idx);
    lemma_climb_sum(f, s2, lvl, above);
    lemma_climb_sum(f, s, lvl, above);
    if climb_ok(f, s2, lvl) {
        lemma_climb_subrange(f, s2, lvl, m, bucket, bucket + 1);
    }
    if climb_ok(f, leaves(part), lvl) {
        assert forall|j: int| 0 <= j < m implies climb_ok(
            f,
            #[trigger] s2.subrange(j * size, (j + 1) * size),
            lvl,
        ) by {
            if j != bucket {
                lemma_climb_subrange(f, s, lvl, m, j, j + 1);
            }
        }
        lemma_climb_ok_joins(f, s2, lvl, m);
    }
    if update_outcome(f, t, supplied, idx) is Ok {
        law_update_matches_rebuild(f, t, supplied, idx);
    }
}

/// In the form of one build and one update: after a tree was built over `bits`
/// with any cache level, an update of `idx` with the bitmap `bits` with `idx` set
/// comes to the root to which a fresh build over that bitmap comes, or fails as
/// that build fails.
pub proof fn law_update_after_build(
    f: Oracle,
    bits: Seq<bool>,
    idx: nat,
    cache_level: nat,
    depth: nat,
)
    requires
        idx < bits.len(),
        cached_outcome(f, bits, cache_level, depth) is Ok,
    ensures
        match update_outcome(
            f,
            cached_outcome(f, bits, cache_level, depth)->Ok_0,
            with_bit(bits, idx as int),
            idx,
        ) {
            Ok(u) => build_outcome(f, with_bit(bits, idx as int), depth) == Ok::<
                Seq<u8>,
                MerkleError,
            >(u.root),
            Err(e) => build_outcome(f, with_bit(bits, idx as int), depth) == Err::<
                Seq<u8>,
                MerkleError,
            >(e),
        },
{
    let t = cached_outcome(f, bits, cache_level, depth)->Ok_0;
    law_cached_build_matches_bulk(f, bits, cache_level, depth);
    law_update_succeeds_with_rebuild(f, t, with_bit(bits, idx as int), idx);
}

} // verus!
