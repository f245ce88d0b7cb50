use vstd::prelude::*;

use crate::bitmap::Bitmap;
use crate::builder::{
    build_levels, build_tree_from_bitmap, capacity_for, hash_level, record_levels, Tree,
};
use crate::digest::{views, Digest};
use crate::error::MerkleError;
use crate::lemmas::{
    lemma_climb_len, lemma_climb_ok_below, lemma_level_len, lemma_pow8_grows, lemma_pow8_sum,
};
use crate::model::{
    bucket_bits, cache_shape_ok, cached_outcome, chunks_ok, climb, climb_ok, pow8,
    update_outcome,
    CachedTreeView, Oracle,
};
use crate::oracle::{is_oracle, oracle_of};
use crate::store::{copy_digests, NodeStore};

verus! {

/// Hashes a level of eight to the `n` digests upwards until one digest remains.
/// `None` where the oracle fails on the way.
pub fn recombine<H: Fn(&Vec<Digest>) -> Option<Digest>>(h: &H, lvl: &Vec<Digest>, n: usize) -> (r:
    Option<Digest>)
    requires
        is_oracle(h),
        lvl@.len() == pow8(n as nat),
    ensures
        r is Some <==> climb_ok(oracle_of(h), views(lvl@), n as nat),
        r matches Some(d) ==> d@ == climb(oracle_of(h), views(lvl@), n as nat)[0],
{
    let ghost f = oracle_of(h);
    let ghost start = views(lvl@);
    let mut cur: Vec<Digest> = copy_digests(lvl);
    let mut k: usize = 0;
    proof {
        assert(views(cur@).len() == cur@.len());
        assert(start.len() == lvl@.len());
    }
    while k < n
        invariant
            k <= n,
            is_oracle(h),
            f == oracle_of(h),
            start == views(lvl@),
            start.len() == pow8(n as nat),
            views(cur@) == climb(f, start, k as nat),
            climb_ok(f, start, k as nat),
        decreases n - k,
    {
        let next = hash_level(h, &cur);
        proof {
            if climb_ok(f, start, n as nat) {
                lemma_climb_ok_below(f, start, (k + 1) as nat, n as nat);
            }
            assert(climb_ok(f, start, (k + 1) as nat) <==> chunks_ok(f, views(cur@)));
        }
        match next {
            Some(v) => {
                cur = v;
            },
            None => {
                return None;
            },
        }
        k += 1;
    }
    proof {
        assert(1 * pow8(n as nat) == pow8(n as nat));
        lemma_climb_len(f, start, n as nat, 1);
        assert(views(cur@).len() == cur@.len());
    }
    Some(cur[0].clone())
}

/// A bitmap of its own for the `size` bits of `bitmap` from `offset` on.
pub fn copy_bucket(bitmap: &Bitmap, offset: usize, size: usize) -> (r: Bitmap)
    requires
        bitmap.wf(),
        size > 0,
        size % 8 == 0,
        offset + size <= bitmap@.len(),
    ensures
        r.wf(),
        r@ == bitmap@.subrange(offset as int, offset + size),
{
    proof {
        bitmap.lemma_capacity();
    }
    let mut bucket = Bitmap::blank(size / 8);
    let mut i: usize = 0;
    while i < size
        invariant
            i <= size,
            bitmap.wf(),
            bucket.wf(),
            offset + size <= bitmap@.len() <= usize::MAX,
            bucket@.len() == size,
            forall|j: int| 0 <= j < i ==> bucket@[j] == bitmap@[offset + j],
            forall|j: int| i <= j < size ==> bucket@[j] == false,
        decreases size - i,
    {
        if bitmap.bit(offset + i) {
            bucket.set(i);
        }
        i += 1;
    }
    assert(bucket@ =~= bitmap@.subrange(offset as int, offset + size));
    bucket
}

/// A tree over a bitmap that keeps one of its levels, so that setting one leaf
/// costs a rebuild of that leaf's bucket and of what lies above the kept level.
pub struct PartialCachedTree<'a, H> {
    db: NodeStore,
    tree: Tree<'a, H>,
    cached_lvl: Vec<Digest>,
    lvl_idx_to_cache: usize,
    leaf_bitmap: Bitmap,
}

impl<'a, H: Fn(&Vec<Digest>) -> Option<Digest>> View for PartialCachedTree<'a, H> {
    type V = CachedTreeView;

    closed spec fn view(&self) -> CachedTreeView {
        CachedTreeView {
            root: self.tree.root@,
            depth: self.tree.depth as nat,
            cache_level: self.lvl_idx_to_cache as nat,
            cached: views(self.cached_lvl@),
            bits: self.leaf_bitmap@,
            store: self.db@,
        }
    }
}

impl<'a, H: Fn(&Vec<Digest>) -> Option<Digest>> PartialCachedTree<'a, H> {
    /// The function that the tree's oracle computes.
    pub closed spec fn oracle(&self) -> Oracle {
        oracle_of(self.tree.hash_func)
    }

    /// The oracle is one, the parts are well formed, and the cached level and the
    /// bitmap have the sizes that the depth and the cache level ask for.
    pub closed spec fn wf(&self) -> bool {
        &&& is_oracle(self.tree.hash_func)
        &&& self.db.wf()
        &&& self.leaf_bitmap.wf()
        &&& cache_shape_ok(
            self.tree.depth as nat,
            self.lvl_idx_to_cache as nat,
            self.leaf_bitmap@.len(),
        )
        &&& self.cached_lvl@.len() == pow8((self.tree.depth - self.lvl_idx_to_cache) as nat)
    }

    /// What `wf` says of the sizes.
    pub proof fn lemma_sizes(&self)
        requires
            self.wf(),
        ensures
            cache_shape_ok(self@.depth, self@.cache_level, self@.bits.len()),
            self@.cached.len() == pow8((self@.depth - self@.cache_level) as nat),
    {
    }

    /// Builds the tree of depth `depth` over `bitmap` and keeps its level of
    /// height `lvl_idx_to_cache`, which must lie between 1 and `depth`.
    pub fn new_from_bitmap(
        hash_func: &'a H,
        bitmap: Bitmap,
        lvl_idx_to_cache: usize,
        depth: usize,
    ) -> (r: Result<PartialCachedTree<'a, H>, MerkleError>)
        requires
            is_oracle(hash_func),
            bitmap.wf(),
        ensures
            match r {
                Ok(t) => t.wf() && t.oracle() == oracle_of(hash_func) && cached_outcome(
                    oracle_of(hash_func),
                    bitmap@,
                    lvl_idx_to_cache as nat,
                    depth as nat,
                ) == Ok::<CachedTreeView, MerkleError>(t@),
                Err(e) => cached_outcome(
                    oracle_of(hash_func),
                    bitmap@,
                    lvl_idx_to_cache as nat,
                    depth as nat,
                ) == Err::<CachedTreeView, MerkleError>(e),
            },
    {
        let ghost f = oracle_of(hash_func);
        if lvl_idx_to_cache < 1 || lvl_idx_to_cache > depth {
            return Err(MerkleError::InvalidConfiguration);
        }
        let levels = match build_levels(depth, &bitmap, hash_func) {
            Ok(lv) => lv,
            Err(e) => {
                return Err(e);
            },
        };
        let mut db = NodeStore::new();
        record_levels(&mut db, &bitmap, &levels, Ghost(f));
        proof {
            lemma_level_len(f, bitmap@, depth as nat, depth as nat);
            lemma_level_len(f, bitmap@, depth as nat, lvl_idx_to_cache as nat);
            assert(views(levels@[depth - 1]@).len() == levels@[depth - 1]@.len());
            assert(views(levels@[lvl_idx_to_cache - 1]@).len() == levels@[lvl_idx_to_cache
                - 1]@.len());
        }
        let root = levels[depth - 1][0].clone();
        let cached_lvl = copy_digests(&levels[lvl_idx_to_cache - 1]);
        proof {
            assert(views(cached_lvl@).len() == cached_lvl@.len());
        }
        Ok(
            PartialCachedTree {
                db,
                tree: Tree { root, depth, hash_func },
                cached_lvl,
                lvl_idx_to_cache,
                leaf_bitmap: bitmap,
            },
        )
    }

    /// Sets leaf `idx_to_set`: rebuilds the leaf's bucket from `bitmap` with the
    /// leaf's bit set, puts the bucket's root in the cached level, hashes the cached
    /// level up to the new root, and records the leaf as occupied. The store is
    /// replaced by that of the bucket's rebuild. On an error nothing changes.
    pub fn update_tree(&mut self, bitmap: &Bitmap, idx_to_set: usize) -> (r: Result<(), MerkleError>)
        requires
            old(self).wf(),
            bitmap.wf(),
        ensures
            final(self).wf(),
            final(self).oracle() == old(self).oracle(),
            match r {
                Ok(_) => update_outcome(
                    old(self).oracle(),
                    old(self)@,
                    bitmap@,
                    idx_to_set as nat,
                ) == Ok::<CachedTreeView, MerkleError>(final(self)@),
                Err(e) => final(self)@ == old(self)@ && update_outcome(
                    old(self).oracle(),
                    old(self)@,
                    bitmap@,
                    idx_to_set as nat,
                ) == Err::<CachedTreeView, MerkleError>(e),
            },
    {
        let h: &'a H = self.tree.hash_func;
        let depth: usize = self.tree.depth;
        let cache_level: usize = self.lvl_idx_to_cache;
        let ghost f = oracle_of(h);
        let capacity: usize = self.leaf_bitmap.len();
        if bitmap.len() != capacity {
            return Err(MerkleError::InvalidConfiguration);
        }
        if idx_to_set >= capacity {
            return Err(MerkleError::OutOfRange);
        }
        let ghost above = (depth - cache_level) as nat;
        proof {
            lemma_pow8_grows(cache_level as nat, depth as nat);
            lemma_pow8_grows(1, cache_level as nat);
            lemma_pow8_sum(above, cache_level as nat);
            assert(pow8(1) == 8 * pow8(0));
        }
        let size: usize = capacity_for(cache_level).unwrap();
        let bucket: usize = idx_to_set / size;
        proof {
            assert(bucket < pow8(above) && (bucket + 1) * size <= pow8(above) * size && bucket
                * size <= idx_to_set < bucket * size + size) by (nonlinear_arith)
                requires
                    bucket == idx_to_set as int / size as int,
                    size > 0,
                    idx_to_set < pow8(above) * size,
            ;
            assert((bucket + 1) * size == bucket * size + size) by (nonlinear_arith);
            assert(size == 8 * pow8((cache_level - 1) as nat));
        }
        let offset: usize = bucket * size;
        let mut bucket_bitmap = copy_bucket(bitmap, offset, size);
        bucket_bitmap.set(idx_to_set - offset);
        assert(bucket_bitmap@ == bucket_bits(bitmap@, cache_level as nat, idx_to_set as nat));
        let mut db = NodeStore::new();
        let sub = match build_tree_from_bitmap(cache_level, &bucket_bitmap, h, &mut db) {
            Ok(t) => t,
            Err(e) => {
                return Err(e);
            },
        };
        let mut staged = copy_digests(&self.cached_lvl);
        proof {
            assert(views(staged@).len() == staged@.len());
            assert(views(self.cached_lvl@).len() == self.cached_lvl@.len());
        }
        let ghost before = staged@;
        staged.set(bucket, sub.root);
        proof {
            assert(views(staged@) =~= views(before).update(bucket as int, sub.root@));
        }
        let root = match recombine(h, &staged, depth - cache_level) {
            Some(d) => d,
            None => {
                return Err(MerkleError::HashComputationFailed);
            },
        };
        self.cached_lvl = staged;
        self.tree.root = root;
        self.db = db;
        self.leaf_bitmap.set(idx_to_set);
        Ok(())
    }

    /// The tree: its root, its depth and its oracle.
    pub fn tree(&self) -> (t: &Tree<'a, H>)
        ensures
            t.root@ == self@.root,
            t.depth == self@.depth,
            oracle_of(t.hash_func) == self.oracle(),
    {
        &self.tree
    }

    /// The root digest.
    pub fn root(&self) -> (d: &Digest)
        ensures
            d@ == self@.root,
    {
        &self.tree.root
    }

    /// The cached level, one digest for each bucket.
    pub fn cached_lvl(&self) -> (v: &Vec<Digest>)
        ensures
            views(v@) == self@.cached,
    {
        &self.cached_lvl
    }

    /// The height of the cached level above the leaves.
    pub fn lvl_idx_to_cache(&self) -> (n: usize)
        ensures
            n == self@.cache_level,
    {
        self.lvl_idx_to_cache
    }

    /// The record of the occupied leaves.
    pub fn leaf_bitmap(&self) -> (b: &Bitmap)
        ensures
            b@ == self@.bits,
            self.wf() ==> b.wf(),
    {
        &self.leaf_bitmap
    }

    /// The nodes filed by the last build or update.
    pub fn db(&self) -> (s: &NodeStore)
        ensures
            s@ == self@.store,
            self.wf() ==> s.wf(),
    {
        &self.db
    }
}

} // verus!
