use vstd::prelude::*;

use crate::bitmap::{lemma_zero_byte, Bitmap};
use crate::digest::{leaf_value, views, Digest};
use crate::error::MerkleError;
use crate::lemmas::{
    lemma_climb_ok_below, lemma_climb_one, lemma_level_len, lemma_pow8_grows, lemma_vacant_group,
};
use crate::model::{
    build_outcome, chunk, chunks_ok, climb, climb_ok, digest_of, hash_chunks, leaves, level, pow8,
    record, shape_ok, store_after, zero_group, Oracle, ARITY,
};
use crate::oracle::{ask, is_oracle, oracle_of};
use crate::store::NodeStore;

verus! {

/// A built tree: its root, its depth and the oracle that hashed it.
pub struct Tree<'a, H> {
    pub root: Digest,
    pub depth: usize,
    pub hash_func: &'a H,
}

/// The number of leaves of a tree of depth `depth`, where a machine word holds it.
pub fn capacity_for(depth: usize) -> (r: Option<usize>)
    ensures
        match r {
            Some(c) => c == pow8(depth as nat),
            None => pow8(depth as nat) > usize::MAX,
        },
{
    let mut cap: usize = 1;
    let mut d: usize = 0;
    while d < depth
        invariant
            d <= depth,
            cap == pow8(d as nat),
        decreases depth - d,
    {
        if cap > usize::MAX / 8 {
            proof {
                lemma_pow8_grows((d + 1) as nat, depth as nat);
            }
            return None;
        }
        cap = cap * 8;
        d += 1;
    }
    Some(cap)
}

/// The `g`-th group of eight leaf values of a bitmap, in ascending index order.
pub fn leaf_group(b: &Bitmap, g: usize) -> (node: Vec<Digest>)
    requires
        b.wf(),
        8 * g + 8 <= b@.len(),
    ensures
        node@.len() == 8,
        views(node@) == chunk(leaves(b@), g as int),
{
    let mut node: Vec<Digest> = Vec::new();
    let mut k: usize = 0;
    while k < ARITY
        invariant
            k <= 8,
            b.wf(),
            8 * g + 8 <= b@.len(),
            node@.len() == k,
            forall|j: int| 0 <= j < k ==> node@[j]@ == leaf_value(b@[8 * g + j]),
        decreases ARITY - k,
    {
        proof {
            b.lemma_capacity();
        }
        node.push(Digest::leaf(b.bit(ARITY * g + k)));
        k += 1;
    }
    assert(views(node@) =~= chunk(leaves(b@), g as int));
    node
}

/// The group of eight vacant leaves.
pub fn vacant_group() -> (node: Vec<Digest>)
    ensures
        node@.len() == 8,
        views(node@) == zero_group(),
{
    let mut node: Vec<Digest> = Vec::new();
    let mut k: usize = 0;
    while k < ARITY
        invariant
            k <= 8,
            node@.len() == k,
            forall|j: int| 0 <= j < k ==> node@[j]@ == leaf_value(false),
        decreases ARITY - k,
    {
        node.push(Digest::leaf(false));
        k += 1;
    }
    assert(views(node@) =~= zero_group());
    node
}

/// The `i`-th group of eight of a level.
pub fn group_at(lower: &Vec<Digest>, i: usize) -> (node: Vec<Digest>)
    requires
        8 * i + 8 <= lower@.len(),
    ensures
        node@.len() == 8,
        views(node@) == chunk(views(lower@), i as int),
{
    let total: usize = lower.len();
    let mut node: Vec<Digest> = Vec::new();
    let mut k: usize = 0;
    while k < ARITY
        invariant
            k <= 8,
            total == lower@.len(),
            8 * i + 8 <= lower@.len(),
            node@.len() == k,
            forall|j: int| 0 <= j < k ==> node@[j]@ == lower@[8 * i + j]@,
        decreases ARITY - k,
    {
        node.push(lower[ARITY * i + k].clone());
        k += 1;
    }
    assert(views(node@) =~= chunk(views(lower@), i as int));
    node
}

/// The leaf-group pass: the digest of every group of eight leaves, in order. The
/// digest of the vacant group is taken once and used for every vacant group.
/// `None` where the oracle fails on the vacant group or on a group of the bitmap.
pub fn hash_leaf_level<H: Fn(&Vec<Digest>) -> Option<Digest>>(h: &H, b: &Bitmap) -> (r: Option<
    Vec<Digest>,
>)
    requires
        is_oracle(h),
        b.wf(),
    ensures
        r is Some <==> oracle_of(h)(zero_group()) is Some && chunks_ok(oracle_of(h), leaves(b@)),
        r matches Some(v) ==> views(v@) == hash_chunks(oracle_of(h), leaves(b@)),
{
    let ghost f = oracle_of(h);
    let ghost below = leaves(b@);
    let vacant = vacant_group();
    let hz = match ask(h, &vacant) {
        Some(d) => d,
        None => {
            return None;
        },
    };
    let n: usize = b.len() / ARITY;
    let mut out: Vec<Digest> = Vec::new();
    let mut g: usize = 0;
    while g < n
        invariant
            g <= n,
            n == b@.len() / 8,
            b@.len() % 8 == 0,
            b.wf(),
            is_oracle(h),
            f == oracle_of(h),
            below == leaves(b@),
            f(zero_group()) is Some,
            hz@ == digest_of(f, zero_group()),
            out@.len() == g,
            forall|j: int|
                0 <= j < g ==> (#[trigger] f(chunk(below, j))) is Some && out@[j]@ == digest_of(
                    f,
                    chunk(below, j),
                ),
        decreases n - g,
    {
        proof {
            b.lemma_capacity();
        }
        let byte = b.group(g);
        proof {
            lemma_zero_byte(byte);
            lemma_vacant_group(b@, g as int);
        }
        if byte == 0 {
            out.push(hz.clone());
        } else {
            let node = leaf_group(b, g);
            match ask(h, &node) {
                Some(d) => {
                    out.push(d);
                },
                None => {
                    assert(f(chunk(below, g as int)) is None);
                    return None;
                },
            }
        }
        g += 1;
    }
    assert(views(out@) =~= hash_chunks(f, below));
    Some(out)
}

/// One internal-level pass: the digest of every group of eight of `lower`, in
/// order. `None` where the oracle fails on one of them.
pub fn hash_level<H: Fn(&Vec<Digest>) -> Option<Digest>>(h: &H, lower: &Vec<Digest>) -> (r: Option<
    Vec<Digest>,
>)
    requires
        is_oracle(h),
    ensures
        r is Some <==> chunks_ok(oracle_of(h), views(lower@)),
        r matches Some(v) ==> views(v@) == hash_chunks(oracle_of(h), views(lower@)),
{
    let ghost f = oracle_of(h);
    let ghost below = views(lower@);
    let n: usize = lower.len() / ARITY;
    let mut out: Vec<Digest> = Vec::new();
    let mut i: usize = 0;
    while i < n
        invariant
            i <= n,
            n == lower@.len() / 8,
            is_oracle(h),
            f == oracle_of(h),
            below == views(lower@),
            out@.len() == i,
            forall|j: int|
                0 <= j < i ==> (#[trigger] f(chunk(below, j))) is Some && out@[j]@ == digest_of(
                    f,
                    chunk(below, j),
                ),
        decreases n - i,
    {
        let node = group_at(lower, i);
        match ask(h, &node) {
            Some(d) => {
                out.push(d);
            },
            None => {
                assert(f(chunk(below, i as int)) is None);
                return None;
            },
        }
        i += 1;
    }
    assert(views(out@) =~= hash_chunks(f, below));
    Some(out)
}

/// Files the occupied leaf groups of a bitmap, the `g`-th under `keys[g]`, each
/// unless its key is taken.
pub fn record_leaf_level(db: &mut NodeStore, b: &Bitmap, keys: &Vec<Digest>)
    requires
        old(db).wf(),
        b.wf(),
        8 * keys@.len() == b@.len(),
    ensures
        final(db).wf(),
        final(db)@ == record(views(keys@), leaves(b@), keys@.len(), old(db)@, true),
{
    let n: usize = keys.len();
    let mut g: usize = 0;
    while g < n
        invariant
            g <= n,
            n == keys@.len(),
            8 * keys@.len() == b@.len(),
            b.wf(),
            db.wf(),
            db@ == record(views(keys@), leaves(b@), g as nat, old(db)@, true),
        decreases n - g,
    {
        proof {
            b.lemma_capacity();
        }
        let byte = b.group(g);
        proof {
            lemma_zero_byte(byte);
            lemma_vacant_group(b@, g as int);
        }
        if byte != 0 {
            let node = leaf_group(b, g);
            db.insert_new(keys[g].clone(), node);
        }
        g += 1;
    }
}

/// Files every group of eight of `lower`, the `i`-th under `keys[i]`, each unless
/// its key is taken.
pub fn record_level(db: &mut NodeStore, lower: &Vec<Digest>, keys: &Vec<Digest>)
    requires
        old(db).wf(),
        8 * keys@.len() <= lower@.len(),
    ensures
        final(db).wf(),
        final(db)@ == record(views(keys@), views(lower@), keys@.len(), old(db)@, false),
{
    let n: usize = keys.len();
    let mut i: usize = 0;
    while i < n
        invariant
            i <= n,
            n == keys@.len(),
            8 * keys@.len() <= lower@.len(),
            db.wf(),
            db@ == record(views(keys@), views(lower@), i as nat, old(db)@, false),
        decreases n - i,
    {
        let node = group_at(lower, i);
        db.insert_new(keys[i].clone(), node);
        i += 1;
    }
}

/// `lv` holds the levels of heights 1, 2, ... over `bits`, lowest first.
pub open spec fn are_levels(lv: Seq<Vec<Digest>>, f: Oracle, bits: Seq<bool>) -> bool {
    forall|k: int| 0 <= k < lv.len() ==> views((#[trigger] lv[k])@) == level(f, bits, (k + 1) as nat)
}

/// Every level of the tree of depth `depth` over a bitmap, from the leaf groups'
/// digests up to the root alone. A bitmap whose capacity is not eight to the
/// `depth`, or a depth of zero, is refused before any hashing.
pub fn build_levels<H: Fn(&Vec<Digest>) -> Option<Digest>>(depth: usize, b: &Bitmap, h: &H) -> (r:
    Result<Vec<Vec<Digest>>, MerkleError>)
    requires
        is_oracle(h),
        b.wf(),
    ensures
        match r {
            Ok(lv) => build_outcome(oracle_of(h), b@, depth as nat) is Ok && lv@.len() == depth
                && are_levels(lv@, oracle_of(h), b@),
            Err(e) => build_outcome(oracle_of(h), b@, depth as nat) == Err::<Seq<u8>, MerkleError>(
                e,
            ),
        },
{
    let ghost f = oracle_of(h);
    if depth == 0 {
        return Err(MerkleError::InvalidConfiguration);
    }
    match capacity_for(depth) {
        Some(c) => {
            if c != b.len() {
                return Err(MerkleError::InvalidConfiguration);
            }
        },
        None => {
            proof {
                b.lemma_capacity();
            }
            return Err(MerkleError::InvalidConfiguration);
        },
    }
    let mut levels: Vec<Vec<Digest>> = Vec::new();
    proof {
        lemma_climb_one(f, leaves(b@));
    }
    let first = match hash_leaf_level(h, b) {
        Some(v) => v,
        None => {
            proof {
                if climb_ok(f, leaves(b@), depth as nat) {
                    lemma_climb_ok_below(f, leaves(b@), 1, depth as nat);
                }
            }
            return Err(MerkleError::HashComputationFailed);
        },
    };
    levels.push(first);
    let mut k: usize = 1;
    while k < depth
        invariant
            1 <= k <= depth,
            shape_ok(depth as nat, b@.len()),
            is_oracle(h),
            f == oracle_of(h),
            levels@.len() == k,
            are_levels(levels@, f, b@),
            f(zero_group()) is Some,
            climb_ok(f, leaves(b@), k as nat),
        decreases depth - k,
    {
        let next = match hash_level(h, &levels[k - 1]) {
            Some(v) => v,
            None => {
                proof {
                    assert(views(levels@[k - 1]@) == level(f, b@, k as nat));
                    if climb_ok(f, leaves(b@), depth as nat) {
                        lemma_climb_ok_below(f, leaves(b@), (k + 1) as nat, depth as nat);
                        assert(chunks_ok(f, climb(f, leaves(b@), k as nat)));
                    }
                }
                return Err(MerkleError::HashComputationFailed);
            },
        };
        let ghost before = levels@;
        levels.push(next);
        proof {
            assert forall|j: int| 0 <= j < levels@.len() implies views((#[trigger] levels@[j])@)
                == level(f, b@, (j + 1) as nat) by {
                if j < k {
                    assert(levels@[j] == before[j]);
                }
            }
        }
        k += 1;
    }
    Ok(levels)
}

/// Files the nodes of a built tree into the store, level by level from the leaf
/// groups up.
pub(crate) fn record_levels(
    db: &mut NodeStore,
    b: &Bitmap,
    lv: &Vec<Vec<Digest>>,
    Ghost(f): Ghost<Oracle>,
)
    requires
        old(db).wf(),
        b.wf(),
        shape_ok(lv@.len(), b@.len()),
        are_levels(lv@, f, b@),
    ensures
        final(db).wf(),
        final(db)@ == store_after(f, b@, lv@.len(), old(db)@),
{
    let depth: usize = lv.len();
    proof {
        lemma_climb_one(f, leaves(b@));
        lemma_level_len(f, b@, depth as nat, 1);
        lemma_level_len(f, b@, depth as nat, 0);
        assert(pow8(depth as nat) == 8 * pow8((depth - 1) as nat));
        assert(views(lv@[0]@).len() == lv@[0]@.len());
    }
    record_leaf_level(db, b, &lv[0]);
    proof {
        assert(store_after(f, b@, 0, old(db)@) == old(db)@);
        assert(views(lv@[0]@) == level(f, b@, 1));
    }
    let mut k: usize = 1;
    while k < depth
        invariant
            1 <= k <= depth,
            depth == lv@.len(),
            shape_ok(lv@.len(), b@.len()),
            are_levels(lv@, f, b@),
            db.wf(),
            db@ == store_after(f, b@, k as nat, old(db)@),
        decreases depth - k,
    {
        proof {
            lemma_level_len(f, b@, depth as nat, k as nat);
            lemma_level_len(f, b@, depth as nat, (k + 1) as nat);
            assert(pow8((depth - k) as nat) == 8 * pow8((depth - k - 1) as nat));
            assert(views(lv@[k as int]@).len() == lv@[k as int]@.len());
            assert(views(lv@[k - 1]@).len() == lv@[k - 1]@.len());
        }
        record_level(db, &lv[k - 1], &lv[k]);
        k += 1;
    }
}

/// What a build comes to, and the store it leaves.
pub struct BuildResult {
    /// The root, or why there is none.
    pub outcome: Result<Seq<u8>, MerkleError>,
    /// The store after the build.
    pub store: Map<Seq<u8>, Seq<Seq<u8>>>,
}

/// What a build's result is read as: the root's bytes or the error, and the store
/// it left.
pub open spec fn read_result<H>(
    r: Result<Tree<'_, H>, MerkleError>,
    store: Map<Seq<u8>, Seq<Seq<u8>>>,
) -> BuildResult {
    BuildResult {
        outcome: match r {
            Ok(t) => Ok(t.root@),
            Err(e) => Err(e),
        },
        store,
    }
}

/// `out` is what the build of depth `depth` over `bits` comes to from the store
/// `before`: the outcome is the root or the error that the shape and the oracle
/// give, and the store holds the tree's nodes besides what it held, or, after an
/// error, what it held.
pub open spec fn build_post(
    f: Oracle,
    bits: Seq<bool>,
    depth: nat,
    before: Map<Seq<u8>, Seq<Seq<u8>>>,
    out: BuildResult,
) -> bool {
    &&& out.outcome == build_outcome(f, bits, depth)
    &&& out.store == if out.outcome is Ok {
        store_after(f, bits, depth, before)
    } else {
        before
    }
}

/// Builds the tree of depth `depth` over a bitmap of eight to the `depth` bits,
/// bottom-up, and files its nodes in `db`. Nothing is filed unless the build
/// succeeds.
pub fn build_tree_from_bitmap<'a, H: Fn(&Vec<Digest>) -> Option<Digest>>(
    depth: usize,
    b: &Bitmap,
    hash_func: &'a H,
    db: &mut NodeStore,
) -> (r: Result<Tree<'a, H>, MerkleError>)
    requires
        is_oracle(hash_func),
        b.wf(),
        old(db).wf(),
    ensures
        final(db).wf(),
        build_post(
            oracle_of(hash_func),
            b@,
            depth as nat,
            old(db)@,
            read_result(r, final(db)@),
        ),
        r matches Ok(t) ==> t.depth == depth && t.hash_func == hash_func,
{
    let levels = match build_levels(depth, b, hash_func) {
        Ok(lv) => lv,
        Err(e) => {
            return Err(e);
        },
    };
    record_levels(db, b, &levels, Ghost(oracle_of(hash_func)));
    proof {
        lemma_level_len(oracle_of(hash_func), b@, depth as nat, depth as nat);
        assert(views(levels@[depth - 1]@).len() == levels@[depth - 1]@.len());
    }
    let root = levels[depth - 1][0].clone();
    Ok(Tree { root, depth, hash_func })
}

} // verus!
