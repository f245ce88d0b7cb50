use merklespike::bitmap::Bitmap;
use merklespike::builder::{build_tree_from_bitmap, capacity_for, hash_leaf_level, hash_level};
use merklespike::cached::{recombine, PartialCachedTree};
use merklespike::digest::Digest;
use merklespike::error::MerkleError;
use merklespike::store::{make_db, NodeStore};
use rand::{Rng, SeedableRng};

/// A small deterministic stand-in for a hash: it mixes every byte of every child,
/// and the child's position, into a digest's worth of bytes.
fn mix(children: &Vec<Digest>) -> Option<Digest> {
    let mut a: u64 = 0xcbf2_9ce4_8422_2325;
    let mut b: u64 = 0x9e37_79b9_7f4a_7c15;
    for (i, child) in children.iter().enumerate() {
        a = (a ^ (i as u64 + 1)).wrapping_mul(0x0000_0100_0000_01b3);
        for byte in child.as_bytes() {
            a = (a ^ u64::from(*byte)).wrapping_mul(0x0000_0100_0000_01b3);
            b = b.rotate_left(7) ^ a.wrapping_add(u64::from(*byte));
        }
    }
    let mut out = vec![0u8; 16];
    for word in [a, b, a ^ b, a.rotate_left(21)] {
        out.extend_from_slice(&word.to_be_bytes());
    }
    Digest::from_bytes(out)
}

/// The digest whose bytes are zero but for the last, which is `n`.
fn small(n: u8) -> Digest {
    let mut bytes = vec![0u8; 48];
    bytes[47] = n;
    Digest::from_bytes(bytes).unwrap()
}

/// An oracle that fails on every group whose last child is an occupied leaf.
fn picky(children: &Vec<Digest>) -> Option<Digest> {
    if children[7].same(&Digest::leaf(true)) {
        None
    } else {
        mix(children)
    }
}

/// An oracle that fails on the vacant group, and only there.
fn no_vacancy(children: &Vec<Digest>) -> Option<Digest> {
    if children.iter().all(|c| c.same(&Digest::leaf(false))) {
        None
    } else {
        mix(children)
    }
}

fn bitmap_with(capacity: usize, set: &[usize]) -> Bitmap {
    let mut bm = Bitmap::new(capacity).unwrap();
    for i in set {
        bm.set_bit(*i).unwrap();
    }
    bm
}

/// The root of the subtree of height `height` over the leaves from `from` on,
/// computed from the top down.
fn root_by_descent(bm: &Bitmap, from: usize, height: u32) -> Digest {
    let below = 8usize.pow(height - 1);
    let children: Vec<Digest> = (0..8)
        .map(|c| {
            if height == 1 {
                Digest::leaf(bm.get_bit(from + c).unwrap())
            } else {
                root_by_descent(bm, from + c * below, height - 1)
            }
        })
        .collect();
    mix(&children).unwrap()
}

fn bulk_root(depth: usize, bm: &Bitmap) -> Vec<u8> {
    let mut db = NodeStore::new();
    build_tree_from_bitmap(depth, bm, &mix, &mut db).unwrap().root.to_bytes()
}

#[test]
fn capacity_is_eight_to_the_depth() {
    assert_eq!(capacity_for(0), Some(1));
    assert_eq!(capacity_for(1), Some(8));
    assert_eq!(capacity_for(2), Some(64));
    assert_eq!(capacity_for(7), Some(2_097_152));
    assert_eq!(capacity_for(21), Some(1usize << 63));
    assert_eq!(capacity_for(22), None);
    assert_eq!(capacity_for(usize::MAX), None);
}

#[test]
fn bulk_build_gives_the_root_of_the_tree() {
    for (depth, set) in [
        (1usize, vec![]),
        (1, vec![0, 7]),
        (2, vec![5, 40]),
        (3, vec![0, 1, 63, 64, 300, 511]),
    ] {
        let bm = bitmap_with(8usize.pow(depth as u32), &set);
        let mut db = NodeStore::new();
        let tree = build_tree_from_bitmap(depth, &bm, &mix, &mut db).unwrap();
        assert_eq!(tree.depth, depth);
        assert_eq!(tree.root.to_bytes(), root_by_descent(&bm, 0, depth as u32).to_bytes());
    }
}

#[test]
fn the_order_of_the_children_counts() {
    let left = bitmap_with(8, &[0]);
    let right = bitmap_with(8, &[7]);
    assert_ne!(bulk_root(1, &left), bulk_root(1, &right));
}

#[test]
fn bulk_build_refuses_a_bitmap_of_another_size() {
    let bm = bitmap_with(64, &[5]);
    for depth in [0usize, 1, 3, 22, 1000] {
        let mut db = NodeStore::new();
        let r = build_tree_from_bitmap(depth, &bm, &mix, &mut db);
        assert!(matches!(r, Err(MerkleError::InvalidConfiguration)));
    }
    let odd = bitmap_with(16, &[]);
    let mut db = NodeStore::new();
    assert!(matches!(
        build_tree_from_bitmap(1, &odd, &mix, &mut db),
        Err(MerkleError::InvalidConfiguration)
    ));
}

#[test]
fn a_failing_oracle_fails_the_build_and_files_nothing() {
    let bm = bitmap_with(64, &[5, 15]);
    let mut db = NodeStore::new();
    let r = build_tree_from_bitmap(2, &bm, &picky, &mut db);
    assert!(matches!(r, Err(MerkleError::HashComputationFailed)));
    let good = build_tree_from_bitmap(2, &bitmap_with(64, &[5]), &picky, &mut NodeStore::new())
        .unwrap();
    assert!(!db.contains_key(&good.root));
    let first_group = mix(&merklespike::builder::leaf_group(&bm, 0)).unwrap();
    assert!(!db.contains_key(&first_group));
}

#[test]
fn the_vacant_group_is_hashed_even_where_no_group_is_vacant() {
    let all: Vec<usize> = (0..8).collect();
    let bm = bitmap_with(8, &all);
    let mut db = NodeStore::new();
    assert!(matches!(
        build_tree_from_bitmap(1, &bm, &no_vacancy, &mut db),
        Err(MerkleError::HashComputationFailed)
    ));
    assert!(hash_leaf_level(&no_vacancy, &bm).is_none());
    assert!(hash_leaf_level(&mix, &bm).is_some());
}

#[test]
fn the_root_of_a_vacant_tree_is_the_oracle_applied_depth_times() {
    let mut expected = Digest::leaf(false);
    for depth in 1..=4usize {
        let group: Vec<Digest> = (0..8).map(|_| expected.clone()).collect();
        expected = mix(&group).unwrap();
        let bm = bitmap_with(8usize.pow(depth as u32), &[]);
        assert_eq!(bulk_root(depth, &bm), expected.to_bytes());
    }
}

#[test]
fn building_twice_gives_the_same_root_and_the_same_store() {
    let bm = bitmap_with(512, &[3, 77, 78, 400]);
    let mut first = NodeStore::new();
    let mut second = NodeStore::new();
    let a = build_tree_from_bitmap(3, &bm, &mix, &mut first).unwrap();
    let b = build_tree_from_bitmap(3, &bm, &mix, &mut second).unwrap();
    assert_eq!(a.root.to_bytes(), b.root.to_bytes());
    let plain = |db: &NodeStore| -> Vec<(Vec<u8>, Vec<Vec<u8>>)> {
        db.entries()
            .iter()
            .map(|(k, n)| (k.to_bytes(), n.iter().map(|d| d.to_bytes()).collect()))
            .collect()
    };
    assert_eq!(plain(&first), plain(&second));
    // four occupied leaf groups: three distinct, 77 and 78 sharing one; then the
    // nodes of height 2 (three occupied ones distinct from the vacant one) and the root
    assert_eq!(first.entries().len(), 3 + 4 + 1);
}

#[test]
fn the_store_holds_the_nodes_under_their_digests() {
    let bm = bitmap_with(64, &[5, 40]);
    let mut db = NodeStore::new();
    let tree = build_tree_from_bitmap(2, &bm, &mix, &mut db).unwrap();
    let levels = merklespike::builder::build_levels(2, &bm, &mix).unwrap();
    assert_eq!(levels.len(), 2);
    assert_eq!(levels[0].len(), 8);
    assert_eq!(levels[1].len(), 1);
    // the root is filed with the eight digests of the level below
    let children = db.get(&tree.root).unwrap();
    assert_eq!(children.len(), 8);
    for (c, d) in children.iter().zip(levels[0].iter()) {
        assert_eq!(c.to_bytes(), d.to_bytes());
    }
    // an occupied leaf group is filed with its leaf values
    let group = db.get(&levels[0][0]).unwrap();
    for (k, leaf) in group.iter().enumerate() {
        assert_eq!(leaf.to_bytes(), Digest::leaf(k == 5).to_bytes());
    }
    assert!(db.contains_key(&levels[0][5]));
    // the vacant leaf group is not filed
    assert!(!db.contains_key(&levels[0][1]));
    assert!(db.get(&levels[0][1]).is_none());
}

#[test]
fn the_first_node_under_a_digest_stays() {
    let mut db = NodeStore::new();
    let key = small(99);
    db.insert_new(key.clone(), vec![small(1)]);
    db.insert_new(key.clone(), vec![small(2)]);
    assert_eq!(db.get(&key).unwrap()[0].to_bytes(), small(1).to_bytes());
    db.insert(key.clone(), vec![small(3)]);
    assert_eq!(db.get(&key).unwrap()[0].to_bytes(), small(3).to_bytes());
    assert!(!db.contains_key(&small(9)));
    assert_eq!(db.entries().len(), 1);
}

#[test]
fn hash_level_hashes_each_group_of_eight() {
    let lower: Vec<Digest> = (0..16u8).map(small).collect();
    let upper = hash_level(&mix, &lower).unwrap();
    assert_eq!(upper.len(), 2);
    assert_eq!(upper[0].to_bytes(), mix(&lower[0..8].to_vec()).unwrap().to_bytes());
    assert_eq!(upper[1].to_bytes(), mix(&lower[8..16].to_vec()).unwrap().to_bytes());
    let root = recombine(&mix, &lower[0..8].to_vec(), 1).unwrap();
    assert_eq!(root.to_bytes(), upper[0].to_bytes());
    let same = recombine(&mix, &lower[0..1].to_vec(), 0).unwrap();
    assert_eq!(same.to_bytes(), small(0).to_bytes());
}

#[test]
fn a_cached_build_has_the_bulk_root_for_every_cache_level() {
    let depth = 3usize;
    let bm = bitmap_with(512, &[0, 9, 64, 65, 300, 511]);
    let expected = bulk_root(depth, &bm);
    for level in 1..=depth {
        let tree = PartialCachedTree::new_from_bitmap(&mix, bm.clone(), level, depth).unwrap();
        assert_eq!(tree.root().to_bytes(), expected);
        assert_eq!(tree.tree().depth, depth);
        assert_eq!(tree.lvl_idx_to_cache(), level);
        assert_eq!(tree.cached_lvl().len(), 8usize.pow((depth - level) as u32));
        for (j, d) in tree.cached_lvl().iter().enumerate() {
            let size = 8usize.pow(level as u32);
            assert_eq!(d.to_bytes(), root_by_descent(&bm, j * size, level as u32).to_bytes());
        }
        for i in 0..512 {
            assert_eq!(tree.leaf_bitmap().get_bit(i), bm.get_bit(i));
        }
    }
}

#[test]
fn a_cached_build_refuses_a_cache_level_outside_the_tree() {
    let bm = bitmap_with(64, &[5, 40]);
    for level in [0usize, 3, 100] {
        let r = PartialCachedTree::new_from_bitmap(&mix, bm.clone(), level, 2);
        assert!(matches!(r, Err(MerkleError::InvalidConfiguration)));
    }
    let r = PartialCachedTree::new_from_bitmap(&mix, bm.clone(), 1, 3);
    assert!(matches!(r, Err(MerkleError::InvalidConfiguration)));
    let r = PartialCachedTree::new_from_bitmap(&picky, bitmap_with(64, &[7]), 1, 2);
    assert!(matches!(r, Err(MerkleError::HashComputationFailed)));
}

#[test]
fn an_update_gives_the_root_of_a_fresh_build() {
    // depth 2, 64 leaves, bits 5 and 40 set; cache level 1; then leaf 10
    let mut bm = bitmap_with(64, &[5, 40]);
    let r0 = bulk_root(2, &bm);
    let mut tree = PartialCachedTree::new_from_bitmap(&mix, bm.clone(), 1, 2).unwrap();
    assert_eq!(tree.root().to_bytes(), r0);
    assert_eq!(tree.update_tree(&bm, 10), Ok(()));
    bm.set_bit(10).unwrap();
    let r1 = bulk_root(2, &bm);
    assert_ne!(r0, r1);
    assert_eq!(tree.root().to_bytes(), r1);
    assert_eq!(tree.leaf_bitmap().get_bit(10), Ok(true));
    assert_eq!(tree.leaf_bitmap().get_bit(11), Ok(false));
    assert_eq!(tree.cached_lvl()[1].to_bytes(), root_by_descent(&bm, 8, 1).to_bytes());
    assert_eq!(tree.cached_lvl()[0].to_bytes(), root_by_descent(&bm, 0, 1).to_bytes());
}

#[test]
fn an_update_with_the_bit_already_set_in_the_bitmap_gives_the_same() {
    let before = bitmap_with(512, &[5, 40, 100]);
    let after = bitmap_with(512, &[5, 40, 100, 77]);
    for level in 1..=3usize {
        let mut early = PartialCachedTree::new_from_bitmap(&mix, before.clone(), level, 3).unwrap();
        let mut late = PartialCachedTree::new_from_bitmap(&mix, before.clone(), level, 3).unwrap();
        early.update_tree(&before, 77).unwrap();
        late.update_tree(&after, 77).unwrap();
        assert_eq!(early.root().to_bytes(), bulk_root(3, &after));
        assert_eq!(late.root().to_bytes(), bulk_root(3, &after));
        // once more: setting a set leaf changes nothing
        late.update_tree(&after, 77).unwrap();
        assert_eq!(late.root().to_bytes(), bulk_root(3, &after));
    }
}

#[test]
fn an_update_replaces_the_store_by_that_of_the_bucket() {
    let bm = bitmap_with(512, &[5, 300]);
    let mut tree = PartialCachedTree::new_from_bitmap(&mix, bm.clone(), 2, 3).unwrap();
    let old_root = tree.root().clone();
    assert!(tree.db().contains_key(&old_root));
    tree.update_tree(&bm, 6).unwrap();
    assert!(!tree.db().contains_key(&old_root));
    assert!(!tree.db().contains_key(tree.root()));
    assert!(tree.db().contains_key(&tree.cached_lvl()[0]));
    assert!(!tree.db().contains_key(&tree.cached_lvl()[4]));
}

#[test]
fn an_update_beyond_the_capacity_is_out_of_range() {
    let bm = bitmap_with(64, &[5, 40]);
    let mut tree = PartialCachedTree::new_from_bitmap(&mix, bm.clone(), 1, 2).unwrap();
    let root = tree.root().to_bytes();
    assert_eq!(tree.update_tree(&bm, 64), Err(MerkleError::OutOfRange));
    assert_eq!(tree.update_tree(&bm, usize::MAX), Err(MerkleError::OutOfRange));
    assert_eq!(tree.root().to_bytes(), root);
    assert_eq!(tree.update_tree(&bm, 63), Ok(()));
}

#[test]
fn an_update_with_a_bitmap_of_another_size_is_refused() {
    let bm = bitmap_with(64, &[5, 40]);
    let mut tree = PartialCachedTree::new_from_bitmap(&mix, bm, 1, 2).unwrap();
    let other = bitmap_with(512, &[5, 40]);
    assert_eq!(tree.update_tree(&other, 10), Err(MerkleError::InvalidConfiguration));
    assert_eq!(tree.update_tree(&other, 600), Err(MerkleError::InvalidConfiguration));
    let small = bitmap_with(8, &[]);
    assert_eq!(tree.update_tree(&small, 3), Err(MerkleError::InvalidConfiguration));
}

#[test]
fn a_failed_update_changes_nothing() {
    let bm = bitmap_with(64, &[5, 40]);
    let mut tree = PartialCachedTree::new_from_bitmap(&picky, bm.clone(), 1, 2).unwrap();
    let root = tree.root().to_bytes();
    let cached: Vec<Vec<u8>> = tree.cached_lvl().iter().map(|d| d.to_bytes()).collect();
    // leaf 15 is the last of its group: the oracle fails on the bucket
    assert_eq!(tree.update_tree(&bm, 15), Err(MerkleError::HashComputationFailed));
    assert_eq!(tree.root().to_bytes(), root);
    let now: Vec<Vec<u8>> = tree.cached_lvl().iter().map(|d| d.to_bytes()).collect();
    assert_eq!(now, cached);
    assert_eq!(tree.leaf_bitmap().get_bit(15), Ok(false));
    assert!(tree.db().contains_key(tree.root()));
    // and the tree still takes an update
    assert_eq!(tree.update_tree(&bm, 14), Ok(()));
    assert_eq!(tree.leaf_bitmap().get_bit(14), Ok(true));
}

#[test]
fn an_update_reads_the_bucket_of_the_leaf_and_no_other() {
    let recorded = bitmap_with(512, &[5, 300]);
    // the supplied bitmap has leaf 6 in the bucket of leaf 7, and leaf 400 elsewhere
    let supplied = bitmap_with(512, &[5, 6, 300, 400]);
    let mut tree = PartialCachedTree::new_from_bitmap(&mix, recorded, 1, 3).unwrap();
    tree.update_tree(&supplied, 7).unwrap();
    assert_eq!(tree.root().to_bytes(), bulk_root(3, &bitmap_with(512, &[5, 6, 7, 300])));
    // the record of the leaves takes the one leaf only
    assert_eq!(tree.leaf_bitmap().get_bit(7), Ok(true));
    assert_eq!(tree.leaf_bitmap().get_bit(6), Ok(false));
    assert_eq!(tree.leaf_bitmap().get_bit(400), Ok(false));
}

#[test]
fn updates_in_any_order_give_the_root_of_a_fresh_build() {
    let mut rng = rand::rngs::StdRng::seed_from_u64(2024);
    for level in 1..=3usize {
        let mut bm = Bitmap::new(512).unwrap();
        let mut tree = PartialCachedTree::new_from_bitmap(&mix, bm.clone(), level, 3).unwrap();
        for _ in 0..25 {
            let idx = rng.gen_range(0, 512);
            bm.set_bit(idx).unwrap();
            tree.update_tree(&bm, idx).unwrap();
            assert_eq!(tree.root().to_bytes(), bulk_root(3, &bm));
        }
        let fresh = PartialCachedTree::new_from_bitmap(&mix, bm.clone(), level, 3).unwrap();
        let cached: Vec<Vec<u8>> = tree.cached_lvl().iter().map(|d| d.to_bytes()).collect();
        let expected: Vec<Vec<u8>> = fresh.cached_lvl().iter().map(|d| d.to_bytes()).collect();
        assert_eq!(cached, expected);
    }
}

#[test]
fn a_tree_built_after_setting_a_bit_twice_is_the_tree_after_setting_it_once() {
    let mut once = bitmap_with(64, &[5, 40]);
    once.set_bit(17).unwrap();
    let mut twice = bitmap_with(64, &[5, 40]);
    twice.set_bit(17).unwrap();
    twice.set_bit(17).unwrap();
    assert_eq!(bulk_root(2, &once), bulk_root(2, &twice));
    let a = PartialCachedTree::new_from_bitmap(&mix, once, 1, 2).unwrap();
    let b = PartialCachedTree::new_from_bitmap(&mix, twice, 1, 2).unwrap();
    assert_eq!(a.root().to_bytes(), b.root().to_bytes());
}

#[test]
fn a_new_store_is_empty() {
    let db = make_db();
    assert!(db.entries().is_empty());
    assert!(!db.contains_key(&Digest::leaf(false)));
    assert!(db.get(&Digest::leaf(true)).is_none());
}

#[test]
fn update_tree_from_bm_works() {
    let depth = 7;
    let lvl_to_cache = 4;

    let mut bm = Bitmap::new(1 << (3 * depth)).unwrap();
    let mut tree_from_bm =
        PartialCachedTree::new_from_bitmap(&mix, bm.clone(), lvl_to_cache, depth).unwrap();

    for idx in [1, 8 + 2, 8 * 8 + 3, 8 * 8 * 8 + 4].to_vec() {
        bm.set_bit(idx).unwrap();
        let mut db = NodeStore::new();
        let tree = build_tree_from_bitmap(depth, &bm, &mix, &mut db).unwrap();

        tree_from_bm.update_tree(&bm, idx).unwrap();
        assert_eq!(tree.root.to_bytes(), tree_from_bm.tree().root.to_bytes());
    }
}
