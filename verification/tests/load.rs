use merklespike::bitmap::Bitmap;
use merklespike::cached::PartialCachedTree;
use merklespike::digest::Digest;
use merklespike::memory::get_net_allocated_memory;
use rand::distributions::{Distribution, Uniform};

fn mix(children: &Vec<Digest>) -> Option<Digest> {
    let mut a: u64 = 0xcbf2_9ce4_8422_2325;
    for (i, child) in children.iter().enumerate() {
        a = (a ^ (i as u64 + 1)).wrapping_mul(0x0000_0100_0000_01b3);
        for byte in child.as_bytes() {
            a = (a ^ u64::from(*byte)).wrapping_mul(0x0000_0100_0000_01b3);
        }
    }
    let mut out = vec![0u8; 40];
    out.extend_from_slice(&a.to_be_bytes());
    Digest::from_bytes(out)
}

fn memdump(milestone: &str, base_value: usize) -> usize {
    let a = get_net_allocated_memory(base_value).unwrap_or(0);
    println!("At {}, using {} bytes of memory.", milestone, a);
    a
}

#[test]
fn load_pct_build_works() {
    let start_mem = memdump("Init", 0);
    let depth = 7;
    let cache_lvl = 4;
    let capacity = 1 << (3 * depth); // 8^depth
    let insert_count = capacity / 10;
    let dist = Uniform::from(0..capacity);
    let mut rng = rand::thread_rng();
    let mut revlist = Bitmap::new(capacity as usize).unwrap();
    for _ in 0..insert_count {
        revlist.set_bit(dist.sample(&mut rng) as usize).unwrap();
    }

    memdump("After prep", start_mem);
    let mut partial_cached_tree =
        PartialCachedTree::new_from_bitmap(&mix, revlist.clone(), cache_lvl, depth).unwrap();
    memdump("After build", start_mem);
    partial_cached_tree.update_tree(&revlist, 0).unwrap();
    memdump("After upd", start_mem);
    partial_cached_tree.update_tree(&revlist, 1025).unwrap();
    memdump("After upd 2", start_mem);
}
