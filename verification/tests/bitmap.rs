use merklespike::bitmap::Bitmap;
use merklespike::error::MerkleError;

#[test]
fn new_refuses_a_capacity_that_is_no_multiple_of_eight() {
    for capacity in [0usize, 1, 7, 9, 12, 63, 65] {
        assert!(matches!(Bitmap::new(capacity), Err(MerkleError::InvalidConfiguration)));
    }
}

#[test]
fn new_gives_an_all_zero_bitmap() {
    let bm = Bitmap::new(64).unwrap();
    assert_eq!(bm.len(), 64);
    for i in 0..64 {
        assert_eq!(bm.get_bit(i), Ok(false));
    }
    for i in (0..64).step_by(8) {
        assert_eq!(bm.get_byte_for_bit(i), Ok(0));
    }
}

#[test]
fn set_bit_sets_one_bit_and_no_other() {
    let mut bm = Bitmap::new(24).unwrap();
    assert_eq!(bm.set_bit(10), Ok(()));
    for i in 0..24 {
        assert_eq!(bm.get_bit(i), Ok(i == 10));
    }
    assert_eq!(bm.len(), 24);
}

#[test]
fn set_bit_twice_is_set_bit_once() {
    let mut once = Bitmap::new(16).unwrap();
    once.set_bit(3).unwrap();
    let mut twice = Bitmap::new(16).unwrap();
    twice.set_bit(3).unwrap();
    twice.set_bit(3).unwrap();
    for i in 0..16 {
        assert_eq!(once.get_bit(i), twice.get_bit(i));
    }
    assert_eq!(once.get_byte_for_bit(0), twice.get_byte_for_bit(0));
    assert_eq!(twice.get_byte_for_bit(0), Ok(0b0000_1000));
}

#[test]
fn an_index_at_or_beyond_the_capacity_is_out_of_range() {
    let mut bm = Bitmap::new(8).unwrap();
    assert_eq!(bm.get_bit(7), Ok(false));
    assert_eq!(bm.get_bit(8), Err(MerkleError::OutOfRange));
    assert_eq!(bm.get_bit(usize::MAX), Err(MerkleError::OutOfRange));
    assert_eq!(bm.set_bit(8), Err(MerkleError::OutOfRange));
    assert_eq!(bm.get_byte_for_bit(8), Err(MerkleError::OutOfRange));
    assert_eq!(bm.get_byte_for_bit(0), Ok(0));
}

#[test]
fn get_byte_for_bit_packs_the_aligned_group() {
    let mut bm = Bitmap::new(32).unwrap();
    bm.set_bit(8).unwrap();
    bm.set_bit(15).unwrap();
    bm.set_bit(17).unwrap();
    assert_eq!(bm.get_byte_for_bit(0), Ok(0));
    assert_eq!(bm.get_byte_for_bit(8), Ok(0b1000_0001));
    assert_eq!(bm.get_byte_for_bit(16), Ok(0b0000_0010));
    assert_eq!(bm.get_byte_for_bit(24), Ok(0));
    // any index inside a group names the group's byte
    assert_eq!(bm.get_byte_for_bit(13), Ok(0b1000_0001));
}

#[test]
fn a_clone_holds_the_same_bits_and_is_its_own() {
    let mut bm = Bitmap::new(16).unwrap();
    bm.set_bit(5).unwrap();
    let copy = bm.clone();
    bm.set_bit(6).unwrap();
    assert_eq!(copy.get_bit(5), Ok(true));
    assert_eq!(copy.get_bit(6), Ok(false));
    assert_eq!(bm.get_bit(6), Ok(true));
}
