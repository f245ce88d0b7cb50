use amcl_wrapper::field_elem::FieldElement;
use merklespike::digest::{Digest, ELEMENT_BYTES};

#[test]
fn the_vacant_leaf_is_the_field_zero() {
    let zero = Digest::leaf(false);
    assert_eq!(zero.to_bytes(), vec![0u8; 48]);
    assert_eq!(zero.to_bytes(), FieldElement::zero().to_bytes());
    assert_eq!(zero.to_bytes().len(), ELEMENT_BYTES);
}

#[test]
fn the_occupied_leaf_is_the_field_one() {
    let one = Digest::leaf(true);
    let mut expected = vec![0u8; 48];
    expected[47] = 1;
    assert_eq!(one.to_bytes(), expected);
    assert_eq!(one.to_bytes(), FieldElement::one().to_bytes());
    assert_eq!(one.to_bytes(), FieldElement::from(1u64).to_bytes());
}

#[test]
fn the_two_leaf_values_differ() {
    assert!(!Digest::leaf(false).same(&Digest::leaf(true)));
    assert!(Digest::leaf(true).same(&Digest::leaf(true)));
    assert_ne!(Digest::leaf(false), Digest::leaf(true));
    assert_eq!(Digest::leaf(true), Digest::leaf(true));
}

#[test]
fn a_digest_keeps_its_bytes() {
    let bytes: Vec<u8> = (0..48).collect();
    let d = Digest::from_bytes(bytes.clone()).unwrap();
    assert_eq!(d.to_bytes(), bytes);
    assert_eq!(d.as_bytes(), &bytes);
    assert_eq!(d.clone().to_bytes(), bytes);
    assert!(d.same(&Digest::from_bytes(bytes.clone()).unwrap()));
    let mut other = bytes.clone();
    other[20] = 0;
    assert!(!d.same(&Digest::from_bytes(other).unwrap()));
}

#[test]
fn a_digest_has_the_size_of_an_element() {
    assert!(Digest::from_bytes(vec![]).is_none());
    assert!(Digest::from_bytes(vec![0; 47]).is_none());
    assert!(Digest::from_bytes(vec![0; 49]).is_none());
    assert!(Digest::from_bytes(vec![0; 48]).is_some());
}
