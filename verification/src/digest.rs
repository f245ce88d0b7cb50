use vstd::prelude::*;

use amcl_wrapper::field_elem::FieldElement;

verus! {

/// How many bytes a field element takes.
pub const ELEMENT_BYTES: usize = 48;

/// The bytes of the field's zero: the value of a vacant leaf.
pub open spec fn zero_value() -> Seq<u8> {
    Seq::new(ELEMENT_BYTES as nat, |i: int| 0u8)
}

/// The bytes of the field's one, most significant byte first: the value of an
/// occupied leaf.
pub open spec fn one_value() -> Seq<u8> {
    Seq::new(ELEMENT_BYTES as nat, |i: int| if i == ELEMENT_BYTES - 1 { 1u8 } else { 0u8 })
}

/// The value of a leaf whose bit is `bit`.
pub open spec fn leaf_value(bit: bool) -> Seq<u8> {
    if bit {
        one_value()
    } else {
        zero_value()
    }
}

/// A hash output or a leaf value: the `ELEMENT_BYTES` bytes of a field element,
/// most significant first.
#[derive(Debug)]
pub struct Digest {
    bytes: Vec<u8>,
}

impl View for Digest {
    type V = Seq<u8>;

    closed spec fn view(&self) -> Seq<u8> {
        self.bytes@
    }
}

impl Clone for Digest {
    fn clone(&self) -> (r: Self)
        ensures
            r@ == self@,
    {
        proof {
            use_type_invariant(self);
        }
        Digest { bytes: self.bytes.clone() }
    }
}

impl PartialEq for Digest {
    fn eq(&self, other: &Digest) -> (r: bool) {
        self.same(other)
    }
}

impl vstd::std_specs::cmp::PartialEqSpecImpl for Digest {
    open spec fn obeys_eq_spec() -> bool {
        true
    }

    open spec fn eq_spec(&self, other: &Digest) -> bool {
        self@ == other@
    }
}

impl Eq for Digest {

}

/// The digests of a sequence, each as its bytes.
pub open spec fn views(s: Seq<Digest>) -> Seq<Seq<u8>> {
    Seq::new(s.len(), |i: int| s[i]@)
}

/// `FieldElement::zero().to_bytes()`: the bytes of a big number whose limbs are all
/// zero, which are `ELEMENT_BYTES` zero bytes.
#[verifier::external_body]
fn field_zero() -> (d: Digest)
    ensures
        d@ == zero_value(),
{
    Digest { bytes: FieldElement::zero().to_bytes() }
}

/// `FieldElement::one().to_bytes()`: the bytes of the big number 1, most significant
/// byte first, which are `ELEMENT_BYTES - 1` zero bytes and then a byte 1.
#[verifier::external_body]
fn field_one() -> (d: Digest)
    ensures
        d@ == one_value(),
{
    Digest { bytes: FieldElement::one().to_bytes() }
}

/// The number that bytes spell, most significant byte first.
pub open spec fn be_value(bytes: Seq<u8>) -> nat
    decreases bytes.len(),
{
    if bytes.len() == 0 {
        0
    } else {
        256 * be_value(bytes.drop_last()) + bytes.last() as nat
    }
}

/// The order of the field that the elements live in.
pub open spec fn field_order() -> nat {
    0x73EDA753299D7D483339D80809A1D80553BDA402FFFE5BFEFFFFFFFF00000001nat
}

/// The bytes stand for the field's zero.
pub open spec fn is_zero_element(bytes: Seq<u8>) -> bool {
    be_value(bytes) % field_order() == 0
}

/// The text that `FieldElement::to_hex` gives for the element with these bytes.
pub uninterp spec fn element_hex(bytes: Seq<u8>) -> Seq<char>;

/// `FieldElement::is_zero`, on the element that `FieldElement::from_bytes` reads:
/// the bytes' number reduced by the field's order is zero.
#[verifier::external_body]
pub(crate) fn field_is_zero(d: &Digest) -> (r: bool)
    ensures
        r == is_zero_element(d@),
{
    FieldElement::from_bytes(&d.bytes).unwrap().is_zero()
}

/// `FieldElement::to_hex`, on the element that `FieldElement::from_bytes` reads.
/// The text depends on the bytes alone and has two characters or more for each
/// byte of an element.
#[verifier::external_body]
pub(crate) fn field_hex(d: &Digest) -> (s: String)
    ensures
        s@ == element_hex(d@),
        s@.len() >= 2 * ELEMENT_BYTES,
{
    FieldElement::from_bytes(&d.bytes).unwrap().to_hex()
}

impl Digest {
    /// A digest has the size of a field element.
    #[verifier::type_invariant]
    spec fn sized(self) -> bool {
        self.bytes@.len() == ELEMENT_BYTES
    }

    /// The digest with the given bytes, which must be `ELEMENT_BYTES` in number.
    pub fn from_bytes(bytes: Vec<u8>) -> (r: Option<Digest>)
        ensures
            bytes@.len() == ELEMENT_BYTES ==> r is Some && r->Some_0@ == bytes@,
            bytes@.len() != ELEMENT_BYTES ==> r is None,
    {
        if bytes.len() == ELEMENT_BYTES {
            Some(Digest { bytes })
        } else {
            None
        }
    }

    /// The bytes.
    pub fn as_bytes(&self) -> (bytes: &Vec<u8>)
        ensures
            bytes@ == self@,
            bytes@.len() == ELEMENT_BYTES,
    {
        proof {
            use_type_invariant(self);
        }
        &self.bytes
    }

    /// A copy of the bytes.
    pub fn to_bytes(&self) -> (bytes: Vec<u8>)
        ensures
            bytes@ == self@,
            bytes@.len() == ELEMENT_BYTES,
    {
        proof {
            use_type_invariant(self);
        }
        self.bytes.clone()
    }

    /// Whether two digests hold the same bytes.
    pub fn same(&self, other: &Digest) -> (r: bool)
        ensures
            r == (self@ == other@),
    {
        if self.bytes.len() != other.bytes.len() {
            return false;
        }
        let mut i: usize = 0;
        while i < self.bytes.len()
            invariant
                i <= self.bytes@.len(),
                self.bytes@.len() == other.bytes@.len(),
                forall|j: int| 0 <= j < i ==> self.bytes@[j] == other.bytes@[j],
            decreases self.bytes@.len() - i,
        {
            if self.bytes[i] != other.bytes[i] {
                return false;
            }
            i += 1;
        }
        assert(self.bytes@ =~= other.bytes@);
        true
    }

    /// The value of a leaf: the field's one where `bit` is set, its zero where not.
    pub fn leaf(bit: bool) -> (d: Digest)
        ensures
            d@ == leaf_value(bit),
    {
        if bit {
            field_one()
        } else {
            field_zero()
        }
    }
}

} // verus!
