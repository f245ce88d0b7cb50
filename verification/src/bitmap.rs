use vstd::prelude::*;

use crate::error::MerkleError;

verus! {

/// Bit `k` of a byte, counting from the least significant one.
pub open spec fn bit_of(b: u8, k: int) -> bool {
    (b >> (k as u8)) & 1u8 == 1u8
}

/// The eight bits of a byte, least significant first.
pub open spec fn byte_bits(b: u8) -> Seq<bool> {
    Seq::new(8, |k: int| bit_of(b, k))
}

/// The bits held by a sequence of bytes: bit `i` is bit `i % 8` of byte `i / 8`.
pub open spec fn bits_of_bytes(bytes: Seq<u8>) -> Seq<bool> {
    Seq::new(8 * bytes.len(), |i: int| bit_of(bytes[i / 8], i % 8))
}

/// `bits` with bit `i` set.
pub open spec fn with_bit(bits: Seq<bool>, i: int) -> Seq<bool> {
    bits.update(i, true)
}

/// A byte is zero exactly when none of its eight bits is set.
pub proof fn lemma_zero_byte(b: u8)
    ensures
        b == 0 <==> byte_bits(b) == Seq::new(8, |k: int| false),
{
    assert(b == 0 <==> (!((b >> 0u8) & 1u8 == 1u8) && !((b >> 1u8) & 1u8 == 1u8) && !((b >> 2u8)
        & 1u8 == 1u8) && !((b >> 3u8) & 1u8 == 1u8) && !((b >> 4u8) & 1u8 == 1u8) && !((b >> 5u8)
        & 1u8 == 1u8) && !((b >> 6u8) & 1u8 == 1u8) && !((b >> 7u8) & 1u8 == 1u8)))
        by (bit_vector);
    let zeros = Seq::new(8, |k: int| false);
    if b == 0 {
        assert forall|k: int| 0 <= k < 8 implies byte_bits(b)[k] == zeros[k] by {
            assert(k == 0 || k == 1 || k == 2 || k == 3 || k == 4 || k == 5 || k == 6 || k == 7);
        }
        assert(byte_bits(b) =~= zeros);
    }
    if byte_bits(b) == zeros {
        assert(!byte_bits(b)[0] && !byte_bits(b)[1] && !byte_bits(b)[2] && !byte_bits(b)[3]);
        assert(!byte_bits(b)[4] && !byte_bits(b)[5] && !byte_bits(b)[6] && !byte_bits(b)[7]);
    }
}

/// Setting bit `k` of a byte sets that bit and leaves the seven others.
proof fn lemma_set_in_byte(b: u8, k: u8, j: u8)
    requires
        k < 8,
        j < 8,
    ensures
        ((b | (1u8 << k)) >> j) & 1u8 == 1u8 <==> (j == k || (b >> j) & 1u8 == 1u8),
{
    assert(((b | (1u8 << k)) >> j) & 1u8 == 1u8 <==> (j == k || (b >> j) & 1u8 == 1u8))
        by (bit_vector)
        requires
            k < 8,
            j < 8,
    ;
}

/// A dense bit vector of fixed capacity, a positive multiple of eight.
#[derive(Debug)]
pub struct Bitmap {
    bytes: Vec<u8>,
}

impl View for Bitmap {
    type V = Seq<bool>;

    closed spec fn view(&self) -> Seq<bool> {
        bits_of_bytes(self.bytes@)
    }
}

impl Clone for Bitmap {
    fn clone(&self) -> (r: Self)
        ensures
            r@ == self@,
            self.wf() ==> r.wf(),
    {
        Bitmap { bytes: self.bytes.clone() }
    }
}

impl Bitmap {
    /// The capacity is positive and fits the machine's word.
    pub closed spec fn wf(&self) -> bool {
        0 < self.bytes@.len() && 8 * self.bytes@.len() <= usize::MAX
    }

    /// What `wf` says of the capacity.
    pub proof fn lemma_capacity(&self)
        requires
            self.wf(),
        ensures
            0 < self@.len() <= usize::MAX,
            self@.len() % 8 == 0,
    {
    }

    /// An all-zero bitmap of `groups` groups of eight bits.
    pub(crate) fn blank(groups: usize) -> (b: Bitmap)
        requires
            0 < groups,
            8 * groups <= usize::MAX,
        ensures
            b.wf(),
            b@ == Seq::new((8 * groups) as nat, |i: int| false),
    {
        let mut bytes: Vec<u8> = Vec::new();
        let mut i: usize = 0;
        while i < groups
            invariant
                i <= groups,
                bytes@.len() == i,
                forall|j: int| 0 <= j < i ==> bytes@[j] == 0u8,
            decreases groups - i,
        {
            bytes.push(0u8);
            i += 1;
        }
        let b = Bitmap { bytes };
        proof {
            assert forall|j: int| 0 <= j < 8 * groups implies #[trigger] b@[j] == false by {
                assert(b.bytes@[j / 8] == 0u8);
                lemma_zero_byte(0u8);
                assert(byte_bits(0u8)[j % 8] == false);
            }
            assert(b@ =~= Seq::new((8 * groups) as nat, |i: int| false));
        }
        b
    }

    /// Bit `i`, which lies inside the bitmap.
    pub(crate) fn bit(&self, i: usize) -> (r: bool)
        requires
            self.wf(),
            i < self@.len(),
        ensures
            r == self@[i as int],
    {
        let b: u8 = self.bytes[i / 8];
        let k: u8 = (i % 8) as u8;
        (b >> k) & 1u8 == 1u8
    }

    /// Sets bit `i`, which lies inside the bitmap.
    pub(crate) fn set(&mut self, i: usize)
        requires
            old(self).wf(),
            i < old(self)@.len(),
        ensures
            final(self).wf(),
            final(self)@ == with_bit(old(self)@, i as int),
    {
        let b: u8 = self.bytes[i / 8];
        let k: u8 = (i % 8) as u8;
        let ghost before = self.bytes@;
        self.bytes.set(i / 8, b | (1u8 << k));
        proof {
            let after = self.bytes@;
            assert forall|j: int| 0 <= j < 8 * before.len() implies bits_of_bytes(after)[j]
                == with_bit(bits_of_bytes(before), i as int)[j] by {
                if j / 8 == i as int / 8 {
                    lemma_set_in_byte(b, k, (j % 8) as u8);
                }
            }
            assert(bits_of_bytes(after) =~= with_bit(bits_of_bytes(before), i as int));
        }
    }

    /// The byte of group `g`, which lies inside the bitmap: its bit `k` is bit
    /// `8 * g + k` of the bitmap.
    pub(crate) fn group(&self, g: usize) -> (b: u8)
        requires
            self.wf(),
            8 * g < self@.len(),
        ensures
            byte_bits(b) == self@.subrange(8 * g, 8 * g + 8),
    {
        let b: u8 = self.bytes[g];
        proof {
            let lo = 8 * g as int;
            assert forall|k: int| 0 <= k < 8 implies byte_bits(b)[k] == self@.subrange(lo, lo + 8)[k] by {
                assert((lo + k) / 8 == g);
                assert((lo + k) % 8 == k);
            }
            assert(byte_bits(b) =~= self@.subrange(lo, lo + 8));
        }
        b
    }

    /// An all-zero bitmap of `capacity` bits; a capacity that is zero or no multiple
    /// of eight is refused.
    pub fn new(capacity: usize) -> (r: Result<Bitmap, MerkleError>)
        ensures
            capacity > 0 && capacity % 8 == 0 ==> r is Ok && r->Ok_0.wf() && r->Ok_0@ == Seq::new(
                capacity as nat,
                |i: int| false,
            ),
            !(capacity > 0 && capacity % 8 == 0) ==> r == Err::<Bitmap, MerkleError>(
                MerkleError::InvalidConfiguration,
            ),
    {
        if capacity == 0 || capacity % 8 != 0 {
            Err(MerkleError::InvalidConfiguration)
        } else {
            Ok(Bitmap::blank(capacity / 8))
        }
    }

    /// The capacity in bits.
    pub fn len(&self) -> (n: usize)
        requires
            self.wf(),
        ensures
            n == self@.len(),
            n > 0,
            n % 8 == 0,
    {
        self.bytes.len() * 8
    }

    /// Whether bit `i` is set; an index at or beyond the capacity is refused.
    pub fn get_bit(&self, i: usize) -> (r: Result<bool, MerkleError>)
        requires
            self.wf(),
        ensures
            i < self@.len() ==> r == Ok::<bool, MerkleError>(self@[i as int]),
            i >= self@.len() ==> r == Err::<bool, MerkleError>(MerkleError::OutOfRange),
    {
        if i < self.len() {
            Ok(self.bit(i))
        } else {
            Err(MerkleError::OutOfRange)
        }
    }

    /// Sets bit `i` and leaves every other bit; an index at or beyond the capacity is
    /// refused and nothing changes.
    pub fn set_bit(&mut self, i: usize) -> (r: Result<(), MerkleError>)
        requires
            old(self).wf(),
        ensures
            final(self).wf(),
            i < old(self)@.len() ==> r is Ok && final(self)@ == with_bit(old(self)@, i as int),
            i >= old(self)@.len() ==> r == Err::<(), MerkleError>(MerkleError::OutOfRange)
                && final(self)@ == old(self)@,
    {
        if i < self.len() {
            self.set(i);
            Ok(())
        } else {
            Err(MerkleError::OutOfRange)
        }
    }

    /// The aligned byte that holds bit `i`: its bit `k` is bit `8 * (i / 8) + k` of the
    /// bitmap. An index at or beyond the capacity is refused.
    pub fn get_byte_for_bit(&self, i: usize) -> (r: Result<u8, MerkleError>)
        requires
            self.wf(),
        ensures
            i < self@.len() ==> r is Ok && byte_bits(r->Ok_0) == self@.subrange(
                8 * (i as int / 8),
                8 * (i as int / 8) + 8,
            ),
            i >= self@.len() ==> r == Err::<u8, MerkleError>(MerkleError::OutOfRange),
    {
        if i < self.len() {
            Ok(self.group(i / 8))
        } else {
            Err(MerkleError::OutOfRange)
        }
    }
}

} // verus!
