//! A packed array of bits over bytes: bit `i` lives in byte `i / 8` at
//! position `i % 8`.
use vstd::prelude::*;

verus! {

/// Bit `j` of byte `b`.
pub open spec fn bit_of(b: u8, j: int) -> bool {
    (b >> (j as u8)) & 1u8 == 1u8
}

proof fn lemma_set_bit(b: u8, r: u8, j: u8)
    requires
        r < 8,
        j < 8,
    ensures
        ((b | (1u8 << r)) >> j) & 1u8 == 1u8 <==> (j == r || (b >> j) & 1u8 == 1u8),
{
    assert(((b | (1u8 << r)) >> j) & 1u8 == 1u8 <==> (j == r || (b >> j) & 1u8 == 1u8)) by (bit_vector)
        requires
            r < 8,
            j < 8,
    ;
}

proof fn lemma_clear_bit(b: u8, r: u8, j: u8)
    requires
        r < 8,
        j < 8,
    ensures
        ((b & (0xffu8 ^ (1u8 << r))) >> j) & 1u8 == 1u8 <==> (j != r && (b >> j) & 1u8 == 1u8),
{
    assert(((b & (0xffu8 ^ (1u8 << r))) >> j) & 1u8 == 1u8 <==> (j != r && (b >> j) & 1u8 == 1u8))
        by (bit_vector)
        requires
            r < 8,
            j < 8,
    ;
}

proof fn lemma_test_bit(b: u8, r: u8)
    requires
        r < 8,
    ensures
        (b & (1u8 << r)) != 0 <==> (b >> r) & 1u8 == 1u8,
{
    assert((b & (1u8 << r)) != 0 <==> (b >> r) & 1u8 == 1u8) by (bit_vector)
        requires
            r < 8,
    ;
}

proof fn lemma_split_index(index: u64)
    ensures
        index >> 3u64 == index / 8,
        index & 7u64 == index % 8,
{
    assert(index >> 3u64 == index / 8) by (bit_vector);
    assert(index & 7u64 == index % 8) by (bit_vector);
}

/// Setting bit `i` makes it read as set and leaves the others; clearing it
/// again makes it read as clear and restores the vector.
pub proof fn lemma_round_trip(bits: Seq<bool>, i: int)
    requires
        0 <= i < bits.len(),
    ensures
        bits.update(i, true)[i],
        !bits.update(i, true).update(i, false)[i],
        forall|j: int| 0 <= j < bits.len() && j != i ==> #[trigger] bits.update(i, true)[j] == bits[j],
        !bits[i] ==> bits.update(i, true).update(i, false) == bits,
{
    if !bits[i] {
        assert(bits.update(i, true).update(i, false) =~= bits);
    }
}

/// The bits of a byte string, eight per byte, least significant first.
pub open spec fn bits_of(bytes: Seq<u8>) -> Seq<bool> {
    Seq::new((8 * bytes.len()) as nat, |i: int| bit_of(bytes[i / 8], i % 8))
}

/// Number of bytes that hold `size` bits.
pub open spec fn bytes_for(size: u64) -> int {
    (size as int + 7) / 8
}

/// A fixed number of bits, packed eight to a byte.
#[derive(Debug, Clone)]
pub struct BitVector {
    pub(crate) array: Vec<u8>,
    pub(crate) size: u64,
}

impl View for BitVector {
    type V = Seq<bool>;

    closed spec fn view(&self) -> Seq<bool> {
        Seq::new(self.size as nat, |i: int| bit_of(self.array@[i / 8], i % 8))
    }
}

impl BitVector {
    pub closed spec fn wf(&self) -> bool {
        self.array.len() == bytes_for(self.size)
    }

    /// A vector of `size` cleared bits.
    pub fn new(size: u64) -> (r: BitVector)
        requires
            bytes_for(size) <= usize::MAX,
        ensures
            r.wf(),
            r@.len() == size,
            r@ == Seq::new(size as nat, |i: int| false),
    {
        let r = BitVector { array: BitVector::get_array(size), size };
        assert forall|i: int| 0 <= i < size implies !#[trigger] r@[i] by {
            let j = (i % 8) as u8;
            assert((0u8 >> j) & 1u8 == 0u8) by (bit_vector);
        }
        assert(r@ =~= Seq::new(size as nat, |i: int| false));
        r
    }

    /// The bits of `bytes`, eight per byte.
    pub fn from_bytes(bytes: Vec<u8>) -> (r: BitVector)
        requires
            8 * bytes.len() <= u64::MAX,
        ensures
            r.wf(),
            r@ == bits_of(bytes@),
    {
        let size = 8 * bytes.len() as u64;
        let r = BitVector { array: bytes, size };
        assert(r@ =~= bits_of(r.array@));
        r
    }

    /// The bytes that hold the bits, for a vector of whole bytes.
    pub fn into_bytes(self) -> (r: Vec<u8>)
        requires
            self.wf(),
            self@.len() % 8 == 0,
        ensures
            bits_of(r@) == self@,
            8 * r.len() == self@.len(),
    {
        let r = self.array;
        assert(bits_of(r@) =~= self@);
        r
    }

    pub fn size(&self) -> (r: u64)
        ensures
            r == self@.len(),
    {
        self.size
    }

    /// Sets bit `index`.
    pub fn insert(&mut self, index: u64)
        requires
            old(self).wf(),
            index < old(self)@.len(),
        ensures
            final(self).wf(),
            final(self)@ == old(self)@.update(index as int, true),
    {
        proof {
            lemma_split_index(index);
        }
        let q = (index >> 3u64) as usize;
        let r = (index & 7u64) as u8;
        let b = self.array[q];
        self.array.set(q, b | (1u8 << r));
        proof {
            assert forall|i: int| 0 <= i < self.size implies #[trigger] self@[i] == old(self)@.update(
                index as int,
                true,
            )[i] by {
                if i / 8 == q as int {
                    lemma_set_bit(b, r, (i % 8) as u8);
                }
            }
            assert(self@ =~= old(self)@.update(index as int, true));
        }
    }

    /// Clears bit `index`.
    pub fn delete(&mut self, index: u64)
        requires
            old(self).wf(),
            index < old(self)@.len(),
        ensures
            final(self).wf(),
            final(self)@ == old(self)@.update(index as int, false),
    {
        proof {
            lemma_split_index(index);
        }
        let q = (index >> 3u64) as usize;
        let r = (index & 7u64) as u8;
        let b = self.array[q];
        self.array.set(q, b & (0xffu8 ^ (1u8 << r)));
        proof {
            assert forall|i: int| 0 <= i < self.size implies #[trigger] self@[i] == old(self)@.update(
                index as int,
                false,
            )[i] by {
                if i / 8 == q as int {
                    lemma_clear_bit(b, r, (i % 8) as u8);
                }
            }
            assert(self@ =~= old(self)@.update(index as int, false));
        }
    }

    /// Whether bit `index` is set.
    pub fn member(&self, index: u64) -> (r: bool)
        requires
            self.wf(),
            index < self@.len(),
        ensures
            r == self@[index as int],
    {
        proof {
            lemma_split_index(index);
        }
        let q = (index >> 3u64) as usize;
        let r = (index & 7u64) as u8;
        let mask = 1u8 << r;
        proof {
            lemma_test_bit(self.array@[q as int], r);
        }
        (self.array[q] & mask) != 0
    }

    /// Zeroed storage for `size` bits: `ceil(size / 8)` bytes.
    fn get_array(size: u64) -> (r: Vec<u8>)
        requires
            bytes_for(size) <= usize::MAX,
        ensures
            r.len() == bytes_for(size),
            forall|i: int| 0 <= i < r.len() ==> r[i] == 0,
    {
        proof {
            lemma_split_index(size);
        }
        let mut len = size >> 3u64;
        let remainder = size & 7u64;
        if remainder > 0 {
            len = len + 1;
        }
        vec![0u8; len as usize]
    }
}

} // verus!
