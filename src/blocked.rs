//! Blocked Bloom filters: a key is routed by one hash to a single block, and
//! all of its bits lie in that block, so a query touches one cache line
//! (`BlockedBloomFilter`) or one 64-bit register
//! (`RegisterAlignedBloomFilter`). The blocks live in a `slab::Slab`.
use crate::bitvector::{bit_of, bits_of, BitVector};
use crate::hashing::{generate_hash_functions, index_bits, HashFunction};
use slab::Slab;
use vstd::prelude::*;

verus! {

/// `slab::Slab`, the block store, held opaque.
#[verifier::external_type_specification]
#[verifier::external_body]
#[verifier::reject_recursive_types(T)]
pub struct ExSlab<T>(slab::Slab<T>);

/// The byte blocks that a slab holds, by key.
pub uninterp spec fn byte_blocks(s: Slab<Vec<u8>>) -> Map<usize, Seq<u8>>;

/// The registers that a slab holds, by key.
pub uninterp spec fn registers(s: Slab<u64>) -> Map<usize, u64>;

/// Relies on `Slab::new`: a slab that holds nothing.
#[verifier::external_body]
fn new_block_slab() -> (r: Slab<Vec<u8>>)
    ensures
        byte_blocks(r).dom().len() == 0 && byte_blocks(r).dom().finite(),
{
    Slab::new()
}

/// Relies on `Slab::insert`: the value is stored under a key that was
/// vacant, which is returned.
#[verifier::external_body]
fn insert_block(s: &mut Slab<Vec<u8>>, v: Vec<u8>) -> (r: usize)
    ensures
        !byte_blocks(*old(s)).dom().contains(r),
        byte_blocks(*final(s)) == byte_blocks(*old(s)).insert(r, v@),
{
    s.insert(v)
}

/// Relies on `Slab`'s `Index`: the value under an occupied key.
#[verifier::external_body]
fn block_at(s: &Slab<Vec<u8>>, key: usize) -> (r: &Vec<u8>)
    requires
        byte_blocks(*s).dom().contains(key),
    ensures
        r@ == byte_blocks(*s)[key],
{
    &s[key]
}

/// Relies on `Slab`'s `IndexMut`: replaces the value under an occupied key.
#[verifier::external_body]
fn set_block(s: &mut Slab<Vec<u8>>, key: usize, v: Vec<u8>)
    requires
        byte_blocks(*old(s)).dom().contains(key),
    ensures
        byte_blocks(*final(s)) == byte_blocks(*old(s)).insert(key, v@),
{
    s[key] = v;
}

/// Relies on `Slab::new`: a slab that holds nothing.
#[verifier::external_body]
fn new_register_slab() -> (r: Slab<u64>)
    ensures
        registers(r).dom().len() == 0 && registers(r).dom().finite(),
{
    Slab::new()
}

/// Relies on `Slab::insert`: the value is stored under a key that was
/// vacant, which is returned.
#[verifier::external_body]
fn insert_register(s: &mut Slab<u64>, v: u64) -> (r: usize)
    ensures
        !registers(*old(s)).dom().contains(r),
        registers(*final(s)) == registers(*old(s)).insert(r, v),
{
    s.insert(v)
}

/// Relies on `Slab`'s `Index`: the value under an occupied key.
#[verifier::external_body]
fn register_at(s: &Slab<u64>, key: usize) -> (r: u64)
    requires
        registers(*s).dom().contains(key),
    ensures
        r == registers(*s)[key],
{
    s[key]
}

/// Relies on `Slab`'s `IndexMut`: replaces the value under an occupied key.
#[verifier::external_body]
fn set_register(s: &mut Slab<u64>, key: usize, v: u64)
    requires
        registers(*old(s)).dom().contains(key),
    ensures
        registers(*final(s)) == registers(*old(s)).insert(key, v),
{
    s[key] = v;
}

/// Distinct keys, all occupied in `m`.
pub open spec fn keys_ok<V>(keys: Seq<usize>, m: Map<usize, V>) -> bool {
    &&& forall|i: int| 0 <= i < keys.len() ==> m.dom().contains(#[trigger] keys[i])
    &&& forall|i: int, j: int| 0 <= i < j < keys.len() ==> keys[i] != keys[j]
}

/// A blocked Bloom filter: `num_blocks` blocks of `block_size` bytes.
pub struct BlockedBloomFilter {
    pub(crate) blocks: Slab<Vec<u8>>,
    pub(crate) block_keys: Vec<usize>,
    pub(crate) block_size: usize,
    pub(crate) num_blocks: u64,
    pub(crate) hash_functions: Vec<HashFunction>,
    pub(crate) binary_info: (u32, u32),
}

impl BlockedBloomFilter {
    pub closed spec fn wf(&self) -> bool {
        &&& 1 <= self.num_blocks <= u32::MAX
        &&& self.block_keys.len() == self.num_blocks
        &&& keys_ok(self.block_keys@, byte_blocks(self.blocks))
        &&& 1 <= self.block_size <= 0x1000_0000
        &&& forall|b: int| 0 <= b < self.num_blocks ==> (#[trigger] self.block(b)).len() == self.block_size
        &&& 1 <= self.hash_functions.len() <= u32::MAX
        &&& self.binary_info.0 <= 64 && self.binary_info.1 <= 64
    }

    /// The bytes of block `b`.
    pub closed spec fn block(&self, b: int) -> Seq<u8> {
        byte_blocks(self.blocks)[self.block_keys@[b]]
    }

    pub closed spec fn spec_num_hashes(&self) -> nat {
        self.hash_functions.len() as nat
    }

    pub closed spec fn spec_num_blocks(&self) -> nat {
        self.num_blocks as nat
    }

    /// The block of `key`.
    pub closed spec fn block_of(&self, key: u64) -> int {
        self.hash_functions[0].spec_apply(key, self.binary_info.0) as int % self.num_blocks as int
    }

    /// Bit `i` of `key` within its block.
    pub closed spec fn bit_of_key(&self, key: u64, i: int) -> int {
        self.hash_functions[i].spec_apply(key, self.binary_info.1) as int % (8 * self.block_size) as int
    }

    /// `key` reads as present: all of its bits are set in its block.
    pub closed spec fn contains(&self, key: u64) -> bool {
        forall|i: int|
            0 <= i < self.hash_functions.len() ==> bits_of(self.block(self.block_of(key)))[#[trigger] self.bit_of_key(key, i)]
    }

    /// An empty filter of `num_blocks` blocks of `block_size` bytes with
    /// `num_hashes` hash functions, the first of which also picks the block.
    pub fn with_blocks(num_blocks: u64, block_size: usize, num_hashes: usize) -> (r: BlockedBloomFilter)
        requires
            1 <= num_blocks <= u32::MAX,
            1 <= block_size <= 0x1000_0000,
            1 <= num_hashes <= u32::MAX,
        ensures
            r.wf(),
            r.spec_num_hashes() == num_hashes,
            forall|b: int| 0 <= b < num_blocks ==> #[trigger] r.block(b) == Seq::new(block_size as nat, |i: int| 0u8),
    {
        let (blocks, block_keys) = BlockedBloomFilter::generate_blocks(num_blocks, block_size);
        let hash_functions = generate_hash_functions(num_hashes);
        let binary_info = (index_bits(num_blocks), index_bits((block_size * 8) as u64));
        BlockedBloomFilter { blocks, block_keys, block_size, num_blocks, hash_functions, binary_info }
    }

    fn generate_blocks(num_blocks: u64, block_size: usize) -> (r: (Slab<Vec<u8>>, Vec<usize>))
        requires
            num_blocks <= u32::MAX,
        ensures
            r.1.len() == num_blocks,
            keys_ok(r.1@, byte_blocks(r.0)),
            forall|b: int| 0 <= b < num_blocks ==> #[trigger] byte_blocks(r.0)[r.1@[b]] == Seq::new(block_size as nat, |i: int| 0u8),
    {
        let mut slab = new_block_slab();
        let mut keys: Vec<usize> = Vec::new();
        let mut i: u64 = 0;
        while i < num_blocks
            invariant
                i <= num_blocks,
                keys.len() == i,
                keys_ok(keys@, byte_blocks(slab)),
                forall|b: int| 0 <= b < i ==> #[trigger] byte_blocks(slab)[keys@[b]] == Seq::new(block_size as nat, |i: int| 0u8),
            decreases num_blocks - i,
        {
            let block = vec![0u8; block_size];
            assert(block@ =~= Seq::new(block_size as nat, |i: int| 0u8));
            let ghost before = byte_blocks(slab);
            let key = insert_block(&mut slab, block);
            keys.push(key);
            proof {
                assert forall|b: int| 0 <= b < keys.len() implies byte_blocks(slab).dom().contains(#[trigger] keys@[b]) by {
                    if b < i {
                        assert(before.dom().contains(keys@[b]));
                    }
                }
                assert forall|a: int, b: int| 0 <= a < b < keys.len() implies keys@[a] != keys@[b] by {
                    if b == i {
                        assert(before.dom().contains(keys@[a]));
                    }
                }
                assert forall|b: int| 0 <= b < i + 1 implies #[trigger] byte_blocks(slab)[keys@[b]] == Seq::new(block_size as nat, |i: int| 0u8) by {
                    if b < i {
                        assert(before.dom().contains(keys@[b]));
                        assert(keys@[b] != key);
                    }
                }
            }
            i = i + 1;
        }
        (slab, keys)
    }

    /// The block of `element`.
    fn get_block_id(&self, element: u64) -> (r: usize)
        requires
            self.wf(),
        ensures
            r == self.block_of(element),
            r < self.num_blocks,
    {
        ((self.hash_functions[0].apply(element, self.binary_info.0) as u64) % self.num_blocks) as usize
    }

    /// Bit `i` of `element` within its block.
    fn bit_index(&self, element: u64, i: usize) -> (r: u64)
        requires
            self.wf(),
            i < self.hash_functions.len(),
        ensures
            r == self.bit_of_key(element, i as int),
            r < 8 * self.block_size,
    {
        (self.hash_functions[i].apply(element, self.binary_info.1) as u64) % (8 * self.block_size as u64)
    }

    /// Sets all bits of `element` in its block.
    #[verifier::spinoff_prover]
    #[verifier::rlimit(50)]
    pub fn insert(&mut self, element: u64)
        requires
            old(self).wf(),
        ensures
            final(self).wf(),
            final(self).spec_num_hashes() == old(self).spec_num_hashes(),
            final(self).contains(element),
            forall|y: u64| old(self).contains(y) ==> #[trigger] final(self).contains(y),
            final(self).spec_num_blocks() == old(self).spec_num_blocks(),
            forall|c: int|
                0 <= c < old(self).spec_num_blocks() && c != old(self).block_of(element) ==> #[trigger] final(self).block(c)
                    == old(self).block(c),
            forall|j: int|
                0 <= j < bits_of(old(self).block(old(self).block_of(element))).len() && bits_of(
                    old(self).block(old(self).block_of(element)),
                )[j] ==> #[trigger] bits_of(final(self).block(old(self).block_of(element)))[j],
    {
        let b = self.get_block_id(element);
        let key = self.block_keys[b];
        let stored = block_at(&self.blocks, key);
        assert(stored@ == self.block(b as int));
        assert(self.block(b as int).len() == self.block_size);
        let mut bits = BitVector::from_bytes(copy_bytes(stored));
        let ghost old_bits = bits@;
        let k = self.hash_functions.len();
        let mut i: usize = 0;
        while i < k
            invariant
                self.wf(),
                *self == *old(self),
                k == self.hash_functions.len(),
                b == self.block_of(element),
                b < self.num_blocks,
                i <= k,
                bits.wf(),
                bits@.len() == 8 * self.block_size,
                old_bits == bits_of(self.block(b as int)),
                forall|t: int| 0 <= t < i ==> bits@[#[trigger] self.bit_of_key(element, t)],
                forall|j: int| 0 <= j < bits@.len() && old_bits[j] ==> #[trigger] bits@[j],
            decreases k - i,
        {
            let p = self.bit_index(element, i);
            bits.insert(p);
            i = i + 1;
        }
        let ghost set_bits = bits@;
        let bytes = bits.into_bytes();
        let ghost before = *self;
        set_block(&mut self.blocks, key, bytes);
        proof {
            assert forall|c: int| 0 <= c < self.num_blocks implies #[trigger] self.block(c) == if c == b {
                bytes@
            } else {
                before.block(c)
            } by {
                if c != b {
                    assert(self.block_keys@[c] != key);
                }
            }
            assert forall|c: int| 0 <= c < self.num_blocks implies (#[trigger] self.block(c)).len() == self.block_size by {
                if c == b {
                    assert(8 * bytes@.len() == 8 * self.block_size);
                }
            }
            assert(self.block(b as int) == bytes@);
            assert forall|j: int|
                0 <= j < bits_of(old(self).block(b as int)).len() && bits_of(old(self).block(b as int))[j] implies #[trigger] bits_of(
                self.block(b as int),
            )[j] by {
                assert(old_bits[j]);
                assert(set_bits[j]);
            }
            assert forall|t: int| 0 <= t < self.hash_functions.len() implies bits_of(self.block(self.block_of(element)))[#[trigger] self.bit_of_key(element, t)] by {
                assert(set_bits[old(self).bit_of_key(element, t)]);
            }
            assert forall|y: u64| old(self).contains(y) implies #[trigger] self.contains(y) by {
                let c = self.block_of(y);
                assert(0 <= c < self.num_blocks);
                if c == b {
                    assert forall|t: int| 0 <= t < self.hash_functions.len() implies bits_of(self.block(c))[#[trigger] self.bit_of_key(y, t)] by {
                        assert(bits_of(old(self).block(old(self).block_of(y)))[old(self).bit_of_key(y, t)]);
                        assert(old_bits[self.bit_of_key(y, t)]);
                    }
                } else {
                    assert forall|t: int| 0 <= t < self.hash_functions.len() implies bits_of(self.block(c))[#[trigger] self.bit_of_key(y, t)] by {
                        assert(bits_of(old(self).block(old(self).block_of(y)))[old(self).bit_of_key(y, t)]);
                    }
                }
            }
        }
    }

    /// Whether all bits of `element` are set in its block.
    pub fn member(&self, element: u64) -> (r: bool)
        requires
            self.wf(),
        ensures
            r == self.contains(element),
    {
        let b = self.get_block_id(element);
        let key = self.block_keys[b];
        let stored = block_at(&self.blocks, key);
        let k = self.hash_functions.len();
        let mut i: usize = 0;
        while i < k
            invariant
                self.wf(),
                k == self.hash_functions.len(),
                b == self.block_of(element),
                b < self.num_blocks,
                stored@ == self.block(b as int),
                i <= k,
                forall|t: int| 0 <= t < i ==> bits_of(self.block(b as int))[#[trigger] self.bit_of_key(element, t)],
            decreases k - i,
        {
            let p = self.bit_index(element, i);
            let byte = stored[(p / 8) as usize];
            let r = (p % 8) as u8;
            proof {
                assert((p / 8) * 8 + p % 8 == p);
            }
            if (byte >> r) & 1u8 != 1u8 {
                assert(!bits_of(self.block(b as int))[p as int]);
                return false;
            }
            i = i + 1;
        }
        true
    }
}

/// Bit `c` of register `r`.
pub open spec fn reg_bit(r: u64, c: int) -> bool {
    (r >> (c as u64)) & 1u64 == 1u64
}

proof fn lemma_register_bits(m: u64, r: u64, a: u64, c: u64)
    requires
        a < 64,
        c < 64,
    ensures
        reg_bit(m | (1u64 << a), c as int) <==> (c == a || reg_bit(m, c as int)),
        reg_bit(r | m, c as int) <==> (reg_bit(r, c as int) || reg_bit(m, c as int)),
{
    assert(((m | (1u64 << a)) >> c) & 1u64 == 1u64 <==> (c == a || (m >> c) & 1u64 == 1u64)) by (bit_vector)
        requires
            a < 64,
            c < 64,
    ;
    assert(((r | m) >> c) & 1u64 == 1u64 <==> ((r >> c) & 1u64 == 1u64 || (m >> c) & 1u64 == 1u64)) by (bit_vector);
}

/// A register-aligned Bloom filter: `num_blocks` registers of `block_size`
/// bits. The first hash function picks the register, the others set one bit
/// each, all at once through a mask.
pub struct RegisterAlignedBloomFilter {
    pub(crate) blocks: Slab<u64>,
    pub(crate) block_keys: Vec<usize>,
    pub(crate) block_size: usize,
    pub(crate) num_blocks: u64,
    pub(crate) num_hashes: usize,
    pub(crate) hash_functions: Vec<HashFunction>,
    pub(crate) binary_info: (u32, u32),
}

impl RegisterAlignedBloomFilter {
    pub closed spec fn wf(&self) -> bool {
        &&& 1 <= self.num_blocks <= u32::MAX
        &&& self.block_keys.len() == self.num_blocks
        &&& keys_ok(self.block_keys@, registers(self.blocks))
        &&& 1 <= self.block_size <= 64
        &&& 1 <= self.num_hashes <= u32::MAX
        &&& self.hash_functions.len() == self.num_hashes
        &&& self.binary_info.0 <= 64 && self.binary_info.1 <= 64
    }

    /// Register `b`.
    pub closed spec fn register(&self, b: int) -> u64 {
        registers(self.blocks)[self.block_keys@[b]]
    }

    pub closed spec fn spec_num_hashes(&self) -> nat {
        self.num_hashes as nat
    }

    pub closed spec fn spec_num_blocks(&self) -> nat {
        self.num_blocks as nat
    }

    /// The register of `key`.
    pub closed spec fn block_of(&self, key: u64) -> int {
        self.hash_functions[0].spec_apply(key, self.binary_info.0) as int % self.num_blocks as int
    }

    /// Bit `i` of `key` within its register.
    pub closed spec fn bit_of_key(&self, key: u64, i: int) -> int {
        self.hash_functions[i].spec_apply(key, self.binary_info.1) as int % self.block_size as int
    }

    /// `key` reads as present: its bits (from the second hash function on)
    /// are set in its register.
    pub closed spec fn contains(&self, key: u64) -> bool {
        forall|i: int|
            1 <= i < self.num_hashes ==> reg_bit(self.register(self.block_of(key)), #[trigger] self.bit_of_key(key, i))
    }

    /// An empty filter of `num_blocks` registers of `block_size` bits with
    /// `num_hashes` hash functions.
    pub fn with_blocks(num_blocks: u64, block_size: usize, num_hashes: usize) -> (r: RegisterAlignedBloomFilter)
        requires
            1 <= num_blocks <= u32::MAX,
            1 <= block_size <= 64,
            1 <= num_hashes <= u32::MAX,
        ensures
            r.wf(),
            r.spec_num_hashes() == num_hashes,
            forall|b: int| 0 <= b < num_blocks ==> #[trigger] r.register(b) == 0,
    {
        let (blocks, block_keys) = RegisterAlignedBloomFilter::generate_blocks(num_blocks);
        let hash_functions = generate_hash_functions(num_hashes);
        let binary_info = (index_bits(num_blocks), index_bits(block_size as u64));
        RegisterAlignedBloomFilter { blocks, block_keys, block_size, num_blocks, num_hashes, hash_functions, binary_info }
    }

    fn generate_blocks(num_blocks: u64) -> (r: (Slab<u64>, Vec<usize>))
        requires
            num_blocks <= u32::MAX,
        ensures
            r.1.len() == num_blocks,
            keys_ok(r.1@, registers(r.0)),
            forall|b: int| 0 <= b < num_blocks ==> #[trigger] registers(r.0)[r.1@[b]] == 0,
    {
        let mut slab = new_register_slab();
        let mut keys: Vec<usize> = Vec::new();
        let mut i: u64 = 0;
        while i < num_blocks
            invariant
                i <= num_blocks,
                keys.len() == i,
                keys_ok(keys@, registers(slab)),
                forall|b: int| 0 <= b < i ==> #[trigger] registers(slab)[keys@[b]] == 0,
            decreases num_blocks - i,
        {
            let ghost before = registers(slab);
            let key = insert_register(&mut slab, 0);
            keys.push(key);
            proof {
                assert forall|b: int| 0 <= b < keys.len() implies registers(slab).dom().contains(#[trigger] keys@[b]) by {
                    if b < i {
                        assert(before.dom().contains(keys@[b]));
                    }
                }
                assert forall|a: int, b: int| 0 <= a < b < keys.len() implies keys@[a] != keys@[b] by {
                    if b == i {
                        assert(before.dom().contains(keys@[a]));
                    }
                }
                assert forall|b: int| 0 <= b < i + 1 implies #[trigger] registers(slab)[keys@[b]] == 0 by {
                    if b < i {
                        assert(before.dom().contains(keys@[b]));
                        assert(keys@[b] != key);
                    }
                }
            }
            i = i + 1;
        }
        (slab, keys)
    }

    /// The register of `element`.
    fn get_block_id(&self, element: u64) -> (r: usize)
        requires
            self.wf(),
        ensures
            r == self.block_of(element),
            r < self.num_blocks,
    {
        ((self.hash_functions[0].apply(element, self.binary_info.0) as u64) % self.num_blocks) as usize
    }

    /// The bits of `element`, as a mask.
    fn mask(&self, element: u64) -> (r: u64)
        requires
            self.wf(),
        ensures
            forall|c: int| 0 <= c < 64 ==> reg_bit(r, c) == exists|i: int| 1 <= i < self.num_hashes && #[trigger] self.bit_of_key(element, i) == c,
    {
        let mut mask: u64 = 0;
        let mut i: usize = 1;
        proof {
            assert forall|c: u64| c < 64 implies !reg_bit(0u64, c as int) by {
                assert((0u64 >> c) & 1u64 == 0u64) by (bit_vector);
            }
        }
        while i < self.num_hashes
            invariant
                self.wf(),
                1 <= i <= self.num_hashes,
                forall|c: int| 0 <= c < 64 ==> reg_bit(mask, c) == exists|t: int| 1 <= t < i && #[trigger] self.bit_of_key(element, t) == c,
            decreases self.num_hashes - i,
        {
            let index = (self.hash_functions[i].apply(element, self.binary_info.1) as u64) % (self.block_size as u64);
            let ghost prev = mask;
            mask = mask | (1u64 << index);
            proof {
                assert forall|c: int| 0 <= c < 64 implies reg_bit(mask, c) == exists|t: int| 1 <= t < i + 1 && #[trigger] self.bit_of_key(element, t) == c by {
                    lemma_register_bits(prev, 0, index, c as u64);
                    if c == index {
                        assert(self.bit_of_key(element, i as int) == c);
                    }
                    if exists|t: int| 1 <= t < i + 1 && #[trigger] self.bit_of_key(element, t) == c {
                        let t = choose|t: int| 1 <= t < i + 1 && #[trigger] self.bit_of_key(element, t) == c;
                        if t < i {
                            assert(reg_bit(prev, c));
                        }
                    }
                }
            }
            i = i + 1;
        }
        mask
    }

    /// Sets the bits of `element` in its register.
    #[verifier::spinoff_prover]
    #[verifier::rlimit(50)]
    pub fn insert(&mut self, element: u64)
        requires
            old(self).wf(),
        ensures
            final(self).wf(),
            final(self).spec_num_hashes() == old(self).spec_num_hashes(),
            final(self).contains(element),
            forall|y: u64| old(self).contains(y) ==> #[trigger] final(self).contains(y),
            final(self).spec_num_blocks() == old(self).spec_num_blocks(),
            forall|c: int|
                0 <= c < old(self).spec_num_blocks() && c != old(self).block_of(element)
                    ==> #[trigger] final(self).register(c) == old(self).register(c),
            forall|c: int|
                0 <= c < 64 && reg_bit(old(self).register(old(self).block_of(element)), c) ==> #[trigger] reg_bit(
                    final(self).register(old(self).block_of(element)),
                    c,
                ),
    {
        let b = self.get_block_id(element);
        let key = self.block_keys[b];
        let mask = self.mask(element);
        let reg = register_at(&self.blocks, key);
        let ghost before = *self;
        set_register(&mut self.blocks, key, reg | mask);
        proof {
            assert forall|c: int| 0 <= c < self.num_blocks implies #[trigger] self.register(c) == if c == b {
                reg | mask
            } else {
                before.register(c)
            } by {
                if c != b {
                    assert(self.block_keys@[c] != key);
                }
            }
            assert forall|c: int| 0 <= c < 64 && reg_bit(old(self).register(b as int), c) implies #[trigger] reg_bit(
                self.register(b as int),
                c,
            ) by {
                lemma_register_bits(mask, reg, 0, c as u64);
            }
            assert forall|t: int| 1 <= t < self.num_hashes implies reg_bit(self.register(self.block_of(element)), #[trigger] self.bit_of_key(element, t)) by {
                let c = self.bit_of_key(element, t);
                assert(0 <= c < 64);
                assert(old(self).bit_of_key(element, t) == c);
                assert(exists|i: int| 1 <= i < old(self).num_hashes && #[trigger] old(self).bit_of_key(element, i) == c);
                lemma_register_bits(mask, reg, 0, c as u64);
                assert(reg_bit(mask, c));
            }
            assert forall|y: u64| old(self).contains(y) implies #[trigger] self.contains(y) by {
                let c = self.block_of(y);
                assert forall|t: int| 1 <= t < self.num_hashes implies reg_bit(self.register(c), #[trigger] self.bit_of_key(y, t)) by {
                    assert(reg_bit(old(self).register(old(self).block_of(y)), old(self).bit_of_key(y, t)));
                    if c == b {
                        lemma_register_bits(mask, reg, 0, self.bit_of_key(y, t) as u64);
                    }
                }
            }
        }
    }

    /// Whether the bits of `element` are set in its register.
    pub fn member(&self, element: u64) -> (r: bool)
        requires
            self.wf(),
        ensures
            r == self.contains(element),
    {
        let b = self.get_block_id(element);
        let key = self.block_keys[b];
        let reg = register_at(&self.blocks, key);
        let mut i: usize = 1;
        while i < self.num_hashes
            invariant
                self.wf(),
                b == self.block_of(element),
                reg == self.register(b as int),
                1 <= i <= self.num_hashes,
                forall|t: int| 1 <= t < i ==> reg_bit(reg, #[trigger] self.bit_of_key(element, t)),
            decreases self.num_hashes - i,
        {
            let index = (self.hash_functions[i].apply(element, self.binary_info.1) as u64) % (self.block_size as u64);
            if (reg >> index) & 1u64 != 1u64 {
                assert(!reg_bit(reg, self.bit_of_key(element, i as int)));
                return false;
            }
            i = i + 1;
        }
        true
    }
}

/// A copy of a byte block.
fn copy_bytes(v: &Vec<u8>) -> (r: Vec<u8>)
    ensures
        r@ == v@,
{
    let mut r: Vec<u8> = Vec::new();
    let mut i: usize = 0;
    while i < v.len()
        invariant
            i <= v.len(),
            r@ == v@.subrange(0, i as int),
        decreases v.len() - i,
    {
        r.push(v[i]);
        i = i + 1;
        assert(r@ =~= v@.subrange(0, i as int));
    }
    assert(r@ =~= v@);
    r
}

} // verus!
