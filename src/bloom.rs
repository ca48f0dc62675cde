//! Bloom-family filters: the plain bit filter and the counting filter, over
//! one hashing scheme that supports both reduction strategies.
use crate::bitvector::BitVector;
use crate::hashing::{generate_hash_functions, index_bits, HashFunction};
use crate::tabulation::{tabulated, TabulationHashing};
use vstd::prelude::*;

verus! {

/// How a raw hash is reduced to the `k` positions of a key in `[0, m)`.
#[derive(Clone, Copy, Debug, PartialEq, Eq)]
pub enum Reduction {
    /// One hash function per position, each reduced modulo `m`.
    Modulo,
    /// One hash, split into 16-bit halves `h1`, `h2`; position `i` is
    /// `(h1 * i + h2) mod m`.
    DoubleHash,
    /// One tabulation hash per position, reduced modulo `m`.
    Tabulation,
}

/// The `k` positions of every key in an array of `m` cells.
pub struct HashScheme {
    pub(crate) hash_functions: Vec<HashFunction>,
    pub(crate) tables: Vec<TabulationHashing>,
    pub(crate) num_hashes: usize,
    pub(crate) reduction: Reduction,
    pub(crate) size: u64,
    pub(crate) l: u32,
}

impl HashScheme {
    pub closed spec fn wf(&self) -> bool {
        &&& 1 <= self.size <= u32::MAX
        &&& self.num_hashes <= u32::MAX
        &&& self.l <= 64
        &&& match self.reduction {
            Reduction::Modulo => self.hash_functions.len() == self.num_hashes,
            Reduction::DoubleHash => self.hash_functions.len() == 1,
            Reduction::Tabulation => {
                &&& self.tables.len() == self.num_hashes
                &&& forall|i: int| 0 <= i < self.tables.len() ==> (#[trigger] self.tables@[i]).wf()
            },
        }
    }

    pub closed spec fn spec_size(&self) -> nat {
        self.size as nat
    }

    pub closed spec fn spec_num_hashes(&self) -> nat {
        self.num_hashes as nat
    }

    pub closed spec fn spec_hash_functions(&self) -> Seq<HashFunction> {
        self.hash_functions@
    }

    pub closed spec fn spec_reduction(&self) -> Reduction {
        self.reduction
    }

    /// Position `i` of `key`.
    pub closed spec fn position(&self, key: u64, i: int) -> int {
        match self.reduction {
            Reduction::Modulo => (self.hash_functions[i].spec_apply(key, self.l) as int) % (
            self.size as int),
            Reduction::DoubleHash => {
                let h = self.hash_functions[0].spec_apply(key, self.l) % (self.size as u32);
                let h1 = (h >> 16u32) & 0xFFFFu32;
                let h2 = h & 0xFFFFu32;
                (h1 as int * i + h2 as int) % (self.size as int)
            },
            Reduction::Tabulation => (tabulated(self.tables@[i].tables(), key, 16) as int) % (self.size as int),
        }
    }

    /// Keys that the filter accepts: with modulo reduction, keys below `m`.
    pub open spec fn in_domain(&self, key: u64) -> bool {
        self.spec_reduction() == Reduction::Modulo ==> key < self.spec_size()
    }

    /// `j` is one of the positions of `key`.
    pub open spec fn hits(&self, key: u64, j: int) -> bool {
        exists|i: int| 0 <= i < self.spec_num_hashes() && #[trigger] self.position(key, i) == j
    }

    /// How many of the first `n` positions of `key` equal `j`.
    pub open spec fn hit_count(&self, key: u64, j: int, n: int) -> nat
        decreases n,
    {
        if n <= 0 {
            0
        } else {
            self.hit_count(key, j, n - 1) + if self.position(key, n - 1) == j {
                1nat
            } else {
                0nat
            }
        }
    }

    pub(crate) proof fn lemma_hit_count_positive(&self, key: u64, i: int, n: int)
        requires
            0 <= i < n,
        ensures
            self.hit_count(key, self.position(key, i), n) >= 1,
        decreases n,
    {
        if i < n - 1 {
            self.lemma_hit_count_positive(key, i, n - 1);
        }
    }

    pub(crate) proof fn lemma_position_bound(&self, key: u64, i: int)
        requires
            self.wf(),
            0 <= i < self.spec_num_hashes(),
        ensures
            0 <= self.position(key, i) < self.spec_size(),
    {
    }

    /// A scheme over `size` cells with `num_hashes` positions per key and
    /// the given coefficients.
    pub fn from_hash_functions(
        size: u64,
        num_hashes: usize,
        reduction: Reduction,
        hash_functions: Vec<HashFunction>,
    ) -> (r: HashScheme)
        requires
            1 <= size <= u32::MAX,
            num_hashes <= u32::MAX,
            reduction != Reduction::Tabulation,
            reduction == Reduction::Modulo ==> hash_functions.len() == num_hashes,
            reduction == Reduction::DoubleHash ==> hash_functions.len() == 1,
        ensures
            r.wf(),
            r.spec_size() == size,
            r.spec_num_hashes() == num_hashes,
            r.spec_reduction() == reduction,
            r.spec_hash_functions() == hash_functions@,
    {
        let l = index_bits(size);
        HashScheme { hash_functions, tables: Vec::new(), num_hashes, reduction, size, l }
    }

    /// A tabulation scheme over `size` cells, one position per table set.
    pub fn from_tables(size: u64, tables: Vec<TabulationHashing>) -> (r: HashScheme)
        requires
            1 <= size <= u32::MAX,
            tables.len() <= u32::MAX,
            forall|i: int| 0 <= i < tables.len() ==> (#[trigger] tables@[i]).wf(),
        ensures
            r.wf(),
            r.spec_size() == size,
            r.spec_num_hashes() == tables.len(),
            r.spec_reduction() == Reduction::Tabulation,
    {
        let l = index_bits(size);
        let num_hashes = tables.len();
        HashScheme { hash_functions: Vec::new(), tables, num_hashes, reduction: Reduction::Tabulation, size, l }
    }

    /// A scheme with freshly drawn coefficients.
    pub fn random(size: u64, num_hashes: usize, reduction: Reduction) -> (r: HashScheme)
        requires
            1 <= size <= u32::MAX,
            num_hashes <= u32::MAX,
        ensures
            r.wf(),
            r.spec_size() == size,
            r.spec_num_hashes() == num_hashes,
            r.spec_reduction() == reduction,
    {
        match reduction {
            Reduction::Modulo => HashScheme::from_hash_functions(size, num_hashes, reduction, generate_hash_functions(num_hashes)),
            Reduction::DoubleHash => HashScheme::from_hash_functions(size, num_hashes, reduction, generate_hash_functions(1)),
            Reduction::Tabulation => {
                let mut tables: Vec<TabulationHashing> = Vec::new();
                let mut i: usize = 0;
                while i < num_hashes
                    invariant
                        i <= num_hashes,
                        tables.len() == i,
                        forall|t: int| 0 <= t < i ==> (#[trigger] tables@[t]).wf(),
                    decreases num_hashes - i,
                {
                    tables.push(TabulationHashing::new());
                    i = i + 1;
                }
                HashScheme::from_tables(size, tables)
            },
        }
    }

    /// Position `i` of `key`.
    pub fn position_of(&self, key: u64, i: usize) -> (r: u64)
        requires
            self.wf(),
            i < self.spec_num_hashes(),
        ensures
            r == self.position(key, i as int),
            r < self.spec_size(),
    {
        match self.reduction {
            Reduction::Modulo => {
                let h = self.hash_functions[i].apply(key, self.l);
                (h as u64) % self.size
            },
            Reduction::DoubleHash => {
                let h = self.hash_functions[0].apply(key, self.l) % (self.size as u32);
                let h1 = (h >> 16u32) & 0xFFFFu32;
                let h2 = h & 0xFFFFu32;
                assert(h1 <= 0xFFFFu32) by (bit_vector)
                    requires
                        h1 == (h >> 16u32) & 0xFFFFu32,
                ;
                assert(h2 <= 0xFFFFu32) by (bit_vector)
                    requires
                        h2 == h & 0xFFFFu32,
                ;
                assert((h1 as u64) * (i as u64) <= 0xFFFFu64 * 0xFFFF_FFFFu64) by (nonlinear_arith)
                    requires
                        h1 <= 0xFFFFu32,
                        i <= 0xFFFF_FFFFu64,
                ;
                ((h1 as u64) * (i as u64) + (h2 as u64)) % self.size
            },
            Reduction::Tabulation => self.tables[i].tabulation_hashing(key) % self.size,
        }
    }

    /// Whether the filter accepts `key` (see `in_domain`).
    pub fn accepts(&self, key: u64) -> (r: bool)
        ensures
            r == self.in_domain(key),
    {
        match self.reduction {
            Reduction::Modulo => key < self.size,
            _ => true,
        }
    }

    pub fn size(&self) -> (r: u64)
        ensures
            r == self.spec_size(),
    {
        self.size
    }

    pub fn num_hashes(&self) -> (r: usize)
        ensures
            r == self.spec_num_hashes(),
    {
        self.num_hashes
    }
}

/// A Bloom filter: `k` positions per key in an array of `m` bits.
pub struct BloomFilter {
    pub(crate) bit_array: BitVector,
    pub(crate) scheme: HashScheme,
}

impl BloomFilter {
    pub closed spec fn wf(&self) -> bool {
        &&& self.scheme.wf()
        &&& self.bit_array.wf()
        &&& self.bit_array@.len() == self.scheme.spec_size()
    }

    pub closed spec fn bits(&self) -> Seq<bool> {
        self.bit_array@
    }

    pub closed spec fn spec_scheme(&self) -> HashScheme {
        self.scheme
    }

    /// `key` reads as present: it is accepted and all of its positions are set.
    pub open spec fn contains(&self, key: u64) -> bool {
        &&& self.spec_scheme().in_domain(key)
        &&& forall|i: int|
            0 <= i < self.spec_scheme().spec_num_hashes() ==> self.bits()[#[trigger] self.spec_scheme().position(
                key,
                i,
            )]
    }

    /// An empty filter over the given scheme.
    pub fn from_scheme(scheme: HashScheme) -> (r: BloomFilter)
        requires
            scheme.wf(),
        ensures
            r.wf(),
            r.spec_scheme() == scheme,
            r.bits() == Seq::new(scheme.spec_size(), |i: int| false),
    {
        let bit_array = BitVector::new(scheme.size());
        BloomFilter { bit_array, scheme }
    }

    /// An empty filter of `size` bits and `num_hashes` positions per key,
    /// with freshly drawn hash functions.
    pub fn with_size(size: u64, num_hashes: usize, reduction: Reduction) -> (r: BloomFilter)
        requires
            1 <= size <= u32::MAX,
            num_hashes <= u32::MAX,
        ensures
            r.wf(),
            r.spec_scheme().spec_size() == size,
            r.spec_scheme().spec_num_hashes() == num_hashes,
            r.spec_scheme().spec_reduction() == reduction,
            r.bits() == Seq::new(size as nat, |i: int| false),
    {
        BloomFilter::from_scheme(HashScheme::random(size, num_hashes, reduction))
    }

    /// Sets every position of `key`; a key outside the domain is ignored.
    pub fn insert(&mut self, key: u64)
        requires
            old(self).wf(),
        ensures
            final(self).wf(),
            final(self).spec_scheme() == old(self).spec_scheme(),
            old(self).spec_scheme().in_domain(key) ==> forall|j: int|
                0 <= j < old(self).bits().len() ==> #[trigger] final(self).bits()[j] == (old(
                    self,
                ).bits()[j] || old(self).spec_scheme().hits(key, j)),
            !old(self).spec_scheme().in_domain(key) ==> final(self).bits() == old(self).bits(),
            old(self).spec_scheme().in_domain(key) ==> final(self).contains(key),
            forall|y: u64| old(self).contains(y) ==> #[trigger] final(self).contains(y),
    {
        if !self.scheme.accepts(key) {
            return;
        }
        let k = self.scheme.num_hashes();
        let mut i: usize = 0;
        while i < k
            invariant
                self.wf(),
                self.scheme == old(self).scheme,
                k == self.scheme.spec_num_hashes(),
                i <= k,
                self.bit_array@.len() == old(self).bit_array@.len(),
                forall|j: int|
                    0 <= j < self.bit_array@.len() ==> #[trigger] self.bit_array@[j] == (old(
                        self,
                    ).bit_array@[j] || exists|t: int|
                        0 <= t < i && #[trigger] self.scheme.position(key, t) == j),
            decreases k - i,
        {
            let p = self.scheme.position_of(key, i);
            self.bit_array.insert(p);
            proof {
                assert forall|j: int| 0 <= j < self.bit_array@.len() implies #[trigger] self.bit_array@[j]
                    == (old(self).bit_array@[j] || exists|t: int|
                    0 <= t < i + 1 && #[trigger] self.scheme.position(key, t) == j) by {
                    if j == p as int {
                        assert(self.scheme.position(key, i as int) == j);
                    }
                }
            }
            i = i + 1;
        }
        proof {
            assert forall|j: int| 0 <= j < self.bit_array@.len() implies #[trigger] self.bit_array@[j]
                == (old(self).bit_array@[j] || self.scheme.hits(key, j)) by {
                if self.scheme.hits(key, j) {
                    let t = choose|t: int|
                        0 <= t < self.scheme.num_hashes && #[trigger] self.scheme.position(key, t) == j;
                    assert(0 <= t < i && self.scheme.position(key, t) == j);
                }
            }
            assert forall|t: int| 0 <= t < self.scheme.spec_num_hashes() implies self.bit_array@[
                #[trigger] self.scheme.position(key, t)] by {
                self.scheme.lemma_position_bound(key, t);
            }
            assert forall|y: u64| old(self).contains(y) implies #[trigger] self.contains(y) by {
                assert forall|t: int| 0 <= t < self.scheme.spec_num_hashes() implies self.bit_array@[
                    #[trigger] self.scheme.position(y, t)] by {
                    self.scheme.lemma_position_bound(y, t);
                    assert(old(self).bit_array@[self.scheme.position(y, t)]);
                }
            }
        }
    }

    /// Whether every position of `key` is set (false outside the domain).
    pub fn member(&self, key: u64) -> (r: bool)
        requires
            self.wf(),
        ensures
            r == self.contains(key),
    {
        if !self.scheme.accepts(key) {
            return false;
        }
        let k = self.scheme.num_hashes();
        let mut i: usize = 0;
        while i < k
            invariant
                self.wf(),
                k == self.scheme.spec_num_hashes(),
                i <= k,
                self.scheme.in_domain(key),
                forall|t: int| 0 <= t < i ==> self.bit_array@[#[trigger] self.scheme.position(key, t)],
            decreases k - i,
        {
            let p = self.scheme.position_of(key, i);
            if !self.bit_array.member(p) {
                return false;
            }
            i = i + 1;
        }
        true
    }

    pub fn scheme(&self) -> (r: &HashScheme)
        ensures
            *r == self.spec_scheme(),
    {
        &self.scheme
    }
}

/// A Bloom filter of 8-bit counters, which supports deletion. Counters
/// saturate at 255 and stop at 0.
pub struct CountingBloomFilter {
    pub(crate) count_array: Vec<u8>,
    pub(crate) scheme: HashScheme,
}

impl CountingBloomFilter {
    pub closed spec fn wf(&self) -> bool {
        &&& self.scheme.wf()
        &&& self.count_array.len() == self.scheme.spec_size()
    }

    pub closed spec fn counts(&self) -> Seq<u8> {
        self.count_array@
    }

    pub closed spec fn spec_scheme(&self) -> HashScheme {
        self.scheme
    }

    /// `key` reads as present: all of its counters are non-zero.
    pub open spec fn contains(&self, key: u64) -> bool {
        forall|i: int|
            0 <= i < self.spec_scheme().spec_num_hashes() ==> self.counts()[#[trigger] self.spec_scheme().position(
                key,
                i,
            )] > 0
    }

    /// An empty filter over the given scheme.
    pub fn from_scheme(scheme: HashScheme) -> (r: CountingBloomFilter)
        requires
            scheme.wf(),
        ensures
            r.wf(),
            r.spec_scheme() == scheme,
            r.counts() == Seq::new(scheme.spec_size(), |i: int| 0u8),
    {
        let count_array = vec![0u8; scheme.size() as usize];
        let r = CountingBloomFilter { count_array, scheme };
        assert(r.counts() =~= Seq::new(r.scheme.spec_size(), |i: int| 0u8));
        r
    }

    /// An empty filter of `size` counters and `num_hashes` positions per key,
    /// with freshly drawn hash functions.
    pub fn with_size(size: u64, num_hashes: usize, reduction: Reduction) -> (r: CountingBloomFilter)
        requires
            1 <= size <= u32::MAX,
            num_hashes <= u32::MAX,
        ensures
            r.wf(),
            r.spec_scheme().spec_size() == size,
            r.spec_scheme().spec_num_hashes() == num_hashes,
            r.spec_scheme().spec_reduction() == reduction,
            r.counts() == Seq::new(size as nat, |i: int| 0u8),
    {
        CountingBloomFilter::from_scheme(HashScheme::random(size, num_hashes, reduction))
    }

    /// Adds one to each counter of `key` (once per position that names it),
    /// saturating at 255; a key outside the domain is ignored.
    pub fn insert(&mut self, key: u64)
        requires
            old(self).wf(),
        ensures
            final(self).wf(),
            final(self).spec_scheme() == old(self).spec_scheme(),
            final(self).counts().len() == old(self).counts().len(),
            old(self).spec_scheme().in_domain(key) ==> forall|j: int|
                0 <= j < old(self).counts().len() ==> #[trigger] final(self).counts()[j] == vstd::math::min(
                    old(self).counts()[j] + old(self).spec_scheme().hit_count(
                        key,
                        j,
                        old(self).spec_scheme().spec_num_hashes() as int,
                    ),
                    255,
                ),
            !old(self).spec_scheme().in_domain(key) ==> final(self).counts() == old(self).counts(),
            old(self).spec_scheme().in_domain(key) ==> final(self).contains(key),
    {
        if !self.scheme.accepts(key) {
            return;
        }
        let k = self.scheme.num_hashes();
        let mut i: usize = 0;
        while i < k
            invariant
                self.wf(),
                self.scheme == old(self).scheme,
                k == self.scheme.spec_num_hashes(),
                i <= k,
                self.count_array@.len() == old(self).count_array@.len(),
                forall|j: int|
                    0 <= j < self.count_array@.len() ==> #[trigger] self.count_array@[j]
                        == vstd::math::min(
                        old(self).count_array@[j] + self.scheme.hit_count(key, j, i as int),
                        255,
                    ),
            decreases k - i,
        {
            let p = self.scheme.position_of(key, i) as usize;
            let c = self.count_array[p];
            self.count_array.set(p, c.saturating_add(1));
            i = i + 1;
        }
        proof {
            assert forall|t: int| 0 <= t < self.scheme.spec_num_hashes() implies self.count_array@[
                #[trigger] self.scheme.position(key, t)] > 0 by {
                self.scheme.lemma_position_bound(key, t);
                self.scheme.lemma_hit_count_positive(key, t, k as int);
            }
        }
    }

    /// Whether every counter of `key` is non-zero.
    pub fn member(&self, key: u64) -> (r: bool)
        requires
            self.wf(),
        ensures
            r == self.contains(key),
    {
        let k = self.scheme.num_hashes();
        let mut i: usize = 0;
        while i < k
            invariant
                self.wf(),
                k == self.scheme.spec_num_hashes(),
                i <= k,
                forall|t: int| 0 <= t < i ==> self.count_array@[#[trigger] self.scheme.position(key, t)] > 0,
            decreases k - i,
        {
            let p = self.scheme.position_of(key, i) as usize;
            if self.count_array[p] == 0 {
                return false;
            }
            i = i + 1;
        }
        true
    }

    /// Subtracts one from each counter of `key` (once per position that names
    /// it), stopping at 0; a key outside the domain is ignored.
    pub fn delete(&mut self, key: u64)
        requires
            old(self).wf(),
        ensures
            final(self).wf(),
            final(self).spec_scheme() == old(self).spec_scheme(),
            final(self).counts().len() == old(self).counts().len(),
            old(self).spec_scheme().in_domain(key) ==> forall|j: int|
                0 <= j < old(self).counts().len() ==> #[trigger] final(self).counts()[j] == vstd::math::max(
                    old(self).counts()[j] - old(self).spec_scheme().hit_count(
                        key,
                        j,
                        old(self).spec_scheme().spec_num_hashes() as int,
                    ),
                    0,
                ),
            !old(self).spec_scheme().in_domain(key) ==> final(self).counts() == old(self).counts(),
    {
        if !self.scheme.accepts(key) {
            return;
        }
        let k = self.scheme.num_hashes();
        let mut i: usize = 0;
        while i < k
            invariant
                self.wf(),
                self.scheme == old(self).scheme,
                k == self.scheme.spec_num_hashes(),
                i <= k,
                self.count_array@.len() == old(self).count_array@.len(),
                forall|j: int|
                    0 <= j < self.count_array@.len() ==> #[trigger] self.count_array@[j]
                        == vstd::math::max(
                        old(self).count_array@[j] - self.scheme.hit_count(key, j, i as int),
                        0,
                    ),
            decreases k - i,
        {
            let p = self.scheme.position_of(key, i) as usize;
            let c = self.count_array[p];
            self.count_array.set(p, c.saturating_sub(1));
            i = i + 1;
        }
    }

    pub fn scheme(&self) -> (r: &HashScheme)
        ensures
            *r == self.spec_scheme(),
    {
        &self.scheme
    }
}

} // verus!
