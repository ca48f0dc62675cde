//! The static filters: a table of fingerprints built once from the whole key
//! set, such that the XOR of a key's `fanout` table entries is its
//! fingerprint. Construction peels the key/slot hypergraph, checks the peel
//! order, and assigns the table in reverse peel order.
use crate::hashing::{generate_hash_functions, index_bits, index_bits_spec, HashFunction};
use vstd::prelude::*;

verus! {

/// Attempts, each with fresh hash functions, before construction gives up.
pub const MAX_ATTEMPTS: usize = 1000;

/// The fingerprint table and how a key maps onto it.
pub(crate) struct FuseTable {
    pub(crate) fingerprints: Vec<u32>,
    pub(crate) hashes: Vec<HashFunction>,
    pub(crate) size: u64,
    pub(crate) l: u32,
    pub(crate) fanout: usize,
    pub(crate) segmented: bool,
    pub(crate) segment_length: u64,
    pub(crate) num_segments: u64,
    pub(crate) fingerprint_bits: u32,
}

/// The shape of a table: size, fanout, fingerprint width and, for segmented
/// tables, the segments.
pub open spec fn layout_ok(
    size: u64,
    fanout: usize,
    segmented: bool,
    segment_length: u64,
    num_segments: u64,
    fingerprint_bits: u32,
) -> bool {
    &&& 3 <= size <= u32::MAX
    &&& fanout == 3 || fanout == 4
    &&& 1 <= fingerprint_bits <= 32
    &&& !segmented ==> fanout == 3
    &&& segmented ==> {
        &&& 1 <= segment_length
        &&& fanout <= num_segments
        &&& num_segments * segment_length <= size
    }
}

/// Every entry of `alive` up to `t` is live: all of them count.
proof fn lemma_live_all(alive: Seq<bool>, t: int)
    requires
        0 <= t <= alive.len(),
        forall|i: int| 0 <= i < alive.len() ==> #[trigger] alive[i],
    ensures
        FuseTable::live(alive, t) == t,
    decreases t,
{
    if t > 0 {
        lemma_live_all(alive, t - 1);
    }
}

/// Slot `m` of `key` in a table of `size` entries whose hash functions are
/// `hashes` (hashes onto `index_bits(size)` bits): in third `m` of the table,
/// or, for a segmented table, in segment `start + m`, where `start` is drawn
/// by the last hash function among the first `num_segments - fanout + 1`
/// segments.
pub open spec fn slot_in(
    hashes: Seq<HashFunction>,
    size: u64,
    fanout: usize,
    segmented: bool,
    segment_length: u64,
    num_segments: u64,
    key: u64,
    m: int,
) -> int {
    let l = index_bits_spec(size) as u32;
    let h = hashes[m].spec_apply(key, l) as int;
    if !segmented {
        let bound = (size / 3) as int;
        h % bound + m * bound
    } else {
        let start = hashes[fanout + 1].spec_apply(key, l) as int % (num_segments - fanout + 1);
        (start + m) * segment_length + h % (segment_length as int)
    }
}

/// `s` is one of the `fanout` slots of `key` (see `slot_in`).
pub open spec fn is_slot_in(
    hashes: Seq<HashFunction>,
    size: u64,
    fanout: usize,
    segmented: bool,
    segment_length: u64,
    num_segments: u64,
    key: u64,
    s: int,
) -> bool {
    exists|m: int|
        0 <= m < fanout && #[trigger] slot_in(hashes, size, fanout, segmented, segment_length, num_segments, key, m)
            == s
}

/// A peel order for `keys`: each step names a key and one of its slots;
/// every key is named, and no step's slot belongs to a key named later.
pub open spec fn peel_order_in(
    hashes: Seq<HashFunction>,
    size: u64,
    fanout: usize,
    segmented: bool,
    segment_length: u64,
    num_segments: u64,
    keys: Seq<u64>,
    sigma: Seq<(usize, usize)>,
) -> bool {
    &&& sigma.len() == keys.len()
    &&& forall|j: int| 0 <= j < sigma.len() ==> (#[trigger] sigma[j]).0 < keys.len()
    &&& forall|j: int|
        0 <= j < sigma.len() ==> is_slot_in(
            hashes,
            size,
            fanout,
            segmented,
            segment_length,
            num_segments,
            keys[sigma[j].0 as int],
            #[trigger] sigma[j].1 as int,
        )
    &&& forall|j: int, t: int|
        0 <= t < j < sigma.len() ==> !is_slot_in(
            hashes,
            size,
            fanout,
            segmented,
            segment_length,
            num_segments,
            keys[(#[trigger] sigma[j]).0 as int],
            (#[trigger] sigma[t]).1 as int,
        )
    &&& forall|i: int| 0 <= i < keys.len() ==> #[trigger] names(sigma, i)
}

/// The keys can be peeled in a table of this shape: some peel order exists,
/// that is, the hypergraph of their slots has an empty 2-core.
pub open spec fn peelable_in(
    hashes: Seq<HashFunction>,
    size: u64,
    fanout: usize,
    segmented: bool,
    segment_length: u64,
    num_segments: u64,
    keys: Seq<u64>,
) -> bool {
    exists|sigma: Seq<(usize, usize)>|
        peel_order_in(hashes, size, fanout, segmented, segment_length, num_segments, keys, sigma)
}

/// Some step of `sigma` names key index `i`.
pub open spec fn names(sigma: Seq<(usize, usize)>, i: int) -> bool {
    exists|j: int| 0 <= j < sigma.len() && (#[trigger] sigma[j]).0 == i
}

proof fn lemma_xor_replace(a: u32, b: u32, c: u32, d: u32, v: u32, m: int)
    requires
        0 <= m < 4,
    ensures
        m == 0 ==> (v ^ b ^ c ^ d) == (a ^ b ^ c ^ d) ^ a ^ v,
        m == 1 ==> (a ^ v ^ c ^ d) == (a ^ b ^ c ^ d) ^ b ^ v,
        m == 2 ==> (a ^ b ^ v ^ d) == (a ^ b ^ c ^ d) ^ c ^ v,
        m == 3 ==> (a ^ b ^ c ^ v) == (a ^ b ^ c ^ d) ^ d ^ v,
{
    assert((v ^ b ^ c ^ d) == (a ^ b ^ c ^ d) ^ a ^ v) by (bit_vector);
    assert((a ^ v ^ c ^ d) == (a ^ b ^ c ^ d) ^ b ^ v) by (bit_vector);
    assert((a ^ b ^ v ^ d) == (a ^ b ^ c ^ d) ^ c ^ v) by (bit_vector);
    assert((a ^ b ^ c ^ v) == (a ^ b ^ c ^ d) ^ d ^ v) by (bit_vector);
}

proof fn lemma_xor_cancel(x: u32, fp: u32)
    ensures
        x ^ 0u32 ^ (fp ^ x) == fp,
{
    assert(x ^ 0u32 ^ (fp ^ x) == fp) by (bit_vector);
}

impl FuseTable {
    pub(crate) open spec fn config_wf(&self) -> bool {
        &&& layout_ok(
            self.size,
            self.fanout,
            self.segmented,
            self.segment_length,
            self.num_segments,
            self.fingerprint_bits,
        )
        &&& self.hashes.len() == self.fanout + 2
        &&& self.l <= 64
        &&& self.l == index_bits_spec(self.size)
    }

    pub(crate) open spec fn wf(&self) -> bool {
        &&& self.config_wf()
        &&& self.fingerprints.len() == self.size
    }

    pub(crate) open spec fn table(&self) -> Seq<u32> {
        self.fingerprints@
    }

    pub(crate) open spec fn spec_size(&self) -> nat {
        self.size as nat
    }

    /// The fingerprint of `key`: `fingerprint_bits` bits of its own hash.
    pub(crate) open spec fn fingerprint_spec(&self, key: u64) -> u32 {
        self.hashes[self.fanout as int].spec_apply(key, self.fingerprint_bits)
    }

    /// The segment where the slots of `key` start.
    pub(crate) open spec fn segment_spec(&self, key: u64) -> int {
        self.hashes[self.fanout + 1].spec_apply(key, self.l) as int % (self.num_segments - self.fanout
            + 1)
    }

    /// Slot `m` of `key`: in third `m` of the table, or in segment
    /// `segment + m`.
    pub(crate) open spec fn slot_spec(&self, key: u64, m: int) -> int {
        let h = self.hashes[m].spec_apply(key, self.l) as int;
        if !self.segmented {
            let bound = (self.size / 3) as int;
            h % bound + m * bound
        } else {
            (self.segment_spec(key) + m) * self.segment_length + h % (self.segment_length as int)
        }
    }

    /// Entry `m` of `key` in table `t` (zero beyond the fanout).
    pub(crate) open spec fn term(&self, t: Seq<u32>, key: u64, m: int) -> u32 {
        if m < self.fanout {
            t[self.slot_spec(key, m)]
        } else {
            0u32
        }
    }

    /// The XOR of the entries of `key` in table `t`.
    pub(crate) open spec fn table_xor(&self, t: Seq<u32>, key: u64) -> u32 {
        self.term(t, key, 0) ^ self.term(t, key, 1) ^ self.term(t, key, 2) ^ self.term(t, key, 3)
    }

    /// `key` reads as present: its entries XOR to its fingerprint.
    pub(crate) open spec fn contains(&self, key: u64) -> bool {
        self.table_xor(self.fingerprints@, key) == self.fingerprint_spec(key)
    }

    /// `s` is one of the slots of `key`.
    pub(crate) open spec fn is_slot_of(&self, key: u64, s: int) -> bool {
        exists|m: int| 0 <= m < self.fanout && #[trigger] self.slot_spec(key, m) == s
    }

    /// A peel order for `keys` in this table (see `peel_order_in`).
    pub(crate) open spec fn peel_order_ok(&self, keys: Seq<u64>, sigma: Seq<(usize, usize)>) -> bool {
        &&& sigma.len() == keys.len()
        &&& forall|j: int| 0 <= j < sigma.len() ==> (#[trigger] sigma[j]).0 < keys.len()
        &&& forall|j: int| 0 <= j < sigma.len() ==> self.is_slot_of(keys[sigma[j].0 as int], #[trigger] sigma[j].1 as int)
        &&& forall|j: int, t: int|
            0 <= t < j < sigma.len() ==> !self.is_slot_of(keys[(#[trigger] sigma[j]).0 as int], (#[trigger] sigma[t]).1 as int)
        &&& forall|i: int| 0 <= i < keys.len() ==> #[trigger] names(sigma, i)
    }

    /// The table's own slot rule is `slot_in` for its shape, so its peel
    /// orders are those of `peel_order_in`.
    proof fn lemma_shape(&self, keys: Seq<u64>)
        requires
            self.config_wf(),
        ensures
            forall|sigma: Seq<(usize, usize)>| #[trigger] self.peel_order_ok(keys, sigma) == peel_order_in(
                self.hashes@,
                self.size,
                self.fanout,
                self.segmented,
                self.segment_length,
                self.num_segments,
                keys,
                sigma,
            ),
            self.peelable(keys) == peelable_in(
                self.hashes@,
                self.size,
                self.fanout,
                self.segmented,
                self.segment_length,
                self.num_segments,
                keys,
            ),
    {
        let hs = self.hashes@;
        assert forall|key: u64, m: int| #[trigger] self.slot_spec(key, m) == slot_in(
            hs,
            self.size,
            self.fanout,
            self.segmented,
            self.segment_length,
            self.num_segments,
            key,
            m,
        ) by {}
        assert forall|key: u64, s: int| #[trigger] self.is_slot_of(key, s) == is_slot_in(
            hs,
            self.size,
            self.fanout,
            self.segmented,
            self.segment_length,
            self.num_segments,
            key,
            s,
        ) by {
            if self.is_slot_of(key, s) {
                let m = choose|m: int| 0 <= m < self.fanout && #[trigger] self.slot_spec(key, m) == s;
                assert(slot_in(hs, self.size, self.fanout, self.segmented, self.segment_length, self.num_segments, key, m) == s);
            }
            if is_slot_in(hs, self.size, self.fanout, self.segmented, self.segment_length, self.num_segments, key, s) {
                let m = choose|m: int|
                    0 <= m < self.fanout && #[trigger] slot_in(
                        hs,
                        self.size,
                        self.fanout,
                        self.segmented,
                        self.segment_length,
                        self.num_segments,
                        key,
                        m,
                    ) == s;
                assert(self.slot_spec(key, m) == s);
            }
        }
        if self.peelable(keys) {
            let w = choose|w: Seq<(usize, usize)>| self.peel_order_ok(keys, w);
            assert(peel_order_in(hs, self.size, self.fanout, self.segmented, self.segment_length, self.num_segments, keys, w));
        }
        if peelable_in(hs, self.size, self.fanout, self.segmented, self.segment_length, self.num_segments, keys) {
            let w = choose|w: Seq<(usize, usize)>|
                peel_order_in(hs, self.size, self.fanout, self.segmented, self.segment_length, self.num_segments, keys, w);
            assert(self.peel_order_ok(keys, w));
        }
    }

    proof fn lemma_slot_bounds(&self, key: u64, m: int)
        requires
            self.config_wf(),
            0 <= m < self.fanout,
        ensures
            0 <= self.slot_spec(key, m) < self.size,
            !self.segmented ==> m * (self.size / 3) <= self.slot_spec(key, m) < (m + 1) * (self.size / 3),
            self.segmented ==> (self.segment_spec(key) + m) * self.segment_length <= self.slot_spec(key, m)
                < (self.segment_spec(key) + m + 1) * self.segment_length,
    {
        let h = self.hashes[m].spec_apply(key, self.l) as int;
        if !self.segmented {
            let bound = (self.size / 3) as int;
            assert(0 <= h % bound < bound);
            assert(m * bound + bound <= 3 * bound) by (nonlinear_arith)
                requires
                    0 <= m < 3,
                    bound >= 1,
            ;
            assert((m + 1) * bound == m * bound + bound) by (nonlinear_arith);
        } else {
            let s = self.segment_spec(key);
            let len = self.segment_length as int;
            let k = (self.num_segments - self.fanout + 1) as int;
            assert(0 <= s < k);
            assert(0 <= h % len < len);
            assert((s + m + 1) * len <= self.num_segments * len) by (nonlinear_arith)
                requires
                    0 <= s < k,
                    k == self.num_segments - self.fanout + 1,
                    0 <= m < self.fanout,
                    len >= 1,
            ;
            assert((s + m + 1) * len == (s + m) * len + len) by (nonlinear_arith);
            assert(0 <= (s + m) * len) by (nonlinear_arith)
                requires
                    0 <= s,
                    0 <= m,
                    len >= 1,
            ;
        }
    }

    proof fn lemma_slots_distinct(&self, key: u64, a: int, b: int)
        requires
            self.config_wf(),
            0 <= a < b < self.fanout,
        ensures
            self.slot_spec(key, a) != self.slot_spec(key, b),
    {
        self.lemma_slot_bounds(key, a);
        self.lemma_slot_bounds(key, b);
        if !self.segmented {
            let bound = (self.size / 3) as int;
            assert((a + 1) * bound <= b * bound) by (nonlinear_arith)
                requires
                    a < b,
                    bound >= 0,
            ;
        } else {
            let s = self.segment_spec(key);
            let len = self.segment_length as int;
            assert((s + a + 1) * len <= (s + b) * len) by (nonlinear_arith)
                requires
                    a < b,
                    len >= 0,
            ;
        }
    }

    /// Writing a slot that `key` does not use leaves its XOR unchanged.
    proof fn lemma_xor_frame(&self, t: Seq<u32>, key: u64, s: int, v: u32)
        requires
            self.config_wf(),
            t.len() == self.size,
            0 <= s < t.len(),
            !self.is_slot_of(key, s),
        ensures
            self.table_xor(t.update(s, v), key) == self.table_xor(t, key),
    {
        assert forall|m: int| 0 <= m < 4 implies self.term(t.update(s, v), key, m) == self.term(t, key, m) by {
            if m < self.fanout {
                self.lemma_slot_bounds(key, m);
                assert(self.slot_spec(key, m) != s);
            }
        }
    }

    /// Writing slot `m` of `key` changes its XOR by the old and new values.
    proof fn lemma_xor_write(&self, t: Seq<u32>, key: u64, m: int, v: u32)
        requires
            self.config_wf(),
            t.len() == self.size,
            0 <= m < self.fanout,
        ensures
            self.table_xor(t.update(self.slot_spec(key, m), v), key) == self.table_xor(t, key) ^ t[self.slot_spec(
                key,
                m,
            )] ^ v,
    {
        let s = self.slot_spec(key, m);
        let u = t.update(s, v);
        self.lemma_slot_bounds(key, m);
        assert forall|n: int| 0 <= n < 4 && n != m implies self.term(u, key, n) == self.term(t, key, n) by {
            if n < self.fanout {
                self.lemma_slot_bounds(key, n);
                if n < m {
                    self.lemma_slots_distinct(key, n, m);
                } else {
                    self.lemma_slots_distinct(key, m, n);
                }
            }
        }
        lemma_xor_replace(
            self.term(t, key, 0),
            self.term(t, key, 1),
            self.term(t, key, 2),
            self.term(t, key, 3),
            v,
            m,
        );
    }

    /// The fingerprint of `key`.
    pub(crate) fn fingerprint(&self, key: u64) -> (r: u32)
        requires
            self.config_wf(),
        ensures
            r == self.fingerprint_spec(key),
    {
        self.hashes[self.fanout].apply(key, self.fingerprint_bits)
    }

    /// Slot `m` of `key`.
    pub(crate) fn slot(&self, key: u64, m: usize) -> (r: usize)
        requires
            self.config_wf(),
            m < self.fanout,
        ensures
            r == self.slot_spec(key, m as int),
            r < self.size,
    {
        proof {
            self.lemma_slot_bounds(key, m as int);
        }
        let h = self.hashes[m].apply(key, self.l) as u64;
        if !self.segmented {
            let bound = self.size / 3;
            (h % bound + (m as u64) * bound) as usize
        } else {
            let sel = self.hashes[self.fanout + 1].apply(key, self.l) as u64;
            let segment = sel % (self.num_segments - (self.fanout as u64) + 1);
            ((segment + m as u64) * self.segment_length + h % self.segment_length) as usize
        }
    }

    /// All slots of `key`; the fourth is repeated from the third for a
    /// fanout of three.
    pub(crate) fn segmented_hash(&self, key: u64) -> (r: (usize, usize, usize, usize))
        requires
            self.config_wf(),
        ensures
            r.0 == self.slot_spec(key, 0),
            r.1 == self.slot_spec(key, 1),
            r.2 == self.slot_spec(key, 2),
            self.fanout == 4 ==> r.3 == self.slot_spec(key, 3),
            self.fanout == 3 ==> r.3 == r.2,
            r.0 < self.size && r.1 < self.size && r.2 < self.size && r.3 < self.size,
    {
        let s0 = self.slot(key, 0);
        let s1 = self.slot(key, 1);
        let s2 = self.slot(key, 2);
        let s3 = if self.fanout == 4 {
            self.slot(key, 3)
        } else {
            s2
        };
        (s0, s1, s2, s3)
    }

    /// The XOR of the entries of `key` in `t`.
    fn xor_of(&self, t: &Vec<u32>, key: u64) -> (r: u32)
        requires
            self.config_wf(),
            t.len() == self.size,
        ensures
            r == self.table_xor(t@, key),
    {
        let (s0, s1, s2, s3) = self.segmented_hash(key);
        let x = t[s0] ^ t[s1] ^ t[s2];
        if self.fanout == 4 {
            x ^ t[s3]
        } else {
            x ^ 0u32
        }
    }

    /// Whether the entries of `key` XOR to its fingerprint.
    pub(crate) fn member(&self, key: u64) -> (r: bool)
        requires
            self.wf(),
        ensures
            r == self.contains(key),
    {
        self.fingerprint(key) == self.xor_of(&self.fingerprints, key)
    }

    /// How many of the first `m` slots of `key` are `s`.
    pub(crate) open spec fn occ_upto(&self, key: u64, s: int, m: int) -> int
        decreases m,
    {
        if m <= 0 {
            0
        } else {
            self.occ_upto(key, s, m - 1) + if self.slot_spec(key, m - 1) == s {
                1int
            } else {
                0int
            }
        }
    }

    /// How many slots of `key` are `s` (one or none).
    pub(crate) open spec fn occ(&self, key: u64, s: int) -> int {
        self.occ_upto(key, s, self.fanout as int)
    }

    /// The degree of slot `s` among the live keys of the first `t`.
    pub(crate) open spec fn deg(&self, keys: Seq<u64>, alive: Seq<bool>, s: int, t: int) -> int
        decreases t,
    {
        if t <= 0 {
            0
        } else {
            self.deg(keys, alive, s, t - 1) + if alive[t - 1] {
                self.occ(keys[t - 1], s)
            } else {
                0
            }
        }
    }

    /// The sum of the indices of the live keys of the first `t` at slot `s`.
    pub(crate) open spec fn wsum(&self, keys: Seq<u64>, alive: Seq<bool>, s: int, t: int) -> int
        decreases t,
    {
        if t <= 0 {
            0
        } else {
            self.wsum(keys, alive, s, t - 1) + if alive[t - 1] {
                self.occ(keys[t - 1], s) * (t - 1)
            } else {
                0
            }
        }
    }

    /// The number of live keys among the first `t`.
    pub(crate) open spec fn live(alive: Seq<bool>, t: int) -> int
        decreases t,
    {
        if t <= 0 {
            0
        } else {
            Self::live(alive, t - 1) + if alive[t - 1] {
                1int
            } else {
                0int
            }
        }
    }

    /// The keys can be peeled: some peel order exists.
    pub(crate) open spec fn peelable(&self, keys: Seq<u64>) -> bool {
        exists|sigma: Seq<(usize, usize)>| self.peel_order_ok(keys, sigma)
    }

    proof fn lemma_occ_upto(&self, key: u64, s: int, m: int)
        requires
            self.config_wf(),
            0 <= m <= self.fanout,
        ensures
            self.occ_upto(key, s, m) == if exists|k: int| 0 <= k < m && #[trigger] self.slot_spec(key, k) == s {
                1int
            } else {
                0int
            },
        decreases m,
    {
        if m > 0 {
            self.lemma_occ_upto(key, s, m - 1);
            if self.slot_spec(key, m - 1) == s {
                assert forall|k: int| 0 <= k < m - 1 implies #[trigger] self.slot_spec(key, k) != s by {
                    self.lemma_slots_distinct(key, k, m - 1);
                }
            }
            if exists|k: int| 0 <= k < m && #[trigger] self.slot_spec(key, k) == s {
                let k = choose|k: int| 0 <= k < m && #[trigger] self.slot_spec(key, k) == s;
                if k < m - 1 {
                    assert(exists|k2: int| 0 <= k2 < m - 1 && #[trigger] self.slot_spec(key, k2) == s);
                }
            }
        }
    }

    proof fn lemma_occ(&self, key: u64, s: int)
        requires
            self.config_wf(),
        ensures
            self.occ(key, s) == if self.is_slot_of(key, s) {
                1int
            } else {
                0int
            },
    {
        self.lemma_occ_upto(key, s, self.fanout as int);
    }

    /// Taking key `x` out lowers the degree and index sum of each of its slots.
    proof fn lemma_remove(&self, keys: Seq<u64>, alive: Seq<bool>, x: int, s: int, t: int)
        requires
            self.config_wf(),
            alive.len() == keys.len(),
            0 <= x < keys.len(),
            alive[x],
            0 <= t <= keys.len(),
        ensures
            self.deg(keys, alive.update(x, false), s, t) == self.deg(keys, alive, s, t) - if x < t {
                self.occ(keys[x], s)
            } else {
                0
            },
            self.wsum(keys, alive.update(x, false), s, t) == self.wsum(keys, alive, s, t) - if x < t {
                self.occ(keys[x], s) * x
            } else {
                0
            },
        decreases t,
    {
        if t > 0 {
            self.lemma_remove(keys, alive, x, s, t - 1);
        }
    }

    proof fn lemma_deg_bounds(&self, keys: Seq<u64>, alive: Seq<bool>, s: int, t: int)
        requires
            self.config_wf(),
            alive.len() == keys.len(),
            0 <= t <= keys.len(),
        ensures
            0 <= self.deg(keys, alive, s, t) <= 4 * t,
            0 <= self.wsum(keys, alive, s, t) <= 4 * t * t,
        decreases t,
    {
        if t > 0 {
            self.lemma_deg_bounds(keys, alive, s, t - 1);
            self.lemma_occ(keys[t - 1], s);
            assert(4 * (t - 1) * (t - 1) + 4 * (t - 1) <= 4 * t * t) by (nonlinear_arith)
                requires
                    t >= 1,
            ;
        }
    }

    /// Degree zero: no live key uses the slot.
    proof fn lemma_deg_zero(&self, keys: Seq<u64>, alive: Seq<bool>, s: int, t: int)
        requires
            self.config_wf(),
            alive.len() == keys.len(),
            0 <= t <= keys.len(),
            self.deg(keys, alive, s, t) == 0,
        ensures
            forall|i: int| 0 <= i < t && alive[i] ==> !self.is_slot_of(#[trigger] keys[i], s),
            self.wsum(keys, alive, s, t) == 0,
        decreases t,
    {
        if t > 0 {
            self.lemma_deg_bounds(keys, alive, s, t - 1);
            self.lemma_occ(keys[t - 1], s);
            self.lemma_deg_zero(keys, alive, s, t - 1);
        }
    }

    /// Degree one: exactly one live key uses the slot, and the index sum
    /// names it.
    proof fn lemma_deg_one(&self, keys: Seq<u64>, alive: Seq<bool>, s: int, t: int)
        requires
            self.config_wf(),
            alive.len() == keys.len(),
            0 <= t <= keys.len(),
            self.deg(keys, alive, s, t) == 1,
        ensures
            ({
                let x = self.wsum(keys, alive, s, t);
                &&& 0 <= x < t
                &&& alive[x]
                &&& self.is_slot_of(keys[x], s)
                &&& forall|i: int| 0 <= i < t && i != x && alive[i] ==> !self.is_slot_of(#[trigger] keys[i], s)
            }),
        decreases t,
    {
        self.lemma_deg_bounds(keys, alive, s, t - 1);
        self.lemma_occ(keys[t - 1], s);
        if alive[t - 1] && self.is_slot_of(keys[t - 1], s) {
            self.lemma_deg_zero(keys, alive, s, t - 1);
        } else {
            self.lemma_deg_one(keys, alive, s, t - 1);
        }
    }

    /// One live key alone uses the slot: degree one (or zero before it).
    proof fn lemma_unique_deg(&self, keys: Seq<u64>, alive: Seq<bool>, s: int, x: int, t: int)
        requires
            self.config_wf(),
            alive.len() == keys.len(),
            0 <= t <= keys.len(),
            0 <= x < keys.len(),
            alive[x],
            self.is_slot_of(keys[x], s),
            forall|i: int| 0 <= i < keys.len() && i != x && alive[i] ==> !self.is_slot_of(#[trigger] keys[i], s),
        ensures
            self.deg(keys, alive, s, t) == if x < t {
                1int
            } else {
                0int
            },
        decreases t,
    {
        if t > 0 {
            self.lemma_unique_deg(keys, alive, s, x, t - 1);
            self.lemma_occ(keys[t - 1], s);
        }
    }

    proof fn lemma_live_remove(alive: Seq<bool>, x: int, t: int)
        requires
            0 <= x < alive.len(),
            alive[x],
            0 <= t <= alive.len(),
        ensures
            Self::live(alive.update(x, false), t) == Self::live(alive, t) - if x < t {
                1int
            } else {
                0int
            },
            0 <= Self::live(alive, t) <= t,
        decreases t,
    {
        if t > 0 {
            Self::lemma_live_remove(alive, x, t - 1);
        }
    }

    proof fn lemma_live_bound(alive: Seq<bool>, t: int)
        requires
            0 <= t <= alive.len(),
        ensures
            0 <= Self::live(alive, t) <= t,
        decreases t,
    {
        if t > 0 {
            Self::lemma_live_bound(alive, t - 1);
        }
    }

    proof fn lemma_live_none(alive: Seq<bool>, t: int)
        requires
            0 <= t <= alive.len(),
            forall|i: int| 0 <= i < t ==> !#[trigger] alive[i],
        ensures
            Self::live(alive, t) == 0,
        decreases t,
    {
        if t > 0 {
            Self::lemma_live_none(alive, t - 1);
        }
    }

    /// With a peel order, a nonempty set of live keys always has a slot of
    /// degree one: the slot of the earliest live key in the order.
    proof fn lemma_stuck(&self, keys: Seq<u64>, alive: Seq<bool>, sigma: Seq<(usize, usize)>, j: int)
        requires
            self.config_wf(),
            alive.len() == keys.len(),
            self.peel_order_ok(keys, sigma),
            0 <= j <= sigma.len(),
            forall|k: int| 0 <= k < j ==> !alive[(#[trigger] sigma[k]).0 as int],
            exists|i: int| 0 <= i < keys.len() && alive[i],
        ensures
            exists|s: int| 0 <= s < self.size && self.deg(keys, alive, s, keys.len() as int) == 1,
        decreases sigma.len() - j,
    {
        let i0 = choose|i: int| 0 <= i < keys.len() && alive[i];
        assert(names(sigma, i0));
        let k0 = choose|k: int| 0 <= k < sigma.len() && (#[trigger] sigma[k]).0 == i0;
        if !alive[sigma[j].0 as int] {
            assert(j < k0);
            self.lemma_stuck(keys, alive, sigma, j + 1);
        } else {
            let x = sigma[j].0 as int;
            let s = sigma[j].1 as int;
            assert forall|i: int| 0 <= i < keys.len() && i != x && alive[i] implies !self.is_slot_of(#[trigger] keys[i], s) by {
                assert(names(sigma, i));
                let k = choose|k: int| 0 <= k < sigma.len() && (#[trigger] sigma[k]).0 == i;
                assert(k != j);
                if k < j {
                    assert(!alive[sigma[k].0 as int]);
                }
                assert(j < k);
            }
            let m = choose|m: int| 0 <= m < self.fanout && #[trigger] self.slot_spec(keys[x], m) == s;
            self.lemma_slot_bounds(keys[x], m);
            self.lemma_unique_deg(keys, alive, s, x, keys.len() as int);
        }
    }

    /// Peels the hypergraph of `keys`: each slot keeps the number and the
    /// index sum of the live keys that use it; a slot of degree one names its
    /// one key, which is recorded with the slot and taken out of all of its
    /// slots. Gives the recorded steps when every key was taken out, which
    /// happens exactly when the keys have a peel order.
    #[verifier::spinoff_prover]
    #[verifier::rlimit(80)]
    pub(crate) fn mapping(&self, keys: &Vec<u64>) -> (r: Option<Vec<(usize, usize)>>)
        requires
            self.config_wf(),
            keys.len() <= 1_000_000_000,
        ensures
            r matches Some(sigma) ==> self.peel_order_ok(keys@, sigma@),
            self.peelable(keys@) ==> r is Some,
    {
        let n = keys.len();
        let size = self.size as usize;
        let mut alive: Vec<bool> = vec![true; n];
        let mut sums: Vec<u64> = vec![0u64; size];
        let mut counts: Vec<u64> = vec![0u64; size];
        let mut i: usize = 0;
        while i < n
            invariant
                self.config_wf(),
                size == self.size,
                n == keys.len() <= 1_000_000_000,
                i <= n,
                alive@ == Seq::new(n as nat, |k: int| true),
                sums.len() == size,
                counts.len() == size,
                forall|s: int| 0 <= s < size ==> #[trigger] counts@[s] == self.deg(keys@, alive@, s, i as int),
                forall|s: int| 0 <= s < size ==> #[trigger] sums@[s] == self.wsum(keys@, alive@, s, i as int),
            decreases n - i,
        {
            let mut m: usize = 0;
            while m < self.fanout
                invariant
                    self.config_wf(),
                    size == self.size,
                    n == keys.len() <= 1_000_000_000,
                    i < n,
                    m <= self.fanout,
                    alive@ == Seq::new(n as nat, |k: int| true),
                    sums.len() == size,
                    counts.len() == size,
                    forall|s: int|
                        0 <= s < size ==> #[trigger] counts@[s] == self.deg(keys@, alive@, s, i as int) + self.occ_upto(
                            keys@[i as int],
                            s,
                            m as int,
                        ),
                    forall|s: int|
                        0 <= s < size ==> #[trigger] sums@[s] == self.wsum(keys@, alive@, s, i as int) + self.occ_upto(
                            keys@[i as int],
                            s,
                            m as int,
                        ) * i,
                decreases self.fanout - m,
            {
                let s = self.slot(keys[i], m);
                proof {
                    self.lemma_deg_bounds(keys@, alive@, s as int, i as int);
                    self.lemma_occ_upto(keys@[i as int], s as int, m as int);
                    assert(4 * i * i + 4 * i <= 4 * 1_000_000_000 * 1_000_000_000) by (nonlinear_arith)
                        requires
                            i < 1_000_000_000,
                    ;
                    let o = self.occ_upto(keys@[i as int], s as int, m as int);
                    assert(self.occ_upto(keys@[i as int], s as int, m + 1) == o + 1);
                    assert((o + 1) * i == o * i + i) by (nonlinear_arith);
                    assert(o * i <= 4 * i) by (nonlinear_arith)
                        requires
                            0 <= o <= 1,
                    ;
                    assert forall|u: int| 0 <= u < size && u != s implies self.occ_upto(keys@[i as int], u, m + 1)
                        == self.occ_upto(keys@[i as int], u, m as int) by {}
                }
                let c = counts[s];
                counts.set(s, c + 1);
                let w = sums[s];
                sums.set(s, w + i as u64);
                m = m + 1;
            }
            i = i + 1;
        }
        let mut queue: Vec<usize> = Vec::new();
        let mut s: usize = 0;
        while s < size
            invariant
                s <= size,
                counts.len() == size,
                forall|t: int| 0 <= t < s && counts@[t] == 1 ==> queue@.contains(t as usize),
                forall|k: int| 0 <= k < queue.len() ==> #[trigger] queue@[k] < size,
                queue.len() <= s,
            decreases size - s,
        {
            let ghost before = queue@;
            if counts[s] == 1 {
                queue.push(s);
                assert(queue@[queue.len() - 1] == s);
                assert forall|u: usize| before.contains(u) implies queue@.contains(u) by {
                    let k = choose|k: int| 0 <= k < before.len() && before[k] == u;
                    assert(queue@[k] == u);
                }
            }
            s = s + 1;
        }
        let mut sigma: Vec<(usize, usize)> = Vec::new();
        proof {
            lemma_live_all(alive@, n as int);
        }
        while queue.len() > 0
            invariant
                self.config_wf(),
                size == self.size,
                n == keys.len() <= 1_000_000_000,
                alive.len() == n,
                sums.len() == size,
                counts.len() == size,
                forall|t: int| 0 <= t < size ==> #[trigger] counts@[t] == self.deg(keys@, alive@, t, n as int),
                forall|t: int| 0 <= t < size ==> #[trigger] sums@[t] == self.wsum(keys@, alive@, t, n as int),
                forall|t: int| 0 <= t < size && counts@[t] == 1 ==> queue@.contains(t as usize),
                forall|k: int| 0 <= k < queue.len() ==> #[trigger] queue@[k] < size,
                sigma.len() + Self::live(alive@, n as int) == n,
                forall|j: int|
                    0 <= j < sigma.len() ==> (#[trigger] sigma@[j]).0 < n && !alive@[sigma@[j].0 as int]
                        && self.is_slot_of(keys@[sigma@[j].0 as int], sigma@[j].1 as int),
                forall|j: int, i: int|
                    0 <= j < sigma.len() && 0 <= i < n && alive@[i] ==> !self.is_slot_of(
                        #[trigger] keys@[i],
                        (#[trigger] sigma@[j]).1 as int,
                    ),
                forall|j: int, t: int|
                    0 <= t < j < sigma.len() ==> !self.is_slot_of(
                        keys@[(#[trigger] sigma@[j]).0 as int],
                        (#[trigger] sigma@[t]).1 as int,
                    ),
                forall|i: int| 0 <= i < n && !alive@[i] ==> #[trigger] names(sigma@, i),
            decreases Self::live(alive@, n as int) * 5 + queue.len(),
        {
            let ghost q0 = queue@;
            let at = queue.pop().unwrap();
            proof {
                assert(q0.last() == at);
                assert(queue@ == q0.drop_last());
                assert forall|t: int| 0 <= t < size && counts@[t] == 1 && t != at implies queue@.contains(t as usize) by {
                    let k = choose|k: int| 0 <= k < q0.len() && q0[k] == t as usize;
                    assert(k != q0.len() - 1);
                    assert(queue@[k] == t as usize);
                }
                assert(at < size);
                Self::lemma_live_bound(alive@, n as int);
            }
            if counts[at] == 1 {
                let ghost old_alive = alive@;
                let ghost old_sigma = sigma@;
                proof {
                    self.lemma_deg_one(keys@, alive@, at as int, n as int);
                }
                let x = sums[at] as usize;
                proof {
                    assert(x < n);
                    Self::lemma_live_remove(old_alive, x as int, n as int);
                    assert forall|t: int| 0 <= t < size implies self.deg(keys@, old_alive, t, n as int) == self.deg(
                        keys@,
                        old_alive.update(x as int, false),
                        t,
                        n as int,
                    ) + self.occ(keys@[x as int], t) by {
                        self.lemma_remove(keys@, old_alive, x as int, t, n as int);
                    }
                    assert forall|t: int| 0 <= t < size implies self.wsum(keys@, old_alive, t, n as int) == self.wsum(
                        keys@,
                        old_alive.update(x as int, false),
                        t,
                        n as int,
                    ) + self.occ(keys@[x as int], t) * x by {
                        self.lemma_remove(keys@, old_alive, x as int, t, n as int);
                    }
                }
                proof {
                    self.lemma_occ(keys@[x as int], at as int);
                    assert(self.deg(keys@, old_alive.update(x as int, false), at as int, n as int) == 0);
                }
                alive.set(x, false);
                sigma.push((x, at));
                let q1 = queue.len();
                let key = keys[x];
                let mut m: usize = 0;
                while m < self.fanout
                    invariant
                        self.config_wf(),
                        size == self.size,
                        n == keys.len() <= 1_000_000_000,
                        x < n,
                        alive.len() == n,
                        key == keys@[x as int],
                        at < size,
                        alive@ == old_alive.update(x as int, false),
                        self.is_slot_of(key, at as int),
                        self.deg(keys@, alive@, at as int, n as int) == 0,
                        m <= self.fanout,
                        sums.len() == size,
                        counts.len() == size,
                        forall|t: int|
                            0 <= t < size ==> #[trigger] counts@[t] == self.deg(keys@, alive@, t, n as int) + self.occ(key, t)
                                - self.occ_upto(key, t, m as int),
                        forall|t: int|
                            0 <= t < size ==> #[trigger] sums@[t] == self.wsum(keys@, alive@, t, n as int) + (self.occ(key, t)
                                - self.occ_upto(key, t, m as int)) * x,
                        forall|t: int|
                            0 <= t < size && counts@[t] == 1 ==> queue@.contains(t as usize) || (t == at
                                && self.occ_upto(key, t, m as int) == 0),
                        forall|k: int| 0 <= k < queue.len() ==> #[trigger] queue@[k] < size,
                        queue.len() <= q1 + m,
                    decreases self.fanout - m,
                {
                    let t = self.slot(key, m);
                    proof {
                        self.lemma_occ_upto(key, t as int, m as int);
                        self.lemma_occ_upto(key, t as int, m + 1);
                        self.lemma_occ(key, t as int);
                        self.lemma_deg_bounds(keys@, alive@, t as int, n as int);
                        assert(self.occ_upto(key, t as int, m as int) == 0) by {
                            if exists|k: int| 0 <= k < m && #[trigger] self.slot_spec(key, k) == t {
                                let k = choose|k: int| 0 <= k < m && #[trigger] self.slot_spec(key, k) == t;
                                self.lemma_slots_distinct(key, k, m as int);
                            }
                        }
                        assert(self.is_slot_of(key, t as int));
                        assert forall|u: int| 0 <= u < size && u != t implies self.occ_upto(key, u, m + 1) == self.occ_upto(
                            key,
                            u,
                            m as int,
                        ) by {}
                    }
                    let c = counts[t];
                    counts.set(t, c - 1);
                    let w = sums[t];
                    proof {
                        let o = self.deg(keys@, alive@, t as int, n as int);
                        self.lemma_deg_bounds(keys@, alive@, t as int, n as int);
                        assert((1 - 0) * x == x) by (nonlinear_arith);
                        assert(w >= x);
                    }
                    sums.set(t, w - x as u64);
                    let ghost before = queue@;
                    if c - 1 == 1 {
                        queue.push(t);
                        assert(queue@[queue.len() - 1] == t);
                    }
                    proof {
                        assert forall|u: usize| before.contains(u) implies queue@.contains(u) by {
                            let k = choose|k: int| 0 <= k < before.len() && before[k] == u;
                            assert(queue@[k] == u);
                        }
                        let o1 = self.occ(key, t as int);
                        assert((o1 - 0) * x - x == (o1 - 1) * x) by (nonlinear_arith);
                    }
                    m = m + 1;
                }
                proof {
                    Self::lemma_live_bound(alive@, n as int);
                    assert(queue.len() <= q1 + 4);
                    self.lemma_occ(key, at as int);
                    assert forall|t: int| 0 <= t < size implies #[trigger] sums@[t] == self.wsum(keys@, alive@, t, n as int)
                        && counts@[t] == self.deg(keys@, alive@, t, n as int) by {
                        let d = self.occ(key, t) - self.occ_upto(key, t, self.fanout as int);
                        assert(d == 0);
                        assert(d * x == 0) by (nonlinear_arith)
                            requires
                                d == 0,
                        ;
                    }
                    let j = sigma.len() - 1;
                    assert(sigma@[j] == (x, at));
                    assert forall|jj: int, i: int|
                        0 <= jj < sigma.len() && 0 <= i < n && alive@[i] implies !self.is_slot_of(
                        #[trigger] keys@[i],
                        (#[trigger] sigma@[jj]).1 as int,
                    ) by {
                        if jj < j {
                            assert(sigma@[jj] == old_sigma[jj]);
                        }
                    }
                    assert forall|jj: int, t: int|
                        0 <= t < jj < sigma.len() implies !self.is_slot_of(
                        keys@[(#[trigger] sigma@[jj]).0 as int],
                        (#[trigger] sigma@[t]).1 as int,
                    ) by {
                        assert(sigma@[t] == old_sigma[t]);
                        if jj < j {
                            assert(sigma@[jj] == old_sigma[jj]);
                        } else {
                            assert(old_alive[x as int]);
                        }
                    }
                    assert forall|i: int| 0 <= i < n && !alive@[i] implies #[trigger] names(sigma@, i) by {
                        if i == x {
                            assert(sigma@[j].0 == x);
                        } else {
                            assert(names(old_sigma, i));
                            let k = choose|k: int| 0 <= k < old_sigma.len() && (#[trigger] old_sigma[k]).0 == i;
                            assert(sigma@[k] == old_sigma[k]);
                        }
                    }
                    assert forall|jj: int|
                        0 <= jj < sigma.len() implies (#[trigger] sigma@[jj]).0 < n && !alive@[sigma@[jj].0 as int]
                        && self.is_slot_of(keys@[sigma@[jj].0 as int], sigma@[jj].1 as int) by {
                        if jj < j {
                            assert(sigma@[jj] == old_sigma[jj]);
                        }
                    }
                }
            }
        }
        proof {
            if self.peelable(keys@) && exists|i: int| 0 <= i < n && alive@[i] {
                let w = choose|w: Seq<(usize, usize)>| self.peel_order_ok(keys@, w);
                self.lemma_stuck(keys@, alive@, w, 0);
                let t = choose|t: int| 0 <= t < self.size && self.deg(keys@, alive@, t, n as int) == 1;
                assert(counts@[t] == 1);
                assert(queue@.contains(t as usize));
            }
            assert(self.peelable(keys@) ==> forall|k: int| 0 <= k < n ==> !#[trigger] alive@[k]);
        }
        let mut i: usize = 0;
        while i < n
            invariant
                n == alive.len(),
                i <= n,
                forall|k: int| 0 <= k < i ==> !#[trigger] alive@[k],
                self.peelable(keys@) ==> forall|k: int| 0 <= k < n ==> !#[trigger] alive@[k],
            decreases n - i,
        {
            if alive[i] {
                return None;
            }
            i = i + 1;
        }
        proof {
            Self::lemma_live_none(alive@, n as int);
        }
        Some(sigma)
    }

    /// Fills the table in reverse peel order: the slot of each step gets the
    /// key's fingerprint XOR the key's other entries, so that every key's
    /// entries XOR to its fingerprint.
    #[verifier::spinoff_prover]
    #[verifier::rlimit(50)]
    pub(crate) fn assign(&mut self, keys: &Vec<u64>, sigma: &Vec<(usize, usize)>)
        requires
            old(self).config_wf(),
            old(self).peel_order_ok(keys@, sigma@),
        ensures
            final(self).wf(),
            final(self).hashes@ == old(self).hashes@,
            final(self).same_layout(*old(self)),
            forall|i: int| 0 <= i < keys.len() ==> final(self).contains(#[trigger] keys@[i]),
    {
        let size = self.size as usize;
        let mut b: Vec<u32> = vec![0u32; size];
        let mut j: usize = sigma.len();
        proof {
            assert forall|t: int| 0 <= t < sigma.len() implies (#[trigger] sigma@[t]).1 < size by {
                let kt = keys@[sigma@[t].0 as int];
                assert(self.is_slot_of(kt, sigma@[t].1 as int));
                let mm = choose|mm: int| 0 <= mm < self.fanout && #[trigger] self.slot_spec(kt, mm) == sigma@[t].1 as int;
                self.lemma_slot_bounds(kt, mm);
            }
        }
        while j > 0
            invariant
                forall|t: int| 0 <= t < sigma.len() ==> (#[trigger] sigma@[t]).1 < size,
                self.config_wf(),
                self.peel_order_ok(keys@, sigma@),
                self.hashes@ == old(self).hashes@,
                self.same_layout(*old(self)),
                size == self.size,
                b.len() == size,
                j <= sigma.len(),
                forall|t: int|
                    j <= t < sigma.len() ==> self.table_xor(b@, keys@[(#[trigger] sigma@[t]).0 as int])
                        == self.fingerprint_spec(keys@[sigma@[t].0 as int]),
                forall|t: int| 0 <= t < j ==> b@[(#[trigger] sigma@[t]).1 as int] == 0,
            decreases j,
        {
            j = j - 1;
            let x = sigma[j].0;
            let s = sigma[j].1;
            let key = keys[x];
            let ghost prev = b@;
            let ghost m0 = choose|mm: int| 0 <= mm < self.fanout && #[trigger] self.slot_spec(key, mm) == s as int;
            proof {
                assert(self.is_slot_of(key, s as int));
                self.lemma_slot_bounds(key, m0);
            }
            let v = self.fingerprint(key) ^ self.xor_of(&b, key);
            b.set(s, v);
            proof {
                assert forall|t: int|
                    j <= t < sigma.len() implies self.table_xor(b@, keys@[(#[trigger] sigma@[t]).0 as int])
                        == self.fingerprint_spec(keys@[sigma@[t].0 as int]) by {
                    let kt = keys@[sigma@[t].0 as int];
                    if t == j {
                        self.lemma_xor_write(prev, key, m0, v);
                        lemma_xor_cancel(self.table_xor(prev, key), self.fingerprint_spec(key));
                    } else {
                        assert(!self.is_slot_of(kt, sigma@[j as int].1 as int));
                        self.lemma_xor_frame(prev, kt, s as int, v);
                    }
                }
                assert forall|t: int| 0 <= t < j implies b@[(#[trigger] sigma@[t]).1 as int] == 0 by {
                    assert(!self.is_slot_of(key, sigma@[t].1 as int));
                    assert(sigma@[t].1 as int != s as int);
                }
            }
        }
        self.fingerprints = b;
        proof {
            assert forall|i: int| 0 <= i < keys.len() implies self.contains(#[trigger] keys@[i]) by {
                assert(names(sigma@, i));
                let t = choose|t: int| 0 <= t < sigma.len() && (#[trigger] sigma@[t]).0 == i;
                assert(self.table_xor(self.fingerprints@, keys@[sigma@[t].0 as int]) == self.fingerprint_spec(keys@[sigma@[t].0 as int]));
            }
        }
    }

    /// Both tables have the same shape.
    pub(crate) open spec fn same_layout(&self, other: Self) -> bool {
        &&& self.size == other.size
        &&& self.l == other.l
        &&& self.fanout == other.fanout
        &&& self.segmented == other.segmented
        &&& self.segment_length == other.segment_length
        &&& self.num_segments == other.num_segments
        &&& self.fingerprint_bits == other.fingerprint_bits
    }

    /// Builds a table for `keys`: draws hash functions, peels, checks the
    /// peel order and assigns; retries with fresh hash functions up to
    /// `MAX_ATTEMPTS` times.
    pub(crate) fn build(
        keys: &Vec<u64>,
        size: u64,
        fanout: usize,
        segmented: bool,
        segment_length: u64,
        num_segments: u64,
        fingerprint_bits: u32,
    ) -> (r: Option<FuseTable>)
        requires
            layout_ok(size, fanout, segmented, segment_length, num_segments, fingerprint_bits),
            keys.len() <= 1_000_000_000,
        ensures
            keys.len() == 0 ==> r is Some,
            r matches Some(t) ==> {
                &&& t.wf()
                &&& t.size == size
                &&& t.fanout == fanout
                &&& t.segmented == segmented
                &&& t.fingerprint_bits == fingerprint_bits
                &&& t.segment_length == segment_length
                &&& t.num_segments == num_segments
                &&& forall|i: int| 0 <= i < keys.len() ==> t.contains(#[trigger] keys@[i])
            },
    {
        let mut attempt: usize = 0;
        while attempt < MAX_ATTEMPTS
            invariant
                layout_ok(size, fanout, segmented, segment_length, num_segments, fingerprint_bits),
                keys.len() <= 1_000_000_000,
                keys.len() == 0 ==> attempt == 0,
            decreases MAX_ATTEMPTS - attempt,
        {
            let hashes = generate_hash_functions(fanout + 2);
            let r = FuseTable::attempt(keys, hashes, size, fanout, segmented, segment_length, num_segments, fingerprint_bits);
            if r.is_some() {
                return r;
            }
            attempt = attempt + 1;
        }
        None
    }

    /// One construction attempt with the given hash functions: peels, checks
    /// the peel order and assigns. Gives nothing when peeling gets stuck.
    pub(crate) fn attempt(
        keys: &Vec<u64>,
        hashes: Vec<HashFunction>,
        size: u64,
        fanout: usize,
        segmented: bool,
        segment_length: u64,
        num_segments: u64,
        fingerprint_bits: u32,
    ) -> (r: Option<FuseTable>)
        requires
            layout_ok(size, fanout, segmented, segment_length, num_segments, fingerprint_bits),
            keys.len() <= 1_000_000_000,
            hashes.len() == fanout + 2,
        ensures
            keys.len() == 0 ==> r is Some,
            r is Some <==> peelable_in(hashes@, size, fanout, segmented, segment_length, num_segments, keys@),
            r matches Some(t) ==> {
                &&& t.wf()
                &&& t.size == size
                &&& t.fanout == fanout
                &&& t.segmented == segmented
                &&& t.fingerprint_bits == fingerprint_bits
                &&& t.segment_length == segment_length
                &&& t.num_segments == num_segments
                &&& t.hashes@ == hashes@
                &&& forall|i: int| 0 <= i < keys.len() ==> t.contains(#[trigger] keys@[i])
            },
    {
        let l = index_bits(size);
        let mut table = FuseTable {
            fingerprints: Vec::new(),
            hashes,
            size,
            l,
            fanout,
            segmented,
            segment_length,
            num_segments,
            fingerprint_bits,
        };
        proof {
            if keys.len() == 0 {
                assert(table.peel_order_ok(keys@, Seq::<(usize, usize)>::empty()));
            }
            table.lemma_shape(keys@);
        }
        match table.mapping(keys) {
            Some(sigma) => {
                table.assign(keys, &sigma);
                Some(table)
            },
            None => None,
        }
    }
}

} // verus!
