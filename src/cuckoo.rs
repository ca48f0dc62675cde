//! The cuckoo filter: each key's one-byte fingerprint lives in one of two
//! candidate buckets, `i1 = hash(key)` and `i2 = i1 XOR hash(fingerprint)`.
use crate::hashing::{
    closest_power_of_two, is_power_of_two, lemma_hash_bound, lemma_two_to_below_32, lemma_two_to_monotone, lemma_two_to_shift,
    lemma_two_to_strict, random_range, two_to, HashFunction,
};
use vstd::prelude::*;

verus! {

/// What murmur3 (x64, 128-bit, seed 0) gives for a byte string. The crate
/// assembles the 128-bit result in the machine's byte order, so the value
/// may differ between machines of different endianness, but never within
/// one program.
pub uninterp spec fn murmur3_x64_128(data: Seq<u8>) -> u128;

/// The eight bytes of `key`, least significant first.
pub open spec fn le_bytes(key: u64) -> Seq<u8> {
    Seq::new(8, |i: int| ((key >> (8 * i) as u64) & 0xffu64) as u8)
}

/// Relies on fastmurmur3::hash (murmur3 x64 128-bit with seed 0) of the
/// key's little-endian bytes.
#[verifier::external_body]
fn murmur3_of_key(key: u64) -> (r: u128)
    ensures
        r == murmur3_x64_128(le_bytes(key)),
{
    fastmurmur3::hash(&key.to_le_bytes())
}

/// The one-byte fingerprint of `key`: the low byte of its murmur3 hash.
pub open spec fn fingerprint_spec(key: u64) -> u8 {
    murmur3_x64_128(le_bytes(key)) as u8
}

/// The largest `l` with `2^l <= n`.
pub(crate) fn floor_log2(n: u64) -> (r: u32)
    requires
        n >= 1,
    ensures
        r < 64,
        two_to(r as nat) <= n < 2 * two_to(r as nat),
{
    let mut l: u32 = 0;
    let mut p: u64 = 1;
    while p <= n / 2
        invariant
            n >= 1,
            l < 64,
            p == two_to(l as nat),
            1 <= p <= n,
        decreases n - p,
    {
        p = p * 2;
        l = l + 1;
        proof {
            crate::hashing::lemma_two_to_below_64(l as nat);
        }
    }
    l
}

/// A cuckoo filter: `bucket_count` buckets of `bucket_size` one-byte
/// fingerprint slots, stored flat; zero marks an empty slot.
pub struct CuckooFilter {
    pub(crate) buckets: Vec<u8>,
    pub(crate) bucket_count: usize,
    pub(crate) bucket_size: usize,
    pub(crate) max_kicks: usize,
    pub(crate) l: u32,
    pub(crate) hash_coefficients: HashFunction,
    pub(crate) full: bool,
    /// The keys inserted so far.
    pub(crate) inserted: Ghost<Set<u64>>,
}

/// Whether bucket `b` of a flat slot array holds `f`.
pub open spec fn bucket_holds(slots: Seq<u8>, bucket_size: int, b: int, f: u8) -> bool {
    exists|j: int| 0 <= j < bucket_size && #[trigger] slots[b * bucket_size + j] == f
}

/// The first slot of bucket `b` that holds `f`, searched from slot 0.
pub open spec fn first_in_bucket(slots: Seq<u8>, bucket_size: int, b: int, f: u8, j: int) -> bool {
    &&& 0 <= j < bucket_size
    &&& slots[b * bucket_size + j] == f
    &&& forall|t: int| 0 <= t < j ==> #[trigger] slots[b * bucket_size + t] != f
}

proof fn lemma_slot_index(b: int, j: int, bucket_size: int, bucket_count: int)
    requires
        0 <= b < bucket_count,
        0 <= j < bucket_size,
    ensures
        0 <= b * bucket_size + j < bucket_count * bucket_size,
        b * bucket_size <= b * bucket_size + j,
{
    assert(b * bucket_size + j < bucket_count * bucket_size) by (nonlinear_arith)
        requires
            0 <= b < bucket_count,
            0 <= j < bucket_size,
    ;
    assert(0 <= b * bucket_size) by (nonlinear_arith)
        requires
            0 <= b,
            0 <= bucket_size,
    ;
}

proof fn lemma_slot_unique(b: int, j: int, c: int, k: int, bucket_size: int)
    requires
        0 <= b,
        0 <= c,
        0 <= j < bucket_size,
        0 <= k < bucket_size,
        b * bucket_size + j == c * bucket_size + k,
    ensures
        b == c && j == k,
{
    if b < c {
        assert(b * bucket_size + bucket_size <= c * bucket_size) by (nonlinear_arith)
            requires
                b < c,
                bucket_size > 0,
        ;
    }
    if c < b {
        assert(c * bucket_size + bucket_size <= b * bucket_size) by (nonlinear_arith)
            requires
                c < b,
                bucket_size > 0,
        ;
    }
}

/// The first empty (zero) slot of bucket `b` from slot `j` on, or
/// `bucket_size` when there is none.
pub open spec fn first_zero(slots: Seq<u8>, bucket_size: int, b: int, j: int) -> int
    decreases bucket_size - j,
{
    if j < 0 || j >= bucket_size {
        bucket_size
    } else if slots[b * bucket_size + j] == 0 {
        j
    } else {
        first_zero(slots, bucket_size, b, j + 1)
    }
}

proof fn lemma_first_zero_range(slots: Seq<u8>, bucket_size: int, b: int, j: int)
    requires
        0 <= j <= bucket_size,
    ensures
        j <= first_zero(slots, bucket_size, b, j) <= bucket_size,
    decreases bucket_size - j,
{
    if j < bucket_size && slots[b * bucket_size + j] != 0 {
        lemma_first_zero_range(slots, bucket_size, b, j + 1);
    }
}

/// Puts `f` in the first empty (zero) slot of bucket `index`; false when the
/// bucket is full.
fn place_in_bucket(slots: &mut Vec<u8>, bucket_count: usize, bucket_size: usize, index: usize, f: u8) -> (r:
    bool)
    requires
        index < bucket_count,
        old(slots).len() == bucket_count * bucket_size,
    ensures
        final(slots).len() == old(slots).len(),
        r == bucket_holds(old(slots)@, bucket_size as int, index as int, 0u8),
        !r ==> final(slots)@ == old(slots)@,
        r ==> exists|j: int|
            first_in_bucket(old(slots)@, bucket_size as int, index as int, 0u8, j) && final(slots)@
                == old(slots)@.update(index * bucket_size + j, f),
        r == (first_zero(old(slots)@, bucket_size as int, index as int, 0) < bucket_size),
        r ==> final(slots)@ == old(slots)@.update(
            index * bucket_size + first_zero(old(slots)@, bucket_size as int, index as int, 0),
            f,
        ),
{
    let mut j: usize = 0;
    while j < bucket_size
        invariant
            index < bucket_count,
            slots.len() == bucket_count * bucket_size,
            slots@ == old(slots)@,
            j <= bucket_size,
            first_zero(slots@, bucket_size as int, index as int, j as int) == first_zero(
                slots@,
                bucket_size as int,
                index as int,
                0,
            ),
            forall|t: int| 0 <= t < j ==> #[trigger] slots@[index * bucket_size + t] != 0u8,
        decreases bucket_size - j,
    {
        proof {
            lemma_slot_index(index as int, j as int, bucket_size as int, bucket_count as int);
        }
        let at = index * bucket_size + j;
        if slots[at] == 0 {
            slots.set(at, f);
            assert(first_in_bucket(old(slots)@, bucket_size as int, index as int, 0u8, j as int));
            return true;
        }
        j = j + 1;
    }
    false
}

/// A copy of a slot array.
fn copy_slots(v: &Vec<u8>) -> (r: Vec<u8>)
    ensures
        r@ == v@,
{
    let mut r: Vec<u8> = Vec::new();
    let mut i: usize = 0;
    while i < v.len()
        invariant
            i <= v.len(),
            r@ == v@.subrange(0, i as int),
        decreases v.len() - i,
    {
        r.push(v[i]);
        i = i + 1;
        assert(r@ =~= v@.subrange(0, i as int));
    }
    assert(r@ =~= v@);
    r
}

impl CuckooFilter {
    pub closed spec fn wf(&self) -> bool {
        &&& 1 <= self.bucket_count <= u32::MAX
        &&& is_power_of_two(self.bucket_count as nat)
        &&& 1 <= self.bucket_size
        &&& self.buckets.len() == self.bucket_count * self.bucket_size
        &&& self.l < 64
        &&& two_to(self.l as nat) <= self.bucket_count < 2 * two_to(self.l as nat)
    }

    pub closed spec fn slots(&self) -> Seq<u8> {
        self.buckets@
    }

    pub closed spec fn spec_bucket_count(&self) -> nat {
        self.bucket_count as nat
    }

    pub closed spec fn spec_bucket_size(&self) -> nat {
        self.bucket_size as nat
    }

    pub closed spec fn spec_max_kicks(&self) -> nat {
        self.max_kicks as nat
    }

    pub closed spec fn spec_hash_function(&self) -> HashFunction {
        self.hash_coefficients
    }

    pub closed spec fn spec_full(&self) -> bool {
        self.full
    }

    /// Both filters place every key in the same two buckets.
    pub closed spec fn same_hashing(&self, other: Self) -> bool {
        &&& self.bucket_count == other.bucket_count
        &&& self.bucket_size == other.bucket_size
        &&& self.l == other.l
        &&& self.hash_coefficients == other.hash_coefficients
    }

    /// The hash of a key or fingerprint onto bucket-index bits.
    pub closed spec fn spec_hash(&self, x: u64) -> u32 {
        self.hash_coefficients.spec_apply(x, self.l)
    }

    /// Primary bucket of `key`.
    pub open spec fn primary(&self, key: u64) -> int {
        (self.spec_hash(key) % (self.spec_bucket_count() as u32)) as int
    }

    /// `i1 XOR hash(f)`: the other bucket of fingerprint `f` seen from `i1`.
    pub open spec fn spec_hash2(&self, i1: u32, f: u32) -> u32 {
        i1 ^ self.spec_hash(f as u64)
    }

    /// Alternate bucket of `key`.
    pub open spec fn alternate(&self, key: u64) -> int {
        (self.spec_hash2(self.primary(key) as u32, fingerprint_spec(key) as u32) % (
        self.spec_bucket_count() as u32)) as int
    }

    pub open spec fn holds(&self, b: int, f: u8) -> bool {
        bucket_holds(self.slots(), self.spec_bucket_size() as int, b, f)
    }

    /// `key` reads as present: its fingerprint is in one of its two buckets.
    pub open spec fn contains(&self, key: u64) -> bool {
        self.holds(self.primary(key), fingerprint_spec(key)) || self.holds(
            self.alternate(key),
            fingerprint_spec(key),
        )
    }

    /// The bucket count is a power of two, so the alternate bucket computed
    /// from a key's alternate bucket and fingerprint is its primary bucket:
    /// `(i2 XOR hash(f)) mod n == i1`.
    pub proof fn lemma_alternate_inverts(&self, key: u64)
        requires
            self.wf(),
        ensures
            (self.spec_hash2(self.alternate(key) as u32, fingerprint_spec(key) as u32) % (
            self.spec_bucket_count() as u32)) as int == self.primary(key),
    {
        let n = self.bucket_count as nat;
        let l = self.l as nat;
        let e = choose|e: nat| two_to(e) == n;
        if e < l {
            lemma_two_to_strict(e, l);
        }
        if l < e {
            lemma_two_to_monotone(l + 1, e);
        }
        assert(e == l);
        lemma_two_to_below_32(l);
        lemma_two_to_shift(l);
        let f = fingerprint_spec(key);
        let h = self.spec_hash(f as u64);
        let hc = self.hash_coefficients;
        lemma_hash_bound(f as u64, self.l, hc.a1, hc.a2, hc.b);
        let i1 = self.primary(key) as u32;
        let nn = self.bucket_count as u32;
        let lu = self.l;
        assert(nn == (1u32 << lu));
        assert((i1 ^ h) < (1u32 << lu) && ((i1 ^ h) ^ h) == i1) by (bit_vector)
            requires
                i1 < (1u32 << lu),
                h < (1u32 << lu),
                lu < 32,
        ;
        vstd::arithmetic::div_mod::lemma_small_mod((i1 ^ h) as nat, nn as nat);
        vstd::arithmetic::div_mod::lemma_small_mod(i1 as nat, nn as nat);
    }

    /// In slot array `slots`, the fingerprint of `y` is in one of its buckets.
    pub closed spec fn holds_in(&self, slots: Seq<u8>, y: u64) -> bool {
        bucket_holds(slots, self.bucket_size as int, self.primary(y), fingerprint_spec(y)) || bucket_holds(
            slots,
            self.bucket_size as int,
            self.alternate(y),
            fingerprint_spec(y),
        )
    }

    /// During an eviction walk on `slots` with fingerprint `fp` in hand,
    /// headed for bucket `current`: the fingerprint of `y` is in one of its
    /// buckets, or it is the one in hand and heads for one of them.
    pub closed spec fn tracks(&self, slots: Seq<u8>, fp: u8, current: int, y: u64) -> bool {
        self.holds_in(slots, y) || (fp == fingerprint_spec(y) && (current == self.primary(y) || current
            == self.alternate(y)))
    }

    /// Writing a fingerprint into an empty slot keeps every key with a
    /// non-zero fingerprint that was present.
    proof fn lemma_fill_keeps(&self, b: int, j: int, v: u8, y: u64)
        requires
            self.wf(),
            0 <= b < self.bucket_count,
            first_in_bucket(self.buckets@, self.bucket_size as int, b, 0u8, j),
            self.contains(y),
            fingerprint_spec(y) != 0,
        ensures
            self.holds_in(self.buckets@.update(b * self.bucket_size + j, v), y),
    {
        let bs = self.bucket_size as int;
        let fy = fingerprint_spec(y);
        let c = if self.holds(self.primary(y), fy) { self.primary(y) } else { self.alternate(y) };
        let k = choose|k: int| 0 <= k < bs && #[trigger] self.buckets@[c * bs + k] == fy;
        lemma_slot_index(c, k, bs, self.bucket_count as int);
        lemma_slot_index(b, j, bs, self.bucket_count as int);
        assert(c * bs + k != b * bs + j);
        assert(self.buckets@.update(b * bs + j, v)[c * bs + k] == fy);
    }

    /// One eviction step, from slot `slot` of bucket `from` holding `held`,
    /// keeps the fingerprint of `y` tracked.
    proof fn lemma_kick(&self, before: Seq<u8>, from: int, slot: int, held: u8, y: u64)
        requires
            self.wf(),
            before.len() == self.buckets.len(),
            0 <= from < self.bucket_count,
            0 <= slot < self.bucket_size,
            fingerprint_spec(y) != 0,
            self.tracks(before, held, from, y),
        ensures
            ({
                let at = from * self.bucket_size + slot;
                let kicked = before[at];
                self.tracks(
                    before.update(at, held),
                    kicked,
                    (self.spec_hash2(from as u32, kicked as u32) % (self.bucket_count as u32)) as int,
                    y,
                )
            }),
    {
        let bs = self.bucket_size as int;
        let fy = fingerprint_spec(y);
        let at = from * bs + slot;
        let after = before.update(at, held);
        lemma_slot_index(from, slot, bs, self.bucket_count as int);
        self.lemma_alternate_inverts(y);
        if self.holds_in(before, y) {
            let c = if bucket_holds(before, bs, self.primary(y), fy) { self.primary(y) } else { self.alternate(y) };
            let k = choose|k: int| 0 <= k < bs && #[trigger] before[c * bs + k] == fy;
            lemma_slot_index(c, k, bs, self.bucket_count as int);
            if c * bs + k != at {
                assert(after[c * bs + k] == fy);
            } else {
                lemma_slot_unique(c, k, from, slot, bs);
            }
        } else {
            assert(after[from * bs + slot] == fy);
        }
    }

    /// Placing the fingerprint in hand into an empty slot of bucket
    /// `current` leaves the fingerprint of a tracked `y` in one of its
    /// buckets.
    proof fn lemma_place(&self, staged: Seq<u8>, fp: u8, current: int, j: int, y: u64)
        requires
            self.wf(),
            staged.len() == self.buckets.len(),
            0 <= current < self.bucket_count,
            first_in_bucket(staged, self.bucket_size as int, current, 0u8, j),
            fingerprint_spec(y) != 0,
            self.tracks(staged, fp, current, y),
        ensures
            self.holds_in(staged.update(current * self.bucket_size + j, fp), y),
    {
        let bs = self.bucket_size as int;
        let fy = fingerprint_spec(y);
        let after = staged.update(current * bs + j, fp);
        lemma_slot_index(current, j, bs, self.bucket_count as int);
        if self.holds_in(staged, y) {
            let c = if bucket_holds(staged, bs, self.primary(y), fy) { self.primary(y) } else { self.alternate(y) };
            let k = choose|k: int| 0 <= k < bs && #[trigger] staged[c * bs + k] == fy;
            lemma_slot_index(c, k, bs, self.bucket_count as int);
            assert(c * bs + k != current * bs + j);
            assert(after[c * bs + k] == fy);
        } else {
            assert(after[current * bs + j] == fy);
        }
    }

    /// An empty filter of at least `bucket_count` buckets (rounded up to a
    /// power of two, so that the alternate bucket of the alternate bucket is
    /// the primary one) of `bucket_size` slots, giving up an insertion after
    /// `max_kicks` evictions.
    pub fn new(bucket_count: usize, max_kicks: usize, bucket_size: usize) -> (r: CuckooFilter)
        requires
            1 <= bucket_count <= 0x8000_0000,
            1 <= bucket_size,
            2 * bucket_count * bucket_size <= usize::MAX,
        ensures
            r.wf(),
            is_power_of_two(r.spec_bucket_count()),
            bucket_count <= r.spec_bucket_count() < 2 * bucket_count,
            r.spec_bucket_size() == bucket_size,
            r.spec_max_kicks() == max_kicks,
            r.slots() == Seq::new((r.spec_bucket_count() * bucket_size) as nat, |i: int| 0u8),
            !r.spec_full(),
            r.consistent(),
            r.inserted() == Set::<u64>::empty(),
    {
        CuckooFilter::with_hash_function(bucket_count, max_kicks, bucket_size, CuckooFilter::get_hash_coefficients())
    }

    /// As `new`, with the given hash coefficients.
    pub fn with_hash_function(
        bucket_count: usize,
        max_kicks: usize,
        bucket_size: usize,
        hash_coefficients: HashFunction,
    ) -> (r: CuckooFilter)
        requires
            1 <= bucket_count <= 0x8000_0000,
            1 <= bucket_size,
            2 * bucket_count * bucket_size <= usize::MAX,
        ensures
            r.wf(),
            is_power_of_two(r.spec_bucket_count()),
            bucket_count <= r.spec_bucket_count() < 2 * bucket_count,
            r.spec_bucket_size() == bucket_size,
            r.spec_max_kicks() == max_kicks,
            r.slots() == Seq::new((r.spec_bucket_count() * bucket_size) as nat, |i: int| 0u8),
            !r.spec_full(),
            r.spec_hash_function() == hash_coefficients,
            r.consistent(),
            r.inserted() == Set::<u64>::empty(),
    {
        let count = closest_power_of_two(bucket_count as u64) as usize;
        assert(count * bucket_size <= 2 * bucket_count * bucket_size) by (nonlinear_arith)
            requires
                count <= 2 * bucket_count,
                bucket_size >= 1,
        ;
        let buckets = vec![0u8; count * bucket_size];
        let l = floor_log2(count as u64);
        let r = CuckooFilter {
            buckets,
            bucket_count: count,
            bucket_size,
            max_kicks,
            l,
            hash_coefficients,
            full: false,
            inserted: Ghost(Set::empty()),
        };
        assert(r.slots() =~= Seq::new((r.spec_bucket_count() * bucket_size) as nat, |i: int| 0u8));
        r
    }

    fn get_hash_coefficients() -> (r: HashFunction)
        ensures
            r.valid(),
    {
        HashFunction::random()
    }

    /// The one-byte fingerprint of `key`.
    pub fn fingerprint(key: u64) -> (r: u8)
        ensures
            r == fingerprint_spec(key),
    {
        murmur3_of_key(key) as u8
    }

    /// `i_1 XOR hash(f)`.
    pub fn hash2(&self, i_1: u32, f: u32) -> (r: u32)
        requires
            self.wf(),
        ensures
            r == self.spec_hash2(i_1, f),
    {
        i_1 ^ self.hash_coefficients.apply(f as u64, self.l)
    }

    /// Primary and alternate buckets of `key`, with its fingerprint.
    fn candidates(&self, key: u64) -> (r: (u8, usize, usize))
        requires
            self.wf(),
        ensures
            r.0 == fingerprint_spec(key),
            r.1 == self.primary(key),
            r.2 == self.alternate(key),
            r.1 < self.bucket_count,
            r.2 < self.bucket_count,
    {
        let f = CuckooFilter::fingerprint(key);
        let i_1 = self.hash_coefficients.apply(key, self.l) % (self.bucket_count as u32);
        let i_2 = self.hash2(i_1, f as u32) % (self.bucket_count as u32);
        (f, i_1 as usize, i_2 as usize)
    }

    /// Puts `f` in the first empty slot of bucket `index`.
    pub(crate) fn find_empty_and_set(&mut self, index: usize, f: u8) -> (r: bool)
        requires
            old(self).wf(),
            index < old(self).spec_bucket_count(),
        ensures
            final(self).wf(),
            final(self).spec_bucket_count() == old(self).spec_bucket_count(),
            final(self).spec_bucket_size() == old(self).spec_bucket_size(),
            final(self).same_hashing(*old(self)),
            final(self).spec_max_kicks() == old(self).spec_max_kicks(),
            final(self).spec_full() == old(self).spec_full(),
            final(self).inserted() == old(self).inserted(),
            r == old(self).holds(index as int, 0u8),
            !r ==> final(self).slots() == old(self).slots(),
            r ==> exists|j: int|
                first_in_bucket(old(self).slots(), old(self).spec_bucket_size() as int, index as int, 0u8, j)
                    && final(self).slots() == old(self).slots().update(
                    index * old(self).spec_bucket_size() + j,
                    f,
                ),
            r == (first_zero(old(self).slots(), old(self).spec_bucket_size() as int, index as int, 0)
                < old(self).spec_bucket_size()),
            r ==> final(self).slots() == old(self).slots().update(
                index * old(self).spec_bucket_size() + first_zero(
                    old(self).slots(),
                    old(self).spec_bucket_size() as int,
                    index as int,
                    0,
                ),
                f,
            ),
    {
        let r = place_in_bucket(&mut self.buckets, self.bucket_count, self.bucket_size, index, f);
        proof {
            if r {
                let j = choose|j: int|
                    first_in_bucket(old(self).buckets@, self.bucket_size as int, index as int, 0u8, j)
                        && self.buckets@ == old(self).buckets@.update(index * self.bucket_size + j, f);
                assert(first_in_bucket(old(self).slots(), old(self).spec_bucket_size() as int, index as int, 0u8, j));
            }
        }
        r
    }

    /// The eviction walk on slot array `slots` with fingerprint `fp` in hand,
    /// headed for bucket `current`, taking its slot choices from `choices`
    /// (from entry `i` on): the fingerprint in hand replaces the chosen slot
    /// of the current bucket, the evicted fingerprint heads for
    /// `(current XOR hash(evicted)) mod bucket_count` and goes to that
    /// bucket's first empty slot if it has one; else the walk goes on. The
    /// result is the final slots, or nothing when the choices run out.
    pub closed spec fn walk(&self, slots: Seq<u8>, fp: u8, current: int, choices: Seq<u64>, i: int) -> Option<Seq<u8>>
        decreases choices.len() - i,
    {
        if i < 0 || i >= choices.len() {
            None
        } else {
            let bs = self.bucket_size as int;
            let at = current * bs + (choices[i] % (self.bucket_size as u64)) as int;
            let kicked = slots[at];
            let moved = slots.update(at, fp);
            let next = (self.spec_hash2(current as u32, kicked as u32) % (self.bucket_count as u32)) as int;
            let j = first_zero(moved, bs, next, 0);
            if j < bs {
                Some(moved.update(next * bs + j, kicked))
            } else {
                self.walk(moved, kicked, next, choices, i + 1)
            }
        }
    }

    /// The keys inserted so far.
    pub closed spec fn inserted(&self) -> Set<u64> {
        self.inserted@
    }

    /// Flat slot `idx` lies in bucket `b`.
    pub open spec fn in_bucket(&self, idx: int, b: int) -> bool {
        b * self.spec_bucket_size() <= idx < b * self.spec_bucket_size() + self.spec_bucket_size()
    }

    /// Slot `idx` of `slots` is empty, or holds the fingerprint of a key of
    /// `keys` in one of that key's two buckets.
    pub open spec fn placed_for(&self, slots: Seq<u8>, keys: Set<u64>, idx: int) -> bool {
        slots[idx] != 0 ==> exists|y: u64|
            #[trigger] keys.contains(y) && fingerprint_spec(y) == slots[idx] && (self.in_bucket(idx, self.primary(y))
                || self.in_bucket(idx, self.alternate(y)))
    }

    /// Every stored fingerprint belongs to a key of `keys` and sits in one of
    /// its buckets.
    pub open spec fn accounted(&self, slots: Seq<u8>, keys: Set<u64>) -> bool {
        forall|idx: int| 0 <= idx < slots.len() ==> #[trigger] self.placed_for(slots, keys, idx)
    }

    /// The filter's slots are accounted for by the keys inserted so far.
    pub open spec fn consistent(&self) -> bool {
        self.accounted(self.slots(), self.inserted())
    }

    /// The fingerprint in hand during a walk belongs to a key of `keys`
    /// whose buckets include `current`.
    pub open spec fn held_for(&self, held: u8, current: int, keys: Set<u64>) -> bool {
        held != 0 ==> exists|y: u64|
            #[trigger] keys.contains(y) && fingerprint_spec(y) == held && (current == self.primary(y) || current
                == self.alternate(y))
    }

    proof fn lemma_bucket_unique(&self, idx: int, b: int, c: int)
        requires
            self.wf(),
            self.in_bucket(idx, b),
            self.in_bucket(idx, c),
        ensures
            b == c,
    {
        let bs = self.bucket_size as int;
        if b < c {
            assert(b * bs + bs <= c * bs) by (nonlinear_arith)
                requires
                    b < c,
                    bs > 0,
            ;
        }
        if c < b {
            assert(c * bs + bs <= b * bs) by (nonlinear_arith)
                requires
                    c < b,
                    bs > 0,
            ;
        }
    }

    /// Writing `v`, owned by a key of `keys` whose buckets include `b`, into
    /// a slot of bucket `b` keeps the slots accounted for; so does writing 0.
    proof fn lemma_write_accounted(&self, slots: Seq<u8>, keys: Set<u64>, b: int, j: int, v: u8)
        requires
            self.wf(),
            self.accounted(slots, keys),
            0 <= b < self.bucket_count,
            0 <= j < self.bucket_size,
            slots.len() == self.buckets.len(),
            self.held_for(v, b, keys),
        ensures
            self.accounted(slots.update(b * self.bucket_size + j, v), keys),
    {
        let bs = self.bucket_size as int;
        let at = b * bs + j;
        lemma_slot_index(b, j, bs, self.bucket_count as int);
        let t = slots.update(at, v);
        assert forall|idx: int| 0 <= idx < t.len() implies #[trigger] self.placed_for(t, keys, idx) by {
            if idx == at {
                if v != 0 {
                    let y = choose|y: u64|
                        #[trigger] keys.contains(y) && fingerprint_spec(y) == v && (b == self.primary(y) || b
                            == self.alternate(y));
                    assert(self.in_bucket(at, b));
                }
            } else {
                assert(self.placed_for(slots, keys, idx));
            }
        }
    }

    /// Accounting depends only on how keys are placed.
    proof fn lemma_accounted_same(&self, other: CuckooFilter, slots: Seq<u8>, keys: Set<u64>)
        requires
            self.same_hashing(other),
        ensures
            self.accounted(slots, keys) == other.accounted(slots, keys),
            forall|h: u8, c: int| #[trigger] self.held_for(h, c, keys) == other.held_for(h, c, keys),
    {
        assert forall|idx: int| #[trigger] self.placed_for(slots, keys, idx) == other.placed_for(slots, keys, idx) by {}
        if self.accounted(slots, keys) {
            assert forall|idx: int| 0 <= idx < slots.len() implies #[trigger] other.placed_for(slots, keys, idx) by {
                assert(self.placed_for(slots, keys, idx));
            }
        }
        if other.accounted(slots, keys) {
            assert forall|idx: int| 0 <= idx < slots.len() implies #[trigger] self.placed_for(slots, keys, idx) by {
                assert(other.placed_for(slots, keys, idx));
            }
        }
    }

    /// More keys account for at least as much.
    proof fn lemma_accounted_grows(&self, slots: Seq<u8>, keys: Set<u64>, x: u64)
        requires
            self.accounted(slots, keys),
        ensures
            self.accounted(slots, keys.insert(x)),
    {
        assert forall|idx: int| 0 <= idx < slots.len() implies #[trigger] self.placed_for(slots, keys.insert(x), idx) by {
            assert(self.placed_for(slots, keys, idx));
            if slots[idx] != 0 {
                let y = choose|y: u64|
                    #[trigger] keys.contains(y) && fingerprint_spec(y) == slots[idx] && (self.in_bucket(idx, self.primary(y))
                        || self.in_bucket(idx, self.alternate(y)));
                assert(keys.insert(x).contains(y));
            }
        }
    }

    /// The walk depends only on how keys are placed.
    proof fn lemma_walk_same(&self, other: CuckooFilter, slots: Seq<u8>, fp: u8, current: int, choices: Seq<u64>, i: int)
        requires
            self.same_hashing(other),
        ensures
            self.walk(slots, fp, current, choices, i) == other.walk(slots, fp, current, choices, i),
        decreases choices.len() - i,
    {
        if 0 <= i < choices.len() {
            let bs = self.bucket_size as int;
            let at = current * bs + (choices[i] % (self.bucket_size as u64)) as int;
            let kicked = slots[at];
            let next = (self.spec_hash2(current as u32, kicked as u32) % (self.bucket_count as u32)) as int;
            self.lemma_walk_same(other, slots.update(at, fp), kicked, next, choices, i + 1);
        }
    }

    /// Runs the eviction walk (see `walk`) on a copy of `slots`, starting at
    /// bucket `start` with `fp` in hand. A key whose fingerprint is tracked
    /// at the start is in one of its buckets in the result.
    pub fn evict(&self, slots: &Vec<u8>, fp: u8, start: usize, choices: &Vec<u64>) -> (r: Option<Vec<u8>>)
        requires
            self.wf(),
            slots.len() == self.slots().len(),
            start < self.spec_bucket_count(),
        ensures
            r is None <==> self.walk(slots@, fp, start as int, choices@, 0) is None,
            r matches Some(v) ==> self.walk(slots@, fp, start as int, choices@, 0) == Some(v@),
            r matches Some(v) ==> v.len() == slots.len(),
            self.accounted(slots@, self.inserted()) && self.held_for(fp, start as int, self.inserted()) ==> (r matches Some(
                v,
            ) ==> self.accounted(v@, self.inserted())),
            r matches Some(v) ==> forall|y: u64|
                fingerprint_spec(y) != 0 && #[trigger] self.tracks(slots@, fp, start as int, y) ==> self.holds_in(
                    v@,
                    y,
                ),
    {
        let mut scratch = copy_slots(slots);
        let mut current = start;
        let mut held = fp;
        let mut i: usize = 0;
        let ghost keys = self.inserted();
        let ghost pre_ok = self.accounted(slots@, keys) && self.held_for(fp, start as int, keys);
        while i < choices.len()
            invariant
                self.wf(),
                keys == self.inserted(),
                pre_ok == (self.accounted(slots@, keys) && self.held_for(fp, start as int, keys)),
                pre_ok ==> self.accounted(scratch@, keys) && self.held_for(held, current as int, keys),
                scratch.len() == self.buckets.len(),
                scratch.len() == slots.len(),
                current < self.bucket_count,
                i <= choices.len(),
                self.walk(scratch@, held, current as int, choices@, i as int) == self.walk(
                    slots@,
                    fp,
                    start as int,
                    choices@,
                    0,
                ),
                forall|y: u64|
                    fingerprint_spec(y) != 0 && #[trigger] self.tracks(slots@, fp, start as int, y) ==> self.tracks(
                        scratch@,
                        held,
                        current as int,
                        y,
                    ),
            decreases choices.len() - i,
        {
            let slot = (choices[i] % (self.bucket_size as u64)) as usize;
            proof {
                lemma_slot_index(current as int, slot as int, self.bucket_size as int, self.bucket_count as int);
            }
            let at = current * self.bucket_size + slot;
            let ghost before = scratch@;
            let ghost was_held = held;
            let ghost from = current;
            let kicked = scratch[at];
            scratch.set(at, held);
            held = kicked;
            current = (self.hash2(current as u32, held as u32) % (self.bucket_count as u32)) as usize;
            proof {
                assert forall|y: u64|
                    fingerprint_spec(y) != 0 && #[trigger] self.tracks(slots@, fp, start as int, y) implies self.tracks(
                        scratch@,
                        held,
                        current as int,
                        y,
                    ) by {
                    self.lemma_kick(before, from as int, slot as int, was_held, y);
                }
                if pre_ok {
                    self.lemma_write_accounted(before, keys, from as int, slot as int, was_held);
                    if kicked != 0 {
                        assert(self.placed_for(before, keys, at as int));
                        let y = choose|y: u64|
                            #[trigger] keys.contains(y) && fingerprint_spec(y) == kicked && (self.in_bucket(
                                at as int,
                                self.primary(y),
                            ) || self.in_bucket(at as int, self.alternate(y)));
                        assert(self.in_bucket(at as int, from as int)) by {
                            lemma_slot_index(from as int, slot as int, self.bucket_size as int, self.bucket_count as int);
                            assert(from * self.bucket_size + self.bucket_size == (from + 1) * self.bucket_size) by (nonlinear_arith);
                        }
                        self.lemma_alternate_inverts(y);
                        if self.in_bucket(at as int, self.primary(y)) {
                            self.lemma_bucket_unique(at as int, self.primary(y), from as int);
                        } else {
                            self.lemma_bucket_unique(at as int, self.alternate(y), from as int);
                        }
                        assert(keys.contains(y) && fingerprint_spec(y) == held && (current == self.primary(y) || current
                            == self.alternate(y)));
                    }
                }
            }
            let ghost staged = scratch@;
            if place_in_bucket(&mut scratch, self.bucket_count, self.bucket_size, current, held) {
                proof {
                    let bs = self.bucket_size as int;
                    let j = first_zero(staged, bs, current as int, 0);
                    let jj = choose|jj: int|
                        first_in_bucket(staged, bs, current as int, 0u8, jj) && scratch@ == staged.update(
                            current * bs + jj,
                            held,
                        );
                    assert forall|y: u64|
                        fingerprint_spec(y) != 0 && #[trigger] self.tracks(slots@, fp, start as int, y) implies self.holds_in(
                            scratch@,
                            y,
                        ) by {
                        self.lemma_place(staged, held, current as int, jj, y);
                    }
                    if pre_ok {
                        assert(self.held_for(held, current as int, keys));
                        self.lemma_write_accounted(staged, keys, current as int, jj, held);
                        assert(scratch@ == staged.update(current * bs + jj, held));
                        assert(self.accounted(scratch@, keys));
                    }
                }
                return Some(scratch);
            }
            i = i + 1;
        }
        None
    }

    /// Stores the fingerprint of `key`: in the first empty slot of its primary
    /// bucket, else of its alternate bucket, else by evicting fingerprints
    /// along a random walk of at most `max_kicks` steps. The walk runs on a
    /// copy that replaces the slots only when it ends in an empty slot; when
    /// it does not, the filter is marked full, left as it was, and the result
    /// is false.
    #[verifier::spinoff_prover]
    #[verifier::rlimit(50)]
    pub fn insert(&mut self, key: u64) -> (r: bool)
        requires
            old(self).wf(),
        ensures
            final(self).wf(),
            final(self).spec_bucket_count() == old(self).spec_bucket_count(),
            final(self).spec_bucket_size() == old(self).spec_bucket_size(),
            final(self).spec_max_kicks() == old(self).spec_max_kicks(),
            final(self).spec_hash_function() == old(self).spec_hash_function(),
            final(self).same_hashing(*old(self)),
            old(self).holds(old(self).primary(key), 0u8) || old(self).holds(old(self).alternate(key), 0u8)
                ==> r && final(self).contains(key),
            !r ==> final(self).slots() == old(self).slots(),
            !r ==> forall|y: u64| #[trigger] final(self).contains(y) == old(self).contains(y),
            final(self).spec_full() == (old(self).spec_full() || !r),
            final(self).inserted() == if r {
                old(self).inserted().insert(key)
            } else {
                old(self).inserted()
            },
            old(self).consistent() ==> final(self).consistent(),
            old(self).holds(old(self).primary(key), 0u8) ==> final(self).slots() == old(self).slots().update(
                old(self).primary(key) * old(self).spec_bucket_size() + first_zero(
                    old(self).slots(),
                    old(self).spec_bucket_size() as int,
                    old(self).primary(key),
                    0,
                ),
                fingerprint_spec(key),
            ),
            !old(self).holds(old(self).primary(key), 0u8) && old(self).holds(old(self).alternate(key), 0u8)
                ==> final(self).slots() == old(self).slots().update(
                old(self).alternate(key) * old(self).spec_bucket_size() + first_zero(
                    old(self).slots(),
                    old(self).spec_bucket_size() as int,
                    old(self).alternate(key),
                    0,
                ),
                fingerprint_spec(key),
            ),
            r && !old(self).holds(old(self).primary(key), 0u8) && !old(self).holds(old(self).alternate(key), 0u8)
                ==> exists|start: int, choices: Seq<u64>|
                (start == old(self).primary(key) || start == old(self).alternate(key)) && #[trigger] old(self).walk(
                    old(self).slots(),
                    fingerprint_spec(key),
                    start,
                    choices,
                    0,
                ) == Some(final(self).slots()),
            r && fingerprint_spec(key) != 0 ==> final(self).contains(key),
            forall|y: u64| #[trigger] old(self).contains(y) && fingerprint_spec(y) != 0 ==> final(self).contains(y),
    {
        let (f, i_1, i_2) = self.candidates(key);
        let ghost keys = old(self).inserted@.insert(key);
        if self.find_empty_and_set(i_1, f) {
            self.inserted = Ghost(keys);
            proof {
                if old(self).consistent() {
                    let j = first_zero(old(self).slots(), old(self).spec_bucket_size() as int, i_1 as int, 0);
                    lemma_first_zero_range(old(self).slots(), old(self).spec_bucket_size() as int, i_1 as int, 0);
                    assert(j < self.bucket_size);
                    self.lemma_accounted_same(*old(self), old(self).slots(), old(self).inserted());
                    self.lemma_accounted_grows(old(self).slots(), old(self).inserted(), key);
                    assert(keys.contains(key));
                    assert(self.held_for(f, i_1 as int, keys));
                    self.lemma_write_accounted(old(self).slots(), keys, i_1 as int, j, f);
                }
                let j = choose|j: int|
                    first_in_bucket(old(self).slots(), old(self).spec_bucket_size() as int, i_1 as int, 0u8, j)
                        && self.slots() == old(self).slots().update(i_1 * self.bucket_size + j, f);
                lemma_slot_index(i_1 as int, j, self.bucket_size as int, self.bucket_count as int);
                assert(self.buckets@[i_1 * self.bucket_size + j] == f);
                assert(first_in_bucket(old(self).slots(), old(self).spec_bucket_size() as int, i_1 as int, 0u8, j));
                assert forall|y: u64| #[trigger] old(self).contains(y) && fingerprint_spec(y) != 0 implies self.contains(y) by {
                    old(self).lemma_fill_keeps(i_1 as int, j, f, y);
                }
            }
            return true;
        }
        if self.find_empty_and_set(i_2, f) {
            self.inserted = Ghost(keys);
            proof {
                if old(self).consistent() {
                    let j = first_zero(old(self).slots(), old(self).spec_bucket_size() as int, i_2 as int, 0);
                    lemma_first_zero_range(old(self).slots(), old(self).spec_bucket_size() as int, i_2 as int, 0);
                    assert(j < self.bucket_size);
                    self.lemma_accounted_same(*old(self), old(self).slots(), old(self).inserted());
                    self.lemma_accounted_grows(old(self).slots(), old(self).inserted(), key);
                    assert(keys.contains(key));
                    assert(self.held_for(f, i_2 as int, keys));
                    self.lemma_write_accounted(old(self).slots(), keys, i_2 as int, j, f);
                }
                let j = choose|j: int|
                    first_in_bucket(old(self).slots(), old(self).spec_bucket_size() as int, i_2 as int, 0u8, j)
                        && self.slots() == old(self).slots().update(i_2 * self.bucket_size + j, f);
                lemma_slot_index(i_2 as int, j, self.bucket_size as int, self.bucket_count as int);
                assert(self.buckets@[i_2 * self.bucket_size + j] == f);
                assert forall|y: u64| #[trigger] old(self).contains(y) && fingerprint_spec(y) != 0 implies self.contains(y) by {
                    old(self).lemma_fill_keeps(i_2 as int, j, f, y);
                }
            }
            return true;
        }
        let start: usize = if random_range(0, 1) == 0 {
            i_1
        } else {
            i_2
        };
        let mut choices: Vec<u64> = Vec::new();
        let mut k: usize = 0;
        while k < self.max_kicks
            invariant
                self.wf(),
                k <= self.max_kicks,
                choices.len() == k,
            decreases self.max_kicks - k,
        {
            choices.push(random_range(0, (self.bucket_size - 1) as u64));
            k = k + 1;
        }
        proof {
            assert forall|y: u64| old(self).contains(y) && fingerprint_spec(y) != 0 implies #[trigger] self.tracks(
                self.buckets@,
                f,
                start as int,
                y,
            ) by {}
            if f != 0 {
                assert(self.tracks(self.buckets@, f, start as int, key));
            }
        }
        self.inserted = Ghost(keys);
        proof {
            if old(self).consistent() {
                self.lemma_accounted_same(*old(self), old(self).slots(), old(self).inserted());
                self.lemma_accounted_grows(old(self).slots(), old(self).inserted(), key);
                assert(keys.contains(key));
                assert(self.held_for(f, start as int, keys));
            }
        }
        let ghost pre = self.buckets@;
        let ghost me = *self;
        match self.evict(&self.buckets, f, start, &choices) {
            Some(v) => {
                let ghost placed = v@;
                self.buckets = v;
                proof {
                    assert(me.walk(pre, f, start as int, choices@, 0) == Some(placed));
                    if old(self).consistent() {
                        assert(me.accounted(pre, keys) && me.held_for(f, start as int, keys));
                        assert(me.accounted(placed, keys));
                        self.lemma_accounted_same(me, placed, keys);
                    }
                    me.lemma_walk_same(*old(self), pre, f, start as int, choices@, 0);
                    assert(old(self).walk(old(self).slots(), f, start as int, choices@, 0) == Some(self.slots()));
                    assert forall|y: u64| #[trigger] old(self).contains(y) && fingerprint_spec(y) != 0 implies self.contains(
                        y,
                    ) by {
                        assert(me.tracks(pre, f, start as int, y));
                        assert(me.holds_in(placed, y));
                    }
                    if f != 0 {
                        assert(me.tracks(pre, f, start as int, key));
                        assert(me.holds_in(placed, key));
                    }
                }
                return true;
            },
            None => {
                self.inserted = Ghost(old(self).inserted@);
            },
        }
        self.full = true;
        proof {
            self.lemma_accounted_same(*old(self), old(self).slots(), old(self).inserted());
            assert(self.slots() == old(self).slots());
            assert(self.inserted() == old(self).inserted());
        }
        false
    }

    pub fn is_full(&self) -> (r: bool)
        ensures
            r == self.spec_full(),
    {
        self.full
    }

    /// Whether the fingerprint of `key` is in one of its two buckets.
    #[verifier::spinoff_prover]
    #[verifier::rlimit(50)]
    pub fn member(&self, key: u64) -> (r: bool)
        requires
            self.wf(),
        ensures
            r == self.contains(key),
    {
        let (f, i_1, i_2) = self.candidates(key);
        let mut j: usize = 0;
        while j < self.bucket_size
            invariant
                self.wf(),
                i_1 == self.primary(key),
                i_2 == self.alternate(key),
                i_1 < self.bucket_count,
                i_2 < self.bucket_count,
                f == fingerprint_spec(key),
                j <= self.bucket_size,
                forall|t: int|
                    0 <= t < j ==> #[trigger] self.buckets@[i_1 * self.bucket_size + t] != f
                        && self.buckets@[i_2 * self.bucket_size + t] != f,
            decreases self.bucket_size - j,
        {
            proof {
                lemma_slot_index(i_1 as int, j as int, self.bucket_size as int, self.bucket_count as int);
                lemma_slot_index(i_2 as int, j as int, self.bucket_size as int, self.bucket_count as int);
            }
            let a = self.buckets[i_1 * self.bucket_size + j];
            let c = self.buckets[i_2 * self.bucket_size + j];
            if a == f || c == f {
                return true;
            }
            assert forall|t: int| 0 <= t < j + 1 implies #[trigger] self.buckets@[i_1 * self.bucket_size + t] != f
                && self.buckets@[i_2 * self.bucket_size + t] != f by {
                if t == j {
                    assert(self.buckets@[i_1 * self.bucket_size + j] == a);
                    assert(self.buckets@[i_2 * self.bucket_size + j] == c);
                }
            }
            j = j + 1;
        }
        proof {
            assert(!self.holds(i_1 as int, f));
            assert(!self.holds(i_2 as int, f)) by {
                if self.holds(i_2 as int, f) {
                    let t = choose|t: int|
                        0 <= t < self.bucket_size && #[trigger] self.buckets@[i_2 * self.bucket_size + t]
                            == f;
                    assert(self.buckets@[i_1 * self.bucket_size + t] != f);
                }
            }
        }
        false
    }

    /// Index of the first slot of bucket `b` holding `f`, if any.
    fn find_in_bucket(&self, b: usize, f: u8) -> (r: Option<usize>)
        requires
            self.wf(),
            b < self.bucket_count,
        ensures
            r is None ==> !self.holds(b as int, f),
            r matches Some(j) ==> first_in_bucket(self.buckets@, self.bucket_size as int, b as int, f, j as int),
    {
        let mut j: usize = 0;
        while j < self.bucket_size
            invariant
                self.wf(),
                b < self.bucket_count,
                j <= self.bucket_size,
                forall|t: int| 0 <= t < j ==> #[trigger] self.buckets@[b * self.bucket_size + t] != f,
            decreases self.bucket_size - j,
        {
            proof {
                lemma_slot_index(b as int, j as int, self.bucket_size as int, self.bucket_count as int);
            }
            if self.buckets[b * self.bucket_size + j] == f {
                return Some(j);
            }
            j = j + 1;
        }
        None
    }

    /// Clears the first slot holding the fingerprint of `key`, searching its
    /// primary bucket and then its alternate one; false when neither holds it.
    pub fn delete(&mut self, key: u64) -> (r: bool)
        requires
            old(self).wf(),
        ensures
            final(self).wf(),
            final(self).spec_bucket_count() == old(self).spec_bucket_count(),
            final(self).spec_bucket_size() == old(self).spec_bucket_size(),
            r == old(self).contains(key),
            !r ==> final(self).slots() == old(self).slots(),
            final(self).inserted() == old(self).inserted(),
            old(self).consistent() ==> final(self).consistent(),
            r && old(self).holds(old(self).primary(key), fingerprint_spec(key)) ==> exists|j: int|
                first_in_bucket(
                    old(self).slots(),
                    old(self).spec_bucket_size() as int,
                    old(self).primary(key),
                    fingerprint_spec(key),
                    j,
                ) && final(self).slots() == old(self).slots().update(
                    old(self).primary(key) * old(self).spec_bucket_size() + j,
                    0u8,
                ),
            r && !old(self).holds(old(self).primary(key), fingerprint_spec(key)) ==> exists|j: int|
                first_in_bucket(
                    old(self).slots(),
                    old(self).spec_bucket_size() as int,
                    old(self).alternate(key),
                    fingerprint_spec(key),
                    j,
                ) && final(self).slots() == old(self).slots().update(
                    old(self).alternate(key) * old(self).spec_bucket_size() + j,
                    0u8,
                ),
    {
        let (f, i_1, i_2) = self.candidates(key);
        match self.find_in_bucket(i_1, f) {
            Some(j) => {
                proof {
                    lemma_slot_index(i_1 as int, j as int, self.bucket_size as int, self.bucket_count as int);
                }
                self.buckets.set(i_1 * self.bucket_size + j, 0);
                proof {
                    if old(self).consistent() {
                        self.lemma_accounted_same(*old(self), old(self).slots(), old(self).inserted());
                        self.lemma_write_accounted(old(self).slots(), self.inserted(), i_1 as int, j as int, 0u8);
                    }
                }
                assert(first_in_bucket(old(self).slots(), old(self).spec_bucket_size() as int, old(self).primary(key), f, j as int));
                true
            },
            None => match self.find_in_bucket(i_2, f) {
                Some(j) => {
                    proof {
                        lemma_slot_index(i_2 as int, j as int, self.bucket_size as int, self.bucket_count as int);
                    }
                    self.buckets.set(i_2 * self.bucket_size + j, 0);
                    proof {
                        if old(self).consistent() {
                            self.lemma_accounted_same(*old(self), old(self).slots(), old(self).inserted());
                            self.lemma_write_accounted(old(self).slots(), self.inserted(), i_2 as int, j as int, 0u8);
                        }
                    }
                    assert(first_in_bucket(old(self).slots(), old(self).spec_bucket_size() as int, old(self).alternate(key), f, j as int));
                    true
                },
                None => false,
            },
        }
    }
}

} // verus!
