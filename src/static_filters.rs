//! The static filters over the shared fingerprint-table engine: the XOR
//! filter (three slots, one per third of the table) and the binary fuse
//! filters (three or four slots in consecutive segments).
use crate::fuse::{layout_ok, FuseTable};
use crate::fuse::peelable_in;
use crate::hashing::{is_power_of_two, two_to, HashFunction};
use vstd::prelude::*;

verus! {

/// The most keys a static filter takes: its table is indexed by 32 bits.
pub const MAX_KEYS: usize = 1_000_000_000;

/// The largest segment length.
pub const MAX_SEGMENT_LENGTH: u64 = 0x100_0000;

/// The largest `l` with `2^l <= n` (zero for `n < 2`).
pub open spec fn lg_spec(n: nat) -> nat
    decreases n,
{
    if n < 2 {
        0
    } else {
        1 + lg_spec(n / 2)
    }
}

/// The segment length search from length `len` with `pw` thousandths of
/// `(base / 100)^e`: doubles the length while the next power stays within
/// `target` and the length stays within `MAX_SEGMENT_LENGTH`.
pub open spec fn segment_length_spec(target: int, base: int, len: int, pw: int) -> int
    decreases MAX_SEGMENT_LENGTH + 1 - len,
{
    if len <= 0 || len > MAX_SEGMENT_LENGTH / 2 || pw * base / 100 > target {
        len
    } else {
        segment_length_spec(target, base, len * 2, pw * base / 100)
    }
}

/// The table size for `n` keys: `n` times `base + slope / log2(n)`
/// thousandths (log at least 1), kept within `[floor, 2000]`, plus 32.
pub open spec fn capacity_spec(n: int, floor: int, base: int, slope: int) -> int {
    let lg = if lg_spec(n as nat) == 0 {
        1
    } else {
        lg_spec(n as nat) as int
    };
    let milli0 = base + slope / lg;
    let milli1 = if milli0 < floor {
        floor
    } else {
        milli0
    };
    let milli = if milli1 > 2000 {
        2000
    } else {
        milli1
    };
    n * milli / 1000 + 32
}

/// Size, segment length and segment count of a segmented table: enough
/// segments to cover `size`, and at least `fanout`.
pub open spec fn segmented_layout_spec(size: int, segment_length: int, fanout: int) -> (int, int, int) {
    let covering = (size + segment_length - 1) / segment_length;
    let num = if covering < fanout {
        fanout
    } else {
        covering
    };
    (num * segment_length, segment_length, num)
}

/// The largest power of two `2^e` (at most `MAX_SEGMENT_LENGTH`) with
/// `(base / 100)^e <= target / 1000`, computed in thousandths.
fn segment_length_for(target: u128, base: u128) -> (r: u64)
    requires
        target <= 0x1_0000_0000_0000_0000,
        100 < base <= 1000,
    ensures
        1 <= r <= MAX_SEGMENT_LENGTH,
        exists|e: nat| two_to(e) == r,
        r == segment_length_spec(target as int, base as int, 1, 1000),
{
    let mut len: u64 = 1;
    let mut pw: u128 = 1000;
    let ghost mut e: nat = 0;
    while len <= MAX_SEGMENT_LENGTH / 2
        invariant
            1 <= len <= MAX_SEGMENT_LENGTH,
            len == two_to(e),
            pw <= 0x1_0000_0000_0000_0000 + 1000,
            target <= 0x1_0000_0000_0000_0000,
            100 < base <= 1000,
            segment_length_spec(target as int, base as int, len as int, pw as int) == segment_length_spec(
                target as int,
                base as int,
                1,
                1000,
            ),
        ensures
            1 <= len <= MAX_SEGMENT_LENGTH,
            len == two_to(e),
            segment_length_spec(target as int, base as int, len as int, pw as int) == len,
            segment_length_spec(target as int, base as int, len as int, pw as int) == segment_length_spec(
                target as int,
                base as int,
                1,
                1000,
            ),
        decreases MAX_SEGMENT_LENGTH - len,
    {
        assert(pw * base <= (0x1_0000_0000_0000_0000 + 1000) * 1000) by (nonlinear_arith)
            requires
                pw <= 0x1_0000_0000_0000_0000 + 1000,
                base <= 1000,
        ;
        let next = pw * base / 100;
        assert(next as int == pw as int * base as int / 100);
        if next > target {
            assert(segment_length_spec(target as int, base as int, len as int, pw as int) == len);
            break;
        }
        assert(segment_length_spec(target as int, base as int, len as int, pw as int) == segment_length_spec(
            target as int,
            base as int,
            len * 2,
            next as int,
        ));
        pw = next;
        len = len * 2;
        proof {
            e = e + 1;
        }
    }
    len
}

/// Table size for `n` keys in a segmented table: `n` scaled by a factor, in
/// thousandths, that grows as `n` shrinks (`base + slope / log2(n)`, at
/// least `floor`, at most 2), plus 32.
fn fuse_capacity(n: usize, floor: u64, base: u64, slope: u64) -> (r: u64)
    requires
        n <= MAX_KEYS,
        floor <= 2000,
        base <= 2000,
        slope <= 10000,
    ensures
        32 <= r <= 2 * n + 32,
        r == capacity_spec(n as int, floor as int, base as int, slope as int),
{
    let mut v: u64 = n as u64;
    let mut lg: u64 = 0;
    proof {
        lemma_lg_bound(n as nat);
    }
    while v >= 2
        invariant
            v <= n,
            lg <= n,
            lg_spec(n as nat) <= n,
            lg + lg_spec(v as nat) == lg_spec(n as nat),
            lg_spec(v as nat) <= v,
        decreases v,
    {
        proof {
            assert(lg_spec(v as nat) == 1 + lg_spec((v / 2) as nat));
            lemma_lg_bound((v / 2) as nat);
        }
        v = v / 2;
        lg = lg + 1;
    }
    proof {
        assert(lg_spec(v as nat) == 0);
    }
    let lg = if lg == 0 {
        1
    } else {
        lg
    };
    let mut milli = base + slope / lg;
    if milli < floor {
        milli = floor;
    }
    if milli > 2000 {
        milli = 2000;
    }
    assert((n as u64) * milli <= (n as u64) * 2000) by (nonlinear_arith)
        requires
            milli <= 2000,
    ;
    (n as u64) * milli / 1000 + 32
}

proof fn lemma_lg_bound(n: nat)
    ensures
        lg_spec(n) <= n,
    decreases n,
{
    if n >= 2 {
        lemma_lg_bound(n / 2);
    }
}

/// Size, segment length and segment count of a segmented table: enough
/// segments of `segment_length` to cover `size`, and at least `fanout`.
fn segmented_layout(size: u64, segment_length: u64, fanout: usize) -> (r: (u64, u64, u64))
    requires
        32 <= size <= 2 * MAX_KEYS + 64,
        1 <= segment_length <= MAX_SEGMENT_LENGTH,
        fanout == 3 || fanout == 4,
    ensures
        layout_ok(r.0, fanout, true, r.1, r.2, 8),
        layout_ok(r.0, fanout, true, r.1, r.2, 32),
        r.1 == segment_length,
        r.0 >= size,
        (r.0 as int, r.1 as int, r.2 as int) == segmented_layout_spec(size as int, segment_length as int, fanout as int),
{
    let covering = (size + segment_length - 1) / segment_length;
    proof {
        let x = size + segment_length - 1;
        vstd::arithmetic::div_mod::lemma_fundamental_div_mod(x as int, segment_length as int);
        assert(segment_length * covering == covering * segment_length) by (nonlinear_arith);
    }
    let mut num_segments = covering;
    if num_segments < fanout as u64 {
        num_segments = fanout as u64;
        assert(num_segments * segment_length <= 4 * MAX_SEGMENT_LENGTH) by (nonlinear_arith)
            requires
                num_segments <= 4,
                segment_length <= MAX_SEGMENT_LENGTH,
        ;
        assert(num_segments * segment_length >= covering * segment_length) by (nonlinear_arith)
            requires
                num_segments >= covering,
        ;
        assert(num_segments * segment_length >= 3) by (nonlinear_arith)
            requires
                num_segments >= 3,
                segment_length >= 1,
        ;
    }
    (num_segments * segment_length, segment_length, num_segments)
}

/// An XOR filter with 8-bit fingerprints: three slots per key, one in each
/// third of a table of `1.23 n + 32` entries.
pub struct XorFilter {
    pub(crate) table: FuseTable,
}

impl XorFilter {
    pub closed spec fn wf(&self) -> bool {
        &&& self.table.wf()
        &&& self.table.fanout == 3
        &&& self.table.segmented == false
        &&& (self.table.segmented ==> is_power_of_two(self.table.segment_length as nat))
        &&& self.table.fingerprint_bits == 8
    }

    pub closed spec fn fingerprint_spec(&self, key: u64) -> u32 {
        self.table.fingerprint_spec(key)
    }

    /// `key` reads as present: its table entries XOR to its fingerprint.
    pub closed spec fn contains(&self, key: u64) -> bool {
        self.table.contains(key)
    }

    /// The table layout for `n` keys: size, segment length, segment count.
    pub open spec fn layout_spec(n: int) -> (int, int, int) {
        (n * 123 / 100 + 32, 1, 1)
    }

    /// The number of table entries.
    pub closed spec fn spec_size(&self) -> nat {
        self.table.size as nat
    }

    /// The table layout for `n` keys.
    fn layout(n: usize) -> (r: (u64, u64, u64))
        requires
            n <= MAX_KEYS,
        ensures
            (r.0 as int, r.1 as int, r.2 as int) == XorFilter::layout_spec(n as int),
            false ==> is_power_of_two(r.1 as nat),
            layout_ok(r.0, 3, false, r.1, r.2, 8),
    {
        let size = (n as u64) * 123 / 100 + 32;
        (size, 1, 1)
    }

    /// Builds the filter for `keys`, drawing fresh hash functions for each
    /// attempt; nothing when every attempt got stuck.
    pub fn new(keys: Vec<u64>) -> (r: Option<XorFilter>)
        requires
            keys.len() <= MAX_KEYS,
        ensures
            keys.len() == 0 ==> r is Some,
            r matches Some(f) ==> f.wf() && forall|i: int| 0 <= i < keys.len() ==> f.contains(#[trigger] keys@[i]),
            r matches Some(f) ==> f.spec_size() == XorFilter::layout_spec(keys.len() as int).0,
    {
        let (size, segment_length, num_segments) = XorFilter::layout(keys.len());
        match FuseTable::build(&keys, size, 3, false, segment_length, num_segments, 8) {
            Some(table) => Some(XorFilter { table }),
            None => None,
        }
    }

    /// Builds the filter for `keys` with the given hash functions (3 for
    /// the slots, one for the fingerprint, one for the segment); nothing when
    /// peeling gets stuck.
    pub fn with_hash_functions(keys: &Vec<u64>, hashes: Vec<HashFunction>) -> (r: Option<XorFilter>)
        requires
            keys.len() <= MAX_KEYS,
            hashes.len() == 3 + 2,
        ensures
            keys.len() == 0 ==> r is Some,
            r is Some <==> ({
                let lay = XorFilter::layout_spec(keys.len() as int);
                peelable_in(hashes@, lay.0 as u64, 3, false, lay.1 as u64, lay.2 as u64, keys@)
            }),
            r matches Some(f) ==> f.wf() && forall|i: int| 0 <= i < keys.len() ==> f.contains(#[trigger] keys@[i]),
            r matches Some(f) ==> f.spec_size() == XorFilter::layout_spec(keys.len() as int).0,
    {
        let (size, segment_length, num_segments) = XorFilter::layout(keys.len());
        match FuseTable::attempt(keys, hashes, size, 3, false, segment_length, num_segments, 8) {
            Some(table) => Some(XorFilter { table }),
            None => None,
        }
    }

    /// Whether the table entries of `key` XOR to its fingerprint.
    pub fn member(&self, k: u64) -> (r: bool)
        requires
            self.wf(),
        ensures
            r == self.contains(k),
    {
        self.table.member(k)
    }

    /// The 8-bit fingerprint of `key`.
    pub fn fingerprint(&self, key: u64) -> (r: u32)
        requires
            self.wf(),
        ensures
            r == self.fingerprint_spec(key),
    {
        self.table.fingerprint(key)
    }
}

/// A 3-wise binary fuse filter with 32-bit fingerprints: three slots in
/// consecutive segments of a table of about `1.13 n` to `2 n` entries (more
/// for fewer keys) plus 32.
pub struct BinaryFuseFilter {
    pub(crate) table: FuseTable,
}

impl BinaryFuseFilter {
    pub closed spec fn wf(&self) -> bool {
        &&& self.table.wf()
        &&& self.table.fanout == 3
        &&& self.table.segmented == true
        &&& (self.table.segmented ==> is_power_of_two(self.table.segment_length as nat))
        &&& self.table.fingerprint_bits == 32
    }

    pub closed spec fn fingerprint_spec(&self, key: u64) -> u32 {
        self.table.fingerprint_spec(key)
    }

    /// `key` reads as present: its table entries XOR to its fingerprint.
    pub closed spec fn contains(&self, key: u64) -> bool {
        self.table.contains(key)
    }

    /// The table layout for `n` keys: size, segment length, segment count.
    pub open spec fn layout_spec(n: int) -> (int, int, int) {
        segmented_layout_spec(capacity_spec(n, 1125, 875, 4983), segment_length_spec(n * 14970, 333, 1, 1000), 3)
    }

    /// The number of table entries.
    pub closed spec fn spec_size(&self) -> nat {
        self.table.size as nat
    }

    /// The table layout for `n` keys.
    fn layout(n: usize) -> (r: (u64, u64, u64))
        requires
            n <= MAX_KEYS,
        ensures
            (r.0 as int, r.1 as int, r.2 as int) == BinaryFuseFilter::layout_spec(n as int),
            true ==> is_power_of_two(r.1 as nat),
            layout_ok(r.0, 3, true, r.1, r.2, 32),
    {
        let size = fuse_capacity(n, 1125, 875, 4983);
        let segment_length = segment_length_for((n as u128) * 14970, 333);
        segmented_layout(size, segment_length, 3)
    }

    /// Builds the filter for `keys`, drawing fresh hash functions for each
    /// attempt; nothing when every attempt got stuck.
    pub fn new(keys: Vec<u64>) -> (r: Option<BinaryFuseFilter>)
        requires
            keys.len() <= MAX_KEYS,
        ensures
            keys.len() == 0 ==> r is Some,
            r matches Some(f) ==> f.wf() && forall|i: int| 0 <= i < keys.len() ==> f.contains(#[trigger] keys@[i]),
            r matches Some(f) ==> f.spec_size() == BinaryFuseFilter::layout_spec(keys.len() as int).0,
    {
        let (size, segment_length, num_segments) = BinaryFuseFilter::layout(keys.len());
        match FuseTable::build(&keys, size, 3, true, segment_length, num_segments, 32) {
            Some(table) => Some(BinaryFuseFilter { table }),
            None => None,
        }
    }

    /// Builds the filter for `keys` with the given hash functions (3 for
    /// the slots, one for the fingerprint, one for the segment); nothing when
    /// peeling gets stuck.
    pub fn with_hash_functions(keys: &Vec<u64>, hashes: Vec<HashFunction>) -> (r: Option<BinaryFuseFilter>)
        requires
            keys.len() <= MAX_KEYS,
            hashes.len() == 3 + 2,
        ensures
            keys.len() == 0 ==> r is Some,
            r is Some <==> ({
                let lay = BinaryFuseFilter::layout_spec(keys.len() as int);
                peelable_in(hashes@, lay.0 as u64, 3, true, lay.1 as u64, lay.2 as u64, keys@)
            }),
            r matches Some(f) ==> f.wf() && forall|i: int| 0 <= i < keys.len() ==> f.contains(#[trigger] keys@[i]),
            r matches Some(f) ==> f.spec_size() == BinaryFuseFilter::layout_spec(keys.len() as int).0,
    {
        let (size, segment_length, num_segments) = BinaryFuseFilter::layout(keys.len());
        match FuseTable::attempt(keys, hashes, size, 3, true, segment_length, num_segments, 32) {
            Some(table) => Some(BinaryFuseFilter { table }),
            None => None,
        }
    }

    /// Whether the table entries of `key` XOR to its fingerprint.
    pub fn member(&self, k: u64) -> (r: bool)
        requires
            self.wf(),
        ensures
            r == self.contains(k),
    {
        self.table.member(k)
    }

    /// The 32-bit fingerprint of `key`.
    pub fn fingerprint(&self, key: u64) -> (r: u32)
        requires
            self.wf(),
        ensures
            r == self.fingerprint_spec(key),
    {
        self.table.fingerprint(key)
    }
}

/// A 3-wise binary fuse filter with 8-bit fingerprints: three slots in
/// consecutive segments of a table of about `1.13 n` to `2 n` entries (more
/// for fewer keys) plus 64.
pub struct ThreeWiseBinaryFuseFilter8 {
    pub(crate) table: FuseTable,
}

impl ThreeWiseBinaryFuseFilter8 {
    pub closed spec fn wf(&self) -> bool {
        &&& self.table.wf()
        &&& self.table.fanout == 3
        &&& self.table.segmented == true
        &&& (self.table.segmented ==> is_power_of_two(self.table.segment_length as nat))
        &&& self.table.fingerprint_bits == 8
    }

    pub closed spec fn fingerprint_spec(&self, key: u64) -> u32 {
        self.table.fingerprint_spec(key)
    }

    /// `key` reads as present: its table entries XOR to its fingerprint.
    pub closed spec fn contains(&self, key: u64) -> bool {
        self.table.contains(key)
    }

    /// The table layout for `n` keys: size, segment length, segment count.
    pub open spec fn layout_spec(n: int) -> (int, int, int) {
        segmented_layout_spec(capacity_spec(n, 1125, 875, 4983) + 32, segment_length_spec(n * 14970, 333, 1, 1000), 3)
    }

    /// The number of table entries.
    pub closed spec fn spec_size(&self) -> nat {
        self.table.size as nat
    }

    /// The table layout for `n` keys.
    fn layout(n: usize) -> (r: (u64, u64, u64))
        requires
            n <= MAX_KEYS,
        ensures
            (r.0 as int, r.1 as int, r.2 as int) == ThreeWiseBinaryFuseFilter8::layout_spec(n as int),
            true ==> is_power_of_two(r.1 as nat),
            layout_ok(r.0, 3, true, r.1, r.2, 8),
    {
        let size = fuse_capacity(n, 1125, 875, 4983) + 32;
        let segment_length = segment_length_for((n as u128) * 14970, 333);
        segmented_layout(size, segment_length, 3)
    }

    /// Builds the filter for `keys`, drawing fresh hash functions for each
    /// attempt; nothing when every attempt got stuck.
    pub fn new(keys: Vec<u64>) -> (r: Option<ThreeWiseBinaryFuseFilter8>)
        requires
            keys.len() <= MAX_KEYS,
        ensures
            keys.len() == 0 ==> r is Some,
            r matches Some(f) ==> f.wf() && forall|i: int| 0 <= i < keys.len() ==> f.contains(#[trigger] keys@[i]),
            r matches Some(f) ==> f.spec_size() == ThreeWiseBinaryFuseFilter8::layout_spec(keys.len() as int).0,
    {
        let (size, segment_length, num_segments) = ThreeWiseBinaryFuseFilter8::layout(keys.len());
        match FuseTable::build(&keys, size, 3, true, segment_length, num_segments, 8) {
            Some(table) => Some(ThreeWiseBinaryFuseFilter8 { table }),
            None => None,
        }
    }

    /// Builds the filter for `keys` with the given hash functions (3 for
    /// the slots, one for the fingerprint, one for the segment); nothing when
    /// peeling gets stuck.
    pub fn with_hash_functions(keys: &Vec<u64>, hashes: Vec<HashFunction>) -> (r: Option<ThreeWiseBinaryFuseFilter8>)
        requires
            keys.len() <= MAX_KEYS,
            hashes.len() == 3 + 2,
        ensures
            keys.len() == 0 ==> r is Some,
            r is Some <==> ({
                let lay = ThreeWiseBinaryFuseFilter8::layout_spec(keys.len() as int);
                peelable_in(hashes@, lay.0 as u64, 3, true, lay.1 as u64, lay.2 as u64, keys@)
            }),
            r matches Some(f) ==> f.wf() && forall|i: int| 0 <= i < keys.len() ==> f.contains(#[trigger] keys@[i]),
            r matches Some(f) ==> f.spec_size() == ThreeWiseBinaryFuseFilter8::layout_spec(keys.len() as int).0,
    {
        let (size, segment_length, num_segments) = ThreeWiseBinaryFuseFilter8::layout(keys.len());
        match FuseTable::attempt(keys, hashes, size, 3, true, segment_length, num_segments, 8) {
            Some(table) => Some(ThreeWiseBinaryFuseFilter8 { table }),
            None => None,
        }
    }

    /// Whether the table entries of `key` XOR to its fingerprint.
    pub fn member(&self, k: u64) -> (r: bool)
        requires
            self.wf(),
        ensures
            r == self.contains(k),
    {
        self.table.member(k)
    }

    /// The 8-bit fingerprint of `key`.
    pub fn fingerprint(&self, key: u64) -> (r: u32)
        requires
            self.wf(),
        ensures
            r == self.fingerprint_spec(key),
    {
        self.table.fingerprint(key)
    }
}

/// A 4-wise binary fuse filter with 8-bit fingerprints: four slots in
/// consecutive segments of a table of about `1.08 n` to `2 n` entries (more
/// for fewer keys) plus 32.
pub struct FourWiseBinaryFuseFilter8 {
    pub(crate) table: FuseTable,
}

impl FourWiseBinaryFuseFilter8 {
    pub closed spec fn wf(&self) -> bool {
        &&& self.table.wf()
        &&& self.table.fanout == 4
        &&& self.table.segmented == true
        &&& (self.table.segmented ==> is_power_of_two(self.table.segment_length as nat))
        &&& self.table.fingerprint_bits == 8
    }

    pub closed spec fn fingerprint_spec(&self, key: u64) -> u32 {
        self.table.fingerprint_spec(key)
    }

    /// `key` reads as present: its table entries XOR to its fingerprint.
    pub closed spec fn contains(&self, key: u64) -> bool {
        self.table.contains(key)
    }

    /// The table layout for `n` keys: size, segment length, segment count.
    pub open spec fn layout_spec(n: int) -> (int, int, int) {
        segmented_layout_spec(capacity_spec(n, 1075, 770, 5850), segment_length_spec(n * 586, 291, 1, 1000), 4)
    }

    /// The number of table entries.
    pub closed spec fn spec_size(&self) -> nat {
        self.table.size as nat
    }

    /// The table layout for `n` keys.
    fn layout(n: usize) -> (r: (u64, u64, u64))
        requires
            n <= MAX_KEYS,
        ensures
            (r.0 as int, r.1 as int, r.2 as int) == FourWiseBinaryFuseFilter8::layout_spec(n as int),
            true ==> is_power_of_two(r.1 as nat),
            layout_ok(r.0, 4, true, r.1, r.2, 8),
    {
        let size = fuse_capacity(n, 1075, 770, 5850);
        let segment_length = segment_length_for((n as u128) * 586, 291);
        segmented_layout(size, segment_length, 4)
    }

    /// Builds the filter for `keys`, drawing fresh hash functions for each
    /// attempt; nothing when every attempt got stuck.
    pub fn new(keys: &Vec<u64>) -> (r: Option<FourWiseBinaryFuseFilter8>)
        requires
            keys.len() <= MAX_KEYS,
        ensures
            keys.len() == 0 ==> r is Some,
            r matches Some(f) ==> f.wf() && forall|i: int| 0 <= i < keys.len() ==> f.contains(#[trigger] keys@[i]),
            r matches Some(f) ==> f.spec_size() == FourWiseBinaryFuseFilter8::layout_spec(keys.len() as int).0,
    {
        let (size, segment_length, num_segments) = FourWiseBinaryFuseFilter8::layout(keys.len());
        match FuseTable::build(keys, size, 4, true, segment_length, num_segments, 8) {
            Some(table) => Some(FourWiseBinaryFuseFilter8 { table }),
            None => None,
        }
    }

    /// Builds the filter for `keys` with the given hash functions (4 for
    /// the slots, one for the fingerprint, one for the segment); nothing when
    /// peeling gets stuck.
    pub fn with_hash_functions(keys: &Vec<u64>, hashes: Vec<HashFunction>) -> (r: Option<FourWiseBinaryFuseFilter8>)
        requires
            keys.len() <= MAX_KEYS,
            hashes.len() == 4 + 2,
        ensures
            keys.len() == 0 ==> r is Some,
            r is Some <==> ({
                let lay = FourWiseBinaryFuseFilter8::layout_spec(keys.len() as int);
                peelable_in(hashes@, lay.0 as u64, 4, true, lay.1 as u64, lay.2 as u64, keys@)
            }),
            r matches Some(f) ==> f.wf() && forall|i: int| 0 <= i < keys.len() ==> f.contains(#[trigger] keys@[i]),
            r matches Some(f) ==> f.spec_size() == FourWiseBinaryFuseFilter8::layout_spec(keys.len() as int).0,
    {
        let (size, segment_length, num_segments) = FourWiseBinaryFuseFilter8::layout(keys.len());
        match FuseTable::attempt(keys, hashes, size, 4, true, segment_length, num_segments, 8) {
            Some(table) => Some(FourWiseBinaryFuseFilter8 { table }),
            None => None,
        }
    }

    /// Whether the table entries of `key` XOR to its fingerprint.
    pub fn member(&self, k: u64) -> (r: bool)
        requires
            self.wf(),
        ensures
            r == self.contains(k),
    {
        self.table.member(k)
    }

    /// The 8-bit fingerprint of `key`.
    pub fn fingerprint(&self, key: u64) -> (r: u32)
        requires
            self.wf(),
        ensures
            r == self.fingerprint_spec(key),
    {
        self.table.fingerprint(key)
    }
}

} // verus!
