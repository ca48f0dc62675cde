//! The Morton filter: a block-structured cuckoo variant. Each block holds
//! the fingerprints of `BUCKETS_PER_BLOCK` logical buckets packed in bucket
//! order (`fsa`), a fill count per bucket (`fca`, at most `FCA_MAX_VAL`) and
//! overflow bits (`ota`) recording buckets that spilled to their alternate.
use crate::hashing::{generate_hash_functions, index_bits, HashFunction};
use vstd::arithmetic::div_mod::{lemma_fundamental_div_mod, lemma_mod_multiples_vanish};
use vstd::prelude::*;

verus! {

pub const BUCKETS_PER_BLOCK: u32 = 46;

pub const OFF_RANGE: u32 = 256;

pub const FCA_MAX_VAL: u8 = 3;

/// Fingerprint slots each block starts with.
const BLOCK_SLOTS: usize = 48;

/// Sum of the fill counts of the buckets before `b`.
pub open spec fn prefix(fca: Seq<u8>, b: int) -> int
    decreases b,
{
    if b <= 0 {
        0
    } else {
        prefix(fca, b - 1) + fca[b - 1]
    }
}

proof fn lemma_prefix_update(fca: Seq<u8>, b: int, v: u8, n: int)
    requires
        0 <= b < fca.len(),
        0 <= n <= fca.len(),
    ensures
        n <= b ==> prefix(fca.update(b, v), n) == prefix(fca, n),
        n > b ==> prefix(fca.update(b, v), n) == prefix(fca, n) + v - fca[b],
    decreases n,
{
    if n > 0 {
        lemma_prefix_update(fca, b, v, n - 1);
    }
}

proof fn lemma_prefix_monotone(fca: Seq<u8>, a: int, b: int)
    requires
        0 <= a <= b <= fca.len(),
    ensures
        prefix(fca, a) <= prefix(fca, b),
    decreases b,
{
    if a < b {
        lemma_prefix_monotone(fca, a, b - 1);
    }
}

/// Storage for `BUCKETS_PER_BLOCK` logical buckets.
#[derive(Debug)]
pub struct MortonBlock {
    pub(crate) fsa: Vec<u8>,
    pub(crate) fca: Vec<u8>,
    pub(crate) ota: Vec<u8>,
}

impl MortonBlock {
    pub closed spec fn wf(&self) -> bool {
        &&& self.fca.len() == 64
        &&& self.ota.len() == 16
        &&& forall|b: int| 0 <= b < BUCKETS_PER_BLOCK ==> #[trigger] self.fca@[b] <= FCA_MAX_VAL
        &&& self.fsa.len() == BLOCK_SLOTS + prefix(self.fca@, BUCKETS_PER_BLOCK as int)
    }

    /// Bucket `b` holds fingerprint `f`.
    pub closed spec fn bucket_holds(&self, b: int, f: u8) -> bool {
        exists|j: int|
            prefix(self.fca@, b) <= j < prefix(self.fca@, b) + self.fca@[b] && #[trigger] self.fsa@[j] == f
    }

    /// The fingerprints of bucket `b`, in order.
    pub closed spec fn bucket_seq(&self, b: int) -> Seq<u8> {
        self.fsa@.subrange(prefix(self.fca@, b), prefix(self.fca@, b) + self.fca@[b])
    }

    /// No bucket holds anything or has spilled.
    pub closed spec fn is_empty(&self) -> bool {
        forall|b: int, f: u8| 0 <= b < BUCKETS_PER_BLOCK ==> !#[trigger] self.bucket_holds(b, f) && !self.overflowed(b)
    }

    /// Bucket `b` has spilled to its alternate.
    pub closed spec fn overflowed(&self, b: int) -> bool {
        self.ota@[b % 16] != 0
    }

    /// Bucket `b` takes no more fingerprints.
    pub closed spec fn bucket_full(&self, b: int) -> bool {
        prefix(self.fca@, b) + self.fca@[b] >= BUCKETS_PER_BLOCK || self.fca@[b] >= FCA_MAX_VAL
    }

    /// An empty block.
    pub fn new() -> (r: MortonBlock)
        ensures
            r.wf(),
            r.is_empty(),
    {
        let r = MortonBlock { fsa: vec![0u8; BLOCK_SLOTS], fca: vec![0u8; 64], ota: vec![0u8; 16] };
        proof {
            assert forall|b: int| 0 <= b <= BUCKETS_PER_BLOCK implies prefix(r.fca@, b) == 0 by {
                lemma_prefix_zero(r.fca@, b);
            }
        }
        r
    }

    /// Where bucket `b` starts in `fsa`.
    fn offset(&self, b: u32) -> (r: u32)
        requires
            self.wf(),
            b < BUCKETS_PER_BLOCK,
        ensures
            r == prefix(self.fca@, b as int),
            r <= 3 * b,
    {
        let mut off: u32 = 0;
        let mut i: u32 = 0;
        while i < b
            invariant
                self.wf(),
                b < BUCKETS_PER_BLOCK,
                i <= b,
                off == prefix(self.fca@, i as int),
                off <= 3 * i,
            decreases b - i,
        {
            off = off + self.fca[i as usize] as u32;
            i = i + 1;
        }
        off
    }

    /// Whether bucket `b` takes no more fingerprints.
    fn is_full(&self, b: u32) -> (r: bool)
        requires
            self.wf(),
            b < BUCKETS_PER_BLOCK,
        ensures
            r == self.bucket_full(b as int),
    {
        let off = self.offset(b);
        let count = self.fca[b as usize];
        off + count as u32 >= BUCKETS_PER_BLOCK || count >= FCA_MAX_VAL
    }

    /// Appends `f` to bucket `b`, shifting the later buckets' fingerprints.
    #[verifier::spinoff_prover]
    #[verifier::rlimit(50)]
    fn add(&mut self, b: u32, f: u8)
        requires
            old(self).wf(),
            b < BUCKETS_PER_BLOCK,
            !old(self).bucket_full(b as int),
        ensures
            final(self).wf(),
            final(self).bucket_holds(b as int, f),
            final(self).ota@ == old(self).ota@,
            forall|c: int, g: u8|
                0 <= c < BUCKETS_PER_BLOCK && #[trigger] old(self).bucket_holds(c, g) ==> final(self).bucket_holds(c, g),
            final(self).bucket_seq(b as int) == old(self).bucket_seq(b as int).push(f),
            forall|c: int|
                0 <= c < BUCKETS_PER_BLOCK && c != b ==> #[trigger] final(self).bucket_seq(c) == old(self).bucket_seq(c),
    {
        let off = self.offset(b);
        let count = self.fca[b as usize];
        let ghost old_fsa = self.fsa@;
        let ghost old_fca = self.fca@;
        proof {
            lemma_prefix_monotone(self.fca@, (b + 1) as int, BUCKETS_PER_BLOCK as int);
            lemma_prefix_update(self.fca@, b as int, (count + 1) as u8, b as int);
            lemma_prefix_update(self.fca@, b as int, (count + 1) as u8, BUCKETS_PER_BLOCK as int);
            lemma_prefix_monotone(self.fca@, 0, BUCKETS_PER_BLOCK as int);
        }
        self.fsa.insert((off + count as u32) as usize, f);
        let ghost inserted = self.fsa@;
        self.fca.set(b as usize, count + 1);
        proof {
            let j = off + count;
            assert(inserted == old_fsa.insert(j as int, f));
            assert(self.fsa@ == inserted);
            assert(self.fsa@[j as int] == f);
            let p = j as int;
            assert forall|c: int, g: u8|
                0 <= c < BUCKETS_PER_BLOCK && #[trigger] old(self).bucket_holds(c, g) implies self.bucket_holds(c, g) by {
                let t = choose|t: int|
                    prefix(old_fca, c) <= t < prefix(old_fca, c) + old_fca[c] && #[trigger] old_fsa[t] == g;
                lemma_prefix_monotone(old_fca, c + 1, BUCKETS_PER_BLOCK as int);
                lemma_prefix_monotone(old_fca, 0, c);
                assert(0 <= t < old_fsa.len());
                if c <= b {
                    lemma_prefix_update(old_fca, b as int, (count + 1) as u8, c);
                    if c < b {
                        lemma_prefix_monotone(old_fca, c + 1, b as int);
                    }
                    assert(t < p);
                    assert(self.fsa@[t] == g);
                } else {
                    lemma_prefix_update(old_fca, b as int, (count + 1) as u8, c);
                    lemma_prefix_monotone(old_fca, b + 1, c);
                    assert(t >= p);
                    assert(self.fsa@[t + 1] == g);
                }
            }
            lemma_prefix_update(old_fca, b as int, (count + 1) as u8, b as int);
            assert(self.bucket_seq(b as int) =~= old(self).bucket_seq(b as int).push(f));
            assert forall|c: int|
                0 <= c < BUCKETS_PER_BLOCK && c != b implies #[trigger] self.bucket_seq(c) == old(self).bucket_seq(c) by {
                lemma_prefix_update(old_fca, b as int, (count + 1) as u8, c);
                lemma_prefix_monotone(old_fca, c + 1, BUCKETS_PER_BLOCK as int);
                lemma_prefix_monotone(old_fca, 0, c);
                if c < b {
                    lemma_prefix_monotone(old_fca, c + 1, b as int);
                    assert(self.bucket_seq(c) =~= old(self).bucket_seq(c));
                } else {
                    lemma_prefix_monotone(old_fca, b + 1, c);
                    assert(self.bucket_seq(c) =~= old(self).bucket_seq(c));
                }
            }
        }
    }

    /// Marks bucket `b` as spilled.
    fn set_overflow(&mut self, b: u32)
        requires
            old(self).wf(),
            b < BUCKETS_PER_BLOCK,
        ensures
            final(self).wf(),
            final(self).overflowed(b as int),
            final(self).fsa@ == old(self).fsa@,
            final(self).fca@ == old(self).fca@,
            forall|c: int| 0 <= c && #[trigger] old(self).overflowed(c) ==> final(self).overflowed(c),
    {
        self.ota.set((b % 16) as usize, 1);
    }

    /// Whether bucket `b` holds `f`.
    fn holds(&self, b: u32, f: u8) -> (r: bool)
        requires
            self.wf(),
            b < BUCKETS_PER_BLOCK,
        ensures
            r == self.bucket_holds(b as int, f),
    {
        let off = self.offset(b) as usize;
        let count = self.fca[b as usize] as usize;
        proof {
            lemma_prefix_monotone(self.fca@, (b + 1) as int, BUCKETS_PER_BLOCK as int);
        }
        let mut j: usize = off;
        while j < off + count
            invariant
                self.wf(),
                b < BUCKETS_PER_BLOCK,
                off == prefix(self.fca@, b as int),
                count == self.fca@[b as int],
                off + count <= self.fsa.len(),
                off <= j <= off + count,
                forall|t: int| off <= t < j ==> #[trigger] self.fsa@[t] != f,
            decreases off + count - j,
        {
            if self.fsa[j] == f {
                return true;
            }
            j = j + 1;
        }
        false
    }

    /// Whether bucket `b` has spilled.
    fn is_overflowed(&self, b: u32) -> (r: bool)
        requires
            self.wf(),
            b < BUCKETS_PER_BLOCK,
        ensures
            r == self.overflowed(b as int),
    {
        self.ota[(b % 16) as usize] != 0
    }
}

proof fn lemma_prefix_zero(fca: Seq<u8>, b: int)
    requires
        0 <= b <= fca.len(),
        forall|i: int| 0 <= i < fca.len() ==> fca[i] == 0,
    ensures
        prefix(fca, b) == 0,
    decreases b,
{
    if b > 0 {
        lemma_prefix_zero(fca, b - 1);
    }
}

/// A Morton filter over `blocks` blocks, `BUCKETS_PER_BLOCK` buckets each.
pub struct MortonFilter {
    pub(crate) block_store: Vec<MortonBlock>,
    pub(crate) hashes: Vec<HashFunction>,
    pub(crate) size: u64,
    pub(crate) l: u32,
}

/// The distance between a bucket and its alternate for fingerprint `f`;
/// always odd.
pub open spec fn offset_spec(f: u8) -> int {
    (((BUCKETS_PER_BLOCK + (f as u32 % OFF_RANGE)) as u32) | 1u32) as int
}

proof fn lemma_offset_odd(f: u8)
    ensures
        offset_spec(f) % 2 == 1,
        0 < offset_spec(f) <= 302,
{
    let x: u32 = (BUCKETS_PER_BLOCK + (f as u32 % OFF_RANGE)) as u32;
    assert(x < 302);
    assert((x | 1u32) % 2 == 1 && (x | 1u32) <= x + 1 && (x | 1u32) >= 1) by (bit_vector);
}

/// The alternate of global bucket `h1` for fingerprint `f` among `n`
/// buckets: `h1 + offset(f)` for an even `h1`, `h1 - offset(f)` for an odd
/// one, modulo `n`.
pub open spec fn alternate_bucket(n: int, h1: int, f: u8) -> int {
    if h1 % 2 == 0 {
        (h1 + offset_spec(f)) % n
    } else {
        (h1 - offset_spec(f)) % n
    }
}

/// For an even bucket count, the alternate of the alternate of a bucket is
/// the bucket itself, whatever the fingerprint.
pub proof fn lemma_alternate_involution(n: int, h1: int, f: u8)
    requires
        n > 0,
        n % 2 == 0,
        0 <= h1 < n,
    ensures
        alternate_bucket(n, alternate_bucket(n, h1, f), f) == h1,
{
    let o = offset_spec(f);
    lemma_offset_odd(f);
    let x = if h1 % 2 == 0 { h1 + o } else { h1 - o };
    assert(x % 2 != h1 % 2);
    let h2 = x % n;
    lemma_fundamental_div_mod(x, n);
    let q = x / n;
    assert(x == n * q + h2);
    let k = n / 2;
    assert(n * q == 2 * (k * q)) by (nonlinear_arith)
        requires
            n == 2 * k,
    ;
    lemma_mod_multiples_vanish(-(k * q), x, 2);
    assert(h2 == 2 * (-(k * q)) + x);
    assert(h2 % 2 == x % 2);
    let y = if h2 % 2 == 0 { h2 + o } else { h2 - o };
    assert(n * (-q) == -(n * q)) by (nonlinear_arith);
    assert(y == n * (-q) + h1);
    lemma_mod_multiples_vanish(-q, h1, n);
    vstd::arithmetic::div_mod::lemma_small_mod(h1 as nat, n as nat);
    assert(alternate_bucket(n, h1, f) == h2);
    assert(alternate_bucket(n, h2, f) == y % n);
}

impl MortonFilter {
    pub closed spec fn wf(&self) -> bool {
        &&& 1 <= self.block_store.len()
        &&& self.size == self.block_store.len() * BUCKETS_PER_BLOCK
        &&& self.size <= u32::MAX
        &&& self.hashes.len() == 2
        &&& self.l <= 64
        &&& forall|i: int| 0 <= i < self.block_store.len() ==> (#[trigger] self.block_store@[i]).wf()
    }

    pub closed spec fn spec_size(&self) -> nat {
        self.size as nat
    }

    pub closed spec fn fingerprint_spec(&self, key: u64) -> u8 {
        self.hashes[0].spec_apply(key, 8) as u8
    }

    /// Primary global bucket of `key`.
    pub closed spec fn hash1_spec(&self, key: u64) -> int {
        (self.hashes[1].spec_apply(key, self.l) as int) % (self.size as int)
    }

    pub closed spec fn holds(&self, g: int, f: u8) -> bool {
        self.block_store@[g / BUCKETS_PER_BLOCK as int].bucket_holds(g % BUCKETS_PER_BLOCK as int, f)
    }

    pub closed spec fn overflowed(&self, g: int) -> bool {
        self.block_store@[g / BUCKETS_PER_BLOCK as int].overflowed(g % BUCKETS_PER_BLOCK as int)
    }

    /// The fingerprints of global bucket `g`, in order.
    pub closed spec fn bucket(&self, g: int) -> Seq<u8> {
        self.block_store@[g / BUCKETS_PER_BLOCK as int].bucket_seq(g % BUCKETS_PER_BLOCK as int)
    }

    /// Global bucket `g` takes another fingerprint.
    pub closed spec fn has_room(&self, g: int) -> bool {
        !self.block_store@[g / BUCKETS_PER_BLOCK as int].bucket_full(g % BUCKETS_PER_BLOCK as int)
    }

    /// `key` reads as present: its fingerprint is in its primary bucket, or
    /// that bucket has spilled and the fingerprint is in the alternate one.
    pub closed spec fn contains(&self, key: u64) -> bool {
        let f = self.fingerprint_spec(key);
        let g1 = self.hash1_spec(key);
        self.holds(g1, f) || (self.overflowed(g1) && self.holds(
            alternate_bucket(self.size as int, g1, f),
            f,
        ))
    }

    /// The filter's bucket count is even, so `hash2` undoes itself:
    /// `hash2(hash2(h1, f), f) == h1` for every bucket `h1` and fingerprint `f`.
    pub proof fn lemma_hash2_involution(&self, h1: int, f: u8)
        requires
            self.wf(),
            0 <= h1 < self.spec_size(),
        ensures
            alternate_bucket(
                self.spec_size() as int,
                alternate_bucket(self.spec_size() as int, h1, f),
                f,
            ) == h1,
    {
        let n = self.block_store.len() as int;
        assert((n * 46) % 2 == 0) by (nonlinear_arith);
        lemma_alternate_involution(self.size as int, h1, f);
    }

    /// Every bucket of `self` holds what it held in `prev`, and every
    /// spilled bucket stays spilled.
    pub closed spec fn grows_from(&self, prev: MortonFilter) -> bool {
        &&& self.block_store.len() == prev.block_store.len()
        &&& self.hashes == prev.hashes
        &&& self.size == prev.size
        &&& self.l == prev.l
        &&& forall|i: int, c: int, g: u8|
            0 <= i < self.block_store.len() && 0 <= c < BUCKETS_PER_BLOCK && #[trigger] prev.block_store@[i].bucket_holds(c, g)
                ==> self.block_store@[i].bucket_holds(c, g)
        &&& forall|i: int, c: int|
            0 <= i < self.block_store.len() && 0 <= c && #[trigger] prev.block_store@[i].overflowed(c)
                ==> self.block_store@[i].overflowed(c)
    }

    proof fn lemma_grows_keeps_members(&self, prev: MortonFilter)
        requires
            prev.wf(),
            self.grows_from(prev),
        ensures
            forall|y: u64| #[trigger] prev.contains(y) ==> self.contains(y),
    {
        assert forall|y: u64| #[trigger] prev.contains(y) implies self.contains(y) by {
            let f = prev.fingerprint_spec(y);
            let g1 = prev.hash1_spec(y);
            let n = prev.size as int;
            let g2 = alternate_bucket(n, g1, f);
            let w = BUCKETS_PER_BLOCK as int;
            assert(0 <= g1 < n);
            assert(0 <= g1 / w < prev.block_store.len());
            assert(0 <= g1 % w < w);
            assert(0 <= g2 < n);
            assert(0 <= g2 / w < prev.block_store.len());
            assert(0 <= g2 % w < w);
            if prev.block_store@[g1 / w].bucket_holds(g1 % w, f) {
                assert(self.block_store@[g1 / w].bucket_holds(g1 % w, f));
            } else {
                assert(self.block_store@[g1 / w].overflowed(g1 % w));
                assert(self.block_store@[g2 / w].bucket_holds(g2 % w, f));
            }
        }
    }

    proof fn lemma_grows_transitive(&self, mid: MortonFilter, prev: MortonFilter)
        requires
            mid.grows_from(prev),
            self.grows_from(mid),
        ensures
            self.grows_from(prev),
    {
    }

    /// An empty filter of `blocks` blocks.
    pub fn new(blocks: u64) -> (r: MortonFilter)
        requires
            1 <= blocks <= u32::MAX / BUCKETS_PER_BLOCK,
        ensures
            r.wf(),
            r.spec_size() == blocks * BUCKETS_PER_BLOCK,
            forall|key: u64| !r.contains(key),
    {
        let size = blocks * BUCKETS_PER_BLOCK as u64;
        let block_store = MortonFilter::generate_block_store(blocks);
        let hashes = generate_hash_functions(2);
        let l = index_bits(size);
        let r = MortonFilter { block_store, hashes, size, l };
        proof {
            assert forall|key: u64| !r.contains(key) by {
                let g1 = r.hash1_spec(key);
                assert(0 <= g1 / (BUCKETS_PER_BLOCK as int) < blocks);
                assert(r.block_store@[g1 / (BUCKETS_PER_BLOCK as int)].is_empty());
            }
        }
        r
    }

    fn generate_block_store(length: u64) -> (r: Vec<MortonBlock>)
        requires
            length <= u32::MAX,
        ensures
            r.len() == length,
            forall|i: int| 0 <= i < length ==> (#[trigger] r@[i]).wf(),
            forall|i: int| 0 <= i < length ==> (#[trigger] r@[i]).is_empty(),
    {
        let mut bs: Vec<MortonBlock> = Vec::new();
        let mut i: u64 = 0;
        while i < length
            invariant
                i <= length,
                bs.len() == i,
                forall|t: int| 0 <= t < i ==> (#[trigger] bs@[t]).wf(),
                forall|t: int| 0 <= t < i ==> (#[trigger] bs@[t]).is_empty(),
            decreases length - i,
        {
            bs.push(MortonBlock::new());
            i = i + 1;
        }
        bs
    }

    /// The 8-bit fingerprint of `key`.
    pub fn fingerprint(&self, key: u64) -> (r: u8)
        requires
            self.wf(),
        ensures
            r == self.fingerprint_spec(key),
    {
        self.hashes[0].apply(key, 8) as u8
    }

    fn base_hash(&self, key: u64) -> (r: u32)
        requires
            self.wf(),
        ensures
            r == self.hashes[1].spec_apply(key, self.l),
    {
        self.hashes[1].apply(key, self.l)
    }

    /// Primary global bucket of `key`.
    pub fn hash1(&self, key: u64) -> (r: u32)
        requires
            self.wf(),
        ensures
            r == self.hash1_spec(key),
            r < self.spec_size(),
    {
        (self.base_hash(key) as u64 % self.size) as u32
    }

    /// The distance between a bucket and its alternate for `fingerprint`.
    pub fn offset(&self, fingerprint: u8) -> (r: u32)
        ensures
            r == offset_spec(fingerprint),
    {
        (BUCKETS_PER_BLOCK + (fingerprint as u32 % OFF_RANGE)) | 1u32
    }

    /// The alternate of global bucket `h1` for `fingerprint`.
    pub fn hash2(&self, h1: u32, fingerprint: u8) -> (r: u32)
        requires
            self.wf(),
            h1 < self.spec_size(),
        ensures
            r == alternate_bucket(self.spec_size() as int, h1 as int, fingerprint),
            r < self.spec_size(),
    {
        let n = self.size;
        let o = self.offset(fingerprint) as u64;
        proof {
            lemma_offset_odd(fingerprint);
        }
        if h1 % 2 == 0 {
            ((h1 as u64 + o) % n) as u32
        } else {
            let om = o % n;
            proof {
                lemma_fundamental_div_mod(o as int, n as int);
                let a = -((o / n) as int) - 1;
                lemma_mod_multiples_vanish(a, h1 as int + n - om, n as int);
                assert(n * a == -(n * (o / n)) - n) by (nonlinear_arith)
                    requires
                        a == -((o / n) as int) - 1,
                ;
                assert(n * a + (h1 as int + n - om) == h1 - o);
            }
            ((h1 as u64 + n - om) % n) as u32
        }
    }

    /// Stores the fingerprint of `key` in its primary bucket; when that
    /// bucket is full, marks it spilled and stores the fingerprint in the
    /// alternate bucket; false, with nothing changed, when that is full too.
    #[verifier::spinoff_prover]
    #[verifier::rlimit(50)]
    pub fn insert(&mut self, x: u64) -> (r: bool)
        requires
            old(self).wf(),
        ensures
            final(self).wf(),
            final(self).spec_size() == old(self).spec_size(),
            r == (old(self).has_room(old(self).hash1_spec(x)) || old(self).has_room(
                alternate_bucket(old(self).spec_size() as int, old(self).hash1_spec(x), old(self).fingerprint_spec(x)),
            )),
            r ==> final(self).contains(x),
            r ==> exists|t: int|
                (t == old(self).hash1_spec(x) || t == alternate_bucket(
                    old(self).spec_size() as int,
                    old(self).hash1_spec(x),
                    old(self).fingerprint_spec(x),
                )) && final(self).bucket(t) == old(self).bucket(t).push(old(self).fingerprint_spec(x)) && forall|g: int|
                    0 <= g < old(self).spec_size() && g != t ==> #[trigger] final(self).bucket(g) == old(self).bucket(g),
            !r ==> *final(self) == *old(self),
            forall|y: u64| #[trigger] old(self).contains(y) ==> final(self).contains(y),
    {
        let f = self.fingerprint(x);
        let g1 = self.hash1(x);
        let b1 = (g1 / BUCKETS_PER_BLOCK) as usize;
        let l1 = g1 % BUCKETS_PER_BLOCK;
        if !self.block_store[b1].is_full(l1) {
            self.block_store[b1].add(l1, f);
            proof {
                assert forall|i: int| 0 <= i < self.block_store.len() implies (#[trigger] self.block_store@[i]).wf() by {
                    if i != b1 {
                        assert(self.block_store@[i] == old(self).block_store@[i]);
                    }
                }
                assert(self.grows_from(*old(self)));
                self.lemma_grows_keeps_members(*old(self));
                self.lemma_one_bucket_grew(*old(self), g1 as int, f);
            }
            return true;
        }
        let g2 = self.hash2(g1, f);
        let b2 = (g2 / BUCKETS_PER_BLOCK) as usize;
        let l2 = g2 % BUCKETS_PER_BLOCK;
        if self.block_store[b2].is_full(l2) {
            return false;
        }
        self.block_store[b1].set_overflow(l1);
        proof {
            assert forall|i: int| 0 <= i < self.block_store.len() implies (#[trigger] self.block_store@[i]).wf() by {
                if i != b1 {
                    assert(self.block_store@[i] == old(self).block_store@[i]);
                }
            }
        }
        let ghost mid = self.block_store@;
        let ghost mid_filter = *self;
        proof {
            assert(mid_filter.grows_from(*old(self)));
            assert(self.block_store@[b2 as int].fca@ == old(self).block_store@[b2 as int].fca@);
            assert forall|g: int| 0 <= g < self.size implies #[trigger] mid_filter.bucket(g) == old(self).bucket(g) by {
                let i = g / BUCKETS_PER_BLOCK as int;
                if i == b1 {
                    assert(mid_filter.block_store@[i].fsa@ == old(self).block_store@[i].fsa@);
                    assert(mid_filter.block_store@[i].fca@ == old(self).block_store@[i].fca@);
                }
            }
        }
        self.block_store[b2].add(l2, f);
        proof {
            assert forall|i: int| 0 <= i < self.block_store.len() implies (#[trigger] self.block_store@[i]).wf() by {
                if i != b2 {
                    assert(self.block_store@[i] == mid[i]);
                }
            }
            assert(self.overflowed(g1 as int));
            assert(self.holds(g2 as int, f));
            assert(self.grows_from(mid_filter));
            self.lemma_grows_transitive(mid_filter, *old(self));
            self.lemma_grows_keeps_members(*old(self));
            self.lemma_one_bucket_grew(mid_filter, g2 as int, f);
        }
        true
    }

    /// After an `add` of `f` to global bucket `t` (and nothing else), bucket
    /// `t` grew by `f` and every other bucket is as it was.
    proof fn lemma_one_bucket_grew(&self, prev: MortonFilter, t: int, f: u8)
        requires
            prev.wf(),
            self.wf(),
            self.size == prev.size,
            self.block_store.len() == prev.block_store.len(),
            0 <= t < prev.size,
            self.block_store@[t / BUCKETS_PER_BLOCK as int].bucket_seq(t % BUCKETS_PER_BLOCK as int) == prev.block_store@[t
                / BUCKETS_PER_BLOCK as int].bucket_seq(t % BUCKETS_PER_BLOCK as int).push(f),
            forall|c: int|
                0 <= c < BUCKETS_PER_BLOCK && c != t % BUCKETS_PER_BLOCK as int ==> #[trigger] self.block_store@[t
                    / BUCKETS_PER_BLOCK as int].bucket_seq(c) == prev.block_store@[t / BUCKETS_PER_BLOCK as int].bucket_seq(c),
            forall|i: int|
                0 <= i < self.block_store.len() && i != t / BUCKETS_PER_BLOCK as int ==> #[trigger] self.block_store@[i]
                    == prev.block_store@[i],
        ensures
            self.bucket(t) == prev.bucket(t).push(f),
            forall|g: int| 0 <= g < prev.size && g != t ==> #[trigger] self.bucket(g) == prev.bucket(g),
    {
        let w = BUCKETS_PER_BLOCK as int;
        assert forall|g: int| 0 <= g < prev.size && g != t implies #[trigger] self.bucket(g) == prev.bucket(g) by {
            if g / w == t / w {
                assert(g % w != t % w);
            }
        }
    }

    /// Whether the fingerprint of `x` is in its primary bucket, or, when that
    /// bucket has spilled, in its alternate bucket.
    pub fn member(&self, x: u64) -> (r: bool)
        requires
            self.wf(),
        ensures
            r == self.contains(x),
    {
        let f = self.fingerprint(x);
        let g1 = self.hash1(x);
        let b1 = (g1 / BUCKETS_PER_BLOCK) as usize;
        let l1 = g1 % BUCKETS_PER_BLOCK;
        if self.block_store[b1].holds(l1, f) {
            return true;
        }
        if !self.block_store[b1].is_overflowed(l1) {
            return false;
        }
        let g2 = self.hash2(g1, f);
        let b2 = (g2 / BUCKETS_PER_BLOCK) as usize;
        let l2 = g2 % BUCKETS_PER_BLOCK;
        self.block_store[b2].holds(l2, f)
    }

    pub fn size(&self) -> (r: u64)
        ensures
            r == self.spec_size(),
    {
        self.size
    }
}

} // verus!
