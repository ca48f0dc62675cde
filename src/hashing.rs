//! The multiply-shift hash family shared by every filter, and the random
//! draws that pick its coefficients.
use rand::Rng;
use vstd::prelude::*;
use vstd::wrapping::u64_specs;

verus! {

/// The 64-bit mixing step `(a1 + x) * (a2 + (x >> 32)) + b`, all mod 2^64.
pub open spec fn mix(x: u64, a1: u64, a2: u64, b: u64) -> u64 {
    u64_specs::wrapping_add(
        u64_specs::wrapping_mul(u64_specs::wrapping_add(a1, x), u64_specs::wrapping_add(a2, x >> 32u64)),
        b,
    )
}

/// The top `l` bits of the mixed value (none when `l` is zero), truncated to 32 bits.
pub open spec fn hash_spec(x: u64, l: u32, a1: u64, a2: u64, b: u64) -> u32 {
    if l == 0 {
        0u32
    } else {
        (mix(x, a1, a2, b) >> ((64 - l) as u64)) as u32
    }
}

/// Multiply-shift hash of `x` onto `l` output bits.
pub fn hash(x: u64, l: u32, a1: u64, a2: u64, b: u64) -> (r: u32)
    requires
        l <= 64,
    ensures
        r == hash_spec(x, l, a1, a2, b),
{
    if l == 0 {
        0
    } else {
        let m = a1.wrapping_add(x).wrapping_mul(a2.wrapping_add(x >> 32u64)).wrapping_add(b);
        (m >> ((64 - l) as u64)) as u32
    }
}

/// One member of the hash family: the coefficients `(a1, a2, b)`.
#[derive(Clone, Copy, Debug, PartialEq, Eq)]
pub struct HashFunction {
    pub a1: u64,
    pub a2: u64,
    pub b: u64,
}

impl HashFunction {
    pub open spec fn spec_apply(self, x: u64, l: u32) -> u32 {
        hash_spec(x, l, self.a1, self.a2, self.b)
    }

    /// Coefficients drawn uniformly from `[1, 2^64 - 1]`.
    pub open spec fn valid(self) -> bool {
        self.a1 >= 1 && self.a2 >= 1 && self.b >= 1
    }

    pub fn new(a1: u64, a2: u64, b: u64) -> (r: HashFunction)
        ensures
            r == (HashFunction { a1, a2, b }),
    {
        HashFunction { a1, a2, b }
    }

    /// Draws fresh coefficients from the thread's random source.
    pub fn random() -> (r: HashFunction)
        ensures
            r.valid(),
    {
        let a1 = random_range(1, u64::MAX);
        let a2 = random_range(1, u64::MAX);
        let b = random_range(1, u64::MAX);
        HashFunction { a1, a2, b }
    }

    pub fn apply(&self, x: u64, l: u32) -> (r: u32)
        requires
            l <= 64,
        ensures
            r == self.spec_apply(x, l),
    {
        hash(x, l, self.a1, self.a2, self.b)
    }
}

/// `n` independently drawn hash functions.
pub fn generate_hash_functions(n: usize) -> (r: Vec<HashFunction>)
    ensures
        r.len() == n,
        forall|i: int| 0 <= i < n ==> (#[trigger] r[i]).valid(),
{
    let mut v: Vec<HashFunction> = Vec::new();
    let mut i: usize = 0;
    while i < n
        invariant
            i <= n,
            v.len() == i,
            forall|j: int| 0 <= j < i ==> (#[trigger] v[j]).valid(),
        decreases n - i,
    {
        v.push(HashFunction::random());
        i = i + 1;
    }
    v
}

/// Relies on rand's `Rng::gen_range` over an inclusive range on the thread
/// generator: the value lies in the range (an empty range panics, hence
/// `low <= high`).
#[verifier::external_body]
pub(crate) fn random_range(low: u64, high: u64) -> (r: u64)
    requires
        low <= high,
    ensures
        low <= r <= high,
{
    rand::thread_rng().gen_range(low..=high)
}

/// `2^e`.
pub open spec fn two_to(e: nat) -> nat
    decreases e,
{
    if e == 0 {
        1
    } else {
        2 * two_to((e - 1) as nat)
    }
}

pub(crate) proof fn lemma_two_to_bound(e: nat)
    ensures
        two_to(e) >= 1,
    decreases e,
{
    if e > 0 {
        lemma_two_to_bound((e - 1) as nat);
    }
}

pub(crate) proof fn lemma_two_to_monotone(a: nat, b: nat)
    requires
        a <= b,
    ensures
        two_to(a) <= two_to(b),
    decreases b,
{
    if a < b {
        lemma_two_to_monotone(a, (b - 1) as nat);
    }
}

/// A power of two that fits in 64 bits has an exponent below 64.
pub(crate) proof fn lemma_two_to_below_64(e: nat)
    requires
        two_to(e) <= u64::MAX,
    ensures
        e < 64,
{
    reveal_with_fuel(two_to, 65);
    if e >= 64 {
        lemma_two_to_monotone(64, e);
    }
}

/// A power of two that fits in 32 bits has an exponent below 32.
pub(crate) proof fn lemma_two_to_below_32(e: nat)
    requires
        two_to(e) <= u32::MAX,
    ensures
        e < 32,
{
    reveal_with_fuel(two_to, 33);
    if e >= 32 {
        lemma_two_to_monotone(32, e);
    }
}

pub(crate) proof fn lemma_two_to_strict(a: nat, b: nat)
    requires
        a < b,
    ensures
        two_to(a) < two_to(b),
{
    lemma_two_to_bound(a);
    lemma_two_to_monotone(a + 1, b);
}

/// `2^e` as a shift of a 32-bit one.
pub(crate) proof fn lemma_two_to_shift(e: nat)
    requires
        e < 32,
    ensures
        two_to(e) == (1u32 << (e as u32)) as nat,
    decreases e,
{
    if e == 0 {
        assert((1u32 << 0u32) == 1u32) by (bit_vector);
    } else {
        lemma_two_to_shift((e - 1) as nat);
        let p = (e - 1) as u32;
        let q = e as u32;
        assert((1u32 << q) == 2 * (1u32 << p)) by (bit_vector)
            requires
                q == p + 1,
                q < 32,
        ;
    }
}

/// A hash onto `l <= 31` bits lies below `2^l`.
pub(crate) proof fn lemma_hash_bound(x: u64, l: u32, a1: u64, a2: u64, b: u64)
    requires
        l < 32,
    ensures
        (hash_spec(x, l, a1, a2, b) as nat) < two_to(l as nat),
{
    lemma_two_to_shift(l as nat);
    if l > 0 {
        let m = mix(x, a1, a2, b);
        let sh = (64 - l) as u64;
        let l64 = l as u64;
        assert(((m >> sh) as u32) < (1u32 << l)) by (bit_vector)
            requires
                sh == 64 - l64,
                1 <= l64 < 32,
                l64 == l as u64,
        ;
    }
}

pub open spec fn is_power_of_two(p: nat) -> bool {
    exists|e: nat| two_to(e) == p
}

/// Number of bits that index `n` slots, `64 - leading_zeros(n - 1)`.
pub open spec fn index_bits_spec(n: u64) -> int {
    64 - vstd::std_specs::bits::u64_leading_zeros((n - 1) as u64)
}

pub fn index_bits(n: u64) -> (r: u32)
    requires
        n >= 1,
    ensures
        r <= 64,
        r == index_bits_spec(n),
{
    proof {
        vstd::std_specs::bits::axiom_u64_leading_zeros((n - 1) as u64);
    }
    64 - (n - 1).leading_zeros()
}

/// The smallest power of two that is at least `n` (zero for zero).
pub fn closest_power_of_two(n: u64) -> (r: u64)
    requires
        n <= 0x8000_0000_0000_0000,
    ensures
        n == 0 ==> r == 0,
        n > 0 ==> is_power_of_two(r as nat) && n <= r && r < 2 * n,
{
    if n == 0 {
        return 0;
    }
    let mut p: u64 = 1;
    let ghost mut e: nat = 0;
    while p < n
        invariant
            0 < n <= 0x8000_0000_0000_0000,
            1 <= p,
            p == two_to(e),
            p < 2 * n,
        decreases 2 * n - p,
    {
        p = p * 2;
        proof {
            e = e + 1;
        }
    }
    p
}

} // verus!
