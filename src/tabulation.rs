//! Tabulation hashing: a 64-bit key split into sixteen 4-bit digits, each
//! looked up in its own table of random words, the words XORed together.
use crate::hashing::random_range;
use vstd::prelude::*;

verus! {

/// Digit `i` (4 bits, least significant first) of `x`.
pub open spec fn digit(x: u64, i: int) -> int {
    ((x >> (4 * i) as u64) & 0xFu64) as int
}

/// XOR of the table words of the first `n` digits of `x`.
pub open spec fn tabulated(lookups: Seq<Seq<u64>>, x: u64, n: int) -> u64
    decreases n,
{
    if n <= 0 {
        0
    } else {
        tabulated(lookups, x, n - 1) ^ lookups[n - 1][digit(x, n - 1)]
    }
}

/// Sixteen lookup tables, one per 4-bit digit of a key.
pub struct TabulationHashing {
    pub(crate) lookups: Vec<Vec<u64>>,
}

impl TabulationHashing {
    pub closed spec fn wf(&self) -> bool {
        &&& self.lookups.len() == 16
        &&& forall|i: int| 0 <= i < 16 ==> (#[trigger] self.lookups@[i]).len() == 16
    }

    pub closed spec fn tables(&self) -> Seq<Seq<u64>> {
        Seq::new(16, |i: int| self.lookups@[i]@)
    }

    /// Sixteen tables of sixteen random words.
    pub fn new() -> (r: TabulationHashing)
        ensures
            r.wf(),
    {
        TabulationHashing { lookups: TabulationHashing::generate_lookups() }
    }

    fn generate_lookups() -> (r: Vec<Vec<u64>>)
        ensures
            r.len() == 16,
            forall|i: int| 0 <= i < 16 ==> (#[trigger] r@[i]).len() == 16,
    {
        let mut lookups: Vec<Vec<u64>> = Vec::new();
        let mut i: usize = 0;
        while i < 16
            invariant
                i <= 16,
                lookups.len() == i,
                forall|t: int| 0 <= t < i ==> (#[trigger] lookups@[t]).len() == 16,
            decreases 16 - i,
        {
            let mut lookup: Vec<u64> = Vec::new();
            let mut j: usize = 0;
            while j < 16
                invariant
                    j <= 16,
                    lookup.len() == j,
                decreases 16 - j,
            {
                lookup.push(random_range(0, u64::MAX - 1));
                j = j + 1;
            }
            lookups.push(lookup);
            i = i + 1;
        }
        lookups
    }

    /// The word of table `i` for digit value `x`.
    fn hash(&self, x: u8, i: usize) -> (r: u64)
        requires
            self.wf(),
            x < 16,
            i < 16,
        ensures
            r == self.tables()[i as int][x as int],
    {
        self.lookups[i][x as usize]
    }

    /// XOR of the words that the sixteen digits of `x` select.
    pub fn tabulation_hashing(&self, x: u64) -> (r: u64)
        requires
            self.wf(),
        ensures
            r == tabulated(self.tables(), x, 16),
    {
        let mut res: u64 = 0;
        let mut i: usize = 0;
        while i < 16
            invariant
                self.wf(),
                i <= 16,
                res == tabulated(self.tables(), x, i as int),
            decreases 16 - i,
        {
            let d = ((x >> (4 * i as u64)) & 0xFu64) as u8;
            assert(((x >> (4 * i as u64)) & 0xFu64) < 16) by (bit_vector);
            res = res ^ self.hash(d, i);
            i = i + 1;
        }
        res
    }
}

} // verus!
