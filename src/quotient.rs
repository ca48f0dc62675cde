//! The quotient filter: a key's 32-bit fingerprint splits into a quotient,
//! its home slot, and a remainder, the value stored. Remainders of one
//! quotient form a contiguous run; runs displaced by collisions form a
//! cluster, marked by the per-slot `is_occupied`, `is_continuation` and
//! `is_shifted` bits.
use crate::cuckoo::floor_log2;
use crate::hashing::HashFunction;
use vstd::prelude::*;

verus! {

/// The metadata bits of one slot.
#[derive(Debug, Clone, Copy, PartialEq, Eq)]
pub struct QuotientInfo {
    /// Some remainder has this slot as its home.
    pub is_occupied: bool,
    /// The remainder here is not in its home slot.
    pub is_shifted: bool,
    /// The remainder here belongs to the same run as the one before it.
    pub is_continuation: bool,
}

impl QuotientInfo {
    /// The bits of an empty slot.
    pub fn new() -> (r: QuotientInfo)
        ensures
            !r.is_occupied && !r.is_shifted && !r.is_continuation,
    {
        QuotientInfo { is_occupied: false, is_shifted: false, is_continuation: false }
    }

    pub open spec fn spec_is_empty(self) -> bool {
        !self.is_occupied && !self.is_shifted && !self.is_continuation
    }
}

/// Homes after a remainder of home `q` goes to slot `s` and slots `s..e`
/// move one right into slot `e`.
pub open spec fn shifted_homes(h: Seq<int>, q: int, s: int, e: int) -> Seq<int> {
    Seq::new(h.len(), |j: int| if j < s { h[j] } else if j == s { q } else if j <= e { h[j - 1] } else { h[j] })
}

/// The bits of slot `j` once the remainder of slot `j - 1` has moved in.
pub open spec fn moved_info(info: Seq<QuotientInfo>, j: int) -> QuotientInfo {
    QuotientInfo { is_occupied: info[j].is_occupied, is_shifted: true, is_continuation: info[j - 1].is_continuation }
}

/// Slot `j` of `b` after `v` goes to slot `s` and slots `s..e` move right.
pub open spec fn shifted_value(b: Seq<u32>, v: u32, s: int, e: int, j: int) -> u32 {
    if j < s {
        b[j]
    } else if j == s {
        v
    } else if j <= e {
        b[j - 1]
    } else {
        b[j]
    }
}

/// The bits of slot `j` after the same move, with home slot `q` marked
/// occupied.
pub open spec fn shifted_info(info: Seq<QuotientInfo>, q: int, s: int, e: int, continues: bool, j: int) -> QuotientInfo {
    QuotientInfo {
        is_occupied: info[j].is_occupied || j == q,
        is_shifted: if s < j <= e {
            true
        } else if j == s {
            s != q
        } else {
            info[j].is_shifted
        },
        is_continuation: if s < j <= e {
            info[j - 1].is_continuation
        } else if j == s {
            continues
        } else {
            info[j].is_continuation
        },
    }
}

/// A quotient filter of `size` slots, without wrap-around: a run that would
/// pass the last slot is refused.
pub struct QuotientFilter {
    pub(crate) buckets: Vec<u32>,
    pub(crate) bucket_info: Vec<QuotientInfo>,
    pub(crate) hashes: Vec<HashFunction>,
    pub(crate) size: u64,
    pub(crate) r: u8,
    /// The home slot of the remainder in each slot; -1 for an empty slot.
    pub(crate) homes: Ghost<Seq<int>>,
}

impl QuotientFilter {
    /// The slot layout: every stored remainder sits at or after its home,
    /// homes never decrease from one stored slot to the next, a remainder
    /// away from home has a stored neighbour on its left, and the three bits
    /// of each slot agree with the homes.
    pub closed spec fn layout_ok(&self) -> bool {
        let h = self.homes@;
        let n = self.size as int;
        &&& h.len() == n
        &&& forall|i: int| 0 <= i < n ==> -1 <= #[trigger] h[i] <= i
        &&& forall|i: int| 0 <= i < n && h[i] < 0 ==> (#[trigger] self.bucket_info@[i]).spec_is_empty()
        &&& forall|i: int| 0 <= i < n && h[i] >= 0 ==> ((#[trigger] self.bucket_info@[i]).is_shifted <==> h[i] != i)
        &&& forall|i: int|
            0 <= i < n && h[i] >= 0 ==> ((#[trigger] self.bucket_info@[i]).is_continuation <==> (i > 0 && h[i - 1] == h[i]))
        &&& forall|i: int| 0 < i < n && h[i - 1] >= 0 && #[trigger] h[i] >= 0 ==> h[i - 1] <= h[i]
        &&& forall|i: int| 0 < i < n && 0 <= #[trigger] h[i] < i ==> h[i - 1] >= 0
        &&& forall|q: int| 0 <= q < n ==> ((#[trigger] self.bucket_info@[q]).is_occupied <==> self.is_home(q))
    }

    /// Some stored remainder has home `q`.
    pub closed spec fn is_home(&self, q: int) -> bool {
        exists|i: int| 0 <= i < self.size && #[trigger] self.homes@[i] == q
    }

    pub closed spec fn wf(&self) -> bool {
        &&& 1 <= self.size <= u32::MAX
        &&& self.buckets.len() == self.size
        &&& self.bucket_info.len() == self.size
        &&& self.hashes.len() == 1
        &&& self.r < 32
        &&& self.layout_ok()
    }

    pub closed spec fn spec_size(&self) -> nat {
        self.size as nat
    }

    pub closed spec fn remainders(&self) -> Seq<u32> {
        self.buckets@
    }

    pub closed spec fn infos(&self) -> Seq<QuotientInfo> {
        self.bucket_info@
    }

    pub closed spec fn fingerprint_spec(&self, x: u64) -> u32 {
        self.hashes[0].spec_apply(x, 32)
    }

    /// Width of the remainder in bits.
    pub closed spec fn spec_r(&self) -> u32 {
        self.r as u32
    }

    /// The home slot: the high bits of the fingerprint, modulo the size.
    pub open spec fn quotient_spec(&self, f: u32) -> int {
        ((f >> self.spec_r()) as int) % (self.spec_size() as int)
    }

    /// The stored value: the low `r` bits of the fingerprint, modulo the size.
    pub open spec fn remainder_spec(&self, f: u32) -> int {
        ((f & ((1u32 << self.spec_r()) - 1u32) as u32) as int) % (self.spec_size() as int)
    }

    /// The filter holds remainder `v` under home slot `q`.
    pub closed spec fn holds(&self, q: int, v: int) -> bool {
        0 <= q && exists|i: int| 0 <= i < self.size && self.homes@[i] == q && #[trigger] self.buckets@[i] == v
    }

    /// `x` reads as present: its remainder is stored under its quotient.
    pub open spec fn contains(&self, x: u64) -> bool {
        self.holds(
            self.quotient_spec(self.fingerprint_spec(x)),
            self.remainder_spec(self.fingerprint_spec(x)),
        )
    }

    /// `self` is `prev` with the remainder of `x` placed at slot `s`, right
    /// after the run of its quotient (every slot from the quotient up to `s`
    /// holds a remainder of a home at most the quotient, and slot `s` is empty
    /// or holds a later home), and the slots `s..e` moved one right into the
    /// empty slot `e`.
    pub open spec fn placed_after(&self, prev: QuotientFilter, x: u64, s: int, e: int) -> bool {
        let q = prev.quotient_spec(prev.fingerprint_spec(x));
        &&& q <= s <= e < prev.spec_size()
        &&& forall|i: int| q <= i < s ==> 0 <= #[trigger] prev.home_of(i) <= q
        &&& (prev.home_of(s) < 0 || prev.home_of(s) > q)
        &&& prev.home_of(e) < 0
        &&& forall|j: int|
            0 <= j < prev.spec_size() ==> #[trigger] self.home_of(j) == shifted_homes(
                prev.homes_seq(),
                q,
                s,
                e,
            )[j]
        &&& forall|j: int|
            0 <= j < prev.spec_size() ==> #[trigger] self.remainders()[j] == shifted_value(
                prev.remainders(),
                prev.remainder_spec(prev.fingerprint_spec(x)) as u32,
                s,
                e,
                j,
            )
    }

    /// The home slots of all slots (negative for an empty slot).
    pub closed spec fn homes_seq(&self) -> Seq<int> {
        self.homes@
    }

    /// The home slot of the remainder in slot `i`; negative for an empty slot.
    pub closed spec fn home_of(&self, i: int) -> int {
        self.homes@[i]
    }

    /// The layout that every filter keeps, whatever inserts it went
    /// through: a remainder sits at or after its home; homes never decrease
    /// from left to right; every slot between a remainder's home and its
    /// slot is stored, so a run is found by walking right from its home; a
    /// slot is shifted exactly when it is away from its home, a continuation
    /// exactly when its left neighbour has the same home, and a home slot is
    /// occupied exactly when some remainder has it as home.
    #[verifier::spinoff_prover]
    #[verifier::rlimit(50)]
    pub proof fn lemma_layout(&self)
        requires
            self.wf(),
        ensures
            forall|i: int| 0 <= i < self.spec_size() ==> #[trigger] self.home_of(i) <= i,
            forall|i: int, j: int|
                0 <= i < j < self.spec_size() && self.home_of(i) >= 0 && self.home_of(j) >= 0 ==> #[trigger] self.home_of(i)
                    <= #[trigger] self.home_of(j),
            forall|i: int, j: int|
                0 <= i < self.spec_size() && 0 <= #[trigger] self.home_of(i) <= j <= i ==> #[trigger] self.home_of(j) >= 0,
            forall|i: int|
                0 <= i < self.spec_size() && self.home_of(i) < 0 ==> (#[trigger] self.infos()[i]).spec_is_empty(),
            forall|i: int|
                0 <= i < self.spec_size() && self.home_of(i) >= 0 ==> ((#[trigger] self.infos()[i]).is_shifted <==> self.home_of(i) != i),
            forall|i: int|
                0 <= i < self.spec_size() && self.home_of(i) >= 0 ==> ((#[trigger] self.infos()[i]).is_continuation <==> (i > 0
                    && self.home_of(i - 1) == self.home_of(i))),
            forall|q: int|
                0 <= q < self.spec_size() ==> ((#[trigger] self.infos()[q]).is_occupied <==> exists|i: int|
                    0 <= i < self.spec_size() && #[trigger] self.home_of(i) == q),
    {
        assert forall|i: int, j: int|
            0 <= i < j < self.spec_size() && self.home_of(i) >= 0 && self.home_of(j) >= 0 implies #[trigger] self.home_of(i)
                <= #[trigger] self.home_of(j) by {
            self.lemma_sorted(i, j);
        }
        assert forall|i: int, j: int|
            0 <= i < self.spec_size() && 0 <= #[trigger] self.home_of(i) <= j <= i implies #[trigger] self.home_of(j) >= 0 by {
            self.lemma_filled_down(i, self.home_of(i));
        }
        assert forall|q: int| 0 <= q < self.spec_size() implies ((#[trigger] self.infos()[q]).is_occupied <==> exists|i: int|
            0 <= i < self.spec_size() && #[trigger] self.home_of(i) == q) by {
            if self.is_home(q) {
                let i = choose|i: int| 0 <= i < self.size && #[trigger] self.homes@[i] == q;
                assert(self.home_of(i) == q);
            }
        }
    }

    /// Homes never decrease from one stored slot to any later one.
    proof fn lemma_sorted(&self, i: int, j: int)
        requires
            self.wf(),
            0 <= i < j < self.size,
            self.homes@[i] >= 0,
            self.homes@[j] >= 0,
        ensures
            self.homes@[i] <= self.homes@[j],
        decreases j - i,
    {
        let h = self.homes@;
        if h[j - 1] >= 0 {
            if i < j - 1 {
                self.lemma_sorted(i, j - 1);
            }
            assert(h[j - 1] <= h[j]);
        } else {
            assert(!(0 <= h[j] < j));
        }
    }

    /// Between a remainder's home and its slot, every slot is stored.
    proof fn lemma_filled_down(&self, i: int, lo: int)
        requires
            self.wf(),
            0 <= lo <= i < self.size,
            0 <= self.homes@[i] <= lo,
        ensures
            forall|j: int| lo <= j <= i ==> #[trigger] self.homes@[j] >= 0,
        decreases i - lo,
    {
        let h = self.homes@;
        if lo < i {
            assert(0 <= h[i] < i);
            assert(h[i - 1] >= 0);
            assert(h[i - 1] <= h[i]);
            self.lemma_filled_down(i - 1, lo);
        }
    }

    /// In the forward walk of a cluster starting at `b`: when `cur` is a
    /// home, its run starts at `s`, the first slot from `b` that is empty or
    /// holds a home of at least `cur`.
    proof fn lemma_run_head(&self, b: int, cur: int, q: int, s: int)
        requires
            self.wf(),
            0 <= b <= cur < q < self.size,
            b <= s < self.size,
            forall|i: int| b <= i <= q ==> #[trigger] self.homes@[i] >= 0,
            forall|i: int| b <= i < s ==> 0 <= #[trigger] self.homes@[i] < cur,
            self.homes@[s] < 0 || self.homes@[s] >= cur,
            self.bucket_info@[cur].is_occupied,
        ensures
            self.homes@[s] == cur,
    {
        assert(self.is_home(cur));
        let i = choose|i: int| 0 <= i < self.size && #[trigger] self.homes@[i] == cur;
        assert(i >= s);
        if s >= cur {
            self.lemma_filled_down(i, s);
        }
        if s < i {
            self.lemma_sorted(s, i);
        }
    }

    /// A slot after the end of a run of home `cur` is empty or holds a
    /// later home.
    proof fn lemma_run_end(&self, s: int, cur: int)
        requires
            self.wf(),
            0 < s < self.size,
            self.homes@[s - 1] == cur,
            !self.bucket_info@[s].is_continuation,
        ensures
            self.homes@[s] < 0 || self.homes@[s] > cur,
    {
        if self.homes@[s] >= 0 {
            assert(self.homes@[s - 1] <= self.homes@[s]);
        }
    }

    /// A scan of the run of `q` from its start that stops at slot `s` (the
    /// end of the slots, or a slot that is not a continuation) without
    /// meeting `rem` has seen every remainder of home `q`.
    proof fn lemma_run_exit(&self, q: int, start: int, s: int, rem: u32)
        requires
            self.wf(),
            0 <= q <= start < s <= self.size,
            forall|i: int| start <= i < s ==> #[trigger] self.homes@[i] == q,
            forall|i: int| start <= i < s ==> #[trigger] self.buckets@[i] != rem,
            forall|i: int| q <= i < start ==> 0 <= #[trigger] self.homes@[i] < q,
            s < self.size ==> !self.bucket_info@[s].is_continuation,
        ensures
            forall|i: int| 0 <= i < self.size && self.homes@[i] == q ==> #[trigger] self.buckets@[i] != rem,
    {
        let h = self.homes@;
        assert forall|i: int| 0 <= i < self.size && self.homes@[i] == q implies #[trigger] self.buckets@[i] != rem by {
            assert(i >= q);
            assert(i >= start);
            if i >= s {
                if h[s] >= 0 {
                    assert(h[s - 1] <= h[s]);
                    assert(h[s] != q);
                    if s < i {
                        self.lemma_sorted(s, i);
                    }
                } else {
                    self.lemma_filled_down(i, s);
                }
            }
        }
    }

    /// An empty filter of `size` slots.
    pub fn new(size: u64) -> (r: QuotientFilter)
        requires
            1 <= size <= u32::MAX,
        ensures
            r.wf(),
            r.spec_size() == size,
            forall|i: int| 0 <= i < size ==> (#[trigger] r.infos()[i]).spec_is_empty(),
            forall|x: u64| !r.contains(x),
            r.remainders() == Seq::new(size as nat, |i: int| 0u32),
            crate::hashing::two_to(r.spec_r() as nat) <= size < 2 * crate::hashing::two_to(r.spec_r() as nat),
    {
        let length = size as usize;
        let r = floor_log2(size);
        proof {
            crate::hashing::lemma_two_to_below_32(r as nat);
        }
        let f = QuotientFilter {
            buckets: vec![0u32; length],
            bucket_info: QuotientFilter::generate_info(length),
            hashes: crate::hashing::generate_hash_functions(1),
            size,
            r: r as u8,
            homes: Ghost(Seq::new(size as nat, |i: int| -1int)),
        };
        assert(f.remainders() =~= Seq::new(size as nat, |i: int| 0u32));
        proof {
            assert forall|q: int| 0 <= q < size implies ((#[trigger] f.bucket_info@[q]).is_occupied <==> f.is_home(q)) by {
                if f.is_home(q) {
                    let i = choose|i: int| 0 <= i < f.size && #[trigger] f.homes@[i] == q;
                }
            }
        }
        f
    }

    fn generate_info(size: usize) -> (r: Vec<QuotientInfo>)
        ensures
            r.len() == size,
            forall|i: int| 0 <= i < size ==> (#[trigger] r@[i]).spec_is_empty(),
    {
        let mut infos: Vec<QuotientInfo> = Vec::new();
        let mut i: usize = 0;
        while i < size
            invariant
                i <= size,
                infos.len() == i,
                forall|t: int| 0 <= t < i ==> (#[trigger] infos@[t]).spec_is_empty(),
            decreases size - i,
        {
            infos.push(QuotientInfo::new());
            i = i + 1;
        }
        infos
    }

    /// The 32-bit fingerprint of `x`.
    pub fn fingerprint(&self, x: u64) -> (r: u32)
        requires
            self.wf(),
        ensures
            r == self.fingerprint_spec(x),
    {
        self.hashes[0].apply(x, 32)
    }

    pub fn get_quotient(&self, fingerprint: u32) -> (r: u32)
        requires
            self.wf(),
        ensures
            r == self.quotient_spec(fingerprint),
            r < self.spec_size(),
    {
        (fingerprint >> (self.r as u32)) % (self.size as u32)
    }

    pub fn get_remainder(&self, fingerprint: u32) -> (r: u32)
        requires
            self.wf(),
        ensures
            r == self.remainder_spec(fingerprint),
    {
        let sh = self.r as u32;
        assert((1u32 << sh) >= 1u32) by (bit_vector)
            requires
                sh < 32,
        ;
        let mask: u32 = (1u32 << sh) - 1u32;
        (fingerprint & mask) % (self.size as u32)
    }

    /// The first slot at or after `q` that is empty or holds a remainder
    /// whose home is at least `q`: where the run of `q` starts, or would
    /// start. Walks left to the start of the cluster, then forward run by
    /// run, pairing each occupied home slot with the next run. Nothing when
    /// every slot from `q` on holds a remainder of an earlier home.
    #[verifier::rlimit(60)]
    fn run_start(&self, q: usize) -> (r: Option<usize>)
        requires
            self.wf(),
            q < self.size,
        ensures
            r matches Some(s) ==> {
                &&& q <= s < self.size
                &&& forall|i: int| q <= i < s ==> 0 <= #[trigger] self.homes@[i] < q
                &&& (self.homes@[s as int] < 0 || self.homes@[s as int] >= q)
            },
            r is None ==> forall|i: int| q <= i < self.size ==> 0 <= #[trigger] self.homes@[i] < q,
    {
        let ghost h = self.homes@;
        let n = self.size as usize;
        let mut b = q;
        while b > 0 && self.bucket_info[b].is_shifted
            invariant
                self.wf(),
                n == self.size,
                h == self.homes@,
                b <= q < n,
                forall|i: int| b < i <= q ==> (#[trigger] self.bucket_info@[i]).is_shifted,
            decreases b,
        {
            b = b - 1;
        }
        proof {
            assert forall|i: int| b < i <= q implies #[trigger] h[i] >= 0 by {
                assert(self.bucket_info@[i].is_shifted);
            }
            if b < q {
                assert(self.bucket_info@[b + 1].is_shifted);
                assert(h[b + 1] >= 0);
                assert(h[b + 1] != b + 1);
                assert(h[b as int] >= 0);
            }
            if h[b as int] >= 0 {
                assert(!self.bucket_info@[b as int].is_shifted);
            }
        }
        let mut cur = b;
        let mut s = b;
        while cur < q
            invariant
                self.wf(),
                n == self.size,
                h == self.homes@,
                b <= cur <= q < n,
                b <= s < n,
                b < q ==> forall|i: int| b <= i <= q ==> #[trigger] h[i] >= 0,
                forall|i: int| b <= i < s ==> 0 <= #[trigger] h[i] < cur,
                h[s as int] < 0 || h[s as int] >= cur,
            decreases q - cur,
        {
            if self.bucket_info[cur].is_occupied {
                proof {
                    self.lemma_run_head(b as int, cur as int, q as int, s as int);
                }
                s = s + 1;
                while s < n && self.bucket_info[s].is_continuation
                    invariant
                        self.wf(),
                        n == self.size,
                        h == self.homes@,
                        b <= cur < q < n,
                        b < s <= n,
                        h[s - 1] == cur,
                        forall|i: int| b <= i < s ==> 0 <= #[trigger] h[i] <= cur,
                    decreases n - s,
                {
                    s = s + 1;
                }
                if s >= n {
                    proof {
                        assert forall|i: int| q <= i < self.size implies 0 <= #[trigger] self.homes@[i] < q by {
                            assert(h[i] <= cur);
                        }
                    }
                    return None;
                }
                proof {
                    self.lemma_run_end(s as int, cur as int);
                }
            } else {
                proof {
                    if h[s as int] == cur {
                        assert(self.is_home(cur as int));
                    }
                }
            }
            cur = cur + 1;
        }
        proof {
            if s < q {
                assert(h[s as int] >= 0);
            }
        }
        Some(s)
    }

    /// Inserts the remainder of `x` into the run of its quotient: finds the
    /// end of that run (or where the run begins), shifts the stored
    /// remainders up to the next empty slot one slot right, and writes the
    /// remainder in the freed slot. False, with nothing changed, when no
    /// empty slot lies to the right.
    #[verifier::spinoff_prover]
    #[verifier::rlimit(50)]
    pub fn insert(&mut self, x: u64) -> (r: bool)
        requires
            old(self).wf(),
        ensures
            final(self).wf(),
            final(self).spec_size() == old(self).spec_size(),
            final(self).spec_r() == old(self).spec_r(),
            forall|y: u64| #[trigger] final(self).fingerprint_spec(y) == old(self).fingerprint_spec(y),
            r == exists|j: int|
                old(self).quotient_spec(old(self).fingerprint_spec(x)) <= j < old(self).spec_size()
                    && #[trigger] old(self).home_of(j) < 0,
            r ==> final(self).contains(x),
            r ==> exists|s: int, e: int| #[trigger] final(self).placed_after(*old(self), x, s, e),
            r ==> forall|q: int, v: int| #[trigger] final(self).holds(q, v) <==> (old(self).holds(q, v) || (
                q == old(self).quotient_spec(old(self).fingerprint_spec(x)) && v == old(self).remainder_spec(
                    old(self).fingerprint_spec(x),
                ))),
            !r ==> *final(self) == *old(self),
    {
        let fingerprint = self.fingerprint(x);
        let q = self.get_quotient(fingerprint) as usize;
        let rem = self.get_remainder(fingerprint);
        match self.insertion_point(q) {
            Some((s, e)) => {
                proof {
                    assert(self.home_of(e as int) < 0);
                }
                let ghost before = *self;
                self.place_at(q, s, e, rem);
                proof {
                    assert(forall|i: int| q <= i < s ==> 0 <= #[trigger] before.home_of(i) <= q);
                    assert(self.homes_seq() == shifted_homes(before.homes_seq(), q as int, s as int, e as int));
                    assert(self.placed_after(before, x, s as int, e as int));
                }
                assert(self.holds(q as int, rem as int));
                true
            },
            None => {
                proof {
                    assert forall|j: int| q <= j < self.spec_size() implies !(#[trigger] self.home_of(j) < 0) by {
                        assert(self.homes@[j] >= 0);
                    }
                }
                false
            },
        }
    }

    /// Where a remainder of home `q` goes: the slot `s` after the run of
    /// `q` (or where that run would begin), and the first empty slot `e` at
    /// or after it. Nothing when no empty slot lies to the right.
    #[verifier::spinoff_prover]
    #[verifier::rlimit(50)]
    fn insertion_point(&self, q: usize) -> (r: Option<(usize, usize)>)
        requires
            self.wf(),
            q < self.size,
        ensures
            r matches Some((s, e)) ==> {
                &&& q <= s <= e < self.size
                &&& forall|i: int| q <= i < s ==> 0 <= #[trigger] self.homes@[i] <= q
                &&& (self.bucket_info@[q as int].is_occupied ==> s > q && self.homes@[s - 1] == q)
                &&& (!self.bucket_info@[q as int].is_occupied ==> forall|i: int|
                    0 <= i < self.size ==> #[trigger] self.homes@[i] != q)
                &&& (self.homes@[s as int] < 0 || self.homes@[s as int] > q)
                &&& forall|i: int| s <= i < e ==> #[trigger] self.homes@[i] >= 0
                &&& self.homes@[e as int] < 0
                &&& (e + 1 < self.size && self.homes@[e + 1] >= 0 ==> self.homes@[e + 1] == e + 1)
            },
            r is None <==> forall|j: int| q <= j < self.size ==> #[trigger] self.homes@[j] >= 0,
    {
        let n = self.size as usize;
        let ghost h = self.homes@;
        let was_occupied = self.bucket_info[q].is_occupied;
        let mut s = match self.run_start(q) {
            Some(s) => s,
            None => return None,
        };
        if was_occupied {
            proof {
                assert(self.is_home(q as int));
                let i = choose|i: int| 0 <= i < self.size && #[trigger] self.homes@[i] == q;
                assert(i >= s);
                self.lemma_filled_down(i, s as int);
                if s < i {
                    self.lemma_sorted(s as int, i);
                }
                assert(h[s as int] == q);
            }
            s = s + 1;
            while s < n && self.bucket_info[s].is_continuation
                invariant
                    self.wf(),
                    n == self.size,
                    h == self.homes@,
                    q < s <= n,
                    h[s - 1] == q,
                    forall|i: int| q <= i < s ==> 0 <= #[trigger] h[i] <= q,
                decreases n - s,
            {
                s = s + 1;
            }
        } else {
            proof {
                if h[s as int] == q {
                    assert(self.is_home(q as int));
                }
            }
        }
        if s >= n {
            proof {
                assert forall|j: int| q <= j < self.size implies #[trigger] self.homes@[j] >= 0 by {
                    assert(h[j] >= 0);
                }
            }
            return None;
        }
        proof {
            if was_occupied && h[s as int] >= 0 {
                assert(!self.bucket_info@[s as int].is_continuation);
                assert(h[s - 1] <= h[s as int]);
            }
        }
        // Here every slot in [q, s) holds a remainder of a home at most q,
        // and slot s is empty or holds one of a later home.
        let mut e = s;
        while e < n && !self.bucket_info[e].is_empty()
            invariant
                self.wf(),
                n == self.size,
                h == self.homes@,
                s <= e <= n,
                forall|i: int| s <= i < e ==> #[trigger] h[i] >= 0,
            decreases n - e,
        {
            proof {
                if h[e as int] < 0 {
                    assert(self.bucket_info@[e as int].spec_is_empty());
                }
            }
            e = e + 1;
        }
        if e >= n {
            proof {
                assert forall|j: int| q <= j < self.size implies #[trigger] self.homes@[j] >= 0 by {
                    if j < s {
                        assert(0 <= h[j] <= q);
                    } else {
                        assert(h[j] >= 0);
                    }
                }
            }
            return None;
        }
        proof {
            if h[e as int] >= 0 {
                if h[e as int] == e {
                    assert(self.is_home(e as int));
                }
            }
            assert(h[e as int] < 0);
            if e + 1 < n && h[e + 1] >= 0 {
                assert(!(0 <= h[e + 1] < e + 1));
            }
        }
        Some((s, e))
    }

    /// Writes remainder `rem` of home `q` at slot `s`, moving the slots
    /// `s..e` one right into the empty slot `e`, and marks `q` occupied.
    #[verifier::spinoff_prover]
    #[verifier::rlimit(50)]
    fn place_at(&mut self, q: usize, s: usize, e: usize, rem: u32)
        requires
            old(self).wf(),
            ({
                &&& q <= s <= e < old(self).size
                &&& forall|i: int| q <= i < s ==> 0 <= #[trigger] old(self).homes@[i] <= q
                &&& (old(self).bucket_info@[q as int].is_occupied ==> s > q && old(self).homes@[s - 1] == q)
                &&& (!old(self).bucket_info@[q as int].is_occupied ==> forall|i: int|
                    0 <= i < old(self).size ==> #[trigger] old(self).homes@[i] != q)
                &&& (old(self).homes@[s as int] < 0 || old(self).homes@[s as int] > q)
                &&& forall|i: int| s <= i < e ==> #[trigger] old(self).homes@[i] >= 0
                &&& old(self).homes@[e as int] < 0
                &&& (e + 1 < old(self).size && old(self).homes@[e + 1] >= 0 ==> old(self).homes@[e + 1] == e + 1)
            }),
        ensures
            final(self).wf(),
            final(self).size == old(self).size,
            final(self).r == old(self).r,
            final(self).hashes == old(self).hashes,
            forall|hq: int, v: int| #[trigger] final(self).holds(hq, v) <==> (old(self).holds(hq, v) || (hq == q && v == rem)),
            final(self).homes@ == shifted_homes(old(self).homes@, q as int, s as int, e as int),
            forall|j: int|
                0 <= j < old(self).size ==> #[trigger] final(self).buckets@[j] == shifted_value(
                    old(self).buckets@,
                    rem,
                    s as int,
                    e as int,
                    j,
                ),
    {
        let n = self.size as usize;
        let ghost h = self.homes@;
        let was_occupied = self.bucket_info[q].is_occupied;
        let ghost old_buckets = self.buckets@;
        let ghost old_info = self.bucket_info@;
        self.shift_right(s, e);
        self.buckets.set(s, rem);
        let here = self.bucket_info[s];
        self.bucket_info.set(
            s,
            QuotientInfo { is_occupied: here.is_occupied, is_shifted: s != q, is_continuation: was_occupied },
        );
        let home = self.bucket_info[q];
        self.bucket_info.set(
            q,
            QuotientInfo { is_occupied: true, is_shifted: home.is_shifted, is_continuation: home.is_continuation },
        );
        let ghost nh = shifted_homes(h, q as int, s as int, e as int);
        self.homes = Ghost(nh);
        proof {
            assert forall|j: int| 0 <= j < n implies #[trigger] self.buckets@[j] == shifted_value(old_buckets, rem, s as int, e as int, j) by {}
            assert forall|j: int|
                0 <= j < n implies #[trigger] self.bucket_info@[j] == shifted_info(old_info, q as int, s as int, e as int, was_occupied, j) by {
                if j == q as int {
                    if j == s as int {
                    } else {
                        assert(!(s < j <= e));
                    }
                }
            }
            self.lemma_insert_layout(*old(self), q as int, s as int, e as int, rem, was_occupied);
        }
    }

    /// Moves the slots `s..e` one slot right, into slot `e`; slot `s` keeps
    /// its contents until it is written.
    fn shift_right(&mut self, s: usize, e: usize)
        requires
            s <= e < old(self).buckets.len(),
            old(self).bucket_info.len() == old(self).buckets.len(),
        ensures
            final(self).hashes == old(self).hashes,
            final(self).r == old(self).r,
            final(self).size == old(self).size,
            final(self).homes == old(self).homes,
            final(self).buckets.len() == old(self).buckets.len(),
            final(self).bucket_info.len() == old(self).bucket_info.len(),
            forall|j: int|
                0 <= j < old(self).buckets.len() ==> #[trigger] final(self).buckets@[j] == (if s < j <= e {
                    old(self).buckets@[j - 1]
                } else {
                    old(self).buckets@[j]
                }),
            forall|j: int|
                0 <= j < old(self).buckets.len() ==> #[trigger] final(self).bucket_info@[j] == (if s < j <= e {
                    moved_info(old(self).bucket_info@, j)
                } else {
                    old(self).bucket_info@[j]
                }),
    {
        let n = self.buckets.len();
        let ghost old_buckets = self.buckets@;
        let ghost old_info = self.bucket_info@;
        let mut i = e;
        while i > s
            invariant
                s <= i <= e < n,
                self.buckets.len() == n,
                self.bucket_info.len() == n,
                self.hashes == old(self).hashes,
                self.r == old(self).r,
                self.size == old(self).size,
                self.homes == old(self).homes,
                old_buckets == old(self).buckets@,
                old_info == old(self).bucket_info@,
                forall|j: int|
                    0 <= j < n ==> #[trigger] self.buckets@[j] == (if i < j <= e {
                        old_buckets[j - 1]
                    } else {
                        old_buckets[j]
                    }),
                forall|j: int|
                    0 <= j < n ==> #[trigger] self.bucket_info@[j] == (if i < j <= e {
                        moved_info(old_info, j)
                    } else {
                        old_info[j]
                    }),
            decreases i,
        {
            let moved = self.buckets[i - 1];
            self.buckets.set(i, moved);
            let prev = self.bucket_info[i - 1];
            let here = self.bucket_info[i];
            self.bucket_info.set(
                i,
                QuotientInfo { is_occupied: here.is_occupied, is_shifted: true, is_continuation: prev.is_continuation },
            );
            i = i - 1;
        }
    }

    /// `self` is `prev` after placing remainder `rem` of home `q` at slot
    /// `s`, with the slots `s..e` moved one right into the empty slot `e`.
    pub closed spec fn is_insert_step(&self, prev: QuotientFilter, q: int, s: int, e: int, rem: u32, was_occupied: bool) -> bool {
        &&& prev.wf()
        &&& self.size == prev.size
        &&& self.hashes == prev.hashes
        &&& self.r == prev.r
        &&& self.buckets.len() == prev.size
        &&& self.bucket_info.len() == prev.size
        &&& 0 <= q <= s <= e < prev.size
        &&& was_occupied == prev.bucket_info@[q].is_occupied
        &&& forall|i: int| q <= i < s ==> 0 <= #[trigger] prev.homes@[i] <= q
        &&& was_occupied ==> s > q && prev.homes@[s - 1] == q
        &&& !was_occupied ==> forall|i: int| 0 <= i < prev.size ==> #[trigger] prev.homes@[i] != q
        &&& prev.homes@[s] < 0 || prev.homes@[s] > q
        &&& forall|i: int| s <= i < e ==> #[trigger] prev.homes@[i] >= 0
        &&& prev.homes@[e] < 0
        &&& e + 1 < prev.size && prev.homes@[e + 1] >= 0 ==> prev.homes@[e + 1] == e + 1
        &&& self.homes@ == shifted_homes(prev.homes@, q, s, e)
        &&& forall|j: int| 0 <= j < prev.size ==> #[trigger] self.buckets@[j] == shifted_value(prev.buckets@, rem, s, e, j)
        &&& forall|j: int| 0 <= j < prev.size ==> #[trigger] self.bucket_info@[j] == shifted_info(prev.bucket_info@, q, s, e, was_occupied, j)
    }

    #[verifier::spinoff_prover]
    #[verifier::rlimit(50)]
    proof fn lemma_step_bounds(&self, prev: QuotientFilter, q: int, s: int, e: int, rem: u32, was_occupied: bool)
        requires
            self.is_insert_step(prev, q, s, e, rem, was_occupied),
        ensures
            forall|i: int| 0 <= i < prev.size ==> -1 <= #[trigger] self.homes@[i] <= i,
    {
        let h = prev.homes@;
        let nh = self.homes@;
        let n = prev.size as int;
        assert forall|i: int| 0 <= i < n implies -1 <= #[trigger] nh[i] <= i by {}
    }

    #[verifier::spinoff_prover]
    #[verifier::rlimit(50)]
    proof fn lemma_step_empty(&self, prev: QuotientFilter, q: int, s: int, e: int, rem: u32, was_occupied: bool)
        requires
            self.is_insert_step(prev, q, s, e, rem, was_occupied),
        ensures
            forall|i: int| 0 <= i < prev.size && self.homes@[i] < 0 ==> (#[trigger] self.bucket_info@[i]).spec_is_empty(),
    {
        let h = prev.homes@;
        let nh = self.homes@;
        let n = prev.size as int;
        assert forall|i: int| 0 <= i < n && nh[i] < 0 implies (#[trigger] self.bucket_info@[i]).spec_is_empty() by {
            assert(prev.bucket_info@[i].spec_is_empty());
            if i == q {
                assert(false);
            }
        }
    }

    #[verifier::spinoff_prover]
    #[verifier::rlimit(50)]
    proof fn lemma_step_shifted(&self, prev: QuotientFilter, q: int, s: int, e: int, rem: u32, was_occupied: bool)
        requires
            self.is_insert_step(prev, q, s, e, rem, was_occupied),
        ensures
            forall|i: int| 0 <= i < prev.size && self.homes@[i] >= 0 ==> ((#[trigger] self.bucket_info@[i]).is_shifted <==> self.homes@[i] != i),
    {
        let h = prev.homes@;
        let nh = self.homes@;
        let n = prev.size as int;
        assert forall|i: int| 0 <= i < n && nh[i] >= 0 implies ((#[trigger] self.bucket_info@[i]).is_shifted <==> nh[i] != i) by {
            if s < i <= e {
                assert(h[i - 1] <= i - 1);
            }
        }
    }

    #[verifier::spinoff_prover]
    #[verifier::rlimit(50)]
    proof fn lemma_step_continuation(&self, prev: QuotientFilter, q: int, s: int, e: int, rem: u32, was_occupied: bool)
        requires
            self.is_insert_step(prev, q, s, e, rem, was_occupied),
        ensures
            forall|i: int|
                0 <= i < prev.size && self.homes@[i] >= 0 ==> ((#[trigger] self.bucket_info@[i]).is_continuation <==> (i > 0
                    && self.homes@[i - 1] == self.homes@[i])),
    {
        let h = prev.homes@;
        let nh = self.homes@;
        let n = prev.size as int;
        assert forall|i: int|
            0 <= i < n && nh[i] >= 0 implies ((#[trigger] self.bucket_info@[i]).is_continuation <==> (i > 0 && nh[i - 1] == nh[i])) by {
            if i == s {
                if s > 0 && !was_occupied {
                    if s - 1 >= q {
                        assert(h[s - 1] != q);
                    } else {
                        assert(h[s - 1] <= s - 1);
                    }
                }
            } else if i == s + 1 && i <= e {
                assert(h[s] > q);
                if s > 0 && h[s - 1] >= 0 {
                    if s - 1 >= q {
                        assert(h[s - 1] <= q);
                    } else {
                        assert(h[s - 1] <= s - 1);
                    }
                }
            } else if s + 1 < i <= e {
                assert(h[i - 1] >= 0);
            } else if i == e + 1 {
                assert(h[e + 1] == e + 1);
                assert(!prev.bucket_info@[i].is_continuation);
                if e > s {
                    assert(h[e - 1] <= e - 1);
                }
            }
        }
    }

    #[verifier::spinoff_prover]
    #[verifier::rlimit(50)]
    proof fn lemma_step_sorted(&self, prev: QuotientFilter, q: int, s: int, e: int, rem: u32, was_occupied: bool)
        requires
            self.is_insert_step(prev, q, s, e, rem, was_occupied),
        ensures
            forall|i: int| 0 < i < prev.size && self.homes@[i - 1] >= 0 && #[trigger] self.homes@[i] >= 0 ==> self.homes@[i - 1] <= self.homes@[i],
    {
        let h = prev.homes@;
        let nh = self.homes@;
        let n = prev.size as int;
        assert forall|i: int| 0 < i < n && nh[i - 1] >= 0 && #[trigger] nh[i] >= 0 implies nh[i - 1] <= nh[i] by {
            if i == s {
                if s - 1 >= q {
                    assert(h[s - 1] <= q);
                } else {
                    assert(h[s - 1] <= s - 1);
                }
            } else if i == s + 1 && i <= e {
                assert(h[s] > q);
            } else if s + 1 < i <= e {
                assert(h[i - 2] >= 0 && h[i - 1] >= 0);
            } else if i == e + 1 {
                assert(h[e + 1] == e + 1);
                if e > s {
                    assert(h[e - 1] <= e - 1);
                }
            }
        }
    }

    #[verifier::spinoff_prover]
    #[verifier::rlimit(50)]
    proof fn lemma_step_packed(&self, prev: QuotientFilter, q: int, s: int, e: int, rem: u32, was_occupied: bool)
        requires
            self.is_insert_step(prev, q, s, e, rem, was_occupied),
        ensures
            forall|i: int| 0 < i < prev.size && 0 <= #[trigger] self.homes@[i] < i ==> self.homes@[i - 1] >= 0,
    {
        let h = prev.homes@;
        let nh = self.homes@;
        let n = prev.size as int;
        assert forall|i: int| 0 < i < n && 0 <= #[trigger] nh[i] < i implies nh[i - 1] >= 0 by {
            if i == s {
                assert(h[s - 1] >= 0);
            } else if i == e + 1 {
                assert(h[e + 1] == e + 1);
            } else if i > e + 1 {
                assert(h[i - 1] >= 0);
            }
        }
    }

    #[verifier::spinoff_prover]
    #[verifier::rlimit(50)]
    proof fn lemma_step_occupied(&self, prev: QuotientFilter, q: int, s: int, e: int, rem: u32, was_occupied: bool)
        requires
            self.is_insert_step(prev, q, s, e, rem, was_occupied),
        ensures
            forall|hq: int| 0 <= hq < prev.size ==> ((#[trigger] self.bucket_info@[hq]).is_occupied <==> self.is_home(hq)),
    {
        let h = prev.homes@;
        let nh = self.homes@;
        let n = prev.size as int;
        assert forall|hq: int| 0 <= hq < n implies ((#[trigger] self.bucket_info@[hq]).is_occupied <==> self.is_home(hq)) by {
            if prev.bucket_info@[hq].is_occupied {
                assert(prev.is_home(hq));
                let i = choose|i: int| 0 <= i < prev.size && #[trigger] prev.homes@[i] == hq;
                if i < s {
                    assert(nh[i] == hq);
                } else if i < e {
                    assert(nh[i + 1] == hq);
                } else {
                    assert(i != e);
                    assert(nh[i] == hq);
                }
            }
            if hq == q {
                assert(nh[s] == q);
            }
            if self.is_home(hq) {
                let i = choose|i: int| 0 <= i < self.size && #[trigger] self.homes@[i] == hq;
                if i < s || i > e {
                    assert(prev.is_home(hq));
                } else if s < i {
                    assert(h[i - 1] == hq);
                    assert(prev.is_home(hq));
                }
            }
        }
    }

    #[verifier::spinoff_prover]
    #[verifier::rlimit(50)]
    proof fn lemma_step_holds(&self, prev: QuotientFilter, q: int, s: int, e: int, rem: u32, was_occupied: bool)
        requires
            self.is_insert_step(prev, q, s, e, rem, was_occupied),
        ensures
            forall|hq: int, v: int| #[trigger] self.holds(hq, v) <==> (prev.holds(hq, v) || (hq == q && v == rem)),
    {
        let h = prev.homes@;
        let nh = self.homes@;
        let n = prev.size as int;
        assert forall|hq: int, v: int| #[trigger] self.holds(hq, v) <==> (prev.holds(hq, v) || (hq == q && v == rem)) by {
            if prev.holds(hq, v) {
                let i = choose|i: int| 0 <= i < prev.size && prev.homes@[i] == hq && #[trigger] prev.buckets@[i] == v;
                if i < s {
                    assert(self.buckets@[i] == v);
                } else if i < e {
                    assert(self.buckets@[i + 1] == v);
                } else {
                    assert(i != e);
                    assert(self.buckets@[i] == v);
                }
            }
            if hq == q && v == rem {
                assert(self.buckets@[s] == v);
            }
            if self.holds(hq, v) {
                let i = choose|i: int| 0 <= i < self.size && self.homes@[i] == hq && #[trigger] self.buckets@[i] == v;
                if i < s || i > e {
                    assert(prev.buckets@[i] == v);
                } else if s < i {
                    assert(prev.buckets@[i - 1] == v);
                }
            }
        }

    }

    /// The layout after placing remainder `rem` of home `q` at slot `s`, with
    /// the slots `s..e` moved one right into the empty slot `e`.
    proof fn lemma_insert_layout(&self, prev: QuotientFilter, q: int, s: int, e: int, rem: u32, was_occupied: bool)
        requires
            self.is_insert_step(prev, q, s, e, rem, was_occupied),
        ensures
            self.wf(),
            forall|hq: int, v: int| #[trigger] self.holds(hq, v) <==> (prev.holds(hq, v) || (hq == q && v == rem)),
    {
            self.lemma_step_bounds(prev, q, s, e, rem, was_occupied);
            self.lemma_step_empty(prev, q, s, e, rem, was_occupied);
            self.lemma_step_shifted(prev, q, s, e, rem, was_occupied);
            self.lemma_step_continuation(prev, q, s, e, rem, was_occupied);
            self.lemma_step_sorted(prev, q, s, e, rem, was_occupied);
            self.lemma_step_packed(prev, q, s, e, rem, was_occupied);
            self.lemma_step_occupied(prev, q, s, e, rem, was_occupied);
            self.lemma_step_holds(prev, q, s, e, rem, was_occupied);
    }

    /// Whether the remainder of `x` is in the run of its quotient.
    #[verifier::spinoff_prover]
    #[verifier::rlimit(50)]
    pub fn member(&self, x: u64) -> (r: bool)
        requires
            self.wf(),
        ensures
            r == self.contains(x),
    {
        let n = self.size as usize;
        let f = self.fingerprint(x);
        let q = self.get_quotient(f) as usize;
        let rem = self.get_remainder(f);
        let ghost h = self.homes@;
        if !self.bucket_info[q].is_occupied {
            proof {
                if self.holds(q as int, rem as int) {
                    let i = choose|i: int| 0 <= i < self.size && self.homes@[i] == q && #[trigger] self.buckets@[i] == rem;
                    assert(self.is_home(q as int));
                }
            }
            return false;
        }
        proof {
            assert(self.is_home(q as int));
        }
        let ghost witness = choose|i: int| 0 <= i < self.size && #[trigger] self.homes@[i] == q;
        let start = match self.run_start(q) {
            Some(s) => s,
            None => {
                assert(h[witness] < q);
                return false;
            },
        };
        proof {
            assert(witness >= start);
            self.lemma_filled_down(witness, start as int);
            if start < witness {
                self.lemma_sorted(start as int, witness);
            }
            assert(h[start as int] == q);
        }
        let mut s = start;
        loop
            invariant
                self.wf(),
                n == self.size,
                h == self.homes@,
                q <= start <= s < n,
                q == self.quotient_spec(self.fingerprint_spec(x)),
                rem == self.remainder_spec(self.fingerprint_spec(x)),
                forall|i: int| start <= i <= s ==> #[trigger] h[i] == q,
                forall|i: int| start <= i < s ==> #[trigger] self.buckets@[i] != rem,
                forall|i: int| q <= i < start ==> 0 <= #[trigger] h[i] < q,
            decreases n - s,
        {
            if self.buckets[s] == rem {
                return true;
            }
            s = s + 1;
            if s >= n || !self.bucket_info[s].is_continuation {
                proof {
                    self.lemma_run_exit(q as int, start as int, s as int, rem);
                }
                return false;
            }
        }
    }

    pub fn size(&self) -> (r: u64)
        ensures
            r == self.spec_size(),
    {
        self.size
    }
}

impl QuotientInfo {
    /// Whether no remainder sits in this slot and none has it as home.
    pub fn is_empty(&self) -> (r: bool)
        ensures
            r == self.spec_is_empty(),
    {
        !self.is_occupied && !self.is_shifted && !self.is_continuation
    }
}

} // verus!
