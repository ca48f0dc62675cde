//! Key sets for exercising the filters: a set of keys to insert and a set
//! of keys to query, drawn at random, as disjoint ranges, or mixed.
use crate::hashing::random_range;
use rand::seq::SliceRandom;
use vstd::prelude::*;

verus! {

/// Draws per key before a random key set stops short.
const DRAWS_PER_KEY: u64 = 64;

/// Relies on rand's `SliceRandom::shuffle` (a Fisher-Yates shuffle by
/// swaps) on the thread generator: the same keys, reordered.
#[verifier::external_body]
fn shuffle(v: &mut Vec<u64>)
    ensures
        final(v)@.len() == old(v)@.len(),
        final(v)@.to_multiset() == old(v)@.to_multiset(),
{
    v.shuffle(&mut rand::thread_rng())
}

/// No key occurs twice.
pub open spec fn distinct(s: Seq<u64>) -> bool {
    forall|a: int, b: int| 0 <= a < b < s.len() ==> s[a] != s[b]
}

/// How many of the entries `a..b` of `seen` are unmarked.
pub open spec fn unmarked(seen: Seq<bool>, a: int, b: int) -> int
    decreases b - a,
{
    if a >= b {
        0
    } else {
        unmarked(seen, a + 1, b) + if seen[a] {
            0int
        } else {
            1int
        }
    }
}

proof fn lemma_unmarked_mark(seen: Seq<bool>, v: int, a: int, b: int)
    requires
        0 <= a <= b <= seen.len(),
        0 <= v < seen.len(),
        !seen[v],
    ensures
        unmarked(seen.update(v, true), a, b) == unmarked(seen, a, b) - if a <= v < b {
            1int
        } else {
            0int
        },
    decreases b - a,
{
    if a < b {
        lemma_unmarked_mark(seen, v, a + 1, b);
    }
}

proof fn lemma_unmarked_all(seen: Seq<bool>, a: int, b: int)
    requires
        0 <= a <= b <= seen.len(),
        forall|i: int| 0 <= i < seen.len() ==> !#[trigger] seen[i],
    ensures
        unmarked(seen, a, b) == b - a,
    decreases b - a,
{
    if a < b {
        lemma_unmarked_all(seen, a + 1, b);
    }
}

/// `count` keys below `bound` that `seen` did not mark, marked as drawn:
/// drawn at random, and, if the draws run long, completed by the smallest
/// unmarked values.
fn draw_distinct(count: u64, bound: u64, seen: &mut Vec<bool>) -> (r: Vec<u64>)
    requires
        old(seen).len() == bound,
        count <= u32::MAX,
        unmarked(old(seen)@, 0, bound as int) >= count,
    ensures
        final(seen).len() == bound,
        r.len() == count,
        distinct(r@),
        forall|t: int| 0 <= t < r.len() ==> (#[trigger] r@[t]) < bound && !old(seen)@[r@[t] as int] && final(seen)@[r@[t] as int],
        forall|v: int| 0 <= v < bound && old(seen)@[v] ==> #[trigger] final(seen)@[v],
        unmarked(final(seen)@, 0, bound as int) == unmarked(old(seen)@, 0, bound as int) - count,
{
    let mut keys: Vec<u64> = Vec::new();
    if count == 0 {
        return keys;
    }
    let cap = DRAWS_PER_KEY * count + DRAWS_PER_KEY;
    let mut draws: u64 = 0;
    while (keys.len() as u64) < count && draws < cap
        invariant
            seen.len() == bound,
            bound >= 1,
            keys.len() <= count,
            distinct(keys@),
            forall|t: int| 0 <= t < keys.len() ==> (#[trigger] keys@[t]) < bound && !old(seen)@[keys@[t] as int] && seen@[keys@[t] as int],
            forall|v: int| 0 <= v < bound && old(seen)@[v] ==> #[trigger] seen@[v],
            unmarked(seen@, 0, bound as int) == unmarked(old(seen)@, 0, bound as int) - keys.len(),
        decreases cap - draws,
    {
        let v = random_range(0, bound - 1);
        if !seen[v as usize] {
            proof {
                lemma_unmarked_mark(seen@, v as int, 0, bound as int);
            }
            seen.set(v as usize, true);
            keys.push(v);
        }
        draws = draws + 1;
    }
    let mut v: u64 = 0;
    while v < bound && (keys.len() as u64) < count
        invariant
            seen.len() == bound,
            v <= bound,
            keys.len() <= count,
            distinct(keys@),
            forall|t: int| 0 <= t < keys.len() ==> (#[trigger] keys@[t]) < bound && !old(seen)@[keys@[t] as int] && seen@[keys@[t] as int],
            forall|w: int| 0 <= w < bound && old(seen)@[w] ==> #[trigger] seen@[w],
            unmarked(seen@, 0, bound as int) == unmarked(old(seen)@, 0, bound as int) - keys.len(),
            keys.len() < count ==> keys.len() + unmarked(seen@, v as int, bound as int) >= count,
        decreases bound - v,
    {
        if !seen[v as usize] {
            proof {
                lemma_unmarked_mark(seen@, v as int, 0, bound as int);
                lemma_unmarked_mark(seen@, v as int, v + 1, bound as int);
            }
            seen.set(v as usize, true);
            keys.push(v);
        }
        v = v + 1;
    }
    proof {
        if keys.len() < count {
            assert(unmarked(seen@, v as int, bound as int) == 0);
        }
    }
    keys
}

/// Pairs of key lists: the keys to insert and the keys to query.
pub struct KeyGenerator {
    pub random: (Vec<u64>, Vec<u64>),
    pub disjoint: (Vec<u64>, Vec<u64>),
    pub mixed: (Vec<u64>, Vec<u64>),
}

impl KeyGenerator {
    /// The three kinds of key sets for `size` keys.
    pub fn new(size: u64) -> (r: KeyGenerator)
        requires
            size <= u32::MAX / 3,
        ensures
            r.disjoint.0@ == Seq::new(size as nat, |i: int| i as u64),
            r.disjoint.1@ == Seq::new(size as nat, |i: int| (size + i) as u64),
            r.random.0.len() == size && r.random.1.len() == size,
            distinct(r.random.0@ + r.random.1@),
            forall|t: int| 0 <= t < size ==> (#[trigger] r.random.0@[t]) < size * 5 / 2 && r.random.1@[t] < size * 5 / 2,
            r.mixed.0.len() == size && r.mixed.1.len() == size,
            distinct(r.mixed.0@),
            forall|t: int| 0 <= t < size ==> (#[trigger] r.mixed.0@[t]) < size * 5 / 2 && r.mixed.1@[t] < size * 5 / 2,
            forall|t: int| 0 <= t < size / 2 ==> #[trigger] r.mixed.1@[t] == r.mixed.0@[t],
            forall|t: int| size / 2 <= t < size ==> !r.mixed.0@.contains(#[trigger] r.mixed.1@[t]),
    {
        KeyGenerator {
            random: KeyGenerator::generate_random_keys(size),
            disjoint: KeyGenerator::generate_disjoint_keys(size),
            mixed: KeyGenerator::generate_mixed_keys(size),
        }
    }

    /// No keys at all.
    pub fn new_empty() -> (r: KeyGenerator)
        ensures
            r.random.0.len() == 0 && r.random.1.len() == 0,
            r.disjoint.0.len() == 0 && r.disjoint.1.len() == 0,
            r.mixed.0.len() == 0 && r.mixed.1.len() == 0,
    {
        KeyGenerator {
            random: (Vec::new(), Vec::new()),
            disjoint: (Vec::new(), Vec::new()),
            mixed: (Vec::new(), Vec::new()),
        }
    }

    /// `size` distinct keys and `size` distinct query keys, none of them a
    /// key, all below `2.5 * size`.
    fn generate_random_keys(size: u64) -> (r: (Vec<u64>, Vec<u64>))
        requires
            size <= u32::MAX / 3,
        ensures
            r.0.len() == size && r.1.len() == size,
            distinct(r.0@ + r.1@),
            forall|t: int| 0 <= t < r.0.len() ==> (#[trigger] r.0@[t]) < size * 5 / 2,
            forall|t: int| 0 <= t < r.1.len() ==> (#[trigger] r.1@[t]) < size * 5 / 2,
    {
        let bound = size * 5 / 2;
        let mut seen: Vec<bool> = vec![false; bound as usize];
        proof {
            lemma_unmarked_all(seen@, 0, bound as int);
        }
        let keys = draw_distinct(size, bound, &mut seen);
        let lookup_keys = draw_distinct(size, bound, &mut seen);
        proof {
            let all = keys@ + lookup_keys@;
            assert forall|a: int, b: int| 0 <= a < b < all.len() implies all[a] != all[b] by {
                if a < keys.len() && b >= keys.len() {
                    assert(all[b] == lookup_keys@[b - keys.len()]);
                }
            }
        }
        (keys, lookup_keys)
    }

    /// `size` distinct keys in random order, and `size` queries: the first
    /// half of the keys followed by keys drawn at random that are not keys,
    /// all below `2.5 * size`.
    fn generate_mixed_keys(size: u64) -> (r: (Vec<u64>, Vec<u64>))
        requires
            size <= u32::MAX / 3,
        ensures
            r.0.len() == size && r.1.len() == size,
            distinct(r.0@),
            forall|t: int| 0 <= t < size ==> (#[trigger] r.0@[t]) < size * 5 / 2 && r.1@[t] < size * 5 / 2,
            forall|t: int| 0 <= t < size / 2 ==> #[trigger] r.1@[t] == r.0@[t],
            forall|t: int| size / 2 <= t < size ==> !r.0@.contains(#[trigger] r.1@[t]),
    {
        let bound = size * 5 / 2;
        let mut seen: Vec<bool> = vec![false; bound as usize];
        proof {
            lemma_unmarked_all(seen@, 0, bound as int);
        }
        let keys = draw_distinct(size, bound, &mut seen);
        let mut list = copy_keys(&keys);
        shuffle(&mut list);
        let ghost seen_keys = seen@;
        proof {
            lemma_distinct_multiset(keys@, list@);
            keys@.to_multiset_ensures();
            list@.to_multiset_ensures();
            assert forall|t: int| 0 <= t < size implies #[trigger] list@[t] < bound by {
                assert(list@.contains(list@[t]));
                lemma_contains_perm(keys@, list@, list@[t]);
            }
        }
        let half = list.len() / 2;
        let mut queries: Vec<u64> = Vec::new();
        let mut i: usize = 0;
        while i < half
            invariant
                i <= half <= list.len(),
                list.len() == size,
                queries.len() == i,
                forall|t: int| 0 <= t < i ==> #[trigger] queries@[t] == list@[t],
            decreases half - i,
        {
            queries.push(list[i]);
            i = i + 1;
        }
        let more = draw_distinct(size - queries.len() as u64, bound, &mut seen);
        let mut j: usize = 0;
        while j < more.len()
            invariant
                j <= more.len(),
                list.len() == size,
                queries.len() == half + j,
                half + more.len() == size,
                forall|t: int| 0 <= t < half ==> #[trigger] queries@[t] == list@[t],
                forall|t: int| half <= t < half + j ==> #[trigger] queries@[t] == more@[t - half],
            decreases more.len() - j,
        {
            queries.push(more[j]);
            j = j + 1;
        }
        proof {
            assert forall|t: int| size / 2 <= t < size implies !list@.contains(#[trigger] queries@[t]) by {
                let v = more@[t - half];
                assert(queries@[t] == v);
                assert(!seen_keys[v as int]);
                if list@.contains(v) {
                    lemma_contains_perm(keys@, list@, v);
                    let k = choose|k: int| 0 <= k < keys.len() && keys@[k] == v;
                    assert(seen_keys[keys@[k] as int]);
                }
            }
        }
        (list, queries)
    }

    /// Keys `0..size` and queries `size..2 * size`.
    fn generate_disjoint_keys(size: u64) -> (r: (Vec<u64>, Vec<u64>))
        requires
            size <= u32::MAX / 3,
        ensures
            r.0@ == Seq::new(size as nat, |i: int| i as u64),
            r.1@ == Seq::new(size as nat, |i: int| (size + i) as u64),
    {
        let mut keys: Vec<u64> = Vec::new();
        let mut queries: Vec<u64> = Vec::new();
        let mut i: u64 = 0;
        while i < size
            invariant
                i <= size <= u32::MAX,
                keys@ == Seq::new(i as nat, |t: int| t as u64),
                queries@ == Seq::new(i as nat, |t: int| (size + t) as u64),
            decreases size - i,
        {
            keys.push(i);
            queries.push(size + i);
            i = i + 1;
            assert(keys@ =~= Seq::new(i as nat, |t: int| t as u64));
            assert(queries@ =~= Seq::new(i as nat, |t: int| (size + t) as u64));
        }
        (keys, queries)
    }
}

/// A copy of a key list.
fn copy_keys(v: &Vec<u64>) -> (r: Vec<u64>)
    ensures
        r@ == v@,
{
    let mut r: Vec<u64> = Vec::new();
    let mut i: usize = 0;
    while i < v.len()
        invariant
            i <= v.len(),
            r@ == v@.subrange(0, i as int),
        decreases v.len() - i,
    {
        r.push(v[i]);
        i = i + 1;
        assert(r@ =~= v@.subrange(0, i as int));
    }
    assert(r@ =~= v@);
    r
}

/// A value in one of two sequences with the same elements is in the other.
proof fn lemma_contains_perm(a: Seq<u64>, b: Seq<u64>, v: u64)
    requires
        a.to_multiset() == b.to_multiset(),
        b.contains(v),
    ensures
        a.contains(v),
{
    a.to_multiset_ensures();
    b.to_multiset_ensures();
    assert(b.to_multiset().count(v) > 0);
    assert(a.to_multiset().count(v) > 0);
}

proof fn lemma_distinct_multiset(a: Seq<u64>, b: Seq<u64>)
    requires
        distinct(a),
        a.to_multiset() == b.to_multiset(),
    ensures
        distinct(b),
{
    assert(a.no_duplicates()) by {
        assert forall|i: int, j: int| 0 <= i < a.len() && 0 <= j < a.len() && i != j implies a[i] != a[j] by {
            if i > j {
                assert(a[j] != a[i]);
            }
        }
    }
    a.lemma_multiset_has_no_duplicates();
    b.lemma_multiset_has_no_duplicates_conv();
}

} // verus!
