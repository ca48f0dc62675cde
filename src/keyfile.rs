//! The text form of a key list: decimal keys separated by ASCII whitespace.
//! A token that is not a key (other characters, or a value above `u64::MAX`)
//! is skipped.
use vstd::prelude::*;

verus! {

pub open spec fn is_space(b: u8) -> bool {
    b == 32 || b == 9 || b == 10 || b == 11 || b == 12 || b == 13
}

pub open spec fn is_digit(b: u8) -> bool {
    48 <= b <= 57
}

/// The value of a string of decimal digits, most significant first.
pub open spec fn digits_value(s: Seq<u8>) -> int
    decreases s.len(),
{
    if s.len() == 0 {
        0
    } else {
        digits_value(s.drop_last()) * 10 + (s.last() - 48)
    }
}

/// The digits of a token: all of it, or all but a leading `+`.
pub open spec fn token_digits(t: Seq<u8>) -> Seq<u8> {
    if t.len() > 0 && t[0] == 43 {
        t.subrange(1, t.len() as int)
    } else {
        t
    }
}

/// A token is a key when its digits are non-empty, all decimal, and their
/// value fits in 64 bits.
pub open spec fn is_key_token(t: Seq<u8>) -> bool {
    let d = token_digits(t);
    &&& d.len() > 0
    &&& forall|k: int| 0 <= k < d.len() ==> is_digit(#[trigger] d[k])
    &&& digits_value(d) <= u64::MAX
}

/// The end of the token that starts at `i`: the first whitespace at or
/// after `i`, or the end of the text.
pub open spec fn token_end(s: Seq<u8>, i: int) -> int
    decreases s.len() - i,
{
    if i >= s.len() || is_space(s[i]) {
        i
    } else {
        token_end(s, i + 1)
    }
}

/// The keys of `s` from position `i` on.
pub open spec fn keys_from(s: Seq<u8>, i: int) -> Seq<u64>
    decreases s.len() - i,
{
    if i >= s.len() || i < 0 {
        Seq::empty()
    } else if is_space(s[i]) {
        keys_from(s, i + 1)
    } else {
        let j = token_end(s, i);
        let t = s.subrange(i, j);
        if j <= i || j > s.len() {
            Seq::empty()
        } else if is_key_token(t) {
            seq![digits_value(token_digits(t)) as u64] + keys_from(s, j)
        } else {
            keys_from(s, j)
        }
    }
}

proof fn lemma_token_end(s: Seq<u8>, i: int)
    requires
        0 <= i <= s.len(),
    ensures
        i <= token_end(s, i) <= s.len(),
        forall|k: int| i <= k < token_end(s, i) ==> !is_space(#[trigger] s[k]),
        token_end(s, i) < s.len() ==> is_space(s[token_end(s, i)]),
    decreases s.len() - i,
{
    if i < s.len() && !is_space(s[i]) {
        lemma_token_end(s, i + 1);
    }
}

/// The value of the token `s[i..j]`, when it is a key.
fn token_value(s: &[u8], i: usize, j: usize) -> (r: Option<u64>)
    requires
        i < j <= s@.len(),
    ensures
        r is Some <==> is_key_token(s@.subrange(i as int, j as int)),
        r matches Some(v) ==> v == digits_value(token_digits(s@.subrange(i as int, j as int))),
{
    let ghost t = s@.subrange(i as int, j as int);
    let start = if s[i] == 43u8 {
        i + 1
    } else {
        i
    };
    let ghost d = token_digits(t);
    assert(d =~= s@.subrange(start as int, j as int));
    if start >= j {
        return None;
    }
    let mut value: u64 = 0;
    let mut k: usize = start;
    while k < j
        invariant
            i <= start <= k <= j <= s@.len(),
            t == s@.subrange(i as int, j as int),
            d == token_digits(t),
            d == s@.subrange(start as int, j as int),
            forall|m: int| start <= m < k ==> is_digit(#[trigger] s@[m]),
            value == digits_value(s@.subrange(start as int, k as int)),
        decreases j - k,
    {
        let b = s[k];
        if b < 48u8 || b > 57u8 {
            assert(d[k - start] == b);
            assert(!is_digit(d[k - start]));
            assert(!is_key_token(t));
            return None;
        }
        proof {
            assert(s@.subrange(start as int, k + 1) =~= s@.subrange(start as int, k as int).push(b));
        }
        let digit = (b - 48u8) as u64;
        proof {
            let p = s@.subrange(start as int, k + 1);
            assert(p.drop_last() =~= s@.subrange(start as int, k as int));
            assert(p.last() == b);
            assert(digits_value(p) == value * 10 + digit);
        }
        if value > (u64::MAX - digit) / 10 {
            proof {
                let p = s@.subrange(start as int, k + 1);
                assert(p =~= d.subrange(0, (k + 1 - start) as int));
                assert(digits_value(p) == value * 10 + digit);
                assert(value * 10 + digit > u64::MAX) by (nonlinear_arith)
                    requires
                        value > (u64::MAX - digit) / 10,
                        digit <= 9,
                ;
                if forall|m: int| 0 <= m < d.len() ==> is_digit(#[trigger] d[m]) {
                    lemma_digits_value_grows(d, (k + 1 - start) as int);
                }
                assert(!is_key_token(t));
            }
            return None;
        }
        value = value * 10 + digit;
        k = k + 1;
    }
    proof {
        assert(s@.subrange(start as int, j as int) =~= d);
    }
    Some(value)
}

/// The value of a prefix of a digit string is at most that of the whole.
proof fn lemma_digits_value_grows(d: Seq<u8>, n: int)
    requires
        0 <= n <= d.len(),
        forall|k: int| 0 <= k < d.len() ==> is_digit(#[trigger] d[k]),
    ensures
        digits_value(d.subrange(0, n)) <= digits_value(d),
    decreases d.len(),
{
    if n < d.len() {
        let init = d.drop_last();
        assert(init.subrange(0, n) =~= d.subrange(0, n));
        lemma_digits_value_grows(init, n);
        lemma_digits_value_nonneg(init);
        assert(digits_value(init) <= digits_value(d));
    } else {
        assert(d.subrange(0, n) =~= d);
    }
}

proof fn lemma_digits_value_nonneg(d: Seq<u8>)
    requires
        forall|k: int| 0 <= k < d.len() ==> is_digit(#[trigger] d[k]),
    ensures
        digits_value(d) >= 0,
    decreases d.len(),
{
    if d.len() > 0 {
        lemma_digits_value_nonneg(d.drop_last());
    }
}

/// The keys of a line of text, in order.
pub fn parse_keys(s: &[u8]) -> (r: Vec<u64>)
    ensures
        r@ == keys_from(s@, 0),
{
    let mut out: Vec<u64> = Vec::new();
    let n = s.len();
    let mut i: usize = 0;
    while i < n
        invariant
            n == s@.len(),
            i <= n,
            out@ + keys_from(s@, i as int) == keys_from(s@, 0),
        decreases n - i,
    {
        let b = s[i];
        if b == 32u8 || b == 9u8 || b == 10u8 || b == 11u8 || b == 12u8 || b == 13u8 {
            i = i + 1;
        } else {
            let mut j = i;
            while j < n && !(s[j] == 32u8 || s[j] == 9u8 || s[j] == 10u8 || s[j] == 11u8 || s[j] == 12u8 || s[j] == 13u8)
                invariant
                    n == s@.len(),
                    i <= j <= n,
                    token_end(s@, j as int) == token_end(s@, i as int),
                decreases n - j,
            {
                j = j + 1;
            }
            proof {
                lemma_token_end(s@, i as int);
                assert(token_end(s@, j as int) == j);
            }
            let ghost before = out@;
            match token_value(s, i, j) {
                Some(v) => {
                    out.push(v);
                    assert(out@ + keys_from(s@, j as int) =~= before + (seq![v] + keys_from(s@, j as int)));
                },
                None => {},
            }
            i = j;
        }
    }
    assert(out@ + keys_from(s@, n as int) =~= out@);
    out
}

} // verus!
