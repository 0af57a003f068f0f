//! Character-level text helpers: whitespace trimming, conversions between
//! `&str`, `Vec<char>` and `String`, and decimal rendering of integers.

use vstd::prelude::*;

verus! {

/// What `char::is_whitespace` returns: the Unicode `White_Space` property of
/// a character. Named here; the contracts below pin its value on ASCII.
pub uninterp spec fn is_space(c: char) -> bool;

/// Relies on char::is_whitespace: true exactly for characters with the
/// Unicode `White_Space` property, which holds for the ASCII whitespace
/// characters and for no other ASCII character in `'!'..='~'`.
#[verifier::external_body]
pub fn whitespace_char(c: char) -> (r: bool)
    ensures
        r == is_space(c),
        (c == ' ' || c == '\t' || c == '\n' || c == '\r') ==> r,
        ('!' as u32 <= c as u32 && c as u32 <= '~' as u32) ==> !r,
{
    c.is_whitespace()
}

/// Index of the first non-space character at or after `i`, or `s.len()`.
pub open spec fn trim_start_idx(s: Seq<char>, i: int) -> int
    decreases s.len() - i,
{
    if 0 <= i < s.len() && is_space(s[i]) {
        trim_start_idx(s, i + 1)
    } else {
        i
    }
}

/// Index just past the last non-space character before `j`, or `0`.
pub open spec fn trim_end_idx(s: Seq<char>, j: int) -> int
    decreases j,
{
    if 0 < j <= s.len() && is_space(s[j - 1]) {
        trim_end_idx(s, j - 1)
    } else {
        j
    }
}

/// `s` with leading and trailing whitespace removed.
pub open spec fn trimmed(s: Seq<char>) -> Seq<char> {
    let t = s.subrange(trim_start_idx(s, 0), s.len() as int);
    t.subrange(0, trim_end_idx(t, t.len() as int))
}

pub proof fn lemma_trim_start_skip(s: Seq<char>, i: int, j: int)
    requires
        0 <= i <= j <= s.len(),
        forall|k: int| i <= k < j ==> is_space(s[k]),
    ensures
        trim_start_idx(s, i) == trim_start_idx(s, j),
    decreases j - i,
{
    if i < j {
        assert(is_space(s[i]));
        lemma_trim_start_skip(s, i + 1, j);
    }
}

pub proof fn lemma_trim_end_skip(s: Seq<char>, j: int, i: int)
    requires
        0 <= i <= j <= s.len(),
        forall|k: int| i <= k < j ==> is_space(s[k]),
    ensures
        trim_end_idx(s, j) == trim_end_idx(s, i),
    decreases j - i,
{
    if i < j {
        assert(is_space(s[j - 1]));
        lemma_trim_end_skip(s, j - 1, i);
    }
}

/// Copy of `v` with leading and trailing whitespace removed.
pub fn trim_chars(v: &Vec<char>) -> (r: Vec<char>)
    ensures
        r@ == trimmed(v@),
{
    let n = v.len();
    let mut a: usize = 0;
    while a < n && whitespace_char(v[a])
        invariant
            0 <= a <= n == v@.len(),
            forall|k: int| 0 <= k < a ==> is_space(v@[k]),
        decreases n - a,
    {
        a = a + 1;
    }
    proof {
        lemma_trim_start_skip(v@, 0, a as int);
        assert(trim_start_idx(v@, a as int) == a as int);
    }
    let ghost t: Seq<char> = v@.subrange(a as int, v@.len() as int);
    let mut b: usize = n;
    while b > a && whitespace_char(v[b - 1])
        invariant
            a <= b <= n == v@.len(),
            forall|k: int| b <= k < n ==> is_space(v@[k]),
        decreases b,
    {
        b = b - 1;
    }
    proof {
        assert(forall|k: int| 0 <= k < t.len() ==> t[k] == v@[k + a]);
        assert(forall|k: int| b - a <= k < t.len() ==> is_space(t[k]));
        lemma_trim_end_skip(t, t.len() as int, b - a);
        assert(trim_end_idx(t, (b - a) as int) == (b - a) as int);
    }
    let mut r: Vec<char> = Vec::new();
    let mut i: usize = a;
    while i < b
        invariant
            a <= i <= b <= v@.len(),
            r@ == v@.subrange(a as int, i as int),
        decreases b - i,
    {
        r.push(v[i]);
        proof {
            assert(r@ =~= v@.subrange(a as int, i + 1 as int));
        }
        i = i + 1;
    }
    proof {
        assert(r@ =~= t.subrange(0, (b - a) as int));
    }
    r
}

/// The characters of `s`, in order.
pub fn str_to_chars(s: &str) -> (v: Vec<char>)
    ensures
        v@ == s@,
{
    let n = s.unicode_len();
    let mut v: Vec<char> = Vec::new();
    let mut i: usize = 0;
    while i < n
        invariant
            0 <= i <= n == s@.len(),
            v@ == s@.subrange(0, i as int),
        decreases n - i,
    {
        v.push(s.get_char(i));
        proof {
            assert(v@ =~= s@.subrange(0, i + 1 as int));
        }
        i = i + 1;
    }
    proof {
        assert(v@ =~= s@);
    }
    v
}

/// Relies on String's FromIterator over chars: collecting characters yields
/// the string of exactly those characters in order.
#[verifier::external_body]
pub fn chars_to_string(v: &Vec<char>) -> (s: String)
    ensures
        s@ == v@,
{
    v.iter().collect()
}

/// The character for one decimal digit.
pub open spec fn digit_char(d: nat) -> char {
    if d == 0 {
        '0'
    } else if d == 1 {
        '1'
    } else if d == 2 {
        '2'
    } else if d == 3 {
        '3'
    } else if d == 4 {
        '4'
    } else if d == 5 {
        '5'
    } else if d == 6 {
        '6'
    } else if d == 7 {
        '7'
    } else if d == 8 {
        '8'
    } else {
        '9'
    }
}

/// Decimal representation of a natural number, no leading zeros.
pub open spec fn dec_rep(n: nat) -> Seq<char>
    decreases n,
{
    if n < 10 {
        seq![digit_char(n)]
    } else {
        dec_rep(n / 10).push(digit_char(n % 10))
    }
}

/// Decimal representation of an integer, `-` sign for negative values.
pub open spec fn int_rep(i: int) -> Seq<char> {
    if i < 0 {
        seq!['-'] + dec_rep((-i) as nat)
    } else {
        dec_rep(i as nat)
    }
}

fn digit_to_char(d: u64) -> (c: char)
    requires
        d < 10,
    ensures
        c == digit_char(d as nat),
{
    if d == 0 {
        '0'
    } else if d == 1 {
        '1'
    } else if d == 2 {
        '2'
    } else if d == 3 {
        '3'
    } else if d == 4 {
        '4'
    } else if d == 5 {
        '5'
    } else if d == 6 {
        '6'
    } else if d == 7 {
        '7'
    } else if d == 8 {
        '8'
    } else {
        '9'
    }
}

/// The decimal digits of `n`.
pub fn u64_to_chars(n: u64) -> (r: Vec<char>)
    ensures
        r@ == dec_rep(n as nat),
    decreases n,
{
    if n < 10 {
        let mut r: Vec<char> = Vec::new();
        r.push(digit_to_char(n));
        proof {
            assert(r@ =~= dec_rep(n as nat));
        }
        r
    } else {
        let mut r = u64_to_chars(n / 10);
        r.push(digit_to_char(n % 10));
        r
    }
}

/// The decimal digits of `n`, as a string.
pub fn u64_to_string(n: u64) -> (s: String)
    ensures
        s@ == dec_rep(n as nat),
{
    let v = u64_to_chars(n);
    chars_to_string(&v)
}

/// The decimal representation of `i`, with a sign when negative.
pub fn i32_to_string(i: i32) -> (s: String)
    ensures
        s@ == int_rep(i as int),
{
    if i < 0 {
        let m: u64 = (-(i as i64)) as u64;
        let digits = u64_to_chars(m);
        let mut v: Vec<char> = Vec::new();
        v.push('-');
        let mut k: usize = 0;
        while k < digits.len()
            invariant
                0 <= k <= digits.len(),
                v@ == seq!['-'] + digits@.subrange(0, k as int),
            decreases digits.len() - k,
        {
            v.push(digits[k]);
            proof {
                assert(v@ =~= seq!['-'] + digits@.subrange(0, k + 1 as int));
            }
            k = k + 1;
        }
        proof {
            assert(digits@.subrange(0, digits@.len() as int) =~= digits@);
            assert(v@ =~= int_rep(i as int));
        }
        chars_to_string(&v)
    } else {
        u64_to_string(i as u64)
    }
}

} // verus!
