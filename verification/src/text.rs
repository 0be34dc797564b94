//! Character-level text helpers: trimming, searching, decimal digits and the
//! code-point order of strings, each with the specification it is proved against.
use vstd::prelude::*;

verus! {

// ---------------------------------------------------------------------------
// Specifications
// ---------------------------------------------------------------------------

/// Unicode `White_Space`, the property behind `char::is_whitespace` and `str::trim`.
pub open spec fn is_white_space(c: char) -> bool {
    let u = c as u32;
    ||| 0x09 <= u <= 0x0d
    ||| u == 0x20
    ||| u == 0x85
    ||| u == 0xa0
    ||| u == 0x1680
    ||| 0x2000 <= u <= 0x200a
    ||| u == 0x2028
    ||| u == 0x2029
    ||| u == 0x202f
    ||| u == 0x205f
    ||| u == 0x3000
}

/// The first index at or after `i` that does not hold white space.
pub open spec fn skip_white_from(s: Seq<char>, i: int) -> int
    decreases s.len() - i,
{
    if 0 <= i < s.len() && is_white_space(s[i]) {
        skip_white_from(s, i + 1)
    } else {
        i
    }
}

/// Moving down from `j`, but not below `lo`, the index just past the last
/// character that is not white space.
pub open spec fn back_white_from(s: Seq<char>, lo: int, j: int) -> int
    decreases j - lo,
{
    if lo < j && j <= s.len() && is_white_space(s[j - 1]) {
        back_white_from(s, lo, j - 1)
    } else {
        j
    }
}

/// `s` without leading and trailing white space (`str::trim`).
pub open spec fn trim(s: Seq<char>) -> Seq<char> {
    let a = skip_white_from(s, 0);
    s.subrange(a, back_white_from(s, a, s.len() as int))
}

/// Moving down from `j`, the index just past the last character that is not `c`.
pub open spec fn back_char_from(s: Seq<char>, c: char, j: int) -> int
    decreases j,
{
    if 0 < j <= s.len() && s[j - 1] == c {
        back_char_from(s, c, j - 1)
    } else {
        j
    }
}

/// `s` without any trailing `c` (`str::trim_end_matches` with a character).
pub open spec fn trim_end_char(s: Seq<char>, c: char) -> Seq<char> {
    s.take(back_char_from(s, c, s.len() as int))
}

/// The index of the last `c` in `s`, or -1 when there is none.
pub open spec fn last_index_of(s: Seq<char>, c: char) -> int
    decreases s.len(),
{
    if s.len() == 0 {
        -1
    } else if s.last() == c {
        s.len() - 1
    } else {
        last_index_of(s.drop_last(), c)
    }
}

pub open spec fn is_ascii_digit(c: char) -> bool {
    0x30 <= (c as u32) <= 0x39
}

pub open spec fn all_ascii_digits(s: Seq<char>) -> bool {
    forall|i: int| 0 <= i < s.len() ==> is_ascii_digit(#[trigger] s[i])
}

/// The number that a string of decimal digits spells.
pub open spec fn decimal_value(s: Seq<char>) -> nat
    decreases s.len(),
{
    if s.len() == 0 {
        0
    } else {
        decimal_value(s.drop_last()) * 10 + ((s.last() as u32) - 0x30) as nat
    }
}

/// The ASCII digit for `d` (below ten).
pub open spec fn digit_char(d: nat) -> char {
    ((d + 0x30) as u32) as char
}

/// The decimal digits of `n`, without leading zeros.
pub open spec fn decimal_digits(n: nat) -> Seq<char>
    decreases n,
{
    if n < 10 {
        seq![digit_char(n)]
    } else {
        decimal_digits(n / 10).push(digit_char(n % 10))
    }
}

/// What `str::parse::<u32>` gives for a string of ASCII digits.
pub open spec fn parse_u32_digits(s: Seq<char>) -> Option<u32> {
    if s.len() == 0 || decimal_value(s) > u32::MAX {
        None
    } else {
        Some(decimal_value(s) as u32)
    }
}

/// The order of strings by code points (the order of `String` in Rust):
/// -1 when `a` comes first, 0 when equal, 1 when `b` comes first.
pub open spec fn lex_sign(a: Seq<char>, b: Seq<char>) -> int
    decreases a.len(),
{
    if a.len() == 0 {
        if b.len() == 0 {
            0
        } else {
            -1
        }
    } else if b.len() == 0 {
        1
    } else if a[0] == b[0] {
        lex_sign(a.drop_first(), b.drop_first())
    } else if (a[0] as u32) < (b[0] as u32) {
        -1
    } else {
        1
    }
}

/// Two characters with the same code point are the same character.
pub proof fn lemma_char_code_injective(x: char, y: char)
    requires
        (x as u32) == (y as u32),
    ensures
        x == y,
{
    vstd::utf8::char_u32_cast(x, x as u32);
    vstd::utf8::char_u32_cast(y, y as u32);
}

// ---------------------------------------------------------------------------
// Lemmas
// ---------------------------------------------------------------------------

/// The digit for `d` is the ASCII digit whose code is `d` above `0`.
pub proof fn lemma_digit_char(d: nat)
    requires
        d < 10,
    ensures
        (digit_char(d) as u32) == d + 0x30,
        is_ascii_digit(digit_char(d)),
{
    vstd::utf8::char_u32_cast(digit_char(d), (d + 0x30) as u32);
}

/// The decimal digits of `n` are ASCII digits, at least one, and spell `n`.
pub proof fn lemma_decimal_digits(n: nat)
    ensures
        decimal_digits(n).len() > 0,
        all_ascii_digits(decimal_digits(n)),
        decimal_value(decimal_digits(n)) == n,
    decreases n,
{
    if n < 10 {
        lemma_digit_char(n);
        let d = decimal_digits(n);
        assert(d.drop_last() =~= Seq::<char>::empty());
        assert(decimal_value(d) == decimal_value(d.drop_last()) * 10 + ((d.last() as u32) - 0x30) as nat);
    } else {
        lemma_decimal_digits(n / 10);
        lemma_digit_char(n % 10);
        let d = decimal_digits(n);
        assert(d.drop_last() =~= decimal_digits(n / 10));
        assert(d.last() == digit_char(n % 10));
        assert(decimal_value(d) == decimal_value(d.drop_last()) * 10 + ((d.last() as u32) - 0x30) as nat);
        assert(n == (n / 10) * 10 + n % 10);
        assert forall|i: int| 0 <= i < d.len() implies is_ascii_digit(#[trigger] d[i]) by {
            if i < d.len() - 1 {
                assert(d[i] == decimal_digits(n / 10)[i]);
            }
        }
    }
}

pub proof fn lemma_last_index_of(s: Seq<char>, c: char, k: int)
    requires
        -1 <= k < s.len(),
        k >= 0 ==> s[k] == c,
        forall|i: int| k < i < s.len() ==> s[i] != c,
    ensures
        last_index_of(s, c) == k,
    decreases s.len(),
{
    if s.len() > 0 && s.last() != c {
        lemma_last_index_of(s.drop_last(), c, k);
    }
}

pub proof fn lemma_lex_sign_range(a: Seq<char>, b: Seq<char>)
    ensures
        -1 <= lex_sign(a, b) <= 1,
    decreases a.len(),
{
    if a.len() > 0 && b.len() > 0 {
        lemma_lex_sign_range(a.drop_first(), b.drop_first());
    }
}

pub proof fn lemma_lex_sign_zero(a: Seq<char>, b: Seq<char>)
    ensures
        (lex_sign(a, b) == 0) == (a == b),
    decreases a.len(),
{
    if a.len() > 0 && b.len() > 0 {
        lemma_lex_sign_zero(a.drop_first(), b.drop_first());
        if a[0] == b[0] && a.drop_first() == b.drop_first() {
            assert(a =~= seq![a[0]] + a.drop_first());
            assert(b =~= seq![b[0]] + b.drop_first());
        }
        if a == b {
            assert(a.drop_first() =~= b.drop_first());
        }
    } else if a.len() == 0 && b.len() == 0 {
        assert(a =~= b);
    }
}

pub proof fn lemma_lex_sign_flip(a: Seq<char>, b: Seq<char>)
    ensures
        lex_sign(a, b) == -lex_sign(b, a),
    decreases a.len(),
{
    if a.len() > 0 && b.len() > 0 {
        lemma_lex_sign_flip(a.drop_first(), b.drop_first());
        if a[0] != b[0] && (a[0] as u32) == (b[0] as u32) {
            lemma_char_code_injective(a[0], b[0]);
        }
    }
}

pub proof fn lemma_lex_sign_trans(a: Seq<char>, b: Seq<char>, c: Seq<char>)
    requires
        lex_sign(a, b) <= 0,
        lex_sign(b, c) <= 0,
    ensures
        lex_sign(a, c) <= 0,
    decreases a.len(),
{
    if a.len() > 0 && b.len() > 0 && c.len() > 0 {
        if a[0] == b[0] && b[0] == c[0] {
            lemma_lex_sign_trans(a.drop_first(), b.drop_first(), c.drop_first());
        }
    }
}

pub proof fn lemma_lex_sign_strict_trans(a: Seq<char>, b: Seq<char>, c: Seq<char>)
    requires
        lex_sign(a, b) < 0,
        lex_sign(b, c) <= 0,
    ensures
        lex_sign(a, c) < 0,
{
    lemma_lex_sign_trans(a, b, c);
    lemma_lex_sign_zero(a, c);
    lemma_lex_sign_zero(a, b);
    if a == c {
        lemma_lex_sign_flip(b, c);
        lemma_lex_sign_range(a, b);
    }
}

// ---------------------------------------------------------------------------
// Executable helpers
// ---------------------------------------------------------------------------

/// The characters of `s`, in order.
pub fn chars_of(s: &str) -> (res: Vec<char>)
    ensures
        res@ == s@,
{
    let mut res: Vec<char> = Vec::new();
    let mut it = s.chars();
    for c in iter: it
        invariant
            res@ == iter.seq().take(iter.index() as int),
    {
        res.push(c);
    }
    res
}

/// `char::is_whitespace`.
pub fn is_white_space_char(c: char) -> (res: bool)
    ensures
        res == is_white_space(c),
{
    let u = c as u32;
    (0x09 <= u && u <= 0x0d) || u == 0x20 || u == 0x85 || u == 0xa0 || u == 0x1680 || (0x2000
        <= u && u <= 0x200a) || u == 0x2028 || u == 0x2029 || u == 0x202f || u == 0x205f || u
        == 0x3000
}

pub fn is_ascii_digit_char(c: char) -> (res: bool)
    ensures
        res == is_ascii_digit(c),
{
    let u = c as u32;
    0x30 <= u && u <= 0x39
}

/// `s` without leading and trailing white space.
pub fn trim_str<'a>(s: &'a str) -> (res: &'a str)
    ensures
        res@ == trim(s@),
{
    let cs = chars_of(s);
    let n = cs.len();
    let mut i: usize = 0;
    while i < n && is_white_space_char(cs[i])
        invariant
            cs@ == s@,
            n == cs@.len(),
            0 <= i <= n,
            skip_white_from(s@, 0) == skip_white_from(s@, i as int),
        decreases n - i,
    {
        i = i + 1;
    }
    let mut j: usize = n;
    while j > i && is_white_space_char(cs[j - 1])
        invariant
            cs@ == s@,
            n == cs@.len(),
            0 <= i <= j <= n,
            skip_white_from(s@, 0) == i,
            back_white_from(s@, i as int, n as int) == back_white_from(s@, i as int, j as int),
        decreases j - i,
    {
        j = j - 1;
    }
    s.substring_char(i, j)
}

/// `s` without any trailing `c`.
pub fn trim_end_char_str<'a>(s: &'a str, c: char) -> (res: &'a str)
    ensures
        res@ == trim_end_char(s@, c),
{
    let cs = chars_of(s);
    let n = cs.len();
    let mut j: usize = n;
    while j > 0 && cs[j - 1] == c
        invariant
            cs@ == s@,
            n == cs@.len(),
            0 <= j <= n,
            back_char_from(s@, c, n as int) == back_char_from(s@, c, j as int),
        decreases j,
    {
        j = j - 1;
    }
    s.substring_char(0, j)
}

/// The index of the last `c` in `cs[lo..hi]`, counted from `lo`.
pub fn rfind_in(cs: &Vec<char>, c: char, lo: usize, hi: usize) -> (res: Option<usize>)
    requires
        lo <= hi <= cs@.len(),
    ensures
        match res {
            Some(k) => lo <= k < hi && k - lo == last_index_of(cs@.subrange(lo as int, hi as int), c),
            None => last_index_of(cs@.subrange(lo as int, hi as int), c) == -1,
        },
{
    let mut j: usize = hi;
    while j > lo
        invariant
            lo <= j <= hi <= cs@.len(),
            forall|i: int| j <= i < hi ==> cs@[i] != c,
        decreases j - lo,
    {
        if cs[j - 1] == c {
            proof {
                lemma_last_index_of(cs@.subrange(lo as int, hi as int), c, j - 1 - lo);
            }
            return Some(j - 1);
        }
        j = j - 1;
    }
    proof {
        lemma_last_index_of(cs@.subrange(lo as int, hi as int), c, -1);
    }
    None
}

/// Whether `c` occurs in `cs[lo..hi]`.
pub fn contains_in(cs: &Vec<char>, c: char, lo: usize, hi: usize) -> (res: bool)
    requires
        lo <= hi <= cs@.len(),
    ensures
        res == cs@.subrange(lo as int, hi as int).contains(c),
{
    let mut i: usize = lo;
    while i < hi
        invariant
            lo <= i <= hi <= cs@.len(),
            forall|k: int| lo <= k < i ==> cs@[k] != c,
        decreases hi - i,
    {
        if cs[i] == c {
            assert(cs@.subrange(lo as int, hi as int)[i - lo] == c);
            return true;
        }
        i = i + 1;
    }
    proof {
        if cs@.subrange(lo as int, hi as int).contains(c) {
            let k = choose|k: int|
                0 <= k < hi - lo && cs@.subrange(lo as int, hi as int)[k] == c;
            assert(cs@[lo + k] == c);
        }
    }
    false
}

/// Whether every character of `cs[lo..hi]` is an ASCII digit.
pub fn all_digits_in(cs: &Vec<char>, lo: usize, hi: usize) -> (res: bool)
    requires
        lo <= hi <= cs@.len(),
    ensures
        res == all_ascii_digits(cs@.subrange(lo as int, hi as int)),
{
    let mut i: usize = lo;
    while i < hi
        invariant
            lo <= i <= hi <= cs@.len(),
            forall|k: int| lo <= k < i ==> is_ascii_digit(cs@[k]),
        decreases hi - i,
    {
        if !is_ascii_digit_char(cs[i]) {
            assert(!is_ascii_digit(cs@.subrange(lo as int, hi as int)[i - lo]));
            return false;
        }
        i = i + 1;
    }
    assert forall|k: int| 0 <= k < hi - lo implies is_ascii_digit(
        #[trigger] cs@.subrange(lo as int, hi as int)[k],
    ) by {
        assert(cs@.subrange(lo as int, hi as int)[k] == cs@[lo + k]);
    }
    true
}

/// `str::parse::<u32>` on the digits `cs[lo..hi]`.
pub fn parse_u32_in(cs: &Vec<char>, lo: usize, hi: usize) -> (res: Option<u32>)
    requires
        lo <= hi <= cs@.len(),
        all_ascii_digits(cs@.subrange(lo as int, hi as int)),
    ensures
        res == parse_u32_digits(cs@.subrange(lo as int, hi as int)),
{
    let ghost s = cs@.subrange(lo as int, hi as int);
    if lo == hi {
        return None;
    }
    let mut acc: u32 = 0;
    let mut overflow = false;
    let mut i: usize = lo;
    assert(s.take(0) =~= Seq::<char>::empty());
    while i < hi
        invariant
            lo <= i <= hi <= cs@.len(),
            s == cs@.subrange(lo as int, hi as int),
            all_ascii_digits(s),
            overflow ==> decimal_value(s.take(i - lo)) > u32::MAX,
            !overflow ==> acc == decimal_value(s.take(i - lo)),
        decreases hi - i,
    {
        let ghost k = i - lo;
        assert(s.take(k + 1).drop_last() =~= s.take(k));
        assert(s.take(k + 1).last() == cs@[i as int]);
        assert(is_ascii_digit(s[k]));
        let d = (cs[i] as u32) - 0x30;
        if !overflow {
            match acc.checked_mul(10) {
                Some(m) => match m.checked_add(d) {
                    Some(v) => {
                        acc = v;
                    },
                    None => {
                        overflow = true;
                    },
                },
                None => {
                    overflow = true;
                },
            }
        }
        i = i + 1;
    }
    assert(s.take(hi - lo) =~= s);
    if overflow {
        None
    } else {
        Some(acc)
    }
}

/// `lex_sign` of two character vectors.
pub fn lex_sign_of(a: &Vec<char>, b: &Vec<char>) -> (res: i8)
    ensures
        res as int == lex_sign(a@, b@),
{
    let mut i: usize = 0;
    assert(a@.skip(0) =~= a@);
    assert(b@.skip(0) =~= b@);
    while i < a.len() && i < b.len()
        invariant
            0 <= i <= a@.len(),
            i <= b@.len(),
            lex_sign(a@, b@) == lex_sign(a@.skip(i as int), b@.skip(i as int)),
        decreases a@.len() - i,
    {
        let x = a[i];
        let y = b[i];
        assert(a@.skip(i as int)[0] == x);
        assert(b@.skip(i as int)[0] == y);
        if x != y {
            if (x as u32) < (y as u32) {
                return -1;
            }
            return 1;
        }
        assert(a@.skip(i as int).drop_first() =~= a@.skip(i + 1));
        assert(b@.skip(i as int).drop_first() =~= b@.skip(i + 1));
        i = i + 1;
    }
    if i < a.len() {
        1
    } else if i < b.len() {
        -1
    } else {
        0
    }
}

/// The order of strings is `String`'s: a string comes before every longer
/// string that starts with it.
pub proof fn lemma_lex_sign_prefix(a: Seq<char>, c: Seq<char>)
    requires
        c.len() > 0,
    ensures
        lex_sign(a, a + c) < 0,
        lex_sign(a + c, a) > 0,
    decreases a.len(),
{
    if a.len() > 0 {
        assert((a + c).drop_first() =~= a.drop_first() + c);
        assert((a + c)[0] == a[0]);
        lemma_lex_sign_prefix(a.drop_first(), c);
    }
}

/// The order of strings is `String`'s: two strings that agree before index
/// `k` and differ at `k` are ordered by their code points at `k`.
pub proof fn lemma_lex_sign_first_difference(a: Seq<char>, b: Seq<char>, k: int)
    requires
        0 <= k < a.len(),
        k < b.len(),
        a.take(k) == b.take(k),
        (a[k] as u32) < (b[k] as u32),
    ensures
        lex_sign(a, b) < 0,
        lex_sign(b, a) > 0,
    decreases k,
{
    if k > 0 {
        assert(a[0] == a.take(k)[0] && b[0] == b.take(k)[0]);
        assert(a.drop_first().take(k - 1) =~= a.take(k).drop_first());
        assert(b.drop_first().take(k - 1) =~= b.take(k).drop_first());
        lemma_lex_sign_first_difference(a.drop_first(), b.drop_first(), k - 1);
    } else {
        assert(a[0] != b[0]);
    }
}

} // verus!
