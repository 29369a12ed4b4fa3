//! Character-level helpers shared by the parsers and printers: decimal
//! numerals, whitespace, and conversions between strings and `Vec<char>`.
use vstd::prelude::*;

verus! {

/// The decimal digit character for `d < 10`.
pub open spec fn spec_digit(d: nat) -> char {
    if d == 0 {
        '0'
    } else if d == 1 {
        '1'
    } else if d == 2 {
        '2'
    } else if d == 3 {
        '3'
    } else if d == 4 {
        '4'
    } else if d == 5 {
        '5'
    } else if d == 6 {
        '6'
    } else if d == 7 {
        '7'
    } else if d == 8 {
        '8'
    } else {
        '9'
    }
}

/// Decimal numeral of a natural number, without leading zeros.
pub open spec fn nat_str(n: nat) -> Seq<char>
    decreases n,
{
    if n < 10 {
        seq![spec_digit(n)]
    } else {
        nat_str(n / 10).push(spec_digit(n % 10))
    }
}

/// Decimal numeral of an integer, with a leading '-' for negatives.
pub open spec fn int_str(n: int) -> Seq<char> {
    if n < 0 {
        seq!['-'] + nat_str((-n) as nat)
    } else {
        nat_str(n as nat)
    }
}

/// The value of an ASCII decimal digit character.
pub open spec fn digit_value(c: char) -> int {
    (c as int) - ('0' as int)
}

pub open spec fn is_digit(c: char) -> bool {
    '0' <= c && c <= '9'
}

/// Unicode White_Space, as used by `char::is_whitespace`.
pub open spec fn spec_is_ws(c: char) -> bool {
    ('\u{9}' <= c && c <= '\u{d}') || c == ' ' || c == '\u{85}' || c == '\u{a0}' || c
        == '\u{1680}' || ('\u{2000}' <= c && c <= '\u{200a}') || c == '\u{2028}' || c
        == '\u{2029}' || c == '\u{202f}' || c == '\u{205f}' || c == '\u{3000}'
}

pub fn digit_char(d: u64) -> (c: char)
    requires
        d < 10,
    ensures
        c == spec_digit(d as nat),
{
    if d == 0 {
        '0'
    } else if d == 1 {
        '1'
    } else if d == 2 {
        '2'
    } else if d == 3 {
        '3'
    } else if d == 4 {
        '4'
    } else if d == 5 {
        '5'
    } else if d == 6 {
        '6'
    } else if d == 7 {
        '7'
    } else if d == 8 {
        '8'
    } else {
        '9'
    }
}

pub fn is_digit_char(c: char) -> (r: bool)
    ensures
        r == is_digit(c),
{
    '0' <= c && c <= '9'
}

/// The value of a decimal digit character.
pub fn digit_of(c: char) -> (r: u8)
    requires
        is_digit(c),
    ensures
        r == digit_value(c),
        r < 10,
{
    ((c as u32) - ('0' as u32)) as u8
}

pub fn is_ws(c: char) -> (r: bool)
    ensures
        r == spec_is_ws(c),
{
    ('\u{9}' <= c && c <= '\u{d}') || c == ' ' || c == '\u{85}' || c == '\u{a0}' || c
        == '\u{1680}' || ('\u{2000}' <= c && c <= '\u{200a}') || c == '\u{2028}' || c
        == '\u{2029}' || c == '\u{202f}' || c == '\u{205f}' || c == '\u{3000}'
}

/// Appends one character (std `String::push`).
#[verifier::external_body]
pub fn push_char(s: &mut String, c: char)
    ensures
        final(s)@ == old(s)@.push(c),
{
    s.push(c)
}

/// Appends the decimal numeral of `n`.
pub fn push_nat(s: &mut String, n: u64)
    ensures
        final(s)@ == old(s)@ + nat_str(n as nat),
    decreases n,
{
    if n >= 10 {
        push_nat(s, n / 10);
        push_char(s, digit_char(n % 10));
        proof {
            assert(final(s)@ =~= old(s)@ + nat_str(n as nat));
        }
    } else {
        push_char(s, digit_char(n));
        proof {
            assert(final(s)@ =~= old(s)@ + nat_str(n as nat));
        }
    }
}

/// Appends the decimal numeral of `n`, with '-' for negatives.
pub fn push_int(s: &mut String, n: i64)
    ensures
        final(s)@ == old(s)@ + int_str(n as int),
{
    if n < 0 {
        push_char(s, '-');
        let m: u64 = ((-(n + 1)) as u64) + 1;
        push_nat(s, m);
        proof {
            assert(final(s)@ =~= old(s)@ + int_str(n as int));
        }
    } else {
        push_nat(s, n as u64);
    }
}

/// Decimal numeral of an integer.
pub fn int_to_string(n: i64) -> (r: String)
    ensures
        r@ == int_str(n as int),
{
    let mut s = String::new();
    push_int(&mut s, n);
    proof {
        assert(s@ =~= int_str(n as int));
    }
    s
}

/// The characters of a string.
pub fn chars_of(s: &str) -> (r: Vec<char>)
    ensures
        r@ == s@,
{
    let n = s.unicode_len();
    let mut v: Vec<char> = Vec::new();
    let mut i: usize = 0;
    while i < n
        invariant
            n == s@.len(),
            i <= n,
            v@ == s@.subrange(0, i as int),
        decreases n - i,
    {
        v.push(s.get_char(i));
        i = i + 1;
        proof {
            assert(v@ =~= s@.subrange(0, i as int));
        }
    }
    proof {
        assert(s@.subrange(0, n as int) =~= s@);
    }
    v
}

/// Appends the characters `v[from..to]`.
pub fn push_chars(s: &mut String, v: &Vec<char>, from: usize, to: usize)
    requires
        from <= to <= v@.len(),
    ensures
        final(s)@ == old(s)@ + v@.subrange(from as int, to as int),
{
    let mut i: usize = from;
    while i < to
        invariant
            from <= i <= to <= v@.len(),
            s@ == old(s)@ + v@.subrange(from as int, i as int),
        decreases to - i,
    {
        push_char(s, v[i]);
        i = i + 1;
        proof {
            assert(s@ =~= old(s)@ + v@.subrange(from as int, i as int));
        }
    }
}

/// A string made of the given characters.
pub fn string_of(v: &Vec<char>) -> (r: String)
    ensures
        r@ == v@,
{
    let mut s = String::new();
    push_chars(&mut s, v, 0, v.len());
    proof {
        assert(s@ =~= v@);
    }
    s
}

/// An owned copy of a string slice.
pub fn lit(t: &str) -> (r: String)
    ensures
        r@ == t@,
{
    let mut s = String::new();
    s.append(t);
    proof {
        assert(s@ =~= t@);
    }
    s
}

/// Appends `t` to `s`.
pub fn push_string(s: &mut String, t: &String)
    ensures
        final(s)@ == old(s)@ + t@,
{
    s.append(t.as_str());
}

/// Index of the first non-whitespace character at or after `i`.
pub open spec fn skip_ws_from(v: Seq<char>, i: int) -> int
    decreases v.len() - i,
{
    if i >= v.len() || !spec_is_ws(v[i]) {
        i
    } else {
        skip_ws_from(v, i + 1)
    }
}

/// Exclusive end of `v[..e]` once trailing whitespace is removed.
pub open spec fn trim_end_from(v: Seq<char>, e: int) -> int
    decreases e,
{
    if e <= 0 || !spec_is_ws(v[e - 1]) {
        e
    } else {
        trim_end_from(v, e - 1)
    }
}

/// `v` without leading and trailing whitespace.
pub open spec fn spec_trim(v: Seq<char>) -> Seq<char> {
    let b = skip_ws_from(v, 0);
    if b >= v.len() {
        Seq::empty()
    } else {
        v.subrange(b, trim_end_from(v, v.len() as int))
    }
}

pub proof fn lemma_skip_ws_bounds(v: Seq<char>, i: int)
    requires
        0 <= i,
    ensures
        i <= skip_ws_from(v, i),
        i <= v.len() ==> skip_ws_from(v, i) <= v.len(),
        skip_ws_from(v, i) < v.len() ==> !spec_is_ws(v[skip_ws_from(v, i)]),
    decreases v.len() - i,
{
    if i < v.len() && spec_is_ws(v[i]) {
        lemma_skip_ws_bounds(v, i + 1);
    }
}

pub proof fn lemma_trim_end_bounds(v: Seq<char>, e: int)
    requires
        0 <= e <= v.len(),
    ensures
        0 <= trim_end_from(v, e) <= e,
        forall|k: int| 0 <= k < e && !spec_is_ws(v[k]) ==> k < trim_end_from(v, e),
    decreases e,
{
    if e > 0 && spec_is_ws(v[e - 1]) {
        lemma_trim_end_bounds(v, e - 1);
    }
}

/// Index of the first non-whitespace character at or after `i`.
pub fn skip_ws(v: &Vec<char>, i: usize) -> (r: usize)
    requires
        i <= v@.len(),
    ensures
        r == skip_ws_from(v@, i as int),
        i <= r <= v@.len(),
{
    proof {
        lemma_skip_ws_bounds(v@, i as int);
    }
    let mut j: usize = i;
    while j < v.len() && is_ws(v[j])
        invariant
            i <= j <= v@.len(),
            skip_ws_from(v@, j as int) == skip_ws_from(v@, i as int),
        decreases v.len() - j,
    {
        j = j + 1;
    }
    j
}

/// `v` without leading and trailing whitespace.
pub fn trim_chars(v: &Vec<char>) -> (r: Vec<char>)
    ensures
        r@ == spec_trim(v@),
{
    let b: usize = skip_ws(v, 0);
    if b >= v.len() {
        return Vec::new();
    }
    proof {
        lemma_trim_end_bounds(v@, v@.len() as int);
        lemma_skip_ws_bounds(v@, 0);
        assert(!spec_is_ws(v@[b as int]));
    }
    let mut e: usize = v.len();
    while e > 0 && is_ws(v[e - 1])
        invariant
            e <= v@.len(),
            trim_end_from(v@, e as int) == trim_end_from(v@, v@.len() as int),
        decreases e,
    {
        e = e - 1;
    }
    let mut r: Vec<char> = Vec::new();
    let mut i: usize = b;
    while i < e
        invariant
            b <= i <= e,
            b < v@.len(),
            e == trim_end_from(v@, v@.len() as int),
            b <= e <= v@.len(),
            r@ == v@.subrange(b as int, i as int),
        decreases e - i,
    {
        r.push(v[i]);
        i = i + 1;
        proof {
            assert(r@ =~= v@.subrange(b as int, i as int));
        }
    }
    r
}

// ============================================================
// Digit runs
// ============================================================

/// End of the run of ASCII digits starting at `i`.
pub open spec fn digits_end(s: Seq<char>, i: int) -> int
    decreases s.len() - i,
{
    if 0 <= i < s.len() && is_digit(s[i]) {
        digits_end(s, i + 1)
    } else {
        i
    }
}

/// Decimal value of `s[from..to]`.
pub open spec fn digits_val(s: Seq<char>, from: int, to: int) -> int
    decreases to - from,
{
    if to <= from {
        0
    } else {
        digits_val(s, from, to - 1) * 10 + digit_value(s[to - 1])
    }
}

pub proof fn lemma_digits_end(s: Seq<char>, i: int)
    requires
        0 <= i,
    ensures
        i <= digits_end(s, i),
        i <= s.len() ==> digits_end(s, i) <= s.len(),
        forall|k: int| i <= k < digits_end(s, i) ==> is_digit(#[trigger] s[k]),
        digits_end(s, i) < s.len() ==> !is_digit(s[digits_end(s, i)]),
    decreases s.len() - i,
{
    if 0 <= i < s.len() && is_digit(s[i]) {
        lemma_digits_end(s, i + 1);
    }
}

/// Digit values are nonnegative, so a digit run's value only grows.
pub proof fn lemma_digits_val_mono(s: Seq<char>, from: int, k: int, to: int)
    requires
        from <= k <= to,
        forall|j: int| from <= j < to ==> is_digit(#[trigger] s[j]),
    ensures
        0 <= digits_val(s, from, k) <= digits_val(s, from, to),
    decreases to - k,
{
    if k < to {
        lemma_digits_val_mono(s, from, k, to - 1);
        lemma_digits_val_nonneg(s, from, to - 1);
    } else {
        lemma_digits_val_nonneg(s, from, k);
    }
}

pub proof fn lemma_digits_val_nonneg(s: Seq<char>, from: int, to: int)
    requires
        forall|j: int| from <= j < to ==> is_digit(#[trigger] s[j]),
    ensures
        0 <= digits_val(s, from, to),
    decreases to - from,
{
    if to > from {
        lemma_digits_val_nonneg(s, from, to - 1);
    }
}


/// The characters of a numeral are digits, and read back as its value.
pub proof fn lemma_nat_str_val(s: Seq<char>, i: int, n: nat)
    requires
        0 <= i,
        i + nat_str(n).len() <= s.len(),
        s.subrange(i, i + nat_str(n).len()) == nat_str(n),
    ensures
        nat_str(n).len() >= 1,
        digits_val(s, i, i + nat_str(n).len()) == n,
        forall|k: int| i <= k < i + nat_str(n).len() ==> is_digit(#[trigger] s[k]),
    decreases n,
{
    let e = i + nat_str(n).len();
    if n < 10 {
        assert(s[i] == s.subrange(i, e)[0]);
        assert(digits_val(s, i, i) == 0);
    } else {
        let m = nat_str(n / 10);
        assert(nat_str(n) == m.push(spec_digit(n % 10)));
        assert(s.subrange(i, i + m.len()) =~= s.subrange(i, e).subrange(0, m.len() as int));
        assert(m.push(spec_digit(n % 10)).subrange(0, m.len() as int) =~= m);
        lemma_nat_str_val(s, i, n / 10);
        assert(s[e - 1] == s.subrange(i, e)[m.len() as int]);
        assert(digits_val(s, i, e) == digits_val(s, i, e - 1) * 10 + digit_value(s[e - 1]));
        assert(n == (n / 10) * 10 + n % 10);
    }
}

/// A run of digits from `i` to `e` that is not continued ends at `e`.
pub proof fn lemma_digits_end_at(s: Seq<char>, i: int, e: int)
    requires
        0 <= i <= e <= s.len(),
        forall|k: int| i <= k < e ==> is_digit(#[trigger] s[k]),
        e == s.len() || !is_digit(s[e]),
    ensures
        digits_end(s, i) == e,
    decreases e - i,
{
    if i < e {
        lemma_digits_end_at(s, i + 1, e);
    }
}

} // verus!
