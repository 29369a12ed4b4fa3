//! BOCF expression parser, evaluation to terms, and BOCF → BMS search.
use vstd::prelude::*;
use crate::term::{
    Term, TermNode, mk, spec_one, spec_omega, spec_omega1, spec_from_int, spec_add, spec_mul,
    spec_exp, spec_log, t, zero, one, omega, omega1, from_int, exp, log, eq, is_zero,
    clone_term, spec_standard_form, spec_lt, standard_form, lt, subscript_depth_capped,
    spec_subscript_depth, spec_is_ordinal_finite, spec_first, spec_separate, sat_len, summand_count,
    is_ordinal_finite, first_term, separate,
};
use crate::Matrix;
use crate::expand::{mat, expand_spec, expand_fits, expand_bms_checked, lead_pos, lemma_lead_pos};
use crate::bms::{bms_value, bms_to_bocf_checked};
use crate::text::{
    is_digit, digit_value, digits_end, digits_val, lemma_digits_end, lemma_digits_val_mono,
    lemma_digits_val_nonneg, nat_str, int_str, push_char, push_nat, push_int, lit, chars_of,
    push_string, is_digit_char, digit_of,
};

verus! {

// ============================================================
// AST
// ============================================================

/// A parsed BOCF expression.
#[derive(Debug)]
pub enum Ast {
    Num(i32),
    W,
    Omega(Option<Box<Ast>>),
    Psi(Option<Box<Ast>>, Box<Ast>),
    Add(Box<Ast>, Box<Ast>),
    Mul(Box<Ast>, Box<Ast>),
    Pow(Box<Ast>, Box<Ast>),
}

// ============================================================
// Tokens
// ============================================================

#[derive(Clone, Copy, PartialEq, Eq, Debug, Structural)]
pub enum TokenKind {
    Num,
    Psi,
    Omega,
    OmegaLower,
    LParen,
    RParen,
    LBrace,
    RBrace,
    Plus,
    Mul,
    Pow,
    Subscript,
    Eof,
}

#[derive(Clone, Copy, PartialEq, Eq, Debug, Structural)]
pub struct Token {
    pub kind: TokenKind,
    pub num_value: i32,
}

/// A lexed token, or the character (and its byte position) that could
/// not start one.
#[derive(Clone, Copy, PartialEq, Eq, Debug, Structural)]
pub enum Lexed {
    Tok(Token),
    Bad(char, usize),
}

/// The number a token kind is reported by in messages (its declaration
/// position).
pub open spec fn kind_num(k: TokenKind) -> int {
    match k {
        TokenKind::Num => 0,
        TokenKind::Psi => 1,
        TokenKind::Omega => 2,
        TokenKind::OmegaLower => 3,
        TokenKind::LParen => 4,
        TokenKind::RParen => 5,
        TokenKind::LBrace => 6,
        TokenKind::RBrace => 7,
        TokenKind::Plus => 8,
        TokenKind::Mul => 9,
        TokenKind::Pow => 10,
        TokenKind::Subscript => 11,
        TokenKind::Eof => 12,
    }
}

fn kind_number(k: TokenKind) -> (r: u64)
    ensures
        r == kind_num(k),
{
    match k {
        TokenKind::Num => 0,
        TokenKind::Psi => 1,
        TokenKind::Omega => 2,
        TokenKind::OmegaLower => 3,
        TokenKind::LParen => 4,
        TokenKind::RParen => 5,
        TokenKind::LBrace => 6,
        TokenKind::RBrace => 7,
        TokenKind::Plus => 8,
        TokenKind::Mul => 9,
        TokenKind::Pow => 10,
        TokenKind::Subscript => 11,
        TokenKind::Eof => 12,
    }
}

// ============================================================
// Lexer: model
// ============================================================

/// Bytes in the UTF-8 encoding of `c`.
pub open spec fn utf8_len(c: char) -> nat {
    if (c as u32) < 0x80 {
        1
    } else if (c as u32) < 0x800 {
        2
    } else if (c as u32) < 0x10000 {
        3
    } else {
        4
    }
}

/// Byte offset of character `i` in the UTF-8 encoding of `s`.
pub open spec fn byte_off(s: Seq<char>, i: int) -> nat
    decreases i,
{
    if i <= 0 || s.len() == 0 {
        0
    } else if i > s.len() {
        byte_off(s, s.len() as int)
    } else {
        byte_off(s, i - 1) + utf8_len(s[i - 1])
    }
}

pub proof fn lemma_byte_off_mono(s: Seq<char>, i: int, j: int)
    requires
        0 <= i <= j <= s.len(),
    ensures
        byte_off(s, i) <= byte_off(s, j),
    decreases j - i,
{
    if i < j {
        lemma_byte_off_mono(s, i, j - 1);
    }
}

pub open spec fn is_space(c: char) -> bool {
    c == ' ' || c == '\t' || c == '\n' || c == '\r'
}

/// First non-space position at or after `i`.
pub open spec fn skip_sp(s: Seq<char>, i: int) -> int
    decreases s.len() - i,
{
    if 0 <= i < s.len() && is_space(s[i]) {
        skip_sp(s, i + 1)
    } else {
        i
    }
}

pub proof fn lemma_skip_sp(s: Seq<char>, i: int)
    requires
        0 <= i <= s.len(),
    ensures
        i <= skip_sp(s, i) <= s.len(),
        forall|k: int| i <= k < skip_sp(s, i) ==> is_space(#[trigger] s[k]),
    decreases s.len() - i,
{
    if i < s.len() && is_space(s[i]) {
        lemma_skip_sp(s, i + 1);
    }
}

/// Whether `p` occurs in `s` at `i`.
pub open spec fn pat_at(s: Seq<char>, i: int, p: Seq<char>) -> bool {
    0 <= i && i + p.len() <= s.len() && s.subrange(i, i + p.len()) =~= p
}

pub open spec fn tk(k: TokenKind) -> Token {
    Token { kind: k, num_value: 0 }
}

/// The token starting at `j` and the position after it, if any.
pub open spec fn lex_tok(s: Seq<char>, j: int) -> Option<(Token, int)> {
    let c = s[j];
    if pat_at(s, j, seq!['ψ']) {
        Some((tk(TokenKind::Psi), j + 1))
    } else if pat_at(s, j, seq!['\\', 'p', 's', 'i']) {
        Some((tk(TokenKind::Psi), j + 4))
    } else if pat_at(s, j, seq!['p', 's', 'i']) {
        Some((tk(TokenKind::Psi), j + 3))
    } else if pat_at(s, j, seq!['Ω']) {
        Some((tk(TokenKind::Omega), j + 1))
    } else if pat_at(s, j, seq!['\\', 'O', 'm', 'e', 'g', 'a']) {
        Some((tk(TokenKind::Omega), j + 6))
    } else if pat_at(s, j, seq!['O', 'm', 'e', 'g', 'a']) {
        Some((tk(TokenKind::Omega), j + 5))
    } else if pat_at(s, j, seq!['ω']) {
        Some((tk(TokenKind::OmegaLower), j + 1))
    } else if pat_at(s, j, seq!['\\', 'o', 'm', 'e', 'g', 'a']) {
        Some((tk(TokenKind::OmegaLower), j + 6))
    } else if pat_at(s, j, seq!['o', 'm', 'e', 'g', 'a']) {
        Some((tk(TokenKind::OmegaLower), j + 5))
    } else if c == 'p' {
        Some((tk(TokenKind::Psi), j + 1))
    } else if c == 'w' {
        Some((tk(TokenKind::OmegaLower), j + 1))
    } else if c == 'W' {
        Some((tk(TokenKind::Omega), j + 1))
    } else if c == '_' {
        Some((tk(TokenKind::Subscript), j + 1))
    } else if c == '(' {
        Some((tk(TokenKind::LParen), j + 1))
    } else if c == ')' {
        Some((tk(TokenKind::RParen), j + 1))
    } else if c == '{' {
        Some((tk(TokenKind::LBrace), j + 1))
    } else if c == '}' {
        Some((tk(TokenKind::RBrace), j + 1))
    } else if c == '+' {
        Some((tk(TokenKind::Plus), j + 1))
    } else if pat_at(s, j, seq!['*', '*']) {
        Some((tk(TokenKind::Pow), j + 2))
    } else if c == '×' || c == '*' {
        Some((tk(TokenKind::Mul), j + 1))
    } else if c == '^' {
        Some((tk(TokenKind::Pow), j + 1))
    } else if is_digit(c) {
        let e = digits_end(s, j);
        Some((Token { kind: TokenKind::Num, num_value: digits_val(s, j, e) as i32 }, e))
    } else {
        None
    }
}

/// The character at `j`, which starts no token, with its byte position.
pub open spec fn bad_at(s: Seq<char>, j: int) -> Lexed {
    Lexed::Bad(s[j], byte_off(s, j) as usize)
}

/// The tokens from position `i` on, ending with `Eof` or with the
/// character that could not start a token.
pub open spec fn lex_from(s: Seq<char>, i: int) -> Seq<Lexed>
    decreases s.len() - i,
{
    let j = skip_sp(s, i);
    if i < 0 || j < 0 || j >= s.len() {
        seq![Lexed::Tok(tk(TokenKind::Eof))]
    } else if lex_tok(s, j) is None {
        seq![bad_at(s, j)]
    } else {
        let (t, k) = lex_tok(s, j)->0;
        if i < k <= s.len() {
            seq![Lexed::Tok(t)] + lex_from(s, k)
        } else {
            seq![]
        }
    }
}

/// Every decimal numeral in `s` fits in an `i32`.
pub open spec fn nums_fit(s: Seq<char>) -> bool {
    forall|i: int|
        0 <= i < s.len() && is_digit(#[trigger] s[i]) ==> digits_val(s, i, digits_end(s, i))
            <= i32::MAX
}

// ============================================================
// Lexer
// ============================================================

/// Whether `p` occurs in `v` at `i`.
fn has_at(v: &Vec<char>, i: usize, p: &[char]) -> (r: bool)
    ensures
        r == pat_at(v@, i as int, p@),
{
    let n = v.len();
    let m = p.len();
    if i > n || m > n - i {
        return false;
    }
    let mut k: usize = 0;
    while k < m
        invariant
            k <= m == p@.len(),
            n == v@.len(),
            i + m <= n,
            forall|t: int| 0 <= t < k ==> v@[i + t] == p@[t],
        decreases m - k,
    {
        if v[i + k] != p[k] {
            proof {
                assert(v@.subrange(i as int, i + m)[k as int] != p@[k as int]);
            }
            return false;
        }
        k = k + 1;
    }
    proof {
        assert(v@.subrange(i as int, i + m) =~= p@);
    }
    true
}

fn utf8_size(c: char) -> (r: usize)
    ensures
        r == utf8_len(c),
{
    let u = c as u32;
    if u < 0x80 {
        1
    } else if u < 0x800 {
        2
    } else if u < 0x10000 {
        3
    } else {
        4
    }
}

fn tok(k: TokenKind) -> (r: Token)
    ensures
        r == tk(k),
{
    Token { kind: k, num_value: 0 }
}

/// The token starting at `j` (not a space) and the position after it.
fn lex_token(v: &Vec<char>, j: usize) -> (r: Option<(Token, usize)>)
    requires
        j < v@.len(),
        nums_fit(v@),
    ensures
        match r {
            Some((t, k)) => lex_tok(v@, j as int) == Some((t, k as int)) && j < k <= v@.len(),
            None => lex_tok(v@, j as int) is None,
        },
{
    let n = v.len();
    let c = v[j];
    if has_at(v, j, &['ψ']) {
        Some((tok(TokenKind::Psi), j + 1))
    } else if has_at(v, j, &['\\', 'p', 's', 'i']) {
        Some((tok(TokenKind::Psi), j + 4))
    } else if has_at(v, j, &['p', 's', 'i']) {
        Some((tok(TokenKind::Psi), j + 3))
    } else if has_at(v, j, &['Ω']) {
        Some((tok(TokenKind::Omega), j + 1))
    } else if has_at(v, j, &['\\', 'O', 'm', 'e', 'g', 'a']) {
        Some((tok(TokenKind::Omega), j + 6))
    } else if has_at(v, j, &['O', 'm', 'e', 'g', 'a']) {
        Some((tok(TokenKind::Omega), j + 5))
    } else if has_at(v, j, &['ω']) {
        Some((tok(TokenKind::OmegaLower), j + 1))
    } else if has_at(v, j, &['\\', 'o', 'm', 'e', 'g', 'a']) {
        Some((tok(TokenKind::OmegaLower), j + 6))
    } else if has_at(v, j, &['o', 'm', 'e', 'g', 'a']) {
        Some((tok(TokenKind::OmegaLower), j + 5))
    } else if c == 'p' {
        Some((tok(TokenKind::Psi), j + 1))
    } else if c == 'w' {
        Some((tok(TokenKind::OmegaLower), j + 1))
    } else if c == 'W' {
        Some((tok(TokenKind::Omega), j + 1))
    } else if c == '_' {
        Some((tok(TokenKind::Subscript), j + 1))
    } else if c == '(' {
        Some((tok(TokenKind::LParen), j + 1))
    } else if c == ')' {
        Some((tok(TokenKind::RParen), j + 1))
    } else if c == '{' {
        Some((tok(TokenKind::LBrace), j + 1))
    } else if c == '}' {
        Some((tok(TokenKind::RBrace), j + 1))
    } else if c == '+' {
        Some((tok(TokenKind::Plus), j + 1))
    } else if has_at(v, j, &['*', '*']) {
        Some((tok(TokenKind::Pow), j + 2))
    } else if c == '×' || c == '*' {
        Some((tok(TokenKind::Mul), j + 1))
    } else if c == '^' {
        Some((tok(TokenKind::Pow), j + 1))
    } else if '0' <= c && c <= '9' {
        let ghost s = v@;
        let ghost e = digits_end(s, j as int);
        proof {
            lemma_digits_end(s, j as int);
            assert(is_digit(s[j as int]));
            assert(digits_val(s, j as int, e) <= i32::MAX);
        }
        let mut val: i32 = 0;
        let mut k: usize = j;
        while k < v.len() && '0' <= v[k] && v[k] <= '9'
            invariant
                j <= k <= e <= s.len(),
                s == v@,
                e == digits_end(s, j as int),
                forall|t: int| j <= t < e ==> is_digit(#[trigger] s[t]),
                e < s.len() ==> !is_digit(s[e]),
                digits_val(s, j as int, e) <= i32::MAX,
                val as int == digits_val(s, j as int, k as int),
            decreases s.len() - k,
        {
            proof {
                assert(k < e);
                lemma_digits_val_mono(s, j as int, k + 1, e);
                assert(digits_val(s, j as int, k + 1) == digits_val(s, j as int, k as int) * 10
                    + digit_value(s[k as int]));
            }
            let d = (v[k] as u32 - '0' as u32) as i32;
            val = val * 10 + d;
            k = k + 1;
        }
        proof {
            assert(k == e);
        }
        Some((Token { kind: TokenKind::Num, num_value: val }, k))
    } else {
        None
    }
}

/// Whether `parse_bocf` and `bocf_to_bms` take the text: every numeral in
/// it fits in an `i32` and its UTF-8 length fits in a `usize`.
pub fn bocf_input_fits(input: &str) -> (r: bool)
    ensures
        r == (nums_fit(input@) && byte_off(input@, input@.len() as int) <= usize::MAX),
{
    let v = chars_of(input);
    let n = v.len();
    let ghost s = v@;
    let mut boff: usize = 0;
    let mut i: usize = 0;
    while i < n
        invariant
            i <= n == s.len(),
            s == v@,
            s == input@,
            boff == byte_off(s, i as int),
        decreases n - i,
    {
        let w = utf8_size(v[i]);
        if boff > usize::MAX - w {
            proof {
                assert(byte_off(s, i + 1) == byte_off(s, i as int) + utf8_len(s[i as int]));
                lemma_byte_off_mono(s, i + 1, n as int);
            }
            return false;
        }
        boff = boff + w;
        i = i + 1;
    }
    let mut i: usize = 0;
    while i < n
        invariant
            i <= n == s.len(),
            s == v@,
            s == input@,
            byte_off(s, n as int) <= usize::MAX,
            forall|k: int|
                0 <= k < i && is_digit(#[trigger] s[k]) ==> digits_val(s, k, digits_end(s, k))
                    <= i32::MAX,
        decreases n - i,
    {
        if is_digit_char(v[i]) {
            let ghost e = digits_end(s, i as int);
            proof {
                lemma_digits_end(s, i as int);
            }
            let mut val: i64 = 0;
            let mut k: usize = i;
            while k < n && is_digit_char(v[k])
                invariant
                    i <= k <= e <= n == s.len(),
                    s == v@,
                    s == input@,
                    e == digits_end(s, i as int),
                    forall|t: int| i <= t < e ==> is_digit(#[trigger] s[t]),
                    e < s.len() ==> !is_digit(s[e]),
                    val == digits_val(s, i as int, k as int),
                    0 <= val <= i32::MAX,
                decreases n - k,
            {
                let d = digit_of(v[k]) as i64;
                proof {
                    assert(k < e);
                    lemma_digits_val_mono(s, i as int, k + 1, e);
                }
                if val * 10 + d > 0x7fff_ffff {
                    proof {
                        assert(digits_val(s, i as int, k + 1) > i32::MAX);
                        assert(is_digit(s[i as int]));
                        assert(digits_val(s, i as int, digits_end(s, i as int)) > i32::MAX);
                        assert(!nums_fit(input@));
                    }
                    return false;
                }
                val = val * 10 + d;
                k = k + 1;
            }
            proof {
                assert(k == e);
            }
        }
        i = i + 1;
    }
    true
}

/// All tokens of `v`, ending with `Eof` or with the offending character.
pub fn tokenize(v: &Vec<char>) -> (r: Vec<Lexed>)
    requires
        nums_fit(v@),
        byte_off(v@, v@.len() as int) <= usize::MAX,
    ensures
        r@ == lex_from(v@, 0),
{
    let ghost s = v@;
    let n = v.len();
    let mut out: Vec<Lexed> = Vec::new();
    let mut i: usize = 0;
    let mut boff: usize = 0;
    let mut done = false;
    while !done
        invariant
            s == v@,
            n == s.len(),
            i <= n,
            nums_fit(s),
            byte_off(s, n as int) <= usize::MAX,
            !done ==> boff == byte_off(s, i as int),
            !done ==> out@ + lex_from(s, i as int) == lex_from(s, 0),
            done ==> out@ == lex_from(s, 0),
        decreases n - i, if done { 0nat } else { 1nat },
    {
        proof {
            lemma_skip_sp(s, i as int);
        }
        let mut j = i;
        while j < n && (v[j] == ' ' || v[j] == '\t' || v[j] == '\n' || v[j] == '\r')
            invariant
                i <= j <= skip_sp(s, i as int) <= n,
                s == v@,
                n == s.len(),
                byte_off(s, n as int) <= usize::MAX,
                boff == byte_off(s, j as int),
                skip_sp(s, j as int) == skip_sp(s, i as int),
            decreases n - j,
        {
            proof {
                lemma_byte_off_mono(s, j + 1, n as int);
                lemma_skip_sp(s, j + 1);
            }
            boff = boff + utf8_size(v[j]);
            j = j + 1;
        }
        proof {
            assert(j == skip_sp(s, i as int));
        }
        if j >= n {
            let ghost o0 = out@;
            out.push(Lexed::Tok(tok(TokenKind::Eof)));
            proof {
                assert(out@ =~= o0 + lex_from(s, i as int));
            }
            done = true;
        } else {
            match lex_token(v, j) {
                None => {
                    let ghost o0 = out@;
                    out.push(Lexed::Bad(v[j], boff));
                    proof {
                        lemma_byte_off_mono(s, j as int, n as int);
                        assert(byte_off(s, j as int) as usize == boff);
                        assert(lex_tok(s, j as int) is None);
                        assert(lex_from(s, i as int) == seq![Lexed::Bad(s[j as int], boff)]);
                        assert(out@ =~= o0 + lex_from(s, i as int));
                    }
                    done = true;
                },
                Some((t, k)) => {
                    let ghost o0 = out@;
                    out.push(Lexed::Tok(t));
                    proof {
                        assert(lex_from(s, i as int) == seq![Lexed::Tok(t)] + lex_from(s, k as int));
                        assert(out@ + lex_from(s, k as int) =~= o0 + lex_from(s, i as int));
                    }
                    let mut q = j;
                    while q < k
                        invariant
                            j <= q <= k <= n,
                            s == v@,
                            n == s.len(),
                            byte_off(s, n as int) <= usize::MAX,
                            boff == byte_off(s, q as int),
                        decreases k - q,
                    {
                        proof {
                            lemma_byte_off_mono(s, q + 1, n as int);
                        }
                        boff = boff + utf8_size(v[q]);
                        q = q + 1;
                    }
                    i = k;
                },
            }
        }
    }
    out
}


// ============================================================
// Parser: model
// ============================================================

pub open spec fn bad_msg(c: char, p: nat) -> Seq<char> {
    "Unexpected character '"@ + seq![c] + "' at position "@ + nat_str(p)
}

/// The lexer's message for an entry that is not a token.
pub open spec fn lexed_err(l: Lexed) -> Seq<char> {
    match l {
        Lexed::Bad(c, p) => bad_msg(c, p as nat),
        Lexed::Tok(_) => Seq::empty(),
    }
}

/// The kind of the current token (`Eof` past the end or on a lexer error).
pub open spec fn kind_at(t: Seq<Lexed>, i: int) -> TokenKind {
    if 0 <= i < t.len() {
        match t[i] {
            Lexed::Tok(k) => k.kind,
            Lexed::Bad(_, _) => TokenKind::Eof,
        }
    } else {
        TokenKind::Eof
    }
}

pub open spec fn num_at(t: Seq<Lexed>, i: int) -> i32 {
    if 0 <= i < t.len() {
        match t[i] {
            Lexed::Tok(k) => k.num_value,
            Lexed::Bad(_, _) => 0,
        }
    } else {
        0
    }
}

/// Moving to the next token fails when the lexer could not produce it.
pub open spec fn advance(t: Seq<Lexed>, i: int) -> Result<int, Seq<char>> {
    if 0 <= i + 1 < t.len() && t[i + 1] is Bad {
        Err(lexed_err(t[i + 1]))
    } else {
        Ok(i + 1)
    }
}

pub open spec fn expect_msg(k: TokenKind, got: TokenKind) -> Seq<char> {
    "Expected "@ + nat_str(kind_num(k) as nat) + " but got "@ + nat_str(kind_num(got) as nat)
}

pub open spec fn expect(t: Seq<Lexed>, i: int, k: TokenKind) -> Result<int, Seq<char>> {
    if kind_at(t, i) != k {
        Err(expect_msg(k, kind_at(t, i)))
    } else {
        advance(t, i)
    }
}

/// primary → NUM | ω | Ω ('_' primary)? | ψ ('_' primary)? '('|'{' expr ')'|'}'
///         | '('|'{' expr ')'|'}'
pub open spec fn p_primary(t: Seq<Lexed>, i: int) -> Result<(Ast, int), Seq<char>>
    decreases t.len() - i, 0nat,
{
    let kd = kind_at(t, i);
    if kd == TokenKind::Num {
        match advance(t, i) {
            Err(e) => Err(e),
            Ok(j) => Ok((Ast::Num(num_at(t, i)), j)),
        }
    } else if kd == TokenKind::OmegaLower {
        match advance(t, i) {
            Err(e) => Err(e),
            Ok(j) => Ok((Ast::W, j)),
        }
    } else if kd == TokenKind::Omega {
        match advance(t, i) {
            Err(e) => Err(e),
            Ok(j) => if kind_at(t, j) == TokenKind::Subscript {
                match advance(t, j) {
                    Err(e) => Err(e),
                    Ok(j2) => match p_primary(t, j2) {
                        Err(e) => Err(e),
                        Ok(r) => Ok((Ast::Omega(Some(Box::new(r.0))), r.1)),
                    },
                }
            } else {
                Ok((Ast::Omega(None), j))
            },
        }
    } else if kd == TokenKind::Psi {
        match advance(t, i) {
            Err(e) => Err(e),
            Ok(j) => if kind_at(t, j) == TokenKind::Subscript {
                match advance(t, j) {
                    Err(e) => Err(e),
                    Ok(j2) => match p_primary(t, j2) {
                        Err(e) => Err(e),
                        Ok(r) => if i < r.1 <= t.len() {
                            psi_rest(t, Some(Box::new(r.0)), r.1)
                        } else {
                            Err(Seq::empty())
                        },
                    },
                }
            } else {
                psi_rest(t, None, j)
            },
        }
    } else if kd == TokenKind::LParen || kd == TokenKind::LBrace {
        match advance(t, i) {
            Err(e) => Err(e),
            Ok(j) => match p_expr(t, j) {
                Err(e) => Err(e),
                Ok(r) => if kind_at(t, r.1) != TokenKind::RParen && kind_at(t, r.1)
                    != TokenKind::RBrace {
                    Err("Expected closing bracket"@)
                } else {
                    match advance(t, r.1) {
                        Err(e) => Err(e),
                        Ok(k2) => Ok((r.0, k2)),
                    }
                },
            },
        }
    } else {
        Err("Unexpected token in primary expression"@)
    }
}

/// The bracketed argument of a ψ, from its opening bracket at `j`.
pub open spec fn psi_rest(t: Seq<Lexed>, sub: Option<Box<Ast>>, j: int) -> Result<
    (Ast, int),
    Seq<char>,
>
    decreases t.len() - j, 0nat,
{
    let open = kind_at(t, j);
    let r1 = if open == TokenKind::LBrace {
        advance(t, j)
    } else {
        expect(t, j, TokenKind::LParen)
    };
    match r1 {
        Err(e) => Err(e),
        Ok(j1) => match p_expr(t, j1) {
            Err(e) => Err(e),
            Ok(r) => {
                let r2 = if open == TokenKind::LBrace {
                    expect(t, r.1, TokenKind::RBrace)
                } else {
                    expect(t, r.1, TokenKind::RParen)
                };
                match r2 {
                    Err(e) => Err(e),
                    Ok(k2) => Ok((Ast::Psi(sub, Box::new(r.0)), k2)),
                }
            },
        },
    }
}

/// power → primary ('^' power)?
pub open spec fn p_power(t: Seq<Lexed>, i: int) -> Result<(Ast, int), Seq<char>>
    decreases t.len() - i, 1nat,
{
    match p_primary(t, i) {
        Err(e) => Err(e),
        Ok(r) => if kind_at(t, r.1) == TokenKind::Pow {
            match advance(t, r.1) {
                Err(e) => Err(e),
                Ok(j1) => if i < j1 {
                    match p_power(t, j1) {
                        Err(e) => Err(e),
                        Ok(q) => Ok((Ast::Pow(Box::new(r.0), Box::new(q.0)), q.1)),
                    }
                } else {
                    Err(Seq::empty())
                },
            }
        } else {
            Ok(r)
        },
    }
}

/// term → power ('×' power)*
pub open spec fn p_term(t: Seq<Lexed>, i: int) -> Result<(Ast, int), Seq<char>>
    decreases t.len() - i, 3nat,
{
    match p_power(t, i) {
        Err(e) => Err(e),
        Ok(r) => if i < r.1 <= t.len() {
            term_rest(t, r.0, r.1)
        } else {
            Err(Seq::empty())
        },
    }
}

pub open spec fn term_rest(t: Seq<Lexed>, left: Ast, j: int) -> Result<(Ast, int), Seq<char>>
    decreases t.len() - j, 2nat,
{
    if kind_at(t, j) == TokenKind::Mul {
        match advance(t, j) {
            Err(e) => Err(e),
            Ok(j1) => match p_power(t, j1) {
                Err(e) => Err(e),
                Ok(r) => if j < r.1 <= t.len() {
                    term_rest(t, Ast::Mul(Box::new(left), Box::new(r.0)), r.1)
                } else {
                    Err(Seq::empty())
                },
            },
        }
    } else {
        Ok((left, j))
    }
}

/// expr → term ('+' term)*
pub open spec fn p_expr(t: Seq<Lexed>, i: int) -> Result<(Ast, int), Seq<char>>
    decreases t.len() - i, 5nat,
{
    match p_term(t, i) {
        Err(e) => Err(e),
        Ok(r) => if i < r.1 <= t.len() {
            expr_rest(t, r.0, r.1)
        } else {
            Err(Seq::empty())
        },
    }
}

pub open spec fn expr_rest(t: Seq<Lexed>, left: Ast, j: int) -> Result<(Ast, int), Seq<char>>
    decreases t.len() - j, 4nat,
{
    if kind_at(t, j) == TokenKind::Plus {
        match advance(t, j) {
            Err(e) => Err(e),
            Ok(j1) => match p_term(t, j1) {
                Err(e) => Err(e),
                Ok(r) => if j < r.1 <= t.len() {
                    expr_rest(t, Ast::Add(Box::new(left), Box::new(r.0)), r.1)
                } else {
                    Err(Seq::empty())
                },
            },
        }
    } else {
        Ok((left, j))
    }
}

/// A whole expression followed by the end of input.
pub open spec fn p_full(t: Seq<Lexed>) -> Result<Ast, Seq<char>> {
    if t.len() > 0 && t[0] is Bad {
        Err(lexed_err(t[0]))
    } else {
        match p_expr(t, 0) {
            Err(e) => Err(e),
            Ok(r) => if kind_at(t, r.1) != TokenKind::Eof {
                Err("Unexpected trailing tokens"@)
            } else {
                Ok(r.0)
            },
        }
    }
}

/// Parsing the text of a BOCF expression.
pub open spec fn parse_spec(s: Seq<char>) -> Result<Ast, Seq<char>> {
    p_full(lex_from(s, 0))
}

// ============================================================
// Parser: progress
// ============================================================

pub proof fn lemma_primary_progress(t: Seq<Lexed>, i: int)
    requires
        0 <= i,
    ensures
        p_primary(t, i) matches Ok(r) ==> i < r.1 <= t.len(),
    decreases t.len() - i, 0nat,
{
    let kd = kind_at(t, i);
    if kd == TokenKind::Omega || kd == TokenKind::Psi {
        if let Ok(j) = advance(t, i) {
            if kind_at(t, j) == TokenKind::Subscript {
                if let Ok(j2) = advance(t, j) {
                    lemma_primary_progress(t, j2);
                    if kd == TokenKind::Psi {
                        if let Ok(r) = p_primary(t, j2) {
                            if i < r.1 <= t.len() {
                                lemma_psi_rest_progress(t, Some(Box::new(r.0)), r.1);
                            }
                        }
                    }
                }
            } else if kd == TokenKind::Psi {
                lemma_psi_rest_progress(t, None, j);
            }
        }
    } else if kd == TokenKind::LParen || kd == TokenKind::LBrace {
        if let Ok(j) = advance(t, i) {
            lemma_expr_progress(t, j);
        }
    }
}

pub proof fn lemma_psi_rest_progress(t: Seq<Lexed>, sub: Option<Box<Ast>>, j: int)
    requires
        0 <= j,
    ensures
        psi_rest(t, sub, j) matches Ok(r) ==> j < r.1 <= t.len(),
    decreases t.len() - j, 0nat,
{
    let open = kind_at(t, j);
    if open == TokenKind::LBrace || open == TokenKind::LParen {
        lemma_expr_progress(t, j + 1);
    }
}

pub proof fn lemma_power_progress(t: Seq<Lexed>, i: int)
    requires
        0 <= i,
    ensures
        p_power(t, i) matches Ok(r) ==> i < r.1 <= t.len(),
    decreases t.len() - i, 1nat,
{
    lemma_primary_progress(t, i);
    if let Ok(r) = p_primary(t, i) {
        if kind_at(t, r.1) == TokenKind::Pow {
            if let Ok(j1) = advance(t, r.1) {
                lemma_power_progress(t, j1);
            }
        }
    }
}

pub proof fn lemma_term_progress(t: Seq<Lexed>, i: int)
    requires
        0 <= i,
    ensures
        p_term(t, i) matches Ok(r) ==> i < r.1 <= t.len(),
    decreases t.len() - i, 3nat,
{
    lemma_power_progress(t, i);
    if let Ok(r) = p_power(t, i) {
        lemma_term_rest_progress(t, r.0, r.1);
    }
}

pub proof fn lemma_term_rest_progress(t: Seq<Lexed>, left: Ast, j: int)
    requires
        0 <= j <= t.len(),
    ensures
        term_rest(t, left, j) matches Ok(r) ==> j <= r.1 <= t.len(),
    decreases t.len() - j, 2nat,
{
    if kind_at(t, j) == TokenKind::Mul {
        if let Ok(j1) = advance(t, j) {
            lemma_power_progress(t, j1);
            if let Ok(r) = p_power(t, j1) {
                lemma_term_rest_progress(t, Ast::Mul(Box::new(left), Box::new(r.0)), r.1);
            }
        }
    }
}

pub proof fn lemma_expr_progress(t: Seq<Lexed>, i: int)
    requires
        0 <= i,
    ensures
        p_expr(t, i) matches Ok(r) ==> i < r.1 <= t.len(),
    decreases t.len() - i, 5nat,
{
    lemma_term_progress(t, i);
    if let Ok(r) = p_term(t, i) {
        lemma_expr_rest_progress(t, r.0, r.1);
    }
}

pub proof fn lemma_expr_rest_progress(t: Seq<Lexed>, left: Ast, j: int)
    requires
        0 <= j <= t.len(),
    ensures
        expr_rest(t, left, j) matches Ok(r) ==> j <= r.1 <= t.len(),
    decreases t.len() - j, 4nat,
{
    if kind_at(t, j) == TokenKind::Plus {
        if let Ok(j1) = advance(t, j) {
            lemma_term_progress(t, j1);
            if let Ok(r) = p_term(t, j1) {
                lemma_expr_rest_progress(t, Ast::Add(Box::new(left), Box::new(r.0)), r.1);
            }
        }
    }
}


// ============================================================
// Parser
// ============================================================

pub open spec fn pr(r: Result<(Ast, usize), String>) -> Result<(Ast, int), Seq<char>> {
    match r {
        Ok((a, k)) => Ok((a, k as int)),
        Err(e) => Err(e@),
    }
}

pub open spec fn ir(r: Result<usize, String>) -> Result<int, Seq<char>> {
    match r {
        Ok(k) => Ok(k as int),
        Err(e) => Err(e@),
    }
}

fn bad_message(c: char, p: usize) -> (r: String)
    ensures
        r@ == bad_msg(c, p as nat),
{
    let mut m = lit("Unexpected character '");
    push_char(&mut m, c);
    push_string(&mut m, &lit("' at position "));
    push_nat(&mut m, p as u64);
    proof {
        assert(m@ =~= bad_msg(c, p as nat));
    }
    m
}

fn kind_of(t: &Vec<Lexed>, i: usize) -> (r: TokenKind)
    ensures
        r == kind_at(t@, i as int),
{
    if i < t.len() {
        match t[i] {
            Lexed::Tok(k) => k.kind,
            Lexed::Bad(_, _) => TokenKind::Eof,
        }
    } else {
        TokenKind::Eof
    }
}

fn advance_tok(t: &Vec<Lexed>, i: usize) -> (r: Result<usize, String>)
    requires
        i < t@.len(),
    ensures
        ir(r) == advance(t@, i as int),
{
    let n = t.len();
    if i + 1 < n {
        match t[i + 1] {
            Lexed::Bad(c, p) => {
                return Err(bad_message(c, p));
            },
            Lexed::Tok(_) => {},
        }
    }
    Ok(i + 1)
}

fn expect_message(k: TokenKind, got: TokenKind) -> (r: String)
    ensures
        r@ == expect_msg(k, got),
{
    let mut m = lit("Expected ");
    push_nat(&mut m, kind_number(k));
    push_string(&mut m, &lit(" but got "));
    push_nat(&mut m, kind_number(got));
    proof {
        assert(m@ =~= expect_msg(k, got));
    }
    m
}

fn expect_tok(t: &Vec<Lexed>, i: usize, k: TokenKind) -> (r: Result<usize, String>)
    requires
        i <= t@.len(),
        k != TokenKind::Eof,
    ensures
        ir(r) == expect(t@, i as int, k),
{
    let got = kind_of(t, i);
    if got != k {
        return Err(expect_message(k, got));
    }
    advance_tok(t, i)
}

fn parse_primary(t: &Vec<Lexed>, i: usize) -> (r: Result<(Ast, usize), String>)
    requires
        i <= t@.len(),
    ensures
        pr(r) == p_primary(t@, i as int),
    decreases t@.len() - i, 0nat,
{
    let kd = kind_of(t, i);
    if kd == TokenKind::Num {
        let n = match t[i] {
            Lexed::Tok(k) => k.num_value,
            Lexed::Bad(_, _) => 0,
        };
        match advance_tok(t, i) {
            Err(e) => Err(e),
            Ok(j) => Ok((Ast::Num(n), j)),
        }
    } else if kd == TokenKind::OmegaLower {
        match advance_tok(t, i) {
            Err(e) => Err(e),
            Ok(j) => Ok((Ast::W, j)),
        }
    } else if kd == TokenKind::Omega {
        match advance_tok(t, i) {
            Err(e) => Err(e),
            Ok(j) => {
                if kind_of(t, j) == TokenKind::Subscript {
                    match advance_tok(t, j) {
                        Err(e) => Err(e),
                        Ok(j2) => match parse_primary(t, j2) {
                            Err(e) => Err(e),
                            Ok((sub, k)) => Ok((Ast::Omega(Some(Box::new(sub))), k)),
                        },
                    }
                } else {
                    Ok((Ast::Omega(None), j))
                }
            },
        }
    } else if kd == TokenKind::Psi {
        match advance_tok(t, i) {
            Err(e) => Err(e),
            Ok(j) => {
                if kind_of(t, j) == TokenKind::Subscript {
                    match advance_tok(t, j) {
                        Err(e) => Err(e),
                        Ok(j2) => {
                            proof {
                                lemma_primary_progress(t@, j2 as int);
                            }
                            match parse_primary(t, j2) {
                                Err(e) => Err(e),
                                Ok((sub, k)) => parse_psi_rest(t, Some(Box::new(sub)), k),
                            }
                        },
                    }
                } else {
                    parse_psi_rest(t, None, j)
                }
            },
        }
    } else if kd == TokenKind::LParen || kd == TokenKind::LBrace {
        match advance_tok(t, i) {
            Err(e) => Err(e),
            Ok(j) => {
                proof {
                    lemma_expr_progress(t@, j as int);
                }
                match parse_expr(t, j) {
                    Err(e) => Err(e),
                    Ok((inner, k)) => {
                        let kk = kind_of(t, k);
                        if kk != TokenKind::RParen && kk != TokenKind::RBrace {
                            Err(lit("Expected closing bracket"))
                        } else {
                            match advance_tok(t, k) {
                                Err(e) => Err(e),
                                Ok(k2) => Ok((inner, k2)),
                            }
                        }
                    },
                }
            },
        }
    } else {
        Err(lit("Unexpected token in primary expression"))
    }
}

fn parse_psi_rest(t: &Vec<Lexed>, sub: Option<Box<Ast>>, j: usize) -> (r: Result<(Ast, usize), String>)
    requires
        j <= t@.len(),
    ensures
        pr(r) == psi_rest(t@, sub, j as int),
    decreases t@.len() - j, 0nat,
{
    let open = kind_of(t, j);
    let r1 = if open == TokenKind::LBrace {
        advance_tok(t, j)
    } else {
        expect_tok(t, j, TokenKind::LParen)
    };
    match r1 {
        Err(e) => Err(e),
        Ok(j1) => {
            proof {
                lemma_expr_progress(t@, j1 as int);
            }
            match parse_expr(t, j1) {
                Err(e) => Err(e),
                Ok((arg, k)) => {
                    let r2 = if open == TokenKind::LBrace {
                        expect_tok(t, k, TokenKind::RBrace)
                    } else {
                        expect_tok(t, k, TokenKind::RParen)
                    };
                    match r2 {
                        Err(e) => Err(e),
                        Ok(k2) => Ok((Ast::Psi(sub, Box::new(arg)), k2)),
                    }
                },
            }
        },
    }
}

fn parse_power(t: &Vec<Lexed>, i: usize) -> (r: Result<(Ast, usize), String>)
    requires
        i <= t@.len(),
    ensures
        pr(r) == p_power(t@, i as int),
    decreases t@.len() - i, 1nat,
{
    proof {
        lemma_primary_progress(t@, i as int);
    }
    match parse_primary(t, i) {
        Err(e) => Err(e),
        Ok((base, j)) => {
            if kind_of(t, j) == TokenKind::Pow {
                match advance_tok(t, j) {
                    Err(e) => Err(e),
                    Ok(j1) => match parse_power(t, j1) {
                        Err(e) => Err(e),
                        Ok((ex, k)) => Ok((Ast::Pow(Box::new(base), Box::new(ex)), k)),
                    },
                }
            } else {
                Ok((base, j))
            }
        },
    }
}

fn parse_term(t: &Vec<Lexed>, i: usize) -> (r: Result<(Ast, usize), String>)
    requires
        i <= t@.len(),
    ensures
        pr(r) == p_term(t@, i as int),
    decreases t@.len() - i, 3nat,
{
    proof {
        lemma_power_progress(t@, i as int);
    }
    match parse_power(t, i) {
        Err(e) => Err(e),
        Ok((left, j)) => parse_term_rest(t, left, j),
    }
}

fn parse_term_rest(t: &Vec<Lexed>, left: Ast, j: usize) -> (r: Result<(Ast, usize), String>)
    requires
        j <= t@.len(),
    ensures
        pr(r) == term_rest(t@, left, j as int),
    decreases t@.len() - j, 2nat,
{
    if kind_of(t, j) == TokenKind::Mul {
        match advance_tok(t, j) {
            Err(e) => Err(e),
            Ok(j1) => {
                proof {
                    lemma_power_progress(t@, j1 as int);
                }
                match parse_power(t, j1) {
                    Err(e) => Err(e),
                    Ok((right, k)) => parse_term_rest(t, Ast::Mul(Box::new(left), Box::new(right)), k),
                }
            },
        }
    } else {
        Ok((left, j))
    }
}

fn parse_expr(t: &Vec<Lexed>, i: usize) -> (r: Result<(Ast, usize), String>)
    requires
        i <= t@.len(),
    ensures
        pr(r) == p_expr(t@, i as int),
    decreases t@.len() - i, 5nat,
{
    proof {
        lemma_term_progress(t@, i as int);
    }
    match parse_term(t, i) {
        Err(e) => Err(e),
        Ok((left, j)) => parse_expr_rest(t, left, j),
    }
}

fn parse_expr_rest(t: &Vec<Lexed>, left: Ast, j: usize) -> (r: Result<(Ast, usize), String>)
    requires
        j <= t@.len(),
    ensures
        pr(r) == expr_rest(t@, left, j as int),
    decreases t@.len() - j, 4nat,
{
    if kind_of(t, j) == TokenKind::Plus {
        match advance_tok(t, j) {
            Err(e) => Err(e),
            Ok(j1) => {
                proof {
                    lemma_term_progress(t@, j1 as int);
                }
                match parse_term(t, j1) {
                    Err(e) => Err(e),
                    Ok((right, k)) => parse_expr_rest(t, Ast::Add(Box::new(left), Box::new(right)), k),
                }
            },
        }
    } else {
        Ok((left, j))
    }
}

/// Parses a BOCF expression: numerals, ω/w, Ω/W with an optional `_`
/// subscript, ψ/p with an optional subscript and a bracketed argument,
/// `+`, `×`/`*` and `^`/`**`.
pub fn parse_bocf(input: &str) -> (r: Result<Ast, String>)
    requires
        nums_fit(input@),
        byte_off(input@, input@.len() as int) <= usize::MAX,
    ensures
        match r {
            Ok(a) => parse_spec(input@) == Ok::<Ast, Seq<char>>(a),
            Err(e) => parse_spec(input@) == Err::<Ast, Seq<char>>(e@),
        },
{
    let v = chars_of(input);
    let t = tokenize(&v);
    if t.len() > 0 {
        match t[0] {
            Lexed::Bad(c, p) => {
                return Err(bad_message(c, p));
            },
            Lexed::Tok(_) => {},
        }
    }
    match parse_expr(&t, 0) {
        Err(e) => Err(e),
        Ok((ast, j)) => {
            if kind_of(&t, j) != TokenKind::Eof {
                Err(lit("Unexpected trailing tokens"))
            } else {
                Ok(ast)
            }
        },
    }
}


// ============================================================
// Evaluation: model
// ============================================================

/// `base ^ exponent`, defined for exponents 0 and 1, for base ω, and for
/// bases that are a single ω-power (every Ω_a is one).
pub open spec fn pow_spec(base: Term, e: Term) -> Result<Term, Seq<char>> {
    if e is None {
        Ok(spec_one())
    } else if e == spec_one() {
        Ok(base)
    } else if base == spec_omega() {
        Ok(spec_exp(e))
    } else if base is Some && base->0.c is None {
        Ok(spec_exp(spec_mul(spec_log(base), e)))
    } else {
        Err("Exponentiation only supported for exponent of ω"@)
    }
}

/// The term an AST denotes: n = 1+…+1, ω = ψ_0(1), Ω_a = ψ_a(0) (Ω = Ω_1),
/// ψ_a(b), and ordinal sum, product and power.
pub open spec fn ev(a: Ast) -> Result<Term, Seq<char>>
    decreases a,
{
    match a {
        Ast::Num(n) => Ok(spec_from_int(if n < 0 { 0 } else { n as nat })),
        Ast::W => Ok(spec_omega()),
        Ast::Omega(sub) => match sub {
            None => Ok(spec_omega1()),
            Some(x) => match ev(*x) {
                Err(e) => Err(e),
                Ok(v) => Ok(mk(v, None, None)),
            },
        },
        Ast::Psi(sub, arg) => {
            let st = match sub {
                Some(x) => ev(*x),
                None => Ok(None),
            };
            match st {
                Err(e) => Err(e),
                Ok(v) => match ev(*arg) {
                    Err(e) => Err(e),
                    Ok(w) => Ok(mk(v, w, None)),
                },
            }
        },
        Ast::Add(l, r) => match ev(*l) {
            Err(e) => Err(e),
            Ok(x) => match ev(*r) {
                Err(e) => Err(e),
                Ok(y) => Ok(spec_add(x, y)),
            },
        },
        Ast::Mul(l, r) => match ev(*l) {
            Err(e) => Err(e),
            Ok(x) => match ev(*r) {
                Err(e) => Err(e),
                Ok(y) => Ok(spec_mul(x, y)),
            },
        },
        Ast::Pow(b, e) => match ev(*b) {
            Err(er) => Err(er),
            Ok(x) => match ev(*e) {
                Err(er) => Err(er),
                Ok(y) => pow_spec(x, y),
            },
        },
    }
}

pub open spec fn tr(r: Result<Term, String>) -> Result<Term, Seq<char>> {
    match r {
        Ok(x) => Ok(x),
        Err(e) => Err(e@),
    }
}

// ============================================================
// Evaluation
// ============================================================

fn eval_pow_term(base: &Term, exponent: &Term) -> (r: Result<Term, String>)
    ensures
        tr(r) == pow_spec(*base, *exponent),
{
    if is_zero(exponent) {
        return Ok(one());
    }
    if eq(exponent, &one()) {
        return Ok(clone_term(base));
    }
    if eq(base, &omega()) {
        return Ok(exp(exponent));
    }
    if !is_zero(base) {
        let bn = base.as_ref().unwrap();
        if is_zero(&bn.c) {
            return Ok(exp(&crate::term::mul(&log(base), exponent)));
        }
    }
    Err(lit("Exponentiation only supported for exponent of ω"))
}

fn eval_node(node: &Ast) -> (r: Result<Term, String>)
    ensures
        tr(r) == ev(*node),
    decreases node,
{
    match node {
        Ast::Num(n) => Ok(from_int(*n)),
        Ast::W => Ok(omega()),
        Ast::Omega(sub) => match sub {
            None => Ok(omega1()),
            Some(x) => match eval_node(x) {
                Err(e) => Err(e),
                Ok(v) => Ok(t(v, zero(), zero())),
            },
        },
        Ast::Psi(sub, arg) => {
            let st = match sub {
                Some(x) => eval_node(x),
                None => Ok(zero()),
            };
            match st {
                Err(e) => Err(e),
                Ok(v) => match eval_node(arg) {
                    Err(e) => Err(e),
                    Ok(w) => Ok(t(v, w, zero())),
                },
            }
        },
        Ast::Add(l, r) => match eval_node(l) {
            Err(e) => Err(e),
            Ok(x) => match eval_node(r) {
                Err(e) => Err(e),
                Ok(y) => Ok(crate::term::add(&x, &y)),
            },
        },
        Ast::Mul(l, r) => match eval_node(l) {
            Err(e) => Err(e),
            Ok(x) => match eval_node(r) {
                Err(e) => Err(e),
                Ok(y) => Ok(crate::term::mul(&x, &y)),
            },
        },
        Ast::Pow(b, e) => match eval_node(b) {
            Err(er) => Err(er),
            Ok(x) => match eval_node(e) {
                Err(er) => Err(er),
                Ok(y) => eval_pow_term(&x, &y),
            },
        },
    }
}

/// The term an expression denotes.
pub fn eval_ast(ast: &Ast) -> (r: Result<Term, String>)
    ensures
        tr(r) == ev(*ast),
{
    eval_node(ast)
}

// ============================================================
// Printing
// ============================================================

/// An indented tree of the AST, one node per line; each child is followed
/// by `  ← ` and its role.
pub open spec fn pa(node: Ast, ind: Seq<char>) -> Seq<char>
    decreases node,
{
    let deeper = ind + "  "@;
    match node {
        Ast::Num(n) => ind + "num "@ + int_str(n as int),
        Ast::W => ind + "ω"@,
        Ast::Omega(sub) => match sub {
            Some(x) => ind + "Ω"@ + "\n"@ + pa(*x, deeper) + "  ← sub"@,
            None => ind + "Ω"@,
        },
        Ast::Psi(sub, arg) => ind + "ψ"@ + (match sub {
            Some(x) => "\n"@ + pa(*x, deeper) + "  ← sub"@,
            None => Seq::empty(),
        }) + "\n"@ + pa(*arg, deeper) + "  ← arg"@,
        Ast::Add(l, r) => ind + "+"@ + "\n"@ + pa(*l, deeper) + "  ← left"@ + "\n"@ + pa(*r, deeper)
            + "  ← right"@,
        Ast::Mul(l, r) => ind + "×"@ + "\n"@ + pa(*l, deeper) + "  ← left"@ + "\n"@ + pa(*r, deeper)
            + "  ← right"@,
        Ast::Pow(b, e) => ind + "^"@ + "\n"@ + pa(*b, deeper) + "  ← base"@ + "\n"@ + pa(*e, deeper)
            + "  ← exp"@,
    }
}

/// Appends "\n", the child's tree, and "  ← " with the child's role.
fn push_child(s: &mut String, c: &Ast, deeper: &String, name: &str)
    ensures
        final(s)@ == old(s)@ + "\n"@ + pa(*c, deeper@) + "  ← "@ + name@,
    decreases c, 1nat,
{
    push_string(s, &lit("\n"));
    let sub = print_ast(c, deeper.as_str());
    push_string(s, &sub);
    push_string(s, &lit("  ← "));
    push_string(s, &lit(name));
    proof {
        assert(final(s)@ =~= old(s)@ + "\n"@ + pa(*c, deeper@) + "  ← "@ + name@);
    }
}

/// An indented tree of the AST, one node per line.
pub fn print_ast(node: &Ast, indent: &str) -> (r: String)
    ensures
        r@ == pa(*node, indent@),
    decreases node, 0nat,
{
    let mut deeper = lit(indent);
    push_string(&mut deeper, &lit("  "));
    let mut s = lit(indent);
    proof {
        reveal_strlit("  ← sub");
        reveal_strlit("  ← arg");
        reveal_strlit("  ← left");
        reveal_strlit("  ← right");
        reveal_strlit("  ← base");
        reveal_strlit("  ← exp");
        reveal_strlit("  ← ");
        reveal_strlit("sub");
        reveal_strlit("arg");
        reveal_strlit("left");
        reveal_strlit("right");
        reveal_strlit("base");
        reveal_strlit("exp");
    }
    match node {
        Ast::Num(n) => {
            push_string(&mut s, &lit("num "));
            push_int(&mut s, *n as i64);
        },
        Ast::W => {
            push_string(&mut s, &lit("ω"));
        },
        Ast::Omega(sub) => {
            push_string(&mut s, &lit("Ω"));
            match sub {
                Some(x) => {
                    push_child(&mut s, x, &deeper, "sub");
                },
                None => {},
            }
        },
        Ast::Psi(sub, arg) => {
            push_string(&mut s, &lit("ψ"));
            match sub {
                Some(x) => {
                    push_child(&mut s, x, &deeper, "sub");
                },
                None => {},
            }
            push_child(&mut s, arg, &deeper, "arg");
        },
        Ast::Add(l, r) => {
            push_string(&mut s, &lit("+"));
            push_child(&mut s, l, &deeper, "left");
            push_child(&mut s, r, &deeper, "right");
        },
        Ast::Mul(l, r) => {
            push_string(&mut s, &lit("×"));
            push_child(&mut s, l, &deeper, "left");
            push_child(&mut s, r, &deeper, "right");
        },
        Ast::Pow(b, e) => {
            push_string(&mut s, &lit("^"));
            push_child(&mut s, b, &deeper, "base");
            push_child(&mut s, e, &deeper, "exp");
        },
    }
    proof {
        assert(s@ =~= pa(*node, indent@));
    }
    s
}

// ============================================================
// Matrix display
// ============================================================

/// The entries of a column separated by commas.
pub open spec fn col_str(c: Seq<int>) -> Seq<char>
    decreases c.len(),
{
    if c.len() == 0 {
        Seq::empty()
    } else if c.len() == 1 {
        int_str(c[0])
    } else {
        col_str(c.drop_last()) + ","@ + int_str(c.last())
    }
}

/// "(a,b,c)(d,e,f)…", one bracketed group per column.
pub open spec fn bms_str(m: Seq<Seq<int>>) -> Seq<char>
    decreases m.len(),
{
    if m.len() == 0 {
        Seq::empty()
    } else {
        bms_str(m.drop_last()) + "("@ + col_str(m.last()) + ")"@
    }
}

/// Format a matrix as a BMS display string.
pub fn matrix_to_bms_str(m: &Matrix) -> (r: String)
    ensures
        r@ == bms_str(mat(m@)),
{
    let mut s = String::new();
    let mut i: usize = 0;
    proof {
        reveal_strlit("(");
        reveal_strlit(")");
        reveal_strlit(",");
        assert(s@ =~= bms_str(mat(m@).take(0)));
    }
    while i < m.len()
        invariant
            i <= m@.len(),
            s@ == bms_str(mat(m@).take(i as int)),
        decreases m.len() - i,
    {
        let ghost s0 = s@;
        push_string(&mut s, &lit("("));
        let col = &m[i];
        let ghost c = mat(m@)[i as int];
        proof {
            assert(c == col@.map_values(|x: i32| x as int));
        }
        let mut j: usize = 0;
        let ghost s1 = s@;
        proof {
            assert(c.take(0) =~= Seq::<int>::empty());
        }
        while j < col.len()
            invariant
                j <= col@.len(),
                c == col@.map_values(|x: i32| x as int),
                s@ == s1 + col_str(c.take(j as int)),
            decreases col.len() - j,
        {
            if j > 0 {
                push_string(&mut s, &lit(","));
            }
            push_int(&mut s, col[j] as i64);
            proof {
                assert(c.take(j + 1).drop_last() =~= c.take(j as int));
                if j == 0 {
                    assert(c.take(1) =~= seq![c[0]]);
                }
                assert(s@ =~= s1 + col_str(c.take(j + 1)));
            }
            j = j + 1;
        }
        push_string(&mut s, &lit(")"));
        proof {
            assert(c.take(col@.len() as int) =~= c);
            assert(mat(m@).take(i + 1).drop_last() =~= mat(m@).take(i as int));
            assert(s@ =~= bms_str(mat(m@).take(i + 1)));
        }
        i = i + 1;
    }
    proof {
        assert(mat(m@).take(m@.len() as int) =~= mat(m@));
    }
    s
}


// ============================================================
// BOCF → BMS
// ============================================================

/// (0,0,0)(1,1,1)(2,1,1)(3,1,0), then (1,1,1)(2,1,1)(3,1,0) for every
/// depth above 3.
pub open spec fn depth_matrix(d: int) -> Seq<Seq<int>>
    decreases d,
{
    if d <= 3 {
        seq![seq![0int, 0, 0], seq![1int, 1, 1], seq![2int, 1, 1], seq![3int, 1, 0]]
    } else {
        depth_matrix(d - 1) + seq![seq![1int, 1, 1], seq![2int, 1, 1], seq![3int, 1, 0]]
    }
}

fn col3(a: i32, b: i32, c: i32) -> (r: Vec<i32>)
    ensures
        r@.map_values(|x: i32| x as int) == seq![a as int, b as int, c as int],
{
    let r = vec![a, b, c];
    proof {
        assert(r@.map_values(|x: i32| x as int) =~= seq![a as int, b as int, c as int]);
    }
    r
}

/// A starting matrix for the search, by subscript depth.
fn build_bms_for_depth(depth: i32) -> (r: Matrix)
    ensures
        mat(r@) == depth_matrix(depth as int),
{
    let mut m: Vec<Vec<i32>> = Vec::new();
    m.push(col3(0, 0, 0));
    m.push(col3(1, 1, 1));
    m.push(col3(2, 1, 1));
    m.push(col3(3, 1, 0));
    proof {
        assert(mat(m@) =~= depth_matrix(3));
    }
    let mut d: i32 = 3;
    while d < depth
        invariant
            3 <= d,
            d <= depth || d == 3,
            mat(m@) == depth_matrix(if depth <= 3 { 3 } else { d as int }),
        decreases depth - d,
    {
        let ghost m0 = mat(m@);
        m.push(col3(1, 1, 1));
        m.push(col3(2, 1, 1));
        m.push(col3(3, 1, 0));
        d = d + 1;
        proof {
            assert(mat(m@) =~= m0 + seq![seq![1int, 1, 1], seq![2int, 1, 1], seq![3int, 1, 0]]);
        }
    }
    proof {
        if depth <= 3 {
            assert(depth_matrix(depth as int) == depth_matrix(3));
        }
    }
    m
}

/// The first `k` columns, copied.
fn prefix(m: &Matrix, k: usize) -> (r: Matrix)
    requires
        k <= m@.len(),
    ensures
        mat(r@) == mat(m@).take(k as int),
{
    let mut out: Vec<Vec<i32>> = Vec::new();
    let mut i: usize = 0;
    while i < k
        invariant
            i <= k <= m@.len(),
            mat(out@) == mat(m@).take(i as int),
        decreases k - i,
    {
        let c = m[i].clone();
        proof {
            assert(c@ =~= m@[i as int]@);
        }
        let ghost o0 = mat(out@);
        out.push(c);
        proof {
            assert(mat(out@) =~= o0.push(mat(m@)[i as int]));
            assert(mat(m@).take(i + 1) =~= mat(m@).take(i as int).push(mat(m@)[i as int]));
        }
        i = i + 1;
    }
    out
}

/// One step down: all columns but the last for a successor, the expansion
/// by `fs` for a limit; empty when the matrix has at most one column.
pub open spec fn step_down(m: Seq<Seq<int>>, fs: int) -> Seq<Seq<int>> {
    let l = m.len();
    if l <= 1 {
        Seq::empty()
    } else if lead_pos(m[l - 1], 0) == 0 {
        m.take(l - 1)
    } else {
        expand_spec(m, fs)
    }
}

/// `step_down`, or `None` when the expansion leaves the `i32` range.
pub open spec fn try_step(m: Seq<Seq<int>>, fs: int) -> Option<Seq<Seq<int>>> {
    if m.len() > 1 && lead_pos(m[m.len() - 1], 0) != 0 && !expand_fits(m, fs) {
        None
    } else {
        Some(step_down(m, fs))
    }
}

fn try_expand(m: &Matrix, fs: i32) -> (r: Option<Matrix>)
    ensures
        match r {
            Some(x) => try_step(mat(m@), fs as int) == Some(mat(x@)),
            None => try_step(mat(m@), fs as int) is None,
        },
{
    let l = m.len();
    if l <= 1 {
        let e: Vec<Vec<i32>> = Vec::new();
        proof {
            assert(mat(e@) =~= Seq::<Seq<int>>::empty());
        }
        return Some(e);
    }
    let last = &m[l - 1];
    proof {
        assert(mat(m@)[l - 1] == last@.map_values(|x: i32| x as int));
    }
    if last.len() == 0 || last[0] <= 0 {
        return Some(prefix(m, l - 1));
    }
    proof {
        lemma_lead_pos(mat(m@)[l - 1], 1);
        assert(lead_pos(mat(m@)[l - 1], 0) >= 1);
    }
    expand_bms_checked(m, fs)
}

/// Why the search stopped without a matrix.
pub enum SearchStop {
    CannotExpand,
    Exhausted,
}

/// Most rounds of the search.
pub const SEARCH_ROUNDS: u32 = 100000;

/// Evaluates a matrix; `None` when the evaluation fails.
fn value_of(m: &Matrix) -> (r: Option<Term>)
    ensures
        r == bms_value(mat(m@)),
{
    bms_to_bocf_checked(m)
}


/// What the search answers: the matrix found, or why it stopped.
pub type SearchAnswer = Result<Seq<Seq<int>>, SearchStop>;

/// The climb over fundamental-sequence indices from `fs` (1 to 6 one by
/// one, then doubling): `Ok` of the last expansion below the target and the
/// first one above it, or `Err` of the search's answer.
pub open spec fn climb(t: Term, m: Seq<Seq<int>>, fs: int, prev: Seq<Seq<int>>) -> Result<
    (Seq<Seq<int>>, Seq<Seq<int>>),
    SearchAnswer,
>
    decreases 0x8000_0000 - fs,
{
    match try_step(m, fs) {
        None => Err(Err(SearchStop::Exhausted)),
        Some(up) => match bms_value(up) {
            None => Err(Err(SearchStop::Exhausted)),
            Some(o) => if o == t {
                Err(Ok(up))
            } else if !spec_lt(o, t) {
                Ok((prev, up))
            } else if fs <= 5 {
                climb(t, m, fs + 1, up)
            } else if fs > 0x3fff_fffe {
                Err(Err(SearchStop::Exhausted))
            } else {
                climb(t, m, (fs + 1) * 2, up)
            },
        },
    }
}

/// Binary search over the column counts `lo..hi` of `up`: the least count
/// whose prefix is not below the target, or `Err` of the search's answer.
pub open spec fn bisect(t: Term, up: Seq<Seq<int>>, lo: int, hi: int) -> Result<int, SearchAnswer>
    decreases hi - lo,
{
    if lo >= hi {
        Ok(lo)
    } else {
        let mid = lo + (hi - lo) / 2;
        let mm = up.take(mid);
        match bms_value(mm) {
            None => Err(Err(SearchStop::Exhausted)),
            Some(o) => if o == t {
                Err(Ok(mm))
            } else if !spec_lt(o, t) {
                bisect(t, up, lo, mid)
            } else {
                bisect(t, up, mid + 1, hi)
            },
        }
    }
}

/// The matrix the next round starts from after a climb ended between
/// `prev` and `up`.
pub open spec fn refine(t: Term, prev: Seq<Seq<int>>, up: Seq<Seq<int>>) -> Result<Seq<Seq<int>>, SearchAnswer> {
    let n0 = prev.len() as int;
    let n = up.len() as int;
    if n >= n0 && n - n0 >= 4 {
        match bisect(t, up, n0, n) {
            Err(a) => Err(a),
            Ok(lo) => Ok(if lo < n { up.take(lo) } else { up }),
        }
    } else {
        Ok(up)
    }
}

/// Where a climb leads: the matrix of the next round, or the answer.
pub open spec fn after_climb(
    t: Term,
    c: Result<(Seq<Seq<int>>, Seq<Seq<int>>), SearchAnswer>,
) -> Result<Seq<Seq<int>>, SearchAnswer> {
    match c {
        Err(a) => Err(a),
        Ok(pu) => refine(t, pu.0, pu.1),
    }
}

/// The answer once the next round's matrix (or the answer) is known.
pub open spec fn go_on(t: Term, x: Result<Seq<Seq<int>>, SearchAnswer>, sd: int, f: nat) -> SearchAnswer {
    match x {
        Err(a) => a,
        Ok(nm) => search_from(t, nm, sd, f),
    }
}

/// The search from matrix `m` with start depth `sd`, for at most `f`
/// rounds.
pub open spec fn search_from(t: Term, m: Seq<Seq<int>>, sd: int, f: nat) -> SearchAnswer
    decreases f,
{
    if f == 0 {
        Err(SearchStop::Exhausted)
    } else {
        match bms_value(m) {
            None => Err(SearchStop::Exhausted),
            Some(cur) => if cur == t {
                Ok(m)
            } else if !spec_lt(t, cur) {
                search_from(t, depth_matrix(sd + 2), sd + 2, (f - 1) as nat)
            } else {
                match try_step(m, 0) {
                    None => Err(SearchStop::Exhausted),
                    Some(m0) => if m0.len() == 0 {
                        Err(SearchStop::CannotExpand)
                    } else {
                        match bms_value(m0) {
                            None => Err(SearchStop::Exhausted),
                            Some(o0) => if o0 == t {
                                Ok(m0)
                            } else if !spec_lt(o0, t) {
                                search_from(t, m0, sd, (f - 1) as nat)
                            } else {
                                match after_climb(t, climb(t, m, 1, m0)) {
                                    Err(a) => a,
                                    Ok(nm) => search_from(t, nm, sd, (f - 1) as nat),
                                }
                            },
                        }
                    },
                }
            },
        }
    }
}

/// The first depth of the search.
pub open spec fn first_depth(t: Term) -> int {
    let d = if spec_subscript_depth(t) < 100000 {
        spec_subscript_depth(t) as int
    } else {
        100000
    };
    if d + 2 > 3 {
        d + 2
    } else {
        3
    }
}

/// The whole search for `t`.
pub open spec fn search_spec(t: Term) -> SearchAnswer {
    search_from(t, depth_matrix(first_depth(t)), first_depth(t), SEARCH_ROUNDS as nat)
}

/// Searches for a matrix whose value is `target` (a standard-form term
/// below Ω): start above it, step down by fundamental sequences, and
/// narrow the step by linear, exponential and column-wise binary search.
#[verifier::spinoff_prover]
#[verifier::rlimit(60)]
fn bms_search(target: &Term) -> (r: Result<Matrix, SearchStop>)
    ensures
        r matches Ok(m) ==> bms_value(mat(m@)) == Some(*target),
        match r {
            Ok(m) => search_spec(*target) == Ok::<Seq<Seq<int>>, SearchStop>(mat(m@)),
            Err(e) => search_spec(*target) == Err::<Seq<Seq<int>>, SearchStop>(e),
        },
{
    let ghost t = *target;
    let ghost goal = search_spec(t);
    let d = subscript_depth_capped(target, 100000);
    let mut start_depth: i32 = if d + 2 > 3 {
        d + 2
    } else {
        3
    };
    let mut m = build_bms_for_depth(start_depth);
    let mut round: u32 = 0;
    while round < SEARCH_ROUNDS
        invariant
            round <= SEARCH_ROUNDS,
            3 <= start_depth <= 100002 + 2 * round,
            t == *target,
            goal == search_spec(t),
            search_from(t, mat(m@), start_depth as int, (SEARCH_ROUNDS - round) as nat) == goal,
        decreases SEARCH_ROUNDS - round,
    {
        let ghost f: nat = (SEARCH_ROUNDS - round) as nat;
        let ghost mv = mat(m@);
        let ghost sd = start_depth as int;
        round = round + 1;
        let cur = match value_of(&m) {
            Some(x) => x,
            None => {
                return Err(SearchStop::Exhausted);
            },
        };
        if eq(&cur, target) {
            return Ok(m);
        }
        if !lt(target, &cur) {
            start_depth = start_depth + 2;
            m = build_bms_for_depth(start_depth);
        } else {
            let m0 = match try_expand(&m, 0) {
                Some(x) => x,
                None => {
                    return Err(SearchStop::Exhausted);
                },
            };
            if m0.len() == 0 {
                return Err(SearchStop::CannotExpand);
            }
            let m0_ord = match value_of(&m0) {
                Some(x) => x,
                None => {
                    return Err(SearchStop::Exhausted);
                },
            };
            if eq(&m0_ord, target) {
                return Ok(m0);
            }
            if !lt(&m0_ord, target) {
                m = m0;
            } else {
                // m0 < target < m: find the smallest fs whose expansion is
                // at least the target.
                let ghost m0v = mat(m0@);
                let ghost c = climb(t, mv, 1, m0v);
                let ghost f1: nat = (f - 1) as nat;
                assert(goal == go_on(t, after_climb(t, c), sd, f1));
                let mut m_prev = m0;
                let mut m_upper: Matrix = Vec::new();
                let mut fs_hi: i32 = 1;
                let mut upper_found = false;
                while fs_hi <= 5 && !upper_found
                    invariant
                        1 <= fs_hi <= 6,
                        t == *target,
                        mv == mat(m@),
                        goal == go_on(t, after_climb(t, c), sd, f1),
                        goal == search_spec(t),
                        !upper_found ==> climb(t, mv, fs_hi as int, mat(m_prev@)) == c,
                        upper_found ==> c == Ok::<(Seq<Seq<int>>, Seq<Seq<int>>), SearchAnswer>(
                            (mat(m_prev@), mat(m_upper@)),
                        ),
                    decreases 6 - fs_hi, if upper_found { 0nat } else { 1nat },
                {
                    let ghost pv = mat(m_prev@);
                    m_upper = match try_expand(&m, fs_hi) {
                        Some(x) => x,
                        None => {
                            proof {
                                assert(climb(t, mv, fs_hi as int, pv) == Err::<(Seq<Seq<int>>, Seq<Seq<int>>), SearchAnswer>(
                                    Err(SearchStop::Exhausted),
                                ));
                            }
                            return Err(SearchStop::Exhausted);
                        },
                    };
                    let ghost uv = mat(m_upper@);
                    let fs_ord = match value_of(&m_upper) {
                        Some(x) => x,
                        None => {
                            proof {
                                assert(climb(t, mv, fs_hi as int, pv) == Err::<(Seq<Seq<int>>, Seq<Seq<int>>), SearchAnswer>(
                                    Err(SearchStop::Exhausted),
                                ));
                            }
                            return Err(SearchStop::Exhausted);
                        },
                    };
                    if eq(&fs_ord, target) {
                        proof {
                            assert(climb(t, mv, fs_hi as int, pv) == Err::<(Seq<Seq<int>>, Seq<Seq<int>>), SearchAnswer>(
                                Ok(uv),
                            ));
                        }
                        return Ok(m_upper);
                    }
                    if !lt(&fs_ord, target) {
                        upper_found = true;
                    } else {
                        m_prev = prefix(&m_upper, m_upper.len());
                        proof {
                            assert(mat(m_upper@).take(m_upper@.len() as int) =~= mat(m_upper@));
                        }
                        fs_hi = fs_hi + 1;
                    }
                }
                while !upper_found
                    invariant
                        1 <= fs_hi,
                        !upper_found ==> fs_hi >= 6,
                        t == *target,
                        mv == mat(m@),
                        goal == go_on(t, after_climb(t, c), sd, f1),
                        goal == search_spec(t),
                        !upper_found ==> climb(t, mv, fs_hi as int, mat(m_prev@)) == c,
                        upper_found ==> c == Ok::<(Seq<Seq<int>>, Seq<Seq<int>>), SearchAnswer>(
                            (mat(m_prev@), mat(m_upper@)),
                        ),
                    decreases 0x7fff_ffff - fs_hi, if upper_found { 0nat } else { 1nat },
                {
                    let ghost pv = mat(m_prev@);
                    m_upper = match try_expand(&m, fs_hi) {
                        Some(x) => x,
                        None => {
                            proof {
                                assert(climb(t, mv, fs_hi as int, pv) == Err::<(Seq<Seq<int>>, Seq<Seq<int>>), SearchAnswer>(
                                    Err(SearchStop::Exhausted),
                                ));
                            }
                            return Err(SearchStop::Exhausted);
                        },
                    };
                    let ghost uv = mat(m_upper@);
                    let fs_ord = match value_of(&m_upper) {
                        Some(x) => x,
                        None => {
                            proof {
                                assert(climb(t, mv, fs_hi as int, pv) == Err::<(Seq<Seq<int>>, Seq<Seq<int>>), SearchAnswer>(
                                    Err(SearchStop::Exhausted),
                                ));
                            }
                            return Err(SearchStop::Exhausted);
                        },
                    };
                    if eq(&fs_ord, target) {
                        proof {
                            assert(climb(t, mv, fs_hi as int, pv) == Err::<(Seq<Seq<int>>, Seq<Seq<int>>), SearchAnswer>(
                                Ok(uv),
                            ));
                        }
                        return Ok(m_upper);
                    }
                    if !lt(&fs_ord, target) {
                        upper_found = true;
                    } else {
                        m_prev = prefix(&m_upper, m_upper.len());
                        proof {
                            assert(mat(m_upper@).take(m_upper@.len() as int) =~= mat(m_upper@));
                        }
                        if fs_hi > 0x3fff_fffe {
                            proof {
                                assert(climb(t, mv, fs_hi as int, pv) == Err::<(Seq<Seq<int>>, Seq<Seq<int>>), SearchAnswer>(
                                    Err(SearchStop::Exhausted),
                                ));
                            }
                            return Err(SearchStop::Exhausted);
                        }
                        fs_hi = (fs_hi + 1) * 2;
                    }
                }
                // Column-wise binary search between m_prev and m_upper.
                let ghost upv = mat(m_upper@);
                let ghost prevv = mat(m_prev@);
                let mut progressed = false;
                let n0 = m_prev.len();
                let n = m_upper.len();
                if n >= n0 && n - n0 >= 4 {
                    let ghost bres = bisect(t, upv, n0 as int, n as int);
                    let mut lo = n0;
                    let mut hi = n;
                    while lo < hi
                        invariant
                            n0 <= lo <= hi <= n == m_upper@.len(),
                            t == *target,
                            upv == mat(m_upper@),
                            bisect(t, upv, lo as int, hi as int) == bres,
                            goal == search_spec(t),
                            goal == go_on(
                                t,
                                match bres {
                                    Err(a) => Err(a),
                                    Ok(l2) => Ok(if l2 < n { upv.take(l2) } else { upv }),
                                },
                                sd,
                                f1,
                            ),
                        decreases hi - lo,
                    {
                        let mid = lo + (hi - lo) / 2;
                        let mmid = prefix(&m_upper, mid);
                        let mid_ord = match value_of(&mmid) {
                            Some(x) => x,
                            None => {
                                proof {
                                    assert(bisect(t, upv, lo as int, hi as int) == Err::<int, SearchAnswer>(
                                        Err(SearchStop::Exhausted),
                                    ));
                                }
                                return Err(SearchStop::Exhausted);
                            },
                        };
                        if eq(&mid_ord, target) {
                            proof {
                                assert(bisect(t, upv, lo as int, hi as int) == Err::<int, SearchAnswer>(
                                    Ok(upv.take(mid as int)),
                                ));
                            }
                            return Ok(mmid);
                        }
                        if !lt(&mid_ord, target) {
                            hi = mid;
                        } else {
                            lo = mid + 1;
                        }
                    }
                    if lo < n {
                        m = prefix(&m_upper, lo);
                        progressed = true;
                    }
                }
                if !progressed {
                    m = m_upper;
                }
            }
        }
    }
    Err(SearchStop::Exhausted)
}

pub open spec fn too_large_msg() -> Seq<char> {
    "Ordinal is too large for BMS conversion"@
}

/// What `term_to_bms` answers: the matrix found, or the error message.
pub open spec fn term_bms_spec(t: Term) -> Result<Seq<Seq<int>>, Seq<char>> {
    if t is None {
        Ok(Seq::empty())
    } else if !spec_lt(spec_standard_form(t), spec_omega1()) {
        Err(too_large_msg())
    } else {
        match search_spec(spec_standard_form(t)) {
            Ok(m) => Ok(m),
            Err(SearchStop::CannotExpand) => Err("Cannot expand"@),
            Err(SearchStop::Exhausted) => Err("BMS search did not finish"@),
        }
    }
}

/// A matrix-or-message result by its views.
pub open spec fn bms_result_view(r: Result<Matrix, String>) -> Result<Seq<Seq<int>>, Seq<char>> {
    match r {
        Ok(m) => Ok(mat(m@)),
        Err(e) => Err(e@),
    }
}

/// The BMS matrix of a term below Ω, found by search. Zero gives the empty
/// matrix; a term at or above Ω is refused.
pub fn term_to_bms(target: &Term) -> (r: Result<Matrix, String>)
    ensures
        r matches Ok(m) ==> bms_value(mat(m@)) == Some(spec_standard_form(*target)),
        (r matches Err(e) && e@ == too_large_msg()) <==> (*target is Some && !spec_lt(
            spec_standard_form(*target),
            spec_omega1(),
        )),
        *target is None ==> (r matches Ok(m) && m@.len() == 0),
        bms_result_view(r) == term_bms_spec(*target),
{
    proof {
        reveal_strlit("Ordinal is too large for BMS conversion");
        reveal_strlit("Cannot expand");
        reveal_strlit("BMS search did not finish");
        assert("Cannot expand"@.len() != too_large_msg().len());
        assert("BMS search did not finish"@.len() != too_large_msg().len());
    }
    if is_zero(target) {
        let e: Vec<Vec<i32>> = Vec::new();
        proof {
            assert(mat(e@) =~= Seq::<Seq<int>>::empty());
            assert(bms_value(mat(e@)) == Some(spec_standard_form(None)));
        }
        return Ok(e);
    }
    let std = standard_form(target);
    if !lt(&std, &omega1()) {
        return Err(lit("Ordinal is too large for BMS conversion"));
    }
    match bms_search(&std) {
        Ok(m) => Ok(m),
        Err(SearchStop::CannotExpand) => Err(lit("Cannot expand")),
        Err(SearchStop::Exhausted) => Err(lit("BMS search did not finish")),
    }
}


/// The refusal of an input at or above Ω.
pub open spec fn too_large_input(input: Seq<char>) -> Seq<char> {
    "Ordinal is too large for BMS conversion: \""@ + input + "\""@
}

/// What `bocf_to_bms` answers for a parsed and evaluated input.
pub open spec fn bocf_bms_answer(input: Seq<char>, v: Term, r: Result<String, String>) -> bool {
    &&& (v is None ==> (r matches Ok(x) && x@ == "(empty)"@))
    &&& (v is Some && !spec_lt(spec_standard_form(v), spec_omega1()) ==> (r matches Err(x) && x@
        == too_large_input(input)))
    &&& (v is Some && r is Ok ==> spec_lt(spec_standard_form(v), spec_omega1()) && exists|mm: Seq<
        Seq<int>>|
        bms_value(mm) == Some(spec_standard_form(v)) && #[trigger] bms_str(mm) == r->Ok_0@)
    &&& (v is Some && spec_lt(spec_standard_form(v), spec_omega1()) ==> match search_spec(
        spec_standard_form(v),
    ) {
        Ok(mm) => r matches Ok(x) && x@ == bms_str(mm),
        Err(SearchStop::CannotExpand) => r matches Err(x) && x@ == "Cannot expand for \""@ + input
            + "\""@,
        Err(SearchStop::Exhausted) => r matches Err(x) && x@ == "BMS search did not finish for \""@
            + input + "\""@,
    })
}

/// Converts a BOCF expression to the display string of its BMS matrix.
pub fn bocf_to_bms(input: &str) -> (r: Result<String, String>)
    requires
        nums_fit(input@),
        byte_off(input@, input@.len() as int) <= usize::MAX,
    ensures
        match parse_spec(input@) {
            Err(e) => r matches Err(x) && x@ == e,
            Ok(a) => match ev(a) {
                Err(e) => r matches Err(x) && x@ == e,
                Ok(v) => bocf_bms_answer(input@, v, r),
            },
        },
{
    let ast = match parse_bocf(input) {
        Ok(a) => a,
        Err(e) => {
            return Err(e);
        },
    };
    let target = match eval_ast(&ast) {
        Ok(x) => x,
        Err(e) => {
            return Err(e);
        },
    };
    proof {
        reveal_strlit("(empty)");
        reveal_strlit("Ordinal is too large for BMS conversion: \"");
        reveal_strlit("\"");
    }
    if is_zero(&target) {
        return Ok(lit("(empty)"));
    }
    let std = standard_form(&target);
    if !lt(&std, &omega1()) {
        let mut msg = lit("Ordinal is too large for BMS conversion: \"");
        push_string(&mut msg, &lit(input));
        push_string(&mut msg, &lit("\""));
        proof {
            assert(msg@ =~= too_large_input(input@));
        }
        return Err(msg);
    }
    match bms_search(&std) {
        Ok(m) => {
            let out = matrix_to_bms_str(&m);
            proof {
                assert(bms_str(mat(m@)) == out@);
            }
            Ok(out)
        },
        Err(SearchStop::CannotExpand) => {
            let mut msg = lit("Cannot expand for \"");
            push_string(&mut msg, &lit(input));
            push_string(&mut msg, &lit("\""));
            proof {
                assert(msg@ =~= "Cannot expand for \""@ + input@ + "\""@);
            }
            Err(msg)
        },
        Err(SearchStop::Exhausted) => {
            let mut msg = lit("BMS search did not finish for \"");
            push_string(&mut msg, &lit(input));
            push_string(&mut msg, &lit("\""));
            proof {
                assert(msg@ =~= "BMS search did not finish for \""@ + input@ + "\""@);
            }
            Err(msg)
        },
    }
}


// ============================================================
// Terms as BOCF input text
// ============================================================

/// A ψ argument as input text: numerals, `Ω` or `Ω×k` for a run of Ω,
/// `Ω_n` / `Ω_(…)` for a bare Ω with another subscript, else the term.
pub open spec fn arg_input_spec(b: Term) -> Seq<char>
    decreases b, 1nat,
{
    match b {
        None => "0"@,
        Some(n) => if spec_is_ordinal_finite(b) {
            nat_str(sat_len(b))
        } else {
            let sep = spec_separate(b, spec_omega1());
            if spec_first(b) == spec_omega1() && sep.1 is None && sep.0 == b {
                if sat_len(sep.0) == 1 {
                    "Ω"@
                } else {
                    "Ω×"@ + nat_str(sat_len(sep.0))
                }
            } else if n.c is None && n.b is None && n.a is Some && n.a != spec_one() {
                if spec_is_ordinal_finite(n.a) {
                    "Ω_"@ + nat_str(sat_len(n.a))
                } else {
                    "Ω_("@ + bocf_input_spec(n.a) + ")"@
                }
            } else {
                bocf_input_spec(b)
            }
        },
    }
}

/// A term as BOCF input text: numerals for natural numbers, `ψ(…)`,
/// `ψ_n(…)` or `ψ_(…)(…)` for each summand, joined by `+`.
pub open spec fn bocf_input_spec(q: Term) -> Seq<char>
    decreases q, 0nat,
{
    match q {
        None => "0"@,
        Some(n) => if spec_is_ordinal_finite(q) {
            nat_str(sat_len(q))
        } else {
            let block = if n.b is None {
                if n.a is None {
                    "1"@
                } else if spec_is_ordinal_finite(n.a) {
                    "ψ_"@ + nat_str(sat_len(n.a)) + "(0)"@
                } else {
                    "ψ_("@ + bocf_input_spec(n.a) + ")(0)"@
                }
            } else {
                let arg = arg_input_spec(n.b);
                if n.a is None {
                    "ψ("@ + arg + ")"@
                } else if spec_is_ordinal_finite(n.a) {
                    "ψ_"@ + nat_str(sat_len(n.a)) + "("@ + arg + ")"@
                } else {
                    "ψ_("@ + bocf_input_spec(n.a) + ")("@ + arg + ")"@
                }
            };
            if n.c is None {
                block
            } else {
                block + "+"@ + bocf_input_spec(n.c)
            }
        },
    }
}

fn arg_to_bocf_input(b: &Term) -> (r: String)
    ensures
        r@ == arg_input_spec(*b),
    decreases *b, 1nat,
{
    match b {
        None => lit("0"),
        Some(n) => {
            if is_ordinal_finite(b) {
                let mut s = String::new();
                push_nat(&mut s, summand_count(b));
                proof {
                    assert(s@ =~= nat_str(sat_len(*b)));
                }
                return s;
            }
            let om = omega1();
            let sep = separate(b, &om);
            if eq(&first_term(b), &om) && sep.1.is_none() && eq(&sep.0, b) {
                let k = summand_count(&sep.0);
                if k == 1 {
                    return lit("Ω");
                }
                let mut s = lit("Ω×");
                push_nat(&mut s, k);
                return s;
            }
            if n.c.is_none() && n.b.is_none() && n.a.is_some() && !eq(&n.a, &one()) {
                if is_ordinal_finite(&n.a) {
                    let mut s = lit("Ω_");
                    push_nat(&mut s, summand_count(&n.a));
                    return s;
                }
                let mut s = lit("Ω_(");
                let inner = term_to_bocf_input(&n.a);
                push_string(&mut s, &inner);
                push_string(&mut s, &lit(")"));
                return s;
            }
            term_to_bocf_input(b)
        },
    }
}

/// A term as BOCF input text, which `parse_bocf` reads.
pub fn term_to_bocf_input(q: &Term) -> (r: String)
    ensures
        r@ == bocf_input_spec(*q),
    decreases *q, 0nat,
{
    match q {
        None => lit("0"),
        Some(n) => {
            if is_ordinal_finite(q) {
                let mut s = String::new();
                push_nat(&mut s, summand_count(q));
                proof {
                    assert(s@ =~= nat_str(sat_len(*q)));
                }
                return s;
            }
            let mut s = String::new();
            if n.b.is_none() {
                if n.a.is_none() {
                    s = lit("1");
                } else if is_ordinal_finite(&n.a) {
                    s = lit("ψ_");
                    push_nat(&mut s, summand_count(&n.a));
                    push_string(&mut s, &lit("(0)"));
                } else {
                    s = lit("ψ_(");
                    let inner = term_to_bocf_input(&n.a);
                    push_string(&mut s, &inner);
                    push_string(&mut s, &lit(")(0)"));
                }
            } else {
                let arg = arg_to_bocf_input(&n.b);
                if n.a.is_none() {
                    s = lit("ψ(");
                } else if is_ordinal_finite(&n.a) {
                    s = lit("ψ_");
                    push_nat(&mut s, summand_count(&n.a));
                    push_string(&mut s, &lit("("));
                } else {
                    s = lit("ψ_(");
                    let inner = term_to_bocf_input(&n.a);
                    push_string(&mut s, &inner);
                    push_string(&mut s, &lit(")("));
                }
                push_string(&mut s, &arg);
                push_string(&mut s, &lit(")"));
            }
            let ghost block = s@;
            if n.c.is_some() {
                push_string(&mut s, &lit("+"));
                let rest = term_to_bocf_input(&n.c);
                push_string(&mut s, &rest);
            }
            proof {
                assert(s@ =~= bocf_input_spec(*q));
            }
            s
        },
    }
}

} // verus!
