//! PSS hydras and the hyper/long primitive sequence systems (HPrSS, LPrSS).
//!
//! A hydra is a sum of ψ^H_n(A) terms; the empty sum is zero. It embeds into
//! BOCF terms as ψ^H_n(A) ↔ ψ_{n-1}(A).
use vstd::prelude::*;
use crate::term::{
    Term, TermNode, mk, spec_add, spec_from_int, spec_standard_form, spec_is_finite_nat, spec_len1,
    t, one, standard_form, is_finite_nat, clone_term, summand_count, sat_len, lemma_add_assoc, spec_is_bocf_standard, descending, lemma_standard_descending, spec_one,
};
use crate::Matrix;
use crate::expand::mat;
use crate::bms::bms_value;
use crate::parser::{term_to_bms, term_bms_spec, bms_result_view};
use crate::text::{
    int_str, is_digit, push_int, push_string, lit, spec_is_ws, skip_ws_from, skip_ws, chars_of,
    trim_chars, spec_trim, lemma_skip_ws_bounds, digit_value, is_digit_char, digit_of, digits_end,
    digits_val, lemma_digits_end, lemma_digits_val_mono, lemma_digits_val_nonneg,
    lemma_nat_str_val, lemma_digits_end_at, nat_str, trim_end_from,
};

verus! {

/// A sum of ψ^H_n(arg) terms; the empty vector is 0.
#[derive(PartialEq, Eq, Debug)]
pub struct Hydra(pub Vec<(i64, Hydra)>);

/// Mathematical model of a hydra: its summands in order.
#[verifier::ext_equal]
pub struct HydraV {
    pub terms: Seq<(int, HydraV)>,
}

pub open spec fn hv(h: Hydra) -> HydraV
    decreases h,
{
    HydraV {
        terms: Seq::new(
            h.0@.len(),
            |i: int|
                if 0 <= i < h.0@.len() {
                    (h.0@[i].0 as int, hv(h.0@[i].1))
                } else {
                    (0, HydraV { terms: Seq::empty() })
                },
        ),
    }
}

impl View for Hydra {
    type V = HydraV;

    open spec fn view(&self) -> HydraV {
        hv(*self)
    }
}

/// The model of a list of summands.
pub open spec fn pairs_view(v: Seq<(i64, Hydra)>) -> Seq<(int, HydraV)> {
    Seq::new(v.len(), |i: int| (v[i].0 as int, v[i].1@))
}

pub open spec fn hz() -> HydraV {
    HydraV { terms: Seq::empty() }
}

pub proof fn lemma_view_of(v: Vec<(i64, Hydra)>)
    ensures
        Hydra(v)@ == (HydraV { terms: pairs_view(v@) }),
{
    assert(Hydra(v)@.terms =~= pairs_view(v@));
}

pub proof fn lemma_view_index(h: Hydra, i: int)
    requires
        0 <= i < h.0@.len(),
    ensures
        h@.terms.len() == h.0@.len(),
        h@.terms[i] == (h.0@[i].0 as int, h.0@[i].1@),
{
}

// ============================================================
// Model
// ============================================================

/// Largest subscript among the summands, at least 1.
pub open spec fn max_sub(s: Seq<(int, HydraV)>) -> int
    decreases s.len(),
{
    if s.len() == 0 {
        1
    } else {
        let m = max_sub(s.drop_last());
        if s.last().0 > m {
            s.last().0
        } else {
            m
        }
    }
}

pub proof fn lemma_max_sub_ge1(s: Seq<(int, HydraV)>)
    ensures
        max_sub(s) >= 1,
    decreases s.len(),
{
    if s.len() > 0 {
        lemma_max_sub_ge1(s.drop_last());
    }
}

/// L(0) = 1, L(ψ^H_n(A)) = n, L(sum) = max of summand levels.
pub open spec fn h_level(v: HydraV) -> int {
    max_sub(v.terms)
}

/// ψ^H_n(A) is legal iff n ≥ 1, level(A) ≤ n+1 and A is legal.
pub open spec fn h_legal(v: HydraV) -> bool
    decreases v,
{
    h_legal_seq(v.terms)
}

pub open spec fn h_legal_seq(s: Seq<(int, HydraV)>) -> bool
    decreases s,
{
    if s.len() == 0 {
        true
    } else {
        s[0].0 >= 1 && h_level(s[0].1) <= s[0].0 + 1 && h_legal(s[0].1) && h_legal_seq(
            s.drop_first(),
        )
    }
}

/// "p1(p2(0)+p1(0))" (or "ψ^H_1(...)" when `psi`); zero is "0".
pub open spec fn h_fmt(v: HydraV, psi: bool) -> Seq<char>
    decreases v,
{
    if v.terms.len() == 0 {
        "0"@
    } else {
        h_fmt_terms(v.terms, psi)
    }
}

pub open spec fn h_fmt_terms(s: Seq<(int, HydraV)>, psi: bool) -> Seq<char>
    decreases s,
{
    if s.len() == 0 {
        Seq::empty()
    } else {
        (if psi {
            "ψ^H_"@
        } else {
            "p"@
        }) + int_str(s[0].0) + "("@ + h_fmt(s[0].1, psi) + ")"@ + (if s.len() > 1 {
            "+"@ + h_fmt_terms(s.drop_first(), psi)
        } else {
            Seq::empty()
        })
    }
}

// ============================================================
// Constructors and structure
// ============================================================

pub fn hydra_zero() -> (r: Hydra)
    ensures
        r@ == hz(),
{
    let r = Hydra(Vec::new());
    proof {
        assert(r@.terms =~= Seq::<(int, HydraV)>::empty());
    }
    r
}

pub fn is_hydra_zero(h: &Hydra) -> (r: bool)
    ensures
        r == (h@.terms.len() == 0),
{
    h.0.len() == 0
}

/// A structural copy.
pub fn hydra_clone(h: &Hydra) -> (r: Hydra)
    ensures
        r@ == h@,
    decreases h,
{
    let mut v: Vec<(i64, Hydra)> = Vec::new();
    let mut i: usize = 0;
    while i < h.0.len()
        invariant
            i <= h.0@.len(),
            v@.len() == i,
            forall|j: int| 0 <= j < i ==> #[trigger] v@[j].0 == h.0@[j].0 && v@[j].1@ == h.0@[j].1@,
        decreases h.0.len() - i,
    {
        proof {
            assert(decreases_to!(h => h.0@[i as int].1));
        }
        let c = hydra_clone(&h.0[i].1);
        v.push((h.0[i].0, c));
        i = i + 1;
    }
    let r = Hydra(v);
    proof {
        assert(r@.terms =~= h@.terms);
    }
    r
}

/// A copy of the summands `h.0[from..to]`.
pub fn clone_terms(h: &Vec<(i64, Hydra)>, from: usize, to: usize) -> (r: Vec<(i64, Hydra)>)
    requires
        from <= to <= h@.len(),
    ensures
        pairs_view(r@) == pairs_view(h@).subrange(from as int, to as int),
{
    let mut v: Vec<(i64, Hydra)> = Vec::new();
    let mut i: usize = from;
    while i < to
        invariant
            from <= i <= to <= h@.len(),
            v@.len() == i - from,
            forall|j: int|
                0 <= j < i - from ==> #[trigger] v@[j].0 == h@[j + from].0 && v@[j].1@ == h@[j
                    + from].1@,
        decreases to - i,
    {
        let c = hydra_clone(&h[i].1);
        v.push((h[i].0, c));
        i = i + 1;
    }
    proof {
        assert(pairs_view(v@) =~= pairs_view(h@).subrange(from as int, to as int));
    }
    v
}

/// Level: L(0) = 1, L(ψ^H_n(A)) = n, L(sum) = max of summand levels.
pub fn hydra_level(h: &Hydra) -> (r: i64)
    ensures
        r == h_level(h@),
{
    let mut m: i64 = 1;
    let mut i: usize = 0;
    while i < h.0.len()
        invariant
            i <= h.0@.len(),
            m == max_sub(h@.terms.subrange(0, i as int)),
        decreases h.0.len() - i,
    {
        proof {
            lemma_view_index(*h, i as int);
            assert(h@.terms.subrange(0, i + 1).drop_last() =~= h@.terms.subrange(0, i as int));
        }
        if h.0[i].0 > m {
            m = h.0[i].0;
        }
        i = i + 1;
    }
    proof {
        assert(h@.terms.subrange(0, h.0@.len() as int) =~= h@.terms);
    }
    m
}

pub proof fn lemma_legal_seq_all(s: Seq<(int, HydraV)>)
    ensures
        h_legal_seq(s) <==> forall|j: int|
            0 <= j < s.len() ==> (#[trigger] s[j]).0 >= 1 && h_level(s[j].1) <= s[j].0 + 1
                && h_legal(s[j].1),
    decreases s.len(),
{
    if s.len() > 0 {
        lemma_legal_seq_all(s.drop_first());
        if h_legal_seq(s) {
            assert forall|j: int| 0 <= j < s.len() implies (#[trigger] s[j]).0 >= 1 && h_level(
                s[j].1,
            ) <= s[j].0 + 1 && h_legal(s[j].1) by {
                if j > 0 {
                    assert(s[j] == s.drop_first()[j - 1]);
                }
            }
        }
        if forall|j: int|
            0 <= j < s.len() ==> (#[trigger] s[j]).0 >= 1 && h_level(s[j].1) <= s[j].0 + 1
                && h_legal(s[j].1) {
            assert forall|j: int| 0 <= j < s.drop_first().len() implies (
            #[trigger] s.drop_first()[j]).0 >= 1 && h_level(s.drop_first()[j].1)
                <= s.drop_first()[j].0 + 1 && h_legal(s.drop_first()[j].1) by {
                assert(s.drop_first()[j] == s[j + 1]);
            }
        }
    }
}

/// ψ^H_n(A) is legal iff n ≥ 1, level(A) ≤ n+1, and A is legal.
pub fn is_legal_hydra(h: &Hydra) -> (r: bool)
    ensures
        r == h_legal(h@),
    decreases h,
{
    proof {
        lemma_legal_seq_all(h@.terms);
    }
    let mut i: usize = 0;
    while i < h.0.len()
        invariant
            i <= h.0@.len(),
            h_legal(h@) == h_legal_seq(h@.terms),
            h_legal_seq(h@.terms) <==> forall|j: int|
                0 <= j < h@.terms.len() ==> (#[trigger] h@.terms[j]).0 >= 1 && h_level(
                    h@.terms[j].1,
                ) <= h@.terms[j].0 + 1 && h_legal(h@.terms[j].1),
            forall|j: int|
                0 <= j < i ==> (#[trigger] h@.terms[j]).0 >= 1 && h_level(h@.terms[j].1)
                    <= h@.terms[j].0 + 1 && h_legal(h@.terms[j].1),
        decreases h.0.len() - i,
    {
        proof {
            lemma_view_index(*h, i as int);
            assert(decreases_to!(h => h.0@[i as int].1));
        }
        let n = h.0[i].0;
        let lvl = hydra_level(&h.0[i].1);
        proof {
            lemma_max_sub_ge1(h.0@[i as int].1@.terms);
        }
        if n < 1 || lvl - 1 > n || !is_legal_hydra(&h.0[i].1) {
            return false;
        }
        i = i + 1;
    }
    true
}

// ============================================================
// Formatting
// ============================================================

fn fmt_terms_from(h: &Hydra, i: usize, psi: bool) -> (r: String)
    requires
        i <= h.0@.len(),
    ensures
        r@ == h_fmt_terms(h@.terms.subrange(i as int, h@.terms.len() as int), psi),
    decreases h, h.0@.len() - i,
{
    let len = h.0.len();
    if i >= len {
        proof {
            assert(h@.terms.subrange(i as int, h@.terms.len() as int).len() == 0);
        }
        return String::new();
    }
    proof {
        lemma_view_index(*h, i as int);
        assert(decreases_to!(h => h.0@[i as int].1));
    }
    let mut s = if psi {
        lit("ψ^H_")
    } else {
        lit("p")
    };
    push_int(&mut s, h.0[i].0);
    s.append("(");
    let inner = format_impl(&h.0[i].1, psi);
    push_string(&mut s, &inner);
    s.append(")");
    if i + 1 < len {
        s.append("+");
        let rest = fmt_terms_from(h, i + 1, psi);
        push_string(&mut s, &rest);
    }
    proof {
        let sub = h@.terms.subrange(i as int, h@.terms.len() as int);
        assert(sub[0] == h@.terms[i as int]);
        assert(sub.drop_first() =~= h@.terms.subrange(i + 1, h@.terms.len() as int));
        assert(s@ =~= h_fmt_terms(sub, psi));
    }
    s
}

fn format_impl(h: &Hydra, psi: bool) -> (r: String)
    ensures
        r@ == h_fmt(h@, psi),
    decreases h, h.0@.len() + 1,
{
    if h.0.len() == 0 {
        return lit("0");
    }
    let r = fmt_terms_from(h, 0, psi);
    proof {
        assert(h@.terms.subrange(0, h@.terms.len() as int) =~= h@.terms);
    }
    r
}

/// Format as "p1(p2(0)+p1(0))"; zero formats as "0".
pub fn format_hydra(h: &Hydra) -> (r: String)
    ensures
        r@ == h_fmt(h@, false),
{
    format_impl(h, false)
}

/// Format as "ψ^H_1(ψ^H_2(0)+ψ^H_1(0))"; zero formats as "0".
pub fn format_hydra_psi(h: &Hydra) -> (r: String)
    ensures
        r@ == h_fmt(h@, true),
{
    format_impl(h, true)
}

// ============================================================
// Parsing: model
// ============================================================

/// A nonempty digit run at `i` that fits in i64: (value, end).
pub open spec fn sp_num(s: Seq<char>, i: int) -> Option<(int, int)> {
    let e = digits_end(s, i);
    if e == i || digits_val(s, i, e) > i64::MAX {
        None
    } else {
        Some((digits_val(s, i, e), e))
    }
}

/// Position after the subscript marker of a ψ^H summand starting at `p`
/// (where `s[p]` is 'ψ'): optional '^', optional 'H'/'h', optional '_'.
pub open spec fn psi_marker_end(s: Seq<char>, p: int) -> int {
    let a = p + 1;
    let b = if a < s.len() && s[a] == '^' {
        a + 1
    } else {
        a
    };
    let c = if b < s.len() && (s[b] == 'H' || s[b] == 'h') {
        b + 1
    } else {
        b
    };
    if c < s.len() && s[c] == '_' {
        c + 1
    } else {
        c
    }
}

/// Parses a sum of ψ^H terms starting at `pos`, appending to `acc`; on
/// success gives the summands and the position after the sum.
pub open spec fn sp_expr(s: Seq<char>, pos: int, acc: Seq<(int, HydraV)>) -> Option<
    (Seq<(int, HydraV)>, int),
>
    decreases s.len() - pos,
{
    if pos < 0 {
        None
    } else {
        let p = skip_ws_from(s, pos);
        proof {
            lemma_skip_ws_bounds(s, pos);
        }
        if p >= s.len() {
            None
        } else if s[p] == '+' {
            sp_expr(s, p + 1, acc)
        } else if s[p] == '0' {
            proof {
                lemma_digits_end(s, p);
            }
            let q = digits_end(s, p);
            let r = skip_ws_from(s, q);
            proof {
                lemma_skip_ws_bounds(s, q);
            }
            if r >= s.len() || s[r] != '+' {
                Some((acc, r))
            } else {
                sp_expr(s, r, acc)
            }
        } else {
            let sub = if s[p] == 'p' || s[p] == 'P' {
                sp_num(s, p + 1)
            } else if s[p] == 'ψ' {
                sp_num(s, psi_marker_end(s, p))
            } else {
                None
            };
            match sub {
                None => None,
                Some(nq) => if nq.0 < 1 {
                    None
                } else {
                    proof {
                        lemma_digits_end(s, p + 1);
                        lemma_digits_end(s, psi_marker_end(s, p));
                        lemma_skip_ws_bounds(s, nq.1);
                    }
                    let r = skip_ws_from(s, nq.1);
                    let arg: Option<(HydraV, int)> = if r < s.len() && s[r] == '(' {
                        match sp_expr(s, r + 1, Seq::empty()) {
                            None => None,
                            Some(ie) => {
                                let e2 = skip_ws_from(s, ie.1);
                                if e2 < r || e2 >= s.len() || s[e2] != ')' {
                                    None
                                } else {
                                    Some((HydraV { terms: ie.0 }, e2 + 1))
                                }
                            },
                        }
                    } else {
                        Some((hz(), r))
                    };
                    match arg {
                        None => None,
                        Some(ae) => {
                            proof {
                                lemma_skip_ws_bounds(s, ae.1);
                            }
                            let acc2 = acc.push((nq.0, ae.0));
                            let f = skip_ws_from(s, ae.1);
                            if f >= s.len() || s[f] != '+' {
                                Some((acc2, f))
                            } else {
                                sp_expr(s, f, acc2)
                            }
                        },
                    }
                },
            }
        }
    }
}

/// The whole input (trimmed) is one sum.
pub open spec fn sp_parse(input: Seq<char>) -> Option<HydraV> {
    let s = spec_trim(input);
    match sp_expr(s, 0, Seq::empty()) {
        None => None,
        Some(r) => if skip_ws_from(s, r.1) != s.len() {
            None
        } else {
            Some(HydraV { terms: r.0 })
        },
    }
}


pub proof fn lemma_sp_expr_pos(s: Seq<char>, pos: int, acc: Seq<(int, HydraV)>)
    requires
        0 <= pos,
    ensures
        sp_expr(s, pos, acc) matches Some(r) ==> pos <= r.1 <= s.len(),
    decreases s.len() - pos,
{
    let p = skip_ws_from(s, pos);
    lemma_skip_ws_bounds(s, pos);
    if p < s.len() {
        if s[p] == '+' {
            lemma_sp_expr_pos(s, p + 1, acc);
        } else if s[p] == '0' {
            lemma_digits_end(s, p);
            let q = digits_end(s, p);
            lemma_skip_ws_bounds(s, q);
            let r = skip_ws_from(s, q);
            if !(r >= s.len() || s[r] != '+') {
                lemma_sp_expr_pos(s, r, acc);
            }
        } else {
            lemma_digits_end(s, p + 1);
            lemma_digits_end(s, psi_marker_end(s, p));
            let sub = if s[p] == 'p' || s[p] == 'P' {
                sp_num(s, p + 1)
            } else if s[p] == 'ψ' {
                sp_num(s, psi_marker_end(s, p))
            } else {
                None
            };
            if let Some(nq) = sub {
                if nq.0 >= 1 {
                    lemma_skip_ws_bounds(s, nq.1);
                    let r = skip_ws_from(s, nq.1);
                    if r < s.len() && s[r] == '(' {
                        lemma_sp_expr_pos(s, r + 1, Seq::empty());
                        if let Some(ie) = sp_expr(s, r + 1, Seq::empty()) {
                            lemma_skip_ws_bounds(s, ie.1);
                            let e2 = skip_ws_from(s, ie.1);
                            if !(e2 < r || e2 >= s.len() || s[e2] != ')') {
                                lemma_skip_ws_bounds(s, e2 + 1);
                                let f = skip_ws_from(s, e2 + 1);
                                if !(f >= s.len() || s[f] != '+') {
                                    lemma_sp_expr_pos(s, f, acc.push((nq.0, HydraV { terms: ie.0 })));
                                }
                            }
                        }
                    } else {
                        let f = skip_ws_from(s, r);
                        lemma_skip_ws_bounds(s, r);
                        if !(f >= s.len() || s[f] != '+') {
                            lemma_sp_expr_pos(s, f, acc.push((nq.0, hz())));
                        }
                    }
                }
            }
        }
    }
}

/// A run of decimal digits at `i`, as an i64.
fn parse_num(s: &Vec<char>, i: usize) -> (r: Result<(i64, usize), String>)
    requires
        i <= s@.len(),
    ensures
        match r {
            Ok(ne) => sp_num(s@, i as int) == Some((ne.0 as int, ne.1 as int)),
            Err(_) => sp_num(s@, i as int) is None,
        },
{
    proof {
        lemma_digits_end(s@, i as int);
    }
    let mut e: usize = i;
    while e < s.len() && is_digit_char(s[e])
        invariant
            i <= e <= s@.len(),
            digits_end(s@, e as int) == digits_end(s@, i as int),
        decreases s.len() - e,
    {
        e = e + 1;
    }
    if e == i {
        return Err(lit("Expected digits"));
    }
    let mut v: i64 = 0;
    let mut k: usize = i;
    while k < e
        invariant
            i <= k <= e,
            e == digits_end(s@, i as int),
            e <= s@.len(),
            forall|j: int| i <= j < e ==> is_digit(#[trigger] s@[j]),
            v == digits_val(s@, i as int, k as int),
        decreases e - k,
    {
        let d = digit_of(s[k]) as i64;
        proof {
            lemma_digits_val_nonneg(s@, i as int, k as int);
        }
        if v > 922337203685477580 || (v == 922337203685477580 && d > 7) {
            proof {
                lemma_digits_val_mono(s@, i as int, k + 1, e as int);
            }
            return Err(lit("Number too large"));
        }
        v = v * 10 + d;
        k = k + 1;
    }
    Ok((v, e))
}

fn unexpected_char(c: char) -> (r: String)
    ensures
        r@ == "Unexpected character '"@.push(c) + "'"@,
{
    let mut m = lit("Unexpected character '");
    crate::text::push_char(&mut m, c);
    m.append("'");
    m
}

fn parse_expr(s: &Vec<char>, pos: usize, acc: Vec<(i64, Hydra)>) -> (r: Result<
    (Vec<(i64, Hydra)>, usize),
    String,
>)
    requires
        pos <= s@.len(),
    ensures
        match r {
            Ok(ve) => sp_expr(s@, pos as int, pairs_view(acc@)) == Some(
                (pairs_view(ve.0@), ve.1 as int),
            ),
            Err(_) => sp_expr(s@, pos as int, pairs_view(acc@)) is None,
        },
    decreases s@.len() - pos,
{
    let len = s.len();
    let p = skip_ws(s, pos);
    if p >= len {
        return Err(lit("Unexpected end of input"));
    }
    let c = s[p];
    if c == '+' {
        return parse_expr(s, p + 1, acc);
    }
    if c == '0' {
        proof {
            lemma_digits_end(s@, p as int);
        }
        let mut q: usize = p;
        while q < len && is_digit_char(s[q])
            invariant
                p <= q <= len == s@.len(),
                digits_end(s@, q as int) == digits_end(s@, p as int),
            decreases len - q,
        {
            q = q + 1;
        }
        let r = skip_ws(s, q);
        if r >= len || s[r] != '+' {
            return Ok((acc, r));
        }
        return parse_expr(s, r, acc);
    }
    let numr = if c == 'p' || c == 'P' {
        parse_num(s, p + 1)
    } else if c == 'ψ' {
        let mut a: usize = p + 1;
        if a < len && s[a] == '^' {
            a = a + 1;
        }
        if a < len && (s[a] == 'H' || s[a] == 'h') {
            a = a + 1;
        }
        if a < len && s[a] == '_' {
            a = a + 1;
        }
        parse_num(s, a)
    } else {
        return Err(unexpected_char(c));
    };
    let (n, q) = match numr {
        Err(e) => {
            return Err(e);
        },
        Ok(x) => x,
    };
    proof {
        lemma_digits_end(s@, p + 1);
        lemma_digits_end(s@, psi_marker_end(s@, p as int));
    }
    if n < 1 {
        return Err(lit("ψ^H subscript must be a positive integer"));
    }
    let r = skip_ws(s, q);
    let ghost accv = pairs_view(acc@);
    let (arg, e) = if r < len && s[r] == '(' {
        let empty: Vec<(i64, Hydra)> = Vec::new();
        proof {
            lemma_sp_expr_pos(s@, r + 1, Seq::empty());
            assert(pairs_view(empty@) =~= Seq::<(int, HydraV)>::empty());
        }
        match parse_expr(s, r + 1, empty) {
            Err(e) => {
                return Err(e);
            },
            Ok((inner, ie)) => {
                let e2 = skip_ws(s, ie);
                if e2 >= len || s[e2] != ')' {
                    return Err(lit("Missing ')'"));
                }
                proof {
                    lemma_view_of(inner);
                }
                (Hydra(inner), e2 + 1)
            },
        }
    } else {
        (hydra_zero(), r)
    };
    let mut acc2 = acc;
    acc2.push((n, arg));
    proof {
        assert(pairs_view(acc2@) =~= accv.push((n as int, arg@)));
    }
    let f = skip_ws(s, e);
    if f >= len || s[f] != '+' {
        return Ok((acc2, f));
    }
    parse_expr(s, f, acc2)
}

/// Parses "p1(p2(0)+p2)" or "ψ^H_1(ψ^H_2(0)+ψ^H_2)" style input; "pn" is
/// shorthand for "pn(0)", a bare "0" contributes nothing.
pub fn parse_hydra(input: &str) -> (r: Result<Hydra, String>)
    ensures
        match r {
            Ok(h) => sp_parse(input@) == Some(h@),
            Err(_) => sp_parse(input@) is None,
        },
{
    let s = trim_chars(&chars_of(input));
    let empty: Vec<(i64, Hydra)> = Vec::new();
    proof {
        assert(pairs_view(empty@) =~= Seq::<(int, HydraV)>::empty());
    }
    match parse_expr(&s, 0, empty) {
        Err(e) => Err(e),
        Ok((v, p)) => {
            proof {
                lemma_sp_expr_pos(s@, 0, Seq::empty());
            }
            let p2 = skip_ws(&s, p);
            if p2 != s.len() {
                let mut m = lit("Unexpected trailing input at '");
                crate::text::push_chars(&mut m, &s, p2, s.len());
                m.append("'");
                return Err(m);
            }
            proof {
                lemma_view_of(v);
            }
            Ok(Hydra(v))
        },
    }
}


// ============================================================
// Expansion: model
// ============================================================

/// Path (summand indices from the root, always through the last summand) to
/// the rightmost ψ^H_n(0); `None` iff the hydra is zero.
pub open spec fn rz_path(v: HydraV) -> Option<Seq<int>>
    decreases v,
{
    if v.terms.len() == 0 {
        None
    } else {
        let last = (v.terms.len() - 1) as int;
        if v.terms[last].1.terms.len() == 0 {
            Some(seq![last])
        } else {
            match rz_path(v.terms[last].1) {
                None => None,
                Some(p) => Some(seq![last] + p),
            }
        }
    }
}

/// Every index of a nonempty path is in range.
pub open spec fn valid_path(v: HydraV, p: Seq<int>) -> bool
    decreases p.len(),
{
    p.len() > 0 && 0 <= p[0] < v.terms.len() && (p.len() == 1 || valid_path(
        v.terms[p[0]].1,
        p.drop_first(),
    ))
}

/// The summand a path leads to.
pub open spec fn summand_at(v: HydraV, p: Seq<int>) -> (int, HydraV)
    decreases p.len(),
{
    if p.len() <= 1 {
        v.terms[p[0]]
    } else {
        summand_at(v.terms[p[0]].1, p.drop_first())
    }
}

/// Replaces the summand at `p` by the summands of `rep`.
pub open spec fn replace_at(v: HydraV, p: Seq<int>, rep: HydraV) -> HydraV
    decreases p.len(),
{
    if p.len() == 0 {
        rep
    } else {
        let i = p[0];
        if p.len() == 1 {
            HydraV {
                terms: v.terms.subrange(0, i) + rep.terms + v.terms.subrange(
                    i + 1,
                    v.terms.len() as int,
                ),
            }
        } else {
            HydraV {
                terms: v.terms.update(
                    i,
                    (v.terms[i].0, replace_at(v.terms[i].1, p.drop_first(), rep)),
                ),
            }
        }
    }
}

/// X_0 = 0, X_{j+1} = ψ^H_k(warg with the hole at `sub` filled by X_j).
pub open spec fn wrap_iter(k: int, warg: HydraV, sub: Seq<int>, j: nat) -> HydraV
    decreases j,
{
    if j == 0 {
        hz()
    } else {
        HydraV { terms: seq![(k, replace_at(warg, sub, wrap_iter(k, warg, sub, (j - 1) as nat)))] }
    }
}

/// The longest nonempty prefix of `p` leading to a ψ^H_k summand.
pub open spec fn find_wrapper(v: HydraV, p: Seq<int>, k: int) -> Option<Seq<int>>
    decreases p.len(),
{
    if p.len() == 0 {
        None
    } else if summand_at(v, p).0 == k {
        Some(p)
    } else {
        find_wrapper(v, p.drop_last(), k)
    }
}

/// A path of `usize` indices as integers.
pub open spec fn ipath(p: Seq<usize>) -> Seq<int> {
    p.map_values(|x: usize| x as int)
}

pub open spec fn nat_of(n: int) -> nat {
    if n < 0 {
        0
    } else {
        n as nat
    }
}

/// S[n] by the four expansion rules; `None` when no enclosing ψ^H_{m-1}
/// exists for a rightmost ψ^H_m(0) with m ≠ 1.
pub open spec fn h_expand(v: HydraV, n: int) -> Option<HydraV> {
    if v.terms.len() == 0 {
        Some(hz())
    } else {
        let copies = nat_of(n);
        let path = rz_path(v)->0;
        let target = summand_at(v, path).0;
        if path.len() == 1 && target == 1 {
            Some(HydraV { terms: v.terms.drop_last() })
        } else {
            let parent = path.drop_last();
            if target == 1 {
                let par = summand_at(v, parent);
                let tail = HydraV { terms: par.1.terms.drop_last() };
                Some(replace_at(v, parent, HydraV { terms: Seq::new(copies, |j: int| (par.0, tail)) }))
            } else {
                let k = target - 1;
                match find_wrapper(v, parent, k) {
                    None => None,
                    Some(wp) => {
                        let warg = summand_at(v, wp).1;
                        let sub = path.subrange(wp.len() as int, path.len() as int);
                        Some(replace_at(v, wp, wrap_iter(k, warg, sub, copies)))
                    },
                }
            }
        }
    }
}

// ============================================================
// Expansion: path facts
// ============================================================

pub proof fn lemma_rz_path(v: HydraV)
    requires
        v.terms.len() > 0,
    ensures
        rz_path(v) is Some,
        valid_path(v, rz_path(v)->0),
        rz_path(v)->0[0] == v.terms.len() - 1,
        summand_at(v, rz_path(v)->0).1.terms.len() == 0,
    decreases v,
{
    let last = (v.terms.len() - 1) as int;
    if v.terms[last].1.terms.len() != 0 {
        lemma_rz_path(v.terms[last].1);
        let p = rz_path(v.terms[last].1)->0;
        let q = seq![last] + p;
        assert(rz_path(v) == Some(q));
        assert(q.drop_first() =~= p);
        assert(q[0] == last);
        assert(q.len() > 1);
        assert(valid_path(v, q));
        assert(summand_at(v, q) == summand_at(v.terms[last].1, p));
    } else {
        let q = seq![last];
        assert(rz_path(v) == Some(q));
        assert(q[0] == last);
        assert(valid_path(v, q));
    }
}

pub proof fn lemma_prefix_valid(v: HydraV, p: Seq<int>, m: int)
    requires
        valid_path(v, p),
        1 <= m <= p.len(),
    ensures
        valid_path(v, p.subrange(0, m)),
    decreases p.len(),
{
    if m > 1 {
        lemma_prefix_valid(v.terms[p[0]].1, p.drop_first(), m - 1);
        assert(p.subrange(0, m).drop_first() =~= p.drop_first().subrange(0, m - 1));
    }
}

/// Following a prefix, then the rest of the path, reaches the same summand.
pub proof fn lemma_summand_split(v: HydraV, p: Seq<int>, m: int)
    requires
        valid_path(v, p),
        1 <= m < p.len(),
    ensures
        valid_path(summand_at(v, p.subrange(0, m)).1, p.subrange(m, p.len() as int)),
        summand_at(summand_at(v, p.subrange(0, m)).1, p.subrange(m, p.len() as int))
            == summand_at(v, p),
    decreases p.len(),
{
    if m > 1 {
        lemma_summand_split(v.terms[p[0]].1, p.drop_first(), m - 1);
        assert(p.subrange(0, m).drop_first() =~= p.drop_first().subrange(0, m - 1));
        assert(p.drop_first().subrange(m - 1, p.drop_first().len() as int) =~= p.subrange(
            m,
            p.len() as int,
        ));
    } else {
        assert(p.subrange(1, p.len() as int) =~= p.drop_first());
    }
}

pub proof fn lemma_find_wrapper(v: HydraV, p: Seq<int>, k: int)
    requires
        p.len() == 0 || valid_path(v, p),
    ensures
        find_wrapper(v, p, k) matches Some(w) ==> 1 <= w.len() <= p.len() && w =~= p.subrange(
            0,
            w.len() as int,
        ) && summand_at(v, w).0 == k,
    decreases p.len(),
{
    if p.len() > 0 && summand_at(v, p).0 != k {
        if p.len() > 1 {
            lemma_prefix_valid(v, p, p.len() - 1);
            assert(p.drop_last() =~= p.subrange(0, p.len() - 1));
        }
        lemma_find_wrapper(v, p.drop_last(), k);
        if let Some(w) = find_wrapper(v, p.drop_last(), k) {
            assert(w =~= p.subrange(0, w.len() as int));
        }
    }
}

// ============================================================
// Expansion
// ============================================================

fn rightmost_zero_psi_path(h: &Hydra) -> (r: Vec<usize>)
    requires
        h@.terms.len() > 0,
    ensures
        ipath(r@) == rz_path(h@)->0,
    decreases h,
{
    let last = h.0.len() - 1;
    proof {
        lemma_view_index(*h, last as int);
        assert(decreases_to!(h => h.0@[last as int].1));
    }
    proof {
        assert(h.0@[last as int].1@.terms.len() == h.0@[last as int].1.0@.len());
    }
    if h.0[last].1.0.len() == 0 {
        let mut v: Vec<usize> = Vec::new();
        v.push(last);
        proof {
            assert(ipath(v@) =~= seq![last as int]);
        }
        return v;
    }
    let sub = rightmost_zero_psi_path(&h.0[last].1);
    let mut v: Vec<usize> = Vec::new();
    v.push(last);
    let mut i: usize = 0;
    while i < sub.len()
        invariant
            i <= sub@.len(),
            v@ == seq![last] + sub@.subrange(0, i as int),
        decreases sub.len() - i,
    {
        v.push(sub[i]);
        i = i + 1;
        proof {
            assert(v@ =~= seq![last] + sub@.subrange(0, i as int));
        }
    }
    proof {
        assert(sub@.subrange(0, sub@.len() as int) =~= sub@);
        assert(ipath(v@) =~= seq![last as int] + ipath(sub@));
        lemma_rz_path(h.0@[last as int].1@);
        assert(rz_path(h@) == Some(seq![last as int] + ipath(sub@)));
    }
    v
}

/// The summand at `path[..end]`.
fn summand_ref<'a>(h: &'a Hydra, path: &Vec<usize>, end: usize) -> (r: &'a (i64, Hydra))
    requires
        1 <= end <= ipath(path@).len(),
        valid_path(h@, ipath(path@).subrange(0, end as int)),
    ensures
        (r.0 as int, r.1@) == summand_at(h@, ipath(path@).subrange(0, end as int)),
{
    let mut cur: &Hydra = h;
    let mut i: usize = 0;
    while i + 1 < end
        invariant
            i + 1 <= end <= ipath(path@).len(),
            valid_path(cur@, ipath(path@).subrange(i as int, end as int)),
            summand_at(cur@, ipath(path@).subrange(i as int, end as int)) == summand_at(
                h@,
                ipath(path@).subrange(0, end as int),
            ),
        decreases end - i,
    {
        let j = path[i];
        proof {
            lemma_view_index(*cur, j as int);
            assert(ipath(path@).subrange(i as int, end as int).drop_first() =~= ipath(path@).subrange(
                i + 1,
                end as int,
            ));
        }
        cur = &cur.0[j].1;
        i = i + 1;
    }
    proof {
        lemma_view_index(*cur, path@[i as int] as int);
    }
    &cur.0[path[i]]
}

/// Replaces the summand at `path[from..to]` by the summands of `rep`.
fn replace_at_impl(h: &Hydra, path: &Vec<usize>, from: usize, to: usize, rep: &Hydra) -> (r:
    Hydra)
    requires
        from <= to <= ipath(path@).len(),
        from < to ==> valid_path(h@, ipath(path@).subrange(from as int, to as int)),
    ensures
        r@ == replace_at(h@, ipath(path@).subrange(from as int, to as int), rep@),
    decreases to - from,
{
    let ghost p = ipath(path@).subrange(from as int, to as int);
    if from == to {
        return hydra_clone(rep);
    }
    let i = path[from];
    let len = h.0.len();
    proof {
        assert(p[0] == i);
        lemma_view_of(h.0);
    }
    if from + 1 == to {
        let mut terms = clone_terms(&h.0, 0, i);
        let mut mid = clone_terms(&rep.0, 0, rep.0.len());
        let mut tail = clone_terms(&h.0, i + 1, len);
        let ghost t0 = terms@;
        let ghost m0 = mid@;
        let ghost z0 = tail@;
        terms.append(&mut mid);
        terms.append(&mut tail);
        proof {
            lemma_view_of(rep.0);
            assert(pairs_view(rep.0@).subrange(0, rep.0@.len() as int) =~= pairs_view(rep.0@));
            assert(pairs_view(terms@) =~= pairs_view(t0) + pairs_view(m0) + pairs_view(z0));
            lemma_view_of(terms);
            assert(Hydra(terms)@.terms =~= replace_at(h@, p, rep@).terms);
        }
        return Hydra(terms);
    }
    proof {
        lemma_view_index(*h, i as int);
        assert(p.drop_first() =~= ipath(path@).subrange(from + 1, to as int));
    }
    let inner = replace_at_impl(&h.0[i].1, path, from + 1, to, rep);
    let mut terms = clone_terms(&h.0, 0, len);
    let n = h.0[i].0;
    let ghost before = terms@;
    proof {
        assert(pairs_view(terms@).len() == terms@.len());
    }
    terms.set(i, (n, inner));
    proof {
        assert(pairs_view(h.0@).subrange(0, len as int) =~= pairs_view(h.0@));
        assert(pairs_view(terms@) =~= pairs_view(before).update(i as int, (n as int, inner@)));
        lemma_view_of(terms);
        assert(Hydra(terms)@.terms =~= replace_at(h@, p, rep@).terms);
    }
    Hydra(terms)
}

fn no_wrapper_msg(k: i64) -> (r: String)
    ensures
        r@ == "No enclosing ψ^H_"@ + int_str(k as int) + " for expansion"@,
{
    let mut m = lit("No enclosing ψ^H_");
    push_int(&mut m, k);
    m.append(" for expansion");
    m
}

/// Expands a hydra: S[n] by the four expansion rules.
pub fn expand_hydra(h: &Hydra, n: i32) -> (r: Result<Hydra, String>)
    requires
        h@.terms.len() > 0 ==> summand_at(h@, rz_path(h@)->0).0 > i64::MIN,
    ensures
        match r {
            Ok(x) => h_expand(h@, n as int) == Some(x@),
            Err(_) => h_expand(h@, n as int) is None,
        },
{
    if h.0.len() == 0 {
        return Ok(hydra_zero());
    }
    let copies: usize = if n < 0 {
        0
    } else {
        n as usize
    };
    proof {
        lemma_rz_path(h@);
        lemma_view_of(h.0);
    }
    let path = rightmost_zero_psi_path(h);
    let plen = path.len();
    proof {
        assert(ipath(path@).subrange(0, plen as int) =~= ipath(path@));
    }
    let target_n = summand_ref(h, &path, plen).0;
    if plen == 1 && target_n == 1 {
        let terms = clone_terms(&h.0, 0, h.0.len() - 1);
        proof {
            lemma_view_of(terms);
            assert(Hydra(terms)@.terms =~= h@.terms.drop_last());
        }
        return Ok(Hydra(terms));
    }
    let ghost parent = ipath(path@).drop_last();
    if target_n == 1 {
        proof {
            lemma_prefix_valid(h@, ipath(path@), plen - 1);
            lemma_summand_split(h@, ipath(path@), plen - 1);
            assert(parent =~= ipath(path@).subrange(0, plen - 1));
        }
        let par = summand_ref(h, &path, plen - 1);
        let k = par.0;
        proof {
            lemma_view_of(par.1.0);
        }
        let tail = clone_terms(&par.1.0, 0, par.1.0.len() - 1);
        proof {
            assert(pairs_view(tail@) =~= par.1@.terms.drop_last());
        }
        let mut copies_vec: Vec<(i64, Hydra)> = Vec::new();
        let mut j: usize = 0;
        while j < copies
            invariant
                j <= copies,
                copies_vec@.len() == j,
                pairs_view(tail@) == par.1@.terms.drop_last(),
                forall|m: int|
                    0 <= m < j ==> #[trigger] copies_vec@[m].0 == k && copies_vec@[m].1@
                        == (HydraV { terms: par.1@.terms.drop_last() }),
            decreases copies - j,
        {
            let c = clone_terms(&tail, 0, tail.len());
            let hc = Hydra(c);
            proof {
                assert(pairs_view(tail@).subrange(0, tail@.len() as int) =~= pairs_view(tail@));
                lemma_view_of(c);
                assert(hc@ =~= HydraV { terms: par.1@.terms.drop_last() });
            }
            copies_vec.push((k, hc));
            j = j + 1;
        }
        let ghost cv = copies_vec@;
        let rep = Hydra(copies_vec);
        proof {
            lemma_view_of(copies_vec);
            assert(rep@.terms =~= Seq::new(
                copies as nat,
                |m: int| (k as int, HydraV { terms: par.1@.terms.drop_last() }),
            ));
        }
        let res = replace_at_impl(h, &path, 0, plen - 1, &rep);
        return Ok(res);
    }
    let k = target_n - 1;
    let mut m: usize = plen - 1;
    proof {
        assert(parent =~= ipath(path@).subrange(0, m as int));
        if m >= 1 {
            lemma_prefix_valid(h@, ipath(path@), m as int);
        }
    }
    while m >= 1 && summand_ref(h, &path, m).0 != k
        invariant
            m <= plen - 1,
            plen == ipath(path@).len(),
            valid_path(h@, ipath(path@)),
            m >= 1 ==> valid_path(h@, ipath(path@).subrange(0, m as int)),
            find_wrapper(h@, ipath(path@).subrange(0, m as int), k as int) == find_wrapper(
                h@,
                parent,
                k as int,
            ),
        decreases m,
    {
        proof {
            assert(ipath(path@).subrange(0, m as int).drop_last() =~= ipath(path@).subrange(0, m - 1));
            if m > 1 {
                lemma_prefix_valid(h@, ipath(path@), m - 1);
            }
        }
        m = m - 1;
    }
    if m == 0 {
        proof {
            assert(ipath(path@).subrange(0, 0).len() == 0);
        }
        return Err(no_wrapper_msg(k));
    }
    proof {
        lemma_summand_split(h@, ipath(path@), m as int);
    }
    let warg = &summand_ref(h, &path, m).1;
    let ghost sub = ipath(path@).subrange(m as int, plen as int);
    let mut x = hydra_zero();
    let mut j: usize = 0;
    while j < copies
        invariant
            j <= copies,
            1 <= m < plen == ipath(path@).len(),
            sub == ipath(path@).subrange(m as int, plen as int),
            valid_path(warg@, sub),
            x@ == wrap_iter(k as int, warg@, sub, j as nat),
        decreases copies - j,
    {
        let inner = replace_at_impl(warg, &path, m, plen, &x);
        let mut v: Vec<(i64, Hydra)> = Vec::new();
        v.push((k, inner));
        x = Hydra(v);
        proof {
            lemma_view_of(v);
            assert(x@.terms =~= seq![(k as int, inner@)]);
        }
        j = j + 1;
    }
    proof {
        lemma_prefix_valid(h@, ipath(path@), m as int);
    }
    let res = replace_at_impl(h, &path, 0, m, &x);
    Ok(res)
}


// ============================================================
// Term (BOCF) embedding: model
// ============================================================

/// Every subscript (at any depth) lies in `[lo, hi]`.
pub open spec fn h_subs_in(v: HydraV, lo: int, hi: int) -> bool
    decreases v,
{
    h_subs_in_seq(v.terms, lo, hi)
}

pub open spec fn h_subs_in_seq(s: Seq<(int, HydraV)>, lo: int, hi: int) -> bool
    decreases s,
{
    s.len() == 0 || (lo <= s[0].0 <= hi && h_subs_in(s[0].1, lo, hi) && h_subs_in_seq(
        s.drop_first(),
        lo,
        hi,
    ))
}

/// ψ^H_n(A) ↦ ψ_{n-1}(A), summed left to right.
pub open spec fn h_to_term(v: HydraV) -> Term
    decreases v,
{
    h_to_term_seq(v.terms, None)
}

pub open spec fn h_to_term_seq(s: Seq<(int, HydraV)>, acc: Term) -> Term
    decreases s,
{
    if s.len() == 0 {
        acc
    } else {
        h_to_term_seq(
            s.drop_first(),
            spec_add(acc, mk(spec_from_int(nat_of(s[0].0 - 1)), h_to_term(s[0].1), None)),
        )
    }
}

/// Folding summands onto `acc` adds their fold to `acc`.
pub proof fn lemma_term_seq_acc(s: Seq<(int, HydraV)>, acc: Term)
    ensures
        h_to_term_seq(s, acc) == spec_add(acc, h_to_term_seq(s, None)),
    decreases s.len(),
{
    if s.len() > 0 {
        let t0 = mk(spec_from_int(nat_of(s[0].0 - 1)), h_to_term(s[0].1), None);
        lemma_term_seq_acc(s.drop_first(), spec_add(acc, t0));
        lemma_term_seq_acc(s.drop_first(), t0);
        lemma_add_assoc(acc, t0, h_to_term_seq(s.drop_first(), None));
    }
}

/// Folding a concatenation folds the second part onto the first's fold.
pub proof fn lemma_term_seq_concat(a: Seq<(int, HydraV)>, b: Seq<(int, HydraV)>, acc: Term)
    ensures
        h_to_term_seq(a + b, acc) == h_to_term_seq(b, h_to_term_seq(a, acc)),
    decreases a.len(),
{
    if a.len() > 0 {
        assert((a + b).drop_first() =~= a.drop_first() + b);
        assert((a + b)[0] == a[0]);
        let t0 = mk(spec_from_int(nat_of(a[0].0 - 1)), h_to_term(a[0].1), None);
        lemma_term_seq_concat(a.drop_first(), b, spec_add(acc, t0));
    } else {
        assert(a + b =~= b);
    }
}

/// The value of a hydra is additive: the hydra of two sums side by side
/// has the sum of their values, and the empty hydra has value zero.
pub proof fn lemma_h_to_term_add(x: HydraV, y: HydraV)
    ensures
        h_to_term(HydraV { terms: x.terms + y.terms }) == spec_add(h_to_term(x), h_to_term(y)),
        h_to_term(hz()) is None,
{
    lemma_term_seq_concat(x.terms, y.terms, None);
    lemma_term_seq_acc(y.terms, h_to_term(x));
}

/// Adding 1 to a natural number puts a 1 in front.
proof fn lemma_nat_add_one(c: Term)
    requires
        spec_is_finite_nat(c),
    ensures
        spec_add(c, spec_one()) == mk(None, None, c),
    decreases c,
{
    match c {
        None => {},
        Some(n) => {
            assert(!crate::term::spec_lt(None, None));
            assert(!crate::term::spec_lt(spec_one(), spec_one()));
            lemma_nat_add_one(n.c);
        },
    }
}

/// The numeral of a natural number's summand count is that number.
proof fn lemma_from_int_len(x: Term)
    requires
        spec_is_finite_nat(x),
    ensures
        spec_from_int(spec_len1(x)) == x,
    decreases x,
{
    match x {
        None => {},
        Some(n) => {
            lemma_from_int_len(n.c);
            lemma_nat_add_one(n.c);
        },
    }
}

proof fn lemma_standard_parts(x: Term)
    requires
        spec_is_bocf_standard(x),
        x is Some,
    ensures
        spec_is_bocf_standard(x->0.a),
        spec_is_bocf_standard(x->0.b),
        spec_is_bocf_standard(x->0.c),
{
    let n = x->0;
    if n.c is Some {
        let a0 = crate::term::spec_first(x);
        assert(spec_is_bocf_standard(a0));
        assert(a0 == mk(n.a, n.b, None));
    }
}

/// Every subscript reachable through arguments and sums is a natural
/// number.
pub open spec fn subs_natural(x: Term) -> bool
    decreases x,
{
    match x {
        None => true,
        Some(n) => spec_is_finite_nat(n.a) && subs_natural(n.b) && subs_natural(n.c),
    }
}

/// A term has a hydra exactly when all its reachable subscripts are natural
/// numbers, and then every subscript of the hydra is at least 1.
pub proof fn lemma_term_hydra_exists(x: Term)
    ensures
        t_to_h(x) is Some <==> subs_natural(x),
        t_to_h(x) matches Some(v) ==> h_subs_in(v, 1, i32::MAX + 1),
    decreases x,
{
    lemma_t_to_h_bounds(x);
    match x {
        None => {},
        Some(n) => {
            lemma_term_hydra_exists(n.b);
            lemma_term_hydra_exists(n.c);
        },
    }
}

/// Reading a standard term as a hydra and back gives the term again, where
/// every subscript is a natural number below `i32::MAX`.
pub proof fn lemma_term_hydra_round_trip(x: Term)
    requires
        spec_is_bocf_standard(x),
        t_to_h(x) is Some,
        h_subs_in(t_to_h(x)->0, 1, i32::MAX as int),
    ensures
        h_to_term(t_to_h(x)->0) == x,
    decreases x,
{
    match x {
        None => {
            lemma_h_to_term_add(hz(), hz());
            assert(t_to_h(x) == Some(hz()));
            assert(h_to_term(hz()) == x);
        },
        Some(n) => {
            lemma_standard_parts(x);
            lemma_standard_descending(x);
            let k = t_nat_value(n.a);
            let b = t_to_h(n.b)->0;
            let c = t_to_h(n.c)->0;
            let v = t_to_h(x)->0;
            assert(v.terms == seq![(k + 1, b)] + c.terms);
            assert(v.terms[0] == (k + 1, b));
            assert(v.terms.drop_first() =~= c.terms);
            assert(h_subs_in(b, 1, i32::MAX as int));
            assert(h_subs_in_seq(c.terms, 1, i32::MAX as int));
            assert(HydraV { terms: c.terms } == c);
            lemma_term_hydra_round_trip(n.b);
            lemma_term_hydra_round_trip(n.c);
            lemma_from_int_len(n.a);
            assert(nat_of(k + 1 - 1) == spec_len1(n.a));
            let t0 = mk(spec_from_int(nat_of(k + 1 - 1)), h_to_term(b), None);
            assert(t0 == mk(n.a, n.b, None));
            lemma_term_seq_concat(seq![(k + 1, b)], c.terms, None);
            assert(h_to_term_seq(seq![(k + 1, b)], None) == t0) by {
                let s1 = seq![(k + 1, b)];
                assert(s1.drop_first() =~= Seq::<(int, HydraV)>::empty());
                assert(s1[0] == (k + 1, b));
                assert(spec_add(None, t0) == t0);
                assert(h_to_term_seq(s1, None) == h_to_term_seq(s1.drop_first(), spec_add(None, t0)));
                assert(h_to_term_seq(Seq::<(int, HydraV)>::empty(), t0) == t0);
            }
            lemma_term_seq_acc(c.terms, t0);
            assert(h_to_term(c) == n.c);
            assert(h_to_term_seq(c.terms, None) == n.c);
            assert(h_to_term(v) == h_to_term_seq(v.terms, None));
            assert(h_to_term(v) == spec_add(t0, n.c));
            if n.c is Some {
                assert(!crate::term::spec_lt(mk(n.a, n.b, None), crate::term::spec_first(n.c)));
                assert(spec_add(t0, n.c) == mk(n.a, n.b, spec_add(None, n.c)));
            }
            assert(h_to_term(v) == x);
        },
    }
}

/// The number of summands of a natural-number term, as an
/// `i32` count (saturated at `i32::MAX`), or -1 if not a natural number.
pub open spec fn t_nat_value(x: Term) -> int {
    if !spec_is_finite_nat(x) {
        -1
    } else if sat_len(x) > i32::MAX {
        i32::MAX as int
    } else {
        sat_len(x) as int
    }
}

/// Term → hydra, when every subscript is a natural number k (↦ ψ^H_{k+1}).
pub open spec fn t_to_h(x: Term) -> Option<HydraV>
    decreases x,
{
    match x {
        None => Some(hz()),
        Some(n) => {
            let k = t_nat_value(n.a);
            if k < 0 {
                None
            } else {
                match t_to_h(n.b) {
                    None => None,
                    Some(b) => match t_to_h(n.c) {
                        None => None,
                        Some(c) => Some(HydraV { terms: seq![(k + 1, b)] + c.terms }),
                    },
                }
            }
        },
    }
}

/// Largest top-level subscript; 0 for zero.
pub open spec fn top_level_seq(s: Seq<(int, HydraV)>) -> int
    decreases s.len(),
{
    if s.len() == 0 {
        0
    } else {
        let m = top_level_seq(s.drop_last());
        if s.last().0 > m {
            s.last().0
        } else {
            m
        }
    }
}

/// Summands of `s` with subscript above `bound`, in order.
pub open spec fn above(s: Seq<(int, HydraV)>, bound: int) -> Seq<(int, HydraV)>
    decreases s.len(),
{
    if s.len() == 0 {
        s
    } else {
        let r = above(s.drop_last(), bound);
        if s.last().0 > bound {
            r.push(s.last())
        } else {
            r
        }
    }
}

/// Summands of `s` with subscript at most `bound`, in order.
pub open spec fn not_above(s: Seq<(int, HydraV)>, bound: int) -> Seq<(int, HydraV)>
    decreases s.len(),
{
    if s.len() == 0 {
        s
    } else {
        let r = not_above(s.drop_last(), bound);
        if s.last().0 <= bound {
            r.push(s.last())
        } else {
            r
        }
    }
}

/// Wraps the summands above level n+1 into one ψ^H_{n+1} layer, recursively.
pub open spec fn fill_arg_spec(n: int, arg: HydraV) -> HydraV
    decreases top_level_seq(arg.terms) - n,
{
    if top_level_seq(arg.terms) <= n + 1 {
        arg
    } else {
        let off = HydraV { terms: above(arg.terms, n + 1) };
        proof {
            lemma_top_level_above(arg.terms, n + 1);
        }
        HydraV {
            terms: seq![(n + 1, fill_arg_spec(n + 1, off))] + not_above(arg.terms, n + 1),
        }
    }
}

/// Inserts the missing intermediate layers everywhere.
pub open spec fn fill_spec(v: HydraV) -> HydraV
    decreases v,
{
    HydraV { terms: fill_seq(v.terms) }
}

pub open spec fn fill_seq(s: Seq<(int, HydraV)>) -> Seq<(int, HydraV)>
    decreases s,
{
    if s.len() == 0 {
        Seq::empty()
    } else {
        seq![(s[0].0, fill_arg_spec(s[0].0, fill_spec(s[0].1)))] + fill_seq(s.drop_first())
    }
}

pub proof fn lemma_top_level_above(s: Seq<(int, HydraV)>, b: int)
    requires
        top_level_seq(s) > b,
    ensures
        top_level_seq(above(s, b)) == top_level_seq(s),
    decreases s.len(),
{
    if s.len() > 0 {
        let m = top_level_seq(s.drop_last());
        lemma_top_level_bound(s.drop_last(), b);
        if m > b {
            lemma_top_level_above(s.drop_last(), b);
        }
        if s.last().0 > b {
            lemma_top_level_push(above(s.drop_last(), b), s.last());
        }
    }
}

pub proof fn lemma_top_level_push(s: Seq<(int, HydraV)>, x: (int, HydraV))
    ensures
        top_level_seq(s.push(x)) == if x.0 > top_level_seq(s) {
            x.0
        } else {
            top_level_seq(s)
        },
{
    assert(s.push(x).drop_last() =~= s);
}

pub proof fn lemma_top_level_bound(s: Seq<(int, HydraV)>, b: int)
    ensures
        top_level_seq(s) >= 0,
        top_level_seq(s) <= b ==> top_level_seq(above(s, b)) == 0,
        top_level_seq(above(s, b)) <= top_level_seq(s),
    decreases s.len(),
{
    if s.len() > 0 {
        lemma_top_level_bound(s.drop_last(), b);
        if s.last().0 > b {
            lemma_top_level_push(above(s.drop_last(), b), s.last());
        }
    }
}


pub proof fn lemma_t_to_h_bounds(x: Term)
    ensures
        t_to_h(x) matches Some(v) ==> h_subs_in(v, 1, i32::MAX + 1),
    decreases x,
{
    match x {
        None => {
            assert(h_subs_in(hz(), 1, i32::MAX + 1));
        },
        Some(n) => {
            lemma_t_to_h_bounds(n.b);
            lemma_t_to_h_bounds(n.c);
            if let Some(v) = t_to_h(x) {
                let b = t_to_h(n.b)->0;
                let c = t_to_h(n.c)->0;
                assert(v.terms.drop_first() =~= c.terms);
                assert(h_subs_in_seq(v.terms, 1, i32::MAX + 1));
            }
        },
    }
}

// ============================================================
// Term (BOCF) embedding
// ============================================================

/// The natural number `k` as a term (zero for k ≤ 0).
fn nat_term(k: i64) -> (r: Term)
    ensures
        r == spec_from_int(nat_of(k as int)),
{
    let mut r: Term = None;
    let mut i: i64 = 0;
    while i < k
        invariant
            0 <= i,
            k >= 0 ==> i <= k,
            k < 0 ==> i == 0,
            r == spec_from_int(i as nat),
        decreases k - i,
    {
        r = crate::term::add(&r, &one());
        i = i + 1;
    }
    r
}

pub proof fn lemma_subs_in_seq_all(s: Seq<(int, HydraV)>, lo: int, hi: int, j: int)
    requires
        h_subs_in_seq(s, lo, hi),
        0 <= j < s.len(),
    ensures
        lo <= s[j].0 <= hi,
        h_subs_in(s[j].1, lo, hi),
        h_subs_in_seq(s.subrange(j, s.len() as int), lo, hi),
    decreases j,
{
    if j > 0 {
        lemma_subs_in_seq_all(s.drop_first(), lo, hi, j - 1);
        assert(s.drop_first().subrange(j - 1, s.drop_first().len() as int) =~= s.subrange(
            j,
            s.len() as int,
        ));
    } else {
        assert(s.subrange(0, s.len() as int) =~= s);
    }
}

/// ψ^H_n(A) ↦ ψ_{n-1}(A).
pub fn hydra_to_term(h: &Hydra) -> (r: Term)
    requires
        h_subs_in(h@, i64::MIN + 1, i64::MAX as int),
    ensures
        r == h_to_term(h@),
    decreases h,
{
    let mut r: Term = None;
    let mut i: usize = 0;
    proof {
        assert(h@.terms.subrange(0, h@.terms.len() as int) =~= h@.terms);
    }
    while i < h.0.len()
        invariant
            i <= h.0@.len(),
            h@.terms.len() == h.0@.len(),
            h_subs_in(h@, i64::MIN + 1, i64::MAX as int),
            h_to_term_seq(h@.terms.subrange(i as int, h@.terms.len() as int), r) == h_to_term(
                h@,
            ),
        decreases h.0.len() - i,
    {
        proof {
            lemma_view_index(*h, i as int);
            lemma_subs_in_seq_all(h@.terms, i64::MIN + 1, i64::MAX as int, i as int);
            assert(decreases_to!(h => h.0@[i as int].1));
            let sub = h@.terms.subrange(i as int, h@.terms.len() as int);
            assert(sub.drop_first() =~= h@.terms.subrange(i + 1, h@.terms.len() as int));
        }
        let n = h.0[i].0;
        let sub = nat_term(n - 1);
        let node = t(sub, hydra_to_term(&h.0[i].1), None);
        r = crate::term::add(&r, &node);
        i = i + 1;
    }
    proof {
        assert(h@.terms.subrange(h@.terms.len() as int, h@.terms.len() as int).len() == 0);
    }
    r
}

/// The value of a natural-number term, or -1.
fn nat_value(x: &Term) -> (r: i64)
    ensures
        r == t_nat_value(*x),
{
    if !is_finite_nat(x) {
        return -1;
    }
    let c = summand_count(x);
    if c > 2147483647 {
        2147483647
    } else {
        c as i64
    }
}

/// Converts a term to hydra form; every ψ subscript must be a natural
/// number k, mapped to ψ^H_{k+1}.
pub fn term_to_hydra(x: &Term) -> (r: Result<Hydra, String>)
    ensures
        match r {
            Ok(h) => t_to_h(*x) == Some(h@),
            Err(_) => t_to_h(*x) is None,
        },
    decreases x,
{
    match x {
        None => Ok(hydra_zero()),
        Some(n) => {
            let k = nat_value(&n.a);
            if k < 0 {
                return Err(
                    lit("Term is not PSS-Hydra-expressible (subscript not a natural number)"),
                );
            }
            let b = term_to_hydra(&n.b)?;
            let c = term_to_hydra(&n.c)?;
            let mut terms: Vec<(i64, Hydra)> = Vec::new();
            terms.push((k + 1, b));
            let Hydra(mut rest) = c;
            let ghost rv = rest@;
            proof {
                lemma_view_of(rest);
            }
            terms.append(&mut rest);
            proof {
                lemma_view_of(terms);
                assert(pairs_view(terms@) =~= seq![(k + 1, t_to_h(n.b)->0)] + pairs_view(rv));
            }
            Ok(Hydra(terms))
        },
    }
}

/// Hydra → standard-form BOCF term.
pub fn hydra_to_bocf(h: &Hydra) -> (r: Term)
    requires
        h_subs_in(h@, i64::MIN + 1, i64::MAX as int),
    ensures
        r == spec_standard_form(h_to_term(h@)),
{
    standard_form(&hydra_to_term(h))
}

/// Largest top-level subscript; 0 for zero.
fn top_level(h: &Hydra) -> (r: i64)
    ensures
        r == top_level_seq(h@.terms),
{
    let mut m: i64 = 0;
    let mut i: usize = 0;
    while i < h.0.len()
        invariant
            i <= h.0@.len(),
            m == top_level_seq(h@.terms.subrange(0, i as int)),
        decreases h.0.len() - i,
    {
        proof {
            lemma_view_index(*h, i as int);
            assert(h@.terms.subrange(0, i + 1).drop_last() =~= h@.terms.subrange(0, i as int));
        }
        if h.0[i].0 > m {
            m = h.0[i].0;
        }
        i = i + 1;
    }
    proof {
        assert(h@.terms.subrange(0, h.0@.len() as int) =~= h@.terms);
    }
    m
}

fn fill_arg(n: i64, arg: &Hydra) -> (r: Hydra)
    requires
        n < i64::MAX as int,
    ensures
        r@ == fill_arg_spec(n as int, arg@),
    decreases top_level_seq(arg@.terms) - n,
{
    let lvl = top_level(arg);
    proof {
        lemma_top_level_bound(arg@.terms, n + 1);
    }
    if lvl - 1 <= n {
        return hydra_clone(arg);
    }
    let mut offending: Vec<(i64, Hydra)> = Vec::new();
    let mut legal: Vec<(i64, Hydra)> = Vec::new();
    let mut i: usize = 0;
    while i < arg.0.len()
        invariant
            i <= arg.0@.len(),
            n < i64::MAX as int,
            pairs_view(offending@) == above(arg@.terms.subrange(0, i as int), n + 1),
            pairs_view(legal@) == not_above(arg@.terms.subrange(0, i as int), n + 1),
        decreases arg.0.len() - i,
    {
        proof {
            lemma_view_index(*arg, i as int);
            assert(arg@.terms.subrange(0, i + 1).drop_last() =~= arg@.terms.subrange(0, i as int));
        }
        let m = arg.0[i].0;
        let c = hydra_clone(&arg.0[i].1);
        let ghost o0 = offending@;
        let ghost l0 = legal@;
        if m > n + 1 {
            offending.push((m, c));
            proof {
                assert(pairs_view(offending@) =~= pairs_view(o0).push((m as int, c@)));
            }
        } else {
            legal.push((m, c));
            proof {
                assert(pairs_view(legal@) =~= pairs_view(l0).push((m as int, c@)));
            }
        }
        i = i + 1;
    }
    proof {
        assert(arg@.terms.subrange(0, arg.0@.len() as int) =~= arg@.terms);
        lemma_top_level_above(arg@.terms, n + 1);
        lemma_view_of(offending);
    }
    let off = Hydra(offending);
    let inner = fill_arg(n + 1, &off);
    let mut result: Vec<(i64, Hydra)> = Vec::new();
    result.push((n + 1, inner));
    let ghost lv = legal@;
    let ghost r0 = result@;
    result.append(&mut legal);
    proof {
        lemma_view_of(result);
        assert(pairs_view(result@) =~= pairs_view(r0) + pairs_view(lv));
        assert(Hydra(result)@.terms =~= fill_arg_spec(n as int, arg@).terms);
    }
    Hydra(result)
}

/// A summand that a legal hydra may hold.
pub open spec fn legal_item(x: (int, HydraV)) -> bool {
    x.0 >= 1 && h_level(x.1) <= x.0 + 1 && h_legal(x.1)
}

proof fn lemma_max_sub_top(s: Seq<(int, HydraV)>)
    ensures
        max_sub(s) == if top_level_seq(s) > 1 { top_level_seq(s) } else { 1 },
    decreases s.len(),
{
    if s.len() > 0 {
        lemma_max_sub_top(s.drop_last());
        lemma_top_level_bound(s.drop_last(), 0);
    }
}

proof fn lemma_top_level_le(s: Seq<(int, HydraV)>, b: int)
    requires
        b >= 0,
        forall|j: int| 0 <= j < s.len() ==> (#[trigger] s[j]).0 <= b,
    ensures
        top_level_seq(s) <= b,
    decreases s.len(),
{
    if s.len() > 0 {
        lemma_top_level_le(s.drop_last(), b);
        assert(s.last() == s[s.len() - 1]);
    }
}

proof fn lemma_above_items(s: Seq<(int, HydraV)>, b: int)
    requires
        forall|j: int| 0 <= j < s.len() ==> legal_item(#[trigger] s[j]),
    ensures
        forall|j: int| 0 <= j < above(s, b).len() ==> legal_item(#[trigger] above(s, b)[j]),
        forall|j: int| 0 <= j < not_above(s, b).len() ==> legal_item(#[trigger] not_above(s, b)[j])
            && not_above(s, b)[j].0 <= b,
    decreases s.len(),
{
    if s.len() > 0 {
        let t = s.drop_last();
        assert forall|j: int| 0 <= j < t.len() implies legal_item(#[trigger] t[j]) by {
            assert(t[j] == s[j]);
        }
        lemma_above_items(t, b);
        assert(s.last() == s[s.len() - 1]);
        let a0 = above(t, b);
        let n0 = not_above(t, b);
        assert forall|j: int| 0 <= j < above(s, b).len() implies legal_item(#[trigger] above(s, b)[j]) by {
            if s.last().0 > b {
                assert(above(s, b) == a0.push(s.last()));
                if j < a0.len() {
                    assert(above(s, b)[j] == a0[j]);
                }
            } else {
                assert(above(s, b) == a0);
            }
        }
        assert forall|j: int| 0 <= j < not_above(s, b).len() implies legal_item(#[trigger] not_above(s, b)[j])
            && not_above(s, b)[j].0 <= b by {
            if s.last().0 <= b {
                assert(not_above(s, b) == n0.push(s.last()));
                if j < n0.len() {
                    assert(not_above(s, b)[j] == n0[j]);
                }
            } else {
                assert(not_above(s, b) == n0);
            }
        }
    }
}

proof fn lemma_legal_from_items(s: Seq<(int, HydraV)>)
    requires
        forall|j: int| 0 <= j < s.len() ==> legal_item(#[trigger] s[j]),
    ensures
        h_legal_seq(s),
{
    lemma_legal_seq_all(s);
    assert forall|j: int| 0 <= j < s.len() implies (#[trigger] s[j]).0 >= 1 && h_level(s[j].1) <= s[j].0
        + 1 && h_legal(s[j].1) by {
        assert(legal_item(s[j]));
    }
}

proof fn lemma_items_from_legal(s: Seq<(int, HydraV)>)
    requires
        h_legal_seq(s),
    ensures
        forall|j: int| 0 <= j < s.len() ==> legal_item(#[trigger] s[j]),
{
    lemma_legal_seq_all(s);
    assert forall|j: int| 0 <= j < s.len() implies legal_item(#[trigger] s[j]) by {
        assert(s[j].0 >= 1 && h_level(s[j].1) <= s[j].0 + 1 && h_legal(s[j].1));
    }
}

/// Filling a legal argument under subscript `n` gives a legal argument
/// whose top subscript is at most `n + 1`.
proof fn lemma_fill_arg_legal(n: int, x: HydraV)
    requires
        n >= 1,
        h_legal(x),
    ensures
        h_legal(fill_arg_spec(n, x)),
        top_level_seq(fill_arg_spec(n, x).terms) <= n + 1,
    decreases top_level_seq(x.terms) - n,
{
    if top_level_seq(x.terms) > n + 1 {
        let off = HydraV { terms: above(x.terms, n + 1) };
        lemma_top_level_above(x.terms, n + 1);
        lemma_items_from_legal(x.terms);
        lemma_above_items(x.terms, n + 1);
        lemma_legal_from_items(off.terms);
        lemma_fill_arg_legal(n + 1, off);
        let f = fill_arg_spec(n + 1, off);
        let na = not_above(x.terms, n + 1);
        let r = seq![(n + 1, f)] + na;
        assert(fill_arg_spec(n, x).terms == r);
        lemma_max_sub_top(f.terms);
        assert(legal_item((n + 1, f)));
        assert forall|j: int| 0 <= j < r.len() implies legal_item(#[trigger] r[j]) && r[j].0 <= n + 1 by {
            if j > 0 {
                assert(r[j] == na[j - 1]);
            }
        }
        lemma_legal_from_items(r);
        lemma_top_level_le(r, n + 1);
    } else {
        lemma_top_level_bound(x.terms, 0);
    }
}

proof fn lemma_fill_legal(v: HydraV)
    requires
        h_subs_in(v, 1, i64::MAX as int),
    ensures
        h_legal(fill_spec(v)),
    decreases v, 1nat,
{
    lemma_fill_seq_legal(v.terms);
}

proof fn lemma_fill_seq_legal(s: Seq<(int, HydraV)>)
    requires
        h_subs_in_seq(s, 1, i64::MAX as int),
    ensures
        h_legal_seq(fill_seq(s)),
    decreases s, 0nat,
{
    if s.len() > 0 {
        assert(decreases_to!(s => s[0]));
        lemma_fill_legal(s[0].1);
        let g = fill_spec(s[0].1);
        lemma_fill_arg_legal(s[0].0, g);
        let f = fill_arg_spec(s[0].0, g);
        lemma_max_sub_top(f.terms);
        lemma_fill_seq_legal(s.drop_first());
        let r = seq![(s[0].0, f)] + fill_seq(s.drop_first());
        assert(r.drop_first() =~= fill_seq(s.drop_first()));
        assert(r[0] == (s[0].0, f));
    }
}

proof fn lemma_fill_id(v: HydraV)
    requires
        h_legal(v),
    ensures
        fill_spec(v) == v,
    decreases v, 1nat,
{
    lemma_fill_seq_id(v.terms);
}

proof fn lemma_fill_seq_id(s: Seq<(int, HydraV)>)
    requires
        h_legal_seq(s),
    ensures
        fill_seq(s) == s,
    decreases s, 0nat,
{
    if s.len() > 0 {
        assert(decreases_to!(s => s[0]));
        lemma_fill_id(s[0].1);
        lemma_max_sub_top(s[0].1.terms);
        lemma_fill_seq_id(s.drop_first());
        assert(seq![s[0]] + s.drop_first() =~= s);
    }
}

/// A summand whose subscripts, at every depth, lie in `[1, hi]`.
pub open spec fn sub_item(x: (int, HydraV), hi: int) -> bool {
    1 <= x.0 <= hi && h_subs_in(x.1, 1, hi)
}

proof fn lemma_subs_from_items(s: Seq<(int, HydraV)>, hi: int)
    requires
        forall|j: int| 0 <= j < s.len() ==> sub_item(#[trigger] s[j], hi),
    ensures
        h_subs_in_seq(s, 1, hi),
    decreases s.len(),
{
    if s.len() > 0 {
        let t = s.drop_first();
        assert forall|j: int| 0 <= j < t.len() implies sub_item(#[trigger] t[j], hi) by {
            assert(t[j] == s[j + 1]);
        }
        lemma_subs_from_items(t, hi);
        assert(sub_item(s[0], hi));
    }
}

proof fn lemma_items_from_subs(s: Seq<(int, HydraV)>, hi: int)
    requires
        h_subs_in_seq(s, 1, hi),
    ensures
        forall|j: int| 0 <= j < s.len() ==> sub_item(#[trigger] s[j], hi),
{
    assert forall|j: int| 0 <= j < s.len() implies sub_item(#[trigger] s[j], hi) by {
        lemma_subs_in_seq_all(s, 1, hi, j);
    }
}

proof fn lemma_above_sub_items(s: Seq<(int, HydraV)>, b: int, hi: int)
    requires
        forall|j: int| 0 <= j < s.len() ==> sub_item(#[trigger] s[j], hi),
    ensures
        forall|j: int| 0 <= j < above(s, b).len() ==> sub_item(#[trigger] above(s, b)[j], hi),
        forall|j: int| 0 <= j < not_above(s, b).len() ==> sub_item(#[trigger] not_above(s, b)[j], hi),
    decreases s.len(),
{
    if s.len() > 0 {
        let t = s.drop_last();
        assert forall|j: int| 0 <= j < t.len() implies sub_item(#[trigger] t[j], hi) by {
            assert(t[j] == s[j]);
        }
        lemma_above_sub_items(t, b, hi);
        assert(s.last() == s[s.len() - 1]);
        let a0 = above(t, b);
        let n0 = not_above(t, b);
        assert forall|j: int| 0 <= j < above(s, b).len() implies sub_item(#[trigger] above(s, b)[j], hi) by {
            if s.last().0 > b {
                assert(above(s, b) == a0.push(s.last()));
                if j < a0.len() {
                    assert(above(s, b)[j] == a0[j]);
                }
            } else {
                assert(above(s, b) == a0);
            }
        }
        assert forall|j: int| 0 <= j < not_above(s, b).len() implies sub_item(#[trigger] not_above(s, b)[j], hi) by {
            if s.last().0 <= b {
                assert(not_above(s, b) == n0.push(s.last()));
                if j < n0.len() {
                    assert(not_above(s, b)[j] == n0[j]);
                }
            } else {
                assert(not_above(s, b) == n0);
            }
        }
    }
}

proof fn lemma_fill_arg_subs(n: int, x: HydraV, hi: int)
    requires
        n >= 1,
        h_subs_in(x, 1, hi),
    ensures
        h_subs_in(fill_arg_spec(n, x), 1, hi),
    decreases top_level_seq(x.terms) - n,
{
    if top_level_seq(x.terms) > n + 1 {
        let off = HydraV { terms: above(x.terms, n + 1) };
        lemma_top_level_above(x.terms, n + 1);
        lemma_items_from_subs(x.terms, hi);
        lemma_above_sub_items(x.terms, n + 1, hi);
        lemma_subs_from_items(off.terms, hi);
        lemma_fill_arg_subs(n + 1, off, hi);
        let f = fill_arg_spec(n + 1, off);
        let na = not_above(x.terms, n + 1);
        let r = seq![(n + 1, f)] + na;
        assert(fill_arg_spec(n, x).terms == r);
        if hi < n + 2 {
            lemma_top_level_le(x.terms, if hi >= 0 { hi } else { 0 });
        }
        assert forall|j: int| 0 <= j < r.len() implies sub_item(#[trigger] r[j], hi) by {
            if j > 0 {
                assert(r[j] == na[j - 1]);
            }
        }
        lemma_subs_from_items(r, hi);
    }
}

proof fn lemma_fill_subs(v: HydraV, hi: int)
    requires
        h_subs_in(v, 1, hi),
    ensures
        h_subs_in(fill_spec(v), 1, hi),
    decreases v, 1nat,
{
    lemma_fill_seq_subs(v.terms, hi);
}

proof fn lemma_fill_seq_subs(s: Seq<(int, HydraV)>, hi: int)
    requires
        h_subs_in_seq(s, 1, hi),
    ensures
        h_subs_in_seq(fill_seq(s), 1, hi),
    decreases s, 0nat,
{
    if s.len() > 0 {
        assert(decreases_to!(s => s[0]));
        lemma_fill_subs(s[0].1, hi);
        lemma_fill_arg_subs(s[0].0, fill_spec(s[0].1), hi);
        lemma_fill_seq_subs(s.drop_first(), hi);
        let r = seq![(s[0].0, fill_arg_spec(s[0].0, fill_spec(s[0].1)))] + fill_seq(s.drop_first());
        assert(r.drop_first() =~= fill_seq(s.drop_first()));
    }
}

/// Filling the layers gives a legal hydra, filling again changes nothing,
/// and a legal hydra is left as it is (every subscript at least 1).
pub proof fn lemma_fill_layers_legal(v: HydraV)
    requires
        h_subs_in(v, 1, i64::MAX as int),
    ensures
        h_legal(fill_spec(v)),
        fill_spec(fill_spec(v)) == fill_spec(v),
        h_legal(v) ==> fill_spec(v) == v,
{
    lemma_fill_legal(v);
    lemma_fill_id(fill_spec(v));
    if h_legal(v) {
        lemma_fill_id(v);
    }
}


/// Fills missing subscript layers so the expression is legal
/// (level(A) ≤ n+1 for every ψ^H_n(A)), without changing the ordinal.
pub fn fill_layers(h: &Hydra) -> (r: Hydra)
    requires
        h_subs_in(h@, i64::MIN as int, i64::MAX - 1),
    ensures
        r@ == fill_spec(h@),
    decreases h,
{
    let mut out: Vec<(i64, Hydra)> = Vec::new();
    let mut i: usize = 0;
    proof {
        assert(h@.terms.subrange(0, h@.terms.len() as int) =~= h@.terms);
        assert(pairs_view(out@) + fill_seq(h@.terms) =~= fill_seq(h@.terms));
    }
    while i < h.0.len()
        invariant
            i <= h.0@.len(),
            h@.terms.len() == h.0@.len(),
            h_subs_in(h@, i64::MIN as int, i64::MAX - 1),
            fill_seq(h@.terms) == pairs_view(out@) + fill_seq(
                h@.terms.subrange(i as int, h@.terms.len() as int),
            ),
        decreases h.0.len() - i,
    {
        proof {
            lemma_view_index(*h, i as int);
            lemma_subs_in_seq_all(h@.terms, i64::MIN as int, i64::MAX - 1, i as int);
            assert(decreases_to!(h => h.0@[i as int].1));
            let sub = h@.terms.subrange(i as int, h@.terms.len() as int);
            assert(sub.drop_first() =~= h@.terms.subrange(i + 1, h@.terms.len() as int));
        }
        let n = h.0[i].0;
        let inner = fill_layers(&h.0[i].1);
        let filled = fill_arg(n, &inner);
        let ghost o0 = out@;
        out.push((n, filled));
        proof {
            assert(pairs_view(out@) =~= pairs_view(o0) + seq![(n as int, filled@)]);
        }
        i = i + 1;
    }
    proof {
        assert(h@.terms.subrange(h@.terms.len() as int, h@.terms.len() as int) =~= Seq::<
            (int, HydraV),
        >::empty());
        assert(pairs_view(out@) + Seq::<(int, HydraV)>::empty() =~= pairs_view(out@));
        lemma_view_of(out);
        assert(Hydra(out)@.terms =~= fill_spec(h@).terms);
    }
    Hydra(out)
}

/// BOCF term → standard hydra form (standard form, then filled layers).
pub fn bocf_to_hydra(x: &Term) -> (r: Result<Hydra, String>)
    ensures
        match r {
            Ok(h) => t_to_h(spec_standard_form(*x)) matches Some(v) && h@ == fill_spec(v),
            Err(_) => t_to_h(spec_standard_form(*x)) is None,
        },
        r matches Ok(h) ==> h_legal(h@) && h_subs_in(h@, 1, i32::MAX + 1),
{
    let sf = standard_form(x);
    let h = term_to_hydra(&sf)?;
    proof {
        lemma_t_to_h_bounds(sf);
        lemma_subs_widen(h@, 1, i32::MAX + 1, i64::MIN as int, i64::MAX - 1);
        lemma_subs_widen(h@, 1, i32::MAX + 1, 1, i64::MAX as int);
        lemma_fill_layers_legal(h@);
        lemma_fill_subs(h@, i32::MAX + 1);
    }
    Ok(fill_layers(&h))
}

pub proof fn lemma_subs_widen(v: HydraV, lo: int, hi: int, lo2: int, hi2: int)
    requires
        h_subs_in(v, lo, hi),
        lo2 <= lo,
        hi <= hi2,
    ensures
        h_subs_in(v, lo2, hi2),
    decreases v,
{
    lemma_subs_widen_seq(v.terms, lo, hi, lo2, hi2);
}

pub proof fn lemma_subs_widen_seq(s: Seq<(int, HydraV)>, lo: int, hi: int, lo2: int, hi2: int)
    requires
        h_subs_in_seq(s, lo, hi),
        lo2 <= lo,
        hi <= hi2,
    ensures
        h_subs_in_seq(s, lo2, hi2),
    decreases s,
{
    if s.len() > 0 {
        lemma_subs_widen(s[0].1, lo, hi, lo2, hi2);
        lemma_subs_widen_seq(s.drop_first(), lo, hi, lo2, hi2);
    }
}

pub proof fn lemma_subs_seq_all(s: Seq<(int, HydraV)>, lo: int, hi: int)
    ensures
        h_subs_in_seq(s, lo, hi) <==> forall|j: int|
            0 <= j < s.len() ==> lo <= (#[trigger] s[j]).0 <= hi && h_subs_in(s[j].1, lo, hi),
    decreases s.len(),
{
    if s.len() > 0 {
        lemma_subs_seq_all(s.drop_first(), lo, hi);
        if h_subs_in_seq(s, lo, hi) {
            assert forall|j: int| 0 <= j < s.len() implies lo <= (#[trigger] s[j]).0 <= hi
                && h_subs_in(s[j].1, lo, hi) by {
                if j > 0 {
                    assert(s[j] == s.drop_first()[j - 1]);
                }
            }
        }
        if forall|j: int|
            0 <= j < s.len() ==> lo <= (#[trigger] s[j]).0 <= hi && h_subs_in(s[j].1, lo, hi) {
            assert forall|j: int| 0 <= j < s.drop_first().len() implies lo <= (
            #[trigger] s.drop_first()[j]).0 <= hi && h_subs_in(s.drop_first()[j].1, lo, hi) by {
                assert(s.drop_first()[j] == s[j + 1]);
            }
        }
    }
}

/// Whether every subscript of the hydra lies in `[lo, hi]`.
pub fn hydra_subs_within(h: &Hydra, lo: i64, hi: i64) -> (r: bool)
    ensures
        r == h_subs_in(h@, lo as int, hi as int),
    decreases h,
{
    proof {
        lemma_subs_seq_all(h@.terms, lo as int, hi as int);
    }
    let mut i: usize = 0;
    while i < h.0.len()
        invariant
            i <= h.0@.len(),
            h_subs_in(h@, lo as int, hi as int) == h_subs_in_seq(h@.terms, lo as int, hi as int),
            h_subs_in_seq(h@.terms, lo as int, hi as int) <==> forall|j: int|
                0 <= j < h@.terms.len() ==> lo <= (#[trigger] h@.terms[j]).0 <= hi && h_subs_in(
                    h@.terms[j].1,
                    lo as int,
                    hi as int,
                ),
            forall|j: int|
                0 <= j < i ==> lo <= (#[trigger] h@.terms[j]).0 <= hi && h_subs_in(
                    h@.terms[j].1,
                    lo as int,
                    hi as int,
                ),
        decreases h.0.len() - i,
    {
        proof {
            lemma_view_index(*h, i as int);
            assert(decreases_to!(h => h.0@[i as int].1));
        }
        let n = h.0[i].0;
        if n < lo || n > hi || !hydra_subs_within(&h.0[i].1, lo, hi) {
            return false;
        }
        i = i + 1;
    }
    true
}

/// The subscript of the rightmost summand with no argument, which an
/// expansion steps down from.
pub fn rightmost_zero_sub(h: &Hydra) -> (r: i64)
    requires
        h@.terms.len() > 0,
    ensures
        rz_path(h@) is Some,
        r == summand_at(h@, rz_path(h@)->0).0,
    decreases h,
{
    let l = h.0.len() - 1;
    proof {
        lemma_view_index(*h, l as int);
        assert(decreases_to!(h => h.0@[l as int].1));
    }
    if h.0[l].1.0.len() == 0 {
        h.0[l].0
    } else {
        let r = rightmost_zero_sub(&h.0[l].1);
        proof {
            let p = rz_path(h@.terms[l as int].1)->0;
            assert((seq![l as int] + p).drop_first() =~= p);
            assert((seq![l as int] + p)[0] == l);
        }
        r
    }
}

/// Whether `expand_hydra` takes the hydra: the subscript that an expansion
/// steps down from is above `i64::MIN`.
pub fn hydra_expand_fits(h: &Hydra) -> (r: bool)
    ensures
        r == (h@.terms.len() > 0 ==> summand_at(h@, rz_path(h@)->0).0 > i64::MIN),
{
    h.0.len() == 0 || rightmost_zero_sub(h) > i64::MIN
}

/// Whether every rise between two entries of the sequence fits in an
/// `i32`, as `hprss_to_hydra` needs.
pub fn hprss_rises_fit(seq: &[i32]) -> (r: bool)
    ensures
        r == diffs_fit(ints(seq@)),
{
    let n = seq.len();
    let ghost s = ints(seq@);
    let mut b: usize = 0;
    while b < n
        invariant
            b <= n == seq@.len() == s.len(),
            s == ints(seq@),
            forall|x: int, y: int| 0 <= x < y < b && s[y] > s[x] ==> in_i32(#[trigger] (s[y] - s[x])),
        decreases n - b,
    {
        let mut a: usize = 0;
        while a < b
            invariant
                a <= b < n == seq@.len() == s.len(),
                s == ints(seq@),
                forall|x: int, y: int| 0 <= x < y < b && s[y] > s[x] ==> in_i32(#[trigger] (s[y] - s[x])),
                forall|x: int| 0 <= x < a && s[b as int] > s[x] ==> in_i32(#[trigger] (s[b as int] - s[x])),
            decreases b - a,
        {
            let d = seq[b] as i64 - seq[a] as i64;
            if seq[b] > seq[a] && d > 0x7fff_ffff {
                proof {
                    assert(s[b as int] - s[a as int] == d);
                }
                return false;
            }
            a = a + 1;
        }
        b = b + 1;
    }
    true
}

/// Standard hydra form: hydra → BOCF standard form → back → filled layers.
pub fn normalize_hydra(h: &Hydra) -> (r: Hydra)
    requires
        h_subs_in(h@, i64::MIN + 1, i64::MAX - 1),
    ensures
        r@ == match t_to_h(spec_standard_form(h_to_term(h@))) {
            Some(v) => fill_spec(v),
            None => fill_spec(h@),
        },
{
    proof {
        lemma_subs_widen(h@, i64::MIN + 1, i64::MAX - 1, i64::MIN + 1, i64::MAX as int);
        lemma_subs_widen(h@, i64::MIN + 1, i64::MAX - 1, i64::MIN as int, i64::MAX - 1);
    }
    let b = hydra_to_bocf(h);
    match term_to_hydra(&b) {
        Ok(x) => {
            proof {
                lemma_t_to_h_bounds(b);
                lemma_subs_widen(x@, 1, i32::MAX + 1, i64::MIN as int, i64::MAX - 1);
            }
            fill_layers(&x)
        },
        Err(_) => fill_layers(h),
    }
}


// ============================================================
// HPrSS: model
// ============================================================

/// The integers of an `i32` sequence.
pub open spec fn ints(s: Seq<i32>) -> Seq<int> {
    s.map_values(|x: i32| x as int)
}

/// Rightmost `j ≤ k` with `s[j] < s[i]`, or -1.
pub open spec fn scan_lt(s: Seq<int>, i: int, k: int) -> int
    decreases k + 1,
{
    if k < 0 {
        -1
    } else if s[k] < s[i] {
        k
    } else {
        scan_lt(s, i, k - 1)
    }
}

pub proof fn lemma_scan_lt(s: Seq<int>, i: int, k: int)
    ensures
        -1 <= scan_lt(s, i, k) <= k || (k < -1 && scan_lt(s, i, k) == -1),
        scan_lt(s, i, k) >= 0 ==> s[scan_lt(s, i, k)] < s[i],
        forall|j: int| scan_lt(s, i, k) < j <= k ==> !(s[j] < s[i]),
    decreases k + 1,
{
    if k >= 0 && !(s[k] < s[i]) {
        lemma_scan_lt(s, i, k - 1);
    }
}

/// Parent of position i: the rightmost smaller term to its left, or -1.
pub open spec fn hp_par(s: Seq<int>, i: int) -> int {
    scan_lt(s, i, i - 1)
}

/// Difference to the parent (the term itself without a parent).
pub open spec fn hp_diff(s: Seq<int>, i: int) -> int {
    if hp_par(s, i) >= 0 {
        s[i] - s[hp_par(s, i)]
    } else {
        s[i]
    }
}

/// First ancestor, following parents from `c`, whose difference is below `dn`.
pub open spec fn hp_anc(s: Seq<int>, c: int, dn: int) -> int
    decreases c + 1,
{
    if c < 0 {
        -1
    } else if hp_diff(s, c) < dn {
        c
    } else {
        proof {
            lemma_scan_lt(s, c, c - 1);
        }
        hp_anc(s, hp_par(s, c), dn)
    }
}

/// Bad root of a limit HPrSS (-1 when there is none).
pub open spec fn hp_root(s: Seq<int>) -> int {
    let l = s.len() - 1;
    if hp_diff(s, l) == 1 {
        hp_par(s, l)
    } else {
        hp_anc(s, hp_par(s, l), hp_diff(s, l))
    }
}

/// `a` is an ancestor of `c` in the HPrSS parent forest: every term after
/// it up to `c` is larger.
pub open spec fn hp_is_anc(s: Seq<int>, a: int, c: int) -> bool {
    0 <= a < c && forall|k: int| a < k <= c ==> s[a] < #[trigger] s[k]
}

proof fn lemma_hp_anc_law(s: Seq<int>, l: int, c: int, dn: int)
    requires
        0 <= l < s.len(),
        -1 <= c < l,
        c >= 0 ==> hp_is_anc(s, c, l),
        forall|a: int| c < a < l && hp_is_anc(s, a, l) ==> hp_diff(s, a) >= dn,
    ensures
        ({
            let q = hp_anc(s, c, dn);
            &&& -1 <= q <= c
            &&& q >= 0 ==> hp_is_anc(s, q, l) && hp_diff(s, q) < dn
            &&& forall|a: int| q < a < l && hp_is_anc(s, a, l) ==> hp_diff(s, a) >= dn
        }),
    decreases c + 1,
{
    if c >= 0 && hp_diff(s, c) >= dn {
        lemma_scan_lt(s, c, c - 1);
        let nx = hp_par(s, c);
        assert forall|a: int| nx < a < l && hp_is_anc(s, a, l) implies hp_diff(s, a) >= dn by {
            if a < c {
                assert(s[a] < s[c]);
            }
        }
        if nx >= 0 {
            assert forall|k: int| nx < k <= l implies s[nx] < #[trigger] s[k] by {
                if k <= c {
                    assert(!(s[k] < s[c]) || k == c);
                } else {
                    assert(s[c] < s[k]);
                }
            }
        }
        lemma_hp_anc_law(s, l, nx, dn);
    }
}

/// The bad root of a limit HPrSS. With the last term's difference 1 it is
/// the last term's parent; otherwise it is the nearest ancestor of the last
/// term whose difference is strictly below the last term's, every nearer
/// ancestor having a difference at least as large (-1 if none).
pub proof fn lemma_hp_root_law(s: Seq<int>)
    requires
        s.len() > 0,
    ensures
        ({
            let l = s.len() - 1;
            let r = hp_root(s);
            let dl = hp_diff(s, l);
            &&& dl == 1 ==> r == hp_par(s, l)
            &&& dl != 1 ==> {
                &&& -1 <= r < l
                &&& r >= 0 ==> hp_is_anc(s, r, l) && hp_diff(s, r) < dl
                &&& forall|a: int| r < a < l && hp_is_anc(s, a, l) ==> hp_diff(s, a) >= dl
            }
        }),
{
    let l = s.len() - 1;
    lemma_scan_lt(s, l, l - 1);
    let c = hp_par(s, l);
    if c >= 0 {
        assert forall|k: int| c < k <= l implies s[c] < #[trigger] s[k] by {
            if k < l {
                assert(!(s[k] < s[l]));
            }
        }
    }
    assert forall|a: int| c < a < l && hp_is_anc(s, a, l) implies hp_diff(s, a) >= hp_diff(s, l) by {
        assert(!(s[a] < s[l]));
        assert(s[a] < s[l]);
    }
    lemma_hp_anc_law(s, l, c, hp_diff(s, l));
}

/// The entry `j` of the block that starts at `start`.
pub open spec fn block_entry(out: Seq<int>, start: int, j: int) -> int {
    out[start + j]
}

proof fn lemma_hp_blocks(bad: Seq<int>, delta: int, blocks: nat)
    ensures
        hp_blocks(bad, delta, blocks).len() == blocks * bad.len(),
        forall|t: int, j: int|
            0 <= t < blocks && 0 <= j < bad.len() ==> hp_blocks(bad, delta, blocks)[t * bad.len() + j]
                == shift_trunc(bad[j], t, delta),
    decreases blocks,
{
    if blocks > 0 {
        let b = bad.len() as int;
        let t0 = blocks - 1;
        lemma_hp_blocks(bad, delta, (blocks - 1) as nat);
        let prev = hp_blocks(bad, delta, (blocks - 1) as nat);
        let last = bad.map_values(|v: int| shift_trunc(v, t0, delta));
        assert(prev.len() == (blocks - 1) * b);
        assert(blocks * b == (blocks - 1) * b + b) by (nonlinear_arith);
        assert(hp_blocks(bad, delta, blocks) == prev + last);
        assert(hp_blocks(bad, delta, blocks).len() == blocks * b);
        assert forall|t: int, j: int| 0 <= t < blocks && 0 <= j < b implies hp_blocks(
            bad,
            delta,
            blocks,
        )[t * b + j] == shift_trunc(bad[j], t, delta) by {
            assert(t * b + j < blocks * b) by (nonlinear_arith)
                requires
                    0 <= t < blocks,
                    0 <= j < b,
            ;
            assert(0 <= t * b) by (nonlinear_arith)
                requires
                    0 <= t,
                    0 <= b,
            ;
            if t < t0 {
                assert(t * b + j < (blocks - 1) * b) by (nonlinear_arith)
                    requires
                        0 <= t < blocks - 1,
                        0 <= j < b,
                ;
            } else {
                assert(t * b == (blocks - 1) * b);
            }
        }
    } else {
        assert(0 * bad.len() == 0);
    }
}

/// HPrSS expansion of a limit: the terms before the bad root, then the
/// bad part (root up to the last term, exclusive) `n + 1` times, copy `t`
/// raised by `t·δ` with `δ` the last term minus the root's term minus one
/// (as a 32-bit product).
pub proof fn lemma_hp_expand_law(s: Seq<int>, n: int)
    requires
        s.len() >= 1,
        s.last() != 1,
        0 <= hp_root(s) < s.len() - 1,
    ensures
        ({
            let l = s.len() - 1;
            let r = hp_root(s);
            let b = l - r;
            let delta = s.last() - s[r] - 1;
            let out = hp_expand(s, n);
            &&& out.len() == r + b * (nat_of(n) + 1)
            &&& forall|k: int| 0 <= k < l ==> out[k] == s[k]
            &&& forall|t: int, j: int| 0 <= t <= nat_of(n) && 0 <= j < b ==> #[trigger] block_entry(
                out,
                r + t * b,
                j,
            ) == shift_trunc(s[r + j], t, delta)
        }),
{
    let l = s.len() - 1;
    let r = hp_root(s);
    let bad = s.subrange(r, l);
    let delta = s.last() - s[r] - 1;
    let blocks = (nat_of(n) + 1) as nat;
    lemma_hp_blocks(bad, delta, blocks);
    let out = hp_expand(s, n);
    let b = l - r;
    assert(out == s.subrange(0, r) + hp_blocks(bad, delta, blocks));
    assert(blocks * b == b * blocks) by (nonlinear_arith);
    assert forall|k: int| 0 <= k < l implies out[k] == s[k] by {
        if k >= r {
            let j = k - r;
            assert(hp_blocks(bad, delta, blocks)[0 * b + j] == shift_trunc(bad[j], 0, delta));
            assert(0 * b + j == j);
            assert(shift_trunc(bad[j], 0, delta) == bad[j]);
        }
    }
    assert forall|t: int, j: int| 0 <= t <= nat_of(n) && 0 <= j < b implies #[trigger] block_entry(
        out,
        r + t * b,
        j,
    ) == shift_trunc(s[r + j], t, delta) by {
        assert(0 <= t * b) by (nonlinear_arith)
            requires
                0 <= t,
                0 <= b,
        ;
        assert(t * b + j < blocks * b) by (nonlinear_arith)
            requires
                0 <= t < blocks,
                0 <= j < b,
        ;
        assert(bad[j] == s[r + j]);
    }
}

/// The parent of a term is the rightmost smaller term before it.
pub proof fn lemma_hp_par_law(s: Seq<int>, i: int)
    requires
        0 <= i < s.len(),
    ensures
        -1 <= hp_par(s, i) < i,
        hp_par(s, i) >= 0 ==> s[hp_par(s, i)] < s[i],
        forall|j: int| hp_par(s, i) < j < i ==> s[j] >= s[i],
{
    lemma_scan_lt(s, i, i - 1);
}

/// The value `v + t·δ` with the product truncated to 32 bits, as computed.
pub open spec fn shift_trunc(v: int, t: int, delta: int) -> int {
    v + ((t * delta) as i32) as int
}

/// `copies + 1` blocks of `bad`, block t shifted by t·δ (truncated).
pub open spec fn hp_blocks(bad: Seq<int>, delta: int, blocks: nat) -> Seq<int>
    decreases blocks,
{
    if blocks == 0 {
        Seq::empty()
    } else {
        let t = blocks - 1;
        hp_blocks(bad, delta, (blocks - 1) as nat) + bad.map_values(
            |v: int| shift_trunc(v, t, delta),
        )
    }
}

/// S[n] for an HPrSS.
pub open spec fn hp_expand(s: Seq<int>, n: int) -> Seq<int> {
    if s.len() == 0 {
        s
    } else if s.last() == 1 {
        s.drop_last()
    } else {
        let r = hp_root(s);
        let delta = s.last() - s[r] - 1;
        s.subrange(0, r) + hp_blocks(s.subrange(r, s.len() - 1), delta, nat_of(n) + 1)
    }
}

pub open spec fn in_i32(x: int) -> bool {
    i32::MIN <= x <= i32::MAX
}

/// The computation of `hp_expand` stays within `i32` and finds a bad root.
pub open spec fn hp_expand_ok(s: Seq<int>, n: int) -> bool {
    s.len() == 0 || s.last() == 1 || {
        let r = hp_root(s);
        let delta = s.last() - s[r] - 1;
        &&& 0 <= r < s.len() - 1
        &&& forall|i: int| 0 <= i < s.len() ==> in_i32(#[trigger] hp_diff(s, i))
        &&& in_i32(s.last() - s[r])
        &&& forall|t: int, j: int|
            0 <= t <= nat_of(n) && r <= j < s.len() - 1 ==> in_i32(
                #[trigger] shift_trunc(s[j], t, delta),
            )
    }
}


// ============================================================
// HPrSS
// ============================================================

/// A copy of `s[from..to]`.
pub fn copy_range(s: &[i32], from: usize, to: usize) -> (r: Vec<i32>)
    requires
        from <= to <= s@.len(),
    ensures
        r@ == s@.subrange(from as int, to as int),
{
    let mut v: Vec<i32> = Vec::new();
    let mut i: usize = from;
    while i < to
        invariant
            from <= i <= to <= s@.len(),
            v@ == s@.subrange(from as int, i as int),
        decreases to - i,
    {
        v.push(s[i]);
        i = i + 1;
        proof {
            assert(v@ =~= s@.subrange(from as int, i as int));
        }
    }
    v
}

/// Parent index plus one of every position (0 for none) and the differences.
fn hp_parents_diffs(seq: &[i32]) -> (r: (Vec<usize>, Vec<i64>))
    ensures
        r.0@.len() == seq@.len(),
        r.1@.len() == seq@.len(),
        forall|i: int|
            0 <= i < seq@.len() ==> r.0@[i] == hp_par(ints(seq@), i) + 1 && r.1@[i] == hp_diff(
                ints(seq@),
                i,
            ),
{
    let ghost s = ints(seq@);
    let len = seq.len();
    let mut parent: Vec<usize> = Vec::new();
    let mut diff: Vec<i64> = Vec::new();
    let mut i: usize = 0;
    while i < len
        invariant
            i <= len == seq@.len() == s.len(),
            s == ints(seq@),
            parent@.len() == i,
            diff@.len() == i,
            forall|m: int| 0 <= m < i ==> #[trigger] parent@[m] == hp_par(s, m) + 1,
            forall|m: int| 0 <= m < i ==> #[trigger] diff@[m] == hp_diff(s, m),
        decreases len - i,
    {
        let mut k: usize = i;
        while k > 0 && seq[k - 1] >= seq[i]
            invariant
                0 <= k <= i,
                i < len == seq@.len() == s.len(),
                s == ints(seq@),
                scan_lt(s, i as int, k - 1) == scan_lt(s, i as int, i - 1),
            decreases k,
        {
            k = k - 1;
        }
        proof {
            lemma_scan_lt(s, i as int, i - 1);
            if k > 0 {
                assert(s[k - 1] < s[i as int]);
            }
            assert(k - 1 == hp_par(s, i as int));
        }
        let d: i64 = if k > 0 {
            seq[i] as i64 - seq[k - 1] as i64
        } else {
            seq[i] as i64
        };
        proof {
            assert(d == hp_diff(s, i as int));
        }
        let ghost p0 = parent@;
        parent.push(k);
        diff.push(d);
        proof {
            assert(parent@[i as int] == k);
            assert(forall|m: int| 0 <= m < i ==> parent@[m] == p0[m]);
        }
        i = i + 1;
    }
    (parent, diff)
}

/// One past the bad root of a nonempty HPrSS, from its parents and
/// differences.
fn hp_root_of(seq: &[i32], parent: &Vec<usize>, diff: &Vec<i64>) -> (r1: usize)
    requires
        seq@.len() >= 1,
        parent@.len() == seq@.len(),
        diff@.len() == seq@.len(),
        forall|i: int|
            0 <= i < seq@.len() ==> parent@[i] == hp_par(ints(seq@), i) + 1 && diff@[i] == hp_diff(
                ints(seq@),
                i,
            ),
    ensures
        r1 == hp_root(ints(seq@)) + 1,
{
    let ghost s = ints(seq@);
    let len = seq.len();
    let dn = diff[len - 1];
    let l = len - 1;
    proof {
        lemma_scan_lt(s, l as int, l - 1);
    }
    if dn == 1 {
        parent[l]
    } else {
        let mut cur = parent[l];
        while cur > 0 && diff[cur - 1] >= dn
            invariant
                0 <= cur <= len,
                parent@.len() == len,
                diff@.len() == len,
                len == s.len(),
                s == ints(seq@),
                l == len - 1,
                dn == diff@[l as int],
                forall|i: int|
                    0 <= i < len ==> parent@[i] == hp_par(s, i) + 1 && diff@[i] == hp_diff(s, i),
                hp_anc(s, cur - 1, dn as int) == hp_anc(s, hp_par(s, l as int), dn as int),
            decreases cur,
        {
            proof {
                lemma_scan_lt(s, cur - 1, cur - 2);
            }
            cur = parent[cur - 1];
        }
        cur
    }
}

/// Whether `expand_hprss` takes the sequence and step: the differences to
/// the parents, the last rise over the root and every shifted entry of the
/// copies fit in an `i32`, and there is a bad root before the last entry.
pub fn hprss_expand_fits(seq: &[i32], n: i32) -> (r: bool)
    ensures
        r == hp_expand_ok(ints(seq@), n as int),
{
    let ghost s = ints(seq@);
    let len = seq.len();
    if len == 0 {
        return true;
    }
    let last = seq[len - 1];
    if last == 1 {
        return true;
    }
    proof {
        assert(s.last() == last as int);
    }
    let (parent, diff) = hp_parents_diffs(seq);
    let mut i: usize = 0;
    while i < len
        invariant
            i <= len == seq@.len() == s.len(),
            s == ints(seq@),
            s.last() != 1,
            diff@.len() == len,
            forall|i: int| 0 <= i < len ==> diff@[i] == hp_diff(s, i),
            forall|m: int| 0 <= m < i ==> in_i32(#[trigger] hp_diff(s, m)),
        decreases len - i,
    {
        if diff[i] < -0x8000_0000 || diff[i] > 0x7fff_ffff {
            proof {
                assert(!in_i32(hp_diff(s, i as int)));
            }
            return false;
        }
        i = i + 1;
    }
    let l = len - 1;
    let r1 = hp_root_of(seq, &parent, &diff);
    if r1 == 0 || r1 - 1 >= l {
        return false;
    }
    let ru = r1 - 1;
    let rise: i64 = last as i64 - seq[ru] as i64;
    if rise < -0x8000_0000 || rise > 0x7fff_ffff {
        return false;
    }
    let delta: i64 = rise - 1;
    let copies: i64 = if n < 0 {
        0
    } else {
        n as i64
    };
    let mut t: i64 = 0;
    while t <= copies
        invariant
            0 <= t <= copies + 1,
            copies == nat_of(n as int),
            0 <= ru < l,
            l == len - 1,
            len == seq@.len() == s.len(),
            s == ints(seq@),
            s.last() != 1,
            ru == hp_root(s),
            forall|m: int| 0 <= m < s.len() ==> in_i32(#[trigger] hp_diff(s, m)),
            delta == s.last() - s[ru as int] - 1,
            in_i32(s.last() - s[ru as int]),
            forall|tt: int, j: int|
                0 <= tt < t && ru <= j < s.len() - 1 ==> in_i32(
                    #[trigger] shift_trunc(s[j], tt, delta as int),
                ),
        decreases copies + 1 - t,
    {
        assert(-9223372036854775808 <= t * delta <= 9223372036854775807) by (nonlinear_arith)
            requires
                0 <= t <= 2147483647,
                -2147483650 <= delta <= 2147483647,
        ;
        let shift = (t * delta) as i32;
        let mut j: usize = ru;
        while j < l
            invariant
                ru <= j <= l,
                l == len - 1,
                len == seq@.len() == s.len(),
                s == ints(seq@),
                0 <= t <= copies,
                copies == nat_of(n as int),
                s.last() != 1,
                ru == hp_root(s),
                forall|m: int| 0 <= m < s.len() ==> in_i32(#[trigger] hp_diff(s, m)),
                delta == s.last() - s[ru as int] - 1,
                in_i32(s.last() - s[ru as int]),
                shift == ((t * delta) as i32),
                forall|tt: int, jj: int|
                    0 <= tt < t && ru <= jj < s.len() - 1 ==> in_i32(
                        #[trigger] shift_trunc(s[jj], tt, delta as int),
                    ),
                forall|jj: int|
                    ru <= jj < j ==> in_i32(#[trigger] shift_trunc(s[jj], t as int, delta as int)),
            decreases l - j,
        {
            let x: i64 = seq[j] as i64 + shift as i64;
            if x < -0x8000_0000 || x > 0x7fff_ffff {
                proof {
                    assert(x == shift_trunc(s[j as int], t as int, delta as int));
                    assert(!in_i32(shift_trunc(s[j as int], t as int, delta as int)));
                }
                return false;
            }
            j = j + 1;
        }
        t = t + 1;
    }
    true
}

/// Expands an HPrSS sequence: S[n].
pub fn expand_hprss(seq: &[i32], n: i32) -> (r: Vec<i32>)
    requires
        hp_expand_ok(ints(seq@), n as int),
    ensures
        ints(r@) == hp_expand(ints(seq@), n as int),
{
    let ghost s = ints(seq@);
    let len = seq.len();
    if len == 0 {
        proof {
            assert(ints(seq@) =~= seq![]);
        }
        return Vec::new();
    }
    let last = seq[len - 1];
    if last == 1 {
        let r = copy_range(seq, 0, len - 1);
        proof {
            assert(ints(r@) =~= s.drop_last());
        }
        return r;
    }
    let (parent, diff) = hp_parents_diffs(seq);
    let l = len - 1;
    let r1 = hp_root_of(seq, &parent, &diff);
    let ru = r1 - 1;
    let delta: i64 = (last - seq[ru]) as i64 - 1;
    let mut out = copy_range(seq, 0, ru);
    let copies: i64 = if n < 0 {
        0
    } else {
        n as i64
    };
    let ghost bad = s.subrange(ru as int, l as int);
    let mut t: i64 = 0;
    proof {
        assert(ints(out@) =~= s.subrange(0, ru as int) + hp_blocks(bad, delta as int, 0));
    }
    while t <= copies
        invariant
            0 <= t <= copies + 1,
            copies == nat_of(n as int),
            0 <= ru < l,
            l == len - 1,
            len == seq@.len() == s.len(),
            s == ints(seq@),
            bad == s.subrange(ru as int, l as int),
            delta == s.last() - s[ru as int] - 1,
            in_i32(s.last() - s[ru as int]),
            forall|t: int, j: int|
                0 <= t <= nat_of(n as int) && ru <= j < s.len() - 1 ==> in_i32(
                    #[trigger] shift_trunc(s[j], t, delta as int),
                ),
            ints(out@) == s.subrange(0, ru as int) + hp_blocks(bad, delta as int, t as nat),
        decreases copies + 1 - t,
    {
        assert(-9223372036854775808 <= t * delta <= 9223372036854775807) by (nonlinear_arith)
            requires
                0 <= t <= 2147483647,
                -2147483650 <= delta <= 2147483647,
        ;
        let shift = (t * delta) as i32;
        let mut j: usize = ru;
        let ghost base = ints(out@);
        while j < l
            invariant
                ru <= j <= l,
                l == len - 1,
                len == seq@.len() == s.len(),
                s == ints(seq@),
                0 <= t <= copies,
                copies == nat_of(n as int),
                shift == ((t * delta) as i32),
                forall|t: int, j: int|
                    0 <= t <= nat_of(n as int) && ru <= j < s.len() - 1 ==> in_i32(
                        #[trigger] shift_trunc(s[j], t, delta as int),
                    ),
                ints(out@) == base + s.subrange(ru as int, j as int).map_values(
                    |v: int| shift_trunc(v, t as int, delta as int),
                ),
            decreases l - j,
        {
            proof {
                assert(in_i32(shift_trunc(s[j as int], t as int, delta as int)));
            }
            let ghost before = out@;
            let x = seq[j] + shift;
            out.push(x);
            proof {
                assert(ints(out@) =~= ints(before).push(x as int));
                assert(x as int == shift_trunc(s[j as int], t as int, delta as int));
                assert(s.subrange(ru as int, j + 1).map_values(
                    |v: int| shift_trunc(v, t as int, delta as int),
                ) =~= s.subrange(ru as int, j as int).map_values(
                    |v: int| shift_trunc(v, t as int, delta as int),
                ).push(shift_trunc(s[j as int], t as int, delta as int)));
            }
            j = j + 1;
        }
        t = t + 1;
        proof {
            assert(ints(out@) =~= s.subrange(0, ru as int) + hp_blocks(bad, delta as int, t as nat));
        }
    }
    proof {
        assert(ints(out@) =~= hp_expand(s, n as int));
    }
    out
}


// ============================================================
// Mountains and LPrSS expansion: model
// ============================================================

/// Parent offset `i − p(i)` (0 without a parent).
pub open spec fn hp_off(s: Seq<int>, i: int) -> int {
    if hp_par(s, i) >= 0 {
        i - hp_par(s, i)
    } else {
        0
    }
}

pub open spec fn offs(s: Seq<int>) -> Seq<int> {
    Seq::new(s.len(), |i: int| hp_off(s, i))
}

/// `j` is reached from `cur` by following parent offsets.
pub open spec fn off_anc(o: Seq<int>, j: int, cur: int) -> bool
    decreases cur,
{
    if cur == j {
        true
    } else if cur < 0 || cur >= o.len() || o[cur] <= 0 || cur - o[cur] < 0 {
        false
    } else {
        off_anc(o, j, cur - o[cur])
    }
}

/// Rightmost `j ≤ k` whose difference is below that of `i` and which is an
/// ancestor of `i`, or -1.
pub open spec fn scan_dpar(s: Seq<int>, i: int, k: int) -> int
    decreases k + 1,
{
    if k < 0 {
        -1
    } else if hp_diff(s, k) < hp_diff(s, i) && off_anc(offs(s), k, i) {
        k
    } else {
        scan_dpar(s, i, k - 1)
    }
}

pub open spec fn dpar_off(s: Seq<int>, i: int) -> int {
    let j = scan_dpar(s, i, i - 1);
    if j >= 0 {
        i - j
    } else {
        0
    }
}

/// Bottom layer: the sequence with parent offsets.
pub open spec fn mountain_base(s: Seq<int>) -> Seq<(int, int)> {
    Seq::new(s.len(), |i: int| (s[i], hp_off(s, i)))
}

/// HPrSS top layer: differences with their own parent offsets.
pub open spec fn hp_mountain_top(s: Seq<int>) -> Seq<(int, int)> {
    Seq::new(s.len(), |i: int| (hp_diff(s, i), dpar_off(s, i)))
}

/// LPrSS top layer: differences sharing the parent offsets.
pub open spec fn lp_mountain_top(s: Seq<int>) -> Seq<(int, int)> {
    Seq::new(s.len(), |i: int| (hp_diff(s, i), hp_off(s, i)))
}

pub open spec fn pairs_int(v: Seq<(i32, i32)>) -> Seq<(int, int)> {
    v.map_values(|p: (i32, i32)| (p.0 as int, p.1 as int))
}

/// `blocks` copies of `bad`, copy t shifted by t·δ.
pub open spec fn lp_blocks(bad: Seq<int>, delta: int, blocks: nat) -> Seq<int>
    decreases blocks,
{
    if blocks == 0 {
        Seq::empty()
    } else {
        let t = blocks - 1;
        lp_blocks(bad, delta, (blocks - 1) as nat) + bad.map_values(|v: int| v + t * delta)
    }
}

/// LPrSS bad root: rightmost term left of the last that is smaller, or -1.
pub open spec fn lp_root(s: Seq<int>) -> int {
    scan_lt(s, s.len() - 1, s.len() - 2)
}

/// S[n] for an LPrSS: G + B + B_1 + ... + B_n with B_t = B + t(d−1).
pub open spec fn lp_expand(s: Seq<int>, n: int) -> Seq<int> {
    if s.len() == 0 {
        s
    } else if s.last() == 1 || lp_root(s) < 0 {
        s.drop_last()
    } else {
        let r = lp_root(s);
        let delta = s.last() - s[r] - 1;
        s.subrange(0, r) + lp_blocks(s.subrange(r, s.len() - 1), delta, nat_of(n) + 1)
    }
}

/// The computation of `lp_expand` stays within `i32`.
pub open spec fn lp_expand_ok(s: Seq<int>, n: int) -> bool {
    s.len() == 0 || s.last() == 1 || lp_root(s) < 0 || {
        let r = lp_root(s);
        let delta = s.last() - s[r] - 1;
        &&& in_i32(s.last() - s[r])
        &&& forall|t: int| 0 <= t <= nat_of(n) ==> in_i32(#[trigger] (t * delta))
        &&& forall|t: int, j: int|
            0 <= t <= nat_of(n) && r <= j < s.len() - 1 ==> in_i32(#[trigger] (s[j] + t * delta))
    }
}

// ============================================================
// Mountains and LPrSS expansion
// ============================================================

fn is_hprss_ancestor(parents: &Vec<i32>, j: usize, i: usize) -> (r: bool)
    requires
        i < parents@.len(),
        forall|k: int| 0 <= k < parents@.len() ==> 0 <= #[trigger] parents@[k] <= k,
    ensures
        r == off_anc(parents@.map_values(|x: i32| x as int), j as int, i as int),
{
    let ghost o = parents@.map_values(|x: i32| x as int);
    let mut cur: usize = i;
    while cur != j && parents[cur] > 0
        invariant
            cur < parents@.len(),
            o == parents@.map_values(|x: i32| x as int),
            forall|k: int| 0 <= k < parents@.len() ==> 0 <= #[trigger] parents@[k] <= k,
            off_anc(o, j as int, cur as int) == off_anc(o, j as int, i as int),
        decreases cur,
    {
        cur = cur - parents[cur] as usize;
    }
    cur == j
}

/// Offsets and differences of an HPrSS/LPrSS (the two mountain layers).
fn offsets_diffs(seq: &[i32]) -> (r: (Vec<i32>, Vec<i32>))
    requires
        seq@.len() <= i32::MAX,
        forall|i: int| 0 <= i < seq@.len() ==> in_i32(#[trigger] hp_diff(ints(seq@), i)),
    ensures
        r.0@.len() == seq@.len(),
        r.1@.len() == seq@.len(),
        forall|i: int| 0 <= i < seq@.len() ==> #[trigger] r.0@[i] == hp_off(ints(seq@), i),
        forall|i: int| 0 <= i < seq@.len() ==> #[trigger] r.1@[i] == hp_diff(ints(seq@), i),
{
    let (parent, diff) = hp_parents_diffs(seq);
    let mut offv: Vec<i32> = Vec::new();
    let mut dv: Vec<i32> = Vec::new();
    let mut i: usize = 0;
    while i < seq.len()
        invariant
            i <= seq@.len() <= i32::MAX,
            parent@.len() == seq@.len(),
            diff@.len() == seq@.len(),
            forall|i: int| 0 <= i < seq@.len() ==> in_i32(#[trigger] hp_diff(ints(seq@), i)),
            forall|m: int| 0 <= m < seq@.len() ==> #[trigger] parent@[m] == hp_par(ints(seq@), m) + 1,
            forall|m: int| 0 <= m < seq@.len() ==> #[trigger] diff@[m] == hp_diff(ints(seq@), m),
            offv@.len() == i,
            dv@.len() == i,
            forall|m: int| 0 <= m < i ==> #[trigger] offv@[m] == hp_off(ints(seq@), m),
            forall|m: int| 0 <= m < i ==> #[trigger] dv@[m] == hp_diff(ints(seq@), m),
        decreases seq.len() - i,
    {
        proof {
            lemma_scan_lt(ints(seq@), i as int, i - 1);
            assert(parent@[i as int] == hp_par(ints(seq@), i as int) + 1);
            assert(diff@[i as int] == hp_diff(ints(seq@), i as int));
            assert(in_i32(hp_diff(ints(seq@), i as int)));
        }
        let p = parent[i];
        let o: i32 = if p > 0 {
            (i - (p - 1)) as i32
        } else {
            0
        };
        offv.push(o);
        dv.push(diff[i] as i32);
        i = i + 1;
    }
    (offv, dv)
}

fn zip_pairs(a: &Vec<i32>, b: &Vec<i32>) -> (r: Vec<(i32, i32)>)
    requires
        a@.len() == b@.len(),
    ensures
        r@.len() == a@.len(),
        forall|i: int| 0 <= i < a@.len() ==> #[trigger] r@[i] == (a@[i], b@[i]),
{
    let mut r: Vec<(i32, i32)> = Vec::new();
    let mut i: usize = 0;
    while i < a.len()
        invariant
            i <= a@.len() == b@.len(),
            r@.len() == i,
            forall|m: int| 0 <= m < i ==> #[trigger] r@[m] == (a@[m], b@[m]),
        decreases a.len() - i,
    {
        r.push((a[i], b[i]));
        i = i + 1;
    }
    r
}

/// HPrSS mountain diagram: the sequence with parent offsets, and the
/// difference sequence whose parent is the rightmost smaller difference
/// among the ancestors.
pub fn build_hprss_mountain(seq: &[i32]) -> (r: Vec<Vec<(i32, i32)>>)
    requires
        seq@.len() <= i32::MAX,
        forall|i: int| 0 <= i < seq@.len() ==> in_i32(#[trigger] hp_diff(ints(seq@), i)),
    ensures
        seq@.len() == 0 ==> r@.len() == 0,
        seq@.len() > 0 ==> r@.len() == 2 && pairs_int(r@[0]@) == mountain_base(ints(seq@))
            && pairs_int(r@[1]@) == hp_mountain_top(ints(seq@)),
{
    let len = seq.len();
    if len == 0 {
        return Vec::new();
    }
    let ghost s = ints(seq@);
    let (offv, dv) = offsets_diffs(seq);
    proof {
        assert forall|k: int| 0 <= k < offv@.len() implies 0 <= #[trigger] offv@[k] <= k by {
            lemma_scan_lt(s, k, k - 1);
        }
        assert(offv@.map_values(|x: i32| x as int) =~= offs(s));
    }
    let mut dpar: Vec<i32> = Vec::new();
    let mut i: usize = 0;
    while i < len
        invariant
            i <= len == seq@.len() <= i32::MAX,
            s == ints(seq@),
            offv@.len() == len,
            dv@.len() == len,
            forall|k: int| 0 <= k < offv@.len() ==> 0 <= #[trigger] offv@[k] <= k,
            offv@.map_values(|x: i32| x as int) == offs(s),
            forall|m: int| 0 <= m < len ==> #[trigger] dv@[m] == hp_diff(s, m),
            dpar@.len() == i,
            forall|m: int| 0 <= m < i ==> #[trigger] dpar@[m] == dpar_off(s, m),
        decreases len - i,
    {
        let mut j: usize = i;
        let mut found: i32 = 0;
        while j > 0 && found == 0
            invariant
                j <= i < len == seq@.len() <= i32::MAX,
                s == ints(seq@),
                offv@.len() == len,
                dv@.len() == len,
                forall|k: int| 0 <= k < offv@.len() ==> 0 <= #[trigger] offv@[k] <= k,
                offv@.map_values(|x: i32| x as int) == offs(s),
                forall|m: int| 0 <= m < len ==> #[trigger] dv@[m] == hp_diff(s, m),
                found == 0 ==> scan_dpar(s, i as int, j - 1) == scan_dpar(s, i as int, i - 1),
                found != 0 ==> found == dpar_off(s, i as int),
            decreases j,
        {
            let jj = j - 1;
            if dv[jj] < dv[i] && is_hprss_ancestor(&offv, jj, i) {
                found = (i - jj) as i32;
            }
            j = j - 1;
        }
        proof {
            if found == 0 {
                assert(scan_dpar(s, i as int, -1) == -1);
            }
        }
        dpar.push(found);
        i = i + 1;
    }
    let mut seqv: Vec<i32> = copy_range(seq, 0, len);
    let base = zip_pairs(&seqv, &offv);
    let top = zip_pairs(&dv, &dpar);
    proof {
        assert(pairs_int(base@) =~= mountain_base(s));
        assert(pairs_int(top@) =~= hp_mountain_top(s));
    }
    let mut r: Vec<Vec<(i32, i32)>> = Vec::new();
    r.push(base);
    r.push(top);
    r
}

/// LPrSS mountain diagram: the sequence with parent offsets, and the
/// difference sequence sharing those offsets.
pub fn build_lprss_mountain(seq: &[i32]) -> (r: Vec<Vec<(i32, i32)>>)
    requires
        seq@.len() <= i32::MAX,
        forall|i: int| 0 <= i < seq@.len() ==> in_i32(#[trigger] hp_diff(ints(seq@), i)),
    ensures
        seq@.len() == 0 ==> r@.len() == 0,
        seq@.len() > 0 ==> r@.len() == 2 && pairs_int(r@[0]@) == mountain_base(ints(seq@))
            && pairs_int(r@[1]@) == lp_mountain_top(ints(seq@)),
{
    let len = seq.len();
    if len == 0 {
        return Vec::new();
    }
    let (offv, dv) = offsets_diffs(seq);
    let seqv: Vec<i32> = copy_range(seq, 0, len);
    let base = zip_pairs(&seqv, &offv);
    let top = zip_pairs(&dv, &offv);
    proof {
        assert(pairs_int(base@) =~= mountain_base(ints(seq@)));
        assert(pairs_int(top@) =~= lp_mountain_top(ints(seq@)));
    }
    let mut r: Vec<Vec<(i32, i32)>> = Vec::new();
    r.push(base);
    r.push(top);
    r
}

/// One past the bad root of a nonempty LPrSS: the last entry before the
/// final one that is below it.
fn lp_root_of(seq: &[i32]) -> (k: usize)
    requires
        seq@.len() >= 1,
    ensures
        k == lp_root(ints(seq@)) + 1,
        k <= seq@.len() - 1,
        k > 0 ==> ints(seq@)[k - 1] < ints(seq@).last(),
{
    let ghost s = ints(seq@);
    let len = seq.len();
    let last = seq[len - 1];
    let mut k: usize = len - 1;
    while k > 0 && seq[k - 1] >= last
        invariant
            0 <= k <= len - 1,
            len == seq@.len() == s.len(),
            s == ints(seq@),
            last == seq@[len - 1],
            scan_lt(s, len - 1, k - 1) == lp_root(s),
        decreases k,
    {
        k = k - 1;
    }
    proof {
        lemma_scan_lt(s, len - 1, len - 2);
    }
    k
}

/// Whether `expand_lprss` takes the sequence and step: the last rise over
/// the root, every multiple of the shift and every shifted entry of the
/// copies fit in an `i32`.
pub fn lprss_expand_fits(seq: &[i32], n: i32) -> (r: bool)
    ensures
        r == lp_expand_ok(ints(seq@), n as int),
{
    let ghost s = ints(seq@);
    let len = seq.len();
    if len == 0 {
        return true;
    }
    let last = seq[len - 1];
    let k = lp_root_of(seq);
    if last == 1 || k == 0 {
        return true;
    }
    let root = k - 1;
    proof {
        assert(s.last() == last as int);
        assert(root == lp_root(s));
    }
    let rise: i64 = last as i64 - seq[root] as i64;
    if rise > 0x7fff_ffff {
        return false;
    }
    let delta: i64 = rise - 1;
    let copies: i64 = if n < 0 {
        0
    } else {
        n as i64
    };
    let mut t: i64 = 0;
    while t <= copies
        invariant
            0 <= t <= copies + 1,
            copies == nat_of(n as int),
            0 <= root < len - 1,
            len == seq@.len() == s.len(),
            s == ints(seq@),
            s.last() != 1,
            root == lp_root(s),
            lp_root(s) >= 0,
            delta == s.last() - s[root as int] - 1,
            in_i32(s.last() - s[root as int]),
            0 <= delta < 0x7fff_ffff,
            forall|tt: int| 0 <= tt < t ==> in_i32(#[trigger] (tt * delta)),
            forall|tt: int, j: int|
                0 <= tt < t && root <= j < s.len() - 1 ==> in_i32(#[trigger] (s[j] + tt * delta)),
        decreases copies + 1 - t,
    {
        assert(0 <= t * delta <= 0x7fff_ffff * 0x7fff_ffff) by (nonlinear_arith)
            requires
                0 <= t <= 0x7fff_ffff,
                0 <= delta < 0x7fff_ffff,
        ;
        let shift: i64 = t * delta;
        if shift > 0x7fff_ffff {
            proof {
                assert(!in_i32(t * delta));
            }
            return false;
        }
        let mut j: usize = root;
        while j < len - 1
            invariant
                root <= j <= len - 1,
                len == seq@.len() == s.len(),
                s == ints(seq@),
                0 <= t <= copies,
                copies == nat_of(n as int),
                shift == t * delta,
                0 <= shift <= 0x7fff_ffff,
                s.last() != 1,
                root == lp_root(s),
                lp_root(s) >= 0,
                delta == s.last() - s[root as int] - 1,
                in_i32(s.last() - s[root as int]),
                forall|tt: int, jj: int|
                    0 <= tt < t && root <= jj < s.len() - 1 ==> in_i32(
                        #[trigger] (s[jj] + tt * delta),
                    ),
                forall|jj: int| root <= jj < j ==> in_i32(#[trigger] (s[jj] + t * delta)),
            decreases len - 1 - j,
        {
            let x: i64 = seq[j] as i64 + shift;
            if x < -0x8000_0000 || x > 0x7fff_ffff {
                proof {
                    assert(!in_i32(s[j as int] + t * delta));
                }
                return false;
            }
            j = j + 1;
        }
        t = t + 1;
    }
    true
}

/// Expands an LPrSS sequence: S[n] = G + B + B_1 + ... + B_n.
pub fn expand_lprss(seq: &[i32], n: i32) -> (r: Vec<i32>)
    requires
        lp_expand_ok(ints(seq@), n as int),
    ensures
        ints(r@) == lp_expand(ints(seq@), n as int),
{
    let ghost s = ints(seq@);
    let len = seq.len();
    if len == 0 {
        proof {
            assert(ints(seq@) =~= seq![]);
        }
        return Vec::new();
    }
    let last = seq[len - 1];
    let k = lp_root_of(seq);
    if last == 1 || k == 0 {
        let r = copy_range(seq, 0, len - 1);
        proof {
            assert(ints(r@) =~= s.drop_last());
        }
        return r;
    }
    let root = k - 1;
    proof {
        assert(root == lp_root(s));
    }
    let delta = last - seq[root] - 1;
    let mut out = copy_range(seq, 0, root);
    let copies: i64 = if n < 0 {
        0
    } else {
        n as i64
    };
    let ghost bad = s.subrange(root as int, len - 1);
    let mut t: i64 = 0;
    proof {
        assert(ints(out@) =~= s.subrange(0, root as int) + lp_blocks(bad, delta as int, 0));
    }
    while t <= copies
        invariant
            0 <= t <= copies + 1,
            copies == nat_of(n as int),
            0 <= root < len - 1,
            len == seq@.len() == s.len(),
            s == ints(seq@),
            bad == s.subrange(root as int, len - 1),
            delta == s.last() - s[root as int] - 1,
            forall|t: int| 0 <= t <= nat_of(n as int) ==> in_i32(#[trigger] (t * delta)),
            forall|t: int, j: int|
                0 <= t <= nat_of(n as int) && root <= j < s.len() - 1 ==> in_i32(
                    #[trigger] (s[j] + t * delta),
                ),
            ints(out@) == s.subrange(0, root as int) + lp_blocks(bad, delta as int, t as nat),
        decreases copies + 1 - t,
    {
        proof {
            assert(in_i32(t * delta));
        }
        let shift = (t as i32) * delta;
        let mut j: usize = root;
        let ghost base = ints(out@);
        while j < len - 1
            invariant
                root <= j <= len - 1,
                len == seq@.len() == s.len(),
                s == ints(seq@),
                0 <= t <= copies,
                copies == nat_of(n as int),
                shift == t * delta,
                forall|t: int, j: int|
                    0 <= t <= nat_of(n as int) && root <= j < s.len() - 1 ==> in_i32(
                        #[trigger] (s[j] + t * delta),
                    ),
                ints(out@) == base + s.subrange(root as int, j as int).map_values(
                    |v: int| v + t * delta,
                ),
            decreases len - 1 - j,
        {
            proof {
                assert(in_i32(s[j as int] + t * delta));
            }
            let ghost before = out@;
            let x = seq[j] + shift;
            out.push(x);
            proof {
                assert(ints(out@) =~= ints(before).push(x as int));
                assert(s.subrange(root as int, j + 1).map_values(|v: int| v + t * delta)
                    =~= s.subrange(root as int, j as int).map_values(|v: int| v + t * delta).push(
                    s[j as int] + t * delta,
                ));
            }
            j = j + 1;
        }
        t = t + 1;
        proof {
            assert(ints(out@) =~= s.subrange(0, root as int) + lp_blocks(bad, delta as int, t as nat));
        }
    }
    proof {
        assert(ints(out@) =~= lp_expand(s, n as int));
    }
    out
}


// ============================================================
// HPrSS ↔ hydra: model
// ============================================================

/// First `j' ≥ j` with `s[j'] ≤ s[i]` (or the end).
pub open spec fn next_le(s: Seq<int>, i: int, j: int) -> int
    decreases s.len() - j,
{
    if 0 <= j < s.len() && s[j] > s[i] {
        next_le(s, i, j + 1)
    } else {
        j
    }
}

pub proof fn lemma_next_le(s: Seq<int>, i: int, j: int)
    requires
        0 <= j <= s.len(),
    ensures
        j <= next_le(s, i, j) <= s.len(),
        forall|k: int| j <= k < next_le(s, i, j) ==> s[k] > s[i],
    decreases s.len() - j,
{
    if j < s.len() && s[j] > s[i] {
        lemma_next_le(s, i, j + 1);
    }
}

/// HPrSS → hydra: each term starts a summand whose argument is the
/// following run of larger terms, taken relative to it.
pub open spec fn hp_to_h(s: Seq<int>) -> HydraV
    decreases s.len(), 1nat, 0int,
{
    HydraV { terms: hp_h_blocks(s, 0) }
}

pub open spec fn hp_h_blocks(s: Seq<int>, i: int) -> Seq<(int, HydraV)>
    decreases s.len(), 0nat, s.len() - i,
{
    if i < 0 || i >= s.len() {
        Seq::empty()
    } else {
        let j = next_le(s, i, i + 1);
        proof {
            lemma_next_le(s, i, i + 1);
        }
        let inner = s.subrange(i + 1, j).map_values(|v: int| v - s[i]);
        seq![(s[i], hp_to_h(inner))] + hp_h_blocks(s, j)
    }
}

/// Differences of increasing pairs fit in `i32`.
pub open spec fn diffs_fit(s: Seq<int>) -> bool {
    forall|a: int, b: int| 0 <= a < b < s.len() && s[b] > s[a] ==> in_i32(#[trigger] (s[b] - s[a]))
}

/// The low 32 bits of a subscript, as `n as i32` computes them.
pub open spec fn tr32(n: int) -> int {
    (n as i32) as int
}

/// Hydra → HPrSS: LP(ψ^H_x(H)) = (x, LP(H) + x).
pub open spec fn h_to_hp(v: HydraV) -> Seq<int>
    decreases v,
{
    h_to_hp_seq(v.terms)
}

pub open spec fn h_to_hp_seq(ts: Seq<(int, HydraV)>) -> Seq<int>
    decreases ts,
{
    if ts.len() == 0 {
        Seq::empty()
    } else {
        let n = tr32(ts[0].0);
        seq![n] + h_to_hp(ts[0].1).map_values(|x: int| x + n) + h_to_hp_seq(ts.drop_first())
    }
}

/// Every addition of `hydra_to_hprss` stays within `i32`.
pub open spec fn hp_fits(v: HydraV) -> bool
    decreases v,
{
    hp_fits_seq(v.terms)
}

pub open spec fn hp_fits_seq(ts: Seq<(int, HydraV)>) -> bool
    decreases ts,
{
    ts.len() == 0 || ((forall|k: int|
        0 <= k < h_to_hp(ts[0].1).len() ==> in_i32(
            #[trigger] h_to_hp(ts[0].1)[k] + tr32(ts[0].0),
        )) && hp_fits(ts[0].1) && hp_fits_seq(ts.drop_first()))
}

// ============================================================
// HPrSS ↔ hydra
// ============================================================

/// HPrSS → PSS hydra.
pub fn hprss_to_hydra(seq: &[i32]) -> (r: Hydra)
    requires
        diffs_fit(ints(seq@)),
    ensures
        r@ == hp_to_h(ints(seq@)),
    decreases seq@.len(),
{
    let ghost s = ints(seq@);
    let len = seq.len();
    let mut terms: Vec<(i64, Hydra)> = Vec::new();
    let mut i: usize = 0;
    proof {
        assert(hp_h_blocks(s, len as int) =~= Seq::<(int, HydraV)>::empty());
    }
    while i < len
        invariant
            i <= len == seq@.len() == s.len(),
            s == ints(seq@),
            diffs_fit(s),
            pairs_view(terms@) + hp_h_blocks(s, i as int) == hp_h_blocks(s, 0),
        decreases len - i,
    {
        let a = seq[i] as i64;
        let mut j: usize = i + 1;
        proof {
            lemma_next_le(s, i as int, i + 1);
        }
        while j < len && seq[j] > seq[i]
            invariant
                i < j <= len == seq@.len() == s.len(),
                s == ints(seq@),
                next_le(s, i as int, j as int) == next_le(s, i as int, i + 1),
            decreases len - j,
        {
            j = j + 1;
        }
        let mut inner: Vec<i32> = Vec::new();
        let mut k: usize = i + 1;
        while k < j
            invariant
                i < k <= j <= len == seq@.len() == s.len(),
                s == ints(seq@),
                diffs_fit(s),
                forall|m: int| i < m < j ==> s[m] > s[i as int],
                ints(inner@) == s.subrange(i + 1, k as int).map_values(|v: int| v - s[i as int]),
            decreases j - k,
        {
            proof {
                assert(in_i32(s[k as int] - s[i as int]));
            }
            let ghost before = inner@;
            let x = seq[k] - seq[i];
            inner.push(x);
            proof {
                assert(ints(inner@) =~= ints(before).push(x as int));
                assert(s.subrange(i + 1, k + 1).map_values(|v: int| v - s[i as int])
                    =~= s.subrange(i + 1, k as int).map_values(|v: int| v - s[i as int]).push(
                    s[k as int] - s[i as int],
                ));
            }
            k = k + 1;
        }
        proof {
            let iv = ints(inner@);
            assert forall|a: int, b: int|
                0 <= a < b < iv.len() && iv[b] > iv[a] implies in_i32(#[trigger] (iv[b] - iv[a])) by {
                assert(iv[b] - iv[a] == s[i + 1 + b] - s[i + 1 + a]);
            }
        }
        let sl = inner.as_slice();
        proof {
            assert(ints(sl@) == ints(inner@));
        }
        let sub = hprss_to_hydra(sl);
        let ghost t0 = terms@;
        terms.push((a, sub));
        proof {
            let hb = hp_h_blocks(s, i as int);
            assert(pairs_view(terms@) =~= pairs_view(t0) + seq![(s[i as int], sub@)]);
            assert(hb == seq![(s[i as int], hp_to_h(ints(inner@)))] + hp_h_blocks(s, j as int));
            assert(pairs_view(terms@) + hp_h_blocks(s, j as int) =~= pairs_view(t0) + hb);
        }
        i = j;
    }
    proof {
        lemma_view_of(terms);
        assert(pairs_view(terms@) + hp_h_blocks(s, len as int) =~= pairs_view(terms@));
        assert(Hydra(terms)@.terms =~= hp_to_h(s).terms);
    }
    Hydra(terms)
}

/// PSS hydra → HPrSS: LP(ψ^H_x(H)) = (x, LP(H) + x).
pub fn hydra_to_hprss(h: &Hydra) -> (r: Vec<i32>)
    requires
        hp_fits(h@),
    ensures
        ints(r@) == h_to_hp(h@),
    decreases h,
{
    let mut out: Vec<i32> = Vec::new();
    let mut i: usize = 0;
    proof {
        assert(h@.terms.subrange(0, h@.terms.len() as int) =~= h@.terms);
    }
    while i < h.0.len()
        invariant
            i <= h.0@.len(),
            h@.terms.len() == h.0@.len(),
            hp_fits(h@),
            hp_fits_seq(h@.terms.subrange(i as int, h@.terms.len() as int)),
            ints(out@) + h_to_hp_seq(h@.terms.subrange(i as int, h@.terms.len() as int))
                == h_to_hp(h@),
        decreases h.0.len() - i,
    {
        proof {
            lemma_view_index(*h, i as int);
            assert(decreases_to!(h => h.0@[i as int].1));
            let sub = h@.terms.subrange(i as int, h@.terms.len() as int);
            assert(sub[0] == h@.terms[i as int]);
            assert(sub.drop_first() =~= h@.terms.subrange(i + 1, h@.terms.len() as int));
        }
        let n = h.0[i].0 as i32;
        let rec = hydra_to_hprss(&h.0[i].1);
        let ghost o0 = ints(out@);
        out.push(n);
        let mut k: usize = 0;
        while k < rec.len()
            invariant
                k <= rec@.len(),
                n as int == tr32(h@.terms[i as int].0),
                ints(rec@) == h_to_hp(h@.terms[i as int].1),
                forall|m: int|
                    0 <= m < h_to_hp(h@.terms[i as int].1).len() ==> in_i32(
                        #[trigger] h_to_hp(h@.terms[i as int].1)[m] + tr32(h@.terms[i as int].0),
                    ),
                ints(out@) == o0 + seq![n as int] + ints(rec@).subrange(0, k as int).map_values(
                    |x: int| x + n,
                ),
            decreases rec.len() - k,
        {
            proof {
                assert(ints(rec@)[k as int] == rec@[k as int]);
                assert(in_i32(h_to_hp(h@.terms[i as int].1)[k as int] + tr32(h@.terms[i as int].0)));
            }
            let ghost before = out@;
            let x = rec[k] + n;
            out.push(x);
            proof {
                assert(ints(out@) =~= ints(before).push(x as int));
                assert(ints(rec@).subrange(0, k + 1).map_values(|x: int| x + n) =~= ints(
                    rec@,
                ).subrange(0, k as int).map_values(|x: int| x + n).push(ints(rec@)[k as int] + n));
            }
            k = k + 1;
        }
        proof {
            assert(ints(rec@).subrange(0, rec@.len() as int) =~= ints(rec@));
            let sub = h@.terms.subrange(i as int, h@.terms.len() as int);
            assert(h_to_hp_seq(sub) == seq![n as int] + h_to_hp(sub[0].1).map_values(
                |x: int| x + tr32(sub[0].0),
            ) + h_to_hp_seq(sub.drop_first()));
            assert(ints(out@) + h_to_hp_seq(h@.terms.subrange(i + 1, h@.terms.len() as int))
                =~= o0 + h_to_hp_seq(sub));
        }
        i = i + 1;
    }
    proof {
        assert(h@.terms.subrange(h@.terms.len() as int, h@.terms.len() as int).len() == 0);
        assert(ints(out@) + Seq::<int>::empty() =~= ints(out@));
    }
    out
}

/// The HPrSS of a hydra where every entry fits in an `i32`; `None` where
/// one does not.
pub fn hydra_to_hprss_checked(h: &Hydra) -> (r: Option<Vec<i32>>)
    ensures
        match r {
            Some(v) => hp_fits(h@) && ints(v@) == h_to_hp(h@),
            None => !hp_fits(h@),
        },
    decreases h,
{
    let mut out: Vec<i32> = Vec::new();
    let mut i: usize = 0;
    proof {
        assert(h@.terms.subrange(0, h@.terms.len() as int) =~= h@.terms);
    }
    while i < h.0.len()
        invariant
            i <= h.0@.len(),
            h@.terms.len() == h.0@.len(),
            hp_fits(h@) == hp_fits_seq(h@.terms.subrange(i as int, h@.terms.len() as int)),
            ints(out@) + h_to_hp_seq(h@.terms.subrange(i as int, h@.terms.len() as int))
                == h_to_hp(h@),
        decreases h.0.len() - i,
    {
        let ghost sub = h@.terms.subrange(i as int, h@.terms.len() as int);
        proof {
            lemma_view_index(*h, i as int);
            assert(decreases_to!(h => h.0@[i as int].1));
            assert(sub[0] == h@.terms[i as int]);
            assert(sub.drop_first() =~= h@.terms.subrange(i + 1, h@.terms.len() as int));
        }
        let n = h.0[i].0 as i32;
        let rec = match hydra_to_hprss_checked(&h.0[i].1) {
            Some(v) => v,
            None => {
                return None;
            },
        };
        let ghost o0 = ints(out@);
        out.push(n);
        let mut k: usize = 0;
        while k < rec.len()
            invariant
                k <= rec@.len(),
                i < h@.terms.len(),
                sub == h@.terms.subrange(i as int, h@.terms.len() as int),
                hp_fits(h@) == hp_fits_seq(sub),
                n as int == tr32(h@.terms[i as int].0),
                sub[0] == h@.terms[i as int],
                ints(rec@) == h_to_hp(h@.terms[i as int].1),
                forall|m: int|
                    0 <= m < k ==> in_i32(
                        #[trigger] h_to_hp(h@.terms[i as int].1)[m] + tr32(h@.terms[i as int].0),
                    ),
                ints(out@) == o0 + seq![n as int] + ints(rec@).subrange(0, k as int).map_values(
                    |x: int| x + n,
                ),
            decreases rec.len() - k,
        {
            proof {
                assert(ints(rec@)[k as int] == rec@[k as int]);
            }
            let x: i64 = rec[k] as i64 + n as i64;
            if x < -0x8000_0000 || x > 0x7fff_ffff {
                proof {
                    assert(!in_i32(h_to_hp(sub[0].1)[k as int] + tr32(sub[0].0)));
                    assert(!hp_fits_seq(sub));
                }
                return None;
            }
            let ghost before = out@;
            out.push(x as i32);
            proof {
                assert(ints(out@) =~= ints(before).push(x as int));
                assert(ints(rec@).subrange(0, k + 1).map_values(|x: int| x + n) =~= ints(
                    rec@,
                ).subrange(0, k as int).map_values(|x: int| x + n).push(ints(rec@)[k as int] + n));
            }
            k = k + 1;
        }
        proof {
            assert(ints(rec@).subrange(0, rec@.len() as int) =~= ints(rec@));
            assert(h_to_hp_seq(sub) == seq![n as int] + h_to_hp(sub[0].1).map_values(
                |x: int| x + tr32(sub[0].0),
            ) + h_to_hp_seq(sub.drop_first()));
            assert(ints(out@) + h_to_hp_seq(h@.terms.subrange(i + 1, h@.terms.len() as int))
                =~= o0 + h_to_hp_seq(sub));
            assert(hp_fits_seq(sub) == hp_fits_seq(sub.drop_first()));
        }
        i = i + 1;
    }
    proof {
        assert(h@.terms.subrange(h@.terms.len() as int, h@.terms.len() as int).len() == 0);
        assert(ints(out@) + Seq::<int>::empty() =~= ints(out@));
    }
    Some(out)
}

/// The standard HPrSS of a hydra as `hydra_to_hprss_standard` gives it, or
/// `None` where an entry of it leaves the `i32` range.
pub fn hydra_to_hprss_standard_checked(h: &Hydra) -> (r: Option<Vec<i32>>)
    requires
        h_subs_in(h@, i64::MIN + 1, i64::MAX as int),
    ensures
        match t_to_h(spec_standard_form(h_to_term(h@))) {
            Some(u) => match r {
                Some(v) => hp_fits(u) && ints(v@) == h_to_hp(u),
                None => !hp_fits(u),
            },
            None => match r {
                Some(v) => hp_fits(h@) && ints(v@) == h_to_hp(h@),
                None => !hp_fits(h@),
            },
        },
{
    match term_to_hydra(&hydra_to_bocf(h)) {
        Ok(u) => hydra_to_hprss_checked(&u),
        Err(_) => hydra_to_hprss_checked(h),
    }
}

/// Standard HPrSS of a hydra: hydra → BOCF standard form → unfilled hydra →
/// LP (falls back to the hydra itself outside the hydra range).
pub fn hydra_to_hprss_standard(h: &Hydra) -> (r: Vec<i32>)
    requires
        h_subs_in(h@, i64::MIN + 1, i64::MAX as int),
        match t_to_h(spec_standard_form(h_to_term(h@))) {
            Some(u) => hp_fits(u),
            None => hp_fits(h@),
        },
    ensures
        ints(r@) == match t_to_h(spec_standard_form(h_to_term(h@))) {
            Some(u) => h_to_hp(u),
            None => h_to_hp(h@),
        },
{
    match term_to_hydra(&hydra_to_bocf(h)) {
        Ok(u) => hydra_to_hprss(&u),
        Err(_) => hydra_to_hprss(h),
    }
}


// ============================================================
// LPrSS ↔ hydra: model
// ============================================================

/// Splits the tail of an LPrSS at every 1 into ψ^H_1 summands.
pub open spec fn lp_split(rest: Seq<int>, chunk: Seq<int>) -> Seq<(int, HydraV)>
    decreases rest.len(),
{
    if rest.len() == 0 {
        seq![(1, lp_tail(chunk))]
    } else if rest[0] == 1 {
        seq![(1, lp_tail(chunk))] + lp_split(rest.drop_first(), Seq::empty())
    } else {
        lp_split(rest.drop_first(), chunk.push(rest[0]))
    }
}

/// LPrSS → hydra.
pub open spec fn lp_to_h(s: Seq<int>) -> HydraV {
    if s.len() == 0 {
        hz()
    } else {
        HydraV { terms: lp_split(s.drop_first(), Seq::empty()) }
    }
}

/// Value of a 1-free tail: one summand per segment.
pub open spec fn lp_tail(t: Seq<int>) -> HydraV
    decreases t.len(), 1nat, t.len() + 1,
{
    HydraV { terms: lp_tail_seq(t, 0) }
}

pub open spec fn lp_tail_seq(t: Seq<int>, i: int) -> Seq<(int, HydraV)>
    decreases t.len(), 1nat, t.len() - i,
{
    if i < 0 || i >= t.len() {
        Seq::empty()
    } else {
        let j = next_le(t, i, i + 1);
        proof {
            lemma_next_le(t, i, i + 1);
        }
        lp_seg(t[i], t.subrange(i + 1, j)).terms + lp_tail_seq(t, j)
    }
}

/// A segment [h, τ]: h = 2 gives ψ^H_1(S(τ − 1)); h ≥ 3 gives
/// ψ^H_2((h−3)·ψ^H_2(0) + X) with X from τ − (h−1).
pub open spec fn lp_seg(h: int, sub: Seq<int>) -> HydraV
    decreases sub.len(), 2nat, 0int,
{
    if h == 2 {
        HydraV { terms: seq![(1, lp_tail(sub.map_values(|v: int| v - 1)))] }
    } else {
        let tau = sub.map_values(|v: int| v - (h - 1));
        let inner = if tau.len() == 0 || tau[0] == 2 {
            lp_tail(tau)
        } else {
            HydraV { terms: seq![(1, lp_tail(tau))] }
        };
        let arg = HydraV {
            terms: Seq::new(nat_of(h - 3), |k: int| (2int, hz())) + inner.terms,
        };
        HydraV { terms: seq![(2, arg)] }
    }
}

/// Number of leading ψ^H_2(0) summands.
pub open spec fn lead2(ts: Seq<(int, HydraV)>) -> nat
    decreases ts.len(),
{
    if ts.len() > 0 && ts[0] == (2int, hz()) {
        1 + lead2(ts.drop_first())
    } else {
        0
    }
}

/// Decodes a tail (a sum of segments). `Err(false)`: a subscript other
/// than 1 or 2 occurs; `Err(true)`: the ordinal reaches the LPrSS limit.
pub open spec fn lp_dec_tail(v: HydraV) -> Result<Seq<int>, bool>
    decreases v, 2nat,
{
    lp_dec_seq(v.terms)
}

pub open spec fn lp_dec_seq(ts: Seq<(int, HydraV)>) -> Result<Seq<int>, bool>
    decreases ts, 1nat,
{
    if ts.len() == 0 {
        Ok(Seq::empty())
    } else {
        match lp_dec_seg(ts[0].0, ts[0].1) {
            Err(e) => Err(e),
            Ok(a) => match lp_dec_seq(ts.drop_first()) {
                Err(e) => Err(e),
                Ok(b) => Ok(a + b),
            },
        }
    }
}

/// The part X of a ψ^H_2 argument after its leading ψ^H_2(0) summands.
pub open spec fn lp_x(arg: HydraV) -> Seq<(int, HydraV)> {
    arg.terms.subrange(lead2(arg.terms) as int, arg.terms.len() as int)
}

pub proof fn lemma_lead2(ts: Seq<(int, HydraV)>)
    ensures
        lead2(ts) <= ts.len(),
        forall|k: int| 0 <= k < lead2(ts) ==> ts[k] == (2int, hz()),
        lead2(ts) < ts.len() ==> ts[lead2(ts) as int] != (2int, hz()),
    decreases ts.len(),
{
    if ts.len() > 0 && ts[0] == (2int, hz()) {
        lemma_lead2(ts.drop_first());
        assert forall|k: int| 0 <= k < lead2(ts) implies ts[k] == (2int, hz()) by {
            if k > 0 {
                assert(ts[k] == ts.drop_first()[k - 1]);
            }
        }
    }
}

/// Decodes one segment ψ^H_n(arg).
pub open spec fn lp_dec_seg(n: int, arg: HydraV) -> Result<Seq<int>, bool>
    decreases arg, 3nat,
{
    if n == 1 {
        match lp_dec_tail(arg) {
            Err(e) => Err(e),
            Ok(t) => Ok(seq![2int] + t.map_values(|v: int| v + 1)),
        }
    } else if n != 2 {
        Err(false)
    } else {
        let c = lead2(arg.terms);
        let h: int = 3 + c as int;
        proof {
            lemma_lead2(arg.terms);
        }
        let x = arg.terms.subrange(c as int, arg.terms.len() as int);
        let tau: Result<Seq<int>, bool> = if x.len() == 0 {
            Ok(Seq::empty())
        } else if x[0].0 == 2 || (exists|k: int| 0 <= k < x.len() && #[trigger] x[k].0 != 1) {
            Err(true)
        } else if x.len() == 1 && x[0].1.terms.len() > 0 && x[0].1.terms[0].0 == 2 {
            proof {
                assert(x[0] == arg.terms[c as int]);
            }
            lp_dec_tail(x[0].1)
        } else {
            proof {
                assert(decreases_to!(arg => arg.terms));
                if c == 0 {
                    assert(x =~= arg.terms);
                } else {
                    assert(decreases_to!(arg.terms => x));
                }
            }
            lp_dec_seq(x)
        };
        match tau {
            Err(e) => Err(e),
            Ok(tt) => Ok(seq![h] + tt.map_values(|v: int| v + h - 1)),
        }
    }
}

/// Hydra → LPrSS (`Err` outside the LPrSS range).
pub open spec fn h_to_lp(v: HydraV) -> Result<Seq<int>, bool> {
    if v.terms.len() == 0 {
        Ok(Seq::empty())
    } else {
        h_to_lp_seq(v.terms)
    }
}

pub open spec fn h_to_lp_seq(ts: Seq<(int, HydraV)>) -> Result<Seq<int>, bool>
    decreases ts.len(),
{
    if ts.len() == 0 {
        Ok(Seq::empty())
    } else if ts[0].0 != 1 {
        Err(false)
    } else {
        match lp_dec_tail(ts[0].1) {
            Err(e) => Err(e),
            Ok(t) => match h_to_lp_seq(ts.drop_first()) {
                Err(e) => Err(e),
                Ok(r) => Ok(seq![1int] + t + r),
            },
        }
    }
}


/// Every addition made while decoding a tail stays within `i32`.
pub open spec fn lp_fits_tail(v: HydraV) -> bool
    decreases v, 2nat,
{
    lp_fits_seq(v.terms)
}

pub open spec fn lp_fits_seq(ts: Seq<(int, HydraV)>) -> bool
    decreases ts, 1nat,
{
    ts.len() == 0 || (lp_fits_seg(ts[0].0, ts[0].1) && (lp_dec_seg(ts[0].0, ts[0].1) is Ok
        ==> lp_fits_seq(ts.drop_first())))
}

pub open spec fn lp_fits_seg(n: int, arg: HydraV) -> bool
    decreases arg, 3nat,
{
    if n == 1 {
        lp_fits_tail(arg) && (lp_dec_tail(arg) matches Ok(t) ==> forall|k: int|
            0 <= k < t.len() ==> #[trigger] t[k] < i32::MAX)
    } else if n != 2 {
        true
    } else {
        let c = lead2(arg.terms);
        let h: int = 3 + c as int;
        proof {
            lemma_lead2(arg.terms);
        }
        let x = arg.terms.subrange(c as int, arg.terms.len() as int);
        h <= i32::MAX && if x.len() == 0 {
            true
        } else if x[0].0 == 2 || (exists|k: int| 0 <= k < x.len() && #[trigger] x[k].0 != 1) {
            true
        } else if x.len() == 1 && x[0].1.terms.len() > 0 && x[0].1.terms[0].0 == 2 {
            proof {
                assert(x[0] == arg.terms[c as int]);
            }
            lp_fits_tail(x[0].1) && (lp_dec_tail(x[0].1) matches Ok(t) ==> forall|k: int|
                0 <= k < t.len() ==> #[trigger] t[k] + h <= i32::MAX)
        } else {
            proof {
                assert(decreases_to!(arg => arg.terms));
                if c == 0 {
                    assert(x =~= arg.terms);
                } else {
                    assert(decreases_to!(arg.terms => x));
                }
            }
            lp_fits_seq(x) && (lp_dec_seq(x) matches Ok(t) ==> forall|k: int|
                0 <= k < t.len() ==> #[trigger] t[k] + h <= i32::MAX)
        }
    }
}

/// Every addition made by `hydra_to_lprss` stays within `i32`.
pub open spec fn h_lp_fits_seq(ts: Seq<(int, HydraV)>) -> bool
    decreases ts.len(),
{
    ts.len() == 0 || (ts[0].0 == 1 ==> lp_fits_tail(ts[0].1) && (lp_dec_tail(ts[0].1) is Ok
        ==> h_lp_fits_seq(ts.drop_first())))
}

// ============================================================
// LPrSS ↔ hydra
// ============================================================

/// The conversion of an LPrSS tail stays within `i32`: no entry is
/// `i32::MIN`, and a later entry exceeds an earlier one by less than
/// `i32::MAX`.
pub open spec fn lp_fit(t: Seq<int>) -> bool {
    &&& forall|k: int| 0 <= k < t.len() ==> #[trigger] t[k] > i32::MIN
    &&& forall|a: int, b: int|
        #![trigger t[a], t[b]]
        0 <= a < b < t.len() && t[b] > t[a] ==> t[b] - t[a] < i32::MAX
}

/// Whether `lprss_to_hydra` can convert `seq`.
pub fn lprss_input_fits(seq: &[i32]) -> (r: bool)
    ensures
        r == (seq@.len() == 0 || lp_fit(ints(seq@).drop_first())),
{
    let len = seq.len();
    if len == 0 {
        return true;
    }
    let ghost t = ints(seq@).drop_first();
    let mut b: usize = 1;
    while b < len
        invariant
            1 <= b <= len == seq@.len(),
            t == ints(seq@).drop_first(),
            forall|k: int| 0 <= k < b - 1 ==> #[trigger] t[k] > i32::MIN,
            forall|a2: int, b2: int|
                #![trigger t[a2], t[b2]]
                0 <= a2 < b2 < b - 1 && t[b2] > t[a2] ==> t[b2] - t[a2] < i32::MAX,
        decreases len - b,
    {
        if seq[b] == i32::MIN {
            proof {
                assert(t[b - 1] == seq@[b as int]);
            }
            return false;
        }
        let mut a: usize = 1;
        while a < b
            invariant
                1 <= a <= b < len == seq@.len(),
                t == ints(seq@).drop_first(),
                forall|a2: int| 0 <= a2 < a - 1 && t[b - 1] > t[a2] ==> #[trigger] t[a2] > t[b - 1] - i32::MAX,
            decreases b - a,
        {
            if seq[b] > seq[a] && seq[b] as i64 - seq[a] as i64 >= i32::MAX as i64 {
                proof {
                    assert(t[b - 1] == seq@[b as int]);
                    assert(t[a - 1] == seq@[a as int]);
                }
                return false;
            }
            proof {
                assert(t[b - 1] == seq@[b as int]);
                assert(t[a - 1] == seq@[a as int]);
            }
            a = a + 1;
        }
        proof {
            assert(t[b - 1] == seq@[b as int]);
            assert forall|a2: int, b2: int|
                #![trigger t[a2], t[b2]]
                0 <= a2 < b2 < b && t[b2] > t[a2] implies t[b2] - t[a2] < i32::MAX by {
                if b2 == b - 1 {
                    assert(t[a2] > t[b - 1] - i32::MAX);
                }
            }
        }
        b = b + 1;
    }
    true
}

fn lprss_tail_hydra(tail: &Vec<i32>) -> (r: Hydra)
    requires
        lp_fit(ints(tail@)),
    ensures
        r@ == lp_tail(ints(tail@)),
    decreases tail@.len(), 1nat, tail@.len() + 1,
{
    let ghost t = ints(tail@);
    let len = tail.len();
    let mut terms: Vec<(i64, Hydra)> = Vec::new();
    let mut i: usize = 0;
    proof {
        assert(lp_tail_seq(t, len as int) =~= Seq::<(int, HydraV)>::empty());
    }
    while i < len
        invariant
            i <= len == tail@.len() == t.len(),
            t == ints(tail@),
            lp_fit(t),
            pairs_view(terms@) + lp_tail_seq(t, i as int) == lp_tail_seq(t, 0),
        decreases len - i,
    {
        let h = tail[i] as i64;
        let mut j: usize = i + 1;
        proof {
            lemma_next_le(t, i as int, i + 1);
        }
        while j < len && (tail[j] as i64) > h
            invariant
                i < j <= len == tail@.len() == t.len(),
                t == ints(tail@),
                h == t[i as int],
                next_le(t, i as int, j as int) == next_le(t, i as int, i + 1),
            decreases len - j,
        {
            j = j + 1;
        }
        let sub = copy_range(tail.as_slice(), i + 1, j);
        proof {
            assert(ints(sub@) =~= t.subrange(i + 1, j as int));
            assert(next_le(t, i as int, j as int) == j);
            assert forall|k: int| 0 <= k < sub@.len() implies #[trigger] sub@[k] > h && sub@[k] - h
                < i32::MAX by {
                assert(sub@[k] == tail@[i + 1 + k]);
                assert(t[i + 1 + k] > t[i as int]);
                assert(t[i + 1 + k] - t[i as int] < i32::MAX);
            }
            let sv = ints(sub@);
            assert forall|a: int, b: int|
                #![trigger sv[a], sv[b]]
                0 <= a < b < sv.len() && sv[b] > sv[a] implies sv[b] - sv[a] < i32::MAX by {
                assert(sv[a] == t[i + 1 + a]);
                assert(sv[b] == t[i + 1 + b]);
            }
            assert(t[i as int] > i32::MIN);
        }
        let seg = lprss_seg_value(h, &sub);
        let Hydra(mut sv) = seg;
        let ghost t0 = terms@;
        let ghost s0 = sv@;
        proof {
            lemma_view_of(sv);
        }
        terms.append(&mut sv);
        proof {
            assert(pairs_view(terms@) =~= pairs_view(t0) + pairs_view(s0));
            assert(lp_tail_seq(t, i as int) == lp_seg(t[i as int], t.subrange(i + 1, j as int)).terms
                + lp_tail_seq(t, j as int));
            assert(pairs_view(terms@) + lp_tail_seq(t, j as int) =~= pairs_view(t0) + lp_tail_seq(
                t,
                i as int,
            ));
        }
        i = j;
    }
    proof {
        lemma_view_of(terms);
        assert(pairs_view(terms@) + lp_tail_seq(t, len as int) =~= pairs_view(terms@));
        assert(Hydra(terms)@.terms =~= lp_tail(t).terms);
    }
    Hydra(terms)
}

fn lprss_seg_value(h: i64, sub: &Vec<i32>) -> (r: Hydra)
    requires
        i32::MIN < h <= i32::MAX,
        forall|k: int| 0 <= k < sub@.len() ==> #[trigger] sub@[k] > h && sub@[k] - h < i32::MAX,
        lp_fit(ints(sub@)),
    ensures
        r@ == lp_seg(h as int, ints(sub@)),
    decreases sub@.len(), 2nat, 0int,
{
    let ghost sv = ints(sub@);
    if h == 2 {
        let mut shifted: Vec<i32> = Vec::new();
        let mut k: usize = 0;
        while k < sub.len()
            invariant
                k <= sub@.len(),
                sv == ints(sub@),
                forall|k: int| 0 <= k < sub@.len() ==> #[trigger] sub@[k] > h && sub@[k] - h < i32::MAX,
                h == 2,
                ints(shifted@) == sv.subrange(0, k as int).map_values(|v: int| v - 1),
                forall|m: int| 0 <= m < shifted@.len() ==> #[trigger] shifted@[m] >= 2,
            decreases sub.len() - k,
        {
            let x = sub[k] - 1;
            let ghost before = shifted@;
            shifted.push(x);
            proof {
                assert(ints(shifted@) =~= ints(before).push(x as int));
                assert(sv.subrange(0, k + 1).map_values(|v: int| v - 1) =~= sv.subrange(
                    0,
                    k as int,
                ).map_values(|v: int| v - 1).push(sv[k as int] - 1));
            }
            k = k + 1;
        }
        proof {
            assert(sv.subrange(0, sv.len() as int) =~= sv);
            let w = ints(shifted@);
            assert forall|m: int| 0 <= m < w.len() implies #[trigger] w[m] > i32::MIN by {
                assert(w[m] == shifted@[m]);
            }
            assert forall|a: int, b: int|
                #![trigger w[a], w[b]]
                0 <= a < b < w.len() && w[b] > w[a] implies w[b] - w[a] < i32::MAX by {
                assert(w[a] == sv[a] - 1);
                assert(w[b] == sv[b] - 1);
            }
        }
        let inner = lprss_tail_hydra(&shifted);
        let mut v: Vec<(i64, Hydra)> = Vec::new();
        v.push((1, inner));
        proof {
            lemma_view_of(v);
            assert(Hydra(v)@.terms =~= lp_seg(h as int, sv).terms);
        }
        return Hydra(v);
    }
    let off = (h - 1) as i32;
    let mut tau: Vec<i32> = Vec::new();
    let mut k: usize = 0;
    while k < sub.len()
        invariant
            k <= sub@.len(),
            sv == ints(sub@),
            forall|k: int| 0 <= k < sub@.len() ==> #[trigger] sub@[k] > h && sub@[k] - h < i32::MAX,
            off == h - 1,
            h != 2,
            i32::MIN < h <= i32::MAX,
            ints(tau@) == sv.subrange(0, k as int).map_values(|v: int| v - (h - 1)),
            forall|m: int| 0 <= m < tau@.len() ==> #[trigger] tau@[m] >= 2,
        decreases sub.len() - k,
    {
        let x = sub[k] - off;
        let ghost before = tau@;
        tau.push(x);
        proof {
            assert(ints(tau@) =~= ints(before).push(x as int));
            assert(sv.subrange(0, k + 1).map_values(|v: int| v - (h - 1)) =~= sv.subrange(
                0,
                k as int,
            ).map_values(|v: int| v - (h - 1)).push(sv[k as int] - (h - 1)));
        }
        k = k + 1;
    }
    proof {
        assert(sv.subrange(0, sv.len() as int) =~= sv);
        let w = ints(tau@);
        assert forall|m: int| 0 <= m < w.len() implies #[trigger] w[m] > i32::MIN by {
            assert(w[m] == tau@[m]);
        }
        assert forall|a: int, b: int|
            #![trigger w[a], w[b]]
            0 <= a < b < w.len() && w[b] > w[a] implies w[b] - w[a] < i32::MAX by {
            assert(w[a] == sv[a] - (h - 1));
            assert(w[b] == sv[b] - (h - 1));
        }
    }
    let inner = if tau.len() == 0 || tau[0] == 2 {
        lprss_tail_hydra(&tau)
    } else {
        let x = lprss_tail_hydra(&tau);
        let mut v: Vec<(i64, Hydra)> = Vec::new();
        v.push((1, x));
        proof {
            lemma_view_of(v);
            assert(Hydra(v)@.terms =~= seq![(1int, x@)]);
        }
        Hydra(v)
    };
    let mut arg: Vec<(i64, Hydra)> = Vec::new();
    let mut c: i64 = 0;
    while c < h - 3
        invariant
            0 <= c,
            i32::MIN < h <= i32::MAX,
            c <= h - 3 || c == 0,
            arg@.len() == c,
            forall|m: int| 0 <= m < c ==> #[trigger] arg@[m].0 == 2 && arg@[m].1@ == hz(),
        decreases h - 3 - c,
    {
        arg.push((2, hydra_zero()));
        c = c + 1;
    }
    let Hydra(mut iv) = inner;
    let ghost a0 = arg@;
    let ghost i0 = iv@;
    proof {
        lemma_view_of(iv);
    }
    arg.append(&mut iv);
    proof {
        assert(pairs_view(arg@) =~= Seq::new(nat_of(h - 3), |k: int| (2int, hz())) + pairs_view(
            i0,
        ));
        lemma_view_of(arg);
    }
    let ha = Hydra(arg);
    let mut v: Vec<(i64, Hydra)> = Vec::new();
    v.push((2, ha));
    proof {
        lemma_view_of(v);
        assert(Hydra(v)@.terms =~= lp_seg(h as int, sv).terms);
    }
    Hydra(v)
}

/// Entries taken from `s` (past its first) at increasing positions keep
/// `lp_fit`.
proof fn lemma_chunk_fit(s: Seq<int>, from: Seq<int>, chunk: Seq<i32>)
    requires
        s.len() > 0,
        lp_fit(s.drop_first()),
        from.len() == chunk.len(),
        forall|m: int| 0 <= m < from.len() ==> 1 <= #[trigger] from[m] < s.len() && chunk[m] == s[from[m]],
        forall|a: int, b: int| 0 <= a < b < from.len() ==> #[trigger] from[a] < #[trigger] from[b],
    ensures
        lp_fit(ints(chunk)),
{
    let t = s.drop_first();
    let c = ints(chunk);
    assert forall|k: int| 0 <= k < c.len() implies #[trigger] c[k] > i32::MIN by {
        assert(c[k] == s[from[k]]);
        assert(t[from[k] - 1] == s[from[k]]);
    }
    assert forall|a: int, b: int|
        #![trigger c[a], c[b]]
        0 <= a < b < c.len() && c[b] > c[a] implies c[b] - c[a] < i32::MAX by {
        assert(c[a] == s[from[a]]);
        assert(c[b] == s[from[b]]);
        assert(from[a] < from[b]);
        assert(t[from[a] - 1] == s[from[a]]);
        assert(t[from[b] - 1] == s[from[b]]);
    }
}

/// LPrSS → PSS hydra: a `1` in the tail splits the sum; each 1-free chunk
/// contributes ψ^H_1 of its segments.
pub fn lprss_to_hydra(seq: &[i32]) -> (r: Hydra)
    requires
        seq@.len() == 0 || lp_fit(ints(seq@).drop_first()),
    ensures
        r@ == lp_to_h(ints(seq@)),
{
    let ghost s = ints(seq@);
    let len = seq.len();
    if len == 0 {
        return hydra_zero();
    }
    let mut terms: Vec<(i64, Hydra)> = Vec::new();
    let mut chunk: Vec<i32> = Vec::new();
    let mut idx: usize = 1;
    proof {
        assert(s.subrange(1, len as int) =~= s.drop_first());
        assert(ints(chunk@) =~= Seq::<int>::empty());
    }
    let ghost mut from: Seq<int> = Seq::empty();
    while idx < len
        invariant
            1 <= idx <= len == seq@.len() == s.len(),
            s == ints(seq@),
            lp_fit(s.drop_first()),
            from.len() == chunk@.len(),
            forall|m: int| 0 <= m < from.len() ==> 1 <= #[trigger] from[m] < idx && chunk@[m] == seq@[from[m]],
            forall|a: int, b: int| 0 <= a < b < from.len() ==> #[trigger] from[a] < #[trigger] from[b],
            pairs_view(terms@) + lp_split(s.subrange(idx as int, len as int), ints(chunk@))
                == lp_split(s.drop_first(), Seq::empty()),
        decreases len - idx,
    {
        let x = seq[idx];
        let ghost rest = s.subrange(idx as int, len as int);
        proof {
            assert(rest[0] == x);
            assert(rest.drop_first() =~= s.subrange(idx + 1, len as int));
        }
        proof {
            lemma_chunk_fit(s, from, chunk@);
        }
        if x == 1 {
            let th = lprss_tail_hydra(&chunk);
            let ghost t0 = terms@;
            terms.push((1, th));
            chunk = Vec::new();
            proof {
                from = Seq::empty();
                assert(ints(chunk@) =~= Seq::<int>::empty());
                assert(pairs_view(terms@) =~= pairs_view(t0) + seq![(1int, th@)]);
            }
        } else {
            let ghost c0 = ints(chunk@);
            chunk.push(x);
            proof {
                assert(ints(chunk@) =~= c0.push(x as int));
                from = from.push(idx as int);
            }
        }
        idx = idx + 1;
    }
    proof {
        lemma_chunk_fit(s, from, chunk@);
    }
    let th = lprss_tail_hydra(&chunk);
    let ghost t0 = terms@;
    terms.push((1, th));
    proof {
        assert(s.subrange(len as int, len as int).len() == 0);
        assert(pairs_view(terms@) =~= pairs_view(t0) + seq![(1int, th@)]);
        lemma_view_of(terms);
        assert(Hydra(terms)@.terms =~= lp_to_h(s).terms);
    }
    Hydra(terms)
}


/// The refusal text for an ordinal outside the LPrSS range.
pub open spec fn lp_msg(limit: bool) -> Seq<char> {
    if limit {
        "Ordinal is beyond the LPrSS limit φ(ω,0)"@
    } else {
        "Ordinal is not LPrSS-expressible (beyond the limit φ(ω,0))"@
    }
}

pub open spec fn res_ints(r: Result<Vec<i32>, bool>) -> Result<Seq<int>, bool> {
    match r {
        Ok(v) => Ok(ints(v@)),
        Err(e) => Err(e),
    }
}

pub open spec fn prep(a: Seq<int>, r: Result<Seq<int>, bool>) -> Result<Seq<int>, bool> {
    match r {
        Ok(b) => Ok(a + b),
        Err(e) => Err(e),
    }
}

pub proof fn lemma_lead2_at(ts: Seq<(int, HydraV)>, c: int)
    requires
        0 <= c <= ts.len(),
        forall|k: int| 0 <= k < c ==> ts[k] == (2int, hz()),
        c == ts.len() || ts[c] != (2int, hz()),
    ensures
        lead2(ts) == c,
    decreases c,
{
    if c > 0 {
        assert(ts[0] == (2int, hz()));
        assert forall|k: int| 0 <= k < c - 1 implies ts.drop_first()[k] == (2int, hz()) by {
            assert(ts.drop_first()[k] == ts[k + 1]);
        }
        if c < ts.len() {
            assert(ts.drop_first()[c - 1] == ts[c]);
        }
        lemma_lead2_at(ts.drop_first(), c - 1);
    }
}

/// Decodes the summands `h.0[from..]` as a sum of segments.
fn lprss_decode_range(h: &Hydra, from: usize) -> (r: Option<Result<Vec<i32>, bool>>)
    requires
        from <= h.0@.len(),
    ensures
        match r {
            None => !lp_fits_seq(h@.terms.subrange(from as int, h@.terms.len() as int)),
            Some(x) => lp_fits_seq(h@.terms.subrange(from as int, h@.terms.len() as int))
                && res_ints(x) == lp_dec_seq(h@.terms.subrange(from as int, h@.terms.len() as int)),
        },
    decreases h, 1nat,
{
    let ghost ts = h@.terms;
    let len = h.0.len();
    let mut out: Vec<i32> = Vec::new();
    let mut i: usize = from;
    proof {
        assert(ints(out@) =~= Seq::<int>::empty());
        assert(prep(Seq::empty(), lp_dec_seq(ts.subrange(from as int, len as int))) =~= lp_dec_seq(
            ts.subrange(from as int, len as int),
        )) by {
            match lp_dec_seq(ts.subrange(from as int, len as int)) {
                Ok(b) => {
                    assert(Seq::<int>::empty() + b =~= b);
                },
                Err(e) => {},
            }
        }
    }
    while i < len
        invariant
            from <= i <= len == h.0@.len() == ts.len(),
            ts == h@.terms,
            lp_fits_seq(ts.subrange(from as int, len as int)) == lp_fits_seq(
                ts.subrange(i as int, len as int),
            ),
            lp_fits_seq(ts.subrange(i as int, len as int)) ==> lp_dec_seq(
                ts.subrange(from as int, len as int),
            ) == prep(ints(out@), lp_dec_seq(ts.subrange(i as int, len as int))),
        decreases len - i,
    {
        let ghost sub = ts.subrange(i as int, len as int);
        proof {
            lemma_view_index(*h, i as int);
            assert(decreases_to!(h => h.0@[i as int].1));
            assert(sub[0] == ts[i as int]);
            assert(sub.drop_first() =~= ts.subrange(i + 1, len as int));
        }
        match lprss_decode_seg(h.0[i].0, &h.0[i].1) {
            None => {
                return None;
            },
            Some(Err(e)) => {
                return Some(Err(e));
            },
            Some(Ok(mut a)) => {
                let ghost o0 = ints(out@);
                let ghost a0 = ints(a@);
                out.append(&mut a);
                proof {
                    assert(ints(out@) =~= o0 + a0);
                    match lp_dec_seq(ts.subrange(i + 1, len as int)) {
                        Ok(b) => {
                            assert(o0 + (a0 + b) =~= o0 + a0 + b);
                        },
                        Err(e) => {},
                    }
                }
            },
        }
        i = i + 1;
    }
    proof {
        assert(ts.subrange(len as int, len as int) =~= Seq::<(int, HydraV)>::empty());
        assert(ints(out@) + Seq::<int>::empty() =~= ints(out@));
    }
    Some(Ok(out))
}

/// Decodes a tail hydra (a sum of segments) into LPrSS terms; `None`
/// when an entry would leave `i32`.
fn lprss_decode_tail(s: &Hydra) -> (r: Option<Result<Vec<i32>, bool>>)
    ensures
        match r {
            None => !lp_fits_tail(s@),
            Some(x) => lp_fits_tail(s@) && res_ints(x) == lp_dec_tail(s@),
        },
    decreases s, 2nat,
{
    proof {
        assert(s@.terms.subrange(0, s@.terms.len() as int) =~= s@.terms);
    }
    lprss_decode_range(s, 0)
}

/// Decodes one segment ψ^H_n(arg); `None` when an entry would leave `i32`.
fn lprss_decode_seg(n: i64, arg: &Hydra) -> (r: Option<Result<Vec<i32>, bool>>)
    ensures
        match r {
            None => !lp_fits_seg(n as int, arg@),
            Some(x) => lp_fits_seg(n as int, arg@) && res_ints(x) == lp_dec_seg(n as int, arg@),
        },
    decreases arg, 3nat,
{
    if n == 1 {
        match lprss_decode_tail(arg) {
            None => {
                return None;
            },
            Some(Err(e)) => {
                return Some(Err(e));
            },
            Some(Ok(t)) => {
                let ghost tv = ints(t@);
                proof {
                    assert(lp_fits_tail(arg@) && lp_dec_tail(arg@) == Ok::<Seq<int>, bool>(tv));
                }
                let mut seg: Vec<i32> = Vec::new();
                seg.push(2);
                let mut k: usize = 0;
                while k < t.len()
                    invariant
                        k <= t@.len(),
                        tv == ints(t@),
                        n == 1,
                        lp_fits_tail(arg@) && lp_dec_tail(arg@) == Ok::<Seq<int>, bool>(tv),
                        forall|m: int| 0 <= m < k ==> #[trigger] tv[m] < i32::MAX,
                        ints(seg@) == seq![2int] + tv.subrange(0, k as int).map_values(
                            |v: int| v + 1,
                        ),
                    decreases t.len() - k,
                {
                    proof {
                        assert(tv[k as int] == t@[k as int]);
                    }
                    if t[k] == i32::MAX {
                        return None;
                    }
                    let ghost before = ints(seg@);
                    seg.push(t[k] + 1);
                    proof {
                        assert(ints(seg@) =~= before.push(t@[k as int] + 1));
                        assert(tv.subrange(0, k + 1).map_values(|v: int| v + 1) =~= tv.subrange(
                            0,
                            k as int,
                        ).map_values(|v: int| v + 1).push(tv[k as int] + 1));
                    }
                    k = k + 1;
                }
                proof {
                    assert(tv.subrange(0, tv.len() as int) =~= tv);
                }
                return Some(Ok(seg));
            },
        }
    }
    if n != 2 {
        return Some(Err(false));
    }
    let ghost ts = arg@.terms;
    let len = arg.0.len();
    let mut c: usize = 0;
    while c < len && arg.0[c].0 == 2 && arg.0[c].1.0.len() == 0
        invariant
            c <= len == arg.0@.len() == ts.len(),
            ts == arg@.terms,
            forall|k: int| 0 <= k < c ==> ts[k] == (2int, hz()),
        decreases len - c,
    {
        proof {
            lemma_view_index(*arg, c as int);
            assert(arg.0@[c as int].1@.terms =~= Seq::<(int, HydraV)>::empty());
        }
        c = c + 1;
    }
    proof {
        if c < len {
            lemma_view_index(*arg, c as int);
        }
        lemma_lead2_at(ts, c as int);
        lemma_lead2(ts);
    }
    if c > 2147483644 {
        return None;
    }
    let h: i64 = 3 + c as i64;
    let ghost x = ts.subrange(c as int, len as int);
    let tau: Option<Result<Vec<i32>, bool>> = if c == len {
        let e: Vec<i32> = Vec::new();
        proof {
            assert(ints(e@) =~= Seq::<int>::empty());
        }
        Some(Ok(e))
    } else {
        let mut bad: bool = false;
        let mut k: usize = c;
        while k < len
            invariant
                c <= k <= len == arg.0@.len() == ts.len(),
                ts == arg@.terms,
                x == ts.subrange(c as int, len as int),
                bad == exists|m: int| 0 <= m < k - c && #[trigger] x[m].0 != 1,
            decreases len - k,
        {
            proof {
                lemma_view_index(*arg, k as int);
                assert(x[k - c] == ts[k as int]);
            }
            if arg.0[k].0 != 1 {
                bad = true;
                proof {
                    assert(x[k - c].0 != 1);
                }
            } else {
                proof {
                    if bad {
                        let m0 = choose|m: int| 0 <= m < k - c && #[trigger] x[m].0 != 1;
                        assert(0 <= m0 < k + 1 - c && x[m0].0 != 1);
                    } else {
                        assert forall|m: int| 0 <= m < k + 1 - c implies #[trigger] x[m].0 == 1 by {
                            if m == k - c {
                            }
                        }
                    }
                }
            }
            k = k + 1;
        }
        proof {
            lemma_view_index(*arg, c as int);
            assert(x[0] == ts[c as int]);
        }
        if bad || arg.0[c].0 == 2 {
            Some(Err(true))
        } else if len - c == 1 && arg.0[c].1.0.len() > 0 && arg.0[c].1.0[0].0 == 2 {
            proof {
                lemma_view_index(arg.0@[c as int].1, 0);
                assert(decreases_to!(arg => arg.0@[c as int].1));
            }
            lprss_decode_tail(&arg.0[c].1)
        } else {
            proof {
                if arg.0[c as int].1.0@.len() > 0 {
                    lemma_view_index(arg.0@[c as int].1, 0);
                }
            }
            lprss_decode_range(arg, c)
        }
    };
    match tau {
        None => None,
        Some(Err(e)) => Some(Err(e)),
        Some(Ok(t)) => {
            let ghost tv = ints(t@);
            proof {
                assert(lp_fits_seg(n as int, arg@) <==> (forall|m: int|
                    0 <= m < tv.len() ==> #[trigger] tv[m] + h <= i32::MAX));
            }
            let off: i32 = (h - 1) as i32;
            let mut seg: Vec<i32> = Vec::new();
            seg.push(h as i32);
            let mut k: usize = 0;
            while k < t.len()
                invariant
                    k <= t@.len(),
                    tv == ints(t@),
                    3 <= h <= i32::MAX,
                    off == h - 1,
                    lp_fits_seg(n as int, arg@) <==> (forall|m: int|
                        0 <= m < tv.len() ==> #[trigger] tv[m] + h <= i32::MAX),
                    forall|m: int| 0 <= m < k ==> #[trigger] tv[m] + h <= i32::MAX,
                    ints(seg@) == seq![h as int] + tv.subrange(0, k as int).map_values(
                        |v: int| v + h - 1,
                    ),
                decreases t.len() - k,
            {
                proof {
                    assert(tv[k as int] == t@[k as int]);
                }
                if t[k] > i32::MAX - h as i32 {
                    return None;
                }
                let ghost before = ints(seg@);
                seg.push(t[k] + off);
                proof {
                    assert(ints(seg@) =~= before.push(t@[k as int] + h - 1));
                    assert(tv.subrange(0, k + 1).map_values(|v: int| v + h - 1) =~= tv.subrange(
                        0,
                        k as int,
                    ).map_values(|v: int| v + h - 1).push(tv[k as int] + h - 1));
                }
                k = k + 1;
            }
            proof {
                assert(tv.subrange(0, tv.len() as int) =~= tv);
            }
            Some(Ok(seg))
        },
    }
}

/// PSS hydra → LPrSS (the standard LPrSS form of the ordinal); refused for
/// ordinals outside the LPrSS range (at or above φ(ω,0)).
pub fn hydra_to_lprss(h: &Hydra) -> (r: Result<Vec<i32>, String>)
    requires
        h_lp_fits_seq(h@.terms),
    ensures
        match r {
            Ok(v) => h_to_lp(h@) == Ok::<Seq<int>, bool>(ints(v@)),
            Err(m) => h_to_lp(h@) matches Err(b) && m@ == lp_msg(b),
        },
{
    let len = h.0.len();
    if len == 0 {
        let e: Vec<i32> = Vec::new();
        proof {
            assert(ints(e@) =~= Seq::<int>::empty());
        }
        return Ok(e);
    }
    let ghost ts = h@.terms;
    let mut out: Vec<i32> = Vec::new();
    let mut i: usize = 0;
    proof {
        assert(ts.subrange(0, len as int) =~= ts);
        assert(prep(Seq::empty(), h_to_lp_seq(ts)) =~= h_to_lp_seq(ts)) by {
            match h_to_lp_seq(ts) {
                Ok(b) => {
                    assert(Seq::<int>::empty() + b =~= b);
                },
                Err(e) => {},
            }
        }
        assert(ints(out@) =~= Seq::<int>::empty());
    }
    while i < len
        invariant
            i <= len == h.0@.len() == ts.len(),
            len > 0,
            ts == h@.terms,
            h_lp_fits_seq(ts.subrange(i as int, len as int)),
            h_to_lp(h@) == prep(ints(out@), h_to_lp_seq(ts.subrange(i as int, len as int))),
        decreases len - i,
    {
        let ghost sub = ts.subrange(i as int, len as int);
        proof {
            lemma_view_index(*h, i as int);
            assert(sub[0] == ts[i as int]);
            assert(sub.drop_first() =~= ts.subrange(i + 1, len as int));
        }
        if h.0[i].0 != 1 {
            let m = lit("Ordinal is not LPrSS-expressible (beyond the limit φ(ω,0))");
            return Err(m);
        }
        match lprss_decode_tail(&h.0[i].1) {
            None => {
                return Err(String::new());
            },
            Some(Err(e)) => {
                let m = if e {
                    lit("Ordinal is beyond the LPrSS limit φ(ω,0)")
                } else {
                    lit("Ordinal is not LPrSS-expressible (beyond the limit φ(ω,0))")
                };
                return Err(m);
            },
            Some(Ok(mut t)) => {
                let ghost o0 = ints(out@);
                let ghost t0 = ints(t@);
                out.push(1);
                out.append(&mut t);
                proof {
                    assert(ints(out@) =~= o0 + seq![1int] + t0);
                    match h_to_lp_seq(ts.subrange(i + 1, len as int)) {
                        Ok(b) => {
                            assert(o0 + (seq![1int] + t0 + b) =~= o0 + seq![1int] + t0 + b);
                        },
                        Err(e) => {},
                    }
                }
            },
        }
        i = i + 1;
    }
    proof {
        assert(ts.subrange(len as int, len as int) =~= Seq::<(int, HydraV)>::empty());
        assert(ints(out@) + Seq::<int>::empty() =~= ints(out@));
    }
    Ok(out)
}


/// Whether every addition `hydra_to_lprss` makes stays within `i32`.
pub fn hydra_lprss_fits(h: &Hydra) -> (r: bool)
    ensures
        r == h_lp_fits_seq(h@.terms),
{
    let ghost ts = h@.terms;
    let len = h.0.len();
    let mut i: usize = 0;
    proof {
        assert(ts.subrange(0, len as int) =~= ts);
    }
    while i < len
        invariant
            i <= len == h.0@.len() == ts.len(),
            ts == h@.terms,
            h_lp_fits_seq(ts) == h_lp_fits_seq(ts.subrange(i as int, len as int)),
        decreases len - i,
    {
        let ghost sub = ts.subrange(i as int, len as int);
        proof {
            lemma_view_index(*h, i as int);
            assert(sub[0] == ts[i as int]);
            assert(sub.drop_first() =~= ts.subrange(i + 1, len as int));
        }
        if h.0[i].0 != 1 {
            return true;
        }
        match lprss_decode_tail(&h.0[i].1) {
            None => {
                return false;
            },
            Some(Err(_)) => {
                return true;
            },
            Some(Ok(_)) => {},
        }
        i = i + 1;
    }
    proof {
        assert(ts.subrange(len as int, len as int) =~= Seq::<(int, HydraV)>::empty());
    }
    true
}

/// `hydra_to_lprss` where its additions stay within `i32`, else `None`.
pub fn hydra_to_lprss_checked(h: &Hydra) -> (r: Option<Result<Vec<i32>, String>>)
    ensures
        match r {
            None => !h_lp_fits_seq(h@.terms),
            Some(Ok(v)) => h_to_lp(h@) == Ok::<Seq<int>, bool>(ints(v@)),
            Some(Err(m)) => h_to_lp(h@) matches Err(b) && m@ == lp_msg(b),
        },
{
    if hydra_lprss_fits(h) {
        Some(hydra_to_lprss(h))
    } else {
        None
    }
}

// ============================================================
// BMS ↔ hydra
// ============================================================

/// End of the segment of `p` that starts at `i`: the next column at depth 0.
pub open spec fn seg_end(p: Seq<(int, int)>, j: int) -> int
    decreases p.len() - j,
{
    if 0 <= j < p.len() && p[j].0 != 0 {
        seg_end(p, j + 1)
    } else {
        j
    }
}

pub proof fn lemma_seg_end(p: Seq<(int, int)>, j: int)
    requires
        0 <= j <= p.len(),
    ensures
        j <= seg_end(p, j) <= p.len(),
        forall|k: int| j <= k < seg_end(p, j) ==> (#[trigger] p[k]).0 != 0,
        seg_end(p, j) < p.len() ==> p[seg_end(p, j)].0 == 0,
    decreases p.len() - j,
{
    if j < p.len() && p[j].0 != 0 {
        lemma_seg_end(p, j + 1);
    }
}

/// Two-row BMS (first two entries of each column) → hydra summands: a
/// column (0,k) starts ψ^H_{k+1} of the columns up to the next depth-0
/// column, one level shallower. `None`: a segment does not start at depth 0.
pub open spec fn bh(p: Seq<(int, int)>) -> Option<Seq<(int, HydraV)>>
    decreases p.len(),
{
    if p.len() == 0 {
        Some(Seq::empty())
    } else if p[0].0 != 0 {
        None
    } else {
        let j = seg_end(p, 1);
        proof {
            lemma_seg_end(p, 1);
        }
        let arg = p.subrange(1, j).map_values(|c: (int, int)| (c.0 - 1, c.1));
        match bh(arg) {
            None => None,
            Some(a) => match bh(p.subrange(j, p.len() as int)) {
                None => None,
                Some(rest) => Some(seq![(p[0].1 + 1, HydraV { terms: a })] + rest),
            },
        }
    }
}

/// The first two entries of every column.
pub open spec fn two_rows(m: Seq<Seq<int>>) -> Seq<(int, int)> {
    m.map_values(|c: Seq<int>| (c[0], c[1]))
}

/// The first refusal among the columns `i..`: too short, or negative.
pub open spec fn bms_input_err(m: Seq<Seq<int>>, i: int) -> Option<Seq<char>>
    decreases m.len() - i,
{
    if i < 0 || i >= m.len() {
        None
    } else if m[i].len() < 2 {
        Some("BMS input must be 2-row"@)
    } else if m[i][0] < 0 || m[i][1] < 0 {
        Some("BMS input has negative entries"@)
    } else {
        bms_input_err(m, i + 1)
    }
}

/// 2-row BMS → hydra.
pub open spec fn bms_to_h(m: Seq<Seq<int>>) -> Result<HydraV, Seq<char>> {
    match bms_input_err(m, 0) {
        Some(e) => Err(e),
        None => match bh(two_rows(m)) {
            None => Err("BMS input is not a valid 2-row matrix"@),
            Some(t) => Ok(HydraV { terms: t }),
        },
    }
}

pub open spec fn pairs64(v: Seq<(i64, i64)>) -> Seq<(int, int)> {
    v.map_values(|c: (i64, i64)| (c.0 as int, c.1 as int))
}

pub open spec fn opt_prepend(a: Seq<(int, HydraV)>, r: Option<Seq<(int, HydraV)>>) -> Option<
    Seq<(int, HydraV)>,
> {
    match r {
        None => None,
        Some(b) => Some(a + b),
    }
}

fn bms_to_hydra_aux(p: &Vec<(i64, i64)>) -> (r: Option<Hydra>)
    requires
        forall|k: int| 0 <= k < p@.len() ==> 0 <= (#[trigger] p@[k]).0 <= i32::MAX && 0 <= p@[k].1
            <= i32::MAX,
    ensures
        match r {
            Some(h) => bh(pairs64(p@)) == Some(h@.terms),
            None => bh(pairs64(p@)) is None,
        },
    decreases p@.len(),
{
    let ghost pv = pairs64(p@);
    let len = p.len();
    let mut terms: Vec<(i64, Hydra)> = Vec::new();
    let mut i: usize = 0;
    proof {
        assert(pv.subrange(0, len as int) =~= pv);
        assert(opt_prepend(Seq::empty(), bh(pv)) =~= bh(pv)) by {
            match bh(pv) {
                Some(b) => {
                    assert(Seq::<(int, HydraV)>::empty() + b =~= b);
                },
                None => {},
            }
        }
        assert(pairs_view(terms@) =~= Seq::<(int, HydraV)>::empty());
    }
    while i < len
        invariant
            i <= len == p@.len() == pv.len(),
            pv == pairs64(p@),
            forall|k: int| 0 <= k < p@.len() ==> 0 <= (#[trigger] p@[k]).0 <= i32::MAX && 0 <= p@[k].1
                <= i32::MAX,
            bh(pv) == opt_prepend(pairs_view(terms@), bh(pv.subrange(i as int, len as int))),
        decreases len - i,
    {
        let ghost rest = pv.subrange(i as int, len as int);
        if p[i].0 != 0 {
            proof {
                assert(rest[0] == pv[i as int]);
            }
            return None;
        }
        let n = p[i].1 + 1;
        let mut j: usize = i + 1;
        proof {
            lemma_seg_end(rest, 1);
        }
        while j < len && p[j].0 != 0
            invariant
                i < j <= len == p@.len() == pv.len(),
                pv == pairs64(p@),
                rest == pv.subrange(i as int, len as int),
                seg_end(rest, (j - i) as int) == seg_end(rest, 1),
            decreases len - j,
        {
            proof {
                assert(rest[j - i] == pv[j as int]);
            }
            j = j + 1;
        }
        proof {
            if j < len {
                assert(rest[j - i] == pv[j as int]);
            }
            assert(seg_end(rest, (j - i) as int) == j - i);
            assert forall|t: int| i < t < j implies (#[trigger] p@[t]).0 != 0 by {
                assert(rest[t - i] == pv[t]);
            }
        }
        let mut arg: Vec<(i64, i64)> = Vec::new();
        let mut k: usize = i + 1;
        while k < j
            invariant
                i < k <= j <= len == p@.len() == pv.len(),
                pv == pairs64(p@),
                forall|t: int| i < t < j ==> (#[trigger] p@[t]).0 != 0,
                forall|t: int| 0 <= t < p@.len() ==> 0 <= (#[trigger] p@[t]).0 <= i32::MAX && 0 <= p@[t].1
                    <= i32::MAX,
                pairs64(arg@) == pv.subrange(i + 1, k as int).map_values(
                    |c: (int, int)| (c.0 - 1, c.1),
                ),
                forall|t: int| 0 <= t < arg@.len() ==> 0 <= (#[trigger] arg@[t]).0 <= i32::MAX && 0
                    <= arg@[t].1 <= i32::MAX,
            decreases j - k,
        {
            let ghost a0 = arg@;
            arg.push((p[k].0 - 1, p[k].1));
            proof {
                assert(pairs64(arg@) =~= pairs64(a0).push((pv[k as int].0 - 1, pv[k as int].1)));
                assert(pv.subrange(i + 1, k + 1).map_values(|c: (int, int)| (c.0 - 1, c.1))
                    =~= pv.subrange(i + 1, k as int).map_values(|c: (int, int)| (c.0 - 1, c.1)).push(
                    (pv[k as int].0 - 1, pv[k as int].1),
                ));
            }
            k = k + 1;
        }
        proof {
            assert(rest.subrange(1, (j - i) as int) =~= pv.subrange(i + 1, j as int));
            assert(rest.subrange((j - i) as int, rest.len() as int) =~= pv.subrange(
                j as int,
                len as int,
            ));
            assert(rest[0] == pv[i as int]);
        }
        let arg_h = match bms_to_hydra_aux(&arg) {
            None => {
                return None;
            },
            Some(h) => h,
        };
        let ghost t0 = pairs_view(terms@);
        terms.push((n, arg_h));
        proof {
            assert(pairs_view(terms@) =~= t0 + seq![(n as int, arg_h@)]);
            assert(arg_h@ == HydraV { terms: arg_h@.terms });
            match bh(pv.subrange(j as int, len as int)) {
                Some(b) => {
                    assert(t0 + (seq![(n as int, arg_h@)] + b) =~= t0 + seq![(n as int, arg_h@)] + b);
                },
                None => {},
            }
        }
        i = j;
    }
    proof {
        assert(pv.subrange(len as int, len as int) =~= Seq::<(int, int)>::empty());
        lemma_view_of(terms);
        assert(pairs_view(terms@) + Seq::<(int, HydraV)>::empty() =~= pairs_view(terms@));
    }
    Some(Hydra(terms))
}

/// 2-row BMS → hydra. First-row values are the nesting depth; each (0,k)
/// column is ψ^H_{k+1}(subtree). Refuses matrices that are not 2-row ones.
pub fn bms_to_hydra(m: &Matrix) -> (r: Result<Hydra, String>)
    ensures
        match r {
            Ok(h) => bms_to_h(mat(m@)) == Ok::<HydraV, Seq<char>>(h@),
            Err(e) => bms_to_h(mat(m@)) == Err::<HydraV, Seq<char>>(e@),
        },
{
    let ghost mm = mat(m@);
    let len = m.len();
    let mut i: usize = 0;
    while i < len
        invariant
            i <= len == m@.len() == mm.len(),
            mm == mat(m@),
            bms_input_err(mm, 0) == bms_input_err(mm, i as int),
            forall|k: int| 0 <= k < i ==> (#[trigger] mm[k]).len() >= 2 && mm[k][0] >= 0 && mm[k][1] >= 0,
        decreases len - i,
    {
        let col = &m[i];
        proof {
            assert(mm[i as int] == col@.map_values(|x: i32| x as int));
        }
        if col.len() < 2 {
            return Err(lit("BMS input must be 2-row"));
        }
        if col[0] < 0 || col[1] < 0 {
            return Err(lit("BMS input has negative entries"));
        }
        i = i + 1;
    }
    let mut p: Vec<(i64, i64)> = Vec::new();
    let mut k: usize = 0;
    while k < len
        invariant
            k <= len == m@.len() == mm.len(),
            mm == mat(m@),
            forall|t: int| 0 <= t < len ==> (#[trigger] mm[t]).len() >= 2 && mm[t][0] >= 0 && mm[t][1] >= 0,
            pairs64(p@) == two_rows(mm).take(k as int),
            forall|t: int| 0 <= t < p@.len() ==> 0 <= (#[trigger] p@[t]).0 <= i32::MAX && 0 <= p@[t].1
                <= i32::MAX,
        decreases len - k,
    {
        let ghost p0 = p@;
        proof {
            assert(mm[k as int] == m@[k as int]@.map_values(|x: i32| x as int));
        }
        p.push((m[k][0] as i64, m[k][1] as i64));
        proof {
            assert(two_rows(mm)[k as int] == (mm[k as int][0], mm[k as int][1]));
            assert(mm[k as int][0] == m@[k as int]@[0] as int);
            assert(mm[k as int][1] == m@[k as int]@[1] as int);
            assert(pairs64(p@) =~= pairs64(p0).push((m@[k as int]@[0] as int, m@[k as int]@[1] as int)));
            assert(two_rows(mm).take(k + 1) =~= two_rows(mm).take(k as int).push(two_rows(mm)[k as int]));
            assert(pairs64(p@) =~= two_rows(mm).take(k + 1));
        }
        k = k + 1;
    }
    proof {
        assert(two_rows(mm).take(len as int) =~= two_rows(mm));
        assert(bms_input_err(mm, len as int) is None);
    }
    match bms_to_hydra_aux(&p) {
        None => Err(lit("BMS input is not a valid 2-row matrix")),
        Some(h) => {
            proof {
                assert(h@ == HydraV { terms: h@.terms });
            }
            Ok(h)
        },
    }
}

/// Standard BMS of a hydra: hydra → standard-form BOCF → BMS search.
pub fn hydra_to_bms(h: &Hydra) -> (r: Result<Matrix, String>)
    requires
        h_subs_in(h@, i64::MIN + 1, i64::MAX as int),
    ensures
        r matches Ok(m) ==> bms_value(mat(m@)) == Some(
            spec_standard_form(spec_standard_form(h_to_term(h@))),
        ),
        bms_result_view(r) == term_bms_spec(spec_standard_form(h_to_term(h@))),
{
    term_to_bms(&hydra_to_bocf(h))
}


/// The subscripts of `hp_to_h(s)` are terms of `s` or positive differences
/// of them.
pub proof fn lemma_hp_subs(s: Seq<int>, lo: int, hi: int)
    requires
        forall|k: int| 0 <= k < s.len() ==> lo <= #[trigger] s[k] <= hi,
        -0x8000_0000 <= lo,
        hi <= 0xffff_ffff,
        hi - lo <= 0xffff_ffff,
    ensures
        h_subs_in(hp_to_h(s), -0x8000_0000, 0xffff_ffff),
    decreases s.len(), 1nat, 0int,
{
    lemma_hp_blocks_subs(s, 0, lo, hi);
}

pub proof fn lemma_hp_blocks_subs(s: Seq<int>, i: int, lo: int, hi: int)
    requires
        forall|k: int| 0 <= k < s.len() ==> lo <= #[trigger] s[k] <= hi,
        -0x8000_0000 <= lo,
        hi <= 0xffff_ffff,
        hi - lo <= 0xffff_ffff,
        0 <= i,
    ensures
        h_subs_in_seq(hp_h_blocks(s, i), -0x8000_0000, 0xffff_ffff),
    decreases s.len(), 0nat, s.len() - i,
{
    if i < s.len() {
        let j = next_le(s, i, i + 1);
        lemma_next_le(s, i, i + 1);
        let inner = s.subrange(i + 1, j).map_values(|v: int| v - s[i]);
        assert forall|k: int| 0 <= k < inner.len() implies 1 <= #[trigger] inner[k] <= hi - lo by {
            assert(inner[k] == s[i + 1 + k] - s[i]);
            assert(s[i + 1 + k] > s[i]);
        }
        lemma_hp_subs(inner, 1, hi - lo);
        lemma_hp_blocks_subs(s, j, lo, hi);
        let b = hp_h_blocks(s, i);
        assert(b == seq![(s[i], hp_to_h(inner))] + hp_h_blocks(s, j));
        assert(b.drop_first() =~= hp_h_blocks(s, j));
    }
}

/// HPrSS → hydra → HPrSS gives the sequence back: each term starts a
/// summand with that term as its subscript, and the LP of the summand's
/// argument, raised again by the term, is the run of larger terms after it.
/// The sums stay within `i32` on the way back.
pub proof fn lemma_hprss_round_trip(s: Seq<int>)
    requires
        forall|k: int| 0 <= k < s.len() ==> in_i32(#[trigger] s[k]),
        diffs_fit(s),
    ensures
        hp_fits(hp_to_h(s)),
        h_to_hp(hp_to_h(s)) == s,
    decreases s.len(), 1nat, 0int,
{
    lemma_hp_blocks_round_trip(s, 0);
    assert(s.subrange(0, s.len() as int) =~= s);
}

proof fn lemma_hp_blocks_round_trip(s: Seq<int>, i: int)
    requires
        forall|k: int| 0 <= k < s.len() ==> in_i32(#[trigger] s[k]),
        diffs_fit(s),
        0 <= i <= s.len(),
    ensures
        hp_fits_seq(hp_h_blocks(s, i)),
        h_to_hp_seq(hp_h_blocks(s, i)) == s.subrange(i, s.len() as int),
    decreases s.len(), 0nat, s.len() - i,
{
    if i < s.len() {
        let j = next_le(s, i, i + 1);
        lemma_next_le(s, i, i + 1);
        let inner = s.subrange(i + 1, j).map_values(|v: int| v - s[i]);
        assert forall|k: int| 0 <= k < inner.len() implies in_i32(#[trigger] inner[k]) by {
            assert(inner[k] == s[i + 1 + k] - s[i]);
            assert(s[i + 1 + k] > s[i]);
            assert(in_i32(s[i + 1 + k] - s[i]));
        }
        assert forall|a: int, b: int| 0 <= a < b < inner.len() && inner[b] > inner[a] implies in_i32(
            #[trigger] (inner[b] - inner[a]),
        ) by {
            assert(inner[b] - inner[a] == s[i + 1 + b] - s[i + 1 + a]);
            assert(in_i32(s[i + 1 + b] - s[i + 1 + a]));
        }
        lemma_hprss_round_trip(inner);
        lemma_hp_blocks_round_trip(s, j);
        let bl = hp_h_blocks(s, i);
        assert(bl == seq![(s[i], hp_to_h(inner))] + hp_h_blocks(s, j));
        assert(bl[0] == (s[i], hp_to_h(inner)));
        assert(bl.drop_first() =~= hp_h_blocks(s, j));
        assert(tr32(s[i]) == s[i]);
        let up = h_to_hp(hp_to_h(inner)).map_values(|x: int| x + tr32(s[i]));
        assert(up =~= s.subrange(i + 1, j));
        assert(h_to_hp_seq(bl) == seq![tr32(s[i])] + up + h_to_hp_seq(bl.drop_first()));
        assert(h_to_hp_seq(bl) =~= s.subrange(i, s.len() as int));
        assert forall|k: int| 0 <= k < h_to_hp(bl[0].1).len() implies in_i32(
            #[trigger] h_to_hp(bl[0].1)[k] + tr32(bl[0].0),
        ) by {
            assert(h_to_hp(bl[0].1)[k] + tr32(bl[0].0) == s[i + 1 + k]);
        }
    } else {
        assert(s.subrange(i, s.len() as int) =~= Seq::<int>::empty());
    }
}

/// A formatted hydra starts with a summand marker or `0` and ends with `)`
/// or `0`.
proof fn lemma_fmt_shape(v: HydraV, psi: bool)
    ensures
        h_fmt(v, psi).len() >= 1,
        h_fmt(v, psi)[0] == '0' || h_fmt(v, psi)[0] == 'p' || h_fmt(v, psi)[0] == 'ψ',
        h_fmt(v, psi).last() == '0' || h_fmt(v, psi).last() == ')',
    decreases v,
{
    reveal_strlit("0");
    if v.terms.len() > 0 {
        lemma_fmt_terms_shape(v.terms, psi);
    }
}

proof fn lemma_fmt_terms_shape(ts: Seq<(int, HydraV)>, psi: bool)
    requires
        ts.len() > 0,
    ensures
        h_fmt_terms(ts, psi).len() >= 1,
        h_fmt_terms(ts, psi)[0] == (if psi { 'ψ' } else { 'p' }),
        h_fmt_terms(ts, psi).last() == ')',
    decreases ts,
{
    reveal_strlit("ψ^H_");
    reveal_strlit("p");
    reveal_strlit("(");
    reveal_strlit(")");
    reveal_strlit("+");
    let mk: Seq<char> = if psi {
        "ψ^H_"@
    } else {
        "p"@
    };
    let head = mk + int_str(ts[0].0) + "("@ + h_fmt(ts[0].1, psi) + ")"@;
    if ts.len() > 1 {
        lemma_fmt_terms_shape(ts.drop_first(), psi);
        let rest = "+"@ + h_fmt_terms(ts.drop_first(), psi);
        assert(h_fmt_terms(ts, psi) == head + rest);
        assert((head + rest).last() == rest.last());
    } else {
        assert(h_fmt_terms(ts, psi) == head + Seq::<char>::empty());
        assert(head + Seq::<char>::empty() =~= head);
    }
    assert(head[0] == mk[0]);
}

/// Parsing the text of a hydra whose subscripts are all at least 1, placed
/// at `pos` and followed by `)` or the end, reads exactly that text and
/// gives its summands.
proof fn lemma_parse_fmt(s: Seq<char>, pos: int, v: HydraV, acc: Seq<(int, HydraV)>, psi: bool)
    requires
        h_subs_in(v, 1, i64::MAX as int),
        0 <= pos,
        pos + h_fmt(v, psi).len() <= s.len(),
        s.subrange(pos, pos + h_fmt(v, psi).len()) == h_fmt(v, psi),
        pos + h_fmt(v, psi).len() == s.len() || s[pos + h_fmt(v, psi).len()] == ')',
    ensures
        sp_expr(s, pos, acc) == Some((acc + v.terms, pos + h_fmt(v, psi).len())),
    decreases v,
{
    reveal_strlit("0");
    if v.terms.len() == 0 {
        let e = pos + 1;
        assert(s[pos] == s.subrange(pos, e)[0]);
        assert(s[pos] == '0');
        assert(skip_ws_from(s, pos) == pos);
        lemma_digits_end_at(s, pos, e);
        assert(skip_ws_from(s, e) == e);
        assert(acc + v.terms =~= acc);
    } else {
        lemma_parse_fmt_terms(s, pos, v.terms, acc, psi);
    }
}

#[verifier::spinoff_prover]
#[verifier::rlimit(40)]
proof fn lemma_parse_fmt_terms(
    s: Seq<char>,
    pos: int,
    ts: Seq<(int, HydraV)>,
    acc: Seq<(int, HydraV)>,
    psi: bool,
)
    requires
        ts.len() > 0,
        h_subs_in_seq(ts, 1, i64::MAX as int),
        0 <= pos,
        pos + h_fmt_terms(ts, psi).len() <= s.len(),
        s.subrange(pos, pos + h_fmt_terms(ts, psi).len()) == h_fmt_terms(ts, psi),
        pos + h_fmt_terms(ts, psi).len() == s.len() || s[pos + h_fmt_terms(ts, psi).len()]
            == ')',
    ensures
        sp_expr(s, pos, acc) == Some((acc + ts, pos + h_fmt_terms(ts, psi).len())),
    decreases ts,
{
    reveal_strlit("ψ^H_");
    reveal_strlit("p");
    reveal_strlit("(");
    reveal_strlit(")");
    reveal_strlit("+");
    let n = ts[0].0;
    let child = ts[0].1;
    let mk: Seq<char> = if psi {
        "ψ^H_"@
    } else {
        "p"@
    };
    let num = int_str(n);
    let fc = h_fmt(child, psi);
    let tail: Seq<char> = if ts.len() > 1 {
        "+"@ + h_fmt_terms(ts.drop_first(), psi)
    } else {
        Seq::empty()
    };
    let f = h_fmt_terms(ts, psi);
    assert(f == mk + num + "("@ + fc + ")"@ + tail);
    assert(num == nat_str(n as nat));
    let a = pos + mk.len();
    let b = a + num.len();
    let c = b + 1;
    let d = c + fc.len();
    let e = d + 1;
    let fs = s.subrange(pos, pos + f.len());
    assert forall|k: int| 0 <= k < f.len() implies s[pos + k] == #[trigger] f[k] by {
        assert(s[pos + k] == fs[k]);
    }
    assert(s[pos] == f[0]);
    assert(f[0] == mk[0]);
    if psi {
        assert(s[pos + 1] == f[1] && s[pos + 2] == f[2] && s[pos + 3] == f[3]);
        assert(psi_marker_end(s, pos) == a);
    }
    assert(s.subrange(a, b) =~= num) by {
        assert forall|k: int| 0 <= k < num.len() implies s.subrange(a, b)[k] == num[k] by {
            assert(f[mk.len() + k] == num[k]);
            assert(s[pos + (mk.len() + k)] == f[mk.len() + k]);
        }
    }
    assert(s[b] == '(') by {
        assert(f[b - pos] == '(');
        assert(s[pos + (b - pos)] == f[b - pos]);
    }
    assert(s[d] == ')') by {
        assert(f[d - pos] == ')');
        assert(s[pos + (d - pos)] == f[d - pos]);
    }
    assert(s.subrange(c, d) =~= fc) by {
        assert forall|k: int| 0 <= k < fc.len() implies s.subrange(c, d)[k] == fc[k] by {
            assert(f[c - pos + k] == fc[k]);
            assert(s[pos + (c - pos + k)] == f[c - pos + k]);
        }
    }
    lemma_nat_str_val(s, a, n as nat);
    lemma_digits_end_at(s, a, b);
    assert(sp_num(s, a) == Some((n, b)));
    assert(skip_ws_from(s, pos) == pos);
    assert(skip_ws_from(s, b) == b);
    lemma_parse_fmt(s, c, child, Seq::empty(), psi);
    assert(Seq::<(int, HydraV)>::empty() + child.terms =~= child.terms);
    assert(skip_ws_from(s, d) == d);
    let acc2 = acc.push((n, child));
    assert(HydraV { terms: child.terms } == child);
    if ts.len() == 1 {
        assert(e == pos + f.len());
        assert(skip_ws_from(s, e) == e);
        assert(acc + ts =~= acc2);
    } else {
        let rest = ts.drop_first();
        let fr = h_fmt_terms(rest, psi);
        assert(s[e] == '+') by {
            assert(f[e - pos] == '+');
            assert(s[pos + (e - pos)] == f[e - pos]);
        }
        assert(s.subrange(e + 1, e + 1 + fr.len()) =~= fr) by {
            assert forall|k: int| 0 <= k < fr.len() implies s.subrange(e + 1, e + 1 + fr.len())[k]
                == fr[k] by {
                assert(f[e + 1 - pos + k] == fr[k]);
                assert(s[pos + (e + 1 - pos + k)] == f[e + 1 - pos + k]);
            }
        }
        assert(e + 1 + fr.len() == pos + f.len());
        lemma_parse_fmt_terms(s, e + 1, rest, acc2, psi);
        assert(skip_ws_from(s, e) == e);
        assert(sp_expr(s, e, acc2) == sp_expr(s, e + 1, acc2));
        assert(acc2 + rest =~= acc + ts);
    }
}

/// Reading back the text of a hydra gives the hydra again, in either
/// notation (`pn(…)` or `ψ^H_n(…)`), when every subscript is at least 1.
pub proof fn lemma_format_parse_round_trip(v: HydraV, psi: bool)
    requires
        h_subs_in(v, 1, i64::MAX as int),
    ensures
        sp_parse(h_fmt(v, psi)) == Some(v),
{
    let s = h_fmt(v, psi);
    lemma_fmt_shape(v, psi);
    assert(skip_ws_from(s, 0) == 0);
    assert(trim_end_from(s, s.len() as int) == s.len());
    assert(spec_trim(s) =~= s);
    assert(s.subrange(0, s.len() as int) =~= s);
    lemma_parse_fmt(s, 0, v, Seq::empty(), psi);
    assert(Seq::<(int, HydraV)>::empty() + v.terms =~= v.terms);
    assert(HydraV { terms: v.terms } == v);
}

/// Convenience: HPrSS → standard BMS.
pub fn hprss_to_bms(seq: &[i32]) -> (r: Result<Matrix, String>)
    requires
        diffs_fit(ints(seq@)),
    ensures
        r matches Ok(m) ==> bms_value(mat(m@)) == Some(
            spec_standard_form(spec_standard_form(h_to_term(hp_to_h(ints(seq@))))),
        ),
        bms_result_view(r) == term_bms_spec(spec_standard_form(h_to_term(hp_to_h(ints(seq@))))),
{
    let h = hprss_to_hydra(seq);
    proof {
        lemma_hp_subs(ints(seq@), -0x8000_0000, 0x7fff_ffff);
        lemma_subs_widen(h@, -0x8000_0000, 0xffff_ffff, i64::MIN + 1, i64::MAX as int);
    }
    hydra_to_bms(&h)
}

} // verus!
