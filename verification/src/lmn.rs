//! LMN (lifting M-notation) renderings of BOCF terms: the `p_…` form, the
//! `p_0(0)`-expanded simple form, the `0(…)`/`1(…)` lifting bracket form,
//! and the full ψ form of the bracket notation.
use vstd::prelude::*;
use crate::term::{
    Term, TermNode, mk, size, spec_is_ordinal_finite, sat_len, is_ordinal_finite, summand_count,
    clone_term, t,
};
use crate::text::{nat_str, push_nat, push_string, push_char, lit, chars_of, is_digit};

verus! {

/// The M-notation renderings of a standard-form BOCF term.
#[derive(Debug, Clone, Default, PartialEq, Eq)]
pub struct LmnForms {
    /// `p_2(p_1(0))+…` form.
    pub p: String,
    /// `p_0(0)`-expanded form.
    pub p_simple: String,
    /// `0(…)`/`1(…)` lifting bracket form.
    pub bracket: String,
    /// Full ψ form of the bracket notation.
    pub full: String,
}

// ============================================================
// Model
// ============================================================

/// The parts joined by "+".
pub open spec fn plus_join(p: Seq<Seq<char>>) -> Seq<char>
    decreases p.len(),
{
    if p.len() == 0 {
        Seq::empty()
    } else if p.len() == 1 {
        p[0]
    } else {
        plus_join(p.drop_last()) + "+"@ + p.last()
    }
}

/// `n` copies of `s`.
pub open spec fn rep(s: Seq<char>, n: nat) -> Seq<Seq<char>> {
    Seq::new(n, |i: int| s)
}

/// The natural `n` in unary: "0", or "1+1+…+1".
pub open spec fn un(n: nat) -> Seq<char> {
    if n == 0 {
        "0"@
    } else {
        plus_join(rep("1"@, n))
    }
}

/// The `p_…` form: natural subscripts as digits, others braced; a finite
/// tail as its number.
pub open spec fn rp(x: Term) -> Seq<char>
    decreases size(x), 1nat,
{
    if x is None {
        "0"@
    } else {
        plus_join(rp_parts(x))
    }
}

pub open spec fn rp_parts(cur: Term) -> Seq<Seq<char>>
    decreases size(cur), 0nat,
{
    match cur {
        None => Seq::empty(),
        Some(n) => if spec_is_ordinal_finite(cur) {
            seq![nat_str(sat_len(cur))]
        } else {
            seq![
                "p_"@ + (if spec_is_ordinal_finite(n.a) {
                    nat_str(sat_len(n.a))
                } else {
                    "{"@ + rp(n.a) + "}"@
                }) + "("@ + rp(n.b) + ")"@,
            ] + rp_parts(n.c)
        },
    }
}

/// The simple form: every natural a sum of `p_0(0)`.
pub open spec fn rsp(x: Term) -> Seq<char>
    decreases size(x), 1nat,
{
    if x is None {
        "0"@
    } else if spec_is_ordinal_finite(x) {
        plus_join(rep("p_0(0)"@, sat_len(x)))
    } else {
        plus_join(rsp_parts(x))
    }
}

/// A subscript in the simple form, braced when it has '+' or '('.
pub open spec fn braced(s: Seq<char>) -> Seq<char> {
    if s.contains('+') || s.contains('(') {
        "{"@ + s + "}"@
    } else {
        s
    }
}

pub open spec fn rsp_parts(cur: Term) -> Seq<Seq<char>>
    decreases size(cur), 0nat,
{
    match cur {
        None => Seq::empty(),
        Some(n) => seq!["p_"@ + braced(rsp(n.a)) + "("@ + rsp(n.b) + ")"@] + rsp_parts(n.c),
    }
}

/// The bracket form: ψ_n(β) is `0(n)` / `0(n+β)` with n in unary, ψ_0(β)
/// is `0` / `0(β)`, a non-natural subscript is lifted into `1(…)`.
pub open spec fn rb(x: Term) -> Seq<char>
    decreases size(x), 1nat,
{
    if x is None {
        "0"@
    } else {
        plus_join(rb_parts(x))
    }
}

pub open spec fn rb_parts(cur: Term) -> Seq<Seq<char>>
    decreases size(cur), 0nat,
{
    match cur {
        None => Seq::empty(),
        Some(n) => {
            let head = if spec_is_ordinal_finite(n.a) {
                let k = sat_len(n.a);
                if k == 0 {
                    if n.b is None {
                        "0"@
                    } else {
                        "0("@ + rb(n.b) + ")"@
                    }
                } else if n.b is None {
                    "0("@ + un(k) + ")"@
                } else {
                    "0("@ + un(k) + "+"@ + rb(n.b) + ")"@
                }
            } else if n.b is None {
                "0("@ + rl(n.a) + ")"@
            } else {
                "0("@ + rl(n.a) + "+"@ + rb(n.b) + ")"@
            };
            seq![head] + rb_parts(n.c)
        },
    }
}

/// A lifted subscript: each head ψ_a(b) becomes `1`, `1(b)` for a = 0,
/// and `1(<bracket of ψ_a(b)>)` otherwise.
pub open spec fn rl(x: Term) -> Seq<char>
    decreases size(x), 3nat,
{
    if spec_is_ordinal_finite(x) {
        un(sat_len(x))
    } else {
        plus_join(rl_parts(x))
    }
}

pub open spec fn rl_parts(cur: Term) -> Seq<Seq<char>>
    decreases size(cur), 2nat,
{
    match cur {
        None => Seq::empty(),
        Some(n) => {
            let head = if n.a is None && n.b is None {
                "1"@
            } else if n.a is None {
                "1("@ + rb(n.b) + ")"@
            } else {
                proof {
                    assert(size(mk(n.a, n.b, None)) == 1 + size(n.a) + size(n.b) + size(None));
                }
                "1("@ + rb(mk(n.a, n.b, None)) + ")"@
            };
            seq![head] + rl_parts(n.c)
        },
    }
}

/// The full ψ form of a bracket string from position `i`: a digit before
/// '(' becomes `\psi_d(`, a bare digit `\psi_d(0)`.
pub open spec fn eb(s: Seq<char>, i: int) -> Seq<char>
    decreases s.len() - i,
{
    if i < 0 || i >= s.len() {
        Seq::empty()
    } else if is_digit(s[i]) && i + 1 < s.len() && s[i + 1] == '(' {
        "\\psi_"@ + seq![s[i]] + "("@ + eb(s, i + 2)
    } else if is_digit(s[i]) {
        "\\psi_"@ + seq![s[i]] + "(0)"@ + eb(s, i + 1)
    } else {
        seq![s[i]] + eb(s, i + 1)
    }
}


// ============================================================
// Rendering
// ============================================================

pub open spec fn views(v: Seq<String>) -> Seq<Seq<char>> {
    v.map_values(|x: String| x@)
}

/// The parts joined by "+".
fn join_plus(parts: &Vec<String>) -> (r: String)
    ensures
        r@ == plus_join(views(parts@)),
{
    let mut s = String::new();
    let mut i: usize = 0;
    proof {
        assert(views(parts@).take(0) =~= Seq::<Seq<char>>::empty());
    }
    while i < parts.len()
        invariant
            i <= parts@.len(),
            s@ == plus_join(views(parts@).take(i as int)),
        decreases parts.len() - i,
    {
        if i > 0 {
            push_char(&mut s, '+');
        }
        push_string(&mut s, &parts[i]);
        proof {
            reveal_strlit("+");
            assert(views(parts@).take(i + 1).drop_last() =~= views(parts@).take(i as int));
            assert(s@ =~= plus_join(views(parts@).take(i + 1)));
        }
        i = i + 1;
    }
    proof {
        assert(views(parts@).take(parts@.len() as int) =~= views(parts@));
    }
    s
}

/// `n` copies of `p` joined by "+".
fn repeat_plus(p: &str, n: u64) -> (r: String)
    ensures
        r@ == plus_join(rep(p@, n as nat)),
{
    let mut parts: Vec<String> = Vec::new();
    let mut i: u64 = 0;
    while i < n
        invariant
            i <= n,
            views(parts@) == rep(p@, i as nat),
        decreases n - i,
    {
        let ghost v0 = views(parts@);
        let item = lit(p);
        parts.push(item);
        proof {
            assert(views(parts@) =~= v0.push(p@));
            assert(rep(p@, (i + 1) as nat) =~= rep(p@, i as nat).push(p@));
        }
        i = i + 1;
    }
    join_plus(&parts)
}

/// The natural `n` in unary.
fn unary_nat(n: u64) -> (r: String)
    ensures
        r@ == un(n as nat),
{
    if n == 0 {
        return lit("0");
    }
    repeat_plus("1", n)
}

fn render_p(x: &Term) -> (r: String)
    ensures
        r@ == rp(*x),
    decreases size(*x), 1nat,
{
    if x.is_none() {
        return lit("0");
    }
    let mut parts: Vec<String> = Vec::new();
    let mut cur: &Term = x;
    let mut done = false;
    proof {
        assert(views(parts@) =~= Seq::<Seq<char>>::empty());
    }
    while cur.is_some() && !done
        invariant
            size(*cur) <= size(*x),
            !done ==> views(parts@) + rp_parts(*cur) == rp_parts(*x),
            done ==> views(parts@) == rp_parts(*x),
        decreases size(*cur), if done { 0nat } else { 1nat },
    {
        let ghost p0 = views(parts@);
        if is_ordinal_finite(cur) {
            let mut s = String::new();
            push_nat(&mut s, summand_count(cur));
            parts.push(s);
            proof {
                assert(views(parts@) =~= p0 + rp_parts(*cur));
            }
            done = true;
        } else {
            let n = cur.as_ref().unwrap();
            let mut s = lit("p_");
            if is_ordinal_finite(&n.a) {
                push_nat(&mut s, summand_count(&n.a));
            } else {
                push_char(&mut s, '{');
                push_string(&mut s, &render_p(&n.a));
                push_char(&mut s, '}');
            }
            push_char(&mut s, '(');
            push_string(&mut s, &render_p(&n.b));
            push_char(&mut s, ')');
            parts.push(s);
            proof {
                reveal_strlit("p_");
                reveal_strlit("{");
                reveal_strlit("}");
                reveal_strlit("(");
                reveal_strlit(")");
                let head = "p_"@ + (if spec_is_ordinal_finite(n.a) {
                    nat_str(sat_len(n.a))
                } else {
                    "{"@ + rp(n.a) + "}"@
                }) + "("@ + rp(n.b) + ")"@;
                assert(s@ =~= head);
                assert(*cur == Some(*n));
                assert(rp_parts(*cur) == seq![head] + rp_parts(n.c));
                assert(views(parts@) =~= p0.push(s@));
                assert(views(parts@) + rp_parts(n.c) =~= p0 + rp_parts(*cur));
            }
            cur = &n.c;
        }
    }
    proof {
        if !done {
            assert(views(parts@) + Seq::<Seq<char>>::empty() =~= views(parts@));
        }
    }
    join_plus(&parts)
}

/// Whether the string has a '+' or a '('.
fn has_plus_or_paren(s: &String) -> (r: bool)
    ensures
        r == (s@.contains('+') || s@.contains('(')),
{
    let v = chars_of(s.as_str());
    let mut i: usize = 0;
    while i < v.len()
        invariant
            i <= v@.len(),
            v@ == s@,
            forall|k: int| 0 <= k < i ==> v@[k] != '+' && v@[k] != '(',
        decreases v.len() - i,
    {
        if v[i] == '+' || v[i] == '(' {
            proof {
                assert(s@[i as int] == v[i as int]);
            }
            return true;
        }
        i = i + 1;
    }
    false
}

fn render_simple_p(x: &Term) -> (r: String)
    ensures
        r@ == rsp(*x),
    decreases size(*x), 1nat,
{
    if x.is_none() {
        return lit("0");
    }
    if is_ordinal_finite(x) {
        return repeat_plus("p_0(0)", summand_count(x));
    }
    let mut parts: Vec<String> = Vec::new();
    let mut cur: &Term = x;
    proof {
        assert(views(parts@) =~= Seq::<Seq<char>>::empty());
    }
    while cur.is_some()
        invariant
            size(*cur) <= size(*x),
            views(parts@) + rsp_parts(*cur) == rsp_parts(*x),
        decreases size(*cur),
    {
        let ghost p0 = views(parts@);
        let n = cur.as_ref().unwrap();
        let sub = render_simple_p(&n.a);
        let mut s = lit("p_");
        if has_plus_or_paren(&sub) {
            push_char(&mut s, '{');
            push_string(&mut s, &sub);
            push_char(&mut s, '}');
        } else {
            push_string(&mut s, &sub);
        }
        push_char(&mut s, '(');
        push_string(&mut s, &render_simple_p(&n.b));
        push_char(&mut s, ')');
        parts.push(s);
        proof {
            reveal_strlit("p_");
            reveal_strlit("{");
            reveal_strlit("}");
            reveal_strlit("(");
            reveal_strlit(")");
            let head = "p_"@ + braced(rsp(n.a)) + "("@ + rsp(n.b) + ")"@;
            assert(s@ =~= head);
            assert(*cur == Some(*n));
            assert(rsp_parts(*cur) == seq![head] + rsp_parts(n.c));
            assert(views(parts@) =~= p0.push(s@));
            assert(views(parts@) + rsp_parts(n.c) =~= p0 + rsp_parts(*cur));
        }
        cur = &n.c;
    }
    proof {
        assert(views(parts@) + Seq::<Seq<char>>::empty() =~= views(parts@));
    }
    join_plus(&parts)
}

fn render_bracket(x: &Term) -> (r: String)
    ensures
        r@ == rb(*x),
    decreases size(*x), 1nat,
{
    if x.is_none() {
        return lit("0");
    }
    let mut parts: Vec<String> = Vec::new();
    let mut cur: &Term = x;
    proof {
        assert(views(parts@) =~= Seq::<Seq<char>>::empty());
    }
    while cur.is_some()
        invariant
            size(*cur) <= size(*x),
            views(parts@) + rb_parts(*cur) == rb_parts(*x),
        decreases size(*cur),
    {
        proof {
            reveal_strlit("0");
            reveal_strlit("0(");
            reveal_strlit(")");
            reveal_strlit("+");
        }
        let ghost p0 = views(parts@);
        let n = cur.as_ref().unwrap();
        let mut s = String::new();
        if is_ordinal_finite(&n.a) {
            let k = summand_count(&n.a);
            if k == 0 {
                if n.b.is_none() {
                    s = lit("0");
                } else {
                    s = lit("0(");
                    push_string(&mut s, &render_bracket(&n.b));
                    push_char(&mut s, ')');
                }
            } else if n.b.is_none() {
                s = lit("0(");
                push_string(&mut s, &unary_nat(k));
                push_char(&mut s, ')');
            } else {
                s = lit("0(");
                push_string(&mut s, &unary_nat(k));
                push_char(&mut s, '+');
                push_string(&mut s, &render_bracket(&n.b));
                push_char(&mut s, ')');
            }
        } else if n.b.is_none() {
            s = lit("0(");
            push_string(&mut s, &render_lifted(&n.a));
            push_char(&mut s, ')');
        } else {
            s = lit("0(");
            push_string(&mut s, &render_lifted(&n.a));
            push_char(&mut s, '+');
            push_string(&mut s, &render_bracket(&n.b));
            push_char(&mut s, ')');
        }
        parts.push(s);
        proof {
            let head = if spec_is_ordinal_finite(n.a) {
                let k = sat_len(n.a);
                if k == 0 {
                    if n.b is None {
                        "0"@
                    } else {
                        "0("@ + rb(n.b) + ")"@
                    }
                } else if n.b is None {
                    "0("@ + un(k) + ")"@
                } else {
                    "0("@ + un(k) + "+"@ + rb(n.b) + ")"@
                }
            } else if n.b is None {
                "0("@ + rl(n.a) + ")"@
            } else {
                "0("@ + rl(n.a) + "+"@ + rb(n.b) + ")"@
            };
            assert(s@ =~= head);
            assert(*cur == Some(*n));
            assert(rb_parts(*cur) == seq![head] + rb_parts(n.c));
            assert(views(parts@) =~= p0.push(s@));
            assert(views(parts@) + rb_parts(n.c) =~= p0 + rb_parts(*cur));
        }
        cur = &n.c;
    }
    proof {
        assert(views(parts@) + Seq::<Seq<char>>::empty() =~= views(parts@));
    }
    join_plus(&parts)
}

fn render_lifted(x: &Term) -> (r: String)
    ensures
        r@ == rl(*x),
    decreases size(*x), 3nat,
{
    if is_ordinal_finite(x) {
        return unary_nat(summand_count(x));
    }
    let mut parts: Vec<String> = Vec::new();
    let mut cur: &Term = x;
    proof {
        assert(views(parts@) =~= Seq::<Seq<char>>::empty());
    }
    while cur.is_some()
        invariant
            size(*cur) <= size(*x),
            views(parts@) + rl_parts(*cur) == rl_parts(*x),
        decreases size(*cur),
    {
        proof {
            reveal_strlit("1");
            reveal_strlit("1(");
            reveal_strlit(")");
        }
        let ghost p0 = views(parts@);
        let n = cur.as_ref().unwrap();
        let mut s: String;
        if n.a.is_none() && n.b.is_none() {
            s = lit("1");
        } else if n.a.is_none() {
            s = lit("1(");
            push_string(&mut s, &render_bracket(&n.b));
            push_char(&mut s, ')');
        } else {
            let head = t(clone_term(&n.a), clone_term(&n.b), None);
            proof {
                assert(size(mk(n.a, n.b, None)) == 1 + size(n.a) + size(n.b) + size(None));
            }
            s = lit("1(");
            push_string(&mut s, &render_bracket(&head));
            push_char(&mut s, ')');
        }
        parts.push(s);
        proof {
            let head = if n.a is None && n.b is None {
                "1"@
            } else if n.a is None {
                "1("@ + rb(n.b) + ")"@
            } else {
                "1("@ + rb(mk(n.a, n.b, None)) + ")"@
            };
            assert(s@ =~= head);
            assert(*cur == Some(*n));
            assert(rl_parts(*cur) == seq![head] + rl_parts(n.c));
            assert(views(parts@) =~= p0.push(s@));
            assert(views(parts@) + rl_parts(n.c) =~= p0 + rl_parts(*cur));
        }
        cur = &n.c;
    }
    proof {
        assert(views(parts@) + Seq::<Seq<char>>::empty() =~= views(parts@));
    }
    join_plus(&parts)
}

/// Expands the bracket form: a digit before '(' becomes `\psi_d(`, a bare
/// digit `\psi_d(0)`.
fn expand_bracket(bracket: &String) -> (r: String)
    ensures
        r@ == eb(bracket@, 0),
{
    let v = chars_of(bracket.as_str());
    let mut out = String::new();
    let mut i: usize = 0;
    while i < v.len()
        invariant
            i <= v@.len(),
            v@ == bracket@,
            out@ + eb(v@, i as int) == eb(v@, 0),
        decreases v.len() - i,
    {
        proof {
            reveal_strlit("\\psi_");
            reveal_strlit("(");
            reveal_strlit("(0)");
        }
        let ghost o0 = out@;
        let c = v[i];
        if '0' <= c && c <= '9' {
            if i + 1 < v.len() && v[i + 1] == '(' {
                push_string(&mut out, &lit("\\psi_"));
                push_char(&mut out, c);
                push_char(&mut out, '(');
                proof {
                    assert(out@ + eb(v@, i + 2) =~= o0 + eb(v@, i as int));
                }
                i = i + 2;
            } else {
                push_string(&mut out, &lit("\\psi_"));
                push_char(&mut out, c);
                push_string(&mut out, &lit("(0)"));
                proof {
                    assert(out@ + eb(v@, i + 1) =~= o0 + eb(v@, i as int));
                }
                i = i + 1;
            }
        } else {
            push_char(&mut out, c);
            proof {
                assert(out@ + eb(v@, i + 1) =~= o0 + eb(v@, i as int));
            }
            i = i + 1;
        }
    }
    proof {
        assert(out@ + Seq::<char>::empty() =~= out@);
    }
    out
}

/// Render a standard-form BOCF term in all M-notation forms.
pub fn term_to_lmn(x: &Term) -> (r: LmnForms)
    ensures
        r.p@ == rp(*x),
        r.p_simple@ == rsp(*x),
        r.bracket@ == rb(*x),
        r.full@ == eb(rb(*x), 0),
{
    let bracket = render_bracket(x);
    let full = expand_bracket(&bracket);
    LmnForms { p: render_p(x), p_simple: render_simple_p(x), full, bracket }
}

/// The `p_…` form: natural subscripts as digits, other subscripts braced.
pub fn term_to_lmn_p(x: &Term) -> (r: String)
    ensures
        r@ == rp(*x),
{
    render_p(x)
}

/// The simple form: every natural written as a sum of `p_0(0)`.
pub fn term_to_lmn_simple(x: &Term) -> (r: String)
    ensures
        r@ == rsp(*x),
{
    render_simple_p(x)
}

/// The lifting bracket form.
pub fn term_to_lmn_bracket(x: &Term) -> (r: String)
    ensures
        r@ == rb(*x),
{
    render_bracket(x)
}

/// The full ψ form of the bracket notation.
pub fn term_to_lmn_full(x: &Term) -> (r: String)
    ensures
        r@ == eb(rb(*x), 0),
{
    expand_bracket(&render_bracket(x))
}

} // verus!
