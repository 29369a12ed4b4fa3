//! Structural normalization of MOCF expressions written with explicit
//! products and powers: every ψ-value and every `Ω_s` is a fixed point of
//! `ω^`, so `ω^{ψ_a(b)·k} = ψ_a(b)^k`, `ω^u·ω^v = ω^{u+v}`, small
//! summands and factors before a ψ-block are absorbed, and like terms
//! merge. Natural-number coefficients saturate at `i32::MAX`.
use vstd::prelude::*;
use crate::text::{int_str, lit, push_int, push_string};

verus! {

/// A MOCF expression with explicit products and powers.
#[derive(Debug)]
pub enum C {
    Zero,
    One,
    Nat(i32),
    Omega,
    OmegaSub(Box<C>),
    OmegaPow(Box<C>),
    Psi(Option<Box<C>>, Box<C>),
    Pow(Box<C>, Box<C>),
    Mul(Box<C>, Box<C>),
    Sum(Vec<C>),
}

/// The model of an expression: the same tree, sums as sequences.
#[verifier::ext_equal]
pub enum CV {
    Zero,
    One,
    Nat(i32),
    Omega,
    OmegaSub(Box<CV>),
    OmegaPow(Box<CV>),
    Psi(Option<Box<CV>>, Box<CV>),
    Pow(Box<CV>, Box<CV>),
    Mul(Box<CV>, Box<CV>),
    Sum(Seq<CV>),
}

pub open spec fn cv(x: C) -> CV
    decreases x,
{
    match x {
        C::Zero => CV::Zero,
        C::One => CV::One,
        C::Nat(n) => CV::Nat(n),
        C::Omega => CV::Omega,
        C::OmegaSub(a) => CV::OmegaSub(Box::new(cv(*a))),
        C::OmegaPow(a) => CV::OmegaPow(Box::new(cv(*a))),
        C::Psi(v, a) => CV::Psi(
            match v {
                Some(b) => Some(Box::new(cv(*b))),
                None => None,
            },
            Box::new(cv(*a)),
        ),
        C::Pow(b, e) => CV::Pow(Box::new(cv(*b)), Box::new(cv(*e))),
        C::Mul(a, b) => CV::Mul(Box::new(cv(*a)), Box::new(cv(*b))),
        C::Sum(ts) => CV::Sum(
            Seq::new(
                ts@.len(),
                |i: int|
                    if 0 <= i < ts@.len() {
                        cv(ts@[i])
                    } else {
                        CV::Zero
                    },
            ),
        ),
    }
}

impl View for C {
    type V = CV;

    open spec fn view(&self) -> CV {
        cv(*self)
    }
}

pub open spec fn cviews(v: Seq<C>) -> Seq<CV> {
    Seq::new(v.len(), |i: int| v[i]@)
}

proof fn lemma_sum_cv(v: Vec<C>)
    ensures
        C::Sum(v)@ == CV::Sum(cviews(v@)),
{
    let s1 = Seq::new(
        v@.len(),
        |i: int|
            if 0 <= i < v@.len() {
                cv(v@[i])
            } else {
                CV::Zero
            },
    );
    assert(s1 =~= cviews(v@));
    assert(cv(C::Sum(v))->Sum_0 == s1);
}

// ============================================================
// Model: building blocks
// ============================================================

/// `n` as an expression (0 below 1), saturated at `i32::MAX`.
pub open spec fn cnat(n: int) -> CV {
    if n <= 0 {
        CV::Zero
    } else if n > i32::MAX {
        CV::Nat(i32::MAX)
    } else {
        CV::Nat(n as i32)
    }
}

/// The summands of `parts`, zeros dropped and sums opened one level.
pub open spec fn sum_parts(parts: Seq<CV>) -> Seq<CV>
    decreases parts.len(),
{
    if parts.len() == 0 {
        Seq::empty()
    } else {
        sum_parts(parts.drop_last()) + match parts.last() {
            CV::Zero => Seq::empty(),
            CV::Sum(inner) => inner,
            p => seq![p],
        }
    }
}

/// A sum of parts: 0, the single part, or a sum.
pub open spec fn csum(parts: Seq<CV>) -> CV {
    let fl = sum_parts(parts);
    if fl.len() == 0 {
        CV::Zero
    } else if fl.len() == 1 {
        fl[0]
    } else {
        CV::Sum(fl)
    }
}

pub open spec fn is_unit(c: CV) -> bool {
    c is One || c == CV::Nat(1)
}

/// A product, 0 and 1 simplified away.
pub open spec fn cmul(a: CV, b: CV) -> CV {
    if a is Zero || b is Zero {
        CV::Zero
    } else if is_unit(a) {
        b
    } else if is_unit(b) {
        a
    } else {
        CV::Mul(Box::new(a), Box::new(b))
    }
}

/// LaTeX form of an expression.
pub open spec fn render(c: CV) -> Seq<char>
    decreases c,
{
    match c {
        CV::Zero => "0"@,
        CV::One => "1"@,
        CV::Nat(n) => int_str(n as int),
        CV::Omega => "\\Omega"@,
        CV::OmegaSub(a) => if render(*a) == "1"@ {
            "\\Omega"@
        } else {
            "\\Omega_{"@ + render(*a) + "}"@
        },
        CV::OmegaPow(a) => match *a {
            CV::Zero => "1"@,
            CV::One => "\\omega"@,
            CV::Nat(k) => if k == 1 {
                "\\omega"@
            } else {
                "\\omega^{"@ + render(*a) + "}"@
            },
            _ => "\\omega^{"@ + render(*a) + "}"@,
        },
        CV::Psi(v, a) => match v {
            None => "\\psi("@ + render(*a) + ")"@,
            Some(w) => "\\psi_{"@ + render(*w) + "}("@ + render(*a) + ")"@,
        },
        CV::Pow(b, e) => match *e {
            CV::One => render(*b),
            CV::Nat(k) => render(*b) + "^{"@ + int_str(k as int) + "}"@,
            _ => render(*b) + "^{"@ + render(*e) + "}"@,
        },
        CV::Mul(a, b) => render(*a) + render(*b),
        CV::Sum(ts) => render_list(ts),
    }
}

/// Summands rendered and joined by ` + `.
pub open spec fn render_list(ts: Seq<CV>) -> Seq<char>
    decreases ts,
{
    if ts.len() == 0 {
        Seq::empty()
    } else if ts.len() == 1 {
        render(ts[0])
    } else {
        render_list(ts.drop_last()) + " + "@ + render(ts[ts.len() - 1])
    }
}

/// All summands, nested sums opened at every depth.
pub open spec fn flat_sum(c: CV) -> Seq<CV>
    decreases c,
{
    match c {
        CV::Sum(ts) => flat_sum_list(ts),
        _ => seq![c],
    }
}

pub open spec fn flat_sum_list(ts: Seq<CV>) -> Seq<CV>
    decreases ts,
{
    if ts.len() == 0 {
        Seq::empty()
    } else {
        flat_sum_list(ts.drop_last()) + flat_sum(ts[ts.len() - 1])
    }
}

/// All factors of a product.
pub open spec fn flat_prod(c: CV) -> Seq<CV>
    decreases c,
{
    match c {
        CV::Mul(a, b) => flat_prod(*a) + flat_prod(*b),
        _ => seq![c],
    }
}

pub open spec fn is_finite_c(c: CV) -> bool {
    c is Nat || c is One || c is Zero
}

pub open spec fn c_nat_val(c: CV) -> int {
    match c {
        CV::Nat(n) => n as int,
        CV::One => 1,
        _ => 0,
    }
}

/// Addition of exponents: finite + limit = limit, finite + finite adds.
pub open spec fn c_add_ord(a: CV, b: CV) -> CV {
    if a is Zero {
        b
    } else if b is Zero {
        a
    } else if is_finite_c(a) && is_finite_c(b) {
        cnat(c_nat_val(a) + c_nat_val(b))
    } else if is_finite_c(a) {
        b
    } else {
        csum(seq![a, b])
    }
}

// ============================================================
// Model: products
// ============================================================

/// A factor for merging: a ψ-power `(base, exponent)`, or another factor.
pub enum PF {
    PsiP(CV, CV),
    Other(CV),
}

pub open spec fn classify(f: CV) -> PF {
    match f {
        CV::Psi(_, _) => PF::PsiP(f, cnat(1)),
        CV::Pow(bx, e) => if *bx is Psi {
            PF::PsiP(*bx, *e)
        } else {
            PF::Other(f)
        },
        _ => PF::Other(f),
    }
}

/// Factors in order, adjacent ψ-powers of one base merged.
pub open spec fn merge_entries(fs: Seq<CV>) -> Seq<PF>
    decreases fs.len(),
{
    if fs.len() == 0 {
        Seq::empty()
    } else {
        let es = merge_entries(fs.drop_last());
        let e = classify(fs.last());
        if e is PsiP && es.len() > 0 && es.last() is PsiP && render(es.last()->PsiP_0) == render(
            e->PsiP_0,
        ) {
            es.update(
                es.len() - 1,
                PF::PsiP(es.last()->PsiP_0, c_add_ord(es.last()->PsiP_1, e->PsiP_1)),
            )
        } else {
            es.push(e)
        }
    }
}

pub open spec fn entry_c(e: PF) -> CV {
    match e {
        PF::PsiP(base, ex) => if is_unit(ex) {
            base
        } else {
            CV::Pow(Box::new(base), Box::new(ex))
        },
        PF::Other(c) => c,
    }
}

pub open spec fn prod_entries(es: Seq<PF>) -> CV
    decreases es.len(),
{
    if es.len() == 0 {
        CV::One
    } else {
        cmul(prod_entries(es.drop_last()), entry_c(es.last()))
    }
}

/// `a · b` with the factors flattened and adjacent ψ-powers merged.
pub open spec fn merge_product(a: CV, b: CV) -> CV {
    prod_entries(merge_entries(flat_prod(a) + flat_prod(b)))
}

/// The leading ψ subscript of a ψ-power factor (`Some(None)` for ψ).
pub open spec fn lead_psi_sub(f: CV) -> Option<Option<CV>>
    decreases f,
{
    match f {
        CV::Psi(v, _) => Some(
            match v {
                Some(w) => Some(*w),
                None => None,
            },
        ),
        CV::Pow(b, _) => lead_psi_sub(*b),
        CV::Mul(a, _) => lead_psi_sub(*a),
        _ => None,
    }
}

pub open spec fn contains_psi(c: CV) -> bool
    decreases c,
{
    match c {
        CV::Psi(_, _) => true,
        CV::OmegaSub(a) => contains_psi(*a),
        CV::OmegaPow(a) => contains_psi(*a),
        CV::Pow(a, b) => contains_psi(*a) || contains_psi(*b),
        CV::Mul(a, b) => contains_psi(*a) || contains_psi(*b),
        CV::Sum(ts) => any_psi(ts),
        _ => false,
    }
}

pub open spec fn any_psi(ts: Seq<CV>) -> bool
    decreases ts,
{
    ts.len() > 0 && (any_psi(ts.drop_last()) || contains_psi(ts[ts.len() - 1]))
}

/// Countable by its shape (conservatively).
pub open spec fn is_below_c(c: CV) -> bool
    decreases c,
{
    match c {
        CV::Zero => true,
        CV::One => true,
        CV::Nat(_) => true,
        CV::OmegaPow(_) => true,
        CV::Psi(v, _) => v is None,
        CV::Mul(a, b) => is_below_c(*a) && is_below_c(*b),
        CV::Sum(ts) => all_below(ts),
        _ => false,
    }
}

pub open spec fn all_below(ts: Seq<CV>) -> bool
    decreases ts,
{
    ts.len() == 0 || (all_below(ts.drop_last()) && is_below_c(ts[ts.len() - 1]))
}

pub open spec fn exp_absorbed_by_psi(e: CV, sub: Option<CV>) -> bool {
    match sub {
        Some(_) => is_below_c(e),
        None => !contains_psi(e),
    }
}

pub open spec fn nat_of_c(c: CV) -> Option<int> {
    match c {
        CV::Zero => Some(0),
        CV::One => Some(1),
        CV::Nat(n) => Some(n as int),
        _ => None,
    }
}

pub open spec fn nat_lt(a: CV, b: CV) -> bool {
    nat_of_c(a) is Some && nat_of_c(b) is Some && nat_of_c(a)->0 < nat_of_c(b)->0
}

/// `ψ_a(x) < ψ_a(y)` for natural `x < y` (same subscript).
pub open spec fn psi_block_lt(a: CV, b: CV) -> bool {
    match (a, b) {
        (CV::Psi(va, xa), CV::Psi(vb, xb)) => match (va, vb) {
            (None, None) => nat_lt(*xa, *xb),
            (Some(x), Some(y)) => render(*x) == render(*y) && nat_lt(*xa, *xb),
            _ => false,
        },
        _ => false,
    }
}

pub open spec fn drop_before(last: CV, sub: Option<CV>, t: CV) -> bool {
    match last {
        CV::OmegaPow(e) => exp_absorbed_by_psi(*e, sub),
        CV::Nat(_) => true,
        CV::One => true,
        CV::Psi(_, _) => psi_block_lt(last, t),
        _ => false,
    }
}

pub open spec fn absorb_pop(out: Seq<CV>, sub: Option<CV>, t: CV) -> Seq<CV>
    decreases out.len(),
{
    if out.len() > 0 && drop_before(out.last(), sub, t) {
        absorb_pop(out.drop_last(), sub, t)
    } else {
        out
    }
}

/// Trailing terms absorbed by the upcoming ψ-block `t` dropped.
pub open spec fn absorb_small_before(out: Seq<CV>, t: CV) -> Seq<CV> {
    match lead_psi_sub(t) {
        None => out,
        Some(sub) => absorb_pop(out, sub, t),
    }
}

/// Adjacent ω-powers merged: `ω^a·ω^b = ω^{a+b}`.
pub open spec fn merge_pows(fs: Seq<CV>) -> Seq<CV>
    decreases fs.len(),
{
    if fs.len() == 0 {
        Seq::empty()
    } else {
        let m = merge_pows(fs.drop_last());
        let f = fs.last();
        if m.len() > 0 && m.last() is OmegaPow && f is OmegaPow {
            m.update(
                m.len() - 1,
                CV::OmegaPow(Box::new(c_add_ord(*m.last()->OmegaPow_0, *f->OmegaPow_0))),
            )
        } else {
            m.push(f)
        }
    }
}

pub open spec fn absorb_all(fs: Seq<CV>) -> Seq<CV>
    decreases fs.len(),
{
    if fs.len() == 0 {
        Seq::empty()
    } else {
        absorb_small_before(absorb_all(fs.drop_last()), fs.last()).push(fs.last())
    }
}

/// Factors multiplied up with `merge_product`, from 1.
pub open spec fn merge_all(fs: Seq<CV>) -> CV
    decreases fs.len(),
{
    if fs.len() == 0 {
        CV::One
    } else {
        merge_product(merge_all(fs.drop_last()), fs.last())
    }
}

/// Canonical product of factors.
pub open spec fn normalize_product(fs: Seq<CV>) -> CV {
    merge_all(absorb_all(merge_pows(fs)))
}

// ============================================================
// Model: ω-powers of fixed points
// ============================================================

/// `ω^b` as a power of a ψ-value: `(base, None)` for `ψ` itself, or
/// `(base, Some(k))` for `ψ^k`.
pub open spec fn fixed_block(b: CV, card: bool) -> Option<(CV, Option<CV>)> {
    let base_ok = |p: CV| if card { p is Omega || p is OmegaSub } else { p is Psi };
    match b {
        CV::Mul(a, k) => if !card && *a is Psi {
            Some((*a, Some(*k)))
        } else {
            None
        },
        CV::Pow(p, j) => if base_ok(*p) {
            match *j {
                CV::Nat(n) => if n >= 2 {
                    Some((*p, Some(CV::Pow(p, Box::new(cnat(n - 1))))))
                } else {
                    Some((*p, None))
                },
                other => Some((*p, Some(CV::Pow(p, Box::new(other))))),
            }
        } else {
            None
        },
        _ => if base_ok(b) {
            Some((b, None))
        } else {
            None
        },
    }
}

pub open spec fn coef_form(base: CV, coef: Option<CV>) -> CV {
    match coef {
        None => base,
        Some(k) => CV::Pow(Box::new(base), Box::new(k)),
    }
}

/// Factoring state: the factors so far and the pending plain summands.
pub open spec fn factor_fold(bs: Seq<CV>) -> (Seq<CV>, Seq<CV>)
    decreases bs.len(),
{
    if bs.len() == 0 {
        (Seq::empty(), Seq::empty())
    } else {
        let st = factor_fold(bs.drop_last());
        let b = bs.last();
        let fixed = match fixed_block(b, false) {
            Some(x) => Some(x),
            None => fixed_block(b, true),
        };
        match fixed {
            Some(x) => (
                st.0 + (if st.1.len() > 0 {
                    seq![CV::OmegaPow(Box::new(csum(st.1)))]
                } else {
                    Seq::empty()
                }) + seq![coef_form(x.0, x.1)],
                Seq::empty(),
            ),
            None => (st.0, st.1.push(b)),
        }
    }
}

/// `ω^{Σ blocks}` as a product, every fixed-point block pulled out.
pub open spec fn factor_omega_pow(e: CV) -> Seq<CV> {
    let st = factor_fold(flat_sum(e));
    st.0 + if st.1.len() > 0 {
        seq![CV::OmegaPow(Box::new(csum(st.1)))]
    } else {
        Seq::empty()
    }
}

pub open spec fn level_gt(v: CV, s: CV) -> bool {
    match (v, s) {
        (CV::Nat(a), CV::Nat(b)) => b > a,
        (CV::Nat(_), _) => true,
        _ => false,
    }
}

/// `beta ≥ Ω_{v+1}`, judged by its leading factor.
pub open spec fn big_factor(beta: CV, v: CV) -> bool
    decreases beta,
{
    match beta {
        CV::OmegaSub(s) => level_gt(v, *s),
        CV::Psi(u, _) => match u {
            Some(w) => level_gt(v, *w),
            None => false,
        },
        CV::Mul(a, _) => big_factor(*a, v),
        CV::Pow(b, _) => big_factor(*b, v),
        _ => false,
    }
}

// ============================================================
// Model: one normalization pass
// ============================================================

/// The leading rendered base and whether the multiplier is infinite.
pub open spec fn lead_inf(nt: CV) -> (Seq<char>, bool) {
    match nt {
        CV::Mul(x, k) => (render(*x), !(*k is Nat)),
        CV::Pow(x, k) => (render(*x), !(*k is Nat)),
        _ => (Seq::empty(), false),
    }
}

/// One summand added to the normalized summands so far.
pub open spec fn sum_step(out: Seq<CV>, nt: CV) -> Seq<CV> {
    let li = lead_inf(nt);
    let o1 = if out.len() > 0 && li.1 && li.0.len() > 0 && render(out.last()) == li.0 {
        out.drop_last()
    } else {
        out
    };
    absorb_small_before(o1, nt).push(nt)
}

/// The base and count of a summand for like-term merging.
pub open spec fn base_count(last: CV) -> (Seq<char>, int) {
    match last {
        CV::Mul(x, k) => match *k {
            CV::Nat(n) => (render(*x), n as int),
            _ => (Seq::empty(), 0),
        },
        other => (render(other), 1),
    }
}

pub open spec fn base_of(last: CV) -> CV {
    match last {
        CV::Mul(x, _) => *x,
        other => other,
    }
}

/// Equal neighbours merged: `x + x = x·2`.
pub open spec fn merge_like(ts: Seq<CV>) -> Seq<CV>
    decreases ts.len(),
{
    if ts.len() == 0 {
        Seq::empty()
    } else {
        let m = merge_like(ts.drop_last());
        let t = ts.last();
        if m.len() > 0 && base_count(m.last()).1 > 0 && base_count(m.last()).0 == render(t) {
            m.update(
                m.len() - 1,
                CV::Mul(Box::new(base_of(m.last())), Box::new(cnat(base_count(m.last()).1 + 1))),
            )
        } else {
            m.push(t)
        }
    }
}

/// One structural pass.
pub open spec fn norm_once(c: CV) -> CV
    decreases c,
{
    match c {
        CV::OmegaPow(e) => {
            let fs = factor_omega_pow(norm_once(*e));
            if fs.len() == 1 {
                fs[0]
            } else {
                normalize_product(fs)
            }
        },
        CV::Mul(a, b) => {
            let fs = flat_prod(norm_once(*a)) + flat_prod(norm_once(*b));
            if fs.len() > 1 && (fs[0] matches CV::Psi(v, x) && v is Some) && big_factor(
                merge_all(fs.drop_first()),
                *fs[0]->Psi_0->Some_0,
            ) {
                CV::Psi(
                    fs[0]->Psi_0,
                    Box::new(csum(seq![*fs[0]->Psi_1, merge_all(fs.drop_first())])),
                )
            } else {
                normalize_product(fs)
            }
        },
        CV::Sum(ts) => csum(merge_like(norm_sum(ts))),
        CV::Psi(v, a) => CV::Psi(
            match v {
                Some(w) => Some(Box::new(norm_once(*w))),
                None => None,
            },
            Box::new(norm_once(*a)),
        ),
        CV::Pow(b, e) => if is_unit(norm_once(*e)) {
            norm_once(*b)
        } else {
            CV::Pow(Box::new(norm_once(*b)), Box::new(norm_once(*e)))
        },
        CV::OmegaSub(a) => CV::OmegaSub(Box::new(norm_once(*a))),
        _ => c,
    }
}

/// The summands normalized and added one by one with `sum_step`.
pub open spec fn norm_sum(ts: Seq<CV>) -> Seq<CV>
    decreases ts,
{
    if ts.len() == 0 {
        Seq::empty()
    } else {
        sum_step(norm_sum(ts.drop_last()), norm_once(ts[ts.len() - 1]))
    }
}

/// Up to `k` more passes, stopping when a pass changes the rendering no more.
pub open spec fn norm_iter(cur: CV, k: nat) -> CV
    decreases k,
{
    if k == 0 {
        cur
    } else {
        let next = norm_once(cur);
        if render(next) == render(cur) {
            cur
        } else {
            norm_iter(next, (k - 1) as nat)
        }
    }
}

/// What `mocf_normalize` gives: one pass, then up to sixteen more.
pub open spec fn mocf_normalize_spec(c: CV) -> CV {
    norm_iter(norm_once(c), 16)
}

// ============================================================
// Building blocks
// ============================================================

/// A deep copy.
pub fn clone_c(x: &C) -> (r: C)
    ensures
        r@ == x@,
    decreases x,
{
    match x {
        C::Zero => C::Zero,
        C::One => C::One,
        C::Nat(n) => C::Nat(*n),
        C::Omega => C::Omega,
        C::OmegaSub(a) => C::OmegaSub(Box::new(clone_c(a))),
        C::OmegaPow(a) => C::OmegaPow(Box::new(clone_c(a))),
        C::Psi(v, a) => {
            let nv = match v {
                Some(b) => Some(Box::new(clone_c(b))),
                None => None,
            };
            C::Psi(nv, Box::new(clone_c(a)))
        },
        C::Pow(b, e) => C::Pow(Box::new(clone_c(b)), Box::new(clone_c(e))),
        C::Mul(a, b) => C::Mul(Box::new(clone_c(a)), Box::new(clone_c(b))),
        C::Sum(ts) => {
            let mut v: Vec<C> = Vec::new();
            let mut i: usize = 0;
            while i < ts.len()
                invariant
                    i <= ts@.len(),
                    *x is Sum && (*x)->Sum_0 == *ts,
                    cviews(v@) == cviews(ts@).take(i as int),
                decreases ts.len() - i,
            {
                proof {
                    assert(decreases_to!(*x => (*x)->Sum_0@[i as int]));
                }
                let c = clone_c(&ts[i]);
                let ghost v0 = v@;
                v.push(c);
                i = i + 1;
                proof {
                    assert(cviews(v@) =~= cviews(v0).push(c@));
                    assert(cviews(v@) =~= cviews(ts@).take(i as int));
                }
            }
            proof {
                lemma_sum_cv(v);
                lemma_sum_cv(*ts);
                assert(cviews(ts@).take(ts@.len() as int) =~= cviews(ts@));
            }
            C::Sum(v)
        },
    }
}

fn cnat_exec(n: i64) -> (r: C)
    ensures
        r@ == cnat(n as int),
{
    if n <= 0 {
        C::Zero
    } else if n > 2147483647 {
        C::Nat(2147483647)
    } else {
        C::Nat(n as i32)
    }
}

/// Appends `c` to a summand list, zeros dropped and a sum opened.
fn push_part(out: &mut Vec<C>, c: C)
    ensures
        cviews(final(out)@) == cviews(old(out)@) + match c@ {
            CV::Zero => Seq::empty(),
            CV::Sum(inner) => inner,
            p => seq![p],
        },
{
    let ghost o0 = cviews(out@);
    match c {
        C::Zero => {
            proof {
                assert(cviews(out@) =~= o0 + Seq::<CV>::empty());
            }
        },
        C::Sum(ts) => {
            proof {
                lemma_sum_cv(ts);
            }
            let mut i: usize = 0;
            while i < ts.len()
                invariant
                    i <= ts@.len(),
                    cviews(out@) == o0 + cviews(ts@).take(i as int),
                decreases ts.len() - i,
            {
                let t = clone_c(&ts[i]);
                let ghost q0 = out@;
                out.push(t);
                i = i + 1;
                proof {
                    assert(cviews(out@) =~= cviews(q0).push(t@));
                    assert(cviews(out@) =~= o0 + cviews(ts@).take(i as int));
                }
            }
            proof {
                assert(cviews(ts@).take(ts@.len() as int) =~= cviews(ts@));
            }
        },
        other => {
            let ghost ov = other@;
            out.push(other);
            proof {
                assert(cviews(out@) =~= o0 + seq![ov]);
            }
        },
    }
}

/// Exec side of `csum`; consumes the parts.
pub fn c_sum(parts: Vec<C>) -> (r: C)
    ensures
        r@ == csum(cviews(parts@)),
{
    let ghost pv = cviews(parts@);
    let mut out: Vec<C> = Vec::new();
    let mut rest = parts;
    let mut taken: Vec<C> = Vec::new();
    let ghost n = pv.len();
    proof {
        assert(cviews(out@) =~= sum_parts(pv.take(0)));
    }
    let mut i: usize = 0;
    while i < rest.len()
        invariant
            i <= rest@.len(),
            cviews(rest@) == pv,
            cviews(out@) == sum_parts(pv.take(i as int)),
        decreases rest.len() - i,
    {
        proof {
            assert(pv.take(i + 1).drop_last() =~= pv.take(i as int));
            assert(pv.take(i + 1).last() == rest@[i as int]@);
        }
        let c = clone_c(&rest[i]);
        push_part(&mut out, c);
        i = i + 1;
    }
    proof {
        assert(pv.take(rest@.len() as int) =~= pv);
    }
    if out.len() == 0 {
        C::Zero
    } else if out.len() == 1 {
        let r = out.pop().unwrap();
        proof {
            assert(cviews(out@.push(r))[0] == r@);
        }
        r
    } else {
        proof {
            lemma_sum_cv(out);
        }
        C::Sum(out)
    }
}

fn is_zero_c(c: &C) -> (r: bool)
    ensures
        r == (c@ is Zero),
{
    match c {
        C::Zero => true,
        _ => false,
    }
}

fn is_unit_exec(c: &C) -> (r: bool)
    ensures
        r == is_unit(c@),
{
    match c {
        C::One => true,
        C::Nat(n) => *n == 1,
        _ => false,
    }
}

/// Exec side of `cmul`.
fn cmul_exec(a: C, b: C) -> (r: C)
    ensures
        r@ == cmul(a@, b@),
{
    if is_zero_c(&a) || is_zero_c(&b) {
        C::Zero
    } else if is_unit_exec(&a) {
        b
    } else if is_unit_exec(&b) {
        a
    } else {
        C::Mul(Box::new(a), Box::new(b))
    }
}

/// The LaTeX form of an expression.
pub fn render_c(c: &C) -> (r: String)
    ensures
        r@ == render(c@),
    decreases c,
{
    match c {
        C::Zero => lit("0"),
        C::One => lit("1"),
        C::Nat(n) => {
            let mut s = String::new();
            push_int(&mut s, *n as i64);
            s
        },
        C::Omega => lit("\\Omega"),
        C::OmegaSub(a) => {
            let inner = render_c(a);
            let one = lit("1");
            if inner == one {
                lit("\\Omega")
            } else {
                let mut s = lit("\\Omega_{");
                push_string(&mut s, &inner);
                s.append("}");
                proof {
                    assert(s@ =~= render(c@));
                }
                s
            }
        },
        C::OmegaPow(a) => {
            match &**a {
                C::Zero => {
                    proof {
                        assert(a@ == CV::Zero);
                    }
                    return lit("1");
                },
                C::One => {
                    proof {
                        assert(a@ == CV::One);
                    }
                    return lit("\\omega");
                },
                C::Nat(k) => {
                    proof {
                        assert(a@ == CV::Nat(*k));
                    }
                    if *k == 1 {
                        return lit("\\omega");
                    }
                },
                _ => {},
            }
            let mut s = lit("\\omega^{");
            let inner = render_c(a);
            push_string(&mut s, &inner);
            s.append("}");
            proof {
                assert(s@ =~= render(c@));
            }
            s
        },
        C::Psi(v, a) => {
            let mut s = String::new();
            match v {
                None => {
                    s.append("\\psi(");
                },
                Some(w) => {
                    s.append("\\psi_{");
                    let ws = render_c(w);
                    push_string(&mut s, &ws);
                    s.append("}(");
                },
            }
            let inner = render_c(a);
            push_string(&mut s, &inner);
            s.append(")");
            proof {
                assert(s@ =~= render(c@));
            }
            s
        },
        C::Pow(b, e) => {
            let mut s = render_c(b);
            match &**e {
                C::One => {
                    proof {
                        assert(e@ == CV::One);
                    }
                },
                C::Nat(k) => {
                    proof {
                        assert(e@ == CV::Nat(*k));
                    }
                    s.append("^{");
                    push_int(&mut s, *k as i64);
                    s.append("}");
                },
                _ => {
                    proof {
                        assert(!(e@ is One) && !(e@ is Nat));
                    }
                    s.append("^{");
                    let es = render_c(e);
                    push_string(&mut s, &es);
                    s.append("}");
                },
            }
            proof {
                assert(s@ =~= render(c@));
            }
            s
        },
        C::Mul(a, b) => {
            let mut s = render_c(a);
            let bs = render_c(b);
            push_string(&mut s, &bs);
            s
        },
        C::Sum(ts) => {
            proof {
                lemma_sum_cv(*ts);
            }
            let ghost tv = cviews(ts@);
            let mut s = String::new();
            let mut i: usize = 0;
            proof {
                assert(tv.take(0) =~= Seq::<CV>::empty());
            }
            while i < ts.len()
                invariant
                    i <= ts@.len(),
                    tv == cviews(ts@),
                    c@ == CV::Sum(tv),
                    *c is Sum && (*c)->Sum_0 == *ts,
                    s@ == render_list(tv.take(i as int)),
                decreases ts.len() - i,
            {
                proof {
                    assert(decreases_to!(*c => (*c)->Sum_0@[i as int]));
                    assert(tv.take(i + 1).drop_last() =~= tv.take(i as int));
                    assert(tv.take(i + 1)[i as int] == ts@[i as int]@);
                }
                if i > 0 {
                    s.append(" + ");
                }
                let t = render_c(&ts[i]);
                push_string(&mut s, &t);
                i = i + 1;
                proof {
                    assert(s@ =~= render_list(tv.take(i as int)));
                }
            }
            proof {
                assert(tv.take(ts@.len() as int) =~= tv);
            }
            s
        },
    }
}

/// Appends the summands of `c`, nested sums opened.
fn flat_sum_into(c: &C, out: &mut Vec<C>)
    ensures
        cviews(final(out)@) == cviews(old(out)@) + flat_sum(c@),
    decreases c,
{
    match c {
        C::Sum(ts) => {
            proof {
                lemma_sum_cv(*ts);
            }
            let ghost tv = cviews(ts@);
            let ghost o0 = cviews(out@);
            let mut i: usize = 0;
            proof {
                assert(o0 + flat_sum_list(tv.take(0)) =~= o0);
            }
            while i < ts.len()
                invariant
                    i <= ts@.len(),
                    tv == cviews(ts@),
                    *c is Sum && (*c)->Sum_0 == *ts,
                    cviews(out@) == o0 + flat_sum_list(tv.take(i as int)),
                decreases ts.len() - i,
            {
                proof {
                    assert(decreases_to!(*c => (*c)->Sum_0@[i as int]));
                    assert(tv.take(i + 1).drop_last() =~= tv.take(i as int));
                    assert(tv.take(i + 1)[i as int] == ts@[i as int]@);
                }
                flat_sum_into(&ts[i], out);
                i = i + 1;
                proof {
                    assert(cviews(out@) =~= o0 + flat_sum_list(tv.take(i as int)));
                }
            }
            proof {
                assert(tv.take(ts@.len() as int) =~= tv);
            }
        },
        _ => {
            let ghost o0 = cviews(out@);
            let t = clone_c(c);
            out.push(t);
            proof {
                assert(cviews(out@) =~= o0 + seq![c@]);
            }
        },
    }
}

/// Appends the factors of `c`.
fn flat_prod_into(c: &C, out: &mut Vec<C>)
    ensures
        cviews(final(out)@) == cviews(old(out)@) + flat_prod(c@),
    decreases c,
{
    let ghost o0 = cviews(out@);
    match c {
        C::Mul(a, b) => {
            flat_prod_into(a, out);
            flat_prod_into(b, out);
            proof {
                assert(cviews(out@) =~= o0 + flat_prod(c@));
            }
        },
        _ => {
            let t = clone_c(c);
            out.push(t);
            proof {
                assert(cviews(out@) =~= o0 + seq![c@]);
            }
        },
    }
}

fn nat_val_c(c: &C) -> (r: i64)
    ensures
        r == c_nat_val(c@),
        i32::MIN <= r <= i32::MAX,
{
    match c {
        C::Nat(n) => *n as i64,
        C::One => 1,
        _ => 0,
    }
}

fn is_finite_exec(c: &C) -> (r: bool)
    ensures
        r == is_finite_c(c@),
{
    match c {
        C::Nat(_) => true,
        C::One => true,
        C::Zero => true,
        _ => false,
    }
}

/// Exec side of `c_add_ord`.
fn c_add_ord_exec(a: &C, b: &C) -> (r: C)
    ensures
        r@ == c_add_ord(a@, b@),
{
    if is_zero_c(a) {
        return clone_c(b);
    }
    if is_zero_c(b) {
        return clone_c(a);
    }
    let af = is_finite_exec(a);
    let bf = is_finite_exec(b);
    if af && bf {
        return cnat_exec(nat_val_c(a) + nat_val_c(b));
    }
    if af {
        return clone_c(b);
    }
    let mut v: Vec<C> = Vec::new();
    v.push(clone_c(a));
    v.push(clone_c(b));
    proof {
        assert(cviews(v@) =~= seq![a@, b@]);
    }
    c_sum(v)
}

// ============================================================
// Products
// ============================================================

enum PFx {
    PsiP(C, C),
    Other(C),
}

spec fn pfv(e: PFx) -> PF {
    match e {
        PFx::PsiP(b, x) => PF::PsiP(b@, x@),
        PFx::Other(c) => PF::Other(c@),
    }
}

spec fn pfviews(v: Seq<PFx>) -> Seq<PF> {
    Seq::new(v.len(), |i: int| pfv(v[i]))
}

fn classify_exec(f: &C) -> (r: PFx)
    ensures
        pfv(r) == classify(f@),
{
    match f {
        C::Psi(_, _) => {
            let b = clone_c(f);
            let one = cnat_exec(1);
            proof {
                assert(f@ is Psi);
                assert(classify(f@) == PF::PsiP(f@, cnat(1)));
                assert(pfv(PFx::PsiP(b, one)) == PF::PsiP(b@, one@));
            }
            PFx::PsiP(b, one)
        },
        C::Pow(bx, e) => match &**bx {
            C::Psi(_, _) => {
                proof {
                    assert(bx@ is Psi);
                }
                PFx::PsiP(clone_c(bx), clone_c(e))
            },
            _ => {
                proof {
                    assert(!(bx@ is Psi));
                }
                PFx::Other(clone_c(f))
            },
        },
        _ => {
            proof {
                assert(!(f@ is Psi) && !(f@ is Pow));
            }
            PFx::Other(clone_c(f))
        },
    }
}

fn entry_c_ref(e: &PFx) -> (r: C)
    ensures
        r@ == entry_c(pfv(*e)),
{
    match e {
        PFx::PsiP(base, ex) => {
            if is_unit_exec(ex) {
                clone_c(base)
            } else {
                C::Pow(Box::new(clone_c(base)), Box::new(clone_c(ex)))
            }
        },
        PFx::Other(c) => clone_c(c),
    }
}

/// Exec side of `merge_product`.
fn merge_product_exec(a: &C, b: &C) -> (r: C)
    ensures
        r@ == merge_product(a@, b@),
{
    let mut fs: Vec<C> = Vec::new();
    flat_prod_into(a, &mut fs);
    flat_prod_into(b, &mut fs);
    proof {
        assert(cviews(fs@) =~= flat_prod(a@) + flat_prod(b@));
    }
    let ghost fv = cviews(fs@);
    let mut es: Vec<PFx> = Vec::new();
    let mut i: usize = 0;
    proof {
        assert(pfviews(es@) =~= merge_entries(fv.take(0)));
    }
    while i < fs.len()
        invariant
            i <= fs@.len(),
            fv == cviews(fs@),
            pfviews(es@) == merge_entries(fv.take(i as int)),
        decreases fs.len() - i,
    {
        proof {
            assert(fv.take(i + 1).drop_last() =~= fv.take(i as int));
            assert(fv.take(i + 1).last() == fs@[i as int]@);
        }
        let e = classify_exec(&fs[i]);
        let ghost ev = pfv(e);
        let ghost e0 = pfviews(es@);
        let n = es.len();
        let merge = match (&e, n > 0) {
            (PFx::PsiP(bb, _), true) => match &es[n - 1] {
                PFx::PsiP(lb, _) => render_c(lb) == render_c(bb),
                _ => false,
            },
            _ => false,
        };
        if merge {
            let last = es.pop().unwrap();
            match (last, e) {
                (PFx::PsiP(lb, lx), PFx::PsiP(_, xx)) => {
                    let sum = c_add_ord_exec(&lx, &xx);
                    es.push(PFx::PsiP(lb, sum));
                },
                (l, _) => {
                    es.push(l);
                },
            }
            proof {
                assert(pfviews(es@) =~= e0.update(e0.len() - 1, PF::PsiP(e0.last()->PsiP_0, c_add_ord(e0.last()->PsiP_1, ev->PsiP_1))));
            }
        } else {
            es.push(e);
            proof {
                assert(pfviews(es@) =~= e0.push(ev));
            }
        }
        i = i + 1;
    }
    proof {
        assert(fv.take(fs@.len() as int) =~= fv);
    }
    let ghost ev = pfviews(es@);
    let mut acc = C::One;
    let mut k: usize = 0;
    proof {
        assert(ev.take(0) =~= Seq::<PF>::empty());
    }
    while k < es.len()
        invariant
            k <= es@.len(),
            ev == pfviews(es@),
            acc@ == prod_entries(ev.take(k as int)),
        decreases es.len() - k,
    {
        proof {
            assert(ev.take(k + 1).drop_last() =~= ev.take(k as int));
            assert(ev.take(k + 1).last() == pfv(es@[k as int]));
        }
        let f = entry_c_ref(&es[k]);
        acc = cmul_exec(acc, f);
        k = k + 1;
    }
    proof {
        assert(ev.take(k as int) =~= ev);
    }
    acc
}

pub open spec fn osv(o: Option<C>) -> Option<CV> {
    match o {
        Some(c) => Some(c@),
        None => None,
    }
}

pub open spec fn oov(r: Option<Option<C>>) -> Option<Option<CV>> {
    match r {
        None => None,
        Some(x) => Some(
            match x {
                None => None,
                Some(c) => Some(c@),
            },
        ),
    }
}

fn lead_psi_sub_exec(f: &C) -> (r: Option<Option<C>>)
    ensures
        oov(r) == lead_psi_sub(f@),
    decreases f,
{
    match f {
        C::Psi(v, _) => Some(
            match v {
                Some(w) => Some(clone_c(w)),
                None => None,
            },
        ),
        C::Pow(b, _) => lead_psi_sub_exec(b),
        C::Mul(a, _) => lead_psi_sub_exec(a),
        _ => None,
    }
}

proof fn lemma_any_psi_prefix(ts: Seq<CV>, k: int)
    requires
        0 <= k <= ts.len(),
        any_psi(ts.take(k)),
    ensures
        any_psi(ts),
    decreases ts.len(),
{
    if k == ts.len() {
        assert(ts.take(k) =~= ts);
    } else {
        assert(ts.drop_last().take(k) =~= ts.take(k));
        lemma_any_psi_prefix(ts.drop_last(), k);
    }
}

proof fn lemma_all_below_prefix(ts: Seq<CV>, k: int)
    requires
        0 <= k <= ts.len(),
        !all_below(ts.take(k)),
    ensures
        !all_below(ts),
    decreases ts.len(),
{
    if k == ts.len() {
        assert(ts.take(k) =~= ts);
    } else {
        assert(ts.drop_last().take(k) =~= ts.take(k));
        lemma_all_below_prefix(ts.drop_last(), k);
    }
}

fn contains_psi_exec(c: &C) -> (r: bool)
    ensures
        r == contains_psi(c@),
    decreases c,
{
    match c {
        C::Psi(_, _) => true,
        C::OmegaSub(a) => contains_psi_exec(a),
        C::OmegaPow(a) => contains_psi_exec(a),
        C::Pow(a, b) => contains_psi_exec(a) || contains_psi_exec(b),
        C::Mul(a, b) => contains_psi_exec(a) || contains_psi_exec(b),
        C::Sum(ts) => {
            proof {
                lemma_sum_cv(*ts);
            }
            let mut i: usize = 0;
            while i < ts.len()
                invariant
                    i <= ts@.len(),
                    *c is Sum && (*c)->Sum_0 == *ts,
                    c@ == CV::Sum(cviews(ts@)),
                    !any_psi(cviews(ts@).take(i as int)),
                decreases ts.len() - i,
            {
                proof {
                    assert(decreases_to!(*c => (*c)->Sum_0@[i as int]));
                    assert(cviews(ts@).take(i + 1).drop_last() =~= cviews(ts@).take(i as int));
                    assert(cviews(ts@).take(i + 1)[i as int] == ts@[i as int]@);
                }
                if contains_psi_exec(&ts[i]) {
                    proof {
                        lemma_any_psi_prefix(cviews(ts@), i + 1);
                    }
                    return true;
                }
                i = i + 1;
            }
            proof {
                assert(cviews(ts@).take(ts@.len() as int) =~= cviews(ts@));
            }
            false
        },
        _ => false,
    }
}

fn is_below_c_exec(c: &C) -> (r: bool)
    ensures
        r == is_below_c(c@),
    decreases c,
{
    match c {
        C::Zero => true,
        C::One => true,
        C::Nat(_) => true,
        C::OmegaPow(_) => true,
        C::Psi(v, _) => v.is_none(),
        C::Mul(a, b) => is_below_c_exec(a) && is_below_c_exec(b),
        C::Sum(ts) => {
            proof {
                lemma_sum_cv(*ts);
            }
            let mut i: usize = 0;
            while i < ts.len()
                invariant
                    i <= ts@.len(),
                    *c is Sum && (*c)->Sum_0 == *ts,
                    c@ == CV::Sum(cviews(ts@)),
                    all_below(cviews(ts@).take(i as int)),
                decreases ts.len() - i,
            {
                proof {
                    assert(decreases_to!(*c => (*c)->Sum_0@[i as int]));
                    assert(cviews(ts@).take(i + 1).drop_last() =~= cviews(ts@).take(i as int));
                    assert(cviews(ts@).take(i + 1)[i as int] == ts@[i as int]@);
                }
                if !is_below_c_exec(&ts[i]) {
                    proof {
                        lemma_all_below_prefix(cviews(ts@), i + 1);
                    }
                    return false;
                }
                i = i + 1;
            }
            proof {
                assert(cviews(ts@).take(ts@.len() as int) =~= cviews(ts@));
            }
            true
        },
        _ => false,
    }
}

fn nat_of_exec(c: &C) -> (r: Option<i32>)
    ensures
        match r {
            Some(n) => nat_of_c(c@) == Some(n as int),
            None => nat_of_c(c@) is None,
        },
{
    match c {
        C::Zero => Some(0),
        C::One => Some(1),
        C::Nat(n) => Some(*n),
        _ => None,
    }
}

fn nat_lt_exec(a: &C, b: &C) -> (r: bool)
    ensures
        r == nat_lt(a@, b@),
{
    match (nat_of_exec(a), nat_of_exec(b)) {
        (Some(x), Some(y)) => x < y,
        _ => false,
    }
}

fn psi_block_lt_exec(a: &C, b: &C) -> (r: bool)
    ensures
        r == psi_block_lt(a@, b@),
{
    match (a, b) {
        (C::Psi(va, xa), C::Psi(vb, xb)) => match (va, vb) {
            (None, None) => nat_lt_exec(xa, xb),
            (Some(x), Some(y)) => render_c(x) == render_c(y) && nat_lt_exec(xa, xb),
            _ => false,
        },
        _ => false,
    }
}

fn drop_before_exec(last: &C, sub: &Option<C>, t: &C) -> (r: bool)
    ensures
        r == drop_before(last@, osv(*sub), t@),
{
    match last {
        C::OmegaPow(e) => match sub {
            Some(_) => is_below_c_exec(e),
            None => !contains_psi_exec(e),
        },
        C::Nat(_) => true,
        C::One => true,
        C::Psi(_, _) => psi_block_lt_exec(last, t),
        _ => false,
    }
}

/// Exec side of `absorb_small_before`, in place.
fn absorb_exec(out: &mut Vec<C>, t: &C)
    ensures
        cviews(final(out)@) == absorb_small_before(cviews(old(out)@), t@),
{
    match lead_psi_sub_exec(t) {
        None => {},
        Some(sub) => {
            let ghost sv = osv(sub);
            let ghost target = absorb_pop(cviews(out@), sv, t@);
            while out.len() > 0 && drop_before_exec(&out[out.len() - 1], &sub, t)
                invariant
                    absorb_pop(cviews(out@), sv, t@) == target,
                    sv == osv(sub),
                decreases out.len(),
            {
                let ghost o0 = out@;
                proof {
                    assert(cviews(o0).last() == o0[o0.len() - 1]@);
                }
                out.pop();
                proof {
                    assert(cviews(out@) =~= cviews(o0).drop_last());
                }
            }
            proof {
                if out@.len() > 0 {
                    assert(cviews(out@).last() == out@[out@.len() - 1]@);
                }
            }
        },
    }
}

/// Exec side of `normalize_product`.
fn normalize_product_exec(fs: &Vec<C>) -> (r: C)
    ensures
        r@ == normalize_product(cviews(fs@)),
{
    let ghost fv = cviews(fs@);
    let mut m: Vec<C> = Vec::new();
    let mut i: usize = 0;
    proof {
        assert(cviews(m@) =~= merge_pows(fv.take(0)));
    }
    while i < fs.len()
        invariant
            i <= fs@.len(),
            fv == cviews(fs@),
            cviews(m@) == merge_pows(fv.take(i as int)),
        decreases fs.len() - i,
    {
        proof {
            assert(fv.take(i + 1).drop_last() =~= fv.take(i as int));
            assert(fv.take(i + 1).last() == fs@[i as int]@);
        }
        let ghost m0 = cviews(m@);
        let n = m.len();
        let both = n > 0 && match (&m[n - 1], &fs[i]) {
            (C::OmegaPow(_), C::OmegaPow(_)) => true,
            _ => false,
        };
        if both {
            let last = m.pop().unwrap();
            match (&last, &fs[i]) {
                (C::OmegaPow(u), C::OmegaPow(v)) => {
                    let s = c_add_ord_exec(u, v);
                    m.push(C::OmegaPow(Box::new(s)));
                },
                _ => {
                    m.push(last);
                },
            }
            proof {
                assert(cviews(m@) =~= m0.update(m0.len() - 1, CV::OmegaPow(Box::new(c_add_ord(*m0.last()->OmegaPow_0, *fv[i as int]->OmegaPow_0)))));
            }
        } else {
            let c = clone_c(&fs[i]);
            m.push(c);
            proof {
                assert(cviews(m@) =~= m0.push(fv[i as int]));
            }
        }
        i = i + 1;
    }
    proof {
        assert(fv.take(fs@.len() as int) =~= fv);
    }
    let ghost mv = cviews(m@);
    let mut ab: Vec<C> = Vec::new();
    let mut j: usize = 0;
    proof {
        assert(cviews(ab@) =~= absorb_all(mv.take(0)));
    }
    while j < m.len()
        invariant
            j <= m@.len(),
            mv == cviews(m@),
            cviews(ab@) == absorb_all(mv.take(j as int)),
        decreases m.len() - j,
    {
        proof {
            assert(mv.take(j + 1).drop_last() =~= mv.take(j as int));
            assert(mv.take(j + 1).last() == m@[j as int]@);
        }
        absorb_exec(&mut ab, &m[j]);
        let ghost a0 = cviews(ab@);
        let c = clone_c(&m[j]);
        ab.push(c);
        proof {
            assert(cviews(ab@) =~= a0.push(mv[j as int]));
        }
        j = j + 1;
    }
    proof {
        assert(mv.take(m@.len() as int) =~= mv);
        assert(cviews(ab@).subrange(0, ab@.len() as int) =~= cviews(ab@));
    }
    merge_all_exec(&ab, 0)
}

/// Exec side of `merge_all` on `fs[from..]`.
fn merge_all_exec(fs: &Vec<C>, from: usize) -> (r: C)
    requires
        from <= fs@.len(),
    ensures
        r@ == merge_all(cviews(fs@).subrange(from as int, fs@.len() as int)),
{
    let ghost fv = cviews(fs@);
    let mut acc = C::One;
    let mut i: usize = from;
    proof {
        assert(fv.subrange(from as int, from as int) =~= Seq::<CV>::empty());
    }
    while i < fs.len()
        invariant
            from <= i <= fs@.len(),
            fv == cviews(fs@),
            acc@ == merge_all(fv.subrange(from as int, i as int)),
        decreases fs.len() - i,
    {
        proof {
            assert(fv.subrange(from as int, i + 1).drop_last() =~= fv.subrange(from as int, i as int));
            assert(fv.subrange(from as int, i + 1).last() == fs@[i as int]@);
        }
        acc = merge_product_exec(&acc, &fs[i]);
        i = i + 1;
    }
    acc
}

// ============================================================
// ω-powers of fixed points
// ============================================================

pub open spec fn fbv(r: Option<(C, Option<C>)>) -> Option<(CV, Option<CV>)> {
    match r {
        None => None,
        Some(x) => Some((x.0@, osv(x.1))),
    }
}

fn base_ok_exec(p: &C, card: bool) -> (r: bool)
    ensures
        r == (if card {
            p@ is Omega || p@ is OmegaSub
        } else {
            p@ is Psi
        }),
{
    match p {
        C::Omega => card,
        C::OmegaSub(_) => card,
        C::Psi(_, _) => !card,
        _ => false,
    }
}

/// Exec side of `fixed_block`.
fn fixed_block_exec(b: &C, card: bool) -> (r: Option<(C, Option<C>)>)
    ensures
        fbv(r) == fixed_block(b@, card),
{
    match b {
        C::Mul(a, k) => {
            if !card && base_ok_exec(a, false) {
                Some((clone_c(a), Some(clone_c(k))))
            } else {
                None
            }
        },
        C::Pow(p, j) => {
            if base_ok_exec(p, card) {
                match &**j {
                    C::Nat(n) => {
                        proof {
                            assert(j@ == CV::Nat(*n));
                        }
                        if *n >= 2 {
                            let k = cnat_exec(*n as i64 - 1);
                            Some((clone_c(p), Some(C::Pow(Box::new(clone_c(p)), Box::new(k)))))
                        } else {
                            Some((clone_c(p), None))
                        }
                    },
                    _ => {
                        proof {
                            assert(!(j@ is Nat));
                        }
                        Some((clone_c(p), Some(C::Pow(Box::new(clone_c(p)), Box::new(clone_c(j))))))
                    },
                }
            } else {
                None
            }
        },
        _ => {
            if base_ok_exec(b, card) {
                Some((clone_c(b), None))
            } else {
                None
            }
        },
    }
}

fn coef_form_exec(base: C, coef: Option<C>) -> (r: C)
    ensures
        r@ == coef_form(base@, osv(coef)),
{
    match coef {
        None => base,
        Some(k) => C::Pow(Box::new(base), Box::new(k)),
    }
}

/// Exec side of `factor_omega_pow`.
fn factor_omega_pow_exec(e: &C) -> (r: Vec<C>)
    ensures
        cviews(r@) == factor_omega_pow(e@),
{
    let mut bs: Vec<C> = Vec::new();
    flat_sum_into(e, &mut bs);
    proof {
        assert(cviews(bs@) =~= flat_sum(e@));
    }
    let ghost bv = cviews(bs@);
    let mut factors: Vec<C> = Vec::new();
    let mut plain: Vec<C> = Vec::new();
    let mut i: usize = 0;
    proof {
        assert((cviews(factors@), cviews(plain@)) == factor_fold(bv.take(0))) by {
            assert(bv.take(0) =~= Seq::<CV>::empty());
            assert(cviews(factors@) =~= Seq::<CV>::empty());
            assert(cviews(plain@) =~= Seq::<CV>::empty());
        }
    }
    while i < bs.len()
        invariant
            i <= bs@.len(),
            bv == cviews(bs@),
            (cviews(factors@), cviews(plain@)) == factor_fold(bv.take(i as int)),
        decreases bs.len() - i,
    {
        proof {
            assert(bv.take(i + 1).drop_last() =~= bv.take(i as int));
            assert(bv.take(i + 1).last() == bs@[i as int]@);
        }
        let ghost f0 = cviews(factors@);
        let ghost p0 = cviews(plain@);
        let fixed = match fixed_block_exec(&bs[i], false) {
            Some(x) => Some(x),
            None => fixed_block_exec(&bs[i], true),
        };
        match fixed {
            Some(x) => {
                if plain.len() > 0 {
                    let taken = plain;
                    plain = Vec::new();
                    let s = c_sum(taken);
                    factors.push(C::OmegaPow(Box::new(s)));
                }
                let ghost f1 = cviews(factors@);
                let ghost xv = (x.0@, osv(x.1));
                let cf = coef_form_exec(x.0, x.1);
                factors.push(cf);
                proof {
                    assert(cviews(factors@) =~= f1.push(cf@));
                    assert(cviews(plain@) =~= Seq::<CV>::empty());
                    if p0.len() > 0 {
                        assert(f1 =~= f0 + seq![CV::OmegaPow(Box::new(csum(p0)))]);
                    } else {
                        assert(f1 =~= f0 + Seq::<CV>::empty());
                    }
                    assert(cviews(factors@) =~= f0 + (if p0.len() > 0 {
                        seq![CV::OmegaPow(Box::new(csum(p0)))]
                    } else {
                        Seq::empty()
                    }) + seq![coef_form(xv.0, xv.1)]);
                }
            },
            None => {
                let c = clone_c(&bs[i]);
                plain.push(c);
                proof {
                    assert(cviews(plain@) =~= p0.push(bv[i as int]));
                }
            },
        }
        i = i + 1;
    }
    proof {
        assert(bv.take(bs@.len() as int) =~= bv);
    }
    let ghost f0 = cviews(factors@);
    let ghost p0 = cviews(plain@);
    if plain.len() > 0 {
        let s = c_sum(plain);
        factors.push(C::OmegaPow(Box::new(s)));
        proof {
            assert(cviews(factors@) =~= f0 + seq![CV::OmegaPow(Box::new(csum(p0)))]);
        }
    } else {
        proof {
            assert(cviews(factors@) =~= f0 + Seq::<CV>::empty());
        }
    }
    factors
}

fn level_gt_exec(v: &C, s: &C) -> (r: bool)
    ensures
        r == level_gt(v@, s@),
{
    match (v, s) {
        (C::Nat(a), C::Nat(b)) => *b > *a,
        (C::Nat(_), _) => true,
        _ => false,
    }
}

fn big_factor_exec(beta: &C, v: &C) -> (r: bool)
    ensures
        r == big_factor(beta@, v@),
    decreases beta,
{
    match beta {
        C::OmegaSub(s) => level_gt_exec(v, s),
        C::Psi(u, _) => match u {
            Some(w) => level_gt_exec(v, w),
            None => false,
        },
        C::Mul(a, _) => big_factor_exec(a, v),
        C::Pow(b, _) => big_factor_exec(b, v),
        _ => false,
    }
}

// ============================================================
// One pass and the fixed point
// ============================================================

/// Exec side of `sum_step`, in place.
fn sum_step_exec(out: &mut Vec<C>, nt: C)
    ensures
        cviews(final(out)@) == sum_step(cviews(old(out)@), nt@),
{
    let ghost o0 = cviews(out@);
    let (lead, inf) = match &nt {
        C::Mul(x, k) => (render_c(x), !is_nat_c(k)),
        C::Pow(x, k) => (render_c(x), !is_nat_c(k)),
        _ => (String::new(), false),
    };
    proof {
        assert((lead@, inf) == lead_inf(nt@));
    }
    let empty = String::new();
    let n = out.len();
    let mut dropped = false;
    if n > 0 && inf && !(lead == empty) {
        let last = render_c(&out[n - 1]);
        if last == lead {
            out.pop();
            dropped = true;
            proof {
                assert(cviews(out@) =~= o0.drop_last());
            }
        }
    }
    proof {
        let li = lead_inf(nt@);
        if n > 0 {
            assert(o0.last() == old(out)@[n - 1]@);
        }
        assert(empty@ == Seq::<char>::empty());
        if lead@.len() == 0 {
            assert(lead@ =~= empty@);
        }
        assert(lead@.len() > 0 <==> lead@ != empty@);
        let o1 = if o0.len() > 0 && li.1 && li.0.len() > 0 && render(o0.last()) == li.0 {
            o0.drop_last()
        } else {
            o0
        };
        assert(cviews(out@) == o1);
    }
    absorb_exec(out, &nt);
    let ghost o2 = cviews(out@);
    out.push(nt);
    proof {
        assert(cviews(out@) =~= o2.push(nt@));
    }
}

fn is_nat_c(c: &C) -> (r: bool)
    ensures
        r == (c@ is Nat),
{
    match c {
        C::Nat(_) => true,
        _ => false,
    }
}

fn base_count_exec(last: &C) -> (r: (String, i64))
    ensures
        (r.0@, r.1 as int) == base_count(last@),
        i32::MIN <= r.1 <= i32::MAX,
{
    match last {
        C::Mul(x, k) => match &**k {
            C::Nat(n) => {
                proof {
                    assert(k@ == CV::Nat(*n));
                }
                (render_c(x), *n as i64)
            },
            _ => {
                proof {
                    assert(!(k@ is Nat));
                }
                (String::new(), 0)
            },
        },
        other => (render_c(other), 1),
    }
}

fn base_of_exec(last: &C) -> (r: C)
    ensures
        r@ == base_of(last@),
{
    match last {
        C::Mul(x, _) => clone_c(x),
        other => clone_c(other),
    }
}

/// Exec side of `merge_like`.
fn merge_like_exec(ts: &Vec<C>) -> (r: Vec<C>)
    ensures
        cviews(r@) == merge_like(cviews(ts@)),
{
    let ghost tv = cviews(ts@);
    let mut m: Vec<C> = Vec::new();
    let mut i: usize = 0;
    proof {
        assert(cviews(m@) =~= merge_like(tv.take(0)));
    }
    while i < ts.len()
        invariant
            i <= ts@.len(),
            tv == cviews(ts@),
            cviews(m@) == merge_like(tv.take(i as int)),
        decreases ts.len() - i,
    {
        proof {
            assert(tv.take(i + 1).drop_last() =~= tv.take(i as int));
            assert(tv.take(i + 1).last() == ts@[i as int]@);
        }
        let ghost m0 = cviews(m@);
        let r = render_c(&ts[i]);
        let n = m.len();
        let mut merged = false;
        if n > 0 {
            let (base_r, cnt) = base_count_exec(&m[n - 1]);
            if cnt > 0 && base_r == r {
                let base = base_of_exec(&m[n - 1]);
                let k = cnat_exec(cnt + 1);
                m.pop();
                m.push(C::Mul(Box::new(base), Box::new(k)));
                merged = true;
                proof {
                    assert(m0.last() == m0[m0.len() - 1]);
                    assert(cviews(m@) =~= m0.update(m0.len() - 1, CV::Mul(Box::new(base_of(m0.last())), Box::new(cnat(base_count(m0.last()).1 + 1)))));
                }
            }
        }
        if !merged {
            let c = clone_c(&ts[i]);
            m.push(c);
            proof {
                assert(cviews(m@) =~= m0.push(tv[i as int]));
            }
        }
        i = i + 1;
    }
    proof {
        assert(tv.take(ts@.len() as int) =~= tv);
    }
    m
}

/// Exec side of `norm_once`.
fn norm_once_exec(c: &C) -> (r: C)
    ensures
        r@ == norm_once(c@),
    decreases c,
{
    match c {
        C::OmegaPow(e) => {
            let en = norm_once_exec(e);
            let mut fs = factor_omega_pow_exec(&en);
            if fs.len() == 1 {
                let r = fs.pop().unwrap();
                proof {
                    assert(cviews(fs@.push(r))[0] == r@);
                }
                r
            } else {
                normalize_product_exec(&fs)
            }
        },
        C::Mul(a, b) => {
            let na = norm_once_exec(a);
            let nb = norm_once_exec(b);
            let mut fs: Vec<C> = Vec::new();
            flat_prod_into(&na, &mut fs);
            flat_prod_into(&nb, &mut fs);
            let ghost fv = cviews(fs@);
            proof {
                assert(fv =~= flat_prod(na@) + flat_prod(nb@));
                assert(fv.subrange(1, fv.len() as int) =~= fv.drop_first());
            }
            if fs.len() > 1 {
                match &fs[0] {
                    C::Psi(Some(v), x) => {
                        let acc = merge_all_exec(&fs, 1);
                        if big_factor_exec(&acc, v) {
                            let mut parts: Vec<C> = Vec::new();
                            parts.push(clone_c(x));
                            let ghost av = acc@;
                            parts.push(acc);
                            proof {
                                assert(cviews(parts@) =~= seq![x@, av]);
                            }
                            let s = c_sum(parts);
                            return C::Psi(Some(Box::new(clone_c(v))), Box::new(s));
                        }
                    },
                    _ => {},
                }
            }
            normalize_product_exec(&fs)
        },
        C::Sum(ts) => {
            proof {
                lemma_sum_cv(*ts);
            }
            let ghost tv = cviews(ts@);
            let mut out: Vec<C> = Vec::new();
            let mut i: usize = 0;
            proof {
                assert(cviews(out@) =~= norm_sum(tv.take(0)));
            }
            while i < ts.len()
                invariant
                    i <= ts@.len(),
                    tv == cviews(ts@),
                    *c is Sum && (*c)->Sum_0 == *ts,
                    cviews(out@) == norm_sum(tv.take(i as int)),
                decreases ts.len() - i,
            {
                proof {
                    assert(decreases_to!(*c => (*c)->Sum_0@[i as int]));
                    assert(tv.take(i + 1).drop_last() =~= tv.take(i as int));
                    assert(tv.take(i + 1)[i as int] == ts@[i as int]@);
                }
                let nt = norm_once_exec(&ts[i]);
                sum_step_exec(&mut out, nt);
                i = i + 1;
            }
            proof {
                assert(tv.take(ts@.len() as int) =~= tv);
            }
            let merged = merge_like_exec(&out);
            c_sum(merged)
        },
        C::Psi(v, a) => {
            let nv = match v {
                Some(w) => Some(Box::new(norm_once_exec(w))),
                None => None,
            };
            C::Psi(nv, Box::new(norm_once_exec(a)))
        },
        C::Pow(b, e) => {
            let ne = norm_once_exec(e);
            let nb = norm_once_exec(b);
            if is_unit_exec(&ne) {
                nb
            } else {
                C::Pow(Box::new(nb), Box::new(ne))
            }
        },
        C::OmegaSub(a) => C::OmegaSub(Box::new(norm_once_exec(a))),
        _ => clone_c(c),
    }
}

fn norm_iter_exec(cur: C, k: u64) -> (r: C)
    ensures
        r@ == norm_iter(cur@, k as nat),
    decreases k,
{
    if k == 0 {
        return cur;
    }
    let next = norm_once_exec(&cur);
    if render_c(&next) == render_c(&cur) {
        cur
    } else {
        norm_iter_exec(next, k - 1)
    }
}

/// Structural normalization: one pass, then further passes until the
/// rendering stops changing (at most sixteen more).
pub fn mocf_normalize(c: &C) -> (r: C)
    ensures
        r@ == mocf_normalize_spec(c@),
{
    let first = norm_once_exec(c);
    norm_iter_exec(first, 16)
}

} // verus!
