//! Madore's OCF (MOCF): terms over 0 built from `ω^α`, `Ω_α`, `ψ_α(β)`,
//! sums and the display power `q^e`, with their order, arithmetic,
//! fundamental sequences, LaTeX printing and parsing.
//!
//! The display power `q^e` is compared and expanded through its value
//! `ω^{q·e}`, a term that is not a subterm of `q^e`. Each such unfolding
//! spends one unit of a depth budget; the public functions start with
//! `MOCF_DEPTH`, and a spent budget counts the two terms as equal (and
//! expands `q^e` to 0).
use vstd::prelude::*;
use crate::ocf::{strip_ws, strip_ws_chars, digit_run};
use crate::text::{
    chars_of, digits_end, digits_val, is_digit, is_digit_char, lemma_digits_end, nat_str,
    lemma_digits_val_nonneg, lit, push_char, push_chars, push_nat, push_string,
};

verus! {

/// A MOCF term. `Sum` lists its blocks in order; `Pow(q, e)` is the
/// display form of `q^e` for an `ω^`-fixed point `q`.
#[derive(Debug)]
pub enum Mocf {
    Zero,
    Sum(Vec<Mocf>),
    OmegaPow(Box<Mocf>),
    Omega(Box<Mocf>),
    Psi(Box<Mocf>, Box<Mocf>),
    Pow(Box<Mocf>, Box<Mocf>),
}

/// The mathematical model of a term: the same tree, sums as sequences.
#[verifier::ext_equal]
pub enum MocfV {
    Zero,
    Sum(Seq<MocfV>),
    OmegaPow(Box<MocfV>),
    Omega(Box<MocfV>),
    Psi(Box<MocfV>, Box<MocfV>),
    Pow(Box<MocfV>, Box<MocfV>),
}

/// How many nested display powers the order and the expansion unfold.
pub const MOCF_DEPTH: u64 = 64;

pub open spec fn mv(x: Mocf) -> MocfV
    decreases x,
{
    match x {
        Mocf::Zero => MocfV::Zero,
        Mocf::Sum(ts) => MocfV::Sum(
            Seq::new(
                ts@.len(),
                |i: int|
                    if 0 <= i < ts@.len() {
                        mv(ts@[i])
                    } else {
                        MocfV::Zero
                    },
            ),
        ),
        Mocf::OmegaPow(a) => MocfV::OmegaPow(Box::new(mv(*a))),
        Mocf::Omega(a) => MocfV::Omega(Box::new(mv(*a))),
        Mocf::Psi(v, a) => MocfV::Psi(Box::new(mv(*v)), Box::new(mv(*a))),
        Mocf::Pow(b, e) => MocfV::Pow(Box::new(mv(*b)), Box::new(mv(*e))),
    }
}

impl View for Mocf {
    type V = MocfV;

    open spec fn view(&self) -> MocfV {
        mv(*self)
    }
}

/// The models of a list of terms.
pub open spec fn mviews(v: Seq<Mocf>) -> Seq<MocfV> {
    Seq::new(v.len(), |i: int| v[i]@)
}

proof fn lemma_sum_view(v: Vec<Mocf>)
    ensures
        Mocf::Sum(v)@ == MocfV::Sum(mviews(v@)),
{
    let s1 = Seq::new(
        v@.len(),
        |i: int|
            if 0 <= i < v@.len() {
                mv(v@[i])
            } else {
                MocfV::Zero
            },
    );
    assert(s1 =~= mviews(v@));
    assert(mv(Mocf::Sum(v))->Sum_0 == s1);
}

// ============================================================
// Model: shapes
// ============================================================

pub open spec fn one() -> MocfV {
    MocfV::OmegaPow(Box::new(MocfV::Zero))
}

pub open spec fn wpow(a: MocfV) -> MocfV {
    MocfV::OmegaPow(Box::new(a))
}

pub open spec fn omg(a: MocfV) -> MocfV {
    MocfV::Omega(Box::new(a))
}

pub open spec fn psi(v: MocfV, a: MocfV) -> MocfV {
    MocfV::Psi(Box::new(v), Box::new(a))
}

/// Number of nodes, sums counted with their blocks.
pub open spec fn size(x: MocfV) -> nat
    decreases x,
{
    match x {
        MocfV::Zero => 1,
        MocfV::Sum(ts) => 1 + ssz(ts),
        MocfV::OmegaPow(a) => 1 + size(*a),
        MocfV::Omega(a) => 1 + size(*a),
        MocfV::Psi(v, a) => 1 + size(*v) + size(*a),
        MocfV::Pow(b, e) => 1 + size(*b) + size(*e),
    }
}

pub open spec fn ssz(ts: Seq<MocfV>) -> nat
    decreases ts,
{
    if ts.len() == 0 {
        0
    } else {
        size(ts[0]) + ssz(ts.drop_first())
    }
}

/// The blocks of a term: none for 0, the summands of a sum, else itself.
pub open spec fn prims(x: MocfV) -> Seq<MocfV> {
    match x {
        MocfV::Zero => Seq::empty(),
        MocfV::Sum(ts) => ts,
        _ => seq![x],
    }
}

/// Blocks with every sum among them opened one level.
pub open spec fn flat(ps: Seq<MocfV>) -> Seq<MocfV>
    decreases ps.len(),
{
    if ps.len() == 0 {
        ps
    } else {
        flat(ps.drop_last()) + match ps.last() {
            MocfV::Sum(ts) => ts,
            p => seq![p],
        }
    }
}

/// The term made of a list of blocks: 0, the single block, or a sum.
pub open spec fn from_prims(ps: Seq<MocfV>) -> MocfV {
    let fl = flat(ps);
    if fl.len() == 0 {
        MocfV::Zero
    } else if fl.len() == 1 {
        fl[0]
    } else {
        MocfV::Sum(fl)
    }
}

/// `k` copies of the list `ps`, one after another.
pub open spec fn rep(ps: Seq<MocfV>, k: nat) -> Seq<MocfV>
    decreases k,
{
    if k == 0 {
        Seq::empty()
    } else {
        rep(ps, (k - 1) as nat) + ps
    }
}

/// `x · n` for a natural number `n`: the blocks repeated.
pub open spec fn mul_nat(x: MocfV, n: nat) -> MocfV {
    from_prims(rep(prims(x), n))
}

pub open spec fn from_nat(n: nat) -> MocfV {
    mul_nat(one(), n)
}

pub open spec fn sign(d: int) -> int {
    if d > 0 {
        1
    } else if d < 0 {
        -1
    } else {
        0
    }
}

// ============================================================
// Model: order and arithmetic
// ============================================================

/// Order: 1 if `a` is larger, -1 if smaller, 0 if equal. `f` is the
/// budget for unfolding display powers.
pub open spec fn ord(a: MocfV, b: MocfV, f: nat) -> int
    decreases f, size(a) + size(b), 1nat,
{
    if a is Zero || b is Zero || a is Sum || b is Sum {
        proof {
            lemma_prims_size(a);
            lemma_prims_size(b);
        }
        ord_list(prims(a), prims(b), f)
    } else {
        match (a, b) {
            (MocfV::OmegaPow(a1), MocfV::OmegaPow(b1)) => ord(*a1, *b1, f),
            (MocfV::OmegaPow(a1), _) => ord(*a1, b, f),
            (_, MocfV::OmegaPow(b1)) => ord(a, *b1, f),
            (MocfV::Omega(a1), MocfV::Omega(b1)) => ord(*a1, *b1, f),
            (MocfV::Omega(a1), MocfV::Psi(v, a2)) => {
                let c = ord(*a1, *v, f);
                if c != 0 {
                    c
                } else if *a2 is Zero {
                    0
                } else {
                    -1
                }
            },
            (MocfV::Psi(v, a1), MocfV::Omega(b1)) => {
                let c = ord(*v, *b1, f);
                if c != 0 {
                    c
                } else if *a1 is Zero {
                    0
                } else {
                    1
                }
            },
            (MocfV::Psi(v1, a1), MocfV::Psi(v2, a2)) => {
                let c = ord(*v1, *v2, f);
                if c != 0 {
                    c
                } else {
                    ord(*a1, *a2, f)
                }
            },
            (MocfV::Pow(b1, e1), MocfV::Pow(b2, e2)) => if f == 0 {
                0
            } else {
                ord(
                    wpow(omega_mul(*b1, *e1, (f - 1) as nat)),
                    wpow(omega_mul(*b2, *e2, (f - 1) as nat)),
                    (f - 1) as nat,
                )
            },
            (MocfV::Pow(bx, ex), _) => if f == 0 {
                0
            } else {
                ord(wpow(omega_mul(*bx, *ex, (f - 1) as nat)), b, (f - 1) as nat)
            },
            (_, MocfV::Pow(bx, ex)) => if f == 0 {
                0
            } else {
                ord(a, wpow(omega_mul(*bx, *ex, (f - 1) as nat)), (f - 1) as nat)
            },
            _ => 0,
        }
    }
}

/// Lexicographic order of two block lists.
pub open spec fn ord_list(pa: Seq<MocfV>, pb: Seq<MocfV>, f: nat) -> int
    decreases f, ssz(pa) + ssz(pb), 2nat,
{
    if pa.len() == 0 || pb.len() == 0 {
        sign(pa.len() - pb.len())
    } else {
        proof {
            lemma_size_pos(pa[0]);
            lemma_size_pos(pb[0]);
        }
        let c = ord(pa[0], pb[0], f);
        if c != 0 {
            c
        } else {
            ord_list(pa.drop_first(), pb.drop_first(), f)
        }
    }
}

/// The natural number a term spells (its blocks all 1), or -1.
pub open spec fn to_nat(x: MocfV, f: nat) -> int
    decreases f, size(x) + 3, 0nat,
{
    let ps = prims(x);
    if ps.len() == 0 {
        0
    } else {
        proof {
            lemma_prims_elem(x, 0);
            assert(size(one()) == 2) by {
                assert(size(MocfV::Zero) == 1);
            }
        }
        if ord(ps[0], one(), f) != 0 {
            -1
        } else {
            ps.len() as int
        }
    }
}

/// `a + b`: the blocks of both, the blocks of `a` dropped when the last
/// of them is smaller than the first of `b` (blocks are additively
/// principal).
pub open spec fn plus(a: MocfV, b: MocfV, f: nat) -> MocfV
    decreases f, size(a) + size(b) + 1, 0nat,
{
    let ps = prims(a);
    let qs = prims(b);
    let keep = if ps.len() > 0 && qs.len() > 0 {
        proof {
            lemma_prims_elem(a, ps.len() - 1);
            lemma_prims_elem(b, 0);
        }
        if ord(ps.last(), qs[0], f) < 0 {
            Seq::empty()
        } else {
            ps
        }
    } else {
        ps
    };
    from_prims(keep + qs)
}

/// `q · y` for a fixed point `q`; `Ω · n` and `Ω · Ω^e` keep the
/// power-of-Ω shape.
pub open spec fn omega_mul(q: MocfV, y: MocfV, f: nat) -> MocfV
    decreases f, size(q) + size(y) + 3, 3nat,
{
    proof {
        lemma_size_pos(q);
    }
    if q is Omega && (y matches MocfV::Pow(b, e) && *b is Omega) {
        let e = *y->Pow_1;
        let k = to_nat(e, f);
        if k >= 1 {
            from_prims(Seq::new((k + 1) as nat, |i: int| q))
        } else {
            wpow(omega_mul(q, e, f))
        }
    } else if q is Omega && to_nat(y, f) >= 1 {
        from_prims(Seq::new(to_nat(y, f) as nat, |i: int| q))
    } else {
        fixed_mul(q, y, f)
    }
}

/// `q · x` for an `ω^`-fixed point `q`: each block `ω^e` (or fixed
/// point `e`) of `x` becomes `ω^{q+e}`.
pub open spec fn fixed_mul(q: MocfV, x: MocfV, f: nat) -> MocfV
    decreases f, size(q) + size(x) + 2, 5nat,
{
    proof {
        lemma_prims_size(x);
    }
    from_prims(fm_list(q, prims(x), f))
}

pub open spec fn fm_list(q: MocfV, ps: Seq<MocfV>, f: nat) -> Seq<MocfV>
    decreases f, size(q) + ssz(ps) + 2, 4nat,
{
    if ps.len() == 0 {
        Seq::empty()
    } else {
        proof {
            lemma_ssz_last(ps);
        }
        let rest = fm_list(q, ps.drop_last(), f);
        let p = ps.last();
        match p {
            MocfV::Zero => rest,
            MocfV::OmegaPow(e) => rest.push(wpow(plus(q, *e, f))),
            _ => rest.push(wpow(plus(q, p, f))),
        }
    }
}

// ============================================================
// Model: cofinality and fundamental sequences
// ============================================================

/// The cofinality marker: `None` for 0 and successors.
pub open spec fn cof(x: MocfV, f: nat) -> Option<MocfV>
    decreases x,
{
    match x {
        MocfV::Zero => None,
        MocfV::Sum(ts) => if ts.len() == 0 {
            None
        } else {
            cof(ts[ts.len() - 1], f)
        },
        MocfV::OmegaPow(a) => if *a is Zero {
            None
        } else {
            Some(
                match cof(*a, f) {
                    Some(c) => c,
                    None => MocfV::Zero,
                },
            )
        },
        MocfV::Omega(a) => match cof(*a, f) {
            Some(c) => Some(c),
            None => Some(*a),
        },
        MocfV::Psi(v, a) => if *a is Zero {
            Some(MocfV::Zero)
        } else {
            match cof(*a, f) {
                Some(c) => if ord(c, *v, f) <= 0 {
                    Some(c)
                } else {
                    Some(MocfV::Zero)
                },
                None => Some(MocfV::Zero),
            }
        },
        MocfV::Pow(_, e) => cof(*e, f),
    }
}

/// The natural number an index spells, 0 when it spells none.
pub open spec fn nat_idx(idx: MocfV, f: nat) -> nat {
    if to_nat(idx, f) >= 0 {
        to_nat(idx, f) as nat
    } else {
        0
    }
}

/// `ω^ω^…^x` with `k` exponentiations.
pub open spec fn tower(x: MocfV, k: nat) -> MocfV
    decreases k,
{
    if k == 0 {
        x
    } else {
        wpow(tower(x, (k - 1) as nat))
    }
}

/// The fundamental sequence at an arbitrary term as index.
pub open spec fn fs(x: MocfV, idx: MocfV, f: nat) -> MocfV
    decreases f, size(x), 0nat,
{
    match x {
        MocfV::Zero => MocfV::Zero,
        MocfV::Sum(ts) => if ts.len() == 0 {
            MocfV::Zero
        } else {
            proof {
                lemma_ssz_elem(ts, ts.len() - 1);
            }
            let tail = fs(ts[ts.len() - 1], idx, f);
            from_prims(ts.drop_last() + prims(tail))
        },
        MocfV::OmegaPow(a) => if *a is Zero {
            MocfV::Zero
        } else {
            match cof(*a, f) {
                None => mul_nat(wpow(fs(*a, MocfV::Zero, f)), nat_idx(idx, f)),
                Some(_) => wpow(fs(*a, idx, f)),
            }
        },
        MocfV::Pow(b, e) => if f == 0 {
            MocfV::Zero
        } else {
            fs(wpow(fixed_mul(*b, *e, (f - 1) as nat)), idx, (f - 1) as nat)
        },
        MocfV::Omega(a) => match cof(*a, f) {
            None => from_nat(nat_idx(idx, f)),
            Some(_) => {
                let e = fs(*a, idx, f);
                if e is Zero {
                    MocfV::Zero
                } else {
                    omg(e)
                }
            },
        },
        MocfV::Psi(v, a) => match cof(*a, f) {
            None => {
                let i = nat_idx(idx, f);
                let base = if *a is Zero {
                    if *v is Zero {
                        MocfV::Zero
                    } else {
                        omg(*v)
                    }
                } else {
                    psi(*v, fs(*a, MocfV::Zero, f))
                };
                if i == 0 {
                    base
                } else {
                    tower(plus(base, one(), f), (i - 1) as nat)
                }
            },
            Some(c) => if ord(c, *v, f) <= 0 {
                psi(*v, fs(*a, idx, f))
            } else {
                proof {
                    lemma_cof_size(*a, f);
                }
                psi(*v, psi_iter(*a, fs(c, MocfV::Zero, f), nat_idx(idx, f), f))
            },
        },
    }
}

/// `k` rounds of `r ↦ a[ψ_p(r)]` from 0.
pub open spec fn psi_iter(a: MocfV, p: MocfV, k: nat, f: nat) -> MocfV
    decreases f, size(a), k + 1,
{
    if k == 0 {
        MocfV::Zero
    } else {
        fs(a, psi(p, psi_iter(a, p, (k - 1) as nat, f)), f)
    }
}

/// What `Mocf::expand` gives: the fundamental sequence at a natural
/// number (a negative index counts as 0).
pub open spec fn mocf_fs(x: MocfV, index: i32) -> MocfV {
    fs(x, from_nat(if index < 0 { 0 } else { index as nat }), MOCF_DEPTH as nat)
}

pub proof fn lemma_cof_size(x: MocfV, f: nat)
    ensures
        cof(x, f) is Some ==> size(cof(x, f)->Some_0) < size(x),
    decreases x,
{
    lemma_size_pos(x);
    match x {
        MocfV::Sum(ts) => {
            if ts.len() > 0 {
                assert(decreases_to!(x => ts[ts.len() - 1]));
                lemma_cof_size(ts[ts.len() - 1], f);
                lemma_ssz_elem(ts, ts.len() - 1);
            }
        },
        MocfV::OmegaPow(a) => {
            lemma_cof_size(*a, f);
            lemma_size_pos(*a);
            assert(size(MocfV::Zero) == 1);
        },
        MocfV::Omega(a) => {
            lemma_cof_size(*a, f);
        },
        MocfV::Psi(v, a) => {
            lemma_cof_size(*a, f);
            lemma_size_pos(*a);
            lemma_size_pos(*v);
            assert(size(MocfV::Zero) == 1);
        },
        MocfV::Pow(_, e) => {
            lemma_cof_size(*e, f);
        },
        MocfV::Zero => {},
    }
}

// ============================================================
// Model: multiplication and powers
// ============================================================

/// The `ω^`-exponent of a whole block (`ω^e ↦ e`; `Ω_a` and `ψ_a(b)`
/// are their own), or why there is none.
pub open spec fn block_exponent(p: MocfV, f: nat) -> Result<MocfV, Seq<char>> {
    match p {
        MocfV::Zero => Err("zero factor"@),
        MocfV::OmegaPow(e) => Ok(*e),
        MocfV::Omega(_) => Ok(p),
        MocfV::Psi(_, _) => Ok(p),
        MocfV::Pow(q, y) => if *q is Psi || *q is Omega {
            Ok(omega_mul(*q, *y, f))
        } else {
            Err("unsupported power factor in multiplication"@)
        },
        MocfV::Sum(_) => Err("sum is not a whole block"@),
    }
}

/// `deg + e`, except that a level-raising `ψ_v(0)` factor with `v ≠ 0`
/// is kept in front of a larger `e`.
pub open spec fn combine(deg: MocfV, e: MocfV, f: nat) -> MocfV {
    if ord(deg, e, f) < 0 && (deg matches MocfV::Psi(v, a) && !(*v is Zero) && *a is Zero) {
        from_prims(seq![deg, e])
    } else {
        plus(deg, e, f)
    }
}

/// The product's blocks for the right operand's blocks `ps`: the sum of
/// `ω^{deg·e}` over the infinite blocks, and the count of unit blocks.
pub open spec fn mul_fold(deg: MocfV, ps: Seq<MocfV>, f: nat) -> Result<(MocfV, nat), Seq<char>>
    decreases ps.len(),
{
    if ps.len() == 0 {
        Ok((MocfV::Zero, 0))
    } else {
        match mul_fold(deg, ps.drop_last(), f) {
            Err(m) => Err(m),
            Ok(r) => {
                let p = ps.last();
                if ord(p, one(), f) == 0 {
                    Ok((r.0, r.1 + 1))
                } else {
                    match block_exponent(p, f) {
                        Err(m) => Err(m),
                        Ok(e) => Ok((plus(r.0, wpow(combine(deg, e, f)), f), r.1)),
                    }
                }
            },
        }
    }
}

/// Ordinal product `a × b` of whole blocks and their sums.
#[verifier::opaque]
pub open spec fn mul_mocf(a: MocfV, b: MocfV, f: nat) -> Result<MocfV, Seq<char>> {
    if a is Zero || b is Zero || prims(a).len() == 0 {
        Ok(MocfV::Zero)
    } else if to_nat(b, f) >= 1 {
        Ok(mul_nat(a, to_nat(b, f) as nat))
    } else {
        match block_exponent(prims(a)[0], f) {
            Err(m) => Err(m),
            Ok(deg) => match mul_fold(deg, prims(b), f) {
                Err(m) => Err(m),
                Ok(r) => Ok(
                    if r.1 > 0 {
                        plus(r.0, mul_nat(a, r.1), f)
                    } else {
                        r.0
                    },
                ),
            },
        }
    }
}

/// `e` keeps the display form `Ω^e`: a bare `Ω_a` or an `Ω_a`-power.
pub open spec fn is_omega_pow_exp(e: MocfV) -> bool {
    e is Omega || (e matches MocfV::Pow(b, _) && *b is Omega)
}

/// `base^exp` as the parser builds it: `ω^{base·exp}`, but `Ω_a^e`
/// stays a display power below `Ω` or over an `Ω`-power exponent.
#[verifier::opaque]
pub open spec fn mocf_pow(base: MocfV, exp: MocfV, f: nat) -> Result<MocfV, Seq<char>> {
    match base {
        MocfV::Psi(_, _) => match mul_mocf(base, exp, f) {
            Err(m) => Err(m),
            Ok(t) => Ok(wpow(t)),
        },
        MocfV::Omega(_) => if is_omega_pow_exp(exp) || ord(exp, omg(one()), f) < 0 {
            Ok(MocfV::Pow(Box::new(base), Box::new(exp)))
        } else {
            match mul_mocf(base, exp, f) {
                Err(m) => Err(m),
                Ok(t) => Ok(wpow(t)),
            }
        },
        MocfV::OmegaPow(x) => match mul_mocf(*x, exp, f) {
            Err(m) => Err(m),
            Ok(t) => Ok(wpow(t)),
        },
        _ => Err("^ is only supported for \\psi and \\Omega bases"@),
    }
}

// ============================================================
// Model: parsing
// ============================================================

/// A parse result: the term and the position after it; `Err(None)`
/// marks a numeral too large for `i32`, `Err(Some(msg))` an error.
pub type PRes = Result<(MocfV, int), Option<Seq<char>>>;

pub open spec fn lift(r: Result<MocfV, Seq<char>>, q: int) -> PRes {
    match r {
        Ok(x) => Ok((x, q)),
        Err(m) => Err(Some(m)),
    }
}

/// `c` at `q`, then the position after it.
pub open spec fn expect(cs: Seq<char>, x: MocfV, q: int, c: char, msg: Seq<char>) -> PRes {
    if 0 <= q < cs.len() && cs[q] == c {
        Ok((x, q + 1))
    } else {
        Err(Some(msg))
    }
}

/// A multiplication sign at `q`: its length, or 0.
pub open spec fn times_len(cs: Seq<char>, q: int) -> int {
    if 0 <= q && q + 5 <= cs.len() && cs[q] == '\\' && cs[q + 1] == 'c' && cs[q + 2] == 'd'
        && cs[q + 3] == 'o' && cs[q + 4] == 't' {
        5
    } else if 0 <= q < cs.len() && (cs[q] == '·' || cs[q] == '×' || cs[q] == '*') {
        1
    } else {
        0
    }
}

/// A sum of terms at `pos`.
pub open spec fn p_expr(cs: Seq<char>, pos: int) -> PRes
    decreases cs.len() - pos, 6nat,
{
    match p_term(cs, pos) {
        Err(e) => Err(e),
        Ok(r) => if !(pos < r.1 <= cs.len()) {
            Err(Some(Seq::empty()))
        } else {
            p_expr_rest(cs, r.1, seq![r.0])
        },
    }
}

/// More `+ term` after the summands `acc`.
pub open spec fn p_expr_rest(cs: Seq<char>, pos: int, acc: Seq<MocfV>) -> PRes
    decreases cs.len() - pos, 5nat,
{
    if 0 <= pos < cs.len() && cs[pos] == '+' {
        match p_term(cs, pos + 1) {
            Err(e) => Err(e),
            Ok(r) => if !(pos + 1 < r.1 <= cs.len()) {
                Err(Some(Seq::empty()))
            } else {
                p_expr_rest(cs, r.1, acc.push(r.0))
            },
        }
    } else {
        Ok((from_prims(acc), pos))
    }
}

/// A product of power factors at `pos`.
pub open spec fn p_term(cs: Seq<char>, pos: int) -> PRes
    decreases cs.len() - pos, 4nat,
{
    match p_pow_factor(cs, pos) {
        Err(e) => Err(e),
        Ok(r) => if !(pos < r.1 <= cs.len()) {
            Err(Some(Seq::empty()))
        } else {
            p_term_rest(cs, r.1, r.0)
        },
    }
}

/// More `× factor` after the product `base`.
pub open spec fn p_term_rest(cs: Seq<char>, pos: int, base: MocfV) -> PRes
    decreases cs.len() - pos, 3nat,
{
    let k = times_len(cs, pos);
    if k == 0 {
        Ok((base, pos))
    } else {
        match p_pow_factor(cs, pos + k) {
            Err(e) => Err(e),
            Ok(r) => if !(pos + k < r.1 <= cs.len()) {
                Err(Some(Seq::empty()))
            } else {
                match mul_mocf(base, r.0, MOCF_DEPTH as nat) {
                    Err(m) => Err(Some(m)),
                    Ok(t) => p_term_rest(cs, r.1, t),
                }
            },
        }
    }
}

/// A factor with its `^` chain and an optional juxtaposed coefficient.
pub open spec fn p_pow_factor(cs: Seq<char>, pos: int) -> PRes
    decreases cs.len() - pos, 2nat,
{
    match p_factor(cs, pos) {
        Err(e) => Err(e),
        Ok(r) => if !(pos < r.1 <= cs.len()) {
            Err(Some(Seq::empty()))
        } else {
            match p_pow_rhs(cs, r.1, r.0) {
                Err(e) => Err(e),
                Ok(q) => {
                    let j = q.1;
                    if 0 <= j < cs.len() && is_digit(cs[j]) && cs[j] != '0' {
                        let e = digits_end(cs, j);
                        let n = digits_val(cs, j, e);
                        if n > i32::MAX {
                            Err(None)
                        } else {
                            Ok((mul_nat(q.0, n as nat), e))
                        }
                    } else {
                        Ok(q)
                    }
                },
            }
        },
    }
}

/// A right-associative `^` chain after `base`, which ends before `pos`.
pub open spec fn p_pow_rhs(cs: Seq<char>, pos: int, base: MocfV) -> PRes
    decreases cs.len() - pos, 1nat,
{
    if !(0 <= pos < cs.len() && cs[pos] == '^') {
        Ok((base, pos))
    } else {
        let ex: PRes = if pos + 1 < cs.len() && cs[pos + 1] == '{' {
            match p_expr(cs, pos + 2) {
                Err(e) => Err(e),
                Ok(r) => expect(cs, r.0, r.1, '}', "expected '}'"@),
            }
        } else {
            match p_factor(cs, pos + 1) {
                Err(e) => Err(e),
                Ok(r) => if !(pos + 1 < r.1 <= cs.len()) {
                    Err(Some(Seq::empty()))
                } else {
                    p_pow_rhs(cs, r.1, r.0)
                },
            }
        };
        match ex {
            Err(e) => Err(e),
            Ok(r) => if !(pos < r.1 <= cs.len()) {
                Err(Some(Seq::empty()))
            } else {
                match mocf_pow(base, r.0, MOCF_DEPTH as nat) {
                    Err(m) => Err(Some(m)),
                    Ok(b2) => p_pow_rhs(cs, r.1, b2),
                }
            },
        }
    }
}

/// A single factor at `pos`.
pub open spec fn p_factor(cs: Seq<char>, pos: int) -> PRes
    decreases cs.len() - pos, 0nat,
{
    if !(0 <= pos < cs.len()) {
        Err(Some("unexpected end"@))
    } else {
        let c = cs[pos];
        if c == '0' {
            Ok((MocfV::Zero, pos + 1))
        } else if is_digit(c) {
            let e = digits_end(cs, pos);
            let n = digits_val(cs, pos, e);
            if n > i32::MAX {
                Err(None)
            } else {
                Ok((from_nat(n as nat), e))
            }
        } else if c == '(' {
            match p_expr(cs, pos + 1) {
                Err(e) => Err(e),
                Ok(r) => expect(cs, r.0, r.1, ')', "expected ')'"@),
            }
        } else if c == 'ω' || c == 'w' {
            Ok((wpow(one()), pos + 1))
        } else if c == 'Ω' || c == 'W' {
            if pos + 1 < cs.len() && cs[pos + 1] == '_' {
                let sub: PRes = if pos + 2 < cs.len() && cs[pos + 2] == '(' {
                    match p_expr(cs, pos + 3) {
                        Err(e) => Err(e),
                        Ok(r) => expect(cs, r.0, r.1, ')', "expected ')'"@),
                    }
                } else {
                    p_factor(cs, pos + 2)
                };
                match sub {
                    Err(e) => Err(e),
                    Ok(r) => Ok((omg(r.0), r.1)),
                }
            } else {
                Ok((omg(one()), pos + 1))
            }
        } else if c == 'ψ' || c == 'p' {
            let sub: PRes = if pos + 1 < cs.len() && cs[pos + 1] == '_' {
                if pos + 2 < cs.len() && cs[pos + 2] == '(' {
                    match p_expr(cs, pos + 3) {
                        Err(e) => Err(e),
                        Ok(r) => expect(cs, r.0, r.1, ')', "expected ')'"@),
                    }
                } else {
                    p_term(cs, pos + 2)
                }
            } else {
                Ok((MocfV::Zero, pos + 1))
            };
            match sub {
                Err(e) => Err(e),
                Ok(r) => if !(pos < r.1 <= cs.len()) {
                    Err(Some(Seq::empty()))
                } else if r.1 >= cs.len() || cs[r.1] != '(' {
                    Err(Some("expected '('"@))
                } else {
                    match p_expr(cs, r.1 + 1) {
                        Err(e) => Err(e),
                        Ok(q) => expect(cs, psi(r.0, q.0), q.1, ')', "expected ')'"@),
                    }
                },
            }
        } else {
            Err(Some("unexpected '"@ + seq![c] + "'"@))
        }
    }
}

/// The whole input, whitespace ignored.
pub open spec fn parse_mocf_raw(input: Seq<char>) -> Result<MocfV, Option<Seq<char>>> {
    let s = strip_ws(input);
    if s.len() == 0 || s == seq!['0'] {
        Ok(MocfV::Zero)
    } else if digits_end(s, 0) == s.len() {
        let n = digits_val(s, 0, s.len() as int);
        if n > i32::MAX {
            Err(Some("invalid number"@))
        } else {
            Ok(from_nat(n as nat))
        }
    } else {
        match p_expr(s, 0) {
            Err(e) => Err(e),
            Ok(r) => if r.1 != s.len() {
                Err(Some("trailing: "@ + s.subrange(r.1, s.len() as int)))
            } else {
                Ok(r.0)
            },
        }
    }
}

/// No numeral inside the input is too large for `i32`.
pub open spec fn mocf_numerals_fit(input: Seq<char>) -> bool {
    parse_mocf_raw(input) != Err::<MocfV, Option<Seq<char>>>(None)
}

/// What `parse_mocf` returns: the term, or the error message.
pub open spec fn parse_mocf_spec(input: Seq<char>) -> Result<MocfV, Seq<char>> {
    match parse_mocf_raw(input) {
        Ok(x) => Ok(x),
        Err(e) => Err(
            match e {
                Some(m) => m,
                None => Seq::empty(),
            },
        ),
    }
}

// ============================================================
// Model: printing
// ============================================================

/// How deep the printer recurses; deeper terms print as far as it goes.
pub const MOCF_PRINT_DEPTH: u64 = 1000000;

/// The budget the printer's comparisons use.
pub open spec fn pf() -> nat {
    MOCF_DEPTH as nat
}

/// An `ω^`-fixed point: a ψ-value, an `Ω_a`, or `ω^` / a power of one.
pub open spec fn is_psi_value(p: MocfV) -> bool
    decreases p,
{
    match p {
        MocfV::Psi(_, _) => true,
        MocfV::Omega(_) => true,
        MocfV::OmegaPow(e) => is_psi_value(*e),
        MocfV::Pow(q, _) => is_psi_value(*q),
        _ => false,
    }
}

/// One block into the display groups `gs`: smaller last groups are
/// absorbed, an equal last group counts one more.
pub open spec fn groups_step(gs: Seq<(MocfV, nat)>, p: MocfV) -> Seq<(MocfV, nat)>
    decreases gs.len(),
{
    if gs.len() > 0 && ord(gs.last().0, p, pf()) < 0 {
        groups_step(gs.drop_last(), p)
    } else if gs.len() > 0 && ord(gs.last().0, p, pf()) == 0 {
        gs.drop_last().push((gs.last().0, gs.last().1 + 1))
    } else {
        gs.push((p, 1))
    }
}

/// Display groups of a block list: (block, count) after absorption.
pub open spec fn groups(ps: Seq<MocfV>) -> Seq<(MocfV, nat)>
    decreases ps.len(),
{
    if ps.len() == 0 {
        Seq::empty()
    } else {
        groups_step(groups(ps.drop_last()), ps.last())
    }
}

/// Each group's block repeated by its count.
pub open spec fn ungroup(gs: Seq<(MocfV, nat)>) -> Seq<MocfV>
    decreases gs.len(),
{
    if gs.len() == 0 {
        Seq::empty()
    } else {
        ungroup(gs.drop_last()) + Seq::new(gs.last().1, |i: int| gs.last().0)
    }
}

/// For a block of an exponent `q·Y`: the fixed point `q` and the block's
/// share of `Y`.
pub open spec fn qy_part(p: MocfV) -> Option<(MocfV, MocfV)> {
    match p {
        MocfV::OmegaPow(e) => {
            let gs = groups(prims(*e));
            if gs.len() == 0 || !is_psi_value(gs[0].0) {
                None
            } else {
                let pb = gs[0].0;
                let rest = Seq::new((gs[0].1 - 1) as nat, |i: int| pb) + ungroup(gs.drop_first());
                Some(
                    (
                        pb,
                        if rest.len() == 0 {
                            one()
                        } else {
                            wpow(from_prims(rest))
                        },
                    ),
                )
            }
        },
        MocfV::Omega(_) => Some((p, one())),
        MocfV::Psi(_, _) => Some((p, one())),
        _ => None,
    }
}

/// The common fixed point and the shares, over a block list.
pub open spec fn qy_fold(ps: Seq<MocfV>) -> Option<(Option<MocfV>, Seq<MocfV>)>
    decreases ps.len(),
{
    if ps.len() == 0 {
        Some((None, Seq::empty()))
    } else {
        match qy_fold(ps.drop_last()) {
            None => None,
            Some(r) => match qy_part(ps.last()) {
                None => None,
                Some(t) => match r.0 {
                    None => Some((Some(t.0), r.1.push(t.1))),
                    Some(c0) => if ord(c0, t.0, pf()) != 0 {
                        None
                    } else {
                        Some((Some(c0), r.1.push(t.1)))
                    },
                },
            },
        }
    }
}

/// `exp` as `q·Y` for a common `ω^`-fixed point `q`: `(q, Y)`.
pub open spec fn extract_qy(exp: MocfV) -> Option<(MocfV, MocfV)> {
    let ps = prims(exp);
    if ps.len() == 0 {
        None
    } else {
        match qy_fold(ps) {
            None => None,
            Some(r) => match r.0 {
                None => None,
                Some(q) => Some((q, from_prims(r.1))),
            },
        }
    }
}

/// Some block is an `ω^`-fixed point.
pub open spec fn has_psi(ps: Seq<MocfV>) -> bool {
    exists|i: int| 0 <= i < ps.len() && is_psi_value(#[trigger] ps[i])
}

/// LaTeX form; `d` bounds the recursion.
pub open spec fn latex(x: MocfV, d: nat) -> Seq<char>
    decreases d, 0nat,
{
    if d == 0 {
        Seq::empty()
    } else {
        let d1 = (d - 1) as nat;
        match x {
            MocfV::Zero => "0"@,
            MocfV::Sum(_) => {
                let gs = groups(prims(x));
                if gs.len() == 0 {
                    "0"@
                } else {
                    sum_groups(gs, d1)
                }
            },
            MocfV::OmegaPow(a) => wpow_latex(*a, d1),
            MocfV::Omega(a) => if *a == one() {
                "\\Omega"@
            } else {
                "\\Omega_{"@ + latex(*a, d1) + "}"@
            },
            MocfV::Psi(v, a) => if *v is Zero {
                "\\psi("@ + latex(*a, d1) + ")"@
            } else {
                "\\psi_{"@ + latex(*v, d1) + "}("@ + latex(*a, d1) + ")"@
            },
            MocfV::Pow(b, e) => if *e is Zero {
                "1"@
            } else if *e == one() {
                latex(*b, d1)
            } else {
                tower_latex(*b, *e, d1)
            },
        }
    }
}

/// Display groups of a sum, joined by `+`.
pub open spec fn sum_groups(gs: Seq<(MocfV, nat)>, d: nat) -> Seq<char>
    decreases d, gs.len() + 1,
{
    if gs.len() == 0 {
        Seq::empty()
    } else {
        let g = gs.last();
        let piece = if ord(g.0, one(), pf()) == 0 {
            if g.1 > 1 {
                nat_str(g.1)
            } else {
                "1"@
            }
        } else if g.1 > 1 {
            latex(g.0, d) + nat_str(g.1)
        } else {
            latex(g.0, d)
        };
        if gs.len() == 1 {
            piece
        } else {
            sum_groups(gs.drop_last(), d) + "+"@ + piece
        }
    }
}

/// Display groups of an exponent with fixed points, side by side.
pub open spec fn psi_groups(gs: Seq<(MocfV, nat)>, d: nat) -> Seq<char>
    decreases d, gs.len() + 1,
{
    if gs.len() == 0 {
        Seq::empty()
    } else {
        let g = gs.last();
        let piece = if is_psi_value(g.0) {
            if g.1 > 1 {
                latex(g.0, d) + "^{"@ + nat_str(g.1) + "}"@
            } else {
                latex(g.0, d)
            }
        } else if ord(g.0, one(), pf()) == 0 {
            if g.1 == 1 {
                "\\omega"@
            } else {
                "\\omega^{"@ + nat_str(g.1) + "}"@
            }
        } else if g.1 > 1 {
            "\\omega^{"@ + latex(g.0, d) + nat_str(g.1) + "}"@
        } else {
            "\\omega^{"@ + latex(g.0, d) + "}"@
        };
        psi_groups(gs.drop_last(), d) + piece
    }
}

/// `ω^a` in LaTeX: `q^Y` for an exponent `q·Y`, `q^{q^Y}` for `ω^{q·Y}`.
pub open spec fn wpow_latex(a: MocfV, d: nat) -> Seq<char>
    decreases d, groups(prims(a)).len() + 2,
{
    if a is Zero {
        "1"@
    } else if a == one() {
        "\\omega"@
    } else if extract_qy(a) is Some {
        let t = extract_qy(a)->Some_0;
        if ord(t.1, one(), pf()) == 0 {
            latex(t.0, d)
        } else {
            latex(t.0, d) + "^{"@ + latex(t.1, d) + "}"@
        }
    } else if a is OmegaPow && extract_qy(*a->OmegaPow_0) is Some {
        let t = extract_qy(*a->OmegaPow_0)->Some_0;
        if ord(t.1, one(), pf()) == 0 {
            latex(t.0, d)
        } else {
            latex(t.0, d) + "^{"@ + latex(MocfV::Pow(Box::new(t.0), Box::new(t.1)), d) + "}"@
        }
    } else if !has_psi(prims(a)) {
        "\\omega^{"@ + latex(a, d) + "}"@
    } else {
        psi_groups(groups(prims(a)), d)
    }
}

/// A power tower `q^{e1^{e2^…}}` with nested braces.
pub open spec fn tower_latex(q: MocfV, exp: MocfV, d: nat) -> Seq<char>
    decreases d, size(exp) + 1,
{
    match exp {
        MocfV::Pow(q2, y) => latex(q, d) + "^{"@ + tower_latex(*q2, *y, d) + "}"@,
        _ => latex(q, d) + "^{"@ + latex(exp, d) + "}"@,
    }
}

/// What `Mocf::to_string` gives.
pub open spec fn mocf_latex(x: MocfV) -> Seq<char> {
    latex(x, MOCF_PRINT_DEPTH as nat)
}

// ============================================================
// Laws of fundamental sequences
// ============================================================

pub open spec fn ones(n: nat) -> Seq<MocfV> {
    Seq::new(n, |i: int| one())
}

proof fn lemma_flat_ones(n: nat)
    ensures
        flat(rep(seq![one()], n)) == ones(n),
    decreases n,
{
    if n > 0 {
        lemma_flat_ones((n - 1) as nat);
        let r = rep(seq![one()], n);
        assert(r.drop_last() =~= rep(seq![one()], (n - 1) as nat));
        assert(r.last() == one());
        assert(ones((n - 1) as nat).push(one()) =~= ones(n));
    }
}

/// The blocks of the number `n` are `n` ones.
proof fn lemma_from_nat_prims(n: nat)
    ensures
        prims(from_nat(n)) == ones(n),
        n >= 2 ==> from_nat(n) is Sum,
        n == 0 ==> from_nat(n) is Zero,
{
    assert(prims(one()) =~= seq![one()]);
    lemma_flat_ones(n);
    if n == 1 {
        assert(prims(one()) =~= ones(1));
    }
}

proof fn lemma_ord_one_one(f: nat)
    ensures
        ord(one(), one(), f) == 0,
{
    assert(prims(MocfV::Zero) =~= Seq::<MocfV>::empty());
    assert(ord_list(Seq::<MocfV>::empty(), Seq::<MocfV>::empty(), f) == 0);
    assert(ord(MocfV::Zero, MocfV::Zero, f) == 0);
    assert(ord(one(), one(), f) == ord(MocfV::Zero, MocfV::Zero, f));
}

/// The number `n` spells `n`.
proof fn lemma_nat_idx_from_nat(n: nat, f: nat)
    ensures
        nat_idx(from_nat(n), f) == n,
{
    lemma_from_nat_prims(n);
    if n > 0 {
        lemma_ord_one_one(f);
        assert(prims(from_nat(n))[0] == one());
    }
}

proof fn lemma_ord_ones(n: nat, f: nat)
    ensures
        ord_list(ones(n), ones(n + 1), f) == -1,
    decreases n,
{
    if n > 0 {
        lemma_ord_one_one(f);
        assert(ones(n).drop_first() =~= ones((n - 1) as nat));
        assert(ones(n + 1).drop_first() =~= ones(n));
        lemma_ord_ones((n - 1) as nat, f);
    }
}

/// `ω^a` for a limit `a` expands by expanding `a` at the same index.
pub proof fn lemma_expand_limit_exponent(a: MocfV, index: i32)
    requires
        cof(a, MOCF_DEPTH as nat) is Some,
    ensures
        mocf_fs(wpow(a), index) == wpow(mocf_fs(a, index)),
{
}

/// `ω[n] = n`.
pub proof fn lemma_expand_omega(index: i32)
    requires
        index >= 0,
    ensures
        mocf_fs(wpow(one()), index) == from_nat(index as nat),
{
    let n = index as nat;
    let f = MOCF_DEPTH as nat;
    lemma_nat_idx_from_nat(n, f);
    assert(mocf_fs(wpow(one()), index) == fs(wpow(one()), from_nat(n), f));
    assert(cof(one(), f) is None);
    assert(fs(one(), MocfV::Zero, f) == MocfV::Zero);
    assert(fs(wpow(one()), from_nat(n), f) == mul_nat(wpow(MocfV::Zero), nat_idx(from_nat(n), f)));
}

/// `(ω^ω)[n] = ω^n`.
pub proof fn lemma_expand_omega_omega(index: i32)
    requires
        index >= 0,
    ensures
        mocf_fs(wpow(wpow(one())), index) == wpow(from_nat(index as nat)),
{
    lemma_expand_limit_exponent(wpow(one()), index);
    lemma_expand_omega(index);
}

/// The fundamental sequence of `ω^ω` strictly increases with the index.
pub proof fn lemma_expand_omega_omega_increasing(index: i32)
    requires
        0 <= index < i32::MAX,
    ensures
        ord(
            mocf_fs(wpow(wpow(one())), index),
            mocf_fs(wpow(wpow(one())), (index + 1) as i32),
            MOCF_DEPTH as nat,
        ) == -1,
{
    let n = index as nat;
    lemma_expand_omega_omega(index);
    lemma_expand_omega_omega((index + 1) as i32);
    lemma_from_nat_prims(n);
    lemma_from_nat_prims(n + 1);
    let f = MOCF_DEPTH as nat;
    lemma_ord_ones(n, f);
    let x = from_nat(n);
    let y = from_nat(n + 1);
    assert(y is Sum || n == 0);
    assert(ord(x, y, f) == -1) by {
        if n == 0 {
            assert(ones(0) =~= Seq::<MocfV>::empty());
        }
    }
    assert(ord(wpow(x), wpow(y), f) == ord(x, y, f));
}

/// `ψ(0) = ε_0`: its fundamental sequence starts 0, 1 and then takes
/// `ω` to the power of the previous term: ε_0[n+1] = ω^{ε_0[n]}.
pub proof fn lemma_expand_epsilon0(index: i32)
    requires
        1 <= index < i32::MAX,
    ensures
        mocf_fs(psi(MocfV::Zero, MocfV::Zero), 0) == MocfV::Zero,
        mocf_fs(psi(MocfV::Zero, MocfV::Zero), 1) == one(),
        mocf_fs(psi(MocfV::Zero, MocfV::Zero), (index + 1) as i32) == wpow(
            mocf_fs(psi(MocfV::Zero, MocfV::Zero), index),
        ),
{
    let f = MOCF_DEPTH as nat;
    let n = index as nat;
    lemma_nat_idx_from_nat(0, f);
    lemma_nat_idx_from_nat(1, f);
    lemma_nat_idx_from_nat(n, f);
    lemma_nat_idx_from_nat(n + 1, f);
    assert(prims(MocfV::Zero) =~= Seq::<MocfV>::empty());
    assert(flat(seq![one()]) =~= seq![one()]) by {
        assert(seq![one()].drop_last() =~= Seq::<MocfV>::empty());
    }
    assert(Seq::<MocfV>::empty() + seq![one()] =~= seq![one()]);
    assert(prims(one()) =~= seq![one()]);
    assert(plus(MocfV::Zero, one(), f) == one());
    assert(cof(MocfV::Zero, f) is None);
    assert(tower(one(), n) == wpow(tower(one(), (n - 1) as nat)));
    assert(tower(one(), 0) == one());
}

// ============================================================
// Size facts
// ============================================================

pub proof fn lemma_size_pos(x: MocfV)
    ensures
        size(x) >= 1,
{
}

pub proof fn lemma_ssz_elem(ts: Seq<MocfV>, i: int)
    requires
        0 <= i < ts.len(),
    ensures
        size(ts[i]) <= ssz(ts),
    decreases ts.len(),
{
    if i > 0 {
        lemma_ssz_elem(ts.drop_first(), i - 1);
    }
}

pub proof fn lemma_ssz_last(ts: Seq<MocfV>)
    requires
        ts.len() > 0,
    ensures
        ssz(ts) == ssz(ts.drop_last()) + size(ts.last()),
    decreases ts.len(),
{
    if ts.len() > 1 {
        lemma_ssz_last(ts.drop_first());
        assert(ts.drop_first().drop_last() =~= ts.drop_last().drop_first());
    } else {
        assert(ts.drop_first() =~= Seq::<MocfV>::empty());
        assert(ts.drop_last() =~= Seq::<MocfV>::empty());
    }
}

pub proof fn lemma_prims_size(x: MocfV)
    ensures
        ssz(prims(x)) <= size(x),
        (x is Zero || x is Sum) ==> ssz(prims(x)) < size(x),
{
    match x {
        MocfV::Zero => {
            assert(prims(x).len() == 0);
            assert(ssz(prims(x)) == 0);
            assert(size(x) == 1);
        },
        MocfV::Sum(ts) => {},
        _ => {
            let e = prims(x).drop_first();
            assert(e =~= Seq::<MocfV>::empty());
            assert(ssz(e) == 0);
            assert(prims(x)[0] == x);
            assert(ssz(prims(x)) == size(x) + ssz(e));
        },
    }
}

pub proof fn lemma_prims_elem(x: MocfV, i: int)
    requires
        0 <= i < prims(x).len(),
    ensures
        size(prims(x)[i]) <= size(x),
{
    lemma_prims_size(x);
    lemma_ssz_elem(prims(x), i);
}


// ============================================================
// Building blocks
// ============================================================

/// A deep copy.
pub fn clone_mocf(x: &Mocf) -> (r: Mocf)
    ensures
        r@ == x@,
    decreases x,
{
    match x {
        Mocf::Zero => Mocf::Zero,
        Mocf::Sum(ts) => {
            let mut v: Vec<Mocf> = Vec::new();
            let mut i: usize = 0;
            while i < ts.len()
                invariant
                    i <= ts@.len(),
                    *x is Sum && (*x)->Sum_0 == *ts,
                    mviews(v@) == mviews(ts@).take(i as int),
                decreases ts.len() - i,
            {
                proof {
                    assert(decreases_to!(*x => (*x)->Sum_0@[i as int]));
                }
                let c = clone_mocf(&ts[i]);
                let ghost v0 = v@;
                v.push(c);
                i = i + 1;
                proof {
                    assert(mviews(v@) =~= mviews(v0).push(c@));
                    assert(mviews(v@) =~= mviews(ts@).take(i as int));
                }
            }
            proof {
                lemma_sum_view(v);
                lemma_sum_view(*ts);
                assert(mviews(ts@).take(ts@.len() as int) =~= mviews(ts@));
            }
            Mocf::Sum(v)
        },
        Mocf::OmegaPow(a) => Mocf::OmegaPow(Box::new(clone_mocf(a))),
        Mocf::Omega(a) => Mocf::Omega(Box::new(clone_mocf(a))),
        Mocf::Psi(v, a) => Mocf::Psi(Box::new(clone_mocf(v)), Box::new(clone_mocf(a))),
        Mocf::Pow(b, e) => Mocf::Pow(Box::new(clone_mocf(b)), Box::new(clone_mocf(e))),
    }
}

fn is_zero(x: &Mocf) -> (r: bool)
    ensures
        r == (x@ is Zero),
{
    match x {
        Mocf::Zero => true,
        _ => false,
    }
}

fn is_sum(x: &Mocf) -> (r: bool)
    ensures
        r == (x@ is Sum),
{
    match x {
        Mocf::Sum(_) => true,
        _ => false,
    }
}

fn is_omega(x: &Mocf) -> (r: bool)
    ensures
        r == (x@ is Omega),
{
    match x {
        Mocf::Omega(_) => true,
        _ => false,
    }
}

fn mk_one() -> (r: Mocf)
    ensures
        r@ == one(),
{
    let z = Mocf::Zero;
    proof {
        assert(z@ == MocfV::Zero);
    }
    Mocf::OmegaPow(Box::new(z))
}

/// The number of blocks.
fn prim_count(x: &Mocf) -> (r: usize)
    ensures
        r == prims(x@).len(),
{
    match x {
        Mocf::Zero => 0,
        Mocf::Sum(ts) => {
            proof {
                lemma_sum_view(*ts);
            }
            ts.len()
        },
        _ => 1,
    }
}

/// The block at `i`.
fn prim_at(x: &Mocf, i: usize) -> (r: &Mocf)
    requires
        i < prims(x@).len(),
    ensures
        r@ == prims(x@)[i as int],
{
    match x {
        Mocf::Sum(ts) => {
            proof {
                lemma_sum_view(*ts);
            }
            &ts[i]
        },
        _ => x,
    }
}

/// Copies of the blocks.
fn to_prims(x: &Mocf) -> (r: Vec<Mocf>)
    ensures
        mviews(r@) == prims(x@),
{
    let n = prim_count(x);
    let mut out: Vec<Mocf> = Vec::new();
    let mut i: usize = 0;
    while i < n
        invariant
            i <= n,
            n == prims(x@).len(),
            mviews(out@) == prims(x@).take(i as int),
        decreases n - i,
    {
        let c = clone_mocf(prim_at(x, i));
        let ghost o0 = out@;
        out.push(c);
        i = i + 1;
        proof {
            assert(mviews(out@) =~= mviews(o0).push(c@));
            assert(mviews(out@) =~= prims(x@).take(i as int));
        }
    }
    proof {
        assert(prims(x@).take(n as int) =~= prims(x@));
    }
    out
}

/// `k` copies of `q`.
fn copies(q: &Mocf, k: usize) -> (r: Vec<Mocf>)
    ensures
        mviews(r@) == Seq::new(k as nat, |i: int| q@),
{
    let mut out: Vec<Mocf> = Vec::new();
    let mut i: usize = 0;
    while i < k
        invariant
            i <= k,
            mviews(out@) == Seq::new(i as nat, |j: int| q@),
        decreases k - i,
    {
        let c = clone_mocf(q);
        let ghost o0 = out@;
        out.push(c);
        i = i + 1;
        proof {
            assert(mviews(out@) =~= mviews(o0).push(c@));
            assert(mviews(out@) =~= Seq::new(i as nat, |j: int| q@));
        }
    }
    out
}

/// The term made of a list of blocks.
fn from_prims_exec(ps: &Vec<Mocf>) -> (r: Mocf)
    ensures
        r@ == from_prims(mviews(ps@)),
{
    let mut out: Vec<Mocf> = Vec::new();
    let mut i: usize = 0;
    while i < ps.len()
        invariant
            i <= ps@.len(),
            mviews(out@) == flat(mviews(ps@).take(i as int)),
        decreases ps.len() - i,
    {
        let ghost o0 = mviews(out@);
        proof {
            assert(mviews(ps@).take(i + 1).drop_last() =~= mviews(ps@).take(i as int));
            assert(mviews(ps@).take(i + 1).last() == ps@[i as int]@);
        }
        match &ps[i] {
            Mocf::Sum(ts) => {
                proof {
                    lemma_sum_view(*ts);
                }
                let mut j: usize = 0;
                while j < ts.len()
                    invariant
                        j <= ts@.len(),
                        mviews(out@) == o0 + mviews(ts@).take(j as int),
                    decreases ts.len() - j,
                {
                    let c = clone_mocf(&ts[j]);
                    let ghost o1 = out@;
                    out.push(c);
                    j = j + 1;
                    proof {
                        assert(mviews(out@) =~= mviews(o1).push(c@));
                        assert(mviews(out@) =~= o0 + mviews(ts@).take(j as int));
                    }
                }
                proof {
                    assert(mviews(ts@).take(ts@.len() as int) =~= mviews(ts@));
                }
            },
            p => {
                let c = clone_mocf(p);
                let ghost o1 = out@;
                out.push(c);
                proof {
                    assert(mviews(out@) =~= mviews(o1).push(c@));
                    assert(mviews(out@) =~= o0 + seq![p@]);
                }
            },
        }
        i = i + 1;
        proof {
            assert(mviews(out@) =~= flat(mviews(ps@).take(i as int)));
        }
    }
    proof {
        assert(mviews(ps@).take(ps@.len() as int) =~= mviews(ps@));
    }
    if out.len() == 0 {
        Mocf::Zero
    } else if out.len() == 1 {
        let r = out.pop().unwrap();
        proof {
            assert(mviews(out@.push(r))[0] == r@);
        }
        r
    } else {
        proof {
            lemma_sum_view(out);
        }
        Mocf::Sum(out)
    }
}

// ============================================================
// Order and arithmetic
// ============================================================

/// Exec side of `ord`.
fn ord_exec(a: &Mocf, b: &Mocf, f: u64) -> (r: i32)
    ensures
        r == ord(a@, b@, f as nat),
    decreases f, size(a@) + size(b@), 1nat,
{
    if is_zero(a) || is_zero(b) || is_sum(a) || is_sum(b) {
        proof {
            lemma_prims_size(a@);
            lemma_prims_size(b@);
        }
        return ord_prims(a, b, f);
    }
    match (a, b) {
        (Mocf::OmegaPow(a1), Mocf::OmegaPow(b1)) => ord_exec(a1, b1, f),
        (Mocf::OmegaPow(a1), _) => ord_exec(a1, b, f),
        (_, Mocf::OmegaPow(b1)) => ord_exec(a, b1, f),
        (Mocf::Omega(a1), Mocf::Omega(b1)) => ord_exec(a1, b1, f),
        (Mocf::Omega(a1), Mocf::Psi(v, a2)) => {
            let c = ord_exec(a1, v, f);
            if c != 0 {
                c
            } else if is_zero(a2) {
                0
            } else {
                -1
            }
        },
        (Mocf::Psi(v, a1), Mocf::Omega(b1)) => {
            let c = ord_exec(v, b1, f);
            if c != 0 {
                c
            } else if is_zero(a1) {
                0
            } else {
                1
            }
        },
        (Mocf::Psi(v1, a1), Mocf::Psi(v2, a2)) => {
            let c = ord_exec(v1, v2, f);
            if c != 0 {
                c
            } else {
                ord_exec(a1, a2, f)
            }
        },
        (Mocf::Pow(b1, e1), Mocf::Pow(b2, e2)) => {
            if f == 0 {
                return 0;
            }
            let x = Mocf::OmegaPow(Box::new(omega_mul_exec(b1, e1, f - 1)));
            let y = Mocf::OmegaPow(Box::new(omega_mul_exec(b2, e2, f - 1)));
            ord_exec(&x, &y, f - 1)
        },
        (Mocf::Pow(bx, ex), _) => {
            if f == 0 {
                return 0;
            }
            let x = Mocf::OmegaPow(Box::new(omega_mul_exec(bx, ex, f - 1)));
            ord_exec(&x, b, f - 1)
        },
        (_, Mocf::Pow(bx, ex)) => {
            if f == 0 {
                return 0;
            }
            let y = Mocf::OmegaPow(Box::new(omega_mul_exec(bx, ex, f - 1)));
            ord_exec(a, &y, f - 1)
        },
        _ => 0,
    }
}

/// Exec side of `ord_list` on the blocks of two terms.
fn ord_prims(a: &Mocf, b: &Mocf, f: u64) -> (r: i32)
    ensures
        r == ord_list(prims(a@), prims(b@), f as nat),
    decreases f, ssz(prims(a@)) + ssz(prims(b@)), 2nat,
{
    let na = prim_count(a);
    let nb = prim_count(b);
    let ghost pa = prims(a@);
    let ghost pb = prims(b@);
    let mut i: usize = 0;
    proof {
        assert(pa.skip(0) =~= pa);
        assert(pb.skip(0) =~= pb);
    }
    while i < na && i < nb
        invariant
            i <= na,
            i <= nb,
            na == pa.len(),
            nb == pb.len(),
            pa == prims(a@),
            pb == prims(b@),
            ord_list(pa, pb, f as nat) == ord_list(pa.skip(i as int), pb.skip(i as int), f as nat),
        decreases na - i,
    {
        proof {
            lemma_ssz_elem(pa, i as int);
            lemma_ssz_elem(pb, i as int);
            assert(pa.skip(i as int)[0] == pa[i as int]);
            assert(pb.skip(i as int)[0] == pb[i as int]);
            assert(pa.skip(i as int).drop_first() =~= pa.skip(i + 1));
            assert(pb.skip(i as int).drop_first() =~= pb.skip(i + 1));
        }
        let c = ord_exec(prim_at(a, i), prim_at(b, i), f);
        if c != 0 {
            return c;
        }
        i = i + 1;
    }
    proof {
        assert(pa.skip(i as int).len() == 0 || pb.skip(i as int).len() == 0);
    }
    if na > nb {
        1
    } else if na < nb {
        -1
    } else {
        0
    }
}

/// Exec side of `to_nat`: `None` for -1.
fn nat_val(x: &Mocf, f: u64) -> (r: Option<usize>)
    ensures
        match r {
            Some(n) => to_nat(x@, f as nat) == n,
            None => to_nat(x@, f as nat) == -1,
        },
    decreases f, size(x@) + 3, 0nat,
{
    let n = prim_count(x);
    if n == 0 {
        return Some(0);
    }
    proof {
        lemma_prims_elem(x@, 0);
        assert(size(one()) == 2) by {
            assert(size(MocfV::Zero) == 1);
        }
    }
    let o = mk_one();
    if ord_exec(prim_at(x, 0), &o, f) != 0 {
        None
    } else {
        Some(n)
    }
}

/// Exec side of `plus`.
fn plus_exec(a: &Mocf, b: &Mocf, f: u64) -> (r: Mocf)
    ensures
        r@ == plus(a@, b@, f as nat),
    decreases f, size(a@) + size(b@) + 1, 0nat,
{
    let mut ps = to_prims(a);
    let qs = to_prims(b);
    let ghost pa = prims(a@);
    let ghost qb = prims(b@);
    if ps.len() > 0 && qs.len() > 0 {
        proof {
            lemma_prims_elem(a@, pa.len() - 1);
            lemma_prims_elem(b@, 0);
            assert(mviews(ps@)[ps@.len() - 1] == ps@[ps@.len() - 1]@);
            assert(mviews(qs@)[0] == qs@[0]@);
        }
        let last = ps.len() - 1;
        if ord_exec(&ps[last], &qs[0], f) < 0 {
            ps = Vec::new();
            proof {
                assert(mviews(ps@) =~= Seq::<MocfV>::empty());
            }
        }
    }
    let ghost keep = mviews(ps@);
    let mut j: usize = 0;
    while j < qs.len()
        invariant
            j <= qs@.len(),
            mviews(ps@) == keep + mviews(qs@).take(j as int),
        decreases qs.len() - j,
    {
        let c = clone_mocf(&qs[j]);
        let ghost p0 = ps@;
        ps.push(c);
        j = j + 1;
        proof {
            assert(mviews(ps@) =~= mviews(p0).push(c@));
            assert(mviews(ps@) =~= keep + mviews(qs@).take(j as int));
        }
    }
    proof {
        assert(mviews(qs@).take(qs@.len() as int) =~= mviews(qs@));
    }
    from_prims_exec(&ps)
}

/// Exec side of `omega_mul`.
fn omega_mul_exec(q: &Mocf, y: &Mocf, f: u64) -> (r: Mocf)
    ensures
        r@ == omega_mul(q@, y@, f as nat),
    decreases f, size(q@) + size(y@) + 3, 3nat,
{
    proof {
        lemma_size_pos(q@);
    }
    if is_omega(q) {
        match y {
            Mocf::Pow(b, e) => {
                if is_omega(b) {
                    match nat_val(e, f) {
                        Some(k) => {
                            if k >= 1 {
                                let mut v = copies(q, k);
                                let ghost v0 = v@;
                                let c = clone_mocf(q);
                                v.push(c);
                                proof {
                                    assert(mviews(v@) =~= mviews(v0).push(c@));
                                    assert(mviews(v@) =~= Seq::new((k + 1) as nat, |i: int| q@));
                                }
                                return from_prims_exec(&v);
                            }
                        },
                        None => {},
                    }
                    return Mocf::OmegaPow(Box::new(omega_mul_exec(q, e, f)));
                }
            },
            _ => {},
        }
        match nat_val(y, f) {
            Some(k) => {
                if k >= 1 {
                    let v = copies(q, k);
                    return from_prims_exec(&v);
                }
            },
            None => {},
        }
    }
    fixed_mul_exec(q, y, f)
}

/// Exec side of `fixed_mul`.
#[verifier::rlimit(40)]
fn fixed_mul_exec(q: &Mocf, x: &Mocf, f: u64) -> (r: Mocf)
    ensures
        r@ == fixed_mul(q@, x@, f as nat),
    decreases f, size(q@) + size(x@) + 2, 5nat,
{
    let ps = to_prims(x);
    let ghost px = prims(x@);
    proof {
        lemma_prims_size(x@);
    }
    let mut out: Vec<Mocf> = Vec::new();
    let mut i: usize = 0;
    while i < ps.len()
        invariant
            i <= ps@.len(),
            mviews(ps@) == px,
            px == prims(x@),
            ssz(px) <= size(x@),
            mviews(out@) == fm_list(q@, px.take(i as int), f as nat),
        decreases ps.len() - i,
    {
        proof {
            lemma_ssz_elem(px, i as int);
            assert(px.take(i + 1).drop_last() =~= px.take(i as int));
            assert(px.take(i + 1).last() == ps@[i as int]@);
            assert(px[i as int] == ps@[i as int]@);
        }
        let ghost o0 = out@;
        match &ps[i] {
            Mocf::Zero => {},
            Mocf::OmegaPow(e) => {
                let t = plus_exec(q, e, f);
                out.push(Mocf::OmegaPow(Box::new(t)));
                proof {
                    assert(mviews(out@) =~= mviews(o0).push(wpow(t@)));
                }
            },
            p => {
                let t = plus_exec(q, p, f);
                out.push(Mocf::OmegaPow(Box::new(t)));
                proof {
                    assert(mviews(out@) =~= mviews(o0).push(wpow(t@)));
                }
            },
        }
        i = i + 1;
    }
    proof {
        assert(px.take(ps@.len() as int) =~= px);
    }
    from_prims_exec(&out)
}

// ============================================================
// Cofinality and fundamental sequences
// ============================================================

pub open spec fn opt_view(r: Option<Mocf>) -> Option<MocfV> {
    match r {
        Some(c) => Some(c@),
        None => None,
    }
}

/// Exec side of `mul_nat`.
fn mul_nat_exec(x: &Mocf, n: usize) -> (r: Mocf)
    ensures
        r@ == mul_nat(x@, n as nat),
{
    let ps = to_prims(x);
    let mut out: Vec<Mocf> = Vec::new();
    let mut k: usize = 0;
    while k < n
        invariant
            k <= n,
            mviews(ps@) == prims(x@),
            mviews(out@) == rep(prims(x@), k as nat),
        decreases n - k,
    {
        let ghost o0 = mviews(out@);
        let mut j: usize = 0;
        while j < ps.len()
            invariant
                j <= ps@.len(),
                mviews(out@) == o0 + mviews(ps@).take(j as int),
            decreases ps.len() - j,
        {
            let c = clone_mocf(&ps[j]);
            let ghost o1 = out@;
            out.push(c);
            j = j + 1;
            proof {
                assert(mviews(out@) =~= mviews(o1).push(c@));
                assert(mviews(out@) =~= o0 + mviews(ps@).take(j as int));
            }
        }
        proof {
            assert(mviews(ps@).take(ps@.len() as int) =~= mviews(ps@));
        }
        k = k + 1;
    }
    from_prims_exec(&out)
}

/// `n` as a sum of ones.
fn from_nat_exec(n: usize) -> (r: Mocf)
    ensures
        r@ == from_nat(n as nat),
{
    let o = mk_one();
    mul_nat_exec(&o, n)
}

/// Exec side of `cof`.
fn cof_exec(x: &Mocf, f: u64) -> (r: Option<Mocf>)
    ensures
        opt_view(r) == cof(x@, f as nat),
    decreases x,
{
    match x {
        Mocf::Zero => None,
        Mocf::Sum(ts) => {
            proof {
                lemma_sum_view(*ts);
            }
            if ts.len() == 0 {
                None
            } else {
                proof {
                    assert(decreases_to!(*x => (*x)->Sum_0@[ts@.len() - 1]));
                }
                cof_exec(&ts[ts.len() - 1], f)
            }
        },
        Mocf::OmegaPow(a) => {
            if is_zero(a) {
                None
            } else {
                match cof_exec(a, f) {
                    Some(c) => Some(c),
                    None => Some(Mocf::Zero),
                }
            }
        },
        Mocf::Omega(a) => match cof_exec(a, f) {
            Some(c) => Some(c),
            None => Some(clone_mocf(a)),
        },
        Mocf::Psi(v, a) => {
            if is_zero(a) {
                Some(Mocf::Zero)
            } else {
                match cof_exec(a, f) {
                    Some(c) => {
                        if ord_exec(&c, v, f) <= 0 {
                            Some(c)
                        } else {
                            Some(Mocf::Zero)
                        }
                    },
                    None => Some(Mocf::Zero),
                }
            }
        },
        Mocf::Pow(_, e) => cof_exec(e, f),
    }
}

fn nat_idx_exec(idx: &Mocf, f: u64) -> (r: usize)
    ensures
        r == nat_idx(idx@, f as nat),
{
    match nat_val(idx, f) {
        Some(n) => n,
        None => 0,
    }
}

/// Exec side of `fs`.
#[verifier::rlimit(40)]
fn fs_exec(x: &Mocf, idx: &Mocf, f: u64) -> (r: Mocf)
    ensures
        r@ == fs(x@, idx@, f as nat),
    decreases f, size(x@), 0nat,
{
    match x {
        Mocf::Zero => Mocf::Zero,
        Mocf::Sum(ts) => {
            proof {
                lemma_sum_view(*ts);
            }
            if ts.len() == 0 {
                return Mocf::Zero;
            }
            let n = ts.len();
            proof {
                lemma_ssz_elem(x@->Sum_0, n - 1);
            }
            let tail = fs_exec(&ts[n - 1], idx, f);
            let mut out: Vec<Mocf> = Vec::new();
            let mut i: usize = 0;
            while i < n - 1
                invariant
                    i <= n - 1,
                    n == ts@.len(),
                    mviews(out@) == mviews(ts@).take(i as int),
                decreases n - 1 - i,
            {
                let c = clone_mocf(&ts[i]);
                let ghost o0 = out@;
                out.push(c);
                i = i + 1;
                proof {
                    assert(mviews(out@) =~= mviews(o0).push(c@));
                    assert(mviews(out@) =~= mviews(ts@).take(i as int));
                }
            }
            let tp = to_prims(&tail);
            let ghost o1 = mviews(out@);
            let mut j: usize = 0;
            while j < tp.len()
                invariant
                    j <= tp@.len(),
                    mviews(out@) == o1 + mviews(tp@).take(j as int),
                decreases tp.len() - j,
            {
                let c = clone_mocf(&tp[j]);
                let ghost o2 = out@;
                out.push(c);
                j = j + 1;
                proof {
                    assert(mviews(out@) =~= mviews(o2).push(c@));
                    assert(mviews(out@) =~= o1 + mviews(tp@).take(j as int));
                }
            }
            proof {
                assert(mviews(tp@).take(tp@.len() as int) =~= mviews(tp@));
                assert(mviews(ts@).take(n - 1) =~= mviews(ts@).drop_last());
            }
            from_prims_exec(&out)
        },
        Mocf::OmegaPow(a) => {
            if is_zero(a) {
                return Mocf::Zero;
            }
            match cof_exec(a, f) {
                None => {
                    let z = Mocf::Zero;
                    let w = Mocf::OmegaPow(Box::new(fs_exec(a, &z, f)));
                    mul_nat_exec(&w, nat_idx_exec(idx, f))
                },
                Some(_) => Mocf::OmegaPow(Box::new(fs_exec(a, idx, f))),
            }
        },
        Mocf::Pow(b, e) => {
            if f == 0 {
                return Mocf::Zero;
            }
            let w = Mocf::OmegaPow(Box::new(fixed_mul_exec(b, e, f - 1)));
            fs_exec(&w, idx, f - 1)
        },
        Mocf::Omega(a) => match cof_exec(a, f) {
            None => from_nat_exec(nat_idx_exec(idx, f)),
            Some(_) => {
                let e = fs_exec(a, idx, f);
                if is_zero(&e) {
                    Mocf::Zero
                } else {
                    Mocf::Omega(Box::new(e))
                }
            },
        },
        Mocf::Psi(v, a) => match cof_exec(a, f) {
            None => {
                let i = nat_idx_exec(idx, f);
                let base = if is_zero(a) {
                    if is_zero(v) {
                        Mocf::Zero
                    } else {
                        Mocf::Omega(Box::new(clone_mocf(v)))
                    }
                } else {
                    let z = Mocf::Zero;
                    Mocf::Psi(Box::new(clone_mocf(v)), Box::new(fs_exec(a, &z, f)))
                };
                if i == 0 {
                    return base;
                }
                let o = mk_one();
                let mut result = plus_exec(&base, &o, f);
                let ghost start = result@;
                let mut k: usize = 0;
                while k < i - 1
                    invariant
                        k <= i - 1,
                        result@ == tower(start, k as nat),
                    decreases i - 1 - k,
                {
                    result = Mocf::OmegaPow(Box::new(result));
                    k = k + 1;
                }
                result
            },
            Some(c) => {
                if ord_exec(&c, v, f) <= 0 {
                    Mocf::Psi(Box::new(clone_mocf(v)), Box::new(fs_exec(a, idx, f)))
                } else {
                    proof {
                        lemma_cof_size(a@, f as nat);
                    }
                    let z = Mocf::Zero;
                    let p = fs_exec(&c, &z, f);
                    let count = nat_idx_exec(idx, f);
                    let mut result = Mocf::Zero;
                    let mut k: usize = 0;
                    while k < count
                        invariant
                            k <= count,
                            result@ == psi_iter(a@, p@, k as nat, f as nat),
                            size(a@) < size(x@),
                        decreases count - k,
                    {
                        let ix = Mocf::Psi(Box::new(clone_mocf(&p)), Box::new(result));
                        result = fs_exec(a, &ix, f);
                        k = k + 1;
                    }
                    Mocf::Psi(Box::new(clone_mocf(v)), Box::new(result))
                }
            },
        },
    }
}

impl Mocf {
    /// The fundamental sequence at a natural number (negative counts as 0).
    pub fn expand(&self, index: i32) -> (r: Mocf)
        ensures
            r@ == mocf_fs(self@, index),
    {
        let n: usize = if index < 0 { 0 } else { index as usize };
        let ix = from_nat_exec(n);
        fs_exec(self, &ix, MOCF_DEPTH)
    }

    /// Order of two terms: 1 if `self` is larger, -1 if smaller, 0 if equal.
    pub fn compare(&self, other: &Mocf) -> (r: i32)
        ensures
            r == ord(self@, other@, MOCF_DEPTH as nat),
    {
        ord_exec(self, other, MOCF_DEPTH)
    }
}

/// Value equality of two terms.
pub fn mocf_value_eq(a: &Mocf, b: &Mocf) -> (r: bool)
    ensures
        r == (ord(a@, b@, MOCF_DEPTH as nat) == 0),
{
    a.compare(b) == 0
}

// ============================================================
// Multiplication and powers
// ============================================================

pub open spec fn rv(r: Result<Mocf, String>) -> Result<MocfV, Seq<char>> {
    match r {
        Ok(x) => Ok(x@),
        Err(m) => Err(m@),
    }
}

fn block_exponent_exec(p: &Mocf, f: u64) -> (r: Result<Mocf, String>)
    ensures
        rv(r) == block_exponent(p@, f as nat),
{
    match p {
        Mocf::Zero => Err(lit("zero factor")),
        Mocf::OmegaPow(e) => Ok(clone_mocf(e)),
        Mocf::Omega(_) => Ok(clone_mocf(p)),
        Mocf::Psi(_, _) => Ok(clone_mocf(p)),
        Mocf::Pow(q, y) => match &**q {
            Mocf::Psi(_, _) => Ok(omega_mul_exec(q, y, f)),
            Mocf::Omega(_) => Ok(omega_mul_exec(q, y, f)),
            _ => Err(lit("unsupported power factor in multiplication")),
        },
        Mocf::Sum(_) => Err(lit("sum is not a whole block")),
    }
}

fn combine_exec(deg: &Mocf, e: &Mocf, f: u64) -> (r: Mocf)
    ensures
        r@ == combine(deg@, e@, f as nat),
{
    let raising = match deg {
        Mocf::Psi(v, a) => !is_zero(v) && is_zero(a),
        _ => false,
    };
    if raising && ord_exec(deg, e, f) < 0 {
        let mut v: Vec<Mocf> = Vec::new();
        v.push(clone_mocf(deg));
        v.push(clone_mocf(e));
        proof {
            assert(mviews(v@) =~= seq![deg@, e@]);
        }
        from_prims_exec(&v)
    } else {
        plus_exec(deg, e, f)
    }
}

proof fn lemma_fold_err(deg: MocfV, ps: Seq<MocfV>, i: int, f: nat)
    requires
        0 <= i <= ps.len(),
        mul_fold(deg, ps.take(i), f) is Err,
    ensures
        mul_fold(deg, ps, f) == mul_fold(deg, ps.take(i), f),
    decreases ps.len(),
{
    if i == ps.len() {
        assert(ps.take(i) =~= ps);
    } else {
        assert(ps.drop_last().take(i) =~= ps.take(i));
        lemma_fold_err(deg, ps.drop_last(), i, f);
    }
}

/// Exec side of `mul_mocf`.
#[verifier::rlimit(60)]
fn mul_exec(a: &Mocf, b: &Mocf, f: u64) -> (r: Result<Mocf, String>)
    ensures
        rv(r) == mul_mocf(a@, b@, f as nat),
{
    reveal(mul_mocf);
    if is_zero(a) || is_zero(b) || prim_count(a) == 0 {
        return Ok(Mocf::Zero);
    }
    match nat_val(b, f) {
        Some(n) => {
            if n >= 1 {
                return Ok(mul_nat_exec(a, n));
            }
        },
        None => {},
    }
    let deg = match block_exponent_exec(prim_at(a, 0), f) {
        Err(m) => {
            return Err(m);
        },
        Ok(d) => d,
    };
    let nb = prim_count(b);
    let ghost pb = prims(b@);
    let mut result = Mocf::Zero;
    let mut tail: usize = 0;
    let mut i: usize = 0;
    proof {
        assert(pb.take(0) =~= Seq::<MocfV>::empty());
    }
    while i < nb
        invariant
            i <= nb,
            nb == pb.len(),
            pb == prims(b@),
            tail <= i,
            !(a@ is Zero || b@ is Zero || prims(a@).len() == 0),
            to_nat(b@, f as nat) < 1,
            block_exponent(prims(a@)[0], f as nat) == Ok::<MocfV, Seq<char>>(deg@),
            mul_fold(deg@, pb.take(i as int), f as nat) == Ok::<(MocfV, nat), Seq<char>>(
                (result@, tail as nat),
            ),
        decreases nb - i,
    {
        proof {
            assert(pb.take(i + 1).drop_last() =~= pb.take(i as int));
            assert(pb.take(i + 1).last() == pb[i as int]);
        }
        let p = prim_at(b, i);
        let o = mk_one();
        if ord_exec(p, &o, f) == 0 {
            tail = tail + 1;
        } else {
            match block_exponent_exec(p, f) {
                Err(m) => {
                    proof {
                        reveal(mul_mocf);
                        assert(ord(pb[i as int], one(), f as nat) != 0);
                        assert(mul_fold(deg@, pb.take(i + 1), f as nat) == Err::<(MocfV, nat), Seq<char>>(m@));
                        lemma_fold_err(deg@, pb, i + 1, f as nat);
                        assert(pb.take(pb.len() as int) =~= pb);
                    }
                    return Err(m);
                },
                Ok(e) => {
                    let c = combine_exec(&deg, &e, f);
                    let w = Mocf::OmegaPow(Box::new(c));
                    result = plus_exec(&result, &w, f);
                },
            }
        }
        i = i + 1;
    }
    proof {
        assert(pb.take(nb as int) =~= pb);
    }
    if tail > 0 {
        let m = mul_nat_exec(a, tail);
        Ok(plus_exec(&result, &m, f))
    } else {
        Ok(result)
    }
}

fn is_omega_pow_exp_exec(e: &Mocf) -> (r: bool)
    ensures
        r == is_omega_pow_exp(e@),
{
    match e {
        Mocf::Omega(_) => true,
        Mocf::Pow(b, _) => is_omega(b),
        _ => false,
    }
}

/// Exec side of `mocf_pow`.
fn pow_exec(base: Mocf, exp: Mocf, f: u64) -> (r: Result<Mocf, String>)
    ensures
        rv(r) == mocf_pow(base@, exp@, f as nat),
{
    reveal(mocf_pow);
    match &base {
        Mocf::Psi(_, _) => match mul_exec(&base, &exp, f) {
            Err(m) => Err(m),
            Ok(t) => Ok(Mocf::OmegaPow(Box::new(t))),
        },
        Mocf::Omega(_) => {
            let o = mk_one();
            let w1 = Mocf::Omega(Box::new(o));
            if is_omega_pow_exp_exec(&exp) || ord_exec(&exp, &w1, f) < 0 {
                Ok(Mocf::Pow(Box::new(base), Box::new(exp)))
            } else {
                match mul_exec(&base, &exp, f) {
                    Err(m) => Err(m),
                    Ok(t) => Ok(Mocf::OmegaPow(Box::new(t))),
                }
            }
        },
        Mocf::OmegaPow(x) => match mul_exec(x, &exp, f) {
            Err(m) => Err(m),
            Ok(t) => Ok(Mocf::OmegaPow(Box::new(t))),
        },
        _ => Err(lit("^ is only supported for \\psi and \\Omega bases")),
    }
}

// ============================================================
// Parsing
// ============================================================

/// An exec parse result agrees with the model's.
pub open spec fn agrees(r: Result<(Mocf, usize), String>, s: PRes) -> bool {
    match r {
        Ok(y) => s == Ok::<(MocfV, int), Option<Seq<char>>>((y.0@, y.1 as int)),
        Err(m) => s == Err::<(MocfV, int), Option<Seq<char>>>(Some(m@)),
    }
}

pub open spec fn no_overflow(s: PRes) -> bool {
    s != Err::<(MocfV, int), Option<Seq<char>>>(None)
}

fn pe_expect(cs: &Vec<char>, x: Mocf, q: usize, c: char, msg: &str) -> (r: Result<(Mocf, usize), String>)
    requires
        q <= cs@.len(),
    ensures
        agrees(r, expect(cs@, x@, q as int, c, msg@)),
        r is Ok ==> r->Ok_0.1 == q + 1,
{
    if q < cs.len() && cs[q] == c {
        Ok((x, q + 1))
    } else {
        Err(lit(msg))
    }
}

fn times_len_exec(cs: &Vec<char>, q: usize) -> (r: usize)
    requires
        q <= cs@.len(),
    ensures
        r == times_len(cs@, q as int),
        q + r <= cs@.len(),
{
    if cs.len() >= 5 && q <= cs.len() - 5 && cs[q] == '\\' && cs[q + 1] == 'c' && cs[q + 2] == 'd' && cs[q + 3]
        == 'o' && cs[q + 4] == 't' {
        5
    } else if q < cs.len() && (cs[q] == '·' || cs[q] == '×' || cs[q] == '*') {
        1
    } else {
        0
    }
}

/// The end of the digit run at `pos`, and its value if it fits `i32`.
fn digit_span(cs: &Vec<char>, pos: usize) -> (r: (usize, Option<i32>))
    requires
        pos <= cs@.len(),
    ensures
        r.0 == digits_end(cs@, pos as int),
        pos <= r.0 <= cs@.len(),
        (pos < cs@.len() && is_digit(cs@[pos as int])) ==> pos < r.0,
        match r.1 {
            Some(n) => n == digits_val(cs@, pos as int, r.0 as int) && n >= 0,
            None => digits_val(cs@, pos as int, r.0 as int) > i32::MAX,
        },
{
    proof {
        lemma_digits_end(cs@, pos as int);
        if pos < cs@.len() && is_digit(cs@[pos as int]) {
            lemma_digits_end(cs@, pos + 1);
        }
    }
    let mut e: usize = pos;
    while e < cs.len() && is_digit_char(cs[e])
        invariant
            pos <= e <= cs@.len(),
            digits_end(cs@, e as int) == digits_end(cs@, pos as int),
        decreases cs.len() - e,
    {
        e = e + 1;
    }
    proof {
        lemma_digits_val_nonneg(cs@, pos as int, e as int);
    }
    (e, digit_run(cs, pos, e))
}

fn pe_expr(cs: &Vec<char>, pos: usize) -> (r: Result<(Mocf, usize), String>)
    requires
        pos <= cs@.len(),
        no_overflow(p_expr(cs@, pos as int)),
    ensures
        agrees(r, p_expr(cs@, pos as int)),
        r is Ok ==> pos < r->Ok_0.1 <= cs@.len(),
    decreases cs@.len() - pos, 6nat,
{
    match pe_term(cs, pos) {
        Err(m) => Err(m),
        Ok(y) => {
            let mut acc: Vec<Mocf> = Vec::new();
            acc.push(y.0);
            proof {
                assert(mviews(acc@) =~= seq![acc@[0]@]);
            }
            pe_expr_rest(cs, y.1, acc)
        },
    }
}

fn pe_expr_rest(cs: &Vec<char>, pos: usize, acc: Vec<Mocf>) -> (r: Result<(Mocf, usize), String>)
    requires
        pos <= cs@.len(),
        no_overflow(p_expr_rest(cs@, pos as int, mviews(acc@))),
    ensures
        agrees(r, p_expr_rest(cs@, pos as int, mviews(acc@))),
        r is Ok ==> pos <= r->Ok_0.1 <= cs@.len(),
    decreases cs@.len() - pos, 5nat,
{
    if pos < cs.len() && cs[pos] == '+' {
        match pe_term(cs, pos + 1) {
            Err(m) => Err(m),
            Ok(y) => {
                let mut acc = acc;
                let ghost a0 = mviews(acc@);
                acc.push(y.0);
                proof {
                    assert(mviews(acc@) =~= a0.push(acc@[acc@.len() - 1]@));
                }
                pe_expr_rest(cs, y.1, acc)
            },
        }
    } else {
        Ok((from_prims_exec(&acc), pos))
    }
}

fn pe_term(cs: &Vec<char>, pos: usize) -> (r: Result<(Mocf, usize), String>)
    requires
        pos <= cs@.len(),
        no_overflow(p_term(cs@, pos as int)),
    ensures
        agrees(r, p_term(cs@, pos as int)),
        r is Ok ==> pos < r->Ok_0.1 <= cs@.len(),
    decreases cs@.len() - pos, 4nat,
{
    match pe_pow_factor(cs, pos) {
        Err(m) => Err(m),
        Ok(y) => pe_term_rest(cs, y.1, y.0),
    }
}

fn pe_term_rest(cs: &Vec<char>, pos: usize, base: Mocf) -> (r: Result<(Mocf, usize), String>)
    requires
        pos <= cs@.len(),
        no_overflow(p_term_rest(cs@, pos as int, base@)),
    ensures
        agrees(r, p_term_rest(cs@, pos as int, base@)),
        r is Ok ==> pos <= r->Ok_0.1 <= cs@.len(),
    decreases cs@.len() - pos, 3nat,
{
    let k = times_len_exec(cs, pos);
    if k == 0 {
        return Ok((base, pos));
    }
    let n = cs.len();
    assert(pos + k <= n);
    let pk: usize = pos + k;
    match pe_pow_factor(cs, pk) {
        Err(m) => Err(m),
        Ok(y) => match mul_exec(&base, &y.0, MOCF_DEPTH) {
            Err(m) => Err(m),
            Ok(t) => pe_term_rest(cs, y.1, t),
        },
    }
}

fn pe_pow_factor(cs: &Vec<char>, pos: usize) -> (r: Result<(Mocf, usize), String>)
    requires
        pos <= cs@.len(),
        no_overflow(p_pow_factor(cs@, pos as int)),
    ensures
        agrees(r, p_pow_factor(cs@, pos as int)),
        r is Ok ==> pos < r->Ok_0.1 <= cs@.len(),
    decreases cs@.len() - pos, 2nat,
{
    match pe_factor(cs, pos) {
        Err(m) => Err(m),
        Ok(y) => match pe_pow_rhs(cs, y.1, y.0) {
            Err(m) => Err(m),
            Ok(q) => {
                let j = q.1;
                if j < cs.len() && is_digit_char(cs[j]) && cs[j] != '0' {
                    let (e, v) = digit_span(cs, j);
                    match v {
                        Some(n) => Ok((mul_nat_exec(&q.0, n as usize), e)),
                        None => Err(String::new()),
                    }
                } else {
                    Ok(q)
                }
            },
        },
    }
}

fn pe_pow_rhs(cs: &Vec<char>, pos: usize, base: Mocf) -> (r: Result<(Mocf, usize), String>)
    requires
        pos <= cs@.len(),
        no_overflow(p_pow_rhs(cs@, pos as int, base@)),
    ensures
        agrees(r, p_pow_rhs(cs@, pos as int, base@)),
        r is Ok ==> pos <= r->Ok_0.1 <= cs@.len(),
    decreases cs@.len() - pos, 1nat,
{
    if !(pos < cs.len() && cs[pos] == '^') {
        return Ok((base, pos));
    }
    let ex: Result<(Mocf, usize), String> = if pos + 1 < cs.len() && cs[pos + 1] == '{' {
        match pe_expr(cs, pos + 2) {
            Err(m) => Err(m),
            Ok(y) => pe_expect(cs, y.0, y.1, '}', "expected '}'"),
        }
    } else {
        match pe_factor(cs, pos + 1) {
            Err(m) => Err(m),
            Ok(y) => pe_pow_rhs(cs, y.1, y.0),
        }
    };
    match ex {
        Err(m) => Err(m),
        Ok(y) => match pow_exec(base, y.0, MOCF_DEPTH) {
            Err(m) => Err(m),
            Ok(b2) => pe_pow_rhs(cs, y.1, b2),
        },
    }
}

fn pe_factor(cs: &Vec<char>, pos: usize) -> (r: Result<(Mocf, usize), String>)
    requires
        pos <= cs@.len(),
        no_overflow(p_factor(cs@, pos as int)),
    ensures
        agrees(r, p_factor(cs@, pos as int)),
        r is Ok ==> pos < r->Ok_0.1 <= cs@.len(),
    decreases cs@.len() - pos, 0nat,
{
    if pos >= cs.len() {
        return Err(lit("unexpected end"));
    }
    let c = cs[pos];
    if c == '0' {
        return Ok((Mocf::Zero, pos + 1));
    }
    if is_digit_char(c) {
        let (e, v) = digit_span(cs, pos);
        match v {
            Some(n) => {
                return Ok((from_nat_exec(n as usize), e));
            },
            None => {
                return Err(String::new());
            },
        }
    }
    if c == '(' {
        return match pe_expr(cs, pos + 1) {
            Err(m) => Err(m),
            Ok(y) => pe_expect(cs, y.0, y.1, ')', "expected ')'"),
        };
    }
    if c == 'ω' || c == 'w' {
        let o = mk_one();
        return Ok((Mocf::OmegaPow(Box::new(o)), pos + 1));
    }
    if c == 'Ω' || c == 'W' {
        if pos + 1 < cs.len() && cs[pos + 1] == '_' {
            let sub: Result<(Mocf, usize), String> = if pos + 2 < cs.len() && cs[pos + 2] == '(' {
                match pe_expr(cs, pos + 3) {
                    Err(m) => Err(m),
                    Ok(y) => pe_expect(cs, y.0, y.1, ')', "expected ')'"),
                }
            } else {
                pe_factor(cs, pos + 2)
            };
            return match sub {
                Err(m) => Err(m),
                Ok(y) => Ok((Mocf::Omega(Box::new(y.0)), y.1)),
            };
        }
        let o = mk_one();
        return Ok((Mocf::Omega(Box::new(o)), pos + 1));
    }
    if c == 'ψ' || c == 'p' {
        let sub: Result<(Mocf, usize), String> = if pos + 1 < cs.len() && cs[pos + 1] == '_' {
            if pos + 2 < cs.len() && cs[pos + 2] == '(' {
                match pe_expr(cs, pos + 3) {
                    Err(m) => Err(m),
                    Ok(y) => pe_expect(cs, y.0, y.1, ')', "expected ')'"),
                }
            } else {
                pe_term(cs, pos + 2)
            }
        } else {
            Ok((Mocf::Zero, pos + 1))
        };
        return match sub {
            Err(m) => Err(m),
            Ok(y) => {
                let j = y.1;
                if j >= cs.len() || cs[j] != '(' {
                    Err(lit("expected '('"))
                } else {
                    match pe_expr(cs, j + 1) {
                        Err(m) => Err(m),
                        Ok(z) => pe_expect(
                            cs,
                            Mocf::Psi(Box::new(y.0), Box::new(z.0)),
                            z.1,
                            ')',
                            "expected ')'",
                        ),
                    }
                }
            },
        };
    }
    let mut m = lit("unexpected '");
    push_char(&mut m, c);
    m.append("'");
    proof {
        assert(m@ =~= "unexpected '"@ + seq![c] + "'"@);
    }
    Err(m)
}

/// Parse a MOCF term: numerals, `ω`/`w`, `Ω`/`W` with an optional
/// subscript, `ψ`/`p` with an optional subscript, brackets, `+`,
/// products (`×`, `·`, `*`, `\cdot`), right-associative `^` (exponent
/// bare or in braces) and juxtaposed coefficients (`Ω2`); whitespace is
/// ignored.
pub fn parse_mocf(input: &str) -> (r: Result<Mocf, String>)
    requires
        mocf_numerals_fit(input@),
    ensures
        rv(r) == parse_mocf_spec(input@),
{
    let raw = chars_of(input);
    let s = strip_ws_chars(&raw);
    if s.len() == 0 || (s.len() == 1 && s[0] == '0') {
        proof {
            if s@.len() == 1 {
                assert(s@ =~= seq!['0']);
            }
        }
        return Ok(Mocf::Zero);
    }
    proof {
        if s@ == seq!['0'] {
            assert(s@[0] == '0');
        }
    }
    let (e, v) = digit_span(&s, 0);
    if e == s.len() {
        match v {
            Some(n) => {
                return Ok(from_nat_exec(n as usize));
            },
            None => {
                return Err(lit("invalid number"));
            },
        }
    }
    match pe_expr(&s, 0) {
        Err(m) => Err(m),
        Ok(y) => {
            if y.1 != s.len() {
                let mut m = lit("trailing: ");
                push_chars(&mut m, &s, y.1, s.len());
                Err(m)
            } else {
                Ok(y.0)
            }
        },
    }
}

// ============================================================
// Printing
// ============================================================

pub open spec fn gviews(v: Seq<(Mocf, usize)>) -> Seq<(MocfV, nat)> {
    Seq::new(v.len(), |i: int| (v[i].0@, v[i].1 as nat))
}

pub open spec fn counts_le(gs: Seq<(MocfV, nat)>, n: nat) -> bool {
    forall|j: int| 0 <= j < gs.len() ==> #[trigger] gs[j].1 <= n
}

fn is_psi_value_exec(p: &Mocf) -> (r: bool)
    ensures
        r == is_psi_value(p@),
    decreases p,
{
    match p {
        Mocf::Psi(_, _) => true,
        Mocf::Omega(_) => true,
        Mocf::OmegaPow(e) => is_psi_value_exec(e),
        Mocf::Pow(q, _) => is_psi_value_exec(q),
        _ => false,
    }
}

/// Exec side of `groups` on the blocks of `x`.
fn groups_exec(x: &Mocf) -> (r: Vec<(Mocf, usize)>)
    ensures
        gviews(r@) == groups(prims(x@)),
        forall|j: int| 0 <= j < r@.len() ==> #[trigger] r@[j].1 >= 1,
{
    let n = prim_count(x);
    let ghost ps = prims(x@);
    let mut gs: Vec<(Mocf, usize)> = Vec::new();
    let mut i: usize = 0;
    proof {
        assert(gviews(gs@) =~= groups(ps.take(0)));
    }
    while i < n
        invariant
            i <= n,
            n == ps.len(),
            ps == prims(x@),
            gviews(gs@) == groups(ps.take(i as int)),
            counts_le(gviews(gs@), i as nat),
            forall|j: int| 0 <= j < gs@.len() ==> #[trigger] gs@[j].1 >= 1,
        decreases n - i,
    {
        let p = prim_at(x, i);
        let ghost target = groups_step(gviews(gs@), p@);
        proof {
            assert(ps.take(i + 1).drop_last() =~= ps.take(i as int));
            assert(ps.take(i + 1).last() == p@);
        }
        while gs.len() > 0 && ord_exec(&gs[gs.len() - 1].0, p, MOCF_DEPTH) < 0
            invariant
                groups_step(gviews(gs@), p@) == target,
                counts_le(gviews(gs@), i as nat),
                forall|j: int| 0 <= j < gs@.len() ==> #[trigger] gs@[j].1 >= 1,
            decreases gs.len(),
        {
            let ghost g0 = gs@;
            gs.pop();
            proof {
                assert(gviews(gs@) =~= gviews(g0).drop_last());
                assert forall|j: int| 0 <= j < gs@.len() implies #[trigger] gs@[j].1 >= 1 by {
                    assert(gs@[j] == g0[j]);
                }
            }
        }
        let ghost g1 = gs@;
        if gs.len() > 0 && ord_exec(&gs[gs.len() - 1].0, p, MOCF_DEPTH) == 0 {
            let (b, k) = gs.pop().unwrap();
            proof {
                assert(gviews(g1)[g1.len() - 1].1 == k);
                assert(k <= i);
            }
            gs.push((b, k + 1));
            proof {
                assert(gviews(gs@) =~= gviews(g1).drop_last().push((b@, (k + 1) as nat)));
            }
        } else {
            let c = clone_mocf(p);
            gs.push((c, 1));
            proof {
                assert(gviews(gs@) =~= gviews(g1).push((p@, 1nat)));
            }
        }
        i = i + 1;
        proof {
            assert(gviews(gs@) == target);
            assert forall|j: int| 0 <= j < gviews(gs@).len() implies #[trigger] gviews(gs@)[j].1
                <= i as nat by {
                if j < g1.len() - 1 || (j < g1.len() && gviews(gs@).len() > g1.len()) {
                    assert(gviews(gs@)[j] == gviews(g1)[j]);
                }
            }
            assert forall|j: int| 0 <= j < gs@.len() implies #[trigger] gs@[j].1 >= 1 by {
                if j < g1.len() - 1 || (j < g1.len() && gs@.len() > g1.len()) {
                    assert(gs@[j] == g1[j]);
                }
            }
        }
    }
    proof {
        assert(ps.take(n as int) =~= ps);
    }
    gs
}

/// Exec side of `qy_part`.
fn qy_part_exec(p: &Mocf) -> (r: Option<(Mocf, Mocf)>)
    ensures
        match r {
            Some(t) => qy_part(p@) == Some((t.0@, t.1@)),
            None => qy_part(p@) is None,
        },
{
    match p {
        Mocf::OmegaPow(e) => {
            let gs = groups_exec(e);
            let ghost gv = gviews(gs@);
            if gs.len() == 0 || !is_psi_value_exec(&gs[0].0) {
                return None;
            }
            proof {
                assert(gv[0] == (gs@[0].0@, gs@[0].1 as nat));
            }
            let pb = clone_mocf(&gs[0].0);
            let mut rest = copies(&pb, gs[0].1 - 1);
            let ghost r0 = mviews(rest@);
            let mut j: usize = 1;
            proof {
                assert(gv.drop_first().take(0) =~= Seq::<(MocfV, nat)>::empty());
                assert(mviews(rest@) =~= r0 + ungroup(gv.drop_first().take(0)));
            }
            while j < gs.len()
                invariant
                    1 <= j <= gs@.len(),
                    gv == gviews(gs@),
                    mviews(rest@) == r0 + ungroup(gv.drop_first().take(j - 1)),
                decreases gs.len() - j,
            {
                let more = copies(&gs[j].0, gs[j].1);
                let ghost m0 = mviews(rest@);
                let mut t: usize = 0;
                while t < more.len()
                    invariant
                        t <= more@.len(),
                        mviews(rest@) == m0 + mviews(more@).take(t as int),
                    decreases more.len() - t,
                {
                    let c = clone_mocf(&more[t]);
                    let ghost q0 = rest@;
                    rest.push(c);
                    t = t + 1;
                    proof {
                        assert(mviews(rest@) =~= mviews(q0).push(c@));
                        assert(mviews(rest@) =~= m0 + mviews(more@).take(t as int));
                    }
                }
                proof {
                    let g = gv.drop_first().take(j as int);
                    assert(g.drop_last() =~= gv.drop_first().take(j - 1));
                    assert(g.last() == gv[j as int]);
                    assert(mviews(more@).take(more@.len() as int) =~= mviews(more@));
                    assert(mviews(rest@) =~= r0 + ungroup(g));
                }
                j = j + 1;
            }
            proof {
                assert(gv.drop_first().take(gs@.len() - 1) =~= gv.drop_first());
            }
            let y = if rest.len() == 0 {
                mk_one()
            } else {
                Mocf::OmegaPow(Box::new(from_prims_exec(&rest)))
            };
            Some((pb, y))
        },
        Mocf::Omega(_) => Some((clone_mocf(p), mk_one())),
        Mocf::Psi(_, _) => Some((clone_mocf(p), mk_one())),
        _ => None,
    }
}

proof fn lemma_qy_none(ps: Seq<MocfV>, i: int)
    requires
        0 <= i <= ps.len(),
        qy_fold(ps.take(i)) is None,
    ensures
        qy_fold(ps) is None,
    decreases ps.len(),
{
    if i == ps.len() {
        assert(ps.take(i) =~= ps);
    } else {
        assert(ps.drop_last().take(i) =~= ps.take(i));
        lemma_qy_none(ps.drop_last(), i);
    }
}

/// Exec side of `extract_qy`.
fn extract_qy_exec(exp: &Mocf) -> (r: Option<(Mocf, Mocf)>)
    ensures
        match r {
            Some(t) => extract_qy(exp@) == Some((t.0@, t.1@)),
            None => extract_qy(exp@) is None,
        },
{
    let n = prim_count(exp);
    let ghost ps = prims(exp@);
    if n == 0 {
        return None;
    }
    let mut common: Option<Mocf> = None;
    let mut ys: Vec<Mocf> = Vec::new();
    let mut i: usize = 0;
    proof {
        assert(ps.take(0) =~= Seq::<MocfV>::empty());
        assert(mviews(ys@) =~= Seq::<MocfV>::empty());
    }
    while i < n
        invariant
            i <= n,
            n == ps.len(),
            ps == prims(exp@),
            qy_fold(ps.take(i as int)) == Some((opt_view(common), mviews(ys@))),
        decreases n - i,
    {
        proof {
            assert(ps.take(i + 1).drop_last() =~= ps.take(i as int));
            assert(ps.take(i + 1).last() == ps[i as int]);
        }
        match qy_part_exec(prim_at(exp, i)) {
            None => {
                proof {
                    lemma_qy_none(ps, i + 1);
                }
                return None;
            },
            Some(t) => {
                let keep = match &common {
                    None => true,
                    Some(c0) => ord_exec(c0, &t.0, MOCF_DEPTH) == 0,
                };
                if !keep {
                    proof {
                        lemma_qy_none(ps, i + 1);
                    }
                    return None;
                }
                if common.is_none() {
                    common = Some(t.0);
                }
                let ghost y0 = ys@;
                ys.push(t.1);
                proof {
                    assert(mviews(ys@) =~= mviews(y0).push(t.1@));
                }
            },
        }
        i = i + 1;
    }
    proof {
        assert(ps.take(n as int) =~= ps);
    }
    match common {
        None => None,
        Some(q) => Some((q, from_prims_exec(&ys))),
    }
}

fn has_psi_exec(x: &Mocf) -> (r: bool)
    ensures
        r == has_psi(prims(x@)),
{
    let n = prim_count(x);
    let mut i: usize = 0;
    while i < n
        invariant
            i <= n,
            n == prims(x@).len(),
            forall|j: int| 0 <= j < i ==> !is_psi_value(#[trigger] prims(x@)[j]),
        decreases n - i,
    {
        if is_psi_value_exec(prim_at(x, i)) {
            return true;
        }
        i = i + 1;
    }
    false
}

fn is_one(x: &Mocf) -> (r: bool)
    ensures
        r == (x@ == one()),
{
    match x {
        Mocf::OmegaPow(a) => is_zero(a),
        _ => false,
    }
}

/// Exec side of `latex`.
fn latex_exec(x: &Mocf, d: u64) -> (r: String)
    ensures
        r@ == latex(x@, d as nat),
    decreases d, 0nat,
{
    if d == 0 {
        return String::new();
    }
    let d1 = d - 1;
    match x {
        Mocf::Zero => lit("0"),
        Mocf::Sum(_) => {
            let gs = groups_exec(x);
            if gs.len() == 0 {
                lit("0")
            } else {
                sum_groups_exec(&gs, d1)
            }
        },
        Mocf::OmegaPow(a) => wpow_latex_exec(a, d1),
        Mocf::Omega(a) => {
            if is_one(a) {
                lit("\\Omega")
            } else {
                let mut s = lit("\\Omega_{");
                let inner = latex_exec(a, d1);
                push_string(&mut s, &inner);
                s.append("}");
                proof {
                    assert(s@ =~= latex(x@, d as nat));
                }
                s
            }
        },
        Mocf::Psi(v, a) => {
            let mut s = String::new();
            if is_zero(v) {
                s.append("\\psi(");
            } else {
                s.append("\\psi_{");
                let sv = latex_exec(v, d1);
                push_string(&mut s, &sv);
                s.append("}(");
            }
            let sa = latex_exec(a, d1);
            push_string(&mut s, &sa);
            s.append(")");
            proof {
                assert(s@ =~= latex(x@, d as nat));
            }
            s
        },
        Mocf::Pow(b, e) => {
            if is_zero(e) {
                lit("1")
            } else if is_one(e) {
                latex_exec(b, d1)
            } else {
                tower_latex_exec(b, e, d1)
            }
        },
    }
}

/// Exec side of `sum_groups`.
fn sum_groups_exec(gs: &Vec<(Mocf, usize)>, d: u64) -> (r: String)
    ensures
        r@ == sum_groups(gviews(gs@), d as nat),
    decreases d, gviews(gs@).len() + 1,
{
    let ghost gv = gviews(gs@);
    let mut s = String::new();
    let mut i: usize = 0;
    proof {
        assert(gv.take(0) =~= Seq::<(MocfV, nat)>::empty());
    }
    while i < gs.len()
        invariant
            i <= gs@.len(),
            gv == gviews(gs@),
            s@ == sum_groups(gv.take(i as int), d as nat),
        decreases gs.len() - i,
    {
        let ghost s0 = s@;
        proof {
            assert(gv.take(i + 1).drop_last() =~= gv.take(i as int));
            assert(gv.take(i + 1).last() == gv[i as int]);
            assert(gv[i as int] == (gs@[i as int].0@, gs@[i as int].1 as nat));
        }
        if i > 0 {
            s.append("+");
        }
        let b = &gs[i].0;
        let k = gs[i].1;
        let o = mk_one();
        if ord_exec(b, &o, MOCF_DEPTH) == 0 {
            if k > 1 {
                push_nat(&mut s, k as u64);
            } else {
                s.append("1");
            }
        } else {
            let t = latex_exec(b, d);
            push_string(&mut s, &t);
            if k > 1 {
                push_nat(&mut s, k as u64);
            }
        }
        i = i + 1;
        proof {
            assert(s@ =~= sum_groups(gv.take(i as int), d as nat));
        }
    }
    proof {
        assert(gv.take(gs@.len() as int) =~= gv);
    }
    s
}

/// Exec side of `psi_groups`.
fn psi_groups_exec(gs: &Vec<(Mocf, usize)>, d: u64) -> (r: String)
    ensures
        r@ == psi_groups(gviews(gs@), d as nat),
    decreases d, gviews(gs@).len() + 1,
{
    let ghost gv = gviews(gs@);
    let mut s = String::new();
    let mut i: usize = 0;
    proof {
        assert(gv.take(0) =~= Seq::<(MocfV, nat)>::empty());
    }
    while i < gs.len()
        invariant
            i <= gs@.len(),
            gv == gviews(gs@),
            s@ == psi_groups(gv.take(i as int), d as nat),
        decreases gs.len() - i,
    {
        proof {
            assert(gv.take(i + 1).drop_last() =~= gv.take(i as int));
            assert(gv.take(i + 1).last() == gv[i as int]);
            assert(gv[i as int] == (gs@[i as int].0@, gs@[i as int].1 as nat));
        }
        let b = &gs[i].0;
        let k = gs[i].1;
        let o = mk_one();
        if is_psi_value_exec(b) {
            let t = latex_exec(b, d);
            push_string(&mut s, &t);
            if k > 1 {
                s.append("^{");
                push_nat(&mut s, k as u64);
                s.append("}");
            }
        } else if ord_exec(b, &o, MOCF_DEPTH) == 0 {
            if k == 1 {
                s.append("\\omega");
            } else {
                s.append("\\omega^{");
                push_nat(&mut s, k as u64);
                s.append("}");
            }
        } else {
            s.append("\\omega^{");
            let t = latex_exec(b, d);
            push_string(&mut s, &t);
            if k > 1 {
                push_nat(&mut s, k as u64);
            }
            s.append("}");
        }
        i = i + 1;
        proof {
            assert(s@ =~= psi_groups(gv.take(i as int), d as nat));
        }
    }
    proof {
        assert(gv.take(gs@.len() as int) =~= gv);
    }
    s
}

/// Exec side of `wpow_latex`.
fn wpow_latex_exec(a: &Mocf, d: u64) -> (r: String)
    ensures
        r@ == wpow_latex(a@, d as nat),
    decreases d, groups(prims(a@)).len() + 2,
{
    if is_zero(a) {
        return lit("1");
    }
    if is_one(a) {
        return lit("\\omega");
    }
    match extract_qy_exec(a) {
        Some(t) => {
            let o = mk_one();
            let mut s = latex_exec(&t.0, d);
            if ord_exec(&t.1, &o, MOCF_DEPTH) != 0 {
                s.append("^{");
                let ys = latex_exec(&t.1, d);
                push_string(&mut s, &ys);
                s.append("}");
            }
            proof {
                assert(s@ =~= wpow_latex(a@, d as nat));
            }
            return s;
        },
        None => {},
    }
    match a {
        Mocf::OmegaPow(inner) => match extract_qy_exec(inner) {
            Some(t) => {
                let o = mk_one();
                let mut s = latex_exec(&t.0, d);
                if ord_exec(&t.1, &o, MOCF_DEPTH) != 0 {
                    let q = clone_mocf(&t.0);
                    let pw = Mocf::Pow(Box::new(q), Box::new(t.1));
                    s.append("^{");
                    let ps = latex_exec(&pw, d);
                    push_string(&mut s, &ps);
                    s.append("}");
                }
                proof {
                    assert(s@ =~= wpow_latex(a@, d as nat));
                }
                return s;
            },
            None => {},
        },
        _ => {},
    }
    if !has_psi_exec(a) {
        let mut s = lit("\\omega^{");
        let t = latex_exec(a, d);
        push_string(&mut s, &t);
        s.append("}");
        proof {
            assert(s@ =~= wpow_latex(a@, d as nat));
        }
        return s;
    }
    let gs = groups_exec(a);
    psi_groups_exec(&gs, d)
}

/// Exec side of `tower_latex`.
fn tower_latex_exec(q: &Mocf, exp: &Mocf, d: u64) -> (r: String)
    ensures
        r@ == tower_latex(q@, exp@, d as nat),
    decreases d, size(exp@) + 1,
{
    let mut s = latex_exec(q, d);
    s.append("^{");
    let inner = match exp {
        Mocf::Pow(q2, y) => tower_latex_exec(q2, y, d),
        _ => latex_exec(exp, d),
    };
    push_string(&mut s, &inner);
    s.append("}");
    proof {
        assert(s@ =~= tower_latex(q@, exp@, d as nat));
    }
    s
}

impl Mocf {
    /// The LaTeX form: like blocks merged into coefficients, absorbed
    /// blocks dropped, `ω^{q·Y}` written `q^Y`.
    pub fn to_string(&self) -> (r: String)
        ensures
            r@ == mocf_latex(self@),
    {
        latex_exec(self, MOCF_PRINT_DEPTH)
    }
}

/// Parse, then print in LaTeX form.
pub fn analyze_mocf(input: &str) -> (r: Result<String, String>)
    requires
        mocf_numerals_fit(input@),
    ensures
        match r {
            Ok(s) => parse_mocf_spec(input@) is Ok && s@ == mocf_latex(parse_mocf_spec(input@)->Ok_0),
            Err(m) => parse_mocf_spec(input@) == Err::<MocfV, Seq<char>>(m@),
        },
{
    match parse_mocf(input) {
        Err(m) => Err(m),
        Ok(x) => Ok(x.to_string()),
    }
}

/// Parse, expand at `fs`, print.
pub fn expand_mocf(input: &str, fs: i32) -> (r: Result<String, String>)
    requires
        mocf_numerals_fit(input@),
    ensures
        match r {
            Ok(s) => parse_mocf_spec(input@) is Ok && s@ == mocf_latex(
                mocf_fs(parse_mocf_spec(input@)->Ok_0, fs),
            ),
            Err(m) => parse_mocf_spec(input@) == Err::<MocfV, Seq<char>>(m@),
        },
{
    match parse_mocf(input) {
        Err(m) => Err(m),
        Ok(x) => Ok(x.expand(fs).to_string()),
    }
}

} // verus!
