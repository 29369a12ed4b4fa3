//! Nothing OCF (NOCF): terms ψ_v(a) over 0, up to the EBO, with their
//! order, cofinalities, fundamental sequences, printing and parsing.
use vstd::prelude::*;
use crate::text::{
    chars_of, digit_of, digits_end, digits_val, is_digit, is_digit_char, is_ws, lemma_digits_end,
    lemma_digits_val_mono, lemma_digits_val_nonneg, lit, nat_str, push_chars, push_char, push_nat,
    push_string, spec_is_ws,
};

verus! {

/// A NOCF term: `0` or `ψ_v(a)`.
#[derive(Debug, PartialEq, Eq)]
pub enum Nocf {
    Zero,
    Psi(Box<Nocf>, Box<Nocf>),
}

// ============================================================
// Model
// ============================================================

pub open spec fn mk_psi(v: Nocf, a: Nocf) -> Nocf {
    Nocf::Psi(Box::new(v), Box::new(a))
}

/// The subscript of `ψ_v(a)` (0 for 0).
pub open spec fn sub_of(x: Nocf) -> Nocf {
    match x {
        Nocf::Zero => Nocf::Zero,
        Nocf::Psi(v, _) => *v,
    }
}

/// The argument of `ψ_v(a)` (0 for 0).
pub open spec fn arg_of(x: Nocf) -> Nocf {
    match x {
        Nocf::Zero => Nocf::Zero,
        Nocf::Psi(_, a) => *a,
    }
}

pub open spec fn height(x: Nocf) -> nat
    decreases x,
{
    match x {
        Nocf::Zero => 0,
        Nocf::Psi(v, a) => {
            let hv = height(*v);
            let ha = height(*a);
            1 + if hv >= ha {
                hv
            } else {
                ha
            }
        },
    }
}

/// The natural number `n` as `ψ_0(ψ_0(...ψ_0(0)...))`.
pub open spec fn nat_nocf(n: nat) -> Nocf
    decreases n,
{
    if n == 0 {
        Nocf::Zero
    } else {
        mk_psi(Nocf::Zero, nat_nocf((n - 1) as nat))
    }
}

/// The natural number a term spells, or -1 where it is no natural number.
pub open spec fn nocf_nat(x: Nocf) -> int
    decreases x,
{
    match x {
        Nocf::Zero => 0,
        Nocf::Psi(v, a) => if !(*v is Zero) {
            -1
        } else {
            let n = nocf_nat(*a);
            if n < 0 {
                -1
            } else {
                n + 1
            }
        },
    }
}

/// The natural number a term spells, if any, fits in `i32`.
pub open spec fn nat_fits(x: Nocf) -> bool {
    nocf_nat(x) <= i32::MAX
}

/// Lexicographic order on (subscript, argument): -1, 0 or 1.
pub open spec fn nocf_order(x: Nocf, y: Nocf) -> int
    decreases x,
{
    match x {
        Nocf::Zero => if y is Zero {
            0
        } else {
            -1
        },
        Nocf::Psi(v1, a1) => match y {
            Nocf::Zero => 1,
            Nocf::Psi(v2, a2) => {
                let c = nocf_order(*v1, *v2);
                if c != 0 {
                    c
                } else {
                    nocf_order(*a1, *a2)
                }
            },
        },
    }
}

/// Cofinality: `None` for 0 and successors, else the term that the
/// fundamental sequence is indexed by (0 standing for ω).
pub open spec fn cof(x: Nocf) -> Option<Nocf>
    decreases x,
{
    match x {
        Nocf::Zero => None,
        Nocf::Psi(v, a) => if *a is Zero {
            if *v is Zero {
                None
            } else {
                match cof(*v) {
                    Some(c) => Some(c),
                    None => Some(*v),
                }
            }
        } else {
            match cof(*a) {
                None => None,
                Some(ca) => if nocf_order(ca, *v) <= 0 {
                    Some(ca)
                } else {
                    Some(Nocf::Zero)
                },
            }
        },
    }
}

pub proof fn lemma_cof_height(x: Nocf)
    ensures
        cof(x) is Some ==> height(cof(x)->0) < height(x),
    decreases x,
{
    match x {
        Nocf::Zero => {},
        Nocf::Psi(v, a) => {
            lemma_cof_height(*v);
            lemma_cof_height(*a);
        },
    }
}

/// How many steps a natural-number index asks for (0 for any other).
pub open spec fn fs_count(idx: Nocf) -> nat {
    let n = nocf_nat(idx);
    if n < 0 {
        0
    } else {
        n as nat
    }
}

/// Fundamental sequence of `x` at index `idx`.
pub open spec fn nocf_fs(x: Nocf, idx: Nocf) -> Nocf
    decreases 2 * height(x) + 1, 0nat,
{
    match x {
        Nocf::Zero => Nocf::Zero,
        Nocf::Psi(v, a) => if *a is Zero {
            if *v is Zero {
                Nocf::Zero
            } else if cof(*v) is None {
                idx
            } else {
                mk_psi(nocf_fs(*v, idx), Nocf::Zero)
            }
        } else {
            match cof(*a) {
                None => mk_psi(*v, nocf_fs(*a, Nocf::Zero)),
                Some(ca) => if nocf_order(ca, *v) <= 0 {
                    mk_psi(*v, nocf_fs(*a, idx))
                } else {
                    proof {
                        lemma_cof_height(*a);
                    }
                    mk_psi(*v, fs_iter(*a, nocf_fs(ca, Nocf::Zero), fs_count(idx)))
                },
            }
        },
    }
}

/// `k` rounds of `r ↦ fs(a, ψ_p(r))`, starting from 0.
pub open spec fn fs_iter(a: Nocf, p: Nocf, k: nat) -> Nocf
    decreases 2 * height(a) + 2, k,
{
    if k == 0 {
        Nocf::Zero
    } else {
        nocf_fs(a, mk_psi(p, fs_iter(a, p, (k - 1) as nat)))
    }
}

/// Every natural-number index that the fundamental sequence reads fits.
pub open spec fn fs_ok(x: Nocf, idx: Nocf) -> bool
    decreases 2 * height(x) + 1, 0nat,
{
    match x {
        Nocf::Zero => true,
        Nocf::Psi(v, a) => if *a is Zero {
            if *v is Zero || cof(*v) is None {
                true
            } else {
                fs_ok(*v, idx)
            }
        } else {
            match cof(*a) {
                None => fs_ok(*a, Nocf::Zero),
                Some(ca) => if nocf_order(ca, *v) <= 0 {
                    fs_ok(*a, idx)
                } else {
                    proof {
                        lemma_cof_height(*a);
                    }
                    &&& fs_ok(ca, Nocf::Zero)
                    &&& nat_fits(idx)
                    &&& iter_ok(*a, nocf_fs(ca, Nocf::Zero), fs_count(idx))
                },
            }
        },
    }
}

pub open spec fn iter_ok(a: Nocf, p: Nocf, k: nat) -> bool
    decreases 2 * height(a) + 2, k,
{
    k == 0 || (iter_ok(a, p, (k - 1) as nat) && fs_ok(
        a,
        mk_psi(p, fs_iter(a, p, (k - 1) as nat)),
    ))
}

// ============================================================
// Laws
// ============================================================

/// The order is reflexive and antisymmetric: `compare` gives 0 exactly on
/// equal terms, and swapping the arguments negates the answer.
pub proof fn lemma_order_antisymmetric(x: Nocf, y: Nocf)
    ensures
        nocf_order(x, y) == 0 <==> x == y,
        nocf_order(x, y) == -nocf_order(y, x),
        -1 <= nocf_order(x, y) <= 1,
    decreases x,
{
    match x {
        Nocf::Zero => {},
        Nocf::Psi(v1, a1) => match y {
            Nocf::Zero => {},
            Nocf::Psi(v2, a2) => {
                lemma_order_antisymmetric(*v1, *v2);
                lemma_order_antisymmetric(*a1, *a2);
            },
        },
    }
}

/// The order is transitive.
pub proof fn lemma_order_transitive(x: Nocf, y: Nocf, z: Nocf)
    requires
        nocf_order(x, y) < 0,
        nocf_order(y, z) < 0,
    ensures
        nocf_order(x, z) < 0,
    decreases x,
{
    match x {
        Nocf::Zero => {},
        Nocf::Psi(v1, a1) => match y {
            Nocf::Zero => {},
            Nocf::Psi(v2, a2) => match z {
                Nocf::Zero => {},
                Nocf::Psi(v3, a3) => {
                    lemma_order_antisymmetric(*v1, *v2);
                    lemma_order_antisymmetric(*v2, *v3);
                    lemma_order_antisymmetric(*v1, *v3);
                    if nocf_order(*v1, *v2) < 0 && nocf_order(*v2, *v3) < 0 {
                        lemma_order_transitive(*v1, *v2, *v3);
                    } else if nocf_order(*v1, *v2) == 0 && nocf_order(*v2, *v3) == 0 {
                        lemma_order_transitive(*a1, *a2, *a3);
                    }
                },
            },
        },
    }
}

/// Natural numbers read back: `to_nat(from_nat(n)) == n`.
pub proof fn lemma_nat_round_trip(n: nat)
    ensures
        nocf_nat(nat_nocf(n)) == n,
    decreases n,
{
    if n > 0 {
        lemma_nat_round_trip((n - 1) as nat);
    }
}

/// A term that spells a natural number is that number's term.
pub proof fn lemma_nat_spelled(x: Nocf)
    requires
        nocf_nat(x) >= 0,
    ensures
        x == nat_nocf(nocf_nat(x) as nat),
    decreases x,
{
    match x {
        Nocf::Zero => {},
        Nocf::Psi(v, a) => {
            lemma_nat_spelled(*a);
        },
    }
}

// ============================================================
// Operations
// ============================================================

/// A deep copy.
pub fn clone_nocf(x: &Nocf) -> (r: Nocf)
    ensures
        r == *x,
    decreases x,
{
    match x {
        Nocf::Zero => Nocf::Zero,
        Nocf::Psi(v, a) => Nocf::Psi(Box::new(clone_nocf(v)), Box::new(clone_nocf(a))),
    }
}

impl Nocf {
    pub fn zero() -> (r: Nocf)
        ensures
            r == Nocf::Zero,
    {
        Nocf::Zero
    }

    pub fn psi(v: Nocf, a: Nocf) -> (r: Nocf)
        ensures
            r == mk_psi(v, a),
    {
        Nocf::Psi(Box::new(v), Box::new(a))
    }

    /// The natural number `n` as `ψ_0^n(0)` (0 for `n ≤ 0`).
    pub fn from_nat(n: i32) -> (r: Nocf)
        ensures
            r == nat_nocf(if n < 0 { 0 } else { n as nat }),
    {
        let mut r = Nocf::Zero;
        let mut i: i32 = 0;
        while i < n
            invariant
                0 <= i,
                i <= n || i == 0,
                r == nat_nocf(i as nat),
            decreases n - i,
        {
            r = Nocf::psi(Nocf::Zero, r);
            i = i + 1;
        }
        r
    }

    pub fn is_zero(&self) -> (r: bool)
        ensures
            r == (*self is Zero),
    {
        match self {
            Nocf::Zero => true,
            _ => false,
        }
    }

    /// The natural number the term spells, or -1.
    pub fn to_nat(&self) -> (r: i32)
        requires
            nat_fits(*self),
        ensures
            r == nocf_nat(*self),
        decreases self,
    {
        match self {
            Nocf::Zero => 0,
            Nocf::Psi(v, a) => {
                if !v.is_zero() {
                    return -1;
                }
                let n = a.to_nat();
                if n < 0 {
                    -1
                } else {
                    n + 1
                }
            },
        }
    }

    /// Order: 1 if `self` is larger, -1 if smaller, 0 if equal.
    pub fn compare(&self, other: &Nocf) -> (r: i32)
        ensures
            r == nocf_order(*self, *other),
        decreases self,
    {
        if self.is_zero() && other.is_zero() {
            return 0;
        }
        if self.is_zero() {
            return -1;
        }
        if other.is_zero() {
            return 1;
        }
        match (self, other) {
            (Nocf::Psi(v1, a1), Nocf::Psi(v2, a2)) => {
                let c = v1.compare(v2);
                if c != 0 {
                    return c;
                }
                a1.compare(a2)
            },
            _ => 0,
        }
    }

    /// The cofinality marker of the term.
    pub fn cofinality(&self) -> (r: Option<Nocf>)
        ensures
            r == cof(*self),
        decreases self,
    {
        match self {
            Nocf::Zero => None,
            Nocf::Psi(v, a) => {
                if a.is_zero() {
                    if v.is_zero() {
                        return None;
                    }
                    match v.cofinality() {
                        Some(c) => Some(c),
                        None => Some(clone_nocf(v)),
                    }
                } else {
                    match a.cofinality() {
                        None => None,
                        Some(cf_a) => {
                            if cf_a.compare(v) <= 0 {
                                Some(cf_a)
                            } else {
                                Some(Nocf::Zero)
                            }
                        },
                    }
                }
            },
        }
    }

    /// Fundamental sequence with an arbitrary term as index.
    pub fn fs(&self, index: &Nocf) -> (r: Nocf)
        requires
            fs_ok(*self, *index),
        ensures
            r == nocf_fs(*self, *index),
        decreases height(*self),
    {
        match self {
            Nocf::Zero => Nocf::Zero,
            Nocf::Psi(v, a) => {
                if a.is_zero() {
                    if v.is_zero() {
                        return Nocf::Zero;
                    }
                    match v.cofinality() {
                        None => clone_nocf(index),
                        Some(_) => Nocf::psi(v.fs(index), Nocf::Zero),
                    }
                } else {
                    match a.cofinality() {
                        None => Nocf::psi(clone_nocf(v), a.fs(&Nocf::Zero)),
                        Some(cf_a) => {
                            if cf_a.compare(v) <= 0 {
                                Nocf::psi(clone_nocf(v), a.fs(index))
                            } else {
                                proof {
                                    lemma_cof_height(**a);
                                }
                                let cf_a_pred = cf_a.fs(&Nocf::Zero);
                                let i_nat = if index.is_zero() {
                                    0
                                } else {
                                    index.to_nat()
                                };
                                let count: i32 = if i_nat < 0 {
                                    0
                                } else {
                                    i_nat
                                };
                                let ghost p = nocf_fs(cf_a, Nocf::Zero);
                                proof {
                                    assert(count as nat == fs_count(*index));
                                }
                                let mut result = Nocf::Zero;
                                let mut i: i32 = 0;
                                while i < count
                                    invariant
                                        0 <= i <= count,
                                        count as nat == fs_count(*index),
                                        cf_a_pred == p,
                                        result == fs_iter(**a, p, i as nat),
                                        iter_ok(**a, p, count as nat),
                                        height(**a) < height(*self),
                                    decreases count - i,
                                {
                                    proof {
                                        lemma_iter_ok_prefix(**a, p, (i + 1) as nat, count as nat);
                                    }
                                    let idx = Nocf::psi(clone_nocf(&cf_a_pred), result);
                                    result = a.fs(&idx);
                                    i = i + 1;
                                }
                                Nocf::psi(clone_nocf(v), result)
                            }
                        },
                    }
                }
            },
        }
    }

    /// Fundamental sequence at a natural-number index.
    pub fn expand(&self, index: i32) -> (r: Nocf)
        requires
            fs_ok(*self, nat_nocf(if index < 0 { 0 } else { index as nat })),
        ensures
            r == nocf_fs(*self, nat_nocf(if index < 0 { 0 } else { index as nat })),
    {
        self.fs(&Nocf::from_nat(index))
    }
}

/// The natural number a term spells, capped at `i32::MAX + 1`; -1 where
/// it spells none.
fn nat_capped(x: &Nocf) -> (r: i64)
    ensures
        nocf_nat(*x) <= i32::MAX ==> r == nocf_nat(*x),
        nocf_nat(*x) > i32::MAX ==> r == i32::MAX + 1,
    decreases x,
{
    match x {
        Nocf::Zero => 0,
        Nocf::Psi(v, a) => {
            if !v.is_zero() {
                return -1;
            }
            let n = nat_capped(a);
            if n < 0 {
                -1
            } else if n >= 0x7fff_ffff {
                0x8000_0000
            } else {
                n + 1
            }
        },
    }
}

impl Nocf {
    /// Whether the natural number the term spells, if any, fits in `i32`.
    pub fn nat_fits_check(&self) -> (r: bool)
        ensures
            r == nat_fits(*self),
    {
        nat_capped(self) <= 0x7fff_ffff
    }

    /// Whether every subscript that printing reads as a number fits.
    pub fn subs_fit_check(&self) -> (r: bool)
        ensures
            r == subs_fit(*self),
        decreases self,
    {
        match self {
            Nocf::Zero => true,
            Nocf::Psi(v, a) => {
                let vok = v.is_zero() || (v.nat_fits_check() && (nat_capped(v) >= 0 || v.subs_fit_check()));
                vok && a.subs_fit_check()
            },
        }
    }

    /// `fs` where `fs_ok` holds, `None` elsewhere.
    pub fn fs_checked(&self, index: &Nocf) -> (r: Option<Nocf>)
        ensures
            match r {
                Some(x) => fs_ok(*self, *index) && x == nocf_fs(*self, *index),
                None => !fs_ok(*self, *index),
            },
        decreases height(*self),
    {
        match self {
            Nocf::Zero => Some(Nocf::Zero),
            Nocf::Psi(v, a) => {
                if a.is_zero() {
                    if v.is_zero() {
                        return Some(Nocf::Zero);
                    }
                    match v.cofinality() {
                        None => Some(clone_nocf(index)),
                        Some(_) => match v.fs_checked(index) {
                            None => None,
                            Some(x) => Some(Nocf::psi(x, Nocf::Zero)),
                        },
                    }
                } else {
                    match a.cofinality() {
                        None => match a.fs_checked(&Nocf::Zero) {
                            None => None,
                            Some(x) => Some(Nocf::psi(clone_nocf(v), x)),
                        },
                        Some(cf_a) => {
                            if cf_a.compare(v) <= 0 {
                                match a.fs_checked(index) {
                                    None => None,
                                    Some(x) => Some(Nocf::psi(clone_nocf(v), x)),
                                }
                            } else {
                                proof {
                                    lemma_cof_height(**a);
                                }
                                let cf_a_pred = match cf_a.fs_checked(&Nocf::Zero) {
                                    None => {
                                        return None;
                                    },
                                    Some(p) => p,
                                };
                                if !index.nat_fits_check() {
                                    return None;
                                }
                                let i_nat = if index.is_zero() {
                                    0
                                } else {
                                    index.to_nat()
                                };
                                let count: i32 = if i_nat < 0 {
                                    0
                                } else {
                                    i_nat
                                };
                                let ghost p = nocf_fs(cf_a, Nocf::Zero);
                                proof {
                                    assert(count as nat == fs_count(*index));
                                    assert(fs_ok(*self, *index) == iter_ok(**a, p, count as nat));
                                }
                                let mut result = Nocf::Zero;
                                let mut i: i32 = 0;
                                while i < count
                                    invariant
                                        0 <= i <= count,
                                        count as nat == fs_count(*index),
                                        cf_a_pred == p,
                                        result == fs_iter(**a, p, i as nat),
                                        iter_ok(**a, p, i as nat),
                                        height(**a) < height(*self),
                                        fs_ok(*self, *index) == iter_ok(**a, p, count as nat),
                                    decreases count - i,
                                {
                                    let idx = Nocf::psi(clone_nocf(&cf_a_pred), result);
                                    result = match a.fs_checked(&idx) {
                                        None => {
                                            proof {
                                                lemma_iter_ok_fails(**a, p, (i + 1) as nat, count as nat);
                                            }
                                            return None;
                                        },
                                        Some(x) => x,
                                    };
                                    i = i + 1;
                                }
                                Some(Nocf::psi(clone_nocf(v), result))
                            }
                        },
                    }
                }
            },
        }
    }

    /// `expand` where its `fs_ok` holds, `None` elsewhere.
    pub fn expand_checked(&self, index: i32) -> (r: Option<Nocf>)
        ensures
            match r {
                Some(x) => fs_ok(*self, nat_nocf(if index < 0 { 0 } else { index as nat })) && x
                    == nocf_fs(*self, nat_nocf(if index < 0 { 0 } else { index as nat })),
                None => !fs_ok(*self, nat_nocf(if index < 0 { 0 } else { index as nat })),
            },
    {
        self.fs_checked(&Nocf::from_nat(index))
    }
}

/// A failing step rules out every longer run.
proof fn lemma_iter_ok_fails(a: Nocf, p: Nocf, j: nat, k: nat)
    requires
        0 < j <= k,
        !fs_ok(a, mk_psi(p, fs_iter(a, p, (j - 1) as nat))),
    ensures
        !iter_ok(a, p, k),
{
    if iter_ok(a, p, k) {
        lemma_iter_ok_prefix(a, p, j, k);
    }
}

proof fn lemma_iter_ok_prefix(a: Nocf, p: Nocf, j: nat, k: nat)
    requires
        0 < j <= k,
        iter_ok(a, p, k),
    ensures
        iter_ok(a, p, j),
        fs_ok(a, mk_psi(p, fs_iter(a, p, (j - 1) as nat))),
    decreases k - j,
{
    if j < k {
        lemma_iter_ok_prefix(a, p, j, (k - 1) as nat);
    }
}

// ============================================================
// Printing
// ============================================================

/// Every subscript that printing reads as a number fits in `i32`.
pub open spec fn subs_fit(x: Nocf) -> bool
    decreases x,
{
    match x {
        Nocf::Zero => true,
        Nocf::Psi(v, a) => {
            &&& (*v is Zero || (nat_fits(*v) && (nocf_nat(*v) >= 0 || subs_fit(*v))))
            &&& subs_fit(*a)
        },
    }
}

/// LaTeX form: `\psi(a)`, or `\psi_{v}(a)` with a natural-number
/// subscript printed as its numeral.
pub open spec fn nocf_latex(x: Nocf) -> Seq<char>
    decreases x,
{
    match x {
        Nocf::Zero => "0"@,
        Nocf::Psi(v, a) => if *v is Zero {
            "\\psi("@ + nocf_latex(*a) + ")"@
        } else if nocf_nat(*v) >= 0 {
            "\\psi_{"@ + nat_str(nocf_nat(*v) as nat) + "}("@ + nocf_latex(*a) + ")"@
        } else {
            "\\psi_{"@ + nocf_latex(*v) + "}("@ + nocf_latex(*a) + ")"@
        },
    }
}

/// `\Omega` for the subscript "1", else `\Omega_{sub}`.
pub open spec fn omega_with(sub: Seq<char>) -> Seq<char> {
    if sub == "1"@ {
        "\\Omega"@
    } else {
        "\\Omega_{"@ + sub + "}"@
    }
}

/// `x` is Ω, that is ψ_1(0).
pub open spec fn is_big_omega(x: Nocf) -> bool {
    x is Psi && nocf_nat(sub_of(x)) == 1 && arg_of(x) is Zero
}

/// Sugared form: numerals for natural numbers, `\omega` for ψ(Ω),
/// `\Omega_α` for ψ_α(0) and `\Omega_α+β` for ψ_α(β).
pub open spec fn nocf_sugar(x: Nocf) -> Seq<char>
    decreases x,
{
    if nocf_nat(x) >= 0 {
        nat_str(nocf_nat(x) as nat)
    } else {
        match x {
            Nocf::Zero => "0"@,
            Nocf::Psi(v, a) => if *v is Zero {
                if *a is Zero {
                    "1"@
                } else if is_big_omega(*a) {
                    "\\omega"@
                } else {
                    "\\psi("@ + nocf_sugar(*a) + ")"@
                }
            } else if *a is Zero {
                omega_with(nocf_sugar(*v))
            } else {
                omega_with(nocf_sugar(*v)) + "+"@ + nocf_sugar(*a)
            },
        }
    }
}

/// Every natural number that the sugared printer reads fits in `i32`.
pub open spec fn sugar_ok(x: Nocf) -> bool
    decreases x,
{
    &&& nat_fits(x)
    &&& nocf_nat(x) < 0 ==> match x {
        Nocf::Zero => true,
        Nocf::Psi(v, a) => if *v is Zero {
            &&& (*a is Psi ==> nat_fits(sub_of(*a)))
            &&& (*a is Zero || is_big_omega(*a) || sugar_ok(*a))
        } else {
            &&& sugar_ok(*v)
            &&& (*a is Zero || sugar_ok(*a))
        },
    }
}

/// The form used for sequence systems: numerals, `\psi\left(a\right)`,
/// `\Omega_α` and `\Omega_α+β`.
pub open spec fn nocf_sss(x: Nocf) -> Seq<char>
    decreases x,
{
    if nocf_nat(x) >= 0 {
        nat_str(nocf_nat(x) as nat)
    } else {
        match x {
            Nocf::Zero => "0"@,
            Nocf::Psi(v, a) => if *v is Zero {
                if *a is Zero {
                    "1"@
                } else {
                    "\\psi\\left("@ + nocf_sss(*a) + "\\right)"@
                }
            } else if *a is Zero {
                omega_with(nocf_sss(*v))
            } else {
                omega_with(nocf_sss(*v)) + "+"@ + nocf_sss(*a)
            },
        }
    }
}

/// Every natural number that the sequence-system printer reads fits.
pub open spec fn sss_ok(x: Nocf) -> bool
    decreases x,
{
    &&& nat_fits(x)
    &&& nocf_nat(x) < 0 ==> match x {
        Nocf::Zero => true,
        Nocf::Psi(v, a) => {
            &&& (*v is Zero || sss_ok(*v))
            &&& (*a is Zero || sss_ok(*a))
        },
    }
}

fn push_omega_with(s: &mut String, sub: &String)
    ensures
        final(s)@ == old(s)@ + omega_with(sub@),
{
    let one = lit("1");
    if *sub == one {
        s.append("\\Omega");
    } else {
        s.append("\\Omega_{");
        push_string(s, sub);
        s.append("}");
    }
    proof {
        assert(final(s)@ =~= old(s)@ + omega_with(sub@));
    }
}

impl Nocf {
    /// The LaTeX form of the term.
    pub fn to_string(&self) -> (r: String)
        requires
            subs_fit(*self),
        ensures
            r@ == nocf_latex(*self),
        decreases self,
    {
        match self {
            Nocf::Zero => lit("0"),
            Nocf::Psi(v, a) => {
                let mut s = String::new();
                let inner = a.to_string();
                if v.is_zero() {
                    s.append("\\psi(");
                } else {
                    let n = v.to_nat();
                    s.append("\\psi_{");
                    if n >= 0 {
                        push_nat(&mut s, n as u64);
                    } else {
                        let sub = v.to_string();
                        push_string(&mut s, &sub);
                    }
                    s.append("}(");
                }
                push_string(&mut s, &inner);
                s.append(")");
                proof {
                    assert(s@ =~= nocf_latex(*self));
                }
                s
            },
        }
    }
}

fn is_nocf_omega(n: &Nocf) -> (r: bool)
    requires
        n is Psi ==> nat_fits(sub_of(*n)),
    ensures
        r == is_big_omega(*n),
{
    match n {
        Nocf::Zero => false,
        Nocf::Psi(v, a) => v.to_nat() == 1 && a.is_zero(),
    }
}

/// The sugared form of a term.
pub fn nocf_to_sugar_string(n: &Nocf) -> (r: String)
    requires
        sugar_ok(*n),
    ensures
        r@ == nocf_sugar(*n),
    decreases n,
{
    let count = n.to_nat();
    if count >= 0 {
        let mut s = String::new();
        push_nat(&mut s, count as u64);
        proof {
            assert(s@ =~= nocf_sugar(*n));
        }
        return s;
    }
    match n {
        Nocf::Zero => lit("0"),
        Nocf::Psi(v, a) => {
            let mut s = String::new();
            if v.is_zero() {
                if a.is_zero() {
                    return lit("1");
                } else if is_nocf_omega(a) {
                    return lit("\\omega");
                } else {
                    let inner = nocf_to_sugar_string(a);
                    s.append("\\psi(");
                    push_string(&mut s, &inner);
                    s.append(")");
                }
            } else {
                let sub = nocf_to_sugar_string(v);
                push_omega_with(&mut s, &sub);
                if !a.is_zero() {
                    let rest = nocf_to_sugar_string(a);
                    s.append("+");
                    push_string(&mut s, &rest);
                }
            }
            proof {
                assert(s@ =~= nocf_sugar(*n));
            }
            s
        },
    }
}

/// The sequence-system form of a term.
pub fn nocf_to_sss_string(n: &Nocf) -> (r: String)
    requires
        sss_ok(*n),
    ensures
        r@ == nocf_sss(*n),
    decreases n,
{
    let count = n.to_nat();
    if count >= 0 {
        let mut s = String::new();
        push_nat(&mut s, count as u64);
        proof {
            assert(s@ =~= nocf_sss(*n));
        }
        return s;
    }
    match n {
        Nocf::Zero => lit("0"),
        Nocf::Psi(v, a) => {
            let mut s = String::new();
            if v.is_zero() {
                if a.is_zero() {
                    return lit("1");
                }
                let inner = nocf_to_sss_string(a);
                s.append("\\psi\\left(");
                push_string(&mut s, &inner);
                s.append("\\right)");
            } else {
                let sub = nocf_to_sss_string(v);
                push_omega_with(&mut s, &sub);
                if !a.is_zero() {
                    let rest = nocf_to_sss_string(a);
                    s.append("+");
                    push_string(&mut s, &rest);
                }
            }
            proof {
                assert(s@ =~= nocf_sss(*n));
            }
            s
        },
    }
}

// ============================================================
// Parsing
// ============================================================

/// The characters that are not whitespace.
pub open spec fn strip_ws(s: Seq<char>) -> Seq<char>
    decreases s.len(),
{
    if s.len() == 0 {
        s
    } else if spec_is_ws(s.last()) {
        strip_ws(s.drop_last())
    } else {
        strip_ws(s.drop_last()).push(s.last())
    }
}

/// Closing `)` at `q` after a parsed term.
pub open spec fn close_paren(cs: Seq<char>, x: Nocf, q: int) -> Result<(Nocf, int), Option<Seq<char>>> {
    if q >= cs.len() || cs[q] != ')' {
        Err(Some("expected ')'"@))
    } else {
        Ok((x, q + 1))
    }
}

/// A term at `pos`. `Err(None)` marks a numeral too large for `i32`,
/// `Err(Some(msg))` a syntax error.
pub open spec fn p_nocf(cs: Seq<char>, pos: int) -> Result<(Nocf, int), Option<Seq<char>>>
    decreases cs.len() - pos, 1nat,
{
    if pos < 0 || pos >= cs.len() {
        Err(Some("unexpected end"@))
    } else {
        let c = cs[pos];
        if c == '0' {
            Ok((Nocf::Zero, pos + 1))
        } else if is_digit(c) {
            let e = digits_end(cs, pos);
            let n = digits_val(cs, pos, e);
            if n > i32::MAX || n < 0 {
                Err(None)
            } else {
                Ok((nat_nocf(n as nat), e))
            }
        } else if c == 'ψ' {
            p_psi(cs, pos + 1)
        } else if c == '(' {
            match p_nocf(cs, pos + 1) {
                Err(e) => Err(e),
                Ok(r) => close_paren(cs, r.0, r.1),
            }
        } else if c == 'Ω' || c == 'W' {
            if pos + 1 < cs.len() && cs[pos + 1] == '_' {
                if pos + 2 < cs.len() && cs[pos + 2] == '(' {
                    match p_nocf(cs, pos + 3) {
                        Err(e) => Err(e),
                        Ok(r) => close_paren(cs, mk_psi(r.0, Nocf::Zero), r.1),
                    }
                } else {
                    match p_nocf(cs, pos + 2) {
                        Err(e) => Err(e),
                        Ok(r) => Ok((mk_psi(r.0, Nocf::Zero), r.1)),
                    }
                }
            } else {
                Ok((mk_psi(nat_nocf(1), Nocf::Zero), pos + 1))
            }
        } else {
            Err(Some("unexpected '"@ + seq![c] + "'"@))
        }
    }
}

/// The optional subscript of a ψ whose letter ends before `i`.
pub open spec fn p_psi_sub(cs: Seq<char>, i: int) -> Result<(Nocf, int), Option<Seq<char>>>
    decreases cs.len() - i, 0nat,
{
    if 0 <= i < cs.len() && cs[i] == '_' {
        if i + 1 < cs.len() && cs[i + 1] == '(' {
            match p_nocf(cs, i + 2) {
                Err(e) => Err(e),
                Ok(r) => close_paren(cs, r.0, r.1),
            }
        } else {
            p_nocf(cs, i + 1)
        }
    } else {
        Ok((Nocf::Zero, i))
    }
}

/// `ψ_v(a)` after the letter ψ, which ends before `i`.
pub open spec fn p_psi(cs: Seq<char>, i: int) -> Result<(Nocf, int), Option<Seq<char>>>
    decreases cs.len() - i, 2nat,
{
    match p_psi_sub(cs, i) {
        Err(e) => Err(e),
        Ok(r) => if !(i <= r.1 <= cs.len()) {
            Err(Some(Seq::empty()))
        } else if r.1 >= cs.len() || cs[r.1] != '(' {
            Err(Some("expected '('"@))
        } else {
            match p_nocf(cs, r.1 + 1) {
                Err(e) => Err(e),
                Ok(q) => close_paren(cs, mk_psi(r.0, q.0), q.1),
            }
        },
    }
}

pub proof fn lemma_p_progress(cs: Seq<char>, pos: int)
    ensures
        p_nocf(cs, pos) is Ok ==> pos < p_nocf(cs, pos)->Ok_0.1 <= cs.len(),
        0 <= pos ==> (p_psi(cs, pos) is Ok ==> pos < p_psi(cs, pos)->Ok_0.1 <= cs.len()),
        0 <= pos ==> (p_psi_sub(cs, pos) is Ok ==> pos <= p_psi_sub(cs, pos)->Ok_0.1 <= cs.len()
            || pos > cs.len()),
    decreases cs.len() - pos,
{
    if 0 <= pos < cs.len() {
        lemma_p_progress(cs, pos + 1);
        if pos + 2 <= cs.len() {
            lemma_p_progress(cs, pos + 2);
        }
        if pos + 3 <= cs.len() {
            lemma_p_progress(cs, pos + 3);
        }
        lemma_digits_end(cs, pos);
        match p_psi_sub(cs, pos) {
            Err(_) => {},
            Ok(r) => {
                if pos <= r.1 < cs.len() {
                    lemma_p_progress(cs, r.1 + 1);
                }
            },
        }
    }
}

/// The whole input, whitespace ignored: empty or a numeral gives a
/// natural number, anything else one term with nothing after it.
pub open spec fn parse_nocf_raw(input: Seq<char>) -> Result<Nocf, Option<Seq<char>>> {
    let s = strip_ws(input);
    if s.len() == 0 || s == seq!['0'] {
        Ok(Nocf::Zero)
    } else if digits_end(s, 0) == s.len() {
        let n = digits_val(s, 0, s.len() as int);
        if n > i32::MAX || n < 0 {
            Err(Some("invalid number"@))
        } else {
            Ok(nat_nocf(n as nat))
        }
    } else {
        match p_nocf(s, 0) {
            Err(e) => Err(e),
            Ok(r) => if r.1 != s.len() {
                Err(Some("trailing: "@ + s.subrange(r.1, s.len() as int)))
            } else {
                Ok(r.0)
            },
        }
    }
}

/// No numeral inside a term is too large for `i32`.
pub open spec fn nocf_numerals_fit(input: Seq<char>) -> bool {
    parse_nocf_raw(input) != Err::<Nocf, Option<Seq<char>>>(None)
}

/// What `parse_nocf` returns: the term, or the error message.
pub open spec fn parse_nocf_spec(input: Seq<char>) -> Result<Nocf, Seq<char>> {
    match parse_nocf_raw(input) {
        Ok(x) => Ok(x),
        Err(e) => Err(
            match e {
                Some(m) => m,
                None => Seq::empty(),
            },
        ),
    }
}

pub(crate) fn strip_ws_chars(v: &Vec<char>) -> (r: Vec<char>)
    ensures
        r@ == strip_ws(v@),
{
    let mut out: Vec<char> = Vec::new();
    let mut i: usize = 0;
    while i < v.len()
        invariant
            i <= v@.len(),
            out@ == strip_ws(v@.take(i as int)),
        decreases v.len() - i,
    {
        proof {
            assert(v@.take(i + 1).drop_last() =~= v@.take(i as int));
        }
        if !is_ws(v[i]) {
            out.push(v[i]);
        }
        i = i + 1;
    }
    proof {
        assert(v@.take(v@.len() as int) =~= v@);
    }
    out
}

/// The value of the digit run `cs[from..to]`, or `None` past `i32::MAX`.
pub(crate) fn digit_run(cs: &Vec<char>, from: usize, to: usize) -> (r: Option<i32>)
    requires
        from <= to <= cs@.len(),
        forall|j: int| from <= j < to ==> is_digit(#[trigger] cs@[j]),
    ensures
        match r {
            Some(n) => n == digits_val(cs@, from as int, to as int),
            None => digits_val(cs@, from as int, to as int) > i32::MAX,
        },
{
    let mut v: i32 = 0;
    let mut k: usize = from;
    while k < to
        invariant
            from <= k <= to <= cs@.len(),
            forall|j: int| from <= j < to ==> is_digit(#[trigger] cs@[j]),
            v == digits_val(cs@, from as int, k as int),
        decreases to - k,
    {
        let d = digit_of(cs[k]) as i32;
        proof {
            lemma_digits_val_nonneg(cs@, from as int, k as int);
        }
        if v > 214748364 || (v == 214748364 && d > 7) {
            proof {
                lemma_digits_val_mono(cs@, from as int, k + 1, to as int);
            }
            return None;
        }
        v = v * 10 + d;
        k = k + 1;
    }
    Some(v)
}

fn expect_close(cs: &Vec<char>, x: Nocf, q: usize) -> (r: Result<(Nocf, usize), String>)
    requires
        q <= cs@.len(),
    ensures
        match r {
            Ok(y) => close_paren(cs@, x, q as int) == Ok::<(Nocf, int), Option<Seq<char>>>(
                (y.0, y.1 as int),
            ),
            Err(m) => close_paren(cs@, x, q as int) == Err::<(Nocf, int), Option<Seq<char>>>(
                Some(m@),
            ),
        },
{
    if q >= cs.len() || cs[q] != ')' {
        Err(lit("expected ')'"))
    } else {
        Ok((x, q + 1))
    }
}

/// Exec side of `p_nocf`.
fn parse_expr(cs: &Vec<char>, pos: usize) -> (r: Result<(Nocf, usize), String>)
    requires
        pos <= cs@.len(),
        p_nocf(cs@, pos as int) != Err::<(Nocf, int), Option<Seq<char>>>(None),
    ensures
        match r {
            Ok(y) => pos < y.1 <= cs@.len() && p_nocf(cs@, pos as int) == Ok::<(Nocf, int), Option<Seq<char>>>(
                (y.0, y.1 as int),
            ),
            Err(m) => p_nocf(cs@, pos as int) == Err::<(Nocf, int), Option<Seq<char>>>(
                Some(m@),
            ),
        },
    decreases cs@.len() - pos, 1nat,
{
    proof {
        lemma_p_progress(cs@, pos as int);
    }
    if pos >= cs.len() {
        return Err(lit("unexpected end"));
    }
    let c = cs[pos];
    if c == '0' {
        return Ok((Nocf::Zero, pos + 1));
    }
    if is_digit_char(c) {
        proof {
            lemma_digits_end(cs@, pos as int);
        }
        let mut e: usize = pos;
        while e < cs.len() && is_digit_char(cs[e])
            invariant
                pos <= e <= cs@.len(),
                digits_end(cs@, e as int) == digits_end(cs@, pos as int),
            decreases cs.len() - e,
        {
            e = e + 1;
        }
        proof {
            lemma_digits_val_nonneg(cs@, pos as int, e as int);
        }
        match digit_run(cs, pos, e) {
            Some(n) => {
                return Ok((Nocf::from_nat(n), e));
            },
            None => {
                return Err(String::new());
            },
        }
    }
    if c == 'ψ' {
        return parse_psi(cs, pos + 1);
    }
    if c == '(' {
        match parse_expr(cs, pos + 1) {
            Err(m) => {
                return Err(m);
            },
            Ok(y) => {
                return expect_close(cs, y.0, y.1);
            },
        }
    }
    if c == 'Ω' || c == 'W' {
        if pos + 1 < cs.len() && cs[pos + 1] == '_' {
            if pos + 2 < cs.len() && cs[pos + 2] == '(' {
                match parse_expr(cs, pos + 3) {
                    Err(m) => {
                        return Err(m);
                    },
                    Ok(y) => {
                        return expect_close(cs, Nocf::psi(y.0, Nocf::Zero), y.1);
                    },
                }
            } else {
                match parse_expr(cs, pos + 2) {
                    Err(m) => {
                        return Err(m);
                    },
                    Ok(y) => {
                        return Ok((Nocf::psi(y.0, Nocf::Zero), y.1));
                    },
                }
            }
        }
        proof {
            assert(nat_nocf(1) == mk_psi(Nocf::Zero, Nocf::Zero));
        }
        return Ok((Nocf::psi(Nocf::from_nat(1), Nocf::Zero), pos + 1));
    }
    let mut m = lit("unexpected '");
    push_char(&mut m, c);
    m.append("'");
    proof {
        assert(m@ =~= "unexpected '"@ + seq![c] + "'"@);
    }
    Err(m)
}

/// Exec side of `p_psi`.
fn parse_psi(cs: &Vec<char>, i: usize) -> (r: Result<(Nocf, usize), String>)
    requires
        i <= cs@.len(),
        p_psi(cs@, i as int) != Err::<(Nocf, int), Option<Seq<char>>>(None),
    ensures
        match r {
            Ok(y) => i < y.1 <= cs@.len() && p_psi(cs@, i as int) == Ok::<(Nocf, int), Option<Seq<char>>>(
                (y.0, y.1 as int),
            ),
            Err(m) => p_psi(cs@, i as int) == Err::<(Nocf, int), Option<Seq<char>>>(
                Some(m@),
            ),
        },
    decreases cs@.len() - i, 2nat,
{
    proof {
        lemma_p_progress(cs@, i as int);
    }
    let sub: Result<(Nocf, usize), String> = if i < cs.len() && cs[i] == '_' {
        if i + 1 < cs.len() && cs[i + 1] == '(' {
            match parse_expr(cs, i + 2) {
                Err(m) => Err(m),
                Ok(y) => expect_close(cs, y.0, y.1),
            }
        } else {
            parse_expr(cs, i + 1)
        }
    } else {
        Ok((Nocf::Zero, i))
    };
    match sub {
        Err(m) => Err(m),
        Ok(y) => {
            let j = y.1;
            if j >= cs.len() || cs[j] != '(' {
                return Err(lit("expected '('"));
            }
            match parse_expr(cs, j + 1) {
                Err(m) => Err(m),
                Ok(z) => expect_close(cs, Nocf::psi(y.0, z.0), z.1),
            }
        },
    }
}

/// Parse a NOCF term: `0`, numerals, `ψ_v(a)` (subscript optional, in
/// brackets or bare), `Ω`/`W` with an optional subscript, brackets;
/// whitespace is ignored.
pub fn parse_nocf(input: &str) -> (r: Result<Nocf, String>)
    requires
        nocf_numerals_fit(input@),
    ensures
        match r {
            Ok(x) => parse_nocf_spec(input@) == Ok::<Nocf, Seq<char>>(x),
            Err(m) => parse_nocf_spec(input@) == Err::<Nocf, Seq<char>>(m@),
        },
{
    let raw = chars_of(input);
    let s = strip_ws_chars(&raw);
    if s.len() == 0 || (s.len() == 1 && s[0] == '0') {
        proof {
            if s@.len() == 1 {
                assert(s@ =~= seq!['0']);
            }
        }
        return Ok(Nocf::Zero);
    }
    proof {
        if s@ == seq!['0'] {
            assert(s@[0] == '0');
        }
        lemma_digits_end(s@, 0);
    }
    let mut e: usize = 0;
    while e < s.len() && is_digit_char(s[e])
        invariant
            e <= s@.len(),
            digits_end(s@, e as int) == digits_end(s@, 0),
        decreases s.len() - e,
    {
        e = e + 1;
    }
    if e == s.len() {
        match digit_run(&s, 0, e) {
            Some(n) => {
                proof {
                    lemma_digits_val_nonneg(s@, 0, e as int);
                }
                return Ok(Nocf::from_nat(n));
            },
            None => {
                return Err(lit("invalid number"));
            },
        }
    }
    match parse_expr(&s, 0) {
        Err(m) => Err(m),
        Ok(y) => {
            if y.1 != s.len() {
                let mut m = lit("trailing: ");
                push_chars(&mut m, &s, y.1, s.len());
                Err(m)
            } else {
                Ok(y.0)
            }
        },
    }
}

/// Parse, then print in LaTeX form.
pub fn analyze_nocf(input: &str) -> (r: Result<String, String>)
    requires
        nocf_numerals_fit(input@),
        parse_nocf_spec(input@) is Ok ==> subs_fit(parse_nocf_spec(input@)->Ok_0),
    ensures
        match r {
            Ok(s) => parse_nocf_spec(input@) is Ok && s@ == nocf_latex(
                parse_nocf_spec(input@)->Ok_0,
            ),
            Err(m) => parse_nocf_spec(input@) == Err::<Nocf, Seq<char>>(m@),
        },
{
    match parse_nocf(input) {
        Err(m) => Err(m),
        Ok(x) => Ok(x.to_string()),
    }
}

/// Parse, then print in sugared form.
pub fn analyze_nocf_sugar(input: &str) -> (r: Result<String, String>)
    requires
        nocf_numerals_fit(input@),
        parse_nocf_spec(input@) is Ok ==> sugar_ok(parse_nocf_spec(input@)->Ok_0),
    ensures
        match r {
            Ok(s) => parse_nocf_spec(input@) is Ok && s@ == nocf_sugar(
                parse_nocf_spec(input@)->Ok_0,
            ),
            Err(m) => parse_nocf_spec(input@) == Err::<Nocf, Seq<char>>(m@),
        },
{
    match parse_nocf(input) {
        Err(m) => Err(m),
        Ok(x) => Ok(nocf_to_sugar_string(&x)),
    }
}

/// The natural-number index `fs` as a term (0 below zero).
pub open spec fn index_term(fs: i32) -> Nocf {
    nat_nocf(if fs < 0 { 0 } else { fs as nat })
}

/// `expand_nocf` where the expansion and its printing stay within `i32`;
/// `None` elsewhere.
pub fn expand_nocf_checked(input: &str, fs: i32) -> (r: Option<Result<String, String>>)
    requires
        nocf_numerals_fit(input@),
    ensures
        match parse_nocf_spec(input@) {
            Err(m) => r matches Some(Err(e)) && e@ == m,
            Ok(x) => if fs_ok(x, index_term(fs)) && subs_fit(nocf_fs(x, index_term(fs))) {
                r matches Some(Ok(s)) && s@ == nocf_latex(nocf_fs(x, index_term(fs)))
            } else {
                r is None
            },
        },
{
    match parse_nocf(input) {
        Err(m) => Some(Err(m)),
        Ok(x) => match x.expand_checked(fs) {
            None => None,
            Some(y) => {
                if !y.subs_fit_check() {
                    return None;
                }
                Some(Ok(y.to_string()))
            },
        },
    }
}

/// Parse, take the fundamental sequence at `fs`, print in LaTeX form.
pub fn expand_nocf(input: &str, fs: i32) -> (r: Result<String, String>)
    requires
        nocf_numerals_fit(input@),
        parse_nocf_spec(input@) is Ok ==> {
            let x = parse_nocf_spec(input@)->Ok_0;
            fs_ok(x, index_term(fs)) && subs_fit(nocf_fs(x, index_term(fs)))
        },
    ensures
        match r {
            Ok(s) => parse_nocf_spec(input@) is Ok && s@ == nocf_latex(
                nocf_fs(parse_nocf_spec(input@)->Ok_0, index_term(fs)),
            ),
            Err(m) => parse_nocf_spec(input@) == Err::<Nocf, Seq<char>>(m@),
        },
{
    match parse_nocf(input) {
        Err(m) => Err(m),
        Ok(x) => Ok(x.expand(fs).to_string()),
    }
}

} // verus!
