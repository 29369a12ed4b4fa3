//! Terms of the extended Buchholz ψ notation: `ψ_a(b) + c`, with `None` as
//! zero. Ordinal arithmetic, comparison, standard form and fundamental
//! sequences.
use vstd::prelude::*;
use crate::text::{lit, nat_str, push_nat, push_string};

verus! {

/// One summand `ψ_a(b)` followed by the rest of the sum `c`.
#[derive(Debug)]
pub struct TermNode {
    pub a: Term,
    pub b: Term,
    pub c: Term,
}

/// `ψ_a(b) + c`; `None` is zero.
pub type Term = Option<Box<TermNode>>;

// ============================================================
// Mathematical model
// ============================================================

/// The term `ψ_a(b) + c`.
pub open spec fn mk(a: Term, b: Term, c: Term) -> Term {
    Some(Box::new(TermNode { a, b, c }))
}

/// Number of ψ nodes in a term.
pub open spec fn size(x: Term) -> nat
    decreases x,
{
    match x {
        None => 0,
        Some(n) => 1 + size(n.a) + size(n.b) + size(n.c),
    }
}

/// The constant 1 = ψ_0(0).
pub open spec fn spec_one() -> Term {
    mk(None, None, None)
}

/// ω = ψ_0(1).
pub open spec fn spec_omega() -> Term {
    mk(None, spec_one(), None)
}

/// Ω = ψ_1(0).
pub open spec fn spec_omega1() -> Term {
    mk(spec_one(), None, None)
}

/// ε_0 = ψ_0(Ω).
pub open spec fn spec_epsilon0() -> Term {
    mk(None, spec_omega1(), None)
}

/// Structural order: subscripts first, then arguments, then the rest.
pub open spec fn spec_lt(x: Term, y: Term) -> bool
    decreases x,
{
    match y {
        None => false,
        Some(ny) => match x {
            None => true,
            Some(nx) => if nx.a != ny.a {
                spec_lt(nx.a, ny.a)
            } else if nx.b != ny.b {
                spec_lt(nx.b, ny.b)
            } else {
                spec_lt(nx.c, ny.c)
            },
        },
    }
}

pub open spec fn spec_le(x: Term, y: Term) -> bool {
    spec_lt(x, y) || x == y
}

pub open spec fn spec_gt(x: Term, y: Term) -> bool {
    !spec_lt(x, y) && x != y
}

/// The leading summand ψ_a(b) of a term (zero for zero).
pub open spec fn spec_first(x: Term) -> Term {
    match x {
        None => None,
        Some(n) => mk(n.a, n.b, None),
    }
}

/// The rest of the sum after the leading summand.
pub open spec fn rest(x: Term) -> Term {
    match x {
        None => None,
        Some(n) => n.c,
    }
}

/// The last summand, as a term with no rest.
pub open spec fn spec_last(x: Term) -> Term
    decreases x,
{
    match x {
        None => None,
        Some(n) => if n.c is None {
            x
        } else {
            spec_last(n.c)
        },
    }
}

/// Number of summands.
pub open spec fn spec_len1(x: Term) -> nat
    decreases x,
{
    match x {
        None => 0,
        Some(n) => 1 + spec_len1(n.c),
    }
}

/// The summands, each as a single-summand term, in order.
pub open spec fn spec_terms(x: Term) -> Seq<Term>
    decreases x,
{
    match x {
        None => Seq::empty(),
        Some(n) => seq![spec_first(x)] + spec_terms(n.c),
    }
}

/// Zero or a finite ordinal written as ψ_0(0)+...+ψ_0(0), as seen from its
/// leading summand.
pub open spec fn spec_is_ordinal_finite(x: Term) -> bool {
    match x {
        None => true,
        Some(n) => n.a is None && n.b is None,
    }
}

/// Every summand is ψ_0(0): the term is a natural number.
pub open spec fn spec_is_finite_nat(x: Term) -> bool
    decreases x,
{
    match x {
        None => true,
        Some(n) => n.a is None && n.b is None && spec_is_finite_nat(n.c),
    }
}

/// Ordinal addition on terms: summands of `a` below the head of `b` are
/// absorbed.
pub open spec fn spec_add(x: Term, y: Term) -> Term
    decreases x,
{
    match x {
        None => y,
        Some(n) => match y {
            None => x,
            Some(_) => if spec_lt(spec_first(x), spec_first(y)) {
                y
            } else {
                mk(n.a, n.b, spec_add(n.c, y))
            },
        },
    }
}

pub open spec fn spec_succ(x: Term) -> Term {
    spec_add(x, spec_one())
}

/// Left subtraction: removes the common leading summands.
pub open spec fn spec_sub(x: Term, y: Term) -> Term
    decreases x,
{
    match x {
        None => None,
        Some(nx) => match y {
            None => x,
            Some(ny) => if spec_gt(spec_first(x), spec_first(y)) {
                x
            } else {
                spec_sub(nx.c, ny.c)
            },
        },
    }
}

/// Splits `x` into the leading summands that are at least `y` and the rest.
pub open spec fn spec_separate(x: Term, y: Term) -> (Term, Term)
    decreases x,
{
    match x {
        None => (None, None),
        Some(n) => if spec_lt(spec_first(x), y) {
            (None, x)
        } else {
            let s = spec_separate(n.c, y);
            (mk(n.a, n.b, s.0), s.1)
        },
    }
}

/// Drops trailing summands below ψ_y(0).
pub open spec fn spec_truncate(x: Term, y: Term) -> Term
    decreases x,
{
    match x {
        None => None,
        Some(n) => {
            let tc = spec_truncate(n.c, y);
            if tc is None && spec_lt(spec_first(x), mk(y, None, None)) {
                None
            } else {
                mk(n.a, n.b, tc)
            }
        },
    }
}

/// The natural number `n` as a term.
pub open spec fn spec_from_int(n: nat) -> Term
    decreases n,
{
    if n == 0 {
        None
    } else {
        spec_add(spec_from_int((n - 1) as nat), spec_one())
    }
}

/// A successor ordinal: the last summand is ψ_0(0).
pub open spec fn spec_is_succ(x: Term) -> bool {
    match spec_last(x) {
        None => false,
        Some(n) => n.a is None && n.b is None,
    }
}

/// Left-to-right sum of the summands of `cur` except the last one, added
/// onto `acc`.
pub open spec fn sum_front(acc: Term, cur: Term) -> Term
    decreases cur,
{
    match cur {
        None => acc,
        Some(n) => if n.c is None {
            acc
        } else {
            sum_front(spec_add(acc, mk(n.a, n.b, None)), n.c)
        },
    }
}

/// The term without its last summand, re-added from the left.
pub open spec fn spec_sum_without_last(x: Term) -> Term {
    sum_front(None, x)
}

/// Predecessor of a successor; other terms are unchanged.
pub open spec fn spec_pred(x: Term) -> Term {
    if !spec_is_succ(x) {
        x
    } else {
        spec_sum_without_last(x)
    }
}

/// Nesting depth of subscripts.
pub open spec fn spec_subscript_depth(x: Term) -> nat
    decreases x,
{
    match x {
        None => 0,
        Some(n) => {
            let da = spec_subscript_depth(n.a) + 1;
            let db = spec_subscript_depth(n.b);
            let dc = spec_subscript_depth(n.c);
            let m = if da >= db { da } else { db };
            if m >= dc { m } else { dc }
        },
    }
}

/// `x` multiplied by the number of summands of `y` (iterated addition).
pub open spec fn spec_mul_finite(x: Term, y: Term) -> Term
    decreases y,
{
    match y {
        None => None,
        Some(n) => spec_add(x, spec_mul_finite(x, n.c)),
    }
}

// ============================================================
// Size facts used for termination
// ============================================================

pub proof fn lemma_separate_size(x: Term, y: Term)
    ensures
        size(spec_separate(x, y).0) <= size(x),
        size(spec_separate(x, y).1) <= size(x),
    decreases x,
{
    match x {
        None => {},
        Some(n) => {
            lemma_separate_size(n.c, y);
        },
    }
}

pub proof fn lemma_last_size(x: Term)
    ensures
        size(spec_last(x)) <= size(x),
        x is Some ==> spec_last(x) is Some,
        x is Some && (x->0).c is Some ==> size(spec_last(x)) < size(x),
    decreases x,
{
    match x {
        None => {},
        Some(n) => {
            lemma_last_size(n.c);
        },
    }
}

// ============================================================
// Constructors
// ============================================================

pub fn zero() -> (r: Term)
    ensures
        r is None,
{
    None
}

pub fn is_zero(x: &Term) -> (r: bool)
    ensures
        r == (*x is None),
{
    x.is_none()
}

/// The term `ψ_a(b) + c`.
pub fn t(a: Term, b: Term, c: Term) -> (r: Term)
    ensures
        r == mk(a, b, c),
{
    Some(Box::new(TermNode { a, b, c }))
}

/// A structural copy.
pub fn clone_term(x: &Term) -> (r: Term)
    ensures
        r == *x,
    decreases x,
{
    match x {
        None => None,
        Some(n) => Some(
            Box::new(TermNode { a: clone_term(&n.a), b: clone_term(&n.b), c: clone_term(&n.c) }),
        ),
    }
}

pub fn one() -> (r: Term)
    ensures
        r == spec_one(),
{
    t(zero(), zero(), zero())
}

pub fn omega() -> (r: Term)
    ensures
        r == spec_omega(),
{
    t(zero(), one(), zero())
}

pub fn omega1() -> (r: Term)
    ensures
        r == spec_omega1(),
{
    t(one(), zero(), zero())
}

pub fn epsilon0() -> (r: Term)
    ensures
        r == spec_epsilon0(),
{
    t(zero(), omega1(), zero())
}

/// The Bachmann–Howard ordinal ψ_0(ψ_2(0)).
pub fn bho() -> (r: Term)
    ensures
        r == mk(None, mk(spec_succ(spec_one()), None, None), None),
{
    t(zero(), t(succ(&one()), zero(), zero()), zero())
}

// ============================================================
// Structural helpers
// ============================================================

pub fn is_ordinal_finite(x: &Term) -> (r: bool)
    ensures
        r == spec_is_ordinal_finite(*x),
{
    match x {
        None => true,
        Some(n) => n.a.is_none() && n.b.is_none(),
    }
}

/// Number of summands.
pub fn length1(x: &Term) -> (r: i32)
    requires
        spec_len1(*x) <= i32::MAX,
    ensures
        r == spec_len1(*x),
    decreases x,
{
    match x {
        None => 0,
        Some(n) => 1 + length1(&n.c),
    }
}

/// Structural equality.
pub fn eq(x: &Term, y: &Term) -> (r: bool)
    ensures
        r == (*x == *y),
    decreases x,
{
    match x {
        None => y.is_none(),
        Some(nx) => match y {
            None => false,
            Some(ny) => eq(&nx.a, &ny.a) && eq(&nx.b, &ny.b) && eq(&nx.c, &ny.c),
        },
    }
}

pub fn lt(x: &Term, y: &Term) -> (r: bool)
    ensures
        r == spec_lt(*x, *y),
    decreases x,
{
    match y {
        None => false,
        Some(ny) => match x {
            None => true,
            Some(nx) => {
                if !eq(&nx.a, &ny.a) {
                    lt(&nx.a, &ny.a)
                } else if !eq(&nx.b, &ny.b) {
                    lt(&nx.b, &ny.b)
                } else {
                    lt(&nx.c, &ny.c)
                }
            },
        },
    }
}

pub fn gt(x: &Term, y: &Term) -> (r: bool)
    ensures
        r == spec_gt(*x, *y),
{
    !lt(x, y) && !eq(x, y)
}

pub fn le(x: &Term, y: &Term) -> (r: bool)
    ensures
        r == spec_le(*x, *y),
{
    lt(x, y) || eq(x, y)
}

/// Compares the leading summands of two terms without building them.
fn first_lt(x: &Term, y: &Term) -> (r: bool)
    ensures
        r == spec_lt(spec_first(*x), spec_first(*y)),
{
    proof {
        reveal_with_fuel(spec_lt, 2);
    }
    match y {
        None => {
            assert(spec_first(*y) is None);
            false
        },
        Some(ny) => match x {
            None => true,
            Some(nx) => {
                if !eq(&nx.a, &ny.a) {
                    lt(&nx.a, &ny.a)
                } else if !eq(&nx.b, &ny.b) {
                    lt(&nx.b, &ny.b)
                } else {
                    false
                }
            },
        },
    }
}

pub fn first_term(x: &Term) -> (r: Term)
    ensures
        r == spec_first(*x),
{
    match x {
        None => None,
        Some(n) => t(clone_term(&n.a), clone_term(&n.b), None),
    }
}

pub fn last_term(x: &Term) -> (r: Term)
    ensures
        r == spec_last(*x),
    decreases x,
{
    match x {
        None => None,
        Some(n) => {
            if n.c.is_none() {
                clone_term(x)
            } else {
                last_term(&n.c)
            }
        },
    }
}

/// The summands of a term, in order.
pub fn every_terms(x: &Term) -> (r: Vec<Term>)
    ensures
        r@ == spec_terms(*x),
    decreases x,
{
    match x {
        None => Vec::new(),
        Some(n) => {
            let mut v: Vec<Term> = Vec::new();
            v.push(first_term(x));
            let mut tail = every_terms(&n.c);
            v.append(&mut tail);
            v
        },
    }
}

pub fn is_finite_nat(x: &Term) -> (r: bool)
    ensures
        r == spec_is_finite_nat(*x),
    decreases x,
{
    match x {
        None => true,
        Some(n) => {
            if !n.a.is_none() || !n.b.is_none() {
                return false;
            }
            is_finite_nat(&n.c)
        },
    }
}

// ============================================================
// Arithmetic
// ============================================================

pub fn add(x: &Term, y: &Term) -> (r: Term)
    ensures
        r == spec_add(*x, *y),
    decreases x,
{
    match x {
        None => clone_term(y),
        Some(n) => match y {
            None => clone_term(x),
            Some(_) => {
                if first_lt(x, y) {
                    clone_term(y)
                } else {
                    t(clone_term(&n.a), clone_term(&n.b), self::add(&n.c, y))
                }
            },
        },
    }
}

pub fn succ(x: &Term) -> (r: Term)
    ensures
        r == spec_succ(*x),
{
    self::add(x, &one())
}

/// The natural number `n` (zero for negative `n`).
pub fn from_int(n: i32) -> (r: Term)
    ensures
        r == spec_from_int(if n < 0 { 0 } else { n as nat }),
{
    let mut r: Term = zero();
    let mut i: i32 = 0;
    while i < n
        invariant
            0 <= i,
            n >= 0 ==> i <= n,
            n < 0 ==> i == 0,
            r == spec_from_int(i as nat),
        decreases n - i,
    {
        r = self::add(&r, &one());
        i = i + 1;
    }
    r
}

pub fn is_succ(x: &Term) -> (r: bool)
    ensures
        r == spec_is_succ(*x),
{
    let last = last_term(x);
    match last {
        None => false,
        Some(n) => n.a.is_none() && n.b.is_none(),
    }
}

/// Sum of all summands but the last, added from the left.
pub fn sum_without_last(x: &Term) -> (r: Term)
    ensures
        r == spec_sum_without_last(*x),
{
    let mut r: Term = zero();
    let mut cur: &Term = x;
    loop
        invariant
            sum_front(r, *cur) == spec_sum_without_last(*x),
        ensures
            r == spec_sum_without_last(*x),
        decreases size(*cur),
    {
        match cur {
            None => {
                break;
            },
            Some(n) => {
                if n.c.is_none() {
                    break;
                }
                r = self::add(&r, &t(clone_term(&n.a), clone_term(&n.b), None));
                cur = &n.c;
            },
        }
    }
    r
}

pub fn pred(x: &Term) -> (r: Term)
    ensures
        r == spec_pred(*x),
{
    if !is_succ(x) {
        return clone_term(x);
    }
    sum_without_last(x)
}

pub fn sub(x: &Term, y: &Term) -> (r: Term)
    ensures
        r == spec_sub(*x, *y),
    decreases x,
{
    match x {
        None => None,
        Some(nx) => match y {
            None => clone_term(x),
            Some(ny) => {
                if gt(&first_term(x), &first_term(y)) {
                    clone_term(x)
                } else {
                    self::sub(&nx.c, &ny.c)
                }
            },
        },
    }
}

pub fn separate(x: &Term, y: &Term) -> (r: (Term, Term))
    ensures
        r == spec_separate(*x, *y),
    decreases x,
{
    match x {
        None => (None, None),
        Some(n) => {
            if lt(&first_term(x), y) {
                return (None, clone_term(x));
            }
            let (s0, s1) = separate(&n.c, y);
            (t(clone_term(&n.a), clone_term(&n.b), s0), s1)
        },
    }
}

pub fn truncate(x: &Term, y: &Term) -> (r: Term)
    ensures
        r == spec_truncate(*x, *y),
    decreases x,
{
    match x {
        None => None,
        Some(n) => {
            let tc = truncate(&n.c, y);
            if tc.is_none() && lt(&first_term(x), &t(clone_term(y), None, None)) {
                return None;
            }
            t(clone_term(&n.a), clone_term(&n.b), tc)
        },
    }
}

pub fn subscript_depth(x: &Term) -> (r: i32)
    requires
        spec_subscript_depth(*x) < i32::MAX,
    ensures
        r == spec_subscript_depth(*x),
    decreases x,
{
    match x {
        None => 0,
        Some(n) => {
            let da = subscript_depth(&n.a) + 1;
            let db = subscript_depth(&n.b);
            let dc = subscript_depth(&n.c);
            let m = if da >= db {
                da
            } else {
                db
            };
            if m >= dc {
                m
            } else {
                dc
            }
        },
    }
}

/// Subscript nesting depth, capped at `cap`.
pub fn subscript_depth_capped(x: &Term, cap: i32) -> (r: i32)
    requires
        cap >= 0,
    ensures
        r == (if spec_subscript_depth(*x) < cap { spec_subscript_depth(*x) as int } else { cap as int }),
    decreases x,
{
    match x {
        None => 0,
        Some(n) => {
            let a = subscript_depth_capped(&n.a, cap);
            let da = if a < cap {
                a + 1
            } else {
                cap
            };
            let db = subscript_depth_capped(&n.b, cap);
            let dc = subscript_depth_capped(&n.c, cap);
            let m = if da >= db {
                da
            } else {
                db
            };
            if m >= dc {
                m
            } else {
                dc
            }
        },
    }
}

/// `x` times the number of summands of `y`.
pub fn mul_finite(x: &Term, y: &Term) -> (r: Term)
    ensures
        r == spec_mul_finite(*x, *y),
    decreases y,
{
    match y {
        None => None,
        Some(n) => self::add(x, &mul_finite(x, &n.c)),
    }
}


// ============================================================
// Order laws
// ============================================================

/// The order on terms is a strict total order: exactly one of `x < y`,
/// `x == y`, `y < x` holds.
pub proof fn lemma_lt_trichotomy(x: Term, y: Term)
    ensures
        spec_lt(x, y) || x == y || spec_lt(y, x),
        !(spec_lt(x, y) && spec_lt(y, x)),
        !spec_lt(x, x),
    decreases x,
{
    match x {
        None => {},
        Some(nx) => {
            lemma_lt_trichotomy(nx.a, nx.a);
            lemma_lt_trichotomy(nx.b, nx.b);
            lemma_lt_trichotomy(nx.c, nx.c);
            match y {
                None => {},
                Some(ny) => {
                    lemma_lt_trichotomy(nx.a, ny.a);
                    lemma_lt_trichotomy(nx.b, ny.b);
                    lemma_lt_trichotomy(nx.c, ny.c);
                    if nx.a == ny.a && nx.b == ny.b && nx.c == ny.c {
                        assert(*nx == *ny);
                    }
                },
            }
        },
    }
}

/// The order on terms is transitive.
pub proof fn lemma_lt_transitive(x: Term, y: Term, z: Term)
    requires
        spec_lt(x, y),
        spec_lt(y, z),
    ensures
        spec_lt(x, z),
    decreases x,
{
    match x {
        None => {},
        Some(nx) => {
            let ny = y->0;
            let nz = z->0;
            lemma_lt_trichotomy(nx.a, ny.a);
            lemma_lt_trichotomy(ny.a, nz.a);
            lemma_lt_trichotomy(nx.b, ny.b);
            lemma_lt_trichotomy(ny.b, nz.b);
            if nx.a != ny.a {
                if ny.a != nz.a {
                    lemma_lt_transitive(nx.a, ny.a, nz.a);
                    lemma_lt_trichotomy(nx.a, nz.a);
                }
            } else if nx.b != ny.b {
                if ny.a == nz.a && ny.b != nz.b {
                    lemma_lt_transitive(nx.b, ny.b, nz.b);
                    lemma_lt_trichotomy(nx.b, nz.b);
                }
            } else {
                if ny.a == nz.a && ny.b == nz.b {
                    lemma_lt_transitive(nx.c, ny.c, nz.c);
                }
            }
        },
    }
}

/// `x ≮ y` and `y ≮ z` give `x ≮ z`.
proof fn lemma_not_lt_transitive(x: Term, y: Term, z: Term)
    requires
        !spec_lt(x, y),
        !spec_lt(y, z),
    ensures
        !spec_lt(x, z),
{
    lemma_lt_trichotomy(x, y);
    lemma_lt_trichotomy(y, z);
    lemma_lt_trichotomy(x, z);
    if spec_lt(x, z) {
        if x != y {
            if y != z {
                lemma_lt_transitive(z, y, x);
            }
        }
    }
}

/// The leading summand of a sum: that of `y` where it exceeds the
/// leading summand of `x`, else that of `x`.
proof fn lemma_first_add(x: Term, y: Term)
    requires
        x is Some,
        y is Some,
    ensures
        spec_first(spec_add(x, y)) == if spec_lt(spec_first(x), spec_first(y)) {
            spec_first(y)
        } else {
            spec_first(x)
        },
{
}

/// Addition of terms is associative.
pub proof fn lemma_add_assoc(x: Term, y: Term, z: Term)
    ensures
        spec_add(spec_add(x, y), z) == spec_add(x, spec_add(y, z)),
    decreases x,
{
    match x {
        None => {},
        Some(nx) => {
            if y is None || z is None {
            } else {
                let x1 = spec_first(x);
                let y1 = spec_first(y);
                let z1 = spec_first(z);
                let w = spec_add(y, z);
                lemma_first_add(y, z);
                if spec_lt(x1, y1) {
                    if spec_lt(y1, z1) {
                        lemma_lt_transitive(x1, y1, z1);
                    }
                } else {
                    lemma_first_add(x, y);
                    let xy = spec_add(x, y);
                    assert(xy == mk(nx.a, nx.b, spec_add(nx.c, y)));
                    if spec_lt(x1, z1) {
                        if !spec_lt(y1, z1) {
                            lemma_not_lt_transitive(x1, y1, z1);
                        }
                    } else {
                        lemma_add_assoc(nx.c, y, z);
                        if spec_lt(y1, z1) {
                        } else {
                        }
                    }
                }
            }
        },
    }
}

/// The summands do not increase from left to right.
pub open spec fn descending(x: Term) -> bool
    decreases x,
{
    match x {
        None => true,
        Some(n) => (n.c is None || !spec_lt(mk(n.a, n.b, None), spec_first(n.c))) && descending(n.c),
    }
}

pub proof fn lemma_standard_descending(x: Term)
    requires
        spec_is_bocf_standard(x),
    ensures
        descending(x),
    decreases x,
{
    match x {
        None => {},
        Some(n) => {
            if n.c is Some {
                let a1 = n.c;
                if rest(a1) is None {
                    assert(spec_first(a1) == a1);
                }
                lemma_standard_descending(n.c);
            } else {
                assert(descending(n.c));
            }
        },
    }
}

/// Adding 1 appends a last summand 1.
proof fn lemma_add_one_last(x: Term)
    ensures
        spec_last(spec_add(x, spec_one())) == spec_one(),
        spec_add(x, spec_one()) is Some,
    decreases x,
{
    match x {
        None => {},
        Some(n) => {
            assert(!spec_lt(n.a, None));
            assert(!spec_lt(n.b, None));
            assert(!spec_lt(None, None));
            assert(!spec_lt(spec_first(x), spec_one()));
            lemma_add_one_last(n.c);
        },
    }
}

/// Re-adding the summands before an appended 1 gives the sum back.
proof fn lemma_front_of_succ(acc: Term, x: Term)
    requires
        descending(x),
    ensures
        sum_front(acc, spec_add(x, spec_one())) == spec_add(acc, x),
    decreases x,
{
    match x {
        None => {},
        Some(n) => {
            let h = mk(n.a, n.b, None);
            assert(!spec_lt(n.a, None));
            assert(!spec_lt(n.b, None));
            assert(!spec_lt(None, None));
            assert(!spec_lt(spec_first(x), spec_one()));
            lemma_add_one_last(n.c);
            lemma_front_of_succ(spec_add(acc, h), n.c);
            lemma_add_assoc(acc, h, n.c);
            if n.c is Some {
                assert(spec_add(h, n.c) == mk(n.a, n.b, spec_add(None, n.c)));
            }
        },
    }
}

/// The predecessor undoes the successor on standard terms, a successor is
/// recognised as one, and other terms have themselves as predecessor.
pub proof fn lemma_pred_succ(x: Term)
    requires
        spec_is_bocf_standard(x),
    ensures
        spec_is_succ(spec_succ(x)),
        spec_pred(spec_succ(x)) == x,
        !spec_is_succ(x) ==> spec_pred(x) == x,
{
    lemma_add_one_last(x);
    lemma_standard_descending(x);
    lemma_front_of_succ(None, x);
}

// ============================================================
// Exponential, logarithm, multiplication: model
// ============================================================

/// ω^x.
pub open spec fn spec_exp(x: Term) -> Term {
    if spec_lt(x, spec_epsilon0()) {
        mk(None, x, None)
    } else {
        let n = x->0;
        let p = spec_separate(n.b, mk(spec_succ(n.a), None, None)).0;
        mk(n.a, spec_add(p, spec_sub(x, mk(n.a, p, None))), None)
    }
}

/// The exponent of the leading ω-power of x.
pub open spec fn spec_log(x: Term) -> Term
    decreases size(x),
{
    match x {
        None => None,
        Some(n) => {
            let s = spec_separate(n.b, mk(spec_succ(n.a), None, None));
            let p = s.0;
            let q = s.1;
            proof {
                lemma_separate_size(n.b, mk(spec_succ(n.a), None, None));
            }
            if n.a is None && p is None {
                if !spec_lt(n.b, spec_epsilon0()) && spec_log(q) == q && rest(q) is None
                    && spec_lt(n.b, spec_omega1()) {
                    spec_first(x)
                } else {
                    q
                }
            } else {
                let big = mk(n.a, mk(spec_succ(n.a), None, None), None);
                if !spec_lt(n.b, big) && spec_log(n.b) == n.b && n.c is None && spec_lt(
                    n.b,
                    mk(spec_succ(n.a), None, None),
                ) {
                    spec_first(x)
                } else {
                    mk(n.a, p, q)
                }
            }
        },
    }
}

/// Prepends, for each summand `ts[i]`, the head of ω^(la + log ts[i]).
pub open spec fn mul_build(la: Term, ts: Seq<Term>, base: Term) -> Term
    decreases ts.len(),
{
    if ts.len() == 0 {
        base
    } else {
        let e = spec_exp(spec_add(la, spec_log(ts[0])));
        mk(e->0.a, e->0.b, mul_build(la, ts.drop_first(), base))
    }
}

/// Ordinal multiplication.
pub open spec fn spec_mul(x: Term, y: Term) -> Term {
    if x is None || y is None {
        None
    } else if spec_lt(spec_first(spec_log(x)), spec_first(spec_log(y))) {
        y
    } else {
        let s = spec_separate(y, spec_omega());
        mul_build(spec_log(x), spec_terms(s.0), spec_mul_finite(x, s.1))
    }
}

/// What left subtraction leaves of a descending term is a tail of it, so
/// its leading summand is no larger than any bound on the term's.
proof fn lemma_sub_first(x: Term, y: Term, h: Term)
    requires
        descending(x),
        x is Some ==> !spec_lt(h, spec_first(x)),
    ensures
        spec_sub(x, y) is Some ==> !spec_lt(h, spec_first(spec_sub(x, y))),
    decreases x,
{
    match x {
        None => {},
        Some(nx) => match y {
            None => {},
            Some(ny) => {
                if !spec_gt(spec_first(x), spec_first(y)) {
                    if nx.c is Some {
                        lemma_not_lt_transitive(h, spec_first(x), spec_first(nx.c));
                    }
                    lemma_sub_first(nx.c, ny.c, h);
                }
            },
        },
    }
}

proof fn lemma_add_sub_desc(a: Term, b: Term)
    requires
        descending(a),
        spec_le(b, a),
    ensures
        spec_add(b, spec_sub(a, b)) == a,
    decreases a,
{
    match a {
        None => {
            if b is Some {
                assert(!spec_lt(b, None));
            }
        },
        Some(na) => match b {
            None => {},
            Some(nb) => {
                let a1 = spec_first(a);
                let b1 = spec_first(b);
                lemma_lt_trichotomy(a1, b1);
                lemma_lt_trichotomy(na.a, nb.a);
                lemma_lt_trichotomy(na.b, nb.b);
                if spec_gt(a1, b1) {
                    assert(spec_lt(b1, a1));
                } else {
                    if a1 != b1 {
                        assert(spec_lt(a1, b1));
                        assert(spec_lt(a, b));
                        lemma_lt_trichotomy(a, b);
                    }
                    assert(na.a == nb.a && na.b == nb.b);
                    assert(spec_le(nb.c, na.c));
                    lemma_add_sub_desc(na.c, nb.c);
                    let r = spec_sub(na.c, nb.c);
                    if r is Some {
                        if na.c is Some {
                            lemma_sub_first(na.c, nb.c, a1);
                        }
                        assert(!spec_lt(b1, spec_first(r)));
                    }
                }
            },
        },
    }
}

/// Left subtraction undoes addition on standard terms: `b + (a − b) = a`
/// for `b ≤ a`.
pub proof fn lemma_add_sub(a: Term, b: Term)
    requires
        spec_is_bocf_standard(a),
        spec_is_bocf_standard(b),
        spec_le(b, a),
    ensures
        spec_add(b, spec_sub(a, b)) == a,
{
    lemma_standard_descending(a);
    lemma_add_sub_desc(a, b);
}

/// A term whose leading summand is 1 and whose summands do not increase
/// is a natural number.
proof fn lemma_descending_nat(x: Term)
    requires
        descending(x),
        x is Some ==> x->0.a is None && x->0.b is None,
    ensures
        spec_is_finite_nat(x),
    decreases x,
{
    match x {
        None => {},
        Some(n) => {
            match n.c {
                None => {
                    assert(spec_is_finite_nat(n.c));
                },
                Some(m) => {
                    assert(!spec_lt(mk(n.a, n.b, None), spec_first(n.c)));
                    assert(!spec_lt(m.a, None));
                    assert(!spec_lt(m.b, None));
                    if m.a is Some {
                        assert(spec_lt(None, m.a));
                    } else if m.b is Some {
                        assert(spec_lt(None, m.b));
                    }
                    lemma_descending_nat(n.c);
                },
            }
        },
    }
}

/// 1 times a natural number is that number.
proof fn lemma_one_mul_finite(x: Term)
    requires
        spec_is_finite_nat(x),
    ensures
        spec_mul_finite(spec_one(), x) == x,
    decreases x,
{
    match x {
        None => {},
        Some(n) => {
            assert(spec_is_finite_nat(n.c));
            lemma_one_mul_finite(n.c);
            assert(!spec_lt(None, None));
            assert(!spec_lt(spec_one(), spec_one()));
            assert(spec_mul_finite(spec_one(), x) == spec_add(spec_one(), n.c));
            match n.c {
                None => {
                    assert(spec_add(spec_one(), n.c) == spec_one());
                },
                Some(m) => {
                    assert(m.a is None && m.b is None);
                    assert(spec_first(n.c) == spec_one());
                    assert(spec_add(spec_one(), n.c) == mk(None, None, spec_add(None, n.c)));
                },
            }
        },
    }
}

/// A natural number lies wholly below ω.
proof fn lemma_separate_nat_omega(x: Term)
    requires
        spec_is_finite_nat(x),
    ensures
        spec_separate(x, spec_omega()) == (None::<Box<TermNode>>, x),
{
    match x {
        None => {},
        Some(n) => {
            assert(spec_lt(None, spec_one()));
            assert(spec_lt(spec_first(x), spec_omega()));
        },
    }
}

/// A term whose leading exponent is zero has leading summand 1.
proof fn lemma_log_none(x: Term)
    requires
        x is Some,
        spec_log(x) is None,
    ensures
        x->0.a is None && x->0.b is None,
{
    let n = x->0;
    let s = spec_separate(n.b, mk(spec_succ(n.a), None, None));
    if n.b is Some {
        if s.0 is None {
            assert(s.1 == n.b);
        }
    }
}

/// Below ε₀, `exp` is ω^a = ψ_0(a) and `log` undoes it.
pub proof fn lemma_log_exp(a: Term)
    requires
        spec_lt(a, spec_epsilon0()),
    ensures
        spec_exp(a) == mk(None, a, None),
        spec_log(spec_exp(a)) == a,
{
    let x = mk(None, a, None);
    let big = mk(spec_succ(None), None, None);
    assert(spec_succ(None) == spec_one());
    match a {
        None => {
            assert(spec_lt(None, spec_omega1()));
            assert(spec_separate(None, big) == (None::<Box<TermNode>>, None::<Box<TermNode>>));
        },
        Some(na) => {
            if na.a is Some {
                assert(!spec_lt(na.a, None));
            }
            assert(na.a is None);
            assert(spec_lt(None, spec_one()));
            assert(spec_lt(spec_first(a), big));
            assert(spec_separate(a, big) == (None::<Box<TermNode>>, a));
        },
    }
}

/// 1 is the unit of multiplication on standard terms, and 0 absorbs it.
pub proof fn lemma_mul_units(x: Term)
    requires
        spec_is_bocf_standard(x),
    ensures
        spec_mul(x, spec_one()) == x,
        spec_mul(spec_one(), x) == x,
        spec_mul(x, None) is None,
        spec_mul(None, x) is None,
{
    let one = spec_one();
    assert(spec_lt(None, spec_omega1()));
    assert(spec_lt(None, spec_epsilon0()));
    assert(spec_separate(None, mk(spec_succ(None), None, None)) == (None::<Box<TermNode>>, None::<Box<TermNode>>));
    assert(spec_log(one) is None);
    assert(spec_lt(None, spec_one()));
    assert(spec_lt(spec_first(one), spec_omega()));
    assert(spec_separate(one, spec_omega()) == (None::<Box<TermNode>>, one));
    if x is Some {
        assert(!spec_lt(spec_first(spec_log(x)), None));
        assert(spec_mul_finite(x, None) is None);
        assert(spec_mul_finite(x, one) == spec_add(x, None));
        if spec_log(x) is None {
            lemma_log_none(x);
            lemma_standard_descending(x);
            lemma_descending_nat(x);
            lemma_separate_nat_omega(x);
            lemma_one_mul_finite(x);
            assert(spec_terms(None) =~= Seq::<Term>::empty());
        } else {
            assert(spec_lt(None, spec_first(spec_log(x))));
        }
    }
}

// ============================================================
// Exponential, logarithm, multiplication
// ============================================================

/// ω^x.
pub fn exp(x: &Term) -> (r: Term)
    ensures
        r == spec_exp(*x),
        r is Some,
{
    if lt(x, &epsilon0()) {
        return t(None, clone_term(x), None);
    }
    let n = x.as_ref().unwrap();
    let (p, _rest) = separate(&n.b, &t(succ(&n.a), None, None));
    let d = self::sub(x, &t(clone_term(&n.a), clone_term(&p), None));
    t(clone_term(&n.a), self::add(&p, &d), None)
}

pub fn log(x: &Term) -> (r: Term)
    ensures
        r == spec_log(*x),
    decreases size(*x),
{
    match x {
        None => None,
        Some(n) => {
            let (p, q) = separate(&n.b, &t(succ(&n.a), None, None));
            proof {
                lemma_separate_size(n.b, mk(spec_succ(n.a), None, None));
            }
            if n.a.is_none() && p.is_none() {
                if !lt(&n.b, &epsilon0()) {
                    let lq = log(&q);
                    if eq(&lq, &q) && q.as_ref().unwrap().c.is_none() && lt(&n.b, &omega1()) {
                        return first_term(x);
                    }
                }
                return q;
            }
            let big = t(clone_term(&n.a), t(succ(&n.a), None, None), None);
            if !lt(&n.b, &big) {
                let lb = log(&n.b);
                if eq(&lb, &n.b) && n.c.is_none() && lt(&n.b, &t(succ(&n.a), None, None)) {
                    return first_term(x);
                }
            }
            t(clone_term(&n.a), p, q)
        },
    }
}

/// General ordinal multiplication.
pub fn mul(x: &Term, y: &Term) -> (r: Term)
    ensures
        r == spec_mul(*x, *y),
{
    if x.is_none() || y.is_none() {
        return None;
    }
    let log_a = log(x);
    if lt(&first_term(&log_a), &first_term(&log(y))) {
        return clone_term(y);
    }
    let (c, d) = separate(y, &omega());
    let terms = every_terms(&c);
    let mut result = mul_finite(x, &d);
    let mut i: usize = terms.len();
    while i > 0
        invariant
            i <= terms@.len(),
            terms@ == spec_terms(spec_separate(*y, spec_omega()).0),
            log_a == spec_log(*x),
            result == mul_build(log_a, terms@.subrange(i as int, terms@.len() as int), spec_mul_finite(*x, spec_separate(*y, spec_omega()).1)),
        decreases i,
    {
        let e = exp(&self::add(&log_a, &log(&terms[i - 1])));
        let en = e.as_ref().unwrap();
        proof {
            let len = terms@.len() as int;
            assert(terms@.subrange(i - 1, len).drop_first() =~= terms@.subrange(i as int, len));
            assert(terms@.subrange(i - 1, len)[0] == terms@[i - 1]);
        }
        result = t(clone_term(&en.a), clone_term(&en.b), result);
        i = i - 1;
    }
    proof {
        assert(terms@.subrange(0, terms@.len() as int) =~= terms@);
    }
    result
}


// ============================================================
// Standard form: model
// ============================================================

/// Builds ψ_a(b + c) merging the summands of `c` into the argument.
pub open spec fn spec_merge_psi_addends(a: Term, b: Term, c: Term) -> Term
    decreases c,
{
    match c {
        None => mk(a, b, None),
        Some(cn) => if spec_lt(b, cn.b) && spec_gt(c, mk(a, None, None)) {
            let tn = spec_truncate(cn.b, spec_succ(cn.a));
            let sub_part = spec_sub(spec_first(c), mk(cn.a, tn, None));
            spec_merge_psi_addends(a, spec_add(tn, sub_part), cn.c)
        } else {
            spec_merge_psi_addends(a, spec_add(b, spec_first(c)), cn.c)
        },
    }
}

pub open spec fn spec_standard_form(x: Term) -> Term
    decreases x,
{
    match x {
        None => None,
        Some(n) => spec_add(
            spec_merge_psi_addends(spec_standard_form(n.a), None, spec_standard_form(n.b)),
            spec_standard_form(n.c),
        ),
    }
}

/// Like `spec_merge_psi_addends`, absorbing only summands of the same
/// subscript.
pub open spec fn spec_merge_no_jump(a: Term, b: Term, c: Term) -> Term
    decreases c,
{
    match c {
        None => mk(a, b, None),
        Some(cn) => if cn.a == a && spec_lt(b, cn.b) && spec_gt(c, mk(a, None, None)) {
            let tn = spec_truncate(cn.b, spec_succ(cn.a));
            let sub_part = spec_sub(spec_first(c), mk(cn.a, tn, None));
            spec_merge_no_jump(a, spec_add(tn, sub_part), cn.c)
        } else {
            spec_merge_no_jump(a, spec_add(b, spec_first(c)), cn.c)
        },
    }
}

pub open spec fn spec_standard_form_no_jump(x: Term) -> Term
    decreases x,
{
    match x {
        None => None,
        Some(n) => spec_add(
            spec_merge_no_jump(
                spec_standard_form_no_jump(n.a),
                None,
                spec_standard_form_no_jump(n.b),
            ),
            spec_standard_form_no_jump(n.c),
        ),
    }
}

pub proof fn lemma_first_size(x: Term)
    ensures
        size(spec_first(x)) <= size(x),
        x is Some && rest(x) is Some ==> size(spec_first(x)) < size(x),
{
    reveal_with_fuel(size, 2);
}

/// Membership of `c` in the closure set C(a, b) of the BOCF definition.
pub open spec fn spec_in_closure(c: Term, a: Term, b: Term) -> bool
    decreases size(c),
{
    if spec_lt(c, mk(a, None, None)) {
        true
    } else {
        match c {
            None => false,
            Some(n) => if n.c is Some {
                proof {
                    lemma_first_size(c);
                }
                spec_in_closure(spec_first(c), a, b) && spec_in_closure(n.c, a, b)
            } else {
                spec_in_closure(n.a, a, b) && spec_in_closure(n.b, a, b) && spec_lt(n.b, b)
            },
        }
    }
}

/// Membership in the set T of standard BOCF terms.
pub open spec fn spec_is_bocf_standard(x: Term) -> bool
    decreases size(x),
{
    match x {
        None => true,
        Some(n) => if n.c is Some {
            let a0 = spec_first(x);
            let a1 = n.c;
            proof {
                lemma_first_size(x);
            }
            spec_is_bocf_standard(a0) && spec_is_bocf_standard(a1) && if rest(a1) is None {
                !spec_lt(a0, a1)
            } else {
                !spec_lt(a0, spec_first(a1))
            }
        } else {
            spec_is_bocf_standard(n.a) && spec_is_bocf_standard(n.b) && spec_in_closure(
                n.b,
                n.a,
                n.b,
            )
        },
    }
}

/// Every summand of `sf` already occurs as a summand of `raw`.
pub open spec fn spec_sum_only_fix(raw: Term, sf: Term) -> bool {
    forall|i: int|
        0 <= i < spec_terms(sf).len() ==> spec_terms(raw).contains(#[trigger] spec_terms(sf)[i])
}

/// Result of a BOCF standardness check.
#[derive(Debug, Clone, Copy, PartialEq, Eq, Structural)]
pub enum BocfStandardness {
    /// Term is standard.
    Standard,
    /// Term is not standard but standard_form can normalize it.
    NonStandardButNormalizable,
    /// Term is not standard and even standard_form leaves it non-standard.
    NonStandard,
}

pub open spec fn spec_check_bocf_standardness(x: Term) -> BocfStandardness {
    if spec_is_bocf_standard(x) {
        BocfStandardness::Standard
    } else if spec_is_bocf_standard(spec_standard_form(x)) && spec_sum_only_fix(
        x,
        spec_standard_form(x),
    ) {
        BocfStandardness::NonStandardButNormalizable
    } else {
        BocfStandardness::NonStandard
    }
}

// ============================================================
// Standard form
// ============================================================

pub fn merge_psi_addends(a: &Term, b: &Term, c: &Term) -> (r: Term)
    ensures
        r == spec_merge_psi_addends(*a, *b, *c),
    decreases c,
{
    match c {
        None => t(clone_term(a), clone_term(b), None),
        Some(cn) => {
            let a0 = t(clone_term(a), None, None);
            if lt(b, &cn.b) && gt(c, &a0) {
                let tn = truncate(&cn.b, &succ(&cn.a));
                let fc = first_term(c);
                let sub_part = self::sub(&fc, &t(clone_term(&cn.a), clone_term(&tn), None));
                return merge_psi_addends(a, &self::add(&tn, &sub_part), &cn.c);
            }
            merge_psi_addends(a, &self::add(b, &first_term(c)), &cn.c)
        },
    }
}

pub fn standard_form(x: &Term) -> (r: Term)
    ensures
        r == spec_standard_form(*x),
    decreases x,
{
    match x {
        None => None,
        Some(n) => self::add(
            &merge_psi_addends(&standard_form(&n.a), &None, &standard_form(&n.b)),
            &standard_form(&n.c),
        ),
    }
}

fn merge_psi_addends_no_jump(a: &Term, b: &Term, c: &Term) -> (r: Term)
    ensures
        r == spec_merge_no_jump(*a, *b, *c),
    decreases c,
{
    match c {
        None => t(clone_term(a), clone_term(b), None),
        Some(cn) => {
            let a0 = t(clone_term(a), None, None);
            if eq(&cn.a, a) && lt(b, &cn.b) && gt(c, &a0) {
                let tn = truncate(&cn.b, &succ(&cn.a));
                let fc = first_term(c);
                let sub_part = self::sub(&fc, &t(clone_term(&cn.a), clone_term(&tn), None));
                return merge_psi_addends_no_jump(a, &self::add(&tn, &sub_part), &cn.c);
            }
            merge_psi_addends_no_jump(a, &self::add(b, &first_term(c)), &cn.c)
        },
    }
}

/// Standard form that only absorbs ψ_n(ψ_n(x)) into ψ_n(x), never across
/// subscripts.
pub fn standard_form_no_jump(x: &Term) -> (r: Term)
    ensures
        r == spec_standard_form_no_jump(*x),
    decreases x,
{
    match x {
        None => None,
        Some(n) => self::add(
            &merge_psi_addends_no_jump(
                &standard_form_no_jump(&n.a),
                &None,
                &standard_form_no_jump(&n.b),
            ),
            &standard_form_no_jump(&n.c),
        ),
    }
}

fn c_in_closure(c: &Term, a: &Term, b: &Term) -> (r: bool)
    ensures
        r == spec_in_closure(*c, *a, *b),
    decreases size(*c),
{
    if lt(c, &t(clone_term(a), None, None)) {
        return true;
    }
    match c {
        None => false,
        Some(n) => {
            if n.c.is_some() {
                let c0 = first_term(c);
                proof {
                    lemma_first_size(*c);
                }
                c_in_closure(&c0, a, b) && c_in_closure(&n.c, a, b)
            } else {
                c_in_closure(&n.a, a, b) && c_in_closure(&n.b, a, b) && lt(&n.b, b)
            }
        },
    }
}

/// True iff the term is a standard BOCF term.
pub fn is_bocf_standard(x: &Term) -> (r: bool)
    ensures
        r == spec_is_bocf_standard(*x),
    decreases size(*x),
{
    match x {
        None => true,
        Some(n) => {
            if n.c.is_some() {
                let a0 = first_term(x);
                proof {
                    lemma_first_size(*x);
                }
                if !is_bocf_standard(&a0) || !is_bocf_standard(&n.c) {
                    return false;
                }
                let n1 = n.c.as_ref().unwrap();
                if n1.c.is_none() {
                    !lt(&a0, &n.c)
                } else {
                    !lt(&a0, &first_term(&n.c))
                }
            } else {
                is_bocf_standard(&n.a) && is_bocf_standard(&n.b) && c_in_closure(&n.b, &n.a, &n.b)
            }
        },
    }
}

fn contains_term(v: &Vec<Term>, x: &Term) -> (r: bool)
    ensures
        r == v@.contains(*x),
{
    let mut i: usize = 0;
    while i < v.len()
        invariant
            i <= v@.len(),
            forall|j: int| 0 <= j < i ==> v@[j] != *x,
        decreases v.len() - i,
    {
        if eq(&v[i], x) {
            return true;
        }
        i = i + 1;
    }
    false
}

/// Every top-level summand of `sf` already is a top-level summand of `raw`.
fn sum_only_fix(raw: &Term, sf: &Term) -> (r: bool)
    ensures
        r == spec_sum_only_fix(*raw, *sf),
{
    let raw_sums = every_terms(raw);
    let sf_sums = every_terms(sf);
    let mut i: usize = 0;
    while i < sf_sums.len()
        invariant
            i <= sf_sums@.len(),
            raw_sums@ == spec_terms(*raw),
            sf_sums@ == spec_terms(*sf),
            forall|j: int| 0 <= j < i ==> spec_terms(*raw).contains(#[trigger] spec_terms(*sf)[j]),
        decreases sf_sums.len() - i,
    {
        if !contains_term(&raw_sums, &sf_sums[i]) {
            return false;
        }
        i = i + 1;
    }
    true
}

/// Standardness with an intermediate level for terms that `standard_form`
/// repairs by only reordering or absorbing top-level summands.
pub fn check_bocf_standardness(x: &Term) -> (r: BocfStandardness)
    ensures
        r == spec_check_bocf_standardness(*x),
{
    if is_bocf_standard(x) {
        return BocfStandardness::Standard;
    }
    let sf = standard_form(x);
    if is_bocf_standard(&sf) && sum_only_fix(x, &sf) {
        BocfStandardness::NonStandardButNormalizable
    } else {
        BocfStandardness::NonStandard
    }
}


// ============================================================
// Cofinality and fundamental sequences: model
// ============================================================

pub open spec fn nat_of(n: int) -> nat {
    if n < 0 {
        0
    } else {
        n as nat
    }
}

/// Cofinality: 0, 1, ω (= ψ_0(1)) or a regular cardinal Ω_α.
pub open spec fn spec_cofinality(x: Term) -> Term
    decreases size(x),
{
    match x {
        None => None,
        Some(n) => {
            let last = spec_last(x);
            proof {
                lemma_last_size(x);
            }
            if last != x {
                spec_cofinality(last)
            } else if n.b is None {
                if n.a is None {
                    spec_one()
                } else {
                    let cf_beta = spec_cofinality(n.a);
                    if cf_beta == spec_one() {
                        x
                    } else {
                        cf_beta
                    }
                }
            } else {
                let cf_gamma = spec_cofinality(n.b);
                if cf_gamma == spec_one() {
                    spec_omega()
                } else if !spec_lt(n.a, cf_gamma) {
                    cf_gamma
                } else {
                    spec_omega()
                }
            }
        },
    }
}

/// Cofinality in the fundamental-sequence convention: `None` for zero and
/// successors, otherwise the index class of the sequence.
pub open spec fn spec_cof_opt(x: Term) -> Option<Term>
    decreases size(x),
{
    match x {
        None => None,
        Some(_) => {
            let last = spec_last(x);
            proof {
                lemma_last_size(x);
            }
            let n = last->0;
            if n.b is None {
                if n.a is None {
                    None
                } else {
                    match spec_cof_opt(n.a) {
                        None => Some(n.a),
                        Some(cf) => Some(cf),
                    }
                }
            } else {
                match spec_cof_opt(n.b) {
                    None => Some(None),
                    Some(cf) => if spec_le(cf, n.a) {
                        Some(cf)
                    } else {
                        Some(None)
                    },
                }
            }
        },
    }
}

pub proof fn lemma_cof_opt_size(x: Term)
    ensures
        spec_cof_opt(x) matches Some(cf) ==> size(cf) < size(x),
    decreases size(x),
{
    match x {
        None => {},
        Some(_) => {
            lemma_last_size(x);
            let n = spec_last(x)->0;
            if n.b is None {
                if n.a is Some {
                    lemma_cof_opt_size(n.a);
                }
            } else {
                lemma_cof_opt_size(n.b);
            }
        },
    }
}

/// The fundamental sequence x[n].
pub open spec fn spec_fs(x: Term, n: int) -> Term
    decreases size(x), 0nat, 0nat,
{
    match x {
        None => None,
        Some(nd) => {
            let last = spec_last(x);
            proof {
                lemma_last_size(x);
            }
            if last != x {
                spec_add(spec_sum_without_last(x), spec_fs(last, n))
            } else if nd.b is None {
                if nd.a is None {
                    None
                } else if spec_cof_opt(nd.a) is None {
                    spec_from_int(nat_of(n))
                } else {
                    mk(spec_fs(nd.a, n), None, None)
                }
            } else {
                proof {
                    lemma_cof_opt_size(nd.b);
                }
                match spec_cof_opt(nd.b) {
                    None => spec_mul_finite(
                        mk(nd.a, spec_fs(nd.b, 0), None),
                        spec_from_int(nat_of(n)),
                    ),
                    Some(cf) => if spec_le(cf, nd.a) {
                        mk(nd.a, spec_fs(nd.b, n), None)
                    } else {
                        mk(nd.a, fs_iter(nd.b, spec_fs(cf, 0), nat_of(n)), None)
                    },
                }
            }
        },
    }
}

/// k-fold iteration r ↦ g[ψ_{cfp}(r)] starting from zero.
pub open spec fn fs_iter(g: Term, cfp: Term, k: nat) -> Term
    decreases size(g), 2nat, k,
{
    if k == 0 {
        None
    } else {
        spec_fsi(g, mk(cfp, fs_iter(g, cfp, (k - 1) as nat), None))
    }
}

/// The fundamental sequence x[idx] at an ordinal index.
pub open spec fn spec_fsi(x: Term, idx: Term) -> Term
    decreases size(x), 1nat, 0nat,
{
    match x {
        None => None,
        Some(nd) => {
            let last = spec_last(x);
            proof {
                lemma_last_size(x);
            }
            if last != x {
                spec_add(spec_sum_without_last(x), spec_fsi(last, idx))
            } else if spec_is_finite_nat(idx) {
                spec_fs(x, spec_len1(idx) as int)
            } else if nd.b is None {
                if nd.a is None {
                    None
                } else if spec_cof_opt(nd.a) is None {
                    idx
                } else {
                    mk(spec_fsi(nd.a, idx), None, None)
                }
            } else {
                match spec_cof_opt(nd.b) {
                    None => spec_fs(x, spec_len1(idx) as int),
                    Some(cf) => if spec_le(cf, nd.a) {
                        mk(nd.a, spec_fsi(nd.b, idx), None)
                    } else {
                        spec_fs(x, spec_len1(idx) as int)
                    },
                }
            }
        },
    }
}

// ============================================================
// Cofinality and fundamental sequences
// ============================================================

/// Cofinality (0, 1, ω = ψ_0(1), or a regular cardinal Ω_α).
pub fn cofinality(x: &Term) -> (r: Term)
    ensures
        r == spec_cofinality(*x),
    decreases size(*x),
{
    match x {
        None => None,
        Some(n) => {
            let last = last_term(x);
            proof {
                lemma_last_size(*x);
            }
            if !eq(&last, x) {
                return cofinality(&last);
            }
            if n.b.is_none() {
                if n.a.is_none() {
                    return one();
                }
                let cf_beta = cofinality(&n.a);
                if eq(&cf_beta, &one()) {
                    return last;
                }
                return cf_beta;
            }
            let cf_gamma = cofinality(&n.b);
            if eq(&cf_gamma, &one()) {
                return omega();
            }
            if !lt(&n.a, &cf_gamma) {
                return cf_gamma;
            }
            omega()
        },
    }
}

fn cof_opt(x: &Term) -> (r: Option<Term>)
    ensures
        r == spec_cof_opt(*x),
    decreases size(*x),
{
    if x.is_none() {
        return None;
    }
    let last = last_term(x);
    proof {
        lemma_last_size(*x);
    }
    let n = last.as_ref().unwrap();
    if n.b.is_none() {
        if n.a.is_none() {
            return None;
        }
        return match cof_opt(&n.a) {
            None => Some(clone_term(&n.a)),
            Some(cf) => Some(cf),
        };
    }
    match cof_opt(&n.b) {
        None => Some(None),
        Some(cf) => {
            if le(&cf, &n.a) {
                Some(cf)
            } else {
                Some(None)
            }
        },
    }
}

/// Fundamental sequence x[n] for an integer index (negative counts as 0).
pub fn fundamental_sequence(x: &Term, n: i32) -> (r: Term)
    ensures
        r == spec_fs(*x, n as int),
    decreases size(*x), 0nat, 0nat,
{
    if x.is_none() {
        return None;
    }
    let last = last_term(x);
    proof {
        lemma_last_size(*x);
    }
    if !eq(&last, x) {
        return self::add(&sum_without_last(x), &fundamental_sequence(&last, n));
    }
    let nd = x.as_ref().unwrap();
    if nd.b.is_none() {
        if nd.a.is_none() {
            return None;
        }
        if cof_opt(&nd.a).is_none() {
            return from_int(n);
        }
        return t(fundamental_sequence(&nd.a, n), None, None);
    }
    proof {
        lemma_cof_opt_size(nd.b);
    }
    match cof_opt(&nd.b) {
        None => {
            let gamma0 = fundamental_sequence(&nd.b, 0);
            mul_finite(&t(clone_term(&nd.a), gamma0, None), &from_int(n))
        },
        Some(cf) => {
            if le(&cf, &nd.a) {
                return t(clone_term(&nd.a), fundamental_sequence(&nd.b, n), None);
            }
            let cf_pred = fundamental_sequence(&cf, 0);
            let mut result: Term = None;
            let mut i: i32 = 0;
            while i < n
                invariant
                    0 <= i,
                    n >= 0 ==> i <= n,
                    n < 0 ==> i == 0,
                    size(nd.b) < size(*x),
                    result == fs_iter(nd.b, cf_pred, i as nat),
                decreases n - i,
            {
                let idx = t(clone_term(&cf_pred), result, None);
                assert(spec_len1(idx) == 1) by {
                    reveal_with_fuel(spec_len1, 2);
                }
                result = fundamental_sequence_indexed(&nd.b, &idx);
                i = i + 1;
            }
            t(clone_term(&nd.a), result, None)
        },
    }
}

/// Fundamental sequence x[idx] for an ordinal index.
pub fn fundamental_sequence_indexed(x: &Term, index: &Term) -> (r: Term)
    requires
        spec_len1(*index) <= i32::MAX,
    ensures
        r == spec_fsi(*x, *index),
    decreases size(*x), 1nat, 0nat,
{
    if x.is_none() {
        return None;
    }
    let last = last_term(x);
    proof {
        lemma_last_size(*x);
    }
    if !eq(&last, x) {
        return self::add(&sum_without_last(x), &fundamental_sequence_indexed(&last, index));
    }
    if is_finite_nat(index) {
        return fundamental_sequence(x, length1(index));
    }
    let nd = x.as_ref().unwrap();
    if nd.b.is_none() {
        if nd.a.is_none() {
            return None;
        }
        if cof_opt(&nd.a).is_none() {
            return clone_term(index);
        }
        return t(fundamental_sequence_indexed(&nd.a, index), None, None);
    }
    match cof_opt(&nd.b) {
        None => fundamental_sequence(x, length1(index)),
        Some(cf) => {
            if le(&cf, &nd.a) {
                return t(clone_term(&nd.a), fundamental_sequence_indexed(&nd.b, index), None);
            }
            fundamental_sequence(x, length1(index))
        },
    }
}

// ============================================================
// Ω-power decomposition
// ============================================================

/// Adds ω^(log(ptr) − Ω_a) for every suffix `ptr` of the sum.
pub open spec fn dp_loop(first: Term, ptr: Term, a: Term) -> Term
    decreases ptr,
{
    match ptr {
        None => first,
        Some(pn) => dp_loop(
            spec_add(first, spec_exp(spec_sub(spec_log(ptr), mk(a, None, None)))),
            pn.c,
            a,
        ),
    }
}

/// ψ_a(b) = Ω_a^{first} · second.
pub open spec fn spec_decompose_power(x: Term) -> (Term, Term) {
    match x {
        None => (None, None),
        Some(n) => if n.a is None {
            (spec_log(x), None)
        } else {
            let s1 = spec_separate(n.b, mk(spec_succ(n.a), None, None));
            let s2 = spec_separate(s1.1, mk(n.a, None, None));
            (dp_loop(spec_add(spec_one(), s1.0), s2.0, n.a), spec_exp(s2.1))
        },
    }
}

/// Decomposes ψ_a(b) into Ω_a^{first} · second.
pub fn decompose_power(x: &Term) -> (r: (Term, Term))
    ensures
        r == spec_decompose_power(*x),
{
    match x {
        None => (None, None),
        Some(n) => {
            if n.a.is_none() {
                return (log(x), None);
            }
            let (p, s) = separate(&n.b, &t(succ(&n.a), None, None));
            let (q, r) = separate(&s, &t(clone_term(&n.a), None, None));
            let second = exp(&r);
            let mut first = self::add(&one(), &p);
            let mut ptr: &Term = &q;
            while ptr.is_some()
                invariant
                    dp_loop(first, *ptr, n.a) == dp_loop(
                        spec_add(spec_one(), p),
                        q,
                        n.a,
                    ),
                decreases size(*ptr),
            {
                let pn = ptr.as_ref().unwrap();
                let log_val = log(ptr);
                let sub_val = self::sub(&log_val, &t(clone_term(&n.a), None, None));
                first = self::add(&first, &exp(&sub_val));
                ptr = &pn.c;
            }
            (first, second)
        },
    }
}

pub fn debug_decompose_power(x: &Term) -> (r: (Term, Term))
    ensures
        r == spec_decompose_power(*x),
{
    decompose_power(x)
}


// ============================================================
// LaTeX rendering: model
// ============================================================

/// Number of summands, saturated at `u64::MAX`.
pub open spec fn sat_len(x: Term) -> nat {
    if spec_len1(x) > u64::MAX {
        u64::MAX as nat
    } else {
        spec_len1(x)
    }
}

/// Recursion budget of the LaTeX renderer: the depth of nested renderings.
pub open spec fn render_fuel() -> nat {
    1_000_000
}

/// `\omega`, `\Omega` or `\Omega_{a}` for ψ_a(0).
pub open spec fn spec_omega_str(a: Term, f: nat) -> Seq<char>
    decreases f, 1nat,
{
    if a is None {
        "\\omega"@
    } else if a == spec_one() {
        "\\Omega"@
    } else {
        "\\Omega_{"@ + spec_render(a, f) + "}"@
    }
}

/// LaTeX rendering with recursion budget `f`.
pub open spec fn spec_render(q: Term, f: nat) -> Seq<char>
    decreases f, 0nat,
{
    if f == 0 {
        Seq::empty()
    } else if q is None {
        "0"@
    } else if spec_is_ordinal_finite(q) {
        nat_str(sat_len(q))
    } else {
        let g = (f - 1) as nat;
        let sp = spec_separate(q, spec_first(q));
        let ap = sp.0;
        let bp = sp.1;
        let a0 = ap->0.a;
        let a1 = ap->0.b;
        let m0 = "\\psi_{"@ + spec_render(a0, g) + "}\\left("@ + spec_render(a1, g) + "\\right)"@;
        let m1 = if a1 is None {
            spec_omega_str(a0, g)
        } else {
            m0
        };
        let m2 = if a0 is None {
            "\\psi\\left("@ + spec_render(a1, g) + "\\right)"@
        } else {
            m1
        };
        let count = if sat_len(ap) > 1 {
            nat_str(sat_len(ap))
        } else {
            Seq::empty()
        };
        let tail = if bp is Some {
            "+"@ + spec_render(bp, g)
        } else {
            Seq::empty()
        };
        let dp = spec_decompose_power(ap);
        if a0 is None && a1 == spec_one() {
            "\\omega"@ + count + tail
        } else if spec_lt(a1, mk(spec_succ(a0), None, None)) && dp.0 != ap {
            spec_omega_str(a0, g) + (if spec_gt(dp.0, spec_one()) {
                "^{"@ + spec_render(dp.0, g) + "}"@
            } else {
                Seq::empty()
            }) + (if spec_gt(dp.1, spec_one()) {
                spec_render(dp.1, g)
            } else {
                Seq::empty()
            }) + count + tail
        } else {
            m2 + count + tail
        }
    }
}

/// Simple ψ form: digits for naturals, Ω_α for ψ_α(0), ψ for ψ_0 and
/// runs of equal summands written with a multiplier.
pub open spec fn spec_psi_simple(q: Term) -> Seq<char>
    decreases size(q), 2nat,
{
    if q is None {
        "0"@
    } else if spec_is_ordinal_finite(q) {
        nat_str(sat_len(q))
    } else {
        psi_simple_join(q, true)
    }
}

/// The summand runs of `cur`, joined by '+', each as head and multiplier.
pub open spec fn psi_simple_join(cur: Term, first: bool) -> Seq<char>
    decreases size(cur), 1nat,
{
    match cur {
        None => Seq::empty(),
        Some(_) => {
            let head = spec_first(cur);
            let sp = spec_separate(cur, head);
            proof {
                lemma_first_size(cur);
                lemma_separate_run(cur);
            }
            (if first {
                Seq::empty()
            } else {
                "+"@
            }) + psi_simple_head(head) + (if sat_len(sp.0) > 1 {
                nat_str(sat_len(sp.0))
            } else {
                Seq::empty()
            }) + psi_simple_join(sp.1, false)
        },
    }
}

/// One summand ψ_a(b) in simple ψ form.
pub open spec fn psi_simple_head(p: Term) -> Seq<char>
    decreases size(p), 0nat,
{
    match p {
        None => Seq::empty(),
        Some(n) => if n.b is None {
            if n.a is None {
                "1"@
            } else if n.a == spec_one() {
                "\\Omega"@
            } else {
                "\\Omega_{"@ + spec_psi_simple(n.a) + "}"@
            }
        } else if n.a is None {
            "\\psi\\left("@ + spec_psi_simple(n.b) + "\\right)"@
        } else {
            "\\psi_{"@ + spec_psi_simple(n.a) + "}\\left("@ + spec_psi_simple(n.b) + "\\right)"@
        },
    }
}

/// Pure ψ form: only ψ, parentheses, subscripts, '+' and '0'.
pub open spec fn spec_pure(q: Term) -> Seq<char>
    decreases size(q), 1nat,
{
    if q is None {
        "0"@
    } else {
        pure_join(q, true)
    }
}

pub open spec fn pure_join(cur: Term, first: bool) -> Seq<char>
    decreases size(cur), 0nat,
{
    match cur {
        None => Seq::empty(),
        Some(n) => (if first {
            Seq::empty()
        } else {
            "+"@
        }) + (if n.a is None {
            "\\psi\\left("@ + spec_pure(n.b) + "\\right)"@
        } else {
            "\\psi_{"@ + spec_pure(n.a) + "}\\left("@ + spec_pure(n.b) + "\\right)"@
        }) + pure_join(n.c, false),
    }
}

/// Separating a nonzero term at its own head leaves a strictly smaller rest
/// and a nonempty run.
pub proof fn lemma_separate_run(x: Term)
    requires
        x is Some,
    ensures
        spec_separate(x, spec_first(x)).0 is Some,
        size(spec_separate(x, spec_first(x)).1) < size(x),
{
    lemma_lt_trichotomy(spec_first(x), spec_first(x));
    lemma_separate_size(rest(x), spec_first(x));
}

// ============================================================
// LaTeX rendering
// ============================================================

/// Number of summands, saturated at `u64::MAX`.
pub fn summand_count(x: &Term) -> (r: u64)
    ensures
        r == sat_len(*x),
{
    let mut r: u64 = 0;
    let mut cur: &Term = x;
    while cur.is_some()
        invariant
            (if r as nat + spec_len1(*cur) > u64::MAX {
                u64::MAX as nat
            } else {
                r as nat + spec_len1(*cur)
            }) == sat_len(*x),
        decreases size(*cur),
    {
        let n = cur.as_ref().unwrap();
        if r < u64::MAX {
            r = r + 1;
        }
        cur = &n.c;
    }
    r
}

fn omega_str(a: &Term, f: u32) -> (r: String)
    ensures
        r@ == spec_omega_str(*a, f as nat),
    decreases f, 1nat,
{
    if a.is_none() {
        return lit("\\omega");
    }
    if eq(a, &one()) {
        return lit("\\Omega");
    }
    let mut s = String::new();
    s.append("\\Omega_{");
    let inner = render_rec(a, f);
    push_string(&mut s, &inner);
    s.append("}");
    s
}

/// The multiplier and the rendered rest of the sum.
pub open spec fn render_tail(ap: Term, bp: Term, g: nat) -> Seq<char> {
    (if sat_len(ap) > 1 {
        nat_str(sat_len(ap))
    } else {
        Seq::empty()
    }) + (if bp is Some {
        "+"@ + spec_render(bp, g)
    } else {
        Seq::empty()
    })
}

/// The plain head ψ_{a0}(a1) with the usual abbreviations.
pub open spec fn render_plain_head(a0: Term, a1: Term, g: nat) -> Seq<char> {
    if a0 is None {
        "\\psi\\left("@ + spec_render(a1, g) + "\\right)"@
    } else if a1 is None {
        spec_omega_str(a0, g)
    } else {
        "\\psi_{"@ + spec_render(a0, g) + "}\\left("@ + spec_render(a1, g) + "\\right)"@
    }
}

/// The head as an Ω-power Ω_{a0}^{first}·second.
pub open spec fn render_power_head(a0: Term, first: Term, second: Term, g: nat) -> Seq<char> {
    spec_omega_str(a0, g) + (if spec_gt(first, spec_one()) {
        "^{"@ + spec_render(first, g) + "}"@
    } else {
        Seq::empty()
    }) + (if spec_gt(second, spec_one()) {
        spec_render(second, g)
    } else {
        Seq::empty()
    })
}

proof fn lemma_render_unfold(q: Term, f: nat)
    requires
        f > 0,
        q is Some,
        !spec_is_ordinal_finite(q),
    ensures
        ({
            let g = (f - 1) as nat;
            let sp = spec_separate(q, spec_first(q));
            let ap = sp.0;
            let a0 = ap->0.a;
            let a1 = ap->0.b;
            let dp = spec_decompose_power(ap);
            let tail = render_tail(ap, sp.1, g);
            spec_render(q, f) == if a0 is None && a1 == spec_one() {
                "\\omega"@ + tail
            } else if spec_lt(a1, mk(spec_succ(a0), None, None)) && dp.0 != ap {
                render_power_head(a0, dp.0, dp.1, g) + tail
            } else {
                render_plain_head(a0, a1, g) + tail
            }
        }),
{
    let g = (f - 1) as nat;
    let sp = spec_separate(q, spec_first(q));
    let ap = sp.0;
    let a0 = ap->0.a;
    let a1 = ap->0.b;
    let dp = spec_decompose_power(ap);
    let count = if sat_len(ap) > 1 {
        nat_str(sat_len(ap))
    } else {
        Seq::<char>::empty()
    };
    let tl = if sp.1 is Some {
        "+"@ + spec_render(sp.1, g)
    } else {
        Seq::<char>::empty()
    };
    assert(render_tail(ap, sp.1, g) == count + tl);
    let p1 = if spec_gt(dp.0, spec_one()) {
        "^{"@ + spec_render(dp.0, g) + "}"@
    } else {
        Seq::<char>::empty()
    };
    let p2 = if spec_gt(dp.1, spec_one()) {
        spec_render(dp.1, g)
    } else {
        Seq::<char>::empty()
    };
    assert(spec_omega_str(a0, g) + p1 + p2 + count + tl =~= render_power_head(a0, dp.0, dp.1, g)
        + (count + tl));
    assert("\\omega"@ + count + tl =~= "\\omega"@ + (count + tl));
    let m0 = "\\psi_{"@ + spec_render(a0, g) + "}\\left("@ + spec_render(a1, g) + "\\right)"@;
    let m1 = if a1 is None {
        spec_omega_str(a0, g)
    } else {
        m0
    };
    let m2 = if a0 is None {
        "\\psi\\left("@ + spec_render(a1, g) + "\\right)"@
    } else {
        m1
    };
    assert(m2 == render_plain_head(a0, a1, g));
    assert(m2 + count + tl =~= m2 + (count + tl));
}

fn render_tail_impl(ap: &Term, bp: &Term, g: u32) -> (r: String)
    ensures
        r@ == render_tail(*ap, *bp, g as nat),
    decreases g, 2nat,
{
    let count = summand_count(ap);
    let mut tail = String::new();
    if count > 1 {
        push_nat(&mut tail, count);
    }
    if bp.is_some() {
        tail.append("+");
        let rb = render_rec(bp, g);
        push_string(&mut tail, &rb);
    }
    proof {
        assert(tail@ =~= render_tail(*ap, *bp, g as nat));
    }
    tail
}

fn render_plain_head_impl(a0: &Term, a1: &Term, g: u32) -> (r: String)
    ensures
        r@ == render_plain_head(*a0, *a1, g as nat),
    decreases g, 2nat,
{
    let mut m = String::new();
    if a0.is_none() {
        m.append("\\psi\\left(");
        let r1 = render_rec(a1, g);
        push_string(&mut m, &r1);
        m.append("\\right)");
    } else if a1.is_none() {
        let o = omega_str(a0, g);
        push_string(&mut m, &o);
    } else {
        m.append("\\psi_{");
        let r0 = render_rec(a0, g);
        push_string(&mut m, &r0);
        m.append("}\\left(");
        let r1 = render_rec(a1, g);
        push_string(&mut m, &r1);
        m.append("\\right)");
    }
    proof {
        assert(m@ =~= render_plain_head(*a0, *a1, g as nat));
    }
    m
}

fn render_power_head_impl(a0: &Term, first: &Term, second: &Term, g: u32) -> (r: String)
    ensures
        r@ == render_power_head(*a0, *first, *second, g as nat),
    decreases g, 2nat,
{
    let mut m = omega_str(a0, g);
    if gt(first, &one()) {
        m.append("^{");
        let rf = render_rec(first, g);
        push_string(&mut m, &rf);
        m.append("}");
    }
    if gt(second, &one()) {
        let rs = render_rec(second, g);
        push_string(&mut m, &rs);
    }
    proof {
        assert(m@ =~= render_power_head(*a0, *first, *second, g as nat));
    }
    m
}

fn render_rec(q: &Term, f: u32) -> (r: String)
    ensures
        r@ == spec_render(*q, f as nat),
    decreases f, 0nat,
{
    if f == 0 {
        return String::new();
    }
    if q.is_none() {
        return lit("0");
    }
    if is_ordinal_finite(q) {
        let mut s = String::new();
        push_nat(&mut s, summand_count(q));
        proof {
            assert(s@ =~= spec_render(*q, f as nat));
        }
        return s;
    }
    let g = f - 1;
    let head = first_term(q);
    let (ap, bp) = separate(q, &head);
    proof {
        lemma_separate_run(*q);
        lemma_render_unfold(*q, f as nat);
    }
    let an = ap.as_ref().unwrap();
    let a0 = &an.a;
    let a1 = &an.b;
    let tail = render_tail_impl(&ap, &bp, g);
    if a0.is_none() && eq(a1, &one()) {
        let mut m = lit("\\omega");
        push_string(&mut m, &tail);
        return m;
    }
    if lt(a1, &t(succ(a0), None, None)) {
        let (first, second) = decompose_power(&ap);
        if !eq(&first, &ap) {
            let mut m = render_power_head_impl(a0, &first, &second, g);
            push_string(&mut m, &tail);
            return m;
        }
    }
    let mut m = render_plain_head_impl(a0, a1, g);
    push_string(&mut m, &tail);
    m
}

/// LaTeX rendering of a term (ψ notation with Ω-power sugar).
pub fn render_term(q: &Term) -> (r: String)
    ensures
        r@ == spec_render(*q, render_fuel()),
{
    render_rec(q, 1_000_000)
}

/// LaTeX rendering of a term; both flavours print the same.
pub fn term_to_string(latex: bool, q: &Term) -> (r: String)
    ensures
        r@ == spec_render(*q, render_fuel()),
{
    render_term(q)
}

fn psi_simple_head_impl(p: &Term) -> (r: String)
    ensures
        r@ == psi_simple_head(*p),
    decreases size(*p), 0nat,
{
    match p {
        None => String::new(),
        Some(n) => {
            let mut s = String::new();
            if n.b.is_none() {
                if n.a.is_none() {
                    s.append("1");
                } else if eq(&n.a, &one()) {
                    s.append("\\Omega");
                } else {
                    s.append("\\Omega_{");
                    let x = term_to_psi_simple_impl(&n.a);
                    push_string(&mut s, &x);
                    s.append("}");
                }
            } else if n.a.is_none() {
                s.append("\\psi\\left(");
                let x = term_to_psi_simple_impl(&n.b);
                push_string(&mut s, &x);
                s.append("\\right)");
            } else {
                s.append("\\psi_{");
                let x = term_to_psi_simple_impl(&n.a);
                push_string(&mut s, &x);
                s.append("}\\left(");
                let y = term_to_psi_simple_impl(&n.b);
                push_string(&mut s, &y);
                s.append("\\right)");
            }
            s
        },
    }
}

fn psi_simple_join_impl(cur: &Term, first: bool) -> (r: String)
    ensures
        r@ == psi_simple_join(*cur, first),
    decreases size(*cur), 1nat,
{
    match cur {
        None => String::new(),
        Some(_) => {
            let head = first_term(cur);
            let (run, rest) = separate(cur, &head);
            proof {
                lemma_first_size(*cur);
                lemma_separate_run(*cur);
            }
            let mut s = String::new();
            if !first {
                s.append("+");
            }
            let h = psi_simple_head_impl(&head);
            push_string(&mut s, &h);
            let count = summand_count(&run);
            if count > 1 {
                push_nat(&mut s, count);
            }
            let tail = psi_simple_join_impl(&rest, false);
            push_string(&mut s, &tail);
            s
        },
    }
}

fn term_to_psi_simple_impl(q: &Term) -> (r: String)
    ensures
        r@ == spec_psi_simple(*q),
    decreases size(*q), 2nat,
{
    if q.is_none() {
        return lit("0");
    }
    if is_ordinal_finite(q) {
        let mut s = String::new();
        push_nat(&mut s, summand_count(q));
        return s;
    }
    psi_simple_join_impl(q, true)
}

/// Raw ψ form in LaTeX: naturals as digits, ψ_α(0) as Ω_α, ψ_0 as ψ, and
/// runs of identical summands merged as ordinal products (ω+ω → ω2).
pub fn term_to_psi_simple(q: &Term) -> (r: String)
    ensures
        r@ == spec_psi_simple(*q),
{
    term_to_psi_simple_impl(q)
}

fn pure_join_impl(cur: &Term, first: bool) -> (r: String)
    ensures
        r@ == pure_join(*cur, first),
    decreases size(*cur), 0nat,
{
    match cur {
        None => String::new(),
        Some(n) => {
            let mut s = String::new();
            if !first {
                s.append("+");
            }
            if n.a.is_none() {
                s.append("\\psi\\left(");
                let x = term_to_pure(&n.b);
                push_string(&mut s, &x);
                s.append("\\right)");
            } else {
                s.append("\\psi_{");
                let x = term_to_pure(&n.a);
                push_string(&mut s, &x);
                s.append("}\\left(");
                let y = term_to_pure(&n.b);
                push_string(&mut s, &y);
                s.append("\\right)");
            }
            let rest = pure_join_impl(&n.c, false);
            push_string(&mut s, &rest);
            s
        },
    }
}

/// Pure ψ form: naturals are sums of ψ(0), Ω_α is ψ_α(0), and every summand
/// is written out.
pub fn term_to_pure(q: &Term) -> (r: String)
    ensures
        r@ == spec_pure(*q),
    decreases size(*q), 1nat,
{
    if q.is_none() {
        return lit("0");
    }
    pure_join_impl(q, true)
}

// ============================================================
// Laws of fundamental sequences
// ============================================================

proof fn lemma_lt_irreflexive(x: Term)
    ensures
        !spec_lt(x, x),
    decreases x,
{
    match x {
        None => {},
        Some(n) => {
            lemma_lt_irreflexive(n.c);
        },
    }
}

/// `n + 1` written as `1 + n`: a natural number is a run of ones.
proof fn lemma_from_int_front(n: nat)
    ensures
        spec_from_int(n + 1) == mk(None, None, spec_from_int(n)),
    decreases n,
{
    lemma_lt_irreflexive(spec_one());
    if n > 0 {
        lemma_from_int_front((n - 1) as nat);
        assert(spec_first(spec_from_int(n)) == spec_one());
    }
}

proof fn lemma_one_times_nat(n: nat)
    ensures
        spec_mul_finite(spec_one(), spec_from_int(n)) == spec_from_int(n),
    decreases n,
{
    if n > 0 {
        lemma_from_int_front((n - 1) as nat);
        lemma_one_times_nat((n - 1) as nat);
        lemma_lt_irreflexive(spec_one());
        let y = spec_from_int((n - 1) as nat);
        assert(spec_mul_finite(spec_one(), spec_from_int(n)) == spec_add(spec_one(), y));
        if y is Some {
            assert(spec_first(y) == spec_one()) by {
                if n - 1 > 0 {
                    lemma_from_int_front((n - 2) as nat);
                }
            }
            assert(!spec_lt(spec_first(spec_one()), spec_first(y)));
            assert(spec_add(spec_one(), y) == mk(None, None, spec_add(None, y)));
        }
        assert(spec_add(spec_one(), y) == mk(None, None, y));
    }
}

/// ω[n] = n.
pub proof fn lemma_fs_omega(n: int)
    requires
        n >= 0,
    ensures
        spec_fs(spec_omega(), n) == spec_from_int(n as nat),
{
    lemma_one_times_nat(n as nat);
    assert(spec_last(spec_omega()) == spec_omega());
    assert(spec_cof_opt(spec_one()) is None) by {
        assert(spec_last(spec_one()) == spec_one());
    }
    assert(spec_fs(spec_one(), 0) == None::<Box<TermNode>>) by {
        assert(spec_last(spec_one()) == spec_one());
    }
}

/// A ψ-term whose argument's cofinality is at most its subscript expands
/// through its argument: ψ_ν(γ)[n] = ψ_ν(γ[n]).
pub proof fn lemma_fs_psi_small_cof(a: Term, b: Term, n: int)
    requires
        b is Some,
        spec_cof_opt(b) is Some,
        spec_le(spec_cof_opt(b)->0, a),
    ensures
        spec_fs(mk(a, b, None), n) == mk(a, spec_fs(b, n), None),
{
    assert(spec_last(mk(a, b, None)) == mk(a, b, None));
}

/// ψ_0(ω)[n] = ψ_0(n): the sequence of ω^ω runs through ω^n.
pub proof fn lemma_fs_psi_omega(n: int)
    requires
        n >= 0,
    ensures
        spec_fs(mk(None, spec_omega(), None), n) == mk(None, spec_from_int(n as nat), None),
{
    assert(spec_last(spec_omega()) == spec_omega());
    assert(spec_cof_opt(spec_one()) is None) by {
        assert(spec_last(spec_one()) == spec_one());
    }
    assert(spec_cof_opt(spec_omega()) == Some(None::<Box<TermNode>>));
    lemma_fs_psi_small_cof(None, spec_omega(), n);
    lemma_fs_omega(n);
}

/// The fundamental sequence of ψ_0(ω) strictly increases with the index.
pub proof fn lemma_fs_psi_omega_increasing(n: int)
    requires
        n >= 0,
    ensures
        spec_lt(spec_fs(mk(None, spec_omega(), None), n), spec_fs(mk(None, spec_omega(), None), n + 1)),
    decreases n,
{
    lemma_fs_psi_omega(n);
    lemma_fs_psi_omega(n + 1);
    lemma_from_int_lt(n as nat);
    lemma_lt_irreflexive(spec_from_int(n as nat));
    assert(spec_from_int(n as nat) != spec_from_int((n + 1) as nat));
}

proof fn lemma_from_int_lt(n: nat)
    ensures
        spec_lt(spec_from_int(n), spec_from_int(n + 1)),
    decreases n,
{
    lemma_from_int_front(n);
    if n > 0 {
        lemma_from_int_front((n - 1) as nat);
        lemma_from_int_lt((n - 1) as nat);
    }
}

/// Adding one commutes with the standard form: sf(x + 1) = sf(x) + 1.
pub proof fn lemma_standard_form_succ(x: Term)
    ensures
        spec_standard_form(spec_add(x, spec_one())) == spec_add(spec_standard_form(x), spec_one()),
    decreases x,
{
    match x {
        None => {
            assert(spec_merge_psi_addends(None, None, None) == spec_one());
            assert(spec_standard_form(spec_one()) == spec_one());
        },
        Some(n) => {
            assert(!spec_lt(spec_first(x), spec_first(spec_one()))) by {
                let z = None::<Box<TermNode>>;
                assert(spec_first(spec_one()) == mk(z, z, z));
                assert(!spec_lt(n.a, z));
                assert(!spec_lt(n.b, z));
                assert(!spec_lt(z, z));
            }
            assert(spec_add(x, spec_one()) == mk(n.a, n.b, spec_add(n.c, spec_one())));
            lemma_standard_form_succ(n.c);
            let m = spec_merge_psi_addends(spec_standard_form(n.a), None, spec_standard_form(n.b));
            lemma_add_assoc(m, spec_standard_form(n.c), spec_one());
        },
    }
}

/// The fundamental sequence of a successor is its predecessor at every
/// index: (x + 1)[n] = x.
pub proof fn lemma_fs_succ(x: Term, n: int)
    requires
        spec_is_bocf_standard(x),
    ensures
        spec_fs(spec_succ(x), n) == x,
{
    lemma_pred_succ(x);
    lemma_add_one_last(x);
    let y = spec_succ(x);
    assert(spec_last(spec_one()) == spec_one());
    assert(spec_fs(spec_one(), n) == None::<Box<TermNode>>);
    if spec_last(y) == y {
        assert(y == spec_one());
        if x is Some {
            lemma_add_one_last(x->0.c);
            assert(spec_add(x, spec_one()) == mk(x->0.a, x->0.b, spec_add(x->0.c, spec_one())));
        }
    } else {
        assert(spec_fs(y, n) == spec_add(spec_sum_without_last(y), spec_fs(spec_one(), n)));
        assert(spec_pred(y) == spec_sum_without_last(y));
    }
}

proof fn lemma_nat_from_len(x: Term)
    requires
        spec_is_finite_nat(x),
    ensures
        spec_from_int(spec_len1(x)) == x,
    decreases x,
{
    match x {
        None => {},
        Some(n) => {
            lemma_nat_from_len(n.c);
            lemma_from_int_front(spec_len1(n.c));
        },
    }
}

/// Ω = ψ_1(0) at any index is the index: Ω[α] = α.
proof fn lemma_fsi_big_omega(idx: Term)
    ensures
        spec_fsi(mk(spec_one(), None, None), idx) == idx,
{
    let w = mk(spec_one(), None, None);
    assert(spec_last(w) == w);
    assert(spec_last(spec_one()) == spec_one());
    assert(spec_cof_opt(spec_one()) is None);
    if spec_is_finite_nat(idx) {
        lemma_nat_from_len(idx);
        assert(spec_fs(w, spec_len1(idx) as int) == spec_from_int(nat_of(spec_len1(idx) as int)));
    }
}

/// ψ_0(Ω) = ε_0: its fundamental sequence starts at ψ_0(0) = 1 and each
/// next term is ψ_0 (that is, ω to the power) of the previous one.
pub proof fn lemma_fs_epsilon0(n: int)
    requires
        n >= 0,
    ensures
        spec_fs(mk(None, mk(spec_one(), None, None), None), 0) == spec_one(),
        spec_fs(mk(None, mk(spec_one(), None, None), None), n + 1) == mk(
            None,
            spec_fs(mk(None, mk(spec_one(), None, None), None), n),
            None,
        ),
{
    let w = mk(spec_one(), None, None);
    let e = mk(None, w, None);
    assert(spec_last(e) == e);
    assert(spec_last(w) == w);
    assert(spec_last(spec_one()) == spec_one());
    assert(spec_cof_opt(spec_one()) is None);
    assert(spec_cof_opt(w) == Some(spec_one()));
    assert(!spec_le(spec_one(), None::<Box<TermNode>>));
    assert(spec_fs(spec_one(), 0) == None::<Box<TermNode>>);
    assert(nat_of(0) == 0);
    assert(fs_iter(w, None, 0) == None::<Box<TermNode>>);
    assert(spec_fs(e, 0) == mk(None, fs_iter(w, None, 0), None));
    let k = (n + 1) as nat;
    let prev = fs_iter(w, None, (k - 1) as nat);
    assert(fs_iter(w, None, k) == spec_fsi(w, mk(None, prev, None)));
    lemma_fsi_big_omega(mk(None, prev, None));
    assert(nat_of(n + 1) == k);
    assert(nat_of(n) == (k - 1) as nat);
}

} // verus!
