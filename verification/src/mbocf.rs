//! Mahlo BOCF: terms, a lenient parser (Unicode and LaTeX spellings),
//! canonical form, and printing back to LaTeX or as an indented tree.
use vstd::prelude::*;
use crate::expand::mat;
use crate::ihss::{IHSS, from_value_spec, rows_cover};
use crate::hydra::ints;
use crate::text::{
    chars_of, digit_of, digits_end, is_digit, is_digit_char, is_ws, lemma_digits_end, lit,
    nat_str, push_char, push_nat, push_string, spec_is_ws, string_of,
};

verus! {

/// A Mahlo BOCF term.
#[derive(Debug, PartialEq, Eq)]
pub enum MboTerm {
    /// The successor-addend `1` and natural numbers (`0`, `2`, ...).
    Nat(u64),
    /// The limit `ω`.
    OmegaTerm,
    /// The regular `Ω`, or `Ω_n` when `Some(n)`.
    Omega(Option<u64>),
    /// The Mahlo `M`, or `M_n` when `Some(n)`.
    Mahlo(Option<u64>),
    /// `ψ_α(β)`.
    Psi { sub: Box<MboTerm>, arg: Box<MboTerm> },
    /// `α × n` for a natural number `n`.
    Mul(Box<MboTerm>, u64),
    /// `α + β + …`, in order.
    Add(Vec<MboTerm>),
}

/// The mathematical model of a term: the same tree, with sums as sequences.
#[verifier::ext_equal]
pub enum MboV {
    Nat(u64),
    OmegaTerm,
    Omega(Option<u64>),
    Mahlo(Option<u64>),
    Psi(Box<MboV>, Box<MboV>),
    Mul(Box<MboV>, u64),
    Add(Seq<MboV>),
}

pub open spec fn mv(x: MboTerm) -> MboV
    decreases x,
{
    match x {
        MboTerm::Nat(n) => MboV::Nat(n),
        MboTerm::OmegaTerm => MboV::OmegaTerm,
        MboTerm::Omega(k) => MboV::Omega(k),
        MboTerm::Mahlo(k) => MboV::Mahlo(k),
        MboTerm::Psi { sub, arg } => MboV::Psi(Box::new(mv(*sub)), Box::new(mv(*arg))),
        MboTerm::Mul(t, n) => MboV::Mul(Box::new(mv(*t)), n),
        MboTerm::Add(ts) => MboV::Add(
            Seq::new(
                ts@.len(),
                |i: int|
                    if 0 <= i < ts@.len() {
                        mv(ts@[i])
                    } else {
                        MboV::OmegaTerm
                    },
            ),
        ),
    }
}

impl View for MboTerm {
    type V = MboV;

    open spec fn view(&self) -> MboV {
        mv(*self)
    }
}

/// The models of a list of terms.
pub open spec fn views(v: Seq<MboTerm>) -> Seq<MboV> {
    Seq::new(v.len(), |i: int| v[i]@)
}

proof fn lemma_add_view(v: Vec<MboTerm>)
    ensures
        MboTerm::Add(v)@ == MboV::Add(views(v@)),
{
    let s1 = Seq::new(
        v@.len(),
        |i: int|
            if 0 <= i < v@.len() {
                mv(v@[i])
            } else {
                MboV::OmegaTerm
            },
    );
    assert(s1 =~= views(v@));
    assert(mv(MboTerm::Add(v))->Add_0 == s1);
}

/// A deep copy.
pub fn clone_mbo(x: &MboTerm) -> (r: MboTerm)
    ensures
        r@ == x@,
    decreases x,
{
    match x {
        MboTerm::Nat(n) => MboTerm::Nat(*n),
        MboTerm::OmegaTerm => MboTerm::OmegaTerm,
        MboTerm::Omega(k) => MboTerm::Omega(*k),
        MboTerm::Mahlo(k) => MboTerm::Mahlo(*k),
        MboTerm::Psi { sub, arg } => MboTerm::Psi {
            sub: Box::new(clone_mbo(sub)),
            arg: Box::new(clone_mbo(arg)),
        },
        MboTerm::Mul(t, n) => MboTerm::Mul(Box::new(clone_mbo(t)), *n),
        MboTerm::Add(ts) => {
            let mut v: Vec<MboTerm> = Vec::new();
            let mut i: usize = 0;
            while i < ts.len()
                invariant
                    i <= ts@.len(),
                    *x is Add && (*x)->Add_0 == *ts,
                    views(v@) == views(ts@).take(i as int),
                decreases ts.len() - i,
            {
                proof {
                    assert(decreases_to!(*x => (*x)->Add_0@[i as int]));
                }
                let c = clone_mbo(&ts[i]);
                let ghost v0 = v@;
                v.push(c);
                i = i + 1;
                proof {
                    assert(views(v@) =~= views(v0).push(c@));
                    assert(views(v@) =~= views(ts@).take(i as int));
                }
            }
            proof {
                lemma_add_view(v);
                lemma_add_view(*ts);
                assert(views(ts@).take(ts@.len() as int) =~= views(ts@));
            }
            MboTerm::Add(v)
        },
    }
}

// ============================================================
// Printing
// ============================================================

/// LaTeX form, which the parser reads back.
pub open spec fn mbo_latex(x: MboV) -> Seq<char>
    decreases x,
{
    match x {
        MboV::Nat(n) => nat_str(n as nat),
        MboV::OmegaTerm => "\\omega"@,
        MboV::Omega(k) => match k {
            None => "\\Omega"@,
            Some(n) => "\\Omega_{"@ + nat_str(n as nat) + "}"@,
        },
        MboV::Mahlo(k) => match k {
            None => "M"@,
            Some(n) => "M_{"@ + nat_str(n as nat) + "}"@,
        },
        MboV::Psi(s, a) => "\\psi_{"@ + mbo_latex(*s) + "}("@ + mbo_latex(*a) + ")"@,
        MboV::Mul(t, n) => (if (*t is Add) || (*t is Mul) {
            "("@ + mbo_latex(*t) + ")"@
        } else {
            mbo_latex(*t)
        }) + " \\times "@ + nat_str(n as nat),
        MboV::Add(ts) => join_latex(ts),
    }
}

/// The summands' LaTeX forms joined by " + ", a summand that is itself a
/// sum in brackets.
pub open spec fn join_latex(ts: Seq<MboV>) -> Seq<char>
    decreases ts,
{
    if ts.len() == 0 {
        Seq::empty()
    } else {
        let t = ts[ts.len() - 1];
        let last = if t is Add {
            "("@ + mbo_latex(t) + ")"@
        } else {
            mbo_latex(t)
        };
        if ts.len() == 1 {
            last
        } else {
            join_latex(ts.subrange(0, ts.len() - 1)) + " + "@ + last
        }
    }
}

impl MboTerm {
    /// The LaTeX form of the term.
    pub fn to_latex(&self) -> (r: String)
        ensures
            r@ == mbo_latex(self@),
        decreases self,
    {
        let mut s = String::new();
        match self {
            MboTerm::Nat(n) => {
                push_nat(&mut s, *n);
            },
            MboTerm::OmegaTerm => {
                s.append("\\omega");
            },
            MboTerm::Omega(k) => match k {
                None => {
                    s.append("\\Omega");
                },
                Some(n) => {
                    s.append("\\Omega_{");
                    push_nat(&mut s, *n);
                    s.append("}");
                },
            },
            MboTerm::Mahlo(k) => match k {
                None => {
                    s.append("M");
                },
                Some(n) => {
                    s.append("M_{");
                    push_nat(&mut s, *n);
                    s.append("}");
                },
            },
            MboTerm::Psi { sub, arg } => {
                let a = sub.to_latex();
                let b = arg.to_latex();
                s.append("\\psi_{");
                push_string(&mut s, &a);
                s.append("}(");
                push_string(&mut s, &b);
                s.append(")");
            },
            MboTerm::Mul(t, n) => {
                let a = t.to_latex();
                let bracket = matches!(**t, MboTerm::Add(_)) || matches!(**t, MboTerm::Mul(_, _));
                if bracket {
                    s.append("(");
                }
                push_string(&mut s, &a);
                if bracket {
                    s.append(")");
                }
                s.append(" \\times ");
                push_nat(&mut s, *n);
            },
            MboTerm::Add(terms) => {
                let ghost vs = views(terms@);
                let mut i: usize = 0;
                while i < terms.len()
                    invariant
                        i <= terms@.len(),
                        *self is Add && (*self)->Add_0 == *terms,
                        vs == views(terms@),
                        s@ == join_latex(vs.take(i as int)),
                    decreases terms.len() - i,
                {
                    proof {
                        assert(decreases_to!(*self => (*self)->Add_0@[i as int]));
                        assert(vs.take(i + 1).subrange(0, i as int) =~= vs.take(i as int));
                    }
                    let p = terms[i].to_latex();
                    let bracket = matches!(terms[i], MboTerm::Add(_));
                    if i > 0 {
                        s.append(" + ");
                    }
                    if bracket {
                        s.append("(");
                    }
                    push_string(&mut s, &p);
                    if bracket {
                        s.append(")");
                    }
                    i = i + 1;
                    proof {
                        assert(s@ =~= join_latex(vs.take(i as int)));
                    }
                }
                proof {
                    lemma_add_view(*terms);
                    assert(vs.take(terms@.len() as int) =~= vs);
                }
            },
        }
        proof {
            assert(s@ =~= mbo_latex(self@));
        }
        s
    }
}

/// The models of a list of strings.
pub open spec fn strs(v: Seq<String>) -> Seq<Seq<char>> {
    Seq::new(v.len(), |i: int| v[i]@)
}

/// The indented tree of a term, one line per node, each prefixed by `pad`;
/// children are indented by two more spaces.
pub open spec fn ast_lines(x: MboV, pad: Seq<char>) -> Seq<Seq<char>>
    decreases x,
{
    match x {
        MboV::Nat(n) => seq![pad + "Nat("@ + nat_str(n as nat) + ")"@],
        MboV::OmegaTerm => seq![pad + "omega"@],
        MboV::Omega(k) => match k {
            None => seq![pad + "Omega"@],
            Some(n) => seq![pad + "Omega_"@ + nat_str(n as nat)],
        },
        MboV::Mahlo(k) => match k {
            None => seq![pad + "Mahlo"@],
            Some(n) => seq![pad + "Mahlo_"@ + nat_str(n as nat)],
        },
        MboV::Psi(s, a) => seq![pad + "Psi"@, pad + "  sub:"@] + ast_lines(*s, pad + "  "@)
            + seq![pad + "  arg:"@] + ast_lines(*a, pad + "  "@),
        MboV::Mul(t, n) => seq![pad + "Mul("@ + nat_str(n as nat) + ")"@] + ast_lines(
            *t,
            pad + "  "@,
        ),
        MboV::Add(ts) => seq![pad + "Add"@] + lines_all(ts, pad + "  "@),
    }
}

/// The trees of the summands, one after another.
pub open spec fn lines_all(ts: Seq<MboV>, pad: Seq<char>) -> Seq<Seq<char>>
    decreases ts,
{
    if ts.len() == 0 {
        Seq::empty()
    } else {
        lines_all(ts.subrange(0, ts.len() - 1), pad) + ast_lines(ts[ts.len() - 1], pad)
    }
}

fn push_line(out: &mut Vec<String>, pad: &String, text: &str)
    ensures
        strs(final(out)@) == strs(old(out)@).push(pad@ + text@),
{
    let mut l = String::new();
    push_string(&mut l, pad);
    l.append(text);
    let ghost o = old(out)@;
    out.push(l);
    proof {
        assert(strs(out@) =~= strs(o).push(pad@ + text@));
    }
}

impl MboTerm {
    fn collect_lines(&self, pad: &String, out: &mut Vec<String>)
        ensures
            strs(final(out)@) == strs(old(out)@) + ast_lines(self@, pad@),
        decreases self,
    {
        let ghost o = strs(old(out)@);
        let mut inner = String::new();
        push_string(&mut inner, pad);
        inner.append("  ");
        match self {
            MboTerm::Nat(n) => {
                let mut l = String::new();
                push_string(&mut l, pad);
                l.append("Nat(");
                push_nat(&mut l, *n);
                l.append(")");
                out.push(l);
            },
            MboTerm::OmegaTerm => {
                push_line(out, pad, "omega");
            },
            MboTerm::Omega(k) => match k {
                None => {
                    push_line(out, pad, "Omega");
                },
                Some(n) => {
                    let mut l = String::new();
                    push_string(&mut l, pad);
                    l.append("Omega_");
                    push_nat(&mut l, *n);
                    out.push(l);
                },
            },
            MboTerm::Mahlo(k) => match k {
                None => {
                    push_line(out, pad, "Mahlo");
                },
                Some(n) => {
                    let mut l = String::new();
                    push_string(&mut l, pad);
                    l.append("Mahlo_");
                    push_nat(&mut l, *n);
                    out.push(l);
                },
            },
            MboTerm::Psi { sub, arg } => {
                push_line(out, pad, "Psi");
                push_line(out, pad, "  sub:");
                sub.collect_lines(&inner, out);
                push_line(out, pad, "  arg:");
                arg.collect_lines(&inner, out);
            },
            MboTerm::Mul(t, n) => {
                let mut l = String::new();
                push_string(&mut l, pad);
                l.append("Mul(");
                push_nat(&mut l, *n);
                l.append(")");
                out.push(l);
                t.collect_lines(&inner, out);
            },
            MboTerm::Add(terms) => {
                push_line(out, pad, "Add");
                let ghost vs = views(terms@);
                let ghost o1 = strs(out@);
                let mut i: usize = 0;
                while i < terms.len()
                    invariant
                        i <= terms@.len(),
                        *self is Add && (*self)->Add_0 == *terms,
                        vs == views(terms@),
                        strs(out@) == o1 + lines_all(vs.take(i as int), inner@),
                    decreases terms.len() - i,
                {
                    proof {
                        assert(decreases_to!(*self => (*self)->Add_0@[i as int]));
                        assert(vs.take(i + 1).subrange(0, i as int) =~= vs.take(i as int));
                    }
                    terms[i].collect_lines(&inner, out);
                    i = i + 1;
                    proof {
                        assert(strs(out@) =~= o1 + lines_all(vs.take(i as int), inner@));
                    }
                }
                proof {
                    lemma_add_view(*terms);
                    assert(vs.take(terms@.len() as int) =~= vs);
                }
            },
        }
        proof {
            assert(strs(out@) =~= o + ast_lines(self@, pad@));
        }
    }

    /// The term as an indented tree, one line per node.
    pub fn to_ast_lines(&self) -> (r: Vec<String>)
        ensures
            strs(r@) == ast_lines(self@, Seq::empty()),
    {
        let mut lines: Vec<String> = Vec::new();
        let pad = String::new();
        self.collect_lines(&pad, &mut lines);
        proof {
            assert(strs(lines@) =~= ast_lines(self@, Seq::empty()));
        }
        lines
    }
}

// ============================================================
// Canonical form
// ============================================================

/// `k` copies of `x`.
pub open spec fn reps(x: MboV, k: nat) -> Seq<MboV> {
    Seq::new(k, |i: int| x)
}

pub open spec fn mahlo_psi() -> MboV {
    MboV::Psi(Box::new(MboV::Mahlo(None)), Box::new(MboV::Mahlo(None)))
}

/// A canonical summand list contributes its summands, anything else itself.
pub open spec fn pieces(c: MboV) -> Seq<MboV> {
    match c {
        MboV::Add(inner) => inner,
        _ => seq![c],
    }
}

/// Canonical form: the sugar undone (Ω → ψ_M(M), Ω_n → ψ_M(M × n),
/// ω → ψ_Ω(1)), products and numerals above 1 split into repeated
/// summands, nested sums flattened (a product of a sum repeats the sum's
/// summands); order is kept.
pub open spec fn canon(x: MboV) -> MboV
    decreases x,
{
    match x {
        MboV::Omega(k) => match k {
            None => mahlo_psi(),
            Some(n) => MboV::Psi(
                Box::new(MboV::Mahlo(None)),
                Box::new(MboV::Add(reps(MboV::Mahlo(None), (n as usize) as nat))),
            ),
        },
        MboV::OmegaTerm => MboV::Psi(Box::new(mahlo_psi()), Box::new(MboV::Nat(1))),
        MboV::Mul(t, n) => MboV::Add(cycle(pieces(canon(*t)), (n as usize) as nat)),
        MboV::Nat(n) => if n > 1 {
            MboV::Add(reps(MboV::Nat(1), (n as usize) as nat))
        } else {
            MboV::Nat(n)
        },
        MboV::Mahlo(k) => MboV::Mahlo(k),
        MboV::Add(ts) => MboV::Add(canon_all(ts)),
        MboV::Psi(s, a) => MboV::Psi(Box::new(canon(*s)), Box::new(canon(*a))),
    }
}

/// The canonical forms of the summands, flattened.
pub open spec fn canon_all(ts: Seq<MboV>) -> Seq<MboV>
    decreases ts,
{
    if ts.len() == 0 {
        Seq::empty()
    } else {
        canon_all(ts.subrange(0, ts.len() - 1)) + pieces(canon(ts[ts.len() - 1]))
    }
}

/// No sum, at any depth, has a sum as a direct summand.
pub open spec fn no_nested_sum(x: MboV) -> bool
    decreases x,
{
    match x {
        MboV::Add(ts) => forall|i: int|
            0 <= i < ts.len() ==> !(#[trigger] ts[i] is Add) && no_nested_sum(ts[i]),
        MboV::Psi(s, a) => no_nested_sum(*s) && no_nested_sum(*a),
        MboV::Mul(t, _) => no_nested_sum(*t),
        _ => true,
    }
}

/// Summands that are no sums and hold no nested sum.
pub open spec fn flat_summands(ts: Seq<MboV>) -> bool {
    forall|i: int| 0 <= i < ts.len() ==> !(#[trigger] ts[i] is Add) && no_nested_sum(ts[i])
}

proof fn lemma_cycle_flat(p: Seq<MboV>, k: nat)
    requires
        flat_summands(p),
    ensures
        flat_summands(cycle(p, k)),
    decreases k,
{
    if k > 0 {
        lemma_cycle_flat(p, (k - 1) as nat);
        let c = cycle(p, (k - 1) as nat);
        assert forall|i: int| 0 <= i < (c + p).len() implies !(#[trigger] (c + p)[i] is Add)
            && no_nested_sum((c + p)[i]) by {
            if i < c.len() {
                assert((c + p)[i] == c[i]);
            } else {
                assert((c + p)[i] == p[i - c.len()]);
            }
        }
    }
}

proof fn lemma_pieces_flat(c: MboV)
    requires
        no_nested_sum(c),
    ensures
        flat_summands(pieces(c)),
{
    match c {
        MboV::Add(inner) => {},
        _ => {
            assert(pieces(c) =~= seq![c]);
        },
    }
}

proof fn lemma_canon_all_flat(ts: Seq<MboV>)
    ensures
        flat_summands(canon_all(ts)),
    decreases ts, 0nat,
{
    if ts.len() > 0 {
        let init = ts.subrange(0, ts.len() - 1);
        assert(decreases_to!(ts => ts[ts.len() - 1]));
        lemma_canon_all_flat(init);
        lemma_canon_flat(ts[ts.len() - 1]);
        lemma_pieces_flat(canon(ts[ts.len() - 1]));
        let a = canon_all(init);
        let b = pieces(canon(ts[ts.len() - 1]));
        assert forall|i: int| 0 <= i < (a + b).len() implies !(#[trigger] (a + b)[i] is Add)
            && no_nested_sum((a + b)[i]) by {
            if i < a.len() {
                assert((a + b)[i] == a[i]);
            } else {
                assert((a + b)[i] == b[i - a.len()]);
            }
        }
    }
}

/// The canonical form has its sums flattened: no sum, at any depth, has a
/// sum as a direct summand.
pub proof fn lemma_canon_flat(x: MboV)
    ensures
        no_nested_sum(canon(x)),
    decreases x, 1nat,
{
    match x {
        MboV::Omega(k) => match k {
            None => {
                assert(no_nested_sum(MboV::Mahlo(None)));
                assert(no_nested_sum(mahlo_psi()));
            },
            Some(n) => {
                let r = reps(MboV::Mahlo(None), (n as usize) as nat);
                assert forall|i: int| 0 <= i < r.len() implies !(#[trigger] r[i] is Add)
                    && no_nested_sum(r[i]) by {}
                assert(no_nested_sum(MboV::Add(r)));
                assert(no_nested_sum(MboV::Mahlo(None)));
                assert(canon(x) == MboV::Psi(Box::new(MboV::Mahlo(None)), Box::new(MboV::Add(r))));
            },
        },
        MboV::OmegaTerm => {
            assert(no_nested_sum(MboV::Mahlo(None)));
            assert(no_nested_sum(mahlo_psi()));
            assert(no_nested_sum(MboV::Nat(1)));
        },
        MboV::Mul(t, n) => {
            lemma_canon_flat(*t);
            lemma_pieces_flat(canon(*t));
            lemma_cycle_flat(pieces(canon(*t)), (n as usize) as nat);
        },
        MboV::Nat(n) => {
            if n > 1 {
                let r = reps(MboV::Nat(1), (n as usize) as nat);
                assert forall|i: int| 0 <= i < r.len() implies !(#[trigger] r[i] is Add)
                    && no_nested_sum(r[i]) by {}
            }
        },
        MboV::Mahlo(k) => {},
        MboV::Add(ts) => {
            lemma_canon_all_flat(ts);
        },
        MboV::Psi(s, a) => {
            lemma_canon_flat(*s);
            lemma_canon_flat(*a);
        },
    }
}

/// `k` copies of `p`, one after another.
pub open spec fn cycle(p: Seq<MboV>, k: nat) -> Seq<MboV>
    decreases k,
{
    if k == 0 {
        Seq::empty()
    } else {
        cycle(p, (k - 1) as nat) + p
    }
}

/// `k` copies of the summands of `x` (of `x` itself where it is no sum),
/// as one flat sum.
fn repeat_pieces(x: &MboTerm, k: usize) -> (r: MboTerm)
    ensures
        r@ == MboV::Add(cycle(pieces(x@), k as nat)),
{
    let mut p: Vec<MboTerm> = Vec::new();
    match x {
        MboTerm::Add(inner) => {
            proof {
                lemma_add_view(*inner);
            }
            let mut j: usize = 0;
            while j < inner.len()
                invariant
                    j <= inner@.len(),
                    x@ == MboV::Add(views(inner@)),
                    views(p@) == views(inner@).take(j as int),
                decreases inner.len() - j,
            {
                let d = clone_mbo(&inner[j]);
                let ghost p0 = p@;
                p.push(d);
                j = j + 1;
                proof {
                    assert(views(p@) =~= views(p0).push(d@));
                    assert(views(p@) =~= views(inner@).take(j as int));
                }
            }
            proof {
                assert(views(inner@).take(inner@.len() as int) =~= views(inner@));
            }
        },
        _ => {
            let d = clone_mbo(x);
            p.push(d);
            proof {
                assert(views(p@) =~= seq![x@]);
            }
        },
    }
    let ghost pv = pieces(x@);
    assert(views(p@) == pv);
    let mut v: Vec<MboTerm> = Vec::new();
    let mut i: usize = 0;
    while i < k
        invariant
            i <= k,
            views(p@) == pv,
            views(v@) == cycle(pv, i as nat),
        decreases k - i,
    {
        let mut j: usize = 0;
        let ghost v0 = views(v@);
        while j < p.len()
            invariant
                j <= p@.len(),
                views(p@) == pv,
                views(v@) == v0 + pv.take(j as int),
            decreases p.len() - j,
        {
            let d = clone_mbo(&p[j]);
            let ghost g0 = v@;
            v.push(d);
            j = j + 1;
            proof {
                assert(views(v@) =~= views(g0).push(d@));
                assert(views(v@) =~= v0 + pv.take(j as int));
            }
        }
        i = i + 1;
        proof {
            assert(pv.take(p@.len() as int) =~= pv);
            assert(views(v@) =~= cycle(pv, i as nat));
        }
    }
    proof {
        lemma_add_view(v);
    }
    MboTerm::Add(v)
}

/// `k` copies of `x`, as a sum.
fn repeat_term(x: &MboTerm, k: usize) -> (r: MboTerm)
    ensures
        r@ == MboV::Add(reps(x@, k as nat)),
{
    let mut v: Vec<MboTerm> = Vec::new();
    let mut i: usize = 0;
    while i < k
        invariant
            i <= k,
            views(v@) == reps(x@, i as nat),
        decreases k - i,
    {
        let c = clone_mbo(x);
        let ghost v0 = v@;
        v.push(c);
        i = i + 1;
        proof {
            assert(views(v@) =~= views(v0).push(c@));
            assert(views(v@) =~= reps(x@, i as nat));
        }
    }
    proof {
        lemma_add_view(v);
    }
    MboTerm::Add(v)
}

fn mahlo_psi_term() -> (r: MboTerm)
    ensures
        r@ == mahlo_psi(),
{
    let m = MboTerm::Mahlo(None);
    let m2 = MboTerm::Mahlo(None);
    proof {
        assert(m@ == MboV::Mahlo(None));
        assert(m2@ == MboV::Mahlo(None));
    }
    MboTerm::Psi { sub: Box::new(m), arg: Box::new(m2) }
}

impl MboTerm {
    /// The canonical form of the term.
    pub fn canonicalize(&self) -> (r: MboTerm)
        ensures
            r@ == canon(self@),
        decreases self,
    {
        match self {
            MboTerm::Omega(None) => mahlo_psi_term(),
            MboTerm::Omega(Some(n)) => {
                let m = MboTerm::Mahlo(None);
                let m2 = MboTerm::Mahlo(None);
                let rep = repeat_term(&m, *n as usize);
                proof {
                    assert(m@ == MboV::Mahlo(None));
                    assert(m2@ == MboV::Mahlo(None));
                }
                MboTerm::Psi { sub: Box::new(m2), arg: Box::new(rep) }
            },
            MboTerm::OmegaTerm => {
                let one = MboTerm::Nat(1);
                proof {
                    assert(one@ == MboV::Nat(1));
                }
                MboTerm::Psi { sub: Box::new(mahlo_psi_term()), arg: Box::new(one) }
            },
            MboTerm::Mul(t, n) => {
                let ct = t.canonicalize();
                repeat_pieces(&ct, *n as usize)
            },
            MboTerm::Nat(n) => {
                if *n > 1 {
                    let one = MboTerm::Nat(1);
                    proof {
                        assert(one@ == MboV::Nat(1));
                    }
                    repeat_term(&one, *n as usize)
                } else {
                    MboTerm::Nat(*n)
                }
            },
            MboTerm::Mahlo(k) => MboTerm::Mahlo(*k),
            MboTerm::Add(terms) => {
                let ghost vs = views(terms@);
                let mut flat: Vec<MboTerm> = Vec::new();
                let mut i: usize = 0;
                while i < terms.len()
                    invariant
                        i <= terms@.len(),
                        *self is Add && (*self)->Add_0 == *terms,
                        vs == views(terms@),
                        views(flat@) == canon_all(vs.take(i as int)),
                    decreases terms.len() - i,
                {
                    proof {
                        assert(decreases_to!(*self => (*self)->Add_0@[i as int]));
                        assert(vs.take(i + 1).subrange(0, i as int) =~= vs.take(i as int));
                    }
                    let c = terms[i].canonicalize();
                    let ghost f0 = views(flat@);
                    match c {
                        MboTerm::Add(inner) => {
                            let ghost iv = views(inner@);
                            proof {
                                lemma_add_view(inner);
                            }
                            let mut j: usize = 0;
                            while j < inner.len()
                                invariant
                                    j <= inner@.len(),
                                    iv == views(inner@),
                                    views(flat@) == f0 + iv.take(j as int),
                                decreases inner.len() - j,
                            {
                                let d = clone_mbo(&inner[j]);
                                let ghost g0 = flat@;
                                flat.push(d);
                                j = j + 1;
                                proof {
                                    assert(views(flat@) =~= views(g0).push(d@));
                                    assert(views(flat@) =~= f0 + iv.take(j as int));
                                }
                            }
                            proof {
                                assert(iv.take(inner@.len() as int) =~= iv);
                            }
                        },
                        other => {
                            let ghost ov = other@;
                            flat.push(other);
                            proof {
                                assert(views(flat@) =~= f0.push(ov));
                                assert(pieces(ov) == seq![ov]);
                            }
                        },
                    }
                    i = i + 1;
                    proof {
                        assert(views(flat@) =~= canon_all(vs.take(i as int)));
                    }
                }
                proof {
                    lemma_add_view(flat);
                    lemma_add_view(*terms);
                    assert(vs.take(terms@.len() as int) =~= vs);
                }
                MboTerm::Add(flat)
            },
            MboTerm::Psi { sub, arg } => MboTerm::Psi {
                sub: Box::new(sub.canonicalize()),
                arg: Box::new(arg.canonicalize()),
            },
        }
    }
}

// ============================================================
// Tokens
// ============================================================

#[derive(Clone, Copy, Debug, PartialEq, Eq, Structural)]
pub enum Tok {
    Num(u64),
    Psi,
    Omega,
    OmegaTerm,
    Mahlo,
    Times,
    Plus,
    LParen,
    RParen,
    LBrace,
    RBrace,
    Sub,
}

pub open spec fn is_alpha(c: char) -> bool {
    ('a' <= c && c <= 'z') || ('A' <= c && c <= 'Z')
}

/// End of the run of ASCII letters starting at `i`.
pub open spec fn alpha_end(s: Seq<char>, i: int) -> int
    decreases s.len() - i,
{
    if 0 <= i < s.len() && is_alpha(s[i]) {
        alpha_end(s, i + 1)
    } else {
        i
    }
}

pub proof fn lemma_alpha_end(s: Seq<char>, i: int)
    requires
        0 <= i,
    ensures
        i <= alpha_end(s, i),
        i <= s.len() ==> alpha_end(s, i) <= s.len(),
        i > s.len() ==> alpha_end(s, i) == i,
    decreases s.len() - i,
{
    if 0 <= i < s.len() && is_alpha(s[i]) {
        lemma_alpha_end(s, i + 1);
    }
}

/// Decimal value of `s[from..to]`, saturating at `u64::MAX` digit by digit.
pub open spec fn sat_val(s: Seq<char>, from: int, to: int) -> int
    decreases to - from,
{
    if to <= from {
        0
    } else {
        let v = sat_val(s, from, to - 1) * 10 + (s[to - 1] as int - '0' as int);
        if v > u64::MAX {
            u64::MAX as int
        } else {
            v
        }
    }
}

/// The token a LaTeX command name stands for.
pub open spec fn latex_tok(name: Seq<char>) -> Option<Tok> {
    if name == "psi"@ {
        Some(Tok::Psi)
    } else if name == "Omega"@ {
        Some(Tok::Omega)
    } else if name == "omega"@ {
        Some(Tok::OmegaTerm)
    } else if name == "times"@ {
        Some(Tok::Times)
    } else {
        None
    }
}

/// The token a single character stands for.
pub open spec fn single_tok(c: char) -> Option<Tok> {
    if c == 'ψ' {
        Some(Tok::Psi)
    } else if c == 'Ω' {
        Some(Tok::Omega)
    } else if c == 'ω' {
        Some(Tok::OmegaTerm)
    } else if c == 'M' {
        Some(Tok::Mahlo)
    } else if c == '+' {
        Some(Tok::Plus)
    } else if c == '×' || c == '*' {
        Some(Tok::Times)
    } else if c == '(' {
        Some(Tok::LParen)
    } else if c == ')' {
        Some(Tok::RParen)
    } else if c == '{' {
        Some(Tok::LBrace)
    } else if c == '}' {
        Some(Tok::RBrace)
    } else if c == '_' {
        Some(Tok::Sub)
    } else {
        None
    }
}

pub open spec fn prepend_toks(p: Seq<Tok>, r: Result<Seq<Tok>, Seq<char>>) -> Result<Seq<Tok>, Seq<char>> {
    match r {
        Ok(ts) => Ok(p + ts),
        Err(e) => Err(e),
    }
}

/// The tokens of `cs[i..]`, whitespace skipped.
pub open spec fn toks_from(cs: Seq<char>, i: int) -> Result<Seq<Tok>, Seq<char>>
    decreases cs.len() - i,
{
    if i < 0 || i >= cs.len() {
        Ok(Seq::empty())
    } else {
        let c = cs[i];
        if spec_is_ws(c) {
            toks_from(cs, i + 1)
        } else if is_digit(c) {
            let e = digits_end(cs, i);
            if e <= i || e > cs.len() {
                Err(Seq::empty())
            } else {
                prepend_toks(seq![Tok::Num(sat_val(cs, i, e) as u64)], toks_from(cs, e))
            }
        } else if c == '\\' {
            let e = alpha_end(cs, i + 1);
            if e <= i || e > cs.len() {
                Err(Seq::empty())
            } else {
                match latex_tok(cs.subrange(i + 1, e)) {
                    Some(t) => prepend_toks(seq![t], toks_from(cs, e)),
                    None => Err("unknown LaTeX command \\"@ + cs.subrange(i + 1, e)),
                }
            }
        } else {
            match single_tok(c) {
                Some(t) => prepend_toks(seq![t], toks_from(cs, i + 1)),
                None => Err("unexpected character `"@ + seq![c] + "`"@),
            }
        }
    }
}

proof fn lemma_prepend_assoc(a: Seq<Tok>, b: Seq<Tok>, r: Result<Seq<Tok>, Seq<char>>)
    ensures
        prepend_toks(a, prepend_toks(b, r)) == prepend_toks(a + b, r),
{
    match r {
        Ok(ts) => {
            assert(a + (b + ts) =~= (a + b) + ts);
        },
        Err(_) => {},
    }
}

fn single_tok_exec(c: char) -> (r: Option<Tok>)
    ensures
        r == single_tok(c),
{
    if c == 'ψ' {
        Some(Tok::Psi)
    } else if c == 'Ω' {
        Some(Tok::Omega)
    } else if c == 'ω' {
        Some(Tok::OmegaTerm)
    } else if c == 'M' {
        Some(Tok::Mahlo)
    } else if c == '+' {
        Some(Tok::Plus)
    } else if c == '×' || c == '*' {
        Some(Tok::Times)
    } else if c == '(' {
        Some(Tok::LParen)
    } else if c == ')' {
        Some(Tok::RParen)
    } else if c == '{' {
        Some(Tok::LBrace)
    } else if c == '}' {
        Some(Tok::RBrace)
    } else if c == '_' {
        Some(Tok::Sub)
    } else {
        None
    }
}

fn latex_tok_exec(name: &String) -> (r: Option<Tok>)
    ensures
        r == latex_tok(name@),
{
    if *name == lit("psi") {
        Some(Tok::Psi)
    } else if *name == lit("Omega") {
        Some(Tok::Omega)
    } else if *name == lit("omega") {
        Some(Tok::OmegaTerm)
    } else if *name == lit("times") {
        Some(Tok::Times)
    } else {
        None
    }
}

/// Split the input into tokens.
fn tokenize(cs: &Vec<char>) -> (r: Result<Vec<Tok>, String>)
    ensures
        match r {
            Ok(v) => toks_from(cs@, 0) == Ok::<Seq<Tok>, Seq<char>>(v@),
            Err(m) => toks_from(cs@, 0) == Err::<Seq<Tok>, Seq<char>>(m@),
        },
{
    let mut toks: Vec<Tok> = Vec::new();
    let mut i: usize = 0;
    proof {
        assert(toks@ + Seq::<Tok>::empty() =~= toks@);
        match toks_from(cs@, 0) {
            Ok(ts) => {
                assert(Seq::<Tok>::empty() + ts =~= ts);
            },
            Err(_) => {},
        }
    }
    while i < cs.len()
        invariant
            i <= cs@.len(),
            toks_from(cs@, 0) == prepend_toks(toks@, toks_from(cs@, i as int)),
        decreases cs.len() - i,
    {
        let c = cs[i];
        if is_ws(c) {
            proof {
                assert(toks_from(cs@, i as int) == toks_from(cs@, i + 1));
            }
            i = i + 1;
        } else if is_digit_char(c) {
            proof {
                lemma_digits_end(cs@, i as int);
            }
            let mut j: usize = i;
            let mut n: u64 = 0;
            while j < cs.len() && is_digit_char(cs[j])
                invariant
                    i <= j <= cs@.len(),
                    digits_end(cs@, j as int) == digits_end(cs@, i as int),
                    n == sat_val(cs@, i as int, j as int),
                decreases cs.len() - j,
            {
                let d = digit_of(cs[j]) as u64;
                let m: u64 = if n > 1844674407370955161 {
                    u64::MAX
                } else {
                    n * 10
                };
                n = m.saturating_add(d);
                j = j + 1;
            }
            proof {
                assert(j as int == digits_end(cs@, i as int));
                assert(0 <= sat_val(cs@, i as int, j as int) <= u64::MAX);
                assert(toks_from(cs@, i as int) == prepend_toks(
                    seq![Tok::Num(n)],
                    toks_from(cs@, j as int),
                ));
                lemma_prepend_assoc(toks@, seq![Tok::Num(n)], toks_from(cs@, j as int));
            }
            let ghost t0 = toks@;
            toks.push(Tok::Num(n));
            proof {
                assert(toks@ =~= t0 + seq![Tok::Num(n)]);
            }
            i = j;
        } else if c == '\\' {
            proof {
                lemma_alpha_end(cs@, i + 1);
            }
            let mut j: usize = i + 1;
            while j < cs.len() && (('a' <= cs[j] && cs[j] <= 'z') || ('A' <= cs[j] && cs[j] <= 'Z'))
                invariant
                    i + 1 <= j <= cs@.len(),
                    alpha_end(cs@, j as int) == alpha_end(cs@, i + 1),
                decreases cs.len() - j,
            {
                j = j + 1;
            }
            let mut name = String::new();
            let mut k: usize = i + 1;
            while k < j
                invariant
                    i + 1 <= k <= j <= cs@.len(),
                    name@ == cs@.subrange(i + 1, k as int),
                decreases j - k,
            {
                push_char(&mut name, cs[k]);
                k = k + 1;
                proof {
                    assert(name@ =~= cs@.subrange(i + 1, k as int));
                }
            }
            match latex_tok_exec(&name) {
                Some(t) => {
                    proof {
                        assert(j as int == alpha_end(cs@, i + 1));
                        assert(toks_from(cs@, i as int) == prepend_toks(
                            seq![t],
                            toks_from(cs@, j as int),
                        ));
                        lemma_prepend_assoc(toks@, seq![t], toks_from(cs@, j as int));
                    }
                    let ghost t0 = toks@;
                    toks.push(t);
                    proof {
                        assert(toks@ =~= t0 + seq![t]);
                    }
                    i = j;
                },
                None => {
                    let mut m = lit("unknown LaTeX command \\");
                    push_string(&mut m, &name);
                    return Err(m);
                },
            }
        } else {
            match single_tok_exec(c) {
                Some(t) => {
                    proof {
                        assert(!spec_is_ws(c) && !is_digit(c) && c != '\\');
                        assert(toks_from(cs@, i as int) == prepend_toks(seq![t], toks_from(cs@, i + 1)));
                        lemma_prepend_assoc(toks@, seq![t], toks_from(cs@, i + 1));
                    }
                    let ghost t0 = toks@;
                    toks.push(t);
                    proof {
                        assert(toks@ =~= t0 + seq![t]);
                    }
                    i = i + 1;
                },
                None => {
                    let mut m = lit("unexpected character `");
                    push_char(&mut m, c);
                    m.append("`");
                    proof {
                        assert(m@ =~= "unexpected character `"@ + seq![c] + "`"@);
                    }
                    return Err(m);
                },
            }
        }
    }
    proof {
        assert(toks@ + Seq::<Tok>::empty() =~= toks@);
    }
    Ok(toks)
}

// ============================================================
// Parsing
// ============================================================

pub open spec fn tok_at(ts: Seq<Tok>, i: int) -> Option<Tok> {
    if 0 <= i < ts.len() {
        Some(ts[i])
    } else {
        None
    }
}

/// An optional numeric subscript `_n` or `_{n}` at `i`.
pub open spec fn m_opt_sub(ts: Seq<Tok>, i: int) -> Result<(Option<u64>, int), Seq<char>> {
    if tok_at(ts, i) == Some(Tok::Sub) {
        if tok_at(ts, i + 1) == Some(Tok::LBrace) {
            match tok_at(ts, i + 2) {
                Some(Tok::Num(n)) => if tok_at(ts, i + 3) == Some(Tok::RBrace) {
                    Ok((Some(n), i + 4))
                } else {
                    Err("expected `}` in subscript"@)
                },
                _ => Err("expected a natural number in subscript"@),
            }
        } else {
            match tok_at(ts, i + 1) {
                Some(Tok::Num(n)) => Ok((Some(n), i + 2)),
                _ => Err("expected a natural number in subscript"@),
            }
        }
    } else {
        Ok((None, i))
    }
}

/// `expr := mul { '+' mul }`
pub open spec fn m_expr(ts: Seq<Tok>, i: int) -> Result<(MboV, int), Seq<char>>
    decreases ts.len() - i, 3nat,
{
    match m_mul(ts, i) {
        Err(e) => Err(e),
        Ok(r) => if !(i < r.1 <= ts.len()) {
            Err(Seq::empty())
        } else {
            m_rest(ts, r.1, seq![r.0])
        },
    }
}

/// The `'+' mul` repetitions after the summands `parts`.
pub open spec fn m_rest(ts: Seq<Tok>, i: int, parts: Seq<MboV>) -> Result<(MboV, int), Seq<char>>
    decreases ts.len() - i, 4nat,
{
    if tok_at(ts, i) == Some(Tok::Plus) {
        match m_mul(ts, i + 1) {
            Err(e) => Err(e),
            Ok(r) => if !(i + 1 < r.1 <= ts.len()) {
                Err(Seq::empty())
            } else {
                m_rest(ts, r.1, parts.push(r.0))
            },
        }
    } else {
        Ok(
            (
                if parts.len() == 1 {
                    parts[0]
                } else {
                    MboV::Add(parts)
                },
                i,
            ),
        )
    }
}

/// `mul := atom [ '×' num ]`
pub open spec fn m_mul(ts: Seq<Tok>, i: int) -> Result<(MboV, int), Seq<char>>
    decreases ts.len() - i, 2nat,
{
    match m_atom(ts, i) {
        Err(e) => Err(e),
        Ok(r) => if tok_at(ts, r.1) == Some(Tok::Times) {
            match tok_at(ts, r.1 + 1) {
                Some(Tok::Num(n)) => Ok((MboV::Mul(Box::new(r.0), n), r.1 + 2)),
                _ => Err("expected a natural number after ×"@),
            }
        } else {
            Ok(r)
        },
    }
}

pub open spec fn m_atom(ts: Seq<Tok>, i: int) -> Result<(MboV, int), Seq<char>>
    decreases ts.len() - i, 1nat,
{
    match tok_at(ts, i) {
        Some(Tok::Num(n)) => Ok((MboV::Nat(n), i + 1)),
        Some(Tok::OmegaTerm) => Ok((MboV::OmegaTerm, i + 1)),
        Some(Tok::Omega) => match m_opt_sub(ts, i + 1) {
            Err(e) => Err(e),
            Ok(r) => Ok((MboV::Omega(r.0), r.1)),
        },
        Some(Tok::Mahlo) => match m_opt_sub(ts, i + 1) {
            Err(e) => Err(e),
            Ok(r) => Ok((MboV::Mahlo(r.0), r.1)),
        },
        Some(Tok::LParen) => match m_expr(ts, i + 1) {
            Err(e) => Err(e),
            Ok(r) => if tok_at(ts, r.1) == Some(Tok::RParen) {
                Ok((r.0, r.1 + 1))
            } else {
                Err("expected `)`"@)
            },
        },
        Some(Tok::Psi) => m_psi(ts, i + 1),
        _ => Err("expected a term"@),
    }
}

/// The subscript of a ψ whose token ends before `i` (Ω when there is none).
pub open spec fn m_psi_sub(ts: Seq<Tok>, i: int) -> Result<(MboV, int), Seq<char>>
    decreases ts.len() - i, 5nat,
{
    if tok_at(ts, i) == Some(Tok::Sub) {
        if tok_at(ts, i + 1) == Some(Tok::LBrace) {
            match m_expr(ts, i + 2) {
                Err(e) => Err(e),
                Ok(r) => if tok_at(ts, r.1) == Some(Tok::RBrace) {
                    Ok((r.0, r.1 + 1))
                } else {
                    Err("expected `}` in ψ subscript"@)
                },
            }
        } else {
            m_atom(ts, i + 1)
        }
    } else {
        Ok((MboV::Omega(None), i))
    }
}

/// `ψ_sub(arg)` after the ψ token, which ends before `i`.
pub open spec fn m_psi(ts: Seq<Tok>, i: int) -> Result<(MboV, int), Seq<char>>
    decreases ts.len() - i, 6nat,
{
    match m_psi_sub(ts, i) {
        Err(e) => Err(e),
        Ok(s) => if !(i <= s.1 <= ts.len()) {
            Err(Seq::empty())
        } else if tok_at(ts, s.1) != Some(Tok::LParen) {
            Err("expected `(` after ψ subscript"@)
        } else {
            match m_expr(ts, s.1 + 1) {
                Err(e) => Err(e),
                Ok(a) => if tok_at(ts, a.1) == Some(Tok::RParen) {
                    Ok((MboV::Psi(Box::new(s.0), Box::new(a.0)), a.1 + 1))
                } else {
                    Err("expected `)` in ψ argument"@)
                },
            }
        },
    }
}

pub proof fn lemma_m_progress(ts: Seq<Tok>, i: int)
    requires
        0 <= i,
    ensures
        m_expr(ts, i) is Ok ==> i < m_expr(ts, i)->Ok_0.1 <= ts.len(),
        m_mul(ts, i) is Ok ==> i < m_mul(ts, i)->Ok_0.1 <= ts.len(),
        m_atom(ts, i) is Ok ==> i < m_atom(ts, i)->Ok_0.1 <= ts.len(),
        i <= ts.len() ==> (m_psi_sub(ts, i) is Ok ==> i <= m_psi_sub(ts, i)->Ok_0.1 <= ts.len()),
        i <= ts.len() ==> (m_psi(ts, i) is Ok ==> i < m_psi(ts, i)->Ok_0.1 <= ts.len()),
        forall|parts: Seq<MboV>|
            i <= ts.len() ==> (#[trigger] m_rest(ts, i, parts) is Ok ==> i <= m_rest(
                ts,
                i,
                parts,
            )->Ok_0.1 <= ts.len()),
    decreases ts.len() - i,
{
    if i < ts.len() {
        lemma_m_progress(ts, i + 1);
        if i + 2 <= ts.len() {
            lemma_m_progress(ts, i + 2);
        }
        match m_psi_sub(ts, i) {
            Err(_) => {},
            Ok(s) => {
                if i <= s.1 < ts.len() {
                    lemma_m_progress(ts, s.1 + 1);
                }
            },
        }
        match m_mul(ts, i) {
            Err(_) => {},
            Ok(r) => {
                if i < r.1 <= ts.len() {
                    lemma_m_progress(ts, r.1);
                    if m_rest(ts, r.1, seq![r.0]) is Ok {
                        assert(r.1 <= m_rest(ts, r.1, seq![r.0])->Ok_0.1 <= ts.len());
                    }
                }
            },
        }
        assert forall|parts: Seq<MboV>|
            #[trigger] m_rest(ts, i, parts) is Ok implies i <= m_rest(ts, i, parts)->Ok_0.1
            <= ts.len() by {
            if tok_at(ts, i) == Some(Tok::Plus) {
                match m_mul(ts, i + 1) {
                    Err(_) => {},
                    Ok(r) => {
                        if i + 1 < r.1 <= ts.len() {
                            lemma_m_progress(ts, r.1);
                            assert(m_rest(ts, r.1, parts.push(r.0)) is Ok);
                        }
                    },
                }
            }
        }
    } else {
        assert(m_atom(ts, i) is Err);
        assert(m_mul(ts, i) is Err);
        assert(m_expr(ts, i) is Err);
        if i == ts.len() {
            assert(m_psi_sub(ts, i) == Ok::<(MboV, int), Seq<char>>((MboV::Omega(None), i)));
            assert(m_psi(ts, i) is Err);
        }
    }
}

/// The whole input as one term.
pub open spec fn parse_mbocf_spec(input: Seq<char>) -> Result<MboV, Seq<char>> {
    match toks_from(input, 0) {
        Err(e) => Err(e),
        Ok(ts) => if ts.len() == 0 {
            Err("empty input"@)
        } else {
            match m_expr(ts, 0) {
                Err(e) => Err(e),
                Ok(r) => if r.1 != ts.len() {
                    Err("unexpected trailing input at position "@ + nat_str(r.1 as nat))
                } else {
                    Ok(r.0)
                },
            }
        },
    }
}

fn is_tok(ts: &Vec<Tok>, i: usize, t: Tok) -> (r: bool)
    ensures
        r == (tok_at(ts@, i as int) == Some(t)),
        r ==> i < ts@.len(),
        ts@.len() <= usize::MAX,
{
    i < ts.len() && ts[i] == t
}

fn opt_sub(ts: &Vec<Tok>, i: usize) -> (r: Result<(Option<u64>, usize), String>)
    requires
        i <= ts@.len(),
    ensures
        match r {
            Ok(y) => m_opt_sub(ts@, i as int) == Ok::<(Option<u64>, int), Seq<char>>(
                (y.0, y.1 as int),
            ) && y.1 <= ts@.len(),
            Err(m) => m_opt_sub(ts@, i as int) == Err::<(Option<u64>, int), Seq<char>>(m@),
        },
{
    if is_tok(ts, i, Tok::Sub) {
        if is_tok(ts, i + 1, Tok::LBrace) {
            if i + 2 < ts.len() {
                if let Tok::Num(n) = ts[i + 2] {
                    if is_tok(ts, i + 3, Tok::RBrace) {
                        return Ok((Some(n), i + 4));
                    }
                    return Err(lit("expected `}` in subscript"));
                }
            }
            Err(lit("expected a natural number in subscript"))
        } else {
            if i + 1 < ts.len() {
                if let Tok::Num(n) = ts[i + 1] {
                    return Ok((Some(n), i + 2));
                }
            }
            Err(lit("expected a natural number in subscript"))
        }
    } else {
        Ok((None, i))
    }
}

fn parse_expr_t(ts: &Vec<Tok>, i: usize) -> (r: Result<(MboTerm, usize), String>)
    requires
        i <= ts@.len(),
    ensures
        match r {
            Ok(y) => m_expr(ts@, i as int) == Ok::<(MboV, int), Seq<char>>((y.0@, y.1 as int)) && i
                < y.1 <= ts@.len(),
            Err(m) => m_expr(ts@, i as int) == Err::<(MboV, int), Seq<char>>(m@),
        },
    decreases ts@.len() - i, 3nat,
{
    proof {
        lemma_m_progress(ts@, i as int);
    }
    let first = match parse_mul_t(ts, i) {
        Err(m) => {
            return Err(m);
        },
        Ok(y) => y,
    };
    let mut parts: Vec<MboTerm> = Vec::new();
    parts.push(first.0);
    let mut k = first.1;
    proof {
        assert(views(parts@) =~= seq![first.0@]);
    }
    while is_tok(ts, k, Tok::Plus)
        invariant
            i < k <= ts@.len(),
            parts@.len() >= 1,
            m_expr(ts@, i as int) == m_rest(ts@, k as int, views(parts@)),
        decreases ts@.len() - k,
    {
        proof {
            lemma_m_progress(ts@, k + 1);
        }
        match parse_mul_t(ts, k + 1) {
            Err(m) => {
                return Err(m);
            },
            Ok(y) => {
                let ghost p0 = views(parts@);
                let ghost yv = y.0@;
                parts.push(y.0);
                proof {
                    assert(views(parts@) =~= p0.push(yv));
                }
                k = y.1;
            },
        }
    }
    if parts.len() == 1 {
        let ghost pv = views(parts@);
        let t = parts.pop().unwrap();
        proof {
            assert(t@ == pv[0]);
        }
        Ok((t, k))
    } else {
        proof {
            lemma_add_view(parts);
        }
        Ok((MboTerm::Add(parts), k))
    }
}

fn parse_mul_t(ts: &Vec<Tok>, i: usize) -> (r: Result<(MboTerm, usize), String>)
    requires
        i <= ts@.len(),
    ensures
        match r {
            Ok(y) => m_mul(ts@, i as int) == Ok::<(MboV, int), Seq<char>>((y.0@, y.1 as int)) && i
                < y.1 <= ts@.len(),
            Err(m) => m_mul(ts@, i as int) == Err::<(MboV, int), Seq<char>>(m@),
        },
    decreases ts@.len() - i, 2nat,
{
    proof {
        lemma_m_progress(ts@, i as int);
    }
    let base = match parse_atom_t(ts, i) {
        Err(m) => {
            return Err(m);
        },
        Ok(y) => y,
    };
    if is_tok(ts, base.1, Tok::Times) {
        if base.1 + 1 < ts.len() {
            if let Tok::Num(n) = ts[base.1 + 1] {
                return Ok((MboTerm::Mul(Box::new(base.0), n), base.1 + 2));
            }
        }
        Err(lit("expected a natural number after ×"))
    } else {
        Ok(base)
    }
}

fn parse_atom_t(ts: &Vec<Tok>, i: usize) -> (r: Result<(MboTerm, usize), String>)
    requires
        i <= ts@.len(),
    ensures
        match r {
            Ok(y) => m_atom(ts@, i as int) == Ok::<(MboV, int), Seq<char>>((y.0@, y.1 as int)) && i
                < y.1 <= ts@.len(),
            Err(m) => m_atom(ts@, i as int) == Err::<(MboV, int), Seq<char>>(m@),
        },
    decreases ts@.len() - i, 1nat,
{
    proof {
        lemma_m_progress(ts@, i as int);
    }
    if i >= ts.len() {
        return Err(lit("expected a term"));
    }
    match ts[i] {
        Tok::Num(n) => Ok((MboTerm::Nat(n), i + 1)),
        Tok::OmegaTerm => Ok((MboTerm::OmegaTerm, i + 1)),
        Tok::Omega => match opt_sub(ts, i + 1) {
            Err(m) => Err(m),
            Ok(y) => Ok((MboTerm::Omega(y.0), y.1)),
        },
        Tok::Mahlo => match opt_sub(ts, i + 1) {
            Err(m) => Err(m),
            Ok(y) => Ok((MboTerm::Mahlo(y.0), y.1)),
        },
        Tok::LParen => match parse_expr_t(ts, i + 1) {
            Err(m) => Err(m),
            Ok(y) => {
                if is_tok(ts, y.1, Tok::RParen) {
                    Ok((y.0, y.1 + 1))
                } else {
                    Err(lit("expected `)`"))
                }
            },
        },
        Tok::Psi => parse_psi_t(ts, i + 1),
        _ => Err(lit("expected a term")),
    }
}

fn parse_psi_t(ts: &Vec<Tok>, i: usize) -> (r: Result<(MboTerm, usize), String>)
    requires
        i <= ts@.len(),
    ensures
        match r {
            Ok(y) => m_psi(ts@, i as int) == Ok::<(MboV, int), Seq<char>>((y.0@, y.1 as int)) && i
                < y.1 <= ts@.len(),
            Err(m) => m_psi(ts@, i as int) == Err::<(MboV, int), Seq<char>>(m@),
        },
    decreases ts@.len() - i, 6nat,
{
    proof {
        lemma_m_progress(ts@, i as int);
    }
    let sub: (MboTerm, usize) = if is_tok(ts, i, Tok::Sub) {
        if is_tok(ts, i + 1, Tok::LBrace) {
            match parse_expr_t(ts, i + 2) {
                Err(m) => {
                    return Err(m);
                },
                Ok(y) => {
                    if is_tok(ts, y.1, Tok::RBrace) {
                        (y.0, y.1 + 1)
                    } else {
                        return Err(lit("expected `}` in ψ subscript"));
                    }
                },
            }
        } else {
            match parse_atom_t(ts, i + 1) {
                Err(m) => {
                    return Err(m);
                },
                Ok(y) => y,
            }
        }
    } else {
        (MboTerm::Omega(None), i)
    };
    proof {
        assert(m_psi_sub(ts@, i as int) == Ok::<(MboV, int), Seq<char>>((sub.0@, sub.1 as int)));
    }
    if !is_tok(ts, sub.1, Tok::LParen) {
        return Err(lit("expected `(` after ψ subscript"));
    }
    match parse_expr_t(ts, sub.1 + 1) {
        Err(m) => Err(m),
        Ok(a) => {
            if is_tok(ts, a.1, Tok::RParen) {
                Ok((MboTerm::Psi { sub: Box::new(sub.0), arg: Box::new(a.0) }, a.1 + 1))
            } else {
                Err(lit("expected `)` in ψ argument"))
            }
        },
    }
}

/// Parse a Mahlo BOCF term, in Unicode (ψ, Ω, ω, M, ×) or LaTeX
/// (\psi, \Omega, \omega, \times) spelling; a bare ψ means ψ_Ω.
pub fn parse_mbocf(input: &str) -> (r: Result<MboTerm, String>)
    ensures
        match r {
            Ok(x) => parse_mbocf_spec(input@) == Ok::<MboV, Seq<char>>(x@),
            Err(m) => parse_mbocf_spec(input@) == Err::<MboV, Seq<char>>(m@),
        },
{
    let cs = chars_of(input);
    let toks = match tokenize(&cs) {
        Err(m) => {
            return Err(m);
        },
        Ok(t) => t,
    };
    if toks.len() == 0 {
        return Err(lit("empty input"));
    }
    match parse_expr_t(&toks, 0) {
        Err(m) => Err(m),
        Ok(y) => {
            if y.1 != toks.len() {
                let mut m = lit("unexpected trailing input at position ");
                push_nat(&mut m, y.1 as u64);
                Err(m)
            } else {
                Ok(y.0)
            }
        },
    }
}

// ============================================================
// To an IHSS hydra
// ============================================================

pub open spec fn mbo_size(x: MboV) -> nat
    decreases x,
{
    match x {
        MboV::Psi(s, a) => 1 + mbo_size(*s) + mbo_size(*a),
        MboV::Mul(t, _) => 1 + mbo_size(*t),
        MboV::Add(ts) => 1 + sizes(ts),
        _ => 1,
    }
}

pub open spec fn sizes(ts: Seq<MboV>) -> nat
    decreases ts,
{
    if ts.len() == 0 {
        0
    } else {
        sizes(ts.subrange(0, ts.len() - 1)) + mbo_size(ts[ts.len() - 1]) + 1
    }
}

/// The level of an `M`: its subscript (as `i32`), 1 without one.
pub open spec fn mlevel(k: Option<u64>) -> int {
    match k {
        Some(x) => (x as i32) as int,
        None => 1,
    }
}

/// The summands of a term.
pub open spec fn split_v(t: MboV) -> Seq<MboV> {
    match t {
        MboV::Add(ts) => ts,
        _ => seq![t],
    }
}

pub open spec fn is_mahlo_v(t: MboV, n: int) -> bool {
    match t {
        MboV::Mahlo(k) => mlevel(k) == n,
        _ => false,
    }
}

/// The node level and the two child lists that `ψ_sub(arg)` renders
/// from; `None` where the level's predecessor leaves `i32`.
pub open spec fn children_v(sub: MboV, arg: MboV) -> Option<Result<(int, Seq<MboV>, Seq<MboV>), Seq<char>>> {
    match sub {
        MboV::Mahlo(k) => {
            let n = mlevel(k);
            if n - 1 < i32::MIN {
                None
            } else {
                Some(Ok((n - 1, split_v(arg), Seq::empty())))
            }
        },
        MboV::Psi(sub2, inner) => match *sub2 {
            MboV::Mahlo(k) => {
                let n = mlevel(k);
                if n - 1 < i32::MIN {
                    None
                } else {
                    let s = split_v(*inner);
                    let s2 = if s.len() > 0 && is_mahlo_v(s[s.len() - 1], n) {
                        s.subrange(0, s.len() - 1)
                    } else {
                        s
                    };
                    Some(Ok((n - 1, s2, split_v(arg))))
                }
            },
            _ => Some(Err("ψ subscript must be a Mahlo"@)),
        },
        _ => Some(Err("invalid ψ subscript"@)),
    }
}

pub proof fn lemma_sizes_prefix(ts: Seq<MboV>, k: int)
    requires
        0 <= k <= ts.len(),
    ensures
        sizes(ts.subrange(0, k)) <= sizes(ts),
    decreases ts.len(),
{
    if k < ts.len() {
        assert(ts.subrange(0, ts.len() - 1).subrange(0, k) =~= ts.subrange(0, k));
        lemma_sizes_prefix(ts.subrange(0, ts.len() - 1), k);
    } else {
        assert(ts.subrange(0, k) =~= ts);
    }
}

pub proof fn lemma_split_size(t: MboV)
    ensures
        sizes(split_v(t)) <= mbo_size(t) + 1,
{
    match t {
        MboV::Add(ts) => {},
        _ => {
            let s = seq![t];
            assert(s.subrange(0, 0) =~= Seq::<MboV>::empty());
            assert(sizes(s.subrange(0, 0)) == 0);
            assert(sizes(s) == sizes(s.subrange(0, 0)) + mbo_size(t) + 1);
        },
    }
}

pub proof fn lemma_children_size(sub: MboV, arg: MboV)
    ensures
        children_v(sub, arg) matches Some(Ok(ch)) ==> sizes(ch.1) + sizes(ch.2) < mbo_size(sub) + mbo_size(arg) + 1,
{
    lemma_split_size(arg);
    match sub {
        MboV::Mahlo(k) => {
            assert(sizes(Seq::<MboV>::empty()) == 0);
        },
        MboV::Psi(sub2, inner) => {
            lemma_split_size(*inner);
            assert(mbo_size(*sub2) >= 1);
            let s = split_v(*inner);
            if s.len() > 0 {
                lemma_sizes_prefix(s, s.len() - 1);
            }
        },
        _ => {},
    }
}

/// The value matrix of a canonical term with its root at `depth`: one
/// column `(depth, level)` per node, children after their parent; the
/// summands of a sum start again at depth 0. `None` where an `i32`
/// operation overflows.
pub open spec fn bv(x: MboV, d: int) -> Option<Result<Seq<Seq<int>>, Seq<char>>>
    decreases mbo_size(x), 1int,
{
    match x {
        MboV::Nat(_) => Some(Ok(seq![seq![d, 0]])),
        MboV::Mahlo(k) => Some(Ok(seq![seq![d, mlevel(k)]])),
        MboV::Add(ts) => bv_list(ts, 0),
        MboV::Psi(s, a) => match children_v(*s, *a) {
            None => None,
            Some(Err(e)) => Some(Err(e)),
            Some(Ok(ch)) => if d + 1 > i32::MAX {
                None
            } else {
                proof {
                    lemma_children_size(*s, *a);
                }
                match bv_list(ch.1, d + 1) {
                    None => None,
                    Some(Err(e)) => Some(Err(e)),
                    Some(Ok(sv)) => match bv_list(ch.2, d + 1) {
                        None => None,
                        Some(Err(e)) => Some(Err(e)),
                        Some(Ok(tv)) => Some(Ok(seq![seq![d, ch.0]] + sv + tv)),
                    },
                }
            },
        },
        _ => Some(Err("internal: unexpected term after canonicalize"@)),
    }
}

/// The value matrices of the terms, one after another, all at `d`.
pub open spec fn bv_list(ts: Seq<MboV>, d: int) -> Option<Result<Seq<Seq<int>>, Seq<char>>>
    decreases sizes(ts), 0int,
{
    if ts.len() == 0 {
        Some(Ok(Seq::empty()))
    } else {
        match bv_list(ts.subrange(0, ts.len() - 1), d) {
            None => None,
            Some(Err(e)) => Some(Err(e)),
            Some(Ok(a)) => match bv(ts[ts.len() - 1], d) {
                None => None,
                Some(Err(e)) => Some(Err(e)),
                Some(Ok(b)) => Some(Ok(a + b)),
            },
        }
    }
}

pub proof fn lemma_sizes_elem(ts: Seq<MboV>, i: int)
    requires
        0 <= i < ts.len(),
    ensures
        mbo_size(ts[i]) < sizes(ts),
    decreases ts.len(),
{
    if i < ts.len() - 1 {
        assert(ts.subrange(0, ts.len() - 1)[i] == ts[i]);
        lemma_sizes_elem(ts.subrange(0, ts.len() - 1), i);
    }
}

/// The summands of a term, as copies.
fn split_terms(t: &MboTerm) -> (r: Vec<MboTerm>)
    ensures
        views(r@) == split_v(t@),
{
    match t {
        MboTerm::Add(ts) => {
            let mut v: Vec<MboTerm> = Vec::new();
            let mut i: usize = 0;
            proof {
                lemma_add_view(*ts);
            }
            while i < ts.len()
                invariant
                    i <= ts@.len(),
                    views(v@) == views(ts@).take(i as int),
                decreases ts.len() - i,
            {
                let c = clone_mbo(&ts[i]);
                let ghost v0 = v@;
                v.push(c);
                i = i + 1;
                proof {
                    assert(views(v@) =~= views(v0).push(c@));
                    assert(views(v@) =~= views(ts@).take(i as int));
                }
            }
            proof {
                assert(views(ts@).take(ts@.len() as int) =~= views(ts@));
            }
            v
        },
        _ => {
            let mut v: Vec<MboTerm> = Vec::new();
            let c = clone_mbo(t);
            v.push(c);
            proof {
                assert(views(v@) =~= seq![t@]);
            }
            v
        },
    }
}

fn mahlo_level(k: &Option<u64>) -> (r: i32)
    ensures
        r as int == mlevel(*k),
{
    match k {
        Some(x) => *x as i32,
        None => 1,
    }
}

fn is_mahlo_n(t: &MboTerm, n: i32) -> (r: bool)
    ensures
        r == is_mahlo_v(t@, n as int),
{
    match t {
        MboTerm::Mahlo(k) => mahlo_level(k) == n,
        _ => false,
    }
}

/// The node level and the child lists of `ψ_sub(arg)` (see `children_v`).
fn extract_children(sub: &MboTerm, arg: &MboTerm) -> (r: Option<Result<(i32, Vec<MboTerm>, Vec<MboTerm>), String>>)
    ensures
        match children_v(sub@, arg@) {
            None => r is None,
            Some(Err(e)) => r matches Some(Err(m)) && m@ == e,
            Some(Ok(ch)) => r matches Some(Ok(x)) && x.0 as int == ch.0 && views(x.1@) == ch.1 && views(x.2@) == ch.2,
        },
{
    match sub {
        MboTerm::Mahlo(k) => {
            let n = mahlo_level(k);
            if n == i32::MIN {
                return None;
            }
            let s = split_terms(arg);
            let t: Vec<MboTerm> = Vec::new();
            proof {
                assert(views(t@) =~= Seq::<MboV>::empty());
            }
            Some(Ok((n - 1, s, t)))
        },
        MboTerm::Psi { sub: sub2, arg: inner } => {
            match &**sub2 {
                MboTerm::Mahlo(k) => {
                    proof {
                        assert(mv(**sub2) == MboV::Mahlo(*k));
                    }
                    let n = mahlo_level(k);
                    if n == i32::MIN {
                        return None;
                    }
                    let mut s = split_terms(inner);
                    if s.len() > 0 && is_mahlo_n(&s[s.len() - 1], n) {
                        let ghost s0 = views(s@);
                        s.pop();
                        proof {
                            assert(views(s@) =~= s0.subrange(0, s0.len() - 1));
                        }
                    }
                    let t = split_terms(arg);
                    Some(Ok((n - 1, s, t)))
                },
                _ => {
                    proof {
                        assert(!(mv(**sub2) is Mahlo));
                    }
                    Some(Err(lit("ψ subscript must be a Mahlo")))
                },
            }
        },
        _ => Some(Err(lit("invalid ψ subscript"))),
    }
}

fn build_value(term: &MboTerm, d: i32) -> (r: Option<Result<Vec<Vec<i32>>, String>>)
    ensures
        match bv(term@, d as int) {
            None => r is None,
            Some(Err(e)) => r matches Some(Err(m)) && m@ == e,
            Some(Ok(v)) => r matches Some(Ok(x)) && mat(x@) == v,
        },
    decreases mbo_size(term@), 1int,
{
    match term {
        MboTerm::Nat(_) => {
            let mut out: Vec<Vec<i32>> = Vec::new();
            let col = vec![d, 0];
            proof {
                assert(ints(col@) =~= seq![d as int, 0]);
            }
            out.push(col);
            proof {
                assert(mat(out@) =~= seq![seq![d as int, 0]]);
            }
            Some(Ok(out))
        },
        MboTerm::Mahlo(k) => {
            let mut out: Vec<Vec<i32>> = Vec::new();
            let lv = mahlo_level(k);
            let col = vec![d, lv];
            proof {
                assert(ints(col@) =~= seq![d as int, mlevel(*k)]);
            }
            out.push(col);
            proof {
                assert(mat(out@) =~= seq![seq![d as int, mlevel(*k)]]);
            }
            Some(Ok(out))
        },
        MboTerm::Add(ts) => {
            proof {
                lemma_add_view(*ts);
            }
            build_list(ts, 0)
        },
        MboTerm::Psi { sub, arg } => {
            let ch = match extract_children(sub, arg) {
                None => {
                    return None;
                },
                Some(Err(m)) => {
                    return Some(Err(m));
                },
                Some(Ok(x)) => x,
            };
            if d == i32::MAX {
                return None;
            }
            proof {
                lemma_children_size(sub@, arg@);
            }
            let sv = match build_list(&ch.1, d + 1) {
                None => {
                    return None;
                },
                Some(Err(m)) => {
                    return Some(Err(m));
                },
                Some(Ok(x)) => x,
            };
            let tv = match build_list(&ch.2, d + 1) {
                None => {
                    return None;
                },
                Some(Err(m)) => {
                    return Some(Err(m));
                },
                Some(Ok(x)) => x,
            };
            let mut out: Vec<Vec<i32>> = Vec::new();
            let col = vec![d, ch.0];
            proof {
                assert(ints(col@) =~= seq![d as int, ch.0 as int]);
            }
            out.push(col);
            let ghost o0 = mat(out@);
            let mut i: usize = 0;
            while i < sv.len()
                invariant
                    i <= sv@.len(),
                    mat(out@) == o0 + mat(sv@).take(i as int),
                decreases sv.len() - i,
            {
                let c = sv[i].clone();
                let ghost m0 = mat(out@);
                out.push(c);
                i = i + 1;
                proof {
                    assert(mat(out@) =~= m0.push(mat(sv@)[i - 1]));
                    assert(mat(out@) =~= o0 + mat(sv@).take(i as int));
                }
            }
            let ghost o1 = mat(out@);
            let mut i: usize = 0;
            while i < tv.len()
                invariant
                    i <= tv@.len(),
                    mat(out@) == o1 + mat(tv@).take(i as int),
                decreases tv.len() - i,
            {
                let c = tv[i].clone();
                let ghost m0 = mat(out@);
                out.push(c);
                i = i + 1;
                proof {
                    assert(mat(out@) =~= m0.push(mat(tv@)[i - 1]));
                    assert(mat(out@) =~= o1 + mat(tv@).take(i as int));
                }
            }
            proof {
                assert(mat(sv@).take(sv@.len() as int) =~= mat(sv@));
                assert(mat(tv@).take(tv@.len() as int) =~= mat(tv@));
                assert(o0 =~= seq![seq![d as int, ch.0 as int]]);
                assert(mat(out@) =~= seq![seq![d as int, ch.0 as int]] + mat(sv@) + mat(tv@));
            }
            Some(Ok(out))
        },
        _ => Some(Err(lit("internal: unexpected term after canonicalize"))),
    }
}

fn build_list(ts: &Vec<MboTerm>, d: i32) -> (r: Option<Result<Vec<Vec<i32>>, String>>)
    ensures
        match bv_list(views(ts@), d as int) {
            None => r is None,
            Some(Err(e)) => r matches Some(Err(m)) && m@ == e,
            Some(Ok(v)) => r matches Some(Ok(x)) && mat(x@) == v,
        },
    decreases sizes(views(ts@)), 0int,
{
    let ghost vs = views(ts@);
    let mut out: Vec<Vec<i32>> = Vec::new();
    let mut i: usize = 0;
    proof {
        assert(vs.take(0) =~= Seq::<MboV>::empty());
        assert(mat(out@) =~= Seq::<Seq<int>>::empty());
    }
    while i < ts.len()
        invariant
            i <= ts@.len() == vs.len(),
            vs == views(ts@),
            bv_list(vs.take(i as int), d as int) == Some(Ok::<Seq<Seq<int>>, Seq<char>>(mat(out@))),
        decreases ts.len() - i,
    {
        proof {
            lemma_sizes_elem(vs, i as int);
            assert(vs.take(i + 1).subrange(0, i as int) =~= vs.take(i as int));
            assert(vs.take(i + 1)[i as int] == vs[i as int]);
        }
        let part = match build_value(&ts[i], d) {
            None => {
                proof {
                    lemma_bv_list_none(vs, i as int, d as int);
                }
                return None;
            },
            Some(Err(m)) => {
                proof {
                    lemma_bv_list_err(vs, i as int, d as int, m@);
                }
                return Some(Err(m));
            },
            Some(Ok(x)) => x,
        };
        let ghost o0 = mat(out@);
        let mut j: usize = 0;
        while j < part.len()
            invariant
                j <= part@.len(),
                mat(out@) == o0 + mat(part@).take(j as int),
            decreases part.len() - j,
        {
            let c = part[j].clone();
            let ghost m0 = mat(out@);
            out.push(c);
            j = j + 1;
            proof {
                assert(mat(out@) =~= m0.push(mat(part@)[j - 1]));
                assert(mat(out@) =~= o0 + mat(part@).take(j as int));
            }
        }
        proof {
            assert(mat(part@).take(part@.len() as int) =~= mat(part@));
        }
        i = i + 1;
    }
    proof {
        assert(vs.take(ts@.len() as int) =~= vs);
    }
    Some(Ok(out))
}

proof fn lemma_bv_list_none(ts: Seq<MboV>, i: int, d: int)
    requires
        0 <= i < ts.len(),
        bv_list(ts.take(i), d) is Some && bv_list(ts.take(i), d)->0 is Ok,
        bv(ts[i], d) is None,
    ensures
        bv_list(ts, d) is None,
    decreases ts.len() - i,
{
    assert(ts.take(i + 1).subrange(0, i) =~= ts.take(i));
    if i + 1 < ts.len() {
        lemma_bv_list_prefix_none(ts, i + 1, d);
    } else {
        assert(ts.take(i + 1) =~= ts);
    }
}

proof fn lemma_bv_list_prefix_none(ts: Seq<MboV>, k: int, d: int)
    requires
        0 < k <= ts.len(),
        bv_list(ts.take(k), d) is None,
    ensures
        bv_list(ts, d) is None,
    decreases ts.len() - k,
{
    if k < ts.len() {
        assert(ts.take(k + 1).subrange(0, k) =~= ts.take(k));
        lemma_bv_list_prefix_none(ts, k + 1, d);
    } else {
        assert(ts.take(k) =~= ts);
    }
}

proof fn lemma_bv_list_err(ts: Seq<MboV>, i: int, d: int, e: Seq<char>)
    requires
        0 <= i < ts.len(),
        bv_list(ts.take(i), d) is Some && bv_list(ts.take(i), d)->0 is Ok,
        bv(ts[i], d) == Some(Err::<Seq<Seq<int>>, Seq<char>>(e)),
    ensures
        bv_list(ts, d) == Some(Err::<Seq<Seq<int>>, Seq<char>>(e)),
{
    assert(ts.take(i + 1).subrange(0, i) =~= ts.take(i));
    lemma_bv_list_prefix_err(ts, i + 1, d, e);
}

proof fn lemma_bv_list_prefix_err(ts: Seq<MboV>, k: int, d: int, e: Seq<char>)
    requires
        0 < k <= ts.len(),
        bv_list(ts.take(k), d) == Some(Err::<Seq<Seq<int>>, Seq<char>>(e)),
    ensures
        bv_list(ts, d) == Some(Err::<Seq<Seq<int>>, Seq<char>>(e)),
    decreases ts.len() - k,
{
    if k < ts.len() {
        assert(ts.take(k + 1).subrange(0, k) =~= ts.take(k));
        lemma_bv_list_prefix_err(ts, k + 1, d, e);
    } else {
        assert(ts.take(k) =~= ts);
    }
}

/// The value matrix of the canonical form, column by column.
pub open spec fn ihss_value(x: MboV) -> Option<Result<Seq<Seq<int>>, Seq<char>>> {
    bv(canon(x), 0)
}

impl MboTerm {
    /// The IHSS hydra of the term: the value matrix of its canonical form
    /// (one column `(depth, level)` per node), as a parent matrix.
    pub fn to_ihss(&self) -> (r: Result<IHSS, String>)
        requires
            ihss_value(self@) is Some,
            ihss_value(self@)->0 is Ok ==> (ihss_value(self@)->0)->Ok_0.len() <= i32::MAX,
        ensures
            match ihss_value(self@)->0 {
                Ok(v) => r matches Ok(h) && h@ == from_value_spec(v),
                Err(e) => r matches Err(m) && m@ == e,
            },
    {
        let c = self.canonicalize();
        match build_value(&c, 0) {
            None => Err(String::new()),
            Some(Err(m)) => Err(m),
            Some(Ok(v)) => {
                proof {
                    lemma_bv_cols(canon(self@), 0);
                }
                Ok(IHSS::from_value(&v))
            },
        }
    }

    /// `to_ihss` where its value matrix can be built and fits the `i32`
    /// column index; `None` elsewhere.
    pub fn to_ihss_checked(&self) -> (r: Option<Result<IHSS, String>>)
        ensures
            match ihss_value(self@) {
                None => r is None,
                Some(Err(e)) => r matches Some(Err(m)) && m@ == e,
                Some(Ok(v)) => if v.len() <= i32::MAX {
                    r matches Some(Ok(h)) && h@ == from_value_spec(v)
                } else {
                    r is None
                },
            },
    {
        let c = self.canonicalize();
        match build_value(&c, 0) {
            None => None,
            Some(Err(m)) => Some(Err(m)),
            Some(Ok(v)) => {
                if v.len() > 0x7fff_ffff {
                    return None;
                }
                proof {
                    lemma_bv_cols(canon(self@), 0);
                }
                Some(Ok(IHSS::from_value(&v)))
            },
        }
    }
}

/// Every column of a built value matrix has two entries.
proof fn lemma_bv_cols(x: MboV, d: int)
    ensures
        bv(x, d) matches Some(Ok(v)) ==> forall|c: int| 0 <= c < v.len() ==> (#[trigger] v[c]).len() == 2,
    decreases mbo_size(x), 1int,
{
    match x {
        MboV::Add(ts) => {
            lemma_bv_list_cols(ts, 0);
        },
        MboV::Psi(s, a) => {
            lemma_children_size(*s, *a);
            match children_v(*s, *a) {
                Some(Ok(ch)) => {
                    if d + 1 <= i32::MAX {
                        lemma_bv_list_cols(ch.1, d + 1);
                        lemma_bv_list_cols(ch.2, d + 1);
                        match bv(x, d) {
                            Some(Ok(v)) => {
                                let sv = bv_list(ch.1, d + 1)->0->Ok_0;
                                let tv = bv_list(ch.2, d + 1)->0->Ok_0;
                                assert(v == seq![seq![d, ch.0]] + sv + tv);
                                assert forall|c: int| 0 <= c < v.len() implies (#[trigger] v[c]).len() == 2 by {
                                    if c == 0 {
                                    } else if c < 1 + sv.len() {
                                        assert(v[c] == sv[c - 1]);
                                    } else {
                                        assert(v[c] == tv[c - 1 - sv.len()]);
                                    }
                                }
                            },
                            _ => {},
                        }
                    }
                },
                _ => {},
            }
        },
        _ => {},
    }
}

proof fn lemma_bv_list_cols(ts: Seq<MboV>, d: int)
    ensures
        bv_list(ts, d) matches Some(Ok(v)) ==> forall|c: int| 0 <= c < v.len() ==> (#[trigger] v[c]).len() == 2,
    decreases sizes(ts), 0int,
{
    if ts.len() > 0 {
        lemma_bv_list_cols(ts.subrange(0, ts.len() - 1), d);
        lemma_sizes_elem(ts, ts.len() - 1);
        lemma_bv_cols(ts[ts.len() - 1], d);
        match bv_list(ts, d) {
            Some(Ok(v)) => {
                let a = bv_list(ts.subrange(0, ts.len() - 1), d)->0->Ok_0;
                let b = bv(ts[ts.len() - 1], d)->0->Ok_0;
                assert(v == a + b);
                assert forall|c: int| 0 <= c < v.len() implies (#[trigger] v[c]).len() == 2 by {
                    if c < a.len() {
                        assert(v[c] == a[c]);
                    } else {
                        assert(v[c] == b[c - a.len()]);
                    }
                }
            },
            _ => {},
        }
    }
}

} // verus!
