//! BMS → BOCF conversion, and the standard-form check of matrices.
use vstd::prelude::*;
use crate::Matrix;
use crate::hydra::ints;
use crate::expand::{
    mat, padded, par, col_max, uniform, lex_order, matrix_lex_order, matrix_rows, pad_matrix,
    parent_table, lemma_par_range, lemma_col_max,
};
use crate::term::{
    Term, TermNode, mk, spec_one, spec_add, spec_exp, spec_last, spec_standard_form, t, zero, one,
    exp, last_term, standard_form, clone_term,
};

verus! {

/// The matrix (0,0,0)(1,1,1)(2,1,1)(3,1,0)(2,0,0).
pub open spec fn ebo_spec() -> Seq<Seq<int>> {
    seq![seq![0int, 0, 0], seq![1int, 1, 1], seq![2int, 1, 1], seq![3int, 1, 0], seq![2int, 0, 0]]
}

/// The matrix (0,0,0)(1,1,1)(2,1,1)(3,1,0)(2,0,0).
pub fn ebo() -> (r: Matrix)
    ensures
        mat(r@) == ebo_spec(),
{
    let r = vec![vec![0, 0, 0], vec![1, 1, 1], vec![2, 1, 1], vec![3, 1, 0], vec![2, 0, 0]];
    proof {
        assert(mat(r@)[0] =~= ebo_spec()[0]);
        assert(mat(r@)[1] =~= ebo_spec()[1]);
        assert(mat(r@)[2] =~= ebo_spec()[2]);
        assert(mat(r@)[3] =~= ebo_spec()[3]);
        assert(mat(r@)[4] =~= ebo_spec()[4]);
        assert(mat(r@) =~= ebo_spec());
    }
    r
}

/// Whether the matrix equals that of ψ(I) in the lexicographic order.
pub fn is_eq_ebo(m: &Matrix) -> (r: bool)
    ensures
        r == (lex_order(mat(m@), ebo_spec()) == 0),
{
    matrix_lex_order(m, &ebo()) == 0
}

/// Whether the matrix lies above that of ψ(I).
pub fn is_gt_ebo(m: &Matrix) -> (r: bool)
    ensures
        r == (lex_order(mat(m@), ebo_spec()) > 0),
{
    matrix_lex_order(m, &ebo()) > 0
}

/// Whether the matrix lies at or above that of ψ(I).
pub fn is_gte_ebo(m: &Matrix) -> (r: bool)
    ensures
        r == (lex_order(mat(m@), ebo_spec()) >= 0),
{
    is_eq_ebo(m) || is_gt_ebo(m)
}


// ============================================================
// BMS → BOCF: model
// ============================================================

/// Row-0 children of column `n` among the columns `[0, k)`, in order.
pub open spec fn kids_upto(s: Seq<Seq<int>>, n: int, k: int) -> Seq<int>
    decreases k,
{
    if k <= 0 {
        Seq::empty()
    } else {
        let r = kids_upto(s, n, k - 1);
        if par(s, k - 1, 0) == n {
            r.push(k - 1)
        } else {
            r
        }
    }
}

/// Row-0 children of column `n`, in order.
pub open spec fn kids(s: Seq<Seq<int>>, n: int) -> Seq<int> {
    kids_upto(s, n, s.len() as int)
}

/// Column `i` has at least three entries and starts with `(a, b, c)`.
pub open spec fn row3(m: Seq<Seq<int>>, i: int, a: int, b: int, c: int) -> bool {
    m[i].len() >= 3 && m[i][0] == a && m[i][1] == b && m[i][2] == c
}

/// Searches the row-0 ancestors of `q` for the upgrader of column `n`
/// (entries `(l0, l1, l2)`). `None`: a column that is read has no entries.
pub open spec fn up_search(m: Seq<Seq<int>>, n: int, q: int, l0: int, l1: int, l2: int) -> Option<int>
    decreases q + 1,
{
    let s = padded(m);
    let q2 = par(s, q, 0);
    if q < 0 || q2 < 0 || q2 >= q {
        Some(-1)
    } else if par(s, n, 1) == par(s, q2, 1) && row3(m, q2, l0, l1, l2) {
        if m[n + 1].len() == 0 {
            None
        } else if m[n + 1][0] > m[q2][0] {
            Some(q2)
        } else {
            up_search(m, n, q2, l0, l1, l2)
        }
    } else {
        up_search(m, n, q2, l0, l1, l2)
    }
}

/// The upgrader of column `n` (-1 for none). `None`: the computation reads
/// an entry that a column lacks.
pub open spec fn up(m: Seq<Seq<int>>, n: int) -> Option<int> {
    let s = padded(m);
    if m[n].len() < 3 || m[n][1] == 0 || m[n][2] == 1 || n + 1 >= m.len() {
        Some(-1)
    } else {
        let p = par(s, n, 1);
        if p < 0 {
            Some(-1)
        } else if m[p].len() < 3 {
            None
        } else {
            let l0 = m[p][0] + 1;
            let l1 = m[n][1];
            let l2 = m[p][2] + 1;
            if par(s, n, 1) == par(s, n + 1, 1) && row3(m, n + 1, l0, l1, l2) {
                Some(n + 1)
            } else {
                up_search(m, n, n, l0, l1, l2)
            }
        }
    }
}

pub open spec fn ups_ok(m: Seq<Seq<int>>) -> bool {
    forall|x: int| 0 <= x < m.len() ==> (#[trigger] up(m, x)) is Some
}

/// Column `i` is some column's upgrader.
pub open spec fn is_up(m: Seq<Seq<int>>, i: int) -> bool {
    exists|x: int| 0 <= x < m.len() && #[trigger] up(m, x) == Some(i)
}

/// The term that column `n` stands for: ψ_{index(n)}(sum of its children's
/// terms), children that an upgrade accounts for left out. `f` bounds the
/// depth of the evaluation; `None` when it runs out or an entry is missing.
pub open spec fn ns(m: Seq<Seq<int>>, n: int, f: nat) -> Option<Term>
    decreases f, 0nat, 0nat,
{
    if f == 0 {
        None
    } else {
        match ix(m, n, (f - 1) as nat) {
            None => None,
            Some(idx) => match ns_sum(m, n, kids(padded(m), n), (f - 1) as nat) {
                None => None,
                Some(om) => Some(mk(idx, om, None)),
            },
        }
    }
}

/// The sum of the terms of the children `ks` of column `n` that count.
pub open spec fn ns_sum(m: Seq<Seq<int>>, n: int, ks: Seq<int>, f: nat) -> Option<Term>
    decreases f, 1nat, ks.len(),
{
    if ks.len() == 0 {
        Some(None)
    } else {
        match ns_sum(m, n, ks.drop_last(), f) {
            None => None,
            Some(acc) => {
                let i = ks.last();
                let c = kids(padded(m), i);
                if m[i].len() >= 3 && m[n].len() < 2 {
                    None
                } else if row3(m, i, m[n][0] + 1, m[n][1], 1) {
                    Some(acc)
                } else if is_up(m, i) && c.len() == 0 {
                    Some(acc)
                } else if is_up(m, i) && m[c.last()].len() >= 3 && m[i].len() < 2 {
                    None
                } else if is_up(m, i) && row3(m, c.last(), m[i][0] + 1, m[i][1], 1) {
                    Some(acc)
                } else {
                    match ns(m, i, f) {
                        None => None,
                        Some(v) => Some(spec_add(acc, v)),
                    }
                }
            },
        }
    }
}

/// The subscript (index) of column `n`'s term.
pub open spec fn ix(m: Seq<Seq<int>>, n: int, f: nat) -> Option<Term>
    decreases f, 0nat, 0nat,
{
    if f == 0 {
        None
    } else if m[n].len() < 2 || m[n][1] == 0 {
        Some(None)
    } else {
        let s = padded(m);
        let p = par(s, n, 1);
        let g = (f - 1) as nat;
        if m[n].len() < 3 || m[n][2] == 0 {
            let adm: Option<Term> = match up(m, n) {
                None => None,
                Some(u) => if u >= 0 {
                    match ix(m, u, g) {
                        None => None,
                        Some(x) => Some(spec_last(x)),
                    }
                } else {
                    Some(spec_one())
                },
            };
            match adm {
                None => None,
                Some(a) => if p < 0 {
                    None
                } else {
                    match ix(m, p, g) {
                        None => None,
                        Some(b) => Some(spec_add(b, a)),
                    }
                },
            }
        } else {
            match cnt_sum(m, n, kids(s, n), g) {
                None => None,
                Some(cnt) => if p < 0 {
                    None
                } else {
                    match ix(m, p, g) {
                        None => None,
                        Some(b) => Some(spec_add(b, spec_exp(cnt))),
                    }
                },
            }
        }
    }
}

/// 1 plus ω^(the sum of the grandchildren's terms) for every child of `n`
/// that starts with `(m[n][0]+1, m[n][1], 1)`.
pub open spec fn cnt_sum(m: Seq<Seq<int>>, n: int, ks: Seq<int>, f: nat) -> Option<Term>
    decreases f, 2nat, ks.len(),
{
    if ks.len() == 0 {
        Some(spec_one())
    } else {
        match cnt_sum(m, n, ks.drop_last(), f) {
            None => None,
            Some(acc) => {
                let i = ks.last();
                if !row3(m, i, m[n][0] + 1, m[n][1], 1) {
                    Some(acc)
                } else {
                    match q_sum(m, kids(padded(m), i), f) {
                        None => None,
                        Some(q) => Some(spec_add(acc, spec_exp(q))),
                    }
                }
            },
        }
    }
}

/// The sum of the terms of the columns `ks`.
pub open spec fn q_sum(m: Seq<Seq<int>>, ks: Seq<int>, f: nat) -> Option<Term>
    decreases f, 1nat, ks.len(),
{
    if ks.len() == 0 {
        Some(None)
    } else {
        match q_sum(m, ks.drop_last(), f) {
            None => None,
            Some(acc) => match ns(m, ks.last(), f) {
                None => None,
                Some(v) => Some(spec_add(acc, v)),
            },
        }
    }
}

/// A top-level column: it starts with zeros.
pub open spec fn top_col(m: Seq<Seq<int>>, i: int) -> bool {
    m[i].len() >= 1 && m[i][0] == 0 && (m[i].len() < 2 || m[i][1] == 0) && (m[i].len() < 3
        || m[i][2] == 0)
}

/// The sum of the terms of the top-level columns among `[0, k)`.
pub open spec fn top_sum(m: Seq<Seq<int>>, k: int, f: nat) -> Option<Term>
    decreases k,
{
    if k <= 0 {
        Some(None)
    } else {
        match top_sum(m, k - 1, f) {
            None => None,
            Some(acc) => if top_col(m, k - 1) {
                match ns(m, k - 1, f) {
                    None => None,
                    Some(v) => Some(spec_add(acc, v)),
                }
            } else {
                Some(acc)
            },
        }
    }
}

/// Depth bound of the evaluation.
pub const BMS_FUEL: u64 = 100000;

/// The BOCF term of a matrix, in standard form: the sum of the terms of the
/// top-level columns. `None` where the evaluation reads a missing entry or
/// does not end within the depth bound.
pub open spec fn bms_value(m: Seq<Seq<int>>) -> Option<Term> {
    if !ups_ok(m) {
        None
    } else {
        match top_sum(m, m.len() as int, BMS_FUEL as nat) {
            None => None,
            Some(x) => Some(spec_standard_form(x)),
        }
    }
}


// ============================================================
// BMS → BOCF: appending a zero column adds one
// ============================================================

/// `m` has `rows ≥ 1` entries per column, none negative.
pub open spec fn nonneg_uniform(m: Seq<Seq<int>>, rows: nat) -> bool {
    &&& rows >= 1
    &&& uniform(m, rows)
    &&& forall|i: int, j: int| 0 <= i < m.len() && 0 <= j < rows ==> #[trigger] m[i][j] >= 0
}

proof fn lemma_padded_uniform(m: Seq<Seq<int>>, rows: nat)
    requires
        uniform(m, rows),
    ensures
        padded(m) == m,
{
    lemma_col_max(m);
    if m.len() > 0 {
        assert(col_max(m) == rows) by {
            let i = choose|i: int| 0 <= i < m.len() && (#[trigger] m[i]).len() == col_max(m);
        }
        assert forall|i: int| 0 <= i < m.len() implies #[trigger] padded(m)[i] == m[i] by {
            assert(padded(m)[i] =~= m[i]);
        }
    }
    assert(padded(m) =~= m);
}

proof fn lemma_prev_prefix(s: Seq<Seq<int>>, t: Seq<Seq<int>>, c: int, k: int)
    requires
        k < c < s.len(),
        c < t.len(),
        forall|i: int| 0 <= i <= c ==> s[i] == t[i],
    ensures
        crate::expand::prev_smaller(s, c, k) == crate::expand::prev_smaller(t, c, k),
    decreases k + 1,
{
    if k >= 0 {
        assert(s[k] == t[k] && s[c] == t[c]);
        lemma_prev_prefix(s, t, c, k - 1);
    }
}

proof fn lemma_par_prefix(s: Seq<Seq<int>>, t: Seq<Seq<int>>, c: int, r: nat)
    requires
        c < s.len(),
        c < t.len(),
        forall|i: int| 0 <= i <= c ==> s[i] == t[i],
    ensures
        par(s, c, r) == par(t, c, r),
    decreases r, c, 1nat,
{
    if c >= 0 {
        if r == 0 {
            lemma_prev_prefix(s, t, c, c - 1);
        } else {
            lemma_par_prefix(s, t, c, (r - 1) as nat);
            let k0 = par(s, c, (r - 1) as nat);
            if 0 <= k0 < c {
                lemma_chain_prefix(s, t, c, r, k0);
            }
        }
    }
}

proof fn lemma_chain_prefix(s: Seq<Seq<int>>, t: Seq<Seq<int>>, c: int, r: nat, k: int)
    requires
        k < c < s.len(),
        c < t.len(),
        forall|i: int| 0 <= i <= c ==> s[i] == t[i],
    ensures
        crate::expand::chain(s, c, r, k) == crate::expand::chain(t, c, r, k),
    decreases r, k, 0nat,
{
    if k >= 0 && r > 0 {
        assert(s[k] == t[k] && s[c] == t[c]);
        lemma_par_prefix(s, t, k, (r - 1) as nat);
        let k2 = par(s, k, (r - 1) as nat);
        if 0 <= k2 < k {
            lemma_chain_prefix(s, t, c, r, k2);
        }
    }
}

proof fn lemma_prev_none(s: Seq<Seq<int>>, c: int, k: int)
    requires
        k < c < s.len(),
        s[c][0] == 0,
        forall|i: int| 0 <= i <= k ==> s[i][0] >= 0,
    ensures
        crate::expand::prev_smaller(s, c, k) == -1,
    decreases k + 1,
{
    if k >= 0 {
        lemma_prev_none(s, c, k - 1);
    }
}

proof fn lemma_kids_prefix(s: Seq<Seq<int>>, t: Seq<Seq<int>>, n: int, k: int)
    requires
        0 <= k <= s.len(),
        k <= t.len(),
        forall|i: int| 0 <= i < k ==> s[i] == t[i],
    ensures
        kids_upto(s, n, k) == kids_upto(t, n, k),
    decreases k,
{
    if k > 0 {
        lemma_kids_prefix(s, t, n, k - 1);
        lemma_par_prefix(s, t, k - 1, 0);
    }
}

proof fn lemma_kids_none(s: Seq<Seq<int>>, n: int, k: int)
    requires
        0 <= k <= s.len(),
        n >= k - 1,
    ensures
        kids_upto(s, n, k).len() == 0,
    decreases k,
{
    if k > 0 {
        lemma_kids_none(s, n, k - 1);
        lemma_par_range(s, k - 1, 0);
    }
}

/// `m2` is `m` with a zero column appended.
pub open spec fn zero_appended(m: Seq<Seq<int>>, m2: Seq<Seq<int>>, rows: nat) -> bool {
    &&& nonneg_uniform(m, rows)
    &&& m2 == m.push(zeros(rows as int))
}

proof fn lemma_up_search_same(
    m: Seq<Seq<int>>,
    m2: Seq<Seq<int>>,
    rows: nat,
    n: int,
    q: int,
    l0: int,
    l1: int,
    l2: int,
)
    requires
        zero_appended(m, m2, rows),
        padded(m) == m,
        padded(m2) == m2,
        0 <= n,
        n + 1 < m.len(),
        q <= n,
    ensures
        up_search(m2, n, q, l0, l1, l2) == up_search(m, n, q, l0, l1, l2),
    decreases q + 1,
{
    assert forall|i: int| 0 <= i < m.len() implies m2[i] == m[i] by {}
    if q >= 0 {
        lemma_par_prefix(m2, m, q, 0);
        lemma_par_range(m, q, 0);
        let q2 = par(m, q, 0);
        lemma_par_prefix(m2, m, n, 1);
        if q2 >= 0 {
            lemma_par_prefix(m2, m, q2, 1);
        }
        if 0 <= q2 < q {
            lemma_up_search_same(m, m2, rows, n, q2, l0, l1, l2);
        }
    }
}

proof fn lemma_up_search_last(m: Seq<Seq<int>>, m2: Seq<Seq<int>>, rows: nat, n: int, q: int, l0: int, l1: int, l2: int)
    requires
        zero_appended(m, m2, rows),
        padded(m2) == m2,
        n + 1 == m.len(),
        q <= n,
    ensures
        up_search(m2, n, q, l0, l1, l2) == Some(-1int),
    decreases q + 1,
{
    let q2 = par(m2, q, 0);
    if q >= 0 {
        lemma_par_range(m2, q, 0);
        if 0 <= q2 < q {
            assert(m2[q2] == m[q2]);
            assert(m2[n + 1] == zeros(rows as int));
            assert(m2[q2][0] >= 0);
            lemma_up_search_last(m, m2, rows, n, q2, l0, l1, l2);
        }
    }
}

proof fn lemma_up_same(m: Seq<Seq<int>>, m2: Seq<Seq<int>>, rows: nat, x: int)
    requires
        zero_appended(m, m2, rows),
        padded(m) == m,
        padded(m2) == m2,
        0 <= x < m.len(),
    ensures
        up(m2, x) == up(m, x),
{
    assert forall|i: int| 0 <= i < m.len() implies m2[i] == m[i] by {}
    assert(m2[x] == m[x]);
    if !(m[x].len() < 3 || m[x][1] == 0 || m[x][2] == 1) {
        lemma_par_prefix(m2, m, x, 1);
        lemma_par_range(m, x, 1);
        let p = par(m, x, 1);
        if p >= 0 {
            assert(m2[p] == m[p]);
            let l0 = m[p][0] + 1;
            if x + 1 < m.len() {
                lemma_par_prefix(m2, m, x + 1, 1);
                assert(m2[x + 1] == m[x + 1]);
                lemma_up_search_same(m, m2, rows, x, x, l0, m[x][1], m[p][2] + 1);
            } else {
                assert(m2[x + 1] == zeros(rows as int));
                assert(m[p][0] >= 0);
                lemma_up_search_last(m, m2, rows, x, x, l0, m[x][1], m[p][2] + 1);
            }
        }
    }
}

/// The basic facts: parents, children and upgraders of the old columns are
/// unchanged, the new column has none.
proof fn lemma_appended_base(m: Seq<Seq<int>>, m2: Seq<Seq<int>>, rows: nat)
    requires
        zero_appended(m, m2, rows),
    ensures
        padded(m) == m,
        padded(m2) == m2,
        forall|i: int| 0 <= i < m.len() ==> #[trigger] m2[i] == m[i],
        forall|n: int| 0 <= n < m.len() ==> #[trigger] kids(m2, n) == kids(m, n),
        kids(m2, m.len() as int).len() == 0,
        forall|x: int| 0 <= x < m.len() ==> #[trigger] up(m2, x) == up(m, x),
        up(m2, m.len() as int) == Some(-1int),
        forall|i: int| 0 <= i ==> (#[trigger] is_up(m2, i) <==> is_up(m, i)),
        ups_ok(m2) <==> ups_ok(m),
        forall|c: int, r: nat| 0 <= c < m.len() ==> #[trigger] par(m2, c, r) == par(m, c, r),
{
    let len = m.len() as int;
    lemma_padded_uniform(m, rows);
    assert(uniform(m2, rows)) by {
        assert forall|i: int| 0 <= i < m2.len() implies (#[trigger] m2[i]).len() == rows by {
            if i < len {
                assert(m2[i] == m[i]);
            }
        }
    }
    lemma_padded_uniform(m2, rows);
    assert forall|i: int| 0 <= i < len implies #[trigger] m2[i] == m[i] by {}
    assert forall|c: int, r: nat| 0 <= c < len implies #[trigger] par(m2, c, r) == par(m, c, r) by {
        lemma_par_prefix(m2, m, c, r);
    }
    assert(m2[len][0] == 0);
    lemma_prev_none(m2, len, len - 1);
    assert(par(m2, len, 0) == -1);
    assert forall|n: int| 0 <= n < len implies #[trigger] kids(m2, n) == kids(m, n) by {
        lemma_kids_prefix(m2, m, n, len);
        assert(kids_upto(m2, n, len + 1) == kids_upto(m2, n, len));
    }
    lemma_kids_none(m2, len, len + 1);
    assert forall|x: int| 0 <= x < len implies #[trigger] up(m2, x) == up(m, x) by {
        lemma_up_same(m, m2, rows, x);
    }
    assert(up(m2, len) == Some(-1int)) by {
        assert(m2[len] == zeros(rows as int));
    }
    assert forall|i: int| 0 <= i implies (#[trigger] is_up(m2, i) <==> is_up(m, i)) by {
        if is_up(m2, i) {
            let x = choose|x: int| 0 <= x < m2.len() && #[trigger] up(m2, x) == Some(i);
            assert(x < len);
            assert(up(m, x) == Some(i));
        }
        if is_up(m, i) {
            let x = choose|x: int| 0 <= x < m.len() && #[trigger] up(m, x) == Some(i);
            assert(up(m2, x) == Some(i));
        }
    }
    if ups_ok(m) {
        assert forall|x: int| 0 <= x < m2.len() implies (#[trigger] up(m2, x)) is Some by {
            if x < len {
                assert(up(m, x) is Some);
            }
        }
    }
    if ups_ok(m2) {
        assert forall|x: int| 0 <= x < m.len() implies (#[trigger] up(m, x)) is Some by {
            assert(up(m2, x) is Some);
        }
    }
}

pub open spec fn cols_in(ks: Seq<int>, len: int) -> bool {
    forall|j: int| 0 <= j < ks.len() ==> 0 <= #[trigger] ks[j] < len
}

proof fn lemma_kids_in(m: Seq<Seq<int>>, n: int)
    ensures
        cols_in(kids(m, n), m.len() as int),
{
    lemma_kids_upto(m, n, m.len() as int);
}

proof fn lemma_ns_same(m: Seq<Seq<int>>, m2: Seq<Seq<int>>, rows: nat, n: int, f: nat)
    requires
        zero_appended(m, m2, rows),
        0 <= n < m.len(),
    ensures
        ns(m2, n, f) == ns(m, n, f),
    decreases f, 0nat, 0nat,
{
    if f > 0 {
        lemma_appended_base(m, m2, rows);
        lemma_ix_same(m, m2, rows, n, (f - 1) as nat);
        lemma_kids_in(m, n);
        assert(kids(padded(m2), n) == kids(padded(m), n));
        lemma_ns_sum_same(m, m2, rows, n, kids(m, n), (f - 1) as nat);
    }
}

proof fn lemma_ns_sum_same(m: Seq<Seq<int>>, m2: Seq<Seq<int>>, rows: nat, n: int, ks: Seq<int>, f: nat)
    requires
        zero_appended(m, m2, rows),
        0 <= n < m.len(),
        cols_in(ks, m.len() as int),
    ensures
        ns_sum(m2, n, ks, f) == ns_sum(m, n, ks, f),
    decreases f, 1nat, ks.len(),
{
    if ks.len() > 0 {
        lemma_appended_base(m, m2, rows);
        lemma_ns_sum_same(m, m2, rows, n, ks.drop_last(), f);
        let i = ks.last();
        assert(0 <= i < m.len());
        assert(kids(padded(m2), i) == kids(padded(m), i));
        lemma_kids_in(m, i);
        let c = kids(m, i);
        if c.len() > 0 {
            assert(0 <= c.last() < m.len());
            assert(m2[c.last()] == m[c.last()]);
        }
        assert(m2[i] == m[i] && m2[n] == m[n]);
        assert(is_up(m2, i) == is_up(m, i));
        lemma_ns_same(m, m2, rows, i, f);
    }
}

proof fn lemma_ix_same(m: Seq<Seq<int>>, m2: Seq<Seq<int>>, rows: nat, n: int, f: nat)
    requires
        zero_appended(m, m2, rows),
        0 <= n < m.len(),
    ensures
        ix(m2, n, f) == ix(m, n, f),
    decreases f, 0nat, 0nat,
{
    if f > 0 {
        lemma_appended_base(m, m2, rows);
        assert(m2[n] == m[n]);
        let g = (f - 1) as nat;
        lemma_par_range(m, n, 1);
        let p = par(m, n, 1);
        assert(par(padded(m2), n, 1) == p);
        if p >= 0 {
            lemma_ix_same(m, m2, rows, p, g);
        }
        lemma_up_range(m, n);
        assert(up(m2, n) == up(m, n));
        match up(m, n) {
            Some(u) => {
                if u >= 0 {
                    lemma_ix_same(m, m2, rows, u, g);
                }
            },
            None => {},
        }
        lemma_kids_in(m, n);
        assert(kids(padded(m2), n) == kids(padded(m), n));
        lemma_cnt_sum_same(m, m2, rows, n, kids(m, n), g);
    }
}

proof fn lemma_cnt_sum_same(m: Seq<Seq<int>>, m2: Seq<Seq<int>>, rows: nat, n: int, ks: Seq<int>, f: nat)
    requires
        zero_appended(m, m2, rows),
        0 <= n < m.len(),
        cols_in(ks, m.len() as int),
    ensures
        cnt_sum(m2, n, ks, f) == cnt_sum(m, n, ks, f),
    decreases f, 2nat, ks.len(),
{
    if ks.len() > 0 {
        lemma_appended_base(m, m2, rows);
        lemma_cnt_sum_same(m, m2, rows, n, ks.drop_last(), f);
        let i = ks.last();
        assert(0 <= i < m.len());
        assert(m2[i] == m[i] && m2[n] == m[n]);
        assert(kids(padded(m2), i) == kids(padded(m), i));
        lemma_kids_in(m, i);
        lemma_q_sum_same(m, m2, rows, kids(m, i), f);
    }
}

proof fn lemma_q_sum_same(m: Seq<Seq<int>>, m2: Seq<Seq<int>>, rows: nat, ks: Seq<int>, f: nat)
    requires
        zero_appended(m, m2, rows),
        cols_in(ks, m.len() as int),
    ensures
        q_sum(m2, ks, f) == q_sum(m, ks, f),
    decreases f, 1nat, ks.len(),
{
    if ks.len() > 0 {
        lemma_q_sum_same(m, m2, rows, ks.drop_last(), f);
        lemma_ns_same(m, m2, rows, ks.last(), f);
    }
}

proof fn lemma_top_sum_same(m: Seq<Seq<int>>, m2: Seq<Seq<int>>, rows: nat, k: int, f: nat)
    requires
        zero_appended(m, m2, rows),
        k <= m.len(),
    ensures
        top_sum(m2, k, f) == top_sum(m, k, f),
    decreases k,
{
    if k > 0 {
        lemma_top_sum_same(m, m2, rows, k - 1, f);
        assert(m2[k - 1] == m[k - 1]);
        lemma_ns_same(m, m2, rows, k - 1, f);
    }
}

/// Appending a zero column to a matrix adds one to its value: the value is
/// the sum of the top-level columns' terms in column order, so the new last
/// column's term 1 is added at the end. (The columns have `rows ≥ 1`
/// entries each, none negative.)
pub proof fn lemma_append_zero_column(m: Seq<Seq<int>>, rows: nat)
    requires
        nonneg_uniform(m, rows),
    ensures
        bms_value(m.push(zeros(rows as int))) == match bms_value(m) {
            Some(v) => Some(crate::term::spec_succ(v)),
            None => None,
        },
{
    let m2 = m.push(zeros(rows as int));
    let len = m.len() as int;
    let fuel = BMS_FUEL as nat;
    lemma_appended_base(m, m2, rows);
    lemma_top_sum_same(m, m2, rows, len, fuel);
    assert(m2[len] == zeros(rows as int));
    assert(top_col(m2, len));
    assert(ix(m2, len, (fuel - 1) as nat) == Some(None::<Box<TermNode>>));
    assert(kids(padded(m2), len).len() == 0);
    assert(ns_sum(m2, len, kids(padded(m2), len), (fuel - 1) as nat) == Some(None::<Box<TermNode>>));
    assert(ns(m2, len, fuel) == Some(spec_one()));
    assert(m2.len() as int == len + 1);
    assert(top_sum(m2, len + 1, fuel) == match top_sum(m, len, fuel) {
        Some(acc) => Some(spec_add(acc, spec_one())),
        None => None,
    });
    match top_sum(m, len, fuel) {
        Some(acc) => {
            crate::term::lemma_standard_form_succ(acc);
        },
        None => {},
    }
}

/// `k` zero columns of `rows` entries.
pub open spec fn zero_matrix(k: nat, rows: nat) -> Seq<Seq<int>> {
    Seq::new(k, |i: int| zeros(rows as int))
}

/// A matrix of `k` zero columns is worth the natural number `k`.
pub proof fn lemma_zero_matrix_value(k: nat, rows: nat)
    requires
        rows >= 1,
    ensures
        bms_value(zero_matrix(k, rows)) == Some(crate::term::spec_from_int(k)),
    decreases k,
{
    let m = zero_matrix(k, rows);
    if k == 0 {
        assert(top_sum(m, 0, BMS_FUEL as nat) == Some(None::<Box<TermNode>>));
        assert(spec_standard_form(None) == None::<Box<TermNode>>);
    } else {
        let d = zero_matrix((k - 1) as nat, rows);
        lemma_zero_matrix_value((k - 1) as nat, rows);
        assert(nonneg_uniform(d, rows)) by {
            assert forall|i: int| 0 <= i < d.len() implies (#[trigger] d[i]).len() == rows by {}
        }
        assert(d.push(zeros(rows as int)) =~= m);
        lemma_append_zero_column(d, rows);
    }
}

/// A matrix ending in a zero column is worth one more than the matrix
/// without it.
pub proof fn lemma_drop_zero_column(m: Seq<Seq<int>>, rows: nat)
    requires
        m.len() > 0,
        nonneg_uniform(m, rows),
        m.last() == zeros(rows as int),
    ensures
        bms_value(m) == match bms_value(m.drop_last()) {
            Some(v) => Some(crate::term::spec_succ(v)),
            None => None,
        },
{
    let d = m.drop_last();
    assert(nonneg_uniform(d, rows)) by {
        assert forall|i: int, j: int| 0 <= i < d.len() && 0 <= j < rows implies #[trigger] d[i][j] >= 0 by {
            assert(d[i] == m[i]);
        }
    }
    assert(d.push(zeros(rows as int)) =~= m);
    lemma_append_zero_column(d, rows);
}

// ============================================================
// BMS → BOCF
// ============================================================

pub open spec fn idxs(v: Seq<usize>) -> Seq<int> {
    v.map_values(|x: usize| x as int)
}

/// `tab[r][c] == par(s, c, r) + 1` for every row `r < rows`.
pub open spec fn ptab_ok(tab: Seq<Vec<usize>>, s: Seq<Seq<int>>, rows: nat) -> bool {
    &&& tab.len() == rows
    &&& forall|r: int| 0 <= r < rows ==> (#[trigger] tab[r])@.len() == s.len()
    &&& forall|r: int, c: int|
        0 <= r < rows && 0 <= c < s.len() ==> (#[trigger] tab[r]@[c]) as int == par(s, c, r as nat)
            + 1
}

/// Tables for one conversion: parents (row-major, plus one), row-0
/// children, and upgraders (plus one; 0 for none).
pub struct BmsContext {
    parent: Vec<Vec<usize>>,
    children: Vec<Vec<usize>>,
    upgrader: Vec<usize>,
}

impl BmsContext {
    /// The tables describe the matrix `m`.
    pub closed spec fn ready(&self, m: Seq<Seq<int>>) -> bool {
        &&& ptab_ok(self.parent@, padded(m), col_max(m))
        &&& self.children@.len() == m.len()
        &&& forall|n: int|
            0 <= n < m.len() ==> idxs((#[trigger] self.children@[n])@) == kids(padded(m), n)
        &&& self.upgrader@.len() == m.len()
        &&& forall|x: int|
            0 <= x < m.len() ==> up(m, x) == Some((#[trigger] self.upgrader@[x]) as int - 1)
    }

    pub closed spec fn is_clear(&self) -> bool {
        self.parent@.len() == 0 && self.children@.len() == 0 && self.upgrader@.len() == 0
    }

    /// An empty context.
    pub fn new() -> (r: Self)
        ensures
            r.is_clear(),
    {
        BmsContext { parent: Vec::new(), children: Vec::new(), upgrader: Vec::new() }
    }
}

pub proof fn lemma_kids_upto(s: Seq<Seq<int>>, n: int, k: int)
    requires
        0 <= k <= s.len(),
    ensures
        forall|j: int| 0 <= j < kids_upto(s, n, k).len() ==> 0 <= #[trigger] kids_upto(s, n, k)[j] < k,
    decreases k,
{
    if k > 0 {
        lemma_kids_upto(s, n, k - 1);
        let r = kids_upto(s, n, k - 1);
        assert forall|j: int| 0 <= j < kids_upto(s, n, k).len() implies 0 <= #[trigger] kids_upto(
            s,
            n,
            k,
        )[j] < k by {
            if j < r.len() {
                assert(kids_upto(s, n, k)[j] == r[j]);
            }
        }
    }
}

pub proof fn lemma_up_search_range(m: Seq<Seq<int>>, n: int, q: int, l0: int, l1: int, l2: int)
    ensures
        up_search(m, n, q, l0, l1, l2) matches Some(u) ==> u == -1 || (0 <= u < q),
    decreases q + 1,
{
    let q2 = par(padded(m), q, 0);
    if !(q < 0 || q2 < 0 || q2 >= q) {
        lemma_up_search_range(m, n, q2, l0, l1, l2);
    }
}

/// An upgrader is a column of the matrix.
pub proof fn lemma_up_range(m: Seq<Seq<int>>, n: int)
    requires
        0 <= n < m.len(),
    ensures
        up(m, n) matches Some(u) ==> -1 <= u < m.len(),
{
    let s = padded(m);
    if !(m[n].len() < 3 || m[n][1] == 0 || m[n][2] == 1 || n + 1 >= m.len()) {
        let p = par(s, n, 1);
        if p >= 0 && m[p].len() >= 3 {
            lemma_up_search_range(m, n, n, m[p][0] + 1, m[n][1], m[p][2] + 1);
        }
    }
}

/// Whether column `i` starts with `(a, b, c)` (and has three entries).
fn row3_x(m: &Matrix, i: usize, a: i64, b: i64, c: i64) -> (r: bool)
    requires
        i < m@.len(),
    ensures
        r == row3(mat(m@), i as int, a as int, b as int, c as int),
{
    let col = &m[i];
    col.len() >= 3 && col[0] as i64 == a && col[1] as i64 == b && col[2] as i64 == c
}

/// The upgrader of column `n`, plus one (0 for none).
fn upgrader_of(m: &Matrix, tab: &Vec<Vec<usize>>, n: usize) -> (r: Option<usize>)
    requires
        n < m@.len(),
        ptab_ok(tab@, padded(mat(m@)), col_max(mat(m@))),
    ensures
        match r {
            Some(u) => up(mat(m@), n as int) == Some(u as int - 1),
            None => up(mat(m@), n as int) is None,
        },
{
    let ghost mm = mat(m@);
    let ghost s = padded(mm);
    let len = m.len();
    proof {
        lemma_col_max(mm);
        assert(mm[n as int].len() == m@[n as int]@.len());
    }
    if m[n].len() < 3 || m[n][1] == 0 || m[n][2] == 1 || n + 1 >= len {
        return Some(0);
    }
    proof {
        assert(mm[n as int].len() <= col_max(mm));
        assert(tab@[1]@[n as int] as int == par(s, n as int, 1) + 1);
        lemma_par_range(s, n as int, 1);
    }
    let p1 = tab[1][n];
    if p1 == 0 {
        return Some(0);
    }
    let p = p1 - 1;
    if m[p].len() < 3 {
        return None;
    }
    let l0 = m[p][0] as i64 + 1;
    let l1 = m[n][1] as i64;
    let l2 = m[p][2] as i64 + 1;
    proof {
        assert(tab@[1]@[n + 1] as int == par(s, n + 1, 1) + 1);
    }
    if tab[1][n] == tab[1][n + 1] && row3_x(m, n + 1, l0, l1, l2) {
        return Some(n + 2);
    }
    let mut q: usize = n;
    loop
        invariant
            q <= n < len == m@.len() == mm.len() == s.len(),
            mm == mat(m@),
            s == padded(mm),
            ptab_ok(tab@, s, col_max(mm)),
            col_max(mm) >= 3,
            n + 1 < len,
            up(mm, n as int) == up_search(mm, n as int, q as int, l0 as int, l1 as int, l2 as int),
        decreases q,
    {
        proof {
            assert(tab@[0]@[q as int] as int == par(s, q as int, 0) + 1);
            lemma_par_range(s, q as int, 0);
        }
        let q2 = tab[0][q];
        if q2 == 0 {
            return Some(0);
        }
        let qi = q2 - 1;
        proof {
            assert(tab@[1]@[qi as int] as int == par(s, qi as int, 1) + 1);
        }
        if tab[1][n] == tab[1][qi] && row3_x(m, qi, l0, l1, l2) {
            if m[n + 1].len() == 0 {
                return None;
            }
            if m[n + 1][0] > m[qi][0] {
                return Some(q2);
            }
        }
        q = qi;
    }
}

/// Row-0 children of every column.
fn children_table(tab: &Vec<Vec<usize>>, l: usize, Ghost(s): Ghost<Seq<Seq<int>>>) -> (r: Vec<
    Vec<usize>,
>)
    requires
        tab@.len() >= 1,
        tab@[0]@.len() == l == s.len(),
        forall|c: int| 0 <= c < l ==> (#[trigger] tab@[0]@[c]) as int == par(s, c, 0) + 1,
    ensures
        r@.len() == l,
        forall|n: int| 0 <= n < l ==> idxs((#[trigger] r@[n])@) == kids(s, n),
{
    let mut out: Vec<Vec<usize>> = Vec::new();
    let mut p: usize = 0;
    while p < l
        invariant
            p <= l,
            tab@.len() >= 1,
            tab@[0]@.len() == l == s.len(),
            forall|c: int| 0 <= c < l ==> (#[trigger] tab@[0]@[c]) as int == par(s, c, 0) + 1,
            out@.len() == p,
            forall|n: int| 0 <= n < p ==> idxs((#[trigger] out@[n])@) == kids(s, n),
        decreases l - p,
    {
        let mut v: Vec<usize> = Vec::new();
        let mut i: usize = 0;
        while i < l
            invariant
                i <= l,
                p < l,
                tab@.len() >= 1,
                tab@[0]@.len() == l == s.len(),
                forall|c: int| 0 <= c < l ==> (#[trigger] tab@[0]@[c]) as int == par(s, c, 0) + 1,
                idxs(v@) == kids_upto(s, p as int, i as int),
            decreases l - i,
        {
            let ghost v0 = v@;
            if tab[0][i] == p + 1 {
                v.push(i);
                proof {
                    assert(idxs(v@) =~= idxs(v0).push(i as int));
                }
            }
            i = i + 1;
        }
        let ghost o0 = out@;
        out.push(v);
        proof {
            assert forall|n: int| 0 <= n < p + 1 implies idxs((#[trigger] out@[n])@) == kids(s, n) by {
                if n < p {
                    assert(out@[n] == o0[n]);
                }
            }
        }
        p = p + 1;
    }
    out
}

/// Whether column `i` is some column's upgrader.
fn is_up_x(ctx: &BmsContext, i: usize, Ghost(mm): Ghost<Seq<Seq<int>>>) -> (r: bool)
    requires
        ctx.ready(mm),
    ensures
        r == is_up(mm, i as int),
{
    let mut x: usize = 0;
    while x < ctx.upgrader.len()
        invariant
            x <= ctx.upgrader@.len() == mm.len(),
            ctx.ready(mm),
            forall|y: int| 0 <= y < x ==> up(mm, y) != Some(i as int),
        decreases ctx.upgrader.len() - x,
    {
        proof {
            assert(up(mm, x as int) == Some(ctx.upgrader@[x as int] as int - 1));
        }
        if ctx.upgrader[x] > 0 && ctx.upgrader[x] - 1 == i {
            return true;
        }
        x = x + 1;
    }
    false
}


pub proof fn lemma_ns_sum_none(m: Seq<Seq<int>>, n: int, ks: Seq<int>, j: int, f: nat)
    requires
        0 <= j <= ks.len(),
        ns_sum(m, n, ks.take(j), f) is None,
    ensures
        ns_sum(m, n, ks, f) is None,
    decreases ks.len() - j,
{
    if j < ks.len() {
        assert(ks.take(j + 1).drop_last() =~= ks.take(j));
        lemma_ns_sum_none(m, n, ks, j + 1, f);
    } else {
        assert(ks.take(j) =~= ks);
    }
}

pub proof fn lemma_cnt_sum_none(m: Seq<Seq<int>>, n: int, ks: Seq<int>, j: int, f: nat)
    requires
        0 <= j <= ks.len(),
        cnt_sum(m, n, ks.take(j), f) is None,
    ensures
        cnt_sum(m, n, ks, f) is None,
    decreases ks.len() - j,
{
    if j < ks.len() {
        assert(ks.take(j + 1).drop_last() =~= ks.take(j));
        lemma_cnt_sum_none(m, n, ks, j + 1, f);
    } else {
        assert(ks.take(j) =~= ks);
    }
}

pub proof fn lemma_q_sum_none(m: Seq<Seq<int>>, ks: Seq<int>, j: int, f: nat)
    requires
        0 <= j <= ks.len(),
        q_sum(m, ks.take(j), f) is None,
    ensures
        q_sum(m, ks, f) is None,
    decreases ks.len() - j,
{
    if j < ks.len() {
        assert(ks.take(j + 1).drop_last() =~= ks.take(j));
        lemma_q_sum_none(m, ks, j + 1, f);
    } else {
        assert(ks.take(j) =~= ks);
    }
}

pub proof fn lemma_top_sum_none(m: Seq<Seq<int>>, j: int, k: int, f: nat)
    requires
        0 <= j <= k,
        top_sum(m, j, f) is None,
    ensures
        top_sum(m, k, f) is None,
    decreases k - j,
{
    if j < k {
        lemma_top_sum_none(m, j, k - 1, f);
    }
}

/// The term of column `n` (see `ns`).
fn column_term(m: &Matrix, ctx: &BmsContext, n: usize, f: u64) -> (r: Option<Term>)
    requires
        ctx.ready(mat(m@)),
        n < m@.len(),
    ensures
        r == ns(mat(m@), n as int, f as nat),
    decreases f, 0nat,
{
    if f == 0 {
        return None;
    }
    let g = f - 1;
    let idx = match column_index(m, ctx, n, g) {
        None => {
            return None;
        },
        Some(x) => x,
    };
    let ghost mm = mat(m@);
    let ghost s = padded(mm);
    let ghost ks = kids(s, n as int);
    proof {
        reveal(BmsContext::ready);
        lemma_kids_upto(s, n as int, s.len() as int);
    }
    let kv = &ctx.children[n];
    let mut acc: Term = None;
    let mut k: usize = 0;
    proof {
        assert(ks.take(0) =~= Seq::<int>::empty());
    }
    while k < kv.len()
        invariant
            k <= kv@.len(),
            mm == mat(m@),
            s == padded(mm),
            ks == kids(s, n as int),
            idxs(kv@) == ks,
            ctx.ready(mm),
            n < m@.len() == mm.len() == s.len(),
            g + 1 == f,
            forall|j: int| 0 <= j < ks.len() ==> 0 <= #[trigger] ks[j] < s.len(),
            ns_sum(mm, n as int, ks.take(k as int), g as nat) == Some(acc),
        decreases kv.len() - k,
    {
        let i = kv[k];
        proof {
            assert(ks.take(k + 1).drop_last() =~= ks.take(k as int));
            assert(ks[k as int] == i as int);
            assert(ks.take(k + 1).last() == i as int);
            assert(mm[i as int].len() == m@[i as int]@.len());
            assert(mm[n as int].len() == m@[n as int]@.len());
        }
        let mi = m[i].len();
        let mn = m[n].len();
        if mi >= 3 && mn < 2 {
            proof {
                lemma_ns_sum_none(mm, n as int, ks, k + 1, g as nat);
            }
            return None;
        }
        let skip = if mi >= 3 && row3_x(m, i, m[n][0] as i64 + 1, m[n][1] as i64, 1) {
            true
        } else if is_up_x(ctx, i, Ghost(mm)) {
            proof {
                reveal(BmsContext::ready);
                lemma_kids_upto(s, i as int, s.len() as int);
            }
            let c = &ctx.children[i];
            if c.len() == 0 {
                true
            } else {
                let last = c[c.len() - 1];
                proof {
                    let kc = kids(s, i as int);
                    assert(idxs(c@) == kc);
                    assert(kc.last() == last as int);
                    assert(mm[last as int].len() == m@[last as int]@.len());
                }
                if m[last].len() >= 3 && m[i].len() < 2 {
                    proof {
                        lemma_ns_sum_none(mm, n as int, ks, k + 1, g as nat);
                    }
                    return None;
                }
                if m[last].len() >= 3 {
                    row3_x(m, last, m[i][0] as i64 + 1, m[i][1] as i64, 1)
                } else {
                    false
                }
            }
        } else {
            false
        };
        if !skip {
            match column_term(m, ctx, i, g) {
                None => {
                    proof {
                        lemma_ns_sum_none(mm, n as int, ks, k + 1, g as nat);
                    }
                    return None;
                },
                Some(v) => {
                    acc = crate::term::add(&acc, &v);
                },
            }
        }
        k = k + 1;
    }
    proof {
        assert(ks.take(kv@.len() as int) =~= ks);
    }
    Some(t(idx, acc, None))
}

/// The index of column `n` (see `ix`).
fn column_index(m: &Matrix, ctx: &BmsContext, n: usize, f: u64) -> (r: Option<Term>)
    requires
        ctx.ready(mat(m@)),
        n < m@.len(),
    ensures
        r == ix(mat(m@), n as int, f as nat),
    decreases f, 0nat,
{
    let ghost mm = mat(m@);
    let ghost s = padded(mm);
    proof {
        assert(mm[n as int].len() == m@[n as int]@.len());
    }
    if f == 0 {
        return None;
    }
    if m[n].len() < 2 || m[n][1] == 0 {
        return Some(None);
    }
    let g = f - 1;
    proof {
        reveal(BmsContext::ready);
        lemma_col_max(mm);
        assert(mm[n as int].len() <= col_max(mm));
        assert(ctx.parent@[1]@[n as int] as int == par(s, n as int, 1) + 1);
        lemma_par_range(s, n as int, 1);
    }
    let p1 = ctx.parent[1][n];
    if m[n].len() < 3 || m[n][2] == 0 {
        let u1 = ctx.upgrader[n];
        proof {
            lemma_up_range(mm, n as int);
        }
        let adm = if u1 > 0 {
            match column_index(m, ctx, u1 - 1, g) {
                None => {
                    return None;
                },
                Some(x) => last_term(&x),
            }
        } else {
            one()
        };
        if p1 == 0 {
            return None;
        }
        match column_index(m, ctx, p1 - 1, g) {
            None => None,
            Some(b) => Some(crate::term::add(&b, &adm)),
        }
    } else {
        let ghost ks = kids(s, n as int);
        proof {
            lemma_kids_upto(s, n as int, s.len() as int);
        }
        let kv = &ctx.children[n];
        let mut acc: Term = one();
        let mut k: usize = 0;
        proof {
            assert(ks.take(0) =~= Seq::<int>::empty());
            assert(mm[n as int][1] == m@[n as int]@[1] && mm[n as int][2] == m@[n as int]@[2]);
            assert(cnt_sum(mm, n as int, ks, g as nat) is None ==> ix(mm, n as int, f as nat) is None);
        }
        while k < kv.len()
            invariant
                k <= kv@.len(),
                mm == mat(m@),
                s == padded(mm),
                ks == kids(s, n as int),
                idxs(kv@) == ks,
                ctx.ready(mm),
                n < m@.len() == mm.len() == s.len(),
                mm[n as int].len() >= 3,
                g + 1 == f,
                cnt_sum(mm, n as int, ks, g as nat) is None ==> ix(mm, n as int, f as nat) is None,
                forall|j: int| 0 <= j < ks.len() ==> 0 <= #[trigger] ks[j] < s.len(),
                cnt_sum(mm, n as int, ks.take(k as int), g as nat) == Some(acc),
            decreases kv.len() - k,
        {
            let i = kv[k];
            proof {
                assert(ks.take(k + 1).drop_last() =~= ks.take(k as int));
                assert(ks[k as int] == i as int);
                assert(ks.take(k + 1).last() == i as int);
            }
            if row3_x(m, i, m[n][0] as i64 + 1, m[n][1] as i64, 1) {
                let ghost ks2 = kids(s, i as int);
                proof {
                    reveal(BmsContext::ready);
                    lemma_kids_upto(s, i as int, s.len() as int);
                }
                let kv2 = &ctx.children[i];
                let mut q: Term = None;
                let mut j: usize = 0;
                proof {
                    assert(ks2.take(0) =~= Seq::<int>::empty());
                }
                while j < kv2.len()
                    invariant
                        j <= kv2@.len(),
                        mm == mat(m@),
                        s == padded(mm),
                        ks2 == kids(s, i as int),
                        idxs(kv2@) == ks2,
                        ctx.ready(mm),
                        mm.len() == s.len() == m@.len(),
                        g + 1 == f,
                        cnt_sum(mm, n as int, ks, g as nat) is None ==> ix(mm, n as int, f as nat) is None,
                        k < kv@.len(),
                        idxs(kv@) == ks,
                        ks == kids(s, n as int),
                        ks[k as int] == i as int,
                        row3(mm, i as int, mm[n as int][0] + 1, mm[n as int][1], 1),
                        cnt_sum(mm, n as int, ks.take(k as int), g as nat) == Some(acc),
                        ks.take(k + 1).drop_last() == ks.take(k as int),
                        ks.take(k + 1).last() == i as int,
                        forall|t: int| 0 <= t < ks2.len() ==> 0 <= #[trigger] ks2[t] < s.len(),
                        q_sum(mm, ks2.take(j as int), g as nat) == Some(q),
                    decreases kv2.len() - j,
                {
                    let c = kv2[j];
                    proof {
                        assert(ks2.take(j + 1).drop_last() =~= ks2.take(j as int));
                        assert(ks2[j as int] == c as int);
                        assert(ks2.take(j + 1).last() == c as int);
                    }
                    match column_term(m, ctx, c, g) {
                        None => {
                            proof {
                                lemma_q_sum_none(mm, ks2, j + 1, g as nat);
                                lemma_cnt_sum_none(mm, n as int, ks, k + 1, g as nat);
                            }
                            return None;
                        },
                        Some(v) => {
                            q = crate::term::add(&q, &v);
                        },
                    }
                    j = j + 1;
                }
                proof {
                    assert(ks2.take(kv2@.len() as int) =~= ks2);
                }
                acc = crate::term::add(&acc, &exp(&q));
            }
            k = k + 1;
        }
        proof {
            assert(ks.take(kv@.len() as int) =~= ks);
        }
        if p1 == 0 {
            return None;
        }
        match column_index(m, ctx, p1 - 1, g) {
            None => None,
            Some(b) => Some(crate::term::add(&b, &exp(&acc))),
        }
    }
}


pub proof fn lemma_no_top(m: Seq<Seq<int>>, k: int, f: nat)
    requires
        0 <= k <= m.len(),
        forall|i: int| 0 <= i < m.len() ==> (#[trigger] m[i]).len() == 0,
    ensures
        top_sum(m, k, f) == Some(None::<Box<TermNode>>),
    decreases k,
{
    if k > 0 {
        lemma_no_top(m, k - 1, f);
        assert(m[k - 1].len() == 0);
    }
}

impl BmsContext {
    /// Builds the tables for a matrix with at least one row; `false` when
    /// some upgrader cannot be computed (the matrix lacks an entry that it
    /// reads).
    fn fill(&mut self, m: &Matrix) -> (ok: bool)
        requires
            col_max(mat(m@)) >= 1,
        ensures
            ok == ups_ok(mat(m@)),
            ok ==> final(self).ready(mat(m@)),
    {
        let ghost mm = mat(m@);
        let rows = matrix_rows(m);
        let s = pad_matrix(m, rows);
        let tab = parent_table(&s, rows);
        let l = m.len();
        proof {
            assert(mat(s@) == padded(mm));
            assert(ptab_ok(tab@, padded(mm), col_max(mm)));
        }
        let children = children_table(&tab, l, Ghost(padded(mm)));
        let mut ups: Vec<usize> = Vec::new();
        let mut x: usize = 0;
        while x < l
            invariant
                x <= l == m@.len() == mm.len(),
                mm == mat(m@),
                ptab_ok(tab@, padded(mm), col_max(mm)),
                ups@.len() == x,
                forall|y: int| 0 <= y < x ==> up(mm, y) == Some((#[trigger] ups@[y]) as int - 1),
            decreases l - x,
        {
            match upgrader_of(m, &tab, x) {
                None => {
                    proof {
                        assert(!(up(mm, x as int) is Some));
                    }
                    return false;
                },
                Some(u) => {
                    ups.push(u);
                },
            }
            x = x + 1;
        }
        self.parent = tab;
        self.children = children;
        self.upgrader = ups;
        proof {
            reveal(BmsContext::ready);
            assert forall|y: int| 0 <= y < mm.len() implies (#[trigger] up(mm, y)) is Some by {
                assert(up(mm, y) == Some(self.upgrader@[y] as int - 1));
            }
        }
        true
    }

    /// The sum of the terms of the top-level columns, in standard form.
    fn evaluate(&self, m: &Matrix) -> (r: Option<Term>)
        requires
            self.ready(mat(m@)),
            ups_ok(mat(m@)),
        ensures
            r == bms_value(mat(m@)),
    {
        let ghost mm = mat(m@);
        let mut acc: Term = None;
        let mut i: usize = 0;
        while i < m.len()
            invariant
                i <= m@.len() == mm.len(),
                mm == mat(m@),
                self.ready(mm),
                top_sum(mm, i as int, BMS_FUEL as nat) == Some(acc),
            decreases m.len() - i,
        {
            let col = &m[i];
            proof {
                assert(mm[i as int] == col@.map_values(|x: i32| x as int));
            }
            let is_top = col.len() >= 1 && col[0] == 0 && (col.len() < 2 || col[1] == 0) && (
            col.len() < 3 || col[2] == 0);
            if is_top {
                match column_term(m, self, i, BMS_FUEL) {
                    None => {
                        proof {
                            lemma_top_sum_none(mm, i + 1, mm.len() as int, BMS_FUEL as nat);
                        }
                        return None;
                    },
                    Some(v) => {
                        acc = crate::term::add(&acc, &v);
                    },
                }
            }
            i = i + 1;
        }
        Some(standard_form(&acc))
    }

    /// BMS → BOCF: the term of the matrix, in standard form. The tables are
    /// built for this call and cleared afterwards.
    pub fn bms_to_bocf(&mut self, m: &Matrix) -> (r: Term)
        requires
            bms_value(mat(m@)) is Some,
        ensures
            r == bms_value(mat(m@))->0,
            final(self).is_clear(),
    {
        let r = match bms_to_bocf_in(self, m) {
            Some(x) => x,
            None => zero(),
        };
        self.parent = Vec::new();
        self.children = Vec::new();
        self.upgrader = Vec::new();
        r
    }
}

/// Builds the tables into `ctx` and evaluates.
fn bms_to_bocf_in(ctx: &mut BmsContext, m: &Matrix) -> (r: Option<Term>)
    ensures
        r == bms_value(mat(m@)),
{
    let ghost mm = mat(m@);
    let rows = matrix_rows(m);
    if rows == 0 {
        proof {
            lemma_col_max(mm);
            assert forall|i: int| 0 <= i < mm.len() implies (#[trigger] mm[i]).len() == 0 by {
                assert(mm[i].len() <= col_max(mm));
            }
            lemma_no_top(mm, mm.len() as int, BMS_FUEL as nat);
            assert forall|x: int| 0 <= x < mm.len() implies (#[trigger] up(mm, x)) is Some by {
                assert(mm[x].len() == 0);
            }
        }
        return Some(standard_form(&None));
    }
    if !ctx.fill(m) {
        return None;
    }
    ctx.evaluate(m)
}

/// One-shot BMS → BOCF: `None` where the unchecked evaluation would read an
/// entry that a column lacks or would not end.
pub fn bms_to_bocf_checked(m: &Matrix) -> (r: Option<Term>)
    ensures
        r == bms_value(mat(m@)),
{
    let mut ctx = BmsContext::new();
    bms_to_bocf_in(&mut ctx, m)
}

/// Convenience: one-shot BMS → BOCF without managing a context.
pub fn bms_to_bocf(m: &Matrix) -> (r: Term)
    requires
        bms_value(mat(m@)) is Some,
    ensures
        r == bms_value(mat(m@))->0,
{
    let mut ctx = BmsContext::new();
    ctx.bms_to_bocf(m)
}

// ============================================================
// Standardness check (BM4)
// ============================================================

pub open spec fn fits32(x: int) -> bool {
    i32::MIN <= x <= i32::MAX
}

/// The bad-root search over `k`, with Delta so far; `Some((k, Delta))` at
/// the bad root, `Some((0, _))` when there is none, `None` where an `i32`
/// operation overflows.
pub open spec fn gb_k(s: Seq<Seq<int>>, n: int, row: int, k: int, delta: Seq<int>) -> Option<
    (int, Seq<int>),
>
    decreases n + 1 - k, row + 2,
{
    if k > n || k < 0 || row < 0 {
        Some((0, delta))
    } else {
        gb_l(s, n, row, k, 0, delta)
    }
}

/// Row `l` of the bad-root test at `k`.
pub open spec fn gb_l(s: Seq<Seq<int>>, n: int, row: int, k: int, l: int, delta: Seq<int>) -> Option<
    (int, Seq<int>),
>
    decreases n + 1 - k, row + 1 - l,
{
    if k > n || k < 0 {
        Some((0, delta))
    } else if l > row || l < 0 {
        gb_k(s, n, row, k + 1, delta)
    } else {
        let t = s[n][l] - delta[l];
        if !fits32(t) {
            None
        } else if s[n - k][l] < t {
            if l == row || s[n][l + 1] == 0 {
                Some((k, delta))
            } else {
                let d = s[n][l] - s[n - k][l];
                if !fits32(d) {
                    None
                } else {
                    gb_l(s, n, row, k, l + 1, delta.update(l, d))
                }
            }
        } else {
            gb_k(s, n, row, k + 1, delta)
        }
    }
}

pub open spec fn zeros(k: int) -> Seq<int> {
    Seq::new(if k < 0 { 0 } else { k as nat }, |i: int| 0)
}

/// The columns all have `rows` entries of `i32`.
pub open spec fn i32_cols(s: Seq<Vec<i32>>, rows: nat) -> bool {
    forall|i: int| 0 <= i < s.len() ==> (#[trigger] s[i])@.len() == rows
}

/// Phase one of the bad-part search: the bad part's length, with Delta.
fn bad_root_bm4(s: &Vec<Vec<i32>>, n: usize, row: usize, delta: &mut Vec<i32>) -> (r: Option<usize>)
    requires
        n < s@.len(),
        i32_cols(s@, (row + 1) as nat),
        old(delta)@.len() == row + 1,
    ensures
        final(delta)@.len() == row + 1,
        match gb_k(mat(s@), n as int, row as int, 0, ints(old(delta)@)) {
            None => r is None,
            Some(g) => r == Some(g.0 as usize) && ints(final(delta)@) == g.1 && 0 <= g.0 <= n,
        },
{
    let ghost sm = mat(s@);
    let ghost goal = gb_k(sm, n as int, row as int, 0, ints(old(delta)@));
    let ncols = s.len();
    let mut k: usize = 0;
    while k <= n
        invariant
            k <= n + 1,
            n < s@.len(),
            ncols == s@.len(),
            sm == mat(s@),
            goal == gb_k(mat(s@), n as int, row as int, 0, ints(old(delta)@)),
            i32_cols(s@, (row + 1) as nat),
            delta@.len() == row + 1,
            goal == gb_k(sm, n as int, row as int, k as int, ints(delta@)),
        decreases n + 1 - k,
    {
        let mut l: usize = 0;
        proof {
            assert(gb_k(sm, n as int, row as int, k as int, ints(delta@)) == gb_l(
                sm,
                n as int,
                row as int,
                k as int,
                0,
                ints(delta@),
            ));
        }
        while l <= row
            invariant
                l <= row + 1,
                k <= n,
                n < s@.len(),
                sm == mat(s@),
                goal == gb_k(mat(s@), n as int, row as int, 0, ints(old(delta)@)),
                i32_cols(s@, (row + 1) as nat),
                delta@.len() == row + 1,
                goal == gb_l(sm, n as int, row as int, k as int, l as int, ints(delta@)),
            ensures
                delta@.len() == row + 1,
                goal == gb_k(sm, n as int, row as int, k + 1, ints(delta@)),
            decreases row + 1 - l,
        {
            proof {
                assert(s@[n as int]@.len() == row + 1);
                assert(s@[(n - k) as int]@.len() == row + 1);
                assert(sm[n as int][l as int] == s@[n as int]@[l as int] as int);
                assert(sm[(n - k) as int][l as int] == s@[(n - k) as int]@[l as int] as int);
                assert(ints(delta@)[l as int] == delta@[l as int] as int);
                if l < row {
                    assert(sm[n as int][l + 1] == s@[n as int]@[l + 1] as int);
                }
            }
            let t: i64 = s[n][l] as i64 - delta[l] as i64;
            if t < i32::MIN as i64 || t > i32::MAX as i64 {
                return None;
            }
            if (s[n - k][l] as i64) < t {
                if l == row || s[n][l + 1] == 0 {
                    proof {
                        assert(0 <= k <= n);
                    }
                    return Some(k);
                }
                let d: i64 = s[n][l] as i64 - s[n - k][l] as i64;
                if d < i32::MIN as i64 || d > i32::MAX as i64 {
                    return None;
                }
                let ghost d0 = ints(delta@);
                delta.set(l, d as i32);
                proof {
                    assert(ints(delta@) =~= d0.update(l as int, d as int));
                }
                l = l + 1;
            } else {
                break;
            }
        }
        k = k + 1;
    }
    proof {
        assert(goal == Some::<(int, Seq<int>)>((0, ints(delta@))));
    }
    Some(0)
}

/// The search over `n2` for the C matrix entry of row `m` at step `l`,
/// with E so far: `Some(Some((p, q)))` where it stops, `Some(None)` when
/// it runs out, `None` where an `i32` operation overflows.
pub open spec fn mid_n2(s: Seq<Seq<int>>, n: int, l: int, m: int, bad: int, n2: int, e: Seq<int>) -> Option<
    Option<(int, int)>,
>
    decreases bad + 1 - n2, m + 2,
{
    if n2 > bad || n2 < 0 || m < 0 {
        Some(None)
    } else {
        mid_o(s, n, l, m, bad, n2, 0, e)
    }
}

pub open spec fn mid_o(
    s: Seq<Seq<int>>,
    n: int,
    l: int,
    m: int,
    bad: int,
    n2: int,
    o: int,
    e: Seq<int>,
) -> Option<Option<(int, int)>>
    decreases bad + 1 - n2, m + 1 - o,
{
    if n2 > bad || n2 < 0 {
        Some(None)
    } else if o > m || o < 0 {
        mid_n2(s, n, l, m, bad, n2 + 1, e)
    } else {
        let t = s[n - l + 1][o] - e[o];
        if !fits32(t) {
            None
        } else if s[n - n2][o] < t {
            if o == m || s[n - l + 1][o + 1] == 0 {
                Some(Some((n2, o)))
            } else {
                let d = s[n - l + 1][o] - s[n - n2][o];
                if !fits32(d) {
                    None
                } else {
                    mid_o(s, n, l, m, bad, n2, o + 1, e.update(o, d))
                }
            }
        } else {
            mid_n2(s, n, l, m, bad, n2 + 1, e)
        }
    }
}

/// The C entry that a search outcome gives.
pub open spec fn c_entry(c: Seq<int>, found: Option<(int, int)>, bad: int, m: int, nr: int) -> int {
    match found {
        None => 0,
        Some(pq) => if c[(bad - pq.0 + 1) * nr + m] == 1 && pq.1 == m {
            1
        } else {
            0
        },
    }
}

/// Rows `m..=row` of C column `bad - l + 2`.
pub open spec fn c_m(s: Seq<Seq<int>>, n: int, l: int, bad: int, row: int, m: int, c: Seq<int>) -> Option<
    Seq<int>,
>
    decreases row + 1 - m,
{
    if m > row || m < 0 {
        Some(c)
    } else {
        match mid_n2(s, n, l, m, bad, l, zeros(row + 1)) {
            None => None,
            Some(found) => c_m(
                s,
                n,
                l,
                bad,
                row,
                m + 1,
                c.update((bad - l + 2) * (row + 1) + m, c_entry(c, found, bad, m, row + 1)),
            ),
        }
    }
}

/// C columns for `l` down to 2.
pub open spec fn c_l(s: Seq<Seq<int>>, n: int, bad: int, row: int, l: int, c: Seq<int>) -> Option<
    Seq<int>,
>
    decreases l,
{
    if l < 2 {
        Some(c)
    } else {
        match c_m(s, n, l, bad, row, 0, c) {
            None => None,
            Some(c2) => c_l(s, n, bad, row, l - 1, c2),
        }
    }
}

proof fn lemma_c_index(k: int, nr: int, m: int, n: int)
    requires
        1 <= k <= n,
        0 <= m < nr,
    ensures
        0 <= k * nr,
        0 <= k * nr + m < (n + 1) * nr,
{
    assert(0 <= k * nr) by (nonlinear_arith)
        requires
            k >= 1,
            nr >= 1,
    ;
    assert(k * nr + m < (k + 1) * nr) by (nonlinear_arith)
        requires
            m < nr,
    ;
    assert((k + 1) * nr <= (n + 1) * nr) by (nonlinear_arith)
        requires
            k + 1 <= n + 1,
            nr >= 1,
    ;
}

/// The search for one C entry.
fn mid_search(s: &Vec<Vec<i32>>, n: usize, l: usize, m: usize, bad: usize, row: usize) -> (r: Option<
    Option<(usize, usize)>,
>)
    requires
        2 <= l <= bad <= n < s@.len(),
        m <= row < usize::MAX,
        i32_cols(s@, (row + 1) as nat),
    ensures
        match mid_n2(mat(s@), n as int, l as int, m as int, bad as int, l as int, zeros(row + 1)) {
            None => r is None,
            Some(None) => r == Some(None::<(usize, usize)>),
            Some(Some(pq)) => r == Some(Some((pq.0 as usize, pq.1 as usize))) && l <= pq.0 <= bad
                && 0 <= pq.1 <= m,
        },
{
    let ghost sm = mat(s@);
    let ghost goal = mid_n2(sm, n as int, l as int, m as int, bad as int, l as int, zeros(row + 1));
    let ncols = s.len();
    let mut e: Vec<i32> = Vec::new();
    let mut j: usize = 0;
    while j <= row
        invariant
            j <= row + 1,
            row < usize::MAX,
            e@.len() == j,
            forall|i: int| 0 <= i < j ==> e@[i] == 0,
        decreases row + 1 - j,
    {
        e.push(0);
        j = j + 1;
    }
    proof {
        assert(ints(e@) =~= zeros(row + 1));
    }
    let mut n2: usize = l;
    while n2 <= bad
        invariant
            l <= n2 <= bad + 1,
            2 <= l <= bad <= n < s@.len(),
            m <= row,
            ncols == s@.len(),
            i32_cols(s@, (row + 1) as nat),
            sm == mat(s@),
            e@.len() == row + 1,
            goal == mid_n2(sm, n as int, l as int, m as int, bad as int, l as int, zeros(row + 1)),
            goal == mid_n2(sm, n as int, l as int, m as int, bad as int, n2 as int, ints(e@)),
        decreases bad + 1 - n2,
    {
        let mut o: usize = 0;
        while o <= m
            invariant
                o <= m + 1,
                l <= n2 <= bad,
                2 <= l <= bad <= n < s@.len(),
                m <= row,
                ncols == s@.len(),
                i32_cols(s@, (row + 1) as nat),
                sm == mat(s@),
                e@.len() == row + 1,
                goal == mid_n2(sm, n as int, l as int, m as int, bad as int, l as int, zeros(row + 1)),
                goal == mid_o(sm, n as int, l as int, m as int, bad as int, n2 as int, o as int, ints(e@)),
            ensures
                e@.len() == row + 1,
                goal == mid_n2(sm, n as int, l as int, m as int, bad as int, n2 + 1, ints(e@)),
            decreases m + 1 - o,
        {
            let a = n - l + 1;
            let b = n - n2;
            proof {
                assert(s@[a as int]@.len() == row + 1);
                assert(s@[b as int]@.len() == row + 1);
                assert(sm[a as int][o as int] == s@[a as int]@[o as int] as int);
                assert(sm[b as int][o as int] == s@[b as int]@[o as int] as int);
                assert(ints(e@)[o as int] == e@[o as int] as int);
                if o < m {
                    assert(sm[a as int][o + 1] == s@[a as int]@[o + 1] as int);
                }
            }
            let t: i64 = s[a][o] as i64 - e[o] as i64;
            if t < i32::MIN as i64 || t > i32::MAX as i64 {
                return None;
            }
            if (s[b][o] as i64) < t {
                if o == m || s[a][o + 1] == 0 {
                    return Some(Some((n2, o)));
                }
                let d: i64 = s[a][o] as i64 - s[b][o] as i64;
                if d < i32::MIN as i64 || d > i32::MAX as i64 {
                    return None;
                }
                let ghost e0 = ints(e@);
                e.set(o, d as i32);
                proof {
                    assert(ints(e@) =~= e0.update(o as int, d as int));
                }
                o = o + 1;
            } else {
                break;
            }
        }
        n2 = n2 + 1;
    }
    Some(None)
}

/// Fill the C matrix columns for `l` from `bad` down to 2; false where an
/// `i32` operation overflows.
fn c_fill(s: &Vec<Vec<i32>>, n: usize, bad: usize, row: usize, c: &mut Vec<i32>) -> (r: bool)
    requires
        1 <= bad <= n < s@.len(),
        row < usize::MAX,
        i32_cols(s@, (row + 1) as nat),
        (n + 1) * (row + 1) <= old(c)@.len(),
    ensures
        final(c)@.len() == old(c)@.len(),
        match c_l(mat(s@), n as int, bad as int, row as int, bad as int, ints(old(c)@)) {
            None => !r,
            Some(c2) => r && ints(final(c)@) == c2,
        },
{
    let ghost sm = mat(s@);
    let ghost goal = c_l(sm, n as int, bad as int, row as int, bad as int, ints(c@));
    let nr = row + 1;
    let ncols = s.len();
    let clen = c.len();
    let mut l: usize = bad;
    while l >= 2
        invariant
            l <= bad <= n < s@.len(),
            1 <= bad,
            ncols == s@.len(),
            nr == row + 1,
            row < usize::MAX,
            i32_cols(s@, (row + 1) as nat),
            sm == mat(s@),
            clen == c@.len(),
            c@.len() == old(c)@.len(),
            (n + 1) * (row + 1) <= c@.len(),
            goal == c_l(mat(s@), n as int, bad as int, row as int, bad as int, ints(old(c)@)),
            goal == c_l(sm, n as int, bad as int, row as int, l as int, ints(c@)),
        decreases l,
    {
        let ghost gl = c_m(sm, n as int, l as int, bad as int, row as int, 0, ints(c@));
        let mut m: usize = 0;
        while m <= row
            invariant
                2 <= l <= bad <= n < s@.len(),
                ncols == s@.len(),
                nr == row + 1,
                m <= row + 1,
                row < usize::MAX,
                i32_cols(s@, (row + 1) as nat),
                sm == mat(s@),
                clen == c@.len(),
                c@.len() == old(c)@.len(),
                (n + 1) * (row + 1) <= c@.len(),
                goal == c_l(mat(s@), n as int, bad as int, row as int, bad as int, ints(old(c)@)),
                goal == match gl {
                    None => None,
                    Some(c2) => c_l(sm, n as int, bad as int, row as int, l - 1, c2),
                },
                gl == c_m(sm, n as int, l as int, bad as int, row as int, m as int, ints(c@)),
            decreases row + 1 - m,
        {
            let found = mid_search(s, n, l, m, bad, row);
            match found {
                None => {
                    return false;
                },
                Some(f) => {
                    let val: i32 = match f {
                        None => 0,
                        Some(pq) => {
                            proof {
                                lemma_c_index((bad - pq.0 + 1) as int, nr as int, m as int, n as int);
                            }
                            let idx = (bad - pq.0 + 1) * nr + m;
                            if c[idx] == 1 && pq.1 == m {
                                1
                            } else {
                                0
                            }
                        },
                    };
                    proof {
                        lemma_c_index((bad - l + 2) as int, nr as int, m as int, n as int);
                        assert(val == c_entry(
                            ints(c@),
                            match f {
                                None => None,
                                Some(pq) => Some((pq.0 as int, pq.1 as int)),
                            },
                            bad as int,
                            m as int,
                            nr as int,
                        ));
                    }
                    let widx = (bad - l + 2) * nr + m;
                    let ghost c0 = ints(c@);
                    c.set(widx, val);
                    proof {
                        assert(ints(c@) =~= c0.update(widx as int, val as int));
                    }
                },
            }
            m = m + 1;
        }
        l = l - 1;
    }
    true
}

/// The length of the bad part of column `n`'s expansion (0 for none),
/// with Delta and the C matrix.
pub open spec fn get_bad(s: Seq<Seq<int>>, n: int, row: int, delta: Seq<int>, c: Seq<int>) -> Option<
    (int, Seq<int>, Seq<int>),
> {
    if s[n][0] == 0 {
        Some((0, delta, c))
    } else {
        match gb_k(s, n, row, 0, zeros(row + 1)) {
            None => None,
            Some(g) => if g.0 == 0 {
                Some((0, g.1, c))
            } else {
                match c_l(s, n, g.0, row, g.0, c) {
                    None => None,
                    Some(c2) => Some((g.0, g.1, c2)),
                }
            },
        }
    }
}

fn get_bad_sequence_bm4(
    s: &Vec<Vec<i32>>,
    delta: &mut Vec<i32>,
    c: &mut Vec<i32>,
    n: usize,
    row: usize,
) -> (r: Option<usize>)
    requires
        n < s@.len(),
        row < usize::MAX,
        i32_cols(s@, (row + 1) as nat),
        old(delta)@.len() == row + 1,
        (n + 1) * (row + 1) <= old(c)@.len(),
    ensures
        final(delta)@.len() == row + 1,
        final(c)@.len() == old(c)@.len(),
        match get_bad(mat(s@), n as int, row as int, ints(old(delta)@), ints(old(c)@)) {
            None => r is None,
            Some(g) => r == Some(g.0 as usize) && ints(final(delta)@) == g.1 && ints(final(c)@)
                == g.2 && 0 <= g.0 <= n,
        },
{
    proof {
        assert(s@[n as int]@.len() == row + 1);
        assert(mat(s@)[n as int][0] == s@[n as int]@[0] as int);
    }
    if s[n][0] == 0 {
        return Some(0);
    }
    let mut i: usize = 0;
    while i <= row
        invariant
            i <= row + 1,
            row < usize::MAX,
            delta@.len() == row + 1,
            forall|j: int| 0 <= j < i ==> delta@[j] == 0,
        decreases row + 1 - i,
    {
        delta.set(i, 0);
        i = i + 1;
    }
    proof {
        assert(ints(delta@) =~= zeros(row + 1));
    }
    let bad = match bad_root_bm4(s, n, row, delta) {
        None => {
            return None;
        },
        Some(b) => b,
    };
    if bad == 0 {
        return Some(0);
    }
    if c_fill(s, n, bad, row, c) {
        Some(bad)
    } else {
        None
    }
}

/// A column plus Delta times C column `m`, from row `l` on.
pub open spec fn col_plus(col: Seq<int>, delta: Seq<int>, c: Seq<int>, m: int, nr: int, l: int) -> Option<
    Seq<int>,
>
    decreases nr - l,
{
    if l >= nr || l < 0 {
        Some(col)
    } else {
        let prod = delta[l] * c[l + m * nr];
        let v = col[l] + prod;
        if !fits32(prod) || !fits32(v) {
            None
        } else {
            col_plus(col.update(l, v), delta, c, m, nr, l + 1)
        }
    }
}

/// Columns `cur..nn` rewritten as copies of the bad part, raised by
/// Delta times the C column of their place in the copy.
pub open spec fn copy_bad(
    sa: Seq<Seq<int>>,
    delta: Seq<int>,
    c: Seq<int>,
    cur: int,
    nn: int,
    nr: int,
    bad: int,
    m: int,
) -> Option<Seq<Seq<int>>>
    decreases nn - cur,
{
    if cur >= nn {
        Some(sa)
    } else {
        match col_plus(sa[cur - bad], delta, c, m, nr, 0) {
            None => None,
            Some(col) => copy_bad(
                if cur < sa.len() {
                    sa.update(cur, col)
                } else {
                    sa.push(col)
                },
                delta,
                c,
                cur + 1,
                nn,
                nr,
                bad,
                if m + 1 > bad {
                    1
                } else {
                    m + 1
                },
            ),
        }
    }
}

fn copy_bad_sequence_bm4(
    s: &mut Vec<Vec<i32>>,
    delta: &Vec<i32>,
    c: &Vec<i32>,
    n: usize,
    nn: usize,
    row: usize,
    bad: usize,
) -> (r: bool)
    requires
        1 <= bad <= n < old(s)@.len(),
        row < usize::MAX,
        i32_cols(old(s)@, (row + 1) as nat),
        delta@.len() == row + 1,
        (n + 1) * (row + 1) <= c@.len(),
    ensures
        match copy_bad(mat(old(s)@), ints(delta@), ints(c@), n as int, nn as int, (row + 1) as int, bad as int, 1) {
            None => !r,
            Some(t) => r && mat(final(s)@) == t && i32_cols(final(s)@, (row + 1) as nat)
                && final(s)@.len() == if nn > old(s)@.len() { nn as int } else { old(s)@.len() as int },
        },
{
    let ghost goal = copy_bad(mat(s@), ints(delta@), ints(c@), n as int, nn as int, (row + 1) as int, bad as int, 1);
    let nr = row + 1;
    let clen = c.len();
    let mut cur = n;
    let mut m: usize = 1;
    while cur < nn
        invariant
            1 <= bad <= n <= cur,
            cur <= s@.len(),
            cur >= nn ==> s@.len() == if nn > old(s)@.len() { nn as int } else { old(s)@.len() as int },
            cur < nn ==> s@.len() == if cur > old(s)@.len() { cur as int } else { old(s)@.len() as int },
            n < old(s)@.len(),
            1 <= m <= bad,
            nr == row + 1,
            row < usize::MAX,
            i32_cols(s@, (row + 1) as nat),
            delta@.len() == row + 1,
            clen == c@.len(),
            (n + 1) * (row + 1) <= c@.len(),
            goal == copy_bad(mat(old(s)@), ints(delta@), ints(c@), n as int, nn as int, (row + 1) as int, bad as int, 1),
            goal == copy_bad(mat(s@), ints(delta@), ints(c@), cur as int, nn as int, nr as int, bad as int, m as int),
        decreases nn - cur,
    {
        let src = cur - bad;
        proof {
            assert(s@[src as int]@.len() == row + 1);
        }
        let mut col: Vec<i32> = s[src].clone();
        let ghost g0 = col_plus(mat(s@)[src as int], ints(delta@), ints(c@), m as int, nr as int, 0);
        proof {
            assert(ints(col@) =~= mat(s@)[src as int]);
            assert(g0 is None ==> goal is None);
        }
        let mut l: usize = 0;
        while l < nr
            invariant
                l <= nr,
                g0 is None ==> goal is None,
                goal == copy_bad(mat(old(s)@), ints(delta@), ints(c@), n as int, nn as int, (row + 1) as int, bad as int, 1),
                nr == row + 1,
                1 <= m <= bad <= n,
                col@.len() == nr,
                delta@.len() == nr,
                clen == c@.len(),
                (n + 1) * (row + 1) <= c@.len(),
                g0 == col_plus(ints(col@), ints(delta@), ints(c@), m as int, nr as int, l as int),
            decreases nr - l,
        {
            proof {
                lemma_c_index(m as int, nr as int, l as int, n as int);
            }
            let da = delta[l] as i64;
            let cb = c[l + m * nr] as i64;
            assert(-0x8000_0000_0000_0000 < da * cb < 0x7fff_ffff_ffff_ffff) by (nonlinear_arith)
                requires
                    -0x8000_0000 <= da < 0x8000_0000,
                    -0x8000_0000 <= cb < 0x8000_0000,
            ;
            let prod: i64 = da * cb;
            if prod < i32::MIN as i64 || prod > i32::MAX as i64 {
                return false;
            }
            let v: i64 = col[l] as i64 + prod;
            if v < i32::MIN as i64 || v > i32::MAX as i64 {
                return false;
            }
            let ghost c0 = ints(col@);
            col.set(l, v as i32);
            proof {
                assert(ints(col@) =~= c0.update(l as int, v as int));
            }
            l = l + 1;
        }
        let ghost sm0 = mat(s@);
        let ghost colv = ints(col@);
        if cur < s.len() {
            s.set(cur, col);
            proof {
                assert(mat(s@) =~= sm0.update(cur as int, colv));
            }
        } else {
            s.push(col);
            proof {
                assert(mat(s@) =~= sm0.push(colv));
            }
        }
        cur = cur + 1;
        m = m + 1;
        if m > bad {
            m = 1;
        }
    }
    true
}

/// Column `i` of `s` has an entry above that of `sa`.
pub open spec fn larger_at(s: Seq<Seq<int>>, sa: Seq<Seq<int>>, i: int, row: int) -> bool {
    exists|j: int| 0 <= j <= row && #[trigger] s[i][j] > sa[i][j]
}

/// Column `i` of `s` has an entry below that of `sa`.
pub open spec fn smaller_at(s: Seq<Seq<int>>, sa: Seq<Seq<int>>, i: int, row: int) -> bool {
    exists|j: int| 0 <= j <= row && #[trigger] s[i][j] < sa[i][j]
}

/// From column `i` on: the first column where `s` and `sa` differ, -1
/// where that column of `s` is only above, -2 where none differs.
pub open spec fn scan(s: Seq<Seq<int>>, sa: Seq<Seq<int>>, row: int, i: int) -> int
    decreases s.len() - i,
{
    if i >= s.len() || i < 0 {
        -2
    } else if larger_at(s, sa, i, row) && !smaller_at(s, sa, i, row) {
        -1
    } else if larger_at(s, sa, i, row) || smaller_at(s, sa, i, row) {
        i
    } else {
        scan(s, sa, row, i + 1)
    }
}

/// Rounds of the standardness check at most.
pub const STD_ROUNDS: u64 = 100000;

/// The copies that reach past the last column.
pub open spec fn copies_end(nc: int, pp: int, bad: int) -> int {
    pp + bad * ((nc + 1 - pp) / bad + 1)
}

/// Rounds of the check: expand the standard sequence above at `pp`, then
/// compare; `None` where an `i32` operation overflows or the rounds run out.
pub open spec fn std_loop(
    s: Seq<Seq<int>>,
    row: int,
    sa: Seq<Seq<int>>,
    delta: Seq<int>,
    c: Seq<int>,
    pp: int,
    fuel: nat,
) -> Option<bool>
    decreases fuel,
{
    if fuel == 0 {
        None
    } else {
        match get_bad(sa, pp, row, delta, c) {
            None => None,
            Some(g) => if g.0 == 0 || pp < g.0 {
                Some(false)
            } else {
                match copy_bad(sa, g.1, g.2, pp, copies_end(s.len() as int, pp, g.0), row + 1, g.0, 1) {
                    None => None,
                    Some(sa2) => {
                        let np = scan(s, sa2, row, pp);
                        if np == -2 {
                            Some(true)
                        } else if np == -1 {
                            Some(false)
                        } else {
                            std_loop(s, row, sa2, g.1, g.2, np, (fuel - 1) as nat)
                        }
                    },
                }
            },
        }
    }
}

/// The last row below `nr` that column `col` has positive from `j` on
/// (`cur` if none).
pub open spec fn row_scan(col: Seq<int>, j: int, nr: int, cur: int) -> int
    decreases nr - j,
{
    if j >= nr {
        cur
    } else {
        row_scan(
            col,
            j + 1,
            nr,
            if col[j] > 0 {
                j
            } else {
                cur
            },
        )
    }
}

/// The last row in use, column by column.
pub open spec fn real_row(s: Seq<Seq<int>>, nr: int, i: int, row: int) -> int
    decreases s.len() - i,
{
    if i >= s.len() || i < 0 || row + 1 == nr {
        row
    } else {
        real_row(s, nr, i + 1, row_scan(s[i], row + 1, nr, row))
    }
}

/// Entry `j` of column `i` of the standard sequence: `(i, i, …)` or, for
/// the triangular one, `(i, i-1, …, 1, 0, …)`.
pub open spec fn id_val(i: int, j: int, tri: bool) -> int {
    if tri {
        if j <= i {
            ((i - j) as i32) as int
        } else {
            0
        }
    } else {
        (i as i32) as int
    }
}

/// The first column that falls below the standard sequence (-2 if none),
/// or -1 where one rises above it first.
pub open spec fn find_p(s: Seq<Seq<int>>, row: int, tri: bool, i: int, j: int) -> int
    decreases s.len() - i, row + 1 - j,
{
    if i >= s.len() || i < 0 {
        -2
    } else if j > row || j < 0 {
        find_p(s, row, tri, i + 1, 0)
    } else if s[i][j] > id_val(i, j, tri) {
        -1
    } else if s[i][j] < id_val(i, j, tri) {
        i
    } else {
        find_p(s, row, tri, i, j + 1)
    }
}

pub open spec fn id_cols(k: int, row: int, tri: bool) -> Seq<Seq<int>> {
    Seq::new(
        if k < 0 { 0 } else { k as nat },
        |i: int| Seq::new((row + 1) as nat, |j: int| id_val(i, j, tri)),
    )
}

/// The initial C matrix: column 1 all ones.
pub open spec fn c_init(row: int, nc: int) -> Seq<int> {
    Seq::new(((row + 1) * nc * 2) as nat, |k: int| if row + 1 <= k <= 2 * row + 1 { 1 } else { 0 })
}

/// The standardness check: `Some(true)` standard, `Some(false)` not;
/// `None` where an `i32` operation overflows or the rounds run out.
pub open spec fn std_check(m: Seq<Seq<int>>, tri: bool) -> Option<bool> {
    if m.len() == 0 {
        Some(true)
    } else {
        let s = padded(m);
        let row = real_row(s, col_max(m) as int, 0, 0);
        let p = find_p(s, row, tri, 0, 0);
        if p == -1 {
            Some(false)
        } else if p < 0 {
            Some(true)
        } else {
            std_loop(
                s,
                row,
                id_cols(p + 1, row, tri),
                zeros(row + 1),
                c_init(row, m.len() as int),
                p,
                STD_ROUNDS as nat,
            )
        }
    }
}

/// The sizes the check works with fit in `usize`.
pub open spec fn std_sizes_fit(m: Seq<Seq<int>>) -> bool {
    &&& (col_max(m) + 1) * (m.len() + 1) * 2 <= usize::MAX
    &&& m.len() * 4 + 4 <= usize::MAX
}

proof fn lemma_row_scan(col: Seq<int>, j: int, nr: int, cur: int)
    requires
        0 <= cur < nr,
        cur < j,
    ensures
        0 <= row_scan(col, j, nr, cur) < nr,
        row_scan(col, j, nr, cur) >= cur,
    decreases nr - j,
{
    if j < nr {
        if col[j] > 0 {
            lemma_row_scan(col, j + 1, nr, j);
        } else {
            lemma_row_scan(col, j + 1, nr, cur);
        }
    }
}

proof fn lemma_real_row(s: Seq<Seq<int>>, nr: int, i: int, row: int)
    requires
        0 <= row < nr,
    ensures
        0 <= real_row(s, nr, i, row) < nr,
    decreases s.len() - i,
{
    if !(i >= s.len() || i < 0 || row + 1 == nr) {
        lemma_row_scan(s[i], row + 1, nr, row);
        lemma_real_row(s, nr, i + 1, row_scan(s[i], row + 1, nr, row));
    }
}

proof fn lemma_copies_end(nc: int, pp: int, bad: int)
    requires
        1 <= bad <= pp < nc,
    ensures
        nc < copies_end(nc, pp, bad) <= 2 * nc + 1,
{
    let x = nc + 1 - pp;
    let q = x / bad;
    assert(bad * q <= x && x < bad * q + bad) by (nonlinear_arith)
        requires
            bad >= 1,
            x >= 0,
            q == x / bad,
    ;
    assert(bad * (q + 1) == bad * q + bad) by (nonlinear_arith);
}

proof fn lemma_c_size(pp: int, row: int, nc: int, nr: int)
    requires
        0 <= pp < nc,
        0 <= row < nr,
    ensures
        (pp + 1) * (row + 1) <= (row + 1) * nc * 2,
        (row + 1) * nc * 2 <= (nr + 1) * (nc + 1) * 2,
        2 * row + 1 < (row + 1) * nc * 2,
{
    assert((pp + 1) * (row + 1) <= nc * (row + 1)) by (nonlinear_arith)
        requires
            pp + 1 <= nc,
            row >= 0,
    ;
    assert(nc * (row + 1) <= (row + 1) * nc * 2) by (nonlinear_arith)
        requires
            nc >= 0,
            row >= 0,
    ;
    assert((row + 1) * nc * 2 <= (nr + 1) * (nc + 1) * 2) by (nonlinear_arith)
        requires
            row + 1 <= nr + 1,
            nc <= nc + 1,
            row >= 0,
            nc >= 0,
    ;
    assert(2 * row + 1 < (row + 1) * nc * 2) by (nonlinear_arith)
        requires
            nc >= 1,
            row >= 0,
    ;
}

pub(crate) fn id_entry(i: usize, j: usize, tri: bool) -> (r: i32)
    ensures
        r == id_val(i as int, j as int, tri),
{
    if tri {
        if j <= i {
            (i - j) as i32
        } else {
            0
        }
    } else {
        i as i32
    }
}

/// The first column of `s` below the standard sequence: `Ok(p)`,
/// `Err(false)` where one rises above it first, `Err(true)` where none.
pub(crate) fn find_smaller_column(s: &Vec<Vec<i32>>, row: usize, tri: bool) -> (r: Result<usize, bool>)
    requires
        row < usize::MAX,
        forall|i: int| 0 <= i < s@.len() ==> row < (#[trigger] s@[i])@.len(),
    ensures
        match r {
            Ok(p) => find_p(mat(s@), row as int, tri, 0, 0) == p && p < s@.len(),
            Err(b) => find_p(mat(s@), row as int, tri, 0, 0) == if b {
                -2int
            } else {
                -1int
            },
        },
{
    let ghost sm = mat(s@);
    let ghost goal = find_p(sm, row as int, tri, 0, 0);
    let mut i: usize = 0;
    while i < s.len()
        invariant
            i <= s@.len(),
            row < usize::MAX,
            sm == mat(s@),
            forall|k: int| 0 <= k < s@.len() ==> row < (#[trigger] s@[k])@.len(),
            goal == find_p(mat(s@), row as int, tri, 0, 0),
            goal == find_p(sm, row as int, tri, i as int, 0),
        decreases s@.len() - i,
    {
        let mut j: usize = 0;
        while j <= row
            invariant
                j <= row + 1,
                row < usize::MAX,
                i < s@.len(),
                sm == mat(s@),
                forall|k: int| 0 <= k < s@.len() ==> row < (#[trigger] s@[k])@.len(),
                goal == find_p(mat(s@), row as int, tri, 0, 0),
                goal == find_p(sm, row as int, tri, i as int, j as int),
            decreases row + 1 - j,
        {
            proof {
                assert(row < s@[i as int]@.len());
                assert(sm[i as int][j as int] == s@[i as int]@[j as int] as int);
            }
            let v = id_entry(i, j, tri);
            if s[i][j] > v {
                return Err(false);
            }
            if s[i][j] < v {
                return Ok(i);
            }
            j = j + 1;
        }
        i = i + 1;
    }
    Err(true)
}

/// Compare `s` with `sa` from column `from` on (see `scan`).
fn scan_columns(s: &Vec<Vec<i32>>, sa: &Vec<Vec<i32>>, row: usize, from: usize) -> (r: Result<
    usize,
    bool,
>)
    requires
        row < usize::MAX,
        from <= s@.len() <= sa@.len(),
        forall|i: int| 0 <= i < s@.len() ==> row < (#[trigger] s@[i])@.len(),
        i32_cols(sa@, (row + 1) as nat),
    ensures
        match r {
            Ok(i) => scan(mat(s@), mat(sa@), row as int, from as int) == i && from <= i < s@.len(),
            Err(b) => scan(mat(s@), mat(sa@), row as int, from as int) == if b {
                -2int
            } else {
                -1int
            },
        },
{
    let ghost sm = mat(s@);
    let ghost am = mat(sa@);
    let ghost goal = scan(sm, am, row as int, from as int);
    let mut i: usize = from;
    while i < s.len()
        invariant
            from <= i <= s@.len() <= sa@.len(),
            row < usize::MAX,
            sm == mat(s@),
            am == mat(sa@),
            forall|k: int| 0 <= k < s@.len() ==> row < (#[trigger] s@[k])@.len(),
            i32_cols(sa@, (row + 1) as nat),
            goal == scan(mat(s@), mat(sa@), row as int, from as int),
            goal == scan(sm, am, row as int, i as int),
        decreases s@.len() - i,
    {
        let mut larger = false;
        let mut smaller = false;
        let mut j: usize = 0;
        while j <= row
            invariant
                j <= row + 1,
                row < usize::MAX,
                i < s@.len() <= sa@.len(),
                sm == mat(s@),
                am == mat(sa@),
                forall|k: int| 0 <= k < s@.len() ==> row < (#[trigger] s@[k])@.len(),
                i32_cols(sa@, (row + 1) as nat),
                goal == scan(mat(s@), mat(sa@), row as int, from as int),
                goal == scan(sm, am, row as int, i as int),
                larger == exists|t: int| 0 <= t < j && #[trigger] sm[i as int][t] > am[i as int][t],
                smaller == exists|t: int| 0 <= t < j && #[trigger] sm[i as int][t] < am[i as int][t],
            decreases row + 1 - j,
        {
            proof {
                assert(row < s@[i as int]@.len());
                assert(sa@[i as int]@.len() == row + 1);
                assert(sm[i as int][j as int] == s@[i as int]@[j as int] as int);
                assert(am[i as int][j as int] == sa@[i as int]@[j as int] as int);
            }
            if s[i][j] > sa[i][j] {
                larger = true;
            }
            if s[i][j] < sa[i][j] {
                smaller = true;
            }
            j = j + 1;
        }
        proof {
            assert(larger == larger_at(sm, am, i as int, row as int));
            assert(smaller == smaller_at(sm, am, i as int, row as int));
        }
        if larger && !smaller {
            return Err(false);
        }
        if larger || smaller {
            return Ok(i);
        }
        i = i + 1;
    }
    Err(true)
}

/// The last row in use (see `real_row`), for uniform columns of `nr > 0`
/// entries.
pub(crate) fn last_used_row(s: &Vec<Vec<i32>>, nr: usize) -> (row: usize)
    requires
        nr > 0,
        uniform(mat(s@), nr as nat),
    ensures
        row == real_row(mat(s@), nr as int, 0, 0),
        row < nr,
{
    let ghost sm = mat(s@);
    let nc = s.len();
    let mut row: usize = 0;
    let mut i: usize = 0;
    while i < nc && row + 1 != nr
        invariant
            i <= nc == s@.len(),
            0 <= row < nr,
            sm == mat(s@),
            uniform(sm, nr as nat),
            real_row(sm, nr as int, 0, 0) == real_row(sm, nr as int, i as int, row as int),
        decreases nc - i,
    {
        let r0 = row;
        let mut cur = row;
        let mut j = row + 1;
        proof {
            assert(sm[i as int].len() == nr);
        }
        while j < nr
            invariant
                r0 < j <= nr,
                r0 <= cur < nr,
                i < nc == s@.len(),
                sm == mat(s@),
                uniform(sm, nr as nat),
                row_scan(sm[i as int], r0 + 1, nr as int, r0 as int) == row_scan(
                    sm[i as int],
                    j as int,
                    nr as int,
                    cur as int,
                ),
            decreases nr - j,
        {
            proof {
                assert(sm[i as int].len() == nr);
                assert(sm[i as int][j as int] == s@[i as int]@[j as int] as int);
            }
            if s[i][j] > 0 {
                cur = j;
            }
            j = j + 1;
        }
        row = cur;
        i = i + 1;
    }
    proof {
        lemma_real_row(sm, nr as int, 0, 0);
    }
    row
}

/// The standardness check on a matrix; `None` where an `i32` operation
/// overflows or the rounds run out.
fn std_check_exec(m: &Matrix, tri: bool) -> (r: Option<bool>)
    requires
        m@.len() == 0 || col_max(mat(m@)) > 0,
        std_sizes_fit(mat(m@)),
    ensures
        r == std_check(mat(m@), tri),
{
    let nc = m.len();
    if nc == 0 {
        return Some(true);
    }
    let nr = matrix_rows(m);
    let s = pad_matrix(m, nr);
    let ghost sm = mat(s@);
    proof {
        assert(sm == padded(mat(m@)));
        assert(s@.len() == nc);
    }
    let row = last_used_row(&s, nr);
    proof {
        assert(forall|k: int| 0 <= k < s@.len() ==> row < (#[trigger] s@[k])@.len()) by {
            assert forall|k: int| 0 <= k < s@.len() implies row < (#[trigger] s@[k])@.len() by {
                assert(sm[k].len() == nr);
            }
        }
    }
    let p = match find_smaller_column(&s, row, tri) {
        Err(b) => {
            return Some(b);
        },
        Ok(p) => p,
    };
    // The standard sequence up to column p.
    let mut sa: Vec<Vec<i32>> = Vec::new();
    let mut k: usize = 0;
    while k <= p
        invariant
            k <= p + 1,
            p < nc,
            row < nr,
            i32_cols(sa@, (row + 1) as nat),
            mat(sa@) == id_cols(k as int, row as int, tri),
        decreases p + 1 - k,
    {
        let mut col: Vec<i32> = Vec::new();
        let mut j: usize = 0;
        while j <= row
            invariant
                j <= row + 1,
                row < nr,
                ints(col@) == Seq::new(j as nat, |t: int| id_val(k as int, t, tri)),
            decreases row + 1 - j,
        {
            let v = id_entry(k, j, tri);
            let ghost c0 = ints(col@);
            col.push(v);
            j = j + 1;
            proof {
                assert(ints(col@) =~= c0.push(v as int));
                assert(ints(col@) =~= Seq::new(j as nat, |t: int| id_val(k as int, t, tri)));
            }
        }
        let ghost a0 = mat(sa@);
        let ghost cv = ints(col@);
        sa.push(col);
        k = k + 1;
        proof {
            assert(mat(sa@) =~= a0.push(cv));
            assert(mat(sa@) =~= id_cols(k as int, row as int, tri));
        }
    }
    proof {
        lemma_c_size(p as int, row as int, nc as int, nr as int);
    }
    let mut delta: Vec<i32> = Vec::new();
    let mut j: usize = 0;
    while j <= row
        invariant
            j <= row + 1,
            row < nr,
            ints(delta@) == zeros(j as int),
        decreases row + 1 - j,
    {
        let ghost d0 = ints(delta@);
        delta.push(0);
        j = j + 1;
        proof {
            assert(ints(delta@) =~= d0.push(0));
            assert(ints(delta@) =~= zeros(j as int));
        }
    }
    let clen = (row + 1) * nc * 2;
    let mut c: Vec<i32> = Vec::new();
    let mut j: usize = 0;
    while j < clen
        invariant
            j <= clen,
            row < nr,
            clen == (row + 1) * nc * 2,
            ints(c@) == Seq::new(j as nat, |t: int| if row + 1 <= t <= 2 * row + 1 { 1int } else { 0int }),
        decreases clen - j,
    {
        let v: i32 = if row + 1 <= j && j - (row + 1) <= row {
            1
        } else {
            0
        };
        let ghost c0 = ints(c@);
        c.push(v);
        j = j + 1;
        proof {
            assert(ints(c@) =~= c0.push(v as int));
            assert(ints(c@) =~= Seq::new(j as nat, |t: int| if row + 1 <= t <= 2 * row + 1 { 1int } else { 0int }));
        }
    }
    proof {
        assert(ints(c@) =~= c_init(row as int, nc as int));
    }
    let mut fuel: u64 = STD_ROUNDS;
    let mut pp: usize = p;
    loop
        invariant
            pp < nc == s@.len(),
            nc == m@.len(),
            pp < sa@.len(),
            row < nr,
            nr == col_max(mat(m@)),
            std_sizes_fit(mat(m@)),
            sm == mat(s@),
            forall|k: int| 0 <= k < s@.len() ==> row < (#[trigger] s@[k])@.len(),
            i32_cols(sa@, (row + 1) as nat),
            delta@.len() == row + 1,
            c@.len() == (row + 1) * nc * 2,
            std_check(mat(m@), tri) == std_loop(
                sm,
                row as int,
                mat(sa@),
                ints(delta@),
                ints(c@),
                pp as int,
                fuel as nat,
            ),
        decreases fuel,
    {
        if fuel == 0 {
            return None;
        }
        proof {
            lemma_c_size(pp as int, row as int, nc as int, nr as int);
        }
        let bad = match get_bad_sequence_bm4(&sa, &mut delta, &mut c, pp, row) {
            None => {
                return None;
            },
            Some(b) => b,
        };
        if bad == 0 || pp < bad {
            return Some(false);
        }
        proof {
            lemma_copies_end(nc as int, pp as int, bad as int);
            assert(mat(m@).len() == nc);
            assert(nc * 4 + 4 <= usize::MAX);
        }
        let num = (nc + 1 - pp) / bad + 1;
        let nn = pp + bad * num;
        proof {
            assert(nn as int == copies_end(nc as int, pp as int, bad as int));
        }
        if !copy_bad_sequence_bm4(&mut sa, &delta, &c, pp, nn, row, bad) {
            return None;
        }
        match scan_columns(&s, &sa, row, pp) {
            Err(b) => {
                return Some(b);
            },
            Ok(np) => {
                pp = np;
            },
        }
        fuel = fuel - 1;
    }
}

/// Whether the matrix is standard: reachable from a BMS limit by taking
/// fundamental sequences (checked against the expansion of the identity
/// sequence `(0)(1,1)(2,2,2)…` above it).
pub fn is_standard_matrix(m: &Matrix) -> (r: bool)
    requires
        m@.len() == 0 || col_max(mat(m@)) > 0,
        std_sizes_fit(mat(m@)),
    ensures
        r == (std_check(mat(m@), false) == Some(true)),
{
    match std_check_exec(m, false) {
        Some(b) => b,
        None => false,
    }
}

/// Same check against the triangular standard sequence
/// `(0)(1)(2,1)(3,2,1)…`.
pub fn is_standard_triangular_matrix(m: &Matrix) -> (r: bool)
    requires
        m@.len() == 0 || col_max(mat(m@)) > 0,
        std_sizes_fit(mat(m@)),
    ensures
        r == (std_check(mat(m@), true) == Some(true)),
{
    match std_check_exec(m, true) {
        Some(b) => b,
        None => false,
    }
}

} // verus!
