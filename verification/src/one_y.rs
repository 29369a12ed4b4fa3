//! 1-Y mountains: the layers of differences of a 1-Y sequence, extracted
//! round after round, with the ordinal label of each row.
use vstd::prelude::*;
use crate::Mountain;
use crate::hydra::{ints, diffs_fit, in_i32};
use crate::sss::below_from;
use crate::expand::mat;

verus! {

// ============================================================
// Model
// ============================================================

/// The fixed part of the round allowance (see `one_y_fuel`).
pub const ONE_Y_ROUNDS: u64 = 100000;

/// The largest term of `s` (0 for none).
pub open spec fn seq_hi(s: Seq<int>) -> int
    decreases s.len(),
{
    if s.len() == 0 {
        0
    } else if s.len() == 1 {
        s[0]
    } else if s.last() > seq_hi(s.drop_last()) {
        s.last()
    } else {
        seq_hi(s.drop_last())
    }
}

/// The smallest term of `s` (0 for none).
pub open spec fn seq_lo(s: Seq<int>) -> int
    decreases s.len(),
{
    if s.len() == 0 {
        0
    } else if s.len() == 1 {
        s[0]
    } else if s.last() < seq_lo(s.drop_last()) {
        s.last()
    } else {
        seq_lo(s.drop_last())
    }
}

/// Rounds allowed for the layers of one extraction, and for the
/// extractions: `ONE_Y_ROUNDS` plus the length times the spread of the
/// terms (plus one), at most `i32::MAX - 1` (the row labels are `i32`).
pub open spec fn one_y_fuel(s: Seq<int>) -> nat {
    let b = ONE_Y_ROUNDS + s.len() * (seq_hi(s) - seq_lo(s) + 1);
    if b > 0x7fff_fffe {
        0x7fff_fffe
    } else if b < 0 {
        0
    } else {
        b as nat
    }
}

/// The label of a row: `ω·ext + depth`, written lowest coefficient first.
pub open spec fn row_label(ext: int, depth: int) -> Seq<int> {
    if ext == 0 {
        seq![depth]
    } else {
        seq![depth, ext]
    }
}

/// Whether `anc` lies on the parent chain of `col` (`col` included).
pub open spec fn on_chain(parents: Seq<int>, col: int, anc: int) -> bool
    decreases col + 1,
{
    if col < 0 || col >= parents.len() {
        false
    } else if col == anc {
        true
    } else if parents[col] >= col || parents[col] < 0 {
        false
    } else {
        on_chain(parents, parents[col], anc)
    }
}

/// The parents of the base row: the nearest smaller term on the left in
/// the first round, the extraction parents later; none for terms up to 1.
pub open spec fn base_parents(cur: Seq<int>, ep: Seq<int>, ext: int) -> Seq<int> {
    Seq::new(
        cur.len(),
        |i: int|
            if cur[i] > 1 {
                if ext == 0 || ep.len() == 0 {
                    below_from(cur, i - 1, cur[i])
                } else {
                    ep[i]
                }
            } else {
                -1
            },
    )
}

/// In the first difference row: walking left from `j`, the first column
/// with a base parent, a smaller difference than `dv`, and on the base
/// chain of `i`.
pub open spec fn scan_first(prev: Seq<int>, bp: Seq<int>, i: int, j: int, dv: int) -> int
    decreases j + 1,
{
    if j < 0 {
        -1
    } else if prev[j] <= 0 || bp[j] < 0 || prev[j] - prev[bp[j]] >= dv || !on_chain(bp, i, j) {
        scan_first(prev, bp, i, j - 1, dv)
    } else {
        j
    }
}

/// In later rows: walking left from `j`, the first positive column below
/// `prev[i]` on the chain of `i` in the row beneath.
pub open spec fn scan_later(prev: Seq<int>, below: Seq<int>, i: int, j: int) -> int
    decreases j + 1,
{
    if j < 0 {
        -1
    } else if prev[j] <= 0 || prev[j] >= prev[i] || !on_chain(below, i, j) {
        scan_later(prev, below, i, j - 1)
    } else {
        j
    }
}

/// Column `i` of difference row `depth`: its value and its parent (-1, -1
/// where there is none).
pub open spec fn diff_entry(prev: Seq<int>, bp: Seq<int>, below: Seq<int>, depth: int, i: int) -> (int, int) {
    if prev[i] <= 1 {
        (-1, -1)
    } else if depth == 1 {
        if bp[i] < 0 {
            (-1, -1)
        } else {
            let dv = prev[i] - prev[bp[i]];
            let p = scan_first(prev, bp, i, i - 1, dv);
            (dv, if p < 0 { bp[i] } else { p })
        }
    } else {
        let p = scan_later(prev, below, i, i - 1);
        if p >= 0 {
            (prev[i] - prev[p], p)
        } else {
            (-1, -1)
        }
    }
}

pub open spec fn diff_vals(prev: Seq<int>, bp: Seq<int>, below: Seq<int>, depth: int) -> Seq<int> {
    Seq::new(prev.len(), |i: int| diff_entry(prev, bp, below, depth, i).0)
}

pub open spec fn diff_pars(prev: Seq<int>, bp: Seq<int>, below: Seq<int>, depth: int) -> Seq<int> {
    Seq::new(prev.len(), |i: int| diff_entry(prev, bp, below, depth, i).1)
}

/// The displayed row: each value with its distance to its leg parent (the
/// base parent in the first row, the parent beneath later).
pub open spec fn shown_row(cd: Seq<int>, bp: Seq<int>, below: Seq<int>, depth: int) -> Seq<(int, int)> {
    Seq::new(
        cd.len(),
        |i: int|
            if cd[i] < 0 {
                (-1, -1)
            } else {
                let leg = if depth == 1 {
                    bp[i]
                } else {
                    below[i]
                };
                (cd[i], if leg >= 0 { i - leg } else { 0 })
            },
    )
}

pub open spec fn any_value(cd: Seq<int>) -> bool {
    exists|i: int| 0 <= i < cd.len() && #[trigger] cd[i] >= 0
}

pub open spec fn converged(cd: Seq<int>) -> bool {
    forall|i: int| 0 <= i < cd.len() ==> #[trigger] cd[i] < 0 || cd[i] == 1
}

/// The difference rows from `depth` on (rows, labels, parent rows), until
/// a row has no value or every value is 1; at most `f` of them.
pub open spec fn diff_rows(
    prev: Seq<int>,
    bp: Seq<int>,
    below: Seq<int>,
    depth: int,
    ext: int,
    f: nat,
) -> Option<(Seq<Seq<(int, int)>>, Seq<Seq<int>>, Seq<Seq<int>>)>
    decreases f,
{
    if f == 0 {
        None
    } else {
        let cd = diff_vals(prev, bp, below, depth);
        let lp = diff_pars(prev, bp, below, depth);
        if !any_value(cd) {
            Some((Seq::empty(), Seq::empty(), Seq::empty()))
        } else {
            let row = shown_row(cd, bp, below, depth);
            if converged(cd) {
                Some((seq![row], seq![row_label(ext, depth)], seq![lp]))
            } else {
                match diff_rows(cd, bp, lp, depth + 1, ext, (f - 1) as nat) {
                    None => None,
                    Some(r) => Some(
                        (seq![row] + r.0, seq![row_label(ext, depth)] + r.1, seq![lp] + r.2),
                    ),
                }
            }
        }
    }
}

/// The layer index (from `l` down) of the topmost row with a value in
/// column `col`, or -1.
pub open spec fn top_layer(rows: Seq<Seq<(int, int)>>, col: int, l: int) -> int
    decreases l + 1,
{
    if l < 0 {
        -1
    } else if rows[l][col].0 >= 0 {
        l
    } else {
        top_layer(rows, col, l - 1)
    }
}

pub open spec fn top_value(rows: Seq<Seq<(int, int)>>, col: int) -> int {
    let l = top_layer(rows, col, rows.len() - 1);
    if l >= 0 {
        rows[l][col].0
    } else {
        -1
    }
}

/// Walking down the parent rows from layer `rel` for the quasi-parent of a
/// column: the first parent whose topmost layer is the one beneath, or a
/// column on the chain whose topmost layer is `rel` itself.
pub open spec fn quasi_walk(pil: Seq<Seq<int>>, tlr: Seq<int>, rel: int, cur: int) -> int
    decreases cur + 1,
{
    if cur < 0 || rel < 1 || rel > pil.len() || cur >= pil[rel - 1].len() {
        -1
    } else {
        let p = pil[rel - 1][cur];
        if p < 0 || p >= tlr.len() {
            -1
        } else if tlr[p] == rel - 1 {
            p
        } else if tlr[p] == rel {
            p
        } else if p >= cur {
            -1
        } else {
            quasi_walk(pil, tlr, rel, p)
        }
    }
}

pub open spec fn quasi_parents(next: Seq<int>, tlr: Seq<int>, pil: Seq<Seq<int>>) -> Seq<int> {
    Seq::new(
        next.len(),
        |col: int|
            if col < 1 || next[col] <= 1 || tlr[col] == 0 {
                -1
            } else {
                quasi_walk(pil, tlr, tlr[col], col)
            },
    )
}

/// Walking left from `k`, the first column below `next[col]` (and not
/// negative) on the quasi-parent chain of `col`.
pub open spec fn scan_extract(next: Seq<int>, qp: Seq<int>, col: int, k: int) -> int
    decreases k + 1,
{
    if k < 0 {
        -1
    } else if next[k] >= 0 && next[k] < next[col] && on_chain(qp, col, k) {
        k
    } else {
        scan_extract(next, qp, col, k - 1)
    }
}

pub open spec fn extract_parents(next: Seq<int>, qp: Seq<int>) -> Seq<int> {
    Seq::new(
        next.len(),
        |col: int|
            if col < 1 || next[col] <= 1 {
                -1
            } else {
                scan_extract(next, qp, col, col - 1)
            },
    )
}

/// One extraction round: its rows and labels, and either the end of the
/// mountain or the next sequence with its extraction parents.
pub open spec fn one_y_round(cur: Seq<int>, ep: Seq<int>, ext: int, lf: nat) -> Option<
    (Seq<Seq<(int, int)>>, Seq<Seq<int>>, Option<(Seq<int>, Seq<int>)>),
> {
    let n = cur.len() as int;
    let bp = base_parents(cur, ep, ext);
    match diff_rows(cur, bp, bp, 1, ext, lf) {
        None => None,
        Some(d) => {
            let rows = seq![base_row(cur, bp)] + d.0;
            let labels = seq![row_label(ext, 0)] + d.1;
            let pil = seq![bp] + d.2;
            let top = top_values(rows, n);
            if forall|c: int| 0 <= c < n ==> #[trigger] top[c] < 0 || top[c] == 1 {
                Some((rows, labels, None))
            } else {
                let next = next_of(top);
                if next == cur {
                    Some((rows, labels, None))
                } else {
                    let qp = quasi_parents(next, top_layers(rows, n), pil);
                    Some((rows, labels, Some((next, extract_parents(next, qp)))))
                }
            }
        },
    }
}

/// The rounds from `cur` on, at most `f` of them.
pub open spec fn one_y_rounds(cur: Seq<int>, ep: Seq<int>, ext: int, f: nat, lf: nat) -> Option<
    (Seq<Seq<(int, int)>>, Seq<Seq<int>>),
>
    decreases f,
{
    if f == 0 {
        None
    } else {
        match one_y_round(cur, ep, ext, lf) {
            None => None,
            Some(r) => match r.2 {
                None => Some((r.0, r.1)),
                Some(nx) => match one_y_rounds(nx.0, nx.1, ext + 1, (f - 1) as nat, lf) {
                    None => None,
                    Some(rest) => Some((r.0 + rest.0, r.1 + rest.1)),
                },
            },
        }
    }
}

/// The 1-Y mountain of a sequence with its row labels.
pub open spec fn one_y_spec(seq: Seq<int>) -> Option<(Seq<Seq<(int, int)>>, Seq<Seq<int>>)> {
    one_y_rounds(seq, Seq::empty(), 0, one_y_fuel(seq), one_y_fuel(seq))
}


// ============================================================
// Computation
// ============================================================

/// Trailing zeros dropped, down to one entry.
pub open spec fn trim_label(a: Seq<int>) -> Seq<int>
    decreases a.len(),
{
    if a.len() > 1 && a.last() == 0 {
        trim_label(a.drop_last())
    } else {
        a
    }
}

fn normalize(a: Vec<i32>) -> (r: Vec<i32>)
    ensures
        ints(r@) == trim_label(ints(a@)),
{
    let mut a = a;
    let ghost orig = ints(a@);
    while a.len() > 1 && a[a.len() - 1] == 0
        invariant
            trim_label(ints(a@)) == trim_label(orig),
        decreases a@.len(),
    {
        let ghost before = ints(a@);
        a.pop();
        proof {
            assert(ints(a@) =~= before.drop_last());
        }
    }
    a
}

/// The label of a row: `ω·ext + depth`, lowest coefficient first.
fn row_ordinal(ext: i32, diff_depth: i32) -> (r: Vec<i32>)
    requires
        ext >= 0,
    ensures
        ints(r@) == row_label(ext as int, diff_depth as int),
{
    if ext == 0 {
        let v = vec![diff_depth];
        proof {
            assert(ints(v@) =~= row_label(ext as int, diff_depth as int));
        }
        return v;
    }
    let ord = vec![diff_depth, ext];
    let r = normalize(ord);
    proof {
        assert(ints(ord@) =~= seq![diff_depth as int, ext as int]);
        assert(trim_label(seq![diff_depth as int, ext as int]) == seq![diff_depth as int, ext as int]);
        assert(row_label(ext as int, diff_depth as int) =~= seq![diff_depth as int, ext as int]);
    }
    r
}

proof fn lemma_below_from(s: Seq<int>, k: int, v: int)
    requires
        k < s.len(),
    ensures
        -1 <= below_from(s, k, v) <= k || (k < -1 && below_from(s, k, v) == -1),
        below_from(s, k, v) >= 0 ==> s[below_from(s, k, v)] < v,
    decreases k + 1,
{
    if k >= 0 && !(s[k] < v) {
        lemma_below_from(s, k - 1, v);
    }
}

/// The nearest smaller term to the left of `i`, or -1.
fn find_parent(seq: &Vec<i32>, i: usize) -> (r: i32)
    requires
        i < seq@.len() <= i32::MAX,
    ensures
        r == below_from(ints(seq@), i - 1, seq@[i as int] as int),
        -1 <= r < i,
        r >= 0 ==> seq@[r as int] < seq@[i as int],
{
    let ghost s = ints(seq@);
    proof {
        lemma_below_from(s, i - 1, s[i as int]);
    }
    let mut j: usize = i;
    while j > 0 && seq[j - 1] >= seq[i]
        invariant
            j <= i < seq@.len() <= i32::MAX,
            s == ints(seq@),
            below_from(s, j - 1, s[i as int]) == below_from(s, i - 1, s[i as int]),
        decreases j,
    {
        j = j - 1;
    }
    j as i32 - 1
}

/// Whether `anc` lies on the parent chain of `col`.
fn is_ancestor_of(parents: &Vec<i32>, col: i32, anc: i32) -> (r: bool)
    ensures
        r == on_chain(ints(parents@), col as int, anc as int),
{
    let ghost ps = ints(parents@);
    let n = parents.len();
    let mut c: i32 = col;
    while c >= 0 && (c as usize) < n && c != anc && parents[c as usize] < c && parents[c as usize] >= 0
        invariant
            n == parents@.len(),
            ps == ints(parents@),
            on_chain(ps, c as int, anc as int) == on_chain(ps, col as int, anc as int),
        decreases c + 1,
    {
        c = parents[c as usize];
    }
    c >= 0 && (c as usize) < n && c == anc
}

/// The parents of the base row (see `base_parents`).
fn base_parents_exec(cur: &Vec<i32>, ep: &Vec<i32>, ext: i32) -> (r: Vec<i32>)
    requires
        cur@.len() <= i32::MAX,
        ep@.len() == 0 || ep@.len() == cur@.len(),
    ensures
        ints(r@) == base_parents(ints(cur@), ints(ep@), ext as int),
{
    let n = cur.len();
    let mut bp: Vec<i32> = Vec::new();
    let mut i: usize = 0;
    while i < n
        invariant
            i <= n == cur@.len() <= i32::MAX,
            ep@.len() == 0 || ep@.len() == cur@.len(),
            ints(bp@) == base_parents(ints(cur@), ints(ep@), ext as int).take(i as int),
        decreases n - i,
    {
        let v: i32 = if cur[i] > 1 {
            if ext == 0 || ep.len() == 0 {
                find_parent(cur, i)
            } else {
                ep[i]
            }
        } else {
            -1
        };
        let ghost b0 = ints(bp@);
        bp.push(v);
        i = i + 1;
        proof {
            assert(ints(bp@) =~= b0.push(v as int));
            assert(ints(bp@) =~= base_parents(ints(cur@), ints(ep@), ext as int).take(i as int));
        }
    }
    proof {
        assert(base_parents(ints(cur@), ints(ep@), ext as int).take(n as int) =~= base_parents(ints(cur@), ints(ep@), ext as int));
    }
    bp
}


/// Parents lie to the left (or are -1).
pub open spec fn left_parents(p: Seq<int>) -> bool {
    forall|j: int| 0 <= j < p.len() ==> -1 <= #[trigger] p[j] < j
}

/// Every difference to a base parent fits in an `i32`.
pub open spec fn base_diffs_fit(prev: Seq<int>, bp: Seq<int>) -> bool {
    forall|j: int| 0 <= j < bp.len() && bp[j] >= 0 ==> in_i32(prev[j] - prev[#[trigger] bp[j]])
}

fn skip_first(prev: &Vec<i32>, bp: &Vec<i32>, i: usize, j: usize, dv: i32) -> (r: bool)
    requires
        j < i < prev@.len() <= i32::MAX,
        bp@.len() == prev@.len(),
        left_parents(ints(bp@)),
        base_diffs_fit(ints(prev@), ints(bp@)),
    ensures
        r == (prev@[j as int] <= 0 || bp@[j as int] < 0 || prev@[j as int] - prev@[bp@[j as int] as int] >= dv
            || !on_chain(ints(bp@), i as int, j as int)),
{
    if prev[j] <= 0 || bp[j] < 0 {
        return true;
    }
    proof {
        assert(ints(bp@)[j as int] == bp@[j as int]);
        assert(-1 <= ints(bp@)[j as int] < j);
        assert(in_i32(ints(prev@)[j as int] - ints(prev@)[ints(bp@)[j as int]]));
    }
    let q = bp[j] as usize;
    if prev[j] - prev[q] >= dv {
        return true;
    }
    !is_ancestor_of(bp, i as i32, j as i32)
}

fn skip_later(prev: &Vec<i32>, below: &Vec<i32>, i: usize, j: usize) -> (r: bool)
    requires
        j < i < prev@.len() <= i32::MAX,
    ensures
        r == (prev@[j as int] <= 0 || prev@[j as int] >= prev@[i as int] || !on_chain(ints(below@), i as int, j as int)),
{
    prev[j] <= 0 || prev[j] >= prev[i] || !is_ancestor_of(below, i as i32, j as i32)
}

fn diff_entry_exec(prev: &Vec<i32>, bp: &Vec<i32>, below: &Vec<i32>, depth: i32, i: usize) -> (r: (i32, i32))
    requires
        i < prev@.len() <= i32::MAX,
        bp@.len() == prev@.len(),
        depth >= 1,
        depth == 1 ==> left_parents(ints(bp@)) && base_diffs_fit(ints(prev@), ints(bp@)),
    ensures
        (r.0 as int, r.1 as int) == diff_entry(ints(prev@), ints(bp@), ints(below@), depth as int, i as int),
        -1 <= r.1 < i,
{
    let ghost pv = ints(prev@);
    let ghost bv = ints(bp@);
    let ghost wv = ints(below@);
    if prev[i] <= 1 {
        return (-1, -1);
    }
    if depth == 1 {
        if bp[i] < 0 {
            return (-1, -1);
        }
        proof {
            assert(bv[i as int] == bp@[i as int]);
            assert(-1 <= bv[i as int] < i);
            assert(in_i32(pv[i as int] - pv[bv[i as int]]));
        }
        let q = bp[i] as usize;
        let dv = prev[i] - prev[q];
        let mut k: usize = i;
        while k > 0 && skip_first(prev, bp, i, k - 1, dv)
            invariant
                k <= i < prev@.len() <= i32::MAX,
                bp@.len() == prev@.len(),
                depth == 1,
                left_parents(bv),
                base_diffs_fit(pv, bv),
                pv == ints(prev@),
                bv == ints(bp@),
                scan_first(pv, bv, i as int, k - 1, dv as int) == scan_first(pv, bv, i as int, i - 1, dv as int),
            decreases k,
        {
            k = k - 1;
        }
        let p: i32 = k as i32 - 1;
        if p < 0 {
            (dv, bp[i])
        } else {
            (dv, p)
        }
    } else {
        let mut k: usize = i;
        while k > 0 && skip_later(prev, below, i, k - 1)
            invariant
                k <= i < prev@.len() <= i32::MAX,
                pv == ints(prev@),
                wv == ints(below@),
                scan_later(pv, wv, i as int, k - 1) == scan_later(pv, wv, i as int, i - 1),
            decreases k,
        {
            k = k - 1;
        }
        if k > 0 {
            let p = k - 1;
            (prev[i] - prev[p], p as i32)
        } else {
            (-1, -1)
        }
    }
}

/// Difference row `depth` of `prev`: values and parents.
fn diff_row_exec(prev: &Vec<i32>, bp: &Vec<i32>, below: &Vec<i32>, depth: i32) -> (r: (Vec<i32>, Vec<i32>))
    requires
        prev@.len() <= i32::MAX,
        bp@.len() == prev@.len(),
        depth >= 1,
        depth == 1 ==> left_parents(ints(bp@)) && base_diffs_fit(ints(prev@), ints(bp@)),
    ensures
        ints(r.0@) == diff_vals(ints(prev@), ints(bp@), ints(below@), depth as int),
        ints(r.1@) == diff_pars(ints(prev@), ints(bp@), ints(below@), depth as int),
        left_parents(ints(r.1@)),
        r.0@.len() == prev@.len(),
        r.1@.len() == prev@.len(),
{
    let n = prev.len();
    let ghost pv = ints(prev@);
    let ghost bv = ints(bp@);
    let ghost wv = ints(below@);
    let mut cd: Vec<i32> = Vec::new();
    let mut lp: Vec<i32> = Vec::new();
    let mut i: usize = 0;
    while i < n
        invariant
            i <= n == prev@.len() <= i32::MAX,
            bp@.len() == prev@.len(),
            depth >= 1,
            depth == 1 ==> left_parents(bv) && base_diffs_fit(pv, bv),
            pv == ints(prev@),
            bv == ints(bp@),
            wv == ints(below@),
            ints(cd@) == diff_vals(pv, bv, wv, depth as int).take(i as int),
            ints(lp@) == diff_pars(pv, bv, wv, depth as int).take(i as int),
            forall|j: int| 0 <= j < i ==> -1 <= #[trigger] lp@[j] < j,
        decreases n - i,
    {
        let e = diff_entry_exec(prev, bp, below, depth, i);
        let ghost c0 = ints(cd@);
        let ghost l0 = ints(lp@);
        cd.push(e.0);
        lp.push(e.1);
        i = i + 1;
        proof {
            assert(ints(cd@) =~= c0.push(e.0 as int));
            assert(ints(lp@) =~= l0.push(e.1 as int));
            assert(ints(cd@) =~= diff_vals(pv, bv, wv, depth as int).take(i as int));
            assert(ints(lp@) =~= diff_pars(pv, bv, wv, depth as int).take(i as int));
        }
    }
    proof {
        assert(diff_vals(pv, bv, wv, depth as int).take(n as int) =~= diff_vals(pv, bv, wv, depth as int));
        assert(diff_pars(pv, bv, wv, depth as int).take(n as int) =~= diff_pars(pv, bv, wv, depth as int));
        assert forall|j: int| 0 <= j < ints(lp@).len() implies -1 <= #[trigger] ints(lp@)[j] < j by {
            assert(ints(lp@)[j] == lp@[j]);
        }
    }
    (cd, lp)
}


pub open spec fn row_view(r: Seq<(i32, i32)>) -> Seq<(int, int)> {
    r.map_values(|p: (i32, i32)| (p.0 as int, p.1 as int))
}

pub open spec fn rows_view(v: Seq<Vec<(i32, i32)>>) -> Seq<Seq<(int, int)>> {
    v.map_values(|r: Vec<(i32, i32)>| row_view(r@))
}

fn shown_row_exec(cd: &Vec<i32>, bp: &Vec<i32>, below: &Vec<i32>, depth: i32) -> (r: Vec<(i32, i32)>)
    requires
        cd@.len() <= i32::MAX,
        bp@.len() == cd@.len(),
        below@.len() == cd@.len(),
        depth == 1 ==> left_parents(ints(bp@)),
        depth != 1 ==> left_parents(ints(below@)),
    ensures
        row_view(r@) == shown_row(ints(cd@), ints(bp@), ints(below@), depth as int),
        r@.len() == cd@.len(),
{
    let n = cd.len();
    let ghost target = shown_row(ints(cd@), ints(bp@), ints(below@), depth as int);
    let mut row: Vec<(i32, i32)> = Vec::new();
    let mut i: usize = 0;
    while i < n
        invariant
            i <= n == cd@.len() <= i32::MAX,
            bp@.len() == n,
            below@.len() == n,
            depth == 1 ==> left_parents(ints(bp@)),
            depth != 1 ==> left_parents(ints(below@)),
            target == shown_row(ints(cd@), ints(bp@), ints(below@), depth as int),
            row_view(row@) == target.take(i as int),
        decreases n - i,
    {
        let e: (i32, i32) = if cd[i] < 0 {
            (-1, -1)
        } else {
            let leg: i32 = if depth == 1 {
                bp[i]
            } else {
                below[i]
            };
            proof {
                if depth == 1 {
                    assert(ints(bp@)[i as int] == bp@[i as int]);
                } else {
                    assert(ints(below@)[i as int] == below@[i as int]);
                }
            }
            (cd[i], if leg >= 0 {
                i as i32 - leg
            } else {
                0
            })
        };
        let ghost r0 = row_view(row@);
        row.push(e);
        i = i + 1;
        proof {
            assert(row_view(row@) =~= r0.push((e.0 as int, e.1 as int)));
            assert(row_view(row@) =~= target.take(i as int));
        }
    }
    proof {
        assert(target.take(n as int) =~= target);
    }
    row
}

fn any_value_exec(cd: &Vec<i32>) -> (r: bool)
    ensures
        r == any_value(ints(cd@)),
{
    let mut i: usize = 0;
    while i < cd.len()
        invariant
            i <= cd@.len(),
            forall|j: int| 0 <= j < i ==> #[trigger] ints(cd@)[j] < 0,
        decreases cd.len() - i,
    {
        if cd[i] >= 0 {
            proof {
                assert(ints(cd@)[i as int] >= 0);
            }
            return true;
        }
        i = i + 1;
    }
    false
}

fn converged_exec(cd: &Vec<i32>) -> (r: bool)
    ensures
        r == converged(ints(cd@)),
{
    let mut i: usize = 0;
    while i < cd.len()
        invariant
            i <= cd@.len(),
            forall|j: int| 0 <= j < i ==> #[trigger] ints(cd@)[j] < 0 || ints(cd@)[j] == 1,
        decreases cd.len() - i,
    {
        if cd[i] >= 0 && cd[i] != 1 {
            proof {
                assert(!(ints(cd@)[i as int] < 0 || ints(cd@)[i as int] == 1));
            }
            return false;
        }
        i = i + 1;
    }
    true
}

fn copy_ints(v: &Vec<i32>) -> (r: Vec<i32>)
    ensures
        r@ == v@,
{
    let mut r: Vec<i32> = Vec::new();
    let mut i: usize = 0;
    while i < v.len()
        invariant
            i <= v@.len(),
            r@ == v@.take(i as int),
        decreases v.len() - i,
    {
        r.push(v[i]);
        i = i + 1;
        proof {
            assert(r@ =~= v@.take(i as int));
        }
    }
    proof {
        assert(v@.take(v@.len() as int) =~= v@);
    }
    r
}

/// The rows, labels and parent rows that `diff_rows` appends after those
/// already gathered.
pub open spec fn gathered(
    acc: (Seq<Seq<(int, int)>>, Seq<Seq<int>>, Seq<Seq<int>>),
    rest: Option<(Seq<Seq<(int, int)>>, Seq<Seq<int>>, Seq<Seq<int>>)>,
) -> Option<(Seq<Seq<(int, int)>>, Seq<Seq<int>>, Seq<Seq<int>>)> {
    match rest {
        None => None,
        Some(r) => Some((acc.0 + r.0, acc.1 + r.1, acc.2 + r.2)),
    }
}

/// The difference rows of a round (see `diff_rows`), with every parent
/// row pointing left.
fn diff_rows_exec(cur: &Vec<i32>, bp: &Vec<i32>, ext: i32, lf: u64) -> (r: Option<
    (Vec<Vec<(i32, i32)>>, Vec<Vec<i32>>, Vec<Vec<i32>>),
>)
    requires
        cur@.len() <= i32::MAX,
        bp@.len() == cur@.len(),
        left_parents(ints(bp@)),
        base_diffs_fit(ints(cur@), ints(bp@)),
        0 <= ext,
        lf <= 0x7fff_fffe,
    ensures
        match r {
            None => diff_rows(ints(cur@), ints(bp@), ints(bp@), 1, ext as int, lf as nat) is None,
            Some(x) => diff_rows(ints(cur@), ints(bp@), ints(bp@), 1, ext as int, lf as nat)
                == Some((rows_view(x.0@), mat(x.1@), mat(x.2@))),
        },
        r matches Some(x) ==> forall|k: int| 0 <= k < x.2@.len() ==> left_parents(ints((#[trigger] x.2@[k])@))
            && x.2@[k]@.len() == cur@.len(),
        r matches Some(x) ==> forall|k: int| 0 <= k < x.0@.len() ==> (#[trigger] x.0@[k])@.len() == cur@.len(),
{
    let n = cur.len();
    let ghost bv = ints(bp@);
    let ghost goal = diff_rows(ints(cur@), bv, bv, 1, ext as int, lf as nat);
    let mut prev = copy_ints(cur);
    let mut below = copy_ints(bp);
    let mut depth: i32 = 1;
    let mut fuel: u64 = lf;
    let mut rows: Vec<Vec<(i32, i32)>> = Vec::new();
    let mut labels: Vec<Vec<i32>> = Vec::new();
    let mut pars: Vec<Vec<i32>> = Vec::new();
    proof {
        assert(rows_view(rows@) =~= Seq::<Seq<(int, int)>>::empty());
        assert(mat(labels@) =~= Seq::<Seq<int>>::empty());
        assert(mat(pars@) =~= Seq::<Seq<int>>::empty());
        assert(gathered((rows_view(rows@), mat(labels@), mat(pars@)), goal) =~~= goal) by {
            match goal {
                None => {},
                Some(g) => {
                    assert(rows_view(rows@) + g.0 =~= g.0);
                    assert(mat(labels@) + g.1 =~= g.1);
                    assert(mat(pars@) + g.2 =~= g.2);
                },
            }
        }
    }
    loop
        invariant
            n == cur@.len() <= i32::MAX,
            bp@.len() == n,
            bv == ints(bp@),
            left_parents(bv),
            prev@.len() == n,
            below@.len() == n,
            1 <= depth,
            depth + fuel <= lf + 1,
            lf <= 0x7fff_fffe,
            0 <= ext,
            depth == 1 ==> base_diffs_fit(ints(prev@), bv),
            depth != 1 ==> left_parents(ints(below@)),
            goal == diff_rows(ints(cur@), bv, bv, 1, ext as int, lf as nat),
            gathered((rows_view(rows@), mat(labels@), mat(pars@)), diff_rows(ints(prev@), bv, ints(below@), depth as int, ext as int, fuel as nat)) == goal,
            forall|k: int| 0 <= k < pars@.len() ==> left_parents(ints((#[trigger] pars@[k])@)) && pars@[k]@.len() == n,
            forall|k: int| 0 <= k < rows@.len() ==> (#[trigger] rows@[k])@.len() == n,
        decreases fuel,
    {
        if fuel == 0 {
            return None;
        }
        let (cd, lp) = diff_row_exec(&prev, bp, &below, depth);
        let ghost rest = diff_rows(ints(prev@), bv, ints(below@), depth as int, ext as int, fuel as nat);
        if !any_value_exec(&cd) {
            proof {
                assert(rest == Some((Seq::<Seq<(int, int)>>::empty(), Seq::<Seq<int>>::empty(), Seq::<Seq<int>>::empty())));
                assert(rows_view(rows@) + Seq::<Seq<(int, int)>>::empty() =~= rows_view(rows@));
                assert(mat(labels@) + Seq::<Seq<int>>::empty() =~= mat(labels@));
                assert(mat(pars@) + Seq::<Seq<int>>::empty() =~= mat(pars@));
            }
            return Some((rows, labels, pars));
        }
        let row = shown_row_exec(&cd, bp, &below, depth);
        let label = row_ordinal(ext, depth);
        let ghost rv0 = rows_view(rows@);
        let ghost lv0 = mat(labels@);
        let ghost pv0 = mat(pars@);
        let ghost rowv = row_view(row@);
        let ghost lpv = ints(lp@);
        let ghost labv = ints(label@);
        let lp_copy = copy_ints(&lp);
        rows.push(row);
        labels.push(label);
        pars.push(lp_copy);
        proof {
            assert(rows_view(rows@) =~= rv0.push(rowv));
            assert(mat(labels@) =~= lv0.push(labv));
            assert(mat(pars@) =~= pv0.push(lpv));
            assert(pars@[pars@.len() - 1]@ == lp@);
            assert(forall|k: int| 0 <= k < pars@.len() ==> left_parents(ints((#[trigger] pars@[k])@)) && pars@[k]@.len() == n);
            assert(forall|k: int| 0 <= k < rows@.len() ==> (#[trigger] rows@[k])@.len() == n);
        }
        if converged_exec(&cd) {
            proof {
                assert(rv0 + seq![rowv] =~= rv0.push(rowv));
                assert(lv0 + seq![labv] =~= lv0.push(labv));
                assert(pv0 + seq![lpv] =~= pv0.push(lpv));
            }
            return Some((rows, labels, pars));
        }
        proof {
            let nxt = diff_rows(ints(cd@), bv, lpv, depth + 1, ext as int, (fuel - 1) as nat);
            assert(rest == match nxt {
                None => None,
                Some(r) => Some((seq![rowv] + r.0, seq![labv] + r.1, seq![lpv] + r.2)),
            });
            match nxt {
                None => {},
                Some(r) => {
                    assert(rv0 + (seq![rowv] + r.0) =~= rv0.push(rowv) + r.0);
                    assert(lv0 + (seq![labv] + r.1) =~= lv0.push(labv) + r.1);
                    assert(pv0 + (seq![lpv] + r.2) =~= pv0.push(lpv) + r.2);
                },
            }
        }
        prev = cd;
        below = lp;
        depth = depth + 1;
        fuel = fuel - 1;
    }
}


/// The base row: each term with its distance to its base parent.
pub open spec fn base_row(cur: Seq<int>, bp: Seq<int>) -> Seq<(int, int)> {
    Seq::new(cur.len(), |i: int| (cur[i], if bp[i] >= 0 { i - bp[i] } else { 0 }))
}

/// The topmost layer of each column (0 where none has a value).
pub open spec fn top_layers(rows: Seq<Seq<(int, int)>>, n: int) -> Seq<int> {
    Seq::new(
        n as nat,
        |c: int|
            {
                let l = top_layer(rows, c, rows.len() - 1);
                if l >= 0 {
                    l
                } else {
                    0
                }
            },
    )
}

pub open spec fn top_values(rows: Seq<Seq<(int, int)>>, n: int) -> Seq<int> {
    Seq::new(n as nat, |c: int| top_value(rows, c))
}

pub open spec fn uints(s: Seq<usize>) -> Seq<int> {
    s.map_values(|x: usize| x as int)
}

/// What a round needs of its base row: parents on the left, and
/// differences to them within `i32`.
pub open spec fn round_ok(cur: Seq<int>, ep: Seq<int>, ext: int) -> bool {
    &&& ep.len() == 0 || ep.len() == cur.len()
    &&& left_parents(base_parents(cur, ep, ext))
    &&& base_diffs_fit(cur, base_parents(cur, ep, ext))
}

proof fn lemma_first_round_ok(cur: Seq<int>)
    requires
        diffs_fit(cur),
    ensures
        round_ok(cur, Seq::empty(), 0),
{
    let bp = base_parents(cur, Seq::empty(), 0);
    assert forall|j: int| 0 <= j < bp.len() implies -1 <= #[trigger] bp[j] < j by {
        if cur[j] > 1 {
            lemma_below_from(cur, j - 1, cur[j]);
        }
    }
    assert forall|j: int| 0 <= j < bp.len() && bp[j] >= 0 implies in_i32(cur[j] - cur[#[trigger] bp[j]]) by {
        lemma_below_from(cur, j - 1, cur[j]);
        let a = bp[j];
        assert(cur[j] > cur[a]);
        assert(in_i32(cur[j] - cur[a]));
    }
}

proof fn lemma_next_round_ok(next: Seq<int>, ep: Seq<int>, ext: int)
    requires
        ext > 0,
        ep.len() == next.len(),
        left_parents(ep),
        forall|i: int| 0 <= i < next.len() ==> 0 <= #[trigger] next[i] <= i32::MAX,
    ensures
        round_ok(next, ep, ext),
{
    let bp = base_parents(next, ep, ext);
    assert forall|j: int| 0 <= j < bp.len() implies -1 <= #[trigger] bp[j] < j by {
        if next[j] > 1 && ep.len() != 0 {
            assert(-1 <= ep[j] < j);
        }
    }
    assert forall|j: int| 0 <= j < bp.len() && bp[j] >= 0 implies in_i32(next[j] - next[#[trigger] bp[j]]) by {
        let a = bp[j];
        assert(0 <= a < next.len());
        assert(0 <= next[a] <= i32::MAX);
    }
}

fn base_row_exec(cur: &Vec<i32>, bp: &Vec<i32>) -> (r: Vec<(i32, i32)>)
    requires
        cur@.len() <= i32::MAX,
        bp@.len() == cur@.len(),
        left_parents(ints(bp@)),
    ensures
        row_view(r@) == base_row(ints(cur@), ints(bp@)),
        r@.len() == cur@.len(),
{
    let n = cur.len();
    let ghost target = base_row(ints(cur@), ints(bp@));
    let mut row: Vec<(i32, i32)> = Vec::new();
    let mut i: usize = 0;
    while i < n
        invariant
            i <= n == cur@.len() <= i32::MAX,
            bp@.len() == n,
            left_parents(ints(bp@)),
            target == base_row(ints(cur@), ints(bp@)),
            row_view(row@) == target.take(i as int),
        decreases n - i,
    {
        proof {
            assert(ints(bp@)[i as int] == bp@[i as int]);
        }
        let d: i32 = if bp[i] >= 0 {
            i as i32 - bp[i]
        } else {
            0
        };
        let e = (cur[i], d);
        let ghost r0 = row_view(row@);
        row.push(e);
        i = i + 1;
        proof {
            assert(row_view(row@) =~= r0.push((e.0 as int, e.1 as int)));
            assert(row_view(row@) =~= target.take(i as int));
        }
    }
    proof {
        assert(target.take(n as int) =~= target);
    }
    row
}

/// Topmost value and layer of column `col`.
fn top_of(rows: &Vec<Vec<(i32, i32)>>, col: usize, n: usize) -> (r: (i32, usize))
    requires
        col < n,
        forall|k: int| 0 <= k < rows@.len() ==> (#[trigger] rows@[k])@.len() == n,
    ensures
        r.0 == top_value(rows_view(rows@), col as int),
        r.1 == top_layers(rows_view(rows@), n as int)[col as int],
        r.1 < rows@.len() || r.1 == 0,
{
    let ghost rv = rows_view(rows@);
    let mut l: usize = rows.len();
    while l > 0 && rows[l - 1][col].0 < 0
        invariant
            l <= rows@.len(),
            col < n,
            rv == rows_view(rows@),
            forall|k: int| 0 <= k < rows@.len() ==> (#[trigger] rows@[k])@.len() == n,
            top_layer(rv, col as int, l - 1) == top_layer(rv, col as int, rows@.len() - 1),
        decreases l,
    {
        proof {
            assert(rv[l - 1] == row_view(rows@[l - 1]@));
            assert(rv[l - 1][col as int].0 == rows@[l - 1]@[col as int].0);
        }
        l = l - 1;
    }
    if l > 0 {
        proof {
            assert(rv[l - 1] == row_view(rows@[l - 1]@));
            assert(rv[l - 1][col as int].0 == rows@[l - 1]@[col as int].0);
        }
        (rows[l - 1][col].0, l - 1)
    } else {
        (-1, 0)
    }
}

fn tops_exec(rows: &Vec<Vec<(i32, i32)>>, n: usize) -> (r: (Vec<i32>, Vec<usize>))
    requires
        forall|k: int| 0 <= k < rows@.len() ==> (#[trigger] rows@[k])@.len() == n,
    ensures
        ints(r.0@) == top_values(rows_view(rows@), n as int),
        uints(r.1@) == top_layers(rows_view(rows@), n as int),
        r.0@.len() == n,
        r.1@.len() == n,
        forall|c: int| 0 <= c < n ==> (#[trigger] r.1@[c]) < rows@.len() || r.1@[c] == 0,
{
    let ghost rv = rows_view(rows@);
    let mut top: Vec<i32> = Vec::new();
    let mut tlr: Vec<usize> = Vec::new();
    let mut c: usize = 0;
    while c < n
        invariant
            c <= n,
            rv == rows_view(rows@),
            forall|k: int| 0 <= k < rows@.len() ==> (#[trigger] rows@[k])@.len() == n,
            ints(top@) == top_values(rv, n as int).take(c as int),
            uints(tlr@) == top_layers(rv, n as int).take(c as int),
            tlr@.len() == c,
            forall|j: int| 0 <= j < c ==> (#[trigger] tlr@[j]) < rows@.len() || tlr@[j] == 0,
        decreases n - c,
    {
        let t = top_of(rows, c, n);
        let ghost t0 = ints(top@);
        let ghost l0 = uints(tlr@);
        top.push(t.0);
        tlr.push(t.1);
        c = c + 1;
        proof {
            assert(ints(top@) =~= t0.push(t.0 as int));
            assert(uints(tlr@) =~= l0.push(t.1 as int));
            assert(ints(top@) =~= top_values(rv, n as int).take(c as int));
            assert(uints(tlr@) =~= top_layers(rv, n as int).take(c as int));
        }
    }
    proof {
        assert(top_values(rv, n as int).take(n as int) =~= top_values(rv, n as int));
        assert(top_layers(rv, n as int).take(n as int) =~= top_layers(rv, n as int));
    }
    (top, tlr)
}


fn all_one_exec(top: &Vec<i32>) -> (r: bool)
    ensures
        r == (forall|c: int| 0 <= c < top@.len() ==> #[trigger] ints(top@)[c] < 0 || ints(top@)[c] == 1),
{
    let mut i: usize = 0;
    while i < top.len()
        invariant
            i <= top@.len(),
            forall|j: int| 0 <= j < i ==> #[trigger] ints(top@)[j] < 0 || ints(top@)[j] == 1,
        decreases top.len() - i,
    {
        if top[i] >= 0 && top[i] != 1 {
            proof {
                assert(!(ints(top@)[i as int] < 0 || ints(top@)[i as int] == 1));
            }
            return false;
        }
        i = i + 1;
    }
    true
}

/// The next sequence: the topmost values, 0 where a column has none.
pub open spec fn next_of(top: Seq<int>) -> Seq<int> {
    Seq::new(top.len(), |c: int| if top[c] >= 0 { top[c] } else { 0 })
}

fn next_exec(top: &Vec<i32>) -> (r: Vec<i32>)
    ensures
        ints(r@) == next_of(ints(top@)),
        r@.len() == top@.len(),
        forall|c: int| 0 <= c < r@.len() ==> 0 <= #[trigger] r@[c],
{
    let mut r: Vec<i32> = Vec::new();
    let mut i: usize = 0;
    while i < top.len()
        invariant
            i <= top@.len(),
            ints(r@) == next_of(ints(top@)).take(i as int),
            forall|c: int| 0 <= c < r@.len() ==> 0 <= #[trigger] r@[c],
        decreases top.len() - i,
    {
        let v: i32 = if top[i] >= 0 {
            top[i]
        } else {
            0
        };
        let ghost r0 = ints(r@);
        r.push(v);
        i = i + 1;
        proof {
            assert(ints(r@) =~= r0.push(v as int));
            assert(ints(r@) =~= next_of(ints(top@)).take(i as int));
        }
    }
    proof {
        assert(next_of(ints(top@)).take(top@.len() as int) =~= next_of(ints(top@)));
    }
    r
}

fn same_ints(a: &Vec<i32>, b: &Vec<i32>) -> (r: bool)
    ensures
        r == (ints(a@) == ints(b@)),
{
    if a.len() != b.len() {
        proof {
            assert(ints(a@).len() != ints(b@).len());
        }
        return false;
    }
    let mut i: usize = 0;
    while i < a.len()
        invariant
            i <= a@.len() == b@.len(),
            forall|j: int| 0 <= j < i ==> #[trigger] a@[j] == b@[j],
        decreases a.len() - i,
    {
        if a[i] != b[i] {
            proof {
                assert(ints(a@)[i as int] != ints(b@)[i as int]);
            }
            return false;
        }
        i = i + 1;
    }
    proof {
        assert(ints(a@) =~= ints(b@));
    }
    true
}

proof fn lemma_quasi_walk(pil: Seq<Seq<int>>, tlr: Seq<int>, rel: int, cur: int)
    requires
        forall|k: int| 0 <= k < pil.len() ==> left_parents(#[trigger] pil[k]),
    ensures
        quasi_walk(pil, tlr, rel, cur) == -1 || 0 <= quasi_walk(pil, tlr, rel, cur) < cur,
    decreases cur + 1,
{
    if !(cur < 0 || rel < 1 || rel > pil.len() || cur >= pil[rel - 1].len()) {
        let p = pil[rel - 1][cur];
        assert(left_parents(pil[rel - 1]));
        if !(p < 0 || p >= tlr.len()) && tlr[p] != rel - 1 && tlr[p] != rel && p < cur {
            lemma_quasi_walk(pil, tlr, rel, p);
        }
    }
}

fn quasi_walk_exec(pil: &Vec<Vec<i32>>, tlr: &Vec<usize>, rel: usize, col: usize) -> (r: i32)
    requires
        col < tlr@.len() <= i32::MAX,
        forall|k: int| 0 <= k < pil@.len() ==> left_parents(ints((#[trigger] pil@[k])@)),
    ensures
        r == quasi_walk(mat(pil@), uints(tlr@), rel as int, col as int),
        -1 <= r < col,
{
    let ghost pv = mat(pil@);
    let ghost tv = uints(tlr@);
    let n = tlr.len();
    proof {
        assert forall|k: int| 0 <= k < pv.len() implies left_parents(#[trigger] pv[k]) by {
            assert(pv[k] == ints(pil@[k]@));
        }
        lemma_quasi_walk(pv, tv, rel as int, col as int);
    }
    let mut c: usize = col;
    loop
        invariant
            c <= col < n == tlr@.len() <= i32::MAX,
            pv == mat(pil@),
            tv == uints(tlr@),
            quasi_walk(pv, tv, rel as int, c as int) == quasi_walk(pv, tv, rel as int, col as int),
            quasi_walk(pv, tv, rel as int, col as int) == -1 || 0 <= quasi_walk(pv, tv, rel as int, col as int) < col,
        decreases c,
    {
        if rel < 1 || rel > pil.len() || c >= pil[rel - 1].len() {
            return -1;
        }
        let p = pil[rel - 1][c];
        proof {
            assert(pv[rel - 1] == ints(pil@[rel - 1]@));
            assert(pv[rel - 1][c as int] == p);
        }
        if p < 0 || p as usize >= n {
            return -1;
        }
        let q = p as usize;
        proof {
            assert(tv[q as int] == tlr@[q as int]);
        }
        if tlr[q] == rel - 1 || tlr[q] == rel {
            return p;
        }
        if q >= c {
            return -1;
        }
        c = q;
    }
}

fn quasi_parents_exec(next: &Vec<i32>, tlr: &Vec<usize>, pil: &Vec<Vec<i32>>) -> (r: Vec<i32>)
    requires
        next@.len() == tlr@.len() <= i32::MAX,
        forall|k: int| 0 <= k < pil@.len() ==> left_parents(ints((#[trigger] pil@[k])@)),
    ensures
        ints(r@) == quasi_parents(ints(next@), uints(tlr@), mat(pil@)),
        left_parents(ints(r@)),
        r@.len() == next@.len(),
{
    let n = next.len();
    let ghost target = quasi_parents(ints(next@), uints(tlr@), mat(pil@));
    let mut qp: Vec<i32> = Vec::new();
    let mut col: usize = 0;
    while col < n
        invariant
            col <= n == next@.len() == tlr@.len() <= i32::MAX,
            target == quasi_parents(ints(next@), uints(tlr@), mat(pil@)),
            forall|k: int| 0 <= k < pil@.len() ==> left_parents(ints((#[trigger] pil@[k])@)),
            ints(qp@) == target.take(col as int),
            forall|j: int| 0 <= j < col ==> -1 <= #[trigger] qp@[j] < j,
        decreases n - col,
    {
        proof {
            assert(uints(tlr@)[col as int] == tlr@[col as int]);
        }
        let v: i32 = if col < 1 || next[col] <= 1 || tlr[col] == 0 {
            -1
        } else {
            quasi_walk_exec(pil, tlr, tlr[col], col)
        };
        let ghost q0 = ints(qp@);
        qp.push(v);
        col = col + 1;
        proof {
            assert(ints(qp@) =~= q0.push(v as int));
            assert(ints(qp@) =~= target.take(col as int));
        }
    }
    proof {
        assert(target.take(n as int) =~= target);
        assert forall|j: int| 0 <= j < ints(qp@).len() implies -1 <= #[trigger] ints(qp@)[j] < j by {
            assert(ints(qp@)[j] == qp@[j]);
        }
    }
    qp
}

proof fn lemma_scan_extract(next: Seq<int>, qp: Seq<int>, col: int, k: int)
    ensures
        -1 <= scan_extract(next, qp, col, k) <= k || (k < -1 && scan_extract(next, qp, col, k) == -1),
    decreases k + 1,
{
    if k >= 0 {
        lemma_scan_extract(next, qp, col, k - 1);
    }
}

fn extract_parents_exec(next: &Vec<i32>, qp: &Vec<i32>) -> (r: Vec<i32>)
    requires
        next@.len() == qp@.len() <= i32::MAX,
    ensures
        ints(r@) == extract_parents(ints(next@), ints(qp@)),
        left_parents(ints(r@)),
        r@.len() == next@.len(),
{
    let n = next.len();
    let ghost nv = ints(next@);
    let ghost qv = ints(qp@);
    let ghost target = extract_parents(nv, qv);
    let mut ep: Vec<i32> = Vec::new();
    let mut col: usize = 0;
    while col < n
        invariant
            col <= n == next@.len() == qp@.len() <= i32::MAX,
            nv == ints(next@),
            qv == ints(qp@),
            target == extract_parents(nv, qv),
            ints(ep@) == target.take(col as int),
            ep@.len() == col,
            forall|j: int| 0 <= j < col ==> -1 <= #[trigger] ep@[j] < j,
        decreases n - col,
    {
        let v: i32 = if col < 1 || next[col] <= 1 {
            -1
        } else {
            let mut k: usize = col;
            while k > 0 && !(next[k - 1] >= 0 && next[k - 1] < next[col] && is_ancestor_of(qp, col as i32, (k - 1) as i32))
                invariant
                    k <= col < n == next@.len() <= i32::MAX,
                    nv == ints(next@),
                    qv == ints(qp@),
                    scan_extract(nv, qv, col as int, k - 1) == scan_extract(nv, qv, col as int, col - 1),
                decreases k,
            {
                k = k - 1;
            }
            proof {
                lemma_scan_extract(nv, qv, col as int, col - 1);
            }
            k as i32 - 1
        };
        let ghost e0 = ints(ep@);
        ep.push(v);
        col = col + 1;
        proof {
            assert(ints(ep@) =~= e0.push(v as int));
            assert(ints(ep@) =~= target.take(col as int));
        }
    }
    proof {
        assert(target.take(n as int) =~= target);
        assert forall|j: int| 0 <= j < ints(ep@).len() implies -1 <= #[trigger] ints(ep@)[j] < j by {
            assert(ints(ep@)[j] == ep@[j]);
        }
    }
    ep
}


pub open spec fn round_view(
    x: (Vec<Vec<(i32, i32)>>, Vec<Vec<i32>>, Option<(Vec<i32>, Vec<i32>)>),
) -> (Seq<Seq<(int, int)>>, Seq<Seq<int>>, Option<(Seq<int>, Seq<int>)>) {
    (
        rows_view(x.0@),
        mat(x.1@),
        match x.2 {
            None => None,
            Some(nx) => Some((ints(nx.0@), ints(nx.1@))),
        },
    )
}

/// One extraction round (see `one_y_round`).
#[verifier::rlimit(40)]
fn one_y_round_exec(cur: &Vec<i32>, ep: &Vec<i32>, ext: i32, lf: u64) -> (r: Option<
    (Vec<Vec<(i32, i32)>>, Vec<Vec<i32>>, Option<(Vec<i32>, Vec<i32>)>),
>)
    requires
        cur@.len() <= i32::MAX,
        round_ok(ints(cur@), ints(ep@), ext as int),
        0 <= ext,
        lf <= 0x7fff_fffe,
    ensures
        match r {
            None => one_y_round(ints(cur@), ints(ep@), ext as int, lf as nat) is None,
            Some(x) => one_y_round(ints(cur@), ints(ep@), ext as int, lf as nat) == Some(round_view(x)),
        },
        r matches Some(x) ==> (x.2 matches Some(nx) ==> nx.0@.len() == cur@.len() && nx.1@.len() == cur@.len()
            && left_parents(ints(nx.1@)) && forall|c: int| 0 <= c < nx.0@.len() ==> 0 <= #[trigger] nx.0@[c]),
{
    let n = cur.len();
    let ghost cv = ints(cur@);
    let ghost ev = ints(ep@);
    let bp = base_parents_exec(cur, ep, ext);
    let ghost bv = ints(bp@);
    assert(bv == base_parents(cv, ev, ext as int));
    let base = base_row_exec(cur, &bp);
    let d = diff_rows_exec(cur, &bp, ext, lf);
    let ghost dspec = diff_rows(cv, bv, bv, 1, ext as int, lf as nat);
    let (mut d0, mut d1, mut d2) = match d {
        None => {
            return None;
        },
        Some(d) => d,
    };
    let ghost d0v = rows_view(d0@);
    let ghost d1v = mat(d1@);
    let ghost d2v = mat(d2@);
    let ghost d0s = d0@;
    let ghost d2s = d2@;
    let ghost basev = row_view(base@);
    let label = row_ordinal(ext, 0);
    let ghost labv = ints(label@);
    let bp_copy = copy_ints(&bp);
    let mut rows: Vec<Vec<(i32, i32)>> = Vec::new();
    rows.push(base);
    rows.append(&mut d0);
    let mut labels: Vec<Vec<i32>> = Vec::new();
    labels.push(label);
    labels.append(&mut d1);
    let mut pil: Vec<Vec<i32>> = Vec::new();
    pil.push(bp_copy);
    pil.append(&mut d2);
    let ghost rows_s = seq![base_row(cv, bv)] + d0v;
    let ghost labels_s = seq![row_label(ext as int, 0)] + d1v;
    let ghost pil_s = seq![bv] + d2v;
    proof {
        assert(rows_view(rows@) =~= rows_s);
        assert(mat(labels@) =~= labels_s);
        assert(mat(pil@) =~= pil_s);
        assert forall|k: int| 0 <= k < rows@.len() implies (#[trigger] rows@[k])@.len() == n by {
            if k > 0 {
                assert(rows@[k] == d0s[k - 1]);
            }
        }
        assert forall|k: int| 0 <= k < pil@.len() implies left_parents(ints((#[trigger] pil@[k])@)) by {
            if k > 0 {
                assert(pil@[k] == d2s[k - 1]);
            }
        }
    }
    let (top, tlr) = tops_exec(&rows, n);
    if all_one_exec(&top) {
        return Some((rows, labels, None));
    }
    let next = next_exec(&top);
    if same_ints(&next, cur) {
        return Some((rows, labels, None));
    }
    let qp = quasi_parents_exec(&next, &tlr, &pil);
    let ep2 = extract_parents_exec(&next, &qp);
    Some((rows, labels, Some((next, ep2))))
}


/// The rows and labels that `one_y_rounds` appends after those already
/// gathered.
pub open spec fn gathered_rounds(
    acc: (Seq<Seq<(int, int)>>, Seq<Seq<int>>),
    rest: Option<(Seq<Seq<(int, int)>>, Seq<Seq<int>>)>,
) -> Option<(Seq<Seq<(int, int)>>, Seq<Seq<int>>)> {
    match rest {
        None => None,
        Some(r) => Some((acc.0 + r.0, acc.1 + r.1)),
    }
}

/// The round allowance of `seq` (see `one_y_fuel`).
fn fuel_of(seq: &[i32]) -> (r: u64)
    requires
        seq@.len() <= i32::MAX,
    ensures
        r == one_y_fuel(ints(seq@)),
        r <= 0x7fff_fffe,
{
    let ghost s = ints(seq@);
    let n = seq.len();
    let mut hi: i64 = 0;
    let mut lo: i64 = 0;
    let mut i: usize = 0;
    while i < n
        invariant
            i <= n == seq@.len() == s.len() <= i32::MAX,
            s == ints(seq@),
            hi == seq_hi(s.take(i as int)),
            lo == seq_lo(s.take(i as int)),
            i > 0 ==> i32::MIN <= lo <= hi <= i32::MAX,
            i == 0 ==> lo == 0 && hi == 0,
        decreases n - i,
    {
        let v = seq[i] as i64;
        proof {
            assert(s.take(i + 1).drop_last() =~= s.take(i as int));
            assert(s.take(i + 1).last() == v);
        }
        if i == 0 {
            hi = v;
            lo = v;
        } else {
            if v > hi {
                hi = v;
            }
            if v < lo {
                lo = v;
            }
        }
        i = i + 1;
    }
    proof {
        assert(s.take(n as int) =~= s);
    }
    let spread: u64 = (hi - lo) as u64 + 1;
    assert(spread <= 0x1_0000_0000);
    assert(n as u64 * spread <= 0x7fff_ffff * 0x1_0000_0000) by (nonlinear_arith)
        requires
            n <= 0x7fff_ffff,
            spread <= 0x1_0000_0000;
    let prod: u64 = n as u64 * spread;
    let b: u64 = ONE_Y_ROUNDS + prod;
    if b > 0x7fff_fffe {
        0x7fff_fffe
    } else {
        b
    }
}

/// The 1-Y mountain of `seq` (each layer a row of (value, parent distance),
/// -1 where a column has no entry) with the ordinal label of each row, or
/// `None` when the layers or the extraction rounds do not settle within
/// `one_y_fuel(seq)` steps.
pub fn build_1y_mountain_with_rows(seq: &[i32]) -> (r: Option<(Mountain, Vec<Vec<i32>>)>)
    requires
        seq@.len() <= i32::MAX,
        diffs_fit(ints(seq@)),
    ensures
        match r {
            None => one_y_spec(ints(seq@)) is None,
            Some(x) => one_y_spec(ints(seq@)) == Some((rows_view(x.0@), mat(x.1@))),
        },
{
    let mut cur: Vec<i32> = vstd::slice::slice_to_vec(seq);
    let mut ep: Vec<i32> = Vec::new();
    let mut ext: i32 = 0;
    let total = fuel_of(seq);
    let mut fuel: u64 = total;
    let mut result: Mountain = Vec::new();
    let mut labels: Vec<Vec<i32>> = Vec::new();
    let ghost goal = one_y_spec(ints(seq@));
    proof {
        lemma_first_round_ok(ints(cur@));
        assert(ints(ep@) =~= Seq::<int>::empty());
        assert(gathered_rounds((rows_view(result@), mat(labels@)), goal) =~~= goal) by {
            match goal {
                None => {},
                Some(g) => {
                    assert(rows_view(result@) + g.0 =~= g.0);
                    assert(mat(labels@) + g.1 =~= g.1);
                },
            }
        }
    }
    loop
        invariant
            cur@.len() <= i32::MAX,
            round_ok(ints(cur@), ints(ep@), ext as int),
            0 <= ext,
            ext + fuel <= total,
            total == one_y_fuel(ints(seq@)),
            total <= 0x7fff_fffe,
            goal == one_y_spec(ints(seq@)),
            gathered_rounds((rows_view(result@), mat(labels@)), one_y_rounds(ints(cur@), ints(ep@), ext as int, fuel as nat, total as nat)) == goal,
        decreases fuel,
    {
        if fuel == 0 {
            return None;
        }
        let ghost rv0 = rows_view(result@);
        let ghost lv0 = mat(labels@);
        let ghost rest = one_y_rounds(ints(cur@), ints(ep@), ext as int, fuel as nat, total as nat);
        let round = one_y_round_exec(&cur, &ep, ext, total);
        let (mut rs, mut ls, nx) = match round {
            None => {
                return None;
            },
            Some(x) => x,
        };
        let ghost rsv = rows_view(rs@);
        let ghost lsv = mat(ls@);
        result.append(&mut rs);
        labels.append(&mut ls);
        proof {
            assert(rows_view(result@) =~= rv0 + rsv);
            assert(mat(labels@) =~= lv0 + lsv);
        }
        match nx {
            None => {
                return Some((result, labels));
            },
            Some((next, ep2)) => {
                proof {
                    let nxt = one_y_rounds(ints(next@), ints(ep2@), ext + 1, (fuel - 1) as nat, total as nat);
                    match nxt {
                        None => {},
                        Some(q) => {
                            assert(rv0 + (rsv + q.0) =~= (rv0 + rsv) + q.0);
                            assert(lv0 + (lsv + q.1) =~= (lv0 + lsv) + q.1);
                        },
                    }
                    lemma_next_round_ok(ints(next@), ints(ep2@), ext + 1);
                }
                cur = next;
                ep = ep2;
                ext = ext + 1;
                fuel = fuel - 1;
            },
        }
    }
}

/// The 1-Y mountain of `seq` (see `build_1y_mountain_with_rows`).
pub fn build_1y_mountain(seq: &[i32]) -> (r: Option<Mountain>)
    requires
        seq@.len() <= i32::MAX,
        diffs_fit(ints(seq@)),
    ensures
        match r {
            None => one_y_spec(ints(seq@)) is None,
            Some(m) => one_y_spec(ints(seq@)) matches Some(x) && x.0 == rows_view(m@),
        },
{
    match build_1y_mountain_with_rows(seq) {
        None => None,
        Some(x) => Some(x.0),
    }
}

} // verus!
