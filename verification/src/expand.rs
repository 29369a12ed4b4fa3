//! BMS matrix expansion and lexicographic order.
//!
//! A matrix is column-major: `m[col][row]`. Columns shorter than the
//! longest one are read as padded with zeros.
use vstd::prelude::*;
use crate::Matrix;

verus! {

// ============================================================
// Model
// ============================================================

/// The matrix as integers.
pub open spec fn mat(m: Seq<Vec<i32>>) -> Seq<Seq<int>> {
    m.map_values(|c: Vec<i32>| c@.map_values(|x: i32| x as int))
}

/// Length of the longest column.
pub open spec fn col_max(s: Seq<Seq<int>>) -> nat
    decreases s.len(),
{
    if s.len() == 0 {
        0
    } else {
        let m = col_max(s.drop_last());
        if s.last().len() > m {
            s.last().len()
        } else {
            m
        }
    }
}

pub open spec fn pad_col(c: Seq<int>, rows: nat) -> Seq<int> {
    Seq::new(rows, |i: int| if i < c.len() { c[i] } else { 0 })
}

/// Every column padded with zeros to the longest column's length.
pub open spec fn padded(s: Seq<Seq<int>>) -> Seq<Seq<int>> {
    Seq::new(s.len(), |i: int| pad_col(s[i], col_max(s)))
}

/// Rightmost `j ≤ k` whose row-0 entry is below that of column `c`, or -1.
pub open spec fn prev_smaller(s: Seq<Seq<int>>, c: int, k: int) -> int
    decreases k + 1,
{
    if k < 0 {
        -1
    } else if s[k][0] < s[c][0] {
        k
    } else {
        prev_smaller(s, c, k - 1)
    }
}

/// Parent of column `c` in row `r` (-1 for none): in row 0 the nearest
/// column to the left with a smaller entry; in row `r > 0` the nearest
/// ancestor in row `r - 1` with a smaller entry in row `r`.
pub open spec fn par(s: Seq<Seq<int>>, c: int, r: nat) -> int
    decreases r, c, 1nat,
{
    if c < 0 {
        -1
    } else if r == 0 {
        prev_smaller(s, c, c - 1)
    } else {
        let k0 = par(s, c, (r - 1) as nat);
        if 0 <= k0 < c {
            chain(s, c, r, k0)
        } else {
            -1
        }
    }
}

/// Walks the row `r - 1` ancestors of column `c`, starting at `k`, to the
/// first one whose row-`r` entry is below that of `c`.
pub open spec fn chain(s: Seq<Seq<int>>, c: int, r: nat, k: int) -> int
    decreases r, k, 0nat,
{
    if k < 0 || r == 0 {
        -1
    } else if s[k][r as int] < s[c][r as int] {
        k
    } else {
        let k2 = par(s, k, (r - 1) as nat);
        if 0 <= k2 < k {
            chain(s, c, r, k2)
        } else {
            -1
        }
    }
}

pub proof fn lemma_prev_smaller(s: Seq<Seq<int>>, c: int, k: int)
    ensures
        -1 <= prev_smaller(s, c, k) <= k || (k < -1 && prev_smaller(s, c, k) == -1),
    decreases k + 1,
{
    if k >= 0 {
        lemma_prev_smaller(s, c, k - 1);
    }
}

pub proof fn lemma_chain_range(s: Seq<Seq<int>>, c: int, r: nat, k: int)
    ensures
        chain(s, c, r, k) == -1 || (0 <= chain(s, c, r, k) <= k),
    decreases k,
{
    if k >= 0 && r > 0 && !(s[k][r as int] < s[c][r as int]) {
        let k2 = par(s, k, (r - 1) as nat);
        if 0 <= k2 < k {
            lemma_chain_range(s, c, r, k2);
        }
    }
}

/// A parent lies to the left.
pub proof fn lemma_par_range(s: Seq<Seq<int>>, c: int, r: nat)
    requires
        0 <= c,
    ensures
        -1 <= par(s, c, r) < c,
{
    if r == 0 {
        lemma_prev_smaller(s, c, c - 1);
    } else {
        let k0 = par(s, c, (r - 1) as nat);
        if 0 <= k0 < c {
            lemma_chain_range(s, c, r, k0);
        }
    }
}

/// Every column has `rows` entries.
pub open spec fn uniform(s: Seq<Seq<int>>, rows: nat) -> bool {
    forall|i: int| 0 <= i < s.len() ==> (#[trigger] s[i]).len() == rows
}

// ============================================================
// Padding and parents
// ============================================================

pub proof fn lemma_col_max(s: Seq<Seq<int>>)
    ensures
        forall|i: int| 0 <= i < s.len() ==> (#[trigger] s[i]).len() <= col_max(s),
        s.len() > 0 ==> exists|i: int| 0 <= i < s.len() && (#[trigger] s[i]).len() == col_max(s),
        s.len() == 0 ==> col_max(s) == 0,
    decreases s.len(),
{
    if s.len() > 0 {
        lemma_col_max(s.drop_last());
        assert forall|i: int| 0 <= i < s.len() implies (#[trigger] s[i]).len() <= col_max(s) by {
            if i < s.len() - 1 {
                assert(s[i] == s.drop_last()[i]);
            }
        }
        if s.last().len() <= col_max(s.drop_last()) && s.len() > 1 {
            let i = choose|i: int|
                0 <= i < s.drop_last().len() && (#[trigger] s.drop_last()[i]).len() == col_max(
                    s.drop_last(),
                );
            assert(s[i] == s.drop_last()[i]);
            assert(0 <= i < s.len() && s[i].len() == col_max(s));
        } else {
            assert(s.drop_last().len() == 0 ==> col_max(s.drop_last()) == 0);
            assert(s[s.len() - 1].len() == col_max(s));
        }
    }
}

/// Number of rows: the longest column's length.
pub fn matrix_rows(m: &Matrix) -> (r: usize)
    ensures
        r == col_max(mat(m@)),
{
    let mut r: usize = 0;
    let mut i: usize = 0;
    while i < m.len()
        invariant
            i <= m@.len(),
            r == col_max(mat(m@).subrange(0, i as int)),
        decreases m.len() - i,
    {
        proof {
            assert(mat(m@).subrange(0, i + 1).drop_last() =~= mat(m@).subrange(0, i as int));
        }
        if m[i].len() > r {
            r = m[i].len();
        }
        i = i + 1;
    }
    proof {
        assert(mat(m@).subrange(0, m@.len() as int) =~= mat(m@));
    }
    r
}

/// The matrix with every column padded by zeros to `rows` entries.
pub fn pad_matrix(m: &Matrix, rows: usize) -> (r: Matrix)
    requires
        rows == col_max(mat(m@)),
    ensures
        mat(r@) == padded(mat(m@)),
        uniform(mat(r@), rows as nat),
{
    proof {
        lemma_col_max(mat(m@));
    }
    let mut out: Vec<Vec<i32>> = Vec::new();
    let mut i: usize = 0;
    while i < m.len()
        invariant
            i <= m@.len(),
            rows == col_max(mat(m@)),
            forall|j: int| 0 <= j < m@.len() ==> (#[trigger] mat(m@)[j]).len() <= rows,
            out@.len() == i,
            forall|j: int| 0 <= j < i ==> (#[trigger] mat(out@)[j]) == pad_col(mat(m@)[j], rows as nat),
        decreases m.len() - i,
    {
        let mut col: Vec<i32> = Vec::new();
        let mut k: usize = 0;
        let ghost mi = mat(m@)[i as int];
        proof {
            assert(mi.len() == m@[i as int]@.len());
        }
        while k < rows
            invariant
                k <= rows,
                i < m@.len(),
                mi == mat(m@)[i as int],
                mi.len() == m@[i as int]@.len(),
                mi.len() <= rows,
                col@.len() == k,
                forall|t: int| 0 <= t < k ==> (#[trigger] col@[t]) as int == (if t < mi.len() {
                    mi[t]
                } else {
                    0
                }),
            decreases rows - k,
        {
            if k < m[i].len() {
                col.push(m[i][k]);
            } else {
                col.push(0);
            }
            k = k + 1;
        }
        let ghost o0 = out@;
        out.push(col);
        proof {
            assert(mat(out@)[i as int] =~= pad_col(mi, rows as nat));
            assert forall|j: int| 0 <= j < i + 1 implies (#[trigger] mat(out@)[j]) == pad_col(
                mat(m@)[j],
                rows as nat,
            ) by {
                if j < i {
                    assert(out@[j] == o0[j]);
                    assert(mat(out@)[j] == mat(o0)[j]);
                }
            }
        }
        i = i + 1;
    }
    proof {
        assert(mat(out@) =~= padded(mat(m@)));
    }
    out
}

/// Parent table, row-major: `r[row][col] == par(s, col, row) + 1`
/// (0 for no parent).
pub fn parent_table(s: &Matrix, rows: usize) -> (r: Vec<Vec<usize>>)
    requires
        uniform(mat(s@), rows as nat),
    ensures
        r@.len() == rows,
        forall|i: int| 0 <= i < rows ==> (#[trigger] r@[i])@.len() == s@.len(),
        forall|i: int, c: int|
            0 <= i < rows && 0 <= c < s@.len() ==> (#[trigger] r@[i]@[c]) as int == par(
                mat(s@),
                c,
                i as nat,
            ) + 1,
{
    let ghost ms = mat(s@);
    let l = s.len();
    let mut tab: Vec<Vec<usize>> = Vec::new();
    let mut row: usize = 0;
    while row < rows
        invariant
            row <= rows,
            l == s@.len() == ms.len(),
            ms == mat(s@),
            uniform(ms, rows as nat),
            tab@.len() == row,
            forall|i: int| 0 <= i < row ==> (#[trigger] tab@[i])@.len() == l,
            forall|i: int, c: int|
                0 <= i < row && 0 <= c < l ==> (#[trigger] tab@[i]@[c]) as int == par(
                    ms,
                    c,
                    i as nat,
                ) + 1,
        decreases rows - row,
    {
        let mut prow: Vec<usize> = Vec::new();
        let mut col: usize = 0;
        while col < l
            invariant
                col <= l == s@.len() == ms.len(),
                row < rows,
                ms == mat(s@),
                uniform(ms, rows as nat),
                tab@.len() == row,
                forall|i: int| 0 <= i < row ==> (#[trigger] tab@[i])@.len() == l,
                forall|i: int, c: int|
                    0 <= i < row && 0 <= c < l ==> (#[trigger] tab@[i]@[c]) as int == par(
                        ms,
                        c,
                        i as nat,
                    ) + 1,
                prow@.len() == col,
                forall|c: int| 0 <= c < col ==> (#[trigger] prow@[c]) as int == par(ms, c, row as nat) + 1,
            decreases l - col,
        {
            proof {
                assert(ms[col as int].len() == rows);
                assert(ms[col as int][row as int] == s@[col as int]@[row as int]);
            }
            let v = s[col][row];
            let mut kk: usize;
            if row == 0 {
                kk = col;
                while kk > 0 && s[kk - 1][0] >= v
                    invariant
                        kk <= col < l == s@.len() == ms.len(),
                        row == 0,
                        ms == mat(s@),
                        uniform(ms, rows as nat),
                        row < rows,
                        v == ms[col as int][0],
                        prev_smaller(ms, col as int, kk - 1) == prev_smaller(ms, col as int, col - 1),
                    decreases kk,
                {
                    proof {
                        assert(ms[kk - 1].len() == rows);
                        assert(ms[kk - 1][0] == s@[kk - 1]@[0]);
                    }
                    kk = kk - 1;
                }
                proof {
                    if kk > 0 {
                        assert(ms[kk - 1].len() == rows);
                        assert(ms[kk - 1][0] == s@[kk - 1]@[0]);
                    }
                }
            } else {
                kk = col + 1;
                while kk > 0 && s[kk - 1][row] >= v
                    invariant
                        kk <= col + 1,
                        col < l == s@.len() == ms.len(),
                        0 < row < rows,
                        ms == mat(s@),
                        uniform(ms, rows as nat),
                        tab@.len() == row,
                        forall|i: int| 0 <= i < row ==> (#[trigger] tab@[i])@.len() == l,
                        forall|i: int, c: int|
                            0 <= i < row && 0 <= c < l ==> (#[trigger] tab@[i]@[c]) as int == par(
                                ms,
                                c,
                                i as nat,
                            ) + 1,
                        v == ms[col as int][row as int],
                        kk == col + 1 || chain(ms, col as int, row as nat, kk - 1) == par(
                            ms,
                            col as int,
                            row as nat,
                        ),
                    decreases kk,
                {
                    proof {
                        assert(ms[kk - 1].len() == rows);
                        assert(ms[kk - 1][row as int] == s@[kk - 1]@[row as int]);
                        lemma_par_range(ms, kk - 1, (row - 1) as nat);
                        assert(tab@[row - 1]@[kk - 1] as int == par(ms, kk - 1, (row - 1) as nat) + 1);
                    }
                    kk = tab[row - 1][kk - 1];
                }
                proof {
                    if kk > 0 {
                        assert(ms[kk - 1].len() == rows);
                        assert(ms[kk - 1][row as int] == s@[kk - 1]@[row as int]);
                    }
                }
            }
            prow.push(kk);
            col = col + 1;
        }
        tab.push(prow);
        row = row + 1;
    }
    tab
}


// ============================================================
// Expansion
// ============================================================

/// Number of consecutive positive entries of `c` from index `i` on.
pub open spec fn lead_pos(c: Seq<int>, i: int) -> int
    decreases c.len() - i,
{
    if 0 <= i < c.len() && c[i] > 0 {
        1 + lead_pos(c, i + 1)
    } else {
        0
    }
}

/// The highest row of the leading positive run of the last column
/// (-1 when the last column starts with 0: a successor).
pub open spec fn limit_row(s: Seq<Seq<int>>) -> int {
    lead_pos(s[s.len() - 1], 0) - 1
}

/// The bad root: the last column's parent in the limit row, or in row 0
/// when that one has none.
pub open spec fn bad_root(s: Seq<Seq<int>>) -> int {
    let l = s.len();
    let x = limit_row(s);
    if x < 0 {
        -1
    } else {
        let b = par(s, l - 1, x as nat);
        if b >= 0 {
            b
        } else {
            par(s, l - 1, 0)
        }
    }
}

/// Ascension amount of row `k`: the last column minus the bad root, below
/// the limit row.
pub open spec fn asc_val(s: Seq<Seq<int>>, br: int, x: int, k: int) -> int {
    if 0 <= k < x {
        s[s.len() - 1][k] - s[br][k]
    } else {
        0
    }
}

/// Follows row-`i` parents from `k` until reaching `br` or passing it.
pub open spec fn anc_walk(s: Seq<Seq<int>>, k: int, br: int, i: nat) -> int
    decreases k + 1,
{
    if k > br && k >= 0 {
        let k2 = par(s, k, i);
        if -1 <= k2 < k {
            anc_walk(s, k2, br, i)
        } else {
            k
        }
    } else {
        k
    }
}

/// Whether entry `k` of bad-part column `j` ascends: row `k` lies below the
/// limit row and the bad root is a row-`k` ancestor of that column.
pub open spec fn ascends(s: Seq<Seq<int>>, br: int, x: int, j: int, k: int) -> bool {
    0 <= k < x && anc_walk(s, br + j, br, k as nat) == br
}

/// Entry `k` of copy `st` of bad-part column `j`.
pub open spec fn exp_val(s: Seq<Seq<int>>, br: int, x: int, st: int, j: int, k: int) -> int {
    s[br + j][k] + if ascends(s, br, x, j, k) {
        asc_val(s, br, x, k) * st
    } else {
        0
    }
}

/// Copy number `st` (from 1) of the bad part, ascended.
pub open spec fn exp_block(s: Seq<Seq<int>>, br: int, x: int, rows: nat, st: int) -> Seq<Seq<int>> {
    Seq::new(
        (s.len() - 1 - br) as nat,
        |j: int| Seq::new(rows, |k: int| exp_val(s, br, x, st, j, k)),
    )
}

/// Copies 1 through `n` of the bad part.
pub open spec fn exp_steps(s: Seq<Seq<int>>, br: int, x: int, rows: nat, n: int) -> Seq<Seq<int>>
    decreases n,
{
    if n <= 0 {
        Seq::empty()
    } else {
        exp_steps(s, br, x, rows, n - 1) + exp_block(s, br, x, rows, n)
    }
}

/// BMS expansion: the padded matrix without its last column, followed, for
/// a limit, by `fs` ascended copies of the bad part.
pub open spec fn expand_spec(m: Seq<Seq<int>>, fs: int) -> Seq<Seq<int>> {
    let l = m.len();
    if l == 0 {
        Seq::empty()
    } else {
        let s = padded(m);
        let x = limit_row(s);
        let br = bad_root(s);
        if x < 0 || br < 0 {
            s.take(l - 1)
        } else {
            s.take(l - 1) + exp_steps(s, br, x, col_max(m), fs)
        }
    }
}

pub open spec fn in_i32(v: int) -> bool {
    i32::MIN <= v <= i32::MAX
}

/// Every entry that the expansion writes fits in an `i32`.
pub open spec fn expand_fits(m: Seq<Seq<int>>, fs: int) -> bool {
    let s = padded(m);
    let x = limit_row(s);
    let br = bad_root(s);
    m.len() == 0 || x < 0 || br < 0 || forall|st: int, j: int, k: int|
        1 <= st <= fs && 0 <= j < s.len() - 1 - br && 0 <= k < col_max(m) ==> in_i32(
            #[trigger] exp_val(s, br, x, st, j, k),
        )
}

pub proof fn lemma_lead_pos(c: Seq<int>, i: int)
    requires
        0 <= i <= c.len(),
    ensures
        0 <= lead_pos(c, i) <= c.len() - i,
        forall|k: int| i <= k < i + lead_pos(c, i) ==> #[trigger] c[k] > 0,
        i + lead_pos(c, i) < c.len() ==> c[i + lead_pos(c, i)] <= 0,
    decreases c.len() - i,
{
    if i < c.len() && c[i] > 0 {
        lemma_lead_pos(c, i + 1);
    }
}

/// Whether the bad root is a row-`i` ancestor of column `k`.
fn is_asc_ancestor(tab: &Vec<Vec<usize>>, s: &Matrix, k: usize, br: usize, i: usize) -> (r: bool)
    requires
        i < tab@.len(),
        tab@[i as int]@.len() == s@.len(),
        forall|c: int|
            0 <= c < s@.len() ==> (#[trigger] tab@[i as int]@[c]) as int == par(mat(s@), c, i as nat)
                + 1,
        br < k < s@.len(),
    ensures
        r == (anc_walk(mat(s@), k as int, br as int, i as nat) == br),
{
    let n = s.len();
    let mut kk: usize = k + 1;
    while kk > br + 1
        invariant
            kk <= k + 1,
            br < k,
            n == s@.len(),
            k < s@.len(),
            i < tab@.len(),
            tab@[i as int]@.len() == s@.len(),
            forall|c: int|
                0 <= c < s@.len() ==> (#[trigger] tab@[i as int]@[c]) as int == par(mat(s@), c, i as nat)
                    + 1,
            anc_walk(mat(s@), kk - 1, br as int, i as nat) == anc_walk(
                mat(s@),
                k as int,
                br as int,
                i as nat,
            ),
        decreases kk,
    {
        proof {
            lemma_par_range(mat(s@), kk - 1, i as nat);
        }
        kk = tab[i][kk - 1];
    }
    kk == br + 1
}

/// BMS expansion by `fs` steps, or `None` when an entry of the result
/// does not fit in an `i32`.
pub fn expand_bms_checked(m: &Matrix, fs: i32) -> (r: Option<Matrix>)
    ensures
        match r {
            Some(x) => expand_fits(mat(m@), fs as int) && mat(x@) == expand_spec(mat(m@), fs as int),
            None => !expand_fits(mat(m@), fs as int),
        },
{
    let l = m.len();
    if l == 0 {
        let e: Vec<Vec<i32>> = Vec::new();
        proof {
            assert(mat(e@) =~= Seq::<Seq<int>>::empty());
        }
        return Some(e);
    }
    let rows = matrix_rows(m);
    let s = pad_matrix(m, rows);
    let ghost ms = mat(s@);
    proof {
        assert(ms.len() == l);
        assert(ms[l - 1].len() == rows);
    }
    let tab = parent_table(&s, rows);
    // Keep all columns but the last.
    let mut res: Vec<Vec<i32>> = Vec::new();
    let mut i: usize = 0;
    while i < l - 1
        invariant
            i <= l - 1,
            l == s@.len() == ms.len(),
            ms == mat(s@),
            res@.len() == i,
            forall|j: int| 0 <= j < i ==> (#[trigger] mat(res@)[j]) == ms[j],
        decreases l - 1 - i,
    {
        let c = s[i].clone();
        proof {
            assert(c@ =~= s@[i as int]@);
        }
        let ghost r0 = res@;
        res.push(c);
        proof {
            assert forall|j: int| 0 <= j < i + 1 implies (#[trigger] mat(res@)[j]) == ms[j] by {
                if j < i {
                    assert(res@[j] == r0[j]);
                    assert(mat(res@)[j] == mat(r0)[j]);
                } else {
                    assert(res@[j] == c);
                    assert(mat(res@)[j] =~= ms[j]);
                }
            }
        }
        i = i + 1;
    }
    proof {
        assert(mat(res@) =~= ms.take(l - 1));
    }
    // The limit row.
    let mut xp: usize = 0;
    proof {
        lemma_lead_pos(ms[l - 1], 0);
    }
    while xp < rows && s[l - 1][xp] > 0
        invariant
            xp <= rows,
            l > 0,
            l == s@.len() == ms.len(),
            ms == mat(s@),
            ms[l - 1].len() == rows,
            lead_pos(ms[l - 1], xp as int) + xp == lead_pos(ms[l - 1], 0),
        decreases rows - xp,
    {
        proof {
            assert(ms[l - 1][xp as int] == s@[l - 1]@[xp as int]);
        }
        xp = xp + 1;
    }
    proof {
        if xp < rows {
            assert(ms[l - 1][xp as int] == s@[l - 1]@[xp as int]);
        }
        assert(lead_pos(ms[l - 1], xp as int) == 0);
        assert(limit_row(ms) == xp - 1);
        assert(ms =~= padded(mat(m@)));
    }
    if xp == 0 {
        return Some(res);
    }
    let x: usize = xp - 1;
    proof {
        assert(tab@[x as int]@[l - 1] as int == par(ms, l - 1, x as nat) + 1);
        assert(tab@[0]@[l - 1] as int == par(ms, l - 1, 0) + 1);
    }
    let mut br1 = tab[x][l - 1];
    if br1 == 0 {
        br1 = tab[0][l - 1];
        if br1 == 0 {
            return Some(res);
        }
    }
    let br = br1 - 1;
    proof {
        assert(br == bad_root(ms));
        lemma_par_range(ms, l - 1, x as nat);
        lemma_par_range(ms, l - 1, 0);
        assert(br < l - 1);
    }
    let bl = l - 1 - br;
    // Ascension amounts.
    let mut av: Vec<i64> = Vec::new();
    let mut k: usize = 0;
    while k < rows
        invariant
            k <= rows,
            l == s@.len() == ms.len(),
            ms == mat(s@),
            uniform(ms, rows as nat),
            br < l - 1,
            x < rows,
            av@.len() == k,
            forall|t: int| 0 <= t < k ==> (#[trigger] av@[t]) as int == asc_val(ms, br as int, x as int, t),
            forall|t: int| 0 <= t < k ==> -0x1_0000_0000 < #[trigger] av@[t] < 0x1_0000_0000,
        decreases rows - k,
    {
        proof {
            assert(ms[l - 1].len() == rows && ms[br as int].len() == rows);
            assert(ms[l - 1][k as int] == s@[l - 1]@[k as int]);
            assert(ms[br as int][k as int] == s@[br as int]@[k as int]);
        }
        if k < x {
            av.push(s[l - 1][k] as i64 - s[br][k] as i64);
        } else {
            av.push(0);
        }
        k = k + 1;
    }
    // Ascension matrix.
    let mut am: Vec<Vec<bool>> = Vec::new();
    let mut j: usize = 0;
    while j < bl
        invariant
            j <= bl == l - 1 - br,
            l == s@.len() == ms.len(),
            ms == mat(s@),
            br < l - 1,
            x < rows,
            tab@.len() == rows,
            forall|i: int| 0 <= i < rows ==> (#[trigger] tab@[i])@.len() == s@.len(),
            forall|i: int, c: int|
                0 <= i < rows && 0 <= c < s@.len() ==> (#[trigger] tab@[i]@[c]) as int == par(
                    mat(s@),
                    c,
                    i as nat,
                ) + 1,
            am@.len() == j,
            forall|t: int| 0 <= t < j ==> (#[trigger] am@[t])@.len() == rows,
            forall|t: int, u: int|
                0 <= t < j && 0 <= u < rows ==> (#[trigger] am@[t]@[u]) == ascends(
                    ms,
                    br as int,
                    x as int,
                    t,
                    u,
                ),
        decreases bl - j,
    {
        let mut row_flags: Vec<bool> = Vec::new();
        let mut u: usize = 0;
        while u < rows
            invariant
                u <= rows,
                j < bl == l - 1 - br,
                l == s@.len() == ms.len(),
                ms == mat(s@),
                br < l - 1,
                x < rows,
                tab@.len() == rows,
                forall|i: int| 0 <= i < rows ==> (#[trigger] tab@[i])@.len() == s@.len(),
                forall|i: int, c: int|
                    0 <= i < rows && 0 <= c < s@.len() ==> (#[trigger] tab@[i]@[c]) as int == par(
                        mat(s@),
                        c,
                        i as nat,
                    ) + 1,
                row_flags@.len() == u,
                forall|t: int| 0 <= t < u ==> (#[trigger] row_flags@[t]) == ascends(
                    ms,
                    br as int,
                    x as int,
                    j as int,
                    t,
                ),
            decreases rows - u,
        {
            if u < x {
                if j == 0 {
                    proof {
                        assert(anc_walk(ms, br as int, br as int, u as nat) == br);
                    }
                    row_flags.push(true);
                } else {
                    let f = is_asc_ancestor(&tab, &s, j + br, br, u);
                    row_flags.push(f);
                }
            } else {
                row_flags.push(false);
            }
            u = u + 1;
        }
        let ghost a0 = am@;
        am.push(row_flags);
        proof {
            assert forall|t: int, u: int| 0 <= t < j + 1 && 0 <= u < rows implies (
            #[trigger] am@[t]@[u]) == ascends(ms, br as int, x as int, t, u) by {
                if t < j {
                    assert(am@[t] == a0[t]);
                }
            }
        }
        j = j + 1;
    }
    // The copies of the bad part.
    let ghost base = ms.take(l - 1);
    if fs < 1 {
        proof {
            assert(mat(res@) =~= base + exp_steps(ms, br as int, x as int, rows as nat, fs as int));
        }
        return Some(res);
    }
    let mut st: i32 = 1;
    proof {
        assert(mat(res@) =~= base + exp_steps(ms, br as int, x as int, rows as nat, 0));
    }
    while st <= fs
        invariant
            1 <= st <= fs,
            l == s@.len() == ms.len(),
            ms == mat(s@),
            ms == padded(mat(m@)),
            rows == col_max(mat(m@)),
            uniform(ms, rows as nat),
            br as int == bad_root(ms),
            x as int == limit_row(ms),
            br < l - 1,
            bl == l - 1 - br,
            x < rows,
            forall|a: int, b: int, c: int|
                1 <= a < st && 0 <= b < bl && 0 <= c < rows ==> in_i32(
                    #[trigger] exp_val(ms, br as int, x as int, a, b, c),
                ),
            av@.len() == rows,
            forall|t: int| 0 <= t < rows ==> -0x1_0000_0000 < #[trigger] av@[t] < 0x1_0000_0000,
            forall|t: int| 0 <= t < rows ==> (#[trigger] av@[t]) as int == asc_val(ms, br as int, x as int, t),
            am@.len() == bl,
            forall|t: int| 0 <= t < bl ==> (#[trigger] am@[t])@.len() == rows,
            forall|t: int, u: int|
                0 <= t < bl && 0 <= u < rows ==> (#[trigger] am@[t]@[u]) == ascends(
                    ms,
                    br as int,
                    x as int,
                    t,
                    u,
                ),
            base == ms.take(l - 1),
            mat(res@) == base + exp_steps(ms, br as int, x as int, rows as nat, st - 1),
        decreases fs - st,
    {
        let ghost before = mat(res@);
        let ghost blk = exp_block(ms, br as int, x as int, rows as nat, st as int);
        let mut j: usize = 0;
        proof {
            assert(mat(res@) =~= before + blk.take(0));
        }
        while j < bl
            invariant
                j <= bl == l - 1 - br,
                1 <= st <= fs,
                l == s@.len() == ms.len(),
                ms == mat(s@),
                ms == padded(mat(m@)),
                rows == col_max(mat(m@)),
                uniform(ms, rows as nat),
                br as int == bad_root(ms),
                x as int == limit_row(ms),
                br < l - 1,
                x < rows,
                forall|a: int, b: int, c: int|
                    1 <= a < st && 0 <= b < l - 1 - br && 0 <= c < rows ==> in_i32(
                        #[trigger] exp_val(ms, br as int, x as int, a, b, c),
                    ),
                forall|b: int, c: int|
                    0 <= b < j && 0 <= c < rows ==> in_i32(
                        #[trigger] exp_val(ms, br as int, x as int, st as int, b, c),
                    ),
                av@.len() == rows,
                forall|t: int| 0 <= t < rows ==> -0x1_0000_0000 < #[trigger] av@[t] < 0x1_0000_0000,
                forall|t: int| 0 <= t < rows ==> (#[trigger] av@[t]) as int == asc_val(
                    ms,
                    br as int,
                    x as int,
                    t,
                ),
                am@.len() == bl,
                forall|t: int| 0 <= t < bl ==> (#[trigger] am@[t])@.len() == rows,
                forall|t: int, u: int|
                    0 <= t < bl && 0 <= u < rows ==> (#[trigger] am@[t]@[u]) == ascends(
                        ms,
                        br as int,
                        x as int,
                        t,
                        u,
                    ),
                blk == exp_block(ms, br as int, x as int, rows as nat, st as int),
                mat(res@) == before + blk.take(j as int),
            decreases bl - j,
        {
            let mut col: Vec<i32> = Vec::new();
            let mut u: usize = 0;
            proof {
                assert(ms[br + j].len() == rows);
            }
            while u < rows
                invariant
                    u <= rows,
                    j < bl == l - 1 - br,
                    1 <= st <= fs,
                    l == s@.len() == ms.len(),
                    ms == mat(s@),
                    ms == padded(mat(m@)),
                    rows == col_max(mat(m@)),
                    ms[br + j].len() == rows,
                    br as int == bad_root(ms),
                    x as int == limit_row(ms),
                    br < l - 1,
                    x < rows,
                    uniform(ms, rows as nat),
                    av@.len() == rows,
                    forall|t: int| 0 <= t < rows ==> -0x1_0000_0000 < #[trigger] av@[t] < 0x1_0000_0000,
                    forall|t: int| 0 <= t < rows ==> (#[trigger] av@[t]) as int == asc_val(
                        ms,
                        br as int,
                        x as int,
                        t,
                    ),
                    am@.len() == bl,
                    forall|t: int| 0 <= t < bl ==> (#[trigger] am@[t])@.len() == rows,
                    forall|t: int, u: int|
                        0 <= t < bl && 0 <= u < rows ==> (#[trigger] am@[t]@[u]) == ascends(
                            ms,
                            br as int,
                            x as int,
                            t,
                            u,
                        ),
                    col@.len() == u,
                    forall|t: int| 0 <= t < u ==> (#[trigger] col@[t]) as int == exp_val(
                        ms,
                        br as int,
                        x as int,
                        st as int,
                        j as int,
                        t,
                    ),
                decreases rows - u,
            {
                proof {
                    assert(ms[br + j][u as int] == s@[br + j]@[u as int]);
                    assert(am@[j as int]@[u as int] == ascends(ms, br as int, x as int, j as int, u as int));
                    assert(av@[u as int] as int == asc_val(ms, br as int, x as int, u as int));
                }
                let base_v = s[br + j][u] as i64;
                let a = av[u];
                let st64 = st as i64;
                proof {
                    assert(-0x1_0000_0000 < a < 0x1_0000_0000 && 1 <= st64 <= 0x7fff_ffff);
                    assert(-0x7fff_ffff_0000_0000 <= a * st64 <= 0x7fff_ffff_0000_0000) by (nonlinear_arith)
                        requires
                            -0x1_0000_0000 < a < 0x1_0000_0000,
                            1 <= st64 <= 0x7fff_ffff,
                    ;
                }
                let v: i64 = if am[j][u] {
                    base_v + a * st64
                } else {
                    base_v
                };
                if v < -0x8000_0000 || v > 0x7fff_ffff {
                    proof {
                        assert(v == exp_val(ms, br as int, x as int, st as int, j as int, u as int));
                        assert(!in_i32(exp_val(ms, br as int, x as int, st as int, j as int, u as int)));
                    }
                    return None;
                }
                col.push(v as i32);
                u = u + 1;
            }
            let ghost r0 = mat(res@);
            res.push(col);
            proof {
                assert forall|b: int, c: int|
                    0 <= b < j + 1 && 0 <= c < rows implies in_i32(
                    #[trigger] exp_val(ms, br as int, x as int, st as int, b, c),
                ) by {
                    if b == j {
                        assert(col@[c] as int == exp_val(ms, br as int, x as int, st as int, b, c));
                    }
                }
                assert(mat(res@)[r0.len() as int] =~= blk[j as int]);
                assert(mat(res@) =~= r0.push(blk[j as int]));
                assert(blk.take(j + 1) =~= blk.take(j as int).push(blk[j as int]));
            }
            j = j + 1;
        }
        proof {
            assert(blk.take(bl as int) =~= blk);
            assert(exp_steps(ms, br as int, x as int, rows as nat, st as int) == exp_steps(
                ms,
                br as int,
                x as int,
                rows as nat,
                st - 1,
            ) + blk);
        }
        if st == fs {
            proof {
                assert(mat(res@) =~= base + exp_steps(ms, br as int, x as int, rows as nat, st as int));
                assert forall|a: int, b: int, c: int|
                    1 <= a <= fs && 0 <= b < ms.len() - 1 - br && 0 <= c < col_max(mat(m@)) implies in_i32(
                    #[trigger] exp_val(ms, br as int, x as int, a, b, c),
                ) by {
                    if a < st {
                    } else {
                        assert(a == st);
                    }
                }
            }
            return Some(res);
        }
        st = st + 1;
    }
    None
}

/// Expand a BMS matrix by `fs` fundamental-sequence steps.
pub fn expand_bms(m: &Matrix, fs: i32) -> (r: Matrix)
    requires
        expand_fits(mat(m@), fs as int),
    ensures
        mat(r@) == expand_spec(mat(m@), fs as int),
{
    match expand_bms_checked(m, fs) {
        Some(x) => x,
        None => Vec::new(),
    }
}


// ============================================================
// Lexicographic order
// ============================================================

/// Entry `(i, j)`, zero outside the matrix.
pub open spec fn ent(a: Seq<Seq<int>>, i: int, j: int) -> int {
    if 0 <= i < a.len() && 0 <= j < a[i].len() {
        a[i][j]
    } else {
        0
    }
}

pub open spec fn col_len(a: Seq<Seq<int>>, i: int) -> int {
    if 0 <= i < a.len() {
        a[i].len() as int
    } else {
        0
    }
}

pub open spec fn max2(x: int, y: int) -> int {
    if x >= y {
        x
    } else {
        y
    }
}

/// Compares column `i` of `a` and `b` on rows `j..n`.
pub open spec fn col_order_to(a: Seq<Seq<int>>, b: Seq<Seq<int>>, i: int, j: int, n: int) -> int
    decreases n - j,
{
    if j >= n {
        0
    } else if ent(a, i, j) > ent(b, i, j) {
        1
    } else if ent(a, i, j) < ent(b, i, j) {
        -1
    } else {
        col_order_to(a, b, i, j + 1, n)
    }
}

pub open spec fn lex_col(a: Seq<Seq<int>>, b: Seq<Seq<int>>, i: int) -> int {
    col_order_to(a, b, i, 0, max2(col_len(a, i), col_len(b, i)))
}

/// Compares columns `i..n`, first difference deciding.
pub open spec fn cols_order_to(a: Seq<Seq<int>>, b: Seq<Seq<int>>, i: int, n: int) -> int
    decreases n - i,
{
    if i >= n {
        0
    } else if lex_col(a, b, i) != 0 {
        lex_col(a, b, i)
    } else {
        cols_order_to(a, b, i + 1, n)
    }
}

/// Lexicographic order on matrices, column by column and within a column
/// row by row, missing entries read as 0: 1, -1 or 0.
pub open spec fn lex_order(a: Seq<Seq<int>>, b: Seq<Seq<int>>) -> int {
    cols_order_to(a, b, 0, max2(a.len() as int, b.len() as int))
}

/// Lexicographic order on matrices. Returns 1, -1, or 0.
pub fn matrix_lex_order(a: &Matrix, b: &Matrix) -> (r: i32)
    ensures
        r == lex_order(mat(a@), mat(b@)),
{
    let ghost ma = mat(a@);
    let ghost mb = mat(b@);
    let na = a.len();
    let nb = b.len();
    let max_cols = if na >= nb {
        na
    } else {
        nb
    };
    let mut i: usize = 0;
    while i < max_cols
        invariant
            i <= max_cols,
            max_cols == max2(a@.len() as int, b@.len() as int),
            na == a@.len() && nb == b@.len(),
            ma == mat(a@) && mb == mat(b@),
            lex_order(ma, mb) == cols_order_to(ma, mb, i as int, max_cols as int),
        decreases max_cols - i,
    {
        let a_len = if i < na {
            a[i].len()
        } else {
            0
        };
        let b_len = if i < nb {
            b[i].len()
        } else {
            0
        };
        let n = if a_len >= b_len {
            a_len
        } else {
            b_len
        };
        proof {
            assert(a_len == col_len(ma, i as int));
            assert(b_len == col_len(mb, i as int));
        }
        let mut j: usize = 0;
        while j < n
            invariant
                j <= n,
                n == max2(col_len(ma, i as int), col_len(mb, i as int)),
                i < max_cols,
                na == a@.len() && nb == b@.len(),
                ma == mat(a@) && mb == mat(b@),
                a_len == col_len(ma, i as int),
                b_len == col_len(mb, i as int),
                lex_col(ma, mb, i as int) == col_order_to(ma, mb, i as int, j as int, n as int),
                max_cols == max2(a@.len() as int, b@.len() as int),
                lex_order(ma, mb) == cols_order_to(ma, mb, i as int, max_cols as int),
            decreases n - j,
        {
            let va = if i < na && j < a[i].len() {
                a[i][j]
            } else {
                0
            };
            let vb = if i < nb && j < b[i].len() {
                b[i][j]
            } else {
                0
            };
            proof {
                assert(va == ent(ma, i as int, j as int));
                assert(vb == ent(mb, i as int, j as int));
            }
            if va > vb {
                return 1;
            }
            if va < vb {
                return -1;
            }
            j = j + 1;
        }
        i = i + 1;
    }
    0
}

pub proof fn lemma_order_col_antisym(a: Seq<Seq<int>>, b: Seq<Seq<int>>, i: int, j: int, n: int)
    ensures
        col_order_to(a, b, i, j, n) == -col_order_to(b, a, i, j, n),
        -1 <= col_order_to(a, b, i, j, n) <= 1,
        col_order_to(a, a, i, j, n) == 0,
    decreases n - j,
{
    if j < n {
        lemma_order_col_antisym(a, b, i, j + 1, n);
    }
}

pub proof fn lemma_order_cols_antisym(a: Seq<Seq<int>>, b: Seq<Seq<int>>, i: int, n: int)
    ensures
        cols_order_to(a, b, i, n) == -cols_order_to(b, a, i, n),
        -1 <= cols_order_to(a, b, i, n) <= 1,
        cols_order_to(a, a, i, n) == 0,
    decreases n - i,
{
    if i < n {
        lemma_order_col_antisym(a, b, i, 0, max2(col_len(a, i), col_len(b, i)));
        lemma_order_col_antisym(a, a, i, 0, max2(col_len(a, i), col_len(a, i)));
        assert(max2(col_len(a, i), col_len(b, i)) == max2(col_len(b, i), col_len(a, i)));
        lemma_order_cols_antisym(a, b, i + 1, n);
    }
}

/// The order is antisymmetric and reflexive, with values in {-1, 0, 1}:
/// comparing `b` with `a` gives the opposite of comparing `a` with `b`,
/// and a matrix compares equal to itself.
pub proof fn lemma_lex_order_antisymmetric(a: Seq<Seq<int>>, b: Seq<Seq<int>>)
    ensures
        lex_order(a, b) == -lex_order(b, a),
        lex_order(a, a) == 0,
        lex_order(a, b) == 1 || lex_order(a, b) == 0 || lex_order(a, b) == -1,
{
    lemma_order_cols_antisym(a, b, 0, max2(a.len() as int, b.len() as int));
    lemma_order_cols_antisym(a, a, 0, max2(a.len() as int, a.len() as int));
    assert(max2(a.len() as int, b.len() as int) == max2(b.len() as int, a.len() as int));
}

proof fn lemma_col_zero(a: Seq<Seq<int>>, b: Seq<Seq<int>>, i: int, j: int, n: int)
    ensures
        col_order_to(a, b, i, j, n) == 0 <==> forall|k: int| j <= k < n ==> #[trigger] ent(a, i, k) == ent(b, i, k),
    decreases n - j,
{
    if j < n {
        lemma_col_zero(a, b, i, j + 1, n);
        if col_order_to(a, b, i, j, n) == 0 {
            assert forall|k: int| j <= k < n implies #[trigger] ent(a, i, k) == ent(b, i, k) by {
                if k > j {
                    assert(ent(a, i, k) == ent(b, i, k));
                }
            }
        } else if forall|k: int| j <= k < n ==> #[trigger] ent(a, i, k) == ent(b, i, k) {
            assert(ent(a, i, j) == ent(b, i, j));
            assert forall|k: int| j + 1 <= k < n implies #[trigger] ent(a, i, k) == ent(b, i, k) by {}
        }
    }
}

proof fn lemma_lex_col_zero(a: Seq<Seq<int>>, b: Seq<Seq<int>>, i: int)
    ensures
        lex_col(a, b, i) == 0 <==> forall|k: int| #[trigger] ent(a, i, k) == ent(b, i, k),
{
    let n = max2(col_len(a, i), col_len(b, i));
    lemma_col_zero(a, b, i, 0, n);
    if lex_col(a, b, i) == 0 {
        assert forall|k: int| #[trigger] ent(a, i, k) == ent(b, i, k) by {
            if 0 <= k < n {
                assert(ent(a, i, k) == ent(b, i, k));
            }
        }
    }
}

proof fn lemma_cols_zero(a: Seq<Seq<int>>, b: Seq<Seq<int>>, i: int, n: int)
    ensures
        cols_order_to(a, b, i, n) == 0 <==> forall|c: int, k: int| i <= c < n ==> #[trigger] ent(a, c, k) == ent(b, c, k),
    decreases n - i,
{
    if i < n {
        lemma_cols_zero(a, b, i + 1, n);
        lemma_lex_col_zero(a, b, i);
        if cols_order_to(a, b, i, n) == 0 {
            assert forall|c: int, k: int| i <= c < n implies #[trigger] ent(a, c, k) == ent(b, c, k) by {
                if c == i {
                    assert(ent(a, i, k) == ent(b, i, k));
                }
            }
        } else if forall|c: int, k: int| i <= c < n ==> #[trigger] ent(a, c, k) == ent(b, c, k) {
            assert forall|k: int| #[trigger] ent(a, i, k) == ent(b, i, k) by {}
            assert forall|c: int, k: int| i + 1 <= c < n implies #[trigger] ent(a, c, k) == ent(b, c, k) by {}
        }
    }
}

/// The order gives 0 exactly where the matrices agree on every entry,
/// missing entries read as 0.
pub proof fn lemma_lex_order_zero(a: Seq<Seq<int>>, b: Seq<Seq<int>>)
    ensures
        lex_order(a, b) == 0 <==> forall|c: int, k: int| #[trigger] ent(a, c, k) == ent(b, c, k),
{
    let n = max2(a.len() as int, b.len() as int);
    lemma_cols_zero(a, b, 0, n);
    if lex_order(a, b) == 0 {
        assert forall|c: int, k: int| #[trigger] ent(a, c, k) == ent(b, c, k) by {
            if 0 <= c < n {
                assert(ent(a, c, k) == ent(b, c, k));
            }
        }
    }
}

/// Past every column's length, the comparison is 0.
pub proof fn lemma_order_col_tail(a: Seq<Seq<int>>, b: Seq<Seq<int>>, i: int, j: int, n: int)
    requires
        j >= col_len(a, i),
        j >= col_len(b, i),
    ensures
        col_order_to(a, b, i, j, n) == 0,
    decreases n - j,
{
    if j < n {
        lemma_order_col_tail(a, b, i, j + 1, n);
    }
}

/// Any bound at least both column lengths gives the same comparison.
pub proof fn lemma_order_col_bound(a: Seq<Seq<int>>, b: Seq<Seq<int>>, i: int, j: int, n: int)
    requires
        0 <= j,
        n >= max2(col_len(a, i), col_len(b, i)),
    ensures
        col_order_to(a, b, i, j, n) == col_order_to(a, b, i, j, max2(col_len(a, i), col_len(b, i))),
    decreases n - j,
{
    let m = max2(col_len(a, i), col_len(b, i));
    if j >= m {
        lemma_order_col_tail(a, b, i, j, n);
        lemma_order_col_tail(a, b, i, j, m);
    } else {
        lemma_order_col_bound(a, b, i, j + 1, n);
    }
}

pub proof fn lemma_order_col_combine(
    a: Seq<Seq<int>>,
    b: Seq<Seq<int>>,
    c: Seq<Seq<int>>,
    i: int,
    j: int,
    n: int,
)
    ensures
        col_order_to(a, b, i, j, n) == col_order_to(b, c, i, j, n) ==> col_order_to(a, c, i, j, n)
            == col_order_to(a, b, i, j, n),
        col_order_to(a, b, i, j, n) == 0 ==> col_order_to(a, c, i, j, n) == col_order_to(b, c, i, j, n),
        col_order_to(b, c, i, j, n) == 0 ==> col_order_to(a, c, i, j, n) == col_order_to(a, b, i, j, n),
    decreases n - j,
{
    if j < n {
        lemma_order_col_combine(a, b, c, i, j + 1, n);
    }
}

pub proof fn lemma_lex_col_combine(a: Seq<Seq<int>>, b: Seq<Seq<int>>, c: Seq<Seq<int>>, i: int)
    ensures
        lex_col(a, b, i) == lex_col(b, c, i) ==> lex_col(a, c, i) == lex_col(a, b, i),
        lex_col(a, b, i) == 0 ==> lex_col(a, c, i) == lex_col(b, c, i),
        lex_col(b, c, i) == 0 ==> lex_col(a, c, i) == lex_col(a, b, i),
{
    let n = max2(max2(col_len(a, i), col_len(b, i)), col_len(c, i));
    lemma_order_col_bound(a, b, i, 0, n);
    lemma_order_col_bound(b, c, i, 0, n);
    lemma_order_col_bound(a, c, i, 0, n);
    lemma_order_col_combine(a, b, c, i, 0, n);
}

/// Past every matrix's width, the comparison is 0.
pub proof fn lemma_order_cols_bound(a: Seq<Seq<int>>, b: Seq<Seq<int>>, i: int, n: int)
    requires
        0 <= i,
        n >= max2(a.len() as int, b.len() as int),
    ensures
        cols_order_to(a, b, i, n) == cols_order_to(a, b, i, max2(a.len() as int, b.len() as int)),
    decreases n - i,
{
    let m = max2(a.len() as int, b.len() as int);
    if i >= m {
        lemma_order_cols_zero(a, b, i, n);
        lemma_order_cols_zero(a, b, i, m);
    } else {
        lemma_order_cols_bound(a, b, i + 1, n);
    }
}

pub proof fn lemma_order_cols_zero(a: Seq<Seq<int>>, b: Seq<Seq<int>>, i: int, n: int)
    requires
        i >= a.len(),
        i >= b.len(),
    ensures
        cols_order_to(a, b, i, n) == 0,
    decreases n - i,
{
    if i < n {
        lemma_order_col_tail(a, b, i, 0, max2(col_len(a, i), col_len(b, i)));
        lemma_order_cols_zero(a, b, i + 1, n);
    }
}

pub proof fn lemma_order_cols_combine(
    a: Seq<Seq<int>>,
    b: Seq<Seq<int>>,
    c: Seq<Seq<int>>,
    i: int,
    n: int,
)
    ensures
        cols_order_to(a, b, i, n) == cols_order_to(b, c, i, n) ==> cols_order_to(a, c, i, n)
            == cols_order_to(a, b, i, n),
        cols_order_to(a, b, i, n) == 0 ==> cols_order_to(a, c, i, n) == cols_order_to(b, c, i, n),
        cols_order_to(b, c, i, n) == 0 ==> cols_order_to(a, c, i, n) == cols_order_to(a, b, i, n),
    decreases n - i,
{
    if i < n {
        lemma_lex_col_combine(a, b, c, i);
        lemma_order_col_antisym(a, b, i, 0, max2(col_len(a, i), col_len(b, i)));
        lemma_order_col_antisym(b, c, i, 0, max2(col_len(b, i), col_len(c, i)));
        lemma_order_cols_combine(a, b, c, i + 1, n);
    }
}

/// The order is transitive: a ≤ b and b ≤ c give a ≤ c, and two equalities
/// give an equality.
pub proof fn lemma_lex_order_transitive(a: Seq<Seq<int>>, b: Seq<Seq<int>>, c: Seq<Seq<int>>)
    requires
        lex_order(a, b) <= 0,
        lex_order(b, c) <= 0,
    ensures
        lex_order(a, c) <= 0,
        lex_order(a, b) == 0 && lex_order(b, c) == 0 ==> lex_order(a, c) == 0,
{
    let n = max2(max2(a.len() as int, b.len() as int), c.len() as int);
    lemma_order_cols_bound(a, b, 0, n);
    lemma_order_cols_bound(b, c, 0, n);
    lemma_order_cols_bound(a, c, 0, n);
    lemma_order_cols_combine(a, b, c, 0, n);
    lemma_lex_order_antisymmetric(a, b);
    lemma_lex_order_antisymmetric(b, c);
}

} // verus!
