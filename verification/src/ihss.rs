//! IHSS hydras (the SMS algorithm on parent matrices), with a Mahlo BOCF
//! LaTeX rendering. The representation is a parent matrix: `parent[c][r]`
//! is the parent column of column `c` in row `r`, or -1 for none.
use vstd::prelude::*;
use crate::expand::{mat, padded, col_max, matrix_rows, pad_matrix, uniform};
use crate::bms::{
    find_p, find_smaller_column, id_cols, id_entry, id_val, last_used_row, real_row, STD_ROUNDS,
};
use crate::hydra::{ints, diffs_fit, in_i32};
use crate::mbocf::strs;
use crate::text::{
    chars_of, digit_of, digits_val, int_str, nat_str, push_nat, is_digit, is_digit_char, lemma_digits_val_mono,
    lemma_digits_val_nonneg, lit, push_char, push_int, push_string, spec_trim, trim_chars,
};

verus! {

/// An IHSS hydra as a parent matrix, column by column.
pub struct IHSS {
    parent: Vec<Vec<i32>>,
}

/// A parent matrix: every column has the same number of rows, and every
/// parent lies to the left of its column (or is -1).
pub open spec fn wf_parent(p: Seq<Seq<int>>) -> bool {
    &&& p.len() <= i32::MAX
    &&& forall|c: int| 0 <= c < p.len() ==> (#[trigger] p[c]).len() == p[0].len()
    &&& forall|c: int, r: int|
        0 <= c < p.len() && 0 <= r < p[c].len() ==> -1 <= #[trigger] p[c][r] < c
}

impl View for IHSS {
    type V = Seq<Seq<int>>;

    closed spec fn view(&self) -> Seq<Seq<int>> {
        mat(self.parent@)
    }
}

/// Whether `p` is a well-formed parent matrix.
fn parent_wf(p: &Vec<Vec<i32>>) -> (r: bool)
    ensures
        r == wf_parent(mat(p@)),
{
    let ghost pm = mat(p@);
    let n = p.len();
    if n > 0x7fff_ffff {
        return false;
    }
    if n == 0 {
        return true;
    }
    let rows = p[0].len();
    let mut c: usize = 0;
    while c < n
        invariant
            c <= n == p@.len() == pm.len() <= i32::MAX,
            n > 0,
            pm == mat(p@),
            rows == pm[0].len(),
            forall|c2: int| 0 <= c2 < c ==> (#[trigger] pm[c2]).len() == rows,
            forall|c2: int, r2: int| 0 <= c2 < c && 0 <= r2 < pm[c2].len() ==> -1 <= #[trigger] pm[c2][r2] < c2,
        decreases n - c,
    {
        proof {
            assert(pm[c as int] == p@[c as int]@.map_values(|x: i32| x as int));
        }
        if p[c].len() != rows {
            return false;
        }
        let mut r: usize = 0;
        while r < rows
            invariant
                c < n == p@.len() == pm.len(),
                r <= rows == p@[c as int]@.len() == pm[c as int].len(),
                pm == mat(p@),
                forall|r2: int| 0 <= r2 < r ==> -1 <= #[trigger] pm[c as int][r2] < c,
            decreases rows - r,
        {
            proof {
                assert(pm[c as int][r as int] == p@[c as int]@[r as int] as int);
            }
            let x = p[c][r];
            if x < -1 || x as i64 >= c as i64 {
                return false;
            }
            r = r + 1;
        }
        c = c + 1;
    }
    true
}

impl IHSS {
    /// The hydra is a well-formed parent matrix.
    pub open spec fn wf(&self) -> bool {
        wf_parent(self@)
    }

    /// A hydra with the given parent matrix.
    pub fn new(parent: Vec<Vec<i32>>) -> (r: IHSS)
        ensures
            r@ == mat(parent@),
            wf_parent(mat(parent@)) ==> r.wf(),
    {
        IHSS { parent }
    }
}

// ============================================================
// Value matrices and parent matrices
// ============================================================

/// Walking left from `p` (`p, p-1, …`), the first column whose row-`r`
/// value is below `v` (-1 if none).
pub open spec fn left_below(value: Seq<Seq<int>>, r: int, p: int, v: int) -> int
    decreases p + 1,
{
    if p < 0 {
        -1
    } else if value[p][r] < v {
        p
    } else {
        left_below(value, r, p - 1, v)
    }
}

/// Along the chain `p, prow[p], prow[prow[p]], …`, the first column whose
/// row-`r` value is below `v` (-1 if none).
pub open spec fn chain_below(value: Seq<Seq<int>>, prow: Seq<int>, r: int, p: int, v: int) -> int
    decreases p + 1,
{
    if p < 0 {
        -1
    } else if value[p][r] < v {
        p
    } else if !(-1 <= prow[p] < p) {
        -1
    } else {
        chain_below(value, prow, r, prow[p], v)
    }
}

/// Row `r` of the parent matrix of a value matrix: row 0 looks left,
/// each later row looks along the ancestors of the row before.
pub open spec fn fv_row(value: Seq<Seq<int>>, r: nat) -> Seq<int>
    decreases r,
{
    if r == 0 {
        Seq::new(value.len(), |c: int| left_below(value, 0, c - 1, value[c][0]))
    } else {
        let prev = fv_row(value, (r - 1) as nat);
        Seq::new(value.len(), |c: int| chain_below(value, prev, r as int, prev[c], value[c][r as int]))
    }
}

/// The parent matrix of a value matrix (rows as many as the first column).
pub open spec fn from_value_spec(value: Seq<Seq<int>>) -> Seq<Seq<int>> {
    if value.len() == 0 || value[0].len() == 0 {
        Seq::empty()
    } else {
        Seq::new(value.len(), |c: int| Seq::new(value[0].len(), |r: int| fv_row(value, r as nat)[c]))
    }
}

/// Every column has at least as many rows as the first.
pub open spec fn rows_cover(value: Seq<Seq<int>>) -> bool {
    forall|c: int| 0 <= c < value.len() ==> (#[trigger] value[c]).len() >= value[0].len()
}

proof fn lemma_left_below(value: Seq<Seq<int>>, r: int, p: int, v: int)
    ensures
        -1 <= left_below(value, r, p, v) <= if p < 0 { -1 } else { p },
    decreases p + 1,
{
    if p >= 0 {
        lemma_left_below(value, r, p - 1, v);
    }
}

proof fn lemma_chain_below(value: Seq<Seq<int>>, prow: Seq<int>, r: int, p: int, v: int)
    ensures
        -1 <= chain_below(value, prow, r, p, v) <= if p < 0 { -1 } else { p },
    decreases p + 1,
{
    if p >= 0 && !(value[p][r] < v) && -1 <= prow[p] < p {
        lemma_chain_below(value, prow, r, prow[p], v);
    }
}

proof fn lemma_fv_row(value: Seq<Seq<int>>, r: nat)
    ensures
        fv_row(value, r).len() == value.len(),
        forall|c: int| 0 <= c < value.len() ==> -1 <= #[trigger] fv_row(value, r)[c] < c,
    decreases r,
{
    if r == 0 {
        assert forall|c: int| 0 <= c < value.len() implies -1 <= #[trigger] fv_row(value, r)[c] < c by {
            lemma_left_below(value, 0, c - 1, value[c][0]);
        }
    } else {
        lemma_fv_row(value, (r - 1) as nat);
        let prev = fv_row(value, (r - 1) as nat);
        assert forall|c: int| 0 <= c < value.len() implies -1 <= #[trigger] fv_row(value, r)[c] < c by {
            lemma_chain_below(value, prev, r as int, prev[c], value[c][r as int]);
        }
    }
}

/// Depth of column `c` in the row-`r` forest.
pub open spec fn depth(p: Seq<Seq<int>>, c: int, r: int) -> int
    decreases c + 1,
{
    if c < 0 || p[c][r] < 0 || p[c][r] >= c {
        0
    } else {
        depth(p, p[c][r], r) + 1
    }
}

proof fn lemma_depth(p: Seq<Seq<int>>, c: int, r: int)
    ensures
        0 <= depth(p, c, r) <= if c < 0 { 0 } else { c },
    decreases c + 1,
{
    if !(c < 0 || p[c][r] < 0 || p[c][r] >= c) {
        lemma_depth(p, p[c][r], r);
    }
}

// ============================================================
// Value matrices of parent matrices read back
// ============================================================

/// The parent that a walk along `prow` finds for column `c` in row `r`.
pub open spec fn wpar(value: Seq<Seq<int>>, prow: Seq<int>, r: int, c: int) -> int {
    chain_below(value, prow, r, prow[c], value[c][r])
}

/// Depth of `c` in the forest of `wpar`.
pub open spec fn pdepth(value: Seq<Seq<int>>, prow: Seq<int>, r: int, c: int) -> int
    decreases c + 1,
{
    if c < 0 {
        0
    } else {
        let q = wpar(value, prow, r, c);
        if q < 0 || q >= c {
            0
        } else {
            pdepth(value, prow, r, q) + 1
        }
    }
}

/// Every walk step goes left.
pub open spec fn prow_ok(prow: Seq<int>, n: int) -> bool {
    forall|x: int| 0 <= x < n ==> -1 <= #[trigger] prow[x] < x
}

/// Walking on from a point of `c`'s walk with a threshold at least `c`'s
/// stops at `c`'s parent or earlier, at a column no smaller than `c`.
proof fn lemma_walk_meet(value: Seq<Seq<int>>, prow: Seq<int>, r: int, c: int, s: int, u: int)
    requires
        0 <= c < value.len(),
        s < value.len(),
        u >= value[c][r],
        chain_below(value, prow, r, s, value[c][r]) == wpar(value, prow, r, c),
    ensures
        ({
            let q = chain_below(value, prow, r, s, u);
            q == wpar(value, prow, r, c) || (0 <= q <= s && value[q][r] >= value[c][r]
                && chain_below(value, prow, r, q, value[c][r]) == wpar(value, prow, r, c))
        }),
    decreases s + 1,
{
    if s >= 0 && !(value[s][r] < u) && -1 <= prow[s] < s {
        lemma_walk_meet(value, prow, r, c, prow[s], u);
        let q = chain_below(value, prow, r, prow[s], u);
        lemma_chain_below(value, prow, r, prow[s], u);
    }
}

/// Columns that `c`'s walk passes before its parent are no shallower.
proof fn lemma_walk_depth(value: Seq<Seq<int>>, prow: Seq<int>, r: int, c: int, p: int)
    requires
        0 <= c < value.len(),
        0 <= p < value.len(),
        prow_ok(prow, value.len() as int),
        value[p][r] >= value[c][r],
        chain_below(value, prow, r, p, value[c][r]) == wpar(value, prow, r, c),
    ensures
        pdepth(value, prow, r, p) >= pdepth(value, prow, r, c),
    decreases p + 1,
{
    let t = value[c][r];
    let pc = wpar(value, prow, r, c);
    assert(-1 <= prow[p] < p);
    assert(-1 <= prow[c] < c);
    lemma_chain_below(value, prow, r, prow[c], t);
    assert(chain_below(value, prow, r, prow[p], t) == pc);
    lemma_walk_meet(value, prow, r, c, prow[p], value[p][r]);
    let q = wpar(value, prow, r, p);
    lemma_chain_below(value, prow, r, prow[p], value[p][r]);
    if q == pc {
    } else {
        lemma_walk_depth(value, prow, r, c, q);
    }
}

/// Reading depths along the same walks finds the same parents.
proof fn lemma_walk_same(
    value: Seq<Seq<int>>,
    dm: Seq<Seq<int>>,
    prow: Seq<int>,
    r: int,
    c: int,
    s: int,
)
    requires
        0 <= c < value.len(),
        s < c,
        dm.len() == value.len(),
        prow_ok(prow, value.len() as int),
        forall|x: int| 0 <= x < value.len() ==> #[trigger] dm[x][r] == pdepth(value, prow, r, x),
        chain_below(value, prow, r, s, value[c][r]) == wpar(value, prow, r, c),
    ensures
        chain_below(dm, prow, r, s, pdepth(value, prow, r, c)) == wpar(value, prow, r, c),
    decreases s + 1,
{
    let t = value[c][r];
    if s >= 0 {
        assert(dm[s][r] == pdepth(value, prow, r, s));
        if value[s][r] < t {
            lemma_chain_below(value, prow, r, prow[c], t);
        } else {
            lemma_walk_depth(value, prow, r, c, s);
            if -1 <= prow[s] < s {
                lemma_walk_same(value, dm, prow, r, c, prow[s]);
            }
        }
    }
}

proof fn lemma_left_chain(value: Seq<Seq<int>>, prow: Seq<int>, r: int, p: int, v: int)
    requires
        p < prow.len(),
        forall|x: int| 0 <= x < prow.len() ==> #[trigger] prow[x] == x - 1,
    ensures
        left_below(value, r, p, v) == chain_below(value, prow, r, p, v),
    decreases p + 1,
{
    if p >= 0 && !(value[p][r] < v) {
        lemma_left_chain(value, prow, r, p - 1, v);
    }
}

proof fn lemma_depth_pdepth(pm: Seq<Seq<int>>, value: Seq<Seq<int>>, prow: Seq<int>, r: int, c: int)
    requires
        c < value.len(),
        pm.len() == value.len(),
        forall|x: int| 0 <= x < value.len() ==> #[trigger] pm[x][r] == wpar(value, prow, r, x),
    ensures
        depth(pm, c, r) == pdepth(value, prow, r, c),
    decreases c + 1,
{
    if c >= 0 {
        let q = pm[c][r];
        if !(q < 0 || q >= c) {
            lemma_depth_pdepth(pm, value, prow, r, q);
        }
    }
}

/// Row `r` of the parents read from the value matrix of `from_value(v)`
/// is row `r` of `from_value(v)`.
proof fn lemma_rows_back(v: Seq<Seq<int>>, r: nat)
    requires
        v.len() > 0,
        r < v[0].len(),
        rows_cover(v),
    ensures
        fv_row(to_value_spec(from_value_spec(v)), r) == fv_row(v, r),
    decreases r,
{
    let n = v.len() as int;
    let pm = from_value_spec(v);
    let dm = to_value_spec(pm);
    lemma_fv_row(v, r);
    lemma_fv_row(dm, r);
    let prow: Seq<int> = if r == 0 {
        Seq::new(n as nat, |x: int| x - 1)
    } else {
        fv_row(v, (r - 1) as nat)
    };
    if r > 0 {
        lemma_rows_back(v, (r - 1) as nat);
        lemma_fv_row(v, (r - 1) as nat);
    }
    assert(prow.len() == n);
    assert(prow_ok(prow, n)) by {
        if r > 0 {
            assert forall|x: int| 0 <= x < n implies -1 <= #[trigger] prow[x] < x by {
                assert(prow[x] == fv_row(v, (r - 1) as nat)[x]);
            }
        }
    }
    assert forall|x: int| 0 <= x < n implies #[trigger] pm[x][r as int] == wpar(v, prow, r as int, x) by {
        assert(pm[x][r as int] == fv_row(v, r)[x]);
        if r == 0 {
            lemma_left_chain(v, prow, 0, x - 1, v[x][0]);
        }
    }
    assert forall|x: int| 0 <= x < n implies #[trigger] dm[x][r as int] == pdepth(v, prow, r as int, x) by {
        lemma_depth_pdepth(pm, v, prow, r as int, x);
    }
    assert forall|c: int| 0 <= c < n implies #[trigger] fv_row(dm, r)[c] == fv_row(v, r)[c] by {
        let t = v[c][r as int];
        assert(-1 <= prow[c] < c);
        lemma_walk_same(v, dm, prow, r as int, c, prow[c]);
        if r == 0 {
            lemma_left_chain(dm, prow, 0, c - 1, dm[c][0]);
            lemma_left_chain(v, prow, 0, c - 1, t);
        } else {
            assert(fv_row(dm, (r - 1) as nat) == prow);
        }
    }
    assert(fv_row(dm, r) =~= fv_row(v, r));
}

/// The parent matrix read from the value matrix of `from_value(v)` is
/// `from_value(v)` again: values and parents correspond one to one.
pub proof fn lemma_value_round_trip(v: Seq<Seq<int>>)
    requires
        rows_cover(v),
    ensures
        from_value_spec(to_value_spec(from_value_spec(v))) == from_value_spec(v),
{
    let pm = from_value_spec(v);
    if v.len() == 0 || v[0].len() == 0 {
        assert(to_value_spec(pm) =~= Seq::<Seq<int>>::empty());
    } else {
        let dm = to_value_spec(pm);
        let rows = v[0].len();
        assert(dm.len() == v.len());
        assert(dm[0].len() == rows);
        assert forall|r: int| 0 <= r < rows implies #[trigger] fv_row(dm, r as nat) == fv_row(v, r as nat) by {
            lemma_rows_back(v, r as nat);
        }
        let fd = from_value_spec(dm);
        assert forall|c: int| 0 <= c < v.len() implies #[trigger] fd[c] =~= pm[c] by {
            assert forall|r: int| 0 <= r < rows implies fd[c][r] == pm[c][r] by {
                assert(fv_row(dm, r as nat) == fv_row(v, r as nat));
            }
        }
        assert(fd =~= pm);
    }
}

/// The value matrix of a parent matrix: each entry is its column's depth.
pub open spec fn to_value_spec(p: Seq<Seq<int>>) -> Seq<Seq<int>> {
    Seq::new(p.len(), |c: int| Seq::new(p[c].len(), |r: int| depth(p, c, r)))
}

impl IHSS {
    /// The parent matrix of a value matrix (BMS-style columns).
    pub fn from_value(value: &Vec<Vec<i32>>) -> (r: IHSS)
        requires
            rows_cover(mat(value@)),
            value@.len() <= i32::MAX,
        ensures
            r@ == from_value_spec(mat(value@)),
            r.wf(),
    {
        let ghost vm = mat(value@);
        let cols = value.len();
        if cols == 0 {
            return IHSS { parent: Vec::new() };
        }
        let rows = value[0].len();
        if rows == 0 {
            proof {
                assert(vm[0].len() == 0);
            }
            let r = IHSS { parent: Vec::new() };
            proof {
                assert(r@ =~= from_value_spec(vm));
            }
            return r;
        }
        proof {
            assert(vm[0].len() == rows);
        }
        // parent rows, row by row
        let mut prows: Vec<Vec<i32>> = Vec::new();
        let mut r: usize = 0;
        while r < rows
            invariant
                r <= rows,
                cols == value@.len() == vm.len(),
                cols <= i32::MAX,
                vm == mat(value@),
                rows == vm[0].len(),
                rows_cover(vm),
                prows@.len() == r,
                forall|k: int| 0 <= k < r ==> #[trigger] mat(prows@)[k] == fv_row(vm, k as nat),
            decreases rows - r,
        {
            let mut row: Vec<i32> = Vec::new();
            let mut c: usize = 0;
            let ghost prev = if r == 0 { Seq::<int>::empty() } else { fv_row(vm, (r - 1) as nat) };
            proof {
                if r > 0 {
                    assert(mat(prows@)[r - 1] == fv_row(vm, (r - 1) as nat));
                    lemma_fv_row(vm, (r - 1) as nat);
                }
            }
            while c < cols
                invariant
                    c <= cols,
                    r < rows,
                    cols == value@.len() == vm.len(),
                    cols <= i32::MAX,
                    vm == mat(value@),
                    rows == vm[0].len(),
                    rows_cover(vm),
                    prows@.len() == r,
                    r > 0 ==> prev == fv_row(vm, (r - 1) as nat),
                    r > 0 ==> mat(prows@)[r - 1] == prev,
                    r > 0 ==> prev.len() == cols,
                    r > 0 ==> forall|k: int| 0 <= k < cols ==> -1 <= #[trigger] prev[k] < k,
                    row@.len() == c,
                    forall|k: int| 0 <= k < c ==> #[trigger] ints(row@)[k] == fv_row(vm, r as nat)[k],
                decreases cols - c,
            {
                proof {
                    assert(vm[c as int].len() >= rows);
                    assert(vm[c as int][r as int] == value@[c as int]@[r as int] as int);
                }
                let cur_val = value[c][r];
                let mut best: i32 = -1;
                if r == 0 {
                    let mut p: usize = c;
                    while p > 0
                        invariant_except_break
                            best == -1,
                        invariant
                            p <= c < cols,
                            r == 0,
                            0 < rows,
                            cols == value@.len() == vm.len(),
                            vm == mat(value@),
                            rows == vm[0].len(),
                            rows_cover(vm),
                            cols <= i32::MAX,
                            cur_val as int == vm[c as int][0],
                            left_below(vm, 0, c - 1, vm[c as int][0]) == left_below(vm, 0, p - 1, vm[c as int][0]),
                        ensures
                            best == left_below(vm, 0, c - 1, vm[c as int][0]),
                        decreases p,
                    {
                        proof {
                            assert(vm[p - 1].len() >= rows);
                            assert(vm[p - 1][0] == value@[p - 1]@[0] as int);
                        }
                        if value[p - 1][0] < cur_val {
                            best = (p - 1) as i32;
                            break;
                        }
                        p = p - 1;
                    }
                    proof {
                        assert(best == left_below(vm, 0, c - 1, vm[c as int][0]));
                    }
                } else {
                    let mut p: i32 = prows[r - 1][c];
                    proof {
                        assert(p as int == prev[c as int]);
                    }
                    while p != -1
                        invariant_except_break
                            best == -1,
                        invariant
                            -1 <= p < cols,
                            0 < r < rows,
                            c < cols,
                            cols == value@.len() == vm.len(),
                            vm == mat(value@),
                            rows == vm[0].len(),
                            rows_cover(vm),
                            prows@.len() == r,
                            prev == fv_row(vm, (r - 1) as nat),
                            mat(prows@)[r - 1] == prev,
                            prev.len() == cols,
                            forall|k: int| 0 <= k < cols ==> -1 <= #[trigger] prev[k] < k,
                            cur_val as int == vm[c as int][r as int],
                            chain_below(vm, prev, r as int, prev[c as int], vm[c as int][r as int])
                                == chain_below(vm, prev, r as int, p as int, vm[c as int][r as int]),
                        ensures
                            best == chain_below(vm, prev, r as int, prev[c as int], vm[c as int][r as int]),
                        decreases p + 1,
                    {
                        proof {
                            assert(vm[p as int].len() >= rows);
                            assert(vm[p as int][r as int] == value@[p as int]@[r as int] as int);
                            assert(prev[p as int] == prows@[r - 1]@[p as int] as int);
                        }
                        if value[p as usize][r] < cur_val {
                            best = p;
                            break;
                        }
                        p = prows[r - 1][p as usize];
                    }
                    proof {
                        assert(best == chain_below(vm, prev, r as int, prev[c as int], vm[c as int][r as int]));
                    }
                }
                let ghost rv = ints(row@);
                row.push(best);
                proof {
                    assert(ints(row@) =~= rv.push(best as int));
                }
                c = c + 1;
            }
            let ghost pm = mat(prows@);
            let ghost rowv = ints(row@);
            prows.push(row);
            proof {
                assert(rowv =~= fv_row(vm, r as nat));
                assert(mat(prows@) =~= pm.push(rowv));
            }
            r = r + 1;
        }
        // transpose to columns
        let mut parent: Vec<Vec<i32>> = Vec::new();
        let mut c: usize = 0;
        while c < cols
            invariant
                c <= cols,
                cols == vm.len(),
                cols <= i32::MAX,
                rows == vm[0].len(),
                prows@.len() == rows,
                forall|k: int| 0 <= k < rows ==> #[trigger] mat(prows@)[k] == fv_row(vm, k as nat),
                parent@.len() == c,
                forall|k: int| 0 <= k < c ==> #[trigger] mat(parent@)[k] == Seq::new(
                    rows as nat,
                    |rr: int| fv_row(vm, rr as nat)[k],
                ),
            decreases cols - c,
        {
            let mut col: Vec<i32> = Vec::new();
            let mut r: usize = 0;
            while r < rows
                invariant
                    r <= rows,
                    c < cols,
                    cols == vm.len(),
                    prows@.len() == rows,
                    forall|k: int| 0 <= k < rows ==> #[trigger] mat(prows@)[k] == fv_row(vm, k as nat),
                    ints(col@) == Seq::new(r as nat, |rr: int| fv_row(vm, rr as nat)[c as int]),
                decreases rows - r,
            {
                proof {
                    lemma_fv_row(vm, r as nat);
                    assert(mat(prows@)[r as int] == fv_row(vm, r as nat));
                    assert(prows@[r as int]@.len() == cols);
                }
                let ghost cv = ints(col@);
                col.push(prows[r][c]);
                proof {
                    assert(ints(col@) =~= cv.push(prows@[r as int]@[c as int] as int));
                }
                r = r + 1;
                proof {
                    assert(ints(col@) =~= Seq::new(r as nat, |rr: int| fv_row(vm, rr as nat)[c as int]));
                }
            }
            let ghost pm = mat(parent@);
            let ghost cv = ints(col@);
            parent.push(col);
            proof {
                assert(mat(parent@) =~= pm.push(cv));
            }
            c = c + 1;
        }
        let res = IHSS { parent };
        proof {
            assert(res@ =~= from_value_spec(vm));
            assert forall|k: int| 0 <= k < res@.len() implies (#[trigger] res@[k]).len() == res@[0].len() by {}
            assert forall|k: int, rr: int| 0 <= k < res@.len() && 0 <= rr < res@[k].len() implies -1 <= #[trigger] res@[k][rr] < k by {
                lemma_fv_row(vm, rr as nat);
            }
        }
        res
    }
}

/// A column without its trailing zeros (one entry is always kept).
pub open spec fn trim_zeros(col: Seq<int>) -> Seq<int>
    decreases col.len(),
{
    if col.len() > 1 && col.last() == 0 {
        trim_zeros(col.drop_last())
    } else {
        col
    }
}

/// Numerals joined by commas.
pub open spec fn join_nums(v: Seq<int>) -> Seq<char>
    decreases v.len(),
{
    if v.len() == 0 {
        Seq::empty()
    } else if v.len() == 1 {
        int_str(v[0])
    } else {
        join_nums(v.drop_last()) + ","@ + int_str(v.last())
    }
}

/// `(a,b)(c)…`, each column without trailing zeros.
pub open spec fn format_spec(m: Seq<Seq<int>>) -> Seq<char>
    decreases m.len(),
{
    if m.len() == 0 {
        Seq::empty()
    } else {
        format_spec(m.drop_last()) + "("@ + join_nums(trim_zeros(m.last())) + ")"@
    }
}

proof fn lemma_depth_step(p: Seq<Seq<int>>, c: int, r: int)
    requires
        wf_parent(p),
        0 <= c < p.len(),
        0 <= r < p[c].len(),
    ensures
        p[c][r] == -1 ==> depth(p, c, r) == 0,
        p[c][r] != -1 ==> depth(p, c, r) == depth(p, p[c][r], r) + 1,
        0 <= depth(p, c, r) <= c,
{
    lemma_depth(p, c, r);
}

impl IHSS {
    /// The value matrix: each entry is the depth of its column in that
    /// row's forest.
    pub fn to_value(&self) -> (r: Vec<Vec<i32>>)
        requires
            self.wf(),
        ensures
            mat(r@) == to_value_spec(self@),
    {
        let ghost pm = self@;
        let cols = self.parent.len();
        let mut value: Vec<Vec<i32>> = Vec::new();
        let mut c: usize = 0;
        while c < cols
            invariant
                c <= cols == pm.len(),
                pm == mat(self.parent@),
                wf_parent(pm),
                value@.len() == c,
                forall|k: int| 0 <= k < c ==> #[trigger] mat(value@)[k] == Seq::new(
                    pm[k].len(),
                    |rr: int| depth(pm, k, rr),
                ),
            decreases cols - c,
        {
            let nrows = self.parent[c].len();
            let mut col: Vec<i32> = Vec::new();
            let mut r: usize = 0;
            proof {
                assert(pm[c as int].len() == nrows);
            }
            while r < nrows
                invariant
                    r <= nrows,
                    c < cols == pm.len(),
                    nrows == pm[c as int].len(),
                    pm == mat(self.parent@),
                    wf_parent(pm),
                    value@.len() == c,
                    forall|k: int| 0 <= k < c ==> #[trigger] mat(value@)[k] == Seq::new(
                        pm[k].len(),
                        |rr: int| depth(pm, k, rr),
                    ),
                    ints(col@) == Seq::new(r as nat, |rr: int| depth(pm, c as int, rr)),
                decreases nrows - r,
            {
                let p = self.parent[c][r];
                proof {
                    assert(pm[c as int][r as int] == p as int);
                    lemma_depth_step(pm, c as int, r as int);
                }
                let v: i32 = if p == -1 {
                    0
                } else {
                    proof {
                        assert(0 <= p < c);
                        assert(mat(value@)[p as int] == Seq::new(pm[p as int].len(), |rr: int| depth(pm, p as int, rr)));
                        assert(pm[p as int].len() == pm[0].len() == pm[c as int].len());
                        assert(value@[p as int]@.len() == nrows);
                        assert(mat(value@)[p as int][r as int] == value@[p as int]@[r as int] as int);
                        lemma_depth(pm, p as int, r as int);
                    }
                    value[p as usize][r] + 1
                };
                let ghost cv = ints(col@);
                col.push(v);
                proof {
                    assert(ints(col@) =~= cv.push(v as int));
                }
                r = r + 1;
                proof {
                    assert(ints(col@) =~= Seq::new(r as nat, |rr: int| depth(pm, c as int, rr)));
                }
            }
            let ghost vm = mat(value@);
            let ghost cv = ints(col@);
            value.push(col);
            proof {
                assert(mat(value@) =~= vm.push(cv));
            }
            c = c + 1;
        }
        proof {
            assert(mat(value@) =~= to_value_spec(pm));
        }
        value
    }

    /// Whether the last column has a parent in some row.
    pub fn is_limit(&self) -> (r: bool)
        requires
            self.wf(),
        ensures
            r == (self@.len() > 0 && exists|k: int|
                0 <= k < self@[self@.len() - 1].len() && #[trigger] self@[self@.len() - 1][k] != -1),
    {
        let ghost pm = self@;
        if self.parent.len() == 0 {
            return false;
        }
        let last = self.parent.len() - 1;
        let n = self.parent[last].len();
        let mut r: usize = 0;
        while r < n
            invariant
                r <= n,
                last + 1 == pm.len(),
                pm == mat(self.parent@),
                n == pm[last as int].len(),
                forall|k: int| 0 <= k < r ==> #[trigger] pm[last as int][k] == -1,
            decreases n - r,
        {
            if self.parent[last][r] != -1 {
                proof {
                    assert(pm[last as int][r as int] == self.parent@[last as int]@[r as int] as int);
                    assert(pm[last as int][r as int] != -1);
                    assert(self@[self@.len() - 1][r as int] != -1);
                }
                return true;
            }
            proof {
                assert(pm[last as int][r as int] == self.parent@[last as int]@[r as int] as int);
            }
            r = r + 1;
        }
        proof {
            assert(self@ == pm);
            assert(forall|k: int| 0 <= k < pm[last as int].len() ==> pm[last as int][k] == -1);
        }
        false
    }

    /// The value matrix in `(a,b)(c)` form.
    pub fn format(&self) -> (r: String)
        requires
            self.wf(),
        ensures
            r@ == format_spec(to_value_spec(self@)),
    {
        let v = self.to_value();
        IHSS::format_matrix(&v)
    }

    /// `(a,b)(c)…`, each column without trailing zeros.
    #[verifier::rlimit(40)]
    pub fn format_matrix(matrix: &Vec<Vec<i32>>) -> (r: String)
        ensures
            r@ == format_spec(mat(matrix@)),
    {
        let ghost mm = mat(matrix@);
        let mut s = String::new();
        let mut c: usize = 0;
        while c < matrix.len()
            invariant
                c <= matrix@.len(),
                mm == mat(matrix@),
                s@ == format_spec(mm.take(c as int)),
            decreases matrix.len() - c,
        {
            let col = &matrix[c];
            let mut n = col.len();
            proof {
                assert(mm[c as int] == ints(col@));
                assert(ints(col@).take(n as int) =~= ints(col@));
            }
            while n > 1 && col[n - 1] == 0
                invariant
                    1 <= n <= col@.len() || (n == 0 && col@.len() == 0),
                    trim_zeros(ints(col@)) == trim_zeros(ints(col@).take(n as int)),
                decreases n,
            {
                proof {
                    assert(ints(col@).take(n as int).drop_last() =~= ints(col@).take(n - 1));
                }
                n = n - 1;
            }
            let ghost tz = ints(col@).take(n as int);
            proof {
                assert(trim_zeros(tz) == tz);
                assert(mm.take(c + 1).drop_last() =~= mm.take(c as int));
            }
            s.append("(");
            let mut j: usize = 0;
            while j < n
                invariant
                    j <= n <= col@.len(),
                    tz == ints(col@).take(n as int),
                    s@ == format_spec(mm.take(c as int)) + "("@ + join_nums(tz.take(j as int)),
                decreases n - j,
            {
                proof {
                    assert(tz.take(j + 1).drop_last() =~= tz.take(j as int));
                }
                if j > 0 {
                    s.append(",");
                }
                push_int(&mut s, col[j] as i64);
                j = j + 1;
                proof {
                    assert(s@ =~= format_spec(mm.take(c as int)) + "("@ + join_nums(tz.take(j as int)));
                }
            }
            s.append(")");
            c = c + 1;
            proof {
                assert(tz.take(n as int) =~= tz);
                assert(s@ =~= format_spec(mm.take(c as int)));
            }
        }
        proof {
            assert(mm.take(matrix@.len() as int) =~= mm);
        }
        s
    }
}

// ============================================================
// Worms (one-row sequences)
// ============================================================

/// The worm value of column `c` from row `r` up: 1 where the column has no
/// parent in row `r`; else the parent's value there plus the column's own
/// value one row up (plus 1 in the top row).
pub open spec fn worm_val(p: Seq<Seq<int>>, c: int, r: int) -> int
    decreases c, p[0].len() - r,
{
    if c < 0 || c >= p.len() || r < 0 || r >= p[0].len() {
        0
    } else {
        let q = p[c][r];
        if !(0 <= q < c) {
            1
        } else if r == p[0].len() - 1 {
            worm_val(p, q, r) + 1
        } else {
            worm_val(p, q, r) + worm_val(p, c, r + 1)
        }
    }
}

/// The worm of a parent matrix: every column's value from row 0 up.
pub open spec fn to_worm_spec(p: Seq<Seq<int>>) -> Seq<int> {
    Seq::new(p.len(), |c: int| worm_val(p, c, 0))
}

/// Every worm value of the matrix fits in an `i32`.
pub open spec fn worm_fits(p: Seq<Seq<int>>) -> bool {
    forall|c: int, r: int|
        0 <= c < p.len() && 0 <= r < p[0].len() ==> #[trigger] worm_val(p, c, r) <= i32::MAX
}

proof fn lemma_worm_pos(p: Seq<Seq<int>>, c: int, r: int)
    requires
        0 <= c < p.len(),
        0 <= r < p[0].len(),
    ensures
        worm_val(p, c, r) >= 1,
    decreases c, p[0].len() - r,
{
    let q = p[c][r];
    if 0 <= q < c {
        lemma_worm_pos(p, q, r);
        if r < p[0].len() - 1 {
            lemma_worm_pos(p, c, r + 1);
        }
    }
}

/// Walking left from `p`, the first column whose worm value is below `v`
/// (-1 if none).
pub open spec fn last_below(w: Seq<int>, p: int, v: int) -> int
    decreases p + 1,
{
    if p < 0 {
        -1
    } else if w[p] < v {
        p
    } else {
        last_below(w, p - 1, v)
    }
}

/// Row 0 of the parent matrix of a worm: each column's nearest smaller
/// column to the left.
pub open spec fn worm_row0(w: Seq<int>) -> Seq<int> {
    Seq::new(w.len(), |c: int| last_below(w, c - 1, w[c]))
}

/// The values of the next row: each column's value less its parent's (1
/// without a parent).
pub open spec fn worm_diffs(aux: Seq<int>, prow: Seq<int>) -> Seq<int> {
    Seq::new(
        aux.len(),
        |c: int|
            if 0 <= prow[c] < aux.len() {
                aux[c] - aux[prow[c]]
            } else {
                1
            },
    )
}

/// Along the ancestors `p, prow[p], …`, the first whose value is below `v`
/// (-1 if none).
pub open spec fn anc_below(aux: Seq<int>, prow: Seq<int>, p: int, v: int) -> int
    decreases p + 1,
{
    if p < 0 || p >= aux.len() {
        -1
    } else if aux[p] < v {
        p
    } else if !(-1 <= prow[p] < p) {
        -1
    } else {
        anc_below(aux, prow, prow[p], v)
    }
}

/// The next parent row: each column's nearest ancestor with a smaller value.
pub open spec fn worm_next_row(aux: Seq<int>, prow: Seq<int>) -> Seq<int> {
    Seq::new(aux.len(), |c: int| anc_below(aux, prow, prow[c], aux[c]))
}

/// Parents lie to the left and have smaller values.
pub open spec fn worm_step_ok(aux: Seq<int>, prow: Seq<int>) -> bool {
    &&& prow.len() == aux.len()
    &&& forall|c: int| 0 <= c < aux.len() ==> -1 <= #[trigger] prow[c] < c
    &&& forall|c: int| 0 <= c < aux.len() && prow[c] != -1 ==> aux[prow[c]] < #[trigger] aux[c]
}

pub open spec fn all_one(v: Seq<int>) -> bool {
    forall|c: int| 0 <= c < v.len() ==> #[trigger] v[c] == 1
}

pub open spec fn seq_sum(v: Seq<int>) -> int
    decreases v.len(),
{
    if v.len() == 0 {
        0
    } else {
        seq_sum(v.drop_last()) + v.last()
    }
}

/// The parent rows from `prow` on: stop once every value of the next row
/// is 1.
pub open spec fn worm_rows(aux: Seq<int>, prow: Seq<int>) -> Seq<Seq<int>>
    decreases seq_sum(worm_diffs(aux, prow)),
{
    let nxt = worm_diffs(aux, prow);
    if !worm_step_ok(aux, prow) || all_one(nxt) {
        seq![prow]
    } else {
        proof {
            lemma_worm_step(aux, prow);
        }
        seq![prow] + worm_rows(nxt, worm_next_row(nxt, prow))
    }
}

/// The parent matrix of a worm, column by column.
pub open spec fn from_worm_spec(w: Seq<int>) -> Seq<Seq<int>> {
    if w.len() == 0 {
        Seq::empty()
    } else {
        let rows = worm_rows(w, worm_row0(w));
        Seq::new(w.len(), |c: int| Seq::new(rows.len(), |i: int| rows[i][c]))
    }
}

pub proof fn lemma_last_below(w: Seq<int>, p: int, v: int)
    requires
        -1 <= p < w.len(),
    ensures
        -1 <= last_below(w, p, v) <= p,
        last_below(w, p, v) != -1 ==> w[last_below(w, p, v)] < v,
    decreases p + 1,
{
    if p >= 0 && !(w[p] < v) {
        lemma_last_below(w, p - 1, v);
    }
}

pub proof fn lemma_anc_below(aux: Seq<int>, prow: Seq<int>, p: int, v: int)
    requires
        -1 <= p,
    ensures
        -1 <= anc_below(aux, prow, p, v) <= p,
        anc_below(aux, prow, p, v) != -1 ==> 0 <= anc_below(aux, prow, p, v) < aux.len()
            && aux[anc_below(aux, prow, p, v)] < v,
    decreases p + 1,
{
    if 0 <= p < aux.len() && !(aux[p] < v) && -1 <= prow[p] < p {
        lemma_anc_below(aux, prow, prow[p], v);
    }
}

proof fn lemma_sum_le(a: Seq<int>, b: Seq<int>)
    requires
        a.len() == b.len(),
        forall|c: int| 0 <= c < a.len() ==> #[trigger] a[c] <= b[c],
    ensures
        seq_sum(a) <= seq_sum(b),
        (exists|c: int| 0 <= c < a.len() && #[trigger] a[c] < b[c]) ==> seq_sum(a) < seq_sum(b),
    decreases a.len(),
{
    if a.len() > 0 {
        lemma_sum_le(a.drop_last(), b.drop_last());
        if exists|c: int| 0 <= c < a.len() && #[trigger] a[c] < b[c] {
            let c = choose|c: int| 0 <= c < a.len() && #[trigger] a[c] < b[c];
            if c < a.len() - 1 {
                assert(a.drop_last()[c] < b.drop_last()[c]);
            }
        }
    }
}

proof fn lemma_sum_pos(a: Seq<int>)
    requires
        forall|c: int| 0 <= c < a.len() ==> #[trigger] a[c] >= 1,
    ensures
        seq_sum(a) >= a.len(),
    decreases a.len(),
{
    if a.len() > 0 {
        lemma_sum_pos(a.drop_last());
    }
}

/// One step keeps the parents valid, keeps the values at least 1, and,
/// unless every value is already 1, lowers their sum.
pub proof fn lemma_worm_step(aux: Seq<int>, prow: Seq<int>)
    requires
        worm_step_ok(aux, prow),
    ensures
        forall|c: int| 0 <= c < aux.len() ==> #[trigger] worm_diffs(aux, prow)[c] >= 1,
        worm_step_ok(worm_diffs(aux, prow), worm_next_row(worm_diffs(aux, prow), prow)),
        !all_one(worm_diffs(aux, prow)) ==> 0 <= seq_sum(
            worm_diffs(worm_diffs(aux, prow), worm_next_row(worm_diffs(aux, prow), prow)),
        ) < seq_sum(worm_diffs(aux, prow)),
{
    let nxt = worm_diffs(aux, prow);
    let np = worm_next_row(nxt, prow);
    let n2 = worm_diffs(nxt, np);
    assert forall|c: int| 0 <= c < aux.len() implies -1 <= #[trigger] np[c] < c && (np[c] != -1
        ==> nxt[np[c]] < nxt[c]) by {
        lemma_anc_below(nxt, prow, prow[c], nxt[c]);
    }
    assert forall|c: int| 0 <= c < aux.len() implies 1 <= #[trigger] n2[c] <= nxt[c] by {
        if 0 <= np[c] < aux.len() {
            assert(nxt[np[c]] >= 1);
        }
    }
    lemma_sum_pos(n2);
    if !all_one(nxt) {
        let c = choose|c: int| 0 <= c < nxt.len() && #[trigger] nxt[c] != 1;
        assert(n2[c] < nxt[c]) by {
            if 0 <= np[c] < aux.len() {
                assert(nxt[np[c]] >= 1);
            }
        }
        lemma_sum_le(n2, nxt);
    }
}

/// Every row of the parent rows has one entry per column, each parent to
/// the left of its column or -1.
pub proof fn lemma_worm_rows_ok(aux: Seq<int>, prow: Seq<int>)
    requires
        prow.len() == aux.len(),
        forall|c: int| 0 <= c < aux.len() ==> -1 <= #[trigger] prow[c] < c,
    ensures
        worm_rows(aux, prow).len() >= 1,
        forall|i: int| 0 <= i < worm_rows(aux, prow).len() ==> (#[trigger] worm_rows(aux, prow)[i]).len()
            == aux.len(),
        forall|i: int, c: int|
            0 <= i < worm_rows(aux, prow).len() && 0 <= c < aux.len() ==> -1 <= #[trigger] worm_rows(
                aux,
                prow,
            )[i][c] < c,
    decreases seq_sum(worm_diffs(aux, prow)),
{
    let nxt = worm_diffs(aux, prow);
    if worm_step_ok(aux, prow) && !all_one(nxt) {
        lemma_worm_step(aux, prow);
        let np = worm_next_row(nxt, prow);
        lemma_worm_rows_ok(nxt, np);
        let rest = worm_rows(nxt, np);
        assert(worm_rows(aux, prow) == seq![prow] + rest);
        assert forall|i: int| 0 <= i < worm_rows(aux, prow).len() implies (
        #[trigger] worm_rows(aux, prow)[i]).len() == aux.len() by {
            if i > 0 {
                assert(worm_rows(aux, prow)[i] == rest[i - 1]);
            }
        }
        assert forall|i: int, c: int|
            0 <= i < worm_rows(aux, prow).len() && 0 <= c < aux.len() implies -1
                <= #[trigger] worm_rows(aux, prow)[i][c] < c by {
            if i > 0 {
                assert(worm_rows(aux, prow)[i] == rest[i - 1]);
            }
        }
    }
}

/// Positive values have every rise within `i32`.
proof fn lemma_pos_diffs_fit(v: Seq<int>)
    requires
        forall|c: int| 0 <= c < v.len() ==> 1 <= #[trigger] v[c] <= i32::MAX,
    ensures
        diffs_fit(v),
{
    assert forall|a: int, b: int| 0 <= a < b < v.len() && v[b] > v[a] implies in_i32(
        #[trigger] (v[b] - v[a]),
    ) by {
        assert(v[a] >= 1 && v[b] <= i32::MAX);
    }
}

/// Row 0 of a worm's parent matrix, and the worm's values.
fn worm_first_row(worm: &[i32]) -> (r: (Vec<i32>, Vec<i32>))
    requires
        worm@.len() <= i32::MAX,
    ensures
        ints(r.0@) == worm_row0(ints(worm@)),
        ints(r.1@) == ints(worm@),
{
    let n = worm.len();
    let ghost w = ints(worm@);
    let mut row0: Vec<i32> = Vec::new();
    let mut aux: Vec<i32> = Vec::new();
    let mut c: usize = 0;
    while c < n
        invariant
            c <= n == worm@.len() <= i32::MAX,
            w == ints(worm@),
            ints(aux@) == w.take(c as int),
            ints(row0@) == worm_row0(w).take(c as int),
        decreases n - c,
    {
        let mut p: usize = c;
        while p > 0 && worm[p - 1] >= worm[c]
            invariant
                p <= c < n == worm@.len(),
                w == ints(worm@),
                last_below(w, p - 1, w[c as int]) == last_below(w, c - 1, w[c as int]),
            decreases p,
        {
            p = p - 1;
        }
        let best: i32 = p as i32 - 1;
        proof {
            assert(last_below(w, p - 1, w[c as int]) == p - 1);
            assert(worm_row0(w)[c as int] == best as int);
        }
        let ghost r0 = ints(row0@);
        let ghost a0 = ints(aux@);
        row0.push(best);
        aux.push(worm[c]);
        proof {
            assert(ints(row0@) =~= r0.push(best as int));
            assert(ints(aux@) =~= a0.push(worm@[c as int] as int));
        }
        c = c + 1;
        proof {
            assert(ints(row0@) =~= worm_row0(w).take(c as int));
            assert(ints(aux@) =~= w.take(c as int));
        }
    }
    proof {
        assert(ints(aux@) =~= w);
        assert(ints(row0@) =~= worm_row0(w));
    }
    (row0, aux)
}

/// The values of the next row (each value less its parent's, 1 without one).
fn worm_diffs_exec(aux: &Vec<i32>, prow: &Vec<i32>) -> (r: Vec<i32>)
    requires
        worm_step_ok(ints(aux@), ints(prow@)),
        diffs_fit(ints(aux@)),
    ensures
        ints(r@) == worm_diffs(ints(aux@), ints(prow@)),
{
    let n = aux.len();
    let ghost a = ints(aux@);
    let ghost pr = ints(prow@);
    let mut nxt: Vec<i32> = Vec::new();
    let mut k: usize = 0;
    while k < n
        invariant
            k <= n == aux@.len() == prow@.len(),
            a == ints(aux@),
            pr == ints(prow@),
            worm_step_ok(a, pr),
            diffs_fit(a),
            ints(nxt@) == worm_diffs(a, pr).take(k as int),
        decreases n - k,
    {
        let q = prow[k];
        proof {
            assert(pr[k as int] == q as int);
            assert(-1 <= pr[k as int] < k);
        }
        let v: i32 = if q != -1 {
            proof {
                assert(a[pr[k as int]] < a[k as int]);
                assert(in_i32(a[k as int] - a[pr[k as int]]));
            }
            aux[k] - aux[q as usize]
        } else {
            1
        };
        proof {
            assert(worm_diffs(a, pr)[k as int] == v as int);
        }
        let ghost nv = ints(nxt@);
        nxt.push(v);
        k = k + 1;
        proof {
            assert(ints(nxt@) =~= nv.push(v as int));
            assert(ints(nxt@) =~= worm_diffs(a, pr).take(k as int));
        }
    }
    proof {
        assert(ints(nxt@) =~= worm_diffs(a, pr));
    }
    nxt
}

fn all_one_exec(v: &Vec<i32>) -> (r: bool)
    ensures
        r == all_one(ints(v@)),
{
    let n = v.len();
    let mut k: usize = 0;
    while k < n
        invariant
            k <= n == v@.len(),
            forall|j: int| 0 <= j < k ==> #[trigger] ints(v@)[j] == 1,
        decreases n - k,
    {
        if v[k] != 1 {
            proof {
                assert(ints(v@)[k as int] != 1);
            }
            return false;
        }
        k = k + 1;
    }
    true
}

/// The next parent row: each column's nearest ancestor with a smaller value.
fn worm_next_row_exec(nxt: &Vec<i32>, prow: &Vec<i32>) -> (r: Vec<i32>)
    requires
        nxt@.len() == prow@.len(),
        forall|c: int| 0 <= c < prow@.len() ==> -1 <= #[trigger] prow@[c] < c,
    ensures
        ints(r@) == worm_next_row(ints(nxt@), ints(prow@)),
{
    let n = nxt.len();
    let ghost nx = ints(nxt@);
    let ghost pr = ints(prow@);
    let mut np: Vec<i32> = Vec::new();
    let mut k: usize = 0;
    while k < n
        invariant
            k <= n == nxt@.len() == prow@.len(),
            nx == ints(nxt@),
            pr == ints(prow@),
            forall|c: int| 0 <= c < prow@.len() ==> -1 <= #[trigger] prow@[c] < c,
            ints(np@) == worm_next_row(nx, pr).take(k as int),
        decreases n - k,
    {
        let mut p: i32 = prow[k];
        proof {
            assert(-1 <= prow@[k as int] < k);
        }
        while p != -1 && nxt[p as usize] >= nxt[k]
            invariant
                -1 <= p < k < n == nxt@.len() == prow@.len(),
                nx == ints(nxt@),
                pr == ints(prow@),
                forall|c: int| 0 <= c < prow@.len() ==> -1 <= #[trigger] prow@[c] < c,
                anc_below(nx, pr, p as int, nx[k as int]) == anc_below(nx, pr, pr[k as int], nx[k as int]),
            decreases p + 1,
        {
            proof {
                assert(-1 <= prow@[p as int] < p);
                assert(pr[p as int] == prow@[p as int] as int);
                assert(nx[p as int] >= nx[k as int]);
            }
            p = prow[p as usize];
        }
        proof {
            if p != -1 {
                assert(nx[p as int] < nx[k as int]);
            }
            assert(worm_next_row(nx, pr)[k as int] == p as int);
        }
        let ghost nv = ints(np@);
        np.push(p);
        k = k + 1;
        proof {
            assert(ints(np@) =~= nv.push(p as int));
            assert(ints(np@) =~= worm_next_row(nx, pr).take(k as int));
        }
    }
    proof {
        assert(ints(np@) =~= worm_next_row(nx, pr));
    }
    np
}

/// Columns from rows: entry `c` of every row, for each column `c`.
fn rows_to_columns(rows: &Vec<Vec<i32>>, n: usize) -> (r: Vec<Vec<i32>>)
    requires
        forall|i: int| 0 <= i < rows@.len() ==> (#[trigger] rows@[i])@.len() == n,
    ensures
        mat(r@) == Seq::new(n as nat, |c: int| Seq::new(rows@.len(), |i: int| mat(rows@)[i][c])),
{
    let nr = rows.len();
    let ghost t = mat(rows@);
    let mut parent: Vec<Vec<i32>> = Vec::new();
    let mut c: usize = 0;
    while c < n
        invariant
            c <= n,
            nr == rows@.len(),
            t == mat(rows@),
            forall|i: int| 0 <= i < rows@.len() ==> (#[trigger] rows@[i])@.len() == n,
            mat(parent@) == Seq::new(c as nat, |cc: int| Seq::new(nr as nat, |i: int| t[i][cc])),
        decreases n - c,
    {
        let mut col: Vec<i32> = Vec::new();
        let mut i: usize = 0;
        while i < nr
            invariant
                i <= nr == rows@.len(),
                c < n,
                t == mat(rows@),
                forall|i: int| 0 <= i < rows@.len() ==> (#[trigger] rows@[i])@.len() == n,
                ints(col@) == Seq::new(i as nat, |ii: int| t[ii][c as int]),
            decreases nr - i,
        {
            proof {
                assert(rows@[i as int]@.len() == n);
                assert(t[i as int][c as int] == rows@[i as int]@[c as int] as int);
            }
            let x = rows[i][c];
            let ghost cv = ints(col@);
            col.push(x);
            i = i + 1;
            proof {
                assert(ints(col@) =~= cv.push(x as int));
                assert(ints(col@) =~= Seq::new(i as nat, |ii: int| t[ii][c as int]));
            }
        }
        let ghost pm = mat(parent@);
        parent.push(col);
        c = c + 1;
        proof {
            assert(mat(parent@) =~= pm.push(ints(col@)));
            assert(mat(parent@) =~= Seq::new(c as nat, |cc: int| Seq::new(nr as nat, |i: int| t[i][cc])));
        }
    }
    parent
}

impl IHSS {
    /// The hydra of a worm: row 0 links each column to its nearest smaller
    /// column on the left; each next row takes the values less their
    /// parents' and links each column to its nearest ancestor with a
    /// smaller value, until every value is 1.
    pub fn from_worm(worm: &[i32]) -> (r: IHSS)
        requires
            worm@.len() <= i32::MAX,
            diffs_fit(ints(worm@)),
        ensures
            r@ == from_worm_spec(ints(worm@)),
            r.wf(),
    {
        let n = worm.len();
        let ghost w = ints(worm@);
        if n == 0 {
            let e: Vec<Vec<i32>> = Vec::new();
            proof {
                assert(mat(e@) =~= from_worm_spec(w));
            }
            return IHSS { parent: e };
        }
        let (row0, first) = worm_first_row(worm);
        proof {
            assert forall|k: int| 0 <= k < n implies -1 <= #[trigger] worm_row0(w)[k] < k && (
            worm_row0(w)[k] != -1 ==> w[worm_row0(w)[k]] < w[k]) by {
                lemma_last_below(w, k - 1, w[k]);
            }
            lemma_worm_rows_ok(w, worm_row0(w));
        }
        let mut aux = first;
        let mut prow = row0;
        let mut rows: Vec<Vec<i32>> = Vec::new();
        let ghost total = worm_rows(w, worm_row0(w));
        loop
            invariant_except_break
                n == aux@.len() == prow@.len(),
                worm_step_ok(ints(aux@), ints(prow@)),
                diffs_fit(ints(aux@)),
                mat(rows@) + worm_rows(ints(aux@), ints(prow@)) == total,
            invariant
                total == worm_rows(w, worm_row0(w)),
            ensures
                mat(rows@) == total,
            decreases seq_sum(worm_diffs(ints(aux@), ints(prow@))),
        {
            let ghost a = ints(aux@);
            let ghost pr = ints(prow@);
            let nxt = worm_diffs_exec(&aux, &prow);
            proof {
                lemma_worm_step(a, pr);
            }
            let ghost nx = ints(nxt@);
            let ghost old_rows = mat(rows@);
            if all_one_exec(&nxt) {
                rows.push(prow);
                proof {
                    assert(worm_rows(a, pr) == seq![pr]);
                    assert(mat(rows@) =~= old_rows + seq![pr]);
                }
                break;
            }
            proof {
                assert forall|c: int| 0 <= c < prow@.len() implies -1 <= #[trigger] prow@[c] < c by {
                    assert(pr[c] == prow@[c] as int);
                }
            }
            let np = worm_next_row_exec(&nxt, &prow);
            proof {
                assert(worm_rows(a, pr) == seq![pr] + worm_rows(nx, worm_next_row(nx, pr)));
                assert forall|c: int| 0 <= c < n implies 1 <= #[trigger] nx[c] <= i32::MAX by {
                    assert(nx[c] == nxt@[c] as int);
                }
                lemma_pos_diffs_fit(nx);
            }
            rows.push(prow);
            proof {
                assert(mat(rows@) =~= old_rows + seq![pr]);
                assert(mat(rows@) + worm_rows(nx, ints(np@)) =~= old_rows + worm_rows(a, pr));
            }
            aux = nxt;
            prow = np;
        }
        proof {
            assert forall|i: int| 0 <= i < rows@.len() implies (#[trigger] rows@[i])@.len() == n by {
                assert(mat(rows@)[i] == ints(rows@[i]@));
                assert(total[i].len() == n);
            }
        }
        let parent = rows_to_columns(&rows, n);
        proof {
            assert(mat(parent@) =~= from_worm_spec(w));
            assert forall|c: int| 0 <= c < mat(parent@).len() implies (#[trigger] mat(parent@)[c]).len()
                == mat(parent@)[0].len() by {
            }
        }
        IHSS { parent }
    }

    /// The worm of the hydra: each column's value in the lowest row, built
    /// from the top row down.
    pub fn to_worm(&self) -> (r: Vec<i32>)
        requires
            self.wf(),
            self@.len() > 0 ==> self@[0].len() > 0,
            worm_fits(self@),
        ensures
            ints(r@) == to_worm_spec(self@),
    {
        let ghost pm = self@;
        let cols = self.parent.len();
        if cols == 0 {
            let e: Vec<i32> = Vec::new();
            proof {
                assert(ints(e@) =~= to_worm_spec(pm));
            }
            return e;
        }
        let rows = self.parent[0].len();
        let top = rows - 1;
        let mut next: Vec<i32> = Vec::new();
        let mut r: usize = rows;
        while r > 0
            invariant
                r <= rows,
                rows == pm[0].len() >= 1,
                top == rows - 1,
                cols == pm.len() >= 1,
                pm == mat(self.parent@),
                wf_parent(pm),
                worm_fits(pm),
                r < rows ==> next@.len() == cols,
                r < rows ==> forall|k: int| 0 <= k < cols ==> #[trigger] next@[k] as int == worm_val(pm, k, r as int),
            decreases r,
        {
            let rr = r - 1;
            let mut row: Vec<i32> = Vec::new();
            let mut c: usize = 0;
            while c < cols
                invariant
                    c <= cols == pm.len(),
                    rr < rows == pm[0].len(),
                    top == rows - 1,
                    r == rr + 1,
                    pm == mat(self.parent@),
                    wf_parent(pm),
                    worm_fits(pm),
                    rr < top ==> next@.len() == cols,
                    rr < top ==> forall|k: int| 0 <= k < cols ==> #[trigger] next@[k] as int == worm_val(pm, k, rr + 1),
                    row@.len() == c,
                    forall|k: int| 0 <= k < c ==> #[trigger] row@[k] as int == worm_val(pm, k, rr as int),
                decreases cols - c,
            {
                proof {
                    assert(pm[c as int].len() == rows);
                    assert(self.parent@[c as int]@.len() == rows);
                }
                let q = self.parent[c][rr];
                proof {
                    assert(pm[c as int][rr as int] == q as int);
                    assert(-1 <= q < c);
                }
                let v: i32 = if q == -1 {
                    1
                } else if rr == top {
                    proof {
                        assert(worm_val(pm, c as int, rr as int) == worm_val(pm, q as int, rr as int) + 1);
                        assert(worm_val(pm, c as int, rr as int) <= i32::MAX);
                    }
                    row[q as usize] + 1
                } else {
                    proof {
                        assert(worm_val(pm, c as int, rr as int) == worm_val(pm, q as int, rr as int)
                            + worm_val(pm, c as int, rr + 1));
                        assert(worm_val(pm, c as int, rr as int) <= i32::MAX);
                        lemma_worm_pos(pm, q as int, rr as int);
                        lemma_worm_pos(pm, c as int, rr + 1);
                    }
                    row[q as usize] + next[c]
                };
                row.push(v);
                c = c + 1;
            }
            next = row;
            r = rr;
        }
        proof {
            assert(ints(next@) =~= to_worm_spec(pm));
        }
        next
    }
}

// ============================================================
// Parsing `(0,0)(1,1)(2,1)`
// ============================================================

/// Scanning brackets from `j` with `depth` open: where the scan stops and
/// the depth left open there.
pub open spec fn close_scan(cs: Seq<char>, j: int, depth: int) -> (int, int)
    decreases cs.len() - j,
{
    if j >= cs.len() || depth <= 0 {
        (j, depth)
    } else {
        close_scan(
            cs,
            j + 1,
            if cs[j] == '(' {
                depth + 1
            } else if cs[j] == ')' {
                depth - 1
            } else {
                depth
            },
        )
    }
}

proof fn lemma_close_scan(cs: Seq<char>, j: int, depth: int)
    requires
        0 <= j <= cs.len(),
    ensures
        j <= close_scan(cs, j, depth).0 <= cs.len(),
        close_scan(cs, j, depth).0 < cs.len() ==> close_scan(cs, j, depth).1 <= 0,
        close_scan(cs, j, depth).1 <= 0 && depth > 0 ==> close_scan(cs, j, depth).0 > j && cs[close_scan(cs, j, depth).0 - 1] == ')',
    decreases cs.len() - j,
{
    if !(j >= cs.len() || depth <= 0) {
        let nd = if cs[j] == '(' {
            depth + 1
        } else if cs[j] == ')' {
            depth - 1
        } else {
            depth
        };
        lemma_close_scan(cs, j + 1, nd);
    }
}

/// The bracketed column texts from `i` on; `None` where the byte slicing
/// of an unclosed last bracket would not fall on a character boundary.
pub open spec fn segments(cs: Seq<char>, i: int) -> Option<Seq<Seq<char>>>
    decreases cs.len() - i,
{
    if i < 0 || i >= cs.len() {
        Some(Seq::empty())
    } else if cs[i] != '(' {
        segments(cs, i + 1)
    } else {
        let e = close_scan(cs, i + 1, 1);
        if e.0 - 1 < i + 1 || (e.1 > 0 && (cs.last() as int) >= 128) || e.0 > cs.len() {
            None
        } else {
            match segments(cs, e.0) {
                None => None,
                Some(rest) => Some(seq![cs.subrange(i + 1, e.0 - 1)] + rest),
            }
        }
    }
}

proof fn lemma_segments_len(cs: Seq<char>, i: int)
    requires
        0 <= i,
    ensures
        segments(cs, i) is Some ==> segments(cs, i)->0.len() <= if i <= cs.len() { cs.len() - i } else { 0 },
    decreases cs.len() - i,
{
    if 0 <= i < cs.len() {
        if cs[i] != '(' {
            lemma_segments_len(cs, i + 1);
        } else {
            let e = close_scan(cs, i + 1, 1);
            lemma_close_scan(cs, i + 1, 1);
            if !(e.0 - 1 < i + 1 || (e.1 > 0 && (cs.last() as int) >= 128) || e.0 > cs.len()) {
                lemma_segments_len(cs, e.0);
            }
        }
    }
}

/// The pieces of `t` between commas (the text itself when it has none).
pub open spec fn split_commas(t: Seq<char>) -> Seq<Seq<char>>
    decreases t.len(),
{
    if t.len() == 0 {
        seq![Seq::empty()]
    } else {
        let rest = split_commas(t.drop_last());
        if t.last() == ',' {
            rest.push(Seq::empty())
        } else {
            rest.update(rest.len() - 1, rest.last().push(t.last()))
        }
    }
}

proof fn lemma_split_commas_len(t: Seq<char>)
    ensures
        split_commas(t).len() >= 1,
    decreases t.len(),
{
    if t.len() > 0 {
        lemma_split_commas_len(t.drop_last());
    }
}

/// `s[start..]` is all ASCII digits.
pub open spec fn digits_from(s: Seq<char>, start: int) -> bool {
    forall|k: int| start <= k < s.len() ==> is_digit(#[trigger] s[k])
}

/// Where the digits of a numeral start: after a sign, if any.
pub open spec fn sign_len(s: Seq<char>) -> int {
    if s.len() > 0 && (s[0] == '-' || s[0] == '+') {
        1
    } else {
        0
    }
}

/// What `i32::from_str` gives: an optional sign, then decimal digits,
/// in range.
pub open spec fn parse_i32(s: Seq<char>) -> Option<int> {
    let neg = s.len() > 0 && s[0] == '-';
    let start = sign_len(s);
    if s.len() <= start || !digits_from(s, start) {
        None
    } else {
        let v = digits_val(s, start, s.len() as int);
        let x = if neg { -v } else { v };
        if i32::MIN <= x <= i32::MAX {
            Some(x)
        } else {
            None
        }
    }
}

/// The entries of one column text: 0 for a blank text, else each
/// comma-separated piece read as an integer (0 where it is none).
pub open spec fn content_col(t: Seq<char>) -> Seq<int> {
    if spec_trim(t).len() == 0 {
        seq![0int]
    } else {
        split_commas(t).map_values(
            |piece: Seq<char>|
                match parse_i32(spec_trim(piece)) {
                    Some(x) => x,
                    None => 0,
                },
        )
    }
}

/// The columns read from the text, padded with zeros to the same length;
/// an error where there is none.
pub open spec fn ihss_parse_spec(cs: Seq<char>) -> Result<Seq<Seq<int>>, Seq<char>> {
    match segments(cs, 0) {
        None => Err(Seq::empty()),
        Some(segs) => if segs.len() == 0 {
            Err("IHSS input must contain at least one (…) column"@)
        } else {
            Ok(padded(segs.map_values(|t: Seq<char>| content_col(t))))
        },
    }
}

proof fn lemma_segments_empty(cs: Seq<char>, i: int)
    requires
        0 <= i,
        segments(cs, i) is Some,
    ensures
        segments(cs, i)->0.len() == 0 <==> forall|k: int| i <= k < cs.len() ==> cs[k] != '(',
    decreases cs.len() - i,
{
    if 0 <= i < cs.len() && cs[i] != '(' {
        lemma_segments_empty(cs, i + 1);
        if segments(cs, i)->0.len() == 0 {
            assert forall|k: int| i <= k < cs.len() implies cs[k] != '(' by {
                if k > i {
                    assert(i + 1 <= k);
                }
            }
        }
    }
}

proof fn lemma_col_max_ge(s: Seq<Seq<int>>, i: int)
    requires
        0 <= i < s.len(),
    ensures
        col_max(s) >= s[i].len(),
    decreases s.len(),
{
    if i < s.len() - 1 {
        lemma_col_max_ge(s.drop_last(), i);
    }
}

/// Reading a value matrix fails exactly when the text holds no `(`; a
/// matrix it reads has at least one column and one row, and all its
/// columns have the length of the longest column read.
pub proof fn lemma_ihss_parse_shape(cs: Seq<char>)
    requires
        ihss_text_ok(cs),
    ensures
        ihss_parse_spec(cs) is Err <==> (forall|k: int| 0 <= k < cs.len() ==> cs[k] != '('),
        ihss_parse_spec(cs) is Ok ==> {
            let m = ihss_parse_spec(cs)->Ok_0;
            &&& m.len() >= 1
            &&& m[0].len() >= 1
            &&& forall|c: int| 0 <= c < m.len() ==> (#[trigger] m[c]).len() == m[0].len()
        },
{
    lemma_segments_empty(cs, 0);
    let segs = segments(cs, 0)->0;
    if segs.len() > 0 {
        let cols = segs.map_values(|t: Seq<char>| content_col(t));
        let t0 = segs[0];
        if spec_trim(t0).len() != 0 {
            lemma_split_commas_len(t0);
        }
        assert(cols[0] == content_col(t0));
        assert(cols[0].len() >= 1);
        lemma_col_max_ge(cols, 0);
    }
}

/// The input's byte slicing stays on character boundaries.
pub open spec fn ihss_text_ok(cs: Seq<char>) -> bool {
    segments(cs, 0) is Some
}

pub(crate) fn parse_i32_chars(s: &Vec<char>) -> (r: Option<i32>)
    ensures
        match parse_i32(s@) {
            Some(x) => r == Some(x as i32),
            None => r is None,
        },
{
    let n = s.len();
    let neg = n > 0 && s[0] == '-';
    let start: usize = if n > 0 && (s[0] == '-' || s[0] == '+') {
        1
    } else {
        0
    };
    if n <= start {
        return None;
    }
    let mut k: usize = start;
    while k < n
        invariant
            start <= k <= n == s@.len(),
            start == sign_len(s@),
            forall|j: int| start <= j < k ==> is_digit(#[trigger] s@[j]),
        decreases n - k,
    {
        if !is_digit_char(s[k]) {
            proof {
                assert(!is_digit(s@[k as int]));
                assert(!digits_from(s@, start as int));
            }
            return None;
        }
        k = k + 1;
    }
    // magnitude, as i64, stopping once it leaves the i32 range
    let mut v: i64 = 0;
    let mut k: usize = start;
    while k < n
        invariant
            start <= k <= n == s@.len(),
            start == sign_len(s@),
            neg == (s@.len() > 0 && s@[0] == '-'),
            forall|j: int| start <= j < n ==> is_digit(#[trigger] s@[j]),
            v == digits_val(s@, start as int, k as int),
            0 <= v <= 0x8000_0000,
        decreases n - k,
    {
        let d = digit_of(s[k]) as i64;
        proof {
            lemma_digits_val_nonneg(s@, start as int, k as int);
            lemma_digits_val_mono(s@, start as int, k + 1, n as int);
        }
        if v * 10 + d > 0x8000_0000 {
            proof {
                assert(digits_val(s@, start as int, k + 1) > 0x8000_0000);
                assert(digits_val(s@, start as int, n as int) > 0x8000_0000);
            }
            return None;
        }
        v = v * 10 + d;
        k = k + 1;
    }
    if neg {
        Some((-v) as i32)
    } else if v > 0x7fff_ffff {
        None
    } else {
        Some(v as i32)
    }
}

/// The column of one bracketed text.
fn content_column(t: &Vec<char>) -> (r: Vec<i32>)
    ensures
        ints(r@) == content_col(t@),
{
    let tt = trim_chars(t);
    if tt.len() == 0 {
        let mut v: Vec<i32> = Vec::new();
        v.push(0);
        proof {
            assert(ints(v@) =~= seq![0int]);
        }
        return v;
    }
    let ghost pieces = split_commas(t@);
    let mut out: Vec<i32> = Vec::new();
    let mut piece: Vec<char> = Vec::new();
    let mut i: usize = 0;
    proof {
        assert(t@.take(0) =~= Seq::<char>::empty());
    }
    while i < t.len()
        invariant
            i <= t@.len(),
            pieces == split_commas(t@),
            ({
                let sp = split_commas(t@.take(i as int));
                &&& out@.len() + 1 == sp.len()
                &&& piece@ == sp.last()
                &&& forall|k: int| 0 <= k < out@.len() ==> (#[trigger] out@[k]) as int == match parse_i32(
                    spec_trim(sp[k]),
                ) {
                    Some(x) => x,
                    None => 0,
                }
            }),
        decreases t.len() - i,
    {
        proof {
            assert(t@.take(i + 1).drop_last() =~= t@.take(i as int));
            lemma_split_commas_len(t@.take(i as int));
        }
        if t[i] == ',' {
            let tp = trim_chars(&piece);
            let x = match parse_i32_chars(&tp) {
                Some(x) => x,
                None => 0,
            };
            out.push(x);
            piece = Vec::new();
        } else {
            piece.push(t[i]);
        }
        i = i + 1;
    }
    proof {
        assert(t@.take(t@.len() as int) =~= t@);
        lemma_split_commas_len(t@);
    }
    let tp = trim_chars(&piece);
    let x = match parse_i32_chars(&tp) {
        Some(x) => x,
        None => 0,
    };
    out.push(x);
    proof {
        assert(ints(out@) =~= content_col(t@));
    }
    out
}

impl IHSS {
    /// Read a value matrix `(0,0)(1,1)(2,1)`: the text between each pair of
    /// brackets is one column (blank for 0), numbers separated by commas;
    /// columns are padded with zeros to the same length.
    pub fn parse(input: &str) -> (r: Result<Vec<Vec<i32>>, String>)
        requires
            ihss_text_ok(input@),
        ensures
            match r {
                Ok(m) => ihss_parse_spec(input@) == Ok::<Seq<Seq<int>>, Seq<char>>(mat(m@))
                    && m@.len() <= input@.len() && rows_cover(mat(m@)),
                Err(e) => ihss_parse_spec(input@) == Err::<Seq<Seq<int>>, Seq<char>>(e@),
            },
    {
        proof {
            lemma_segments_len(input@, 0);
        }
        let cs = chars_of(input);
        let n = cs.len();
        let mut columns: Vec<Vec<i32>> = Vec::new();
        let mut i: usize = 0;
        let ghost all = segments(cs@, 0)->0;
        let ghost mut done: Seq<Seq<char>> = Seq::empty();
        proof {
            assert(done + all =~= all);
        }
        while i < n
            invariant
                i <= n == cs@.len(),
                cs@ == input@,
                segments(cs@, 0) is Some,
                all == segments(cs@, 0)->0,
                segments(cs@, i as int) is Some,
                all == done + segments(cs@, i as int)->0,
                mat(columns@) == done.map_values(|t: Seq<char>| content_col(t)),
            decreases n - i,
        {
            if cs[i] != '(' {
                proof {
                    assert(segments(cs@, i as int) == segments(cs@, i + 1));
                }
                i = i + 1;
                continue;
            }
            let start = i + 1;
            let mut depth: usize = 1;
            let mut j = i + 1;
            proof {
                lemma_close_scan(cs@, start as int, 1);
            }
            while j < n && depth > 0
                invariant
                    start <= j <= n == cs@.len(),
                    1 <= start,
                    depth <= j - start + 1,
                    close_scan(cs@, j as int, depth as int) == close_scan(cs@, start as int, 1),
                decreases n - j,
            {
                if cs[j] == '(' {
                    depth = depth + 1;
                } else if cs[j] == ')' {
                    depth = depth - 1;
                }
                j = j + 1;
            }
            proof {
                assert(close_scan(cs@, j as int, depth as int) == (j as int, depth as int));
                assert(j >= start + 1);
            }
            let mut content: Vec<char> = Vec::new();
            let mut k = start;
            while k < j - 1
                invariant
                    start <= k <= j - 1,
                    start < j <= n == cs@.len(),
                    content@ == cs@.subrange(start as int, k as int),
                decreases j - k,
            {
                content.push(cs[k]);
                k = k + 1;
                proof {
                    assert(content@ =~= cs@.subrange(start as int, k as int));
                }
            }
            let col = content_column(&content);
            let ghost cm = mat(columns@);
            let ghost colv = ints(col@);
            columns.push(col);
            proof {
                let rest = segments(cs@, j as int)->0;
                assert(segments(cs@, i as int)->0 == seq![cs@.subrange(start as int, j - 1)] + rest);
                done = done.push(cs@.subrange(start as int, j - 1));
                assert(all =~= done + rest);
                assert(mat(columns@) =~= cm.push(colv));
                assert(mat(columns@) =~= done.map_values(|t: Seq<char>| content_col(t)));
            }
            i = j;
        }
        proof {
            assert(done =~= all);
        }
        if columns.len() == 0 {
            return Err(lit("IHSS input must contain at least one (…) column"));
        }
        let rows = matrix_rows(&columns);
        let m = pad_matrix(&columns, rows);
        proof {
            assert(mat(m@)[0].len() == rows);
            assert forall|c: int| 0 <= c < mat(m@).len() implies (#[trigger] mat(m@)[c]).len() >= mat(m@)[0].len() by {}
        }
        Ok(m)
    }

    /// Read a value matrix and build its parent matrix.
    pub fn from_string(input: &str) -> (r: Result<IHSS, String>)
        requires
            ihss_text_ok(input@),
            input@.len() <= i32::MAX,
        ensures
            match r {
                Ok(h) => ihss_parse_spec(input@) is Ok && h@ == from_value_spec(
                    ihss_parse_spec(input@)->Ok_0,
                ) && h.wf(),
                Err(e) => ihss_parse_spec(input@) == Err::<Seq<Seq<int>>, Seq<char>>(e@),
            },
    {
        match IHSS::parse(input) {
            Err(e) => Err(e),
            Ok(m) => Ok(IHSS::from_value(&m)),
        }
    }
}

// ============================================================
// Expansion (the SMS / IHSS algorithm)
// ============================================================

/// `a` is reached by following row-`r` parents up from column `x`.
pub open spec fn anc_from(p: Seq<Seq<int>>, r: int, x: int, a: int) -> bool
    decreases x + 1,
{
    if x < 0 || x >= p.len() {
        false
    } else {
        let q = p[x][r];
        if q < 0 || q >= x {
            false
        } else {
            q == a || anc_from(p, r, q, a)
        }
    }
}

/// The last row in which `col` has a parent, below row `r` inclusive
/// (-1 if none).
pub open spec fn lnz_from(col: Seq<int>, r: int) -> int
    decreases r + 1,
{
    if r < 0 {
        -1
    } else if col[r] != -1 {
        r
    } else {
        lnz_from(col, r - 1)
    }
}

/// Column `x` is in the set S of column `c` at row `r`: an ancestor of
/// `c`, a child of an ancestor other than `c`'s parent, or a row root.
pub open spec fn in_s(p: Seq<Seq<int>>, c: int, r: int, x: int) -> bool {
    ||| anc_from(p, r, c, x)
    ||| (0 <= x < p.len() && p[x][r] != p[c][r] && p[x][r] >= 0 && anc_from(p, r, c, p[x][r]))
    ||| (0 <= x < p.len() && p[x][r] == -1)
}

/// Column `x` is allowable for column `c` at row `r`: in S at this row
/// and at every row below.
pub open spec fn allow(p: Seq<Seq<int>>, c: int, r: int, x: int) -> bool
    decreases r,
{
    if r < 0 {
        false
    } else {
        p[c][r] != -1 && in_s(p, c, r, x) && (r == 0 || allow(p, c, r - 1, x))
    }
}

/// The generation column: the last column, with its parent in row `lnz`
/// lifted one step and the rows above taken from column `ci`.
pub open spec fn gen_col(p: Seq<Seq<int>>, ci: int, lnz: int, last: int) -> Seq<int> {
    Seq::new(
        p[last].len(),
        |r: int|
            if r == lnz && p[last][lnz] != -1 {
                p[p[last][lnz]][lnz]
            } else if r > lnz {
                p[ci][r]
            } else {
                p[last][r]
            },
    )
}

/// Whether entry `(c, r)` of a copy is taken from the generation column.
pub open spec fn use_gen(p: Seq<Seq<int>>, root: int, lnz: int, last: int, c: int, r: int) -> bool {
    if r <= lnz {
        p[c][r] == p[root][r] && allow(p, last, r, c)
    } else {
        c == root
    }
}

/// Column `c` of a trial copy with root `root`.
pub open spec fn trial_col(p: Seq<Seq<int>>, root: int, lnz: int, last: int, c: int) -> Seq<int> {
    Seq::new(
        p[c].len(),
        |r: int|
            if use_gen(p, root, lnz, last, c, r) {
                gen_col(p, root, lnz, last)[r]
            } else if p[c][r] >= root {
                p[c][r] + (last - root)
            } else {
                p[c][r]
            },
    )
}

/// The copied columns of a trial expansion.
pub open spec fn trial_tail(p: Seq<Seq<int>>, root: int, lnz: int, last: int) -> Seq<Seq<int>> {
    Seq::new((last - root + 1) as nat, |i: int| trial_col(p, root, lnz, last, root + i))
}

/// The trial expansion with root `root`: one copy of `root..=last`.
pub open spec fn trial(p: Seq<Seq<int>>, root: int, lnz: int, last: int) -> Seq<Seq<int>> {
    p.take(last) + trial_tail(p, root, lnz, last)
}

/// Rows of two columns compared from `r` on (missing entries are -1):
/// `Some(d)` at the first difference, `None` if none.
pub open spec fn diff_rows(ca: Seq<int>, cb: Seq<int>, r: int) -> Option<int>
    decreases (if ca.len() > cb.len() { ca.len() } else { cb.len() }) - r,
{
    let n = if ca.len() > cb.len() { ca.len() } else { cb.len() };
    if r >= n || r < 0 {
        None
    } else {
        let pa = if r < ca.len() { ca[r] } else { -1 };
        let pb = if r < cb.len() { cb[r] } else { -1 };
        if pa != pb {
            Some(
                if pa == -1 {
                    -1
                } else if pb == -1 {
                    1
                } else {
                    pa - pb
                },
            )
        } else {
            diff_rows(ca, cb, r + 1)
        }
    }
}

/// Parent matrices compared column by column from `c` on; at the end the
/// difference of the lengths. `None` where that difference is negative
/// (the unsigned subtraction fails).
pub open spec fn diff_cols(a: Seq<Seq<int>>, b: Seq<int>, bm: Seq<Seq<int>>, c: int) -> Option<int>
    decreases (if a.len() > bm.len() { a.len() } else { bm.len() }) - c,
{
    let n = if a.len() > bm.len() { a.len() } else { bm.len() };
    if c >= n || c < 0 {
        if a.len() >= bm.len() {
            Some(((a.len() - bm.len()) as i32) as int)
        } else {
            None
        }
    } else {
        let ca = if c < a.len() { a[c] } else { Seq::empty() };
        let cb = if c < bm.len() { bm[c] } else { Seq::empty() };
        match diff_rows(ca, cb, 0) {
            Some(d) => Some(d),
            None => diff_cols(a, b, bm, c + 1),
        }
    }
}

/// The comparison of two parent matrices.
pub open spec fn diff_pm(a: Seq<Seq<int>>, b: Seq<Seq<int>>) -> Option<int> {
    diff_cols(a, Seq::empty(), b, 0)
}

/// Column `c` is a candidate root: allowable for the last column at row
/// `lnz` and its generation column lies above the original root's, or it
/// is the original root.
pub open spec fn cand(p: Seq<Seq<int>>, lnz: int, last: int, orig: int, c: int) -> bool {
    ||| c == orig
    ||| (0 <= c < p.len() && allow(p, last, lnz, c) && c != last && forall|r: int|
        0 <= r < p[0].len() ==> {
            let a = #[trigger] gen_col(p, c, lnz, last)[r];
            let b = gen_col(p, orig, lnz, last)[r];
            a == -1 || a == b || anc_from(p, r, b, a)
        })
}

/// Column `c` is a pending root.
pub open spec fn pending(p: Seq<Seq<int>>, lnz: int, last: int, orig: int, oer: int, isms: bool, c: int) -> bool {
    &&& 0 <= c < p.len()
    &&& cand(p, lnz, last, orig, c)
    &&& if isms {
        anc_from(p, lnz, last, c)
    } else {
        let gp = p[orig][oer];
        if gp == -1 {
            p[c][oer] == -1
        } else {
            p[c][oer] == gp
        }
    }
}

/// The first pending root at or after `c` (-1 if none).
pub open spec fn first_pending(
    p: Seq<Seq<int>>,
    lnz: int,
    last: int,
    orig: int,
    oer: int,
    isms: bool,
    c: int,
) -> int
    decreases p.len() - c,
{
    if c >= p.len() || c < 0 {
        -1
    } else if pending(p, lnz, last, orig, oer, isms, c) {
        c
    } else {
        first_pending(p, lnz, last, orig, oer, isms, c + 1)
    }
}

/// From `c` down, the first candidate other than the original root whose
/// trial expansion is below the original root's (-1 if none); `None` where
/// a comparison fails.
pub open spec fn small_root(p: Seq<Seq<int>>, lnz: int, last: int, orig: int, c: int) -> Option<int>
    decreases c + 1,
{
    if c < 0 {
        Some(-1)
    } else if cand(p, lnz, last, orig, c) && c != orig {
        match diff_pm(trial(p, c, lnz, last), trial(p, orig, lnz, last)) {
            None => None,
            Some(d) => if d < 0 {
                Some(c)
            } else {
                small_root(p, lnz, last, orig, c - 1)
            },
        }
    } else {
        small_root(p, lnz, last, orig, c - 1)
    }
}

/// The bad root chosen by the trial expansions.
pub open spec fn choose_root(p: Seq<Seq<int>>, lnz: int, last: int, orig: int, oer: int, isms: bool) -> Option<int> {
    match small_root(p, lnz, last, orig, p.len() - 1) {
        None => None,
        Some(sr) => {
            let b = if sr != -1 {
                let mr = first_pending(p, lnz, last, orig, oer, isms, sr + 1);
                if mr != -1 {
                    mr
                } else {
                    first_pending(p, lnz, last, orig, oer, isms, 0)
                }
            } else {
                first_pending(p, lnz, last, orig, oer, isms, 0)
            };
            Some(if b == -1 { orig } else { b })
        },
    }
}

/// Entry `r` of copy `t` of column `c` in the expansion with root `b`;
/// `None` where an `i32` operation overflows.
pub open spec fn copy_entry(p: Seq<Seq<int>>, b: int, lnz: int, last: int, t: int, c: int, r: int) -> Option<int> {
    let w = last - b;
    if use_gen(p, b, lnz, last, c, r) {
        let g = gen_col(p, b, lnz, last)[r];
        if g >= b {
            let prod = (t - 1) * w;
            if !(i32::MIN <= prod <= i32::MAX) || !(i32::MIN <= g + prod <= i32::MAX) {
                None
            } else {
                Some(g + prod)
            }
        } else {
            Some(g)
        }
    } else if p[c][r] >= b {
        let prod = t * w;
        if !(i32::MIN <= prod <= i32::MAX) || !(i32::MIN <= p[c][r] + prod <= i32::MAX) {
            None
        } else {
            Some(p[c][r] + prod)
        }
    } else {
        Some(p[c][r])
    }
}

/// Copy `t` of column `c`, row by row from `r` on.
pub open spec fn copy_col(p: Seq<Seq<int>>, b: int, lnz: int, last: int, t: int, c: int, r: nat) -> Option<Seq<int>>
    decreases r,
{
    if r == 0 {
        Some(Seq::empty())
    } else {
        match copy_col(p, b, lnz, last, t, c, (r - 1) as nat) {
            None => None,
            Some(v) => match copy_entry(p, b, lnz, last, t, c, r - 1) {
                None => None,
                Some(x) => Some(v.push(x)),
            },
        }
    }
}

/// Copy `t` of the columns `b..b + k`.
pub open spec fn copy_block(p: Seq<Seq<int>>, b: int, lnz: int, last: int, t: int, k: nat) -> Option<Seq<Seq<int>>>
    decreases k,
{
    if k == 0 {
        Some(Seq::empty())
    } else {
        match copy_block(p, b, lnz, last, t, (k - 1) as nat) {
            None => None,
            Some(v) => match copy_col(p, b, lnz, last, t, b + k - 1, p[b + k - 1].len()) {
                None => None,
                Some(col) => Some(v.push(col)),
            },
        }
    }
}

/// The first `t` copies appended to all but the last column.
pub open spec fn copies(p: Seq<Seq<int>>, b: int, lnz: int, last: int, t: nat) -> Option<Seq<Seq<int>>>
    decreases t,
{
    if t == 0 {
        Some(p.take(last))
    } else {
        match copies(p, b, lnz, last, (t - 1) as nat) {
            None => None,
            Some(v) => match copy_block(p, b, lnz, last, t as int, (last - b) as nat) {
                None => None,
                Some(blk) => Some(v + blk),
            },
        }
    }
}

/// The expansion: the parent matrix and the bad root, or `(all but the
/// last column, -1)` for a successor; `None` where the
/// computation fails (a comparison's unsigned subtraction, an `i32`
/// overflow).
pub open spec fn expand_spec(p: Seq<Seq<int>>, times: int, k: int, isms: bool) -> Option<(Seq<Seq<int>>, int)> {
    let cols = p.len();
    if cols == 0 {
        Some((Seq::empty(), -1))
    } else {
        let rows = p[0].len();
        let last = cols - 1;
        let lnz = lnz_from(p[last], rows - 1);
        if lnz == -1 {
            Some((p.take(last), -1))
        } else {
            let orig = p[last][lnz];
            let oer0 = lnz_from(p[orig], rows - 1);
            let oer = if oer0 == -1 || oer0 < lnz { lnz } else { oer0 };
            let broot = if lnz >= k - 1 {
                choose_root(p, lnz, last, orig, oer, isms)
            } else {
                Some(orig)
            };
            match broot {
                None => None,
                Some(b) => if b <= last - 1 {
                    match copies(p, b, lnz, last, if times < 0 { 0 } else { times as nat }) {
                        None => None,
                        Some(m) => Some((m, b)),
                    }
                } else {
                    Some((p.take(last), b))
                },
            }
        }
    }
}

/// A parent matrix small enough that shifted parents stay in `i32`.
pub open spec fn small_parent(p: Seq<Seq<int>>) -> bool {
    wf_parent(p) && p.len() < 0x4000_0000 && p.len() > 0
}

proof fn lemma_anc_lt(p: Seq<Seq<int>>, r: int, x: int, a: int)
    requires
        anc_from(p, r, x, a),
    ensures
        0 <= a < x,
    decreases x + 1,
{
    let q = p[x][r];
    if q != a {
        lemma_anc_lt(p, r, q, a);
    }
}

fn is_anc(p: &Vec<Vec<i32>>, r: usize, x: i32, a: i32) -> (b: bool)
    requires
        wf_parent(mat(p@)),
        p@.len() > 0,
        r < mat(p@)[0].len(),
        -1 <= x < p@.len(),
    ensures
        b == anc_from(mat(p@), r as int, x as int, a as int),
{
    let ghost pm = mat(p@);
    let mut cur = x;
    while cur >= 0
        invariant
            -1 <= cur < p@.len(),
            pm == mat(p@),
            wf_parent(pm),
            r < pm[0].len(),
            anc_from(pm, r as int, x as int, a as int) == anc_from(pm, r as int, cur as int, a as int),
        decreases cur + 1,
    {
        proof {
            assert(pm[cur as int].len() == pm[0].len());
            assert(pm[cur as int][r as int] == p@[cur as int]@[r as int] as int);
        }
        let q = p[cur as usize][r];
        if q < 0 {
            return false;
        }
        if q == a {
            return true;
        }
        cur = q;
    }
    false
}

/// `allow(p, last, r, x)` for every row `r` and column `x`.
fn allow_table(p: &Vec<Vec<i32>>, last: usize) -> (t: Vec<Vec<bool>>)
    requires
        small_parent(mat(p@)),
        last + 1 == p@.len(),
    ensures
        t@.len() == mat(p@)[0].len(),
        forall|r: int, x: int|
            0 <= r < t@.len() && 0 <= x < p@.len() ==> #[trigger] t@[r]@[x] == allow(mat(p@), last as int, r, x),
        forall|r: int| 0 <= r < t@.len() ==> (#[trigger] t@[r])@.len() == p@.len(),
{
    let ghost pm = mat(p@);
    let cols = p.len();
    let rows = p[0].len();
    proof {
        assert(pm[0].len() == rows);
        assert(pm[last as int].len() == rows);
    }
    let mut t: Vec<Vec<bool>> = Vec::new();
    let mut r: usize = 0;
    while r < rows
        invariant
            r <= rows == pm[0].len(),
            cols == p@.len() == pm.len(),
            last + 1 == cols,
            pm == mat(p@),
            small_parent(pm),
            t@.len() == r,
            forall|rr: int, x: int|
                0 <= rr < r && 0 <= x < cols ==> #[trigger] t@[rr]@[x] == allow(pm, last as int, rr, x),
            forall|rr: int| 0 <= rr < r ==> (#[trigger] t@[rr])@.len() == cols,
        decreases rows - r,
    {
        let mut row: Vec<bool> = Vec::new();
        let mut x: usize = 0;
        proof {
            assert(pm[last as int].len() == rows);
            assert(pm[last as int][r as int] == p@[last as int]@[r as int] as int);
        }
        let pc = p[last][r];
        while x < cols
            invariant
                x <= cols,
                r < rows == pm[0].len(),
                cols == p@.len() == pm.len(),
                last + 1 == cols,
                pm == mat(p@),
                small_parent(pm),
                pc as int == pm[last as int][r as int],
                t@.len() == r,
                forall|rr: int, y: int|
                    0 <= rr < r && 0 <= y < cols ==> #[trigger] t@[rr]@[y] == allow(pm, last as int, rr, y),
                forall|rr: int| 0 <= rr < r ==> (#[trigger] t@[rr])@.len() == cols,
                row@.len() == x,
                forall|y: int| 0 <= y < x ==> #[trigger] row@[y] == allow(pm, last as int, r as int, y),
            decreases cols - x,
        {
            proof {
                assert(pm[x as int].len() == rows);
                assert(pm[x as int][r as int] == p@[x as int]@[r as int] as int);
            }
            let px = p[x][r];
            let in_set = is_anc(p, r, last as i32, x as i32) || (px != pc && px >= 0 && is_anc(
                p,
                r,
                last as i32,
                px,
            )) || px == -1;
            let below = if r == 0 {
                true
            } else {
                t[r - 1][x]
            };
            row.push(pc != -1 && in_set && below);
            x = x + 1;
        }
        t.push(row);
        r = r + 1;
    }
    t
}

fn gen_column(p: &Vec<Vec<i32>>, ci: usize, lnz: usize, last: usize) -> (g: Vec<i32>)
    requires
        wf_parent(mat(p@)),
        ci <= last,
        last + 1 == p@.len(),
        lnz < mat(p@)[0].len(),
    ensures
        ints(g@) == gen_col(mat(p@), ci as int, lnz as int, last as int),
        forall|r: int| 0 <= r < g@.len() ==> -1 <= #[trigger] g@[r] < last,
        ci < last ==> forall|r: int| 0 <= r < g@.len() && r > lnz ==> #[trigger] g@[r] < ci,
{
    let ghost pm = mat(p@);
    let rows = p[last].len();
    proof {
        assert(pm[last as int].len() == rows);
        assert(pm[ci as int].len() == rows);
    }
    let mut g: Vec<i32> = Vec::new();
    let mut r: usize = 0;
    while r < rows
        invariant
            r <= rows == pm[last as int].len() == pm[ci as int].len() == pm[0].len(),
            ci <= last,
            last + 1 == pm.len(),
            lnz < rows,
            pm == mat(p@),
            wf_parent(pm),
            ints(g@) == gen_col(pm, ci as int, lnz as int, last as int).take(r as int),
            forall|k: int| 0 <= k < r ==> -1 <= #[trigger] g@[k] < last,
            ci < last ==> forall|k: int| 0 <= k < r && k > lnz ==> #[trigger] g@[k] < ci,
        decreases rows - r,
    {
        proof {
            assert(pm[last as int][r as int] == p@[last as int]@[r as int] as int);
            assert(pm[ci as int][r as int] == p@[ci as int]@[r as int] as int);
            assert(pm[last as int][lnz as int] == p@[last as int]@[lnz as int] as int);
        }
        let v: i32 = if r == lnz && p[last][lnz] != -1 {
            let q = p[last][lnz] as usize;
            proof {
                assert(pm[q as int].len() == rows);
                assert(pm[q as int][lnz as int] == p@[q as int]@[lnz as int] as int);
            }
            p[q][lnz]
        } else if r > lnz {
            p[ci][r]
        } else {
            p[last][r]
        };
        let ghost g0 = ints(g@);
        g.push(v);
        proof {
            assert(ints(g@) =~= g0.push(v as int));
            assert(ints(g@) =~= gen_col(pm, ci as int, lnz as int, last as int).take(r + 1));
        }
        r = r + 1;
    }
    proof {
        assert(gen_col(pm, ci as int, lnz as int, last as int).take(rows as int) =~= gen_col(pm, ci as int, lnz as int, last as int));
    }
    g
}

/// Whether entry `(c, r)` of a copy with root `root` comes from the
/// generation column.
fn use_gen_exec(p: &Vec<Vec<i32>>, tab: &Vec<Vec<bool>>, root: usize, lnz: usize, last: usize, c: usize, r: usize) -> (b: bool)
    requires
        small_parent(mat(p@)),
        last + 1 == p@.len(),
        root <= c <= last,
        r < mat(p@)[0].len(),
        tab@.len() == mat(p@)[0].len(),
        forall|rr: int, x: int|
            0 <= rr < tab@.len() && 0 <= x < p@.len() ==> #[trigger] tab@[rr]@[x] == allow(mat(p@), last as int, rr, x),
        forall|rr: int| 0 <= rr < tab@.len() ==> (#[trigger] tab@[rr])@.len() == p@.len(),
    ensures
        b == use_gen(mat(p@), root as int, lnz as int, last as int, c as int, r as int),
{
    let ghost pm = mat(p@);
    if r <= lnz {
        proof {
            assert(pm[c as int].len() == pm[0].len());
            assert(pm[root as int].len() == pm[0].len());
            assert(pm[c as int][r as int] == p@[c as int]@[r as int] as int);
            assert(pm[root as int][r as int] == p@[root as int]@[r as int] as int);
            assert(tab@[r as int]@.len() == p@.len());
        }
        p[c][r] == p[root][r] && tab[r][c]
    } else {
        c == root
    }
}

/// The trial expansion with root `root`.
fn trial_expand(p: &Vec<Vec<i32>>, tab: &Vec<Vec<bool>>, root: usize, lnz: usize, last: usize) -> (m: Vec<Vec<i32>>)
    requires
        small_parent(mat(p@)),
        last + 1 == p@.len(),
        root <= last,
        lnz < mat(p@)[0].len(),
        tab@.len() == mat(p@)[0].len(),
        forall|rr: int, x: int|
            0 <= rr < tab@.len() && 0 <= x < p@.len() ==> #[trigger] tab@[rr]@[x] == allow(mat(p@), last as int, rr, x),
        forall|rr: int| 0 <= rr < tab@.len() ==> (#[trigger] tab@[rr])@.len() == p@.len(),
    ensures
        mat(m@) == trial(mat(p@), root as int, lnz as int, last as int),
        forall|c: int, k: int| 0 <= c < m@.len() && 0 <= k < m@[c]@.len() ==> -1 <= #[trigger] m@[c]@[k],
{
    let ghost pm = mat(p@);
    let g = gen_column(p, root, lnz, last);
    let w: i32 = (last - root) as i32;
    let rows = p[0].len();
    proof {
        assert(pm[0].len() == rows);
    }
    let mut m: Vec<Vec<i32>> = Vec::new();
    let mut c: usize = 0;
    while c < last
        invariant
            c <= last,
            last + 1 == p@.len(),
            pm == mat(p@),
            mat(m@) == pm.take(c as int),
            wf_parent(pm),
            forall|cc: int, k: int| 0 <= cc < m@.len() && 0 <= k < m@[cc]@.len() ==> -1 <= #[trigger] m@[cc]@[k],
        decreases last - c,
    {
        let col = p[c].clone();
        let ghost m0 = mat(m@);
        proof {
            assert forall|k: int| 0 <= k < col@.len() implies -1 <= #[trigger] col@[k] by {
                assert(pm[c as int][k] == p@[c as int]@[k] as int);
            }
        }
        m.push(col);
        c = c + 1;
        proof {
            assert(mat(m@) =~= m0.push(pm[c - 1]));
            assert(mat(m@) =~= pm.take(c as int));
        }
    }
    let ghost tl = trial_tail(pm, root as int, lnz as int, last as int);
    let mut c: usize = root;
    while c <= last
        invariant
            root <= c <= last + 1,
            last + 1 == p@.len(),
            pm == mat(p@),
            small_parent(pm),
            rows == pm[0].len(),
            lnz < rows,
            w == last - root,
            ints(g@) == gen_col(pm, root as int, lnz as int, last as int),
            tab@.len() == rows,
            forall|rr: int, x: int|
                0 <= rr < tab@.len() && 0 <= x < p@.len() ==> #[trigger] tab@[rr]@[x] == allow(pm, last as int, rr, x),
            forall|rr: int| 0 <= rr < tab@.len() ==> (#[trigger] tab@[rr])@.len() == p@.len(),
            tl == trial_tail(pm, root as int, lnz as int, last as int),
            mat(m@) == pm.take(last as int) + tl.take(c - root),
            forall|cc: int, k: int| 0 <= cc < m@.len() && 0 <= k < m@[cc]@.len() ==> -1 <= #[trigger] m@[cc]@[k],
            forall|k: int| 0 <= k < g@.len() ==> -1 <= #[trigger] g@[k],
        decreases last + 1 - c,
    {
        let mut col: Vec<i32> = Vec::new();
        let mut r: usize = 0;
        proof {
            assert(pm[c as int].len() == rows);
            assert(pm[last as int].len() == rows);
        }
        while r < rows
            invariant
                r <= rows == pm[0].len() == pm[c as int].len() == pm[last as int].len(),
                root <= c <= last,
                last + 1 == p@.len(),
                pm == mat(p@),
                small_parent(pm),
                lnz < rows,
                w == last - root,
                ints(g@) == gen_col(pm, root as int, lnz as int, last as int),
                tab@.len() == rows,
                forall|rr: int, x: int|
                    0 <= rr < tab@.len() && 0 <= x < p@.len() ==> #[trigger] tab@[rr]@[x] == allow(pm, last as int, rr, x),
                forall|rr: int| 0 <= rr < tab@.len() ==> (#[trigger] tab@[rr])@.len() == p@.len(),
                tl == trial_tail(pm, root as int, lnz as int, last as int),
                ints(col@) == tl[c - root].take(r as int),
                forall|k: int| 0 <= k < col@.len() ==> -1 <= #[trigger] col@[k],
                forall|k: int| 0 <= k < g@.len() ==> -1 <= #[trigger] g@[k],
            decreases rows - r,
        {
            proof {
                assert(pm[c as int][r as int] == p@[c as int]@[r as int] as int);
                assert(ints(g@).len() == g@.len());
                assert(gen_col(pm, root as int, lnz as int, last as int).len() == rows);
                assert(g@.len() == rows);
            }
            let pv = p[c][r];
            let v: i32 = if use_gen_exec(p, tab, root, lnz, last, c, r) {
                g[r]
            } else if pv >= root as i32 {
                pv + w
            } else {
                pv
            };
            let ghost c0 = ints(col@);
            col.push(v);
            proof {
                assert(ints(col@) =~= c0.push(v as int));
                assert(ints(col@) =~= tl[c - root].take(r + 1));
            }
            r = r + 1;
        }
        proof {
            assert(tl[c - root].take(rows as int) =~= tl[c - root]);
        }
        let ghost m0 = mat(m@);
        let ghost cv = ints(col@);
        m.push(col);
        c = c + 1;
        proof {
            assert(tl.take(c - root) =~= tl.take(c - 1 - root).push(cv));
            assert(mat(m@) =~= m0.push(cv));
            assert(mat(m@) =~= pm.take(last as int) + tl.take(c - root));
        }
    }
    proof {
        assert(tl.take(last + 1 - root) =~= tl);
    }
    m
}

/// Compare two parent matrices (see `diff_pm`); `None` where the length
/// difference would be negative.
fn compare_parent_matrices(a: &Vec<Vec<i32>>, b: &Vec<Vec<i32>>) -> (r: Option<i32>)
    requires
        forall|c: int, k: int| 0 <= c < a@.len() && 0 <= k < a@[c]@.len() ==> -1 <= #[trigger] a@[c]@[k],
        forall|c: int, k: int| 0 <= c < b@.len() && 0 <= k < b@[c]@.len() ==> -1 <= #[trigger] b@[c]@[k],
    ensures
        match diff_pm(mat(a@), mat(b@)) {
            None => r is None,
            Some(d) => r == Some(d as i32) && i32::MIN <= d <= i32::MAX,
        },
{
    let ghost am = mat(a@);
    let ghost bm = mat(b@);
    let max_cols = if a.len() > b.len() {
        a.len()
    } else {
        b.len()
    };
    let mut c: usize = 0;
    while c < max_cols
        invariant
            c <= max_cols,
            max_cols == if a@.len() > b@.len() { a@.len() } else { b@.len() },
            am == mat(a@),
            bm == mat(b@),
            forall|cc: int, k: int| 0 <= cc < a@.len() && 0 <= k < a@[cc]@.len() ==> -1 <= #[trigger] a@[cc]@[k],
            forall|cc: int, k: int| 0 <= cc < b@.len() && 0 <= k < b@[cc]@.len() ==> -1 <= #[trigger] b@[cc]@[k],
            diff_pm(am, bm) == diff_cols(am, Seq::empty(), bm, c as int),
        decreases max_cols - c,
    {
        let la = if c < a.len() {
            a[c].len()
        } else {
            0
        };
        let lb = if c < b.len() {
            b[c].len()
        } else {
            0
        };
        let ghost ca = if c < am.len() { am[c as int] } else { Seq::<int>::empty() };
        let ghost cb = if c < bm.len() { bm[c as int] } else { Seq::<int>::empty() };
        let max_r = if la > lb {
            la
        } else {
            lb
        };
        let mut r: usize = 0;
        while r < max_r
            invariant
                r <= max_r,
                c < max_cols,
                max_r == if la > lb { la } else { lb },
                la == ca.len(),
                lb == cb.len(),
                am == mat(a@),
                bm == mat(b@),
                ca == if c < am.len() { am[c as int] } else { Seq::<int>::empty() },
                cb == if c < bm.len() { bm[c as int] } else { Seq::<int>::empty() },
                forall|cc: int, k: int| 0 <= cc < a@.len() && 0 <= k < a@[cc]@.len() ==> -1 <= #[trigger] a@[cc]@[k],
                forall|cc: int, k: int| 0 <= cc < b@.len() && 0 <= k < b@[cc]@.len() ==> -1 <= #[trigger] b@[cc]@[k],
                diff_pm(am, bm) == diff_cols(am, Seq::empty(), bm, c as int),
                diff_rows(ca, cb, 0) == diff_rows(ca, cb, r as int),
            decreases max_r - r,
        {
            let pa: i32 = if r < la {
                proof {
                    assert(ca[r as int] == a@[c as int]@[r as int] as int);
                }
                a[c][r]
            } else {
                -1
            };
            let pb: i32 = if r < lb {
                proof {
                    assert(cb[r as int] == b@[c as int]@[r as int] as int);
                }
                b[c][r]
            } else {
                -1
            };
            if pa != pb {
                if pa == -1 {
                    return Some(-1);
                }
                if pb == -1 {
                    return Some(1);
                }
                return Some(pa - pb);
            }
            r = r + 1;
        }
        c = c + 1;
    }
    if a.len() >= b.len() {
        Some((a.len() - b.len()) as i32)
    } else {
        None
    }
}

/// The context the root choice works in.
pub open spec fn root_ctx(p: Seq<Seq<int>>, pv: Seq<Vec<i32>>, tab: Seq<Vec<bool>>, lnz: int, last: int) -> bool {
    &&& p == mat(pv)
    &&& small_parent(p)
    &&& last + 1 == p.len()
    &&& 0 <= lnz < p[0].len()
    &&& tab.len() == p[0].len()
    &&& forall|rr: int, x: int|
        0 <= rr < tab.len() && 0 <= x < p.len() ==> #[trigger] tab[rr]@[x] == allow(p, last, rr, x)
    &&& forall|rr: int| 0 <= rr < tab.len() ==> (#[trigger] tab[rr])@.len() == p.len()
}

fn is_cand(p: &Vec<Vec<i32>>, tab: &Vec<Vec<bool>>, lnz: usize, last: usize, orig: usize, g_orig: &Vec<i32>, c: usize) -> (b: bool)
    requires
        root_ctx(mat(p@), p@, tab@, lnz as int, last as int),
        orig < last,
        c <= last,
        ints(g_orig@) == gen_col(mat(p@), orig as int, lnz as int, last as int),
        forall|r: int| 0 <= r < g_orig@.len() ==> -1 <= #[trigger] g_orig@[r] < last,
    ensures
        b == cand(mat(p@), lnz as int, last as int, orig as int, c as int),
{
    let ghost pm = mat(p@);
    if c == orig {
        return true;
    }
    if c == last || !tab[lnz][c] {
        return false;
    }
    let gc = gen_column(p, c, lnz, last);
    let rows = p[0].len();
    proof {
        assert(pm[0].len() == rows);
        assert(pm[last as int].len() == rows);
        assert(ints(g_orig@).len() == g_orig@.len());
        assert(ints(gc@).len() == gc@.len());
    }
    let mut r: usize = 0;
    while r < rows
        invariant
            r <= rows == pm[0].len() == pm[last as int].len(),
            root_ctx(pm, p@, tab@, lnz as int, last as int),
            pm == mat(p@),
            c < last,
            ints(g_orig@) == gen_col(pm, orig as int, lnz as int, last as int),
            ints(gc@) == gen_col(pm, c as int, lnz as int, last as int),
            g_orig@.len() == rows,
            gc@.len() == rows,
            forall|k: int| 0 <= k < g_orig@.len() ==> -1 <= #[trigger] g_orig@[k] < last,
            forall|k: int|
                0 <= k < r ==> {
                    let a = #[trigger] gen_col(pm, c as int, lnz as int, last as int)[k];
                    let bb = gen_col(pm, orig as int, lnz as int, last as int)[k];
                    a == -1 || a == bb || anc_from(pm, k, bb, a)
                },
        decreases rows - r,
    {
        let a = gc[r];
        let bb = g_orig[r];
        proof {
            assert(gen_col(pm, c as int, lnz as int, last as int)[r as int] == a as int);
            assert(gen_col(pm, orig as int, lnz as int, last as int)[r as int] == bb as int);
        }
        if !(a == -1 || a == bb) {
            if !is_anc(p, r, bb, a) {
                return false;
            }
        }
        r = r + 1;
    }
    true
}

fn is_pending(
    p: &Vec<Vec<i32>>,
    tab: &Vec<Vec<bool>>,
    lnz: usize,
    last: usize,
    orig: usize,
    oer: usize,
    isms: bool,
    g_orig: &Vec<i32>,
    c: usize,
) -> (b: bool)
    requires
        root_ctx(mat(p@), p@, tab@, lnz as int, last as int),
        orig < last,
        oer < mat(p@)[0].len(),
        c <= last,
        ints(g_orig@) == gen_col(mat(p@), orig as int, lnz as int, last as int),
        forall|r: int| 0 <= r < g_orig@.len() ==> -1 <= #[trigger] g_orig@[r] < last,
    ensures
        b == pending(mat(p@), lnz as int, last as int, orig as int, oer as int, isms, c as int),
{
    let ghost pm = mat(p@);
    if !is_cand(p, tab, lnz, last, orig, g_orig, c) {
        return false;
    }
    if isms {
        is_anc(p, lnz, last as i32, c as i32)
    } else {
        proof {
            assert(pm[orig as int].len() == pm[0].len());
            assert(pm[c as int].len() == pm[0].len());
            assert(pm[orig as int][oer as int] == p@[orig as int]@[oer as int] as int);
            assert(pm[c as int][oer as int] == p@[c as int]@[oer as int] as int);
        }
        let gp = p[orig][oer];
        if gp == -1 {
            p[c][oer] == -1
        } else {
            p[c][oer] == gp
        }
    }
}

fn first_pending_exec(
    p: &Vec<Vec<i32>>,
    tab: &Vec<Vec<bool>>,
    lnz: usize,
    last: usize,
    orig: usize,
    oer: usize,
    isms: bool,
    g_orig: &Vec<i32>,
    from: usize,
) -> (r: i32)
    requires
        root_ctx(mat(p@), p@, tab@, lnz as int, last as int),
        orig < last,
        oer < mat(p@)[0].len(),
        ints(g_orig@) == gen_col(mat(p@), orig as int, lnz as int, last as int),
        forall|r: int| 0 <= r < g_orig@.len() ==> -1 <= #[trigger] g_orig@[r] < last,
    ensures
        r == first_pending(mat(p@), lnz as int, last as int, orig as int, oer as int, isms, from as int),
{
    let ghost pm = mat(p@);
    let mut c = from;
    while c <= last
        invariant
            from <= c || c == from,
            c <= last + 1 || c == from,
            root_ctx(pm, p@, tab@, lnz as int, last as int),
            pm == mat(p@),
            orig < last,
            oer < pm[0].len(),
            ints(g_orig@) == gen_col(pm, orig as int, lnz as int, last as int),
            forall|r: int| 0 <= r < g_orig@.len() ==> -1 <= #[trigger] g_orig@[r] < last,
            first_pending(pm, lnz as int, last as int, orig as int, oer as int, isms, from as int)
                == first_pending(pm, lnz as int, last as int, orig as int, oer as int, isms, c as int),
        decreases last + 1 - c,
    {
        if is_pending(p, tab, lnz, last, orig, oer, isms, g_orig, c) {
            return c as i32;
        }
        c = c + 1;
    }
    -1
}

/// The search for a smaller candidate root (see `small_root`).
fn small_root_exec(
    p: &Vec<Vec<i32>>,
    tab: &Vec<Vec<bool>>,
    lnz: usize,
    last: usize,
    orig: usize,
    g_orig: &Vec<i32>,
) -> (r: Option<i32>)
    requires
        root_ctx(mat(p@), p@, tab@, lnz as int, last as int),
        orig < last,
        ints(g_orig@) == gen_col(mat(p@), orig as int, lnz as int, last as int),
        forall|r: int| 0 <= r < g_orig@.len() ==> -1 <= #[trigger] g_orig@[r] < last,
    ensures
        match small_root(mat(p@), lnz as int, last as int, orig as int, last as int) {
            None => r is None,
            Some(x) => r == Some(x as i32) && -1 <= x <= last,
        },
{
    let ghost pm = mat(p@);
    let orig_trial = trial_expand(p, tab, orig, lnz, last);
    let mut c: usize = last + 1;
    while c > 0
        invariant
            c <= last + 1,
            root_ctx(pm, p@, tab@, lnz as int, last as int),
            pm == mat(p@),
            orig < last,
            ints(g_orig@) == gen_col(pm, orig as int, lnz as int, last as int),
            forall|r: int| 0 <= r < g_orig@.len() ==> -1 <= #[trigger] g_orig@[r] < last,
            mat(orig_trial@) == trial(pm, orig as int, lnz as int, last as int),
            forall|cc: int, k: int| 0 <= cc < orig_trial@.len() && 0 <= k < orig_trial@[cc]@.len() ==> -1 <= #[trigger] orig_trial@[cc]@[k],
            small_root(pm, lnz as int, last as int, orig as int, last as int)
                == small_root(pm, lnz as int, last as int, orig as int, c - 1),
        decreases c,
    {
        let cr = c - 1;
        if cr != orig && is_cand(p, tab, lnz, last, orig, g_orig, cr) {
            let tr = trial_expand(p, tab, cr, lnz, last);
            match compare_parent_matrices(&tr, &orig_trial) {
                None => {
                    return None;
                },
                Some(d) => {
                    if d < 0 {
                        return Some(cr as i32);
                    }
                },
            }
        }
        c = c - 1;
    }
    Some(-1)
}

/// The bad root chosen by the trial expansions (see `choose_root`).
fn choose_root_exec(
    p: &Vec<Vec<i32>>,
    tab: &Vec<Vec<bool>>,
    lnz: usize,
    last: usize,
    orig: usize,
    oer: usize,
    isms: bool,
) -> (r: Option<i32>)
    requires
        root_ctx(mat(p@), p@, tab@, lnz as int, last as int),
        orig < last,
        oer < mat(p@)[0].len(),
    ensures
        match choose_root(mat(p@), lnz as int, last as int, orig as int, oer as int, isms) {
            None => r is None,
            Some(x) => r == Some(x as i32) && 0 <= x <= last,
        },
{
    let ghost pm = mat(p@);
    let g_orig = gen_column(p, orig, lnz, last);
    let sr = match small_root_exec(p, tab, lnz, last, orig, &g_orig) {
        None => {
            return None;
        },
        Some(x) => x,
    };
    proof {
        lemma_first_pending_range(pm, lnz as int, last as int, orig as int, oer as int, isms, 0);
        lemma_first_pending_range(pm, lnz as int, last as int, orig as int, oer as int, isms, sr + 1);
    }
    let b = if sr != -1 {
        let mr = first_pending_exec(p, tab, lnz, last, orig, oer, isms, &g_orig, (sr + 1) as usize);
        if mr != -1 {
            mr
        } else {
            first_pending_exec(p, tab, lnz, last, orig, oer, isms, &g_orig, 0)
        }
    } else {
        first_pending_exec(p, tab, lnz, last, orig, oer, isms, &g_orig, 0)
    };
    if b == -1 {
        Some(orig as i32)
    } else {
        Some(b)
    }
}

proof fn lemma_first_pending_range(p: Seq<Seq<int>>, lnz: int, last: int, orig: int, oer: int, isms: bool, c: int)
    ensures
        first_pending(p, lnz, last, orig, oer, isms, c) == -1 || (c <= first_pending(p, lnz, last, orig, oer, isms, c) < p.len() && 0 <= first_pending(p, lnz, last, orig, oer, isms, c)),
    decreases p.len() - c,
{
    if !(c >= p.len() || c < 0) && !pending(p, lnz, last, orig, oer, isms, c) {
        lemma_first_pending_range(p, lnz, last, orig, oer, isms, c + 1);
    }
}

proof fn lemma_copy_col_none(p: Seq<Seq<int>>, b: int, lnz: int, last: int, t: int, c: int, r: nat, r2: nat)
    requires
        copy_col(p, b, lnz, last, t, c, r) is None,
        r <= r2,
    ensures
        copy_col(p, b, lnz, last, t, c, r2) is None,
    decreases r2,
{
    if r < r2 {
        lemma_copy_col_none(p, b, lnz, last, t, c, r, (r2 - 1) as nat);
    }
}

proof fn lemma_copy_block_none(p: Seq<Seq<int>>, b: int, lnz: int, last: int, t: int, k: nat, k2: nat)
    requires
        copy_block(p, b, lnz, last, t, k) is None,
        k <= k2,
    ensures
        copy_block(p, b, lnz, last, t, k2) is None,
    decreases k2,
{
    if k < k2 {
        lemma_copy_block_none(p, b, lnz, last, t, k, (k2 - 1) as nat);
    }
}

proof fn lemma_copies_none(p: Seq<Seq<int>>, b: int, lnz: int, last: int, t: nat, t2: nat)
    requires
        copies(p, b, lnz, last, t) is None,
        t <= t2,
    ensures
        copies(p, b, lnz, last, t2) is None,
    decreases t2,
{
    if t < t2 {
        lemma_copies_none(p, b, lnz, last, t, (t2 - 1) as nat);
    }
}

fn copy_entry_exec(
    p: &Vec<Vec<i32>>,
    tab: &Vec<Vec<bool>>,
    g: &Vec<i32>,
    b: usize,
    lnz: usize,
    last: usize,
    t: i32,
    c: usize,
    r: usize,
) -> (e: Option<i32>)
    requires
        root_ctx(mat(p@), p@, tab@, lnz as int, last as int),
        b <= c < last,
        r < mat(p@)[0].len(),
        t >= 1,
        ints(g@) == gen_col(mat(p@), b as int, lnz as int, last as int),
    ensures
        match copy_entry(mat(p@), b as int, lnz as int, last as int, t as int, c as int, r as int) {
            None => e is None,
            Some(x) => e == Some(x as i32),
        },
{
    let ghost pm = mat(p@);
    let w: i64 = (last - b) as i64;
    proof {
        assert(pm[c as int].len() == pm[0].len());
        assert(pm[last as int].len() == pm[0].len());
        assert(pm[c as int][r as int] == p@[c as int]@[r as int] as int);
        assert(ints(g@).len() == g@.len());
    }
    if use_gen_exec(p, tab, b, lnz, last, c, r) {
        let gv = g[r];
        if gv as i64 >= b as i64 {
            assert(0 <= (t as i64 - 1) * w <= 0x7fff_ffff * 0x4000_0000) by (nonlinear_arith)
                requires
                    1 <= t <= 0x7fff_ffff,
                    0 <= w < 0x4000_0000,
            ;
            let prod: i64 = (t as i64 - 1) * w;
            if prod < i32::MIN as i64 || prod > i32::MAX as i64 {
                return None;
            }
            let v: i64 = gv as i64 + prod;
            if v < i32::MIN as i64 || v > i32::MAX as i64 {
                return None;
            }
            Some(v as i32)
        } else {
            Some(gv)
        }
    } else {
        let pv = p[c][r];
        if pv as i64 >= b as i64 {
            assert(0 <= (t as i64) * w <= 0x7fff_ffff * 0x4000_0000) by (nonlinear_arith)
                requires
                    1 <= t <= 0x7fff_ffff,
                    0 <= w < 0x4000_0000,
            ;
            let prod: i64 = t as i64 * w;
            if prod < i32::MIN as i64 || prod > i32::MAX as i64 {
                return None;
            }
            let v: i64 = pv as i64 + prod;
            if v < i32::MIN as i64 || v > i32::MAX as i64 {
                return None;
            }
            Some(v as i32)
        } else {
            Some(pv)
        }
    }
}

/// All but the last column, then `times` copies of the bad part.
fn build_copies(p: &Vec<Vec<i32>>, tab: &Vec<Vec<bool>>, b: usize, lnz: usize, last: usize, times: i32) -> (m: Option<Vec<Vec<i32>>>)
    requires
        root_ctx(mat(p@), p@, tab@, lnz as int, last as int),
        b < last,
    ensures
        match copies(mat(p@), b as int, lnz as int, last as int, if times < 0 { 0 } else { times as nat }) {
            None => m is None,
            Some(v) => m is Some && mat(m->0@) == v,
        },
{
    let ghost pm = mat(p@);
    let g = gen_column(p, b, lnz, last);
    let rows = p[0].len();
    proof {
        assert(pm[0].len() == rows);
    }
    let mut out: Vec<Vec<i32>> = Vec::new();
    let mut c: usize = 0;
    while c < last
        invariant
            c <= last,
            last + 1 == p@.len(),
            pm == mat(p@),
            mat(out@) == pm.take(c as int),
        decreases last - c,
    {
        let col = p[c].clone();
        let ghost m0 = mat(out@);
        out.push(col);
        c = c + 1;
        proof {
            assert(mat(out@) =~= m0.push(pm[c - 1]));
            assert(mat(out@) =~= pm.take(c as int));
        }
    }
    let ghost tn: nat = if times < 0 { 0 } else { times as nat };
    let mut t: i64 = 1;
    while t <= times as i64
        invariant
            1 <= t,
            times < 0 ==> t == 1,
            times >= 0 ==> t <= times + 1,
            tn == if times < 0 { 0 } else { times as nat },
            root_ctx(pm, p@, tab@, lnz as int, last as int),
            pm == mat(p@),
            b < last,
            rows == pm[0].len(),
            ints(g@) == gen_col(pm, b as int, lnz as int, last as int),
            copies(pm, b as int, lnz as int, last as int, (t - 1) as nat) == Some(mat(out@)),
        decreases times + 1 - t,
    {
        let ghost before = mat(out@);
        let mut c: usize = b;
        let ghost mut blk: Seq<Seq<int>> = Seq::empty();
        while c < last
            invariant
                b <= c <= last,
                1 <= t <= times,
                root_ctx(pm, p@, tab@, lnz as int, last as int),
                pm == mat(p@),
                rows == pm[0].len(),
                tn == if times < 0 { 0 } else { times as nat },
                ints(g@) == gen_col(pm, b as int, lnz as int, last as int),
                copies(pm, b as int, lnz as int, last as int, (t - 1) as nat) == Some(before),
                copy_block(pm, b as int, lnz as int, last as int, t as int, (c - b) as nat) == Some(blk),
                mat(out@) == before + blk,
            decreases last - c,
        {
            let mut col: Vec<i32> = Vec::new();
            let mut r: usize = 0;
            proof {
                assert(pm[c as int].len() == rows);
            }
            while r < rows
                invariant
                    r <= rows == pm[0].len() == pm[c as int].len(),
                    b <= c < last,
                    1 <= t <= times,
                    root_ctx(pm, p@, tab@, lnz as int, last as int),
                    pm == mat(p@),
                    tn == if times < 0 { 0 } else { times as nat },
                    ints(g@) == gen_col(pm, b as int, lnz as int, last as int),
                    copies(pm, b as int, lnz as int, last as int, (t - 1) as nat) == Some(before),
                    copy_block(pm, b as int, lnz as int, last as int, t as int, (c - b) as nat) == Some(blk),
                    copy_col(pm, b as int, lnz as int, last as int, t as int, c as int, r as nat) == Some(ints(col@)),
                decreases rows - r,
            {
                match copy_entry_exec(p, tab, &g, b, lnz, last, t as i32, c, r) {
                    None => {
                        proof {
                            assert(copy_col(pm, b as int, lnz as int, last as int, t as int, c as int, (r + 1) as nat) is None);
                            lemma_copy_col_none(pm, b as int, lnz as int, last as int, t as int, c as int, (r + 1) as nat, rows as nat);
                            assert(copy_block(pm, b as int, lnz as int, last as int, t as int, (c - b + 1) as nat) is None);
                            lemma_copy_block_none(pm, b as int, lnz as int, last as int, t as int, (c - b + 1) as nat, (last - b) as nat);
                            assert(copies(pm, b as int, lnz as int, last as int, t as nat) is None);
                            lemma_copies_none(pm, b as int, lnz as int, last as int, t as nat, tn);
                        }
                        return None;
                    },
                    Some(x) => {
                        let ghost c0 = ints(col@);
                        col.push(x);
                        proof {
                            assert(ints(col@) =~= c0.push(x as int));
                        }
                    },
                }
                r = r + 1;
            }
            let ghost m0 = mat(out@);
            let ghost cv = ints(col@);
            out.push(col);
            proof {
                blk = blk.push(cv);
                assert(mat(out@) =~= m0.push(cv));
                assert(mat(out@) =~= before + blk);
            }
            c = c + 1;
        }
        t = t + 1;
    }
    Some(out)
}

impl IHSS {
    /// Expand the hydra `times` times: find the last row in which the last
    /// column has a parent, choose the bad root (by trial expansions when
    /// that row is at least `k - 1`; `pending_mode` "ISMS" or otherwise
    /// "HMS"), drop the last column and append `times` copies of the bad
    /// part. Returns the result and the bad root (-1 for a successor).
    pub fn expand(&self, times: i32, k: i32, pending_mode: &str) -> (r: (IHSS, i32))
        requires
            self.wf(),
            self@.len() < 0x4000_0000,
            k > i32::MIN,
            expand_spec(self@, times as int, k as int, pending_mode@ == "ISMS"@) is Some,
        ensures
            r.0@ == (expand_spec(self@, times as int, k as int, pending_mode@ == "ISMS"@)->0).0,
            r.1 as int == (expand_spec(self@, times as int, k as int, pending_mode@ == "ISMS"@)->0).1,
            r.0@.len() <= i32::MAX ==> r.0.wf(),
    {
        let isms = lit(pending_mode) == lit("ISMS");
        let res = self.expand_core(times, k, isms);
        proof {
            self.lemma_expansion_wf(times as int, k as int, isms);
        }
        match res {
            Some(v) => v,
            None => (IHSS { parent: Vec::new() }, -1),
        }
    }

    /// An expansion of a well-formed hydra with at most `i32::MAX` columns
    /// is well formed.
    proof fn lemma_expansion_wf(&self, times: int, k: int, isms: bool)
        requires
            self.wf(),
            self@.len() < 0x4000_0000,
        ensures
            match expand_spec(self@, times, k, isms) {
                Some(x) => x.0.len() <= i32::MAX ==> wf_parent(x.0),
                None => true,
            },
    {
        if expand_spec(self@, times, k, isms) is Some && (expand_spec(self@, times, k, isms)->0).0.len() <= i32::MAX {
            if self@.len() > 0 {
                lemma_expand_wf(self@, times, k, isms);
            } else {
                assert((expand_spec(self@, times, k, isms)->0).0.len() == 0);
            }
        }
    }

    /// The expansion, or `None` where the parent matrix is not well formed,
    /// has `0x4000_0000` columns or more, `k` is `i32::MIN`, or the
    /// computation fails (see `expand_spec`).
    pub fn expand_checked(&self, times: i32, k: i32, isms: bool) -> (r: Option<(IHSS, i32)>)
        ensures
            !(self.wf() && self@.len() < 0x4000_0000 && k > i32::MIN) ==> r is None,
            self.wf() && self@.len() < 0x4000_0000 && k > i32::MIN ==> match expand_spec(
                self@,
                times as int,
                k as int,
                isms,
            ) {
                None => r is None,
                Some(x) => match r {
                    Some(v) => v.0@ == x.0 && v.1 as int == x.1,
                    None => false,
                },
            },
            match r {
                Some(v) => v.0@.len() <= i32::MAX ==> v.0.wf(),
                None => true,
            },
    {
        if k == i32::MIN || self.parent.len() >= 0x4000_0000 || !parent_wf(&self.parent) {
            return None;
        }
        let res = self.expand_core(times, k, isms);
        proof {
            self.lemma_expansion_wf(times as int, k as int, isms);
        }
        res
    }

    /// Whether the parent matrix is well formed.
    pub fn is_wf(&self) -> (r: bool)
        ensures
            r == self.wf(),
    {
        parent_wf(&self.parent)
    }

    fn expand_core(&self, times: i32, k: i32, isms: bool) -> (r: Option<(IHSS, i32)>)
        requires
            self.wf(),
            self@.len() < 0x4000_0000,
            k > i32::MIN,
        ensures
            match expand_spec(self@, times as int, k as int, isms) {
                None => r is None,
                Some(x) => match r {
                    Some(v) => v.0@ == x.0 && v.1 as int == x.1,
                    None => false,
                },
            },
    {
        let ghost pm = self@;
        let p = &self.parent;
        let cols = p.len();
        if cols == 0 {
            let r = IHSS { parent: Vec::new() };
            proof {
                assert(r@ =~= Seq::<Seq<int>>::empty());
            }
            return Some((r, -1));
        }
        let rows = p[0].len();
        let last = cols - 1;
        proof {
            assert(pm[0].len() == rows);
            assert(pm[last as int].len() == rows);
        }
        let mut lr: usize = rows;
        while lr > 0 && p[last][lr - 1] == -1
            invariant
                lr <= rows,
                rows == pm[last as int].len(),
                last + 1 == pm.len(),
                pm == mat(p@),
                lnz_from(pm[last as int], rows - 1) == lnz_from(pm[last as int], lr - 1),
            decreases lr,
        {
            proof {
                assert(pm[last as int][lr - 1] == p@[last as int]@[lr - 1] as int);
            }
            lr = lr - 1;
        }
        if lr > 0 {
            proof {
                assert(pm[last as int][lr - 1] == p@[last as int]@[lr - 1] as int);
            }
        }
        if lr == 0 {
            let mut out: Vec<Vec<i32>> = Vec::new();
            let mut c: usize = 0;
            while c < last
                invariant
                    c <= last,
                    last + 1 == p@.len(),
                    pm == mat(p@),
                    mat(out@) == pm.take(c as int),
                decreases last - c,
            {
                let col = p[c].clone();
                let ghost m0 = mat(out@);
                out.push(col);
                c = c + 1;
                proof {
                    assert(mat(out@) =~= m0.push(pm[c - 1]));
                    assert(mat(out@) =~= pm.take(c as int));
                }
            }
            return Some((IHSS { parent: out }, -1));
        }
        let lnz = lr - 1;
        let orig_i = p[last][lnz];
        proof {
            assert(0 <= orig_i < last);
        }
        let orig = orig_i as usize;
        proof {
            assert(pm[orig as int].len() == rows);
        }
        let mut orr: usize = rows;
        while orr > 0 && p[orig][orr - 1] == -1
            invariant
                orr <= rows,
                rows == pm[orig as int].len(),
                orig < pm.len(),
                pm == mat(p@),
                lnz_from(pm[orig as int], rows - 1) == lnz_from(pm[orig as int], orr - 1),
            decreases orr,
        {
            proof {
                assert(pm[orig as int][orr - 1] == p@[orig as int]@[orr - 1] as int);
            }
            orr = orr - 1;
        }
        if orr > 0 {
            proof {
                assert(pm[orig as int][orr - 1] == p@[orig as int]@[orr - 1] as int);
            }
        }
        let oer: usize = if orr == 0 || orr - 1 < lnz {
            lnz
        } else {
            orr - 1
        };
        let tab = allow_table(p, last);
        let use_trial = k <= 1 || ((k - 1) as usize) <= lnz;
        let b: usize = if use_trial {
            match choose_root_exec(p, &tab, lnz, last, orig, oer, isms) {
                None => {
                    return None;
                },
                Some(x) => x as usize,
            }
        } else {
            orig
        };
        if b + 1 <= last {
            match build_copies(p, &tab, b, lnz, last, times) {
                None => None,
                Some(m) => Some((IHSS { parent: m }, b as i32)),
            }
        } else {
            let mut out: Vec<Vec<i32>> = Vec::new();
            let mut c: usize = 0;
            while c < last
                invariant
                    c <= last,
                    last + 1 == p@.len(),
                    pm == mat(p@),
                    mat(out@) == pm.take(c as int),
                decreases last - c,
            {
                let col = p[c].clone();
                let ghost m0 = mat(out@);
                out.push(col);
                c = c + 1;
                proof {
                    assert(mat(out@) =~= m0.push(pm[c - 1]));
                    assert(mat(out@) =~= pm.take(c as int));
                }
            }
            Some((IHSS { parent: out }, b as i32))
        }
    }
}

proof fn lemma_gen_range(p: Seq<Seq<int>>, ci: int, lnz: int, last: int, r: int)
    requires
        wf_parent(p),
        0 <= ci < last,
        last + 1 == p.len(),
        0 <= lnz < p[0].len(),
        0 <= r < p[0].len(),
    ensures
        -1 <= gen_col(p, ci, lnz, last)[r] < last,
{
    assert(p[last].len() == p[0].len());
    assert(p[ci].len() == p[0].len());
    if r == lnz && p[last][lnz] != -1 {
        let q = p[last][lnz];
        assert(p[q].len() == p[0].len());
    }
}

proof fn lemma_copy_col_wf(p: Seq<Seq<int>>, b: int, lnz: int, last: int, t: int, c: int, r: nat)
    requires
        wf_parent(p),
        0 <= b <= c < last,
        last + 1 == p.len(),
        0 <= lnz < p[0].len(),
        r <= p[0].len(),
        t >= 1,
        copy_col(p, b, lnz, last, t, c, r) is Some,
    ensures
        ({
            let v = copy_col(p, b, lnz, last, t, c, r)->0;
            &&& v.len() == r
            &&& forall|k: int| 0 <= k < r ==> -1 <= #[trigger] v[k] < last + (t - 1) * (last - b) + (c - b)
        }),
    decreases r,
{
    if r > 0 {
        lemma_copy_col_wf(p, b, lnz, last, t, c, (r - 1) as nat);
        let rr = r - 1;
        let w = last - b;
        assert((t - 1) * w >= 0 && t * w == (t - 1) * w + w) by (nonlinear_arith)
            requires
                t >= 1,
                w >= 0,
        ;
        assert(p[c].len() == p[0].len());
        let e = copy_entry(p, b, lnz, last, t, c, rr)->0;
        if use_gen(p, b, lnz, last, c, rr) {
            lemma_gen_range(p, b, lnz, last, rr);
        }
        assert(-1 <= e < last + (t - 1) * w + (c - b));
    }
}

proof fn lemma_copy_block_wf(p: Seq<Seq<int>>, b: int, lnz: int, last: int, t: int, k: nat)
    requires
        wf_parent(p),
        0 <= b < last,
        b + k <= last,
        last + 1 == p.len(),
        0 <= lnz < p[0].len(),
        t >= 1,
        copy_block(p, b, lnz, last, t, k) is Some,
    ensures
        ({
            let v = copy_block(p, b, lnz, last, t, k)->0;
            &&& v.len() == k
            &&& forall|j: int| 0 <= j < k ==> (#[trigger] v[j]).len() == p[0].len()
            &&& forall|j: int, q: int| 0 <= j < k && 0 <= q < v[j].len() ==> -1 <= #[trigger] v[j][q] < last + (t - 1) * (last - b) + j
        }),
    decreases k,
{
    if k > 0 {
        lemma_copy_block_wf(p, b, lnz, last, t, (k - 1) as nat);
        let c = b + k - 1;
        assert(p[c].len() == p[0].len());
        lemma_copy_col_wf(p, b, lnz, last, t, c, p[c].len());
    }
}

proof fn lemma_copies_wf(p: Seq<Seq<int>>, b: int, lnz: int, last: int, t: nat)
    requires
        wf_parent(p),
        0 <= b < last,
        last + 1 == p.len(),
        0 <= lnz < p[0].len(),
        copies(p, b, lnz, last, t) is Some,
    ensures
        ({
            let v = copies(p, b, lnz, last, t)->0;
            &&& v.len() == last + t * (last - b)
            &&& forall|i: int| 0 <= i < v.len() ==> (#[trigger] v[i]).len() == p[0].len()
            &&& forall|i: int, q: int| 0 <= i < v.len() && 0 <= q < v[i].len() ==> -1 <= #[trigger] v[i][q] < i
        }),
    decreases t,
{
    let w = last - b;
    if t == 0 {
        let v = p.take(last);
        assert forall|i: int| 0 <= i < v.len() implies (#[trigger] v[i]).len() == p[0].len() by {
            assert(v[i] == p[i]);
        }
        assert forall|i: int, q: int| 0 <= i < v.len() && 0 <= q < v[i].len() implies -1 <= #[trigger] v[i][q] < i by {
            assert(v[i] == p[i]);
        }
    } else {
        lemma_copies_wf(p, b, lnz, last, (t - 1) as nat);
        let prev = copies(p, b, lnz, last, (t - 1) as nat)->0;
        lemma_copy_block_wf(p, b, lnz, last, t as int, w as nat);
        let blk = copy_block(p, b, lnz, last, t as int, w as nat)->0;
        let v = prev + blk;
        assert(t * w == (t - 1) * w + w) by (nonlinear_arith);
        assert forall|i: int| 0 <= i < v.len() implies (#[trigger] v[i]).len() == p[0].len() by {
            if i >= prev.len() {
                assert(v[i] == blk[i - prev.len()]);
            } else {
                assert(v[i] == prev[i]);
            }
        }
        assert forall|i: int, q: int| 0 <= i < v.len() && 0 <= q < v[i].len() implies -1 <= #[trigger] v[i][q] < i by {
            if i >= prev.len() {
                assert(v[i] == blk[i - prev.len()]);
                assert(-1 <= blk[i - prev.len()][q] < last + (t - 1) * w + (i - prev.len()));
            } else {
                assert(v[i] == prev[i]);
            }
        }
    }
}

proof fn lemma_copies_prefix(p: Seq<Seq<int>>, b: int, lnz: int, last: int, t: nat)
    requires
        0 <= last <= p.len(),
        copies(p, b, lnz, last, t) is Some,
    ensures
        copies(p, b, lnz, last, t)->0.len() >= last,
        copies(p, b, lnz, last, t)->0.take(last) == p.take(last),
    decreases t,
{
    if t == 0 {
        assert(p.take(last).take(last) =~= p.take(last));
    } else {
        lemma_copies_prefix(p, b, lnz, last, (t - 1) as nat);
        let prev = copies(p, b, lnz, last, (t - 1) as nat)->0;
        let blk = copy_block(p, b, lnz, last, t as int, (last - b) as nat)->0;
        assert((prev + blk).take(last) =~= prev.take(last));
    }
}

proof fn lemma_pending_root_range(
    p: Seq<Seq<int>>,
    lnz: int,
    last: int,
    orig: int,
    oer: int,
    isms: bool,
    c: int,
)
    requires
        0 <= orig < last,
        last + 1 == p.len(),
    ensures
        first_pending(p, lnz, last, orig, oer, isms, c) == -1 || 0 <= first_pending(
            p,
            lnz,
            last,
            orig,
            oer,
            isms,
            c,
        ) < last,
    decreases p.len() - c,
{
    if !(c >= p.len() || c < 0) && !pending(p, lnz, last, orig, oer, isms, c) {
        lemma_pending_root_range(p, lnz, last, orig, oer, isms, c + 1);
    }
}

proof fn lemma_lnz_none(col: Seq<int>, r: int)
    requires
        lnz_from(col, r) == -1,
    ensures
        forall|k: int| 0 <= k <= r ==> #[trigger] col[k] == -1,
    decreases r + 1,
{
    if r >= 0 {
        lemma_lnz_none(col, r - 1);
    }
}

/// In a limit (the last column has a parent in some row), the bad root is
/// one of the kept columns.
pub proof fn lemma_expand_root(p: Seq<Seq<int>>, times: int, k: int, isms: bool)
    requires
        wf_parent(p),
        p.len() > 0,
        expand_spec(p, times, k, isms) is Some,
        exists|r: int| 0 <= r < p[p.len() - 1].len() && #[trigger] p[p.len() - 1][r] != -1,
    ensures
        0 <= (expand_spec(p, times, k, isms)->0).1 < p.len() - 1,
{
    let last = p.len() - 1;
    let rows = p[0].len();
    assert(p[last].len() == rows);
    let lnz = lnz_from(p[last], rows - 1);
    lemma_lnz_range(p[last], rows - 1);
    if lnz == -1 {
        lemma_lnz_none(p[last], rows - 1);
        let r0 = choose|r: int| 0 <= r < p[last].len() && #[trigger] p[last][r] != -1;
        assert(p[last][r0] == -1);
    }
    let orig = p[last][lnz];
    assert(0 <= orig < last);
    let oer0 = lnz_from(p[orig], rows - 1);
    let oer = if oer0 == -1 || oer0 < lnz { lnz } else { oer0 };
    if lnz >= k - 1 {
        let sr = small_root(p, lnz, last, orig, p.len() - 1)->0;
        lemma_pending_root_range(p, lnz, last, orig, oer, isms, 0);
        if sr != -1 {
            lemma_pending_root_range(p, lnz, last, orig, oer, isms, sr + 1);
        }
    }
}

/// The shape of an expansion: it keeps all but the last column; a
/// successor (no parent in the last column) loses the last column and has
/// no bad root; with a bad root `b` among the kept columns, `times` copies
/// of the `last - b` columns from `b` on are appended.
pub proof fn lemma_expand_shape(p: Seq<Seq<int>>, times: int, k: int, isms: bool)
    requires
        wf_parent(p),
        p.len() > 0,
        expand_spec(p, times, k, isms) is Some,
    ensures
        ({
            let x = expand_spec(p, times, k, isms)->0;
            let last = p.len() - 1;
            &&& x.0.len() >= last
            &&& x.0.take(last) == p.take(last)
            &&& (forall|r: int| 0 <= r < p[last].len() ==> #[trigger] p[last][r] == -1) ==> x.0 == p.take(
                last,
            ) && x.1 == -1
            &&& 0 <= x.1 < last ==> x.0.len() == last + (if times < 0 { 0 } else { times }) * (last - x.1)
        }),
{
    let x = expand_spec(p, times, k, isms)->0;
    let last = p.len() - 1;
    let rows = p[0].len();
    assert(p[last].len() == rows);
    let lnz = lnz_from(p[last], rows - 1);
    lemma_lnz_range(p[last], rows - 1);
    if lnz == -1 {
        assert(p.take(last).take(last) =~= p.take(last));
    } else {
        let orig = p[last][lnz];
        let oer0 = lnz_from(p[orig], rows - 1);
        let oer = if oer0 == -1 || oer0 < lnz { lnz } else { oer0 };
        let broot = if lnz >= k - 1 {
            choose_root(p, lnz, last, orig, oer, isms)
        } else {
            Some(orig)
        };
        let b = broot->0;
        let tn: nat = if times < 0 { 0 } else { times as nat };
        if b <= last - 1 {
            lemma_copies_prefix(p, b, lnz, last, tn);
            if 0 <= b {
                lemma_copies_wf(p, b, lnz, last, tn);
            }
        } else {
            assert(p.take(last).take(last) =~= p.take(last));
        }
        assert(p[last][lnz] != -1);
    }
}

/// An expansion of a well-formed hydra is well formed, when it has at
/// most `i32::MAX` columns.
pub proof fn lemma_expand_wf(p: Seq<Seq<int>>, times: int, k: int, isms: bool)
    requires
        small_parent(p),
        expand_spec(p, times, k, isms) is Some,
        (expand_spec(p, times, k, isms)->0).0.len() <= i32::MAX,
    ensures
        wf_parent((expand_spec(p, times, k, isms)->0).0),
{
    let cols = p.len();
    let rows = p[0].len();
    let last = cols - 1;
    assert(p[last].len() == rows);
    let m = (expand_spec(p, times, k, isms)->0).0;
    let lnz = lnz_from(p[last], rows - 1);
    lemma_lnz_range(p[last], rows - 1);
    if lnz == -1 {
        assert forall|c: int| 0 <= c < m.len() implies (#[trigger] m[c]).len() == m[0].len() by {
            assert(m[c] == p[c]);
            assert(m[0] == p[0]);
        }
        assert forall|c: int, r: int| 0 <= c < m.len() && 0 <= r < m[c].len() implies -1 <= #[trigger] m[c][r] < c by {
            assert(m[c] == p[c]);
        }
    } else {
        let orig = p[last][lnz];
        let oer0 = lnz_from(p[orig], rows - 1);
        let oer = if oer0 == -1 || oer0 < lnz { lnz } else { oer0 };
        let broot = if lnz >= k - 1 { choose_root(p, lnz, last, orig, oer, isms) } else { Some(orig) };
        let b = broot->0;
        if b <= last - 1 {
            lemma_choose_root_range(p, lnz, last, orig, oer, isms);
            lemma_copies_wf(p, b, lnz, last, if times < 0 { 0 } else { times as nat });
            if m.len() > 0 {
                assert(m[0].len() == rows);
            }
        } else {
            assert forall|c: int| 0 <= c < m.len() implies (#[trigger] m[c]).len() == m[0].len() by {
                assert(m[c] == p[c]);
                assert(m[0] == p[0]);
            }
            assert forall|c: int, r: int| 0 <= c < m.len() && 0 <= r < m[c].len() implies -1 <= #[trigger] m[c][r] < c by {
                assert(m[c] == p[c]);
            }
        }
    }
}

proof fn lemma_lnz_range(col: Seq<int>, r: int)
    requires
        r >= -1,
    ensures
        -1 <= lnz_from(col, r) <= r,
        lnz_from(col, r) >= 0 ==> col[lnz_from(col, r)] != -1,
    decreases r + 1,
{
    if r >= 0 && col[r] == -1 {
        lemma_lnz_range(col, r - 1);
    }
}

proof fn lemma_small_root_range(p: Seq<Seq<int>>, lnz: int, last: int, orig: int, c: int)
    requires
        c >= -1,
    ensures
        small_root(p, lnz, last, orig, c) is Some ==> -1 <= small_root(p, lnz, last, orig, c)->0 <= c,
    decreases c + 1,
{
    if c >= 0 {
        lemma_small_root_range(p, lnz, last, orig, c - 1);
    }
}

proof fn lemma_choose_root_range(p: Seq<Seq<int>>, lnz: int, last: int, orig: int, oer: int, isms: bool)
    requires
        0 <= orig < p.len(),
    ensures
        choose_root(p, lnz, last, orig, oer, isms) is Some ==> 0 <= choose_root(p, lnz, last, orig, oer, isms)->0 < p.len(),
{
    lemma_small_root_range(p, lnz, last, orig, p.len() - 1);
    lemma_first_pending_range(p, lnz, last, orig, oer, isms, 0);
    match small_root(p, lnz, last, orig, p.len() - 1) {
        None => {},
        Some(sr) => {
            lemma_first_pending_range(p, lnz, last, orig, oer, isms, sr + 1);
        },
    }
}

// ============================================================
// Standardness
// ============================================================

/// Entry `(i, j)` of a value matrix, 0 where there is none.
pub open spec fn entry_or_zero(v: Seq<Seq<int>>, i: int, j: int) -> int {
    if 0 <= i < v.len() && 0 <= j < v[i].len() {
        v[i][j]
    } else {
        0
    }
}

pub open spec fn ev_larger(s: Seq<Seq<int>>, ev: Seq<Seq<int>>, i: int, row: int) -> bool {
    exists|j: int| 0 <= j <= row && #[trigger] s[i][j] > entry_or_zero(ev, i, j)
}

pub open spec fn ev_smaller(s: Seq<Seq<int>>, ev: Seq<Seq<int>>, i: int, row: int) -> bool {
    exists|j: int| 0 <= j <= row && #[trigger] s[i][j] < entry_or_zero(ev, i, j)
}

/// From column `i` on: the first column where `s` and the expansion's
/// values differ, -1 where that column of `s` is only above, -2 where none.
pub open spec fn ev_scan(s: Seq<Seq<int>>, ev: Seq<Seq<int>>, row: int, i: int) -> int
    decreases s.len() - i,
{
    if i >= s.len() || i < 0 {
        -2
    } else if ev_larger(s, ev, i, row) && !ev_smaller(s, ev, i, row) {
        -1
    } else if ev_larger(s, ev, i, row) || ev_smaller(s, ev, i, row) {
        i
    } else {
        ev_scan(s, ev, row, i + 1)
    }
}

/// Rounds of the check: expand the hydra once, compare its values with
/// `s` from column `pp`, and continue from the first difference.
pub open spec fn ihss_loop(s: Seq<Seq<int>>, row: int, sa: Seq<Seq<int>>, pp: int, fuel: nat) -> Option<bool>
    decreases fuel,
{
    if fuel == 0 {
        None
    } else {
        match expand_spec(sa, 1, 2, false) {
            None => None,
            Some(e) => {
                let ev = to_value_spec(e.0);
                let np = ev_scan(s, ev, row, pp);
                if np == -2 {
                    Some(true)
                } else if np == -1 {
                    Some(false)
                } else if np >= ev.len() {
                    None
                } else {
                    ihss_loop(s, row, from_value_spec(ev.take(np + 1)), np, (fuel - 1) as nat)
                }
            },
        }
    }
}

/// The IHSS standardness check; `None` where the expansion fails or the
/// rounds run out.
pub open spec fn ihss_std_check(m: Seq<Seq<int>>, tri: bool) -> Option<bool> {
    if m.len() == 0 {
        Some(true)
    } else {
        let s = padded(m);
        let row = real_row(s, col_max(m) as int, 0, 0);
        let p = find_p(s, row, tri, 0, 0);
        if p == -1 {
            Some(false)
        } else if p < 0 {
            Some(true)
        } else {
            ihss_loop(s, row, from_value_spec(id_cols(p + 1, row, tri)), p, STD_ROUNDS as nat)
        }
    }
}

/// The identity columns `0..k` with `row + 1` entries.
fn identity_prefix(k: usize, row: usize, tri: bool) -> (v: Vec<Vec<i32>>)
    requires
        row < usize::MAX,
    ensures
        mat(v@) == id_cols(k as int, row as int, tri),
        v@.len() == k,
{
    let mut sa: Vec<Vec<i32>> = Vec::new();
    let mut i: usize = 0;
    while i < k
        invariant
            i <= k,
            row < usize::MAX,
            mat(sa@) == id_cols(i as int, row as int, tri),
            sa@.len() == i,
        decreases k - i,
    {
        let mut col: Vec<i32> = Vec::new();
        let mut j: usize = 0;
        while j <= row
            invariant
                j <= row + 1,
                row < usize::MAX,
                ints(col@) == Seq::new(j as nat, |t: int| id_val(i as int, t, tri)),
            decreases row + 1 - j,
        {
            let v = id_entry(i, j, tri);
            let ghost c0 = ints(col@);
            col.push(v);
            j = j + 1;
            proof {
                assert(ints(col@) =~= c0.push(v as int));
                assert(ints(col@) =~= Seq::new(j as nat, |t: int| id_val(i as int, t, tri)));
            }
        }
        let ghost a0 = mat(sa@);
        let ghost cv = ints(col@);
        sa.push(col);
        i = i + 1;
        proof {
            assert(mat(sa@) =~= a0.push(cv));
            assert(mat(sa@) =~= id_cols(i as int, row as int, tri));
        }
    }
    sa
}

/// Compare `s` with the expansion's values from `from` on (see `ev_scan`).
fn ev_scan_exec(s: &Vec<Vec<i32>>, ev: &Vec<Vec<i32>>, row: usize, from: usize) -> (r: Result<usize, bool>)
    requires
        row < usize::MAX,
        from <= s@.len(),
        forall|i: int| 0 <= i < s@.len() ==> row < (#[trigger] s@[i])@.len(),
    ensures
        match r {
            Ok(i) => ev_scan(mat(s@), mat(ev@), row as int, from as int) == i && from <= i < s@.len(),
            Err(b) => ev_scan(mat(s@), mat(ev@), row as int, from as int) == if b { -2int } else { -1int },
        },
{
    let ghost sm = mat(s@);
    let ghost em = mat(ev@);
    let ghost goal = ev_scan(sm, em, row as int, from as int);
    let mut i: usize = from;
    while i < s.len()
        invariant
            from <= i <= s@.len(),
            row < usize::MAX,
            sm == mat(s@),
            em == mat(ev@),
            forall|k: int| 0 <= k < s@.len() ==> row < (#[trigger] s@[k])@.len(),
            goal == ev_scan(mat(s@), mat(ev@), row as int, from as int),
            goal == ev_scan(sm, em, row as int, i as int),
        decreases s@.len() - i,
    {
        let mut larger = false;
        let mut smaller = false;
        let mut j: usize = 0;
        while j <= row
            invariant
                j <= row + 1,
                row < usize::MAX,
                i < s@.len(),
                sm == mat(s@),
                em == mat(ev@),
                forall|k: int| 0 <= k < s@.len() ==> row < (#[trigger] s@[k])@.len(),
                goal == ev_scan(mat(s@), mat(ev@), row as int, from as int),
                goal == ev_scan(sm, em, row as int, i as int),
                larger == exists|t: int| 0 <= t < j && #[trigger] sm[i as int][t] > entry_or_zero(em, i as int, t),
                smaller == exists|t: int| 0 <= t < j && #[trigger] sm[i as int][t] < entry_or_zero(em, i as int, t),
            decreases row + 1 - j,
        {
            proof {
                assert(row < s@[i as int]@.len());
                assert(sm[i as int][j as int] == s@[i as int]@[j as int] as int);
            }
            let a: i32 = if i < ev.len() && j < ev[i].len() {
                proof {
                    assert(em[i as int][j as int] == ev@[i as int]@[j as int] as int);
                }
                ev[i][j]
            } else {
                0
            };
            if s[i][j] > a {
                larger = true;
            }
            if s[i][j] < a {
                smaller = true;
            }
            j = j + 1;
        }
        proof {
            assert(larger == ev_larger(sm, em, i as int, row as int));
            assert(smaller == ev_smaller(sm, em, i as int, row as int));
        }
        if larger && !smaller {
            return Err(false);
        }
        if larger || smaller {
            return Ok(i);
        }
        i = i + 1;
    }
    Err(true)
}

proof fn lemma_value_rows(p: Seq<Seq<int>>)
    requires
        wf_parent(p),
    ensures
        rows_cover(to_value_spec(p)),
        forall|c: int| 0 <= c < p.len() ==> (#[trigger] to_value_spec(p)[c]).len() == p[0].len(),
{
}

proof fn lemma_expand_once_len(p: Seq<Seq<int>>)
    requires
        small_parent(p),
        expand_spec(p, 1, 2, false) is Some,
    ensures
        (expand_spec(p, 1, 2, false)->0).0.len() <= 2 * p.len(),
{
    let cols = p.len();
    let rows = p[0].len();
    let last = cols - 1;
    assert(p[last].len() == rows);
    let lnz = lnz_from(p[last], rows - 1);
    lemma_lnz_range(p[last], rows - 1);
    if lnz != -1 {
        let orig = p[last][lnz];
        let oer0 = lnz_from(p[orig], rows - 1);
        let oer = if oer0 == -1 || oer0 < lnz { lnz } else { oer0 };
        let broot = if lnz >= 2 - 1 { choose_root(p, lnz, last, orig, oer, false) } else { Some(orig) };
        let b = broot->0;
        lemma_choose_root_range(p, lnz, last, orig, oer, false);
        if b <= last - 1 {
            lemma_copies_wf(p, b, lnz, last, 1);
        }
    }
}

impl IHSS {
    /// Whether the value matrix is IHSS-standard: the check of the BMS
    /// standard form, expanding with the IHSS algorithm, against the
    /// identity `(0)(1,1,1)(2,2,2)…` or, when `triangular`, against
    /// `(0)(1)(2,1)(3,2,1)…`.
    pub fn is_standard_matrix(value: &Vec<Vec<i32>>, triangular: bool) -> (r: bool)
        requires
            value@.len() < 0x4000_0000,
            value@.len() == 0 || col_max(mat(value@)) > 0,
        ensures
            r == (ihss_std_check(mat(value@), triangular) == Some(true)),
    {
        match IHSS::std_check(value, triangular) {
            Some(b) => b,
            None => false,
        }
    }

    /// Standard against the identity `(0)(1,1,1)(2,2,2)…`.
    pub fn is_standard(value: &Vec<Vec<i32>>) -> (r: bool)
        requires
            value@.len() < 0x4000_0000,
            value@.len() == 0 || col_max(mat(value@)) > 0,
        ensures
            r == (ihss_std_check(mat(value@), false) == Some(true)),
    {
        IHSS::is_standard_matrix(value, false)
    }

    /// Standard against the triangular identity `(0)(1)(2,1)(3,2,1)…`.
    pub fn is_standard_triangular(value: &Vec<Vec<i32>>) -> (r: bool)
        requires
            value@.len() < 0x4000_0000,
            value@.len() == 0 || col_max(mat(value@)) > 0,
        ensures
            r == (ihss_std_check(mat(value@), true) == Some(true)),
    {
        IHSS::is_standard_matrix(value, true)
    }

    fn std_check(value: &Vec<Vec<i32>>, tri: bool) -> (r: Option<bool>)
        requires
            value@.len() < 0x4000_0000,
            value@.len() == 0 || col_max(mat(value@)) > 0,
        ensures
            r == ihss_std_check(mat(value@), tri),
    {
        let nc = value.len();
        if nc == 0 {
            return Some(true);
        }
        let nr = matrix_rows(value);
        let s = pad_matrix(value, nr);
        let ghost sm = mat(s@);
        proof {
            assert(sm == padded(mat(value@)));
        }
        let row = last_used_row(&s, nr);
        proof {
            assert(forall|k: int| 0 <= k < s@.len() ==> row < (#[trigger] s@[k])@.len()) by {
                assert forall|k: int| 0 <= k < s@.len() implies row < (#[trigger] s@[k])@.len() by {
                    assert(sm[k].len() == nr);
                }
            }
        }
        let p = match find_smaller_column(&s, row, tri) {
            Err(b) => {
                return Some(b);
            },
            Ok(p) => p,
        };
        let sa_value = identity_prefix(p + 1, row, tri);
        proof {
            assert(mat(sa_value@)[0].len() == row + 1);
            assert forall|c: int| 0 <= c < mat(sa_value@).len() implies (#[trigger] mat(sa_value@)[c]).len() >= mat(sa_value@)[0].len() by {}
        }
        let mut sa = IHSS::from_value(&sa_value);
        let mut pp: usize = p;
        let mut fuel: u64 = STD_ROUNDS;
        loop
            invariant
                pp < nc == s@.len(),
                nc < 0x4000_0000,
                row < nr,
                sm == mat(s@),
                forall|k: int| 0 <= k < s@.len() ==> row < (#[trigger] s@[k])@.len(),
                sa.wf(),
                sa@.len() <= nc,
                ihss_std_check(mat(value@), tri) == ihss_loop(sm, row as int, sa@, pp as int, fuel as nat),
            decreases fuel,
        {
            if fuel == 0 {
                return None;
            }
            let expanded = match sa.expand_checked(1, 2, false) {
                None => {
                    return None;
                },
                Some(v) => v.0,
            };
            proof {
                if sa@.len() > 0 {
                    lemma_expand_once_len(sa@);
                    lemma_expand_wf(sa@, 1, 2, false);
                } else {
                    assert(expanded@ =~= Seq::<Seq<int>>::empty());
                }
            }
            let ev = expanded.to_value();
            proof {
                lemma_value_rows(expanded@);
            }
            match ev_scan_exec(&s, &ev, row, pp) {
                Err(b) => {
                    return Some(b);
                },
                Ok(np) => {
                    let mut pre: Vec<Vec<i32>> = Vec::new();
                    let mut c: usize = 0;
                    let ghost em = mat(ev@);
                    proof {
                        assert(em == to_value_spec(expanded@));
                    }
                    if np >= ev.len() {
                        return None;
                    }
                    let upto = np + 1;
                    while c < upto
                        invariant
                            c <= upto <= ev@.len(),
                            em == mat(ev@),
                            mat(pre@) == em.take(c as int),
                        decreases upto - c,
                    {
                        let col = ev[c].clone();
                        let ghost m0 = mat(pre@);
                        pre.push(col);
                        c = c + 1;
                        proof {
                            assert(mat(pre@) =~= m0.push(em[c - 1]));
                            assert(mat(pre@) =~= em.take(c as int));
                        }
                    }
                    proof {
                        assert(em.take(np + 1) =~= em.take(upto as int));
                    }
                    sa = IHSS::from_value(&pre);
                    pp = np;
                },
            }
            fuel = fuel - 1;
        }
    }
}

// ============================================================
// Mahlo BOCF rendering
// ============================================================

/// `M` for level 1, `M_{k}` otherwise.
pub open spec fn fmt_m(k: int) -> Seq<char> {
    if k == 1 {
        "M"@
    } else {
        "M_{"@ + int_str(k) + "}"@
    }
}

/// Runs of equal consecutive strings from `i` on, each run as one
/// summand: the string itself, its count for a run of "1"s, or
/// `x \times n`.
pub open spec fn merge_from(parts: Seq<Seq<char>>, i: int) -> Seq<Seq<char>>
    decreases parts.len() - i,
{
    if i >= parts.len() || i < 0 {
        Seq::empty()
    } else {
        let j = run_end(parts, i, i);
        let count = j - i;
        let item = if count == 1 {
            parts[i]
        } else if parts[i] == "1"@ {
            int_str(count)
        } else {
            parts[i] + " \\times "@ + int_str(count)
        };
        if j <= i || j > parts.len() {
            Seq::empty()
        } else {
            seq![item] + merge_from(parts, j)
        }
    }
}

/// The end of the run of strings equal to `parts[i]`, from `j` on.
pub open spec fn run_end(parts: Seq<Seq<char>>, i: int, j: int) -> int
    decreases parts.len() - j,
{
    if j >= parts.len() || j < 0 || parts[j] != parts[i] {
        j
    } else {
        run_end(parts, i, j + 1)
    }
}

/// Strings joined by " + ".
pub open spec fn join_plus(v: Seq<Seq<char>>) -> Seq<char>
    decreases v.len(),
{
    if v.len() == 0 {
        Seq::empty()
    } else if v.len() == 1 {
        v[0]
    } else {
        join_plus(v.drop_last()) + " + "@ + v.last()
    }
}

/// A sum of summands with like neighbours merged; "0" when empty.
pub open spec fn sum_merged(parts: Seq<Seq<char>>) -> Seq<char> {
    if parts.len() == 0 {
        "0"@
    } else {
        join_plus(merge_from(parts, 0))
    }
}

/// The level of column `c`: its depth in row 1.
pub open spec fn level(p: Seq<Seq<int>>, c: int) -> int {
    if c >= p.len() || p[0].len() < 2 {
        0
    } else {
        depth(p, c, 1)
    }
}

/// Whether a child of level `lv` goes to the subscript part (`sel` 0:
/// level above `k`) or to the argument part (`sel` 1: level at most `k`).
pub open spec fn in_part(lv: int, k: int, sel: int) -> bool {
    if sel == 0 {
        lv > k
    } else {
        lv <= k
    }
}

/// The rendering of the subtree at `node` (row-0 children, split by
/// their level against `node`'s).
pub open spec fn tree_latex(p: Seq<Seq<int>>, node: int) -> Seq<char>
    decreases p.len() - node, 1int, 0int,
{
    if node < 0 || node >= p.len() {
        Seq::empty()
    } else {
        let k = level(p, node);
        let ss = kid_strs(p, node, k, 0, node + 1);
        let ts = kid_strs(p, node, k, 1, node + 1);
        let mk1 = fmt_m(k + 1);
        if ss.len() == 0 && ts.len() == 0 {
            if k == 0 {
                "1"@
            } else {
                fmt_m(k)
            }
        } else if ts.len() == 0 {
            "\\psi_{"@ + mk1 + "}("@ + sum_merged(ss) + ")"@
        } else if ss.len() == 0 {
            "\\psi_{"@ + ("\\psi_{"@ + mk1 + "}("@ + mk1 + ")"@) + "}("@ + sum_merged(ts) + ")"@
        } else {
            "\\psi_{"@ + ("\\psi_{"@ + mk1 + "}("@ + sum_merged(ss.push(mk1)) + ")"@) + "}("@
                + sum_merged(ts) + ")"@
        }
    }
}

/// The renderings of `node`'s row-0 children from column `c` on, in the
/// part `sel`.
pub open spec fn kid_strs(p: Seq<Seq<int>>, node: int, k: int, sel: int, c: int) -> Seq<Seq<char>>
    decreases p.len() - node, 0int, p.len() - c,
{
    if c >= p.len() || c <= node || node < 0 {
        Seq::empty()
    } else {
        let rest = kid_strs(p, node, k, sel, c + 1);
        if p[c][0] == node && in_part(level(p, c), k, sel) {
            seq![tree_latex(p, c)] + rest
        } else {
            rest
        }
    }
}

fn format_m(k: i32) -> (r: String)
    ensures
        r@ == fmt_m(k as int),
{
    if k == 1 {
        lit("M")
    } else {
        let mut s = lit("M_{");
        push_int(&mut s, k as i64);
        s.append("}");
        s
    }
}

fn clone_string(s: &String) -> (r: String)
    ensures
        r@ == s@,
{
    let mut t = String::new();
    push_string(&mut t, s);
    proof {
        assert(t@ =~= s@);
    }
    t
}

/// Like neighbours merged (see `merge_from`).
fn merge_parts(parts: &Vec<String>) -> (r: Vec<String>)
    ensures
        strs(r@) == merge_from(strs(parts@), 0),
{
    let ghost ps = strs(parts@);
    let n = parts.len();
    let one = lit("1");
    let mut out: Vec<String> = Vec::new();
    let mut i: usize = 0;
    while i < n
        invariant
            i <= n == parts@.len() == ps.len(),
            ps == strs(parts@),
            one@ == "1"@,
            merge_from(ps, 0) == strs(out@) + merge_from(ps, i as int),
        decreases n - i,
    {
        let mut j = i;
        proof {
            lemma_run_end(ps, i as int, i as int);
        }
        while j < n && parts[j] == parts[i]
            invariant
                i <= j <= n == parts@.len() == ps.len(),
                ps == strs(parts@),
                run_end(ps, i as int, i as int) == run_end(ps, i as int, j as int),
                i < n,
            decreases n - j,
        {
            proof {
                assert(ps[j as int] == parts@[j as int]@);
                assert(ps[i as int] == parts@[i as int]@);
            }
            j = j + 1;
        }
        proof {
            if j < n {
                assert(ps[j as int] == parts@[j as int]@);
                assert(ps[i as int] == parts@[i as int]@);
            }
            assert(run_end(ps, i as int, j as int) == j);
            assert(ps[i as int] == parts@[i as int]@);
        }
        let count = j - i;
        let item = if count == 1 {
            clone_string(&parts[i])
        } else if parts[i] == one {
            let mut t = String::new();
            push_nat(&mut t, count as u64);
            t
        } else {
            let mut t = clone_string(&parts[i]);
            t.append(" \\times ");
            push_nat(&mut t, count as u64);
            t
        };
        proof {
            assert(int_str(count as int) == nat_str(count as nat));
        }
        let ghost o0 = strs(out@);
        out.push(item);
        proof {
            assert(strs(out@) =~= o0.push(item@));
            assert(merge_from(ps, i as int) == seq![item@] + merge_from(ps, j as int));
            assert(strs(out@) + merge_from(ps, j as int) =~= o0 + merge_from(ps, i as int));
        }
        i = j;
    }
    proof {
        assert(strs(out@) + Seq::<Seq<char>>::empty() =~= strs(out@));
    }
    out
}

proof fn lemma_run_end(parts: Seq<Seq<char>>, i: int, j: int)
    requires
        0 <= i <= j,
    ensures
        j <= run_end(parts, i, j),
        j <= parts.len() ==> run_end(parts, i, j) <= parts.len(),
    decreases parts.len() - j,
{
    if !(j >= parts.len() || j < 0 || parts[j] != parts[i]) {
        lemma_run_end(parts, i, j + 1);
    }
}

/// Strings joined by " + ".
fn join_with_plus(v: &Vec<String>) -> (r: String)
    ensures
        r@ == join_plus(strs(v@)),
{
    let ghost vs = strs(v@);
    let mut s = String::new();
    let mut i: usize = 0;
    while i < v.len()
        invariant
            i <= v@.len() == vs.len(),
            vs == strs(v@),
            s@ == join_plus(vs.take(i as int)),
        decreases v.len() - i,
    {
        proof {
            assert(vs.take(i + 1).drop_last() =~= vs.take(i as int));
        }
        if i > 0 {
            s.append(" + ");
        }
        push_string(&mut s, &v[i]);
        i = i + 1;
        proof {
            assert(s@ =~= join_plus(vs.take(i as int)));
        }
    }
    proof {
        assert(vs.take(v@.len() as int) =~= vs);
    }
    s
}

fn join_with_merge(parts: &Vec<String>) -> (r: String)
    ensures
        r@ == sum_merged(strs(parts@)),
{
    if parts.len() == 0 {
        return lit("0");
    }
    let m = merge_parts(parts);
    join_with_plus(&m)
}

/// Rows at least 2 and row-0/row-1 parents to the left.
pub open spec fn render_ok(p: Seq<Seq<int>>) -> bool {
    &&& wf_parent(p)
    &&& p.len() > 0
    &&& p[0].len() >= 2
}

fn compute_level(p: &Vec<Vec<i32>>, c: usize) -> (r: i32)
    requires
        render_ok(mat(p@)),
        c < p@.len(),
    ensures
        r == level(mat(p@), c as int),
        0 <= r <= c,
{
    let ghost pm = mat(p@);
    let mut level: i32 = 0;
    let mut cur = c;
    proof {
        assert(pm[c as int].len() == pm[0].len());
        lemma_depth(pm, c as int, 1);
    }
    loop
        invariant
            cur <= c < p@.len(),
            pm == mat(p@),
            render_ok(pm),
            0 <= level,
            level + depth(pm, cur as int, 1) == depth(pm, c as int, 1),
            level + cur <= c,
        ensures
            level == depth(pm, c as int, 1),
            0 <= level <= c,
        decreases cur,
    {
        proof {
            assert(pm[cur as int].len() == pm[0].len());
            assert(pm[cur as int][1] == p@[cur as int]@[1] as int);
            lemma_depth(pm, cur as int, 1);
        }
        let q = p[cur][1];
        if q == -1 {
            break;
        }
        cur = q as usize;
        level = level + 1;
    }
    level
}

/// The rendering of the subtree at `node`.
fn render_single_tree(p: &Vec<Vec<i32>>, node: usize) -> (r: String)
    requires
        render_ok(mat(p@)),
        node < p@.len(),
    ensures
        r@ == tree_latex(mat(p@), node as int),
    decreases p@.len() - node,
{
    let ghost pm = mat(p@);
    let n = p.len();
    let k = compute_level(p, node);
    let mut ss: Vec<String> = Vec::new();
    let mut ts: Vec<String> = Vec::new();
    let mut c = node + 1;
    proof {
        assert(strs(ss@) + kid_strs(pm, node as int, k as int, 0, c as int) =~= kid_strs(pm, node as int, k as int, 0, node + 1));
        assert(strs(ts@) + kid_strs(pm, node as int, k as int, 1, c as int) =~= kid_strs(pm, node as int, k as int, 1, node + 1));
    }
    while c < n
        invariant
            node < c <= n == p@.len(),
            pm == mat(p@),
            render_ok(pm),
            k == level(pm, node as int),
            strs(ss@) + kid_strs(pm, node as int, k as int, 0, c as int) == kid_strs(pm, node as int, k as int, 0, node + 1),
            strs(ts@) + kid_strs(pm, node as int, k as int, 1, c as int) == kid_strs(pm, node as int, k as int, 1, node + 1),
        decreases n - c,
    {
        proof {
            assert(pm[c as int].len() == pm[0].len());
            assert(pm[c as int][0] == p@[c as int]@[0] as int);
        }
        if p[c][0] == node as i32 {
            let lv = compute_level(p, c);
            let str_c = render_single_tree(p, c);
            if lv > k {
                let ghost s0 = strs(ss@);
                ss.push(str_c);
                proof {
                    assert(strs(ss@) =~= s0.push(str_c@));
                    assert(strs(ss@) + kid_strs(pm, node as int, k as int, 0, c + 1) =~= s0 + kid_strs(pm, node as int, k as int, 0, c as int));
                    assert(kid_strs(pm, node as int, k as int, 1, c as int) == kid_strs(pm, node as int, k as int, 1, c + 1));
                }
            } else {
                let ghost t0 = strs(ts@);
                ts.push(str_c);
                proof {
                    assert(strs(ts@) =~= t0.push(str_c@));
                    assert(strs(ts@) + kid_strs(pm, node as int, k as int, 1, c + 1) =~= t0 + kid_strs(pm, node as int, k as int, 1, c as int));
                    assert(kid_strs(pm, node as int, k as int, 0, c as int) == kid_strs(pm, node as int, k as int, 0, c + 1));
                }
            }
        }
        c = c + 1;
    }
    proof {
        assert(strs(ss@) + Seq::<Seq<char>>::empty() =~= strs(ss@));
        assert(strs(ts@) + Seq::<Seq<char>>::empty() =~= strs(ts@));
    }
    let mk1 = format_m(k + 1);
    let mut out = String::new();
    if ss.len() == 0 && ts.len() == 0 {
        if k == 0 {
            return lit("1");
        }
        return format_m(k);
    }
    if ts.len() == 0 {
        let s_sum = join_with_merge(&ss);
        out.append("\\psi_{");
        push_string(&mut out, &mk1);
        out.append("}(");
        push_string(&mut out, &s_sum);
        out.append(")");
        proof {
            assert(out@ =~= tree_latex(pm, node as int));
        }
        return out;
    }
    let t_sum = join_with_merge(&ts);
    let mut inner = String::new();
    inner.append("\\psi_{");
    push_string(&mut inner, &mk1);
    inner.append("}(");
    if ss.len() == 0 {
        push_string(&mut inner, &mk1);
    } else {
        let ghost s0 = strs(ss@);
        let mk1b = clone_string(&mk1);
        ss.push(mk1b);
        proof {
            assert(strs(ss@) =~= s0.push(mk1@));
        }
        let s_sum = join_with_merge(&ss);
        push_string(&mut inner, &s_sum);
    }
    inner.append(")");
    out.append("\\psi_{");
    push_string(&mut out, &inner);
    out.append("}(");
    push_string(&mut out, &t_sum);
    out.append(")");
    proof {
        assert(out@ =~= tree_latex(pm, node as int));
    }
    out
}

/// Column `c` lies in the row-0 subtree of `root`.
pub open spec fn desc(p: Seq<Seq<int>>, root: int, c: int) -> bool
    decreases c + 1,
{
    if c < 0 || c >= p.len() {
        false
    } else if c == root {
        true
    } else {
        let q = p[c][0];
        0 <= q < c && desc(p, root, q)
    }
}

/// How many columns below `c` lie in the subtree.
pub open spec fn sub_count(p: Seq<Seq<int>>, root: int, c: int) -> int
    decreases c,
{
    if c <= 0 {
        0
    } else {
        sub_count(p, root, c - 1) + if desc(p, root, c - 1) { 1int } else { 0 }
    }
}

/// The subtree's columns below `c`, in order.
pub open spec fn sub_cols(p: Seq<Seq<int>>, root: int, c: int) -> Seq<int>
    decreases c,
{
    if c <= 0 {
        Seq::empty()
    } else if desc(p, root, c - 1) {
        sub_cols(p, root, c - 1).push(c - 1)
    } else {
        sub_cols(p, root, c - 1)
    }
}

/// The subtree of `root` as a parent matrix of its own: parents renumbered,
/// parents outside the subtree dropped, the root made a root.
pub open spec fn extract_spec(p: Seq<Seq<int>>, root: int) -> Seq<Seq<int>> {
    if p.len() == 0 || p[0].len() == 0 {
        Seq::empty()
    } else {
        let cols = sub_cols(p, root, p.len() as int);
        let sp = Seq::new(
            cols.len(),
            |j: int|
                Seq::new(
                    p[0].len(),
                    |r: int|
                        {
                            let q = p[cols[j]][r];
                            if q == -1 {
                                -1
                            } else if 0 <= q < p.len() && desc(p, root, q) {
                                sub_count(p, root, q)
                            } else {
                                -1
                            }
                        },
                ),
        );
        if sp.len() > 0 {
            sp.update(0, sp[0].update(0, -1))
        } else {
            sp
        }
    }
}

proof fn lemma_sub_cols(p: Seq<Seq<int>>, root: int, c: int)
    requires
        0 <= c <= p.len(),
    ensures
        sub_cols(p, root, c).len() == sub_count(p, root, c),
        0 <= sub_count(p, root, c) <= c,
        forall|j: int| 0 <= j < sub_cols(p, root, c).len() ==> {
            let x = #[trigger] sub_cols(p, root, c)[j];
            &&& 0 <= x < c
            &&& desc(p, root, x)
            &&& sub_count(p, root, x) == j
        },
    decreases c,
{
    if c > 0 {
        lemma_sub_cols(p, root, c - 1);
        assert forall|j: int| 0 <= j < sub_cols(p, root, c).len() implies {
            let x = #[trigger] sub_cols(p, root, c)[j];
            &&& 0 <= x < c
            &&& desc(p, root, x)
            &&& sub_count(p, root, x) == j
        } by {
            if j < sub_cols(p, root, c - 1).len() {
                assert(sub_cols(p, root, c)[j] == sub_cols(p, root, c - 1)[j]);
            }
        }
    }
}

proof fn lemma_sub_count_mono(p: Seq<Seq<int>>, root: int, a: int, b: int)
    requires
        0 <= a < b,
        desc(p, root, a),
    ensures
        sub_count(p, root, a) < sub_count(p, root, b),
    decreases b - a,
{
    if b - 1 > a {
        lemma_sub_count_mono(p, root, a, b - 1);
    }
    lemma_sub_count_nonneg(p, root, b - 1);
}

proof fn lemma_sub_count_nonneg(p: Seq<Seq<int>>, root: int, c: int)
    ensures
        sub_count(p, root, c) >= 0,
    decreases c,
{
    if c > 0 {
        lemma_sub_count_nonneg(p, root, c - 1);
    }
}

/// An extracted subtree of a well-formed matrix is well formed.
proof fn lemma_extract_wf(p: Seq<Seq<int>>, root: int)
    requires
        wf_parent(p),
        p.len() > 0,
        p[0].len() > 0,
        0 <= root < p.len(),
    ensures
        wf_parent(extract_spec(p, root)),
        extract_spec(p, root).len() > 0,
        extract_spec(p, root)[0].len() == p[0].len(),
{
    let cols = sub_cols(p, root, p.len() as int);
    lemma_sub_cols(p, root, p.len() as int);
    // the root is in its own subtree
    assert(desc(p, root, root));
    lemma_sub_count_mono(p, root, root, p.len() as int);
    lemma_sub_count_nonneg(p, root, root);
    let e = extract_spec(p, root);
    assert(cols.len() > 0);
    assert forall|c: int| 0 <= c < e.len() implies (#[trigger] e[c]).len() == e[0].len() by {}
    assert forall|c: int, r: int| 0 <= c < e.len() && 0 <= r < e[c].len() implies -1 <= #[trigger] e[c][r] < c by {
        let x = cols[c];
        assert(p[x].len() == p[0].len());
        let q = p[x][r];
        if q != -1 && 0 <= q < p.len() && desc(p, root, q) {
            assert(q < x);
            lemma_sub_count_mono(p, root, q, x);
            lemma_sub_count_nonneg(p, root, q);
        }
    }
}

fn extract_subtree(p: &Vec<Vec<i32>>, root: usize) -> (r: Vec<Vec<i32>>)
    requires
        wf_parent(mat(p@)),
        p@.len() > 0,
        mat(p@)[0].len() > 0,
        root < p@.len(),
    ensures
        mat(r@) == extract_spec(mat(p@), root as int),
{
    let ghost pm = mat(p@);
    let n = p.len();
    let rows = p[0].len();
    proof {
        assert(pm[0].len() == rows);
    }
    let mut in_sub: Vec<bool> = Vec::new();
    let mut idx: Vec<i32> = Vec::new();
    let mut cols: Vec<usize> = Vec::new();
    let mut count: i32 = 0;
    let mut c: usize = 0;
    while c < n
        invariant
            c <= n == p@.len() == pm.len(),
            n <= i32::MAX,
            pm == mat(p@),
            wf_parent(pm),
            rows == pm[0].len(),
            rows > 0,
            root < n,
            in_sub@.len() == c,
            idx@.len() == c,
            forall|x: int| 0 <= x < c ==> #[trigger] in_sub@[x] == desc(pm, root as int, x),
            forall|x: int| 0 <= x < c ==> #[trigger] idx@[x] == sub_count(pm, root as int, x),
            count == sub_count(pm, root as int, c as int),
            0 <= count <= c,
            cols@.len() == count,
            forall|j: int| 0 <= j < cols@.len() ==> #[trigger] cols@[j] as int == sub_cols(pm, root as int, c as int)[j],
        decreases n - c,
    {
        proof {
            assert(pm[c as int].len() == rows);
            assert(pm[c as int][0] == p@[c as int]@[0] as int);
            lemma_sub_cols(pm, root as int, c as int);
        }
        let q = p[c][0];
        let d = c == root || (0 <= q && (q as usize) < c && in_sub[q as usize]);
        in_sub.push(d);
        idx.push(count);
        if d {
            cols.push(c);
            count = count + 1;
        }
        proof {
            assert(d == desc(pm, root as int, c as int));
            assert forall|j: int| 0 <= j < cols@.len() implies #[trigger] cols@[j] as int == sub_cols(pm, root as int, c + 1)[j] by {}
        }
        c = c + 1;
    }
    proof {
        lemma_sub_cols(pm, root as int, n as int);
    }
    let mut sub: Vec<Vec<i32>> = Vec::new();
    let ghost sc = sub_cols(pm, root as int, n as int);
    let mut j: usize = 0;
    while j < cols.len()
        invariant
            j <= cols@.len() == sc.len(),
            n == p@.len() == pm.len(),
            pm == mat(p@),
            wf_parent(pm),
            rows == pm[0].len(),
            in_sub@.len() == n,
            idx@.len() == n,
            forall|x: int| 0 <= x < n ==> #[trigger] in_sub@[x] == desc(pm, root as int, x),
            forall|x: int| 0 <= x < n ==> #[trigger] idx@[x] == sub_count(pm, root as int, x),
            sc == sub_cols(pm, root as int, n as int),
            forall|jj: int| 0 <= jj < cols@.len() ==> #[trigger] cols@[jj] as int == sc[jj],
            forall|jj: int| 0 <= jj < sc.len() ==> 0 <= #[trigger] sc[jj] < n,
            sub@.len() == j,
            forall|jj: int| 0 <= jj < j ==> #[trigger] mat(sub@)[jj] == Seq::new(
                rows as nat,
                |r: int|
                    {
                        let q = pm[sc[jj]][r];
                        if q == -1 {
                            -1
                        } else if 0 <= q < pm.len() && desc(pm, root as int, q) {
                            sub_count(pm, root as int, q)
                        } else {
                            -1
                        }
                    },
            ),
        decreases cols@.len() - j,
    {
        let col = cols[j];
        proof {
            assert(0 <= sc[j as int] < n);
            assert(pm[col as int].len() == rows);
        }
        let mut nc: Vec<i32> = Vec::new();
        let mut r: usize = 0;
        while r < rows
            invariant
                r <= rows == pm[0].len() == pm[col as int].len(),
                col < n == p@.len() == pm.len(),
                col as int == sc[j as int],
                pm == mat(p@),
                in_sub@.len() == n,
                idx@.len() == n,
                forall|x: int| 0 <= x < n ==> #[trigger] in_sub@[x] == desc(pm, root as int, x),
                forall|x: int| 0 <= x < n ==> #[trigger] idx@[x] == sub_count(pm, root as int, x),
                ints(nc@) == Seq::new(
                    r as nat,
                    |rr: int|
                        {
                            let q = pm[sc[j as int]][rr];
                            if q == -1 {
                                -1
                            } else if 0 <= q < pm.len() && desc(pm, root as int, q) {
                                sub_count(pm, root as int, q)
                            } else {
                                -1
                            }
                        },
                ),
            decreases rows - r,
        {
            proof {
                assert(pm[col as int][r as int] == p@[col as int]@[r as int] as int);
            }
            let q = p[col][r];
            let v: i32 = if q == -1 {
                -1
            } else if 0 <= q && (q as usize) < n && in_sub[q as usize] {
                idx[q as usize]
            } else {
                -1
            };
            let ghost c0 = ints(nc@);
            nc.push(v);
            r = r + 1;
            proof {
                assert(ints(nc@) =~= c0.push(v as int));
                assert(ints(nc@) =~= Seq::new(
                    r as nat,
                    |rr: int|
                        {
                            let q = pm[sc[j as int]][rr];
                            if q == -1 {
                                -1
                            } else if 0 <= q < pm.len() && desc(pm, root as int, q) {
                                sub_count(pm, root as int, q)
                            } else {
                                -1
                            }
                        },
                ));
            }
        }
        let ghost m0 = mat(sub@);
        let ghost cv = ints(nc@);
        sub.push(nc);
        proof {
            assert(mat(sub@) =~= m0.push(cv));
        }
        j = j + 1;
    }
    if sub.len() > 0 && sub[0].len() > 0 {
        let ghost m0 = mat(sub@);
        let mut first = sub[0].clone();
        first.set(0, -1);
        let ghost fv = ints(first@);
        sub.set(0, first);
        proof {
            assert(fv =~= m0[0].update(0, -1));
            assert(mat(sub@) =~= m0.update(0, fv));
        }
    }
    proof {
        assert(mat(sub@) =~= extract_spec(pm, root as int));
    }
    sub
}

/// The matrix rendered: a single row gets a row of -1 added.
pub open spec fn working(p: Seq<Seq<int>>) -> Seq<Seq<int>> {
    if p[0].len() == 1 {
        Seq::new(p.len(), |c: int| p[c].push(-1))
    } else {
        p
    }
}

/// How many columns below `c` are roots of row 0.
pub open spec fn root_count(w: Seq<Seq<int>>, c: int) -> int
    decreases c,
{
    if c <= 0 {
        0
    } else {
        root_count(w, c - 1) + if w[c - 1][0] == -1 { 1int } else { 0 }
    }
}

/// The renderings of the row-0 trees rooted below `c`.
pub open spec fn root_parts(w: Seq<Seq<int>>, c: int) -> Seq<Seq<char>>
    decreases c,
{
    if c <= 0 {
        Seq::empty()
    } else if w[c - 1][0] == -1 && extract_spec(w, c - 1).len() > 0 {
        root_parts(w, c - 1).push(tree_latex(extract_spec(w, c - 1), 0))
    } else {
        root_parts(w, c - 1)
    }
}

/// The Mahlo BOCF LaTeX of a parent matrix: its row-0 trees, like
/// neighbours merged, joined by " + ".
pub open spec fn latex_spec(p: Seq<Seq<int>>) -> Seq<char> {
    if p.len() == 0 || p[0].len() == 0 {
        Seq::empty()
    } else {
        let w = working(p);
        let n = root_count(w, w.len() as int);
        if n == 0 {
            Seq::empty()
        } else if n > 1 {
            let parts = root_parts(w, w.len() as int);
            if parts.len() == 0 {
                Seq::empty()
            } else {
                join_plus(merge_from(parts, 0))
            }
        } else {
            tree_latex(w, 0)
        }
    }
}

proof fn lemma_root_count_pos(w: Seq<Seq<int>>, c: int)
    requires
        1 <= c <= w.len(),
        w[0][0] == -1,
    ensures
        root_count(w, c) >= 1,
    decreases c,
{
    if c > 1 {
        lemma_root_count_pos(w, c - 1);
        lemma_root_count_nonneg(w, c - 1);
    } else {
        assert(root_count(w, 0) == 0);
    }
}

proof fn lemma_root_count_nonneg(w: Seq<Seq<int>>, c: int)
    ensures
        root_count(w, c) >= 0,
    decreases c,
{
    if c > 0 {
        lemma_root_count_nonneg(w, c - 1);
    }
}

impl IHSS {
    /// The Mahlo BOCF LaTeX of the hydra.
    pub fn to_latex(&self) -> (r: String)
        requires
            self.wf(),
        ensures
            r@ == latex_spec(self@),
    {
        let ghost pm = self@;
        let p = &self.parent;
        let n = p.len();
        if n == 0 {
            return String::new();
        }
        let rows = p[0].len();
        proof {
            assert(pm[0].len() == rows);
        }
        if rows == 0 {
            return String::new();
        }
        let mut w: Vec<Vec<i32>> = Vec::new();
        let mut c: usize = 0;
        while c < n
            invariant
                c <= n == pm.len(),
                pm == mat(p@),
                wf_parent(pm),
                rows == pm[0].len(),
                rows > 0,
                mat(w@) == working(pm).take(c as int),
            decreases n - c,
        {
            let mut col = p[c].clone();
            proof {
                assert(pm[c as int].len() == rows);
            }
            if rows == 1 {
                col.push(-1);
            }
            let ghost m0 = mat(w@);
            let ghost cv = ints(col@);
            w.push(col);
            c = c + 1;
            proof {
                assert(cv =~= working(pm)[c - 1]);
                assert(mat(w@) =~= m0.push(cv));
                assert(mat(w@) =~= working(pm).take(c as int));
            }
        }
        let ghost wm = working(pm);
        proof {
            assert(wm.take(n as int) =~= wm);
            assert(wm.len() == n);
            assert(wm[0].len() >= 2 || rows >= 2);
            assert forall|k: int| 0 <= k < wm.len() implies (#[trigger] wm[k]).len() == wm[0].len() by {
                assert(pm[k].len() == rows);
            }
            assert forall|k: int, r: int| 0 <= k < wm.len() && 0 <= r < wm[k].len() implies -1 <= #[trigger] wm[k][r] < k by {
                assert(pm[k].len() == rows);
                if r < rows {
                    assert(wm[k][r] == pm[k][r]);
                }
            }
            assert(render_ok(wm));
            assert(pm[0].len() == rows);
            assert(wm[0][0] == -1);
            lemma_root_count_pos(wm, n as int);
        }
        let mut nroots: usize = 0;
        let mut parts: Vec<String> = Vec::new();
        let mut c: usize = 0;
        while c < n
            invariant
                c <= n == wm.len(),
                wm == mat(w@),
                render_ok(wm),
                nroots == root_count(wm, c as int),
                nroots <= c,
                strs(parts@) == root_parts(wm, c as int),
            decreases n - c,
        {
            proof {
                assert(wm[c as int].len() == wm[0].len());
                assert(wm[c as int][0] == w@[c as int]@[0] as int);
            }
            if w[c][0] == -1 {
                nroots = nroots + 1;
                let sub = extract_subtree(&w, c);
                proof {
                    lemma_extract_wf(wm, c as int);
                }
                if sub.len() > 0 {
                    let t = render_single_tree(&sub, 0);
                    let ghost p0 = strs(parts@);
                    parts.push(t);
                    proof {
                        assert(strs(parts@) =~= p0.push(t@));
                    }
                }
            }
            c = c + 1;
        }
        if nroots > 1 {
            if parts.len() == 0 {
                return String::new();
            }
            let m = merge_parts(&parts);
            return join_with_plus(&m);
        }
        render_single_tree(&w, 0)
    }
}

} // verus!
