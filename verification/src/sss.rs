//! Sudden Sequence System (SSS) expansion.
use vstd::prelude::*;
use crate::hydra::ints;
use crate::term::{
    Term, TermNode, mk, spec_add, spec_exp, spec_log, spec_last, spec_one, eq, exp, log, t, one,
    clone_term, last_term,
};
use crate::text::{
    int_str, digits_end, digits_val, lemma_digits_end, lemma_digits_val_mono, lit, push_nat, chars_of,
    is_digit, is_digit_char, digit_of, nat_str, push_chars,
};
use crate::ocf::{Nocf, mk_psi, nat_nocf, clone_nocf, nocf_nat, nat_fits};

verus! {

// ============================================================
// Model
// ============================================================

/// Lexicographic order on integer sequences; a proper prefix is smaller.
pub open spec fn seq_lex(a: Seq<int>, b: Seq<int>) -> int
    decreases a.len(),
{
    if a.len() == 0 && b.len() == 0 {
        0
    } else if a.len() == 0 {
        -1
    } else if b.len() == 0 {
        1
    } else if a[0] > b[0] {
        1
    } else if a[0] < b[0] {
        -1
    } else {
        seq_lex(a.drop_first(), b.drop_first())
    }
}

/// `s[from..]` shifted down by `s[from]`.
pub open spec fn shifted_tail(s: Seq<int>, from: int) -> Seq<int> {
    s.subrange(from, s.len() as int).map_values(|x: int| x - s[from])
}

/// Rightmost index `≤ k` whose value is below `v` (-1 if none).
pub open spec fn below_from(s: Seq<int>, k: int, v: int) -> int
    decreases k + 1,
{
    if k < 0 {
        -1
    } else if s[k] < v {
        k
    } else {
        below_from(s, k - 1, v)
    }
}

/// The bad root search: walking left from `r`, the first index at or
/// below the running minimum whose shifted tail is lexicographically
/// below that of the initial root (0 if none).
pub open spec fn root_search(s: Seq<int>, sub1: Seq<int>, r: int, bv: int) -> int
    decreases r,
{
    if r <= 0 {
        0
    } else {
        let r2 = r - 1;
        if s[r2] <= bv && seq_lex(sub1, shifted_tail(s, r2)) > 0 {
            r2
        } else {
            root_search(s, sub1, r2, if s[r2] <= bv { s[r2] } else { bv })
        }
    }
}

/// The root of the repeated part.
pub open spec fn sss_root(s: Seq<int>) -> int {
    let l = s.len() - 1;
    let r0 = below_from(s, l, s[l]);
    let br = if r0 < 0 { 0 } else { r0 };
    root_search(s, shifted_tail(s, br), br, s[br])
}

/// Position (index into the sequence, copy number) of output entry `k`:
/// the sequence once, then its part after the root, again and again.
pub open spec fn cyc(len: int, r: int, k: nat) -> (int, int)
    decreases k,
{
    if k == 0 {
        (0, 0)
    } else {
        let p = cyc(len, r, (k - 1) as nat);
        if p.0 + 1 >= len {
            (r + 1, p.1 + 1)
        } else {
            (p.0 + 1, p.1)
        }
    }
}

/// SSS expansion: a successor drops its last term; otherwise, with the
/// last term lowered by one, the part after the root is repeated `fs`
/// more times, each copy raised by the difference between the lowered
/// last term and the root.
pub open spec fn sss_spec(s: Seq<int>, fs: int) -> Seq<int> {
    let len = s.len() as int;
    if len == 0 || s[len - 1] <= 0 {
        s.take(if len == 0 { 0 } else { len - 1 })
    } else {
        let r = sss_root(s);
        let s2 = s.update(len - 1, s[len - 1] - 1);
        let dif = s2[len - 1] - s2[r];
        let n = len + (len - 1 - r) * fs;
        Seq::new(
            if n < 0 { 0 } else { n as nat },
            |k: int| s2[cyc(len, r, k as nat).0] + dif * cyc(len, r, k as nat).1,
        )
    }
}

/// Every entry of the expansion, the difference, and the length fit.
pub open spec fn sss_fits(s: Seq<int>, fs: int) -> bool {
    let len = s.len() as int;
    len == 0 || s[len - 1] <= 0 || {
        let r = sss_root(s);
        let s2 = s.update(len - 1, s[len - 1] - 1);
        let dif = s2[len - 1] - s2[r];
        let n = len + (len - 1 - r) * fs;
        &&& i32::MIN <= dif <= i32::MAX
        &&& len < i64::MAX
        &&& i64::MIN <= (len - 1 - r) * fs <= i64::MAX
        &&& i64::MIN <= n <= i64::MAX
        &&& n <= usize::MAX
        &&& forall|k: nat| k < n ==> #[trigger] entry_fits(s2, dif, cyc(len, r, k))
    }
}

/// One output entry, and the raise added to it, fit in `i32`.
pub open spec fn entry_fits(s2: Seq<int>, dif: int, c: (int, int)) -> bool {
    &&& i32::MIN <= dif * c.1 <= i32::MAX
    &&& i32::MIN <= s2[c.0] + dif * c.1 <= i32::MAX
}

proof fn lemma_fits_entry(s: Seq<int>, fs: int, k: nat)
    requires
        sss_fits(s, fs),
        s.len() > 0,
        s[s.len() - 1] > 0,
        k < s.len() + (s.len() - 1 - sss_root(s)) * fs,
    ensures
        entry_fits(
            s.update(s.len() - 1, s[s.len() - 1] - 1),
            s[s.len() - 1] - 1 - s.update(s.len() - 1, s[s.len() - 1] - 1)[sss_root(s)],
            cyc(s.len() as int, sss_root(s), k),
        ),
{
}


// ============================================================
// Expansion
// ============================================================

pub proof fn lemma_below_from(s: Seq<int>, k: int, v: int)
    ensures
        -1 <= below_from(s, k, v) <= k || (k < -1 && below_from(s, k, v) == -1),
        0 <= k < s.len() && s[k] >= v ==> below_from(s, k, v) < k,
    decreases k + 1,
{
    if k >= 0 {
        lemma_below_from(s, k - 1, v);
    }
}

pub open spec fn ints64(v: Seq<i64>) -> Seq<int> {
    v.map_values(|x: i64| x as int)
}

/// Lexicographic order on two integer sequences: 1, -1 or 0; a shorter
/// sequence that is a prefix of the other is smaller.
fn lex_order(a: &Vec<i64>, b: &Vec<i64>) -> (r: i32)
    ensures
        r == seq_lex(ints64(a@), ints64(b@)),
{
    let n = if a.len() < b.len() {
        a.len()
    } else {
        b.len()
    };
    let mut i: usize = 0;
    proof {
        assert(ints64(a@).subrange(0, a@.len() as int) =~= ints64(a@));
        assert(ints64(b@).subrange(0, b@.len() as int) =~= ints64(b@));
    }
    while i < n
        invariant
            i <= n,
            n == if a@.len() < b@.len() { a@.len() } else { b@.len() },
            seq_lex(ints64(a@), ints64(b@)) == seq_lex(
                ints64(a@).subrange(i as int, a@.len() as int),
                ints64(b@).subrange(i as int, b@.len() as int),
            ),
        decreases n - i,
    {
        let ghost sa = ints64(a@).subrange(i as int, a@.len() as int);
        let ghost sb = ints64(b@).subrange(i as int, b@.len() as int);
        proof {
            assert(sa.drop_first() =~= ints64(a@).subrange(i + 1, a@.len() as int));
            assert(sb.drop_first() =~= ints64(b@).subrange(i + 1, b@.len() as int));
        }
        if a[i] > b[i] {
            return 1;
        }
        if a[i] < b[i] {
            return -1;
        }
        i = i + 1;
    }
    if a.len() > b.len() {
        1
    } else if a.len() < b.len() {
        -1
    } else {
        0
    }
}

/// `s[from..]` shifted down by `s[from]`, as `i64`s.
fn tail_from(s: &Vec<i32>, from: usize) -> (r: Vec<i64>)
    requires
        from < s@.len(),
    ensures
        ints64(r@) == shifted_tail(ints(s@), from as int),
{
    let mut v: Vec<i64> = Vec::new();
    let mut i = from;
    while i < s.len()
        invariant
            from <= i <= s@.len(),
            ints64(v@) == ints(s@).subrange(from as int, i as int).map_values(
                |x: int| x - ints(s@)[from as int],
            ),
        decreases s.len() - i,
    {
        let ghost v0 = ints64(v@);
        v.push(s[i] as i64 - s[from] as i64);
        proof {
            assert(ints64(v@) =~= v0.push(s@[i as int] as int - s@[from as int] as int));
            assert(ints(s@).subrange(from as int, i + 1).map_values(
                |x: int| x - ints(s@)[from as int],
            ) =~= ints(s@).subrange(from as int, i as int).map_values(
                |x: int| x - ints(s@)[from as int],
            ).push(s@[i as int] as int - s@[from as int] as int));
        }
        i = i + 1;
    }
    v
}

/// Expand a Sudden Sequence System sequence by `fs` bad-part copies.
pub fn expand_sss(seq: &[i32], fs: i32) -> (r: Vec<i32>)
    requires
        sss_fits(ints(seq@), fs as int),
    ensures
        ints(r@) == sss_spec(ints(seq@), fs as int),
{
    let ghost sv = ints(seq@);
    let mut s: Vec<i32> = Vec::new();
    let mut i: usize = 0;
    while i < seq.len()
        invariant
            i <= seq@.len(),
            s@ == seq@.subrange(0, i as int),
        decreases seq.len() - i,
    {
        s.push(seq[i]);
        i = i + 1;
        proof {
            assert(s@ =~= seq@.subrange(0, i as int));
        }
    }
    proof {
        assert(s@ =~= seq@);
    }
    let len = s.len();
    if len == 0 || s[len - 1] <= 0 {
        if len > 0 {
            s.pop();
        }
        proof {
            assert(ints(s@) =~= sv.take(if len == 0 { 0 } else { len - 1 }));
        }
        return s;
    }
    let l = len - 1;
    if len == 1 {
        let v = s[0] - 1;
        let mut one: Vec<i32> = Vec::new();
        one.push(v);
        proof {
            assert(below_from(sv, -1, sv[0]) == -1);
            assert(below_from(sv, 0, sv[0]) == -1);
            assert(root_search(sv, shifted_tail(sv, 0), 0, sv[0]) == 0);
            assert(sss_root(sv) == 0);
            assert(cyc(1, 0, 0) == (0int, 0int));
            let s2 = sv.update(0, sv[0] - 1);
            let dif = s2[0] - s2[0];
            assert(dif == 0);
            assert(dif * 0 == 0);
            assert(sv.len() == 1);
            let z = sv.len() - 1 - sss_root(sv);
            assert(z == 0);
            assert(z * fs == 0) by (nonlinear_arith)
                requires
                    z == 0,
            ;
            assert(sss_spec(sv, fs as int).len() == 1);
            assert(sss_spec(sv, fs as int)[0] == sv[0] - 1);
            assert(ints(one@) =~= sss_spec(sv, fs as int));
        }
        return one;
    }
    // The rightmost term below the last.
    let mut r1: usize = len;
    while r1 > 0 && s[r1 - 1] >= s[l]
        invariant
            r1 <= len == s@.len() == sv.len(),
            l + 1 == len,
            s@ == seq@,
            sv == ints(seq@),
            below_from(sv, r1 - 1, sv[l as int]) == below_from(sv, l as int, sv[l as int]),
        decreases r1,
    {
        r1 = r1 - 1;
    }
    let br: usize = if r1 == 0 {
        0
    } else {
        r1 - 1
    };
    let mut bad_value = s[br];
    let sub1 = tail_from(&s, br);
    let mut r: usize = br;
    let mut found = false;
    while r > 0 && !found
        invariant
            r <= br < len == s@.len() == sv.len(),
            s@ == seq@,
            sv == ints(seq@),
            ints64(sub1@) == shifted_tail(sv, br as int),
            found ==> r == sss_root(sv),
            !found ==> root_search(sv, shifted_tail(sv, br as int), r as int, bad_value as int)
                == sss_root(sv),
            l + 1 == len,
            br as int == (if below_from(sv, l as int, sv[l as int]) < 0 {
                0
            } else {
                below_from(sv, l as int, sv[l as int])
            }),
        decreases r, if found { 0nat } else { 1nat },
    {
        r = r - 1;
        if s[r] <= bad_value {
            bad_value = s[r];
            let sub2 = tail_from(&s, r);
            if lex_order(&sub1, &sub2) > 0 {
                found = true;
            }
        }
    }
    proof {
        if !found {
            assert(r == 0);
        }
        assert(r as int == sss_root(sv));
        lemma_below_from(sv, l as int, sv[l as int]);
    }
    let ghost s2 = sv.update(l as int, sv[l as int] - 1);
    let mut last = s[l];
    last = last - 1;
    s.set(l, last);
    proof {
        assert(ints(s@) =~= s2);
    }
    let dif: i64 = s[l] as i64 - s[r] as i64;
    proof {
        assert(sss_fits(sv, fs as int));
        assert(ints(s@)[l as int] == s2[l as int] && ints(s@)[r as int] == s2[r as int]);
        assert(r < l);
    }
    let span: i64 = len as i64 - 1 - r as i64;
    let n64: i64 = len as i64 + span * (fs as i64);
    let res_len: usize = if n64 < 0 {
        0
    } else {
        n64 as usize
    };
    let mut res: Vec<i32> = Vec::new();
    let mut j: usize = 0;
    let mut count: i64 = 0;
    let mut k: usize = 0;
    while k < res_len
        invariant
            k <= res_len,
            res_len as int == (if n64 < 0 { 0 } else { n64 as int }),
            n64 as int == len + (len - 1 - r) * fs,
            r < l,
            l + 1 == len == s@.len() == sv.len(),
            ints(s@) == s2,
            s2 == sv.update(l as int, sv[l as int] - 1),
            r as int == sss_root(sv),
            sv == ints(seq@),
            dif as int == s2[l as int] - s2[r as int],
            sss_fits(sv, fs as int),
            sv[l as int] > 0,
            (j as int, count as int) == cyc(len as int, r as int, k as nat),
            0 <= count <= k,
            j < len,
            res@.len() == k,
            forall|t: int|
                0 <= t < k ==> (#[trigger] res@[t]) as int == s2[cyc(len as int, r as int, t as nat).0]
                    + dif * cyc(len as int, r as int, t as nat).1,
        decreases res_len - k,
    {
        let ghost c = cyc(len as int, r as int, k as nat);
        proof {
            assert((k as nat) < len + (len - 1 - r) * fs);
            lemma_fits_entry(sv, fs as int, k as nat);
            assert(entry_fits(s2, dif as int, c));
            assert(i32::MIN <= dif * c.1 <= i32::MAX);
            assert(ints(s@)[j as int] == s2[c.0]);
        }
        let add = dif * count;
        let v = s[j] as i64 + add;
        let ghost r0 = res@;
        res.push(v as i32);
        proof {
            assert forall|t: int| 0 <= t < k + 1 implies (#[trigger] res@[t]) as int == s2[cyc(
                len as int,
                r as int,
                t as nat,
            ).0] + dif * cyc(len as int, r as int, t as nat).1 by {
                if t < k {
                    assert(res@[t] == r0[t]);
                }
            }
        }
        j = j + 1;
        if j >= len {
            j = r + 1;
            count = count + 1;
        }
        k = k + 1;
    }
    proof {
        assert(ints(res@) =~= sss_spec(sv, fs as int));
    }
    res
}

proof fn lemma_cyc_prefix(len: int, r: int, k: nat)
    requires
        k < len,
    ensures
        cyc(len, r, k) == (k as int, 0int),
    decreases k,
{
    if k > 0 {
        lemma_cyc_prefix(len, r, (k - 1) as nat);
    }
}

/// Expanding a limit keeps the sequence with its last term lowered by
/// one as the start of the result; a successor just loses its last term.
pub proof fn lemma_expansion_keeps_prefix(s: Seq<int>, fs: int)
    requires
        s.len() > 0,
        fs >= 0,
    ensures
        s[s.len() - 1] <= 0 ==> sss_spec(s, fs) == s.take(s.len() - 1),
        s[s.len() - 1] > 0 ==> {
            let e = sss_spec(s, fs);
            &&& e.len() >= s.len()
            &&& forall|k: int| 0 <= k < s.len() - 1 ==> #[trigger] e[k] == s[k]
            &&& e[s.len() - 1] == s[s.len() - 1] - 1
        },
{
    if s[s.len() - 1] > 0 {
        let len = s.len() as int;
        let r = sss_root(s);
        lemma_sss_root_range(s);
        let span = len - 1 - r;
        assert(span * fs >= 0) by (nonlinear_arith)
            requires
                span >= 0,
                fs >= 0,
        ;
        let e = sss_spec(s, fs);
        assert forall|k: int| 0 <= k < len implies #[trigger] e[k] == s.update(
            len - 1,
            s[len - 1] - 1,
        )[k] by {
            lemma_cyc_prefix(len, r, k as nat);
            let dif = s.update(len - 1, s[len - 1] - 1)[len - 1] - s.update(len - 1, s[len - 1] - 1)[r];
            assert(dif * 0 == 0);
        }
    }
}

proof fn lemma_root_search_range(s: Seq<int>, sub1: Seq<int>, r: int, bv: int)
    requires
        0 <= r,
    ensures
        0 <= root_search(s, sub1, r, bv) <= r,
    decreases r,
{
    if r > 0 {
        let r2 = r - 1;
        if !(s[r2] <= bv && seq_lex(sub1, shifted_tail(s, r2)) > 0) {
            lemma_root_search_range(s, sub1, r2, if s[r2] <= bv { s[r2] } else { bv });
        }
    }
}

/// Column `j` can be the root for the start `br`: it is at or below every
/// term up to `br`, and its shifted tail is lexicographically below that
/// of `br`.
pub open spec fn root_ok(s: Seq<int>, br: int, j: int) -> bool {
    &&& forall|k: int| j <= k <= br ==> s[j] <= #[trigger] s[k]
    &&& seq_lex(shifted_tail(s, br), shifted_tail(s, j)) > 0
}

proof fn lemma_root_search_law(s: Seq<int>, br: int, r: int, bv: int, w: int)
    requires
        0 <= r <= br < s.len(),
        r <= w <= br,
        s[w] == bv,
        forall|k: int| r <= k <= br ==> bv <= #[trigger] s[k],
    ensures
        ({
            let q = root_search(s, shifted_tail(s, br), r, bv);
            &&& 0 <= q <= r
            &&& q > 0 ==> root_ok(s, br, q)
            &&& forall|j: int| q < j < r ==> !root_ok(s, br, j)
        }),
    decreases r,
{
    if r > 0 {
        let r2 = r - 1;
        let sub1 = shifted_tail(s, br);
        assert((s[r2] <= bv) <==> (forall|k: int| r2 <= k <= br ==> s[r2] <= #[trigger] s[k])) by {
            if s[r2] <= bv {
                assert forall|k: int| r2 <= k <= br implies s[r2] <= #[trigger] s[k] by {
                    if k > r2 {
                        assert(bv <= s[k]);
                    }
                }
            } else {
                assert(!(s[r2] <= s[w]));
            }
        }
        if !(s[r2] <= bv && seq_lex(sub1, shifted_tail(s, r2)) > 0) {
            assert(!root_ok(s, br, r2));
            if s[r2] <= bv {
                lemma_root_search_law(s, br, r2, s[r2], r2);
            } else {
                lemma_root_search_law(s, br, r2, bv, w);
            }
        }
    }
}

proof fn lemma_below_from_law(s: Seq<int>, k: int, v: int)
    requires
        k < s.len(),
    ensures
        ({
            let b = below_from(s, k, v);
            &&& -1 <= b <= k || (k < -1 && b == -1)
            &&& b >= 0 ==> s[b] < v
            &&& forall|j: int| b < j <= k ==> s[j] >= v
        }),
    decreases k + 1,
{
    if k >= 0 && !(s[k] < v) {
        lemma_below_from_law(s, k - 1, v);
    }
}

/// The bad root of an SSS sequence. The search starts at the rightmost
/// term below the last term (the first term if none); walking left from
/// there, the root is the first column that is at or below every term up
/// to that start and whose shifted tail is lexicographically below the
/// start's (the first column if none is).
pub proof fn lemma_sss_root_law(s: Seq<int>)
    requires
        s.len() > 0,
    ensures
        ({
            let l = s.len() - 1;
            let r0 = below_from(s, l, s[l]);
            let br = if r0 < 0 { 0 } else { r0 };
            let r = sss_root(s);
            &&& r0 == -1 || (0 <= r0 < l && s[r0] < s[l])
            &&& forall|k: int| r0 < k < l ==> s[k] >= s[l]
            &&& 0 <= r <= br
            &&& r > 0 ==> root_ok(s, br, r)
            &&& forall|j: int| r < j < br ==> !root_ok(s, br, j)
        }),
{
    let l = s.len() - 1;
    lemma_below_from_law(s, l, s[l]);
    let r0 = below_from(s, l, s[l]);
    let br = if r0 < 0 { 0 } else { r0 };
    lemma_root_search_law(s, br, br, s[br], br);
}

/// The root lies before the last term.
pub proof fn lemma_sss_root_range(s: Seq<int>)
    requires
        s.len() > 0,
    ensures
        0 <= sss_root(s) < s.len(),
        s.len() > 1 ==> sss_root(s) < s.len() - 1,
{
    let l = s.len() - 1;
    lemma_below_from(s, l as int, s[l as int]);
    let r0 = below_from(s, l as int, s[l as int]);
    let br = if r0 < 0 { 0 } else { r0 };
    lemma_root_search_range(s, shifted_tail(s, br), br, s[br]);
}


proof fn lemma_cyc_front(len: int, r: int, k: nat)
    requires
        k < len,
    ensures
        cyc(len, r, k) == (k as int, 0int),
    decreases k,
{
    if k > 0 {
        lemma_cyc_front(len, r, (k - 1) as nat);
    }
}

/// Past the first pass, each output position repeats the one a period
/// `len - 1 - r` earlier, one copy further on.
proof fn lemma_cyc_period(len: int, r: int, k: nat)
    requires
        0 <= r < len - 1,
        k >= len,
    ensures
        ({
            let p = len - 1 - r;
            let a = cyc(len, r, k);
            let b = cyc(len, r, (k - p) as nat);
            a.0 == b.0 && a.1 == b.1 + 1 && r + 1 <= a.0 < len
        }),
    decreases k,
{
    let p = len - 1 - r;
    if k == len {
        lemma_cyc_front(len, r, (len - 1) as nat);
        lemma_cyc_front(len, r, (r + 1) as nat);
    } else {
        lemma_cyc_period(len, r, (k - 1) as nat);
        if k - 1 - p < len {
            lemma_cyc_front(len, r, (k - 1 - p) as nat);
        } else {
            lemma_cyc_period(len, r, (k - 1 - p) as nat);
        }
    }
}

/// SSS expansion of a limit: the sequence with its last term lowered by
/// one comes first, then the part after the root again and again, each
/// copy raised by the difference between the lowered last term and the
/// root; the expansion has `fs` such copies.
pub proof fn lemma_sss_expand_law(s: Seq<int>, fs: int)
    requires
        s.len() >= 2,
        s[s.len() - 1] > 0,
        fs >= 0,
    ensures
        ({
            let l = s.len() - 1;
            let r = sss_root(s);
            let p = l - r;
            let d = s[l] - 1 - s[r];
            let out = sss_spec(s, fs);
            &&& 0 <= r < l
            &&& out.len() == s.len() + p * fs
            &&& forall|k: int| 0 <= k < l ==> out[k] == s[k]
            &&& out[l] == s[l] - 1
            &&& forall|k: int| s.len() <= k < out.len() ==> #[trigger] out[k] == out[k - p] + d
        }),
{
    let len = s.len() as int;
    let l = len - 1;
    lemma_sss_root_range(s);
    let r = sss_root(s);
    let p = l - r;
    let s2 = s.update(l, s[l] - 1);
    let d = s2[l] - s2[r];
    assert(d == s[l] - 1 - s[r]);
    let n = len + p * fs;
    assert(n >= len) by (nonlinear_arith)
        requires
            p >= 1,
            fs >= 0,
            n == len + p * fs,
    ;
    let out = sss_spec(s, fs);
    assert(out == Seq::new(
        n as nat,
        |k: int| s2[cyc(len, r, k as nat).0] + d * cyc(len, r, k as nat).1,
    ));
    assert(out.len() == n);
    assert forall|k: int| 0 <= k < l implies out[k] == s[k] by {
        lemma_cyc_front(len, r, k as nat);
        assert(out[k] == s2[k] + d * 0);
    }
    lemma_cyc_front(len, r, l as nat);
    assert(out[l] == s2[l] + d * 0);
    assert forall|k: int| len <= k < out.len() implies #[trigger] out[k] == out[k - p] + d by {
        lemma_cyc_period(len, r, k as nat);
        let a = cyc(len, r, k as nat);
        let b = cyc(len, r, (k - p) as nat);
        assert(out[k] == s2[a.0] + d * a.1);
        assert(out[k - p] == s2[b.0] + d * b.1);
        assert(d * a.1 == d * b.1 + d) by (nonlinear_arith)
            requires
                a.1 == b.1 + 1,
        ;
    }
}

// ============================================================
// SSS → NOCF: the bracket tokens
// ============================================================

/// A token of the bracket form of an SSS sequence.
#[derive(Debug, Clone, Copy, PartialEq, Eq, Structural)]
pub enum SssTok {
    Open,
    Close,
    Comma,
    Num(u64),
}

/// Commas among `b[0..k]`.
pub open spec fn commas_upto(b: Seq<SssTok>, k: int) -> nat
    decreases k,
{
    if k <= 0 || k > b.len() {
        0
    } else {
        commas_upto(b, k - 1) + if b[k - 1] == SssTok::Comma {
            1nat
        } else {
            0nat
        }
    }
}

/// Index of comma number `v` (from 0) at or after `i`, or `b.len()`.
pub open spec fn nth_comma(b: Seq<SssTok>, v: int, i: int) -> int
    decreases b.len() - i,
{
    if i < 0 || i >= b.len() {
        b.len() as int
    } else if b[i] == SssTok::Comma {
        if v <= 0 {
            i
        } else {
            nth_comma(b, v - 1, i + 1)
        }
    } else {
        nth_comma(b, v, i + 1)
    }
}

/// `k` commas.
pub open spec fn commas(k: nat) -> Seq<SssTok> {
    Seq::new(k, |i: int| SssTok::Comma)
}

/// One value placed into the bracket form at the cursor: as many commas as
/// the value exceeds the commas before the cursor, then `()`; or, for a
/// smaller value, `()` before the comma of that number.
pub open spec fn tok_step(b: Seq<SssTok>, cur: int, v: int) -> Option<(Seq<SssTok>, int)> {
    let cc = if cur > 0 {
        commas_upto(b, cur - 1) as int
    } else {
        0
    };
    if v == cc {
        Some((b.insert(cur, SssTok::Open).insert(cur + 1, SssTok::Close), cur + 1))
    } else if v > cc {
        let d = (v - cc) as nat;
        Some((b.subrange(0, cur) + commas(d) + seq![SssTok::Open, SssTok::Close] + b.subrange(cur, b.len() as int), cur + d + 1))
    } else {
        let p = nth_comma(b, v, 0);
        if p >= b.len() {
            None
        } else {
            Some((b.insert(p, SssTok::Open).insert(p + 1, SssTok::Close), p + 1))
        }
    }
}

/// The bracket form of a sequence and its cursor; the error of the first
/// value that cannot be placed.
pub open spec fn sss_tokens(seq: Seq<int>) -> Result<(Seq<SssTok>, int), Seq<char>>
    decreases seq.len(),
{
    if seq.len() == 0 {
        Ok((Seq::empty(), 0))
    } else {
        match sss_tokens(seq.drop_last()) {
            Err(e) => Err(e),
            Ok(st) => if seq.last() < 0 {
                Err("sequence values must be non-negative"@)
            } else {
                match tok_step(st.0, st.1, seq.last()) {
                    None => Err("invalid sequence"@),
                    Some(r) => Ok(r),
                }
            },
        }
    }
}

/// The nonnegative values summed.
pub open spec fn pos_sum(seq: Seq<int>) -> int
    decreases seq.len(),
{
    if seq.len() == 0 {
        0
    } else {
        pos_sum(seq.drop_last()) + if seq.last() > 0 {
            seq.last()
        } else {
            0
        }
    }
}

/// Tokens hold no numbers, the cursor points into them, and there are at
/// most twice the values' count plus their sum of them.
pub open spec fn tokens_ok(b: Seq<SssTok>, cur: int, n: int, total: int) -> bool {
    &&& 0 <= cur <= b.len()
    &&& b.len() > 0 ==> cur < b.len()
    &&& b.len() <= 2 * n + total
    &&& forall|i: int| 0 <= i < b.len() ==> !(#[trigger] b[i] is Num)
}

proof fn lemma_commas_upto(b: Seq<SssTok>, k: int)
    ensures
        commas_upto(b, k) <= if k <= 0 { 0 } else if k > b.len() { 0 } else { k },
    decreases k,
{
    if k > 0 && k <= b.len() {
        lemma_commas_upto(b, k - 1);
    }
}

proof fn lemma_nth_comma(b: Seq<SssTok>, v: int, i: int)
    requires
        0 <= i,
    ensures
        nth_comma(b, v, i) < b.len() ==> i <= nth_comma(b, v, i) && b[nth_comma(b, v, i)]
            == SssTok::Comma,
    decreases b.len() - i,
{
    if i < b.len() {
        if b[i] == SssTok::Comma {
            if v > 0 {
                lemma_nth_comma(b, v - 1, i + 1);
            }
        } else {
            lemma_nth_comma(b, v, i + 1);
        }
    }
}

proof fn lemma_sss_tokens_ok(seq: Seq<int>)
    ensures
        sss_tokens(seq) matches Ok(st) ==> tokens_ok(st.0, st.1, seq.len() as int, pos_sum(seq)),
        pos_sum(seq) >= 0,
    decreases seq.len(),
{
    if seq.len() > 0 {
        lemma_sss_tokens_ok(seq.drop_last());
        match sss_tokens(seq.drop_last()) {
            Err(_) => {},
            Ok(st) => {
                let (b, cur) = st;
                let v = seq.last();
                if v >= 0 {
                    let cc = if cur > 0 {
                        commas_upto(b, cur - 1) as int
                    } else {
                        0
                    };
                    lemma_commas_upto(b, cur - 1);
                    lemma_nth_comma(b, v, 0);
                    match tok_step(b, cur, v) {
                        None => {},
                        Some(r) => {
                            let nb = r.0;
                            if v == cc {
                                assert forall|i: int| 0 <= i < nb.len() implies !(#[trigger] nb[i] is Num) by {
                                    if i < cur {
                                        assert(nb[i] == b[i]);
                                    } else if i > cur + 1 {
                                        assert(nb[i] == b[i - 2]);
                                    }
                                }
                            } else if v > cc {
                                assert forall|i: int| 0 <= i < nb.len() implies !(#[trigger] nb[i] is Num) by {
                                    let d = (v - cc) as nat;
                                    if i < cur {
                                        assert(nb[i] == b[i]);
                                    } else if i < cur + d {
                                        assert(nb[i] == SssTok::Comma);
                                    } else if i >= cur + d + 2 {
                                        assert(nb[i] == b[i - d - 2]);
                                    }
                                }
                                assert(v - cc <= v);
                            } else {
                                let p = nth_comma(b, v, 0);
                                assert forall|i: int| 0 <= i < nb.len() implies !(#[trigger] nb[i] is Num) by {
                                    if i < p {
                                        assert(nb[i] == b[i]);
                                    } else if i > p + 1 {
                                        assert(nb[i] == b[i - 2]);
                                    }
                                }
                            }
                        },
                    }
                }
            },
        }
    }
}


// ============================================================
// SSS → NOCF: ones before commas, collapsing brackets, the W-number
// ============================================================

/// A comma with neither `1` nor `)` right before it.
pub open spec fn bare_comma(b: Seq<SssTok>, i: int) -> bool {
    b[i] == SssTok::Comma && (i == 0 || (b[i - 1] != SssTok::Num(1) && b[i - 1] != SssTok::Close))
}

/// A `1` put before every bare comma.
pub open spec fn add_ones(b: Seq<SssTok>) -> Seq<SssTok>
    decreases b.len(),
{
    if b.len() == 0 {
        Seq::empty()
    } else {
        let r = add_ones(b.drop_last());
        if bare_comma(b, b.len() - 1) {
            r + seq![SssTok::Num(1), SssTok::Comma]
        } else {
            r.push(b.last())
        }
    }
}

/// One left-to-right pass from `i`: `()` becomes 2 and `(n)` becomes
/// `n + 1`; the flag tells whether anything changed.
pub open spec fn collapse_pass(b: Seq<SssTok>, i: int, ch: bool) -> (Seq<SssTok>, bool)
    decreases b.len() - i,
{
    if i < 0 || i >= b.len() {
        (b, ch)
    } else if b[i] == SssTok::Open && i + 1 < b.len() && b[i + 1] == SssTok::Close {
        collapse_pass(b.subrange(0, i).push(SssTok::Num(2)) + b.subrange(i + 2, b.len() as int), i, true)
    } else if b[i] == SssTok::Open && i + 2 < b.len() && b[i + 1] is Num && b[i + 2] == SssTok::Close {
        collapse_pass(
            b.subrange(0, i).push(SssTok::Num((b[i + 1]->0 + 1) as u64)) + b.subrange(i + 3, b.len() as int),
            i,
            true,
        )
    } else {
        collapse_pass(b, i + 1, ch)
    }
}

pub proof fn lemma_collapse_pass_len(b: Seq<SssTok>, i: int, ch: bool)
    requires
        0 <= i,
    ensures
        collapse_pass(b, i, ch).0.len() <= b.len(),
        collapse_pass(b, i, ch).1 && !ch ==> collapse_pass(b, i, ch).0.len() < b.len(),
        !collapse_pass(b, i, ch).1 ==> collapse_pass(b, i, ch).0 == b,
        ch ==> collapse_pass(b, i, ch).1,
    decreases b.len() - i,
{
    if i < b.len() {
        if b[i] == SssTok::Open && i + 1 < b.len() && b[i + 1] == SssTok::Close {
            lemma_collapse_pass_len(b.subrange(0, i).push(SssTok::Num(2)) + b.subrange(i + 2, b.len() as int), i, true);
        } else if b[i] == SssTok::Open && i + 2 < b.len() && b[i + 1] is Num && b[i + 2] == SssTok::Close {
            lemma_collapse_pass_len(
                b.subrange(0, i).push(SssTok::Num((b[i + 1]->0 + 1) as u64)) + b.subrange(i + 3, b.len() as int),
                i,
                true,
            );
        } else {
            lemma_collapse_pass_len(b, i + 1, ch);
        }
    }
}

/// Passes repeated until one changes nothing.
pub open spec fn collapse_all(b: Seq<SssTok>) -> Seq<SssTok>
    decreases b.len(),
{
    let r = collapse_pass(b, 0, false);
    if !r.1 {
        b
    } else {
        proof {
            lemma_collapse_pass_len(b, 0, false);
        }
        collapse_all(r.0)
    }
}

/// Every number is at least 1 and, with the token count, at most `bound`.
pub open spec fn nums_ok(b: Seq<SssTok>, bound: int) -> bool {
    &&& b.len() + 2 <= bound
    &&& forall|i: int| 0 <= i < b.len() && (#[trigger] b[i]) is Num ==> 1 <= b[i]->0 && b[i]->0 + b.len() <= bound
}

proof fn lemma_collapse_pass_nums(b: Seq<SssTok>, i: int, ch: bool, bound: int)
    requires
        0 <= i,
        bound <= u64::MAX,
        nums_ok(b, bound),
    ensures
        nums_ok(collapse_pass(b, i, ch).0, bound),
    decreases b.len() - i,
{
    if i < b.len() {
        if b[i] == SssTok::Open && i + 1 < b.len() && b[i + 1] == SssTok::Close {
            let nb = b.subrange(0, i).push(SssTok::Num(2)) + b.subrange(i + 2, b.len() as int);
            assert forall|k: int| 0 <= k < nb.len() && (#[trigger] nb[k]) is Num implies 1 <= nb[k]->0
                && nb[k]->0 + nb.len() <= bound by {
                if k < i {
                    assert(nb[k] == b[k]);
                } else if k > i {
                    assert(nb[k] == b[k + 1]);
                }
            }
            lemma_collapse_pass_nums(nb, i, true, bound);
        } else if b[i] == SssTok::Open && i + 2 < b.len() && b[i + 1] is Num && b[i + 2] == SssTok::Close {
            let nb = b.subrange(0, i).push(SssTok::Num((b[i + 1]->0 + 1) as u64)) + b.subrange(i + 3, b.len() as int);
            assert(b[i + 1]->0 + 1 <= u64::MAX);
            assert forall|k: int| 0 <= k < nb.len() && (#[trigger] nb[k]) is Num implies 1 <= nb[k]->0
                && nb[k]->0 + nb.len() <= bound by {
                if k < i {
                    assert(nb[k] == b[k]);
                } else if k > i {
                    assert(nb[k] == b[k + 2]);
                }
            }
            lemma_collapse_pass_nums(nb, i, true, bound);
        } else {
            lemma_collapse_pass_nums(b, i + 1, ch, bound);
        }
    }
}

proof fn lemma_collapse_all_nums(b: Seq<SssTok>, bound: int)
    requires
        bound <= u64::MAX,
        nums_ok(b, bound),
    ensures
        nums_ok(collapse_all(b), bound),
    decreases b.len(),
{
    let r = collapse_pass(b, 0, false);
    if r.1 {
        lemma_collapse_pass_len(b, 0, false);
        lemma_collapse_pass_nums(b, 0, false, bound);
        lemma_collapse_all_nums(r.0, bound);
    }
}

/// The W-number text of the collapsed tokens, read from the end: `(`
/// becomes `)`, `)` becomes `W(`, each number is written one less.
pub open spec fn tok_text(t: SssTok) -> Seq<char> {
    match t {
        SssTok::Open => ")"@,
        SssTok::Close => "W("@,
        SssTok::Comma => ","@,
        SssTok::Num(n) => int_str(n - 1),
    }
}

pub open spec fn w_text(b: Seq<SssTok>) -> Seq<char>
    decreases b.len(),
{
    if b.len() == 0 {
        Seq::empty()
    } else {
        tok_text(b.last()) + w_text(b.drop_last())
    }
}


proof fn lemma_add_ones(b: Seq<SssTok>)
    ensures
        add_ones(b).len() <= 2 * b.len(),
        (forall|i: int| 0 <= i < b.len() ==> !(#[trigger] b[i] is Num)) ==> forall|i: int|
            0 <= i < add_ones(b).len() && (#[trigger] add_ones(b)[i]) is Num ==> add_ones(b)[i]
                == SssTok::Num(1),
        forall|i: int| 0 <= i < add_ones(b).len() ==> !bare_comma(add_ones(b), i),
        b.len() > 0 ==> add_ones(b).len() > 0 && add_ones(b).last() == b.last(),
    decreases b.len(),
{
    if b.len() > 0 {
        let r = add_ones(b.drop_last());
        lemma_add_ones(b.drop_last());
        let a = add_ones(b);
        if forall|i: int| 0 <= i < b.len() ==> !(#[trigger] b[i] is Num) {
            assert forall|i: int| 0 <= i < b.drop_last().len() implies !(#[trigger] b.drop_last()[i] is Num) by {
                assert(b.drop_last()[i] == b[i]);
            }
            assert forall|i: int| 0 <= i < a.len() && (#[trigger] a[i]) is Num implies a[i] == SssTok::Num(1) by {
                if i < r.len() {
                    assert(a[i] == r[i]);
                }
            }
        }
        assert forall|i: int| 0 <= i < a.len() implies !bare_comma(a, i) by {
            if i < r.len() {
                assert(a[i] == r[i]);
                if i > 0 {
                    assert(a[i - 1] == r[i - 1]);
                }
                assert(!bare_comma(r, i));
            } else if bare_comma(b, b.len() - 1) {
                if i == r.len() {
                    assert(a[i] == SssTok::Num(1));
                } else {
                    assert(a[i - 1] == SssTok::Num(1));
                }
            } else {
                assert(a[i] == b.last());
                if b.last() == SssTok::Comma {
                    assert(b.len() - 1 > 0);
                    assert(b[b.len() - 2] == SssTok::Num(1) || b[b.len() - 2] == SssTok::Close);
                    assert(b.drop_last().last() == b[b.len() - 2]);
                    assert(a[i - 1] == r.last());
                }
            }
        }
    }
}

/// Nothing is bare once the ones are in, so a second round adds nothing.
pub proof fn lemma_add_ones_settled(b: Seq<SssTok>)
    ensures
        add_ones(add_ones(b)) == add_ones(b),
{
    lemma_add_ones(b);
    lemma_add_ones_no_bare(add_ones(b));
}

proof fn lemma_add_ones_no_bare(b: Seq<SssTok>)
    requires
        forall|i: int| 0 <= i < b.len() ==> !bare_comma(b, i),
    ensures
        add_ones(b) == b,
    decreases b.len(),
{
    if b.len() > 0 {
        assert forall|i: int| 0 <= i < b.drop_last().len() implies !bare_comma(b.drop_last(), i) by {
            assert(b.drop_last()[i] == b[i]);
            if i > 0 {
                assert(b.drop_last()[i - 1] == b[i - 1]);
            }
            assert(!bare_comma(b, i));
        }
        lemma_add_ones_no_bare(b.drop_last());
        assert(!bare_comma(b, b.len() - 1));
        assert(b.drop_last().push(b.last()) =~= b);
    }
}

/// A decimal numeral at `pos`, read as a NOCF natural number the way a
/// `u32` cast to `i32` would give it.
pub open spec fn w_num(s: Seq<char>, pos: int) -> Result<(Nocf, int), Seq<char>> {
    let e = digits_end(s, pos);
    if e == pos {
        Err("unexpected character in W-number"@)
    } else {
        let v = digits_val(s, pos, e);
        if v > u32::MAX {
            Err("bad number in W-number"@)
        } else {
            Ok((nat_nocf(if v <= i32::MAX { v as nat } else { 0 }), e))
        }
    }
}

/// `W(a)` is `ψ(a)`; `W(s, …, a)` is `ψ_s(a)`.
pub open spec fn w_to_nocf(ps: Seq<Nocf>) -> Nocf {
    if ps.len() == 0 {
        Nocf::Zero
    } else if ps.len() == 1 {
        mk_psi(Nocf::Zero, ps[0])
    } else {
        mk_psi(ps[0], ps.last())
    }
}

/// A W-number at `pos`: a natural number or `W(p1,…,pn)`.
pub open spec fn w_node(s: Seq<char>, pos: int) -> Result<(Nocf, int), Seq<char>>
    decreases s.len() - pos, 0nat,
{
    if pos < 0 || pos >= s.len() {
        Err("unexpected end of W-number"@)
    } else if s[pos] == 'W' {
        if !(pos + 1 < s.len() && s[pos + 1] == '(') {
            Err("expected '(' after W"@)
        } else {
            match w_params(s, pos + 2, Seq::empty()) {
                Err(e) => Err(e),
                Ok(r) => if !(0 <= r.1 < s.len() && s[r.1] == ')') {
                    Err("expected ')'"@)
                } else {
                    Ok((w_to_nocf(r.0), r.1 + 1))
                },
            }
        }
    } else {
        w_num(s, pos)
    }
}

/// The comma-separated parameters from `pos` on, after those in `ps`.
pub open spec fn w_params(s: Seq<char>, pos: int, ps: Seq<Nocf>) -> Result<(Seq<Nocf>, int), Seq<char>>
    decreases s.len() - pos, 1nat,
{
    match w_node(s, pos) {
        Err(e) => Err(e),
        Ok(r) => {
            let ps2 = ps.push(r.0);
            if !(pos < r.1 <= s.len()) {
                Err(Seq::empty())
            } else if r.1 < s.len() && s[r.1] == ',' {
                w_params(s, r.1 + 1, ps2)
            } else {
                Ok((ps2, r.1))
            }
        },
    }
}

/// The whole text as one W-number.
pub open spec fn w_parse(s: Seq<char>) -> Result<Nocf, Seq<char>> {
    match w_node(s, 0) {
        Err(e) => Err(e),
        Ok(r) => if r.1 != s.len() {
            Err("trailing input in W-number"@)
        } else {
            Ok(r.0)
        },
    }
}

pub proof fn lemma_w_progress(s: Seq<char>, pos: int, ps: Seq<Nocf>)
    ensures
        w_node(s, pos) is Ok ==> pos < w_node(s, pos)->Ok_0.1 <= s.len(),
        w_params(s, pos, ps) is Ok ==> pos < w_params(s, pos, ps)->Ok_0.1 <= s.len(),
    decreases s.len() - pos,
{
    if 0 <= pos < s.len() {
        lemma_digits_end(s, pos);
        if pos + 2 <= s.len() {
            lemma_w_progress(s, pos + 2, Seq::empty());
        }
        match w_node(s, pos) {
            Err(_) => {},
            Ok(r) => {
                if pos < r.1 < s.len() {
                    lemma_w_progress(s, r.1 + 1, ps.push(r.0));
                }
            },
        }
    }
}

/// The NOCF term of an SSS sequence: the bracket form with ones before bare
/// commas, brackets collapsed into numbers, read backwards as a W-number;
/// wrapped in ψ once the sequence is at least `0,1`.
pub open spec fn sss_nocf_spec(seq: Seq<int>) -> Result<Nocf, Seq<char>> {
    match sss_tokens(seq) {
        Err(e) => Err(e),
        Ok(st) => match w_parse(w_text(collapse_all(add_ones(st.0)))) {
            Err(e) => Err(e),
            Ok(x) => Ok(
                if seq_lex(seq, seq![0int, 1int]) >= 0 {
                    mk_psi(Nocf::Zero, x)
                } else {
                    x
                },
            ),
        },
    }
}

/// The sequence is short and small enough for its bracket numbers to stay
/// within `u32`.
pub open spec fn sss_nocf_fits(seq: Seq<int>) -> bool {
    4 * seq.len() + 2 * pos_sum(seq) + 2 <= u32::MAX
}


// ============================================================
// SSS → NOCF: computation
// ============================================================

fn commas_before(b: &Vec<SssTok>, k: usize) -> (r: usize)
    requires
        k <= b@.len(),
    ensures
        r == commas_upto(b@, k as int),
        r <= k,
{
    let mut c: usize = 0;
    let mut i: usize = 0;
    while i < k
        invariant
            i <= k <= b@.len(),
            c == commas_upto(b@, i as int),
            c <= i,
        decreases k - i,
    {
        if b[i] == SssTok::Comma {
            c = c + 1;
        }
        i = i + 1;
    }
    c
}

fn nth_comma_exec(b: &Vec<SssTok>, v: usize) -> (r: usize)
    ensures
        r == nth_comma(b@, v as int, 0),
{
    let n = b.len();
    let mut i: usize = 0;
    let mut left: usize = v;
    while i < n
        invariant
            i <= n == b@.len(),
            nth_comma(b@, left as int, i as int) == nth_comma(b@, v as int, 0),
        decreases n - i,
    {
        if b[i] == SssTok::Comma {
            if left == 0 {
                return i;
            }
            left = left - 1;
        }
        i = i + 1;
    }
    n
}

/// The bracket form of the sequence and its cursor.
fn sss_tokens_exec(seq: &[i32]) -> (r: Result<(Vec<SssTok>, usize), String>)
    ensures
        match r {
            Ok(st) => sss_tokens(ints(seq@)) == Ok::<(Seq<SssTok>, int), Seq<char>>((st.0@, st.1 as int)),
            Err(e) => sss_tokens(ints(seq@)) == Err::<(Seq<SssTok>, int), Seq<char>>(e@),
        },
{
    let ghost s = ints(seq@);
    let mut black: Vec<SssTok> = Vec::new();
    let mut cursor: usize = 0;
    let mut k: usize = 0;
    proof {
        assert(s.take(0) =~= Seq::<int>::empty());
    }
    while k < seq.len()
        invariant
            k <= seq@.len(),
            s == ints(seq@),
            sss_tokens(s.take(k as int)) == Ok::<(Seq<SssTok>, int), Seq<char>>((black@, cursor as int)),
        decreases seq.len() - k,
    {
        proof {
            assert(s.take(k + 1).drop_last() =~= s.take(k as int));
            assert(s.take(k + 1).last() == s[k as int]);
            lemma_sss_tokens_ok(s.take(k as int));
        }
        let v = seq[k];
        if v < 0 {
            let e = lit("sequence values must be non-negative");
            proof {
                lemma_tokens_err_prefix(s, k as int + 1);
            }
            return Err(e);
        }
        let len = black.len();
        let cc: usize = if cursor > 0 {
            commas_before(&black, cursor - 1)
        } else {
            0
        };
        let vv = v as usize;
        let ghost b0 = black@;
        if vv == cc {
            black.insert(cursor, SssTok::Open);
            black.insert(cursor + 1, SssTok::Close);
            cursor = cursor + 1;
        } else if vv > cc {
            let d = vv - cc;
            black.insert(cursor, SssTok::Open);
            black.insert(cursor + 1, SssTok::Close);
            let mut j: usize = 0;
            proof {
                assert(black@ =~= b0.subrange(0, cursor as int) + commas(0) + seq![SssTok::Open, SssTok::Close] + b0.subrange(cursor as int, b0.len() as int));
            }
            while j < d
                invariant
                    j <= d,
                    cursor <= b0.len(),
                    black@ == b0.subrange(0, cursor as int) + commas(j as nat) + seq![SssTok::Open, SssTok::Close] + b0.subrange(cursor as int, b0.len() as int),
                decreases d - j,
            {
                black.insert(cursor, SssTok::Comma);
                j = j + 1;
                proof {
                    assert(black@ =~= b0.subrange(0, cursor as int) + commas(j as nat) + seq![SssTok::Open, SssTok::Close] + b0.subrange(cursor as int, b0.len() as int));
                }
            }
            let grown = black.len();
            proof {
                assert(cursor + d + 2 <= grown);
            }
            cursor = cursor + d + 1;
        } else {
            let p = nth_comma_exec(&black, vv);
            if p >= len {
                let e = lit("invalid sequence");
                proof {
                    lemma_tokens_err_prefix(s, k as int + 1);
                }
                return Err(e);
            }
            black.insert(p, SssTok::Open);
            black.insert(p + 1, SssTok::Close);
            cursor = p + 1;
        }
        k = k + 1;
    }
    proof {
        assert(s.take(seq@.len() as int) =~= s);
    }
    Ok((black, cursor))
}

/// An error while placing the first values is the error of the whole.
proof fn lemma_tokens_err_prefix(s: Seq<int>, k: int)
    requires
        0 < k <= s.len(),
        sss_tokens(s.take(k)) is Err,
    ensures
        sss_tokens(s) == sss_tokens(s.take(k)),
    decreases s.len() - k,
{
    if k < s.len() {
        assert(s.drop_last().take(k) =~= s.take(k));
        lemma_tokens_err_prefix(s.drop_last(), k);
    } else {
        assert(s.take(k) =~= s);
    }
}


fn add_ones_exec(b: &Vec<SssTok>) -> (r: Vec<SssTok>)
    ensures
        r@ == add_ones(b@),
{
    let n = b.len();
    let mut r: Vec<SssTok> = Vec::new();
    let mut i: usize = 0;
    proof {
        assert(b@.take(0) =~= Seq::<SssTok>::empty());
    }
    while i < n
        invariant
            i <= n == b@.len(),
            r@ == add_ones(b@.take(i as int)),
        decreases n - i,
    {
        proof {
            assert(b@.take(i + 1).drop_last() =~= b@.take(i as int));
            assert(b@.take(i + 1).last() == b@[i as int]);
            if i > 0 {
                assert(b@.take(i + 1)[i - 1] == b@[i - 1]);
            }
            assert(bare_comma(b@.take(i + 1), i as int) == bare_comma(b@, i as int));
        }
        if b[i] == SssTok::Comma && (i == 0 || (b[i - 1] != SssTok::Num(1) && b[i - 1] != SssTok::Close)) {
            r.push(SssTok::Num(1));
            r.push(SssTok::Comma);
        } else {
            r.push(b[i]);
        }
        i = i + 1;
    }
    proof {
        assert(b@.take(n as int) =~= b@);
    }
    r
}


/// One collapsing pass over the whole token list.
fn collapse_pass_exec(b: &Vec<SssTok>, Ghost(bound): Ghost<int>) -> (r: (Vec<SssTok>, bool))
    requires
        nums_ok(b@, bound),
        bound <= u32::MAX,
    ensures
        (r.0@, r.1) == collapse_pass(b@, 0, false),
{
    let n = b.len();
    let mut out: Vec<SssTok> = Vec::new();
    let mut ch = false;
    let mut j: usize = 0;
    proof {
        assert(out@ + b@.subrange(0, n as int) =~= b@);
    }
    while j < n
        invariant
            j <= n == b@.len(),
            nums_ok(b@, bound),
            bound <= u32::MAX,
            collapse_pass(out@ + b@.subrange(j as int, n as int), out@.len() as int, ch) == collapse_pass(b@, 0, false),
        decreases n - j,
    {
        let ghost cur = out@ + b@.subrange(j as int, n as int);
        let ghost i = out@.len() as int;
        proof {
            assert(cur[i] == b@[j as int]);
            if j + 1 < n {
                assert(cur[i + 1] == b@[j + 1]);
            }
            if j + 2 < n {
                assert(cur[i + 2] == b@[j + 2]);
            }
        }
        if b[j] == SssTok::Open && j + 1 < n && b[j + 1] == SssTok::Close {
            proof {
                let nxt = cur.subrange(0, i).push(SssTok::Num(2)) + cur.subrange(i + 2, cur.len() as int);
                assert(nxt =~= out@.push(SssTok::Num(2)) + b@.subrange(j + 2, n as int));
                assert(collapse_pass(nxt, i, true) == collapse_pass(nxt, i + 1, true));
            }
            out.push(SssTok::Num(2));
            ch = true;
            j = j + 2;
        } else if b[j] == SssTok::Open && j + 2 < n && matches!(b[j + 1], SssTok::Num(_)) && b[j + 2] == SssTok::Close {
            let m = match b[j + 1] {
                SssTok::Num(m) => m,
                _ => 0,
            };
            proof {
                assert(b@[j + 1] is Num);
                assert(b@[j + 1]->0 + b@.len() <= bound);
            }
            let t = SssTok::Num(m + 1);
            proof {
                let nxt = cur.subrange(0, i).push(t) + cur.subrange(i + 3, cur.len() as int);
                assert(nxt =~= out@.push(t) + b@.subrange(j + 3, n as int));
                assert(collapse_pass(nxt, i, true) == collapse_pass(nxt, i + 1, true));
            }
            out.push(t);
            ch = true;
            j = j + 3;
        } else {
            proof {
                assert(out@.push(b@[j as int]) + b@.subrange(j + 1, n as int) =~= cur);
            }
            out.push(b[j]);
            j = j + 1;
        }
    }
    proof {
        assert(out@ + b@.subrange(n as int, n as int) =~= out@);
    }
    (out, ch)
}

/// Collapsing passes until one changes nothing.
fn collapse_all_exec(b: Vec<SssTok>, Ghost(bound): Ghost<int>) -> (r: Vec<SssTok>)
    requires
        nums_ok(b@, bound),
        bound <= u32::MAX,
    ensures
        r@ == collapse_all(b@),
{
    let ghost orig = b@;
    let mut cur = b;
    loop
        invariant
            nums_ok(cur@, bound),
            bound <= u32::MAX,
            collapse_all(cur@) == collapse_all(orig),
            orig == b@,
        decreases cur@.len(),
    {
        let (nb, ch) = collapse_pass_exec(&cur, Ghost(bound));
        proof {
            lemma_collapse_pass_len(cur@, 0, false);
            lemma_collapse_pass_nums(cur@, 0, false, bound);
        }
        if !ch {
            proof {
                assert(collapse_all(cur@) == cur@);
            }
            return cur;
        }
        cur = nb;
    }
}

/// The W-number text of collapsed tokens.
fn w_text_exec(b: &Vec<SssTok>) -> (r: Vec<char>)
    requires
        forall|i: int| 0 <= i < b@.len() && (#[trigger] b@[i]) is Num ==> 1 <= b@[i]->0,
    ensures
        r@ == w_text(b@),
{
    let n = b.len();
    let mut w = String::new();
    let mut k: usize = n;
    proof {
        assert(b@.take(n as int) =~= b@);
        assert(w@ + w_text(b@.take(n as int)) =~= w_text(b@));
    }
    while k > 0
        invariant
            k <= n == b@.len(),
            forall|i: int| 0 <= i < b@.len() && (#[trigger] b@[i]) is Num ==> 1 <= b@[i]->0,
            w@ + w_text(b@.take(k as int)) == w_text(b@),
        decreases k,
    {
        let ghost before = w@;
        proof {
            assert(b@.take(k as int).last() == b@[k - 1]);
            assert(b@.take(k as int).drop_last() =~= b@.take(k - 1));
        }
        match b[k - 1] {
            SssTok::Open => {
                w.append(")");
            },
            SssTok::Close => {
                w.append("W(");
            },
            SssTok::Comma => {
                w.append(",");
            },
            SssTok::Num(m) => {
                proof {
                    assert(b@[k - 1] is Num);
                }
                push_nat(&mut w, m - 1);
            },
        }
        proof {
            assert(w@ =~= before + tok_text(b@[k - 1]));
            assert(w@ + w_text(b@.take(k - 1)) =~= before + w_text(b@.take(k as int)));
        }
        k = k - 1;
    }
    proof {
        assert(b@.take(0) =~= Seq::<SssTok>::empty());
        assert(w@ =~= w_text(b@));
    }
    chars_of(w.as_str())
}


fn w_num_exec(s: &Vec<char>, pos: usize) -> (r: Result<(Nocf, usize), String>)
    requires
        pos < s@.len(),
    ensures
        match r {
            Ok(x) => w_num(s@, pos as int) == Ok::<(Nocf, int), Seq<char>>((x.0, x.1 as int)),
            Err(e) => w_num(s@, pos as int) == Err::<(Nocf, int), Seq<char>>(e@),
        },
{
    let n = s.len();
    let ghost e = digits_end(s@, pos as int);
    proof {
        lemma_digits_end(s@, pos as int);
    }
    let mut k: usize = pos;
    let mut v: u64 = 0;
    while k < n && is_digit_char(s[k])
        invariant
            pos <= k <= e <= n == s@.len(),
            e == digits_end(s@, pos as int),
            forall|t: int| pos <= t < e ==> is_digit(#[trigger] s@[t]),
            e < s@.len() ==> !is_digit(s@[e]),
            v == digits_val(s@, pos as int, k as int),
            v <= u32::MAX,
        decreases n - k,
    {
        proof {
            assert(k < e);
            lemma_digits_val_mono(s@, pos as int, k + 1, e);
        }
        let d = digit_of(s[k]) as u64;
        if v * 10 + d > 0xffff_ffff {
            proof {
                assert(digits_val(s@, pos as int, k + 1) == v * 10 + d);
                assert(e != pos);
            }
            return Err(lit("bad number in W-number"));
        }
        v = v * 10 + d;
        k = k + 1;
    }
    proof {
        assert(k == e);
    }
    if k == pos {
        return Err(lit("unexpected character in W-number"));
    }
    let m: i32 = if v <= 0x7fff_ffff {
        v as i32
    } else {
        0
    };
    Ok((Nocf::from_nat(m), k))
}

fn w_to_nocf_exec(ps: &Vec<Nocf>) -> (r: Nocf)
    ensures
        r == w_to_nocf(ps@),
{
    let n = ps.len();
    if n == 0 {
        Nocf::Zero
    } else if n == 1 {
        Nocf::psi(Nocf::Zero, clone_nocf(&ps[0]))
    } else {
        Nocf::psi(clone_nocf(&ps[0]), clone_nocf(&ps[n - 1]))
    }
}

fn w_node_exec(s: &Vec<char>, pos: usize) -> (r: Result<(Nocf, usize), String>)
    requires
        pos <= s@.len(),
    ensures
        match r {
            Ok(x) => w_node(s@, pos as int) == Ok::<(Nocf, int), Seq<char>>((x.0, x.1 as int)),
            Err(e) => w_node(s@, pos as int) == Err::<(Nocf, int), Seq<char>>(e@),
        },
    decreases s@.len() - pos, 0nat,
{
    let n = s.len();
    if pos >= n {
        return Err(lit("unexpected end of W-number"));
    }
    if s[pos] == 'W' {
        if !(pos + 1 < n && s[pos + 1] == '(') {
            return Err(lit("expected '(' after W"));
        }
        let empty: Vec<Nocf> = Vec::new();
        proof {
            assert(empty@ =~= Seq::<Nocf>::empty());
        }
        match w_params_exec(s, pos + 2, empty) {
            Err(e) => Err(e),
            Ok((ps, p)) => {
                if !(p < n && s[p] == ')') {
                    return Err(lit("expected ')'"));
                }
                Ok((w_to_nocf_exec(&ps), p + 1))
            },
        }
    } else {
        w_num_exec(s, pos)
    }
}

fn w_params_exec(s: &Vec<char>, pos: usize, ps: Vec<Nocf>) -> (r: Result<(Vec<Nocf>, usize), String>)
    requires
        pos <= s@.len(),
    ensures
        match r {
            Ok(x) => w_params(s@, pos as int, ps@) == Ok::<(Seq<Nocf>, int), Seq<char>>((x.0@, x.1 as int)),
            Err(e) => w_params(s@, pos as int, ps@) == Err::<(Seq<Nocf>, int), Seq<char>>(e@),
        },
    decreases s@.len() - pos, 1nat,
{
    match w_node_exec(s, pos) {
        Err(e) => Err(e),
        Ok((x, p)) => {
            proof {
                lemma_w_progress(s@, pos as int, ps@);
            }
            let mut ps2 = ps;
            ps2.push(x);
            if p < s.len() && s[p] == ',' {
                w_params_exec(s, p + 1, ps2)
            } else {
                Ok((ps2, p))
            }
        },
    }
}

fn w_parse_exec(s: &Vec<char>) -> (r: Result<Nocf, String>)
    ensures
        match r {
            Ok(x) => w_parse(s@) == Ok::<Nocf, Seq<char>>(x),
            Err(e) => w_parse(s@) == Err::<Nocf, Seq<char>>(e@),
        },
{
    match w_node_exec(s, 0) {
        Err(e) => Err(e),
        Ok((x, p)) => {
            if p != s.len() {
                Err(lit("trailing input in W-number"))
            } else {
                Ok(x)
            }
        },
    }
}

/// Whether the sequence is at least `0,1` in the lexicographic order.
fn at_least_zero_one(seq: &[i32]) -> (r: bool)
    ensures
        r == (seq_lex(ints(seq@), seq![0int, 1int]) >= 0),
{
    let ghost s = ints(seq@);
    proof {
        reveal_with_fuel(seq_lex, 4);
        if s.len() > 0 {
            assert(seq![0int, 1int].drop_first() =~= seq![1int]);
            assert(seq![1int].drop_first() =~= Seq::<int>::empty());
            if s.len() > 1 {
                assert(s.drop_first()[0] == s[1]);
            }
        }
    }
    let n = seq.len();
    n >= 1 && (seq[0] > 0 || (seq[0] == 0 && n >= 2 && seq[1] >= 1))
}

/// The NOCF term of an SSS sequence (see `sss_nocf_spec`): the sequence
/// is laid out as brackets and commas, `1` goes before each bare comma,
/// brackets collapse into numbers, and the tokens read backwards form a
/// W-number; sequences from `0,1` on are wrapped in ψ.
pub fn sss_to_nocf(seq: &[i32]) -> (r: Result<Nocf, String>)
    requires
        sss_nocf_fits(ints(seq@)),
    ensures
        match r {
            Ok(x) => sss_nocf_spec(ints(seq@)) == Ok::<Nocf, Seq<char>>(x),
            Err(e) => sss_nocf_spec(ints(seq@)) == Err::<Nocf, Seq<char>>(e@),
        },
{
    let ghost s = ints(seq@);
    let (b, _cursor) = match sss_tokens_exec(seq) {
        Err(e) => {
            return Err(e);
        },
        Ok(st) => st,
    };
    let ghost bound = 4 * s.len() + 2 * pos_sum(s) + 2;
    proof {
        lemma_sss_tokens_ok(s);
        lemma_add_ones(b@);
        let a = add_ones(b@);
        assert forall|i: int| 0 <= i < a.len() && (#[trigger] a[i]) is Num implies 1 <= a[i]->0
            && a[i]->0 + a.len() <= bound by {
            assert(a[i] == SssTok::Num(1));
        }
    }
    let b2 = add_ones_exec(&b);
    let b3 = collapse_all_exec(b2, Ghost(bound));
    proof {
        lemma_collapse_all_nums(add_ones(b@), bound);
    }
    let w = w_text_exec(&b3);
    let x = match w_parse_exec(&w) {
        Err(e) => {
            return Err(e);
        },
        Ok(x) => x,
    };
    if at_least_zero_one(seq) {
        Ok(Nocf::psi(Nocf::Zero, x))
    } else {
        Ok(x)
    }
}


// ============================================================
// SSS → TPrSS
// ============================================================

/// Texts joined by commas.
pub open spec fn join_commas(es: Seq<Seq<char>>) -> Seq<char>
    decreases es.len(),
{
    if es.len() == 0 {
        Seq::empty()
    } else if es.len() == 1 {
        es[0]
    } else {
        join_commas(es.drop_last()) + ","@ + es.last()
    }
}

/// Splitting at commas outside brackets, read up to the end of `s`: the
/// finished pieces, the piece being read, and the bracket depth.
pub open spec fn split_state(s: Seq<char>) -> (Seq<Seq<char>>, Seq<char>, int)
    decreases s.len(),
{
    if s.len() == 0 {
        (Seq::empty(), Seq::empty(), 0)
    } else {
        let st = split_state(s.drop_last());
        let c = s.last();
        if c == '(' {
            (st.0, st.1.push(c), st.2 + 1)
        } else if c == ')' {
            (st.0, st.1.push(c), st.2 - 1)
        } else if c == ',' && st.2 == 0 {
            (st.0.push(st.1), Seq::empty(), st.2)
        } else {
            (st.0, st.1.push(c), st.2)
        }
    }
}

/// The pieces of `s` between commas outside brackets; an empty last piece
/// is left out.
pub open spec fn split_top(s: Seq<char>) -> Seq<Seq<char>> {
    let st = split_state(s);
    if st.1.len() > 0 {
        st.0.push(st.1)
    } else {
        st.0
    }
}

/// The elements of a column text: `0` alone, the pieces inside its outer
/// brackets, or the text itself.
pub open spec fn flatten_col(t: Seq<char>) -> Seq<Seq<char>> {
    if t == "0"@ {
        seq!["0"@]
    } else if t.len() >= 2 && t[0] == '(' && t.last() == ')' {
        split_top(t.subrange(1, t.len() - 1))
    } else {
        seq![t]
    }
}

/// The TPrSS column of a NOCF term: `ψ_v(a)` is the bracketed list of the
/// subscript (a natural number written as such) followed by the elements
/// of the argument's column.
pub open spec fn tp_node(x: Nocf) -> Seq<char>
    decreases x, 0nat,
{
    match x {
        Nocf::Zero => "0"@,
        Nocf::Psi(v, a) => "("@ + join_commas(seq![tp_sub(*v)] + tp_arg(*a)) + ")"@,
    }
}

pub open spec fn tp_sub(v: Nocf) -> Seq<char>
    decreases v, 1nat,
{
    if v is Zero {
        "0"@
    } else if nocf_nat(v) >= 0 {
        nat_str(nocf_nat(v) as nat)
    } else {
        tp_node(v)
    }
}

pub open spec fn tp_arg(a: Nocf) -> Seq<Seq<char>>
    decreases a, 1nat,
{
    if a is Zero {
        Seq::empty()
    } else {
        flatten_col(tp_node(a))
    }
}

/// Every natural number that the conversion reads off fits in an `i32`.
pub open spec fn tp_ok(x: Nocf) -> bool
    decreases x,
{
    match x {
        Nocf::Zero => true,
        Nocf::Psi(v, a) => {
            &&& nat_fits(*v)
            &&& (!(*v is Zero) && nocf_nat(*v) < 0 ==> tp_ok(*v))
            &&& (!(*a is Zero) ==> nat_fits(*a) && tp_ok(*a) && tp_node(*a).len() <= i32::MAX)
        },
    }
}

/// The TPrSS column of an SSS sequence without its outer brackets.
pub open spec fn sss_tprss_spec(seq: Seq<int>) -> Result<Seq<char>, Seq<char>> {
    match sss_nocf_spec(seq) {
        Err(e) => Err(e),
        Ok(x) => Ok(tp_node(x).subrange(1, tp_node(x).len() - 1)),
    }
}

pub open spec fn texts(v: Seq<Vec<char>>) -> Seq<Seq<char>> {
    v.map_values(|e: Vec<char>| e@)
}

fn split_top_exec(t: &Vec<char>, from: usize, to: usize) -> (r: Vec<Vec<char>>)
    requires
        from <= to <= t@.len(),
        t@.len() <= i32::MAX,
    ensures
        texts(r@) == split_top(t@.subrange(from as int, to as int)),
{
    let ghost s = t@.subrange(from as int, to as int);
    let mut parts: Vec<Vec<char>> = Vec::new();
    let mut cur: Vec<char> = Vec::new();
    let mut depth: i64 = 0;
    let mut i: usize = from;
    proof {
        assert(s.take(0) =~= Seq::<char>::empty());
        assert(texts(parts@) =~= Seq::<Seq<char>>::empty());
    }
    while i < to
        invariant
            from <= i <= to <= t@.len(),
            t@.len() <= i32::MAX,
            s == t@.subrange(from as int, to as int),
            split_state(s.take(i - from)) == (texts(parts@), cur@, depth as int),
            -(i - from) <= depth <= i - from,
        decreases to - i,
    {
        let c = t[i];
        proof {
            assert(s.take(i - from + 1).drop_last() =~= s.take(i - from));
            assert(s.take(i - from + 1).last() == c);
        }
        if c == '(' {
            cur.push(c);
            depth = depth + 1;
        } else if c == ')' {
            cur.push(c);
            depth = depth - 1;
        } else if c == ',' && depth == 0 {
            let ghost tp = texts(parts@);
            let ghost cv = cur@;
            parts.push(cur);
            cur = Vec::new();
            proof {
                assert(texts(parts@) =~= tp.push(cv));
                assert(cur@ =~= Seq::<char>::empty());
            }
        } else {
            cur.push(c);
        }
        i = i + 1;
    }
    proof {
        assert(s.take(to - from) =~= s);
    }
    if cur.len() > 0 {
        let ghost tp = texts(parts@);
        let ghost cv = cur@;
        parts.push(cur);
        proof {
            assert(texts(parts@) =~= tp.push(cv));
        }
    }
    parts
}

fn flatten_col_exec(t: &Vec<char>) -> (r: Vec<Vec<char>>)
    requires
        t@.len() <= i32::MAX,
    ensures
        texts(r@) == flatten_col(t@),
{
    proof {
        reveal_strlit("0");
    }
    let n = t.len();
    if n == 1 && t[0] == '0' {
        let mut r: Vec<Vec<char>> = Vec::new();
        let z = vec!['0'];
        proof {
            assert(z@ =~= "0"@);
        }
        r.push(z);
        proof {
            assert(t@ =~= "0"@);
            assert(texts(r@) =~= seq!["0"@]);
        }
        return r;
    }
    proof {
        if t@ == "0"@ {
            assert(t@.len() == 1 && t@[0] == '0');
        }
    }
    if n >= 2 && t[0] == '(' && t[n - 1] == ')' {
        split_top_exec(t, 1, n - 1)
    } else {
        let mut r: Vec<Vec<char>> = Vec::new();
        let c = copy_chars(t);
        r.push(c);
        proof {
            assert(texts(r@) =~= seq![t@]);
        }
        r
    }
}

fn copy_chars(t: &Vec<char>) -> (r: Vec<char>)
    ensures
        r@ == t@,
{
    let mut r: Vec<char> = Vec::new();
    let mut i: usize = 0;
    while i < t.len()
        invariant
            i <= t@.len(),
            r@ == t@.take(i as int),
        decreases t.len() - i,
    {
        r.push(t[i]);
        i = i + 1;
        proof {
            assert(r@ =~= t@.take(i as int));
        }
    }
    proof {
        assert(t@.take(t@.len() as int) =~= t@);
    }
    r
}

fn tp_sub_exec(v: &Nocf) -> (r: Vec<char>)
    requires
        nat_fits(*v),
        !(*v is Zero) && nocf_nat(*v) < 0 ==> tp_ok(*v),
    ensures
        r@ == tp_sub(*v),
    decreases *v, 1nat,
{
    if v.is_zero() {
        proof {
            reveal_strlit("0");
        }
        return vec!['0'];
    }
    let n = v.to_nat();
    if n >= 0 {
        let mut s = String::new();
        push_nat(&mut s, n as u64);
        return chars_of(s.as_str());
    }
    tp_node_exec(v)
}

fn tp_node_exec(x: &Nocf) -> (r: Vec<char>)
    requires
        tp_ok(*x),
    ensures
        r@ == tp_node(*x),
    decreases *x, 0nat,
{
    match x {
        Nocf::Zero => {
            proof {
                reveal_strlit("0");
            }
            vec!['0']
        },
        Nocf::Psi(v, a) => {
            let mut elems: Vec<Vec<char>> = Vec::new();
            elems.push(tp_sub_exec(v));
            if !a.is_zero() {
                let t = tp_node_exec(a);
                let parts = flatten_col_exec(&t);
                let mut k: usize = 0;
                let ghost first = texts(elems@);
                while k < parts.len()
                    invariant
                        k <= parts@.len(),
                        texts(elems@) == first + texts(parts@).take(k as int),
                    decreases parts.len() - k,
                {
                    let ghost te = texts(elems@);
                    let piece = copy_chars(&parts[k]);
                    elems.push(piece);
                    proof {
                        assert(texts(elems@) =~= te.push(parts@[k as int]@));
                        assert(texts(parts@).take(k + 1) =~= texts(parts@).take(k as int).push(parts@[k as int]@));
                    }
                    k = k + 1;
                    proof {
                        assert(texts(elems@) =~= first + texts(parts@).take(k as int));
                    }
                }
                proof {
                    assert(texts(parts@).take(parts@.len() as int) =~= texts(parts@));
                }
            }
            proof {
                assert(texts(elems@) =~= seq![tp_sub(**v)] + tp_arg(**a));
            }
            let mut r: Vec<char> = Vec::new();
            r.push('(');
            let mut k: usize = 0;
            let ghost es = texts(elems@);
            proof {
                reveal_strlit("(");
                reveal_strlit(")");
                reveal_strlit(",");
                assert(es.take(0) =~= Seq::<Seq<char>>::empty());
                assert(r@ =~= "("@ + join_commas(es.take(0)));
            }
            while k < elems.len()
                invariant
                    k <= elems@.len(),
                    es == texts(elems@),
                    r@ == "("@ + join_commas(es.take(k as int)),
                decreases elems.len() - k,
            {
                proof {
                    assert(es.take(k + 1).drop_last() =~= es.take(k as int));
                    reveal_strlit("(");
                    reveal_strlit(",");
                }
                let ghost before = r@;
                if k > 0 {
                    r.push(',');
                }
                let e = &elems[k];
                let mut j: usize = 0;
                let ghost mid = r@;
                while j < e.len()
                    invariant
                        j <= e@.len(),
                        r@ == mid + e@.take(j as int),
                    decreases e.len() - j,
                {
                    r.push(e[j]);
                    j = j + 1;
                    proof {
                        assert(r@ =~= mid + e@.take(j as int));
                    }
                }
                proof {
                    assert(e@.take(e@.len() as int) =~= e@);
                    assert(es[k as int] == e@);
                    if k == 0 {
                        assert(es.take(1) =~= seq![es[0]]);
                        assert(r@ =~= "("@ + join_commas(es.take(1)));
                    } else {
                        assert(r@ =~= "("@ + join_commas(es.take(k + 1)));
                    }
                }
                k = k + 1;
            }
            r.push(')');
            proof {
                assert(es.take(es.len() as int) =~= es);
                assert(r@ =~= tp_node(*x));
            }
            r
        },
    }
}

/// The TPrSS column of an SSS sequence (without its outer brackets), read
/// off its NOCF term (see `sss_to_nocf`).
pub fn sss_to_tprss(seq: &[i32]) -> (r: Result<String, String>)
    requires
        sss_nocf_fits(ints(seq@)),
        sss_nocf_spec(ints(seq@)) matches Ok(x) ==> x is Psi && tp_ok(x),
    ensures
        match r {
            Ok(t) => sss_tprss_spec(ints(seq@)) == Ok::<Seq<char>, Seq<char>>(t@),
            Err(e) => sss_tprss_spec(ints(seq@)) == Err::<Seq<char>, Seq<char>>(e@),
        },
{
    let x = match sss_to_nocf(seq) {
        Err(e) => {
            return Err(e);
        },
        Ok(x) => x,
    };
    let col = tp_node_exec(&x);
    proof {
        reveal_strlit("(");
        reveal_strlit(")");
    }
    let n = col.len();
    let mut out = String::new();
    push_chars(&mut out, &col, 1, n - 1);
    proof {
        assert(out@ =~= tp_node(x).subrange(1, tp_node(x).len() - 1));
    }
    Ok(out)
}


// ============================================================
// SSS → BOCF: model
// ============================================================

/// Rounds allowed for each normalization of a term list, and depth allowed
/// for each ψ-effect; beyond them the conversion gives no term.
pub const SSS_ROUNDS: u64 = 100000;

/// Component-wise comparison: ±3 where the subscripts differ, ±2 where
/// the arguments do, ±1 where the tails do, 0 for equal terms.
pub open spec fn sss_order(a: Term, b: Term) -> int
    decreases a,
{
    if a == b {
        0
    } else if a is None {
        -3
    } else if b is None {
        3
    } else {
        let na = a->0;
        let nb = b->0;
        let k = sss_order(na.a, nb.a);
        if k > 0 {
            3
        } else if k < 0 {
            -3
        } else {
            let k2 = sss_order(na.b, nb.b);
            if k2 > 0 {
                2
            } else if k2 < 0 {
                -2
            } else if sss_order(na.c, nb.c) > 0 {
                1
            } else {
                -1
            }
        }
    }
}

/// `l[a] + … + l[b-1]`, added left to right.
pub open spec fn sum_range(l: Seq<Term>, a: int, b: int) -> Term
    decreases b - a,
{
    if b <= a {
        None
    } else {
        spec_add(sum_range(l, a, b - 1), l[b - 1])
    }
}

/// `x` with its tail cut where it falls below `y` at level `k`.
pub open spec fn s_truncate(x: Term, y: Term, k: int) -> Term
    decreases x,
{
    if y is None {
        x
    } else if sss_order(x, y) < k || x is None {
        None
    } else {
        mk(x->0.a, x->0.b, s_truncate(x->0.c, y, k))
    }
}

/// The ψ-subscript product: one `ψ_sub(log p)` for each summand `p`.
pub open spec fn s_times(sub: Term, x: Term) -> Term
    decreases x,
{
    match x {
        None => None,
        Some(n) => mk(sub, spec_log(x), s_times(sub, n.c)),
    }
}

/// The successor in the conversion's normal form.
pub open spec fn s_succ(x: Term) -> Term
    decreases x,
{
    match x {
        None => None,
        Some(n) => {
            let x0 = n.a;
            if sss_order(n.b, mk(x0, None, None)) < 0 {
                spec_add(spec_exp(n.b), s_succ(n.c))
            } else if sss_order(n.b, mk(x0, mk(x0, None, spec_one()), None)) >= 0 {
                spec_add(mk(x0, n.b, None), s_succ(n.c))
            } else {
                let y = if sss_order(n.b, mk(x0, spec_one(), None)) < 0 {
                    match n.b {
                        None => None,
                        Some(bn) => bn.c,
                    }
                } else {
                    n.b
                };
                spec_add(mk(x0, spec_add(mk(x0, mk(x0, None, None), None), y), None), s_succ(n.c))
            }
        },
    }
}

/// The limit form `Σ ω^(sub·la + b)` over the summands of `x`.
pub open spec fn s_limit(sub: Term, la: Term, x: Term) -> Term
    decreases x,
{
    match x {
        None => None,
        Some(n) => spec_add(spec_exp(spec_add(s_times(sub, la), n.b)), s_limit(sub, la, n.c)),
    }
}

pub open spec fn tower3(sub: Term) -> Term {
    mk(sub, mk(sub, mk(sub, None, None), None), None)
}

/// The product step of the conversion (`None` where a term it unwraps is
/// zero).
pub open spec fn s_mul(la: Term, x: Term) -> Option<Term> {
    if la is None || x is None {
        None
    } else {
        let nl = la->0;
        let nx = x->0;
        let la0 = nl.a;
        let la1 = nl.b;
        if nx.b is None {
            let sub = spec_add(la0, spec_one());
            let in_psi = s_truncate(la1, tower3(sub), 0);
            let tail = if in_psi is Some && la1 == in_psi && nl.c is None {
                nx.c
            } else {
                x
            };
            Some(mk(la0, spec_add(in_psi, s_limit(sub, la, tail)), None))
        } else {
            let x1n = nx.b->0;
            let k = sss_order(la0, x1n.a);
            if k >= 0 {
                let sub = spec_add(la0, spec_one());
                let in_psi = s_truncate(la1, tower3(sub), 0);
                let in_psi1 = s_truncate(x1n.b, spec_exp(s_times(sub, spec_add(la, spec_one()))), 0);
                if k == 0 && sss_order(in_psi, in_psi1) < 0 {
                    let tail = if x1n.c is None && in_psi1 == x1n.b {
                        nx.c
                    } else {
                        x
                    };
                    Some(mk(la0, spec_add(in_psi1, s_limit(sub, la, tail)), None))
                } else {
                    Some(mk(la0, spec_add(in_psi, s_limit(sub, la, x)), None))
                }
            } else {
                let sub = spec_add(x1n.a, spec_one());
                let in_psi = s_truncate(x1n.b, spec_exp(s_times(sub, la)), 0);
                let tail = if in_psi == x1n.b {
                    nx.c
                } else {
                    x
                };
                Some(mk(x1n.a, spec_add(in_psi, s_limit(sub, la, tail)), None))
            }
        }
    }
}

/// The tail of `y` from its first summand whose argument is below
/// `ψ_x0(0)`.
pub open spec fn skip_big(y: Term, x0: Term) -> Term
    decreases y,
{
    match y {
        None => None,
        Some(n) => if sss_order(n.b, mk(x0, None, None)) >= 0 {
            skip_big(n.c, x0)
        } else {
            y
        },
    }
}

/// The effect of a ψ with subscript `sub` on `x`, within `f` steps
/// (`None` once they run out, or where a term it unwraps is zero).
pub open spec fn psi_effect(sub: Term, x: Term, f: nat) -> Option<Term>
    decreases f,
{
    if f == 0 || x is None {
        None
    } else {
        let nx = x->0;
        if nx.a is Some && sss_order(nx.a->0.a, sub) > 0 {
            match psi_effect(nx.a->0.a, x, (f - 1) as nat) {
                None => None,
                Some(inner) => psi_effect(sub, inner, (f - 1) as nat),
            }
        } else {
            let la = spec_last(nx.a);
            let rem = s_truncate(nx.a, la, 1);
            if sss_order(rem, sub) > 0 {
                match psi_effect(rem, x, (f - 1) as nat) {
                    None => None,
                    Some(inner) => psi_effect(sub, inner, (f - 1) as nat),
                }
            } else if la == spec_one() {
                let x0 = nx.a;
                let y = skip_big(x, x0);
                let in0 = s_truncate(nx.b, mk(spec_add(x0, spec_one()), None, None), 0);
                let succ_arg = if in0 is Some && in0 == nx.b {
                    nx.c
                } else {
                    x
                };
                let r = mk(sub, spec_add(in0, s_succ(succ_arg)), None);
                if y is None || sss_order(y->0.b, r) < 0 {
                    Some(r)
                } else if y->0.b is None {
                    None
                } else {
                    let yb = y->0.b->0;
                    let in2 = s_truncate(yb.b, mk(x0, None, None), 0);
                    let succ_arg2 = if yb.c is None && in2 == yb.b {
                        y->0.c
                    } else {
                        y
                    };
                    Some(mk(sub, spec_add(in2, s_succ(succ_arg2)), None))
                }
            } else {
                let la2 = spec_log(la);
                let k = sss_order(nx.b, mk(nx.a, None, None));
                if k > 0 {
                    let in0 = s_truncate(nx.b, mk(spec_add(nx.a, spec_one()), None, None), 0);
                    let x2 = if in0 == nx.b {
                        nx.c
                    } else {
                        x
                    };
                    Some(mk(sub, spec_add(in0, x2), None))
                } else if k == 0 {
                    if sss_order(nx.c, mk(nx.a, spec_one(), None)) >= 0 {
                        Some(mk(sub, nx.c, None))
                    } else {
                        Some(mk(sub, mk(nx.a, None, nx.c), None))
                    }
                } else if sss_order(nx.b, mk(sub, None, None)) == 3 && nx.b is Some {
                    match psi_effect(nx.b->0.a, x, (f - 1) as nat) {
                        None => None,
                        Some(inner) => psi_effect(sub, inner, (f - 1) as nat),
                    }
                } else if la2 is Some && la2->0.b is None && la2->0.c is None && nx.b is None
                    && la2->0.a is Some && nx.c is None {
                    Some(mk(sub, la2, None))
                } else {
                    let m = if la2 is Some && la2->0.b is None && la2->0.c is None && nx.b is None
                        && la2->0.a is Some {
                        let la2a = la2->0.a;
                        Some(mk(la2a, s_limit(spec_add(la2a, spec_one()), la2, nx.c), None))
                    } else {
                        s_mul(la2, x)
                    };
                    match m {
                        None => None,
                        Some(mm) => {
                            let m0 = match mm {
                                None => None,
                                Some(mn) => mn.a,
                            };
                            if m0 == sub {
                                Some(mm)
                            } else {
                                Some(mk(sub, mm, None))
                            }
                        },
                    }
                }
            }
        }
    }
}


/// From `t` on, the first position whose next term is not bigger by a
/// subscript (or the last position).
pub open spec fn first_drop(l: Seq<Term>, t: int) -> int
    decreases l.len() - t,
{
    if 0 <= t && t + 1 < l.len() && sss_order(l[t], l[t + 1]) > -3 {
        first_drop(l, t + 1)
    } else {
        t
    }
}

/// Scanning from `t1` until a subscript drop: the last position before a
/// subscript rise, and where the scan stopped.
pub open spec fn drop_scan(l: Seq<Term>, t: int, t1: int) -> (int, int)
    decreases l.len() - t1,
{
    if 0 <= t1 && t1 + 1 < l.len() {
        let k = sss_order(l[t1], l[t1 + 1]);
        if k == 3 {
            (t, t1)
        } else {
            drop_scan(l, if k == -3 { t1 } else { t }, t1 + 1)
        }
    } else {
        (t, t1)
    }
}

/// One normalization round of a term list: `Ok` with the sum once no
/// subscript drop is left, `Err` with the list after one ψ-effect
/// otherwise; `None` where the round cannot be done.
#[verifier::opaque]
pub open spec fn round_step(l: Seq<Term>) -> Option<Result<Term, Seq<Term>>> {
    let t0 = first_drop(l, 0);
    if t0 + 1 >= l.len() {
        Some(Ok(sum_range(l, 0, l.len() as int)))
    } else {
        let (t, t1) = drop_scan(l, t0, t0);
        let l2 = if t1 > t + 1 {
            l.subrange(0, t + 1).push(sum_range(l, t + 1, t1 + 1)) + l.subrange(t1 + 1, l.len() as int)
        } else {
            l
        };
        if !(0 <= t && t + 1 < l2.len()) {
            None
        } else if t + 2 == l2.len() || sss_order(l2[t], l2[t + 2]) > -3 {
            if l2[t] is None {
                None
            } else {
                let l3 = l2.remove(t);
                match psi_effect(l2[t]->0.a, l3[t], SSS_ROUNDS as nat) {
                    None => None,
                    Some(v) => Some(Err(l3.update(t, v))),
                }
            }
        } else if l2[t + 2] is None {
            None
        } else {
            match psi_effect(l2[t + 2]->0.a, l2[t + 1], SSS_ROUNDS as nat) {
                None => None,
                Some(v) => Some(Err(l2.update(t + 1, v))),
            }
        }
    }
}

/// Normalization rounds of a term list into one term, at most `f` of them.
pub open spec fn list_rounds(l: Seq<Term>, f: nat) -> Option<Term>
    decreases f,
{
    if f == 0 {
        None
    } else {
        match round_step(l) {
            None => None,
            Some(Ok(x)) => Some(x),
            Some(Err(l2)) => list_rounds(l2, (f - 1) as nat),
        }
    }
}

/// A term list normalized into one term (zero for no terms).
pub open spec fn list_bocf(l: Seq<Term>) -> Option<Term> {
    if l.len() == 0 {
        Some(None)
    } else {
        list_rounds(l, SSS_ROUNDS as nat)
    }
}

/// From `t` on, the first position not above `k`.
pub open spec fn next_not_above(s: Seq<int>, t: int, k: int) -> int
    decreases s.len() - t,
{
    if 0 <= t < s.len() && s[t] > k {
        next_not_above(s, t + 1, k)
    } else {
        t
    }
}

pub proof fn lemma_next_not_above(s: Seq<int>, t: int, k: int)
    requires
        0 <= t <= s.len(),
    ensures
        t <= next_not_above(s, t, k) <= s.len(),
    decreases s.len() - t,
{
    if t < s.len() && s[t] > k {
        lemma_next_not_above(s, t + 1, k);
    }
}

/// The ψ-terms of an SSS sequence from `start` on.
pub open spec fn sss_terms(s: Seq<int>, start: int) -> Option<Seq<Term>>
    decreases s.len() - start,
{
    if start < 0 || start + 1 > s.len() {
        None
    } else if start + 1 == s.len() || s[start + 1] < s[start] {
        Some(seq![spec_one()])
    } else if s[start + 1] == s[start] {
        match sss_terms(s, start + 1) {
            None => None,
            Some(v) => Some(seq![spec_one()] + v),
        }
    } else {
        match sss_terms(s, start + 1) {
            None => None,
            Some(v) => match list_bocf(v) {
                None => None,
                Some(tail) => {
                    let t = next_not_above(s, start + 1, s[start]);
                    proof {
                        lemma_next_not_above(s, start + 1, s[start]);
                    }
                    if t < s.len() && s[t] == s[start] {
                        match sss_terms(s, t) {
                            None => None,
                            Some(w) => Some(seq![mk(tail, None, None)] + w),
                        }
                    } else {
                        Some(seq![mk(tail, None, None)])
                    }
                },
            },
        }
    }
}

/// The BOCF term of an SSS sequence (a 0 put in front where the sequence
/// does not start at 0 before a rise).
pub open spec fn sss_bocf_spec(seq: Seq<int>) -> Option<Term> {
    let s = if seq.len() > 1 && seq[1] > 0 {
        seq![0int] + seq
    } else {
        seq
    };
    match sss_terms(s, 0) {
        None => None,
        Some(l) => list_bocf(l),
    }
}


// ============================================================
// SSS → BOCF: computation
// ============================================================

fn sss_order_exec(a: &Term, b: &Term) -> (r: i32)
    ensures
        r == sss_order(*a, *b),
    decreases a,
{
    if eq(a, b) {
        return 0;
    }
    match a {
        None => -3,
        Some(na) => match b {
            None => 3,
            Some(nb) => {
                let k = sss_order_exec(&na.a, &nb.a);
                if k > 0 {
                    3
                } else if k < 0 {
                    -3
                } else {
                    let k2 = sss_order_exec(&na.b, &nb.b);
                    if k2 > 0 {
                        2
                    } else if k2 < 0 {
                        -2
                    } else if sss_order_exec(&na.c, &nb.c) > 0 {
                        1
                    } else {
                        -1
                    }
                }
            },
        },
    }
}

fn sum_range_exec(l: &Vec<Term>, a: usize, b: usize) -> (r: Term)
    requires
        a <= b <= l@.len(),
    ensures
        r == sum_range(l@, a as int, b as int),
{
    let mut r: Term = None;
    let mut i: usize = a;
    while i < b
        invariant
            a <= i <= b <= l@.len(),
            r == sum_range(l@, a as int, i as int),
        decreases b - i,
    {
        r = crate::term::add(&r, &l[i]);
        i = i + 1;
    }
    r
}

fn s_truncate_exec(x: &Term, y: &Term, k: i32) -> (r: Term)
    ensures
        r == s_truncate(*x, *y, k as int),
    decreases x,
{
    if y.is_none() {
        return clone_term(x);
    }
    if sss_order_exec(x, y) < k {
        return None;
    }
    match x {
        None => None,
        Some(n) => t(clone_term(&n.a), clone_term(&n.b), s_truncate_exec(&n.c, y, k)),
    }
}

fn s_times_exec(sub: &Term, x: &Term) -> (r: Term)
    ensures
        r == s_times(*sub, *x),
    decreases x,
{
    match x {
        None => None,
        Some(n) => t(clone_term(sub), log(x), s_times_exec(sub, &n.c)),
    }
}

fn s_succ_exec(x: &Term) -> (r: Term)
    ensures
        r == s_succ(*x),
    decreases x,
{
    match x {
        None => None,
        Some(n) => {
            let x0 = &n.a;
            if sss_order_exec(&n.b, &t(clone_term(x0), None, None)) < 0 {
                crate::term::add(&exp(&n.b), &s_succ_exec(&n.c))
            } else if sss_order_exec(&n.b, &t(clone_term(x0), t(clone_term(x0), None, one()), None)) >= 0 {
                crate::term::add(&t(clone_term(x0), clone_term(&n.b), None), &s_succ_exec(&n.c))
            } else {
                let y = if sss_order_exec(&n.b, &t(clone_term(x0), one(), None)) < 0 {
                    match &n.b {
                        None => None,
                        Some(bn) => clone_term(&bn.c),
                    }
                } else {
                    clone_term(&n.b)
                };
                let inner = crate::term::add(&t(clone_term(x0), t(clone_term(x0), None, None), None), &y);
                crate::term::add(&t(clone_term(x0), inner, None), &s_succ_exec(&n.c))
            }
        },
    }
}

fn s_limit_exec(sub: &Term, la: &Term, x: &Term) -> (r: Term)
    ensures
        r == s_limit(*sub, *la, *x),
    decreases x,
{
    match x {
        None => None,
        Some(n) => crate::term::add(&exp(&crate::term::add(&s_times_exec(sub, la), &n.b)), &s_limit_exec(sub, la, &n.c)),
    }
}

fn tower3_exec(sub: &Term) -> (r: Term)
    ensures
        r == tower3(*sub),
{
    t(clone_term(sub), t(clone_term(sub), t(clone_term(sub), None, None), None), None)
}

fn s_mul_exec(la: &Term, x: &Term) -> (r: Option<Term>)
    ensures
        r == s_mul(*la, *x),
{
    let nl = match la {
        None => {
            return None;
        },
        Some(nl) => nl,
    };
    let nx = match x {
        None => {
            return None;
        },
        Some(nx) => nx,
    };
    let la0 = &nl.a;
    let la1 = &nl.b;
    match &nx.b {
        None => {
            let sub = crate::term::add(la0, &one());
            let in_psi = s_truncate_exec(la1, &tower3_exec(&sub), 0);
            let tail = if in_psi.is_some() && eq(la1, &in_psi) && nl.c.is_none() {
                clone_term(&nx.c)
            } else {
                clone_term(x)
            };
            Some(t(clone_term(la0), crate::term::add(&in_psi, &s_limit_exec(&sub, la, &tail)), None))
        },
        Some(x1n) => {
            let k = sss_order_exec(la0, &x1n.a);
            if k >= 0 {
                let sub = crate::term::add(la0, &one());
                let in_psi = s_truncate_exec(la1, &tower3_exec(&sub), 0);
                let in_psi1 = s_truncate_exec(&x1n.b, &exp(&s_times_exec(&sub, &crate::term::add(la, &one()))), 0);
                if k == 0 && sss_order_exec(&in_psi, &in_psi1) < 0 {
                    let tail = if x1n.c.is_none() && eq(&in_psi1, &x1n.b) {
                        clone_term(&nx.c)
                    } else {
                        clone_term(x)
                    };
                    Some(t(clone_term(la0), crate::term::add(&in_psi1, &s_limit_exec(&sub, la, &tail)), None))
                } else {
                    Some(t(clone_term(la0), crate::term::add(&in_psi, &s_limit_exec(&sub, la, x)), None))
                }
            } else {
                let sub = crate::term::add(&x1n.a, &one());
                let in_psi = s_truncate_exec(&x1n.b, &exp(&s_times_exec(&sub, la)), 0);
                let tail = if eq(&in_psi, &x1n.b) {
                    clone_term(&nx.c)
                } else {
                    clone_term(x)
                };
                Some(t(clone_term(&x1n.a), crate::term::add(&in_psi, &s_limit_exec(&sub, la, &tail)), None))
            }
        },
    }
}

fn skip_big_exec(y: &Term, x0: &Term) -> (r: Term)
    ensures
        r == skip_big(*y, *x0),
    decreases y,
{
    match y {
        None => None,
        Some(n) => if sss_order_exec(&n.b, &t(clone_term(x0), None, None)) >= 0 {
            skip_big_exec(&n.c, x0)
        } else {
            clone_term(y)
        },
    }
}


fn psi_effect_exec(sub: &Term, x: &Term, f: u64) -> (r: Option<Term>)
    ensures
        r == psi_effect(*sub, *x, f as nat),
    decreases f,
{
    if f == 0 {
        return None;
    }
    let nx = match x {
        None => {
            return None;
        },
        Some(nx) => nx,
    };
    if let Some(na) = &nx.a {
        if sss_order_exec(&na.a, sub) > 0 {
            return match psi_effect_exec(&na.a, x, f - 1) {
                None => None,
                Some(inner) => psi_effect_exec(sub, &inner, f - 1),
            };
        }
    }
    let la = last_term(&nx.a);
    let rem = s_truncate_exec(&nx.a, &la, 1);
    if sss_order_exec(&rem, sub) > 0 {
        return match psi_effect_exec(&rem, x, f - 1) {
            None => None,
            Some(inner) => psi_effect_exec(sub, &inner, f - 1),
        };
    }
    if eq(&la, &one()) {
        let x0 = &nx.a;
        let y = skip_big_exec(x, x0);
        let in0 = s_truncate_exec(&nx.b, &t(crate::term::add(x0, &one()), None, None), 0);
        let succ_arg = if in0.is_some() && eq(&in0, &nx.b) {
            clone_term(&nx.c)
        } else {
            clone_term(x)
        };
        let r = t(clone_term(sub), crate::term::add(&in0, &s_succ_exec(&succ_arg)), None);
        let yn = match &y {
            None => {
                return Some(r);
            },
            Some(yn) => yn,
        };
        if sss_order_exec(&yn.b, &r) < 0 {
            return Some(r);
        }
        let yb = match &yn.b {
            None => {
                return None;
            },
            Some(yb) => yb,
        };
        let in2 = s_truncate_exec(&yb.b, &t(clone_term(x0), None, None), 0);
        let succ_arg2 = if yb.c.is_none() && eq(&in2, &yb.b) {
            clone_term(&yn.c)
        } else {
            clone_term(&y)
        };
        return Some(t(clone_term(sub), crate::term::add(&in2, &s_succ_exec(&succ_arg2)), None));
    }
    let la2 = log(&la);
    let k = sss_order_exec(&nx.b, &t(clone_term(&nx.a), None, None));
    if k > 0 {
        let in0 = s_truncate_exec(&nx.b, &t(crate::term::add(&nx.a, &one()), None, None), 0);
        let x2 = if eq(&in0, &nx.b) {
            clone_term(&nx.c)
        } else {
            clone_term(x)
        };
        return Some(t(clone_term(sub), crate::term::add(&in0, &x2), None));
    }
    if k == 0 {
        if sss_order_exec(&nx.c, &t(clone_term(&nx.a), one(), None)) >= 0 {
            return Some(t(clone_term(sub), clone_term(&nx.c), None));
        }
        return Some(t(clone_term(sub), t(clone_term(&nx.a), None, clone_term(&nx.c)), None));
    }
    if sss_order_exec(&nx.b, &t(clone_term(sub), None, None)) == 3 {
        if let Some(nb) = &nx.b {
            return match psi_effect_exec(&nb.a, x, f - 1) {
                None => None,
                Some(inner) => psi_effect_exec(sub, &inner, f - 1),
            };
        }
    }
    let plain_log = match &la2 {
        None => false,
        Some(ln) => ln.b.is_none() && ln.c.is_none() && nx.b.is_none() && ln.a.is_some(),
    };
    if plain_log && nx.c.is_none() {
        return Some(t(clone_term(sub), la2, None));
    }
    let m = if plain_log {
        match &la2 {
            None => None,
            Some(ln) => {
                let la2a = &ln.a;
                Some(t(clone_term(la2a), s_limit_exec(&crate::term::add(la2a, &one()), &la2, &nx.c), None))
            },
        }
    } else {
        s_mul_exec(&la2, x)
    };
    match m {
        None => None,
        Some(mm) => {
            let m0 = match &mm {
                None => None,
                Some(mn) => clone_term(&mn.a),
            };
            if eq(&m0, sub) {
                Some(mm)
            } else {
                Some(t(clone_term(sub), mm, None))
            }
        },
    }
}


fn copy_terms(l: &Vec<Term>, from: usize, to: usize, out: &mut Vec<Term>)
    requires
        from <= to <= l@.len(),
    ensures
        final(out)@ == old(out)@ + l@.subrange(from as int, to as int),
{
    let mut i: usize = from;
    while i < to
        invariant
            from <= i <= to <= l@.len(),
            out@ == old(out)@ + l@.subrange(from as int, i as int),
        decreases to - i,
    {
        out.push(clone_term(&l[i]));
        i = i + 1;
        proof {
            assert(out@ =~= old(out)@ + l@.subrange(from as int, i as int));
        }
    }
}

/// One normalization round (see `round_step`).
fn round_step_exec(cur: Vec<Term>) -> (r: Option<Result<Term, Vec<Term>>>)
    ensures
        match r {
            None => round_step(cur@) is None,
            Some(Ok(x)) => round_step(cur@) == Some(Ok::<Term, Seq<Term>>(x)),
            Some(Err(v)) => round_step(cur@) == Some(Err::<Term, Seq<Term>>(v@)),
        },
{
    proof {
        reveal(round_step);
    }
    let n = cur.len();
    let mut t: usize = 0;
    while t + 1 < n && sss_order_exec(&cur[t as usize], &cur[t + 1]) > -3
        invariant
            n == cur@.len(),
            t < n || n == 0,
            first_drop(cur@, t as int) == first_drop(cur@, 0),
        decreases n - t,
    {
        t = t + 1;
    }
    if t + 1 >= n {
        return Some(Ok(sum_range_exec(&cur, 0, n)));
    }
    let ghost t0 = t as int;
    let mut tt: usize = t;
    let mut t1: usize = t;
    while t1 + 1 < n && sss_order_exec(&cur[t1], &cur[t1 + 1]) != 3
        invariant
            n == cur@.len(),
            tt <= t1 < n,
            tt + 1 < n,
            t0 <= tt,
            drop_scan(cur@, tt as int, t1 as int) == drop_scan(cur@, t0, t0),
        decreases n - t1,
    {
        if sss_order_exec(&cur[t1], &cur[t1 + 1]) == -3 {
            tt = t1;
        }
        t1 = t1 + 1;
    }
    let t = tt;
    let ghost l2s = if t1 > t + 1 {
        cur@.subrange(0, t + 1).push(sum_range(cur@, t + 1, t1 + 1)) + cur@.subrange(t1 + 1, n as int)
    } else {
        cur@
    };
    let mut l2: Vec<Term> = if t1 > t + 1 {
        let mut v: Vec<Term> = Vec::new();
        copy_terms(&cur, 0, t + 1, &mut v);
        v.push(sum_range_exec(&cur, t + 1, t1 + 1));
        copy_terms(&cur, t1 + 1, n, &mut v);
        proof {
            assert(v@ =~= l2s);
        }
        v
    } else {
        cur
    };
    let len2 = l2.len();
    proof {
        assert(l2@ == l2s);
        assert(t + 1 < l2@.len());
    }
    if t + 2 == len2 || sss_order_exec(&l2[t], &l2[t + 2]) > -3 {
        let sub = match &l2[t] {
            None => {
                return None;
            },
            Some(nt) => clone_term(&nt.a),
        };
        let ghost before = l2@;
        l2.remove(t);
        proof {
            assert(l2@[t as int] == before[t + 1]);
        }
        let v = match psi_effect_exec(&sub, &l2[t], SSS_ROUNDS) {
            None => {
                return None;
            },
            Some(v) => v,
        };
        l2[t] = v;
        Some(Err(l2))
    } else {
        let s0 = match &l2[t + 2] {
            None => {
                return None;
            },
            Some(nt) => clone_term(&nt.a),
        };
        let v = match psi_effect_exec(&s0, &l2[t + 1], SSS_ROUNDS) {
            None => {
                return None;
            },
            Some(v) => v,
        };
        l2[t + 1] = v;
        Some(Err(l2))
    }
}

/// Normalization rounds of a term list, at most `f` of them.
fn list_rounds_exec(l: Vec<Term>, f: u64) -> (r: Option<Term>)
    ensures
        r == list_rounds(l@, f as nat),
{
    let ghost goal = list_rounds(l@, f as nat);
    let mut cur = l;
    let mut fuel = f;
    loop
        invariant
            list_rounds(cur@, fuel as nat) == goal,
            goal == list_rounds(l@, f as nat),
        decreases fuel,
    {
        if fuel == 0 {
            return None;
        }
        match round_step_exec(cur) {
            None => {
                return None;
            },
            Some(Ok(x)) => {
                return Some(x);
            },
            Some(Err(next)) => {
                cur = next;
            },
        }
        fuel = fuel - 1;
    }
}

fn list_bocf_exec(l: Vec<Term>) -> (r: Option<Term>)
    ensures
        r == list_bocf(l@),
{
    if l.len() == 0 {
        return Some(None);
    }
    list_rounds_exec(l, SSS_ROUNDS)
}

fn sss_terms_exec(s: &Vec<i32>, start: usize) -> (r: Option<Vec<Term>>)
    requires
        start <= s@.len(),
    ensures
        match r {
            Some(v) => sss_terms(ints(s@), start as int) == Some(v@),
            None => sss_terms(ints(s@), start as int) is None,
        },
    decreases s@.len() - start,
{
    let n = s.len();
    if start >= n {
        return None;
    }
    if start + 1 == n || s[start + 1] < s[start] {
        let mut v: Vec<Term> = Vec::new();
        v.push(one());
        proof {
            assert(v@ =~= seq![spec_one()]);
        }
        return Some(v);
    }
    if s[start + 1] == s[start] {
        return match sss_terms_exec(s, start + 1) {
            None => None,
            Some(rest) => {
                let mut v: Vec<Term> = Vec::new();
                v.push(one());
                copy_terms(&rest, 0, rest.len(), &mut v);
                proof {
                    assert(v@ =~= seq![spec_one()] + rest@);
                }
                Some(v)
            },
        };
    }
    let rest = match sss_terms_exec(s, start + 1) {
        None => {
            return None;
        },
        Some(rest) => rest,
    };
    let tail = match list_bocf_exec(rest) {
        None => {
            return None;
        },
        Some(tail) => tail,
    };
    let k = s[start];
    let mut tt: usize = start + 1;
    proof {
        lemma_next_not_above(ints(s@), start + 1, k as int);
    }
    while tt < n && s[tt] > k
        invariant
            start < tt <= n == s@.len(),
            k == s@[start as int],
            next_not_above(ints(s@), tt as int, k as int) == next_not_above(ints(s@), start + 1, k as int),
        decreases n - tt,
    {
        tt = tt + 1;
    }
    let mut v: Vec<Term> = Vec::new();
    v.push(t(tail, None, None));
    if tt < n && s[tt] == k {
        return match sss_terms_exec(s, tt) {
            None => None,
            Some(w) => {
                let ghost v0 = v@;
                copy_terms(&w, 0, w.len(), &mut v);
                proof {
                    assert(w@.subrange(0, w@.len() as int) =~= w@);
                }
                Some(v)
            },
        };
    }
    Some(v)
}

/// The BOCF term of an SSS sequence (see `sss_bocf_spec`): the sequence is
/// read as a list of ψ-terms, which is then normalized into one term.
/// `None` where a normalization runs out of `SSS_ROUNDS` rounds.
pub fn sss_to_bocf(seq: &[i32]) -> (r: Option<Term>)
    requires
        seq@.len() > 0,
    ensures
        r == sss_bocf_spec(ints(seq@)),
{
    let mut s: Vec<i32> = Vec::new();
    if seq.len() > 1 && seq[1] > 0 {
        s.push(0);
    }
    let mut i: usize = 0;
    let ghost s0 = s@;
    while i < seq.len()
        invariant
            i <= seq@.len(),
            s@ == s0 + seq@.take(i as int),
        decreases seq.len() - i,
    {
        s.push(seq[i]);
        i = i + 1;
        proof {
            assert(s@ =~= s0 + seq@.take(i as int));
        }
    }
    proof {
        assert(seq@.take(seq@.len() as int) =~= seq@);
        let sp = if ints(seq@).len() > 1 && ints(seq@)[1] > 0 {
            seq![0int] + ints(seq@)
        } else {
            ints(seq@)
        };
        assert(ints(s@) =~= sp);
    }
    match sss_terms_exec(&s, 0) {
        None => None,
        Some(l) => list_bocf_exec(l),
    }
}

} // verus!
