//! Standardness of sequences `1, m, …` in HPrSS and LPrSS.
//!
//! A sequence `S` is checked by a chain of standard expressions starting
//! from `[1, m+1]`. Each step expands the current expression along its
//! fundamental sequence and either jumps (`1,#,k` standard implies `1,#,j`
//! standard for `1 <= j < k`) or, where `S` is a prefix of a standard
//! expression, accepts. Where `S` rises above a whole fundamental-sequence
//! chain it is rejected.
use vstd::prelude::*;
use crate::hydra::{
    ints, hp_expand, hp_expand_ok, lp_expand, lp_expand_ok, expand_hprss, expand_lprss,
    hprss_expand_fits, lprss_expand_fits,
};

verus! {

/// The notation whose expansion the check uses.
#[derive(Clone, Copy, Debug, PartialEq, Eq, Structural)]
pub enum SeqExpand {
    Hprss,
    Lprss,
}

/// Rounds of the chain; past them the sequence counts as not standard.
pub const MAX_GUARD: u64 = 100000;

/// Largest expansion index tried.
pub const MAX_N: i32 = 15;

// ============================================================
// Model
// ============================================================

pub open spec fn kind_ok(k: SeqExpand, sa: Seq<int>, n: int) -> bool {
    match k {
        SeqExpand::Hprss => hp_expand_ok(sa, n),
        SeqExpand::Lprss => lp_expand_ok(sa, n),
    }
}

pub open spec fn kind_expand(k: SeqExpand, sa: Seq<int>, n: int) -> Seq<int> {
    match k {
        SeqExpand::Hprss => hp_expand(sa, n),
        SeqExpand::Lprss => lp_expand(sa, n),
    }
}

/// From `n` (with `p = x^n`) up: the largest index up to `MAX_N` whose
/// power of `x` stays within `2^30`.
pub open spec fn cap_from(x: int, n: int, p: int) -> int
    decreases MAX_N - n,
{
    if n < MAX_N && p * x <= 0x4000_0000 {
        cap_from(x, n + 1, p * x)
    } else {
        n
    }
}

/// How far the indices go: for `[1, x]` the largest `n <= MAX_N` with
/// `x^n <= 2^30` (at least 1), so that the chain stays within `i32`;
/// `MAX_N` otherwise.
pub open spec fn n_cap(sa: Seq<int>) -> int {
    if sa.len() == 2 && sa[1] >= 2 {
        cap_from(sa[1], 1, sa[1])
    } else {
        MAX_N as int
    }
}

/// From `i` on, the first position where `s` and `e` differ or one ends.
pub open spec fn match_len(s: Seq<int>, e: Seq<int>, i: int) -> int
    decreases s.len() - i,
{
    if 0 <= i && i < s.len() && i < e.len() && s[i] == e[i] {
        match_len(s, e, i + 1)
    } else {
        i
    }
}

/// The indices `n..=top` of one round: `Ok` of the next expression of the
/// chain, or `Err` of the answer (`None` where an expansion would leave
/// `i32`).
pub open spec fn try_indices(k: SeqExpand, s: Seq<int>, sa: Seq<int>, n: int, top: int) -> Result<
    Seq<int>,
    Option<bool>,
>
    decreases top + 1 - n,
{
    if n > top {
        Err(Some(false))
    } else if !kind_ok(k, sa, n) {
        Err(None)
    } else {
        let e = kind_expand(k, sa, n);
        let i = match_len(s, e, 1);
        if i == s.len() {
            Err(Some(true))
        } else if i >= e.len() {
            try_indices(k, s, sa, n + 1, top)
        } else if s[i] > e[i] {
            Err(Some(false))
        } else if i == s.len() - 1 {
            Err(Some(true))
        } else if s[i] + 1 < e[i] {
            Ok(e.take(i).push(s[i] + 1))
        } else {
            Ok(e.take(i + 1))
        }
    }
}

/// The chain from `sa`, for at most `f` more rounds.
pub open spec fn chain(k: SeqExpand, s: Seq<int>, sa: Seq<int>, f: nat) -> Option<bool>
    decreases f,
{
    if f == 0 {
        Some(false)
    } else {
        match try_indices(k, s, sa, 1, n_cap(sa)) {
            Err(a) => a,
            Ok(next) => chain(k, s, next, (f - 1) as nat),
        }
    }
}

/// Whether `s` is standard; `None` where a step of the check would leave
/// `i32`.
pub open spec fn seq_std_spec(s: Seq<int>, k: SeqExpand) -> Option<bool> {
    if exists|i: int| 0 <= i < s.len() && #[trigger] s[i] < 1 {
        Some(false)
    } else if s.len() == 0 {
        Some(true)
    } else if s[0] != 1 {
        Some(false)
    } else if s.len() <= 2 {
        Some(true)
    } else if s[1] + 1 > i32::MAX {
        None
    } else {
        chain(k, s, seq![1, s[1] + 1], MAX_GUARD as nat)
    }
}

// ============================================================
// Computation
// ============================================================

fn expand_with(k: SeqExpand, sa: &Vec<i32>, n: i32) -> (r: Option<Vec<i32>>)
    ensures
        match r {
            None => !kind_ok(k, ints(sa@), n as int),
            Some(e) => kind_ok(k, ints(sa@), n as int) && ints(e@) == kind_expand(k, ints(sa@), n as int),
        },
{
    match k {
        SeqExpand::Hprss => {
            if !hprss_expand_fits(sa.as_slice(), n) {
                return None;
            }
            Some(expand_hprss(sa.as_slice(), n))
        },
        SeqExpand::Lprss => {
            if !lprss_expand_fits(sa.as_slice(), n) {
                return None;
            }
            Some(expand_lprss(sa.as_slice(), n))
        },
    }
}

fn cap_of(sa: &Vec<i32>) -> (r: i32)
    ensures
        r == n_cap(ints(sa@)),
        1 <= r <= MAX_N,
{
    if sa.len() == 2 && sa[1] >= 2 {
        let x = sa[1] as i64;
        let mut n: i32 = 1;
        let mut p: i64 = x;
        proof {
            assert(ints(sa@)[1] == x);
        }
        loop
            invariant
                1 <= n <= MAX_N,
                2 <= x <= i32::MAX,
                1 <= p <= 0x7fff_ffff,
                cap_from(x as int, n as int, p as int) == cap_from(x as int, 1, x as int),
            ensures
                1 <= n <= MAX_N,
                cap_from(x as int, n as int, p as int) == n,
                cap_from(x as int, n as int, p as int) == cap_from(x as int, 1, x as int),
            decreases MAX_N - n,
        {
            if n >= MAX_N {
                break;
            }
            assert(1 <= p * x <= 0x7fff_ffff_ffff_ffff) by (nonlinear_arith)
                requires
                    1 <= p <= 0x7fff_ffff,
                    2 <= x <= 0x7fff_ffff,
            ;
            let q = p * x;
            if q > 0x4000_0000 {
                break;
            }
            p = q;
            n = n + 1;
        }
        n
    } else {
        MAX_N
    }
}

fn match_len_exec(s: &[i32], e: &Vec<i32>) -> (r: usize)
    requires
        s@.len() >= 1,
    ensures
        r as int == match_len(ints(s@), ints(e@), 1),
        1 <= r <= s@.len(),
        r < s@.len() && r < e@.len() ==> s@[r as int] != e@[r as int],
{
    let mut i: usize = 1;
    while i < s.len() && i < e.len() && s[i] == e[i]
        invariant
            1 <= i <= s@.len(),
            match_len(ints(s@), ints(e@), i as int) == match_len(ints(s@), ints(e@), 1),
        decreases s@.len() - i,
    {
        i = i + 1;
    }
    proof {
        if i < s@.len() && i < e@.len() {
            assert(ints(s@)[i as int] != ints(e@)[i as int]);
            assert(ints(s@)[i as int] == s@[i as int]);
            assert(ints(e@)[i as int] == e@[i as int]);
        }
    }
    i
}

fn try_indices_exec(k: SeqExpand, s: &[i32], sa: &Vec<i32>, top: i32) -> (r: Result<Vec<i32>, Option<bool>>)
    requires
        s@.len() >= 3,
        1 <= top <= MAX_N,
    ensures
        match r {
            Ok(v) => try_indices(k, ints(s@), ints(sa@), 1, top as int) == Ok::<Seq<int>, Option<bool>>(
                ints(v@),
            ),
            Err(a) => try_indices(k, ints(s@), ints(sa@), 1, top as int) == Err::<Seq<int>, Option<bool>>(a),
        },
{
    let ghost sv = ints(s@);
    let ghost av = ints(sa@);
    let ghost goal = try_indices(k, sv, av, 1, top as int);
    let mut n: i32 = 1;
    while n <= top
        invariant
            1 <= n <= top + 1,
            top <= MAX_N,
            s@.len() >= 3,
            sv == ints(s@),
            av == ints(sa@),
            goal == try_indices(k, sv, av, 1, top as int),
            try_indices(k, sv, av, n as int, top as int) == goal,
        decreases top + 1 - n,
    {
        let e = match expand_with(k, sa, n) {
            None => {
                return Err(None);
            },
            Some(e) => e,
        };
        let ghost ev = ints(e@);
        let i = match_len_exec(s, &e);
        if i == s.len() {
            return Err(Some(true));
        }
        if i >= e.len() {
            n = n + 1;
        } else {
            proof {
                assert(sv[i as int] == s@[i as int]);
                assert(ev[i as int] == e@[i as int]);
            }
            if s[i] > e[i] {
                return Err(Some(false));
            }
            if i == s.len() - 1 {
                return Err(Some(true));
            }
            let mut next: Vec<i32> = Vec::new();
            let mut j: usize = 0;
            let keep: usize = if s[i] + 1 < e[i] {
                i
            } else {
                i + 1
            };
            while j < keep
                invariant
                    j <= keep <= e@.len(),
                    ev == ints(e@),
                    ints(next@) == ev.take(j as int),
                decreases keep - j,
            {
                let ghost n0 = ints(next@);
                next.push(e[j]);
                j = j + 1;
                proof {
                    assert(ints(next@) =~= n0.push(ev[j - 1]));
                    assert(ints(next@) =~= ev.take(j as int));
                }
            }
            if s[i] + 1 < e[i] {
                let ghost n0 = ints(next@);
                next.push(s[i] + 1);
                proof {
                    assert(ints(next@) =~= n0.push(sv[i as int] + 1));
                }
            }
            return Ok(next);
        }
    }
    Err(Some(false))
}

/// Whether `s` is standard in the notation `expand`; `None` where a step
/// of the check would leave `i32`.
pub fn is_standard_sequence(s: &[i32], expand: SeqExpand) -> (r: Option<bool>)
    ensures
        r == seq_std_spec(ints(s@), expand),
{
    let ghost sv = ints(s@);
    let len = s.len();
    let mut i: usize = 0;
    while i < len
        invariant
            i <= len == s@.len(),
            sv == ints(s@),
            forall|j: int| 0 <= j < i ==> #[trigger] sv[j] >= 1,
        decreases len - i,
    {
        if s[i] < 1 {
            proof {
                assert(sv[i as int] < 1);
            }
            return Some(false);
        }
        i = i + 1;
    }
    if len == 0 {
        return Some(true);
    }
    if s[0] != 1 {
        return Some(false);
    }
    if len <= 2 {
        return Some(true);
    }
    if s[1] == i32::MAX {
        return None;
    }
    let mut sa: Vec<i32> = vec![1, s[1] + 1];
    proof {
        assert(ints(sa@) =~= seq![1, sv[1] + 1]);
    }
    let ghost goal = seq_std_spec(sv, expand);
    let mut f: u64 = MAX_GUARD;
    loop
        invariant
            len == s@.len() >= 3,
            sv == ints(s@),
            f <= MAX_GUARD,
            goal == seq_std_spec(sv, expand),
            chain(expand, sv, ints(sa@), f as nat) == goal,
        decreases f,
    {
        if f == 0 {
            return Some(false);
        }
        let top = cap_of(&sa);
        match try_indices_exec(expand, s, &sa, top) {
            Err(a) => {
                return a;
            },
            Ok(next) => {
                sa = next;
            },
        }
        f = f - 1;
    }
}

/// HPrSS standardness (see `is_standard_sequence`).
pub fn hprss_is_standard(s: &[i32]) -> (r: Option<bool>)
    ensures
        r == seq_std_spec(ints(s@), SeqExpand::Hprss),
{
    is_standard_sequence(s, SeqExpand::Hprss)
}

/// LPrSS standardness (see `is_standard_sequence`).
pub fn lprss_is_standard(s: &[i32]) -> (r: Option<bool>)
    ensures
        r == seq_std_spec(ints(s@), SeqExpand::Lprss),
{
    is_standard_sequence(s, SeqExpand::Lprss)
}

} // verus!
