//! Text forms used on the command line: matrices `(0,0)(1,1)`, comma
//! separated sequences, flags and output selectors, and the plain-text
//! rendering of LaTeX ψ terms.
use vstd::prelude::*;
use vstd::string::StringSliceAdditionalSpecFns;
use crate::Matrix;
use crate::expand::mat;
use crate::hydra::ints;
use crate::ihss::{split_commas, parse_i32, parse_i32_chars, join_nums};
use crate::text::{spec_trim, trim_chars, chars_of, push_int, push_char, push_chars, int_str};

verus! {

// ============================================================
// Matrices
// ============================================================

/// Index of the first ')' at or after `j`, or `s.len()` when there is none.
pub open spec fn close_at(s: Seq<char>, j: int) -> int
    decreases s.len() - j,
{
    if j < 0 || j >= s.len() {
        s.len() as int
    } else if s[j] == ')' {
        j
    } else {
        close_at(s, j + 1)
    }
}

pub proof fn lemma_close_at(s: Seq<char>, j: int)
    requires
        0 <= j <= s.len(),
    ensures
        j <= close_at(s, j) <= s.len(),
        close_at(s, j) < s.len() ==> s[close_at(s, j)] == ')',
    decreases s.len() - j,
{
    if j < s.len() && s[j] != ')' {
        lemma_close_at(s, j + 1);
    }
}

/// The numbers among the pieces, each trimmed; a piece that is no `i32`
/// numeral is skipped.
pub open spec fn nums_of_pieces(ps: Seq<Seq<char>>) -> Seq<int>
    decreases ps.len(),
{
    if ps.len() == 0 {
        Seq::empty()
    } else {
        let rest = nums_of_pieces(ps.drop_last());
        match parse_i32(spec_trim(ps.last())) {
            Some(x) => rest.push(x),
            None => rest,
        }
    }
}

/// The columns read from `s[i..]`: each `(` opens a column whose text runs
/// to the next `)`, the numbers in it separated by commas; reading stops at
/// the first character that opens no column, or at an unclosed one.
pub open spec fn matrix_cols(s: Seq<char>, i: int) -> Seq<Seq<int>>
    decreases s.len() - i,
{
    if i < 0 || i >= s.len() || s[i] != '(' {
        Seq::empty()
    } else {
        let e = close_at(s, i);
        if e >= s.len() {
            Seq::empty()
        } else {
            proof {
                lemma_close_at(s, i);
            }
            seq![nums_of_pieces(split_commas(s.subrange(i + 1, e)))] + matrix_cols(s, e + 1)
        }
    }
}

/// The numbers of one column text.
fn row_numbers(t: &Vec<char>) -> (r: Vec<i32>)
    ensures
        ints(r@) == nums_of_pieces(split_commas(t@)),
{
    let mut out: Vec<i32> = Vec::new();
    let mut piece: Vec<char> = Vec::new();
    let mut i: usize = 0;
    proof {
        assert(t@.take(0) =~= Seq::<char>::empty());
        assert(split_commas(t@.take(0)).drop_last() =~= Seq::<Seq<char>>::empty());
        assert(ints(out@) =~= Seq::<int>::empty());
    }
    while i < t.len()
        invariant
            i <= t@.len(),
            split_commas(t@.take(i as int)).len() >= 1,
            piece@ == split_commas(t@.take(i as int)).last(),
            ints(out@) == nums_of_pieces(split_commas(t@.take(i as int)).drop_last()),
        decreases t.len() - i,
    {
        let ghost sp = split_commas(t@.take(i as int));
        proof {
            assert(t@.take(i + 1).drop_last() =~= t@.take(i as int));
            assert(t@.take(i + 1).last() == t@[i as int]);
        }
        if t[i] == ',' {
            let tp = trim_chars(&piece);
            match parse_i32_chars(&tp) {
                Some(x) => {
                    out.push(x);
                },
                None => {},
            }
            piece = Vec::new();
            proof {
                let sp2 = split_commas(t@.take(i + 1));
                assert(sp2 == sp.push(Seq::<char>::empty()));
                assert(sp2.drop_last() =~= sp);
                assert(sp.drop_last() + seq![sp.last()] =~= sp);
                assert(ints(out@) =~= nums_of_pieces(sp2.drop_last()));
            }
        } else {
            piece.push(t[i]);
            proof {
                let sp2 = split_commas(t@.take(i + 1));
                assert(sp2 == sp.update(sp.len() - 1, sp.last().push(t@[i as int])));
                assert(sp2.drop_last() =~= sp.drop_last());
                assert(piece@ =~= sp2.last());
            }
        }
        i = i + 1;
    }
    let ghost sp = split_commas(t@.take(i as int));
    proof {
        assert(t@.take(i as int) =~= t@);
    }
    let tp = trim_chars(&piece);
    match parse_i32_chars(&tp) {
        Some(x) => {
            out.push(x);
        },
        None => {},
    }
    proof {
        assert(ints(out@) =~= nums_of_pieces(sp));
    }
    out
}

/// Reads a matrix written as bracketed columns, `(0,0,0)(1,1,1)(2,2,0)`.
/// Reading stops at the first character that opens no column or at a
/// column without its `)`; pieces that are no numbers are left out.
pub fn parse_matrix(s: &str) -> (m: Matrix)
    ensures
        mat(m@) == matrix_cols(s@, 0),
{
    let v = chars_of(s);
    let n = v.len();
    let mut m: Matrix = Vec::new();
    let mut i: usize = 0;
    proof {
        assert(mat(m@) =~= Seq::<Seq<int>>::empty());
    }
    while i < n
        invariant_except_break
            i <= n,
        invariant
            n == v@.len(),
            v@ == s@,
            mat(m@) + matrix_cols(v@, i as int) == matrix_cols(v@, 0),
        ensures
            mat(m@) == matrix_cols(v@, 0),
        decreases n - i,
    {
        if v[i] != '(' {
            proof {
                assert(matrix_cols(v@, i as int) =~= Seq::<Seq<int>>::empty());
                assert(mat(m@) =~= mat(m@) + matrix_cols(v@, i as int));
            }
            break;
        }
        let mut e: usize = i;
        proof {
            lemma_close_at(v@, i as int);
        }
        while e < n && v[e] != ')'
            invariant
                i <= e <= n,
                n == v@.len(),
                close_at(v@, e as int) == close_at(v@, i as int),
            decreases n - e,
        {
            e = e + 1;
        }
        if e == n {
            proof {
                assert(matrix_cols(v@, i as int) =~= Seq::<Seq<int>>::empty());
                assert(mat(m@) =~= mat(m@) + matrix_cols(v@, i as int));
            }
            break;
        }
        let mut t: Vec<char> = Vec::new();
        let mut k: usize = i + 1;
        while k < e
            invariant
                i + 1 <= k <= e,
                e < n == v@.len(),
                t@ == v@.subrange(i + 1, k as int),
            decreases e - k,
        {
            t.push(v[k]);
            k = k + 1;
            proof {
                assert(t@ =~= v@.subrange(i + 1, k as int));
            }
        }
        let row = row_numbers(&t);
        let ghost old_m = mat(m@);
        m.push(row);
        proof {
            assert(mat(m@) =~= old_m.push(ints(row@)));
            assert(matrix_cols(v@, i as int) == seq![ints(row@)] + matrix_cols(v@, e + 1));
            assert(mat(m@) + matrix_cols(v@, e + 1) =~= old_m + matrix_cols(v@, i as int));
        }
        i = e + 1;
    }
    m
}

/// `(a,b)(c)…`: each column bracketed, its entries joined by commas.
pub open spec fn matrix_text(m: Seq<Seq<int>>) -> Seq<char>
    decreases m.len(),
{
    if m.len() == 0 {
        Seq::empty()
    } else {
        matrix_text(m.drop_last()) + "("@ + join_nums(m.last()) + ")"@
    }
}

/// The entries of a sequence, joined by commas.
pub fn format_seq(seq: &[i32]) -> (r: String)
    ensures
        r@ == join_nums(ints(seq@)),
{
    let mut s = String::new();
    let mut j: usize = 0;
    let n = seq.len();
    proof {
        assert(ints(seq@).take(0) =~= Seq::<int>::empty());
    }
    while j < n
        invariant
            j <= n == seq@.len(),
            s@ == join_nums(ints(seq@).take(j as int)),
        decreases n - j,
    {
        proof {
            assert(ints(seq@).take(j + 1).drop_last() =~= ints(seq@).take(j as int));
        }
        if j > 0 {
            s.append(",");
        }
        push_int(&mut s, seq[j] as i64);
        j = j + 1;
        proof {
            assert(s@ =~= join_nums(ints(seq@).take(j as int)));
        }
    }
    proof {
        assert(ints(seq@).take(n as int) =~= ints(seq@));
    }
    s
}

/// Writes a matrix as bracketed columns, `(0,0,0)(1,1,1)`.
pub fn format_matrix(m: &Matrix) -> (r: String)
    ensures
        r@ == matrix_text(mat(m@)),
{
    let mut s = String::new();
    let mut c: usize = 0;
    let n = m.len();
    proof {
        assert(mat(m@).take(0) =~= Seq::<Seq<int>>::empty());
    }
    while c < n
        invariant
            c <= n == m@.len(),
            s@ == matrix_text(mat(m@).take(c as int)),
        decreases n - c,
    {
        let t = format_seq(m[c].as_slice());
        proof {
            assert(mat(m@).take(c + 1).drop_last() =~= mat(m@).take(c as int));
            assert(mat(m@).take(c + 1).last() == ints(m@[c as int]@));
        }
        s.append("(");
        s.append(t.as_str());
        s.append(")");
        c = c + 1;
        proof {
            assert(s@ =~= matrix_text(mat(m@).take(c as int)));
        }
    }
    proof {
        assert(mat(m@).take(n as int) =~= mat(m@));
    }
    s
}

/// Whether the first three columns are those of a triangular matrix:
/// `(0,0,0)(1,0,0)(2,1,0)`, the entries past the first two rows of the
/// third column and past the first row of the others taken as zero where
/// absent.
pub open spec fn zero_after_first(c: Seq<int>, up_to: int) -> bool {
    forall|i: int| 1 <= i <= up_to && i < c.len() ==> c[i] == 0
}

pub open spec fn triangular_shape(m: Seq<Seq<int>>) -> bool {
    &&& m.len() >= 3
    &&& m[0].len() >= 1 && m[0][0] == 0 && zero_after_first(m[0], 2)
    &&& m[1].len() >= 1 && m[1][0] == 1 && zero_after_first(m[1], 2)
    &&& m[2].len() >= 2 && m[2][0] == 2 && m[2][1] == 1
    &&& (m[2].len() <= 2 || m[2][2] == 0)
}

fn zero_after_first_exec(c: &Vec<i32>, up_to: usize) -> (r: bool)
    ensures
        r == zero_after_first(ints(c@), up_to as int),
{
    let mut i: usize = 1;
    while i <= up_to && i < c.len()
        invariant
            1 <= i,
            forall|k: int| 1 <= k < i && k < c@.len() ==> ints(c@)[k] == 0,
        decreases up_to + 1 - i,
    {
        if c[i] != 0 {
            proof {
                assert(ints(c@)[i as int] != 0);
            }
            return false;
        }
        i = i + 1;
    }
    true
}

/// Whether the matrix opens like a triangular one (see `triangular_shape`).
pub fn looks_triangular(m: &Matrix) -> (r: bool)
    ensures
        r == triangular_shape(mat(m@)),
{
    m.len() >= 3 && m[0].len() >= 1 && m[0][0] == 0 && zero_after_first_exec(&m[0], 2)
        && m[1].len() >= 1 && m[1][0] == 1 && zero_after_first_exec(&m[1], 2) && m[2].len()
        >= 2 && m[2][0] == 2 && m[2][1] == 1 && (m[2].len() <= 2 || m[2][2] == 0)
}

// ============================================================
// Sequences
// ============================================================

/// Every piece read as an `i32` after trimming; the first piece that is
/// none is the error.
pub open spec fn seq_parse(ps: Seq<Seq<char>>) -> Result<Seq<int>, Seq<char>>
    decreases ps.len(),
{
    if ps.len() == 0 {
        Ok(Seq::empty())
    } else {
        match seq_parse(ps.drop_last()) {
            Err(e) => Err(e),
            Ok(v) => match parse_i32(spec_trim(ps.last())) {
                Some(x) => Ok(v.push(x)),
                None => Err(spec_trim(ps.last())),
            },
        }
    }
}

/// Reads a comma-separated sequence `1,2,3`; the error is the first piece
/// (trimmed) that is no `i32` numeral.
pub fn parse_seq(s: &str) -> (r: Result<Vec<i32>, String>)
    ensures
        match r {
            Ok(v) => seq_parse(split_commas(s@)) == Ok::<Seq<int>, Seq<char>>(ints(v@)),
            Err(e) => seq_parse(split_commas(s@)) == Err::<Seq<int>, Seq<char>>(e@),
        },
{
    let t = chars_of(s);
    let mut out: Vec<i32> = Vec::new();
    let mut piece: Vec<char> = Vec::new();
    let mut i: usize = 0;
    proof {
        assert(t@.take(0) =~= Seq::<char>::empty());
        assert(split_commas(t@.take(0)).drop_last() =~= Seq::<Seq<char>>::empty());
        assert(ints(out@) =~= Seq::<int>::empty());
    }
    while i < t.len()
        invariant
            i <= t@.len(),
            t@ == s@,
            split_commas(t@.take(i as int)).len() >= 1,
            piece@ == split_commas(t@.take(i as int)).last(),
            seq_parse(split_commas(t@.take(i as int)).drop_last()) == Ok::<Seq<int>, Seq<char>>(
                ints(out@),
            ),
        decreases t.len() - i,
    {
        let ghost sp = split_commas(t@.take(i as int));
        proof {
            assert(t@.take(i + 1).drop_last() =~= t@.take(i as int));
            assert(t@.take(i + 1).last() == t@[i as int]);
        }
        if t[i] == ',' {
            let tp = trim_chars(&piece);
            let ghost sp2 = split_commas(t@.take(i + 1));
            proof {
                assert(sp2 == sp.push(Seq::<char>::empty()));
                assert(sp2.drop_last() =~= sp);
                assert(sp.drop_last() + seq![sp.last()] =~= sp);
            }
            let ghost old_out = ints(out@);
            match parse_i32_chars(&tp) {
                Some(x) => {
                    out.push(x);
                    proof {
                        assert(ints(out@) =~= old_out.push(x as int));
                        assert(seq_parse(sp) == Ok::<Seq<int>, Seq<char>>(old_out.push(x as int)));
                    }
                },
                None => {
                    proof {
                        assert(t@.take(i + 1) =~= t@.subrange(0, i + 1));
                        lemma_seq_parse_err_prefix(t@, i + 1);
                    }
                    let e = crate::text::string_of(&tp);
                    return Err(e);
                },
            }
            piece = Vec::new();
        } else {
            piece.push(t[i]);
            proof {
                let sp2 = split_commas(t@.take(i + 1));
                assert(sp2 == sp.update(sp.len() - 1, sp.last().push(t@[i as int])));
                assert(sp2.drop_last() =~= sp.drop_last());
                assert(piece@ =~= sp2.last());
            }
        }
        i = i + 1;
    }
    let ghost sp = split_commas(t@.take(i as int));
    proof {
        assert(t@.take(i as int) =~= t@);
    }
    let tp = trim_chars(&piece);
    let ghost old_out = ints(out@);
    proof {
        lemma_split_len(t@);
    }
    match parse_i32_chars(&tp) {
        Some(x) => {
            out.push(x);
            proof {
                assert(ints(out@) =~= old_out.push(x as int));
                assert(seq_parse(sp) == Ok::<Seq<int>, Seq<char>>(old_out.push(x as int)));
            }
            Ok(out)
        },
        None => {
            let e = crate::text::string_of(&tp);
            Err(e)
        },
    }
}

/// The finished pieces of a prefix of `t` stay the first pieces of `t`.
proof fn lemma_split_extends(t: Seq<char>, k: int, j: int)
    requires
        0 <= k <= j <= t.len(),
    ensures
        split_commas(t.take(k)).drop_last().is_prefix_of(split_commas(t.take(j))),
        split_commas(t.take(j)).len() >= split_commas(t.take(k)).len(),
    decreases j - k,
{
    lemma_split_len(t.take(k));
    let p = split_commas(t.take(k)).drop_last();
    if j == k {
        assert(p =~= split_commas(t.take(j)).subrange(0, p.len() as int));
    } else {
        lemma_split_extends(t, k, j - 1);
        let a = split_commas(t.take(j - 1));
        let b = split_commas(t.take(j));
        assert(t.take(j).drop_last() =~= t.take(j - 1));
        lemma_split_len(t.take(j - 1));
        if t.take(j).last() == ',' {
            assert(b == a.push(Seq::<char>::empty()));
        } else {
            assert(b == a.update(a.len() - 1, a.last().push(t.take(j).last())));
        }
        assert(a.subrange(0, p.len() as int) =~= p);
        assert(p =~= b.subrange(0, p.len() as int));
    }
}

proof fn lemma_split_len(t: Seq<char>)
    ensures
        split_commas(t).len() >= 1,
    decreases t.len(),
{
    if t.len() > 0 {
        lemma_split_len(t.drop_last());
    }
}

/// Errors among the first pieces stay the error once more pieces follow.
proof fn lemma_seq_parse_prefix(ps: Seq<Seq<char>>, qs: Seq<Seq<char>>)
    requires
        ps.is_prefix_of(qs),
        seq_parse(ps) is Err,
    ensures
        seq_parse(qs) == seq_parse(ps),
    decreases qs.len(),
{
    if qs.len() > ps.len() {
        assert(ps.is_prefix_of(qs.drop_last()));
        lemma_seq_parse_prefix(ps, qs.drop_last());
    } else {
        assert(ps =~= qs);
    }
}

/// A piece that fails at the comma ending `t[..j]` is the error of all of `t`.
proof fn lemma_seq_parse_err_prefix(t: Seq<char>, j: int)
    requires
        0 < j <= t.len(),
        t[j - 1] == ',',
        seq_parse(split_commas(t.take(j)).drop_last()) is Err,
    ensures
        seq_parse(split_commas(t)) == seq_parse(split_commas(t.take(j)).drop_last()),
{
    lemma_split_extends(t, j, t.len() as int);
    assert(t.take(t.len() as int) =~= t);
    lemma_seq_parse_prefix(split_commas(t.take(j)).drop_last(), split_commas(t));
}


// ============================================================
// Words and flags
// ============================================================

/// Whether two strings hold the same characters.
pub fn same_text(a: &str, b: &str) -> (r: bool)
    ensures
        r == (a@ == b@),
{
    let x = chars_of(a);
    let y = chars_of(b);
    chars_equal(&x, &y)
}

fn chars_equal(x: &Vec<char>, y: &Vec<char>) -> (r: bool)
    ensures
        r == (x@ == y@),
{
    if x.len() != y.len() {
        return false;
    }
    let mut i: usize = 0;
    while i < x.len()
        invariant
            i <= x@.len() == y@.len(),
            forall|k: int| 0 <= k < i ==> x@[k] == y@[k],
        decreases x.len() - i,
    {
        if x[i] != y[i] {
            return false;
        }
        i = i + 1;
    }
    proof {
        assert(x@ =~= y@);
    }
    true
}

/// The notation that a command is asked to print.
#[derive(Debug, Clone, Copy, PartialEq, Eq)]
pub enum OutputType {
    All,
    Bocf,
    Bms,
    Veblen,
    ZeroY,
    Triangular,
    Hydra,
    Hprss,
    Lprss,
}

/// The notation named by an output selector; anything unknown selects all.
pub open spec fn output_kind(s: Seq<char>) -> OutputType {
    if s == "bocf"@ || s == "ocf"@ || s == "ordinal"@ {
        OutputType::Bocf
    } else if s == "bms"@ {
        OutputType::Bms
    } else if s == "veblen"@ || s == "φ"@ || s == "phi"@ {
        OutputType::Veblen
    } else if s == "0y"@ || s == "0-y"@ || s == "seq"@ {
        OutputType::ZeroY
    } else if s == "triangular"@ {
        OutputType::Triangular
    } else if s == "hydra"@ || s == "pss"@ {
        OutputType::Hydra
    } else if s == "hprss"@ {
        OutputType::Hprss
    } else if s == "lprss"@ {
        OutputType::Lprss
    } else {
        OutputType::All
    }
}

/// Reads an output selector (`bocf`, `bms`, `veblen`, `0y`, `triangular`,
/// `hydra`, `hprss`, `lprss` and their aliases).
pub fn parse_output_type(s: &str) -> (r: OutputType)
    ensures
        r == output_kind(s@),
{
    if same_text(s, "bocf") || same_text(s, "ocf") || same_text(s, "ordinal") {
        OutputType::Bocf
    } else if same_text(s, "bms") {
        OutputType::Bms
    } else if same_text(s, "veblen") || same_text(s, "φ") || same_text(s, "phi") {
        OutputType::Veblen
    } else if same_text(s, "0y") || same_text(s, "0-y") || same_text(s, "seq") {
        OutputType::ZeroY
    } else if same_text(s, "triangular") {
        OutputType::Triangular
    } else if same_text(s, "hydra") || same_text(s, "pss") {
        OutputType::Hydra
    } else if same_text(s, "hprss") {
        OutputType::Hprss
    } else if same_text(s, "lprss") {
        OutputType::Lprss
    } else {
        OutputType::All
    }
}

/// Whether some argument is exactly `flag`.
pub open spec fn has_arg(args: Seq<String>, flag: Seq<char>) -> bool {
    exists|i: int| 0 <= i < args.len() && (#[trigger] args[i])@ == flag
}

pub fn has_flag(args: &[String], flag: &str) -> (r: bool)
    ensures
        r == has_arg(args@, flag@),
{
    let mut i: usize = 0;
    while i < args.len()
        invariant
            i <= args@.len(),
            forall|k: int| 0 <= k < i ==> (#[trigger] args@[k])@ != flag@,
        decreases args.len() - i,
    {
        if same_text(args[i].as_str(), flag) {
            return true;
        }
        i = i + 1;
    }
    false
}

/// The first position from `i` on holding `flag` with an argument after it.
pub open spec fn flag_pos(args: Seq<String>, flag: Seq<char>, i: int) -> Option<int>
    decreases args.len() - i,
{
    if i < 0 || i >= args.len() {
        None
    } else if args[i]@ == flag && i + 1 < args.len() {
        Some(i)
    } else {
        flag_pos(args, flag, i + 1)
    }
}

proof fn lemma_flag_pos(args: Seq<String>, flag: Seq<char>, i: int)
    requires
        0 <= i,
    ensures
        flag_pos(args, flag, i) matches Some(k) ==> i <= k && k + 1 < args.len() && args[k]@ == flag,
    decreases args.len() - i,
{
    if i < args.len() && !(args[i]@ == flag && i + 1 < args.len()) {
        lemma_flag_pos(args, flag, i + 1);
    }
}

/// Where `flag` first stands with an argument after it.
fn find_flag(args: &[String], flag: &str) -> (r: Option<usize>)
    ensures
        match r {
            Some(k) => flag_pos(args@, flag@, 0) == Some(k as int),
            None => flag_pos(args@, flag@, 0) is None,
        },
{
    proof {
        lemma_flag_pos(args@, flag@, 0);
    }
    let mut i: usize = 0;
    while i < args.len()
        invariant
            i <= args@.len(),
            flag_pos(args@, flag@, i as int) == flag_pos(args@, flag@, 0),
        decreases args.len() - i,
    {
        if same_text(args[i].as_str(), flag) && i + 1 < args.len() {
            return Some(i);
        }
        i = i + 1;
    }
    None
}

/// The number after the first `flag` that has an argument after it; `None`
/// where there is no such flag or its argument is no `i32` numeral.
pub fn flag_value(args: &[String], flag: &str) -> (r: Option<i32>)
    ensures
        match flag_pos(args@, flag@, 0) {
            None => r is None,
            Some(k) => match parse_i32(args@[k + 1]@) {
                Some(x) => r == Some(x as i32),
                None => r is None,
            },
        },
{
    proof {
        lemma_flag_pos(args@, flag@, 0);
    }
    let n = args.len();
    match find_flag(args, flag) {
        None => None,
        Some(k) => {
            let v = chars_of(args[k + 1].as_str());
            parse_i32_chars(&v)
        },
    }
}

/// The notation selected by the first `--to` with an argument after it, or
/// `default` where there is none.
pub fn selected_output(args: &[String], default: OutputType) -> (r: OutputType)
    ensures
        r == match flag_pos(args@, "--to"@, 0) {
            None => default,
            Some(k) => output_kind(args@[k + 1]@),
        },
{
    proof {
        lemma_flag_pos(args@, "--to"@, 0);
    }
    let n = args.len();
    match find_flag(args, "--to") {
        None => default,
        Some(k) => parse_output_type(args[k + 1].as_str()),
    }
}

// ============================================================
// LaTeX to plain text
// ============================================================

pub open spec fn is_ascii_alpha(b: u8) -> bool {
    (65 <= b <= 90) || (97 <= b <= 122)
}

/// End of the run of ASCII letters at `j`.
pub open spec fn alpha_end(b: Seq<u8>, j: int) -> int
    decreases b.len() - j,
{
    if 0 <= j < b.len() && is_ascii_alpha(b[j]) {
        alpha_end(b, j + 1)
    } else {
        j
    }
}

/// End of the run of `{` at `j`.
pub open spec fn open_brace_end(b: Seq<u8>, j: int) -> int
    decreases b.len() - j,
{
    if 0 <= j < b.len() && b[j] == 123 {
        open_brace_end(b, j + 1)
    } else {
        j
    }
}

pub proof fn lemma_alpha_end(b: Seq<u8>, j: int)
    requires
        0 <= j <= b.len(),
    ensures
        j <= alpha_end(b, j) <= b.len(),
        forall|k: int| j <= k < alpha_end(b, j) ==> is_ascii_alpha(#[trigger] b[k]),
    decreases b.len() - j,
{
    if j < b.len() && is_ascii_alpha(b[j]) {
        lemma_alpha_end(b, j + 1);
    }
}

pub proof fn lemma_open_brace_end(b: Seq<u8>, j: int)
    requires
        0 <= j <= b.len(),
    ensures
        j <= open_brace_end(b, j) <= b.len(),
    decreases b.len() - j,
{
    if j < b.len() && b[j] == 123 {
        lemma_open_brace_end(b, j + 1);
    }
}

/// Each byte read as the character of that code point.
pub open spec fn byte_chars(b: Seq<u8>) -> Seq<char> {
    b.map_values(|x: u8| x as char)
}

/// The plain form of a LaTeX command name: Greek letters as symbols,
/// `\left` and `\right` dropped, any other name kept as it is.
pub open spec fn plain_word(w: Seq<char>) -> Seq<char> {
    if w == "psi"@ {
        "ψ"@
    } else if w == "Omega"@ {
        "Ω"@
    } else if w == "omega"@ {
        "ω"@
    } else if w == "varepsilon"@ {
        "ε"@
    } else if w == "zeta"@ {
        "ζ"@
    } else if w == "eta"@ {
        "η"@
    } else if w == "Gamma"@ {
        "Γ"@
    } else if w == "varphi"@ {
        "φ"@
    } else if w == "left"@ || w == "right"@ {
        Seq::empty()
    } else {
        w
    }
}

/// Where a command at `i` (a backslash) ends: after its name, any `{`
/// that follow, and one `}` after those.
pub open spec fn command_end(b: Seq<u8>, i: int) -> int {
    let k = open_brace_end(b, alpha_end(b, i + 1));
    if 0 <= k < b.len() && b[k] == 125 {
        k + 1
    } else {
        k
    }
}

/// The bytes of a string from `i` on with each LaTeX command replaced by its
/// plain word; every other byte becomes the character of its code point.
pub open spec fn strip_from(b: Seq<u8>, i: int) -> Seq<char>
    decreases b.len() - i,
{
    if i < 0 || i >= b.len() {
        Seq::empty()
    } else if b[i] == 92 {
        proof {
            lemma_alpha_end(b, i + 1);
            lemma_open_brace_end(b, alpha_end(b, i + 1));
        }
        plain_word(byte_chars(b.subrange(i + 1, alpha_end(b, i + 1)))) + strip_from(
            b,
            command_end(b, i),
        )
    } else {
        seq![b[i] as char] + strip_from(b, i + 1)
    }
}

fn chars_are(v: &Vec<char>, t: &str) -> (r: bool)
    ensures
        r == (v@ == t@),
{
    let w = chars_of(t);
    chars_equal(v, &w)
}

fn push_plain_word(r: &mut String, w: &Vec<char>)
    ensures
        final(r)@ == old(r)@ + plain_word(w@),
{
    if chars_are(w, "psi") {
        r.append("ψ");
    } else if chars_are(w, "Omega") {
        r.append("Ω");
    } else if chars_are(w, "omega") {
        r.append("ω");
    } else if chars_are(w, "varepsilon") {
        r.append("ε");
    } else if chars_are(w, "zeta") {
        r.append("ζ");
    } else if chars_are(w, "eta") {
        r.append("η");
    } else if chars_are(w, "Gamma") {
        r.append("Γ");
    } else if chars_are(w, "varphi") {
        r.append("φ");
    } else if chars_are(w, "left") || chars_are(w, "right") {
        proof {
            assert(old(r)@ + plain_word(w@) =~= old(r)@);
        }
    } else {
        push_chars(r, w, 0, w.len());
        proof {
            assert(w@.subrange(0, w@.len() as int) =~= w@);
        }
    }
}

/// Plain text of a LaTeX string: `\psi`, `\Omega`, `\omega`, `\varepsilon`,
/// `\zeta`, `\eta`, `\Gamma`, `\varphi` become their symbols, `\left` and
/// `\right` vanish, other commands keep their name; the `{` after a command
/// and one `}` after those are dropped. Other bytes are copied one by one,
/// each as the character of its code point.
pub fn strip_latex(s: &str) -> (r: String)
    ensures
        r@ == strip_from(s.spec_bytes(), 0),
{
    let b = s.as_bytes();
    let n = b.len();
    let ghost bs = b@;
    let mut r = String::new();
    let mut i: usize = 0;
    while i < n
        invariant
            i <= n == bs.len(),
            bs == b@,
            bs == s.spec_bytes(),
            r@ + strip_from(bs, i as int) == strip_from(bs, 0),
        decreases n - i,
    {
        if b[i] == 92 {
            proof {
                lemma_alpha_end(bs, i + 1);
            }
            let mut j: usize = i + 1;
            let mut w: Vec<char> = Vec::new();
            while j < n && ((65 <= b[j] && b[j] <= 90) || (97 <= b[j] && b[j] <= 122))
                invariant
                    i + 1 <= j <= n == bs.len(),
                    bs == b@,
                    alpha_end(bs, j as int) == alpha_end(bs, i + 1),
                    w@ == byte_chars(bs.subrange(i + 1, j as int)),
                decreases n - j,
            {
                w.push(b[j] as char);
                j = j + 1;
                proof {
                    assert(w@ =~= byte_chars(bs.subrange(i + 1, j as int)));
                }
            }
            proof {
                lemma_open_brace_end(bs, j as int);
            }
            let mut k: usize = j;
            while k < n && b[k] == 123
                invariant
                    j <= k <= n == bs.len(),
                    bs == b@,
                    open_brace_end(bs, k as int) == open_brace_end(bs, j as int),
                decreases n - k,
            {
                k = k + 1;
            }
            if k < n && b[k] == 125 {
                k = k + 1;
            }
            let ghost old_r = r@;
            push_plain_word(&mut r, &w);
            proof {
                assert(k == command_end(bs, i as int));
                assert(strip_from(bs, i as int) == plain_word(w@) + strip_from(bs, k as int));
                assert(r@ + strip_from(bs, k as int) =~= old_r + strip_from(bs, i as int));
            }
            i = k;
        } else {
            let ghost old_r = r@;
            push_char(&mut r, b[i] as char);
            proof {
                assert(r@ + strip_from(bs, i + 1) =~= old_r + strip_from(bs, i as int));
            }
            i = i + 1;
        }
    }
    proof {
        assert(r@ =~= r@ + strip_from(bs, n as int));
    }
    r
}

} // verus!
