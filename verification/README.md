# bms_core

A verified toolkit for ordinal notations: Buchholz-style ψ terms (BOCF),
Bashicu matrices (BMS), PSS hydras with their HPrSS and LPrSS sequence
forms, IHSS hydras, the Mahlo-level BOCF, the sequence notations SSS and
1-Y, Nested OCF (NOCF) and Madore's OCF (MOCF).

Every function of the library in `src/` carries a contract checked by
Verus, stated over mathematical models (sequences of integers for
matrices and sequences, `Term` trees for ordinals). Where a computation
could leave the `i32` range, the library either asks for that in
`requires` and offers a checking function beside it, or returns `None`.

Layout:

- `src/term.rs`: ψ terms, their order, arithmetic, standard form and
  fundamental sequences; `src/text.rs`: numerals and strings.
- `src/parser.rs`: BOCF text, its evaluation, and the search for the BMS
  matrix of a term.
- `src/expand.rs`, `src/bms.rs`: BMS expansion, evaluation and standardness.
- `src/hydra.rs`: PSS hydras, HPrSS and LPrSS.
- `src/ihss.rs`, `src/mbocf.rs`: IHSS hydras and Mahlo-level BOCF.
- `src/sss.rs`, `src/one_y.rs`, `src/ocf.rs`, `src/lmn.rs`: further
  notations.
- `src/mocf.rs`: MOCF terms, their order, products and powers, fundamental
  sequences, LaTeX printing and parsing. A display power `q^e` is compared
  and expanded through its value `ω^{q·e}`, a term that is not a sub-term
  of `q^e`; each such unfolding spends one unit of a depth budget
  (`MOCF_DEPTH`), and the printer carries its own budget
  (`MOCF_PRINT_DEPTH`), which only a term nested that deep exhausts.
- `src/mocf_norm.rs`: structural normalization of MOCF expressions with
  explicit products and powers (`mocf_normalize`) and their rendering.
- `src/cli.rs`: the argument and text handling of the command line tool,
  whose I/O lives in `app/`.
- `tests/`: executable tests.

Not covered: the conversions between BOCF and MOCF (`bocf_to_mocf`,
`term_to_mocf`, `mocf_to_bocf`), the Veblen-function rendering of terms
and the t-function behind it, and the 0-Y, ω-Y and triangular-matrix
notations. The BOCF/MOCF conversions are a large body of case rules over
parsed BOCF text that has no verified counterpart here yet; the Veblen
rendering recurses on exponents that are not sub-terms of its input, and
no termination argument for it is at hand. The last three notations rest
on definitions that this code base does not contain.
