use bms_core::bms::bms_to_bocf;
use bms_core::lmn::{term_to_lmn, term_to_lmn_full};
use bms_core::term::{self as tm, Term};


fn nat_term(n: i32) -> Term {
    let mut t = tm::zero();
    for _ in 0..n {
        t = tm::succ(&t);
    }
    t
}

fn head(a: Term, b: Term) -> Term {
    tm::t(a, b, tm::zero())
}

fn assert_forms(term: &Term, p: &str, simple: &str, bracket: &str) {
    let f = term_to_lmn(term);
    assert_eq!(f.p, p, "p form of {}", tm::term_to_string(false, term));
    assert_eq!(f.p_simple, simple, "simple form of {}", tm::term_to_string(false, term));
    assert_eq!(f.bracket, bracket, "bracket form of {}", tm::term_to_string(false, term));
}

#[test]
fn lmn_reference_cases() {
    let one = nat_term(1);
    let omega_c = head(nat_term(1), tm::zero()); // Ω = ψ₁(0)

    assert_forms(&tm::zero(), "0", "0", "0");
    assert_forms(&nat_term(3), "3", "p_0(0)+p_0(0)+p_0(0)", "0+0+0");
    assert_forms(&nat_term(1), "1", "p_0(0)", "0");
    // ω = ψ₀(1)
    assert_forms(&head(tm::zero(), tm::clone_term(&one)), "p_0(1)", "p_0(p_0(0))", "0(0)");
    // ε₀ = ψ₀(Ω)
    assert_forms(
        &head(tm::zero(), tm::clone_term(&omega_c)),
        "p_0(p_1(0))",
        "p_0(p_{p_0(0)}(0))",
        "0(0(1))",
    );
    // Ω = ψ₁(0)
    assert_forms(&omega_c, "p_1(0)", "p_{p_0(0)}(0)", "0(1)");
    // ψ₁(1)
    assert_forms(
        &head(tm::clone_term(&one), tm::clone_term(&one)),
        "p_1(1)",
        "p_{p_0(0)}(p_0(0))",
        "0(1+0)",
    );
    // ψ₁(2)
    assert_forms(
        &head(tm::clone_term(&one), nat_term(2)),
        "p_1(2)",
        "p_{p_0(0)}(p_0(0)+p_0(0))",
        "0(1+0+0)",
    );
    // ψ₂(0)
    assert_forms(&head(nat_term(2), tm::zero()), "p_2(0)", "p_{p_0(0)+p_0(0)}(0)", "0(1+1)");
    // ψ₃(1)
    assert_forms(
        &head(nat_term(3), tm::clone_term(&one)),
        "p_3(1)",
        "p_{p_0(0)+p_0(0)+p_0(0)}(p_0(0))",
        "0(1+1+1+0)",
    );
    // ψ₀(ψ₀(Ω))
    let eps0 = head(tm::zero(), tm::clone_term(&omega_c));
    assert_forms(
        &head(tm::zero(), tm::clone_term(&eps0)),
        "p_0(p_0(p_1(0)))",
        "p_0(p_0(p_{p_0(0)}(0)))",
        "0(0(0(1)))",
    );
    // ψ₀(ψ₁(1))
    let psi1_1 = head(tm::clone_term(&one), tm::clone_term(&one));
    assert_forms(
        &head(tm::zero(), psi1_1),
        "p_0(p_1(1))",
        "p_0(p_{p_0(0)}(p_0(0)))",
        "0(0(1+0))",
    );
    // ψ₁(ψ₀(Ω))
    assert_forms(
        &head(one, eps0),
        "p_1(p_0(p_1(0)))",
        "p_{p_0(0)}(p_0(p_{p_0(0)}(0)))",
        "0(1+0(0(1)))",
    );
    // ψ_ω(0) = ψ_{ψ₀(1)}(0)
    let omega = head(tm::zero(), nat_term(1));
    assert_forms(
        &head(omega, tm::zero()),
        "p_{p_0(1)}(0)",
        "p_{p_0(p_0(0))}(0)",
        "0(1(0))",
    );
    // ψ₀(ω) = ψ₀(ψ₀(1))
    assert_forms(
        &head(tm::zero(), head(tm::zero(), nat_term(1))),
        "p_0(p_0(1))",
        "p_0(p_0(p_0(0)))",
        "0(0(0))",
    );
}

#[test]
fn lmn_full_form() {
    let one = nat_term(1);
    let omega_c = head(nat_term(1), tm::zero());
    let eps0 = head(tm::zero(), omega_c);
    // 0 ↦ ψ_0(0); 0(1) ↦ ψ_0(ψ_1(0)); 1+1+1 ↦ ψ_1(0)+ψ_1(0)+ψ_1(0).
    assert_eq!(term_to_lmn_full(&tm::zero()), "\\psi_0(0)");
    assert_eq!(term_to_lmn_full(&head(tm::zero(), tm::clone_term(&one))), "\\psi_0(\\psi_0(0))");
    assert_eq!(
        term_to_lmn_full(&eps0),
        "\\psi_0(\\psi_0(\\psi_1(0)))"
    );
    assert_eq!(
        term_to_lmn_full(&head(nat_term(3), one)),
        "\\psi_0(\\psi_1(0)+\\psi_1(0)+\\psi_1(0)+\\psi_0(0))"
    );
}

#[test]
fn lmn_end_to_end_default_matrix() {
    // The default matrix of the reference page; its BOCF ordinal is
    // ψ₀(ψ_{ψ_{ψ₃(0)+2}(0)+1}(0)) in both implementations.
    let cols: Vec<Vec<i32>> = [
        [0, 0, 0],
        [1, 1, 1],
        [2, 1, 1],
        [3, 1, 0],
        [1, 1, 1],
        [2, 1, 1],
        [3, 1, 0],
        [1, 1, 0],
        [2, 2, 1],
        [3, 2, 1],
        [4, 2, 0],
        [2, 2, 1],
        [3, 2, 1],
        [4, 2, 0],
        [2, 2, 0],
        [3, 3, 1],
        [4, 3, 1],
        [5, 3, 0],
        [3, 3, 1],
        [4, 3, 1],
        [5, 3, 0],
        [3, 3, 0],
        [4, 4, 1],
        [5, 4, 1],
        [6, 4, 0],
        [4, 4, 1],
        [5, 4, 1],
        [6, 3, 0],
        [5, 4, 0],
        [6, 5, 1],
        [7, 5, 1],
        [8, 5, 0],
        [6, 5, 0],
        [7, 6, 1],
        [8, 6, 1],
        [9, 6, 0],
        [7, 6, 0],
        [8, 7, 1],
        [9, 7, 1],
        [10, 6, 0],
        [9, 7, 0],
        [10, 8, 0],
    ]
    .iter()
    .map(|c| c.to_vec())
    .collect();
    let term = bms_to_bocf(&cols);
    assert_forms(
        &term,
        "p_0(p_{p_{p_3(0)+2}(0)+1}(0))",
        "p_0(p_{p_{p_{p_0(0)+p_0(0)+p_0(0)}(0)+p_0(0)+p_0(0)}(0)+p_0(0)}(0))",
        "0(0(1(0(1(0(1+1+1))+1+1))+1))",
    );
}

