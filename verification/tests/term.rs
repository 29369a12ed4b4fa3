use bms_core::parser::{eval_ast, parse_bocf};
use bms_core::term::{
    Term, add, clone_term, eq, from_int, fundamental_sequence, omega, omega1, one, t, term_to_psi_simple,
    term_to_pure, term_to_string, zero,
};


fn eval(input: &str) -> Term {
    eval_ast(&parse_bocf(input).expect("parse")).expect("eval")
}

#[test]
fn fs_psi_omega_cubed() {
    // ψ(Ω^3)[3] = ψ₀(ψ₁(Ω + ψ₀(ψ₁(Ω + ψ₀(ψ₁(Ω + 1))))))
    let a = eval("ψ(Ω^3)");
    let r = fundamental_sequence(&a, 3);
    let p1 = t(one(), bms_core::term::add(&omega1(), &one()), zero()); // ψ₁(Ω+1)
    let q1 = t(zero(), clone_term(&p1), zero());
    let p2 = t(one(), bms_core::term::add(&omega1(), &q1), zero());
    let q2 = t(zero(), clone_term(&p2), zero());
    let p3 = t(one(), bms_core::term::add(&omega1(), &q2), zero());
    let expected = t(zero(), p3, zero());
    assert!(
        eq(&r, &expected),
        "got {}",
        term_to_string(false, &r)
    );
}

#[test]
fn fs_epsilon_zero() {
    // ψ₀(Ω)[3] = ψ₀(ψ₀(ψ₀(1)))
    let a = t(zero(), omega1(), zero());
    let r = fundamental_sequence(&a, 3);
    let one_ = one();
    let q1 = t(zero(), one_, zero());
    let q2 = t(zero(), clone_term(&q1), zero());
    let expected = t(zero(), q2, zero());
    assert!(
        eq(&r, &expected),
        "got {}",
        term_to_string(false, &r)
    );
}

#[test]
fn psi_simple_display() {
    assert_eq!(term_to_psi_simple(&zero()), "0");
    assert_eq!(term_to_psi_simple(&from_int(3)), "3");
    assert_eq!(term_to_psi_simple(&omega1()), "\\Omega");
    // runs of identical summands merge as ordinal products
    let omega2 = bms_core::term::add(&omega1(), &omega1());
    assert_eq!(term_to_psi_simple(&omega2), "\\Omega2");
    let w2 = bms_core::term::add(&omega(), &omega());
    assert_eq!(term_to_psi_simple(&w2), "\\psi\\left(1\\right)2");
    assert_eq!(term_to_psi_simple(&bms_core::term::add(&w2, &one())), "\\psi\\left(1\\right)2+1");
    let e = eval("ψ(Ω^3)");
    let r = fundamental_sequence(&e, 3);
    assert_eq!(
        term_to_psi_simple(&r),
        "\\psi\\left(\\psi_{1}\\left(\\Omega+\\psi\\left(\\psi_{1}\\left(\\Omega+\\psi\\left(\\psi_{1}\\left(\\Omega+1\\right)\\right)\\right)\\right)\\right)\\right)"
    );
}

#[test]
fn pure_display() {
    assert_eq!(term_to_pure(&zero()), "0");
    // 1 = ψ₀(0)
    assert_eq!(
        term_to_pure(&one()),
        "\\psi\\left(0\\right)"
    );
    // naturals expand to sums of ψ(0), never digits
    assert_eq!(
        term_to_pure(&from_int(3)),
        "\\psi\\left(0\\right)+\\psi\\left(0\\right)+\\psi\\left(0\\right)"
    );
    // ω = ψ₀(1)
    assert_eq!(
        term_to_pure(&omega()),
        "\\psi\\left(\\psi\\left(0\\right)\\right)"
    );
    // Ω = ψ₁(0): subscript 1 = ψ₀(0)
    assert_eq!(
        term_to_pure(&omega1()),
        "\\psi_{\\psi\\left(0\\right)}\\left(0\\right)"
    );
    // only ψ, (, ), _, +, 0 may appear: no digits besides 0, no \Omega
    let s = term_to_pure(&eval("ψ(Ω^3)"));
    assert!(!s.contains("\\Omega"));
    assert!(!s.chars().any(|c| c.is_ascii_digit() && c != '0'));
}


#[test]
fn addition_is_associative_on_examples() {
    let a = one();
    let b = omega();
    let c = add(&omega(), &one());
    assert!(eq(&add(&add(&a, &b), &c), &add(&a, &add(&b, &c))));
    assert!(eq(&add(&add(&b, &a), &a), &add(&b, &add(&a, &a))));
}

#[test]
fn psi_of_epsilon_zero_normalizes_to_epsilon_zero() {
    use_case();
}

fn use_case() {
    let e0 = bms_core::term::epsilon0();
    let x = t(zero(), bms_core::term::epsilon0(), zero());
    assert!(eq(&bms_core::term::standard_form(&x), &e0));
    assert!(!bms_core::term::is_bocf_standard(&x));
    assert!(bms_core::term::is_bocf_standard(&e0));
    assert!(eq(&bms_core::term::standard_form(&e0), &e0));
}

#[test]
fn arithmetic_laws_on_examples() {
    let w = omega();
    let a = add(&w, &one());
    assert!(bms_core::term::is_succ(&bms_core::term::succ(&w)));
    assert!(eq(&bms_core::term::pred(&bms_core::term::succ(&a)), &a));
    assert!(eq(&bms_core::term::pred(&w), &w));
    let b = add(&w, &add(&w, &one()));
    assert!(eq(&add(&w, &bms_core::term::sub(&b, &w)), &b));
    assert!(eq(&bms_core::term::mul(&a, &one()), &a));
    assert!(eq(&bms_core::term::mul(&one(), &a), &a));
    assert!(bms_core::term::mul(&a, &zero()).is_none());
    let e = bms_core::term::exp(&w);
    assert!(eq(&e, &t(zero(), clone_term(&w), zero())));
    assert!(eq(&bms_core::term::log(&e), &w));
}

#[test]
fn terms_as_bocf_input() {
    use_input_cases();
}

fn use_input_cases() {
    let cases = [
        ("0", "0"),
        ("3", "3"),
        ("ψ(Ω)", "ψ(Ω)"),
        ("ψ(Ω×2)", "ψ(Ω×2)"),
        ("ψ_2(0)", "ψ_2(0)"),
        ("ψ(Ω_2)", "ψ(Ω_2)"),
        ("ψ(1)", "ψ(1)"),
        ("ψ(1)+ψ(0)", "ψ(1)+1"),
    ];
    for (input, want) in cases {
        let out = bms_core::parser::term_to_bocf_input(&eval(input));
        assert_eq!(out, want, "for {input}");
        assert!(eq(&eval(&out), &eval(input)), "read back {input}");
    }
}
