use bms_core::mocf_norm::{c_sum, mocf_normalize, render_c, C};

#[test]
fn structural_normalize() {
    let n = |c: C| render_c(&mocf_normalize(&c));
    let psi0 = |a: C| C::Psi(None, Box::new(a));
    let psiv = |v: C, a: C| C::Psi(Some(Box::new(v)), Box::new(a));
    let omegapow = |e: C| C::OmegaPow(Box::new(e));

    // Rule 1: ω^{ψ_a(b)} = ψ_a(b), regardless of a and b.
    assert_eq!(n(omegapow(psi0(C::Zero))), "\\psi(0)");
    assert_eq!(n(omegapow(psi0(C::Nat(3)))), "\\psi(3)");
    assert_eq!(
        n(omegapow(psiv(C::Nat(2), C::Zero))),
        "\\psi_{2}(0)"
    );
    assert_eq!(
        n(omegapow(psiv(C::OmegaPow(Box::new(C::One)), C::Omega))),
        "\\psi_{\\omega}(\\Omega)"
    );

    // ψ-coefficients and ψ-powers in ω-exponents.
    assert_eq!(
        n(omegapow(C::Mul(Box::new(psi0(C::Zero)), Box::new(C::Nat(2))))),
        "\\psi(0)^{2}"
    );
    assert_eq!(
        n(omegapow(C::Pow(Box::new(psi0(C::Zero)), Box::new(C::Nat(2))))),
        "\\psi(0)^{\\psi(0)}"
    );
    // ω^{ω+ψ(0)} = ω^ω·ψ(0) = ψ(0) (left absorption).
    assert_eq!(
        n(omegapow(c_sum(vec![
            omegapow(C::One),
            psi0(C::Zero),
        ]))),
        "\\psi(0)"
    );
    // ω^{ψ(0)·2+ω} = ψ(0)^2·ω^ω (no absorption to the right).
    assert_eq!(
        n(omegapow(c_sum(vec![
            C::Mul(Box::new(psi0(C::Zero)), Box::new(C::Nat(2))),
            omegapow(C::One),
        ]))),
        "\\psi(0)^{2}\\omega^{\\omega}"
    );

    // ω^u·ω^v = ω^{u+v}; ψ-powers merge.
    assert_eq!(
        n(C::Mul(
            Box::new(omegapow(psi0(C::Zero))),
            Box::new(omegapow(psi0(C::Zero))),
        )),
        "\\psi(0)^{2}"
    );

    // Absorption in products: ω^ω·ψ_1(0) = ψ_1(0), 5 + ψ(0) = ψ(0).
    assert_eq!(
        n(C::Mul(
            Box::new(omegapow(C::One)),
            Box::new(psiv(C::Nat(1), C::Zero)),
        )),
        "\\psi_{1}(0)"
    );
    assert_eq!(
        n(c_sum(vec![C::Nat(5), psi0(C::Zero)])),
        "\\psi(0)"
    );

    // Counter-cases: ω^{ψ(0)}·ψ(0) = ψ(0)^2 (equal exponent, no absorption).
    assert_eq!(
        n(C::Mul(
            Box::new(omegapow(psi0(C::Zero))),
            Box::new(psi0(C::Zero)),
        )),
        "\\psi(0)^{2}"
    );
    // ω^{ψ(0)} + ψ(1) = ψ(1) (ψ(1) > ψ(0) absorbs the left term).
    assert_eq!(
        n(c_sum(vec![omegapow(psi0(C::Zero)), psi0(C::Nat(1))])),
        "\\psi(1)"
    );
    // Ω + ψ(1) stays: Ω = ψ_1(0) is not below ψ(1).
    assert_eq!(
        n(c_sum(vec![C::Omega, psi0(C::Nat(1))])),
        "\\Omega + \\psi(1)"
    );
}

#[test]
fn normalize_merges_like_terms() {
    let psi0 = |a: C| C::Psi(None, Box::new(a));
    // x + x = x·2
    assert_eq!(
        render_c(&mocf_normalize(&c_sum(vec![psi0(C::Zero), psi0(C::Zero)]))),
        "\\psi(0)2"
    );
    // Ω^1 is Ω.
    assert_eq!(
        render_c(&mocf_normalize(&C::Pow(Box::new(C::Omega), Box::new(C::Nat(1))))),
        "\\Omega"
    );
    // Ω_1 renders as Ω.
    assert_eq!(render_c(&C::OmegaSub(Box::new(C::One))), "\\Omega");
}
