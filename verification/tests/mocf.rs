use bms_core::mocf::{analyze_mocf, expand_mocf, mocf_value_eq, parse_mocf, Mocf};

fn mocf(s: &str) -> Mocf {
    parse_mocf(s).unwrap()
}

#[test]
fn mocf_parse_display() {
    assert_eq!(mocf("0").to_string(), "0");
    assert_eq!(mocf("1").to_string(), "1");
    assert_eq!(mocf("ω").to_string(), "\\omega");
    assert_eq!(mocf("Ω").to_string(), "\\Omega");
    assert_eq!(mocf("ψ(0)").to_string(), "\\psi(0)");
    assert_eq!(mocf("ψ_Ω(0)").to_string(), "\\psi_{\\Omega}(0)");
    assert_eq!(mocf("ω^ω").to_string(), "\\omega^{\\omega}");
    assert_eq!(mocf("Ω_Ω").to_string(), "\\Omega_{\\Omega}");
}

#[test]
fn mocf_display_normalize() {
    // Natural numbers merge: 1+1 = 2 (not "1+1").
    assert_eq!(mocf("2").to_string(), "2");
    assert_eq!(mocf("1+1").to_string(), "2");
    assert_eq!(mocf("12").to_string(), "12");
    // Like terms merge into coefficients.
    assert_eq!(mocf("ω+ω").to_string(), "\\omega2");
    assert_eq!(mocf("ω2").to_string(), "\\omega2");
    assert_eq!(mocf("ω2").to_string(), "\\omega2");
    assert_eq!(mocf("ψ(0)+ψ(0)").to_string(), "\\psi(0)2");
    // Left absorption: A + B = B when A < B.
    assert_eq!(mocf("ω+ψ(0)").to_string(), "\\psi(0)");
    assert_eq!(mocf("ω+1+ψ(0)").to_string(), "\\psi(0)");
    assert_eq!(mocf("ψ(0)+ψ(1)").to_string(), "\\psi(1)");
    assert_eq!(mocf("ω^ψ(0)+ψ(1)").to_string(), "\\psi(1)");
    // Descending sums stay.
    assert_eq!(mocf("ω^2+ω").to_string(), "\\omega^{2}+\\omega");
    assert_eq!(mocf("ω+2").to_string(), "\\omega+2");
    // Mixed coefficient + rest.
    assert_eq!(mocf("ω^2+ω+ω+1").to_string(), "\\omega^{2}+\\omega2+1");
    // Subscripts and ψ-arguments normalize too.
    assert_eq!(mocf("Ω_2").to_string(), "\\Omega_{2}");
    assert_eq!(mocf("ψ_2(0)").to_string(), "\\psi_{2}(0)");
    assert_eq!(mocf("ψ(1+1)").to_string(), "\\psi(2)");
    // Ω = ψ_1(0): equal values merge, no mis-absorption.
    assert_eq!(mocf("Ω+ψ_1(0)").to_string(), "\\Omega2");
    assert_eq!(mocf("ψ_1(0)+ψ_1(0)").to_string(), "\\psi_{1}(0)2");
    // ε_1 + Ω = Ω, but Ω + ε_1 stays.
    assert_eq!(mocf("ψ(1)+Ω").to_string(), "\\Omega");
    assert_eq!(mocf("Ω+ψ(1)").to_string(), "\\Omega+\\psi(1)");
}

#[test]
fn mocf_pow_operator() {
    // ψ_a(b)^c = ω^{ψ_a(b)·c} (ordinary ordinal powers of ε-numbers).
    assert_eq!(mocf("ψ(0)^0").to_string(), "1");
    assert_eq!(mocf("ψ(0)^1").to_string(), "\\psi(0)");
    assert_eq!(mocf("ψ(0)^2").to_string(), "\\psi(0)^{2}");
    assert_eq!(mocf("ψ_1(0)^2").to_string(), "\\psi_{1}(0)^{2}");
    // Ω_α^c = ω^{Ω_α·c}.
    assert_eq!(mocf("Ω^2").to_string(), "\\Omega^{2}");
    assert_eq!(mocf("Ω_2^ω").to_string(), "\\Omega_{2}^{\\omega}");
    assert_eq!(mocf("Ω^Ω").to_string(), "\\Omega^{\\Omega}");
    assert_eq!(mocf("Ω^ω").to_string(), "\\Omega^{\\omega}");
    // Ω·ψ_1(1) = ψ_1(1), so Ω^ψ_1(1) = ψ_1(1).
    assert_eq!(mocf("Ω^ψ_1(1)").to_string(), "\\psi_{1}(1)");
    // Tower powers display right-associated: Ω^(Ω^Ω) = Ω^Ω^Ω.
    assert_eq!(mocf("Ω^(Ω^Ω)").to_string(), "\\Omega^{\\Omega^{\\Omega}}");
    assert_eq!(mocf("Ω^Ω^Ω").to_string(), "\\Omega^{\\Omega^{\\Omega}}");
    assert_eq!(mocf("ψ(0)^(ψ(0)^ψ(0))").to_string(), "\\psi(0)^{\\psi(0)^{\\psi(0)}}");
    // ω^(q×n) = q^n for any ω^-fixed point q.
    assert_eq!(mocf("ω^(Ω3)").to_string(), "\\Omega^{3}");
    assert_eq!(mocf("ω^(ψ(0)2)").to_string(), "\\psi(0)^{2}");
    // ω^(q^n) = q^q^(n-1) for n < ω; ω^(q^α) = q^(q^α) otherwise.
    assert_eq!(mocf("ω^(Ω^3)").to_string(), "\\Omega^{\\Omega^{2}}");
    assert_eq!(mocf("ω^(Ω^ω)").to_string(), "\\Omega^{\\Omega^{\\omega}}");
    assert_eq!(mocf("ω^Ω^Ω").to_string(), "\\Omega^{\\Omega^{\\Omega}}");
    // ω^{Ω·Y} displays as Ω^Y.
    assert_eq!(mocf("ω^(Ω^2)").to_string(), "\\Omega^{\\Omega}");
    assert_eq!(mocf("ω^(Ω2)").to_string(), "\\Omega^{2}");
    assert_eq!(mocf("ω^(Ω^Ω)").to_string(), "\\Omega^{\\Omega^{\\Omega}}");
    // Powers with ψ-exponents.
    assert_eq!(mocf("ψ(0)^ψ(0)").to_string(), "\\psi(0)^{\\psi(0)}");
    // Infinite exponents.
    assert_eq!(mocf("ψ(0)^ω").to_string(), "\\psi(0)^{\\omega}");
    assert_eq!(mocf("ψ(0)^{ω}").to_string(), "\\psi(0)^{\\omega}");
    assert_eq!(mocf("ψ(0)^{ω2}").to_string(), "\\psi(0)^{\\omega2}");
    // Coefficient applies to the power.
    assert_eq!(mocf("ψ(0)^1\\cdot 2").to_string(), "\\psi(0)2");
    // ω^{ψ·k} displays as ψ^k.
    assert_eq!(mocf("ω^ψ(0)").to_string(), "\\psi(0)");
    assert_eq!(mocf("ω^(ψ(0)+ψ(0))").to_string(), "\\psi(0)^{2}");
    assert_eq!(mocf("ω^(ψ(0)+ω)").to_string(), "\\psi(0)\\omega^{\\omega}");
    // Non-fixed-point bases are rejected.
    assert!(parse_mocf("2^3").is_err());
}

#[test]
fn mocf_mul() {
    // ω^α × ω^β = ω^(α+β); Ω and ψ-values are ω^-fixed points.
    assert_eq!(mocf("Ω×ω").to_string(), "\\Omega\\omega");
    assert_eq!(mocf("Ω×ω^ω").to_string(), "\\Omega\\omega^{\\omega}");
    assert_eq!(mocf("ω×Ω").to_string(), "\\Omega");
    assert_eq!(mocf("Ω×Ω").to_string(), "\\Omega^{2}");
    assert_eq!(mocf("ω^2×ω^3").to_string(), "\\omega^{5}");
    assert_eq!(mocf("ψ(0)×ω").to_string(), "\\psi(0)\\omega");
    assert_eq!(mocf("ψ(1)×ω").to_string(), "\\psi(1)\\omega");
    assert_eq!(mocf("ψ_1(1)×ω").to_string(), "\\psi_{1}(1)\\omega");
    assert_eq!(mocf("Ω×ψ(0)").to_string(), "\\Omega\\psi(0)");
    assert_eq!(mocf("Ω×ψ_1(1)").to_string(), "\\psi_{1}(1)");
    // Left-distributive over the right operand.
    assert_eq!(mocf("ω×(ω+1)").to_string(), "\\omega^{2}+\\omega");
    assert_eq!(mocf("(ω^2+ω)×ω").to_string(), "\\omega^{3}");
    // Natural factors.
    assert_eq!(mocf("(ω+1)×2").to_string(), "\\omega2+1");
    assert_eq!(mocf("2×ω").to_string(), "\\omega");
    assert_eq!(mocf("Ω\\cdot 2").to_string(), "\\Omega2");
}

#[test]
fn mocf_expand() {
    // ω[1] = 1
    assert_eq!(mocf("ω").expand(1).to_string(), "1");
    // ψ(0)[0] = 0
    assert_eq!(mocf("ψ(0)").expand(0).to_string(), "0");
    // ψ(0)[1] = 1 (Madore's OCF uses shifted indexing)
    assert_eq!(mocf("ψ(0)").expand(1).to_string(), "1");
    // ψ(0)[2] = ω
    assert_eq!(mocf("ψ(0)").expand(2).to_string(), "\\omega");
}

#[test]
fn mocf_compare() {
    // ψ(0) < Ω (ε₀ < first uncountable)
    assert!(mocf("ψ(0)").compare(&mocf("Ω")) < 0);
    // ω > 1
    assert!(mocf("ω").compare(&mocf("1")) > 0);
    // Ω > ω
    assert!(mocf("Ω").compare(&mocf("ω")) > 0);
    // Ω = Ω
    assert_eq!(mocf("Ω").compare(&mocf("Ω")), 0);
    // 0 = 0
    assert_eq!(mocf("0").compare(&mocf("0")), 0);
}

#[test]
fn mocf_analyze_and_expand_strings() {
    assert_eq!(analyze_mocf("ω+ω"), Ok("\\omega2".to_string()));
    assert_eq!(expand_mocf("ω", 3), Ok("3".to_string()));
    assert_eq!(expand_mocf("ψ(0)", 3), Ok("\\omega^{\\omega}".to_string()));
}

#[test]
fn mocf_parse_errors() {
    assert_eq!(parse_mocf("ψ(0").err(), Some("expected ')'".to_string()));
    assert_eq!(parse_mocf("x").err(), Some("unexpected 'x'".to_string()));
    assert_eq!(parse_mocf("ω)").err(), Some("trailing: )".to_string()));
    assert_eq!(parse_mocf("Ω^{ω").err(), Some("expected '}'".to_string()));
}

#[test]
fn mocf_value_equality() {
    assert!(mocf_value_eq(&mocf("Ω"), &mocf("ψ_1(0)")));
    assert!(!mocf_value_eq(&mocf("Ω"), &mocf("ψ_1(1)")));
}
