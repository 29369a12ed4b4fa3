use bms_core::mbocf::{parse_mbocf, MboTerm};

fn roundtrip(input: &str) -> String {
    parse_mbocf(input).unwrap().to_latex()
}

#[test]
fn parse_psi_m() {
    assert_eq!(roundtrip("\\psi_{M}(M)"), "\\psi_{M}(M)");
    assert_eq!(roundtrip("ψ_M(M)"), "\\psi_{M}(M)");
}

#[test]
fn parse_bare_psi_defaults_to_omega() {
    assert_eq!(roundtrip("\\psi(1)"), "\\psi_{\\Omega}(1)");
    assert_eq!(roundtrip("ψ(1)"), "\\psi_{\\Omega}(1)");
}

#[test]
fn parse_nested_subscript() {
    assert_eq!(
        roundtrip("\\psi_{\\psi_M(M)}(\\psi_M(M))"),
        "\\psi_{\\psi_{M}(M)}(\\psi_{M}(M))"
    );
}

#[test]
fn parse_add_and_mul() {
    assert_eq!(roundtrip("\\psi_M(M \\times 2) + 1"), "\\psi_{M}(M \\times 2) + 1");
}

#[test]
fn parse_omega() {
    assert_eq!(roundtrip("\\Omega_2"), "\\Omega_{2}");
    assert_eq!(roundtrip("\\omega"), "\\omega");
}

#[test]
fn ast_lines() {
    let t = parse_mbocf("\\psi_{M}(M)").unwrap();
    let lines = t.to_ast_lines();
    assert!(lines.iter().any(|l| l.trim() == "Psi"));
    assert!(lines.iter().any(|l| l.trim() == "Mahlo"));
}

#[test]
fn mbocf_ast_lines_exact() {
    let t = parse_mbocf("ψ_M(M × 2) + 1").unwrap();
    assert_eq!(
        t.to_ast_lines(),
        vec![
            "Add", "  Psi", "    sub:", "    Mahlo", "    arg:", "    Mul(2)", "      Mahlo",
            "  Nat(1)"
        ]
    );
}

#[test]
fn mbocf_parse_errors() {
    assert_eq!(parse_mbocf(""), Err("empty input".to_string()));
    assert_eq!(parse_mbocf("  "), Err("empty input".to_string()));
    assert_eq!(parse_mbocf("\\foo"), Err("unknown LaTeX command \\foo".to_string()));
    assert_eq!(parse_mbocf("M ? 1"), Err("unexpected character `?`".to_string()));
    assert_eq!(parse_mbocf("(M"), Err("expected `)`".to_string()));
    assert_eq!(parse_mbocf("M × M"), Err("expected a natural number after ×".to_string()));
    assert_eq!(parse_mbocf("M_M"), Err("expected a natural number in subscript".to_string()));
    assert_eq!(parse_mbocf("M_{2"), Err("expected `}` in subscript".to_string()));
    assert_eq!(parse_mbocf("ψ_{M(M)"), Err("expected `}` in ψ subscript".to_string()));
    assert_eq!(parse_mbocf("ψ_M M"), Err("expected `(` after ψ subscript".to_string()));
    assert_eq!(parse_mbocf("ψ_M(M"), Err("expected `)` in ψ argument".to_string()));
    assert_eq!(parse_mbocf("+"), Err("expected a term".to_string()));
    assert_eq!(parse_mbocf("M M"), Err("unexpected trailing input at position 1".to_string()));
}

#[test]
fn mbocf_parse_values() {
    assert_eq!(parse_mbocf("M_{3}"), Ok(MboTerm::Mahlo(Some(3))));
    assert_eq!(parse_mbocf("Ω_7"), Ok(MboTerm::Omega(Some(7))));
    assert_eq!(parse_mbocf("ω"), Ok(MboTerm::OmegaTerm));
    assert_eq!(parse_mbocf("99999999999999999999999"), Ok(MboTerm::Nat(u64::MAX)));
    assert_eq!(parse_mbocf("(2)"), Ok(MboTerm::Nat(2)));
}

#[test]
fn mbocf_canonical_forms() {
    let c = |s: &str| parse_mbocf(s).unwrap().canonicalize().to_latex();
    assert_eq!(c("\\Omega"), "\\psi_{M}(M)");
    assert_eq!(c("\\Omega_2"), "\\psi_{M}(M + M)");
    assert_eq!(c("\\omega"), "\\psi_{\\psi_{M}(M)}(1)");
    assert_eq!(c("3"), "1 + 1 + 1");
    assert_eq!(c("M \\times 2 + (1 + M)"), "M + M + 1 + M");
    assert_eq!(c("ψ(0)"), "\\psi_{\\psi_{M}(M)}(0)");
}

/// Round-trip: build IHSS, render back to LaTeX, re-parse, canonicalize.
/// Must equal canonicalizing the original input.
fn rt(input: &str) -> String {
    let term = parse_mbocf(input).unwrap();
    let ihss = term.to_ihss().unwrap();
    let back = parse_mbocf(&ihss.to_latex()).unwrap();
    back.canonicalize().to_latex()
}

#[test]
fn roundtrip_psi_psi_m() {
    let t = parse_mbocf("\\psi_{\\psi_M(M)}(\\psi_M(M))").unwrap();
    assert_eq!(rt("\\psi_{\\psi_M(M)}(\\psi_M(M))"), t.canonicalize().to_latex());
}

#[test]
fn roundtrip_m2_case() {
    assert_eq!(
        rt("\\psi_M(\\psi_{\\psi_{M_2}(M_2)}(M))"),
        parse_mbocf("\\psi_M(\\psi_{\\psi_{M_2}(M_2)}(M))").unwrap().canonicalize().to_latex()
    );
}

#[test]
fn roundtrip_omega_and_sugar() {
    // Ω = ψ_M(M)
    assert_eq!(rt("\\Omega"), parse_mbocf("\\Omega").unwrap().canonicalize().to_latex());
    // ω = ψ_Ω(1)
    assert_eq!(rt("\\omega"), parse_mbocf("\\omega").unwrap().canonicalize().to_latex());
    // Ω_2 = ψ_M(M×2)
    assert_eq!(rt("\\Omega_2"), parse_mbocf("\\Omega_2").unwrap().canonicalize().to_latex());
}

#[test]
fn roundtrip_add() {
    assert_eq!(
        rt("\\psi_{\\psi_M(M)}(1) + 1"),
        parse_mbocf("\\psi_{\\psi_M(M)}(1) + 1").unwrap().canonicalize().to_latex()
    );
}

#[test]
fn value_self_consistency() {
    // to_value(from_value(value)) must equal value for every built matrix.
    for input in [
        "\\psi_{\\psi_M(M)}(\\psi_M(M))",
        "\\psi_M(\\psi_{\\psi_{M_2}(M_2)}(M))",
        "\\psi_M(M)",
        "\\psi_{\\psi_M(M)}(1) + 1",
        "\\psi_M(M \\times 2)",
    ] {
        let term = parse_mbocf(input).unwrap();
        let ihss = term.to_ihss().unwrap();
        let value = ihss.to_value();
        let rebuilt = bms_core::ihss::IHSS::from_value(&value);
        assert_eq!(rebuilt.to_value(), value, "value not self-consistent for {input}");
    }
}

#[test]
fn known_value_matrices() {
    // Reconstruct from LaTeX and confirm the rendering matches the source
    // matrix's rendering.
    let cases = [
        ("\\psi_{\\psi_M(M)}(\\psi_M(M))", "(0,0)(1,0)(2,1)"),
        ("\\psi_M(\\psi_{\\psi_{M_2}(M_2)}(M))", "(0,0)(1,1)(2,1)"),
        ("\\psi_M(M)", "(0)(1,1)"),
        ("\\psi_{\\psi_M(M)}(1) + 1", "(0)(1)(0)"),
    ];
    for (input, src) in cases {
        let term = parse_mbocf(input).unwrap();
        let ihss = term.to_ihss().unwrap();
        let src_ihss = bms_core::ihss::IHSS::from_string(src).unwrap();
        assert_eq!(ihss.to_latex(), src_ihss.to_latex(), "for {input}");
    }
}

#[test]
fn mbocf_to_ihss_errors() {
    assert!(parse_mbocf("ψ_{ψ_{1}(M)}(M)").unwrap().to_ihss().is_err());
    assert_eq!(
        parse_mbocf("ψ_{1}(M)").unwrap().to_ihss().err(),
        Some("invalid ψ subscript".to_string())
    );
}

#[test]
fn canonical_products_of_sums_are_flat() {
    let t = MboTerm::Mul(Box::new(MboTerm::Nat(2)), 2);
    assert_eq!(
        t.canonicalize(),
        MboTerm::Add(vec![MboTerm::Nat(1), MboTerm::Nat(1), MboTerm::Nat(1), MboTerm::Nat(1)])
    );
    let p = parse_mbocf("(1 + M) \\times 2").unwrap().canonicalize();
    assert_eq!(
        p,
        MboTerm::Add(vec![
            MboTerm::Nat(1),
            MboTerm::Mahlo(None),
            MboTerm::Nat(1),
            MboTerm::Mahlo(None)
        ])
    );
}

#[test]
fn bracketed_terms_read_back() {
    for input in ["(1 + M) \\times 2", "(1 + M) + 1", "(M \\times 2) \\times 3", "\\psi_{M}((1 + 1) \\times 2)"] {
        let t = parse_mbocf(input).unwrap();
        assert_eq!(parse_mbocf(&t.to_latex()).unwrap(), t, "for {input}");
    }
    assert_eq!(roundtrip("(1 + M) \\times 2"), "(1 + M) \\times 2");
}
