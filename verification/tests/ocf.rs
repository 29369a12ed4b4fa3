use bms_core::ocf::{
    analyze_nocf, analyze_nocf_sugar, expand_nocf, nocf_to_sss_string, nocf_to_sugar_string,
    parse_nocf, Nocf,
};

fn nocf(s: &str) -> Nocf {
    parse_nocf(s).unwrap()
}

#[test]
fn nocf_parse_display() {
    assert_eq!(nocf("0").to_string(), "0");
    assert_eq!(nocf("ψ(0)").to_string(), "\\psi(0)");
    assert_eq!(nocf("ψ_1(0)").to_string(), "\\psi_{1}(0)");
    assert_eq!(nocf("1").to_string(), "\\psi(0)");
    assert_eq!(nocf("2").to_string(), "\\psi(\\psi(0))");
}

#[test]
fn nocf_sugar_display() {
    assert_eq!(nocf_to_sugar_string(&parse_nocf("ψ(0)").unwrap()), "1");
    assert_eq!(nocf_to_sugar_string(&parse_nocf("ψ(ψ(0))").unwrap()), "2");
    assert_eq!(nocf_to_sugar_string(&parse_nocf("3").unwrap()), "3");
    assert_eq!(nocf_to_sugar_string(&parse_nocf("ψ_1(0)").unwrap()), "\\Omega");
    assert_eq!(nocf_to_sugar_string(&parse_nocf("ψ_2(0)").unwrap()), "\\Omega_{2}");
    assert_eq!(nocf_to_sugar_string(&parse_nocf("ψ(Ω)").unwrap()), "\\omega");
    assert_eq!(nocf_to_sugar_string(&parse_nocf("ψ_Ω(0)").unwrap()), "\\Omega_{\\Omega}");
}

#[test]
fn nocf_expand() {
    // ψ(0) = 1, FS(1, 0) = 0
    assert_eq!(parse_nocf("ψ(0)").unwrap().expand(0).to_string(), "0");
    // ψ(ψ(0)) = 2, FS(2, 0) = ψ(0) = 1
    assert_eq!(parse_nocf("ψ(ψ(0))").unwrap().expand(0).to_string(), "\\psi(0)");
    // the fundamental sequence of a successor does not depend on the index
    assert_eq!(parse_nocf("ψ(ψ(0))").unwrap().expand(1).to_string(), "\\psi(0)");
}

#[test]
fn nocf_compare() {
    assert_eq!(nocf("0").compare(&nocf("0")), 0);
    assert!(nocf("ψ(0)").compare(&nocf("0")) > 0);
    assert!(nocf("0").compare(&nocf("ψ(0)")) < 0);
    assert!(nocf("ψ(ψ(0))").compare(&nocf("ψ(0)")) > 0);
}

#[test]
fn nocf_parse_errors() {
    assert_eq!(parse_nocf("ψ(0"), Err("expected ')'".to_string()));
    assert_eq!(parse_nocf("ψ0"), Err("expected '('".to_string()));
    assert_eq!(parse_nocf("x"), Err("unexpected 'x'".to_string()));
    assert_eq!(parse_nocf("ψ(0)0"), Err("trailing: 0".to_string()));
    assert_eq!(parse_nocf("ψ_"), Err("unexpected end".to_string()));
    assert_eq!(parse_nocf("99999999999"), Err("invalid number".to_string()));
}

#[test]
fn nocf_parse_whitespace_and_omega_forms() {
    assert_eq!(nocf(" ψ ( 0 ) "), nocf("ψ(0)"));
    assert_eq!(nocf(""), Nocf::zero());
    assert_eq!(nocf("Ω"), nocf("ψ_1(0)"));
    assert_eq!(nocf("W_2"), nocf("ψ_2(0)"));
    assert_eq!(nocf("Ω_(ψ(0))"), nocf("ψ_1(0)"));
    assert_eq!(nocf("ψ_(Ω)(0)"), nocf("ψ_Ω(0)"));
    assert_eq!(nocf("(ψ(0))"), nocf("1"));
}

#[test]
fn nocf_naturals_round_trip() {
    assert_eq!(Nocf::from_nat(4).to_nat(), 4);
    assert_eq!(Nocf::from_nat(-3), Nocf::zero());
    assert_eq!(nocf("Ω").to_nat(), -1);
}

#[test]
fn nocf_cofinality_cases() {
    assert_eq!(nocf("0").cofinality(), None);
    assert_eq!(nocf("3").cofinality(), None);
    assert_eq!(nocf("Ω").cofinality(), Some(nocf("1")));
    assert_eq!(nocf("ψ(Ω)").cofinality(), Some(nocf("0")));
}

#[test]
fn nocf_omega_fundamental_sequence() {
    // ψ(Ω)[3] = ψ(3) = 4
    assert_eq!(nocf("ψ(Ω)").expand(3), nocf("4"));
    assert_eq!(expand_nocf("ψ(Ω)", 2), Ok("\\psi(\\psi(\\psi(0)))".to_string()));
    // Ω[5] = 5
    assert_eq!(nocf("Ω").expand(5), nocf("5"));
}

#[test]
fn nocf_analyze_entry_points() {
    assert_eq!(analyze_nocf("Ω"), Ok("\\psi_{1}(0)".to_string()));
    assert_eq!(analyze_nocf("ψ_Ω(0)"), Ok("\\psi_{\\psi_{1}(0)}(0)".to_string()));
    assert_eq!(analyze_nocf_sugar("ψ(Ω)"), Ok("\\omega".to_string()));
    assert_eq!(analyze_nocf_sugar("ψ_2(ψ(0))"), Ok("\\Omega_{2}+1".to_string()));
    assert_eq!(analyze_nocf("ψ("), Err("unexpected end".to_string()));
}

#[test]
fn nocf_sss_form() {
    assert_eq!(nocf_to_sss_string(&nocf("ψ_Ω(ψ(0))")), "\\Omega_{\\Omega}+1");
    assert_eq!(nocf_to_sss_string(&nocf("ψ(Ω)")), "\\psi\\left(\\Omega\\right)");
    assert_eq!(nocf_to_sss_string(&nocf("7")), "7");
}

#[test]
fn nocf_checked_expansion() {
    let x = parse_nocf("ψ(ψ(0))").unwrap();
    assert_eq!(x.expand_checked(0).unwrap().to_string(), "\\psi(0)");
    assert_eq!(
        bms_core::ocf::expand_nocf_checked("ψ(ψ(0))", 0),
        Some(Ok("\\psi(0)".to_string()))
    );
    assert!(bms_core::ocf::expand_nocf_checked("ψ(", 0).unwrap().is_err());
}
