use bms_core::cli::{
    flag_value, format_matrix, format_seq, has_flag, looks_triangular, parse_matrix,
    parse_output_type, parse_seq, selected_output, strip_latex, OutputType,
};
use bms_core::hydra::{
    hprss_expand_fits, hprss_rises_fit, hydra_expand_fits, hydra_subs_within,
    hydra_to_hprss_checked, lprss_expand_fits, parse_hydra,
};
use bms_core::parser::bocf_input_fits;

fn args(v: &[&str]) -> Vec<String> {
    v.iter().map(|s| s.to_string()).collect()
}

#[test]
fn matrix_text_round_trip() {
    let m = parse_matrix("(0,0,0)(1,1,1)(2,2,0)");
    assert_eq!(m, vec![vec![0, 0, 0], vec![1, 1, 1], vec![2, 2, 0]]);
    assert_eq!(format_matrix(&m), "(0,0,0)(1,1,1)(2,2,0)");
}

#[test]
fn matrix_reading_stops_and_skips() {
    assert_eq!(parse_matrix("(0, 1)(1,x,2) junk"), vec![vec![0, 1], vec![1, 2]]);
    assert_eq!(parse_matrix("(0)(1"), vec![vec![0]]);
    assert_eq!(parse_matrix("x(0)"), Vec::<Vec<i32>>::new());
    assert_eq!(parse_matrix("()(-3)"), vec![vec![], vec![-3]]);
}

#[test]
fn sequence_reading() {
    assert_eq!(parse_seq("1, 2,3"), Ok(vec![1, 2, 3]));
    assert_eq!(parse_seq("1,a b,3"), Err("a b".to_string()));
    assert_eq!(parse_seq("1,,3"), Err("".to_string()));
    assert_eq!(format_seq(&[1, -2, 30]), "1,-2,30");
    assert_eq!(format_seq(&[]), "");
}

#[test]
fn latex_to_plain() {
    assert_eq!(strip_latex("\\psi(\\Omega_{2})"), "ψ(Ω_{2})");
    assert_eq!(strip_latex("\\psi\\left(\\omega\\right)"), "ψ(ω)");
    assert_eq!(strip_latex("\\varphi{}\\frac"), "φfrac");
    assert_eq!(strip_latex("a+b"), "a+b");
}

#[test]
fn output_selectors() {
    assert_eq!(parse_output_type("ordinal"), OutputType::Bocf);
    assert_eq!(parse_output_type("φ"), OutputType::Veblen);
    assert_eq!(parse_output_type("pss"), OutputType::Hydra);
    assert_eq!(parse_output_type("0-y"), OutputType::ZeroY);
    assert_eq!(parse_output_type("other"), OutputType::All);
    let a = args(&["(0)(1)", "--to", "bms", "--to", "hydra"]);
    assert_eq!(selected_output(&a, OutputType::All), OutputType::Bms);
    assert_eq!(selected_output(&args(&["x", "--to"]), OutputType::Lprss), OutputType::Lprss);
}

#[test]
fn flags() {
    let a = args(&["x", "--latex", "--expand", "3"]);
    assert!(has_flag(&a, "--latex"));
    assert!(!has_flag(&a, "--to"));
    assert_eq!(flag_value(&a, "--expand"), Some(3));
    assert_eq!(flag_value(&args(&["--expand", "q"]), "--expand"), None);
    assert_eq!(flag_value(&args(&["x", "--expand"]), "--expand"), None);
}

#[test]
fn triangular_opening() {
    assert!(looks_triangular(&vec![vec![0, 0, 0], vec![1, 0, 0], vec![2, 1, 0]]));
    assert!(looks_triangular(&vec![vec![0], vec![1], vec![2, 1]]));
    assert!(!looks_triangular(&vec![vec![0, 0, 0], vec![1, 1, 1], vec![2, 2, 0]]));
}

#[test]
fn input_range_checks() {
    assert!(bocf_input_fits("ψ(Ω^2147483647)"));
    assert!(!bocf_input_fits("ψ(Ω^2147483648)"));
    let h = parse_hydra("p1(p2(0))").unwrap();
    assert!(hydra_subs_within(&h, 1, 2));
    assert!(!hydra_subs_within(&h, 1, 1));
    assert!(hydra_expand_fits(&h));
    assert_eq!(hydra_to_hprss_checked(&h), Some(vec![1, 3]));
    assert!(hprss_rises_fit(&[1, 2, 3]));
    assert!(!hprss_rises_fit(&[-2147483648, 2147483647]));
    assert!(hprss_expand_fits(&[1, 2, 3], 2));
    assert!(!hprss_expand_fits(&[1, 2147483647, 2147483647], 2));
    assert!(lprss_expand_fits(&[1, 2, 3], 2));
    assert!(!lprss_expand_fits(&[1, 1073741824, 2147483647], 3));
}
