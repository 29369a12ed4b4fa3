use bms_core::ihss::IHSS;

fn val(s: &str) -> Vec<Vec<i32>> {
    let mut out = Vec::new();
    for tok in s.split(')').filter(|t| t.contains('(')) {
        let inner = tok.trim_start_matches('(');
        let col: Vec<i32> = inner
            .split(',')
            .map(|x| x.trim().parse().unwrap_or(0))
            .collect();
        out.push(col);
    }
    out
}

#[test]
fn normal_identity_prefix_is_standard() {
    assert!(IHSS::is_standard(&val("(0)(1)(2)")));
    assert!(IHSS::is_standard(&val("(0)(1,1,1)(2,2,2)")));
    // (0)(1,1)(2,2,2) (=0 11 222) is NOT standard.
    assert!(!IHSS::is_standard(&val("(0)(1,1)(2,2,2)")));
    // (0,0,0)(1,1,1)(2,1,1) is standard (normal).
    assert!(IHSS::is_standard(&val("(0,0,0)(1,1,1)(2,1,1)")));
}

#[test]
fn triangular_identity_prefix_is_standard() {
    assert!(IHSS::is_standard_triangular(&val("(0)(1)(2,1)(3,2,1)")));
    // (0)(1)(2,1) (=0 1 21) is standard but triangular, not normal.
    assert!(IHSS::is_standard_triangular(&val("(0)(1)(2,1)")));
    assert!(!IHSS::is_standard(&val("(0)(1)(2,1)")));
}

#[test]
fn known_standard_matrices() {
    // (0,0)(1,1)(2,1) ↔ ψ_M(ψ_{ψ_{M_2}(M_2)}(M)) — normal standard.
    assert!(IHSS::is_standard(&val("(0,0)(1,1)(2,1)")));
    // (0,0)(1,0)(2,1) ↔ ψ_{ψ_M(M)}(ψ_M(M)) — triangular standard.
    assert!(IHSS::is_standard_triangular(&val("(0,0)(1,0)(2,1)")));
    // (0)(1)(0) ↔ ψ_{ψ_M(M)}(1) + 1 — standard both.
    assert!(IHSS::is_standard(&val("(0)(1)(0)")));
    assert!(IHSS::is_standard_triangular(&val("(0)(1)(0)")));
}

#[test]
fn standardness_on_raw_parse() {
    // Standardness reflects the raw input, not the matrix rebuilt from it.
    let raw = IHSS::parse("(0)(1,1)(2,2,2)").unwrap();
    assert_eq!(raw, vec![vec![0, 0, 0], vec![1, 1, 0], vec![2, 2, 2]]);
    assert!(!IHSS::is_standard_matrix(&raw, false));
    assert!(!IHSS::is_standard_matrix(&raw, true));
}

#[test]
fn ihss_parse_forms() {
    assert_eq!(IHSS::parse("()(1, x)(-3,+4)"), Ok(vec![vec![0, 0], vec![1, 0], vec![-3, 4]]));
    assert_eq!(IHSS::parse("no columns"), Err("IHSS input must contain at least one (…) column".to_string()));
    assert_eq!(IHSS::parse("(1,2"), Ok(vec![vec![1, 0]]));
    assert_eq!(IHSS::parse("(99999999999)"), Ok(vec![vec![0]]));
}

#[test]
fn ihss_value_round_trip() {
    let v = val("(0,0)(1,1)(2,1)");
    let h = IHSS::from_value(&v);
    assert_eq!(h.to_value(), v);
    assert_eq!(h.format(), "(0)(1,1)(2,1)");
    assert!(h.is_limit());
    let h2 = IHSS::from_string("(0)(1)(0)").unwrap();
    assert_eq!(h2.format(), "(0)(1)(0)");
    assert!(!h2.is_limit());
    assert_eq!(IHSS::format_matrix(&vec![vec![0, 0], vec![2, 0, 1]]), "(0)(2,0,1)");
}

#[test]
fn ihss_expand_successor_and_limit() {
    // A successor loses its last column.
    let h = IHSS::from_value(&val("(0)(1)(0)"));
    let (e, root) = h.expand(1, 2, "HMS");
    assert_eq!(root, -1);
    assert_eq!(e.format(), "(0)(1)");
    // (0)(1)(2): the bad part (1) is copied, raised each time.
    let h = IHSS::from_value(&val("(0)(1)(2)"));
    let (e, root) = h.expand(2, 2, "HMS");
    assert_eq!(root, 1);
    assert_eq!(e.format(), "(0)(1)(1)(1)");
}

#[test]
fn worm_to_hydra_and_back() {
    let h = IHSS::from_worm(&[1, 2, 4]);
    let expected = IHSS::new(vec![vec![-1, -1], vec![0, -1], vec![1, 1]]);
    assert_eq!(h.to_value(), expected.to_value());
    assert_eq!(h.to_worm(), vec![1, 2, 4]);
    assert_eq!(IHSS::from_worm(&[1, 2, 3]).to_worm(), vec![1, 2, 3]);
    assert_eq!(IHSS::from_worm(&[]).to_worm(), Vec::<i32>::new());
}

#[test]
fn worm_of_parent_matrix() {
    // top row: 1, 1, 2; row 0: 1, 1+1, 2+2
    let h = IHSS::new(vec![vec![-1, -1], vec![0, -1], vec![1, 1]]);
    assert_eq!(h.to_worm(), vec![1, 2, 4]);
    let flat = IHSS::new(vec![vec![-1], vec![-1], vec![1]]);
    assert_eq!(flat.to_worm(), vec![1, 1, 2]);
}

#[test]
fn ihss_expand_hydra_built_from_parents() {
    let h = IHSS::new(vec![vec![-1], vec![0], vec![1], vec![1]]);
    assert!(h.is_wf());
    let (r, br) = h.expand(2, 2, "HMS");
    assert_eq!(br, 1);
    assert_eq!(r.to_value(), vec![vec![0], vec![1], vec![2], vec![1], vec![2], vec![1], vec![2]]);
    let (r2, br2) = h.expand_checked(2, 2, false).unwrap();
    assert_eq!(br2, 1);
    assert_eq!(r2.to_value(), r.to_value());
    assert!(IHSS::new(vec![vec![0]]).expand_checked(1, 2, false).is_none());
    assert!(IHSS::new(vec![]).to_worm().is_empty());
    assert_eq!(IHSS::new(vec![]).to_latex(), "");
}

#[test]
fn value_round_trip_sample() {
    let v = vec![vec![0, 0], vec![1, 1], vec![2, 1], vec![3, 0], vec![1, 1]];
    let x = bms_core::ihss::IHSS::from_value(&v);
    let back = bms_core::ihss::IHSS::from_value(&x.to_value());
    assert_eq!(back.to_value(), x.to_value());
    assert_eq!(back.format(), x.format());
}

#[test]
fn parse_needs_a_bracket() {
    assert!(bms_core::ihss::IHSS::parse("0,1").is_err());
    assert_eq!(
        bms_core::ihss::IHSS::parse("(0)(1,1)").unwrap(),
        vec![vec![0, 0], vec![1, 1]]
    );
}
