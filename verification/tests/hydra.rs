use bms_core::hydra::{
    Hydra, bms_to_hydra, bocf_to_hydra, build_hprss_mountain, build_lprss_mountain, expand_hprss,
    expand_hydra, expand_lprss, fill_layers, format_hydra, format_hydra_psi, hprss_to_bms,
    hprss_to_hydra, hydra_to_bms, hydra_to_bocf, hydra_to_hprss, hydra_to_hprss_standard,
    hydra_to_lprss, hydra_to_term, is_legal_hydra, lprss_to_hydra, normalize_hydra, parse_hydra,
    term_to_hydra,
};
use bms_core::term::{bho, epsilon0, eq, omega, t, zero};


fn h(s: &str) -> Hydra {
    parse_hydra(s).unwrap()
}

fn fmt(h: &Hydra) -> String {
    format_hydra(h)
}

#[test]
fn parse_basic() {
    assert_eq!(fmt(&h("0")), "0");
    assert_eq!(fmt(&h("p1(0)")), "p1(0)");
    assert_eq!(fmt(&h("p1")), "p1(0)");
    assert_eq!(fmt(&h("p1(p2(0)+p2)")), "p1(p2(0)+p2(0))");
    assert_eq!(fmt(&h("p1 + p2")), "p1(0)+p2(0)");
    // ψ^H_n input parses identically to pn
    assert_eq!(fmt(&h("ψ^H_1(ψ^H_2(0))")), "p1(p2(0))");
    assert_eq!(fmt(&h("ψH1(0)")), "p1(0)");
    assert_eq!(h("ψ^H_1(p1(0))"), h("p1(p1(0))"));
    // ψ format round trips through the parser
    assert_eq!(h("ψ^H_1(ψ^H_3(ψ^H_3(0)+ψ^H_2(0))+ψ^H_2(ψ^H_2(ψ^H_2(0))))"), h("p1(p3(p3(0)+p2(0))+p2(p2(p2(0))))"));
    assert_eq!(format_hydra_psi(&h("p1(p2(0)+p1(0))")), "ψ^H_1(ψ^H_2(0)+ψ^H_1(0))");
    assert_eq!(format_hydra_psi(&h("0")), "0");
    assert_eq!(fmt(&h("p2(0)+p1(p2(0))")), "p2(0)+p1(p2(0))");
    assert_eq!(fmt(&h("p1(p2(0)+p2(0))")), "p1(p2(0)+p2(0))");
    assert!(parse_hydra("p0(0)").is_err());
    assert!(parse_hydra("x1").is_err());
    assert!(parse_hydra("p1(").is_err());
}

#[test]
fn hydra_expand_rule2() {
    // ψ^H_1(ψ^H_2(ψ^H_2(0))) + ψ^H_1(0) → predecessor
    let e = expand_hydra(&h("p1(p2(p2(0)))+p1(0)"), 3).unwrap();
    assert_eq!(fmt(&e), "p1(p2(p2(0)))");
}

#[test]
fn hydra_expand_rule3_doc_example2() {
    let e = expand_hydra(&h("p1(p2(p3(p2(0))+p1(0)))"), 3).unwrap();
    assert_eq!(fmt(&e), "p1(p2(p3(p2(0)))+p2(p3(p2(0)))+p2(p3(p2(0))))");
}

#[test]
fn hydra_expand_rule4_doc_example3() {
    let e = expand_hydra(&h("p1(p2(0)+p2(0))"), 2).unwrap();
    assert_eq!(fmt(&e), "p1(p2(0)+p1(p2(0)))");
}

#[test]
fn hydra_expand_rule4_doc_example4() {
    // Doc example 4 result, reproduced exactly with X_0 = 0 and
    // X_{i+1} = ψ^H_k(#_2(X_i)): 4 layers of ψ^H_2, innermost #_2(0).
    let e = expand_hydra(&h("p1(p2(p3(p3(0))+p3(p3(0))))"), 4).unwrap();
    assert_eq!(
        fmt(&e),
        "p1(p2(p3(p3(0))+p3(p2(p3(p3(0))+p3(p2(p3(p3(0))+p3(p2(p3(p3(0))+p3(0)))))))))"
    );
}

#[test]
fn hydra_expand_rule4_empty_hash2() {
    // p1(p2(0)) = ε_0: the innermost layer is ψ^H_1(0), never ψ^H_2(0)
    assert_eq!(fmt(&expand_hydra(&h("p1(p2(0))"), 1).unwrap()), "p1(0)");
    assert_eq!(fmt(&expand_hydra(&h("p1(p2(0))"), 2).unwrap()), "p1(p1(0))");
    assert_eq!(fmt(&expand_hydra(&h("p1(p2(0))"), 3).unwrap()), "p1(p1(p1(0)))");
    // ψ^H_1(ψ^H_2(ψ^H_3(0))): target is the p3 itself, #_2 empty → n layers of ψ^H_2
    assert_eq!(fmt(&expand_hydra(&h("p1(p2(p3(0)))"), 2).unwrap()), "p1(p2(p2(0)))");
}

#[test]
fn hydra_expand_zero() {
    assert_eq!(fmt(&expand_hydra(&h("0"), 3).unwrap()), "0");
    assert_eq!(fmt(&expand_hydra(&h("p1(0)"), 3).unwrap()), "0");
}

#[test]
fn hprss_expand_doc_example() {
    // (1,4,6,6)[2] = (1,4,6, 5,8,10, 9,12,14)
    let e = expand_hprss(&[1, 4, 6, 6], 2);
    assert_eq!(e, vec![1, 4, 6, 5, 8, 10, 9, 12, 14]);
    // (1,2,2)[2] = (1,2,1,2,1,2)
    assert_eq!(expand_hprss(&[1, 2, 2], 2), vec![1, 2, 1, 2, 1, 2]);
    // (1,2,3)[2] = (1,2,2,2)
    assert_eq!(expand_hprss(&[1, 2, 3], 2), vec![1, 2, 2, 2]);
    // successor
    assert_eq!(expand_hprss(&[1, 2, 1], 5), vec![1, 2]);
    // empty
    assert_eq!(expand_hprss(&[], 5), Vec::<i32>::new());
}

#[test]
fn hprss_hydra_round_trip_doc_example() {
    // (1,4,7,6,3,5,7) ↔ ψ^H_1(ψ^H_3(ψ^H_3(0)+ψ^H_2(0)) + ψ^H_2(ψ^H_2(ψ^H_2(0))))
    let seq = [1, 4, 7, 6, 3, 5, 7];
    assert_eq!(fmt(&hprss_to_hydra(&seq)), "p1(p3(p3(0)+p2(0))+p2(p2(p2(0))))");
    assert_eq!(hydra_to_hprss(&hprss_to_hydra(&seq)), seq.to_vec());
    // (3,2) ↔ p3(0)+p2(0)
    assert_eq!(fmt(&hprss_to_hydra(&[3, 2])), "p3(0)+p2(0)");
    // (2,4) ↔ p2(p2(0))
    assert_eq!(fmt(&hprss_to_hydra(&[2, 4])), "p2(p2(0))");
    // (1,2) ↔ p1(p1(0)); p1(p2(0)) ↔ (1,3)
    assert_eq!(fmt(&hprss_to_hydra(&[1, 2])), "p1(p1(0))");
    assert_eq!(hydra_to_hprss(&h("p1(p2(0))")), vec![1, 3]);
    assert_eq!(hydra_to_hprss(&h("p3(0)+p2(0)")), vec![3, 2]);
}

#[test]
fn hydra_to_hprss_standard_test() {
    // BHO: unfilled p1(p3(0)) gives the standard HPrSS (1,4); the LP of
    // the 补层'd p1(p2(p3(0))) is the 0-Y sequence (1,3,6) instead
    assert_eq!(hydra_to_hprss_standard(&h("p1(p3(0))")), vec![1, 4]);
    assert_eq!(hydra_to_hprss(&h("p1(p2(p3(0)))")), vec![1, 3, 6]);
    // already-standard hydras round trip through the standard path
    assert_eq!(hydra_to_hprss_standard(&h("p1(p2(0))")), vec![1, 3]);
    let seq = [1, 4, 7, 6, 3, 5, 7];
    assert_eq!(hydra_to_hprss_standard(&hprss_to_hydra(&seq)), seq.to_vec());
    // mixed offenders: standard form of p1(p4+p3+p2) is unfilled, LP = (1,5,4,3)
    assert_eq!(hydra_to_hprss_standard(&h("p1(p4(0)+p3(0)+p2(0))")), vec![1, 5, 4, 3]);
}

#[test]
fn hprss_mountain_doc_example() {
    // (1,4,6,6): parents (4→1, 6→4, last 6→4), differences (1,3,2,2) as in the doc
    let m = build_hprss_mountain(&[1, 4, 6, 6]);
    assert_eq!(m[0], vec![(1, 0), (4, 1), (6, 1), (6, 2)]);
    assert_eq!(m[1], vec![(1, 0), (3, 1), (2, 2), (2, 3)]);
    // (1,4,7,6,3,5,7): doc example
    let m = build_hprss_mountain(&[1, 4, 7, 6, 3, 5, 7]);
    assert_eq!(m[0], vec![(1, 0), (4, 1), (7, 1), (6, 2), (3, 4), (5, 1), (7, 1)]);
    assert_eq!(m[1], vec![(1, 0), (3, 1), (3, 2), (2, 3), (2, 4), (2, 5), (2, 6)]);
    assert_eq!(build_hprss_mountain(&[]), Vec::<Vec<(i32, i32)>>::new());
    // a = [1,2]: d = [1,1], d2 has no smaller d to its left
    let m = build_hprss_mountain(&[1, 2]);
    assert_eq!(m[1], vec![(1, 0), (1, 0)]);
}

#[test]
fn lprss_expand() {
    // (1,4,6,6): root = 4 (rightmost < 6), d = 2, δ = 1 → G + B + B1 + B2
    assert_eq!(expand_lprss(&[1, 4, 6, 6], 2), vec![1, 4, 6, 5, 7, 6, 8]);
    // (1,2,2): root = 1, d = 1, δ = 0 → copies of (1,2)
    assert_eq!(expand_lprss(&[1, 2, 2], 2), vec![1, 2, 1, 2, 1, 2]);
    // successor
    assert_eq!(expand_lprss(&[1, 2, 1], 5), vec![1, 2]);
    // (1,3): root = 1, δ = 1 → [1] + [2] = (1,2)
    assert_eq!(expand_lprss(&[1, 3], 1), vec![1, 2]);
    // empty
    assert_eq!(expand_lprss(&[], 3), Vec::<i32>::new());
}

#[test]
fn lprss_mountain() {
    // (1,4,6,6): layer 0 parents are standard (rightmost smaller: 6→4);
    // d-parents share a_i's parent offset (6→4, so d_3's parent is d_1)
    let m = build_lprss_mountain(&[1, 4, 6, 6]);
    assert_eq!(m[0], vec![(1, 0), (4, 1), (6, 1), (6, 2)]);
    assert_eq!(m[1], vec![(1, 0), (3, 1), (2, 1), (2, 2)]);
    assert_eq!(build_lprss_mountain(&[]), Vec::<Vec<(i32, i32)>>::new());
}

#[test]
fn lprss_to_hydra_values() {
    // (1,2) = ω, (1,3) = ε₀, (1,4) = Γ₀
    assert_eq!(fmt(&lprss_to_hydra(&[1, 2])), "p1(p1(0))");
    assert_eq!(fmt(&lprss_to_hydra(&[1, 3])), "p1(p2(0))");
    assert_eq!(fmt(&lprss_to_hydra(&[1, 4])), "p1(p2(p2(0)))");
    assert_eq!(fmt(&lprss_to_hydra(&[1, 5])), "p1(p2(p2(0)+p2(0)))");
    // heads 2 and 3 with subtails
    assert_eq!(fmt(&lprss_to_hydra(&[1, 3, 2, 3])), "p1(p2(0)+p1(p1(0)))");
    assert_eq!(fmt(&lprss_to_hydra(&[1, 3, 2, 4])), "p1(p2(0)+p1(p2(0)))");
    assert_eq!(fmt(&lprss_to_hydra(&[1, 3, 2, 4, 3, 4])), "p1(p2(0)+p1(p2(0)+p1(p1(0))))");
    assert_eq!(fmt(&lprss_to_hydra(&[1, 3, 4])), "p1(p2(p1(0)))");
    assert_eq!(fmt(&lprss_to_hydra(&[1, 3, 4, 5])), "p1(p2(p1(p1(0))))");
    assert_eq!(fmt(&lprss_to_hydra(&[1, 3, 4, 4])), "p1(p2(p1(0)+p1(0)))");
    assert_eq!(fmt(&lprss_to_hydra(&[1, 3, 5])), "p1(p2(p1(p2(0))))");
    assert_eq!(fmt(&lprss_to_hydra(&[1, 3, 5, 6])), "p1(p2(p1(p2(p1(0)))))");
    assert_eq!(fmt(&lprss_to_hydra(&[1, 3, 5, 7])), "p1(p2(p1(p2(p1(p2(0))))))");
    // head 4
    assert_eq!(fmt(&lprss_to_hydra(&[1, 4, 5])), "p1(p2(p2(0)+p1(0)))");
    assert_eq!(fmt(&lprss_to_hydra(&[1, 4, 6])), "p1(p2(p2(0)+p1(p2(0))))");
    assert_eq!(fmt(&lprss_to_hydra(&[1, 4, 6, 8])), "p1(p2(p2(0)+p1(p2(p1(p2(0))))))");
    assert_eq!(fmt(&lprss_to_hydra(&[1, 4, 4])), "p1(p2(p2(0))+p2(p2(0)))");
    // sums of segments
    assert_eq!(fmt(&lprss_to_hydra(&[1, 3, 3])), "p1(p2(0)+p2(0))");
    assert_eq!(fmt(&lprss_to_hydra(&[1, 3, 4, 3])), "p1(p2(p1(0))+p2(0))");
    assert_eq!(fmt(&lprss_to_hydra(&[1, 3, 2, 4, 2])), "p1(p2(0)+p1(p2(0))+p1(0))");
    // segment values round trip through the BOCF embedding
    let h = lprss_to_hydra(&[1, 4, 6, 6]);
    assert!(is_legal_hydra(&normalize_hydra(&h)));
}

#[test]
fn lprss_round_trip() {
    for seq in [
        vec![1],
        vec![1, 1],
        vec![1, 2],
        vec![1, 2, 2, 1, 2],
        vec![1, 2, 3, 1, 2, 3],
        vec![1, 3],
        vec![1, 3, 2, 3],
        vec![1, 3, 2, 4, 3, 4],
        vec![1, 3, 4],
        vec![1, 3, 4, 4],
        vec![1, 3, 5],
        vec![1, 3, 5, 6, 7],
        vec![1, 3, 5, 7],
        vec![1, 4],
        vec![1, 4, 4],
        vec![1, 4, 5, 6],
        vec![1, 4, 6, 8],
        vec![1, 5],
    ] {
        let h = lprss_to_hydra(&seq);
        let back = hydra_to_lprss(&h).unwrap();
        assert_eq!(back, seq, "round trip failed for {:?}", seq);
    }
    // standard forms decode to the shorter representation
    assert_eq!(hydra_to_lprss(&h("p1(p2(p1(p2(0))))")).unwrap(), vec![1, 3, 5]);
    // addition splits survive
    assert_eq!(hydra_to_lprss(&h("p1(p1(0)+p1(0))+p1(p1(0))")).unwrap(), vec![1, 2, 2, 1, 2]);
    assert_eq!(hydra_to_lprss(&h("p1(0)+p1(0)")).unwrap(), vec![1, 1]);
    // outside the LPrSS range
    assert!(hydra_to_lprss(&h("p1(p3(0))")).is_err());
    assert!(hydra_to_lprss(&h("p2(0)")).is_err());
    // the limit φ(ω,0) = ψ(Ω^ω) and everything above it is not expressible
    assert!(hydra_to_lprss(&h("p1(p2(p2(p1(0))))")).is_err());
    assert!(hydra_to_lprss(&h("p1(p2(p2(p2(0))))")).is_err());
    assert!(hydra_to_lprss(&h("p1(p2(p1(0)+p2(0)))")).is_err());
    // through the standard form: hydra → bocf → hydra → lprss
    for s in ["p1(p2(p2(0)))", "p1(p2(p1(p2(0))))", "p1(p2(p2(0)+p1(0)))+p1(p1(0))"] {
        let std = term_to_hydra(&hydra_to_bocf(&h(s))).unwrap();
        let l = hydra_to_lprss(&std).unwrap();
        assert_eq!(hydra_to_lprss(&lprss_to_hydra(&l)).unwrap(), l);
    }
}

#[test]
fn term_embedding() {
    // ψ^H_1(ψ^H_2(0)) ↔ ψ_0(Ω) = ε_0
    let tm = hydra_to_term(&h("p1(p2(0))"));
    assert!(eq(&tm, &epsilon0()));
    // ψ_0(ψ_2(0)) = BHO ↔ p1(p2(p3(0))) (standard form after 补层)
    assert_eq!(fmt(&bocf_to_hydra(&bho()).unwrap()), "p1(p2(p3(0)))");
    // round trip: hydra → term → standard → hydra is legal and idempotent
    let original = h("p1(p3(p3(0)+p2(0))+p2(p2(p2(0))))");
    let rt = bocf_to_hydra(&hydra_to_term(&original)).unwrap();
    assert!(is_legal_hydra(&rt));
    assert_eq!(fmt(&normalize_hydra(&rt)), fmt(&rt));
    // above hydra range: subscript ω
    assert!(term_to_hydra(&t(zero(), t(omega(), zero(), zero()), zero())).is_err());
}

#[test]
fn fill_layers_examples() {
    // p1(p3) → p1(p2(p3))
    assert_eq!(fmt(&fill_layers(&h("p1(p3(0))"))), "p1(p2(p3(0)))");
    // p1(p3+p2) → p1(p2(p3)+p2)
    assert_eq!(fmt(&fill_layers(&h("p1(p3(0)+p2(0))"))), "p1(p2(p3(0))+p2(0))");
    // p1(p3+p3) → p1(p2(p3+p3))
    assert_eq!(fmt(&fill_layers(&h("p1(p3(0)+p3(0))"))), "p1(p2(p3(0)+p3(0)))");
    // deep gap: p1(p5) → p1(p2(p3(p4(p5))))
    assert_eq!(fmt(&fill_layers(&h("p1(p5(0))"))), "p1(p2(p3(p4(p5(0)))))");
    // mixed with deep gap: p1(p4+p2) → p1(p2(p3(p4))+p2)
    assert_eq!(fmt(&fill_layers(&h("p1(p4(0)+p2(0))"))), "p1(p2(p3(p4(0)))+p2(0))");
    // consecutive offenders share one fill layer: p1(p4+p3+p2) → p1(p2(p3(p4)+p3)+p2)
    assert_eq!(fmt(&fill_layers(&h("p1(p4(0)+p3(0)+p2(0))"))), "p1(p2(p3(p4(0))+p3(0))+p2(0))");
    // offenders with a gap share too, gap gets its own layer: p1(p5+p3+p2) → p1(p2(p3(p4(p5))+p3)+p2)
    assert_eq!(fmt(&fill_layers(&h("p1(p5(0)+p3(0)+p2(0))"))), "p1(p2(p3(p4(p5(0)))+p3(0))+p2(0))");
    // nested gap inside a summand: p1(p2(p4)) → p1(p2(p3(p4)))
    assert_eq!(fmt(&fill_layers(&h("p1(p2(p4(0)))"))), "p1(p2(p3(p4(0))))");
    // already legal → identity
    assert_eq!(fmt(&fill_layers(&h("p1(p2(0)+p1(0))"))), "p1(p2(0)+p1(0))");
    // output is always legal
    for s in ["p1(p3(0))", "p1(p5(0))", "p1(p3(0)+p2(0))", "p1(p4(0)+p2(0))", "p2(p4(0)+p2(0))", "p1(p2(p4(0)))"] {
        let f = fill_layers(&h(s));
        assert!(is_legal_hydra(&f), "not legal after fill: {} -> {}", s, fmt(&f));
        // idempotent
        assert_eq!(fmt(&fill_layers(&f)), fmt(&f));
    }
}

#[test]
fn normalize_hprss_pipeline() {
    // hprss → hydra → standard form → 补层
    let raw = hprss_to_hydra(&[1, 4, 7, 6, 3, 5, 7]);
    assert_eq!(fmt(&raw), "p1(p3(p3(0)+p2(0))+p2(p2(p2(0))))");
    let norm = normalize_hydra(&raw);
    // levels of p1's argument are 3 and 2 → mixed case: wrap only the p3 summand
    assert_eq!(fmt(&norm), "p1(p2(p3(p3(0)+p2(0)))+p2(p2(p2(0))))");
    assert!(is_legal_hydra(&norm));
    // BHO from BOCF standard form ψ_0(Ω_2) needs 补层
    let norm_bho = normalize_hydra(&h("p1(p3(0))"));
    assert_eq!(fmt(&norm_bho), "p1(p2(p3(0)))");
    assert!(is_legal_hydra(&norm_bho));
}

#[test]
fn bms_round_trip() {
    // ψ^H_1(ψ^H_2(0)) ↔ (0,0,0)(1,1,0)
    assert_eq!(hydra_to_bms(&h("p1(p2(0))")).unwrap(), vec![vec![0, 0, 0], vec![1, 1, 0]]);
    // (0,0,0)(1,1,0)(2,1,0)(1,1,0) ↔ p1(p2(p2(0))+p2(0))
    let m = vec![vec![0, 0, 0], vec![1, 1, 0], vec![2, 1, 0], vec![1, 1, 0]];
    assert_eq!(fmt(&bms_to_hydra(&m).unwrap()), "p1(p2(p2(0))+p2(0))");
    // round trip
    let h2 = bms_to_hydra(&m).unwrap();
    assert_eq!(hydra_to_bms(&h2).unwrap(), m);
    // single column (0,0,0) = 1
    assert_eq!(fmt(&bms_to_hydra(&vec![vec![0, 0, 0]]).unwrap()), "p1(0)");
    // two (0,0,0) columns = 2
    assert_eq!(
        fmt(&bms_to_hydra(&vec![vec![0, 0, 0], vec![0, 0, 0]]).unwrap()),
        "p1(0)+p1(0)"
    );
    // invalid: 1-row
    assert!(bms_to_hydra(&vec![vec![0]]).is_err());
}

#[test]
fn hprss_to_bms_conv() {
    assert_eq!(hprss_to_bms(&[1]).unwrap(), vec![vec![0, 0, 0]]);
    // (1,2) ↔ p1(p1(0)) ↔ (0,0,0)(1,0,0)
    assert_eq!(hprss_to_bms(&[1, 2]).unwrap(), vec![vec![0, 0, 0], vec![1, 0, 0]]);
    // (1,2,3) ↔ p1(p1(p1(0))) ↔ (0,0,0)(1,0,0)(2,0,0)
    assert_eq!(hprss_to_bms(&[1, 2, 3]).unwrap(), vec![vec![0, 0, 0], vec![1, 0, 0], vec![2, 0, 0]]);
}


#[test]
fn format_then_parse_gives_the_hydra() {
    for text in ["0", "p1(0)", "p1(p3(p3(0)+p2(0))+p2(p2(p2(0))))", "p2(0)+p1(p12(0))"] {
        let x = h(text);
        assert_eq!(parse_hydra(&format_hydra(&x)).unwrap(), x);
        assert_eq!(parse_hydra(&format_hydra_psi(&x)).unwrap(), x);
    }
}

#[test]
fn hprss_then_back_gives_the_sequence() {
    for seq in [vec![1, 4, 7, 6, 3, 5, 7], vec![3, 2], vec![2, 4], vec![5, -1, 7, 7], vec![]] {
        assert_eq!(hydra_to_hprss(&hprss_to_hydra(&seq)), seq);
    }
}

#[test]
fn hydra_value_is_additive() {
    let pairs = [("p1(0)", "p2(0)"), ("p2(p1(0))", "p1(0)"), ("p1(p1(0))", "p1(p2(0))")];
    for (a, b) in pairs {
        let x = parse_hydra(a).unwrap();
        let y = parse_hydra(b).unwrap();
        let xy = parse_hydra(&format!("{}+{}", a, b)).unwrap();
        assert!(eq(&hydra_to_term(&xy), &bms_core::term::add(&hydra_to_term(&x), &hydra_to_term(&y))));
    }
    assert!(eq(&hydra_to_term(&parse_hydra("p1(p2(0))").unwrap()), &epsilon0()));
}

#[test]
fn lprss_entries_below_one_convert() {
    assert_eq!(format_hydra(&lprss_to_hydra(&[1, 0])), "p1(p2(0))");
    assert!(bms_core::hydra::lprss_input_fits(&[1, 0, -5, 3]));
    assert!(!bms_core::hydra::lprss_input_fits(&[1, -2, i32::MAX]));
    let _ = lprss_to_hydra(&[1, 0, -5, 3]);
}

#[test]
fn filled_layers_are_legal_and_stable() {
    for s in ["p1(p3(0))", "p1(p4(0)+p1(0))", "p2(p1(0))", "p1(p2(0))"] {
        let h = parse_hydra(s).unwrap();
        let f = fill_layers(&h);
        assert!(is_legal_hydra(&f), "for {s}");
        assert_eq!(format_hydra(&fill_layers(&f)), format_hydra(&f), "for {s}");
        if is_legal_hydra(&h) {
            assert_eq!(format_hydra(&f), format_hydra(&h), "for {s}");
        }
    }
}

#[test]
fn hydra_to_lprss_checked_values() {
    assert_eq!(
        bms_core::hydra::hydra_to_lprss_checked(&h("p1(p2(p1(p2(0))))")),
        Some(Ok(vec![1, 3, 5]))
    );
    assert_eq!(bms_core::hydra::hydra_to_lprss_checked(&h("p1(0)+p1(0)")), Some(Ok(vec![1, 1])));
    assert!(bms_core::hydra::hydra_lprss_fits(&h("p1(p1(0)+p1(0))+p1(p1(0))")));
    assert!(matches!(bms_core::hydra::hydra_to_lprss_checked(&h("p2(0)")), Some(Err(_))));
}
