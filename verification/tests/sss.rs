use bms_core::sss::{sss_to_bocf, sss_to_nocf, sss_to_tprss};
use bms_core::term::term_to_string;
use bms_core::ocf::nocf_to_sss_string;
use bms_core::sss::expand_sss;

fn seq(xs: &[i32]) -> Vec<i32> {
    xs.to_vec()
}

#[test]
fn successor_drops_last() {
    assert_eq!(expand_sss(&seq(&[0, 1, 0]), 1), vec![0, 1]);
    assert_eq!(expand_sss(&seq(&[0]), 1), Vec::<i32>::new());
}

#[test]
fn simple_expansion() {
    // (0,1,2)[1] → (0,1,1,2,2)
    assert_eq!(expand_sss(&seq(&[0, 1, 2]), 1), vec![0, 1, 1, 2, 2]);
    assert_eq!(expand_sss(&seq(&[0, 1, 2]), 2), vec![0, 1, 1, 2, 2, 3, 3]);
}

#[test]
fn preserves_input() {
    let input = vec![0, 1, 2, 3];
    expand_sss(&input, 1);
    assert_eq!(input, vec![0, 1, 2, 3]);
}

#[test]
fn sss_empty_input_stays_empty() {
    assert_eq!(expand_sss(&[], 3), Vec::<i32>::new());
}

#[test]
fn sss_single_positive_term_is_lowered() {
    assert_eq!(expand_sss(&[5], 4), vec![4]);
}

#[test]
fn sss_zero_copies_lowers_last() {
    assert_eq!(expand_sss(&[0, 1, 2], 0), vec![0, 1, 1]);
}

#[test]
fn sss_root_below_running_minimum() {
    // (0,1,1)[2]: the root is the first 0; the part (1,0) repeats, raised by 0.
    assert_eq!(expand_sss(&[0, 1, 1], 2), vec![0, 1, 0, 1, 0, 1, 0]);
}

#[test]
fn nocf_reference_outputs() {
    let cases: &[(&[i32], &str)] = &[
        (&[0, 1], "\\psi\\left(\\Omega\\right)"),
        (&[0, 0, 0], "3"),
        (&[0, 1, 2], "\\psi\\left(\\Omega_{\\Omega}\\right)"),
        (&[0, 1, 2, 3], "\\psi\\left(\\Omega_{\\Omega_{\\Omega}}\\right)"),
        (&[0, 1, 2, 1], "\\psi\\left(\\Omega_{\\Omega+1}\\right)"),
        (&[0, 1, 1], "\\psi\\left(\\Omega_{2}\\right)"),
        (&[0, 1, 2, 3, 4], "\\psi\\left(\\Omega_{\\Omega_{\\Omega_{\\Omega}}}\\right)"),
        (&[0, 1, 2, 2], "\\psi\\left(\\Omega_{\\Omega_{2}}\\right)"),
    ];
    for (s, expected) in cases {
        let got = sss_to_nocf(s).expect("no conversion error");
        let got_str = nocf_to_sss_string(&got);
        assert_eq!(&got_str, expected, "SSS {:?}", s);
    }
}

#[test]
fn nocf_conversion_errors() {
    assert_eq!(sss_to_nocf(&[0, -1]).unwrap_err(), "sequence values must be non-negative");
    assert_eq!(sss_to_nocf(&[]).unwrap_err(), "unexpected end of W-number");
    assert_eq!(sss_to_nocf(&[0]).unwrap(), bms_core::ocf::Nocf::from_nat(1));
}

#[test]
fn tprss_reference_outputs() {
    let cases: &[(&[i32], &str)] = &[
        (&[0], "0"),
        (&[0, 0], "0,0"),
        (&[0, 0, 0], "0,0,0"),
        (&[0, 1], "0,1"),
        (&[0, 1, 1], "0,2"),
        (&[0, 1, 2], "0,(1)"),
        (&[0, 1, 2, 1], "0,(1,0)"),
        (&[0, 1, 2, 2], "0,(2)"),
        (&[0, 1, 2, 3], "0,((1))"),
        (&[0, 1, 2, 3, 4], "0,(((1)))"),
        (&[0, 1, 2, 1, 2], "0,(1,1)"),
        (&[0, 1, 2, 1, 1], "0,(1,0,0)"),
    ];
    for (s, expected) in cases {
        let got = sss_to_tprss(s).expect("no conversion error");
        assert_eq!(&got, expected, "SSS {:?}", s);
    }
}

#[test]
fn bocf_reference_outputs() {
    let cases: &[(&[i32], &str)] = &[
        (&[0, 1], "\\omega"),
        (&[0, 1, 2], "\\psi\\left(\\Omega^{\\Omega}\\right)"),
        (&[0, 1, 2, 3], "\\psi\\left(\\Omega_{\\Omega}\\right)"),
        (&[0, 1, 2, 1], "\\psi\\left(\\Omega_{2}^{\\Omega}\\omega\\right)"),
        (&[0, 1, 1], "\\omega^{\\omega}"),
        (&[0, 1, 2, 3, 4], "\\psi\\left(\\Omega_{\\Omega_{\\Omega}}\\right)"),
        (&[0, 1, 2, 2], "\\psi\\left(\\Omega_{2}^{\\Omega_{2}}\\right)"),
    ];
    for (s, expected) in cases {
        let t = sss_to_bocf(s).expect("a term within the rounds");
        let got = term_to_string(true, &t);
        assert_eq!(&got, expected, "SSS {:?}", s);
    }
}
