use bms_core::seq_std::{hprss_is_standard, is_standard_sequence, lprss_is_standard, SeqExpand};

#[test]
fn short_and_malformed_sequences() {
    assert_eq!(hprss_is_standard(&[]), Some(true));
    assert_eq!(hprss_is_standard(&[1]), Some(true));
    assert_eq!(hprss_is_standard(&[1, 5]), Some(true));
    assert_eq!(hprss_is_standard(&[2, 3]), Some(false));
    assert_eq!(hprss_is_standard(&[1, 0, 2]), Some(false));
    assert_eq!(lprss_is_standard(&[0]), Some(false));
    assert_eq!(lprss_is_standard(&[1, 7]), Some(true));
}

#[test]
fn chain_accepts_and_rejects() {
    assert_eq!(hprss_is_standard(&[1, 1, 1]), Some(true));
    assert_eq!(hprss_is_standard(&[1, 2, 3]), Some(true));
    assert_eq!(hprss_is_standard(&[1, 1, 2]), Some(false));
    assert_eq!(lprss_is_standard(&[1, 1, 1]), Some(true));
    assert_eq!(lprss_is_standard(&[1, 2, 3]), Some(true));
    assert_eq!(lprss_is_standard(&[1, 1, 2]), Some(false));
    assert_eq!(is_standard_sequence(&[1, 2, 2], SeqExpand::Hprss), Some(true));
}

#[test]
fn overflowing_start_is_refused() {
    assert_eq!(hprss_is_standard(&[1, i32::MAX, 1]), None);
}

#[test]
fn hprss_counting_and_skipping() {
    assert_eq!(is_standard_sequence(&[1, 2, 3], SeqExpand::Hprss), Some(true));
    assert_eq!(is_standard_sequence(&[1, 2, 4], SeqExpand::Hprss), Some(false));
}
