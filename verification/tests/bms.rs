use bms_core::bms::{is_standard_matrix, is_standard_triangular_matrix};


#[test]
fn test_chkstd_standard() {
    let m = vec![
        vec![0, 0, 0],
        vec![1, 1, 1],
        vec![2, 1, 1],
        vec![3, 1, 0],
        vec![1, 1, 1],
    ];
    assert!(is_standard_matrix(&m));
}

#[test]
fn test_chkstd_non_standard() {
    // (0)(1)(2,1)(3,2,1,1) — not standard triangular BMS
    let m = vec![
        vec![0],
        vec![1],
        vec![2, 1],
        vec![3, 2, 1, 1],
    ];
    assert!(!is_standard_matrix(&m));
}


#[test]
fn standardness_of_trivial_matrices() {
    let empty: Vec<Vec<i32>> = vec![];
    assert!(is_standard_matrix(&empty));
    assert!(is_standard_matrix(&vec![vec![0], vec![1, 1], vec![2, 2]]));
    assert!(is_standard_matrix(&vec![vec![0], vec![1], vec![1]]));
    assert!(is_standard_matrix(&vec![vec![0], vec![1], vec![0]]));
}

#[test]
fn standardness_rejects_rising_columns() {
    assert!(!is_standard_matrix(&vec![vec![0], vec![2]]));
    assert!(!is_standard_matrix(&vec![vec![1]]));
}

#[test]
fn triangular_standardness_of_identity_prefix() {
    assert!(is_standard_triangular_matrix(&vec![vec![0], vec![1], vec![2, 1]]));
    assert!(is_standard_triangular_matrix(&vec![vec![0], vec![1], vec![2, 1], vec![3, 2, 1]]));
    assert!(!is_standard_triangular_matrix(&vec![vec![0], vec![1, 1]]));
}
