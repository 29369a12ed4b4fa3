use bms_core::one_y::{build_1y_mountain, build_1y_mountain_with_rows};

#[test]
fn one_y_counting_sequence() {
    let (m, labels) = build_1y_mountain_with_rows(&[1, 2, 3]).unwrap();
    assert_eq!(m, vec![vec![(1, 0), (2, 1), (3, 1)], vec![(-1, -1), (1, 1), (1, 1)]]);
    assert_eq!(labels, vec![vec![0], vec![1]]);
}

#[test]
fn one_y_doubling_sequence() {
    let m = build_1y_mountain(&[1, 2, 4, 8]).unwrap();
    assert_eq!(
        m,
        vec![
            vec![(1, 0), (2, 1), (4, 1), (8, 1)],
            vec![(-1, -1), (1, 1), (2, 1), (4, 1)],
            vec![(-1, -1), (-1, -1), (1, 1), (2, 1)],
            vec![(-1, -1), (-1, -1), (-1, -1), (1, 1)],
        ]
    );
}

#[test]
fn one_y_second_extraction() {
    let (m, labels) = build_1y_mountain_with_rows(&[1, 3, 5, 7]).unwrap();
    assert_eq!(
        m,
        vec![
            vec![(1, 0), (3, 1), (5, 1), (7, 1)],
            vec![(-1, -1), (2, 1), (2, 1), (2, 1)],
            vec![(1, 0), (2, 1), (2, 2), (2, 3)],
            vec![(-1, -1), (1, 1), (1, 2), (1, 3)],
        ]
    );
    assert_eq!(labels, vec![vec![0], vec![1], vec![0, 1], vec![1, 1]]);
}

#[test]
fn one_y_triangular_numbers() {
    let (m, labels) = build_1y_mountain_with_rows(&[1, 3, 6, 10]).unwrap();
    assert_eq!(
        m,
        vec![
            vec![(1, 0), (3, 1), (6, 1), (10, 1)],
            vec![(-1, -1), (2, 1), (3, 1), (4, 1)],
            vec![(-1, -1), (-1, -1), (1, 1), (1, 1)],
            vec![(1, 0), (2, 1), (1, 0), (1, 0)],
            vec![(-1, -1), (1, 1), (-1, -1), (-1, -1)],
        ]
    );
    assert_eq!(labels, vec![vec![0], vec![1], vec![2], vec![0, 1], vec![1, 1]]);
}

#[test]
fn one_y_short_inputs() {
    let (m, labels) = build_1y_mountain_with_rows(&[]).unwrap();
    assert_eq!(m, vec![Vec::<(i32, i32)>::new()]);
    assert_eq!(labels, vec![vec![0]]);
    let (m, labels) = build_1y_mountain_with_rows(&[1]).unwrap();
    assert_eq!(m, vec![vec![(1, 0)]]);
    assert_eq!(labels, vec![vec![0]]);
}

#[test]
fn one_y_long_extraction_chain() {
    let (m, labels) = build_1y_mountain_with_rows(&[1, 100003]).unwrap();
    assert_eq!(m.len(), 2 * 100002);
    assert_eq!(m[m.len() - 1], vec![(-1, -1), (1, 1)]);
    assert_eq!(labels[labels.len() - 1], vec![1, 100001]);
}
