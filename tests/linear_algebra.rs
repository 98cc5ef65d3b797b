use fountainflow::linear_algebra::BinaryMatrix;

#[test]
fn test_identity_matrix() {
    let matrix = BinaryMatrix::identity(3);
    assert_eq!(matrix.get(0, 0), 1);
    assert_eq!(matrix.get(1, 1), 1);
    assert_eq!(matrix.get(2, 2), 1);
    assert_eq!(matrix.get(0, 1), 0);
    assert_eq!(matrix.get(1, 2), 0);
}

#[test]
fn test_gaussian_elimination() {
    let mut matrix = BinaryMatrix::new(3, 3);
    matrix.set_row(0, vec![1, 1, 0]);
    matrix.set_row(1, vec![1, 0, 1]);
    matrix.set_row(2, vec![0, 1, 1]);

    // Over GF(2) the third row is the sum of the first two, so the rank is 2.
    assert!(!matrix.gaussian_elimination());

    assert_eq!(matrix.get(0, 0), 1);
    assert_eq!(matrix.get(1, 1), 1);
    // reduced echelon form: two pivot rows and a zero row
    assert_eq!(matrix.data, vec![vec![1, 0, 1], vec![0, 1, 1], vec![0, 0, 0]]);
}

#[test]
fn gaussian_elimination_full_rank_gives_identity() {
    let mut matrix = BinaryMatrix::new(3, 3);
    matrix.set_row(0, vec![0, 1, 1]);
    matrix.set_row(1, vec![1, 1, 0]);
    matrix.set_row(2, vec![0, 0, 1]);
    assert!(matrix.gaussian_elimination());
    for i in 0..3 {
        for j in 0..3 {
            assert_eq!(matrix.get(i, j), if i == j { 1 } else { 0 });
        }
    }
}

#[test]
fn test_solve_system() {
    let mut matrix = BinaryMatrix::new(3, 3);
    matrix.set_row(0, vec![1, 1, 0]);
    matrix.set_row(1, vec![1, 0, 1]);
    matrix.set_row(2, vec![0, 1, 1]);

    let b = vec![1, 0, 1];
    let x = matrix.solve(&b);

    assert!(x.is_some());
    let x = x.unwrap();
    assert_eq!(x.len(), 3);
}

#[test]
fn solve_unique_system() {
    let mut matrix = BinaryMatrix::new(3, 3);
    matrix.set_row(0, vec![1, 1, 0]);
    matrix.set_row(1, vec![0, 1, 1]);
    matrix.set_row(2, vec![0, 0, 1]);
    // x2 = 1, x1 = 1, x0 = 0
    assert_eq!(matrix.solve(&[1, 0, 1]), Some(vec![0, 1, 1]));
    // the free unknown of a rank-deficient system is zero
    let mut m = BinaryMatrix::new(3, 3);
    m.set_row(0, vec![1, 1, 0]);
    m.set_row(1, vec![1, 0, 1]);
    m.set_row(2, vec![0, 1, 1]);
    assert_eq!(m.solve(&[1, 0, 1]), Some(vec![0, 1, 0]));
}

#[test]
fn solve_rejects_wrong_length_and_singular() {
    let mut matrix = BinaryMatrix::identity(2);
    assert!(matrix.solve(&[1]).is_none());
    let mut inconsistent = BinaryMatrix::new(2, 2);
    inconsistent.set_row(0, vec![1, 1]);
    inconsistent.set_row(1, vec![1, 1]);
    assert!(inconsistent.solve(&[1, 0]).is_none());
}
