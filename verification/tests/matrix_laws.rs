use opg::matrix::create_identity;
use opg::matrix::combine_matrix;
use opg::matrix::product;
use opg::matrix::sum;
use opg::matrix::transitive_closure;
use opg::matrix::transpose;
use opg::matrix::Matrix;
use opg::matrix::MatrixError;

#[test]
fn transpose_works() {
    let matrix = vec![
        vec![false, true, true],
        vec![true, true, true],
        vec![false, false, false],
    ];

    let t_matrix = vec![
        vec![false, true, false],
        vec![true, true, false],
        vec![true, true, false],
    ];

    let transposed = transpose(&matrix);
    assert_eq!(t_matrix, transposed);
}

#[test]
fn identity_works() {
    let identity = create_identity(16);
    println!("{:?}", identity);
}

#[test]
fn sum_works() {
    let m1 = vec![vec![false, false], vec![true, true]];

    let m2 = vec![vec![true, false], vec![true, false]];

    println!("{:?}", sum(&m1, &m2).unwrap());
}

#[test]
fn product_with_identity_is_neutral() {
    let m: Matrix = vec![
        vec![false, true, false],
        vec![true, false, true],
        vec![true, true, false],
    ];
    let id = create_identity(3);
    assert_eq!(product(&m, &id).unwrap(), m);
    assert_eq!(product(&id, &m).unwrap(), m);
}

#[test]
fn product_has_square_dimensions() {
    let m: Matrix = vec![vec![true, false], vec![false, true]];
    let p = product(&m, &m).unwrap();
    assert_eq!(p.len(), 2);
    assert!(p.iter().all(|row| row.len() == 2));
}

#[test]
fn product_composes_relations() {
    // 0 -> 1 composed with 1 -> 2 reaches 0 -> 2.
    let first: Matrix = vec![
        vec![false, true, false],
        vec![false, false, false],
        vec![false, false, false],
    ];
    let second: Matrix = vec![
        vec![false, false, false],
        vec![false, false, true],
        vec![false, false, false],
    ];
    let p = product(&first, &second).unwrap();
    let expected: Matrix = vec![
        vec![false, false, true],
        vec![false, false, false],
        vec![false, false, false],
    ];
    assert_eq!(p, expected);
}

#[test]
fn sum_is_commutative() {
    let m1: Matrix = vec![vec![false, true], vec![true, false]];
    let m2: Matrix = vec![vec![true, true], vec![false, false]];
    assert_eq!(sum(&m1, &m2).unwrap(), sum(&m2, &m1).unwrap());
}

#[test]
fn sum_with_zero_is_neutral() {
    let m: Matrix = vec![vec![false, true], vec![true, false]];
    let zero: Matrix = vec![vec![false, false], vec![false, false]];
    assert_eq!(sum(&m, &zero).unwrap(), m);
}

#[test]
fn combine_matrix_matches_sum() {
    let m1: Matrix = vec![vec![false, true], vec![true, false]];
    let m2: Matrix = vec![vec![true, false], vec![true, false]];
    assert_eq!(combine_matrix(&m1, &m2).unwrap(), sum(&m1, &m2).unwrap());
}

#[test]
fn transpose_twice_gives_back_the_matrix() {
    let m: Matrix = vec![
        vec![false, true, true],
        vec![true, false, false],
        vec![false, true, false],
    ];
    assert_eq!(transpose(&transpose(&m)), m);
}

#[test]
fn closure_follows_chains() {
    // 0 -> 1 -> 2, so the closure adds 0 -> 2.
    let m: Matrix = vec![
        vec![false, true, false],
        vec![false, false, true],
        vec![false, false, false],
    ];
    let c = transitive_closure(&m);
    let expected: Matrix = vec![
        vec![false, true, true],
        vec![false, false, true],
        vec![false, false, false],
    ];
    assert_eq!(c, expected);
}

#[test]
fn closure_does_not_add_the_diagonal() {
    let m: Matrix = vec![vec![false, true], vec![false, false]];
    let c = transitive_closure(&m);
    assert!(!c[0][0]);
    assert!(!c[1][1]);
}

#[test]
fn closure_is_a_fixed_point() {
    let m: Matrix = vec![
        vec![false, true, false, false],
        vec![false, false, true, false],
        vec![true, false, false, true],
        vec![false, false, false, false],
    ];
    let once = transitive_closure(&m);
    let twice = transitive_closure(&once);
    assert_eq!(once, twice);
}

#[test]
fn mismatched_dimensions_are_rejected() {
    let m2: Matrix = vec![vec![true, false], vec![false, true]];
    let m3: Matrix = vec![
        vec![true, false, false],
        vec![false, true, false],
        vec![false, false, true],
    ];
    assert_eq!(product(&m2, &m3), Err(MatrixError::DimensionMismatch));
    assert_eq!(sum(&m2, &m3), Err(MatrixError::DimensionMismatch));
    assert_eq!(combine_matrix(&m2, &m3), Err(MatrixError::DimensionMismatch));
}

#[test]
fn ragged_matrices_are_rejected() {
    let ragged: Matrix = vec![vec![true, false], vec![false]];
    let square: Matrix = vec![vec![true, false], vec![false, true]];
    assert_eq!(product(&ragged, &square), Err(MatrixError::DimensionMismatch));
}
