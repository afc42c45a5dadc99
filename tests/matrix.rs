use algo_lib::matrix::Matrix;
use algo_lib::number::Number;

#[test]
fn test_matrix_add() {
    let a = Matrix::new(vec![vec![1, -1], vec![-2, 3]]);
    let b = Matrix::new(vec![vec![1, 2], vec![3, 4]]);
    assert_eq!(a.clone() + b.clone(), Matrix::new(vec![vec![2, 1], vec![1, 7]]));
    assert_eq!(a - b, Matrix::new(vec![vec![0, -3], vec![-5, -1]]));
}

#[test]
fn test_matrix_mul() {
    let a = vec![vec![1, -1], vec![-2, 3]];
    let b = vec![vec![1, 2], vec![3, 4]];
    let c = vec![vec![-2, -2], vec![7, 8]];
    assert_eq!(Matrix::new(a) * Matrix::new(b), Matrix::new(c));

    let a = vec![vec![1, 2]];
    let b = vec![vec![2, -1], vec![-3, 4]];
    let c = vec![vec![-4, 7]];
    assert_eq!(Matrix::new(a) * Matrix::new(b), Matrix::new(c));

    let a = vec![vec![1, 2], vec![0, 3]];
    let b = vec![vec![1, 0, 2], vec![2, 1, 3]];
    let c = vec![vec![5, 2, 8], vec![6, 3, 9]];
    assert_eq!(Matrix::new(a) * Matrix::new(b), Matrix::new(c));

    let a = vec![vec![2, -1], vec![-3, 4]];
    let b = vec![vec![1], vec![2]];
    let c = vec![vec![0], vec![5]];
    assert_eq!(Matrix::new(a) * Matrix::new(b), Matrix::new(c));
}

#[test]
fn test_mul_vec() {
    let a = vec![vec![-3, 4, 5], vec![1, 6, 7], vec![2, 8, 9]];
    let b = vec![-2, 0, 1];
    let c = vec![11, 5, 5];
    assert_eq!(Matrix::new(a).mul_vec(b), c);
}

#[test]
fn test_identity() {
    let id = Matrix::identity(3);
    assert_eq!(
        id.clone(),
        Matrix::new(vec![vec![1, 0, 0], vec![0, 1, 0], vec![0, 0, 1]])
    );
    let a = Matrix::new(vec![vec![4, -2, 7], vec![0, 5, 1], vec![3, 3, -6]]);
    assert_eq!(a.clone() * id, a);
}

#[test]
fn matrix_mul_vec_pads_with_zeros() {
    let mut a = Matrix::new(vec![vec![1, 2]]);
    assert_eq!(a.mul_vec(vec![3, 4, 5]), vec![11, 0, 0]);
}

#[test]
fn matrix_assign_ops() {
    let mut a = Matrix::new(vec![vec![1, 2], vec![3, 4]]);
    a.add_assign(Matrix::new(vec![vec![10, 20], vec![30, 40]]));
    assert_eq!(a, Matrix::new(vec![vec![11, 22], vec![33, 44]]));
    a.sub_assign(Matrix::new(vec![vec![1, 2], vec![3, 4]]));
    assert_eq!(a, Matrix::new(vec![vec![10, 20], vec![30, 40]]));
    a.mul_assign(Matrix::new(vec![vec![1], vec![1]]));
    assert_eq!(a, Matrix::new(vec![vec![30], vec![70]]));
}

#[test]
fn number_identities() {
    assert_eq!(i64::zero(), 0);
    assert_eq!(i64::one(), 1);
}
