use dense_matrix::error::MatrixError;
use dense_matrix::matrix::Matrix;

#[test]
fn test_add() {
    let a = Matrix::from(vec![vec![1.0, 2.0, 3.0, 4.0], vec![5.0, 6.0, 7.0, 8.0]]).unwrap();
    let b = Matrix::from(vec![vec![2.0, 4.0, 6.0, 8.0], vec![1.0, 3.0, 5.0, 7.0]]).unwrap();

    let result = a.add(&b).unwrap();
    let expected =
        Matrix::from(vec![vec![3.0, 6.0, 9.0, 12.0], vec![6.0, 9.0, 12.0, 15.0]]).unwrap();

    assert_eq!(result.data(), expected.data());
}

#[test]
fn test_subtract() {
    let a = Matrix::from(vec![vec![5.0, 6.0, 7.0, 8.0], vec![10.0, 11.0, 12.0, 13.0]]).unwrap();
    let b = Matrix::from(vec![vec![1.0, 2.0, 3.0, 4.0], vec![5.0, 6.0, 7.0, 8.0]]).unwrap();

    let result = a.subtract(&b).unwrap();
    let expected =
        Matrix::from(vec![vec![4.0, 4.0, 4.0, 4.0], vec![5.0, 5.0, 5.0, 5.0]]).unwrap();

    assert_eq!(result.data(), expected.data());
}

#[test]
fn test_multiply() {
    let a = Matrix::from(vec![vec![1.0, 2.0, 3.0], vec![4.0, 5.0, 6.0]]).unwrap();
    let b = Matrix::from(vec![vec![7.0, 8.0], vec![9.0, 10.0], vec![11.0, 12.0]]).unwrap();

    let result = a.multiply(&b).unwrap();
    let expected = Matrix::from(vec![vec![58.0, 64.0], vec![139.0, 154.0]]).unwrap();

    assert_eq!(result.data(), expected.data());
}

#[test]
fn test_dot_multiply() {
    let a = Matrix::from(vec![vec![1.0, 2.0, 3.0], vec![4.0, 5.0, 6.0]]).unwrap();
    let b = Matrix::from(vec![vec![7.0, 8.0, 9.0], vec![10.0, 11.0, 12.0]]).unwrap();

    let result = a.dot_multiply(&b).unwrap();
    let expected = Matrix::from(vec![vec![7.0, 16.0, 27.0], vec![40.0, 55.0, 72.0]]).unwrap();

    assert_eq!(result.data(), expected.data());
}

#[test]
fn test_transpose() {
    let a = Matrix::from(vec![vec![1.0, 2.0, 3.0], vec![4.0, 5.0, 6.0]]).unwrap();

    let result = a.transpose();
    let expected = Matrix::from(vec![vec![1.0, 4.0], vec![2.0, 5.0], vec![3.0, 6.0]]).unwrap();

    assert_eq!(result.data(), expected.data());
}

#[test]
fn matrix_test_add() {
    let a = Matrix::from(vec![vec![1.0, 2.0, 3.0, 4.0], vec![5.0, 6.0, 7.0, 8.0]]).unwrap();
    let b = Matrix::from(vec![vec![2.0, 4.0, 6.0, 8.0], vec![1.0, 3.0, 5.0, 7.0]]).unwrap();

    let result = a.add(&b).unwrap();
    let expected =
        Matrix::from(vec![vec![3.0, 6.0, 9.0, 12.0], vec![6.0, 9.0, 12.0, 15.0]]).unwrap();

    assert_eq!(result.data(), expected.data());
    assert_eq!((result.rows(), result.cols()), (2, 4));
}

#[test]
fn matrix_test_subtract() {
    let a = Matrix::from(vec![vec![5.0, 6.0, 7.0, 8.0], vec![10.0, 11.0, 12.0, 13.0]]).unwrap();
    let b = Matrix::from(vec![vec![1.0, 2.0, 3.0, 4.0], vec![5.0, 6.0, 7.0, 8.0]]).unwrap();

    let result = a.subtract(&b).unwrap();
    let expected =
        Matrix::from(vec![vec![4.0, 4.0, 4.0, 4.0], vec![5.0, 5.0, 5.0, 5.0]]).unwrap();

    assert_eq!(result.data(), expected.data());
    assert_eq!((result.rows(), result.cols()), (2, 4));
}

#[test]
fn matrix_test_multiply() {
    let a = Matrix::from(vec![vec![1.0, 2.0, 3.0], vec![4.0, 5.0, 6.0]]).unwrap();
    let b = Matrix::from(vec![vec![7.0, 8.0], vec![9.0, 10.0], vec![11.0, 12.0]]).unwrap();

    let result = a.multiply(&b).unwrap();
    let expected = Matrix::from(vec![vec![58.0, 64.0], vec![139.0, 154.0]]).unwrap();

    assert_eq!(result.data(), expected.data());
    assert_eq!((result.rows(), result.cols()), (2, 2));
}

#[test]
fn matrix_test_dot_multiply() {
    let a = Matrix::from(vec![vec![1.0, 2.0, 3.0], vec![4.0, 5.0, 6.0]]).unwrap();
    let b = Matrix::from(vec![vec![7.0, 8.0, 9.0], vec![10.0, 11.0, 12.0]]).unwrap();

    let result = a.dot_multiply(&b).unwrap();
    let expected = Matrix::from(vec![vec![7.0, 16.0, 27.0], vec![40.0, 55.0, 72.0]]).unwrap();

    assert_eq!(result.data(), expected.data());
    assert_eq!((result.rows(), result.cols()), (2, 3));
}

#[test]
fn matrix_test_transpose() {
    let a = Matrix::from(vec![vec![1.0, 2.0, 3.0], vec![4.0, 5.0, 6.0]]).unwrap();

    let result = a.transpose();
    let expected = Matrix::from(vec![vec![1.0, 4.0], vec![2.0, 5.0], vec![3.0, 6.0]]).unwrap();

    assert_eq!(result.data(), expected.data());
    assert_eq!((result.rows(), result.cols()), (3, 2));
}

#[test]
fn from_refuses_ragged_rows() {
    let res = Matrix::from(vec![vec![1.0, 2.0], vec![3.0]]);
    assert_eq!(res.err(), Some(MatrixError::DimensionMismatch));
}

#[test]
fn from_refuses_a_longer_later_row() {
    let res = Matrix::from(vec![vec![1.0], vec![2.0], vec![3.0, 4.0]]);
    assert_eq!(res.err(), Some(MatrixError::DimensionMismatch));
}

#[test]
fn from_without_rows_is_empty() {
    let m = Matrix::<f64>::from(vec![]).unwrap();
    assert_eq!(m.rows(), 0);
    assert_eq!(m.cols(), 0);
    assert!(m.data().is_empty());
}

#[test]
fn from_with_empty_rows_has_no_columns() {
    let m = Matrix::<f64>::from(vec![vec![], vec![]]).unwrap();
    assert_eq!(m.rows(), 2);
    assert_eq!(m.cols(), 0);
    assert!(m.data().is_empty());
}

#[test]
fn from_lays_rows_out_one_after_another() {
    let m = Matrix::from(vec![vec![1.5, 2.5, 3.5], vec![4.5, 5.5, 6.5]]).unwrap();
    assert_eq!(m.rows(), 2);
    assert_eq!(m.cols(), 3);
    assert_eq!(m.data(), &vec![1.5, 2.5, 3.5, 4.5, 5.5, 6.5]);
}

#[test]
fn index_is_row_times_width_plus_column() {
    let m = Matrix::from(vec![vec![1.0, 2.0, 3.0], vec![4.0, 5.0, 6.0]]).unwrap();
    assert_eq!(m.index(0, 0), 0);
    assert_eq!(m.index(0, 2), 2);
    assert_eq!(m.index(1, 0), 3);
    assert_eq!(m.index(1, 2), 5);
}

#[test]
fn get_reads_every_position() {
    let m = Matrix::from(vec![vec![1.0, 2.0, 3.0], vec![4.0, 5.0, 6.0]]).unwrap();
    assert_eq!(m.get(0, 0), Ok(1.0));
    assert_eq!(m.get(0, 2), Ok(3.0));
    assert_eq!(m.get(1, 0), Ok(4.0));
    assert_eq!(m.get(1, 1), Ok(5.0));
    assert_eq!(m.get(1, 2), Ok(6.0));
}

#[test]
fn get_refuses_the_row_count_as_row() {
    let m = Matrix::from(vec![vec![1.0, 2.0, 3.0], vec![4.0, 5.0, 6.0]]).unwrap();
    assert_eq!(m.get(2, 0), Err(MatrixError::IndexOutOfBounds));
}

#[test]
fn get_refuses_the_column_count_as_column() {
    let m = Matrix::from(vec![vec![1.0, 2.0, 3.0], vec![4.0, 5.0, 6.0]]).unwrap();
    assert_eq!(m.get(0, 3), Err(MatrixError::IndexOutOfBounds));
    assert_eq!(m.get(1, 3), Err(MatrixError::IndexOutOfBounds));
}

#[test]
fn get_on_an_empty_matrix_is_out_of_bounds() {
    let m = Matrix::<f64>::from(vec![]).unwrap();
    assert_eq!(m.get(0, 0), Err(MatrixError::IndexOutOfBounds));
}

#[test]
fn set_overwrites_one_entry_in_place() {
    let mut m = Matrix::from(vec![vec![1.0, 2.0, 3.0], vec![4.0, 5.0, 6.0]]).unwrap();
    assert_eq!(m.set(1, 1, 50.0), Ok(()));
    assert_eq!(m.data(), &vec![1.0, 2.0, 3.0, 4.0, 50.0, 6.0]);
    assert_eq!(m.get(1, 1), Ok(50.0));
    assert_eq!((m.rows(), m.cols()), (2, 3));
}

#[test]
fn set_refuses_the_row_count_as_row() {
    let mut m = Matrix::from(vec![vec![1.0, 2.0, 3.0], vec![4.0, 5.0, 6.0]]).unwrap();
    assert_eq!(m.set(2, 0, 9.0), Err(MatrixError::IndexOutOfBounds));
    assert_eq!(m.data(), &vec![1.0, 2.0, 3.0, 4.0, 5.0, 6.0]);
}

#[test]
fn set_refuses_the_column_count_as_column() {
    let mut m = Matrix::from(vec![vec![1.0, 2.0, 3.0], vec![4.0, 5.0, 6.0]]).unwrap();
    assert_eq!(m.set(0, 3, 9.0), Err(MatrixError::IndexOutOfBounds));
    assert_eq!(m.data(), &vec![1.0, 2.0, 3.0, 4.0, 5.0, 6.0]);
}

#[test]
fn zeros_is_all_zero() {
    let m = Matrix::<f64>::zeros(3, 5);
    assert_eq!(m.rows(), 3);
    assert_eq!(m.cols(), 5);
    assert_eq!(m.data(), &vec![0.0; 15]);
}

#[test]
fn zeros_with_a_zero_dimension_is_empty() {
    let tall = Matrix::<f64>::zeros(4, 0);
    assert_eq!((tall.rows(), tall.cols()), (4, 0));
    assert!(tall.data().is_empty());
    let wide = Matrix::<f64>::zeros(0, 4);
    assert_eq!((wide.rows(), wide.cols()), (0, 4));
    assert!(wide.data().is_empty());
}

#[test]
fn clone_copies_shape_and_entries() {
    let mut m = Matrix::from(vec![vec![1.0, 2.0], vec![3.0, 4.0]]).unwrap();
    let copy = m.clone();
    m.set(0, 0, 9.0).unwrap();
    assert_eq!(copy.data(), &vec![1.0, 2.0, 3.0, 4.0]);
    assert_eq!((copy.rows(), copy.cols()), (2, 2));
    assert_eq!(m.get(0, 0), Ok(9.0));
}

#[test]
fn transpose_of_a_row_is_a_column() {
    let m = Matrix::from(vec![vec![1.0, 2.0, 3.0, 4.0, 5.0]]).unwrap();
    let t = m.transpose();
    assert_eq!((t.rows(), t.cols()), (5, 1));
    assert_eq!(t.data(), &vec![1.0, 2.0, 3.0, 4.0, 5.0]);
    assert_eq!(t.get(3, 0), Ok(4.0));
}

#[test]
fn transpose_of_an_empty_matrix_is_empty() {
    let t = Matrix::<f64>::zeros(0, 3).transpose();
    assert_eq!((t.rows(), t.cols()), (3, 0));
    assert!(t.data().is_empty());
}

#[test]
fn transpose_leaves_the_operand_unchanged() {
    let m = Matrix::from(vec![vec![1.0, 2.0], vec![3.0, 4.0]]).unwrap();
    let _ = m.transpose();
    assert_eq!(m.data(), &vec![1.0, 2.0, 3.0, 4.0]);
}

#[test]
fn error_messages_name_the_failure() {
    assert_eq!(MatrixError::DimensionMismatch.message(), "matrix dimensions do not match");
    assert_eq!(MatrixError::IndexOutOfBounds.message(), "matrix index out of bounds");
}
