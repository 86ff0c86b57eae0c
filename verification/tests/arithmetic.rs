use dense_matrix::elementwise::{apply_scalar, apply_window, LANES};
use dense_matrix::error::MatrixError;
use dense_matrix::matrix::Matrix;
use dense_matrix::product::{accumulate_window, dot, fuse, reduce, Lanes};
use dense_matrix::scalar::Operation;
use rand::Rng;
use std::cell::Cell;

fn counting(rows: usize, cols: usize, first: f64) -> Matrix<f64> {
    let next = Cell::new(first);
    Matrix::random(rows, cols, &|| {
        let value = next.get();
        next.set(value + 1.0);
        value
    })
}

fn naive_product(a: &Matrix<f64>, b: &Matrix<f64>) -> Vec<f64> {
    let mut out = Vec::new();
    for i in 0..a.rows() {
        for j in 0..b.cols() {
            let mut sum = 0.0;
            for k in 0..a.cols() {
                sum += a.get(i, k).unwrap() * b.get(k, j).unwrap();
            }
            out.push(sum);
        }
    }
    out
}

#[test]
fn lane_width_is_four() {
    assert_eq!(LANES, 4);
}

#[test]
fn operation_applies_to_scalars() {
    assert_eq!(Operation::Add.apply(7.0, 2.0), 9.0);
    assert_eq!(Operation::Subtract.apply(7.0, 2.0), 5.0);
    assert_eq!(Operation::Multiply.apply(7.0, 2.0), 14.0);
}

#[test]
fn window_appends_one_batch() {
    let left = vec![1.0, 2.0, 3.0, 4.0, 5.0, 6.0];
    let right = vec![10.0, 20.0, 30.0, 40.0, 50.0, 60.0];
    let mut out = vec![0.5];
    apply_window(Operation::Add, &left, &right, 1, &mut out);
    assert_eq!(out, vec![0.5, 22.0, 33.0, 44.0, 55.0]);
}

#[test]
fn scalar_step_appends_one_result() {
    let left = vec![1.0, 2.0, 3.0];
    let right = vec![10.0, 20.0, 30.0];
    let mut out = vec![0.5, 0.25];
    apply_scalar(Operation::Multiply, &left, &right, 2, &mut out);
    assert_eq!(out, vec![0.5, 0.25, 90.0]);
}

#[test]
fn add_refuses_other_shapes() {
    let a = Matrix::<f64>::zeros(2, 3);
    assert_eq!(a.add(&Matrix::zeros(3, 2)).err(), Some(MatrixError::DimensionMismatch));
    assert_eq!(a.add(&Matrix::zeros(2, 4)).err(), Some(MatrixError::DimensionMismatch));
    assert_eq!(a.add(&Matrix::zeros(1, 3)).err(), Some(MatrixError::DimensionMismatch));
}

#[test]
fn subtract_refuses_other_shapes() {
    let a = Matrix::<f64>::zeros(2, 3);
    assert_eq!(a.subtract(&Matrix::zeros(3, 2)).err(), Some(MatrixError::DimensionMismatch));
    assert_eq!(a.subtract(&Matrix::zeros(2, 2)).err(), Some(MatrixError::DimensionMismatch));
    assert_eq!(a.subtract(&Matrix::zeros(3, 3)).err(), Some(MatrixError::DimensionMismatch));
}

#[test]
fn dot_multiply_refuses_other_shapes() {
    let a = Matrix::<f64>::zeros(2, 3);
    assert_eq!(a.dot_multiply(&Matrix::zeros(3, 2)).err(), Some(MatrixError::DimensionMismatch));
    assert_eq!(a.dot_multiply(&Matrix::zeros(2, 5)).err(), Some(MatrixError::DimensionMismatch));
}

#[test]
fn multiply_refuses_differing_inner_dimensions() {
    let a = Matrix::<f64>::zeros(2, 3);
    assert_eq!(a.multiply(&Matrix::zeros(2, 3)).err(), Some(MatrixError::DimensionMismatch));
    assert_eq!(a.multiply(&Matrix::zeros(4, 1)).err(), Some(MatrixError::DimensionMismatch));
    assert!(a.multiply(&Matrix::zeros(3, 7)).is_ok());
}

#[test]
fn elementwise_results_have_the_operands_shape() {
    let a = counting(3, 5, 1.0);
    let b = counting(3, 5, 2.0);
    for result in [a.add(&b).unwrap(), a.subtract(&b).unwrap(), a.dot_multiply(&b).unwrap()] {
        assert_eq!((result.rows(), result.cols()), (3, 5));
        assert_eq!(result.data().len(), 15);
    }
}

#[test]
fn product_has_outer_dimensions() {
    let a = counting(3, 5, 1.0);
    let b = counting(5, 2, 1.0);
    let result = a.multiply(&b).unwrap();
    assert_eq!((result.rows(), result.cols()), (3, 2));
    assert_eq!(result.data().len(), 6);
}

#[test]
fn elementwise_matches_scalar_loop_for_every_width() {
    for cols in 0..14 {
        let a = counting(3, cols, 1.0);
        let b = counting(3, cols, 100.0);
        let sum = a.add(&b).unwrap();
        let difference = a.subtract(&b).unwrap();
        let product = a.dot_multiply(&b).unwrap();
        for k in 0..3 * cols {
            let x = a.data()[k];
            let y = b.data()[k];
            assert_eq!(sum.data()[k], x + y);
            assert_eq!(difference.data()[k], x - y);
            assert_eq!(product.data()[k], x * y);
        }
        assert_eq!(sum.data().len(), 3 * cols);
    }
}

#[test]
fn add_with_five_columns() {
    let a = Matrix::from(vec![vec![1.0, 2.0, 3.0, 4.0, 5.0], vec![6.0, 7.0, 8.0, 9.0, 10.0]])
        .unwrap();
    let b = Matrix::from(vec![vec![10.0, 20.0, 30.0, 40.0, 50.0], vec![1.0, 1.0, 1.0, 1.0, 1.0]])
        .unwrap();
    let result = a.add(&b).unwrap();
    assert_eq!(result.data(), &vec![11.0, 22.0, 33.0, 44.0, 55.0, 7.0, 8.0, 9.0, 10.0, 11.0]);
}

#[test]
fn subtract_with_seven_columns() {
    let a = Matrix::from(vec![vec![10.0, 20.0, 30.0, 40.0, 50.0, 60.0, 70.0]]).unwrap();
    let b = Matrix::from(vec![vec![1.0, 2.0, 3.0, 4.0, 5.0, 6.0, 7.0]]).unwrap();
    let result = a.subtract(&b).unwrap();
    assert_eq!(result.data(), &vec![9.0, 18.0, 27.0, 36.0, 45.0, 54.0, 63.0]);
}

#[test]
fn dot_multiply_with_six_columns() {
    let a = Matrix::from(vec![vec![1.0, 2.0, 3.0, 4.0, 5.0, 6.0]]).unwrap();
    let b = Matrix::from(vec![vec![2.0, 2.0, 2.0, 3.0, 3.0, 3.0]]).unwrap();
    let result = a.dot_multiply(&b).unwrap();
    assert_eq!(result.data(), &vec![2.0, 4.0, 6.0, 12.0, 15.0, 18.0]);
}

#[test]
fn elementwise_leaves_operands_unchanged() {
    let a = counting(2, 5, 1.0);
    let b = counting(2, 5, 50.0);
    let before_a = a.clone();
    let before_b = b.clone();
    let _ = a.add(&b).unwrap();
    let _ = a.subtract(&b).unwrap();
    let _ = a.dot_multiply(&b).unwrap();
    let _ = a.multiply(&b.transpose()).unwrap();
    assert_eq!(a, before_a);
    assert_eq!(b, before_b);
}

#[test]
fn fuse_multiplies_then_adds() {
    assert_eq!(fuse(10.0, 3.0, 4.0), 22.0);
}

#[test]
fn window_accumulates_lane_by_lane() {
    let left = vec![0.0, 1.0, 2.0, 3.0, 4.0];
    let right = vec![10.0, 20.0, 30.0, 40.0, 50.0];
    let v = Lanes { first: 1.0, second: 2.0, third: 3.0, fourth: 4.0 };
    let r = accumulate_window(v, &left, 1, &right, 0);
    assert_eq!((r.first, r.second, r.third, r.fourth), (11.0, 42.0, 93.0, 164.0));
}

#[test]
fn reduce_adds_every_lane_once() {
    let v = Lanes { first: 1.0, second: 10.0, third: 100.0, fourth: 1000.0 };
    assert_eq!(reduce(v), 1111.0);
}

#[test]
fn dot_of_windows_for_every_length() {
    let left: Vec<f64> = (0..20).map(|k| k as f64).collect();
    let right: Vec<f64> = (0..20).map(|k| (2 * k + 1) as f64).collect();
    for len in 0..=12 {
        let mut expected = 0.0;
        for k in 0..len {
            expected += left[3 + k] * right[5 + k];
        }
        assert_eq!(dot(&left, 3, &right, 5, len), expected);
    }
}

#[test]
fn dot_of_nothing_is_zero() {
    let left = vec![1.0, 2.0];
    let right = vec![3.0, 4.0];
    assert_eq!(dot(&left, 1, &right, 2, 0), 0.0);
}

#[test]
fn multiply_matches_scalar_loop_for_every_inner_dimension() {
    for inner in 0..14 {
        let a = counting(3, inner, 1.0);
        let b = counting(inner, 2, 1.0);
        let result = a.multiply(&b).unwrap();
        assert_eq!((result.rows(), result.cols()), (3, 2));
        assert_eq!(result.data(), &naive_product(&a, &b));
    }
}

#[test]
fn multiply_with_inner_dimension_five() {
    let a = Matrix::from(vec![vec![1.0, 2.0, 3.0, 4.0, 5.0]]).unwrap();
    let b = Matrix::from(vec![vec![1.0], vec![10.0], vec![100.0], vec![1000.0], vec![10000.0]])
        .unwrap();
    let result = a.multiply(&b).unwrap();
    assert_eq!(result.data(), &vec![54321.0]);
}

#[test]
fn multiply_with_inner_dimension_eight() {
    let a = Matrix::from(vec![vec![1.0, 1.0, 1.0, 1.0, 1.0, 1.0, 1.0, 1.0]]).unwrap();
    let b = Matrix::from(vec![
        vec![1.0], vec![2.0], vec![4.0], vec![8.0], vec![16.0], vec![32.0], vec![64.0], vec![128.0],
    ])
    .unwrap();
    assert_eq!(a.multiply(&b).unwrap().data(), &vec![255.0]);
}

#[test]
fn multiply_with_empty_inner_dimension_is_zero() {
    let a = Matrix::<f64>::zeros(2, 0);
    let b = Matrix::<f64>::zeros(0, 3);
    let result = a.multiply(&b).unwrap();
    assert_eq!((result.rows(), result.cols()), (2, 3));
    assert_eq!(result.data(), &vec![0.0; 6]);
}

#[test]
fn multiply_by_identity_changes_nothing() {
    let a = counting(4, 4, 1.0);
    let mut identity = Matrix::<f64>::zeros(4, 4);
    for k in 0..4 {
        identity.set(k, k, 1.0).unwrap();
    }
    assert_eq!(a.multiply(&identity).unwrap(), a);
    assert_eq!(identity.multiply(&a).unwrap(), a);
}

#[test]
fn multiply_works_on_integers() {
    let a = Matrix::<i64>::from(vec![vec![1, 2, 3, 4, 5, 6], vec![-1, -2, -3, -4, -5, -6]])
        .unwrap();
    let b = Matrix::<i64>::from(vec![vec![1], vec![1], vec![1], vec![1], vec![1], vec![2]])
        .unwrap();
    assert_eq!(a.multiply(&b).unwrap().data(), &vec![27, -27]);
    assert_eq!(a.add(&a).unwrap().get(1, 5), Ok(-12));
}

#[test]
fn map_applies_the_function_to_every_entry() {
    let a = Matrix::from(vec![vec![1.0, 2.0, 3.0], vec![4.0, 5.0, 6.0]]).unwrap();
    let doubled = a.map(&|x| x * 2.0);
    assert_eq!((doubled.rows(), doubled.cols()), (2, 3));
    assert_eq!(doubled.data(), &vec![2.0, 4.0, 6.0, 8.0, 10.0, 12.0]);
    assert_eq!(a.data(), &vec![1.0, 2.0, 3.0, 4.0, 5.0, 6.0]);
}

#[test]
fn map_visits_every_entry_exactly_once() {
    let a = counting(3, 5, 0.0);
    let calls = Cell::new(0usize);
    let seen = Cell::new(0.0);
    let mapped = a.map(&|x| {
        calls.set(calls.get() + 1);
        seen.set(seen.get() + x);
        x
    });
    assert_eq!(calls.get(), 15);
    assert_eq!(seen.get(), 105.0);
    assert_eq!(mapped, a);
}

#[test]
fn map_with_a_sigmoid() {
    let a = Matrix::from(vec![vec![0.0]]).unwrap();
    let mapped = a.map(&|x: f64| 1.0 / (1.0 + (-x).exp()));
    assert_eq!(mapped.data(), &vec![0.5]);
}

#[test]
fn random_fills_in_row_major_order() {
    let m = counting(2, 3, 1.0);
    assert_eq!((m.rows(), m.cols()), (2, 3));
    assert_eq!(m.data(), &vec![1.0, 2.0, 3.0, 4.0, 5.0, 6.0]);
    assert_eq!(m.get(1, 0), Ok(4.0));
}

#[test]
fn random_draws_once_for_every_entry() {
    let calls = Cell::new(0usize);
    let m = Matrix::random(4, 5, &|| {
        calls.set(calls.get() + 1);
        0.25
    });
    assert_eq!(calls.get(), 20);
    assert_eq!(m.data(), &vec![0.25; 20]);
}

#[test]
fn random_from_uniform_samples_stays_in_range() {
    let m = Matrix::random(8, 9, &|| rand::thread_rng().gen::<f64>() * 2.0 - 1.0);
    assert_eq!((m.rows(), m.cols()), (8, 9));
    assert_eq!(m.data().len(), 72);
    for value in m.data() {
        assert!(-1.0 <= *value && *value < 1.0);
    }
}

#[test]
fn random_with_a_zero_dimension_draws_nothing() {
    let calls = Cell::new(0usize);
    let m = Matrix::random(0, 5, &|| {
        calls.set(calls.get() + 1);
        1.0
    });
    assert_eq!(calls.get(), 0);
    assert_eq!((m.rows(), m.cols()), (0, 5));
}

#[test]
fn kernel_runs_each_operation() {
    let a = counting(2, 6, 1.0);
    let b = counting(2, 6, 2.0);
    assert_eq!(a.elementwise(&b, Operation::Add).unwrap(), a.add(&b).unwrap());
    assert_eq!(a.elementwise(&b, Operation::Subtract).unwrap(), a.subtract(&b).unwrap());
    assert_eq!(a.elementwise(&b, Operation::Multiply).unwrap(), a.dot_multiply(&b).unwrap());
    assert_eq!(
        a.elementwise(&Matrix::zeros(6, 2), Operation::Add).err(),
        Some(MatrixError::DimensionMismatch)
    );
}
