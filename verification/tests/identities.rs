use dense_matrix::matrix::Matrix;

fn sample(rows: usize, cols: usize, seed: i64) -> Matrix<f64> {
    let mut data = Vec::new();
    for i in 0..rows {
        let mut row = Vec::new();
        for j in 0..cols {
            let k = (i * cols + j) as i64;
            row.push(((k * 7 + seed * 3) % 11 - 5) as f64);
        }
        data.push(row);
    }
    Matrix::from(data).unwrap()
}

#[test]
fn add_commutes() {
    let a = sample(3, 7, 1);
    let b = sample(3, 7, 2);
    assert_eq!(a.add(&b).unwrap(), b.add(&a).unwrap());
}

#[test]
fn subtract_undoes_add() {
    let a = sample(4, 5, 3);
    let b = sample(4, 5, 4);
    let back = a.add(&b).unwrap().subtract(&b).unwrap();
    assert_eq!(back.data(), a.data());
}

#[test]
fn dot_multiply_commutes() {
    let a = sample(2, 9, 5);
    let b = sample(2, 9, 6);
    assert_eq!(a.dot_multiply(&b).unwrap(), b.dot_multiply(&a).unwrap());
}

#[test]
fn transpose_twice_is_identity() {
    for (rows, cols) in [(0, 0), (1, 1), (1, 6), (6, 1), (3, 5), (5, 3), (4, 4)] {
        let a = sample(rows, cols, 7);
        assert_eq!(a.transpose().transpose(), a);
    }
}

#[test]
fn transpose_exchanges_positions() {
    let a = sample(3, 5, 8);
    let t = a.transpose();
    for i in 0..3 {
        for j in 0..5 {
            assert_eq!(t.get(j, i), a.get(i, j));
        }
    }
}

#[test]
fn multiply_associates() {
    let a = sample(2, 5, 9);
    let b = sample(5, 6, 10);
    let c = sample(6, 3, 11);
    let left = a.multiply(&b).unwrap().multiply(&c).unwrap();
    let right = a.multiply(&b.multiply(&c).unwrap()).unwrap();
    assert_eq!((left.rows(), left.cols()), (2, 3));
    assert_eq!(left, right);
}

#[test]
fn multiply_associates_within_tolerance() {
    let a = sample(3, 4, 1).map(&|x| x / 3.0);
    let b = sample(4, 5, 2).map(&|x| x / 7.0);
    let c = sample(5, 2, 3).map(&|x| x / 9.0);
    let left = a.multiply(&b).unwrap().multiply(&c).unwrap();
    let right = a.multiply(&b.multiply(&c).unwrap()).unwrap();
    for k in 0..left.data().len() {
        assert!((left.data()[k] - right.data()[k]).abs() < 1e-12);
    }
}

#[test]
fn product_of_transposes_is_transpose_of_reversed_product() {
    let a = sample(3, 6, 4);
    let b = sample(6, 2, 5);
    let left = a.multiply(&b).unwrap().transpose();
    let right = b.transpose().multiply(&a.transpose()).unwrap();
    assert_eq!(left, right);
}
