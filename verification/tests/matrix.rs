use nn_from_scratch::matrix::Matrix;

#[test]
fn transpose_is_its_own_inverse() {
    let a = Matrix::from_rows(&[vec![1.0, 2.0, 3.0], vec![4.0, 5.0, 6.0]]);
    assert_eq!(a.transpose().transpose(), a);
    assert_eq!(a.transpose().rows, 3);
    assert_eq!(a.transpose().cols, 2);
}

#[test]
fn select_rows_gathers_a_minibatch() {
    let a = Matrix::from_rows(&[
        vec![1.0, 1.0],
        vec![2.0, 2.0],
        vec![3.0, 3.0],
        vec![4.0, 4.0],
    ]);
    let batch = a.select_rows(&[2, 0]);
    assert_eq!(batch.rows, 2);
    assert_eq!(batch.row(0), &[3.0, 3.0]);
    assert_eq!(batch.row(1), &[1.0, 1.0]);
}

#[test]
fn from_rows_lays_rows_out_one_after_another() {
    let a = Matrix::from_rows(&[vec![1u32, 2, 3], vec![4, 5, 6]]);
    assert_eq!(a.rows, 2);
    assert_eq!(a.cols, 3);
    assert_eq!(a.data, vec![1, 2, 3, 4, 5, 6]);
}

#[test]
fn transpose_moves_each_element_to_the_mirrored_place() {
    let a = Matrix::from_rows(&[vec![1.0, 2.0, 3.0], vec![4.0, 5.0, 6.0]]);
    let t = a.transpose();
    assert_eq!(t.data, vec![1.0, 4.0, 2.0, 5.0, 3.0, 6.0]);
    assert_eq!(t.get(2, 1), 6.0);
    assert_eq!(t.get(0, 1), 4.0);
}

#[test]
fn transpose_of_a_row_vector_is_a_column() {
    let v = Matrix::row_vector(&[7i64, 8, 9]);
    let t = v.transpose();
    assert_eq!((t.rows, t.cols), (3, 1));
    assert_eq!(t.data, vec![7, 8, 9]);
}

#[test]
fn get_and_set_address_row_major_positions() {
    let mut m = Matrix::filled(2, 3, 0.0);
    assert_eq!(m.data.len(), 6);
    m.set(1, 2, 5.0);
    m.set(0, 1, -1.0);
    assert_eq!(m.data, vec![0.0, -1.0, 0.0, 0.0, 0.0, 5.0]);
    assert_eq!(m.get(1, 2), 5.0);
    assert_eq!(m.get(1, 1), 0.0);
}

#[test]
fn row_mut_writes_into_the_matrix() {
    let mut m = Matrix::from_vec(3, 2, vec![1, 2, 3, 4, 5, 6]);
    m.row_mut(1).copy_from_slice(&[30, 40]);
    assert_eq!(m.data, vec![1, 2, 30, 40, 5, 6]);
    assert_eq!(m.row(2), &[5, 6]);
}

#[test]
fn select_rows_may_repeat_and_may_select_nothing() {
    let a = Matrix::from_vec(2, 2, vec![1, 2, 3, 4]);
    let twice = a.select_rows(&[1, 1, 0]);
    assert_eq!(twice.data, vec![3, 4, 3, 4, 1, 2]);
    let none = a.select_rows(&[]);
    assert_eq!((none.rows, none.cols), (0, 2));
    assert!(none.data.is_empty());
}

#[test]
fn empty_matrices_transpose_to_empty_matrices() {
    let m: Matrix<u8> = Matrix::filled(0, 4, 0);
    let t = m.transpose();
    assert_eq!((t.rows, t.cols), (4, 0));
    assert!(t.data.is_empty());
}
