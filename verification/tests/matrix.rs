use raytracer_challenge::matrix::Matrix;

fn assert_same(expected: &Matrix<f64>, actual: &Matrix<f64>) {
    assert_eq!(expected.dimensions, actual.dimensions);
    for r in 0..expected.dimensions {
        for c in 0..expected.dimensions {
            assert_eq!(expected.at(r, c), actual.at(r, c));
        }
    }
}

#[test]
fn constructing_and_inspecting_a_4x4_matrix() {
    let v = vec![
        1.0, 2.0, 3.0, 4.0, 5.5, 6.5, 7.5, 8.5, 9.0, 10.0, 11.0, 12.0, 13.5, 14.5, 15.5, 16.5,
    ];
    let m = Matrix::from_vector(4, &v);
    assert_eq!(m.at(0, 0), 1.0);
    assert_eq!(m.at(0, 3), 4.0);
    assert_eq!(m.at(1, 0), 5.5);
    assert_eq!(m.at(1, 2), 7.5);
    assert_eq!(m.at(2, 2), 11.0);
    assert_eq!(m.at(3, 0), 13.5);
    assert_eq!(m.at(3, 2), 15.5);
}

#[test]
fn constructing_and_inspecting_a_2x2_matrix() {
    let v = vec![-3.0, 5.0, 1.0, -2.0];
    let m = Matrix::from_vector(2, &v);
    assert_eq!(m.at(0, 0), -3.0);
    assert_eq!(m.at(0, 1), 5.0);
    assert_eq!(m.at(1, 0), 1.0);
    assert_eq!(m.at(1, 1), -2.0);
}

#[test]
fn constructing_and_inspecting_a_3x3_matrix() {
    let v = vec![-3.0, 5.0, 0.0, 1.0, -2.0, -7.0, 0.0, 1.0, 1.0];
    let m = Matrix::from_vector(3, &v);
    assert_eq!(m.at(0, 0), -3.0);
    assert_eq!(m.at(1, 1), -2.0);
    assert_eq!(m.at(2, 2), 1.0);
}

#[test]
fn transposing_a_matrix() {
    let v1 = vec![
        0.0, 9.0, 3.0, 0.0, 9.0, 8.0, 0.0, 8.0, 1.0, 8.0, 5.0, 3.0, 0.0, 0.0, 5.0, 8.0,
    ];
    let a = Matrix::from_vector(4, &v1);
    let v2 = vec![
        0.0, 9.0, 1.0, 0.0, 9.0, 8.0, 8.0, 0.0, 3.0, 0.0, 5.0, 5.0, 0.0, 8.0, 3.0, 8.0,
    ];
    let expected = Matrix::from_vector(4, &v2);
    let actual = a.transpose();

    assert_same(&expected, &actual);
}

#[test]
fn transposing_the_identity_matrix() {
    let actual = Matrix::identity(0.0, 1.0).transpose();
    assert_same(&Matrix::identity(0.0, 1.0), &actual);
}

#[test]
fn a_submatrix_of_a_3x3_matrix_is_a_2x2_matrix() {
    let va = vec![1.0, 5.0, 0.0, -3.0, 2.0, 7.0, 0.0, 6.0, -3.0];
    let a = Matrix::from_vector(3, &va);
    let vasub = vec![-3.0, 2.0, 0.0, 6.0];
    let expected = Matrix::from_vector(2, &vasub);
    assert_same(&expected, &a.submatrix(0, 2));
}

#[test]
fn a_submatrix_of_4x4_matrix_is_3x3_matrix() {
    let va = vec![
        -6.0, 1.0, 1.0, 6.0, -8.0, 5.0, 8.0, 6.0, -1.0, 0.0, 8.0, 2.0, -7.0, 1.0, -1.0, 1.0,
    ];
    let a = Matrix::from_vector(4, &va);

    let vasub = vec![-6.0, 1.0, 6.0, -8.0, 8.0, 6.0, -7.0, -1.0, 1.0];
    let expected = Matrix::from_vector(3, &vasub);

    assert_same(&expected, &a.submatrix(2, 1));
}

#[test]
fn the_identity_matrix_has_ones_on_its_diagonal() {
    let m = Matrix::identity(0.0, 1.0);
    assert_eq!(4, m.dimensions);
    assert_eq!(
        vec![1.0, 0.0, 0.0, 0.0, 0.0, 1.0, 0.0, 0.0, 0.0, 0.0, 1.0, 0.0, 0.0, 0.0, 0.0, 1.0],
        m.elements
    );
    let m = Matrix::identity('.', '#');
    assert_eq!("#....#....#....#", m.elements.iter().collect::<String>());
}

#[test]
fn a_matrix_is_stored_row_by_row() {
    let v: Vec<u32> = (0..16).collect();
    let m = Matrix::from_vector(4, &v);
    assert_eq!(4, m.dimensions);
    assert_eq!(v, m.elements);
    for r in 0..4 {
        for c in 0..4 {
            assert_eq!((4 * r + c) as u32, m.at(r, c));
        }
    }
}

#[test]
fn updating_a_cell_leaves_the_matrix_as_it_was() {
    let v: Vec<u32> = (0..9).collect();
    let m = Matrix::from_vector(3, &v);
    let n = m.update_at(1, 2, 77);
    assert_eq!(v, m.elements);
    assert_eq!(3, n.dimensions);
    assert_eq!(vec![0, 1, 2, 3, 4, 77, 6, 7, 8], n.elements);
    assert_eq!(vec![70, 1, 2, 3, 4, 77, 6, 7, 8], n.update_at(0, 0, 70).elements);
    assert_eq!(vec![0, 1, 2, 3, 4, 77, 6, 7, 80], n.update_at(2, 2, 80).elements);
}

#[test]
fn transposing_swaps_rows_and_columns() {
    let m = Matrix::from_vector(3, &[1, 2, 3, 4, 5, 6, 7, 8, 9]);
    assert_eq!(vec![1, 4, 7, 2, 5, 8, 3, 6, 9], m.transpose().elements);
    assert_eq!(m.elements, m.transpose().transpose().elements);
    let m = Matrix::from_vector(2, &['a', 'b', 'c', 'd']);
    assert_eq!(vec!['a', 'c', 'b', 'd'], m.transpose().elements);
    let m = Matrix::from_vector(1, &[5]);
    assert_eq!(vec![5], m.transpose().elements);
    let m: Matrix<u8> = Matrix::from_vector(0, &[]);
    assert_eq!(0, m.transpose().dimensions);
    assert!(m.transpose().elements.is_empty());
}

#[test]
fn a_submatrix_lacks_one_row_and_one_column() {
    let m = Matrix::from_vector(3, &[1, 2, 3, 4, 5, 6, 7, 8, 9]);
    assert_eq!(vec![5, 6, 8, 9], m.submatrix(0, 0).elements);
    assert_eq!(vec![1, 3, 7, 9], m.submatrix(1, 1).elements);
    assert_eq!(vec![1, 2, 4, 5], m.submatrix(2, 2).elements);
    assert_eq!(vec![2, 3, 5, 6], m.submatrix(2, 0).elements);
    assert_eq!(vec![4, 5, 7, 8], m.submatrix(0, 2).elements);
    assert_eq!(2, m.submatrix(1, 2).dimensions);
    let m = Matrix::from_vector(1, &[5]);
    assert_eq!(0, m.submatrix(0, 0).dimensions);
    assert!(m.submatrix(0, 0).elements.is_empty());
}
