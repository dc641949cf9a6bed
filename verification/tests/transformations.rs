use raytracer_challenge::matrix::Matrix;
use raytracer_challenge::transformations;

type Tuple = [f64; 4];

fn point(x: f64, y: f64, z: f64) -> Tuple {
    [x, y, z, 1.0]
}

fn vector(x: f64, y: f64, z: f64) -> Tuple {
    [x, y, z, 0.0]
}

fn assert_close(expected: Tuple, actual: Tuple) {
    for i in 0..4 {
        assert!(
            (expected[i] - actual[i]).abs() < 1e-6,
            "expected {:?}, found {:?}",
            expected,
            actual
        );
    }
}

fn translation(x: f64, y: f64, z: f64) -> Matrix<f64> {
    transformations::translation(x, y, z, 0.0, 1.0)
}

fn scaling(x: f64, y: f64, z: f64) -> Matrix<f64> {
    transformations::scaling(x, y, z, 0.0, 1.0)
}

fn rotation_x(r: f64) -> Matrix<f64> {
    transformations::rotation_x(r.cos(), r.sin(), -r.sin(), 0.0, 1.0)
}

fn rotation_y(r: f64) -> Matrix<f64> {
    transformations::rotation_y(r.cos(), r.sin(), -r.sin(), 0.0, 1.0)
}

fn rotation_z(r: f64) -> Matrix<f64> {
    transformations::rotation_z(r.cos(), r.sin(), -r.sin(), 0.0, 1.0)
}

fn shearing(xy: f64, xz: f64, yx: f64, yz: f64, zx: f64, zy: f64) -> Matrix<f64> {
    transformations::shearing(xy, xz, yx, yz, zx, zy, 0.0, 1.0)
}

/// The product of a matrix of dimension 4 and a tuple.
fn apply(m: &Matrix<f64>, p: Tuple) -> Tuple {
    let mut out = [0.0; 4];
    for row in 0..4 {
        out[row] = m.at(row, 0) * p[0] + m.at(row, 1) * p[1] + m.at(row, 2) * p[2] + m.at(row, 3) * p[3];
    }
    out
}

/// The product of two matrices.
fn product(a: &Matrix<f64>, b: &Matrix<f64>) -> Matrix<f64> {
    let d = a.dimensions;
    let mut cells = Vec::new();
    for row in 0..d {
        for col in 0..d {
            cells.push((0..d).map(|n| a.at(row, n) * b.at(n, col)).sum());
        }
    }
    Matrix::from_vector(d, &cells)
}

fn determinant(m: &Matrix<f64>) -> f64 {
    if m.dimensions == 2 {
        m.at(0, 0) * m.at(1, 1) - m.at(0, 1) * m.at(1, 0)
    } else {
        (0..m.dimensions).map(|col| m.at(0, col) * cofactor(m, 0, col)).sum()
    }
}

fn cofactor(m: &Matrix<f64>, row: usize, col: usize) -> f64 {
    let minor = determinant(&m.submatrix(row, col));
    if (row + col) % 2 == 0 {
        minor
    } else {
        -minor
    }
}

fn inverse(m: &Matrix<f64>) -> Matrix<f64> {
    let d = m.dimensions;
    let det = determinant(m);
    assert!(det != 0.0);
    let mut cells = Vec::new();
    for row in 0..d {
        for col in 0..d {
            cells.push(cofactor(m, col, row) / det);
        }
    }
    Matrix::from_vector(d, &cells)
}

#[test]
fn multiplying_by_a_translation_matrix() {
    let transform = translation(5.0, -3.0, 2.0);
    let p = point(-3.0, 4.0, 5.0);
    let expected = point(2.0, 1.0, 7.0);
    assert_close(expected, apply(&transform, p));
}

#[test]
fn multiplying_by_the_inverse_of_a_translation() {
    let transform = translation(5.0, -3.0, 2.0);
    let inv = inverse(&transform);
    let p = point(-3.0, 4.0, 5.0);
    let expected = point(-8.0, 7.0, 3.0);
    assert_close(expected, apply(&inv, p));
}

#[test]
fn translation_does_not_affect_vectors() {
    let transform = translation(5.0, -3.0, 2.0);
    let v = vector(-3.0, 4.0, 5.0);
    let expected = v;
    assert_close(expected, apply(&transform, v));
}

#[test]
fn a_scaling_matrix_applied_to_a_point() {
    let transform = scaling(2.0, 3.0, 4.0);
    let p = point(-4.0, 6.0, 8.0);
    let expected = point(-8.0, 18.0, 32.0);
    assert_close(expected, apply(&transform, p));
}

#[test]
fn a_scaling_matrix_applied_to_a_vector() {
    let transform = scaling(2.0, 3.0, 4.0);
    let v = vector(-4.0, 6.0, 8.0);
    let expected = vector(-8.0, 18.0, 32.0);
    assert_close(expected, apply(&transform, v));
}

#[test]
fn multiplying_by_the_inverse_of_a_scaling() {
    let transform = scaling(2.0, 3.0, 4.0);
    let inv = inverse(&transform);
    let v = vector(-4.0, 6.0, 8.0);
    let expected = vector(-2.0, 2.0, 2.0);
    assert_close(expected, apply(&inv, v));
}

#[test]
fn reflection_is_scaling_by_a_negative_value() {
    let transform = scaling(-1.0, 1.0, 1.0);
    let p = point(2.0, 3.0, 4.0);
    let expected = point(-2.0, 3.0, 4.0);
    assert_close(expected, apply(&transform, p));
}

#[test]
fn rotating_a_point_around_the_x_axis() {
    let p = point(0.0, 1.0, 0.0);
    let half_quarter = rotation_x(std::f64::consts::PI / 4.0);
    let full_quarter = rotation_x(std::f64::consts::PI / 2.0);
    let expected_half_quarter = point(0.0, 2.0_f64.sqrt() / 2.0, 2.0_f64.sqrt() / 2.0);
    let expected_full_quarter = point(0.0, 0.0, 1.0);
    assert_close(expected_half_quarter, apply(&half_quarter, p));
    assert_close(expected_full_quarter, apply(&full_quarter, p));
}

#[test]
fn the_inverse_of_an_x_rotation_rotates_in_the_opposite_direction() {
    let p = point(0.0, 1.0, 0.0);
    let half_quarter_inv = inverse(&rotation_x(std::f64::consts::PI / 4.0));
    let expected_half_quarter = point(0.0, 2.0_f64.sqrt() / 2.0, -(2.0_f64.sqrt()) / 2.0);
    assert_close(expected_half_quarter, apply(&half_quarter_inv, p));
}

#[test]
fn rotating_a_point_around_the_y_axis() {
    let p = point(0.0, 0.0, 1.0);
    let half_quarter = rotation_y(std::f64::consts::PI / 4.0);
    let full_quarter = rotation_y(std::f64::consts::PI / 2.0);
    let expected_half_quarter = point(2.0_f64.sqrt() / 2.0, 0.0, 2.0_f64.sqrt() / 2.0);
    let expected_full_quarter = point(1.0, 0.0, 0.0);
    assert_close(expected_half_quarter, apply(&half_quarter, p));
    assert_close(expected_full_quarter, apply(&full_quarter, p));
}

#[test]
fn rotating_a_point_around_the_z_axis() {
    let p = point(0.0, 1.0, 0.0);
    let half_quarter = rotation_z(std::f64::consts::PI / 4.0);
    let full_quarter = rotation_z(std::f64::consts::PI / 2.0);
    let expected_half_quarter = point(-(2.0_f64.sqrt()) / 2.0, 2.0_f64.sqrt() / 2.0, 0.0);
    let expected_full_quarter = point(-1.0, 0.0, 0.0);
    assert_close(expected_half_quarter, apply(&half_quarter, p));
    assert_close(expected_full_quarter, apply(&full_quarter, p));
}

#[test]
fn a_shearing_transformation_moves_x_in_propoption_to_y() {
    let transform = shearing(1.0, 0.0, 0.0, 0.0, 0.0, 0.0);
    let p = point(2.0, 3.0, 4.0);
    let expected = point(5.0, 3.0, 4.0);
    assert_close(expected, apply(&transform, p));
}

#[test]
fn a_shearing_transformation_moves_x_in_propoption_to_z() {
    let transform = shearing(0.0, 1.0, 0.0, 0.0, 0.0, 0.0);
    let p = point(2.0, 3.0, 4.0);
    let expected = point(6.0, 3.0, 4.0);
    assert_close(expected, apply(&transform, p));
}

#[test]
fn a_shearing_transformation_moves_y_in_propoption_to_x() {
    let transform = shearing(0.0, 0.0, 1.0, 0.0, 0.0, 0.0);
    let p = point(2.0, 3.0, 4.0);
    let expected = point(2.0, 5.0, 4.0);
    assert_close(expected, apply(&transform, p));
}

#[test]
fn a_shearing_transformation_moves_y_in_propoption_to_z() {
    let transform = shearing(0.0, 0.0, 0.0, 1.0, 0.0, 0.0);
    let p = point(2.0, 3.0, 4.0);
    let expected = point(2.0, 7.0, 4.0);
    assert_close(expected, apply(&transform, p));
}

#[test]
fn a_shearing_transformation_moves_z_in_propoption_to_x() {
    let transform = shearing(0.0, 0.0, 0.0, 0.0, 1.0, 0.0);
    let p = point(2.0, 3.0, 4.0);
    let expected = point(2.0, 3.0, 6.0);
    assert_close(expected, apply(&transform, p));
}

#[test]
fn a_shearing_transformation_moves_z_in_propoption_to_y() {
    let transform = shearing(0.0, 0.0, 0.0, 0.0, 0.0, 1.0);
    let p = point(2.0, 3.0, 4.0);
    let expected = point(2.0, 3.0, 7.0);
    assert_close(expected, apply(&transform, p));
}

#[test]
fn individual_transformations_are_applied_in_sequence() {
    let p = point(1.0, 0.0, 1.0);
    let a = rotation_x(std::f64::consts::PI / 2.0);
    let b = scaling(5.0, 5.0, 5.0);
    let c = translation(10.0, 5.0, 7.0);
    let p2 = apply(&a, p);
    let p2exp = point(1.0, -1.0, 0.0);
    assert_close(p2exp, p2);

    let p3 = apply(&b, p2);
    let p3exp = point(5.0, -5.0, 0.0);
    assert_close(p3exp, p3);
    let p4 = apply(&c, p3);
    let p4exp = point(15.0, 0.0, 7.0);
    assert_close(p4exp, p4);
}

#[test]
fn chained_transformations_must_be_applied_in_reverse_order() {
    let p = point(1.0, 0.0, 1.0);
    let a = rotation_x(std::f64::consts::PI / 2.0);
    let b = scaling(5.0, 5.0, 5.0);
    let c = translation(10.0, 5.0, 7.0);
    let t = product(&product(&c, &a), &b);
    let texp = point(15.0, 0.0, 7.0);
    assert_close(texp, apply(&t, p));
}

#[test]
fn a_translation_holds_the_distances_in_its_last_column() {
    let m = transformations::translation('x', 'y', 'z', '0', '1');
    assert_eq!(4, m.dimensions);
    assert_eq!("100x010y001z0001", m.elements.iter().collect::<String>());
}

#[test]
fn a_scaling_holds_the_factors_on_its_diagonal() {
    let m = transformations::scaling('x', 'y', 'z', '0', '1');
    assert_eq!("x0000y0000z00001", m.elements.iter().collect::<String>());
}

#[test]
fn a_rotation_holds_cosine_and_sine_in_the_cells_of_the_two_other_axes() {
    let m = transformations::rotation_x('c', 's', 'n', '0', '1');
    assert_eq!("10000cn00sc00001", m.elements.iter().collect::<String>());
    let m = transformations::rotation_y('c', 's', 'n', '0', '1');
    assert_eq!("c0s00100n0c00001", m.elements.iter().collect::<String>());
    let m = transformations::rotation_z('c', 's', 'n', '0', '1');
    assert_eq!("cn00sc0000100001", m.elements.iter().collect::<String>());
}

#[test]
fn a_shearing_holds_the_six_shares_off_the_diagonal() {
    let m = transformations::shearing('a', 'b', 'c', 'd', 'e', 'f', '0', '1');
    assert_eq!("1ab0c1d0ef100001", m.elements.iter().collect::<String>());
}

#[test]
fn a_transformation_times_its_inverse_is_the_identity() {
    let quarter = std::f64::consts::PI / 4.0;
    let transforms = vec![
        translation(5.0, -3.0, 2.0),
        scaling(2.0, 3.0, 4.0),
        rotation_x(quarter),
        rotation_y(quarter / 3.0),
        rotation_z(-quarter),
        shearing(1.0, 0.5, 0.0, 0.25, -1.0, 0.0),
        product(
            &product(&translation(10.0, 5.0, 7.0), &rotation_x(2.0 * quarter)),
            &scaling(5.0, 5.0, 5.0),
        ),
    ];
    let identity = Matrix::identity(0.0, 1.0);
    for m in transforms {
        let both = product(&m, &inverse(&m));
        assert_eq!(4, both.dimensions);
        for r in 0..4 {
            for c in 0..4 {
                assert!((both.at(r, c) - identity.at(r, c)).abs() < 1e-5);
            }
        }
    }
}

#[test]
fn cofactors_taken_from_submatrices_give_the_determinant() {
    let a = Matrix::from_vector(3, &[1.0, 2.0, 6.0, -5.0, 8.0, -4.0, 2.0, 6.0, 4.0]);
    assert_eq!(56.0, cofactor(&a, 0, 0));
    assert_eq!(12.0, cofactor(&a, 0, 1));
    assert_eq!(-46.0, cofactor(&a, 0, 2));
    assert_eq!(-196.0, determinant(&a));
    let a = Matrix::from_vector(
        4,
        &[
            -2.0, -8.0, 3.0, 5.0, -3.0, 1.0, 7.0, 3.0, 1.0, 2.0, -9.0, 6.0, -6.0, 7.0, 7.0, -9.0,
        ],
    );
    assert_eq!(690.0, cofactor(&a, 0, 0));
    assert_eq!(447.0, cofactor(&a, 0, 1));
    assert_eq!(210.0, cofactor(&a, 0, 2));
    assert_eq!(51.0, cofactor(&a, 0, 3));
    assert_eq!(-4071.0, determinant(&a));
}
