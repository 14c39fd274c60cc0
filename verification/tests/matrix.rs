use ray_tracer_challenge::matrix::{cofactor_negates, Matrix2, Matrix3, Matrix4};

fn identity() -> Matrix4<f32> {
    Matrix4::from_rows([
        [1.0, 0.0, 0.0, 0.0],
        [0.0, 1.0, 0.0, 0.0],
        [0.0, 0.0, 1.0, 0.0],
        [0.0, 0.0, 0.0, 1.0],
    ])
}

#[test]
fn matrices_test_constructing_and_inspecting_a_4x4_matrix() {
    let m = Matrix4::from_rows([
        [1.0, 2.0, 3.0, 4.0],
        [5.5, 6.5, 7.5, 8.5],
        [9.0, 10.0, 11.0, 12.0],
        [13.5, 14.5, 15.5, 16.5],
    ]);
    assert_eq!(m.rows[0][0], 1.0);
    assert_eq!(m.rows[0][3], 4.0);
    assert_eq!(m.rows[1][0], 5.5);
    assert_eq!(m.rows[1][2], 7.5);
    assert_eq!(m.rows[2][2], 11.0);
    assert_eq!(m.rows[3][0], 13.5);
    assert_eq!(m.rows[3][2], 15.5);
}

#[test]
fn matrices_test_a_2x2_matrix_ought_to_be_representable() {
    let m = Matrix2::from_rows([[-3.0, 5.0], [1.0, -2.0]]);
    assert_eq!(m.rows[0][0], -3.0);
    assert_eq!(m.rows[0][1], 5.0);
    assert_eq!(m.rows[1][0], 1.0);
    assert_eq!(m.rows[1][1], -2.0);
}

#[test]
fn matrices_test_a_3x3_matrix_ought_to_be_representable() {
    let m = Matrix3::from_rows([
        [-3.0, 5.0, 0.0],
        [1.0, -2.0, -7.0],
        [0.0, 1.0, 1.0],
    ]);
    assert_eq!(m.rows[0][0], -3.0);
    assert_eq!(m.rows[0][1], 5.0);
    assert_eq!(m.rows[0][2], 0.0);
    assert_eq!(m.rows[1][0], 1.0);
    assert_eq!(m.rows[1][1], -2.0);
    assert_eq!(m.rows[1][2], -7.0);
    assert_eq!(m.rows[2][0], 0.0);
    assert_eq!(m.rows[2][1], 1.0);
    assert_eq!(m.rows[2][2], 1.0);
}

#[test]
fn matrices_test_transposing_a_matrix() {
    let a = Matrix4::from_rows([
        [0.0, 9.0, 3.0, 0.0],
        [9.0, 8.0, 0.0, 8.0],
        [1.0, 8.0, 5.0, 3.0],
        [0.0, 0.0, 5.0, 8.0],
    ]);
    assert_eq!(
        a.transpose(),
        Matrix4::from_rows([
            [0.0, 9.0, 1.0, 0.0],
            [9.0, 8.0, 8.0, 0.0],
            [3.0, 0.0, 5.0, 5.0],
            [0.0, 8.0, 3.0, 8.0],
        ])
    );
}

#[test]
fn matrices_test_transposing_the_identity_matrix() {
    let a = identity().transpose();
    assert_eq!(a, identity());
}

#[test]
fn matrices_test_a_submatrix_of_a_3x3_matrix_is_a_2x2_matrix() {
    let a = Matrix3::from_rows([
        [1.0, 5.0, 0.0],
        [-3.0, 2.0, 7.0],
        [0.0, 6.0, -3.0],
    ]);
    assert_eq!(
        a.submatrix(0, 2),
        Matrix2::from_rows([[-3.0, 2.0,], [0.0, 6.0]])
    )
}

#[test]
fn matrices_test_a_submatrix_of_a_4x4_matrix_is_a_3x3_matrix() {
    let a = Matrix4::from_rows([
        [-6.0, 1.0, 1.0, 6.0],
        [-8.0, 5.0, 8.0, 6.0],
        [-1.0, 0.0, 8.0, 2.0],
        [-7.0, 1.0, -1.0, 1.0],
    ]);
    assert_eq!(
        a.submatrix(2, 1),
        Matrix3::from_rows([
            [-6.0, 1.0, 6.0],
            [-8.0, 8.0, 6.0],
            [-7.0, -1.0, 1.0]
        ]),
    );
}

#[test]
fn matrix_test_constructing_and_inspecting_a_4x4_matrix() {
    let m = Matrix4::from_rows([
        [1.0, 2.0, 3.0, 4.0],
        [5.5, 6.5, 7.5, 8.5],
        [9.0, 10.0, 11.0, 12.0],
        [13.5, 14.5, 15.5, 16.5],
    ]);
    assert_eq!(m.rows[0][0], 1.0);
    assert_eq!(m.rows[0][3], 4.0);
    assert_eq!(m.rows[1][0], 5.5);
    assert_eq!(m.rows[1][2], 7.5);
    assert_eq!(m.rows[2][2], 11.0);
    assert_eq!(m.rows[3][0], 13.5);
    assert_eq!(m.rows[3][2], 15.5);
}

#[test]
fn matrix_test_a_2x2_matrix_ought_to_be_representable() {
    let m = Matrix2::from_rows([[-3.0, 5.0], [1.0, -2.0]]);
    assert_eq!(m.rows[0][0], -3.0);
    assert_eq!(m.rows[0][1], 5.0);
    assert_eq!(m.rows[1][0], 1.0);
    assert_eq!(m.rows[1][1], -2.0);
}

#[test]
fn matrix_test_a_3x3_matrix_ought_to_be_representable() {
    let m = Matrix3::from_rows([
        [-3.0, 5.0, 0.0],
        [1.0, -2.0, -7.0],
        [0.0, 1.0, 1.0],
    ]);
    assert_eq!(m.rows[0][0], -3.0);
    assert_eq!(m.rows[0][1], 5.0);
    assert_eq!(m.rows[0][2], 0.0);
    assert_eq!(m.rows[1][0], 1.0);
    assert_eq!(m.rows[1][1], -2.0);
    assert_eq!(m.rows[1][2], -7.0);
    assert_eq!(m.rows[2][0], 0.0);
    assert_eq!(m.rows[2][1], 1.0);
    assert_eq!(m.rows[2][2], 1.0);
}

#[test]
fn matrix_test_transposing_a_matrix() {
    let a = Matrix4::from_rows([
        [0.0, 9.0, 3.0, 0.0],
        [9.0, 8.0, 0.0, 8.0],
        [1.0, 8.0, 5.0, 3.0],
        [0.0, 0.0, 5.0, 8.0],
    ]);
    assert_eq!(
        a.transpose(),
        Matrix4::from_rows([
            [0.0, 9.0, 1.0, 0.0],
            [9.0, 8.0, 8.0, 0.0],
            [3.0, 0.0, 5.0, 5.0],
            [0.0, 8.0, 3.0, 8.0],
        ])
    );
}

#[test]
fn matrix_test_transposing_the_identity_matrix() {
    let a = identity().transpose();
    assert_eq!(a, identity());
}

#[test]
fn matrix_test_a_submatrix_of_a_3x3_matrix_is_a_2x2_matrix() {
    let a = Matrix3::from_rows([
        [1.0, 5.0, 0.0],
        [-3.0, 2.0, 7.0],
        [0.0, 6.0, -3.0],
    ]);
    assert_eq!(
        a.submatrix(0, 2),
        Matrix2::from_rows([[-3.0, 2.0,], [0.0, 6.0]])
    )
}

#[test]
fn matrix_test_a_submatrix_of_a_4x4_matrix_is_a_3x3_matrix() {
    let a = Matrix4::from_rows([
        [-6.0, 1.0, 1.0, 6.0],
        [-8.0, 5.0, 8.0, 6.0],
        [-1.0, 0.0, 8.0, 2.0],
        [-7.0, 1.0, -1.0, 1.0],
    ]);
    assert_eq!(
        a.submatrix(2, 1),
        Matrix3::from_rows([
            [-6.0, 1.0, 6.0],
            [-8.0, 8.0, 6.0],
            [-7.0, -1.0, 1.0]
        ]),
    );
}

#[test]
fn transposing_twice_gives_the_matrix_back() {
    let a = Matrix4::from_rows([[1, 2, 3, 4], [5, 6, 7, 8], [9, 10, 11, 12], [13, 14, 15, 16]]);
    assert_eq!(a.transpose().transpose(), a);
    assert_eq!(a.transpose().rows[0], [1, 5, 9, 13]);
    assert_eq!(a.transpose().rows[3], [4, 8, 12, 16]);
}

#[test]
fn a_submatrix_keeps_the_order_of_what_is_left() {
    let a = Matrix4::from_rows([[1, 2, 3, 4], [5, 6, 7, 8], [9, 10, 11, 12], [13, 14, 15, 16]]);
    assert_eq!(
        a.submatrix(0, 0),
        Matrix3::from_rows([[6, 7, 8], [10, 11, 12], [14, 15, 16]])
    );
    assert_eq!(
        a.submatrix(3, 3),
        Matrix3::from_rows([[1, 2, 3], [5, 6, 7], [9, 10, 11]])
    );
    assert_eq!(
        a.submatrix(1, 2),
        Matrix3::from_rows([[1, 2, 4], [9, 10, 12], [13, 14, 16]])
    );
    let b = Matrix3::from_rows([[1, 2, 3], [4, 5, 6], [7, 8, 9]]);
    assert_eq!(b.submatrix(0, 0), Matrix2::from_rows([[5, 6], [8, 9]]));
    assert_eq!(b.submatrix(1, 1), Matrix2::from_rows([[1, 3], [7, 9]]));
    assert_eq!(b.submatrix(2, 0), Matrix2::from_rows([[2, 3], [5, 6]]));
}

#[test]
fn a_submatrix_of_a_submatrix_drops_two_rows_and_two_columns() {
    let a = Matrix4::from_rows([[1, 2, 3, 4], [5, 6, 7, 8], [9, 10, 11, 12], [13, 14, 15, 16]]);
    assert_eq!(
        a.submatrix(0, 1).submatrix(0, 0),
        Matrix2::from_rows([[11, 12], [15, 16]])
    );
}

#[test]
fn cofactors_change_sign_at_every_other_place() {
    for row in 0..4 {
        for col in 0..4 {
            assert_eq!(cofactor_negates(row, col), (row + col) % 2 == 1);
        }
    }
    assert!(!cofactor_negates(0, 0));
    assert!(cofactor_negates(1, 0));
    assert!(cofactor_negates(0, 1));
    assert!(!cofactor_negates(1, 1));
    assert!(cofactor_negates(usize::MAX, 0));
    assert!(!cofactor_negates(usize::MAX, usize::MAX));
}
