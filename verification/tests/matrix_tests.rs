//! Matrix arithmetic, determinant, inverse and the Kunz-coordinate matrices.
use semigroup_math::compute::compute;
use semigroup_math::kunz_matrices::{
    c_red, d_matrix, kunz_matrix, l_matrix, pair_relations_rn, to_i64, u_matrix, u_pair_relations, u_times_c_red,
    v_matrix, zd_vector,
};
use semigroup_math::matrix::DenseMatrix;

fn mat_i(rows: usize, cols: usize, data: &[i64]) -> DenseMatrix<i64> {
    DenseMatrix::from_row_slice(rows, cols, data)
}

/// Verify c(i,j) == c(j,i) for every entry.
fn assert_symmetric(k: &DenseMatrix<usize>, label: &str) {
    let m = k.nrows();
    for i in 0..m {
        for j in 0..m {
            assert_eq!(k[(i, j)], k[(j, i)], "{label}: c({i},{j}) ≠ c({j},{i})");
        }
    }
}

/// Lexicographic row index for pair (a, b) with a ≤ b in `0..n`.
fn pair_row_idx(a: usize, b: usize, n: usize) -> usize {
    // sum_{a'=0}^{a-1} (n - a') + (b - a) = a·n − a(a−1)/2 + (b − a)
    a * n - a * (a.saturating_sub(1)) / 2 + (b - a)
}

#[test]
fn matrix_zero_matrix_is_all_zero() {
    let z: DenseMatrix<i64> = DenseMatrix::zero(3, 4);
    assert_eq!(z.nrows(), 3);
    assert_eq!(z.ncols(), 4);
    assert!(z.as_slice().iter().all(|&x| x == 0));
}

#[test]
fn matrix_identity_matrix_shape_and_values() {
    let i3: DenseMatrix<i64> = DenseMatrix::identity(3);
    for r in 0..3 {
        for c in 0..3 {
            assert_eq!(i3.get(r, c), i64::from(r == c));
        }
    }
}

#[test]
fn matrix_from_row_slice_round_trips() {
    let data = [1i64, 2, 3, 4, 5, 6];
    let m = mat_i(2, 3, &data);
    assert_eq!(m.as_slice(), &data);
}

#[test]
fn matrix_det_1x1() {
    assert_eq!(mat_i(1, 1, &[7]).det(), 7);
    assert_eq!(mat_i(1, 1, &[-3]).det(), -3);
}

#[test]
fn matrix_det_2x2() {
    // |1 2|   = 1·4 − 2·3 = -2
    // |3 4|
    assert_eq!(mat_i(2, 2, &[1, 2, 3, 4]).det(), -2);
    // identity
    assert_eq!(DenseMatrix::<i64>::identity(2).det(), 1);
    // zero row → det = 0
    assert_eq!(mat_i(2, 2, &[0, 0, 1, 2]).det(), 0);
}

#[test]
fn matrix_det_3x3() {
    // Sarrus: [1,2,3;4,5,6;7,8,10] = 1(50-48) - 2(40-42) + 3(32-35) = 2+4-9 = -3
    assert_eq!(mat_i(3, 3, &[1, 2, 3, 4, 5, 6, 7, 8, 10]).det(), -3);
    assert_eq!(DenseMatrix::<i64>::identity(3).det(), 1);
    // All-zero → 0
    assert_eq!(DenseMatrix::<i64>::zero(3, 3).det(), 0);
}

#[test]
fn matrix_det_4x4_identity() {
    assert_eq!(DenseMatrix::<i64>::identity(4).det(), 1);
}

#[test]
fn matrix_det_permutation_matrix_sign() {
    // Swap rows 0 and 1 of 3×3 identity → det = -1
    let m = mat_i(3, 3, &[0, 1, 0, 1, 0, 0, 0, 0, 1]);
    assert_eq!(m.det(), -1);
}

#[test]
fn matrix_det_upper_triangular() {
    // det = product of diagonal = 1*2*3*4 = 24
    let m = mat_i(4, 4, &[1, 5, 6, 7, 0, 2, 8, 9, 0, 0, 3, 10, 0, 0, 0, 4]);
    assert_eq!(m.det(), 24);
}

#[test]
fn matrix_det_scalar_multiple() {
    // det(kA) = k^n det(A)  — check for 2×2, k=3
    let a = mat_i(2, 2, &[1, 2, 3, 4]);
    let ka = a.scalar_mul(3);
    assert_eq!(ka.det(), 9 * a.det());
}

#[test]
fn matrix_det_transpose_equals_det() {
    let a = mat_i(3, 3, &[1, 2, 3, 4, 5, 6, 7, 8, 10]);
    assert_eq!(a.det(), a.transpose().det());
}

#[test]
fn matrix_det_product_equals_product_of_dets() {
    let a = mat_i(3, 3, &[1, 2, 3, 4, 5, 6, 7, 8, 10]);
    let b = mat_i(3, 3, &[2, 0, 1, 0, 3, 1, 1, 0, 4]);
    let ab = a.mat_mul(&b);
    assert_eq!(ab.det(), a.det() * b.det());
}

#[test]
fn matrix_inverse_singular_returns_none() {
    assert!(mat_i(2, 2, &[1, 2, 2, 4]).inverse().is_none());
    assert!(
        mat_i(3, 3, &[1, 2, 3, 4, 5, 6, 7, 8, 9])
            .inverse()
            .is_none()
    );
    assert!(DenseMatrix::<i64>::zero(3, 3).inverse().is_none());
}

#[test]
fn matrix_inverse_identity_is_identity() {
    let i3 = DenseMatrix::<i64>::identity(3);
    assert_eq!(i3.inverse().unwrap(), i3);
}

#[test]
fn matrix_inverse_2x2_integer_unimodular() {
    // det([[2,1],[1,1]]) = 1 — unimodular, inverse is [[1,-1],[-1,2]]
    let a = mat_i(2, 2, &[2, 1, 1, 1]);
    let inv = a.inverse().unwrap();
    assert_eq!(inv, mat_i(2, 2, &[1, -1, -1, 2]));
    // A * A^{-1} = I
    assert_eq!(a.mat_mul(&inv), DenseMatrix::identity(2));
}

#[test]
fn matrix_inverse_non_unimodular_integer_returns_none() {
    // det = 2 ≠ ±1
    let a = mat_i(2, 2, &[3, 1, 1, 1]);
    assert!(a.inverse().is_none());
}

#[test]
fn matrix_add_zero_is_identity() {
    let a = mat_i(2, 3, &[1, 2, 3, 4, 5, 6]);
    let z = DenseMatrix::zero(2, 3);
    assert_eq!(a.mat_add(&z), a);
    assert_eq!(z.mat_add(&a), a);
}

#[test]
fn matrix_add_commutative() {
    let a = mat_i(2, 2, &[1, 2, 3, 4]);
    let b = mat_i(2, 2, &[5, 6, 7, 8]);
    assert_eq!(a.mat_add(&b), b.mat_add(&a));
}

#[test]
fn matrix_sub_self_is_zero() {
    let a = mat_i(3, 3, &[1, 2, 3, 4, 5, 6, 7, 8, 9]);
    assert_eq!(a.mat_sub(&a), DenseMatrix::zero(3, 3));
}

#[test]
fn matrix_mul_by_identity_is_self() {
    let a = mat_i(3, 3, &[1, 2, 3, 4, 5, 6, 7, 8, 9]);
    let i3 = DenseMatrix::identity(3);
    assert_eq!(a.mat_mul(&i3), a);
    assert_eq!(i3.mat_mul(&a), a);
}

#[test]
fn matrix_mul_by_zero_is_zero() {
    let a = mat_i(2, 2, &[1, 2, 3, 4]);
    let z = DenseMatrix::zero(2, 2);
    assert_eq!(a.mat_mul(&z), z);
    assert_eq!(z.mat_mul(&a), z);
}

#[test]
fn matrix_mul_known_2x2() {
    // [1 2] [5 6]   [1*5+2*7  1*6+2*8]   [19 22]
    // [3 4] [7 8] = [3*5+4*7  3*6+4*8] = [43 50]
    let a = mat_i(2, 2, &[1, 2, 3, 4]);
    let b = mat_i(2, 2, &[5, 6, 7, 8]);
    assert_eq!(a.mat_mul(&b), mat_i(2, 2, &[19, 22, 43, 50]));
}

#[test]
fn matrix_scalar_mul_distributes_over_add() {
    let a = mat_i(2, 2, &[1, 2, 3, 4]);
    let b = mat_i(2, 2, &[5, 6, 7, 8]);
    let k = 3i64;
    let lhs = a.mat_add(&b).scalar_mul(k);
    let rhs = a.scalar_mul(k).mat_add(&b.scalar_mul(k));
    assert_eq!(lhs, rhs);
}

#[test]
fn matrix_scalar_mul_zero_scalar_gives_zero() {
    let a = mat_i(3, 3, &[1, 2, 3, 4, 5, 6, 7, 8, 9]);
    assert_eq!(a.scalar_mul(0), DenseMatrix::zero(3, 3));
}

#[test]
fn matrix_neg_double_is_identity() {
    let a = mat_i(2, 2, &[1, 2, 3, 4]);
    let neg_neg_a = -(-a.clone());
    assert_eq!(neg_neg_a, a);
}

#[test]
fn matrix_ops_overloads_agree_with_trait_methods() {
    let a = mat_i(2, 2, &[1, 2, 3, 4]);
    let b = mat_i(2, 2, &[5, 6, 7, 8]);
    assert_eq!(a.clone() + b.clone(), a.mat_add(&b));
    assert_eq!(a.clone() - b.clone(), a.mat_sub(&b));
    assert_eq!(a.clone() * b.clone(), a.mat_mul(&b));
    assert_eq!(a.clone() * 3i64, a.scalar_mul(3));
}

#[test]
fn matrix_transpose_involution() {
    let a = mat_i(2, 3, &[1, 2, 3, 4, 5, 6]);
    assert_eq!(a.transpose().transpose(), a);
}

#[test]
fn matrix_transpose_shape() {
    let a = mat_i(2, 3, &[1, 2, 3, 4, 5, 6]);
    let t = a.transpose();
    assert_eq!((t.nrows(), t.ncols()), (3, 2));
}

#[test]
fn matrix_transpose_add_commutes() {
    let a = mat_i(2, 2, &[1, 2, 3, 4]);
    let b = mat_i(2, 2, &[5, 6, 7, 8]);
    assert_eq!(
        (a.clone() + b.clone()).transpose(),
        a.transpose() + b.transpose()
    );
}

#[test]
fn matrix_transpose_mul_reverses_order() {
    let a = mat_i(2, 3, &[1, 2, 3, 4, 5, 6]);
    let b = mat_i(3, 2, &[7, 8, 9, 10, 11, 12]);
    assert_eq!(
        (a.clone() * b.clone()).transpose(),
        b.transpose() * a.transpose()
    );
}

#[test]
fn dense_zero_matrix_is_all_zero() {
    let z: DenseMatrix<i64> = DenseMatrix::zero(3, 4);
    assert_eq!(z.nrows(), 3);
    assert_eq!(z.ncols(), 4);
    assert!(z.as_slice().iter().all(|&x| x == 0));
}

#[test]
fn dense_identity_matrix_shape_and_values() {
    let i3: DenseMatrix<i64> = DenseMatrix::identity(3);
    for r in 0..3 {
        for c in 0..3 {
            assert_eq!(i3.get(r, c), i64::from(r == c));
        }
    }
}

#[test]
fn dense_from_row_slice_round_trips() {
    let data = [1i64, 2, 3, 4, 5, 6];
    let m = mat_i(2, 3, &data);
    assert_eq!(m.as_slice(), &data);
}

#[test]
fn dense_det_1x1() {
    assert_eq!(mat_i(1, 1, &[7]).det(), 7);
    assert_eq!(mat_i(1, 1, &[-3]).det(), -3);
}

#[test]
fn dense_det_2x2() {
    // |1 2|   = 1·4 − 2·3 = -2
    // |3 4|
    assert_eq!(mat_i(2, 2, &[1, 2, 3, 4]).det(), -2);
    // identity
    assert_eq!(DenseMatrix::<i64>::identity(2).det(), 1);
    // zero row → det = 0
    assert_eq!(mat_i(2, 2, &[0, 0, 1, 2]).det(), 0);
}

#[test]
fn dense_det_3x3() {
    // Sarrus: [1,2,3;4,5,6;7,8,10] = 1(50-48) - 2(40-42) + 3(32-35) = 2+4-9 = -3
    assert_eq!(mat_i(3, 3, &[1, 2, 3, 4, 5, 6, 7, 8, 10]).det(), -3);
    assert_eq!(DenseMatrix::<i64>::identity(3).det(), 1);
    // All-zero → 0
    assert_eq!(DenseMatrix::<i64>::zero(3, 3).det(), 0);
}

#[test]
fn dense_det_4x4_identity() {
    assert_eq!(DenseMatrix::<i64>::identity(4).det(), 1);
}

#[test]
fn dense_det_permutation_matrix_sign() {
    // Swap rows 0 and 1 of 3×3 identity → det = -1
    let m = mat_i(3, 3, &[0, 1, 0, 1, 0, 0, 0, 0, 1]);
    assert_eq!(m.det(), -1);
}

#[test]
fn dense_det_upper_triangular() {
    // det = product of diagonal = 1*2*3*4 = 24
    let m = mat_i(4, 4, &[1, 5, 6, 7, 0, 2, 8, 9, 0, 0, 3, 10, 0, 0, 0, 4]);
    assert_eq!(m.det(), 24);
}

#[test]
fn dense_det_scalar_multiple() {
    // det(kA) = k^n det(A)  — check for 2×2, k=3
    let a = mat_i(2, 2, &[1, 2, 3, 4]);
    let ka = a.scalar_mul(3);
    assert_eq!(ka.det(), 9 * a.det());
}

#[test]
fn dense_det_transpose_equals_det() {
    let a = mat_i(3, 3, &[1, 2, 3, 4, 5, 6, 7, 8, 10]);
    assert_eq!(a.det(), a.transpose().det());
}

#[test]
fn dense_det_product_equals_product_of_dets() {
    let a = mat_i(3, 3, &[1, 2, 3, 4, 5, 6, 7, 8, 10]);
    let b = mat_i(3, 3, &[2, 0, 1, 0, 3, 1, 1, 0, 4]);
    let ab = a.mat_mul(&b);
    assert_eq!(ab.det(), a.det() * b.det());
}

#[test]
fn dense_inverse_singular_returns_none() {
    assert!(mat_i(2, 2, &[1, 2, 2, 4]).inverse().is_none());
    assert!(
        mat_i(3, 3, &[1, 2, 3, 4, 5, 6, 7, 8, 9])
            .inverse()
            .is_none()
    );
    assert!(DenseMatrix::<i64>::zero(3, 3).inverse().is_none());
}

#[test]
fn dense_inverse_identity_is_identity() {
    let i3 = DenseMatrix::<i64>::identity(3);
    assert_eq!(i3.inverse().unwrap(), i3);
}

#[test]
fn dense_inverse_2x2_integer_unimodular() {
    // det([[2,1],[1,1]]) = 1 — unimodular, inverse is [[1,-1],[-1,2]]
    let a = mat_i(2, 2, &[2, 1, 1, 1]);
    let inv = a.inverse().unwrap();
    assert_eq!(inv, mat_i(2, 2, &[1, -1, -1, 2]));
    // A * A^{-1} = I
    assert_eq!(a.mat_mul(&inv), DenseMatrix::identity(2));
}

#[test]
fn dense_inverse_non_unimodular_integer_returns_none() {
    // det = 2 ≠ ±1
    let a = mat_i(2, 2, &[3, 1, 1, 1]);
    assert!(a.inverse().is_none());
}

#[test]
fn dense_add_zero_is_identity() {
    let a = mat_i(2, 3, &[1, 2, 3, 4, 5, 6]);
    let z = DenseMatrix::zero(2, 3);
    assert_eq!(a.mat_add(&z), a);
    assert_eq!(z.mat_add(&a), a);
}

#[test]
fn dense_add_commutative() {
    let a = mat_i(2, 2, &[1, 2, 3, 4]);
    let b = mat_i(2, 2, &[5, 6, 7, 8]);
    assert_eq!(a.mat_add(&b), b.mat_add(&a));
}

#[test]
fn dense_sub_self_is_zero() {
    let a = mat_i(3, 3, &[1, 2, 3, 4, 5, 6, 7, 8, 9]);
    assert_eq!(a.mat_sub(&a), DenseMatrix::zero(3, 3));
}

#[test]
fn dense_mul_by_identity_is_self() {
    let a = mat_i(3, 3, &[1, 2, 3, 4, 5, 6, 7, 8, 9]);
    let i3 = DenseMatrix::identity(3);
    assert_eq!(a.mat_mul(&i3), a);
    assert_eq!(i3.mat_mul(&a), a);
}

#[test]
fn dense_mul_by_zero_is_zero() {
    let a = mat_i(2, 2, &[1, 2, 3, 4]);
    let z = DenseMatrix::zero(2, 2);
    assert_eq!(a.mat_mul(&z), z);
    assert_eq!(z.mat_mul(&a), z);
}

#[test]
fn dense_mul_known_2x2() {
    // [1 2] [5 6]   [1*5+2*7  1*6+2*8]   [19 22]
    // [3 4] [7 8] = [3*5+4*7  3*6+4*8] = [43 50]
    let a = mat_i(2, 2, &[1, 2, 3, 4]);
    let b = mat_i(2, 2, &[5, 6, 7, 8]);
    assert_eq!(a.mat_mul(&b), mat_i(2, 2, &[19, 22, 43, 50]));
}

#[test]
fn dense_scalar_mul_distributes_over_add() {
    let a = mat_i(2, 2, &[1, 2, 3, 4]);
    let b = mat_i(2, 2, &[5, 6, 7, 8]);
    let k = 3i64;
    let lhs = a.mat_add(&b).scalar_mul(k);
    let rhs = a.scalar_mul(k).mat_add(&b.scalar_mul(k));
    assert_eq!(lhs, rhs);
}

#[test]
fn dense_scalar_mul_zero_scalar_gives_zero() {
    let a = mat_i(3, 3, &[1, 2, 3, 4, 5, 6, 7, 8, 9]);
    assert_eq!(a.scalar_mul(0), DenseMatrix::zero(3, 3));
}

#[test]
fn dense_neg_double_is_identity() {
    let a = mat_i(2, 2, &[1, 2, 3, 4]);
    let neg_neg_a = -(-a.clone());
    assert_eq!(neg_neg_a, a);
}

#[test]
fn dense_ops_overloads_agree_with_trait_methods() {
    let a = mat_i(2, 2, &[1, 2, 3, 4]);
    let b = mat_i(2, 2, &[5, 6, 7, 8]);
    assert_eq!(a.clone() + b.clone(), a.mat_add(&b));
    assert_eq!(a.clone() - b.clone(), a.mat_sub(&b));
    assert_eq!(a.clone() * b.clone(), a.mat_mul(&b));
    assert_eq!(a.clone() * 3i64, a.scalar_mul(3));
}

#[test]
fn dense_transpose_involution() {
    let a = mat_i(2, 3, &[1, 2, 3, 4, 5, 6]);
    assert_eq!(a.transpose().transpose(), a);
}

#[test]
fn dense_transpose_shape() {
    let a = mat_i(2, 3, &[1, 2, 3, 4, 5, 6]);
    let t = a.transpose();
    assert_eq!((t.nrows(), t.ncols()), (3, 2));
}

#[test]
fn dense_transpose_add_commutes() {
    let a = mat_i(2, 2, &[1, 2, 3, 4]);
    let b = mat_i(2, 2, &[5, 6, 7, 8]);
    assert_eq!(
        (a.clone() + b.clone()).transpose(),
        a.transpose() + b.transpose()
    );
}

#[test]
fn dense_transpose_mul_reverses_order() {
    let a = mat_i(2, 3, &[1, 2, 3, 4, 5, 6]);
    let b = mat_i(3, 2, &[7, 8, 9, 10, 11, 12]);
    assert_eq!(
        (a.clone() * b.clone()).transpose(),
        b.transpose() * a.transpose()
    );
}

#[test]
fn semigroup_matrices_u_matrix_m2_is_1x1() {
    // m=2 → (m−1)×(m−1) = 1×1 = [[1]]
    let u = u_matrix(2);
    assert_eq!(u.nrows(), 1);
    assert_eq!(u.ncols(), 1);
    assert_eq!(u[(0, 0)], 1);
}

#[test]
fn semigroup_matrices_u_matrix_m5_is_4x4() {
    let u = u_matrix(5);
    let expected: &[&[i64]] = &[
        &[1, 1, 1, 1],
        &[-3, 2, 2, 2],
        &[-2, -2, 3, 3],
        &[-1, -1, -1, 4],
    ];
    assert_eq!(u.nrows(), 4);
    assert_eq!(u.ncols(), 4);
    for (a, row) in expected.iter().enumerate() {
        for (b, &v) in row.iter().enumerate() {
            assert_eq!(u[(a, b)], v, "U(5)[{a}][{b}]");
        }
    }
}

#[test]
fn semigroup_matrices_u_matrix_last_row_pattern() {
    // Last row a = m−2: cols 0..m−3 = −1; last col = m−1.
    for m in 3..=10 {
        let u = u_matrix(m);
        let n = m - 1;
        for b in 0..(n - 1) {
            assert_eq!(u[(n - 1, b)], -1, "U({m}) last row col {b}");
        }
        #[allow(clippy::cast_possible_wrap)]
        let expected = (m - 1) as i64;
        assert_eq!(u[(n - 1, n - 1)], expected, "U({m}) last row last col");
    }
}

#[test]
fn semigroup_matrices_u_matrix_row0_is_all_ones() {
    // a=0 (semigroup row k=1): all entries equal a+1 = 1.
    for m in 2..=8 {
        let u = u_matrix(m);
        for b in 0..(m - 1) {
            assert_eq!(u[(0, b)], 1, "U({m}) row0 col {b}");
        }
    }
}

#[test]
fn semigroup_matrices_u_matrix_col0_pattern() {
    // col 0 (b=0): row 0 = 1, rows a≥1 = a+1−m (since b<a).
    for m in 2..=8 {
        let u = u_matrix(m);
        assert_eq!(u[(0, 0)], 1, "U({m}) col0 row 0");
        #[allow(clippy::cast_possible_wrap)]
        let mi = m as i64;
        for a in 1..(m - 1) {
            #[allow(clippy::cast_possible_wrap)]
            let expected = (a + 1) as i64 - mi;
            assert_eq!(u[(a, 0)], expected, "U({m}) col0 row {a}");
        }
    }
}

#[test]
fn semigroup_matrices_u_matrix_det_small_cases() {
    // det(U(m)) = m^(m−2). Same as the m × m unit-bordered form, since
    // dropping a 1-on-diagonal row/col contributes a factor of 1.
    let expected: &[(usize, i64)] = &[
        (2, 1),     // 2^0
        (3, 3),     // 3^1
        (4, 16),    // 4^2
        (5, 125),   // 5^3
        (6, 1296),  // 6^4
        (7, 16807), // 7^5
    ];
    for &(m, det) in expected {
        let u = u_matrix(m);
        assert_eq!(u.det(), det, "det(U({m})) should be {m}^({m}−2) = {det}");
    }
}

#[test]
fn semigroup_matrices_u_matrix_det_equals_m_pow_m_minus_2() {
    // Parametric check for m = 2..=10.
    // Bareiss intermediate products overflow i64 for m ≥ 11.
    for m in 2..=10 {
        let u = u_matrix(m);
        #[allow(clippy::cast_possible_wrap)]
        let expected = (m as i64).pow(u32::try_from(m - 2).unwrap());
        assert_eq!(u.det(), expected, "det(U({m})) ≠ {m}^{}", m - 2);
    }
}

#[test]
fn semigroup_matrices_u_matrix_det_m2_manual() {
    // U(2) = [[1]], det = 1.
    let u = u_matrix(2);
    assert_eq!(u.det(), 1);
}

#[test]
fn semigroup_matrices_u_matrix_det_m3_manual() {
    // U(3) = [[1,1],[-1,2]], det = 1·2 − 1·(−1) = 3.
    let u = u_matrix(3);
    assert_eq!(u.det(), 3);
}

#[test]
fn semigroup_matrices_l_matrix_m2_is_zero() {
    // m=2 → 1×1 strictly lower triangular = [[0]].
    let l = l_matrix(2);
    assert_eq!(l.nrows(), 1);
    assert_eq!(l.ncols(), 1);
    assert_eq!(l[(0, 0)], 0);
}

#[test]
fn semigroup_matrices_l_matrix_m5_pattern() {
    let l = l_matrix(5);
    let expected: &[&[i64]] = &[&[0, 0, 0, 0], &[1, 0, 0, 0], &[1, 1, 0, 0], &[1, 1, 1, 0]];
    for (i, row) in expected.iter().enumerate() {
        for (j, &v) in row.iter().enumerate() {
            assert_eq!(l[(i, j)], v, "L(5)[{i}][{j}]");
        }
    }
}

#[test]
fn semigroup_matrices_l_plus_u_matches_block_form() {
    // L(m) + U(m) =
    //   ⎡ U(m-1)   (1, 2, …, m-2)ᵀ ⎤
    //   ⎣ 0 … 0          m-1        ⎦
    for m in 2..=50 {
        let sum = l_matrix(m).mat_add(&u_matrix(m));
        let n = m - 1;

        if m == 2 {
            // Degenerate: U(m-1) = U(1) is 0×0; matrix reduces to [[m-1]] = [[1]].
            #[allow(clippy::cast_possible_wrap)]
            let expected = (m - 1) as i64;
            assert_eq!(sum[(0, 0)], expected, "L+U for m=2");
            continue;
        }

        let u_prev = u_matrix(m - 1);

        // Top-left (m-2)×(m-2) block equals U(m-1).
        for a in 0..(n - 1) {
            for b in 0..(n - 1) {
                assert_eq!(
                    sum[(a, b)],
                    u_prev[(a, b)],
                    "L+U top-left block at ({a},{b}) for m={m}",
                );
            }
        }

        // Top-right column entries are 1, 2, …, m-2.
        for a in 0..(n - 1) {
            #[allow(clippy::cast_possible_wrap)]
            let expected = (a + 1) as i64;
            assert_eq!(
                sum[(a, n - 1)],
                expected,
                "L+U top-right col at row {a} for m={m}",
            );
        }

        // Bottom row: zeros except the last entry, which is m-1.
        for b in 0..(n - 1) {
            assert_eq!(sum[(n - 1, b)], 0, "L+U bottom row at col {b} for m={m}");
        }
        #[allow(clippy::cast_possible_wrap)]
        let expected = (m - 1) as i64;
        assert_eq!(
            sum[(n - 1, n - 1)],
            expected,
            "L+U bottom-right corner for m={m}",
        );
    }
}

#[test]
fn semigroup_matrices_l_plus_u_times_c1_recursion_on_random_vectors() {
    // Pure algebraic identity — holds for any (m-1)-vector v, not only c₁.
    // For each m, fabricate a few vectors and check
    //   (L(m)+U(m))·v = ⎛ U(m-1)·v' + v_{m-1} · (1..m-2)ᵀ ⎞
    //                   ⎝          (m-1) · v_{m-1}        ⎠
    // where v' = v[..m-2].
    let cases: &[&[i64]] = &[
        &[1],
        &[3, 7],
        &[2, 5, 11],
        &[4, 1, 9, 2],
        &[7, 3, 5, 8, 2, 6, 4, 9, 1, 10],
    ];
    for v in cases {
        let n = v.len();
        let m = n + 1;
        let lpu = l_matrix(m).mat_add(&u_matrix(m));
        let v_col = DenseMatrix::from_row_slice(n, 1, v);
        let lhs = lpu.mat_mul(&v_col);

        // Build RHS by the block recipe.
        let last = v[n - 1];
        let mut rhs = vec![0i64; n];
        if m == 2 {
            #[allow(clippy::cast_possible_wrap)]
            let scale = (m - 1) as i64;
            rhs[0] = scale * last;
        } else {
            let v_prime = DenseMatrix::from_row_slice(n - 1, 1, &v[..n - 1]);
            let top = u_matrix(m - 1).mat_mul(&v_prime);
            for i in 0..(n - 1) {
                #[allow(clippy::cast_possible_wrap)]
                let k = (i + 1) as i64;
                rhs[i] = top[(i, 0)] + k * last;
            }
            #[allow(clippy::cast_possible_wrap)]
            let scale = (m - 1) as i64;
            rhs[n - 1] = scale * last;
        }

        for i in 0..n {
            assert_eq!(lhs[(i, 0)], rhs[i], "row {i} for m={m}, v={v:?}");
        }
    }
}

#[test]
fn semigroup_matrices_l_plus_u_times_c1_recursion_on_semigroups() {
    // Same identity, applied to c₁ = first row of C_red of real semigroups.
    let gens_cases: &[&[usize]] = &[
        &[2, 5],
        &[3, 4],
        &[3, 7, 11],
        &[4, 6, 9, 11],
        &[5, 7, 11, 13, 17],
        &[6, 9, 20],
        &[7, 9, 11, 13, 15, 17],
        &[8, 11, 13, 14, 17, 19, 21],
    ];
    for gens in gens_cases {
        let s = compute(gens);
        if s.m < 2 {
            continue;
        }
        let m = s.m;
        let n = m - 1;
        let cred = c_red(&s);
        let cred_i = to_i64(&cred);

        // c₁ = first row of C_red, as a column vector.
        let c1: Vec<i64> = (0..n).map(|j| cred_i[(0, j)]).collect();
        let c1_col = DenseMatrix::from_row_slice(n, 1, &c1);

        let lhs = l_matrix(m).mat_add(&u_matrix(m)).mat_mul(&c1_col);

        let last = c1[n - 1];
        let mut rhs = vec![0i64; n];
        if m == 2 {
            #[allow(clippy::cast_possible_wrap)]
            let scale = (m - 1) as i64;
            rhs[0] = scale * last;
        } else {
            let c1_prime = DenseMatrix::from_row_slice(n - 1, 1, &c1[..n - 1]);
            let top = u_matrix(m - 1).mat_mul(&c1_prime);
            for i in 0..(n - 1) {
                #[allow(clippy::cast_possible_wrap)]
                let k = (i + 1) as i64;
                rhs[i] = top[(i, 0)] + k * last;
            }
            #[allow(clippy::cast_possible_wrap)]
            let scale = (m - 1) as i64;
            rhs[n - 1] = scale * last;
        }

        for i in 0..n {
            assert_eq!(lhs[(i, 0)], rhs[i], "row {i} for gens={gens:?}");
        }
    }
}

#[test]
fn semigroup_matrices_v_matrix_m2_is_2() {
    let v = v_matrix(2);
    assert_eq!(v.nrows(), 1);
    assert_eq!(v.ncols(), 1);
    assert_eq!(v[(0, 0)], 2);
}

#[test]
fn semigroup_matrices_v_matrix_m3_known() {
    let v = v_matrix(3);
    let expected: &[&[i64]] = &[&[2, -1], &[1, 1]];
    for (a, row) in expected.iter().enumerate() {
        for (b, &val) in row.iter().enumerate() {
            assert_eq!(v[(a, b)], val, "V(3)[{a}][{b}]");
        }
    }
}

#[test]
fn semigroup_matrices_v_matrix_m4_known() {
    let v = v_matrix(4);
    let expected: &[&[i64]] = &[&[2, -1, 0], &[1, 1, -1], &[1, 0, 1]];
    for (a, row) in expected.iter().enumerate() {
        for (b, &val) in row.iter().enumerate() {
            assert_eq!(v[(a, b)], val, "V(4)[{a}][{b}]");
        }
    }
}

#[test]
fn semigroup_matrices_u_matrix_block_decomposition() {
    // Splitting x = (x', x_{m-1}) with x' ∈ ℤ^{m-2} (math 1-indexed):
    //
    //   (U(m)x)_i      = (U(m-1) x')_i  −  Σ_{j<i} x_j  +  i·x_{m-1}     (1 ≤ i ≤ m-2)
    //   (U(m)x)_{m-1}  = (m-1)·x_{m-1}  −  Σ_{j<m-1} x_j
    //
    // Verify on a few small (m, x) pairs.
    fn matvec(mat: &DenseMatrix<i64>, x: &[i64]) -> Vec<i64> {
        (0..mat.nrows())
            .map(|a| (0..mat.ncols()).map(|b| mat[(a, b)] * x[b]).sum())
            .collect()
    }
    let cases: &[(usize, &[i64])] = &[
        (2, &[7]),
        (3, &[2, 5]),
        (3, &[0, 7]),
        (4, &[1, 2, 3]),
        (4, &[0, 0, 5]),
        (5, &[1, 2, 3, 4]),
        (6, &[3, 1, 4, 1, 5]),
        (7, &[-2, 3, -5, 7, -11, 13]),
    ];
    for &(m, x) in cases {
        let n = m - 1;
        assert_eq!(x.len(), n);
        let ux = matvec(&u_matrix(m), x);
        #[allow(clippy::cast_possible_wrap)]
        let x_last = x[n - 1];
        let x_prime = &x[..n - 1];

        // First identity: only meaningful for m ≥ 3 (otherwise n-1 = 0 and the loop is empty).
        if m >= 3 {
            let ux_prime = matvec(&u_matrix(m - 1), x_prime);
            for i in 0..n - 1 {
                let prefix: i64 = x_prime[..i].iter().sum();
                #[allow(clippy::cast_possible_wrap)]
                let expected = ux_prime[i] - prefix + (i + 1) as i64 * x_last;
                assert_eq!(
                    ux[i],
                    expected,
                    "(U({m})·x)_{i_math} mismatch (block decomposition)",
                    i_math = i + 1,
                );
            }
        }

        // Last row identity, valid for all m ≥ 2.
        let full_prefix: i64 = x_prime.iter().sum();
        #[allow(clippy::cast_possible_wrap)]
        let expected_last = (n as i64) * x_last - full_prefix;
        assert_eq!(
            ux[n - 1],
            expected_last,
            "(U({m})·x)_{{m-1}} mismatch (block decomposition)",
        );
    }
}

#[test]
fn semigroup_matrices_v_times_u_is_m_identity() {
    // The whole point of V(m): V(m)·U(m) = m·I_{m−1}.
    for m in 2..=10 {
        let v = v_matrix(m);
        let u = u_matrix(m);
        let prod = v * u;
        let n = m - 1;
        for a in 0..n {
            for b in 0..n {
                #[allow(clippy::cast_possible_wrap)]
                let expected = if a == b { m as i64 } else { 0 };
                assert_eq!(
                    prod[(a, b)],
                    expected,
                    "V({m})·U({m})[{a}][{b}] should equal {expected}",
                );
            }
        }
    }
}

#[test]
fn semigroup_matrices_c_red_matches_kunz_submatrix() {
    for gens in &[
        vec![3usize, 5, 7],
        vec![4, 5],
        vec![6, 9, 20],
        vec![7, 11, 13, 17, 19],
    ] {
        let s = compute(gens);
        let m = s.m;
        let cr = c_red(&s);
        let k = kunz_matrix(&s);
        assert_eq!(cr.nrows(), m - 1);
        assert_eq!(cr.ncols(), m - 1);
        for a in 0..(m - 1) {
            for b in 0..(m - 1) {
                assert_eq!(cr[(a, b)], k[(a + 1, b + 1)], "c_red[{a}][{b}] mismatch");
            }
        }
    }
}

#[test]
fn semigroup_matrices_u_times_c_red_matches_mat_mul() {
    // Structure-aware product matches the general mat_mul of the (m−1)×(m−1) factors.
    for gens in &[
        vec![3usize, 5, 7],
        vec![4, 6, 11],
        vec![5, 7, 11],
        vec![6, 7, 8, 9],
        vec![7, 11, 13, 17, 19],
    ] {
        let s = compute(gens);
        let cr = c_red(&s);
        let fast = u_times_c_red(&cr);
        let u = u_matrix(s.m);
        let cr_i64 = to_i64(&cr);
        let general = u.mat_mul(&cr_i64);
        assert_eq!(fast, general, "u_times_c_red mismatch for ⟨{gens:?}⟩");
    }
}

#[test]
fn semigroup_matrices_u_times_c_red_row0_is_apery() {
    // Row 0 (semigroup row k=1): (U·C_red)[0][b] = w_{b+1}.
    for gens in &[
        vec![3usize, 5, 7],
        vec![4, 5],
        vec![5, 7, 11],
        vec![6, 9, 20],
    ] {
        let s = compute(gens);
        let m = s.m;
        let product = u_times_c_red(&c_red(&s));
        for b in 0..(m - 1) {
            #[allow(clippy::cast_possible_wrap)]
            let w = s.apery_set[b + 1] as i64;
            assert_eq!(product[(0, b)], w, "row 0 col {b}");
        }
    }
}

#[test]
fn semigroup_matrices_u_times_c_red_col0_is_apery() {
    // Column 0 (semigroup col j=1): (U·C_red)[a][0] = w_{a+1}.
    for gens in &[
        vec![3usize, 5, 7],
        vec![4, 5],
        vec![5, 7, 11],
        vec![6, 9, 20],
    ] {
        let s = compute(gens);
        let m = s.m;
        let product = u_times_c_red(&c_red(&s));
        for a in 0..(m - 1) {
            #[allow(clippy::cast_possible_wrap)]
            let w = s.apery_set[a + 1] as i64;
            assert_eq!(product[(a, 0)], w, "col 0 row {a}");
        }
    }
}

#[test]
fn semigroup_matrices_u_times_c_red_last_row() {
    // Last row a = m−2: (U·C_red)[m−2][b] = w_{m−1} − w_b for b ≥ 1, w_{m−1} for b = 0.
    for gens in &[
        vec![3usize, 5, 7],
        vec![4, 5],
        vec![5, 7, 11],
        vec![6, 7, 8, 9],
    ] {
        let s = compute(gens);
        let m = s.m;
        let product = u_times_c_red(&c_red(&s));
        #[allow(clippy::cast_possible_wrap)]
        let w_last = s.apery_set[m - 1] as i64;
        for b in 0..(m - 1) {
            // (U·C_red)[m-2][b] = old (U·C)[m-1][b+1] = w_{m-1} - w_{(m+b) mod m} = w_{m-1} - w_b
            #[allow(clippy::cast_possible_wrap)]
            let expected = w_last - s.apery_set[b] as i64;
            assert_eq!(
                product[(m - 2, b)],
                expected,
                "last row col {b}: w_{{m-1}} - w_{b}",
            );
        }
    }
}

#[test]
fn semigroup_matrices_u_times_c_red_symmetric() {
    // U·C_red is symmetric (it's the i,j ≥ 1 block of the symmetric U·C).
    for gens in &[
        vec![3usize, 5, 7],
        vec![4, 5],
        vec![5, 7, 11],
        vec![6, 9, 20],
        vec![6, 7, 8, 9],
        vec![7, 11, 13, 17, 19],
    ] {
        let s = compute(gens);
        let m = s.m;
        let product = u_times_c_red(&c_red(&s));
        for a in 0..(m - 1) {
            for b in 0..(m - 1) {
                assert_eq!(
                    product[(a, b)],
                    product[(b, a)],
                    "⟨{gens:?}⟩: (U·C_red)[{a}][{b}] ≠ (U·C_red)[{b}][{a}]"
                );
            }
        }
    }
}

#[test]
fn semigroup_matrices_u_times_c_red_general_entry_formula() {
    // (U·C_red)[a][b] = Σ_{l=0}^{a} [w_{(l+b+1) mod m} − w_l].
    for gens in &[
        vec![3usize, 5, 7],
        vec![4, 5],
        vec![6, 9, 20],
        vec![7, 11, 13, 17, 19],
    ] {
        let s = compute(gens);
        let m = s.m;
        let product = u_times_c_red(&c_red(&s));
        for a in 0..(m - 1) {
            for b in 0..(m - 1) {
                let mut expected = 0i64;
                for l in 0..=a {
                    #[allow(clippy::cast_possible_wrap)]
                    let diff = s.apery_set[(l + b + 1) % m] as i64 - s.apery_set[l] as i64;
                    expected += diff;
                }
                assert_eq!(product[(a, b)], expected, "⟨{gens:?}⟩ entry ({a},{b})");
            }
        }
    }
}

#[test]
fn semigroup_matrices_kunz_matrix_3_5_7_symmetric_and_known() {
    // ⟨3,5,7⟩: apery = [0, 7, 5], Frobenius = 4
    let s = compute(&[3, 5, 7]);
    let k = kunz_matrix(&s);
    assert_eq!(k.nrows(), 3);
    assert_symmetric(&k, "⟨3,5,7⟩");
    // Row 0 is all zeros (apery[0] = 0)
    for j in 0..3 {
        assert_eq!(k[(0, j)], 0, "row 0 must be 0");
    }
    // c(1,1) = (7+7-5)/3 = 3, c(1,2) = (7+5-0)/3 = 4, c(2,2) = (5+5-7)/3 = 1
    assert_eq!(k[(1, 1)], 3);
    assert_eq!(k[(1, 2)], 4);
    assert_eq!(k[(2, 2)], 1);
}

#[test]
fn semigroup_matrices_kunz_matrix_6_9_20_symmetric() {
    let s = compute(&[6, 9, 20]);
    let k = kunz_matrix(&s);
    assert_eq!(k.nrows(), 6);
    assert_symmetric(&k, "⟨6,9,20⟩");
}

#[test]
fn semigroup_matrices_kunz_matrix_symmetric_for_various_semigroups() {
    for gens in &[
        vec![4usize, 5],
        vec![5, 7, 11],
        vec![6, 7, 8, 9],
        vec![7, 11, 13, 17, 19],
    ] {
        let s = compute(gens);
        let k = kunz_matrix(&s);
        assert_eq!(k.nrows(), s.m);
        assert_eq!(k.ncols(), s.m);
        assert_symmetric(&k, "symmetry check");
    }
}

#[test]
fn semigroup_matrices_kunz_matrix_row0_all_zero() {
    // apery[0] = 0 always, so c(0,j) = (0 + w_j - w_j)/m = 0 for all j
    for gens in &[vec![3usize, 5], vec![4, 6, 11], vec![5, 8, 13]] {
        let s = compute(gens);
        let k = kunz_matrix(&s);
        for j in 0..s.m {
            assert_eq!(k[(0, j)], 0, "c(0,{j}) must be 0");
        }
    }
}

#[test]
fn semigroup_matrices_u_pair_relations_dimensions() {
    // Rows = m(m−1)/2 (lex pairs (i, j) with 1 ≤ i ≤ j ≤ m−1).
    for m in 2..=8 {
        let p = u_pair_relations(m);
        let n = m - 1;
        assert_eq!(p.nrows(), n * (n + 1) / 2, "rows for m={m}");
        assert_eq!(p.ncols(), n, "cols for m={m}");
    }
}

#[test]
fn semigroup_matrices_u_pair_relations_unscaled_entries_divisible_by_m() {
    // Theory check: every entry of U[i] + U[j] − U[(i+j) mod m] is ≡ 0 (mod m),
    // because each row of U(m) satisfies U[a][c] ≡ a+1 (mod m).
    for m in 2..=10 {
        let u = u_matrix(m);
        let n = m - 1;
        #[allow(clippy::cast_possible_wrap)]
        let mi = m as i64;
        for a in 0..n {
            for b in a..n {
                let sum = (a + 1) + (b + 1);
                let k = if sum >= m { sum - m } else { sum };
                for col in 0..n {
                    let mut v = u[(a, col)] + u[(b, col)];
                    if k != 0 {
                        v -= u[(k - 1, col)];
                    }
                    assert_eq!(
                        v % mi,
                        0,
                        "m={m} pair ({},{}) col {col}: unscaled entry {v} not ≡ 0 (mod {m})",
                        a + 1,
                        b + 1,
                    );
                }
            }
        }
    }
}

#[test]
fn semigroup_matrices_u_pair_relations_m3_explicit() {
    // m=3, n=2. Pairs in order: (1,1), (1,2), (2,2).
    // Unscaled: [3,0], [0,3], [-3,3]; divided by 3:
    let p = u_pair_relations(3);
    let expected: &[&[i64]] = &[&[1, 0], &[0, 1], &[-1, 1]];
    assert_eq!(p.nrows(), 3);
    for (r, row) in expected.iter().enumerate() {
        for (col, &v) in row.iter().enumerate() {
            assert_eq!(p[(r, col)], v, "P(3)[{r}][{col}]");
        }
    }
}

#[test]
fn semigroup_matrices_u_pair_relations_times_c_red_col0_is_kunz() {
    // P · C_red[:,0] gives c(i, j) for each pair (i, j) with i ≤ j.
    for gens in &[
        vec![3usize, 5, 7],
        vec![4, 5],
        vec![5, 7, 11],
        vec![6, 9, 20],
        vec![6, 7, 8, 9],
    ] {
        let s = compute(gens);
        let m = s.m;
        let n = m - 1;
        let p = u_pair_relations(m);
        let cr = c_red(&s);
        #[allow(clippy::cast_possible_wrap)]
        let col0: Vec<i64> = (0..n).map(|a| cr[(a, 0)] as i64).collect();
        for a in 0..n {
            for b in a..n {
                let row_idx = pair_row_idx(a, b, n);
                let mut sum = 0i64;
                for col in 0..n {
                    sum += p[(row_idx, col)] * col0[col];
                }
                #[allow(clippy::cast_possible_wrap)]
                let expected = s.kunz(a + 1, b + 1) as i64;
                assert_eq!(
                    sum,
                    expected,
                    "⟨{gens:?}⟩ pair ({},{}): c = {expected}",
                    a + 1,
                    b + 1
                );
            }
        }
    }
}

#[test]
fn pair_relations_rn_dimensions_and_row_structure() {
    // Shape: m(m−1)/2 rows × (2m−1) cols. Per row:
    // exactly four +1 entries among the r/n columns (collapses to two +2
    // entries on the diagonal i = j); zero or two −1 entries (one for r_k,
    // one for n_k when k = (i+j) mod m ≠ 0); the constant column is +1
    // exactly when i + j ≥ m.
    for m in 2..=8 {
        let p = pair_relations_rn(m);
        let n = m - 1;
        assert_eq!(p.nrows(), n * (n + 1) / 2, "rows for m={m}");
        assert_eq!(p.ncols(), 2 * n + 1, "cols for m={m}");
        let mut row = 0;
        for a in 0..n {
            for b in a..n {
                let sum = (a + 1) + (b + 1);
                let k = if sum >= m { sum - m } else { sum };
                // Count positives in the r/n half only — the constant
                // column is checked separately because its +1 from i+j ≥ m
                // shouldn't muddle the diagonal-vs-off-diagonal accounting.
                let pos_rn = (0..2 * n).filter(|&c| p[(row, c)] > 0).count();
                let neg = (0..p.ncols()).filter(|&c| p[(row, c)] < 0).count();
                let row_sum: i64 = (0..p.ncols()).map(|c| p[(row, c)]).sum();
                if a == b {
                    // Diagonal: +2 at r_a and n_a (one column each).
                    assert_eq!(pos_rn, 2, "diag pair ({},{}) m={m}", a + 1, b + 1);
                    assert_eq!(p[(row, a)], 2, "diag r-cell m={m} a={a}");
                    assert_eq!(p[(row, n + a)], 2, "diag n-cell m={m} a={a}");
                } else {
                    // Off-diagonal: +1 at four distinct r/n columns.
                    assert_eq!(pos_rn, 4, "off-diag pair ({},{}) m={m}", a + 1, b + 1);
                }
                let expected_neg = if k == 0 { 0 } else { 2 };
                assert_eq!(
                    neg,
                    expected_neg,
                    "neg-count for ({},{}) m={m} k={k}",
                    a + 1,
                    b + 1,
                );
                let const_col = p[(row, 2 * n)];
                assert_eq!(
                    const_col,
                    i64::from(u8::from(sum >= m)),
                    "const-col for ({},{}) m={m}",
                    a + 1,
                    b + 1,
                );
                // Row sum identity: 4 − 2·[k≠0] + [sum≥m] = c(i,j) when all
                // r/n coefficients are 1 — i.e., this row applied to the
                // augmented all-ones vector reproduces 4 − 2·[k≠0] + δ.
                let expected_sum =
                    4 - 2 * i64::from(u8::from(k != 0)) + i64::from(u8::from(sum >= m));
                assert_eq!(
                    row_sum,
                    expected_sum,
                    "row sum for ({},{}) m={m}",
                    a + 1,
                    b + 1
                );
                row += 1;
            }
        }
    }
}

#[test]
fn semigroup_matrices_u_pair_relations_diagonal_when_2i_equals_m() {
    // When 2i = m the unscaled row is U[i]+U[i]-U[0] = 2·U[i]; divided by m:
    // entry c is −1 if c < i−1 and 1 otherwise (since U[i−1][c] ∈ {i−m, i} = {−m/2, m/2}).
    for m in [2usize, 4, 6, 8] {
        let p = u_pair_relations(m);
        let n = m - 1;
        let i = m / 2;
        let row_idx = pair_row_idx(i - 1, i - 1, n);
        for col in 0..n {
            let expected = if col + 1 < i { -1 } else { 1 };
            assert_eq!(p[(row_idx, col)], expected, "m={m} col={col}");
        }
    }
}

#[test]
fn semigroup_matrices_zd_vector_m3_known() {
    // zd(3)[b] = 2b − 3 + 3 = 2b; entries: [0, 2]
    let zd = zd_vector(3);
    assert_eq!(zd.nrows(), 1);
    assert_eq!(zd.ncols(), 2);
    assert_eq!(zd[(0, 0)], 0);
    assert_eq!(zd[(0, 1)], 2);
}

#[test]
fn semigroup_matrices_zd_vector_m4_known() {
    // zd(4)[b] = 2b − 4 + 3 = 2b − 1; entries: [−1, 1, 3]
    let zd = zd_vector(4);
    assert_eq!(zd.nrows(), 1);
    assert_eq!(zd.ncols(), 3);
    assert_eq!(zd[(0, 0)], -1);
    assert_eq!(zd[(0, 1)], 1);
    assert_eq!(zd[(0, 2)], 3);
}

#[test]
fn semigroup_matrices_zd_vector_entry_formula() {
    // zd(m)[b] = 2b − m + 3 for b = 0..m−2.
    for m in 2..=9 {
        let zd = zd_vector(m);
        for b in 0..(m - 1) {
            #[allow(clippy::cast_possible_wrap)]
            let expected = 2 * b as i64 - m as i64 + 3;
            assert_eq!(zd[(0, b)], expected, "zd({m})[{b}]");
        }
    }
}

#[test]
fn semigroup_matrices_zd_times_c1_equals_f_plus_m_plus_r() {
    // zd(m) · c₁ = f + m + r  for each test semigroup.
    for gens in &[
        vec![3usize, 5, 7],
        vec![4, 5],
        vec![6, 9, 20],
        vec![5, 7, 11],
        vec![6, 7, 8, 9],
        vec![7, 11, 13, 17, 19],
    ] {
        let s = compute(gens);
        let m = s.m;
        let n = m - 1;
        let zd = zd_vector(m);
        let cr = c_red(&s);
        #[allow(clippy::cast_possible_wrap)]
        let dot: i64 = (0..n).map(|b| zd[(0, b)] * cr[(b, 0)] as i64).sum();
        #[allow(clippy::cast_possible_wrap)]
        let expected = (s.f + m + s.r) as i64;
        assert_eq!(
            dot, expected,
            "⟨{gens:?}⟩: zd·c₁ = {dot}, f+m+r = {expected}"
        );
    }
}

#[test]
fn semigroup_matrices_d_matrix_equals_zd_minus_u() {
    // D(m)[a][b] = zd(m)[b] − U(m)[a][b].
    for m in 2..=8 {
        let d = d_matrix(m);
        let zd = zd_vector(m);
        let u = u_matrix(m);
        let n = m - 1;
        for a in 0..n {
            for b in 0..n {
                assert_eq!(d[(a, b)], zd[(0, b)] - u[(a, b)], "D({m})[{a}][{b}]");
            }
        }
    }
}

#[test]
fn semigroup_matrices_d_matrix_times_c1_gives_diag_sums() {
    // D(m) · c₁ = (d₁, …, d_{m−1}) where dᵢ = sg.diag(i).
    for gens in &[
        vec![3usize, 5, 7],
        vec![4, 5],
        vec![6, 9, 20],
        vec![5, 7, 11],
        vec![6, 7, 8, 9],
        vec![7, 11, 13, 17, 19],
    ] {
        let s = compute(gens);
        let m = s.m;
        let n = m - 1;
        let d = d_matrix(m);
        let cr = c_red(&s);
        for i in 1..=n {
            #[allow(clippy::cast_possible_wrap)]
            let product_row: i64 = (0..n).map(|b| d[(i - 1, b)] * cr[(b, 0)] as i64).sum();
            #[allow(clippy::cast_possible_wrap)]
            let expected = s.diag(i) as i64;
            assert_eq!(
                product_row, expected,
                "⟨{gens:?}⟩: D·c₁[{i}] = {product_row}, diag({i}) = {expected}"
            );
        }
    }
}

#[test]
fn semigroup_matrices_w_plus_d_equals_f_plus_m_plus_r() {
    // wᵢ + dᵢ = f + m + r for all i ∈ {1, …, m−1}.
    for gens in &[
        vec![3usize, 5, 7],
        vec![4, 5],
        vec![6, 9, 20],
        vec![5, 7, 11],
        vec![6, 7, 8, 9],
        vec![7, 11, 13, 17, 19],
    ] {
        let s = compute(gens);
        let m = s.m;
        let n = m - 1;
        let d = d_matrix(m);
        let cr = c_red(&s);
        #[allow(clippy::cast_possible_wrap)]
        let target = (s.f + m + s.r) as i64;
        for i in 1..=n {
            #[allow(clippy::cast_possible_wrap)]
            let di: i64 = (0..n).map(|b| d[(i - 1, b)] * cr[(b, 0)] as i64).sum();
            #[allow(clippy::cast_possible_wrap)]
            let wi = s.apery_set[i] as i64;
            assert_eq!(
                wi + di,
                target,
                "⟨{gens:?}⟩: w_{i} + d_{i} = {}, expected f+m+r = {target}",
                wi + di
            );
        }
    }
}

#[test]
fn matrix_u_matrix_m2_is_1x1() {
    // m=2 → (m−1)×(m−1) = 1×1 = [[1]]
    let u = u_matrix(2);
    assert_eq!(u.nrows(), 1);
    assert_eq!(u.ncols(), 1);
    assert_eq!(u[(0, 0)], 1);
}

#[test]
fn matrix_u_matrix_m5_is_4x4() {
    let u = u_matrix(5);
    let expected: &[&[i64]] = &[
        &[1, 1, 1, 1],
        &[-3, 2, 2, 2],
        &[-2, -2, 3, 3],
        &[-1, -1, -1, 4],
    ];
    assert_eq!(u.nrows(), 4);
    assert_eq!(u.ncols(), 4);
    for (a, row) in expected.iter().enumerate() {
        for (b, &v) in row.iter().enumerate() {
            assert_eq!(u[(a, b)], v, "U(5)[{a}][{b}]");
        }
    }
}

#[test]
fn matrix_u_matrix_last_row_pattern() {
    // Last row a = m−2: cols 0..m−3 = −1; last col = m−1.
    for m in 3..=10 {
        let u = u_matrix(m);
        let n = m - 1;
        for b in 0..(n - 1) {
            assert_eq!(u[(n - 1, b)], -1, "U({m}) last row col {b}");
        }
        #[allow(clippy::cast_possible_wrap)]
        let expected = (m - 1) as i64;
        assert_eq!(u[(n - 1, n - 1)], expected, "U({m}) last row last col");
    }
}

#[test]
fn matrix_u_matrix_row0_is_all_ones() {
    // a=0 (semigroup row k=1): all entries equal a+1 = 1.
    for m in 2..=8 {
        let u = u_matrix(m);
        for b in 0..(m - 1) {
            assert_eq!(u[(0, b)], 1, "U({m}) row0 col {b}");
        }
    }
}

#[test]
fn matrix_u_matrix_col0_pattern() {
    // col 0 (b=0): row 0 = 1, rows a≥1 = a+1−m (since b<a).
    for m in 2..=8 {
        let u = u_matrix(m);
        assert_eq!(u[(0, 0)], 1, "U({m}) col0 row 0");
        #[allow(clippy::cast_possible_wrap)]
        let mi = m as i64;
        for a in 1..(m - 1) {
            #[allow(clippy::cast_possible_wrap)]
            let expected = (a + 1) as i64 - mi;
            assert_eq!(u[(a, 0)], expected, "U({m}) col0 row {a}");
        }
    }
}

#[test]
fn matrix_u_matrix_det_small_cases() {
    // det(U(m)) = m^(m−2). Same as the m × m unit-bordered form, since
    // dropping a 1-on-diagonal row/col contributes a factor of 1.
    let expected: &[(usize, i64)] = &[
        (2, 1),     // 2^0
        (3, 3),     // 3^1
        (4, 16),    // 4^2
        (5, 125),   // 5^3
        (6, 1296),  // 6^4
        (7, 16807), // 7^5
    ];
    for &(m, det) in expected {
        let u = u_matrix(m);
        assert_eq!(u.det(), det, "det(U({m})) should be {m}^({m}−2) = {det}");
    }
}

#[test]
fn matrix_u_matrix_det_equals_m_pow_m_minus_2() {
    // Parametric check for m = 2..=10.
    // Bareiss intermediate products overflow i64 for m ≥ 11.
    for m in 2..=10 {
        let u = u_matrix(m);
        #[allow(clippy::cast_possible_wrap)]
        let expected = (m as i64).pow(u32::try_from(m - 2).unwrap());
        assert_eq!(u.det(), expected, "det(U({m})) ≠ {m}^{}", m - 2);
    }
}

#[test]
fn matrix_u_matrix_det_m2_manual() {
    // U(2) = [[1]], det = 1.
    let u = u_matrix(2);
    assert_eq!(u.det(), 1);
}

#[test]
fn matrix_u_matrix_det_m3_manual() {
    // U(3) = [[1,1],[-1,2]], det = 1·2 − 1·(−1) = 3.
    let u = u_matrix(3);
    assert_eq!(u.det(), 3);
}

#[test]
fn matrix_l_matrix_m2_is_zero() {
    // m=2 → 1×1 strictly lower triangular = [[0]].
    let l = l_matrix(2);
    assert_eq!(l.nrows(), 1);
    assert_eq!(l.ncols(), 1);
    assert_eq!(l[(0, 0)], 0);
}

#[test]
fn matrix_l_matrix_m5_pattern() {
    let l = l_matrix(5);
    let expected: &[&[i64]] = &[&[0, 0, 0, 0], &[1, 0, 0, 0], &[1, 1, 0, 0], &[1, 1, 1, 0]];
    for (i, row) in expected.iter().enumerate() {
        for (j, &v) in row.iter().enumerate() {
            assert_eq!(l[(i, j)], v, "L(5)[{i}][{j}]");
        }
    }
}

#[test]
fn matrix_l_plus_u_matches_block_form() {
    // L(m) + U(m) =
    //   ⎡ U(m-1)   (1, 2, …, m-2)ᵀ ⎤
    //   ⎣ 0 … 0          m-1        ⎦
    for m in 2..=50 {
        let sum = l_matrix(m).mat_add(&u_matrix(m));
        let n = m - 1;

        if m == 2 {
            // Degenerate: U(m-1) = U(1) is 0×0; matrix reduces to [[m-1]] = [[1]].
            #[allow(clippy::cast_possible_wrap)]
            let expected = (m - 1) as i64;
            assert_eq!(sum[(0, 0)], expected, "L+U for m=2");
            continue;
        }

        let u_prev = u_matrix(m - 1);

        // Top-left (m-2)×(m-2) block equals U(m-1).
        for a in 0..(n - 1) {
            for b in 0..(n - 1) {
                assert_eq!(
                    sum[(a, b)],
                    u_prev[(a, b)],
                    "L+U top-left block at ({a},{b}) for m={m}",
                );
            }
        }

        // Top-right column entries are 1, 2, …, m-2.
        for a in 0..(n - 1) {
            #[allow(clippy::cast_possible_wrap)]
            let expected = (a + 1) as i64;
            assert_eq!(
                sum[(a, n - 1)],
                expected,
                "L+U top-right col at row {a} for m={m}",
            );
        }

        // Bottom row: zeros except the last entry, which is m-1.
        for b in 0..(n - 1) {
            assert_eq!(sum[(n - 1, b)], 0, "L+U bottom row at col {b} for m={m}");
        }
        #[allow(clippy::cast_possible_wrap)]
        let expected = (m - 1) as i64;
        assert_eq!(
            sum[(n - 1, n - 1)],
            expected,
            "L+U bottom-right corner for m={m}",
        );
    }
}

#[test]
fn matrix_l_plus_u_times_c1_recursion_on_random_vectors() {
    // Pure algebraic identity — holds for any (m-1)-vector v, not only c₁.
    // For each m, fabricate a few vectors and check
    //   (L(m)+U(m))·v = ⎛ U(m-1)·v' + v_{m-1} · (1..m-2)ᵀ ⎞
    //                   ⎝          (m-1) · v_{m-1}        ⎠
    // where v' = v[..m-2].
    let cases: &[&[i64]] = &[
        &[1],
        &[3, 7],
        &[2, 5, 11],
        &[4, 1, 9, 2],
        &[7, 3, 5, 8, 2, 6, 4, 9, 1, 10],
    ];
    for v in cases {
        let n = v.len();
        let m = n + 1;
        let lpu = l_matrix(m).mat_add(&u_matrix(m));
        let v_col = DenseMatrix::from_row_slice(n, 1, v);
        let lhs = lpu.mat_mul(&v_col);

        // Build RHS by the block recipe.
        let last = v[n - 1];
        let mut rhs = vec![0i64; n];
        if m == 2 {
            #[allow(clippy::cast_possible_wrap)]
            let scale = (m - 1) as i64;
            rhs[0] = scale * last;
        } else {
            let v_prime = DenseMatrix::from_row_slice(n - 1, 1, &v[..n - 1]);
            let top = u_matrix(m - 1).mat_mul(&v_prime);
            for i in 0..(n - 1) {
                #[allow(clippy::cast_possible_wrap)]
                let k = (i + 1) as i64;
                rhs[i] = top[(i, 0)] + k * last;
            }
            #[allow(clippy::cast_possible_wrap)]
            let scale = (m - 1) as i64;
            rhs[n - 1] = scale * last;
        }

        for i in 0..n {
            assert_eq!(lhs[(i, 0)], rhs[i], "row {i} for m={m}, v={v:?}");
        }
    }
}

#[test]
fn matrix_l_plus_u_times_c1_recursion_on_semigroups() {
    // Same identity, applied to c₁ = first row of C_red of real semigroups.
    let gens_cases: &[&[usize]] = &[
        &[2, 5],
        &[3, 4],
        &[3, 7, 11],
        &[4, 6, 9, 11],
        &[5, 7, 11, 13, 17],
        &[6, 9, 20],
        &[7, 9, 11, 13, 15, 17],
        &[8, 11, 13, 14, 17, 19, 21],
    ];
    for gens in gens_cases {
        let s = compute(gens);
        if s.m < 2 {
            continue;
        }
        let m = s.m;
        let n = m - 1;
        let cred = c_red(&s);
        let cred_i = to_i64(&cred);

        // c₁ = first row of C_red, as a column vector.
        let c1: Vec<i64> = (0..n).map(|j| cred_i[(0, j)]).collect();
        let c1_col = DenseMatrix::from_row_slice(n, 1, &c1);

        let lhs = l_matrix(m).mat_add(&u_matrix(m)).mat_mul(&c1_col);

        let last = c1[n - 1];
        let mut rhs = vec![0i64; n];
        if m == 2 {
            #[allow(clippy::cast_possible_wrap)]
            let scale = (m - 1) as i64;
            rhs[0] = scale * last;
        } else {
            let c1_prime = DenseMatrix::from_row_slice(n - 1, 1, &c1[..n - 1]);
            let top = u_matrix(m - 1).mat_mul(&c1_prime);
            for i in 0..(n - 1) {
                #[allow(clippy::cast_possible_wrap)]
                let k = (i + 1) as i64;
                rhs[i] = top[(i, 0)] + k * last;
            }
            #[allow(clippy::cast_possible_wrap)]
            let scale = (m - 1) as i64;
            rhs[n - 1] = scale * last;
        }

        for i in 0..n {
            assert_eq!(lhs[(i, 0)], rhs[i], "row {i} for gens={gens:?}");
        }
    }
}

#[test]
fn matrix_v_matrix_m2_is_2() {
    let v = v_matrix(2);
    assert_eq!(v.nrows(), 1);
    assert_eq!(v.ncols(), 1);
    assert_eq!(v[(0, 0)], 2);
}

#[test]
fn matrix_v_matrix_m3_known() {
    let v = v_matrix(3);
    let expected: &[&[i64]] = &[&[2, -1], &[1, 1]];
    for (a, row) in expected.iter().enumerate() {
        for (b, &val) in row.iter().enumerate() {
            assert_eq!(v[(a, b)], val, "V(3)[{a}][{b}]");
        }
    }
}

#[test]
fn matrix_v_matrix_m4_known() {
    let v = v_matrix(4);
    let expected: &[&[i64]] = &[&[2, -1, 0], &[1, 1, -1], &[1, 0, 1]];
    for (a, row) in expected.iter().enumerate() {
        for (b, &val) in row.iter().enumerate() {
            assert_eq!(v[(a, b)], val, "V(4)[{a}][{b}]");
        }
    }
}

#[test]
fn matrix_u_matrix_block_decomposition() {
    // Splitting x = (x', x_{m-1}) with x' ∈ ℤ^{m-2} (math 1-indexed):
    //
    //   (U(m)x)_i      = (U(m-1) x')_i  −  Σ_{j<i} x_j  +  i·x_{m-1}     (1 ≤ i ≤ m-2)
    //   (U(m)x)_{m-1}  = (m-1)·x_{m-1}  −  Σ_{j<m-1} x_j
    //
    // Verify on a few small (m, x) pairs.
    fn matvec(mat: &DenseMatrix<i64>, x: &[i64]) -> Vec<i64> {
        (0..mat.nrows())
            .map(|a| (0..mat.ncols()).map(|b| mat[(a, b)] * x[b]).sum())
            .collect()
    }
    let cases: &[(usize, &[i64])] = &[
        (2, &[7]),
        (3, &[2, 5]),
        (3, &[0, 7]),
        (4, &[1, 2, 3]),
        (4, &[0, 0, 5]),
        (5, &[1, 2, 3, 4]),
        (6, &[3, 1, 4, 1, 5]),
        (7, &[-2, 3, -5, 7, -11, 13]),
    ];
    for &(m, x) in cases {
        let n = m - 1;
        assert_eq!(x.len(), n);
        let ux = matvec(&u_matrix(m), x);
        #[allow(clippy::cast_possible_wrap)]
        let x_last = x[n - 1];
        let x_prime = &x[..n - 1];

        // First identity: only meaningful for m ≥ 3 (otherwise n-1 = 0 and the loop is empty).
        if m >= 3 {
            let ux_prime = matvec(&u_matrix(m - 1), x_prime);
            for i in 0..n - 1 {
                let prefix: i64 = x_prime[..i].iter().sum();
                #[allow(clippy::cast_possible_wrap)]
                let expected = ux_prime[i] - prefix + (i + 1) as i64 * x_last;
                assert_eq!(
                    ux[i],
                    expected,
                    "(U({m})·x)_{i_math} mismatch (block decomposition)",
                    i_math = i + 1,
                );
            }
        }

        // Last row identity, valid for all m ≥ 2.
        let full_prefix: i64 = x_prime.iter().sum();
        #[allow(clippy::cast_possible_wrap)]
        let expected_last = (n as i64) * x_last - full_prefix;
        assert_eq!(
            ux[n - 1],
            expected_last,
            "(U({m})·x)_{{m-1}} mismatch (block decomposition)",
        );
    }
}

#[test]
fn matrix_v_times_u_is_m_identity() {
    // The whole point of V(m): V(m)·U(m) = m·I_{m−1}.
    for m in 2..=10 {
        let v = v_matrix(m);
        let u = u_matrix(m);
        let prod = v * u;
        let n = m - 1;
        for a in 0..n {
            for b in 0..n {
                #[allow(clippy::cast_possible_wrap)]
                let expected = if a == b { m as i64 } else { 0 };
                assert_eq!(
                    prod[(a, b)],
                    expected,
                    "V({m})·U({m})[{a}][{b}] should equal {expected}",
                );
            }
        }
    }
}

#[test]
fn matrix_c_red_matches_kunz_submatrix() {
    for gens in &[
        vec![3usize, 5, 7],
        vec![4, 5],
        vec![6, 9, 20],
        vec![7, 11, 13, 17, 19],
    ] {
        let s = compute(gens);
        let m = s.m;
        let cr = c_red(&s);
        let k = kunz_matrix(&s);
        assert_eq!(cr.nrows(), m - 1);
        assert_eq!(cr.ncols(), m - 1);
        for a in 0..(m - 1) {
            for b in 0..(m - 1) {
                assert_eq!(cr[(a, b)], k[(a + 1, b + 1)], "c_red[{a}][{b}] mismatch");
            }
        }
    }
}

#[test]
fn matrix_u_times_c_red_matches_mat_mul() {
    // Structure-aware product matches the general mat_mul of the (m−1)×(m−1) factors.
    for gens in &[
        vec![3usize, 5, 7],
        vec![4, 6, 11],
        vec![5, 7, 11],
        vec![6, 7, 8, 9],
        vec![7, 11, 13, 17, 19],
    ] {
        let s = compute(gens);
        let cr = c_red(&s);
        let fast = u_times_c_red(&cr);
        let u = u_matrix(s.m);
        let cr_i64 = to_i64(&cr);
        let general = u.mat_mul(&cr_i64);
        assert_eq!(fast, general, "u_times_c_red mismatch for ⟨{gens:?}⟩");
    }
}

#[test]
fn matrix_u_times_c_red_row0_is_apery() {
    // Row 0 (semigroup row k=1): (U·C_red)[0][b] = w_{b+1}.
    for gens in &[
        vec![3usize, 5, 7],
        vec![4, 5],
        vec![5, 7, 11],
        vec![6, 9, 20],
    ] {
        let s = compute(gens);
        let m = s.m;
        let product = u_times_c_red(&c_red(&s));
        for b in 0..(m - 1) {
            #[allow(clippy::cast_possible_wrap)]
            let w = s.apery_set[b + 1] as i64;
            assert_eq!(product[(0, b)], w, "row 0 col {b}");
        }
    }
}

#[test]
fn matrix_u_times_c_red_col0_is_apery() {
    // Column 0 (semigroup col j=1): (U·C_red)[a][0] = w_{a+1}.
    for gens in &[
        vec![3usize, 5, 7],
        vec![4, 5],
        vec![5, 7, 11],
        vec![6, 9, 20],
    ] {
        let s = compute(gens);
        let m = s.m;
        let product = u_times_c_red(&c_red(&s));
        for a in 0..(m - 1) {
            #[allow(clippy::cast_possible_wrap)]
            let w = s.apery_set[a + 1] as i64;
            assert_eq!(product[(a, 0)], w, "col 0 row {a}");
        }
    }
}

#[test]
fn matrix_u_times_c_red_last_row() {
    // Last row a = m−2: (U·C_red)[m−2][b] = w_{m−1} − w_b for b ≥ 1, w_{m−1} for b = 0.
    for gens in &[
        vec![3usize, 5, 7],
        vec![4, 5],
        vec![5, 7, 11],
        vec![6, 7, 8, 9],
    ] {
        let s = compute(gens);
        let m = s.m;
        let product = u_times_c_red(&c_red(&s));
        #[allow(clippy::cast_possible_wrap)]
        let w_last = s.apery_set[m - 1] as i64;
        for b in 0..(m - 1) {
            // (U·C_red)[m-2][b] = old (U·C)[m-1][b+1] = w_{m-1} - w_{(m+b) mod m} = w_{m-1} - w_b
            #[allow(clippy::cast_possible_wrap)]
            let expected = w_last - s.apery_set[b] as i64;
            assert_eq!(
                product[(m - 2, b)],
                expected,
                "last row col {b}: w_{{m-1}} - w_{b}",
            );
        }
    }
}

#[test]
fn matrix_u_times_c_red_symmetric() {
    // U·C_red is symmetric (it's the i,j ≥ 1 block of the symmetric U·C).
    for gens in &[
        vec![3usize, 5, 7],
        vec![4, 5],
        vec![5, 7, 11],
        vec![6, 9, 20],
        vec![6, 7, 8, 9],
        vec![7, 11, 13, 17, 19],
    ] {
        let s = compute(gens);
        let m = s.m;
        let product = u_times_c_red(&c_red(&s));
        for a in 0..(m - 1) {
            for b in 0..(m - 1) {
                assert_eq!(
                    product[(a, b)],
                    product[(b, a)],
                    "⟨{gens:?}⟩: (U·C_red)[{a}][{b}] ≠ (U·C_red)[{b}][{a}]"
                );
            }
        }
    }
}

#[test]
fn matrix_u_times_c_red_general_entry_formula() {
    // (U·C_red)[a][b] = Σ_{l=0}^{a} [w_{(l+b+1) mod m} − w_l].
    for gens in &[
        vec![3usize, 5, 7],
        vec![4, 5],
        vec![6, 9, 20],
        vec![7, 11, 13, 17, 19],
    ] {
        let s = compute(gens);
        let m = s.m;
        let product = u_times_c_red(&c_red(&s));
        for a in 0..(m - 1) {
            for b in 0..(m - 1) {
                let mut expected = 0i64;
                for l in 0..=a {
                    #[allow(clippy::cast_possible_wrap)]
                    let diff = s.apery_set[(l + b + 1) % m] as i64 - s.apery_set[l] as i64;
                    expected += diff;
                }
                assert_eq!(product[(a, b)], expected, "⟨{gens:?}⟩ entry ({a},{b})");
            }
        }
    }
}

#[test]
fn matrix_kunz_matrix_3_5_7_symmetric_and_known() {
    // ⟨3,5,7⟩: apery = [0, 7, 5], Frobenius = 4
    let s = compute(&[3, 5, 7]);
    let k = kunz_matrix(&s);
    assert_eq!(k.nrows(), 3);
    assert_symmetric(&k, "⟨3,5,7⟩");
    // Row 0 is all zeros (apery[0] = 0)
    for j in 0..3 {
        assert_eq!(k[(0, j)], 0, "row 0 must be 0");
    }
    // c(1,1) = (7+7-5)/3 = 3, c(1,2) = (7+5-0)/3 = 4, c(2,2) = (5+5-7)/3 = 1
    assert_eq!(k[(1, 1)], 3);
    assert_eq!(k[(1, 2)], 4);
    assert_eq!(k[(2, 2)], 1);
}

#[test]
fn matrix_kunz_matrix_6_9_20_symmetric() {
    let s = compute(&[6, 9, 20]);
    let k = kunz_matrix(&s);
    assert_eq!(k.nrows(), 6);
    assert_symmetric(&k, "⟨6,9,20⟩");
}

#[test]
fn matrix_kunz_matrix_symmetric_for_various_semigroups() {
    for gens in &[
        vec![4usize, 5],
        vec![5, 7, 11],
        vec![6, 7, 8, 9],
        vec![7, 11, 13, 17, 19],
    ] {
        let s = compute(gens);
        let k = kunz_matrix(&s);
        assert_eq!(k.nrows(), s.m);
        assert_eq!(k.ncols(), s.m);
        assert_symmetric(&k, "symmetry check");
    }
}

#[test]
fn matrix_kunz_matrix_row0_all_zero() {
    // apery[0] = 0 always, so c(0,j) = (0 + w_j - w_j)/m = 0 for all j
    for gens in &[vec![3usize, 5], vec![4, 6, 11], vec![5, 8, 13]] {
        let s = compute(gens);
        let k = kunz_matrix(&s);
        for j in 0..s.m {
            assert_eq!(k[(0, j)], 0, "c(0,{j}) must be 0");
        }
    }
}

#[test]
fn matrix_u_pair_relations_dimensions() {
    // Rows = m(m−1)/2 (lex pairs (i, j) with 1 ≤ i ≤ j ≤ m−1).
    for m in 2..=8 {
        let p = u_pair_relations(m);
        let n = m - 1;
        assert_eq!(p.nrows(), n * (n + 1) / 2, "rows for m={m}");
        assert_eq!(p.ncols(), n, "cols for m={m}");
    }
}

#[test]
fn matrix_u_pair_relations_unscaled_entries_divisible_by_m() {
    // Theory check: every entry of U[i] + U[j] − U[(i+j) mod m] is ≡ 0 (mod m),
    // because each row of U(m) satisfies U[a][c] ≡ a+1 (mod m).
    for m in 2..=10 {
        let u = u_matrix(m);
        let n = m - 1;
        #[allow(clippy::cast_possible_wrap)]
        let mi = m as i64;
        for a in 0..n {
            for b in a..n {
                let sum = (a + 1) + (b + 1);
                let k = if sum >= m { sum - m } else { sum };
                for col in 0..n {
                    let mut v = u[(a, col)] + u[(b, col)];
                    if k != 0 {
                        v -= u[(k - 1, col)];
                    }
                    assert_eq!(
                        v % mi,
                        0,
                        "m={m} pair ({},{}) col {col}: unscaled entry {v} not ≡ 0 (mod {m})",
                        a + 1,
                        b + 1,
                    );
                }
            }
        }
    }
}

#[test]
fn matrix_u_pair_relations_m3_explicit() {
    // m=3, n=2. Pairs in order: (1,1), (1,2), (2,2).
    // Unscaled: [3,0], [0,3], [-3,3]; divided by 3:
    let p = u_pair_relations(3);
    let expected: &[&[i64]] = &[&[1, 0], &[0, 1], &[-1, 1]];
    assert_eq!(p.nrows(), 3);
    for (r, row) in expected.iter().enumerate() {
        for (col, &v) in row.iter().enumerate() {
            assert_eq!(p[(r, col)], v, "P(3)[{r}][{col}]");
        }
    }
}

#[test]
fn matrix_u_pair_relations_times_c_red_col0_is_kunz() {
    // P · C_red[:,0] gives c(i, j) for each pair (i, j) with i ≤ j.
    for gens in &[
        vec![3usize, 5, 7],
        vec![4, 5],
        vec![5, 7, 11],
        vec![6, 9, 20],
        vec![6, 7, 8, 9],
    ] {
        let s = compute(gens);
        let m = s.m;
        let n = m - 1;
        let p = u_pair_relations(m);
        let cr = c_red(&s);
        #[allow(clippy::cast_possible_wrap)]
        let col0: Vec<i64> = (0..n).map(|a| cr[(a, 0)] as i64).collect();
        for a in 0..n {
            for b in a..n {
                let row_idx = pair_row_idx(a, b, n);
                let mut sum = 0i64;
                for col in 0..n {
                    sum += p[(row_idx, col)] * col0[col];
                }
                #[allow(clippy::cast_possible_wrap)]
                let expected = s.kunz(a + 1, b + 1) as i64;
                assert_eq!(
                    sum,
                    expected,
                    "⟨{gens:?}⟩ pair ({},{}): c = {expected}",
                    a + 1,
                    b + 1
                );
            }
        }
    }
}

#[test]
fn matrix_u_pair_relations_diagonal_when_2i_equals_m() {
    // When 2i = m the unscaled row is U[i]+U[i]-U[0] = 2·U[i]; divided by m:
    // entry c is −1 if c < i−1 and 1 otherwise (since U[i−1][c] ∈ {i−m, i} = {−m/2, m/2}).
    for m in [2usize, 4, 6, 8] {
        let p = u_pair_relations(m);
        let n = m - 1;
        let i = m / 2;
        let row_idx = pair_row_idx(i - 1, i - 1, n);
        for col in 0..n {
            let expected = if col + 1 < i { -1 } else { 1 };
            assert_eq!(p[(row_idx, col)], expected, "m={m} col={col}");
        }
    }
}

#[test]
fn matrix_zd_vector_m3_known() {
    // zd(3)[b] = 2b − 3 + 3 = 2b; entries: [0, 2]
    let zd = zd_vector(3);
    assert_eq!(zd.nrows(), 1);
    assert_eq!(zd.ncols(), 2);
    assert_eq!(zd[(0, 0)], 0);
    assert_eq!(zd[(0, 1)], 2);
}

#[test]
fn matrix_zd_vector_m4_known() {
    // zd(4)[b] = 2b − 4 + 3 = 2b − 1; entries: [−1, 1, 3]
    let zd = zd_vector(4);
    assert_eq!(zd.nrows(), 1);
    assert_eq!(zd.ncols(), 3);
    assert_eq!(zd[(0, 0)], -1);
    assert_eq!(zd[(0, 1)], 1);
    assert_eq!(zd[(0, 2)], 3);
}

#[test]
fn matrix_zd_vector_entry_formula() {
    // zd(m)[b] = 2b − m + 3 for b = 0..m−2.
    for m in 2..=9 {
        let zd = zd_vector(m);
        for b in 0..(m - 1) {
            #[allow(clippy::cast_possible_wrap)]
            let expected = 2 * b as i64 - m as i64 + 3;
            assert_eq!(zd[(0, b)], expected, "zd({m})[{b}]");
        }
    }
}

#[test]
fn matrix_zd_times_c1_equals_f_plus_m_plus_r() {
    // zd(m) · c₁ = f + m + r  for each test semigroup.
    for gens in &[
        vec![3usize, 5, 7],
        vec![4, 5],
        vec![6, 9, 20],
        vec![5, 7, 11],
        vec![6, 7, 8, 9],
        vec![7, 11, 13, 17, 19],
    ] {
        let s = compute(gens);
        let m = s.m;
        let n = m - 1;
        let zd = zd_vector(m);
        let cr = c_red(&s);
        #[allow(clippy::cast_possible_wrap)]
        let dot: i64 = (0..n).map(|b| zd[(0, b)] * cr[(b, 0)] as i64).sum();
        #[allow(clippy::cast_possible_wrap)]
        let expected = (s.f + m + s.r) as i64;
        assert_eq!(
            dot, expected,
            "⟨{gens:?}⟩: zd·c₁ = {dot}, f+m+r = {expected}"
        );
    }
}

#[test]
fn matrix_d_matrix_equals_zd_minus_u() {
    // D(m)[a][b] = zd(m)[b] − U(m)[a][b].
    for m in 2..=8 {
        let d = d_matrix(m);
        let zd = zd_vector(m);
        let u = u_matrix(m);
        let n = m - 1;
        for a in 0..n {
            for b in 0..n {
                assert_eq!(d[(a, b)], zd[(0, b)] - u[(a, b)], "D({m})[{a}][{b}]");
            }
        }
    }
}

#[test]
fn matrix_d_matrix_times_c1_gives_diag_sums() {
    // D(m) · c₁ = (d₁, …, d_{m−1}) where dᵢ = sg.diag(i).
    for gens in &[
        vec![3usize, 5, 7],
        vec![4, 5],
        vec![6, 9, 20],
        vec![5, 7, 11],
        vec![6, 7, 8, 9],
        vec![7, 11, 13, 17, 19],
    ] {
        let s = compute(gens);
        let m = s.m;
        let n = m - 1;
        let d = d_matrix(m);
        let cr = c_red(&s);
        for i in 1..=n {
            #[allow(clippy::cast_possible_wrap)]
            let product_row: i64 = (0..n).map(|b| d[(i - 1, b)] * cr[(b, 0)] as i64).sum();
            #[allow(clippy::cast_possible_wrap)]
            let expected = s.diag(i) as i64;
            assert_eq!(
                product_row, expected,
                "⟨{gens:?}⟩: D·c₁[{i}] = {product_row}, diag({i}) = {expected}"
            );
        }
    }
}

#[test]
fn matrix_w_plus_d_equals_f_plus_m_plus_r() {
    // wᵢ + dᵢ = f + m + r for all i ∈ {1, …, m−1}.
    for gens in &[
        vec![3usize, 5, 7],
        vec![4, 5],
        vec![6, 9, 20],
        vec![5, 7, 11],
        vec![6, 7, 8, 9],
        vec![7, 11, 13, 17, 19],
    ] {
        let s = compute(gens);
        let m = s.m;
        let n = m - 1;
        let d = d_matrix(m);
        let cr = c_red(&s);
        #[allow(clippy::cast_possible_wrap)]
        let target = (s.f + m + s.r) as i64;
        for i in 1..=n {
            #[allow(clippy::cast_possible_wrap)]
            let di: i64 = (0..n).map(|b| d[(i - 1, b)] * cr[(b, 0)] as i64).sum();
            #[allow(clippy::cast_possible_wrap)]
            let wi = s.apery_set[i] as i64;
            assert_eq!(
                wi + di,
                target,
                "⟨{gens:?}⟩: w_{i} + d_{i} = {}, expected f+m+r = {target}",
                wi + di
            );
        }
    }
}

#[test]
fn matrix_index_operator_read_write() {
    let mut m = DenseMatrix::<i64>::zero(3, 3);
    m.set(1, 2, 42);
    assert_eq!(m[(1, 2)], 42);
    assert_eq!(m.get(1, 2), 42);
}

#[test]
fn dense_index_operator_read_write() {
    let mut m = DenseMatrix::<i64>::zero(3, 3);
    m.set(1, 2, 42);
    assert_eq!(m[(1, 2)], 42);
    assert_eq!(m.get(1, 2), 42);
    assert_eq!(m[(2, 1)], 0);
}

#[test]
fn checked_determinant_and_inverse() {
    assert_eq!(mat_i(2, 2, &[1, 2, 3, 4]).det_checked(), Some(-2));
    assert_eq!(mat_i(2, 2, &[i64::MAX, 2, 2, i64::MAX]).det_checked(), None);
    let id = mat_i(2, 2, &[1, 0, 0, 1]);
    assert_eq!(id.inverse_checked(), Some(Some(id.clone())));
    assert_eq!(mat_i(2, 2, &[2, 0, 0, 2]).inverse_checked(), Some(None));
    assert_eq!(mat_i(2, 2, &[2, 1, 1, 1]).inverse_checked(), Some(Some(mat_i(2, 2, &[1, -1, -1, 2]))));
    assert_eq!(mat_i(2, 2, &[i64::MAX, 2, 2, i64::MAX]).inverse_checked(), None);
}

#[test]
fn u_times_c_red_closed_form_from_cyclic_apery_sums() {
    // (U·C_red)[a][b] = cyc(a + b + 1) − cyc(a) − cyc(b), cyc(n) = Σ_{k=1}^{n} w_{k mod m}.
    for gens in &[vec![4usize, 5], vec![5, 7, 11], vec![6, 9, 20]] {
        let s = compute(gens);
        let m = s.m;
        let cyc = |n: usize| -> i64 { (1..=n).map(|k| s.apery_set[k % m] as i64).sum() };
        let product = u_times_c_red(&c_red(&s));
        for a in 0..(m - 1) {
            for b in 0..(m - 1) {
                assert_eq!(product[(a, b)], cyc(a + b + 1) - cyc(a) - cyc(b), "entry ({a},{b}) of ⟨{gens:?}⟩");
            }
        }
    }
}
