//! Input files of the Kunz-cone slices, the way back from lattice points to
//! semigroups, and the per-genus statistics.
use semigroup_math::compute::compute;
use semigroup_math::cones::{
    apery_from_c1, bundled_normaliz_path, join_row, kappa_cone_input, kappa_to_c1, kstar_cone_input,
    kunz_cone_input, kunz_slices, same_points, semigroup_from_apery, synthetic_lattice,
};
use semigroup_math::kunz_matrices::u_pair_relations;
use semigroup_math::tally::tally_genus;

#[test]
fn join_row_spaces() {
    assert_eq!(join_row(&[1, -2, 30]), "1 -2 30");
    assert_eq!(join_row(&[]), "");
    assert_eq!(join_row(&[i64::MIN]), "-9223372036854775808");
}

#[test]
fn normaliz_paths() {
    assert_eq!(bundled_normaliz_path(false), "normaliz/normaliz-3.11.1-Linux/normaliz");
    assert_eq!(
        bundled_normaliz_path(true),
        "normaliz\\normaliz-3.11.1-Windows\\normaliz.exe"
    );
}

#[test]
fn kunz_cone_input_g3_m3_q1() {
    let pairs = u_pair_relations(3);
    let text = kunz_cone_input(3, 3, 1, &pairs);
    assert_eq!(
        text,
        "amb_space 2\ninequalities 3\n1 0\n0 1\n-1 1\ninhom_equations 2\n1 1 -4\n0 3 -12\n\
         inhom_inequalities 2\n-1 2 -5\n0 -1 4\n"
    );
}

#[test]
fn kstar_cone_input_g3_m3_q1_k1() {
    let pairs = u_pair_relations(3);
    let text = kstar_cone_input(3, 3, 1, 1, &pairs);
    assert_eq!(
        text,
        "amb_space 2\ninequalities 3\n1 0\n0 1\n-1 1\ninhom_equations 2\n1 1 -4\n0 3 -12\n\
         inhom_inequalities 3\n-1 2 -5\n0 -1 4\n1 0 -1\n"
    );
    let text2 = kstar_cone_input(3, 3, 1, 2, &pairs);
    assert!(text2.ends_with("inhom_inequalities 3\n-1 2 -5\n0 -1 4\n-1 0 0\n"));
}

#[test]
fn kappa_cone_input_g3_m3_q1() {
    assert_eq!(
        kappa_cone_input(3, 3, 1),
        "amb_space 1\ninhom_inequalities 3\n-1 2\n2 0\n1 -1\ninhom_equations 1\n1 -2\n"
    );
}

#[test]
fn kappa_and_c1_of_3_5_7() {
    // ⟨3,5,7⟩: w = (0, 7, 5), q₁ = 2, κ₂ = 1, c₁ = (3, 4).
    assert_eq!(kappa_to_c1(&[1], 2), vec![3, 4]);
    assert_eq!(kappa_to_c1(&[], 3), vec![6]);
    assert_eq!(kappa_to_c1(&[1, 2], 1), vec![1, 0, 4]);
    assert_eq!(apery_from_c1(3, 2, &[3, 4]), vec![0, 7, 5]);
    let s = semigroup_from_apery(3, &[0, 7, 5]);
    assert_eq!(s.gen_set, vec![3, 5, 7]);
    assert_eq!(s.f, 4);
}

#[test]
fn point_lists_compare_as_multisets() {
    let a = vec![vec![1, 2], vec![3], vec![1, 2]];
    let b = vec![vec![3], vec![1, 2], vec![1, 2]];
    let c = vec![vec![3], vec![1, 2], vec![3]];
    assert!(same_points(&a, &b));
    assert!(!same_points(&a, &c));
    assert!(!same_points(&a, &vec![vec![1, 2], vec![3]]));
    assert!(same_points(&vec![], &vec![]));
}

#[test]
fn slices_of_genus_4() {
    assert_eq!(kunz_slices(4), vec![(3, 1), (3, 2), (3, 3), (4, 1), (4, 2)]);
    assert_eq!(kunz_slices(2), vec![]);
}

#[test]
fn synthetic_cells() {
    let (q1, (pt, s)) = synthetic_lattice(4, 2).unwrap();
    assert_eq!(q1, 4);
    assert_eq!(pt, vec![9]);
    assert_eq!(s.gen_set, vec![2, 9]);
    assert_eq!(s.g, 4);
    let (q1, (pt, s)) = synthetic_lattice(3, 4).unwrap();
    assert_eq!(q1, 1);
    assert_eq!(pt, vec![1, 1, 3]);
    assert_eq!(s.gen_set, vec![4, 5, 6, 7]);
    assert_eq!(s.g, 3);
    assert!(synthetic_lattice(3, 3).is_none());
}

#[test]
fn tally_of_one_semigroup() {
    let s = compute(&[3, 5, 7]);
    let data = vec![(3usize, 2usize, 1usize, vec![(vec![3i64, 4], s)])];
    let t = tally_genus(3, &data, 5);
    assert_eq!(t.total, 1);
    assert_eq!(t.zero, 0);
    assert_eq!(t.w1gen, 1);
    assert_eq!(t.sym, 0);
    assert_eq!(t.asym, 1);
    assert_eq!(t.ae_fm_2g_plus_1, 1);
    assert_eq!(t.ae_fm_2g, 0);
    assert_eq!(t.f_vs_m, vec![0, 1, 0, 0]);
    assert_eq!(t.by_m, vec![0, 0, 0, 1, 0]);
    assert_eq!(t.by_e, vec![0, 0, 0, 1, 0]);
    assert_eq!(t.by_t, vec![0, 0, 1, 0, 0]);
    assert_eq!(t.by_r, vec![0, 1, 0, 0, 0]);
}

#[test]
fn tally_of_a_symmetric_pair() {
    let a = compute(&[3, 4]);
    let b = compute(&[2, 7]);
    let data = vec![(2usize, 3usize, 1usize, vec![(vec![7i64], b)]), (3usize, 1usize, 1usize, vec![(vec![0i64, 3], a)])];
    let t = tally_genus(3, &data, 4);
    assert_eq!(t.total, 2);
    assert_eq!(t.zero, 1);
    assert_eq!(t.sym, 2);
    assert_eq!(t.by_m, vec![0, 0, 1, 1]);
    // ⟨3,4⟩ has f = 5 (between m and 2m), ⟨2,7⟩ has f = 5 (between 2m and 3m).
    assert_eq!(t.f_vs_m, vec![0, 1, 1, 0]);
    assert_eq!(t.f_vs_m.iter().sum::<usize>(), t.total);
}

#[test]
fn points_missing_samples_each_side() {
    let a = vec![vec![1, 2], vec![3, 4], vec![5, 6], vec![7, 8], vec![9, 10]];
    let b = vec![vec![3, 4], vec![0, 0]];
    assert_eq!(semigroup_math::cones::points_missing(&a, &b, 3), vec![vec![1, 2], vec![5, 6], vec![7, 8]]);
    assert_eq!(semigroup_math::cones::points_missing(&b, &a, 3), vec![vec![0, 0]]);
    assert!(semigroup_math::cones::points_missing(&a, &a, 3).is_empty());
}

#[test]
fn pair_relation_rows_times_c1_are_kunz_coefficients() {
    use_pair_relations_check(&[6, 9, 20]);
    use_pair_relations_check(&[5, 7, 9, 11]);
}

fn use_pair_relations_check(gens: &[usize]) {
    let s = compute(gens);
    let m = s.m;
    let p = u_pair_relations(m);
    let mut row = 0;
    for a in 0..m - 1 {
        for b in a..m - 1 {
            let mut total: i64 = 0;
            for col in 0..m - 1 {
                total += p.get(row, col) * s.kunz(col + 1, 1) as i64;
            }
            assert_eq!(total, s.kunz(a + 1, b + 1) as i64, "{gens:?} ({a}, {b})");
            row += 1;
        }
    }
}

#[test]
fn kstar_triples_refine_each_slice() {
    let t = semigroup_math::cones::kstar_triples(&vec![(3, 1), (4, 2), (1, 5)]);
    assert_eq!(t, vec![(3, 1, 1), (3, 1, 2), (4, 2, 1), (4, 2, 2), (4, 2, 3)]);
    assert!(semigroup_math::cones::kstar_triples(&vec![]).is_empty());
}

#[test]
fn kunz_quotients_convert_to_the_first_kunz_column() {
    // κ_k = (w_k − k)/m; converting (κ₂, …, κ_{m−1}) with q₁ = κ₁ gives c(1, j).
    for gens in [vec![5usize, 7, 9], vec![3, 5, 7], vec![6, 9, 20], vec![7, 11, 13, 17]] {
        let s = compute(&gens);
        let m = s.m;
        let kappa: Vec<i64> = (2..m).map(|k| ((s.apery_set[k] - k) / m) as i64).collect();
        let q1 = (s.apery_set[1] - 1) / m;
        let c1 = kappa_to_c1(&kappa, q1);
        let expected: Vec<i64> = (1..m).map(|j| s.kunz(1, j) as i64).collect();
        assert_eq!(c1, expected, "{gens:?}");
    }
    // ⟨5,7,9⟩: Apéry (0, 16, 7, 18, 9), κ = (3; 1, 3, 1).
    assert_eq!(kappa_to_c1(&[1, 3, 1], 3), vec![5, 1, 5, 5]);
    // Different points give different images.
    assert_ne!(kappa_to_c1(&[1, 3, 1], 3), kappa_to_c1(&[1, 3, 2], 3));
}

#[test]
fn each_point_lies_in_exactly_one_kstar_slice() {
    // The strict and non-strict rows of k* hold at the point c₁ of a
    // semigroup for exactly one k*: the smallest class k whose Kunz quotient
    // κ_k = (w_k − k)/m is largest.
    for gens in [vec![5usize, 7, 9], vec![4, 5], vec![6, 9, 20], vec![7, 11, 13, 17], vec![5, 6, 13]] {
        let s = compute(&gens);
        let m = s.m;
        let q1 = (s.apery_set[1] - 1) / m;
        let c: Vec<i64> = (1..m).map(|j| s.kunz(1, j) as i64).collect();
        let pairs = u_pair_relations(m);
        let mut holding = Vec::new();
        for kstar in 1..m {
            let text = kstar_cone_input(s.g, m, q1, kstar, &pairs);
            let tail = text.split("inhom_inequalities ").nth(1).unwrap();
            let rows: Vec<Vec<i64>> = tail
                .lines()
                .skip(1)
                .map(|l| l.split(' ').map(|x| x.parse().unwrap()).collect())
                .collect();
            let tie_rows = &rows[rows.len() - (m - 2)..];
            let holds = tie_rows
                .iter()
                .all(|r| (0..m - 1).map(|a| r[a] * c[a]).sum::<i64>() + r[m - 1] >= 0);
            if holds {
                holding.push(kstar);
            }
        }
        let kappa: Vec<usize> = (1..m).map(|k| (s.apery_set[k] - k) / m).collect();
        let top = *kappa.iter().max().unwrap();
        let first = kappa.iter().position(|&k| k == top).unwrap() + 1;
        assert_eq!(holding, vec![first], "{gens:?}");
    }
}
