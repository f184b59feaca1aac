//! The probes on `S′ = S ∪ {f}`.
use semigroup_math::compute::compute;
use semigroup_math::listing::Listed;
use semigroup_math::probes::{asym_anomalies, asym_apery_shift, asym_ri_hist, closure};

fn row(gens: &[usize]) -> Listed {
    let sg = compute(gens);
    Listed {
        g: sg.g,
        m: sg.m,
        q1: 1,
        c1: vec![],
        sg,
        wilf4: String::new(),
        inv_e4: String::new(),
        wilf6: String::new(),
        inv_e6: String::new(),
    }
}

#[test]
fn closure_adds_the_frobenius_number() {
    let s2 = closure(&compute(&[3, 5, 7]));
    assert_eq!(s2.gen_set, vec![3, 4, 5]);
    assert_eq!((s2.f, s2.g), (2, 2));
    let s2 = closure(&compute(&[3, 7, 11]));
    assert_eq!(s2.gen_set, vec![3, 7, 8]);
}

#[test]
fn anomalies_of_one_reflected_gap() {
    let rows = vec![row(&[3, 4, 5]), row(&[3, 7, 11]), row(&[6, 9, 20])];
    let (total, lines) = asym_anomalies(&rows);
    assert_eq!(total, 2);
    assert_eq!(
        lines,
        vec!["  asym \u{27e8}3, 4, 5\u{27e9} g=2 f=2 \u{2192} S\u{2032}=\u{27e8}2, 3\u{27e9} g\u{2032}=1 f\u{2032}=1 m\u{2032}=2 ae\u{2032}=3 f\u{2032}+m\u{2032}=3 [2g+1]".to_string()]
    );
}

#[test]
fn apery_shift_buckets() {
    let rows = vec![row(&[3, 7]), row(&[2, 5]), row(&[3, 8]), row(&[3, 4, 5])];
    let (total, lines) = asym_apery_shift(&rows);
    assert_eq!(total, 3);
    assert_eq!(
        lines,
        vec![
            format!("  {}  {:<14}  {}", "level<3 ", "apery_fail", 1),
            format!("  {}  {:<14}  {}", "level>=3", "all_three_ok", 2),
        ]
    );
}

#[test]
fn ri_histogram_of_deep_level_three() {
    let rows = vec![row(&[3, 7]), row(&[3, 8]), row(&[2, 5])];
    let (total_s, total_classes, lines) = asym_ri_hist(&rows);
    assert_eq!((total_s, total_classes), (2, 4));
    assert_eq!(lines, vec!["  r_i=0  2".to_string(), "  r_i=1  2".to_string()]);
}
