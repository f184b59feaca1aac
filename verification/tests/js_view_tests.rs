//! The earlier views: the classes of `get_cls` and the earlier diagonals table.
use semigroup_math::compute::compute;
use semigroup_math::diagonals::{diagonals_table, js_diagonals_table};
use semigroup_math::grid::{classify_table, js_classify_table};
use semigroup_math::html::{cell_cls, get_cls};

#[test]
fn get_cls_keeps_generators_above_f() {
    // ⟨4, 5, 6, 7⟩ has f = 3: the generator 4 lies in (f, f + m].
    let s = compute(&[4, 5, 6, 7]);
    assert_eq!(get_cls(4, false, &s), "sg-gen");
    assert_eq!(cell_cls(4, &s), "sg-large");
    assert_eq!(get_cls(8, false, &s), "sg-large");
    assert_eq!(get_cls(3, false, &s), "sg-frob");
    assert_eq!(get_cls(0, true, &s), "kunz-zero");
    assert_eq!(get_cls(3, true, &s), "");
    let s = compute(&[3, 5, 7]);
    assert_eq!(get_cls(2, false, &s), "sg-pf-blob");
    assert_eq!(get_cls(1, false, &s), "sg-out");
    assert_eq!(get_cls(6, false, &s), "sg-in");
    assert_eq!(get_cls(0, false, &s), "sg-apery");
}

#[test]
fn earlier_diagonals_table_is_part_of_the_current_one() {
    let s = compute(&[3, 5, 7]);
    let old = js_diagonals_table(&s);
    assert!(old.starts_with(
        "<div class=\"diagonals-pane\"><div class=\"table-wrap\"><table class=\"classify-table u-matrix-table\"><thead><tr><th>U(m)</th><th>1</th><th>2</th></tr></thead><tbody>"
    ));
    assert!(old.contains("<p class=\"det-note\">det(U(m)) = m<sup>m\u{2212}2</sup> = 3<sup>1</sup></p>"));
    assert!(!old.contains("V(m)") && !old.contains("D(m)"));
    // The vectors, U(m)·C_red and the pair relations come out as in the
    // current view, whose first column holds Apéry elements only.
    let start = old.find("<div class=\"table-wrap\"><table class=\"classify-table u-matrix-table\"><thead><tr><th></th>").unwrap();
    let tail = &old[start..old.len() - "</div>".len()];
    assert!(diagonals_table(&s).contains(tail));
    assert!(tail.contains("<span class=\"sg-gen\" data-n=\"7\">7</span>"));
}

#[test]
fn earlier_classification_table_differs_only_in_number_classes() {
    let s = compute(&[4, 5, 6, 7]);
    let new = classify_table(&s);
    let old = js_classify_table(&s);
    assert_eq!(
        old,
        new.replace("<span class=\"sg-large\" data-n=\"4\">4</span>", "<span class=\"sg-gen\" data-n=\"4\">4</span>")
    );
    assert_ne!(old, new);
    // ⟨3, 5, 7⟩: 6 lies in (f, f + m] and is no Apéry element.
    let s = compute(&[3, 5, 7]);
    assert_eq!(
        js_classify_table(&s),
        classify_table(&s).replace("<span class=\"sg-large\" data-n=\"6\">6</span>", "<span class=\"sg-in\" data-n=\"6\">6</span>")
    );
}

#[test]
fn diagonals_view_identities_on_6_9_20() {
    // ⟨6, 9, 20⟩: Apéry set [0, 49, 20, 9, 40, 29], g = 22, f = 43, r = 0.
    let s = compute(&[6, 9, 20]);
    let html = diagonals_table(&s);
    // 1ᵀU(m)·c₁ = Σ w_i = mg + m(m−1)/2 = 147.
    assert!(html.contains("<th>one\u{b7}U(m)\u{b7}c<sub>1</sub></th><td colspan=\"5\">147</td>"));
    assert!(html.contains("<th>mg + (m\u{2212}1)m/2</th><td colspan=\"5\">147</td>"));
    // zd(m)·c₁ = f + m + r = 2g + m − 1 = 49.
    assert!(html.contains("<th>zd(m)\u{b7}c<sub>1</sub></th><td colspan=\"5\">49</td></tr><tr><th>f+m+r</th><td colspan=\"5\">49</td></tr><tr><th>2g+m\u{2212}1</th><td colspan=\"5\">49</td>"));
    // The first column of U(m)·C_red lists w_1, …, w_5.
    let uc = &html[html.find("<th>U(m)\u{b7}C_red</th>").unwrap()..];
    let mut pos = 0;
    for w in [49, 20, 9, 40, 29] {
        let needle = format!("data-n=\"{w}\">{w}</span>");
        let at = uc[pos..].find(&needle).expect("Apéry element in the first column");
        pos += at + needle.len();
    }
    // D(m)·c₁ lists the anti-diagonal sums d_i = f + m + r − w_i.
    let dprod = &html[html.find("<th>D(m)\u{b7}c<sub>1</sub></th>").unwrap()..];
    assert!(dprod.starts_with("<th>D(m)\u{b7}c<sub>1</sub></th><td>0</td><td>29</td><td>40</td><td>9</td><td>20</td></tr>"));
    for i in 1..6 {
        assert_eq!(s.diag(i) + s.apery_set[i], 49);
    }
}
