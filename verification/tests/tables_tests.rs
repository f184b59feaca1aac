//! The Kunz table of the first calculator view.
use semigroup_math::compute::compute;
use semigroup_math::grid;
use semigroup_math::tables::{combined_table, kunz_table, structure_table};

#[test]
fn kunz_table_of_three_five_seven() {
    let s = compute(&[3, 5, 7]);
    assert_eq!(
        kunz_table(&s),
        "<table class=\"kunz-table\"><thead><tr><th>&#x3A3;</th><th>0</th><th>1</th><th>2</th></tr></thead><tbody>\
<tr><td class=\"sg-apery\">0</td><td>0</td><td>0</td><td>0</td></tr>\
<tr><td class=\"sg-gen\">7</td><td>0</td><td>3</td><td>4</td></tr>\
<tr><td class=\"sg-gen\">5</td><td>0</td><td>4</td><td>1</td></tr></tbody></table>"
    );
}

#[test]
fn kunz_table_marks_inner_zeros_and_sums_to_apery() {
    // ⟨3, 4⟩: Ap = {0, 4, 8}; 4 + 4 = 8 leaves c(1, 1) = 0.
    let s = compute(&[3, 4]);
    let t = kunz_table(&s);
    assert!(t.contains("<tr><td class=\"sg-gen\">4</td><td>0</td><td class=\"kunz-zero\">0</td><td>4</td></tr>"));
    assert!(t.contains("<tr><td class=\"sg-apery\">8</td><td>0</td><td>4</td><td>4</td></tr>"));
    assert!(!t.contains("<td class=\"kunz-zero\">0</td><td>0</td></tr>"));
}

#[test]
fn structure_table_of_three_five_seven() {
    let s = compute(&[3, 5, 7]);
    assert_eq!(
        structure_table(&s, 0, 3),
        "<table class=\"sg-grid\"><thead><tr><th>0</th><th>1</th><th>2</th></tr></thead><tbody>\
<tr><td class=\"sg-large\">9</td><td class=\"sg-large\">10</td><td class=\"sg-large\">11</td></tr>\
<tr><td class=\"sg-in\">6</td><td class=\"sg-gen\">7</td><td class=\"sg-large\">8</td></tr>\
<tr><td class=\"sg-gen\">3</td><td class=\"sg-frob\">4</td><td class=\"sg-gen\">5</td></tr>\
<tr><td class=\"sg-apery\">0</td><td class=\"sg-out\">1</td><td class=\"sg-pf\">2</td></tr></tbody></table>"
    );
}

#[test]
fn structure_table_with_offset_adds_a_bottom_row() {
    let s = compute(&[3, 5, 7]);
    let t = structure_table(&s, 1, 3);
    assert!(t.starts_with("<table class=\"sg-grid\"><thead><tr><th>1</th><th>2</th><th>0</th></tr></thead><tbody>"));
    assert!(t.ends_with(
        "<tr><td class=\"sg-out\">1</td><td class=\"sg-pf\">2</td><td class=\"sg-gen\">3</td></tr>\
<tr><td class=\"sg-empty\"></td><td class=\"sg-empty\"></td><td class=\"sg-apery\">0</td></tr></tbody></table>"
    ));
}

#[test]
fn structure_table_tells_reflected_gaps_from_pseudo_frobenius() {
    // ⟨5, 7, 9⟩: f = 13; 2 and 11 are reflected gaps, only 11 is pseudo-Frobenius.
    let s = compute(&[5, 7, 9]);
    let t = structure_table(&s, 0, 5);
    assert!(t.contains("<td class=\"sg-blob\">2</td>"));
    assert!(t.contains("<td class=\"sg-pf\">11</td>"));
    assert!(t.contains("<td class=\"sg-frob\">13</td>"));
}

#[test]
fn first_combined_table_keeps_classes_between_f_and_f_plus_m() {
    // ⟨3, 5, 7⟩: f = 4, m = 3; 6 lies in (f, f + m] but is no Apéry element.
    let s = compute(&[3, 5, 7]);
    let first = combined_table(&s, 0, 0, true);
    let current = grid::combined_table(&s, 0, 0, true, false);
    assert!(first.contains("<span class=\"sg-in\" data-n=\"6\">6</span>"));
    assert!(current.contains("<span class=\"sg-large\" data-n=\"6\">6</span>"));
    assert_eq!(
        first.replace("<span class=\"sg-in\" data-n=\"6\">", "<span class=\"sg-large\" data-n=\"6\">"),
        current
    );
    // ⟨4, 5, 6, 7⟩: the generator 4 is no Apéry element.
    let s = compute(&[4, 5, 6, 7]);
    let first = combined_table(&s, 1, 0, false);
    assert!(first.contains("<span class=\"sg-gen\" data-n=\"4\">4</span>"));
    assert!(first.starts_with("<table class=\"sg-grid\"><thead><tr><th>1</th><th>2</th><th>3</th><th>0</th></tr></thead><tbody>"));
    assert!(!first.contains("data-kunz-i"));
}
