//! HTML and text views: spans, glyphs, the test-case record, the strata
//! grid, the combined grid, the tilted grid and the classification table.
use semigroup_math::compute::compute;
use semigroup_math::grid::{classify_table, combined_table, tilt_table};
use semigroup_math::diagonals::{diagonals_table, render_rn_block};
use semigroup_math::html::{cell_cls, glyph, kunz_cls, span, strata_table, testcase_csv};

#[test]
fn renders_header_and_rows_in_top_down_order() {
    let chain = vec![vec![], vec![1, 3], vec![1, 2, 3]];
    let html = strata_table(&chain, 4);
    // Levels in reverse order: 2 first, then 1, then 0.
    let l2_pos = html.find("<th>2</th><td").unwrap();
    let l1_pos = html.find("<th>1</th><td").unwrap();
    let l0_pos = html.find("<th>0</th><td").unwrap();
    assert!(l2_pos < l1_pos && l1_pos < l0_pos);
    assert!(html.contains("data-l=\"1\" data-v=\"3\">3</td>"));
    assert!(html.contains("strata-foot"));
}

#[test]
fn empty_chain_still_renders_headers() {
    let html = strata_table(&[], 3);
    assert!(html.contains("<th>1</th>"));
    assert!(html.contains("strata-foot"));
}

#[test]
fn strata_table_exact_small() {
    let chain = vec![vec![2]];
    let html = strata_table(&chain, 2);
    assert_eq!(
        html,
        "<table class=\"strata-grid\"><thead><tr><th></th><th>1</th><th>2</th></tr></thead><tbody>\
         <tr><th>0</th><td class=\"strata-out\" data-l=\"0\" data-v=\"1\"></td>\
         <td class=\"strata-in\" data-l=\"0\" data-v=\"2\">2</td></tr>\
         <tr class=\"strata-foot\"><th></th><th>1</th><th>2</th></tr></tbody></table>"
    );
}

#[test]
fn round_trip_matches_first_fixture_row() {
    let sg = compute(&[6, 9, 20]);
    let expected = "6 9 20;3;43;6;22;22;true;0 49 20 9 40 29;43;1";
    assert_eq!(testcase_csv(&sg), expected);
}

#[test]
fn testcase_csv_non_symmetric() {
    let sg = compute(&[3, 5, 7]);
    assert_eq!(testcase_csv(&sg), "3 5 7;3;4;3;3;2;false;0 7 5;2 4;2");
}

#[test]
fn span_with_and_without_data() {
    assert_eq!(span("sg-gen", 5, true), "<span class=\"sg-gen\" data-n=\"5\">5</span>");
    assert_eq!(span("sg-gen", 5, false), "<span class=\"sg-gen\">5</span>");
    assert_eq!(span("x", 120, false), "<span class=\"x\">120</span>");
}

#[test]
fn glyphs_and_kunz_classes() {
    assert_eq!(glyph(true), "\u{2705}");
    assert_eq!(glyph(false), "\u{1F6AB}");
    assert_eq!(kunz_cls(0), "kunz-zero");
    assert_eq!(kunz_cls(3), "");
}

#[test]
fn cell_classes_of_3_5_7() {
    let s = compute(&[3, 5, 7]);
    assert_eq!(cell_cls(0, &s), "sg-apery");
    assert_eq!(cell_cls(1, &s), "sg-out");
    assert_eq!(cell_cls(2, &s), "sg-pf-blob");
    assert_eq!(cell_cls(3, &s), "sg-gen");
    assert_eq!(cell_cls(4, &s), "sg-frob");
    assert_eq!(cell_cls(5, &s), "sg-gen");
    assert_eq!(cell_cls(6, &s), "sg-large");
    assert_eq!(cell_cls(7, &s), "sg-gen");
    assert_eq!(cell_cls(8, &s), "sg-large");
}

#[test]
fn combined_table_untilted() {
    let s = compute(&[3, 5, 7]);
    let html = combined_table(&s, 0, 0, true, false);
    assert!(html.starts_with(
        "<table class=\"sg-grid\"><thead><tr><th>0</th><th>1</th><th>2</th></tr></thead><tbody><tr>"
    ));
    assert!(html.contains(
        "<tr><td data-res=\"0\"><span class=\"sg-gen\" data-n=\"3\">3</span></td>\
         <td data-res=\"1\"><span class=\"sg-frob\" data-n=\"4\">4</span></td>\
         <td data-res=\"2\"><span class=\"sg-gen\" data-n=\"5\">5</span></td></tr>"
    ));
    assert!(html.contains("<td data-k=\"1\"><span class=\"sg-gen\" data-n=\"7\">7</span></td>"));
    assert!(html.contains(
        "<td class=\"\" data-kunz-i=\"1\" data-kunz-j=\"1\" data-kunz-sum=\"2\">3</td>"
    ));
    assert!(html.contains("<tr class=\"residue-sep-row\">"));
    assert!(html.ends_with("</tr></tbody></table>"));
    let no_kunz = combined_table(&s, 0, 0, false, false);
    assert!(!no_kunz.contains("data-kunz-i"));
}

#[test]
fn combined_table_tilted_and_strata() {
    let s = compute(&[3, 5, 7]);
    let html = combined_table(&s, 0, 1, false, true);
    assert!(html.starts_with("<table class=\"sg-grid sg-grid-strata\"><thead><tr><th>0</th>"));
    assert!(html.contains("<td class=\"sg-empty\"></td>"));
    assert!(html.contains("strata-"));
}

#[test]
fn tilt_table_axes() {
    let s = compute(&[3, 5, 7]);
    let html = tilt_table(&s, 0);
    assert!(html.starts_with("<table class=\"sg-grid tilt-grid\"><thead><tr><th>y\\x</th><th>-9</th>"));
    assert!(html.contains("<th class=\"tilt-axis\">0</th>"));
    assert!(html.contains("<tr><th class=\"tilt-axis\">0</th>"));
    assert!(html.contains("<td class=\"tilt-axis\"><span class=\"sg-frob\" data-n=\"4\">4</span></td>"));
    assert!(html.contains("<td class=\"sg-empty\"></td>"));
    // Rows run from y = 3m down to y = −3m.
    assert!(html.contains("</thead><tbody><tr><th>9</th>"));
    assert!(html.contains("<tr><th>-9</th><td class=\"sg-empty\"></td>"));
    assert_eq!(html.matches("<tr><th").count(), 1 + 19);
}

#[test]
fn tilt_table_bottom_row_is_empty() {
    let s = compute(&[3, 5, 7]);
    let html = tilt_table(&s, 1);
    let last = &html[html.rfind("<tr><th>-9</th>").unwrap()..];
    assert_eq!(last.matches("<td class=\"sg-empty\"></td>").count(), 18);
    assert!(last.contains("<td class=\"sg-empty tilt-axis\"></td>"));
    assert!(last.ends_with("</tr></tbody></table>"));
}

#[test]
fn classify_table_rows() {
    let s = compute(&[3, 5, 7]);
    let html = classify_table(&s);
    assert!(html.starts_with(
        "<table class=\"classify-table\"><thead><tr><th>n</th><th>class</th><th>Diff</th></tr></thead><tbody>"
    ));
    assert!(html.contains(
        "<tr><td class=\"cl-n\"><span class=\"sg-pf-blob\" data-n=\"2\">2</span></td>\
         <td class=\"cl-reflect\">reflected gap</td><td class=\"cl-diff\">\
         <span class=\"sg-gen\">7</span>\u{2212}<span class=\"sg-gen\">5</span></td></tr>"
    ));
    assert!(html.contains("<td class=\"cl-zero\">zero</td>"));
    assert!(html.contains("<td class=\"cl-in\">f=f(S) Frobenius</td>"));
    assert!(html.contains("data-n=\"7\">7</span></td><td class=\"cl-in\">minimal Generator</td>"));
    assert!(html.ends_with("</tbody></table>"));
}

fn assert_rn_identities(gens: &[usize]) {
    let sg = compute(gens);
    let html = render_rn_block(&sg);
    // Both identity checks must render the green tick.
    assert!(
        html.contains("\u{2713}") && !html.contains("\u{2717}"),
        "rn block reported a failure for gens={gens:?}:\n{html}"
    );
    // The RSym·rv block always appears (even when the +1/−1 row μ cancels
    // to zero), so the "= 0?" header should be present.
    assert!(html.contains("= 0?"), "missing RSym·rv table for {gens:?}");
}

#[test]
fn rn_identities_small_examples() {
    // Symmetric ⟨3, 5, 7⟩: r = 0.
    assert_rn_identities(&[3, 5, 7]);
    // Almost-symmetric ⟨4, 5, 6⟩.
    assert_rn_identities(&[4, 5, 6]);
    // Generic ⟨5, 7, 9, 11⟩.
    assert_rn_identities(&[5, 7, 9, 11]);
    // Larger multiplicity ⟨7, 9, 11, 13⟩.
    assert_rn_identities(&[7, 9, 11, 13]);
}

#[test]
fn rn_block_of_3_5_7() {
    let html = render_rn_block(&compute(&[3, 5, 7]));
    // r_1 = c(1, 0) = 0, r_2 = c(2, 2) = 1 (μ = 1); q = (2, 1), n = (2, 0).
    assert!(html.contains("<tr><th></th><td class=\"rn-mu\">0</td><td>1</td><td>2</td><td>0</td><td>1</td></tr>"));
    assert!(html.contains("<td>\u{2212}3</td>"));
    assert!(html.contains("<tr><th></th><td>0</td><td>0</td><td>0</td><td>\u{2713}</td></tr>"));
    assert_eq!(render_rn_block(&compute(&[1])), "");
}

#[test]
fn diagonals_table_of_3_5_7() {
    let html = diagonals_table(&compute(&[3, 5, 7]));
    assert!(html.starts_with("<div class=\"diagonals-pane\"><div class=\"table-wrap\">"));
    assert!(html.contains("det(U(m)) = m<sup>m\u{2212}2</sup> = 3<sup>1</sup></p>"));
    assert!(html.contains("= 3\u{b7}I<sub>2</sub></p>"));
    assert!(html.contains("<thead><tr><th>U(m)</th><th>1</th><th>2</th></tr></thead><tbody><tr><th>1</th><td>1</td><td>1</td></tr><tr><th>2</th><td>-1</td><td>2</td></tr></tbody>"));
    assert!(html.contains("<tr><th>(1,1)</th>"));
    assert!(html.contains("<tr><th>(1,2)</th>"));
    assert!(html.contains("<tr><th>one\u{b7}U(m)</th><td>0</td><td>3</td></tr>"));
    assert!(html.contains("<th>one\u{b7}U(m)\u{b7}c<sub>1</sub></th><td colspan=\"2\">12</td>"));
    assert!(html.contains("<th>mg + (m\u{2212}1)m/2</th><td colspan=\"2\">12</td>"));
    assert!(html.contains("<tr><th>D(m)\u{b7}c<sub>1</sub></th><td>1</td><td>3</td></tr>"));
    assert!(html.contains("<th>zd(m)\u{b7}c<sub>1</sub></th><td colspan=\"2\">8</td>"));
    assert!(html.contains("<tr><th>f+m+r</th><td colspan=\"2\">8</td>"));
    assert!(html.contains("<tr><th>2g+m\u{2212}1</th><td colspan=\"2\">8</td>"));
    assert!(html.contains("<tr><th>1</th><td><span class=\"sg-gen\" data-n=\"7\">7</span></td>"));
    assert!(html.ends_with("</table></div></div>"));
}
