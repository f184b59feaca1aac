//! The GAP script and the summary row, on ⟨3, 5, 7⟩ and ⟨6, 9, 20⟩.
use semigroup_math::compute::compute;
use semigroup_math::gap_script::{gap_block, to_gap};
use semigroup_math::html::{shortprop, shortprop_cells};

const BLOCK_3_5_7: &str = "# \u{2500}\u{2500} Semigroup 1: <3, 5, 7> \u{2500}\u{2500}\n\
ng1 := NumericalSemigroup(3,5,7);\n\
Assert(0, Multiplicity(ng1) = 3);\n\
Assert(0, FrobeniusNumber(ng1) = 4);\n\
Assert(0, EmbeddingDimension(ng1) = 3);\n\
Assert(0, GenusOfNumericalSemigroup(ng1) = 3);\n\
Assert(0, 1 + FrobeniusNumber(ng1) - GenusOfNumericalSemigroup(ng1) = 2);\n\
Assert(0, IsSymmetric(ng1) = false);\n\
Assert(0, AperyList(ng1, 3) = [0,7,5]);\n\
Assert(0, Set(PseudoFrobeniusOfNumericalSemigroup(ng1)) = Set([2,4]));\n\
Assert(0, TypeOfNumericalSemigroup(ng1) = 2);\n\n";

#[test]
fn gap_block_of_3_5_7() {
    let s = compute(&[3, 5, 7]);
    assert_eq!(gap_block(&s, 1), BLOCK_3_5_7);
}

#[test]
fn gap_block_of_a_symmetric_semigroup() {
    let s = compute(&[6, 9, 20]);
    let block = gap_block(&s, 7);
    assert!(block.starts_with("# \u{2500}\u{2500} Semigroup 7: <6, 9, 20> \u{2500}\u{2500}\nng7 := NumericalSemigroup(6,9,20);\n"));
    assert!(block.contains("Assert(0, FrobeniusNumber(ng7) = 43);\n"));
    assert!(block.contains("Assert(0, IsSymmetric(ng7) = true);\n"));
    assert!(block.contains("Set([43])"));
    assert!(block.ends_with("Assert(0, TypeOfNumericalSemigroup(ng7) = 1);\n\n"));
}

#[test]
fn to_gap_numbers_blocks_from_one() {
    let a = compute(&[3, 5, 7]);
    let b = compute(&[6, 9, 20]);
    let script = to_gap(&[a.clone(), b.clone()]);
    let expected = format!(
        "# Generated by f3m \u{2014} paste into GAP or run with 'gap <file>'\n\
         # Requires: LoadPackage(\"NumericalSgps\");\n\n\
         LoadPackage(\"NumericalSgps\");;\n\n{}{}Print(\"All assertions passed.\\n\");\n",
        gap_block(&a, 1),
        gap_block(&b, 2)
    );
    assert_eq!(script, expected);
    assert!(script.contains(BLOCK_3_5_7));
}

#[test]
fn to_gap_of_nothing_is_preamble_and_final_print() {
    let script = to_gap(&[]);
    assert!(script.starts_with("# Generated by f3m"));
    assert!(script.ends_with("LoadPackage(\"NumericalSgps\");;\n\nPrint(\"All assertions passed.\\n\");\n"));
}

#[test]
fn shortprop_cells_of_3_5_7() {
    let s = compute(&[3, 5, 7]);
    let cells = shortprop_cells(&s, "0.4000", "0.3333");
    let expected = "<td>3</td><td><span class=\"sg-frob\">4</span></td>\
<td class=\"left has-popup\"><span class=\"popup-count\">3</span><div class=\"popup\">\
<span class=\"sg-gen\">3</span>, <span class=\"sg-gen\">5</span>, <span class=\"sg-gen\">7</span></div></td>\
<td>3</td><td>2</td><td>1</td><td>";
    assert!(cells.starts_with(expected), "{cells}");
    assert!(cells.contains("<span class=\"sg-pf\">2</span>, <span class=\"sg-pf\">4</span>"), "{cells}");
    assert!(cells.ends_with("</td><td>0.4000</td><td>0.3333</td>"), "{cells}");
}

#[test]
fn shortprop_wraps_the_cells() {
    let s = compute(&[6, 9, 20]);
    let table = shortprop(&s, "0.5000", "0.3333");
    let cells = shortprop_cells(&s, "0.5000", "0.3333");
    assert!(table.starts_with("<table class=\"shortprop-table\"><thead><tr>"));
    assert!(table.ends_with(&format!("<tbody><tr>{cells}</tr></tbody></table>")));
    assert!(cells.contains("<td>\u{2705}</td>"), "{cells}");
}
