//! The list page, its JSON twin and the level/μ counts.
use semigroup_math::compute::compute;
use semigroup_math::listing::{
    build_list_html, build_list_json, level_mu_counts, props_cells, sort_order, Listed,
};

fn row(g: usize, m: usize, q1: usize, c1: Vec<i64>, gens: &[usize]) -> Listed {
    Listed {
        g,
        m,
        q1,
        c1,
        sg: compute(gens),
        wilf4: "W4".to_string(),
        inv_e4: "E4".to_string(),
        wilf6: "W6".to_string(),
        inv_e6: "E6".to_string(),
    }
}

#[test]
fn props_cells_of_3_5_7() {
    let s = compute(&[3, 5, 7]);
    let expected = "<td>4</td><td>0</td><td>3</td><td>2</td><td>3</td><td>1</td><td>2</td><td>1</td><td>1</td><td>1</td>\
<td>\u{1F6AB}</td><td>\u{2705}</td><td>1</td>\
<td><input class=\"gens\" type=\"text\" readonly value=\"3, 5, 7\"></td>\
<td><input class=\"pfs\" type=\"text\" readonly value=\"2, 4\"></td>\
<td>0.4000</td><td>0.3333</td><td>1</td><td>\u{1F6AB}</td><td>\u{1F6AB}</td>";
    assert_eq!(props_cells(&s, "0.4000", "0.3333"), expected);
}

#[test]
fn sort_order_follows_genus_multiplicity_slice_and_point() {
    let rows = vec![
        row(3, 3, 1, vec![1, 0], &[3, 5, 7]),
        row(2, 3, 1, vec![0, 1], &[3, 4]),
        row(3, 3, 1, vec![0, 2], &[3, 4, 5]),
        row(3, 2, 2, vec![], &[2, 7]),
        row(3, 3, 1, vec![0], &[3, 5, 7]),
    ];
    assert_eq!(sort_order(&rows), vec![1, 3, 4, 2, 0]);
}

#[test]
fn list_page_anchors_each_genus_once() {
    let rows = vec![
        row(3, 3, 1, vec![1, 0], &[3, 5, 7]),
        row(2, 3, 1, vec![0, 1], &[3, 4, 5]),
        row(3, 2, 2, vec![-1], &[2, 7]),
    ];
    let html = build_list_html(2, &rows);
    assert!(html.starts_with("<!DOCTYPE html>\n<html lang=\"en\">\n<head>\n<meta charset=\"UTF-8\">\n<title>Numerical Semigroups \u{2014} genus 2 to 2 (list)</title>\n<style>\n"));
    assert!(html.contains("<h1>Numerical Semigroups \u{2014} genus 2 to 2 (list)</h1>\n<p>One row per numerical semigroup"));
    assert!(html.contains("<th class=\"sep\">c<sub>1,1</sub></th><th>c<sub>1,2</sub></th></tr></thead><tbody>\n"));
    assert_eq!(html.matches("<tr id=\"g2\">").count(), 1);
    assert_eq!(html.matches("<tr id=\"g3\">").count(), 1);
    assert_eq!(html.matches("<tr><td>3</td>").count(), 1);
    let g2 = html.find("<tr id=\"g2\"><td>2</td><td>3</td>").unwrap();
    let g3 = html.find("<tr id=\"g3\"><td>3</td><td>2</td>").unwrap();
    let g3b = html.find("<tr><td>3</td><td>3</td>").unwrap();
    assert!(g2 < g3 && g3 < g3b);
    // The lattice point is padded with zeros to gmax entries.
    assert!(html.contains("<td>E4</td><td>0</td><td>\u{2705}</td><td>\u{2705}</td><td class=\"sep\">-1</td><td>0</td></tr>\n"));
    assert!(html.ends_with("</tbody></table></div>\n</body></html>\n"));
}

#[test]
fn json_lists_rows_and_level_mu_counts() {
    let rows = vec![
        row(3, 3, 1, vec![1, 0], &[3, 5, 7]),
        row(2, 3, 1, vec![0, 1], &[3, 4, 5]),
    ];
    let json = build_list_json(4, &rows);
    let expected_first = "{\"g\":2,\"m\":3,\"q1\":1,\"f\":2,\"es\":0,\"e\":3,\"sigma\":1,\"rl\":1,\"r\":1,\"ra\":1,\"fg\":1,\"type\":2,\
\"sym\":false,\"asym\":true,\"level\":0,\"wilf\":W6,\"inv_e\":E6,\"max_gen\":5,\"rho\":1,\"deep\":false,\"v_in_s\":false,\
\"gen\":[3,4,5],\"pf\":[1,2],\"apery\":[0,4,5],\"c1\":[0,1]},\n";
    assert!(json.starts_with(&format!("{{\"gmax\":4,\"semigroups\":[\n{expected_first}")), "{json}");
    assert!(json.contains("\"c1\":[1,0]}\n],\n\"level_mu_counts\":[\n"), "{json}");
    assert!(json.ends_with("{\"g\":2,\"l\":0,\"m\":3,\"mu\":2,\"n\":1},\n{\"g\":3,\"l\":1,\"m\":3,\"mu\":1,\"n\":1}\n]}\n"), "{json}");
}

#[test]
fn level_mu_counts_group_and_order_keys() {
    let rows = vec![
        row(3, 3, 1, vec![1], &[3, 5, 7]),
        row(3, 3, 1, vec![2], &[3, 5, 7]),
        row(2, 3, 1, vec![0], &[3, 4, 5]),
    ];
    assert_eq!(level_mu_counts(&rows), vec![((2, 0, 3, 2), 1), ((3, 1, 3, 1), 2)]);
}
