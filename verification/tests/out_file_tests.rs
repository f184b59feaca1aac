//! Reading lattice points from the text of a Normaliz `.out` file.
use semigroup_math::out_file::{chars_vec, parse_out};

const SAMPLE: &str = "3 lattice points in polytope (module generators)\n\
0 Hilbert basis elements of recession monoid\n\
embedding dimension = 3\n\
\n\
***********************************************************************\n\
\n\
3 lattice points in polytope (module generators):\n\
 1 2 1\n\
 2 1 1\n\
 0 3 1\n\
\n\
0 Hilbert basis elements of recession monoid:\n";

#[test]
fn sample_points_drop_the_last_coordinate() {
    let (count, points) = parse_out(SAMPLE);
    assert_eq!(count, 3);
    assert_eq!(points, vec![vec![1, 2], vec![2, 1], vec![0, 3]]);
}

#[test]
fn an_empty_polytope_has_no_points() {
    let text = "0 lattice points in polytope (module generators)\n***\n";
    assert_eq!(parse_out(text), (0, vec![]));
    assert_eq!(parse_out(""), (0, vec![]));
    assert_eq!(parse_out("no count here\n"), (0, vec![]));
}

#[test]
fn the_marker_must_follow_the_stars() {
    let text = "2 x\n2 lattice points in polytope (module generators):\n1 1\n2 1\n";
    assert_eq!(parse_out(text), (2, vec![]));
}

#[test]
fn only_count_lines_are_read_and_windows_line_ends_are_fine() {
    let text = "2\r\n***\r\n2 lattice points in polytope (module generators):\r\n -5 +7 1\r\n9 1\r\n4 4 1\r\n";
    assert_eq!(parse_out(text), (2, vec![vec![-5, 7], vec![9]]));
}

#[test]
fn words_that_are_not_integers_are_skipped() {
    let text = "+2 points\n***\n2 lattice points in polytope (module generators):\n1 a 3 1\n\n";
    // The blank second line yields no point.
    assert_eq!(parse_out(text), (2, vec![vec![1, 3]]));
    let big = "1\n***\n1 lattice points in polytope (module generators):\n99999999999999999999 -9223372036854775808 1\n";
    assert_eq!(parse_out(big), (1, vec![vec![-9223372036854775808]]));
}

#[test]
fn a_negative_count_reads_as_zero() {
    let text = "-1\n***\n-1 lattice points in polytope (module generators):\n1 1\n";
    assert_eq!(parse_out(text), (0, vec![]));
}

#[test]
fn chars_vec_keeps_every_char() {
    assert_eq!(chars_vec("a\u{2014}b"), vec!['a', '\u{2014}', 'b']);
    assert!(chars_vec("").is_empty());
}
