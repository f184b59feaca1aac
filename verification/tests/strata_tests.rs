//! Strata chains: text form and random monotone chains.
use semigroup_math::strata::{decode_chain, encode_chain, js_strata_toggle, random_strata, strata_from_draws};

#[test]
fn encode_decode_roundtrip() {
    let chain = vec![vec![], vec![1, 3], vec![1, 3, 5], vec![1, 2, 3, 5]];
    let s = encode_chain(&chain);
    assert_eq!(s, ";1,3;1,3,5;1,2,3,5");
    assert_eq!(decode_chain(&s), chain);
}

#[test]
fn empty_chain_encodes_to_separator_string() {
    let chain: Vec<Vec<usize>> = vec![vec![], vec![], vec![], vec![]];
    assert_eq!(encode_chain(&chain), ";;;");
    assert_eq!(decode_chain(";;;"), chain);
}

#[test]
fn random_strata_is_monotone() {
    for _ in 0..50 {
        let chain = random_strata(8, 5);
        assert_eq!(chain.len(), 6);
        assert!(chain[0].is_empty());
        for w in chain.windows(2) {
            let prev: std::collections::HashSet<_> = w[0].iter().copied().collect();
            let curr: std::collections::HashSet<_> = w[1].iter().copied().collect();
            assert!(prev.is_subset(&curr));
        }
        for row in &chain {
            assert!(row.iter().all(|&v| (1..=8).contains(&v)));
        }
    }
}

#[test]
fn random_strata_handles_zero_inputs() {
    assert_eq!(random_strata(0, 3).len(), 4);
    assert_eq!(random_strata(5, 0).len(), 1);
}

#[test]
fn decode_is_tolerant_of_bad_tokens() {
    assert_eq!(decode_chain("1, 2 ,x,+4;;7"), vec![vec![1, 2, 4], vec![], vec![7]]);
    assert_eq!(decode_chain(""), vec![Vec::<usize>::new()]);
    assert_eq!(encode_chain(&[vec![10, 200], vec![0]]), "10,200;0");
}

#[test]
fn strata_toggle_cascades() {
    assert_eq!(js_strata_toggle(";1,3;1,3,5", 1, 5), ";1,3,5;1,3,5");
    assert_eq!(js_strata_toggle(";1,3;1,3,5", 1, 2), ";1,2,3;1,2,3,5");
    assert_eq!(js_strata_toggle(";1,3;1,3,5", 2, 3), ";1;1,5");
    assert_eq!(js_strata_toggle(";1,3;1,3,5", 1, 1), ";3;1,3,5");
    assert_eq!(js_strata_toggle(";1,3;1,3,5", 0, 3), ";1,3;1,3,5");
    assert_eq!(js_strata_toggle(";1,3;1,3,5", 3, 3), ";1,3;1,3,5");
    assert_eq!(js_strata_toggle(";1,3;1,3,5", 2, 0), ";1,3;1,3,5");
}

#[test]
fn strata_from_draws_grows_by_the_draws() {
    let first = vec![true, false, false];
    let grow = vec![vec![false, true, false], vec![true, false, true]];
    assert_eq!(strata_from_draws(3, 3, &first, &grow), vec![vec![], vec![1], vec![1, 2], vec![1, 2, 3]]);
    assert_eq!(strata_from_draws(3, 1, &first, &grow), vec![vec![], vec![1]]);
    assert_eq!(strata_from_draws(3, 0, &first, &vec![]), vec![Vec::<usize>::new()]);
}
