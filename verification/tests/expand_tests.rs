use fuzzkit::expand::{fuzz, fuzz_tree, FuzzError};
use fuzzkit::grammar::Grammar;
use fuzzkit::rng::Rng;

fn digits() -> Grammar {
    let mut g = Grammar::new();
    g.add_production("<start>", &["<integer>"]);
    g.add_production("<integer>", &["<digit>", "<integer>"]);
    g.add_production("<integer>", &["<digit>"]);
    g.add_productions("<digit>", &["0", "1", "2", "3", "4", "5", "6", "7", "8", "9"]);
    g
}

#[test]
fn fuzz_digits_yields_a_numeral() {
    let mut rng = Rng::seeded(1);
    for _ in 0..20 {
        let s = fuzz(&mut rng, digits()).unwrap();
        assert!(!s.is_empty());
        assert!(s.chars().all(|c| c.is_ascii_digit()), "{}", s);
    }
}

#[test]
fn fuzz_tree_is_complete() {
    let mut rng = Rng::seeded(2);
    let t = fuzz_tree(&mut rng, digits()).unwrap();
    assert!(!t.any_possible_expansions());
    assert_eq!(t.possible_expansions(), 0);
}

#[test]
fn fuzz_without_start_fails() {
    let mut rng = Rng::seeded(3);
    let mut g = Grammar::new();
    g.add_production("<digit>", &["0"]);
    assert_eq!(fuzz(&mut rng, g), Err(FuzzError::NoStartSymbol));
}

#[test]
fn fuzz_self_loop_fails() {
    let mut rng = Rng::seeded(3);
    let mut g = Grammar::new();
    g.add_production("<start>", &["<start>"]);
    assert_eq!(fuzz(&mut rng, g), Err(FuzzError::InfiniteCost));
}
