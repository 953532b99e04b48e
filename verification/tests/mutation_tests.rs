use fuzzkit::input::{Bytes, Input};
use fuzzkit::mutation::{
    delete_at, delete_random_character, flip_bit_at, flip_random_bit, flip_random_bit_nonnull,
    insert_at, insert_random_character, mutate, mutate_nonnull, mutate_repeatedly,
};
use fuzzkit::rng::Rng;

#[test]
fn deleting_at_position_one_of_42_yields_4() {
    assert_eq!(delete_at(Input::from_str("42"), 1), Input::from_str("4"));
}

#[test]
fn inserting_x_yields_42x_or_4x2() {
    assert_eq!(insert_at(Input::from_str("42"), 2, b'x'), Input::from_str("42x"));
    assert_eq!(insert_at(Input::from_str("42"), 1, b'x'), Input::from_str("4x2"));
    assert_eq!(insert_at(Input::from_str("42"), 0, b'x'), Input::from_str("x42"));
}

#[test]
fn flipping_bit_zero_of_4_yields_5() {
    assert_eq!(flip_bit_at(Input::from_str("4"), 0, 0), Input(vec![0x35]));
    assert_eq!(flip_bit_at(Input::from_str("42"), 0, 0), Input::from_str("52"));
    assert_eq!(flip_bit_at(Input(vec![0x35]), 0, 0), Input::from_str("4"));
}

#[test]
fn mutate_follows_the_draws() {
    let mut r = Rng::seeded(1);
    let mut s = Input::from_str("42");
    let mut seen = Vec::new();
    for _ in 0..5 {
        s = mutate(&mut r, s);
        seen.push(s.clone());
    }
    let expected: Vec<Input> =
        ["4M2", "4Mr", "tMr", "t Mr", "tMr"].iter().map(|x| Input::from_str(x)).collect();
    assert_eq!(seen, expected);

    let mut r = Rng::seeded(2);
    let mut s = Input::from_str("42");
    for _ in 0..5 {
        s = mutate(&mut r, s);
    }
    assert_eq!(s, Input::from_str("rZ-Z$2"));
}

#[test]
fn mutate_can_yield_a_null_byte() {
    let mut r = Rng::seeded(3);
    let mut s = Input::from_str("42");
    for _ in 0..5 {
        s = mutate(&mut r, s);
    }
    assert_eq!(s, Input(vec![0x00, b'2', b'V']));
    assert!(s.contains_null());
}

#[test]
fn mutate_nonnull_never_yields_a_null_byte() {
    for seed in 0..200 {
        let mut r = Rng::seeded(seed);
        let mut s = Input::from_str("@\x01\x02\x04\x08\x10\x20");
        for _ in 0..50 {
            s = mutate_nonnull(&mut r, s);
            assert!(!s.contains_null(), "seed {}", seed);
        }
    }
}

#[test]
fn safe_flip_changes_exactly_one_bit_and_leaves_no_null() {
    for seed in 0..500 {
        let mut r = Rng::seeded(seed);
        let before = Input(vec![1, 2, 4, 8, 16, 32, 64]);
        let after = flip_random_bit_nonnull(&mut r, before.clone());
        assert_eq!(after.len(), before.len());
        let changed: Vec<usize> = (0..7).filter(|i| before.0[*i] != after.0[*i]).collect();
        assert_eq!(changed.len(), 1);
        let diff = before.0[changed[0]] ^ after.0[changed[0]];
        assert_eq!(diff.count_ones(), 1);
        assert!(diff < 0x80);
        assert!(!after.contains_null());
    }
}

#[test]
fn operators_change_length_as_expected() {
    for seed in 0..100 {
        let mut r = Rng::seeded(seed);
        let s = Input::from_str("A quick brown fox");
        assert_eq!(insert_random_character(&mut r, s.clone()).len(), s.len() + 1);
        assert_eq!(delete_random_character(&mut r, s.clone()).len(), s.len() - 1);
        assert_eq!(flip_random_bit(&mut r, s.clone()).len(), s.len());
        let m = mutate(&mut r, s.clone()).len();
        assert!(s.len() - 1 <= m && m <= s.len() + 1);
    }
}

#[test]
fn inserted_character_is_printable() {
    let mut seen = [false; 256];
    for seed in 0..3000 {
        let mut r = Rng::seeded(seed);
        let mut twin = r;
        let out = insert_random_character(&mut r, Input::from_str(""));
        assert_eq!(out.len(), 1);
        assert!(0x20 <= out.0[0] && out.0[0] <= 0x7e);
        twin.next();
        assert_eq!(out.0[0] as u64, 0x20 + twin.next() % 95);
        assert_eq!(r, twin);
        seen[out.0[0] as usize] = true;
    }
    assert!(seen[0x20] && seen[0x7e] && !seen[0x7f] && !seen[0x1f]);
}

#[test]
fn delete_leaves_empty_input_alone() {
    let mut r = Rng::seeded(4);
    let before = r;
    let out = delete_random_character(&mut r, Input::from_str(""));
    assert!(out.is_empty());
    assert_eq!(r, before);
}

#[test]
fn mutate_of_empty_input_never_flips() {
    for seed in 0..100 {
        let mut r = Rng::seeded(seed);
        let out = mutate(&mut r, Input::from_str(""));
        assert!(out.len() <= 1);
        let mut r = Rng::seeded(seed);
        let out = mutate_nonnull(&mut r, Input::from_str(""));
        assert!(out.len() <= 1);
    }
}

#[test]
fn flip_never_touches_the_top_bit() {
    for seed in 0..300 {
        let mut r = Rng::seeded(seed);
        let out = flip_random_bit(&mut r, Input::from_str("aaaa"));
        assert!(out.0.iter().all(|b| *b < 0x80));
    }
}

#[test]
fn mutate_repeatedly_applies_each_mutation() {
    let mut r = Rng::seeded(2);
    let out = mutate_repeatedly(&mut r, Input::from_str("42"), 5, false);
    assert_eq!(out, Input::from_str("rZ-Z$2"));
    let mut r = Rng::seeded(2);
    let before = r;
    let out = mutate_repeatedly(&mut r, Input::from_str("42"), 0, true);
    assert_eq!(out, Input::from_str("42"));
    assert_eq!(r, before);
}

#[test]
fn input_reads_as_text() {
    let input = Input::from_str("héllo");
    assert_eq!(input.len(), 6);
    assert_eq!(input.to_text(), Some(String::from("héllo")));
    assert_eq!(input.to_string(), "héllo");
    assert_eq!(Input(vec![0xff, 0xfe]).to_text(), None);
    assert!(input.same(&Input::from_str("héllo")));
    assert!(!input.same(&Input::from_str("hello")));
    assert_eq!(input.clone(), input);
}

#[test]
fn bytes_and_inputs_convert() {
    let b = Bytes::from_str("abc");
    assert_eq!(b.to_text(), Some(String::from("abc")));
    let i = b.clone().into_input();
    assert_eq!(i, Input::from_str("abc"));
    assert_eq!(Bytes::from_input(i), b);
}
