use fuzzkit::fuzzer::{inverse_weights, total_weight, weighted_choice};
use fuzzkit::rng::{bisect, cumulative_weights, Rng};

#[test]
fn seeded_keeps_seed() {
    let r = Rng::seeded(7);
    assert_eq!(r.initialseed, 7);
}

#[test]
fn splitmix64_matches_reference_values() {
    assert_eq!(Rng::splitmix64(0), (16294208416658607535, 11400714819323198485));
    assert_eq!(Rng::splitmix64(1234567), (6457827717110365317, 11400714819324433052));
}

#[test]
fn seeded_state_comes_from_splitmix64() {
    let r = Rng::seeded(0);
    assert_eq!(r.s0, 0xe220a8397b1dcdaf);
    assert_eq!(r.s1, 0x6e789e6aa1b965f4);
    assert_eq!(r.s2, 0x06c45d188009454f);
    assert_eq!(r.s3, 0xf88bb8a8724c81ec);
}

#[test]
fn next_matches_reference_values() {
    let mut r = Rng::seeded(0);
    assert_eq!(r.next(), 0x99ec5f36cb75f2b4);
    assert_eq!(r.next(), 0xbf6e1f784956452a);
    assert_eq!(r.u64(), 0x1a5f849d4933e6e0);
    let mut r = Rng::seeded(42);
    assert_eq!(r.next(), 1546998764402558742);
    assert_eq!(r.next(), 6990951692964543102);
    assert_eq!(r.next(), 12544586762248559009);
}

#[test]
fn same_seed_gives_same_draws() {
    let mut a = Rng::seeded(99);
    let mut b = Rng::seeded(99);
    for _ in 0..100 {
        assert_eq!(a.next(), b.next());
    }
    assert_eq!(a, b);
}

#[test]
fn range_is_draw_modulo_width() {
    let mut r = Rng::seeded(42);
    let drawn: Vec<u64> = (0..5).map(|_| r.range(32, 128)).collect();
    assert_eq!(drawn, vec![86, 62, 97, 97, 36]);
}

#[test]
fn range_stays_within_bounds() {
    let mut r = Rng::seeded(42);
    for _ in 0..1000 {
        let x = r.range(32, 128);
        assert!(32 <= x && x < 128);
    }
}

#[test]
fn below_is_draw_modulo_bound() {
    let mut r = Rng::seeded(5);
    let drawn: Vec<u64> = (0..6).map(|_| r.below(10)).collect();
    assert_eq!(drawn, vec![5, 6, 2, 3, 3, 5]);
    let mut r = Rng::seeded(1);
    let drawn: Vec<u64> = (0..10).map(|_| r.below(3)).collect();
    assert_eq!(drawn, vec![1, 1, 2, 2, 2, 1, 2, 0, 1, 1]);
}

#[test]
fn bool_is_parity_of_draw() {
    let mut a = Rng::seeded(11);
    let mut b = Rng::seeded(11);
    for _ in 0..50 {
        assert_eq!(a.bool(), b.next() % 2 == 1);
    }
}

#[test]
fn bytes_takes_one_draw_per_byte() {
    let mut r = Rng::seeded(7);
    assert_eq!(r.bytes(4), vec![b'Z', 0xd2, 0x96, b'@']);
    let mut expected = Rng::seeded(7);
    for _ in 0..4 {
        expected.next();
    }
    assert_eq!(r, expected);
    assert_eq!(Rng::seeded(7).bytes(0), Vec::<u8>::new());
}

#[test]
fn bytes_range_and_ascii_printable_agree() {
    let mut r = Rng::seeded(7);
    assert_eq!(r.bytes_range(8, 0x20, 0x7f), b"GjFo${IX".to_vec());
    let mut r = Rng::seeded(7);
    assert_eq!(r.ascii_printable(8), "GjFo${IX");
}

#[test]
fn ascii_is_ascii() {
    let mut r = Rng::seeded(3);
    let s = r.ascii(200);
    assert_eq!(s.len(), 200);
    assert!(s.is_ascii());
}

#[test]
fn choice_picks_by_draw() {
    let items = ["a", "b", "c"];
    let mut r = Rng::seeded(1);
    let picked: Vec<&str> = (0..4).map(|_| *r.choice(&items)).collect();
    assert_eq!(picked, vec!["b", "b", "c", "c"]);
    let mut r = Rng::seeded(1);
    assert_eq!(r.index(3), 1);
}

#[test]
fn cumulative_weights_are_running_sums() {
    assert_eq!(cumulative_weights(&[1, 0, 2, 5]), vec![1, 1, 3, 8]);
    assert_eq!(cumulative_weights(&[]), Vec::<u64>::new());
}

#[test]
fn bisect_finds_first_greater_entry() {
    let cw = [1u64, 1, 3, 8];
    assert_eq!(bisect(&cw, 0, 0, 3), 0);
    assert_eq!(bisect(&cw, 1, 0, 3), 2);
    assert_eq!(bisect(&cw, 2, 0, 3), 2);
    assert_eq!(bisect(&cw, 3, 0, 3), 3);
    assert_eq!(bisect(&cw, 7, 0, 3), 3);
}

#[test]
fn weighted_choice_never_picks_zero_weight() {
    let weights = [0u64, 3, 0, 1];
    let mut r = Rng::seeded(8);
    let mut seen = [0usize; 4];
    for _ in 0..400 {
        let pos = r.choice_w(&weights);
        seen[pos] += 1;
    }
    assert_eq!(seen[0], 0);
    assert_eq!(seen[2], 0);
    assert!(seen[1] > seen[3]);
    assert!(seen[3] > 0);
}

#[test]
fn choice_cw_follows_the_draw() {
    let cw = [2u64, 2, 5];
    let mut r = Rng::seeded(5);
    let mut twin = Rng::seeded(5);
    for _ in 0..50 {
        let x = twin.next() % 5;
        let expected = if x < 2 { 0 } else { 2 };
        assert_eq!(r.choice_cw(&cw), expected);
    }
}

#[test]
fn weighted_choice_rejects_zero_and_overflowing_weights() {
    let mut r = Rng::seeded(8);
    let before = r;
    assert_eq!(weighted_choice(&mut r, &[0, 0, 0]), None);
    assert_eq!(weighted_choice(&mut r, &[]), None);
    assert_eq!(weighted_choice(&mut r, &[u64::MAX, 1]), None);
    assert_eq!(r, before);
    assert_eq!(weighted_choice(&mut r, &[0, 4]), Some(1));
    assert_eq!(total_weight(&[1, 2, 3]), Some(6));
    assert_eq!(total_weight(&[u64::MAX, 1]), None);
}

#[test]
fn inverse_weights_favour_rare_coverage() {
    assert_eq!(inverse_weights(&vec![1, 2, 8]), vec![8, 4, 1]);
    assert_eq!(inverse_weights(&vec![3, 3]), vec![1, 1]);
    assert_eq!(inverse_weights(&vec![0, 5]), vec![5, 1]);
    assert_eq!(inverse_weights(&vec![]), Vec::<u64>::new());
}

#[test]
fn xorshift64_matches_reference_values() {
    let mut r = fuzzkit::rng::Xorshift64::seeded(1);
    assert_eq!(r.next(), 1082269761);
    assert_eq!(r.next(), 1152992998833853505);
    assert_eq!(r.next(), 11177516664432764457);
    assert_eq!(r.state, 11177516664432764457);
    let mut zero = fuzzkit::rng::Xorshift64::seeded(0);
    assert_eq!(zero.next(), 0);
}
