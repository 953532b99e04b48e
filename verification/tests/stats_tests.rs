use fuzzkit::coverage::Coverage;
use fuzzkit::fuzzer::{
    fuzz, fuzz_, power_schedule_boosted_choose, power_schedule_choose,
    power_schedule_uniform_choose, run, CoverageOracle, Fuzzer, MutationCoverageFuzzer,
    MutationFuzzer, RandomFuzzer, Runner,
};
use fuzzkit::input::{Bytes, Input};
use fuzzkit::rng::Rng;
use fuzzkit::stats::{classify_exit, RunResult, Statistics};

fn cov(locations: &[usize]) -> Coverage {
    Coverage::from_slice(locations)
}

/// Covers one location per distinct byte of the input; fails on inputs
/// that hold a `!`.
struct ByteOracle {
    calls: usize,
}

impl CoverageOracle for ByteOracle {
    fn execute(&mut self, input: &Input) -> (Coverage, RunResult) {
        self.calls += 1;
        let locations: Vec<usize> = input.0.iter().map(|b| *b as usize).collect();
        let outcome = if input.0.contains(&b'!') { RunResult::Fail } else { RunResult::Pass };
        (Coverage::from_slice(&locations), outcome)
    }
}

struct EchoRunner;

impl Runner for EchoRunner {
    fn run(&mut self, inp: Bytes) -> (Bytes, RunResult) {
        (inp, RunResult::Unresolved)
    }
}

#[test]
fn coverage_is_a_set() {
    let mut c = cov(&[3, 1, 3, 2]);
    assert_eq!(c.len(), 3);
    assert!(c.contains(1) && c.contains(2) && c.contains(3));
    assert!(!c.contains(4));
    assert!(!c.insert(2));
    assert!(c.insert(9));
    assert_eq!(c.len(), 4);
    assert!(c.same(&cov(&[9, 3, 2, 1])));
    assert!(!c.same(&cov(&[3, 2, 1])));
    assert!(cov(&[1, 2]).is_subset_of(&c));
    assert!(!c.is_subset_of(&cov(&[1, 2])));
    assert!(Coverage::new().is_empty());
    assert!(!c.is_empty());
    assert_eq!(c.to_vec(), vec![3, 1, 2, 9]);
    assert!(c.clone().same(&c));
}

#[test]
fn coverage_extend_is_union() {
    let mut c = cov(&[1, 2]);
    c.extend(&cov(&[2, 3, 4]));
    assert!(c.same(&cov(&[1, 2, 3, 4])));
    c.extend(&Coverage::new());
    assert_eq!(c.len(), 4);
}

#[test]
fn exit_status_is_classified() {
    assert_eq!(classify_exit(Some(0)), RunResult::Pass);
    assert_eq!(classify_exit(Some(-11)), RunResult::Fail);
    assert_eq!(classify_exit(None), RunResult::Fail);
    assert_eq!(classify_exit(Some(1)), RunResult::Unresolved);
    assert_eq!(classify_exit(Some(255)), RunResult::Unresolved);
}

#[test]
fn record_keeps_first_input_of_each_coverage() {
    let mut stats = Statistics::default();
    assert!(stats.record(Input::from_str("a"), cov(&[1, 2]), RunResult::Pass));
    assert!(!stats.record(Input::from_str("b"), cov(&[2, 1]), RunResult::Pass));
    assert!(stats.record(Input::from_str("c"), cov(&[1, 2, 3]), RunResult::Pass));
    assert_eq!(stats.population, vec![Input::from_str("a"), Input::from_str("c")]);
    assert_eq!(stats.coverage_db.len(), 2);
    assert_eq!(stats.coverage_db[0].input, Input::from_str("a"));
    assert_eq!(stats.coverage_db[0].hits, 1);
    assert_eq!(stats.fuzz_cases, 3);
    assert_eq!(stats.coverage_cumul, vec![2, 2, 3]);
    assert!(stats.coverage_all.same(&cov(&[1, 2, 3])));
}

#[test]
fn record_never_adds_the_same_input_twice() {
    let mut stats = Statistics::default();
    stats.record(Input::from_str("a"), cov(&[1]), RunResult::Pass);
    stats.record(Input::from_str("a"), cov(&[7]), RunResult::Pass);
    assert_eq!(stats.population, vec![Input::from_str("a")]);
    assert_eq!(stats.coverage_db.len(), 2);
    assert_eq!(stats.coverage_cumul, vec![1, 2]);
}

#[test]
fn record_ignores_coverage_of_failed_runs() {
    let mut stats = Statistics::default();
    assert!(!stats.record(Input::from_str("!"), cov(&[1, 2]), RunResult::Fail));
    assert!(!stats.record(Input::from_str("?"), cov(&[3]), RunResult::Unresolved));
    assert!(stats.population.is_empty());
    assert!(stats.coverage_db.is_empty());
    assert_eq!(stats.coverage_all.len(), 0);
    assert_eq!(stats.fuzz_cases, 2);
    assert_eq!(stats.coverage_cumul, vec![0, 0]);
}

#[test]
fn record_boosted_counts_hits() {
    let mut stats = Statistics::default();
    stats.record_boosted(Input::from_str("a"), cov(&[1]), RunResult::Pass);
    stats.record_boosted(Input::from_str("b"), cov(&[1]), RunResult::Pass);
    stats.record_boosted(Input::from_str("c"), cov(&[2]), RunResult::Pass);
    stats.record_boosted(Input::from_str("d"), cov(&[1]), RunResult::Fail);
    stats.record_boosted(Input::from_str("e"), cov(&[1]), RunResult::Pass);
    assert_eq!(stats.hit_counts(), vec![3, 1]);
    assert_eq!(stats.population, vec![Input::from_str("a"), Input::from_str("c")]);
    assert_eq!(stats.find_coverage(&cov(&[2])), Some(1));
    assert_eq!(stats.find_coverage(&cov(&[3])), None);
    assert!(stats.population_contains(&Input::from_str("c")));
    assert!(!stats.population_contains(&Input::from_str("b")));
}

#[test]
fn boosted_schedule_favours_rare_coverage() {
    let mut stats = Statistics::default();
    stats.record_boosted(Input::from_str("a"), cov(&[1]), RunResult::Pass);
    for _ in 0..9 {
        stats.record_boosted(Input::from_str("a"), cov(&[1]), RunResult::Pass);
    }
    stats.record_boosted(Input::from_str("c"), cov(&[2]), RunResult::Pass);
    let mut rng = Rng::seeded(12);
    let mut picks = [0usize; 2];
    for _ in 0..1100 {
        picks[power_schedule_boosted_choose(&mut rng, &stats).unwrap()] += 1;
    }
    assert!(picks[1] > 5 * picks[0]);
    assert!(picks[0] > 0);
    let empty = Statistics::default();
    assert_eq!(power_schedule_boosted_choose(&mut rng, &empty), None);
}

#[test]
fn uniform_schedule_picks_by_draw() {
    let pop = vec![Input::from_str("A"), Input::from_str("B"), Input::from_str("C")];
    let mut rng = Rng::seeded(1);
    assert_eq!(*power_schedule_choose(&mut rng, &pop), Input::from_str("B"));
    let mut rng = Rng::seeded(1);
    assert_eq!(*power_schedule_uniform_choose(&mut rng, &pop), Input::from_str("B"));
    let mut hits = [0usize; 3];
    for _ in 0..3000 {
        let picked = power_schedule_uniform_choose(&mut rng, &pop);
        hits[(picked.0[0] - b'A') as usize] += 1;
    }
    assert!(hits.iter().all(|h| *h > 800));
}

#[test]
fn fuzz_draws_seeds_first() {
    let seed = vec![Input::from_str("good"), Input::from_str("bad")];
    let mut stats = Statistics::default();
    let mut rng = Rng::seeded(5);
    let before = rng;
    assert_eq!(fuzz(&mut rng, &stats, &seed), Input::from_str("good"));
    stats.record(Input::from_str("good"), cov(&[1]), RunResult::Pass);
    assert_eq!(fuzz(&mut rng, &stats, &seed), Input::from_str("bad"));
    assert_eq!(rng, before);
    stats.record(Input::from_str("bad"), cov(&[2]), RunResult::Pass);
    let mutant = fuzz_(&mut rng, &stats, &seed, 1, 2);
    assert!(mutant.len() >= 2 && mutant.len() <= 5);
    assert!(rng != before);
    assert!(!mutant.contains_null());
}

#[test]
fn run_keeps_trace_and_case_count_in_step() {
    let seed = vec![Input::from_str("good")];
    let mut stats = Statistics::default();
    let mut rng = Rng::seeded(21);
    let mut oracle = ByteOracle { calls: 0 };
    let executed = run(&mut rng, &mut stats, &mut oracle, &seed, 300);
    assert_eq!(executed, oracle.calls);
    assert!(executed > 0 && executed <= 300);
    assert_eq!(stats.fuzz_cases, executed);
    assert_eq!(stats.coverage_cumul.len(), executed);
    assert!(stats.coverage_cumul.windows(2).all(|w| w[0] <= w[1]));
    assert_eq!(*stats.coverage_cumul.last().unwrap(), stats.coverage_all.len());
    assert_eq!(stats.population[0], Input::from_str("good"));
    for (i, a) in stats.population.iter().enumerate() {
        for b in stats.population.iter().skip(i + 1) {
            assert!(a != b);
        }
    }
    assert!(stats.population.iter().all(|i| !i.0.contains(&b'!')));
}

#[test]
fn run_stops_when_nothing_can_be_mutated() {
    let seed = vec![Input::from_str("!")];
    let mut stats = Statistics::default();
    let mut rng = Rng::seeded(21);
    let mut oracle = ByteOracle { calls: 0 };
    let executed = run(&mut rng, &mut stats, &mut oracle, &seed, 50);
    assert_eq!(executed, 1);
    assert_eq!(stats.fuzz_cases, 1);
    assert!(stats.population.is_empty());
}

#[test]
fn random_fuzzer_respects_its_ranges() {
    let mut fuzzer = RandomFuzzer::new(10, 20, 65, 26);
    let mut rng = Rng::seeded(9);
    for _ in 0..100 {
        let out = fuzzer.fuzz(&mut rng);
        assert!(out.0.len() >= 10 && out.0.len() < 20);
        assert!(out.0.iter().all(|b| b.is_ascii_uppercase()));
    }
    let mut fuzzer = RandomFuzzer::default();
    assert_eq!(fuzzer, RandomFuzzer { min_length: 10, max_length: 100, char_start: 32, char_range: 32 });
    let out = fuzzer.fuzz(&mut rng);
    assert!(out.0.iter().all(|b| 32 <= *b && *b < 64));
    let (echo, outcome) = fuzzer.run(&mut rng, &mut EchoRunner);
    assert_eq!(outcome, RunResult::Unresolved);
    assert!(echo.0.len() >= 10);
}

#[test]
fn mutation_fuzzer_yields_seeds_then_mutants() {
    let seed = vec![Bytes::from_str("http://www.google.com/search?q=fuzzing")];
    let mut fuzzer = MutationFuzzer::new(seed.clone());
    let mut rng = Rng::seeded(13);
    assert_eq!(fuzzer.fuzz(&mut rng), seed[0]);
    assert_eq!(fuzzer.nfuzzed, 1);
    let mutant = fuzzer.fuzz(&mut rng);
    assert!(mutant != seed[0]);
    let n = seed[0].0.len();
    assert!(mutant.0.len() + 10 >= n && mutant.0.len() <= n + 10);
    assert_eq!(fuzzer.nfuzzed, 2);
    let c = fuzzer.create_candidate(&mut rng, 1, 2);
    assert!(c.0.len() + 1 >= n && c.0.len() <= n + 1);
    let d = fuzzer.fuzz_(&mut rng, 3, 4);
    assert!(d.0.len() + 3 >= n && d.0.len() <= n + 3);
}

#[test]
fn mutation_coverage_fuzzer_grows_its_population() {
    let seed = vec![Input::from_str("seed")];
    let mut fuzzer = MutationCoverageFuzzer::new(seed.clone());
    let mut rng = Rng::seeded(17);
    let mut oracle = ByteOracle { calls: 0 };
    let (coverage, trace) = fuzzer.runs(&mut rng, &mut oracle, 200);
    assert_eq!(trace.len(), 200);
    assert_eq!(oracle.calls, 200);
    assert_eq!(fuzzer.fuzz_cases, 200);
    assert!(trace.windows(2).all(|w| w[0] <= w[1]));
    assert_eq!(*trace.last().unwrap(), coverage.len());
    assert_eq!(trace[0], 3);
    let population = fuzzer.population();
    assert_eq!(population[0], seed[0]);
    assert!(population.len() > 1);
    assert!(fuzzer.population_contains(&seed[0]));
    let next = fuzzer.fuzz(&mut rng);
    assert!(!next.contains_null());
    assert_eq!(fuzzer.fuzz_cases, 201);
}

#[test]
fn population_coverage_accumulates() {
    let population =
        vec![Input::from_str("ab"), Input::from_str("b"), Input::from_str("!c"), Input::from_str("")];
    let mut oracle = ByteOracle { calls: 0 };
    let (all, trace) = fuzzkit::fuzzer::population_coverage(&mut oracle, &population);
    assert_eq!(trace, vec![2, 2, 4, 4]);
    assert_eq!(all.len(), 4);
    assert_eq!(oracle.calls, 4);
}

#[test]
fn boosted_session_executes_every_case() {
    let seed = vec![Input::from_str("good")];
    let mut stats = Statistics::default();
    let mut rng = Rng::seeded(33);
    let mut oracle = ByteOracle { calls: 0 };
    let executed = fuzzkit::fuzzer::run_boosted(&mut rng, &mut stats, &mut oracle, &seed, 300);
    assert_eq!(executed, 300);
    assert_eq!(oracle.calls, 300);
    assert_eq!(stats.fuzz_cases, 300);
    assert_eq!(stats.coverage_cumul.len(), 300);
    assert!(stats.coverage_cumul.windows(2).all(|w| w[0] <= w[1]));
    assert_eq!(*stats.coverage_cumul.last().unwrap(), stats.coverage_all.len());
    assert_eq!(stats.population[0], seed[0]);
    assert_eq!(stats.population.len(), stats.coverage_db.len());
    let hits: usize = stats.hit_counts().iter().sum();
    assert!(hits <= 300);
    assert!(hits >= stats.coverage_db.len());
    for (i, a) in stats.population.iter().enumerate() {
        assert!(!a.contains_null());
        assert!(stats.population[..i].iter().all(|b| a != b));
    }
}

#[test]
fn boosted_session_stops_when_nothing_can_be_mutated() {
    let seed = vec![Input::from_str("!"), Input::from_str("!!")];
    let mut stats = Statistics::default();
    let mut rng = Rng::seeded(5);
    let mut oracle = ByteOracle { calls: 0 };
    let executed = fuzzkit::fuzzer::run_boosted(&mut rng, &mut stats, &mut oracle, &seed, 50);
    assert_eq!(executed, 2);
    assert_eq!(stats.coverage_cumul, vec![0, 0]);
}

#[test]
fn boosted_input_is_the_seed_first_and_a_mutant_of_an_entry_later() {
    let seed = vec![Input::from_str("good")];
    let mut stats = Statistics::default();
    let mut rng = Rng::seeded(8);
    let before = rng.clone();
    assert_eq!(fuzzkit::fuzzer::fuzz_boosted(&mut rng, &stats, &seed), seed[0]);
    assert_eq!(rng, before);
    stats.record_boosted(Input::from_str("good"), cov(&[1]), RunResult::Pass);
    for _ in 0..50 {
        let mut twin = rng.clone();
        let mutant = fuzzkit::fuzzer::fuzz_boosted(&mut rng, &stats, &seed);
        assert!(mutant.0.len() + 10 >= 4 && mutant.0.len() <= 4 + 10);
        assert!(!mutant.contains_null());
        assert_eq!(power_schedule_boosted_choose(&mut twin, &stats), Some(0));
        let trials = twin.range(2, 11);
        let again =
            fuzzkit::mutation::mutate_repeatedly(&mut twin, Input::from_str("good"), trials, true);
        assert_eq!(mutant, again);
        assert_eq!(rng, twin);
    }
}

#[test]
fn mutants_hold_no_zero_byte_whatever_the_member_holds() {
    let seed: Vec<Input> = Vec::new();
    let mut stats = Statistics::default();
    stats.record(Input(vec![0, b'a', 0, b'b', 0]), cov(&[1]), RunResult::Pass);
    assert!(stats.population[0].contains_null());
    let mut rng = Rng::seeded(77);
    for _ in 0..200 {
        assert!(!fuzz(&mut rng, &stats, &seed).contains_null());
        assert!(!fuzz_(&mut rng, &stats, &seed, 1, 2).contains_null());
        assert!(!fuzzkit::fuzzer::fuzz_boosted(&mut rng, &stats, &seed).contains_null());
    }
    let mut twin = rng;
    let mutant = fuzz_(&mut rng, &stats, &seed, 3, 4);
    twin.next();
    assert_eq!(twin.range(3, 4), 3);
    let again = fuzzkit::mutation::mutate_repeatedly(&mut twin, Input::from_str("ab"), 3, true);
    assert_eq!(mutant, again);
    assert_eq!(rng, twin);

    let mut fuzzer = MutationCoverageFuzzer::new(vec![Input(vec![0, 0, b'z'])]);
    for _ in 0..50 {
        assert!(!fuzzer.create_candidate(&mut rng, 2, 11).contains_null());
    }
    assert_eq!(Input(vec![0, 1, 0, 2]).without_nulls(), Input(vec![1, 2]));
    assert_eq!(Input::from_str("ab").without_nulls(), Input::from_str("ab"));
    assert_eq!(Input(vec![0]).without_nulls(), Input(vec![]));
}
