//! Fuzzers and the coverage-guided fuzzing loop.
//!
//! Each iteration of the loop draws an input, from the seeds first and by
//! mutating a member of the population afterwards, hands it to the program
//! under test, and records the outcome. The program under test stands
//! behind the trait `CoverageOracle`: the loop is proved for every program,
//! whatever coverage and outcome it reports.

use vstd::prelude::*;
use crate::coverage::{lemma_union_grows, Coverage, Location};
use crate::input::{null_free, without_nulls_spec, Bytes, Input};
use crate::mutation::{mutate_nonnull_times, mutate_repeatedly, mutate_times};
use crate::rng::{prefix_sum, Rng};
use crate::stats::{record_spec, trace_monotonic, RunResult, Statistics, StatisticsView};

verus! {

/// Something that runs a program on an input and reports what came out.
pub trait Runner {
    /// Runs the program on `inp`; returns its output and how it ended.
    fn run(&mut self, inp: Bytes) -> (Bytes, RunResult);
}

/// The program under test, seen from the fuzzing loop: it takes an input
/// and reports the locations covered and the outcome.
pub trait CoverageOracle {
    /// Executes the program on `input`.
    fn execute(&mut self, input: &Input) -> (Coverage, RunResult);
}

/// A source of fuzz inputs.
pub trait Fuzzer {
    /// The fuzzer can produce an input.
    spec fn ready(&self) -> bool;

    /// Produces the next input.
    fn fuzz(&mut self, rng: &mut Rng) -> (r: Bytes)
        requires
            old(self).ready(),
        ensures
            final(self).ready(),
    ;
}

/// Produces strings of random length made of random characters of one
/// range.
#[derive(Clone, Copy, Debug, PartialEq, Eq)]
pub struct RandomFuzzer {
    pub min_length: u64,
    pub max_length: u64,
    pub char_start: u64,
    pub char_range: u64,
}

impl RandomFuzzer {
    /// A fuzzer for strings of `min_length` to `max_length - 1` characters
    /// from `char_start` to `char_start + char_range - 1`.
    pub fn new(min_length: u64, max_length: u64, char_start: u64, char_range: u64) -> (r: Self)
        requires
            char_start <= 0x100,
            char_start + char_range <= 0x100,
        ensures
            r.min_length == min_length,
            r.max_length == max_length,
            r.char_start == char_start,
            r.char_range == char_range,
            r.ready() == (min_length < max_length && char_range > 0),
    {
        RandomFuzzer {
            min_length: min_length,
            max_length: max_length,
            char_start: char_start,
            char_range: char_range,
        }
    }

    /// Produces an input, as `fuzz` does, and hands it to a runner. Returns
    /// what the runner reports.
    pub fn run<R: Runner>(&mut self, rng: &mut Rng, runner: &mut R) -> (r: (Bytes, RunResult))
        requires
            old(self).ready(),
        ensures
            *final(self) == *old(self),
            *final(rng) == old(rng).step().advance(
                old(rng).range_value(old(self).min_length, old(self).max_length) as nat,
            ),
    {
        let inp = self.fuzz(rng);
        runner.run(inp)
    }
}

impl Default for RandomFuzzer {
    /// A fuzzer for strings of 10 to 99 characters from the space up to `?`.
    fn default() -> (r: Self)
        ensures
            r == (RandomFuzzer { min_length: 10, max_length: 100, char_start: 32, char_range: 32 }),
            r.ready(),
    {
        RandomFuzzer::new(10, 100, 32, 32)
    }
}

impl Fuzzer for RandomFuzzer {
    open spec fn ready(&self) -> bool {
        &&& self.min_length < self.max_length
        &&& self.char_range > 0
        &&& self.char_start + self.char_range <= 0x100
    }

    /// Draws the length, then one character per place.
    fn fuzz(&mut self, rng: &mut Rng) -> (r: Bytes)
        ensures
            *final(self) == *old(self),
            r@.len() == old(rng).range_value(old(self).min_length, old(self).max_length),
            old(self).min_length <= r@.len() < old(self).max_length,
            forall|i: int|
                0 <= i < r@.len() ==> old(self).char_start <= #[trigger] r@[i] < old(
                    self,
                ).char_start + old(self).char_range,
            forall|i: int|
                0 <= i < r@.len() ==> r@[i] == (old(rng).step().advance(i as nat).range_value(
                    old(self).char_start,
                    (old(self).char_start + old(self).char_range) as u64,
                ) % 0x100) as u8,
            *final(rng) == old(rng).step().advance(r@.len()),
    {
        let len = rng.range(self.min_length, self.max_length);
        Bytes(rng.bytes_range(len, self.char_start, self.char_start + self.char_range))
    }
}

/// The number that `one more use` makes of a counter; it stops at
/// `usize::MAX`.
pub open spec fn counted(n: usize) -> usize {
    if n < usize::MAX {
        (n + 1) as usize
    } else {
        n
    }
}

/// Produces the inputs of an initial population first, and mutations of
/// its members afterwards.
#[derive(Debug)]
pub struct MutationFuzzer {
    /// The inputs that are produced first and mutated afterwards.
    pub initial_population: Vec<Bytes>,
    /// Number of inputs produced so far.
    pub nfuzzed: usize,
}

impl MutationFuzzer {
    /// A fuzzer that starts from the given inputs.
    pub fn new(seed: Vec<Bytes>) -> (r: Self)
        ensures
            r.initial_population == seed,
            r.nfuzzed == 0,
    {
        MutationFuzzer { initial_population: seed, nfuzzed: 0 }
    }

    /// Produces the next input: the members of the initial population in
    /// turn, then candidates made by `create_candidate`.
    pub fn fuzz_(&mut self, rng: &mut Rng, min_mutations: usize, max_mutations: usize) -> (r: Bytes)
        requires
            old(self).ready(),
            min_mutations < max_mutations,
        ensures
            final(self).initial_population == old(self).initial_population,
            final(self).nfuzzed == counted(old(self).nfuzzed),
            old(self).nfuzzed < old(self).initial_population@.len() ==> r@
                == old(self).initial_population@[old(self).nfuzzed as int]@ && *final(rng) == *old(
                rng,
            ),
            old(self).nfuzzed >= old(self).initial_population@.len() ==> is_candidate(
                old(self).initial_population@,
                *old(rng),
                min_mutations,
                max_mutations,
                r@,
                *final(rng),
            ),
    {
        let nfuzzed = self.nfuzzed;
        if nfuzzed < usize::MAX {
            self.nfuzzed = nfuzzed + 1;
        }
        if nfuzzed < self.initial_population.len() {
            self.initial_population[nfuzzed].clone()
        } else {
            self.create_candidate(rng, min_mutations, max_mutations)
        }
    }

    /// Makes a candidate: a member of the population, chosen with the same
    /// weight among all, mutated a random number of times from
    /// `min_mutations` to `max_mutations - 1`.
    pub fn create_candidate(&self, rng: &mut Rng, min_mutations: usize, max_mutations: usize) -> (r:
        Bytes)
        requires
            self.initial_population@.len() > 0,
            min_mutations < max_mutations,
        ensures
            is_candidate(
                self.initial_population@,
                *old(rng),
                min_mutations,
                max_mutations,
                r@,
                *final(rng),
            ),
    {
        let pos = rng.index(self.initial_population.len());
        let candidate = self.initial_population[pos].clone().into_input();
        let trials = rng.range(min_mutations as u64, max_mutations as u64);
        let ghost start = *rng;
        let r = mutate_repeatedly(rng, candidate, trials, false);
        proof {
            let n = choose|n: nat|
                n <= trials && (candidate@.len() + trials < usize::MAX ==> n == trials) && (
                r@,
                *rng,
            ) == mutate_times(start, candidate@, n);
            assert((r@, *rng) == mutate_times(old(rng).step().step(), candidate@, n));
        }
        Bytes::from_input(r)
    }
}

/// `r` is a candidate made from `population` with the generator in the
/// state `rng`: the first draw picks a member, the second the number of
/// mutations; then the member is mutated, that many times unless its
/// length reaches the limit of a vector before.
pub open spec fn is_candidate(
    population: Seq<Bytes>,
    rng: Rng,
    min_mutations: usize,
    max_mutations: usize,
    r: Seq<u8>,
    after: Rng,
) -> bool {
    let chosen = population[(rng.output() % (population.len() as u64)) as int]@;
    let trials = mutation_count(rng, min_mutations, max_mutations);
    exists|n: nat|
        n <= trials && (chosen.len() + trials < usize::MAX ==> n == trials) && (r, after)
            == #[trigger] mutate_times(rng.step().step(), chosen, n)
}

/// The number of mutations that the second draw picks, from
/// `min_mutations` to `max_mutations - 1`.
pub open spec fn mutation_count(rng: Rng, min_mutations: usize, max_mutations: usize) -> nat {
    rng.step().range_value(min_mutations as u64, max_mutations as u64) as nat
}

impl Fuzzer for MutationFuzzer {
    open spec fn ready(&self) -> bool {
        self.initial_population@.len() > 0
    }

    /// Produces the next input, with 2 to 10 mutations per candidate.
    fn fuzz(&mut self, rng: &mut Rng) -> (r: Bytes)
        ensures
            final(self).initial_population == old(self).initial_population,
            final(self).nfuzzed == counted(old(self).nfuzzed),
            old(self).nfuzzed < old(self).initial_population@.len() ==> r@
                == old(self).initial_population@[old(self).nfuzzed as int]@ && *final(rng) == *old(
                rng,
            ),
            old(self).nfuzzed >= old(self).initial_population@.len() ==> is_candidate(
                old(self).initial_population@,
                *old(rng),
                2,
                11,
                r@,
                *final(rng),
            ),
    {
        self.fuzz_(rng, 2, 10 + 1)
    }
}

/// Chooses a member of a population, each with the same weight.
pub fn power_schedule_choose<'a>(rng: &mut Rng, pop: &'a [Input]) -> (r: &'a Input)
    requires
        pop@.len() > 0,
    ensures
        *r == pop@[(old(rng).output() % (pop@.len() as u64)) as int],
        *final(rng) == old(rng).step(),
{
    rng.choice(pop)
}

/// Chooses a member of a population, each with the same weight.
pub fn power_schedule_uniform_choose<'a>(rng: &mut Rng, pop: &'a [Input]) -> (r: &'a Input)
    requires
        pop@.len() > 0,
    ensures
        *r == pop@[(old(rng).output() % (pop@.len() as u64)) as int],
        *final(rng) == old(rng).step(),
{
    rng.choice(pop)
}

/// The weight of a coverage seen `hits` times, where the most frequent
/// coverage was seen `most` times: the rarer, the heavier.
pub open spec fn inverse_weight(hits: usize, most: usize) -> u64 {
    if hits == 0 {
        most as u64
    } else {
        (most / hits) as u64
    }
}

/// The greatest of the first `k` hit counts.
pub open spec fn most_hits(hits: Seq<usize>, k: nat) -> usize
    decreases k,
{
    if k == 0 || k > hits.len() {
        0
    } else if most_hits(hits, (k - 1) as nat) >= hits[k - 1] {
        most_hits(hits, (k - 1) as nat)
    } else {
        hits[k - 1]
    }
}

/// The weights of the given hit counts.
pub open spec fn inverse_weights_spec(hits: Seq<usize>) -> Seq<u64> {
    Seq::new(hits.len(), |i: int| inverse_weight(hits[i], most_hits(hits, hits.len())))
}

/// Computes a weight for each hit count, inverse to the count.
pub fn inverse_weights(hits: &Vec<usize>) -> (r: Vec<u64>)
    ensures
        r@ == inverse_weights_spec(hits@),
{
    let mut most: usize = 0;
    let mut k: usize = 0;
    while k < hits.len()
        invariant
            k <= hits.len(),
            most == most_hits(hits@, k as nat),
        decreases hits.len() - k,
    {
        if most < hits[k] {
            most = hits[k];
        }
        k += 1;
    }
    let mut r: Vec<u64> = Vec::new();
    let mut i: usize = 0;
    while i < hits.len()
        invariant
            i <= hits.len(),
            most == most_hits(hits@, hits@.len()),
            r@.len() == i,
            forall|j: int| 0 <= j < i ==> r@[j] == inverse_weight(hits@[j], most),
        decreases hits.len() - i,
    {
        let w = if hits[i] == 0 {
            most as u64
        } else {
            (most / hits[i]) as u64
        };
        r.push(w);
        i += 1;
    }
    assert(r@ =~= inverse_weights_spec(hits@));
    r
}

/// The sum of the weights, where it fits in a `u64`.
pub fn total_weight(weights: &[u64]) -> (r: Option<u64>)
    ensures
        r matches Some(t) ==> t == prefix_sum(weights@, weights@.len() - 1),
        r is None ==> prefix_sum(weights@, weights@.len() - 1) > u64::MAX,
{
    let mut total: u64 = 0;
    let mut i: usize = 0;
    while i < weights.len()
        invariant
            i <= weights@.len(),
            total == prefix_sum(weights@, i as int - 1),
        decreases weights@.len() - i,
    {
        match total.checked_add(weights[i]) {
            None => {
                proof {
                    crate::rng::lemma_prefix_sum_monotonic(weights@, i as int, weights@.len() - 1);
                }
                return None;
            },
            Some(t) => {
                total = t;
            },
        }
        i += 1;
    }
    Some(total)
}

/// Chooses a position with a chance proportional to its weight. Weights
/// that are all zero, or whose sum does not fit in a `u64`, are rejected
/// without a draw.
pub fn weighted_choice(rng: &mut Rng, weights: &[u64]) -> (r: Option<usize>)
    ensures
        r is Some == (0 < prefix_sum(weights@, weights@.len() - 1) <= u64::MAX),
        r matches Some(pos) ==> pos < weights@.len() && weights@[pos as int] > 0 && prefix_sum(
            weights@,
            pos as int - 1,
        ) <= old(rng).output() % (prefix_sum(weights@, weights@.len() - 1) as u64) < prefix_sum(
            weights@,
            pos as int,
        ) && *final(rng) == old(rng).step(),
        r is None ==> *final(rng) == *old(rng),
{
    match total_weight(weights) {
        None => None,
        Some(total) => {
            if total == 0 || weights.len() == 0 {
                None
            } else {
                Some(rng.choice_w(weights))
            }
        },
    }
}

/// The weights of the boosted schedule can be drawn from: they are not all
/// zero and their sum fits in a `u64`.
pub open spec fn boosted_usable(s: StatisticsView) -> bool {
    let w = inverse_weights_spec(hits_of(s));
    0 < prefix_sum(w, w.len() - 1) <= u64::MAX
}

/// The boosted schedule picks the entry at `pos` with the next draw of
/// `rng`: the draw, taken below the sum of the weights, falls into the share
/// of that entry.
pub open spec fn boosted_pick(s: StatisticsView, rng: Rng, pos: int) -> bool {
    let w = inverse_weights_spec(hits_of(s));
    &&& 0 <= pos < s.coverage_db.len()
    &&& prefix_sum(w, pos - 1) <= rng.output() % (prefix_sum(w, w.len() - 1) as u64) < prefix_sum(
        w,
        pos,
    )
}

/// Chooses an entry of the coverage database, rare coverages more often:
/// each entry weighs the hit count of the most frequent coverage divided by
/// its own. No entry is chosen from an empty database.
pub fn power_schedule_boosted_choose(rng: &mut Rng, stats: &Statistics) -> (r: Option<usize>)
    ensures
        r is Some == boosted_usable(stats@),
        r matches Some(pos) ==> boosted_pick(stats@, *old(rng), pos as int) && *final(rng) == old(
            rng,
        ).step(),
        r is None ==> *final(rng) == *old(rng),
{
    let hits = stats.hit_counts();
    assert(hits@ =~= hits_of(stats@));
    let weights = inverse_weights(&hits);
    weighted_choice(rng, weights.as_slice())
}

/// The hit counts of the entries of the coverage database.
pub open spec fn hits_of(s: StatisticsView) -> Seq<usize> {
    Seq::new(s.coverage_db.len(), |i: int| s.coverage_db[i].hits as usize)
}

/// `r` is a mutant of `member`, which the first draw of `rng` picked: the
/// second draw gives the number of mutations; then `member`, without the
/// zero bytes that it may hold, is mutated that many times, unless its
/// length reaches the limit of a vector before, without ever gaining a zero
/// byte. So a mutant holds no zero byte.
pub open spec fn is_mutant_of(
    member: Seq<u8>,
    rng: Rng,
    min_mutations: usize,
    max_mutations: usize,
    r: Seq<u8>,
    after: Rng,
) -> bool {
    let chosen = without_nulls_spec(member);
    let trials = mutation_count(rng, min_mutations, max_mutations);
    &&& exists|n: nat|
        n <= trials && (chosen.len() + trials < usize::MAX ==> n == trials) && (r, after)
            == #[trigger] mutate_nonnull_times(rng.step().step(), chosen, n)
    &&& null_free(r)
}

/// `r` is a mutation of a member of `population`, each member picked with
/// the same weight by the first draw of `rng`.
pub open spec fn is_mutant(
    population: Seq<Seq<u8>>,
    rng: Rng,
    min_mutations: usize,
    max_mutations: usize,
    r: Seq<u8>,
    after: Rng,
) -> bool {
    is_mutant_of(
        population[(rng.output() % (population.len() as u64)) as int],
        rng,
        min_mutations,
        max_mutations,
        r,
        after,
    )
}

/// `input` is what a session in the state `s` draws next, and `after` the
/// generator that it leaves. While the session has run fewer fuzz cases than
/// there are seeds, the next seed as it is, without a draw. Afterwards a
/// mutant, made with 2 to 10 mutations: with `boosted`, of the input of an
/// entry of the coverage database that the boosted schedule picks, where
/// its weights can be drawn from; else of a member of the population, each
/// picked with the same weight.
pub open spec fn draws(
    s: StatisticsView,
    seed: Seq<Seq<u8>>,
    boosted: bool,
    rng: Rng,
    input: Seq<u8>,
    after: Rng,
) -> bool {
    if s.fuzz_cases < seed.len() {
        input == seed[s.fuzz_cases as int] && after == rng
    } else if boosted && boosted_usable(s) {
        exists|pos: int| #[trigger]
            boosted_pick(s, rng, pos) && is_mutant_of(
                s.coverage_db[pos].input,
                rng,
                2,
                11,
                input,
                after,
            )
    } else {
        is_mutant(s.population, rng, 2, 11, input, after)
    }
}

/// Gets the next input of a session, with 2 to 10 mutations where the
/// input is made by mutation.
pub fn fuzz(rng: &mut Rng, stats: &Statistics, seed: &[Input]) -> (r: Input)
    requires
        stats.fuzz_cases >= seed@.len() ==> stats.population@.len() > 0,
    ensures
        draws(stats@, input_views(seed@), false, *old(rng), r@, *final(rng)),
        stats.fuzz_cases >= seed@.len() ==> null_free(r@),
{
    fuzz_(rng, stats, seed, 2, 10 + 1)
}

/// Gets the next input of a session. While the session has run fewer fuzz
/// cases than there are seeds, the next seed as it is; afterwards a member
/// of the population, chosen with the same weight among all and mutated a
/// random number of times from `min_mutations` to `max_mutations - 1`. A
/// mutant holds no zero byte: those of the member are dropped before it is
/// mutated, and the mutations add none.
pub fn fuzz_(
    rng: &mut Rng,
    stats: &Statistics,
    seed: &[Input],
    min_mutations: usize,
    max_mutations: usize,
) -> (r: Input)
    requires
        min_mutations < max_mutations,
        stats.fuzz_cases >= seed@.len() ==> stats.population@.len() > 0,
    ensures
        stats.fuzz_cases < seed@.len() ==> r@ == seed@[stats.fuzz_cases as int]@ && *final(rng)
            == *old(rng),
        stats.fuzz_cases >= seed@.len() ==> is_mutant(
            stats@.population,
            *old(rng),
            min_mutations,
            max_mutations,
            r@,
            *final(rng),
        ),
        stats.fuzz_cases >= seed@.len() ==> null_free(r@),
{
    if stats.fuzz_cases < seed.len() {
        seed[stats.fuzz_cases].clone()
    } else {
        assert(stats.population@.len() == stats.population.len());
        let chosen = power_schedule_choose(rng, stats.population.as_slice());
        let candidate = chosen.without_nulls();
        let trials = rng.range(min_mutations as u64, max_mutations as u64);
        let ghost start = *rng;
        let r = mutate_repeatedly(rng, candidate, trials, true);
        proof {
            let n = choose|n: nat|
                n <= trials && (candidate@.len() + trials < usize::MAX ==> n == trials) && (
                r@,
                *rng,
            ) == mutate_nonnull_times(start, candidate@, n);
            assert((r@, *rng) == mutate_nonnull_times(old(rng).step().step(), candidate@, n));
            assert(stats@.population.len() == stats.population@.len());
            let idx = (old(rng).output() % (stats.population@.len() as u64)) as int;
            assert(stats@.population[idx] == stats.population@[idx]@);
        }
        r
    }
}

/// Gets the next input of a session that favours rare coverages. While the
/// session has run fewer fuzz cases than there are seeds, the next seed as
/// it is; afterwards the input of an entry of the coverage database, chosen
/// by the boosted schedule and mutated 2 to 10 times. Where the weights of
/// that schedule cannot be drawn from, a member of the population is chosen
/// instead, each with the same weight.
pub fn fuzz_boosted(rng: &mut Rng, stats: &Statistics, seed: &[Input]) -> (r: Input)
    requires
        stats.fuzz_cases >= seed@.len() ==> stats.population@.len() > 0,
    ensures
        draws(stats@, input_views(seed@), true, *old(rng), r@, *final(rng)),
        stats.fuzz_cases >= seed@.len() ==> null_free(r@),
{
    if stats.fuzz_cases < seed.len() {
        return seed[stats.fuzz_cases].clone();
    }
    match power_schedule_boosted_choose(rng, stats) {
        None => fuzz(rng, stats, seed),
        Some(pos) => {
            let candidate = stats.coverage_db[pos].input.without_nulls();
            let trials = rng.range(2, 11);
            let ghost start = *rng;
            let r = mutate_repeatedly(rng, candidate, trials, true);
            proof {
                let n = choose|n: nat|
                    n <= trials && (candidate@.len() + trials < usize::MAX ==> n == trials) && (
                    r@,
                    *rng,
                ) == mutate_nonnull_times(start, candidate@, n);
                assert((r@, *rng) == mutate_nonnull_times(old(rng).step().step(), candidate@, n));
                assert(without_nulls_spec(stats@.coverage_db[pos as int].input) == candidate@);
                assert(boosted_pick(stats@, *old(rng), pos as int));
            }
            r
        },
    }
}

/// The state of a session: its statistics and its generator.
pub struct SessionView {
    pub stats: StatisticsView,
    pub rng: Rng,
}

/// One iteration of the fuzzing loop leads from `a` to `b`: an input is
/// drawn, executed and recorded, with whatever coverage and outcome the
/// program under test reports. Without `boosted`, an input that the
/// population holds already is not executed, and the statistics stay as
/// they are.
#[verifier::opaque]
pub open spec fn iteration(seed: Seq<Seq<u8>>, boosted: bool, a: SessionView, b: SessionView) -> bool {
    exists|input: Seq<u8>, coverage: Set<Location>, outcome: RunResult|
        draws(a.stats, seed, boosted, a.rng, input, b.rng) && coverage.finite() && b.stats == (if !boosted
            && a.stats.population.contains(input) {
            a.stats
        } else {
            #[trigger] record_spec(a.stats, input, coverage, outcome, boosted)
        })
}

/// `k` iterations of the fuzzing loop, one after the other, lead from `a`
/// to `b`.
#[verifier::opaque]
pub open spec fn iterations(
    seed: Seq<Seq<u8>>,
    boosted: bool,
    a: SessionView,
    b: SessionView,
    k: nat,
) -> bool
    decreases k,
{
    if k == 0 {
        a == b
    } else {
        exists|mid: SessionView|
            #![trigger iteration(seed, boosted, mid, b)]
            iterations(seed, boosted, a, mid, (k - 1) as nat) && iteration(seed, boosted, mid, b)
    }
}

/// No iteration leads from a state to itself.
pub proof fn lemma_no_iteration(seed: Seq<Seq<u8>>, boosted: bool, a: SessionView)
    ensures
        iterations(seed, boosted, a, a, 0),
{
    reveal_with_fuel(iterations, 1);
}

/// The input drawn in `a` and recorded with some coverage and outcome, or
/// skipped as a member of the population, makes an iteration.
pub proof fn lemma_iteration(
    seed: Seq<Seq<u8>>,
    boosted: bool,
    a: SessionView,
    b: SessionView,
    input: Seq<u8>,
    coverage: Set<Location>,
    outcome: RunResult,
)
    requires
        draws(a.stats, seed, boosted, a.rng, input, b.rng),
        coverage.finite(),
        b.stats == (if !boosted && a.stats.population.contains(input) {
            a.stats
        } else {
            record_spec(a.stats, input, coverage, outcome, boosted)
        }),
    ensures
        iteration(seed, boosted, a, b),
{
    reveal(iteration);
    let recorded = record_spec(a.stats, input, coverage, outcome, boosted);
}

/// One more iteration: where `k` iterations lead from `a` to `mid`, and
/// one from `mid` to `b`, `k + 1` iterations lead from `a` to `b`.
pub proof fn lemma_one_more_iteration(
    seed: Seq<Seq<u8>>,
    boosted: bool,
    a: SessionView,
    mid: SessionView,
    b: SessionView,
    k: nat,
)
    requires
        iterations(seed, boosted, a, mid, k),
        iteration(seed, boosted, mid, b),
    ensures
        iterations(seed, boosted, a, b, k + 1),
{
    reveal_with_fuel(iterations, 1);
    assert(iterations(seed, boosted, a, mid, ((k + 1) - 1) as nat));
}

/// An iteration only adds: the coverage of the session does not shrink,
/// the population and the trace keep what they held, a population without
/// duplicates stays without, and at most one fuzz case is counted.
pub proof fn lemma_iteration_only_adds(
    seed: Seq<Seq<u8>>,
    boosted: bool,
    a: SessionView,
    b: SessionView,
)
    requires
        iteration(seed, boosted, a, b),
    ensures
        a.stats.coverage_all.subset_of(b.stats.coverage_all),
        a.stats.population.is_prefix_of(b.stats.population),
        a.stats.coverage_cumul.is_prefix_of(b.stats.coverage_cumul),
        a.stats.population.no_duplicates() ==> b.stats.population.no_duplicates(),
        a.stats.fuzz_cases <= b.stats.fuzz_cases <= a.stats.fuzz_cases + 1,
{
    reveal(iteration);
    let (input, coverage, outcome) = choose|
        input: Seq<u8>,
        coverage: Set<Location>,
        outcome: RunResult,
    |
        draws(a.stats, seed, boosted, a.rng, input, b.rng) && coverage.finite() && b.stats == (if !boosted
            && a.stats.population.contains(input) {
            a.stats
        } else {
            #[trigger] record_spec(a.stats, input, coverage, outcome, boosted)
        });
    if a.stats.population.no_duplicates() {
        crate::stats::lemma_record_no_duplicates(a.stats, input, coverage, outcome, boosted);
    }
}

/// A session only adds, however many iterations it runs and whatever the
/// program under test reports: the coverage of the session never shrinks,
/// the population and the trace keep what they held, a population without
/// duplicates stays without, and at most one fuzz case is counted per
/// iteration.
pub proof fn lemma_session_only_adds(
    seed: Seq<Seq<u8>>,
    boosted: bool,
    a: SessionView,
    b: SessionView,
    k: nat,
)
    requires
        iterations(seed, boosted, a, b, k),
    ensures
        a.stats.coverage_all.subset_of(b.stats.coverage_all),
        a.stats.population.is_prefix_of(b.stats.population),
        a.stats.coverage_cumul.is_prefix_of(b.stats.coverage_cumul),
        a.stats.population.no_duplicates() ==> b.stats.population.no_duplicates(),
        a.stats.fuzz_cases <= b.stats.fuzz_cases <= a.stats.fuzz_cases + k,
    decreases k,
{
    reveal_with_fuel(iterations, 1);
    if k > 0 {
        let mid = choose|mid: SessionView|
            #![trigger iteration(seed, boosted, mid, b)]
            iterations(seed, boosted, a, mid, (k - 1) as nat) && iteration(seed, boosted, mid, b);
        lemma_session_only_adds(seed, boosted, a, mid, (k - 1) as nat);
        lemma_iteration_only_adds(seed, boosted, mid, b);
    }
}

/// The loop cannot go on: the seeds are used up and the population is
/// empty, so that nothing can be mutated.
pub open spec fn exhausted(s: StatisticsView, seed: Seq<Seq<u8>>) -> bool {
    s.fuzz_cases >= seed.len() && s.population.len() == 0
}

/// Runs up to `n` iterations of the fuzzing loop and records each executed
/// case. An input that the population already holds is not executed again.
/// The loop ends early only when the seeds are used up and the population
/// is empty. Returns the number of cases executed.
pub fn run<O: CoverageOracle>(
    rng: &mut Rng,
    stats: &mut Statistics,
    oracle: &mut O,
    seed: &[Input],
    n: usize,
) -> (executed: usize)
    requires
        old(stats).wf(),
    ensures
        final(stats).wf(),
        exists|k: nat|
            executed <= k <= n && #[trigger] iterations(
                input_views(seed@),
                false,
                (SessionView { stats: old(stats)@, rng: *old(rng) }),
                (SessionView { stats: final(stats)@, rng: *final(rng) }),
                k,
            ) && (k < n ==> exhausted(final(stats)@, input_views(seed@))),
        final(stats)@.fuzz_cases == old(stats)@.fuzz_cases + executed,
        final(stats)@.coverage_cumul.len() == final(stats)@.fuzz_cases,
        trace_monotonic(final(stats)@.coverage_cumul),
        old(stats)@.coverage_cumul.is_prefix_of(final(stats)@.coverage_cumul),
        old(stats)@.coverage_all.subset_of(final(stats)@.coverage_all),
        old(stats)@.population.is_prefix_of(final(stats)@.population),
        old(stats)@.population.no_duplicates() ==> final(stats)@.population.no_duplicates(),
{
    let ghost views = input_views(seed@);
    let ghost first = SessionView { stats: stats@, rng: *rng };
    proof {
        lemma_no_iteration(views, false, first);
    }
    let mut executed: usize = 0;
    let mut i: usize = 0;
    while i < n
        invariant
            i <= n,
            executed <= i,
            stats.wf(),
            views == input_views(seed@),
            first == (SessionView { stats: old(stats)@, rng: *old(rng) }),
            iterations(views, false, first, (SessionView { stats: stats@, rng: *rng }), i as nat),
            old(stats)@.population.is_prefix_of(stats@.population),
            old(stats)@.population.no_duplicates() ==> stats@.population.no_duplicates(),
            stats@.fuzz_cases == old(stats)@.fuzz_cases + executed,
            old(stats)@.coverage_cumul.is_prefix_of(stats@.coverage_cumul),
            old(stats)@.coverage_all.subset_of(stats@.coverage_all),
        decreases n - i,
    {
        if stats.fuzz_cases >= seed.len() && stats.population.len() == 0 {
            assert(stats@.population.len() == stats.population@.len());
            return executed;
        }
        let ghost before = SessionView { stats: stats@, rng: *rng };
        let input = fuzz(rng, stats, seed);
        if !stats.population_contains(&input) {
            let (coverage, outcome) = oracle.execute(&input);
            proof {
                coverage.lemma_finite();
                if before.stats.population.no_duplicates() {
                    crate::stats::lemma_record_no_duplicates(
                        before.stats,
                        input@,
                        coverage@,
                        outcome,
                        false,
                    );
                }
            }
            let ghost shown = input@;
            let ghost covered = coverage@;
            stats.record(input, coverage, outcome);
            assert(before.stats.coverage_cumul.is_prefix_of(stats@.coverage_cumul));
            assert(before.stats.population.is_prefix_of(stats@.population));
            proof {
                lemma_iteration(
                    views,
                    false,
                    before,
                    SessionView { stats: stats@, rng: *rng },
                    shown,
                    covered,
                    outcome,
                );
                lemma_one_more_iteration(
                    views,
                    false,
                    first,
                    before,
                    SessionView { stats: stats@, rng: *rng },
                    i as nat,
                );
            }
            executed += 1;
        } else {
            proof {
                lemma_iteration(
                    views,
                    false,
                    before,
                    SessionView { stats: stats@, rng: *rng },
                    input@,
                    Set::empty(),
                    RunResult::Pass,
                );
                lemma_one_more_iteration(
                    views,
                    false,
                    first,
                    before,
                    SessionView { stats: stats@, rng: *rng },
                    i as nat,
                );
            }
        }
        i += 1;
    }
    executed
}

/// Runs up to `n` iterations of the fuzzing loop with the boosted schedule.
/// Every case is executed and recorded, and a passing case with a known
/// coverage adds a hit to that coverage. The loop ends early only when the
/// seeds are used up and the population is empty. Returns the number of
/// cases executed.
pub fn run_boosted<O: CoverageOracle>(
    rng: &mut Rng,
    stats: &mut Statistics,
    oracle: &mut O,
    seed: &[Input],
    n: usize,
) -> (executed: usize)
    requires
        old(stats).wf(),
    ensures
        final(stats).wf(),
        executed <= n,
        iterations(
            input_views(seed@),
            true,
            (SessionView { stats: old(stats)@, rng: *old(rng) }),
            (SessionView { stats: final(stats)@, rng: *final(rng) }),
            executed as nat,
        ),
        executed < n ==> exhausted(final(stats)@, input_views(seed@)),
        final(stats)@.fuzz_cases == old(stats)@.fuzz_cases + executed,
        final(stats)@.coverage_cumul.len() == final(stats)@.fuzz_cases,
        trace_monotonic(final(stats)@.coverage_cumul),
        old(stats)@.coverage_cumul.is_prefix_of(final(stats)@.coverage_cumul),
        old(stats)@.coverage_all.subset_of(final(stats)@.coverage_all),
        old(stats)@.population.is_prefix_of(final(stats)@.population),
        old(stats)@.population.no_duplicates() ==> final(stats)@.population.no_duplicates(),
{
    let ghost views = input_views(seed@);
    let ghost first = SessionView { stats: stats@, rng: *rng };
    proof {
        lemma_no_iteration(views, true, first);
    }
    let mut executed: usize = 0;
    while executed < n
        invariant
            executed <= n,
            stats.wf(),
            views == input_views(seed@),
            first == (SessionView { stats: old(stats)@, rng: *old(rng) }),
            iterations(
                views,
                true,
                first,
                (SessionView { stats: stats@, rng: *rng }),
                executed as nat,
            ),
            old(stats)@.population.is_prefix_of(stats@.population),
            old(stats)@.population.no_duplicates() ==> stats@.population.no_duplicates(),
            stats@.fuzz_cases == old(stats)@.fuzz_cases + executed,
            old(stats)@.coverage_cumul.is_prefix_of(stats@.coverage_cumul),
            old(stats)@.coverage_all.subset_of(stats@.coverage_all),
        decreases n - executed,
    {
        if stats.fuzz_cases >= seed.len() && stats.population.len() == 0 {
            assert(stats@.population.len() == stats.population@.len());
            return executed;
        }
        let ghost before = SessionView { stats: stats@, rng: *rng };
        let input = fuzz_boosted(rng, stats, seed);
        let (coverage, outcome) = oracle.execute(&input);
        proof {
            coverage.lemma_finite();
            if before.stats.population.no_duplicates() {
                crate::stats::lemma_record_no_duplicates(
                    before.stats,
                    input@,
                    coverage@,
                    outcome,
                    true,
                );
            }
        }
        let ghost shown = input@;
        let ghost covered = coverage@;
        stats.record_boosted(input, coverage, outcome);
        assert(before.stats.coverage_cumul.is_prefix_of(stats@.coverage_cumul));
        assert(before.stats.population.is_prefix_of(stats@.population));
        proof {
            lemma_iteration(
                views,
                true,
                before,
                SessionView { stats: stats@, rng: *rng },
                shown,
                covered,
                outcome,
            );
            lemma_one_more_iteration(
                views,
                true,
                first,
                before,
                SessionView { stats: stats@, rng: *rng },
                executed as nat,
            );
        }
        executed += 1;
    }
    executed
}

/// The union of the first `k` of the coverages.
pub open spec fn union_of(coverages: Seq<Set<Location>>, k: nat) -> Set<Location>
    decreases k,
{
    if k == 0 || k > coverages.len() {
        Set::empty()
    } else {
        union_of(coverages, (k - 1) as nat).union(coverages[k - 1])
    }
}

/// `all` is the union of the coverages, and `trace` holds the size of the
/// union after each of them.
pub open spec fn accumulates(coverages: Seq<Set<Location>>, all: Set<Location>, trace: Seq<usize>) -> bool {
    &&& trace.len() == coverages.len()
    &&& all == union_of(coverages, coverages.len())
    &&& forall|i: int|
        0 <= i < coverages.len() ==> #[trigger] trace[i] == union_of(coverages, (i + 1) as nat).len()
}

/// The union of the first `k` coverages does not depend on those that
/// follow.
pub proof fn lemma_union_of_prefix(coverages: Seq<Set<Location>>, next: Set<Location>, k: nat)
    requires
        k <= coverages.len(),
    ensures
        union_of(coverages.push(next), k) == union_of(coverages, k),
    decreases k,
{
    if k > 0 {
        lemma_union_of_prefix(coverages, next, (k - 1) as nat);
    }
}

/// Executes each input of a population in turn. Returns the union of
/// the coverages that the program under test reports and, for each input,
/// the size of the union after it.
pub fn population_coverage<O: CoverageOracle>(oracle: &mut O, population: &[Input]) -> (r: (
    Coverage,
    Vec<usize>,
))
    ensures
        exists|coverages: Seq<Set<Location>>|
            #![trigger accumulates(coverages, r.0@, r.1@)]
            coverages.len() == population@.len() && accumulates(coverages, r.0@, r.1@),
        r.1@.len() == population@.len(),
        trace_monotonic(r.1@),
        population@.len() > 0 ==> r.1@.last() == r.0@.len(),
{
    let mut all = Coverage::new();
    let mut cumulative: Vec<usize> = Vec::new();
    let ghost mut coverages: Seq<Set<Location>> = Seq::empty();
    let mut i: usize = 0;
    while i < population.len()
        invariant
            i <= population@.len(),
            coverages.len() == i,
            accumulates(coverages, all@, cumulative@),
            trace_monotonic(cumulative@),
            i > 0 ==> cumulative@.last() == all@.len(),
        decreases population@.len() - i,
    {
        let (coverage, _outcome) = oracle.execute(&population[i]);
        let ghost before = all@;
        let ghost trace = cumulative@;
        let ghost earlier = coverages;
        proof {
            all.lemma_finite();
            coverage.lemma_finite();
            lemma_union_grows(before, coverage@);
            coverages = coverages.push(coverage@);
            lemma_union_of_prefix(earlier, coverage@, earlier.len());
        }
        all.extend(&coverage);
        cumulative.push(all.len());
        proof {
            let now = cumulative@;
            assert forall|a: int, b: int| 0 <= a <= b < now.len() implies now[a] <= now[b] by {
                if b < trace.len() {
                    assert(now[a] == trace[a] && now[b] == trace[b]);
                } else if a < trace.len() {
                    assert(now[a] == trace[a]);
                    assert(trace[a] <= trace.last());
                }
            }
            assert forall|j: int| 0 <= j < coverages.len() implies #[trigger] now[j] == union_of(
                coverages,
                (j + 1) as nat,
            ).len() by {
                if j < earlier.len() {
                    lemma_union_of_prefix(earlier, coverage@, (j + 1) as nat);
                    assert(now[j] == trace[j]);
                }
            }
        }
        i += 1;
    }
    let r = (all, cumulative);
    assert(accumulates(coverages, r.0@, r.1@));
    r
}

/// Produces the inputs of a population first and mutations of its members
/// afterwards; the population grows by the inputs that cover something
/// new.
#[derive(Debug)]
pub struct MutationCoverageFuzzer {
    /// Number of inputs that the fuzzer started with.
    pub initial_population_size: usize,
    /// The inputs that are mutated.
    pub population: Vec<Input>,
    /// Number of inputs produced so far.
    pub fuzz_cases: usize,
}

/// The views of the inputs of a population.
pub open spec fn input_views(v: Seq<Input>) -> Seq<Seq<u8>> {
    Seq::new(v.len(), |i: int| v[i]@)
}

/// The state of a run of fuzz cases of a `MutationCoverageFuzzer`: the
/// fuzzer's population and count of cases, the locations covered so far,
/// the size of that coverage after each case, and the generator.
pub struct CampaignView {
    pub population: Seq<Seq<u8>>,
    pub fuzz_cases: nat,
    pub covered: Set<Location>,
    pub trace: Seq<usize>,
    pub rng: Rng,
}

/// A case gains when it passes and covers a location not covered before.
pub open spec fn gains(covered: Set<Location>, coverage: Set<Location>, outcome: RunResult) -> bool {
    outcome == RunResult::Pass && !coverage.subset_of(covered)
}

/// The state after the case with `input` is counted: where the case gains,
/// its coverage joins the coverage and its input the population, unless
/// the population holds it already.
pub open spec fn counted_case(
    a: CampaignView,
    input: Seq<u8>,
    coverage: Set<Location>,
    outcome: RunResult,
    after: Rng,
) -> CampaignView {
    let covered = if gains(a.covered, coverage, outcome) {
        a.covered.union(coverage)
    } else {
        a.covered
    };
    CampaignView {
        population: if gains(a.covered, coverage, outcome) && !a.population.contains(input) {
            a.population.push(input)
        } else {
            a.population
        },
        fuzz_cases: a.fuzz_cases + 1,
        covered: covered,
        trace: a.trace.push(covered.len() as usize),
        rng: after,
    }
}

/// One fuzz case leads from `a` to `b`: the fuzzer produces an input, one
/// of the first `initial` members of the population as it is while it has
/// produced fewer, a mutant with 2 to 10 mutations afterwards, and the case
/// is counted with whatever coverage and outcome the program under test
/// reports.
#[verifier::opaque]
pub open spec fn fuzz_case(initial: nat, a: CampaignView, b: CampaignView) -> bool {
    exists|input: Seq<u8>, coverage: Set<Location>, outcome: RunResult|
        (if a.fuzz_cases < initial {
            input == a.population[a.fuzz_cases as int] && b.rng == a.rng
        } else {
            is_mutant(a.population, a.rng, 2, 11, input, b.rng)
        }) && coverage.finite() && b == #[trigger] counted_case(a, input, coverage, outcome, b.rng)
}

/// `k` fuzz cases, one after the other, lead from `a` to `b`.
#[verifier::opaque]
pub open spec fn fuzz_cases(initial: nat, a: CampaignView, b: CampaignView, k: nat) -> bool
    decreases k,
{
    if k == 0 {
        a == b
    } else {
        exists|mid: CampaignView|
            #![trigger fuzz_case(initial, mid, b)]
            fuzz_cases(initial, a, mid, (k - 1) as nat) && fuzz_case(initial, mid, b)
    }
}

/// No fuzz case leads from a state to itself.
pub proof fn lemma_no_fuzz_case(initial: nat, a: CampaignView)
    ensures
        fuzz_cases(initial, a, a, 0),
{
    reveal_with_fuel(fuzz_cases, 1);
}

/// The input that the fuzzer produces in `a`, counted with some coverage
/// and outcome, makes a fuzz case.
pub proof fn lemma_fuzz_case(
    initial: nat,
    a: CampaignView,
    b: CampaignView,
    input: Seq<u8>,
    coverage: Set<Location>,
    outcome: RunResult,
)
    requires
        a.fuzz_cases < initial ==> input == a.population[a.fuzz_cases as int] && b.rng == a.rng,
        a.fuzz_cases >= initial ==> is_mutant(a.population, a.rng, 2, 11, input, b.rng),
        coverage.finite(),
        b == counted_case(a, input, coverage, outcome, b.rng),
    ensures
        fuzz_case(initial, a, b),
{
    reveal(fuzz_case);
}

/// One more fuzz case: where `k` cases lead from `a` to `mid`, and one
/// from `mid` to `b`, `k + 1` cases lead from `a` to `b`.
pub proof fn lemma_one_more_fuzz_case(
    initial: nat,
    a: CampaignView,
    mid: CampaignView,
    b: CampaignView,
    k: nat,
)
    requires
        fuzz_cases(initial, a, mid, k),
        fuzz_case(initial, mid, b),
    ensures
        fuzz_cases(initial, a, b, k + 1),
{
    reveal_with_fuel(fuzz_cases, 1);
    assert(fuzz_cases(initial, a, mid, ((k + 1) - 1) as nat));
}

impl MutationCoverageFuzzer {
    /// The initial population is part of the population.
    pub open spec fn wf(&self) -> bool {
        self.initial_population_size <= self.population@.len()
    }

    /// A fuzzer that starts from the given inputs.
    pub fn new(seed: Vec<Input>) -> (r: Self)
        ensures
            r.wf(),
            r.initial_population_size == seed@.len(),
            r.population == seed,
            r.fuzz_cases == 0,
    {
        let n = seed.len();
        MutationCoverageFuzzer { initial_population_size: n, population: seed, fuzz_cases: 0 }
    }

    /// Produces the next input, with 2 to 10 mutations per candidate.
    pub fn fuzz(&mut self, rng: &mut Rng) -> (r: Input)
        requires
            old(self).wf(),
            old(self).population@.len() > 0,
            old(self).fuzz_cases < usize::MAX,
        ensures
            final(self).population == old(self).population,
            final(self).initial_population_size == old(self).initial_population_size,
            final(self).fuzz_cases == old(self).fuzz_cases + 1,
            old(self).fuzz_cases < old(self).initial_population_size ==> r@
                == old(self).population@[old(self).fuzz_cases as int]@ && *final(rng) == *old(rng),
            old(self).fuzz_cases >= old(self).initial_population_size ==> is_mutant(
                input_views(old(self).population@),
                *old(rng),
                2,
                11,
                r@,
                *final(rng),
            ),
    {
        self.fuzz_(rng, 2, 10 + 1)
    }

    /// Produces the next input: the members of the initial population in
    /// turn, then candidates made by `create_candidate`.
    pub fn fuzz_(&mut self, rng: &mut Rng, min_mutations: usize, max_mutations: usize) -> (r: Input)
        requires
            old(self).wf(),
            old(self).population@.len() > 0,
            old(self).fuzz_cases < usize::MAX,
            min_mutations < max_mutations,
        ensures
            final(self).population == old(self).population,
            final(self).initial_population_size == old(self).initial_population_size,
            final(self).fuzz_cases == old(self).fuzz_cases + 1,
            old(self).fuzz_cases < old(self).initial_population_size ==> r@
                == old(self).population@[old(self).fuzz_cases as int]@ && *final(rng) == *old(rng),
            old(self).fuzz_cases >= old(self).initial_population_size ==> is_mutant(
                input_views(old(self).population@),
                *old(rng),
                min_mutations,
                max_mutations,
                r@,
                *final(rng),
            ),
    {
        self.fuzz_cases += 1;
        if self.fuzz_cases - 1 < self.initial_population_size {
            self.population[self.fuzz_cases - 1].clone()
        } else {
            self.create_candidate(rng, min_mutations, max_mutations)
        }
    }

    /// Makes a candidate: a member of the population, chosen with the same
    /// weight among all, mutated a random number of times from
    /// `min_mutations` to `max_mutations - 1`. A candidate holds no zero
    /// byte.
    pub fn create_candidate(&self, rng: &mut Rng, min_mutations: usize, max_mutations: usize) -> (r:
        Input)
        requires
            self.population@.len() > 0,
            min_mutations < max_mutations,
        ensures
            null_free(r@),
            is_mutant(
                input_views(self.population@),
                *old(rng),
                min_mutations,
                max_mutations,
                r@,
                *final(rng),
            ),
    {
        assert(self.population@.len() == self.population.len());
        let chosen = rng.choice(self.population.as_slice());
        let candidate = chosen.without_nulls();
        let trials = rng.range(min_mutations as u64, max_mutations as u64);
        let ghost start = *rng;
        let r = mutate_repeatedly(rng, candidate, trials, true);
        proof {
            let n = choose|n: nat|
                n <= trials && (candidate@.len() + trials < usize::MAX ==> n == trials) && (
                r@,
                *rng,
            ) == mutate_nonnull_times(start, candidate@, n);
            assert((r@, *rng) == mutate_nonnull_times(old(rng).step().step(), candidate@, n));
            let idx = (old(rng).output() % (self.population@.len() as u64)) as int;
            assert(input_views(self.population@).len() == self.population@.len());
            assert(input_views(self.population@)[idx] == self.population@[idx]@);
            assert(chosen@ == self.population@[idx]@);
            assert(candidate@ == without_nulls_spec(input_views(self.population@)[idx]));
        }
        r
    }

    /// A copy of the population.
    pub fn population(&self) -> (r: Vec<Input>)
        ensures
            input_views(r@) == input_views(self.population@),
    {
        let mut r: Vec<Input> = Vec::new();
        let mut i: usize = 0;
        while i < self.population.len()
            invariant
                i <= self.population.len(),
                r@.len() == i,
                forall|j: int| 0 <= j < i ==> r@[j]@ == self.population@[j]@,
            decreases self.population.len() - i,
        {
            r.push(self.population[i].clone());
            i += 1;
        }
        assert(input_views(r@) =~= input_views(self.population@));
        r
    }

    /// Tells whether the population holds the exact input.
    pub fn population_contains(&self, input: &Input) -> (b: bool)
        ensures
            b == input_views(self.population@).contains(input@),
    {
        let mut i: usize = 0;
        while i < self.population.len()
            invariant
                i <= self.population.len(),
                forall|j: int| 0 <= j < i ==> input_views(self.population@)[j] != input@,
            decreases self.population.len() - i,
        {
            if self.population[i].same(input) {
                assert(input_views(self.population@)[i as int] == input@);
                return true;
            }
            i += 1;
        }
        false
    }

    /// Runs `n` fuzz cases on a fuzzer that has produced no input yet. An
    /// input that passes and covers a location not covered before joins
    /// the population, unless the population holds it already. Returns the
    /// coverage reached and, for each case, the size of the coverage after
    /// it.
    pub fn runs<O: CoverageOracle>(&mut self, rng: &mut Rng, oracle: &mut O, n: usize) -> (r: (
        Coverage,
        Vec<usize>,
    ))
        requires
            old(self).wf(),
            old(self).fuzz_cases == 0,
            old(self).population@.len() > 0,
        ensures
            final(self).wf(),
            final(self).initial_population_size == old(self).initial_population_size,
            fuzz_cases(
                old(self).initial_population_size as nat,
                (CampaignView {
                    population: input_views(old(self).population@),
                    fuzz_cases: 0,
                    covered: Set::empty(),
                    trace: Seq::empty(),
                    rng: *old(rng),
                }),
                (CampaignView {
                    population: input_views(final(self).population@),
                    fuzz_cases: final(self).fuzz_cases as nat,
                    covered: r.0@,
                    trace: r.1@,
                    rng: *final(rng),
                }),
                n as nat,
            ),
            final(self).fuzz_cases == n,
            input_views(old(self).population@).is_prefix_of(input_views(final(self).population@)),
            r.1@.len() == n,
            trace_monotonic(r.1@),
            n > 0 ==> r.1@.last() == r.0@.len(),
    {
        let ghost initial = self.initial_population_size as nat;
        let ghost first = CampaignView {
            population: input_views(self.population@),
            fuzz_cases: 0,
            covered: Set::empty(),
            trace: Seq::empty(),
            rng: *rng,
        };
        let mut coverage = Coverage::new();
        let mut cumulative_coverage: Vec<usize> = Vec::new();
        proof {
            assert(cumulative_coverage@ =~= Seq::empty());
            lemma_no_fuzz_case(initial, first);
        }
        let mut i: usize = 0;
        while i < n
            invariant
                i <= n,
                self.wf(),
                self.fuzz_cases == i,
                self.population@.len() > 0,
                self.initial_population_size == old(self).initial_population_size,
                initial == old(self).initial_population_size,
                fuzz_cases(
                    initial,
                    first,
                    (CampaignView {
                        population: input_views(self.population@),
                        fuzz_cases: self.fuzz_cases as nat,
                        covered: coverage@,
                        trace: cumulative_coverage@,
                        rng: *rng,
                    }),
                    i as nat,
                ),
                first == (CampaignView {
                    population: input_views(old(self).population@),
                    fuzz_cases: 0,
                    covered: Set::empty(),
                    trace: Seq::empty(),
                    rng: *old(rng),
                }),
                input_views(old(self).population@).is_prefix_of(input_views(self.population@)),
                cumulative_coverage@.len() == i,
                trace_monotonic(cumulative_coverage@),
                i > 0 ==> cumulative_coverage@.last() == coverage@.len(),
            decreases n - i,
        {
            let ghost a = CampaignView {
                population: input_views(self.population@),
                fuzz_cases: self.fuzz_cases as nat,
                covered: coverage@,
                trace: cumulative_coverage@,
                rng: *rng,
            };
            let input = self.fuzz(rng);
            let (runcoverage, runoutcome) = oracle.execute(&input);
            let ghost shown = input@;
            let ghost reported = runcoverage@;
            proof {
                coverage.lemma_finite();
                runcoverage.lemma_finite();
                lemma_union_grows(a.covered, reported);
                assert(input_views(self.population@).len() == self.population@.len());
                if a.fuzz_cases < initial {
                    assert(a.population[a.fuzz_cases as int] == shown);
                }
            }
            if runoutcome == RunResult::Pass && !runcoverage.is_subset_of(&coverage) {
                if !self.population_contains(&input) {
                    self.population.push(input);
                    assert(input_views(self.population@) =~= a.population.push(shown));
                }
                coverage.extend(&runcoverage);
            }
            cumulative_coverage.push(coverage.len());
            proof {
                let b = CampaignView {
                    population: input_views(self.population@),
                    fuzz_cases: self.fuzz_cases as nat,
                    covered: coverage@,
                    trace: cumulative_coverage@,
                    rng: *rng,
                };
                assert(b == counted_case(a, shown, reported, runoutcome, b.rng));
                lemma_fuzz_case(initial, a, b, shown, reported, runoutcome);
                lemma_one_more_fuzz_case(initial, first, a, b, i as nat);
                let now = cumulative_coverage@;
                assert forall|x: int, y: int| 0 <= x <= y < now.len() implies now[x] <= now[y] by {
                    if y < a.trace.len() {
                        assert(now[x] == a.trace[x] && now[y] == a.trace[y]);
                    } else if x < a.trace.len() {
                        assert(now[x] == a.trace[x]);
                        assert(a.trace[x] <= a.trace.last());
                    }
                }
            }
            i += 1;
        }
        (coverage, cumulative_coverage)
    }
}

} // verus!
