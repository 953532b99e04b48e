//! The corpus and the coverage database of a fuzzing session.
//!
//! Every executed fuzz case is recorded once. An input that passed and
//! showed a coverage not seen before is interesting: it joins the
//! population, its coverage enters the database, and the locations it
//! covered are added to the coverage of the session. The trace of the
//! session's coverage size grows by one entry per case and never falls.

use vstd::prelude::*;
use crate::coverage::{lemma_union_grows, Coverage, Location};
use crate::input::Input;

verus! {

/// How a run of the program under test ended.
#[derive(Clone, Copy, Debug, PartialEq, Eq, Structural)]
pub enum RunResult {
    /// The program exited with status zero.
    Pass,
    /// The program crashed: it was ended by a signal.
    Fail,
    /// The program exited with another status.
    Unresolved,
}

/// The outcome that an exit status stands for. `code` is the exit code,
/// or `None` where the program was ended by a signal.
pub open spec fn classify_exit_spec(code: Option<i32>) -> RunResult {
    match code {
        None => RunResult::Fail,
        Some(c) => if c == 0 {
            RunResult::Pass
        } else if c < 0 {
            RunResult::Fail
        } else {
            RunResult::Unresolved
        },
    }
}

/// Classifies the exit status of a run.
pub fn classify_exit(code: Option<i32>) -> (r: RunResult)
    ensures
        r == classify_exit_spec(code),
{
    match code {
        None => RunResult::Fail,
        Some(c) => if c == 0 {
            RunResult::Pass
        } else if c < 0 {
            RunResult::Fail
        } else {
            RunResult::Unresolved
        },
    }
}

/// One coverage of the database: the coverage itself, the first input
/// that showed it, and how many passing runs showed it.
#[derive(Debug)]
pub struct CoverageEntry {
    pub signature: Coverage,
    pub input: Input,
    pub hits: usize,
}

/// Mathematical model of a database entry.
pub struct CoverageEntryView {
    pub signature: Set<Location>,
    pub input: Seq<u8>,
    pub hits: nat,
}

impl View for CoverageEntry {
    type V = CoverageEntryView;

    open spec fn view(&self) -> CoverageEntryView {
        CoverageEntryView {
            signature: self.signature@,
            input: self.input@,
            hits: self.hits as nat,
        }
    }
}

/// Statistics of a fuzzing session.
#[derive(Debug)]
pub struct Statistics {
    /// Number of fuzz cases recorded.
    pub fuzz_cases: usize,
    /// The inputs that the session keeps for mutation.
    pub population: Vec<Input>,
    /// Union of all coverages of interesting inputs.
    pub coverage_all: Coverage,
    /// Every coverage seen in a passing run, each once.
    pub coverage_db: Vec<CoverageEntry>,
    /// Size of `coverage_all` after each fuzz case.
    pub coverage_cumul: Vec<usize>,
}

/// Mathematical model of the statistics.
pub struct StatisticsView {
    pub fuzz_cases: nat,
    pub population: Seq<Seq<u8>>,
    pub coverage_all: Set<Location>,
    pub coverage_db: Seq<CoverageEntryView>,
    pub coverage_cumul: Seq<usize>,
}

impl View for Statistics {
    type V = StatisticsView;

    open spec fn view(&self) -> StatisticsView {
        StatisticsView {
            fuzz_cases: self.fuzz_cases as nat,
            population: Seq::new(self.population@.len(), |i: int| self.population@[i]@),
            coverage_all: self.coverage_all@,
            coverage_db: Seq::new(self.coverage_db@.len(), |i: int| self.coverage_db@[i]@),
            coverage_cumul: self.coverage_cumul@,
        }
    }
}

/// The trace never falls.
pub open spec fn trace_monotonic(trace: Seq<usize>) -> bool {
    forall|i: int, j: int| 0 <= i <= j < trace.len() ==> trace[i] <= trace[j]
}

/// Some entry of the database has the coverage `c`.
pub open spec fn knows(db: Seq<CoverageEntryView>, c: Set<Location>) -> bool {
    exists|i: int| 0 <= i < db.len() && (#[trigger] db[i]).signature == c
}

/// Position of the entry with the coverage `c`, for a coverage that the
/// database knows.
pub open spec fn entry_of(db: Seq<CoverageEntryView>, c: Set<Location>) -> int {
    choose|i: int| 0 <= i < db.len() && (#[trigger] db[i]).signature == c
}

/// The invariant of the statistics: the trace has one entry per fuzz case,
/// never falls, and ends with the size of the session's coverage; and no
/// coverage is in the database twice.
pub open spec fn consistent(s: StatisticsView) -> bool {
    &&& s.coverage_all.finite()
    &&& s.coverage_cumul.len() == s.fuzz_cases
    &&& trace_monotonic(s.coverage_cumul)
    &&& s.coverage_cumul.len() > 0 ==> s.coverage_cumul.last() == s.coverage_all.len()
    &&& forall|i: int, j: int|
        0 <= i < j < s.coverage_db.len() ==> (#[trigger] s.coverage_db[i]).signature
            != (#[trigger] s.coverage_db[j]).signature
}

/// A fuzz case is interesting when it passed and showed a coverage that
/// the database does not know.
pub open spec fn interesting(s: StatisticsView, coverage: Set<Location>, outcome: RunResult) -> bool {
    outcome == RunResult::Pass && !knows(s.coverage_db, coverage)
}

/// The hit count after one more hit; it stops at `usize::MAX`.
pub open spec fn one_more(hits: nat) -> nat {
    if hits < usize::MAX {
        hits + 1
    } else {
        hits
    }
}

/// The statistics after a fuzz case is recorded. With `boosted`, a passing
/// run whose coverage is known adds a hit to that coverage's entry.
pub open spec fn record_spec(
    s: StatisticsView,
    input: Seq<u8>,
    coverage: Set<Location>,
    outcome: RunResult,
    boosted: bool,
) -> StatisticsView {
    let all = if interesting(s, coverage, outcome) {
        s.coverage_all.union(coverage)
    } else {
        s.coverage_all
    };
    StatisticsView {
        fuzz_cases: s.fuzz_cases + 1,
        population: if interesting(s, coverage, outcome) && !s.population.contains(input) {
            s.population.push(input)
        } else {
            s.population
        },
        coverage_all: all,
        coverage_db: if interesting(s, coverage, outcome) {
            s.coverage_db.push(CoverageEntryView { signature: coverage, input: input, hits: 1 })
        } else if boosted && outcome == RunResult::Pass {
            let i = entry_of(s.coverage_db, coverage);
            s.coverage_db.update(
                i,
                CoverageEntryView {
                    signature: coverage,
                    input: s.coverage_db[i].input,
                    hits: one_more(s.coverage_db[i].hits),
                },
            )
        } else {
            s.coverage_db
        },
        coverage_cumul: s.coverage_cumul.push(all.len() as usize),
    }
}

/// Recording a fuzz case keeps the statistics consistent: the trace gets
/// one more entry, as the count of fuzz cases does, and does not fall.
pub proof fn lemma_record_consistent(
    s: StatisticsView,
    input: Seq<u8>,
    coverage: Set<Location>,
    outcome: RunResult,
    boosted: bool,
)
    requires
        consistent(s),
        coverage.finite(),
        record_spec(s, input, coverage, outcome, boosted).coverage_all.len() <= usize::MAX,
    ensures
        consistent(record_spec(s, input, coverage, outcome, boosted)),
        record_spec(s, input, coverage, outcome, boosted).coverage_cumul.len() == s.fuzz_cases + 1,
{
    let t = record_spec(s, input, coverage, outcome, boosted);
    lemma_union_grows(s.coverage_all, coverage);
    let trace = t.coverage_cumul;
    assert forall|i: int, j: int| 0 <= i <= j < trace.len() implies trace[i] <= trace[j] by {
        if j < s.coverage_cumul.len() {
            assert(trace[i] == s.coverage_cumul[i] && trace[j] == s.coverage_cumul[j]);
        } else if i < s.coverage_cumul.len() {
            assert(trace[i] == s.coverage_cumul[i]);
            assert(s.coverage_cumul[i] <= s.coverage_cumul.last());
        }
    }
    let db = s.coverage_db;
    let db2 = t.coverage_db;
    assert forall|i: int, j: int| 0 <= i < j < db2.len() implies (#[trigger] db2[i]).signature != (
    #[trigger] db2[j]).signature by {
        if interesting(s, coverage, outcome) {
            if j == db.len() {
                assert(db2[i] == db[i]);
            } else {
                assert(db2[i] == db[i] && db2[j] == db[j]);
            }
        } else if boosted && outcome == RunResult::Pass {
            let k = entry_of(db, coverage);
            assert(db2[i].signature == db[i].signature);
            assert(db2[j].signature == db[j].signature);
        }
    }
}

/// A population without duplicates stays without duplicates, whatever is
/// recorded.
pub proof fn lemma_record_no_duplicates(
    s: StatisticsView,
    input: Seq<u8>,
    coverage: Set<Location>,
    outcome: RunResult,
    boosted: bool,
)
    requires
        s.population.no_duplicates(),
    ensures
        record_spec(s, input, coverage, outcome, boosted).population.no_duplicates(),
{
    if interesting(s, coverage, outcome) && !s.population.contains(input) {
        crate::coverage::lemma_push_no_duplicates(s.population, input);
    }
}

/// Feeding the same input a second time never adds it to the population
/// a second time.
pub proof fn lemma_same_input_twice(
    s: StatisticsView,
    input: Seq<u8>,
    c1: Set<Location>,
    o1: RunResult,
    c2: Set<Location>,
    o2: RunResult,
    boosted: bool,
)
    ensures
        ({
            let once = record_spec(s, input, c1, o1, boosted);
            let twice = record_spec(once, input, c2, o2, boosted);
            once.population.contains(input) ==> twice.population == once.population
        }),
{
}

/// Of two passing inputs with the same coverage, only the first joins the
/// population and the database; the second leaves the database as it is
/// or, with `boosted`, adds one hit to the entry of that coverage.
pub proof fn lemma_same_coverage_twice(
    s: StatisticsView,
    first: Seq<u8>,
    second: Seq<u8>,
    coverage: Set<Location>,
    boosted: bool,
)
    requires
        consistent(s),
    ensures
        ({
            let once = record_spec(s, first, coverage, RunResult::Pass, boosted);
            let twice = record_spec(once, second, coverage, RunResult::Pass, boosted);
            &&& knows(once.coverage_db, coverage)
            &&& twice.population == once.population
            &&& twice.coverage_all == once.coverage_all
            &&& twice.coverage_db.len() == once.coverage_db.len()
            &&& !boosted ==> twice.coverage_db == once.coverage_db
            &&& boosted ==> twice.coverage_db[entry_of(once.coverage_db, coverage)].hits
                == one_more(once.coverage_db[entry_of(once.coverage_db, coverage)].hits)
        }),
{
    let once = record_spec(s, first, coverage, RunResult::Pass, boosted);
    if interesting(s, coverage, RunResult::Pass) {
        assert(once.coverage_db[s.coverage_db.len() as int].signature == coverage);
    } else {
        let i = entry_of(s.coverage_db, coverage);
        assert(once.coverage_db[i].signature == coverage);
    }
    assert(knows(once.coverage_db, coverage));
}

impl Statistics {
    /// The statistics are consistent.
    pub open spec fn wf(&self) -> bool {
        consistent(self@)
    }

    /// Statistics of a session that starts with the given population and
    /// has run no fuzz case yet.
    pub fn new(seed: Vec<Input>) -> (r: Self)
        ensures
            r.wf(),
            r@.fuzz_cases == 0,
            r@.population == Seq::new(seed@.len(), |i: int| seed@[i]@),
            r@.coverage_all == Set::<Location>::empty(),
            r@.coverage_db.len() == 0,
            r@.coverage_cumul.len() == 0,
    {
        let r = Statistics {
            fuzz_cases: 0,
            population: seed,
            coverage_all: Coverage::new(),
            coverage_db: Vec::new(),
            coverage_cumul: Vec::new(),
        };
        assert(r@.population =~= Seq::new(seed@.len(), |i: int| seed@[i]@));
        r
    }

    /// Finds the entry of the database with the given coverage.
    pub fn find_coverage(&self, coverage: &Coverage) -> (r: Option<usize>)
        ensures
            r.is_some() == knows(self@.coverage_db, coverage@),
            r matches Some(i) ==> i < self@.coverage_db.len() && self@.coverage_db[i as int].signature
                == coverage@,
            self.wf() ==> (r matches Some(i) ==> i == entry_of(self@.coverage_db, coverage@)),
    {
        let mut i: usize = 0;
        while i < self.coverage_db.len()
            invariant
                i <= self.coverage_db.len(),
                forall|j: int| 0 <= j < i ==> (#[trigger] self@.coverage_db[j]).signature != coverage@,
            decreases self.coverage_db.len() - i,
        {
            assert(self@.coverage_db[i as int] == self.coverage_db@[i as int]@);
            if self.coverage_db[i].signature.same(coverage) {
                proof {
                    if self.wf() {
                        let k = entry_of(self@.coverage_db, coverage@);
                        if k < i {
                            assert(self@.coverage_db[k].signature != self@.coverage_db[i as int].signature);
                        }
                        if i < k {
                            assert(self@.coverage_db[i as int].signature != self@.coverage_db[k].signature);
                        }
                    }
                }
                return Some(i);
            }
            i += 1;
        }
        None
    }

    /// Tells whether the population holds the exact input.
    pub fn population_contains(&self, input: &Input) -> (b: bool)
        ensures
            b == self@.population.contains(input@),
    {
        let mut i: usize = 0;
        while i < self.population.len()
            invariant
                i <= self.population.len(),
                forall|j: int| 0 <= j < i ==> self@.population[j] != input@,
            decreases self.population.len() - i,
        {
            assert(self@.population[i as int] == self.population@[i as int]@);
            if self.population[i].same(input) {
                return true;
            }
            i += 1;
        }
        false
    }

    /// Records a fuzz case. Returns whether the case was interesting: it
    /// passed with a coverage that the database did not know.
    pub fn record(&mut self, input: Input, coverage: Coverage, outcome: RunResult) -> (r: bool)
        requires
            old(self).wf(),
        ensures
            final(self).wf(),
            r == interesting(old(self)@, coverage@, outcome),
            final(self)@ == record_spec(old(self)@, input@, coverage@, outcome, false),
    {
        self.record_case(input, coverage, outcome, false)
    }

    /// Records a fuzz case and counts how often each coverage is seen: a
    /// passing case with a known coverage adds a hit to that coverage.
    pub fn record_boosted(&mut self, input: Input, coverage: Coverage, outcome: RunResult) -> (r:
        bool)
        requires
            old(self).wf(),
        ensures
            final(self).wf(),
            r == interesting(old(self)@, coverage@, outcome),
            final(self)@ == record_spec(old(self)@, input@, coverage@, outcome, true),
    {
        self.record_case(input, coverage, outcome, true)
    }

    /// Records a fuzz case, with or without counting hits.
    pub fn record_case(
        &mut self,
        input: Input,
        coverage: Coverage,
        outcome: RunResult,
        boosted: bool,
    ) -> (r: bool)
        requires
            old(self).wf(),
        ensures
            final(self).wf(),
            r == interesting(old(self)@, coverage@, outcome),
            final(self)@ == record_spec(old(self)@, input@, coverage@, outcome, boosted),
    {
        let ghost s = self@;
        let ghost c = coverage@;
        proof {
            coverage.lemma_finite();
        }
        let mut fresh = false;
        if outcome == RunResult::Pass {
            match self.find_coverage(&coverage) {
                None => {
                    fresh = true;
                    if !self.population_contains(&input) {
                        self.population.push(input.clone());
                    }
                    self.coverage_all.extend(&coverage);
                    self.coverage_db.push(
                        CoverageEntry { signature: coverage, input: input, hits: 1 },
                    );
                },
                Some(i) => {
                    if boosted {
                        let entry = self.coverage_db.remove(i);
                        let hits = if entry.hits < usize::MAX {
                            entry.hits + 1
                        } else {
                            entry.hits
                        };
                        self.coverage_db.insert(
                            i,
                            CoverageEntry { signature: entry.signature, input: entry.input, hits: hits },
                        );
                    }
                },
            }
        }
        let size = self.coverage_all.len();
        self.coverage_cumul.push(size);
        self.fuzz_cases = self.coverage_cumul.len();
        proof {
            let t = record_spec(s, input@, c, outcome, boosted);
            assert(self@.population =~= t.population);
            assert(self@.coverage_db =~= t.coverage_db);
            assert(self@.coverage_cumul =~= t.coverage_cumul);
            assert(self@ == t);
            lemma_record_consistent(s, input@, c, outcome, boosted);
        }
        fresh
    }

    /// The hit count of each entry of the database, in order.
    pub fn hit_counts(&self) -> (r: Vec<usize>)
        ensures
            r@.len() == self@.coverage_db.len(),
            forall|i: int| 0 <= i < r@.len() ==> r@[i] == self@.coverage_db[i].hits,
    {
        let mut r: Vec<usize> = Vec::new();
        let mut i: usize = 0;
        while i < self.coverage_db.len()
            invariant
                i <= self.coverage_db.len(),
                r@.len() == i,
                forall|j: int| 0 <= j < i ==> r@[j] == self@.coverage_db[j].hits,
            decreases self.coverage_db.len() - i,
        {
            assert(self@.coverage_db[i as int] == self.coverage_db@[i as int]@);
            r.push(self.coverage_db[i].hits);
            i += 1;
        }
        r
    }
}

impl Default for Statistics {
    /// Statistics of a session without population and without fuzz cases.
    fn default() -> (r: Self)
        ensures
            r.wf(),
            r@.fuzz_cases == 0,
            r@.population.len() == 0,
    {
        Statistics::new(Vec::new())
    }
}

} // verus!
