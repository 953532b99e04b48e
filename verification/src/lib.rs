//! Building blocks for coverage-guided mutation fuzzing and grammar-based
//! input generation, with machine-checked contracts.
//!
//! Mutation fuzzing: [`rng`] draws the random numbers, [`mutation`] edits
//! inputs byte by byte, [`coverage`] and [`stats`] keep the corpus and the
//! coverage database of a session, [`fuzzer`] holds the fuzzers and the
//! fuzzing loop, and [`gcov`] reads the coverage reports of the program
//! under test.
//!
//! Grammar fuzzing: [`grammar`] and [`ebnf`] hold grammars in BNF and EBNF,
//! [`validity`] trims and checks them, [`cost`] computes the cost of symbols
//! and expansions, [`tree`] holds derivation trees, and [`expand`] grows
//! them. [`print`] and [`dot`] write grammars and trees out as text,
//! [`bnf_text`] reads a grammar from text, and [`examples`] and
//! [`ebnf_examples`] hold grammars to start from. [`flat`] and
//! [`flat_validity`] state what holds of the grammars in EBNF that need no
//! fresh nonterminal: they are printed like their BNF form, and are valid
//! exactly when it is.
//!
//! Every draw is a function of the generator's state, so a session can be
//! replayed from its seed; the contracts state results in terms of that
//! state.

pub mod bnf_text;
pub mod cost;
pub mod coverage;
pub mod dot;
pub mod ebnf;
pub mod ebnf_examples;
pub mod examples;
pub mod expand;
pub mod flat;
pub mod flat_validity;
pub mod fuzzer;
pub mod gcov;
pub mod grammar;
pub mod input;
pub mod mutation;
pub mod print;
pub mod reach;
pub mod rng;
pub mod stats;
pub mod text;
pub mod tree;
pub mod validity;
