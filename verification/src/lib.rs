//! Evolves short programs of a small tape language towards a target
//! behaviour: a tokenizer and an execution engine for the language, text
//! programs with mutation and crossover, fitness strategies, and the
//! generational search that ties them together.
//!
//! Fitness scores and probabilities are fixed-point integers, see
//! [`fitness::SCORE_ONE`] and [`chance::RATE_ONE`].

pub mod algorithm;
pub mod chance;
pub mod clock;
pub mod fitness;
pub mod grammar;
pub mod interpreter;
pub mod language;
pub mod machine;
pub mod parser;
pub mod program;
pub mod selection;
pub mod text;
