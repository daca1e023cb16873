//! Verified solutions to a series of small puzzles.
//!
//! The heart of the crate is a chained range-remapping engine: lookup
//! tables that map disjoint source ranges to destination ranges, applied one
//! after another to single values or to whole intervals of values. It lives
//! in `interval`, `range_table`, `pipeline`, `minimizer` and `seeds`, with
//! what holds of it proved in `range_laws` and `pipeline_laws`.
//!
//! Each puzzle has a module of its own, named after its day, with a reader
//! for its input and its solutions. The readers share the module `text`.

pub mod error;
pub mod interval;
pub mod range_table;
pub mod range_laws;
pub mod pipeline;
pub mod pipeline_laws;
pub mod minimizer;
pub mod seeds;
pub mod text;
pub mod day01;
pub mod day02;
pub mod day03;
pub mod day04;
pub mod day05;
pub mod day06;
pub mod day07;
pub mod day08;
