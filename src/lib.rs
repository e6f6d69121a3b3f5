//! A grammar-aware input engine for coverage-guided fuzzing of programs that
//! read binary-structured input.
//!
//! A [`grammar::Grammar`] describes an input format as records of fields. From
//! it the engine can generate well-formed inputs ([`generator`]), parse inputs
//! into a tree of parsed records ([`parser`], [`tree`]), and mutate an input by
//! regenerating one record of its tree ([`mutator`]). Numbers are encoded at
//! fixed widths in the byte order of the machine ([`encoding`]); randomness
//! comes from libafl's generator, with every draw remembered as ghost state
//! ([`rng`]), so that the generator's and mutator's contracts state their
//! results exactly as functions of the draws.

pub mod cli;
pub mod encoding;
pub mod error;
pub mod generator;
pub mod grammar;
pub mod mutator;
pub mod parser;
pub mod rng;
pub mod roundtrip;
pub mod tree;
