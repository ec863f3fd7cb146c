//! Forward-chaining inference over trait relations.
//!
//! A relation says that objects with one set of traits also have another.
//! The engine saturates a collection of relations under two rules and asks
//! the result whether pigs can fly:
//!
//! - [`labels`] holds the finite sets of trait labels;
//! - [`relation`] holds the relation and what one relation can learn from
//!   another;
//! - [`closure`] states what saturation computes and proves what makes it
//!   well defined and finite;
//! - [`sweeps`] states the steps of a run one by one and proves that every
//!   run ends, within a bound, with the answer of the saturated collection;
//! - [`engine`] runs the premise merge and the cascade sweeps;
//! - [`parse`] reads statements, one relation from each line;
//! - [`verdict`] picks the strongest claim that the saturated collection
//!   supports.

pub mod labels;
pub mod relation;
pub mod closure;
pub mod sweeps;
pub mod engine;
pub mod parse;
pub mod verdict;
