//! Procedures with variant pathways.
//!
//! A procedure is a linear flow of tokens that may branch, at certain points,
//! into a set of gated alternatives. Every alternative is active for the slots
//! that its gate allows. Resolving a flow against a stack of slot choices
//! yields the token sequences of the chosen variant.

pub mod grammar;
pub mod order;
pub mod parallel;
pub mod processor;
pub mod text;
pub mod token;
pub mod types;
pub mod variant;
