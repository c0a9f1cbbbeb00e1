//! Stable matching between two populations by deferred acceptance
//! (Gale–Shapley), together with an exhaustive stability verifier.
//!
//! - `preference`: preference lists and the rank order they induce.
//! - `input`: the agents handed to the engine, and random complete markets.
//! - `stability`: complete and stable matchings, blocking pairs, the stability verifier,
//!   and the laws that tie the engine to it.
//! - `deferred_acceptance`: the round-based engine, in two strategies.
//! - `stable_marriage`: agents whose rankings are kept as ordered maps.

pub mod preference;
pub mod input;
pub mod stability;
pub mod deferred_acceptance;
pub mod stable_marriage;
