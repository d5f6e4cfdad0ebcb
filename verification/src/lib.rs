//! A postflop solver core for heads-up no-limit hold'em.
//!
//! The crate models cards, boards and hand ranges, expands ranges over every
//! reachable board, builds the full betting tree for a configured set of bet
//! and raise sizings, and exposes the per-board bookkeeping (reach mappings,
//! showdown ranks, joint indices) that a counterfactual-regret trainer needs.

pub mod cards;
pub mod hand_range;
pub mod isomorphism;
pub mod postfloptree;
pub mod range;
pub mod trainer;
pub mod upi;
