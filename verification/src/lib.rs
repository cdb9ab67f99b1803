//! Rankhaus - a library for interactive stack ranking.
//!
//! The core is a comparison-driven incremental sorting engine: given a growing
//! set of known pairwise outcomes it tells the caller which pair to ask about
//! next, incorporates new answers, detects completion, and can be suspended
//! and exactly reconstructed, either from a snapshot or by replaying the
//! answers given so far.

pub mod clock;
pub mod conservation;
pub mod error;
pub mod id;
pub mod item;
pub mod laws;
pub mod ledger;
pub mod merge;
pub mod ranking;
pub mod rankset;
pub mod quicksort;
pub mod session;
pub mod strategy;
pub mod user;
