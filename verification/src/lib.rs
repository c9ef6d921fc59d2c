//! Core of a network-wide configuration-update synthesizer.
//!
//! Given an initial routing configuration, a set of atomic configuration
//! modifications, and hard correctness policies that must hold at every
//! intermediate state, the library searches for a total order of modification
//! groups such that applying them one group at a time never violates a policy.

pub mod clock;
pub mod error;
pub mod hard_policies;
pub mod ltl;
pub mod netsim;
pub mod permutator;
pub mod stopper;
pub mod strategy_trta;
