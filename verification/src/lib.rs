//! Core of a minimal ledger node: an open-addressing account index, the
//! deterministic state-transition engine that settles transfer instructions
//! against it, and an append-only instruction log that can be replayed to
//! rebuild the account table from genesis.

pub mod data;
pub mod codec;
pub mod errors;
pub mod hasht;
pub mod ledger;
pub mod nagle;
pub mod otp;
pub mod state;
pub mod wallet;
