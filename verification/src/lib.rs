//! Settlement and accounting core of a binary-outcome wagering market.
//!
//! Participants stake a token amount on one of two outcomes of a question
//! with a deadline; after the deadline an administrator declares the
//! outcome and winners redeem a proportional share of the combined pot,
//! net of a platform fee.
//!
//! The hosting environment is expected to supply durable persistence,
//! caller authentication, token transfers and the current time; every
//! operation here takes already-authenticated identities and, where a
//! deadline matters, the current timestamp, as plain values.

pub mod ledger;
pub mod market;
pub mod types;
