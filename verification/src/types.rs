//! The data model: sides, positions, market records and failure kinds.

use vstd::prelude::*;

verus! {

/// The two sides of a binary-outcome market.
#[derive(Clone, Copy, PartialEq, Eq, Structural, Debug)]
pub enum PredictionSide {
    Yes,
    No,
}

/// A participant's standing in one market: the chosen side and the
/// cumulative staked amount, in the smallest token unit.
#[derive(Clone, Copy, PartialEq, Eq, Structural, Debug)]
pub struct Prediction {
    pub side: PredictionSide,
    pub amount: i128,
}

/// One row of the stake ledger: a position keyed by the pair
/// (participant, market identifier). At most one row exists per key.
#[derive(Clone, Copy, PartialEq, Eq, Structural, Debug)]
pub struct PositionEntry {
    pub user: u64,
    pub market_id: u64,
    pub side: PredictionSide,
    pub amount: i128,
}

/// A market record. `total_yes` and `total_no` are the running totals
/// staked on each side; once `resolved` is set the record is frozen.
pub struct Market {
    pub creator: u64,
    pub question: String,
    pub description: String,
    pub token: u64,
    pub end_time: u64,
    pub created_at: u64,
    pub total_yes: i128,
    pub total_no: i128,
    pub resolved: bool,
}

/// Failure kinds. Every operation either fully commits or fails with one
/// of these, leaving the state unchanged.
#[derive(Clone, Copy, PartialEq, Eq, Structural, Debug)]
pub enum Error {
    AlreadyInitialized,
    NotFound,
    Unauthorized,
    InvalidDeadline,
    InvalidAmount,
    InvalidFeeRate,
    MarketClosed,
    MarketResolved,
    AlreadyResolved,
    NotYetEnded,
    NotResolved,
    NoPosition,
    NotAWinner,
}

} // verus!
