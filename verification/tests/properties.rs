use prediction_market::market::PredictionMarket;
use prediction_market::types::{Error, PredictionSide};

fn setup(admin: u64) -> PredictionMarket {
    let mut s = PredictionMarket::new();
    s.initialize(admin).unwrap();
    s
}

fn open_market(s: &mut PredictionMarket) -> u64 {
    s.create_market(2, "Question".to_string(), "Details".to_string(), 9, 2000, 1000)
        .unwrap()
}

#[test]
fn initialize_twice_fails() {
    let mut s = setup(1);
    assert_eq!(s.initialize(7), Err(Error::AlreadyInitialized));
    assert_eq!(s.get_admin(), 1);
}

#[test]
fn create_market_rejects_past_deadline() {
    let mut s = setup(1);
    let r = s.create_market(2, "Q".to_string(), "D".to_string(), 9, 1000, 1000);
    assert_eq!(r, Err(Error::InvalidDeadline));
    let r = s.create_market(2, "Q".to_string(), "D".to_string(), 9, 900, 1000);
    assert_eq!(r, Err(Error::InvalidDeadline));
    assert_eq!(s.get_market_count(), 0);
}

#[test]
fn get_market_unknown_fails() {
    let mut s = setup(1);
    assert_eq!(s.get_market(1).err(), Some(Error::NotFound));
    let id = open_market(&mut s);
    assert!(s.get_market(id).is_ok());
    assert_eq!(s.get_market(2).err(), Some(Error::NotFound));
}

// Totals always mirror the ledger while nobody switches sides: every
// stake moves both by the same amount.
#[test]
fn totals_match_positions_without_switches() {
    let mut s = setup(1);
    let id = open_market(&mut s);
    s.predict(10, id, PredictionSide::Yes, 100, 1100).unwrap();
    s.predict(11, id, PredictionSide::No, 40, 1200).unwrap();
    s.predict(10, id, PredictionSide::Yes, 25, 1300).unwrap();
    s.predict(12, id, PredictionSide::No, 5, 1400).unwrap();

    let yes_sum = s.get_user_prediction(10, id).unwrap().amount;
    let no_sum =
        s.get_user_prediction(11, id).unwrap().amount + s.get_user_prediction(12, id).unwrap().amount;
    let m = s.get_market(id).unwrap();
    assert_eq!(m.total_yes, yes_sum);
    assert_eq!(m.total_no, no_sum);
    assert_eq!(m.total_yes, 125);
    assert_eq!(m.total_no, 45);
}

// A stake on the opposite side flips the position, carries the whole
// prior amount with it, and moves the totals by the prior amount on the
// old side but only the fresh amount on the new side.
#[test]
fn side_switch_revalues_position() {
    let mut s = setup(1);
    let id = open_market(&mut s);
    let user: u64 = 10;
    s.predict(user, id, PredictionSide::Yes, 50, 1100).unwrap();
    s.predict(user, id, PredictionSide::No, 30, 1200).unwrap();

    let pred = s.get_user_prediction(user, id).unwrap();
    assert!(matches!(pred.side, PredictionSide::No));
    assert_eq!(pred.amount, 80);

    let m = s.get_market(id).unwrap();
    assert_eq!(m.total_yes, 0); // decreased by the whole prior 50
    assert_eq!(m.total_no, 30); // increased by the fresh 30 only
}

#[test]
fn predict_error_precedence() {
    let admin: u64 = 1;
    let mut s = setup(admin);
    let id = open_market(&mut s);

    // Zero amount is rejected before anything else is looked at.
    assert_eq!(s.predict(10, id, PredictionSide::Yes, 0, 1100), Err(Error::InvalidAmount));
    assert_eq!(s.predict(10, 99, PredictionSide::Yes, 0, 1100), Err(Error::InvalidAmount));
    // Unknown market.
    assert_eq!(s.predict(10, 99, PredictionSide::Yes, 5, 1100), Err(Error::NotFound));
    // After the deadline the market is closed.
    assert_eq!(s.predict(10, id, PredictionSide::Yes, 5, 2000), Err(Error::MarketClosed));
    assert_eq!(s.predict(10, id, PredictionSide::Yes, 5, 3000), Err(Error::MarketClosed));
    // Once resolved, a resolved-market failure wins over the closed one.
    s.predict(10, id, PredictionSide::Yes, 5, 1100).unwrap();
    s.resolve_market(admin, id, PredictionSide::Yes, 2000).unwrap();
    assert_eq!(s.predict(10, id, PredictionSide::Yes, 5, 2500), Err(Error::MarketResolved));

    let m = s.get_market(id).unwrap();
    assert_eq!(m.total_yes, 5);
    assert_eq!(m.total_no, 0);
}

#[test]
fn non_admin_resolve_leaves_state_unchanged() {
    let mut s = setup(1);
    let id = open_market(&mut s);
    s.predict(10, id, PredictionSide::Yes, 7, 1100).unwrap();

    assert_eq!(s.resolve_market(2, id, PredictionSide::No, 2500), Err(Error::Unauthorized));

    let m = s.get_market(id).unwrap();
    assert_eq!(m.resolved, false);
    assert_eq!(m.total_yes, 7);
    assert_eq!(m.total_no, 0);
    assert_eq!(s.get_winning_side(id), None);
}

#[test]
fn resolve_error_cases() {
    let admin: u64 = 1;
    let mut s = setup(admin);
    let id = open_market(&mut s);

    assert_eq!(s.resolve_market(admin, 99, PredictionSide::Yes, 2500), Err(Error::NotFound));
    assert_eq!(s.resolve_market(admin, id, PredictionSide::Yes, 1500), Err(Error::NotYetEnded));
    s.resolve_market(admin, id, PredictionSide::Yes, 2000).unwrap();
    assert_eq!(s.get_winning_side(id), Some(PredictionSide::Yes));
    // The terminal state is idempotent: a repeat resolution fails and the
    // recorded outcome stays.
    assert_eq!(
        s.resolve_market(admin, id, PredictionSide::No, 2500),
        Err(Error::AlreadyResolved)
    );
    assert_eq!(s.get_winning_side(id), Some(PredictionSide::Yes));
    assert_eq!(s.get_market(id).unwrap().resolved, true);
}

// The exact headline scenario: stakes of 100 and 200, resolution for
// Yes, a 2% default fee; the winner collects 294 and the loser nothing.
#[test]
fn claim_pays_proportional_share_net_of_fee() {
    let admin: u64 = 1;
    let mut s = setup(admin);
    let id = s
        .create_market(2, "Q".to_string(), "D".to_string(), 9, 2000, 1000)
        .unwrap();
    s.predict(10, id, PredictionSide::Yes, 100, 1100).unwrap();
    s.predict(11, id, PredictionSide::No, 200, 1200).unwrap();
    s.resolve_market(admin, id, PredictionSide::Yes, 2000).unwrap();

    // 100 * 300 / 100 = 300 gross, minus 2% fee = 294.
    assert_eq!(s.claim_winnings(10, id), Ok(294));
    assert_eq!(s.claim_winnings(11, id), Err(Error::NotAWinner));
}

#[test]
fn claim_error_cases() {
    let admin: u64 = 1;
    let mut s = setup(admin);
    let id = open_market(&mut s);
    s.predict(10, id, PredictionSide::Yes, 100, 1100).unwrap();

    assert_eq!(s.claim_winnings(11, id), Err(Error::NoPosition));
    assert_eq!(s.claim_winnings(10, id), Err(Error::NotResolved));
    s.resolve_market(admin, id, PredictionSide::No, 2000).unwrap();
    assert_eq!(s.claim_winnings(10, id), Err(Error::NotAWinner));
    // The losing position stays recorded; it is only erased by a payout.
    assert!(s.get_user_prediction(10, id).is_some());
}

// A second claim right after a successful one reports NoPosition: the
// payout erased the position.
#[test]
fn second_claim_fails() {
    let admin: u64 = 1;
    let mut s = setup(admin);
    let id = open_market(&mut s);
    s.predict(10, id, PredictionSide::Yes, 100, 1100).unwrap();
    s.predict(11, id, PredictionSide::No, 50, 1200).unwrap();
    s.resolve_market(admin, id, PredictionSide::Yes, 2000).unwrap();

    assert!(s.claim_winnings(10, id).is_ok());
    assert!(s.get_user_prediction(10, id).is_none());
    assert_eq!(s.claim_winnings(10, id), Err(Error::NoPosition));
}

// With nothing on the losing side, a winner recovers exactly their own
// stake before the fee.
#[test]
fn degenerate_market_returns_stake() {
    let admin: u64 = 1;
    let mut s = setup(admin);
    let id = open_market(&mut s);
    s.predict(10, id, PredictionSide::Yes, 100, 1100).unwrap();
    s.resolve_market(admin, id, PredictionSide::Yes, 2000).unwrap();

    // Gross share is the stake, 100; the 2% fee still applies: 100 - 2.
    assert_eq!(s.claim_winnings(10, id), Ok(98));
}

// The fee is read at claim time, not at creation time.
#[test]
fn fee_rate_change_applies_to_pending_claims() {
    let admin: u64 = 1;
    let mut s = setup(admin);
    let id = open_market(&mut s);
    s.predict(10, id, PredictionSide::Yes, 100, 1100).unwrap();
    s.predict(11, id, PredictionSide::No, 100, 1200).unwrap();

    // Raise the fee to 10% after the market was created.
    s.set_platform_fee_rate(admin, 1000).unwrap();
    s.resolve_market(admin, id, PredictionSide::Yes, 2000).unwrap();

    // 100 * 200 / 100 = 200 gross, minus 10% = 180 (not 196 at 2%).
    assert_eq!(s.claim_winnings(10, id), Ok(180));
}

#[test]
fn fee_truncates_toward_zero() {
    let admin: u64 = 1;
    let mut s = setup(admin);
    let id = open_market(&mut s);
    s.predict(10, id, PredictionSide::Yes, 3, 1100).unwrap();
    s.predict(11, id, PredictionSide::No, 1, 1200).unwrap();
    s.resolve_market(admin, id, PredictionSide::Yes, 2000).unwrap();

    // Gross share 3 * 4 / 3 = 4; the 2% fee truncates to 0.
    assert_eq!(s.claim_winnings(10, id), Ok(4));
}

#[test]
fn set_fee_rate_rejects_out_of_range() {
    let admin: u64 = 1;
    let mut s = setup(admin);
    assert_eq!(s.set_platform_fee_rate(admin, 10001), Err(Error::InvalidFeeRate));
    assert_eq!(s.set_platform_fee_rate(admin, -1), Err(Error::InvalidFeeRate));
    assert_eq!(s.get_platform_fee_rate(), 200);
    s.set_platform_fee_rate(admin, 0).unwrap();
    assert_eq!(s.get_platform_fee_rate(), 0);
    s.set_platform_fee_rate(admin, 10000).unwrap();
    assert_eq!(s.get_platform_fee_rate(), 10000);
}

#[test]
fn update_admin_transfers_authority() {
    let mut s = setup(1);
    assert_eq!(s.update_admin(2, 2), Err(Error::Unauthorized));
    s.update_admin(1, 2).unwrap();
    assert_eq!(s.get_admin(), 2);
    assert_eq!(s.set_platform_fee_rate(1, 500), Err(Error::Unauthorized));
    s.set_platform_fee_rate(2, 500).unwrap();
    assert_eq!(s.get_platform_fee_rate(), 500);
}

#[test]
fn winning_side_absent_for_unknown_or_open_markets() {
    let admin: u64 = 1;
    let mut s = setup(admin);
    assert_eq!(s.get_winning_side(1), None);
    let id = open_market(&mut s);
    assert_eq!(s.get_winning_side(id), None);
    s.resolve_market(admin, id, PredictionSide::No, 2000).unwrap();
    assert_eq!(s.get_winning_side(id), Some(PredictionSide::No));
}
