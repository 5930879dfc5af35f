use prediction_market::market::PredictionMarket;
use prediction_market::types::{Error, PredictionSide};

fn setup(admin: u64) -> PredictionMarket {
    let mut s = PredictionMarket::new();
    s.initialize(admin).unwrap();
    s
}

#[test]
fn test_initialize() {
    let mut s = PredictionMarket::new();
    let admin: u64 = 1;
    s.initialize(admin).unwrap();

    assert_eq!(s.get_admin(), admin);
    assert_eq!(s.get_market_count(), 0);
    assert_eq!(s.get_platform_fee_rate(), 200); // Default 2%
}

#[test]
fn test_create_market() {
    let mut s = setup(1);
    let creator: u64 = 2;
    let token: u64 = 3;
    let question = "Will BTC reach $100k by 2025?";
    let description = "Bitcoin price prediction";
    let end_time: u64 = 2000;

    let market_id = s
        .create_market(creator, question.to_string(), description.to_string(), token, end_time, 1000)
        .unwrap();

    assert_eq!(market_id, 1);
    assert_eq!(s.get_market_count(), 1);

    let market = s.get_market(market_id).unwrap();
    assert_eq!(market.creator, creator);
    assert_eq!(market.question, question);
    assert_eq!(market.token, token);
    assert_eq!(market.end_time, end_time);
    assert_eq!(market.resolved, false);
    assert_eq!(market.total_yes, 0);
    assert_eq!(market.total_no, 0);
}

#[test]
fn test_predict_yes() {
    let mut s = setup(1);
    let creator: u64 = 2;
    let token: u64 = 3;
    let question = "Will it rain tomorrow?";
    let description = "Weather prediction";
    let end_time: u64 = 2000;

    let market_id = s
        .create_market(creator, question.to_string(), description.to_string(), token, end_time, 1000)
        .unwrap();

    let amount: i128 = 100_0000000;
    s.predict(creator, market_id, PredictionSide::Yes, amount, 1000).unwrap();

    let market = s.get_market(market_id).unwrap();
    assert_eq!(market.total_yes, amount);
    assert_eq!(market.total_no, 0);

    let prediction = s.get_user_prediction(creator, market_id);
    assert!(prediction.is_some());
    let pred = prediction.unwrap();
    assert!(matches!(pred.side, PredictionSide::Yes));
    assert_eq!(pred.amount, amount);
}

#[test]
fn test_predict_no() {
    let mut s = setup(1);
    let creator: u64 = 2;
    let token: u64 = 3;
    let question = "Will it rain tomorrow?";
    let description = "Weather prediction";
    let end_time: u64 = 2000;

    let market_id = s
        .create_market(creator, question.to_string(), description.to_string(), token, end_time, 1000)
        .unwrap();

    let amount: i128 = 100_0000000;
    s.predict(creator, market_id, PredictionSide::No, amount, 1000).unwrap();

    let market = s.get_market(market_id).unwrap();
    assert_eq!(market.total_yes, 0);
    assert_eq!(market.total_no, amount);
}

#[test]
fn test_predict_zero_amount() {
    let mut s = setup(1);
    let creator: u64 = 2;
    let market_id = s
        .create_market(
            creator,
            "Will it rain tomorrow?".to_string(),
            "Weather prediction".to_string(),
            3,
            2000,
            1000,
        )
        .unwrap();

    let r = s.predict(creator, market_id, PredictionSide::Yes, 0, 1000);
    assert_eq!(r, Err(Error::InvalidAmount));
}

#[test]
fn test_resolve_and_claim_winnings() {
    let admin: u64 = 1;
    let mut s = setup(admin);
    let creator: u64 = 2;
    let user1: u64 = 3;
    let user2: u64 = 4;
    let token: u64 = 5;
    let end_time: u64 = 2000;

    let market_id = s
        .create_market(
            creator,
            "Will BTC hit $100k?".to_string(),
            "BTC prediction".to_string(),
            token,
            end_time,
            1000,
        )
        .unwrap();

    // User1 predicts Yes with 100 tokens
    s.predict(user1, market_id, PredictionSide::Yes, 100_0000000, 1000).unwrap();

    // User2 predicts No with 200 tokens
    s.predict(user2, market_id, PredictionSide::No, 200_0000000, 1000).unwrap();

    // Resolve market with Yes winning
    s.resolve_market(admin, market_id, PredictionSide::Yes, 2000).unwrap();

    // User1 claims winnings
    let winnings = s.claim_winnings(user1, market_id).unwrap();

    // User1 should receive approximately 300 tokens (less platform fee)
    // Winnings = (100 * 300) / 100 - 2% = 300 * 0.98 = 294
    assert!(winnings > 200_0000000 && winnings < 300_0000000);

    // User2 should not be able to claim
    assert_eq!(s.claim_winnings(user2, market_id), Err(Error::NotAWinner));
}

#[test]
fn test_multiple_markets() {
    let mut s = setup(1);
    let creator: u64 = 2;
    let token: u64 = 3;
    let end_time: u64 = 2000;

    let market1_id = s
        .create_market(
            creator,
            "Market 1".to_string(),
            "Description 1".to_string(),
            token,
            end_time,
            1000,
        )
        .unwrap();

    let market2_id = s
        .create_market(
            creator,
            "Market 2".to_string(),
            "Description 2".to_string(),
            token,
            end_time,
            1000,
        )
        .unwrap();

    assert_eq!(market1_id, 1);
    assert_eq!(market2_id, 2);
    assert_eq!(s.get_market_count(), 2);
}

#[test]
fn test_set_platform_fee_rate() {
    let admin: u64 = 1;
    let mut s = setup(admin);

    // Set fee rate to 5% (500 basis points)
    s.set_platform_fee_rate(admin, 500).unwrap();
    assert_eq!(s.get_platform_fee_rate(), 500);
}

#[test]
fn test_non_admin_set_fee() {
    let mut s = setup(1);
    let non_admin: u64 = 2;

    let r = s.set_platform_fee_rate(non_admin, 500);
    assert_eq!(r, Err(Error::Unauthorized));
    assert_eq!(s.get_platform_fee_rate(), 200);
}
