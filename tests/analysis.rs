use polymarket_analysis::classifier::Flag;
use polymarket_analysis::decimal::parse_units;
use polymarket_analysis::models::{Market, ResolvedPosition, Trade, TradeSide, WalletPerformance};
use polymarket_analysis::wallet_analyzer::WalletAnalyzer;

fn trade(side: TradeSide, condition_id: &str, outcome_index: usize, size: i64, price: i64) -> Trade {
    Trade {
        proxy_wallet: "0xabc".to_string(),
        side,
        condition_id: condition_id.to_string(),
        size,
        price,
        timestamp: 0,
        outcome: "Yes".to_string(),
        outcome_index,
        title: None,
    }
}

fn market(condition_id: &str, prices: &str) -> Market {
    Market {
        question: format!("Question {}", condition_id),
        outcome_prices: Some(prices.to_string()),
        volume: None,
        liquidity: None,
        condition_id: Some(condition_id.to_string()),
        closed: Some(true),
        outcomes: None,
    }
}

fn summary(resolved: usize, wins: usize, win_rate: i128) -> WalletPerformance {
    WalletPerformance {
        wallet_address: "0xabc".to_string(),
        total_trades: 0,
        total_markets: 0,
        resolved_positions: resolved,
        wins,
        losses: resolved - wins,
        win_rate,
        total_invested: 0,
        total_payout: 0,
        net_profit: 0,
        roi: 0,
        avg_profit_per_win: 0,
        avg_loss_per_loss: 0,
    }
}

#[test]
fn parse_units_reads_decimals() {
    assert_eq!(parse_units("0.95"), Some(950_000));
    assert_eq!(parse_units("-12"), Some(-12_000_000));
    assert_eq!(parse_units("+1"), Some(1_000_000));
    assert_eq!(parse_units(".5"), Some(500_000));
    assert_eq!(parse_units("7."), Some(7_000_000));
    assert_eq!(parse_units("1.2345678"), Some(1_234_567));
    assert_eq!(parse_units("9223372036853"), Some(9_223_372_036_853_000_000));
    assert_eq!(parse_units("1e3"), Some(1_000_000_000));
    assert_eq!(parse_units("2.5E+2"), Some(250_000_000));
    assert_eq!(parse_units("1e-7"), Some(0));
    assert_eq!(parse_units("-4.5e-1"), Some(-450_000));
    assert_eq!(parse_units("1e-99999"), Some(0));
}

#[test]
fn parse_units_rejects_malformed_text() {
    assert_eq!(parse_units(""), None);
    assert_eq!(parse_units("."), None);
    assert_eq!(parse_units("-"), None);
    assert_eq!(parse_units("abc"), None);
    assert_eq!(parse_units("1e"), None);
    assert_eq!(parse_units("e5"), None);
    assert_eq!(parse_units("1e+"), None);
    assert_eq!(parse_units("1e9999999999999"), None);
    assert_eq!(parse_units("1.2.3"), None);
    assert_eq!(parse_units("9223372036855"), None);
}

#[test]
fn buy_then_partial_sell_keeps_average_price() {
    let analyzer = WalletAnalyzer::new();
    let trades = vec![
        trade(TradeSide::Buy, "m1", 0, 100_000_000, 400_000),
        trade(TradeSide::Sell, "m1", 0, 40_000_000, 550_000),
    ];
    let positions = analyzer.build_positions(&trades);
    assert_eq!(positions.len(), 1);
    assert_eq!(positions[0].net_shares, 60_000_000);
    assert_eq!(positions[0].avg_price, 400_000);
    assert_eq!(positions[0].total_invested, 24_000_000);
    assert_eq!(positions[0].market_title, "Unknown");

    let markets = vec![market("m1", "[\"1\", \"0\"]")];
    let resolved = analyzer.match_resolved_positions(&positions, &markets);
    assert_eq!(resolved.len(), 1);
    assert!(resolved[0].won);
    assert_eq!(resolved[0].winning_outcome_index, 0);
    assert_eq!(resolved[0].payout, 60_000_000);
    assert_eq!(resolved[0].profit, 36_000_000);
    assert_eq!(resolved[0].market_title, "Question m1");
}

#[test]
fn cost_basis_follows_weighted_average() {
    let analyzer = WalletAnalyzer::new();
    let trades = vec![
        trade(TradeSide::Buy, "m1", 1, 10_000_000, 500_000),
        trade(TradeSide::Buy, "m1", 1, 30_000_000, 700_000),
    ];
    let positions = analyzer.build_positions(&trades);
    assert_eq!(positions[0].net_shares, 40_000_000);
    assert_eq!(positions[0].avg_price, 650_000);
    assert_eq!(positions[0].total_invested, 26_000_000);
    assert_eq!(
        positions[0].total_invested as i128,
        positions[0].net_shares as i128 * positions[0].avg_price as i128 / 1_000_000
    );
}

#[test]
fn buys_add_their_exact_cost() {
    let analyzer = WalletAnalyzer::new();
    let trades = vec![
        trade(TradeSide::Buy, "m1", 0, 1_000_000, 500_000),
        trade(TradeSide::Buy, "m1", 0, 2_000_000, 400_000),
        trade(TradeSide::Buy, "m1", 0, 1_000_000, 700_000),
    ];
    let positions = analyzer.build_positions(&trades);
    assert_eq!(positions[0].net_shares, 4_000_000);
    assert_eq!(positions[0].total_invested, 2_000_000);
    assert_eq!(positions[0].avg_price, 500_000);
    let trades = vec![
        trade(TradeSide::Buy, "m2", 0, 3_000_000, 100_000),
        trade(TradeSide::Buy, "m2", 0, 3_000_000, 200_001),
    ];
    let positions = analyzer.build_positions(&trades);
    assert_eq!(positions[0].total_invested, 900_003);
    assert_eq!(positions[0].avg_price, 150_000);
}

#[test]
fn overselling_flattens_and_reports_short() {
    let analyzer = WalletAnalyzer::new();
    let trades = vec![
        trade(TradeSide::Buy, "m1", 0, 10_000_000, 500_000),
        trade(TradeSide::Sell, "m1", 0, 50_000_000, 500_000),
    ];
    let positions = analyzer.build_positions(&trades);
    assert_eq!(positions.len(), 1);
    assert_eq!(positions[0].net_shares, -40_000_000);
    assert_eq!(positions[0].avg_price, 0);
    assert_eq!(positions[0].total_invested, 0);
}

#[test]
fn closed_positions_and_unknown_sides_are_dropped() {
    let analyzer = WalletAnalyzer::new();
    let trades = vec![
        trade(TradeSide::Buy, "m1", 0, 5_000_000, 300_000),
        trade(TradeSide::Sell, "m1", 0, 4_999_500, 300_000),
        trade(TradeSide::Other, "m2", 0, 5_000_000, 300_000),
        trade(TradeSide::Buy, "m3", 1, 2_000_000, 100_000),
    ];
    let positions = analyzer.build_positions(&trades);
    assert_eq!(positions.len(), 1);
    assert_eq!(positions[0].condition_id, "m3");
    assert_eq!(positions[0].outcome_index, 1);
}

#[test]
fn winner_needs_price_above_threshold() {
    let analyzer = WalletAnalyzer::new();
    assert_eq!(analyzer.get_winning_outcome(&market("a", "[\"0.95\", \"0.05\"]")), Some(0));
    assert_eq!(analyzer.get_winning_outcome(&market("a", "[\"0.1\", \"0.91\"]")), Some(1));
    assert_eq!(analyzer.get_winning_outcome(&market("a", "[\"0.9\", \"0.1\"]")), None);
    assert_eq!(analyzer.get_winning_outcome(&market("a", "[\"0.5\", \"0.5\"]")), None);
    assert_eq!(analyzer.get_winning_outcome(&market("a", "[\"x\", \"0.95\", \"0.05\"]")), None);
    assert_eq!(analyzer.get_winning_outcome(&market("a", "[\"x\", \"1\", \"0\"]")), None);
    assert_eq!(analyzer.get_winning_outcome(&market("a", "[\"x\", \"0.95\"]")), None);
    assert_eq!(analyzer.get_winning_outcome(&market("a", "[\"1\"]")), None);
    assert_eq!(analyzer.get_winning_outcome(&market("a", "[\"0.9000001\", \"0.1\"]")), Some(0));
    assert_eq!(analyzer.get_winning_outcome(&market("a", "[\"0.90000000000000000000\", \"0.1\"]")), None);
    assert_eq!(analyzer.get_winning_outcome(&market("a", "[\"1e-7\", \"1\"]")), Some(1));
    assert_eq!(analyzer.get_winning_outcome(&market("a", "[\"9e-1\", \"91e-2\"]")), Some(1));
    assert_eq!(analyzer.get_winning_outcome(&market("a", "[\"-1\", \"0.00\"]")), None);
    assert_eq!(analyzer.get_winning_outcome(&market("a", "[\"0.0\", \"1e99999\"]")), Some(1));
    assert_eq!(analyzer.get_winning_outcome(&market("a", "not json")), None);
    let mut no_prices = market("a", "");
    no_prices.outcome_prices = None;
    assert_eq!(analyzer.get_winning_outcome(&no_prices), None);
}

#[test]
fn unmatched_and_unresolved_positions_are_dropped() {
    let analyzer = WalletAnalyzer::new();
    let trades = vec![
        trade(TradeSide::Buy, "m1", 1, 10_000_000, 200_000),
        trade(TradeSide::Buy, "m2", 0, 10_000_000, 200_000),
        trade(TradeSide::Buy, "m3", 0, 10_000_000, 200_000),
    ];
    let positions = analyzer.build_positions(&trades);
    let markets = vec![market("m1", "[\"0\", \"1\"]"), market("m2", "[\"0.5\", \"0.5\"]")];
    let resolved = analyzer.match_resolved_positions(&positions, &markets);
    assert_eq!(resolved.len(), 1);
    assert_eq!(resolved[0].condition_id, "m1");
    assert_eq!(resolved[0].payout, 10_000_000);
}

#[test]
fn later_market_with_same_id_wins() {
    let analyzer = WalletAnalyzer::new();
    let trades = vec![trade(TradeSide::Buy, "m1", 0, 10_000_000, 200_000)];
    let positions = analyzer.build_positions(&trades);
    let markets = vec![market("m1", "[\"1\", \"0\"]"), market("m1", "[\"0\", \"1\"]")];
    let resolved = analyzer.match_resolved_positions(&positions, &markets);
    assert_eq!(resolved.len(), 1);
    assert!(!resolved[0].won);
    assert_eq!(resolved[0].payout, 0);
    assert_eq!(resolved[0].profit, -2_000_000);
}

#[test]
fn empty_trade_list_gives_zero_summary() {
    let analyzer = WalletAnalyzer::new();
    let perf = analyzer.analyze(&[], &[]);
    assert_eq!(perf.wallet_address, "");
    assert_eq!(perf.total_trades, 0);
    assert_eq!(perf.total_markets, 0);
    assert_eq!(perf.resolved_positions, 0);
    assert_eq!(perf.wins, 0);
    assert_eq!(perf.losses, 0);
    assert_eq!(perf.win_rate, 0);
    assert_eq!(perf.total_invested, 0);
    assert_eq!(perf.total_payout, 0);
    assert_eq!(perf.net_profit, 0);
    assert_eq!(perf.roi, 0);
    assert_eq!(perf.avg_profit_per_win, 0);
    assert_eq!(perf.avg_loss_per_loss, 0);
    let (flagged, reasons) = analyzer.is_suspicious(&perf);
    assert!(!flagged);
    assert_eq!(reasons, vec![Flag::InsufficientData]);
}

#[test]
fn analyze_computes_figures() {
    let analyzer = WalletAnalyzer::new();
    let trades = vec![
        trade(TradeSide::Buy, "m1", 0, 100_000_000, 400_000),
        trade(TradeSide::Buy, "m2", 0, 50_000_000, 600_000),
        trade(TradeSide::Buy, "m1", 0, 100_000_000, 400_000),
        trade(TradeSide::Buy, "m3", 1, 10_000_000, 500_000),
    ];
    let markets = vec![market("m1", "[\"1\", \"0\"]"), market("m2", "[\"0\", \"1\"]")];
    let perf = analyzer.analyze(&trades, &markets);
    assert_eq!(perf.wallet_address, "0xabc");
    assert_eq!(perf.total_trades, 4);
    assert_eq!(perf.total_markets, 3);
    assert_eq!(perf.resolved_positions, 2);
    assert_eq!(perf.wins, 1);
    assert_eq!(perf.losses, 1);
    assert_eq!(perf.win_rate, 500_000);
    assert_eq!(perf.total_invested, 110_000_000);
    assert_eq!(perf.total_payout, 200_000_000);
    assert_eq!(perf.net_profit, 90_000_000);
    assert_eq!(perf.roi, 818_181);
    assert_eq!(perf.avg_profit_per_win, 120_000_000);
    assert_eq!(perf.avg_loss_per_loss, -30_000_000);
}

#[test]
fn calculate_performance_rounds_down() {
    let analyzer = WalletAnalyzer::new();
    let settled = |won: bool, invested: i64, payout: i64| ResolvedPosition {
        condition_id: "m".to_string(),
        market_title: "q".to_string(),
        bet_outcome_index: 0,
        winning_outcome_index: if won { 0 } else { 1 },
        net_shares: payout,
        avg_price: 0,
        total_invested: invested,
        payout,
        profit: payout as i128 - invested as i128,
        won,
    };
    let rs = vec![settled(true, 10, 30), settled(false, 7, 0), settled(false, 8, 0)];
    let perf = analyzer.calculate_performance("w", &[], &rs);
    assert_eq!(perf.win_rate, 333_333);
    assert_eq!(perf.total_invested, 25);
    assert_eq!(perf.net_profit, 5);
    assert_eq!(perf.roi, 200_000);
    assert_eq!(perf.avg_profit_per_win, 20);
    assert_eq!(perf.avg_loss_per_loss, -8);
}

#[test]
fn win_rate_boundaries() {
    let analyzer = WalletAnalyzer::new();
    let (flagged, reasons) = analyzer.is_suspicious(&summary(20, 13, 650_000));
    assert!(!flagged);
    assert!(reasons.is_empty());
    let (flagged, reasons) = analyzer.is_suspicious(&summary(20, 13, 650_001));
    assert!(flagged);
    assert_eq!(reasons, vec![Flag::ElevatedWinRate]);
    let (flagged, reasons) = analyzer.is_suspicious(&summary(20, 15, 750_000));
    assert!(flagged);
    assert_eq!(reasons, vec![Flag::ElevatedWinRate]);
    let (flagged, reasons) = analyzer.is_suspicious(&summary(20, 15, 750_001));
    assert!(flagged);
    assert_eq!(reasons, vec![Flag::ExtremeWinRate]);
}

#[test]
fn every_rule_can_fire() {
    let analyzer = WalletAnalyzer::new();
    let mut p = summary(30, 20, 800_000);
    p.roi = 600_000;
    p.total_invested = 2_000_000_000;
    p.avg_profit_per_win = 50;
    p.avg_loss_per_loss = -20;
    let (flagged, reasons) = analyzer.is_suspicious(&p);
    assert!(flagged);
    assert_eq!(
        reasons,
        vec![Flag::ExtremeWinRate, Flag::HighRoi, Flag::ConsistentPerformance, Flag::AsymmetricPayoff]
    );
    p.avg_loss_per_loss = -25;
    p.total_invested = 1_000_000_000;
    let (_, reasons) = analyzer.is_suspicious(&p);
    assert_eq!(reasons, vec![Flag::ExtremeWinRate, Flag::ConsistentPerformance]);
    p.avg_loss_per_loss = i128::MIN;
    p.avg_profit_per_win = i128::MAX;
    let (_, reasons) = analyzer.is_suspicious(&p);
    assert_eq!(reasons, vec![Flag::ExtremeWinRate, Flag::ConsistentPerformance]);
}

#[test]
fn too_few_positions_is_no_verdict() {
    let analyzer = WalletAnalyzer::new();
    let (flagged, reasons) = analyzer.is_suspicious(&summary(9, 9, 1_000_000));
    assert!(!flagged);
    assert_eq!(reasons, vec![Flag::InsufficientData]);
}

#[test]
fn trade_side_from_text() {
    assert_eq!(TradeSide::from_text("BUY"), TradeSide::Buy);
    assert_eq!(TradeSide::from_text("SELL"), TradeSide::Sell);
    assert_eq!(TradeSide::from_text("buy"), TradeSide::Other);
    assert_eq!(TradeSide::from_text(""), TradeSide::Other);
}
