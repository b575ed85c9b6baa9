use polymarket_analysis::paginator::{PageConfig, PageResult, Paginator};
use polymarket_analysis::scanner::ArbitrageScanner;
use polymarket_analysis::models::Market;
use polymarket_analysis::sequential::SequentialPager;
use polymarket_analysis::wallet_scanner::{is_profitable, select_active_wallets, unscanned_wallets};
use std::collections::VecDeque;

/// Runs a fetch against a synthetic API; pages come back in the order they
/// were dispatched. Returns (records kept, pages dispatched).
fn simulate(config: PageConfig, records: &dyn Fn(usize) -> Option<usize>) -> (usize, usize) {
    let first = records(0).expect("first page");
    let (mut pager, pages) = Paginator::start(config, first);
    let mut dispatched = 1 + pages.len();
    let mut queue: VecDeque<usize> = pages.into_iter().collect();
    let mut kept = first;
    while !pager.is_finished() {
        let page = queue.pop_front().expect("a page in flight");
        let result = match records(page) {
            Some(n) => PageResult::Records(n),
            None => PageResult::Failed,
        };
        let decision = pager.on_page(page, result);
        if decision.keep {
            if let PageResult::Records(n) = result {
                kept += n;
            }
        }
        if let Some(next) = decision.fetch {
            dispatched += 1;
            queue.push_back(next);
        }
    }
    (kept.min(pager.records_to_keep()), dispatched)
}

fn api(full: usize, tail: usize, size: usize) -> impl Fn(usize) -> Option<usize> {
    move |page| Some(if page < full { size } else if page == full { tail } else { 0 })
}

#[test]
fn pagination_returns_every_record() {
    for limit in [1usize, 5, 20] {
        let config = PageConfig { page_size: 100, max_concurrent: limit, record_cap: None };
        let (kept, dispatched) = simulate(config, &api(10, 50, 100));
        assert_eq!(kept, 1050);
        assert!(dispatched <= 10 + limit);
    }
}

#[test]
fn pagination_single_partial_page() {
    let config = PageConfig::active_markets();
    let (kept, dispatched) = simulate(config, &api(0, 42, 100));
    assert_eq!(kept, 42);
    assert_eq!(dispatched, 1);
}

#[test]
fn pagination_stops_near_cap() {
    let config = PageConfig::resolved_markets(Some(1000));
    let always_full = |_page: usize| Some(100);
    let (kept, dispatched) = simulate(config, &always_full);
    assert_eq!(kept, 1000);
    assert!(dispatched <= 1000 / 100 + 10);
}

#[test]
fn pagination_survives_failed_page() {
    let config = PageConfig { page_size: 100, max_concurrent: 5, record_cap: None };
    let records = |page: usize| if page == 3 { None } else if page < 9 { Some(100) } else if page == 9 { Some(50) } else { Some(0) };
    let (kept, _) = simulate(config, &records);
    assert_eq!(kept, 850);
}

#[test]
fn paginator_ignores_pages_not_in_flight() {
    let config = PageConfig { page_size: 10, max_concurrent: 2, record_cap: None };
    let (mut pager, pages) = Paginator::start(config, 10);
    assert_eq!(pages, vec![1, 2]);
    let d = pager.on_page(7, PageResult::Records(10));
    assert!(!d.keep);
    assert_eq!(d.fetch, None);
    let d = pager.on_page(2, PageResult::Records(10));
    assert!(d.keep);
    assert_eq!(d.fetch, Some(3));
    let d = pager.on_page(2, PageResult::Records(10));
    assert!(!d.keep);
    let d = pager.on_page(1, PageResult::Failed);
    assert!(d.keep);
    assert_eq!(d.fetch, None);
    assert!(!pager.is_finished());
    let d = pager.on_page(3, PageResult::Records(4));
    assert_eq!(d.fetch, None);
    assert!(pager.is_finished());
    assert_eq!(pager.records_to_keep(), 24);
}

#[test]
fn first_page_over_cap_is_truncated() {
    let config = PageConfig { page_size: 100, max_concurrent: 3, record_cap: Some(60) };
    let (pager, pages) = Paginator::start(config, 80);
    assert!(pages.is_empty());
    assert!(pager.is_finished());
    assert_eq!(pager.records_to_keep(), 60);
}

#[test]
fn sequential_pager_stops_on_short_page() {
    let mut pager = SequentialPager::new(1000, None);
    assert_eq!(pager.next_request(), Some((0, 1000)));
    pager.on_page(1000, 1000);
    assert_eq!(pager.next_request(), Some((1000, 1000)));
    pager.on_page(1000, 300);
    assert_eq!(pager.next_request(), None);
    assert_eq!(pager.collected, 1300);
}

#[test]
fn sequential_pager_meets_target() {
    let mut pager = SequentialPager::new(1000, Some(2500));
    assert_eq!(pager.next_request(), Some((0, 1000)));
    pager.on_page(1000, 1000);
    pager.on_page(1000, 1000);
    assert_eq!(pager.next_request(), Some((2000, 500)));
    pager.on_page(500, 500);
    assert_eq!(pager.next_request(), None);
}

fn priced(prices: &str) -> Market {
    Market {
        question: "q".to_string(),
        outcome_prices: Some(prices.to_string()),
        volume: None,
        liquidity: None,
        condition_id: None,
        closed: None,
        outcomes: None,
    }
}

#[test]
fn arbitrage_needs_sum_below_threshold() {
    let scanner = ArbitrageScanner::default();
    assert_eq!(scanner.check_market(&priced("[\"0.45\", \"0.5\"]")), Some((450_000, 500_000)));
    assert_eq!(scanner.check_market(&priced("[\"0.5\", \"0.5\"]")), None);
    assert_eq!(scanner.check_market(&priced("[\"0.5\", \"0.495\"]")), None);
    assert_eq!(scanner.check_market(&priced("[\"0.1\"]")), None);
    assert_eq!(ArbitrageScanner::new(2_000_000).check_market(&priced("[\"0.5\", \"0.5\"]")), Some((500_000, 500_000)));
}

#[test]
fn active_wallets_ranked_by_trade_count() {
    let owners: Vec<String> = ["a", "b", "a", "c", "b", "a", "c", "b", "c", "d", "d", "d", "d", "e"]
        .iter()
        .map(|s| s.to_string())
        .collect();
    assert_eq!(select_active_wallets(&owners, 10), vec!["d", "a", "b", "c"]);
    assert_eq!(select_active_wallets(&owners, 2), vec!["d", "a"]);
    assert!(select_active_wallets(&owners, 0).is_empty());
}

#[test]
fn unscanned_wallets_keep_order() {
    let ws: Vec<String> = ["a", "b", "c"].iter().map(|s| s.to_string()).collect();
    let seen: Vec<String> = ["b"].iter().map(|s| s.to_string()).collect();
    assert_eq!(unscanned_wallets(&ws, &seen), vec!["a", "c"]);
}

#[test]
fn profitable_requires_all_three() {
    let mut p = polymarket_analysis::models::WalletPerformance {
        wallet_address: String::new(),
        total_trades: 0,
        total_markets: 0,
        resolved_positions: 10,
        wins: 0,
        losses: 0,
        win_rate: 0,
        total_invested: 0,
        total_payout: 0,
        net_profit: 50_000_001,
        roi: 100_001,
        avg_profit_per_win: 0,
        avg_loss_per_loss: 0,
    };
    assert!(is_profitable(&p));
    p.roi = 100_000;
    assert!(!is_profitable(&p));
}
