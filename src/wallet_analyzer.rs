//! The analysis pipeline of one account: positions, resolution, performance.

use vstd::prelude::*;
use crate::models::{Market, PositionView, Trade, WalletPerformance};
use crate::performance::{MAX_POSITIONS, is_empty_performance, performance_matches, profit_consistent};
use crate::positions::{fold_positions, is_open, key_index, open_positions};
use crate::resolution::{ResolvedView, resolve_all, settle};

verus! {

/// Analyzes an account's trading performance.
pub struct WalletAnalyzer;

impl Default for WalletAnalyzer {
    fn default() -> (r: Self) {
        WalletAnalyzer
    }
}

/// The figures `analyze` gives for an account's trade list, checked against
/// the resolved markets `markets`.
pub open spec fn analysis_matches(r: WalletPerformance, trades: Seq<Trade>, markets: Seq<Market>) -> bool {
    if trades.len() == 0 {
        is_empty_performance(r, Seq::empty())
    } else {
        performance_matches(
            r,
            trades[0].proxy_wallet@,
            trades,
            resolve_all(open_positions(trades), markets),
        )
    }
}

impl WalletAnalyzer {
    pub fn new() -> (r: Self) {
        WalletAnalyzer
    }

    /// Performance of the account that made `trades`: its positions, those of
    /// them settled by `resolved_markets`, and the figures over them.
    pub fn analyze(&self, trades: &[Trade], resolved_markets: &[Market]) -> (r: WalletPerformance)
        requires
            trades@.len() <= MAX_POSITIONS,
        ensures
            analysis_matches(r, trades@, resolved_markets@),
    {
        if trades.len() == 0 {
            return self.empty_performance(String::new());
        }
        let wallet_address = trades[0].proxy_wallet.as_str();
        let positions = self.build_positions(trades);
        let resolved = self.match_resolved_positions(positions.as_slice(), resolved_markets);
        proof {
            lemma_fold_len(trades@);
            let folded = fold_positions(trades@);
            folded.lemma_filter_len(|p: PositionView| is_open(p));
            lemma_resolve_all(open_positions(trades@), resolved_markets@);
            assert forall|i: int| 0 <= i < resolved@.len() implies profit_consistent(#[trigger] resolved@[i]@) by {
                assert(crate::resolution::resolved_view(resolved@)[i] == resolved@[i]@);
            }
        }
        self.calculate_performance(wallet_address, trades, resolved.as_slice())
    }
}

proof fn lemma_fold_len(trades: Seq<Trade>)
    ensures
        fold_positions(trades).len() <= trades.len(),
    decreases trades.len(),
{
    if trades.len() > 0 {
        lemma_fold_len(trades.drop_last());
        let ps = fold_positions(trades.drop_last());
        let t = trades.last();
        crate::positions::lemma_key_index_range(ps, t.condition_id@, t.outcome_index);
    }
}

proof fn lemma_resolve_all(ps: Seq<PositionView>, markets: Seq<Market>)
    ensures
        resolve_all(ps, markets).len() <= ps.len(),
        forall|k: int| 0 <= k < resolve_all(ps, markets).len() ==> profit_consistent(#[trigger] resolve_all(ps, markets)[k]),
    decreases ps.len(),
{
    if ps.len() > 0 {
        lemma_resolve_all(ps.drop_last(), markets);
    }
}

} // verus!
