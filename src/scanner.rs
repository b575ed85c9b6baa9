//! Price-sum check of binary markets for arbitrage.

use vstd::prelude::*;
use crate::models::Market;
use crate::resolution::{json_string_list, all_prices, outcome_prices_of};

verus! {

/// Flags markets whose two outcome prices sum below a threshold.
#[derive(Clone, Copy, Debug)]
pub struct ArbitrageScanner {
    /// Millionths of a dollar.
    pub threshold: i64,
}

impl Default for ArbitrageScanner {
    /// A threshold of $0.995, which leaves room for slippage and fees.
    fn default() -> (r: Self)
        ensures
            r.threshold == 995_000,
    {
        ArbitrageScanner { threshold: 995_000 }
    }
}

/// The two prices of a binary market, in millionths, where its price text
/// holds exactly two prices and both read as decimals.
pub open spec fn binary_prices(m: Market) -> Option<(int, int)> {
    match m.outcome_prices {
        Some(text) => match json_string_list(text@) {
            Some(texts) => match all_prices(texts) {
                Some(ps) => if ps.len() == 2 { Some((ps[0], ps[1])) } else { None },
                None => None,
            },
            None => None,
        },
        None => None,
    }
}

impl ArbitrageScanner {
    pub fn new(threshold: i64) -> (r: Self)
        ensures
            r.threshold == threshold,
    {
        ArbitrageScanner { threshold }
    }

    /// The (yes, no) prices of `market` where it is binary and they sum
    /// below the threshold.
    pub fn check_market(&self, market: &Market) -> (r: Option<(i64, i64)>)
        ensures
            match binary_prices(*market) {
                Some((yes, no)) => if yes + no < self.threshold {
                    r matches Some((y, n)) && y == yes && n == no
                } else {
                    r is None
                },
                None => r is None,
            },
    {
        match outcome_prices_of(market) {
            Some(prices) => {
                if prices.len() != 2 {
                    return None;
                }
                let yes = prices[0];
                let no = prices[1];
                if (yes as i128) + (no as i128) < self.threshold as i128 {
                    Some((yes, no))
                } else {
                    None
                }
            },
            None => None,
        }
    }
}

} // verus!
