//! The records the analysis works on. Quantities are fixed-point integers:
//! share counts in millionths of a share, prices in millionths of a dollar
//! per share, money in millionths of a dollar.

use vstd::prelude::*;

verus! {

/// Direction of a trade event.
#[derive(Clone, Copy, Debug, PartialEq, Eq, Structural)]
pub enum TradeSide {
    Buy,
    Sell,
    /// Any other event kind; it leaves positions as they are.
    Other,
}

impl TradeSide {
    /// The side that a trade record names: `"BUY"`, `"SELL"`, or any other text.
    pub fn from_text(s: &str) -> (r: TradeSide)
        ensures
            r == (if s@ == "BUY"@ {
                TradeSide::Buy
            } else if s@ == "SELL"@ {
                TradeSide::Sell
            } else {
                TradeSide::Other
            }),
    {
        let text = s.to_owned();
        if text == String::from_str("BUY") {
            TradeSide::Buy
        } else if text == String::from_str("SELL") {
            TradeSide::Sell
        } else {
            TradeSide::Other
        }
    }
}

/// A market as the listing service reports it.
#[derive(Clone, Debug)]
pub struct Market {
    pub question: String,
    /// Settled or current outcome prices: a JSON array of two decimal strings.
    pub outcome_prices: Option<String>,
    pub volume: Option<String>,
    pub liquidity: Option<String>,
    /// Identifier that trades use to refer to this market.
    pub condition_id: Option<String>,
    pub closed: Option<bool>,
    pub outcomes: Option<String>,
}

/// One buy or sell event of an account.
#[derive(Clone, Debug)]
pub struct Trade {
    pub proxy_wallet: String,
    pub side: TradeSide,
    pub condition_id: String,
    /// Millionths of a share.
    pub size: i64,
    /// Millionths of a dollar per share.
    pub price: i64,
    pub timestamp: i64,
    pub outcome: String,
    pub outcome_index: usize,
    pub title: Option<String>,
}

/// An account's holding in one outcome of one market.
#[derive(Clone, Debug)]
pub struct Position {
    pub condition_id: String,
    pub outcome_index: usize,
    /// Millionths of a share.
    pub net_shares: i64,
    /// Average entry price, millionths of a dollar per share.
    pub avg_price: i64,
    /// Capital held in the position, millionths of a dollar.
    pub total_invested: i64,
    pub market_title: String,
}

/// Mathematical value of a [`Position`].
pub struct PositionView {
    pub condition_id: Seq<char>,
    pub outcome_index: usize,
    pub net_shares: int,
    pub avg_price: int,
    pub total_invested: int,
    pub market_title: Seq<char>,
}

impl View for Position {
    type V = PositionView;

    open spec fn view(&self) -> PositionView {
        PositionView {
            condition_id: self.condition_id@,
            outcome_index: self.outcome_index,
            net_shares: self.net_shares as int,
            avg_price: self.avg_price as int,
            total_invested: self.total_invested as int,
            market_title: self.market_title@,
        }
    }
}

pub open spec fn positions_view(ps: Seq<Position>) -> Seq<PositionView> {
    ps.map_values(|p: Position| p@)
}

/// A position in a market whose winner is known.
#[derive(Clone, Debug)]
pub struct ResolvedPosition {
    pub condition_id: String,
    pub market_title: String,
    pub bet_outcome_index: usize,
    pub winning_outcome_index: usize,
    /// Millionths of a share.
    pub net_shares: i64,
    /// Millionths of a dollar per share.
    pub avg_price: i64,
    /// Millionths of a dollar.
    pub total_invested: i64,
    /// Millionths of a dollar: one dollar per share held on the winning outcome.
    pub payout: i64,
    /// Millionths of a dollar.
    pub profit: i128,
    pub won: bool,
}

/// Aggregate figures of one account.
#[derive(Clone, Debug)]
pub struct WalletPerformance {
    pub wallet_address: String,
    pub total_trades: usize,
    pub total_markets: usize,
    pub resolved_positions: usize,
    pub wins: usize,
    pub losses: usize,
    /// Share of resolved positions that won, in millionths (1_000_000 is 100%).
    pub win_rate: i128,
    /// Millionths of a dollar.
    pub total_invested: i128,
    /// Millionths of a dollar.
    pub total_payout: i128,
    /// Millionths of a dollar.
    pub net_profit: i128,
    /// Net profit over capital, in millionths (1_000_000 is 100%).
    pub roi: i128,
    /// Millionths of a dollar.
    pub avg_profit_per_win: i128,
    /// Millionths of a dollar.
    pub avg_loss_per_loss: i128,
}

} // verus!
