//! Matching positions against resolved markets.

use vstd::prelude::*;
use crate::decimal::{
    Decimal, DecimalParts, above_nine_tenths, all_digits, decimal_parts, decimal_units, exceeds_nine_tenths,
    parse_decimal, parse_units,
};
use crate::models::{Market, Position, PositionView, ResolvedPosition, positions_view};
use crate::wallet_analyzer::WalletAnalyzer;

verus! {

/// The list of strings that a JSON text holds, if it is a JSON array of strings.
pub uninterp spec fn json_string_list(text: Seq<char>) -> Option<Seq<Seq<char>>>;

/// Relies on `serde_json::from_str::<Vec<String>>`: reads a JSON array of
/// strings; what it reads depends on the text alone.
#[verifier::external_body]
fn parse_string_list(text: &str) -> (r: Option<Vec<String>>)
    ensures
        match r {
            Some(v) => json_string_list(text@) == Some(v@.map_values(|s: String| s@)),
            None => json_string_list(text@) is None,
        },
{
    serde_json::from_str::<Vec<String>>(text).ok()
}

/// The prices `texts` hold, in millionths, in order; None where any of them
/// does not read as a decimal.
pub open spec fn all_prices(texts: Seq<Seq<char>>) -> Option<Seq<int>>
    decreases texts.len(),
{
    if texts.len() == 0 {
        Some(Seq::empty())
    } else {
        match (all_prices(texts.drop_last()), decimal_units(texts.last())) {
            (Some(prev), Some(v)) => Some(prev.push(v)),
            _ => None,
        }
    }
}

/// The exact values `texts` hold, in order; None where any of them does not
/// read as a decimal.
pub open spec fn all_decimals(texts: Seq<Seq<char>>) -> Option<Seq<DecimalParts>>
    decreases texts.len(),
{
    if texts.len() == 0 {
        Some(Seq::empty())
    } else {
        match (all_decimals(texts.drop_last()), decimal_parts(texts.last())) {
            (Some(prev), Some(v)) => Some(prev.push(v)),
            _ => None,
        }
    }
}

/// Winning outcome of a two-outcome price list: the first outcome whose
/// settled price is above 0.9, compared exactly. None where there are not
/// exactly two prices or neither is above 0.9.
pub open spec fn winner_of(prices: Seq<DecimalParts>) -> Option<usize> {
    if prices.len() != 2 {
        None
    } else if exceeds_nine_tenths(prices[0]) {
        Some(0)
    } else if exceeds_nine_tenths(prices[1]) {
        Some(1)
    } else {
        None
    }
}

/// Winning outcome of a market, from its outcome prices.
pub open spec fn market_winner(m: Market) -> Option<usize> {
    match m.outcome_prices {
        Some(text) => match json_string_list(text@) {
            Some(texts) => match all_decimals(texts) {
                Some(prices) => winner_of(prices),
                None => None,
            },
            None => None,
        },
        None => None,
    }
}

/// Index of the market that a condition id refers to: the last one listed with that id.
pub open spec fn market_index(markets: Seq<Market>, condition_id: Seq<char>) -> Option<int>
    decreases markets.len(),
{
    if markets.len() == 0 {
        None
    } else if markets.last().condition_id matches Some(id) && id@ == condition_id {
        Some(markets.len() - 1)
    } else {
        market_index(markets.drop_last(), condition_id)
    }
}

/// Mathematical value of a [`ResolvedPosition`].
pub struct ResolvedView {
    pub condition_id: Seq<char>,
    pub market_title: Seq<char>,
    pub bet_outcome_index: usize,
    pub winning_outcome_index: usize,
    pub net_shares: int,
    pub avg_price: int,
    pub total_invested: int,
    pub payout: int,
    pub profit: int,
    pub won: bool,
}

impl View for ResolvedPosition {
    type V = ResolvedView;

    open spec fn view(&self) -> ResolvedView {
        ResolvedView {
            condition_id: self.condition_id@,
            market_title: self.market_title@,
            bet_outcome_index: self.bet_outcome_index,
            winning_outcome_index: self.winning_outcome_index,
            net_shares: self.net_shares as int,
            avg_price: self.avg_price as int,
            total_invested: self.total_invested as int,
            payout: self.payout as int,
            profit: self.profit as int,
            won: self.won,
        }
    }
}

pub open spec fn resolved_view(rs: Seq<ResolvedPosition>) -> Seq<ResolvedView> {
    rs.map_values(|r: ResolvedPosition| r@)
}

/// Position `p` in market `m`, whose winning outcome is `winner`: a win pays
/// one dollar per share held.
pub open spec fn settle(p: PositionView, m: Market, winner: usize) -> ResolvedView {
    let won = p.outcome_index == winner;
    let payout = if won { p.net_shares } else { 0 };
    ResolvedView {
        condition_id: p.condition_id,
        market_title: m.question@,
        bet_outcome_index: p.outcome_index,
        winning_outcome_index: winner,
        net_shares: p.net_shares,
        avg_price: p.avg_price,
        total_invested: p.total_invested,
        payout,
        profit: payout - p.total_invested,
        won,
    }
}

/// The positions whose market is listed and has a winner, settled, in order.
pub open spec fn resolve_all(ps: Seq<PositionView>, markets: Seq<Market>) -> Seq<ResolvedView>
    decreases ps.len(),
{
    if ps.len() == 0 {
        Seq::empty()
    } else {
        let prev = resolve_all(ps.drop_last(), markets);
        let p = ps.last();
        match market_index(markets, p.condition_id) {
            Some(i) => match market_winner(markets[i]) {
                Some(w) => prev.push(settle(p, markets[i], w)),
                None => prev,
            },
            None => prev,
        }
    }
}

/// The prices `texts` hold, in millionths; None where any does not read.
pub fn read_prices(texts: &Vec<String>) -> (r: Option<Vec<i64>>)
    ensures
        match r {
            Some(v) => all_prices(texts@.map_values(|s: String| s@)) == Some(v@.map_values(|x: i64| x as int)),
            None => all_prices(texts@.map_values(|s: String| s@)) is None,
        },
{
    let ghost all = texts@.map_values(|s: String| s@);
    let mut prices: Vec<i64> = Vec::new();
    let mut i: usize = 0;
    assert(all.take(0) =~= Seq::<Seq<char>>::empty());
    while i < texts.len()
        invariant
            i <= texts@.len(),
            all == texts@.map_values(|s: String| s@),
            all_prices(all.take(i as int)) == Some(prices@.map_values(|v: i64| v as int)),
        decreases texts@.len() - i,
    {
        assert(all.take(i + 1).drop_last() =~= all.take(i as int));
        assert(all.take(i + 1).last() == texts[i as int]@);
        let ghost before = prices@.map_values(|v: i64| v as int);
        match parse_units(texts[i].as_str()) {
            Some(v) => {
                prices.push(v);
                assert(prices@.map_values(|v: i64| v as int) =~= before.push(v as int));
            },
            None => {
                proof {
                    lemma_all_prices_prefix(all, i + 1);
                }
                return None;
            },
        }
        i = i + 1;
    }
    assert(all.take(texts@.len() as int) =~= all);
    Some(prices)
}

/// A text that does not read spoils every longer list that starts with it.
proof fn lemma_all_prices_prefix(all: Seq<Seq<char>>, k: int)
    requires
        0 <= k <= all.len(),
        all_prices(all.take(k)) is None,
    ensures
        all_prices(all) is None,
    decreases all.len() - k,
{
    if k < all.len() {
        assert(all.take(k + 1).drop_last() =~= all.take(k));
        lemma_all_prices_prefix(all, k + 1);
    } else {
        assert(all.take(k) =~= all);
    }
}

/// The outcome prices of a market, in millionths, where its price text is a
/// JSON array of strings that all read as decimals.
pub fn outcome_prices_of(market: &Market) -> (r: Option<Vec<i64>>)
    ensures
        match market.outcome_prices {
            Some(text) => match json_string_list(text@) {
                Some(texts) => match all_prices(texts) {
                    Some(ps) => r matches Some(v) && v@.map_values(|x: i64| x as int) == ps,
                    None => r is None,
                },
                None => r is None,
            },
            None => r is None,
        },
{
    match &market.outcome_prices {
        Some(text) => match parse_string_list(text.as_str()) {
            Some(texts) => read_prices(&texts),
            None => None,
        },
        None => None,
    }
}

pub open spec fn decimals_view(ds: Seq<Decimal>) -> Seq<DecimalParts> {
    ds.map_values(|d: Decimal| d@)
}

/// The exact values `texts` hold; None where any does not read.
pub fn read_decimals(texts: &Vec<String>) -> (r: Option<Vec<Decimal>>)
    ensures
        match r {
            Some(v) => all_decimals(texts@.map_values(|s: String| s@)) == Some(decimals_view(v@))
                && forall|k: int| 0 <= k < v@.len() ==> #[trigger] all_digits(v@[k]@.digits)
                && -0x1_0000_0000_0000_0000_0000_0000 <= v@[k].scale <= 0x1_0000_0000_0000_0000_0000_0000,
            None => all_decimals(texts@.map_values(|s: String| s@)) is None,
        },
{
    let ghost all = texts@.map_values(|s: String| s@);
    let mut out: Vec<Decimal> = Vec::new();
    let mut i: usize = 0;
    assert(all.take(0) =~= Seq::<Seq<char>>::empty());
    while i < texts.len()
        invariant
            i <= texts@.len(),
            all == texts@.map_values(|s: String| s@),
            all_decimals(all.take(i as int)) == Some(decimals_view(out@)),
            out@.len() == i,
            forall|k: int| 0 <= k < out@.len() ==> #[trigger] all_digits(out@[k]@.digits)
                && -0x1_0000_0000_0000_0000_0000_0000 <= out@[k].scale <= 0x1_0000_0000_0000_0000_0000_0000,
        decreases texts@.len() - i,
    {
        assert(all.take(i + 1).drop_last() =~= all.take(i as int));
        assert(all.take(i + 1).last() == texts[i as int]@);
        let ghost before = decimals_view(out@);
        match parse_decimal(texts[i].as_str()) {
            Some(d) => {
                let ghost dv = d@;
                out.push(d);
                assert(decimals_view(out@) =~= before.push(dv));
            },
            None => {
                proof {
                    lemma_all_decimals_prefix(all, i + 1);
                }
                return None;
            },
        }
        i = i + 1;
    }
    assert(all.take(texts@.len() as int) =~= all);
    Some(out)
}

proof fn lemma_all_decimals_prefix(all: Seq<Seq<char>>, k: int)
    requires
        0 <= k <= all.len(),
        all_decimals(all.take(k)) is None,
    ensures
        all_decimals(all) is None,
    decreases all.len() - k,
{
    if k < all.len() {
        assert(all.take(k + 1).drop_last() =~= all.take(k));
        lemma_all_decimals_prefix(all, k + 1);
    } else {
        assert(all.take(k) =~= all);
    }
}

/// Winning outcome from a market's price strings, as read from its
/// outcome-price text: None unless there are exactly two and both read.
pub fn winning_outcome_from_prices(texts: &Vec<String>) -> (r: Option<usize>)
    ensures
        r == match all_decimals(texts@.map_values(|s: String| s@)) {
            Some(prices) => winner_of(prices),
            None => None,
        },
{
    let prices = match read_decimals(texts) {
        Some(p) => p,
        None => return None,
    };
    if prices.len() != 2 {
        return None;
    }
    proof {
        let m = decimals_view(prices@);
        assert(m[0] == prices@[0]@ && m[1] == prices@[1]@);
        assert(all_digits(prices@[0]@.digits) && all_digits(prices@[1]@.digits));
    }
    if above_nine_tenths(&prices[0]) {
        Some(0)
    } else if above_nine_tenths(&prices[1]) {
        Some(1)
    } else {
        None
    }
}

impl WalletAnalyzer {
    /// Winning outcome of a market; None where it is not resolved or ambiguous.
    pub fn get_winning_outcome(&self, market: &Market) -> (r: Option<usize>)
        ensures
            r == market_winner(*market),
    {
        match &market.outcome_prices {
            Some(text) => match parse_string_list(text.as_str()) {
                Some(texts) => winning_outcome_from_prices(&texts),
                None => None,
            },
            None => None,
        }
    }

    /// Settles each position whose market is among `resolved_markets` and
    /// has a winner; the others are dropped.
    pub fn match_resolved_positions(&self, positions: &[Position], resolved_markets: &[Market]) -> (r: Vec<
        ResolvedPosition,
    >)
        ensures
            resolved_view(r@) == resolve_all(positions_view(positions@), resolved_markets@),
    {
        let ghost ps = positions_view(positions@);
        let mut out: Vec<ResolvedPosition> = Vec::new();
        let mut i: usize = 0;
        while i < positions.len()
            invariant
                i <= positions@.len(),
                ps == positions_view(positions@),
                resolved_view(out@) == resolve_all(ps.take(i as int), resolved_markets@),
            decreases positions@.len() - i,
        {
            let p = &positions[i];
            assert(ps.take(i + 1).drop_last() =~= ps.take(i as int));
            assert(ps.take(i + 1).last() == p@);
            match find_market(resolved_markets, &p.condition_id) {
                Some(j) => {
                    let market = &resolved_markets[j];
                    match self.get_winning_outcome(market) {
                        Some(w) => {
                            let r = settle_position(p, market, w);
                            out.push(r);
                        },
                        None => {},
                    }
                },
                None => {},
            }
            assert(resolved_view(out@) =~= resolve_all(ps.take(i + 1), resolved_markets@));
            i = i + 1;
        }
        assert(ps.take(positions@.len() as int) =~= ps);
        out
    }
}

fn settle_position(p: &Position, market: &Market, winner: usize) -> (r: ResolvedPosition)
    ensures
        r@ == settle(p@, *market, winner),
{
    let won = p.outcome_index == winner;
    let payout: i64 = if won { p.net_shares } else { 0 };
    ResolvedPosition {
        condition_id: p.condition_id.clone(),
        market_title: market.question.clone(),
        bet_outcome_index: p.outcome_index,
        winning_outcome_index: winner,
        net_shares: p.net_shares,
        avg_price: p.avg_price,
        total_invested: p.total_invested,
        payout,
        profit: payout as i128 - p.total_invested as i128,
        won,
    }
}

/// Index of the last market listed with the given condition id.
fn find_market(markets: &[Market], condition_id: &String) -> (r: Option<usize>)
    ensures
        match r {
            Some(j) => j < markets@.len() && market_index(markets@, condition_id@) == Some(j as int),
            None => market_index(markets@, condition_id@) is None,
        },
{
    let mut j: usize = markets.len();
    assert(markets@.take(j as int) =~= markets@);
    while j > 0
        invariant
            j <= markets@.len(),
            market_index(markets@, condition_id@) == market_index(markets@.take(j as int), condition_id@),
        decreases j,
    {
        let m = &markets[j - 1];
        let ghost pre = markets@.take(j as int);
        assert(pre.last() == *m);
        assert(pre.drop_last() =~= markets@.take(j - 1));
        match &m.condition_id {
            Some(id) => {
                if *id == *condition_id {
                    return Some(j - 1);
                }
            },
            None => {},
        }
        j = j - 1;
    }
    None
}

} // verus!
