//! Reduction of settled positions into an account's performance figures.

use vstd::prelude::*;
use crate::models::{ResolvedPosition, Trade, WalletPerformance};
use crate::resolution::{ResolvedView, resolved_view};
use crate::wallet_analyzer::WalletAnalyzer;

verus! {

/// Most settled positions that one summary covers; 128-bit sums of that many
/// 64-bit figures, scaled to millionths, cannot overflow.
pub const MAX_POSITIONS: u64 = 0x100_0000_0000;

/// Profit is payout less capital, as [`crate::resolution::settle`] makes it.
pub open spec fn profit_consistent(r: ResolvedView) -> bool {
    r.profit == r.payout - r.total_invested
}

pub open spec fn sum_invested(rs: Seq<ResolvedView>) -> int
    decreases rs.len(),
{
    if rs.len() == 0 { 0 } else { sum_invested(rs.drop_last()) + rs.last().total_invested }
}

pub open spec fn sum_payout(rs: Seq<ResolvedView>) -> int
    decreases rs.len(),
{
    if rs.len() == 0 { 0 } else { sum_payout(rs.drop_last()) + rs.last().payout }
}

pub open spec fn count_wins(rs: Seq<ResolvedView>) -> nat
    decreases rs.len(),
{
    if rs.len() == 0 { 0 } else { count_wins(rs.drop_last()) + if rs.last().won { 1nat } else { 0 } }
}

/// Sum of the profits of the positions with `won == won`.
pub open spec fn sum_profit(rs: Seq<ResolvedView>, won: bool) -> int
    decreases rs.len(),
{
    if rs.len() == 0 {
        0
    } else {
        sum_profit(rs.drop_last(), won) + if rs.last().won == won { rs.last().profit } else { 0 }
    }
}

pub open spec fn condition_ids(trades: Seq<Trade>) -> Seq<Seq<char>> {
    trades.map_values(|t: Trade| t.condition_id@)
}

/// `num / den` rounded down, and zero where `den` is not positive.
pub open spec fn ratio_or_zero(num: int, den: int) -> int {
    if den > 0 { num / den } else { 0 }
}

/// The figures of `r` are those of `rs`, the settled positions of the
/// account `wallet` whose trade list is `trades`. Rates and averages are
/// rounded down; those with no denominator are zero.
pub open spec fn performance_matches(
    r: WalletPerformance,
    wallet: Seq<char>,
    trades: Seq<Trade>,
    rs: Seq<ResolvedView>,
) -> bool {
    let wins = count_wins(rs) as int;
    let losses = rs.len() - wins;
    let invested = sum_invested(rs);
    let payout = sum_payout(rs);
    &&& r.wallet_address@ == wallet
    &&& r.total_trades == trades.len()
    &&& r.total_markets == condition_ids(trades).to_set().len()
    &&& r.resolved_positions == rs.len()
    &&& r.wins == wins
    &&& r.losses == losses
    &&& r.win_rate == ratio_or_zero(wins * 1_000_000, rs.len() as int)
    &&& r.total_invested == invested
    &&& r.total_payout == payout
    &&& r.net_profit == payout - invested
    &&& r.roi == ratio_or_zero((payout - invested) * 1_000_000, invested)
    &&& r.avg_profit_per_win == ratio_or_zero(sum_profit(rs, true), wins)
    &&& r.avg_loss_per_loss == ratio_or_zero(sum_profit(rs, false), losses)
}

/// All figures zero and the given address.
pub open spec fn is_empty_performance(r: WalletPerformance, wallet: Seq<char>) -> bool {
    &&& r.wallet_address@ == wallet
    &&& r.total_trades == 0 && r.total_markets == 0 && r.resolved_positions == 0
    &&& r.wins == 0 && r.losses == 0 && r.win_rate == 0
    &&& r.total_invested == 0 && r.total_payout == 0 && r.net_profit == 0 && r.roi == 0
    &&& r.avg_profit_per_win == 0 && r.avg_loss_per_loss == 0
}

/// Number of distinct condition ids among `trades`.
fn count_markets(trades: &[Trade]) -> (r: usize)
    ensures
        r == condition_ids(trades@).to_set().len(),
{
    let ghost ids = condition_ids(trades@);
    let mut count: usize = 0;
    let mut i: usize = 0;
    assert(ids.take(0).to_set() =~= Set::<Seq<char>>::empty());
    while i < trades.len()
        invariant
            i <= trades@.len(),
            ids == condition_ids(trades@),
            count == ids.take(i as int).to_set().len(),
            count <= i,
        decreases trades@.len() - i,
    {
        let id = &trades[i].condition_id;
        let mut seen = false;
        let mut j: usize = 0;
        while j < i
            invariant
                j <= i < trades@.len(),
                ids == condition_ids(trades@),
                *id == trades@[i as int].condition_id,
                seen == exists|k: int| 0 <= k < j && ids[k] == id@,
            decreases i - j,
        {
            assert(ids[j as int] == trades@[j as int].condition_id@);
            if trades[j].condition_id == *id {
                seen = true;
            }
            proof {
                if ids[j as int] == id@ {
                    assert(0 <= j < j + 1 && ids[j as int] == id@);
                }
            }
            j = j + 1;
        }
        proof {
            let pre = ids.take(i as int);
            assert(ids.take(i + 1) =~= pre.push(id@));
            pre.lemma_push_to_set_commute(id@);
            vstd::seq_lib::seq_to_set_is_finite(pre);
            vstd::set::axiom_set_insert_len(pre.to_set(), id@);
            if seen {
                let k = choose|k: int| 0 <= k < i && ids[k] == id@;
                assert(pre[k] == id@);
            } else {
                assert forall|k: int| 0 <= k < pre.len() implies pre[k] != id@ by {}
            }
        }
        if !seen {
            count = count + 1;
        }
        i = i + 1;
    }
    assert(ids.take(trades@.len() as int) =~= ids);
    count
}

impl WalletAnalyzer {
    /// Performance figures of the account `wallet_address` from its trade
    /// list and its settled positions.
    pub fn calculate_performance(
        &self,
        wallet_address: &str,
        trades: &[Trade],
        resolved_positions: &[ResolvedPosition],
    ) -> (r: WalletPerformance)
        requires
            resolved_positions@.len() <= MAX_POSITIONS,
            forall|i: int| 0 <= i < resolved_positions@.len() ==> profit_consistent(#[trigger] resolved_positions@[i]@),
        ensures
            performance_matches(r, wallet_address@, trades@, resolved_view(resolved_positions@)),
    {
        let ghost rs = resolved_view(resolved_positions@);
        let n = resolved_positions.len();
        let mut wins: usize = 0;
        let mut invested: i128 = 0;
        let mut payout: i128 = 0;
        let mut win_profit: i128 = 0;
        let mut loss_profit: i128 = 0;
        let mut i: usize = 0;
        while i < n
            invariant
                n == resolved_positions@.len(),
                n <= MAX_POSITIONS,
                i <= n,
                rs == resolved_view(resolved_positions@),
                forall|k: int| 0 <= k < n ==> profit_consistent(#[trigger] resolved_positions@[k]@),
                wins == count_wins(rs.take(i as int)),
                wins <= i,
                invested == sum_invested(rs.take(i as int)),
                payout == sum_payout(rs.take(i as int)),
                win_profit == sum_profit(rs.take(i as int), true),
                loss_profit == sum_profit(rs.take(i as int), false),
                -(i as int) * 0x8000_0000_0000_0000 <= invested <= (i as int) * 0x8000_0000_0000_0000,
                -(i as int) * 0x8000_0000_0000_0000 <= payout <= (i as int) * 0x8000_0000_0000_0000,
                -(i as int) * 0x1_0000_0000_0000_0000 <= win_profit <= (i as int) * 0x1_0000_0000_0000_0000,
                -(i as int) * 0x1_0000_0000_0000_0000 <= loss_profit <= (i as int) * 0x1_0000_0000_0000_0000,
            decreases n - i,
        {
            let p = &resolved_positions[i];
            proof {
                let pre = rs.take(i + 1);
                assert(pre.drop_last() =~= rs.take(i as int));
                assert(pre.last() == p@);
                assert(profit_consistent(resolved_positions@[i as int]@));
            }
            invested = invested + p.total_invested as i128;
            payout = payout + p.payout as i128;
            if p.won {
                wins = wins + 1;
                win_profit = win_profit + p.profit;
            } else {
                loss_profit = loss_profit + p.profit;
            }
            i = i + 1;
        }
        assert(rs.take(n as int) =~= rs);
        let losses = n - wins;
        let net = payout - invested;
        let win_rate: i128 = if n > 0 { (wins as i128 * 1_000_000) / n as i128 } else { 0 };
        let roi: i128 = if invested > 0 {
            div_down(net * 1_000_000, invested)
        } else {
            0
        };
        let avg_win: i128 = if wins > 0 { div_down(win_profit, wins as i128) } else { 0 };
        let avg_loss: i128 = if losses > 0 { div_down(loss_profit, losses as i128) } else { 0 };
        WalletPerformance {
            wallet_address: wallet_address.to_owned(),
            total_trades: trades.len(),
            total_markets: count_markets(trades),
            resolved_positions: n,
            wins,
            losses,
            win_rate,
            total_invested: invested,
            total_payout: payout,
            net_profit: net,
            roi,
            avg_profit_per_win: avg_win,
            avg_loss_per_loss: avg_loss,
        }
    }

    /// A summary with every figure zero.
    pub fn empty_performance(&self, wallet_address: String) -> (r: WalletPerformance)
        ensures
            is_empty_performance(r, wallet_address@),
    {
        WalletPerformance {
            wallet_address,
            total_trades: 0,
            total_markets: 0,
            resolved_positions: 0,
            wins: 0,
            losses: 0,
            win_rate: 0,
            total_invested: 0,
            total_payout: 0,
            net_profit: 0,
            roi: 0,
            avg_profit_per_win: 0,
            avg_loss_per_loss: 0,
        }
    }
}

fn div_down(a: i128, b: i128) -> (q: i128)
    requires
        b > 0,
    ensures
        q == a / b,
{
    proof {
        vstd::arithmetic::div_mod::lemma_fundamental_div_mod(a as int, b as int);
        assert(i128::MIN <= a / b <= i128::MAX) by (nonlinear_arith)
            requires
                b > 0,
                a == b * (a / b) + a % b,
                0 <= a % b < b,
                i128::MIN <= a <= i128::MAX,
        ;
    }
    match a.checked_div_euclid(b) {
        Some(q) => q,
        None => 0,
    }
}

} // verus!
