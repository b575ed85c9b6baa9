//! Folding a trade stream into per-(market, outcome) positions with a
//! weighted-average cost basis.

use vstd::prelude::*;
use crate::models::{Position, PositionView, Trade, TradeSide, positions_view};
use crate::wallet_analyzer::WalletAnalyzer;

verus! {

/// Positions whose absolute share count is at most this many millionths of a
/// share (0.001 shares) count as closed.
pub const CLOSED_EPSILON: i64 = 1_000;

pub open spec fn fits_i64(x: int) -> bool {
    i64::MIN <= x <= i64::MAX
}

/// Share count, average price and capital after one trade, in exact
/// arithmetic with floor division. A buy adds its cost, `size × price`, to
/// the capital and, while shares are positive, sets the average price to
/// capital per share, rounded down. A sell takes off the cost basis of the
/// sold shares at the unchanged average price. A position that ends at or
/// below zero shares after a sell is flat: average price and capital are
/// zero.
pub open spec fn trade_figures(
    shares: int,
    avg: int,
    capital: int,
    side: TradeSide,
    size: int,
    price: int,
) -> (int, int, int) {
    match side {
        TradeSide::Buy => {
            let new_shares = shares + size;
            let total = capital + (size * price) / 1_000_000;
            if new_shares > 0 {
                (new_shares, (total * 1_000_000) / new_shares, total)
            } else {
                (new_shares, avg, total)
            }
        },
        TradeSide::Sell => {
            let new_shares = shares - size;
            if new_shares > 0 {
                let sold_basis = (shares * avg) / 1_000_000 - (new_shares * avg) / 1_000_000;
                (new_shares, avg, capital - sold_basis)
            } else {
                (new_shares, 0, 0)
            }
        },
        TradeSide::Other => (shares, avg, capital),
    }
}

/// A position after trade `t`. A trade whose figures would not fit in
/// `i64` cannot be represented and leaves the position as it was.
pub open spec fn apply_trade(p: PositionView, t: Trade) -> PositionView {
    let f = trade_figures(
        p.net_shares,
        p.avg_price,
        p.total_invested,
        t.side,
        t.size as int,
        t.price as int,
    );
    if fits_i64(f.0) && fits_i64(f.1) && fits_i64(f.2) {
        PositionView { net_shares: f.0, avg_price: f.1, total_invested: f.2, ..p }
    } else {
        p
    }
}

/// The empty position that the first trade on a key opens.
pub open spec fn opened_by(t: Trade) -> PositionView {
    PositionView {
        condition_id: t.condition_id@,
        outcome_index: t.outcome_index,
        net_shares: 0,
        avg_price: 0,
        total_invested: 0,
        market_title: match t.title {
            Some(title) => title@,
            None => "Unknown"@,
        },
    }
}

pub open spec fn has_key(p: PositionView, condition_id: Seq<char>, outcome_index: usize) -> bool {
    p.condition_id == condition_id && p.outcome_index == outcome_index
}

/// Index of the first position with the given key.
pub open spec fn key_index(ps: Seq<PositionView>, condition_id: Seq<char>, outcome_index: usize) -> Option<int>
    decreases ps.len(),
{
    if ps.len() == 0 {
        None
    } else if has_key(ps[0], condition_id, outcome_index) {
        Some(0)
    } else {
        match key_index(ps.drop_first(), condition_id, outcome_index) {
            Some(i) => Some(i + 1),
            None => None,
        }
    }
}

/// All positions that `trades` touch, in order of first touch, before
/// closed ones are dropped.
pub open spec fn fold_positions(trades: Seq<Trade>) -> Seq<PositionView>
    decreases trades.len(),
{
    if trades.len() == 0 {
        Seq::empty()
    } else {
        let ps = fold_positions(trades.drop_last());
        let t = trades.last();
        match key_index(ps, t.condition_id@, t.outcome_index) {
            Some(i) => ps.update(i, apply_trade(ps[i], t)),
            None => ps.push(apply_trade(opened_by(t), t)),
        }
    }
}

pub open spec fn is_open(p: PositionView) -> bool {
    p.net_shares > CLOSED_EPSILON || p.net_shares < -CLOSED_EPSILON
}

/// The open positions that `trades` leave.
pub open spec fn open_positions(trades: Seq<Trade>) -> Seq<PositionView> {
    fold_positions(trades).filter(|p: PositionView| is_open(p))
}

pub proof fn lemma_key_index_range(ps: Seq<PositionView>, cid: Seq<char>, oi: usize)
    ensures
        key_index(ps, cid, oi) matches Some(k) ==> 0 <= k < ps.len() && has_key(ps[k], cid, oi),
    decreases ps.len(),
{
    if ps.len() > 0 {
        lemma_key_index_range(ps.drop_first(), cid, oi);
    }
}

proof fn lemma_key_index_found(ps: Seq<PositionView>, cid: Seq<char>, oi: usize, j: int)
    requires
        0 <= j < ps.len(),
        has_key(ps[j], cid, oi),
        forall|k: int| 0 <= k < j ==> !has_key(#[trigger] ps[k], cid, oi),
    ensures
        key_index(ps, cid, oi) == Some(j),
    decreases j,
{
    if j > 0 {
        let t = ps.drop_first();
        assert forall|k: int| 0 <= k < j - 1 implies !has_key(#[trigger] t[k], cid, oi) by {
            assert(t[k] == ps[k + 1]);
        }
        lemma_key_index_found(t, cid, oi, j - 1);
    }
}

proof fn lemma_key_index_absent(ps: Seq<PositionView>, cid: Seq<char>, oi: usize)
    requires
        forall|k: int| 0 <= k < ps.len() ==> !has_key(#[trigger] ps[k], cid, oi),
    ensures
        key_index(ps, cid, oi) is None,
    decreases ps.len(),
{
    if ps.len() > 0 {
        let t = ps.drop_first();
        assert forall|k: int| 0 <= k < t.len() implies !has_key(#[trigger] t[k], cid, oi) by {
            assert(t[k] == ps[k + 1]);
        }
        lemma_key_index_absent(t, cid, oi);
    }
}

/// Finds the position with the given key.
fn find_position(ps: &Vec<Position>, condition_id: &String, outcome_index: usize) -> (r: Option<usize>)
    ensures
        match r {
            Some(j) => j < ps@.len() && key_index(positions_view(ps@), condition_id@, outcome_index) == Some(j as int),
            None => key_index(positions_view(ps@), condition_id@, outcome_index) is None,
        },
{
    let ghost vs = positions_view(ps@);
    let mut j: usize = 0;
    while j < ps.len()
        invariant
            j <= ps@.len(),
            vs == positions_view(ps@),
            forall|k: int| 0 <= k < j ==> !has_key(#[trigger] vs[k], condition_id@, outcome_index),
        decreases ps@.len() - j,
    {
        if ps[j].outcome_index == outcome_index && ps[j].condition_id == *condition_id {
            proof {
                lemma_key_index_found(vs, condition_id@, outcome_index, j as int);
            }
            return Some(j);
        }
        j = j + 1;
    }
    proof {
        lemma_key_index_absent(vs, condition_id@, outcome_index);
    }
    None
}

fn div_floor(a: i128, b: i128) -> (q: i128)
    requires
        b > 0,
    ensures
        q == a / b,
{
    proof {
        vstd::arithmetic::div_mod::lemma_fundamental_div_mod(a as int, b as int);
        assert(i128::MIN <= a / b <= i128::MAX) by (nonlinear_arith)
            requires
                b > 0,
                a == b * (a / b) + a % b,
                0 <= a % b < b,
                i128::MIN <= a <= i128::MAX,
        ;
    }
    match a.checked_div_euclid(b) {
        Some(q) => q,
        None => 0,
    }
}

fn mul_wide(a: i64, b: i64) -> (r: i128)
    ensures
        r == a * b,
        -0x4000_0000_0000_0000_0000_0000_0000_0000 <= r <= 0x4000_0000_0000_0000_0000_0000_0000_0000,
{
    proof {
        assert(-0x4000_0000_0000_0000_0000_0000_0000_0000 <= a * b <= 0x4000_0000_0000_0000_0000_0000_0000_0000)
            by (nonlinear_arith)
            requires
                i64::MIN <= a <= i64::MAX,
                i64::MIN <= b <= i64::MAX,
        ;
    }
    a as i128 * b as i128
}

fn fits(x: i128) -> (r: bool)
    ensures
        r == fits_i64(x as int),
{
    i64::MIN as i128 <= x && x <= i64::MAX as i128
}

/// Share count, average price and capital after `t`, or the given ones where
/// the result cannot be represented.
fn traded_figures(shares: i64, avg: i64, capital: i64, t: &Trade) -> (r: (i64, i64, i64))
    ensures
        ({
            let f = trade_figures(shares as int, avg as int, capital as int, t.side, t.size as int, t.price as int);
            if fits_i64(f.0) && fits_i64(f.1) && fits_i64(f.2) {
                r.0 == f.0 && r.1 == f.1 && r.2 == f.2
            } else {
                r == (shares, avg, capital)
            }
        }),
{
    match t.side {
        TradeSide::Buy => {
            let new_shares = shares as i128 + t.size as i128;
            if !fits(new_shares) {
                return (shares, avg, capital);
            }
            let cost = div_floor(mul_wide(t.size, t.price), 1_000_000);
            proof {
                assert(-0x4000_0000_0000_0000_0000_0000_0000 <= cost <= 0x4000_0000_0000_0000_0000_0000_0000)
                    by (nonlinear_arith)
                    requires
                        cost == (t.size * t.price) / 1_000_000,
                        -0x4000_0000_0000_0000_0000_0000_0000_0000 <= t.size * t.price <= 0x4000_0000_0000_0000_0000_0000_0000_0000,
                ;
            }
            let total = capital as i128 + cost;
            if !fits(total) {
                return (shares, avg, capital);
            }
            if new_shares > 0 {
                let new_avg = div_floor(total * 1_000_000, new_shares);
                if !fits(new_avg) {
                    return (shares, avg, capital);
                }
                (new_shares as i64, new_avg as i64, total as i64)
            } else {
                (new_shares as i64, avg, total as i64)
            }
        },
        TradeSide::Sell => {
            let new_shares = shares as i128 - t.size as i128;
            if !fits(new_shares) {
                return (shares, avg, capital);
            }
            if new_shares > 0 {
                let sold_basis = div_floor(mul_wide(shares, avg), 1_000_000) - div_floor(
                    mul_wide(new_shares as i64, avg),
                    1_000_000,
                );
                let new_capital = capital as i128 - sold_basis;
                if !fits(new_capital) {
                    return (shares, avg, capital);
                }
                (new_shares as i64, avg, new_capital as i64)
            } else {
                (new_shares as i64, 0, 0)
            }
        },
        TradeSide::Other => (shares, avg, capital),
    }
}

fn apply_to(p: &mut Position, t: &Trade)
    ensures
        final(p)@ == apply_trade(old(p)@, *t),
{
    let (shares, avg, capital) = traded_figures(p.net_shares, p.avg_price, p.total_invested, t);
    p.net_shares = shares;
    p.avg_price = avg;
    p.total_invested = capital;
}

fn copy_position(p: &Position) -> (r: Position)
    ensures
        r@ == p@,
{
    Position {
        condition_id: p.condition_id.clone(),
        outcome_index: p.outcome_index,
        net_shares: p.net_shares,
        avg_price: p.avg_price,
        total_invested: p.total_invested,
        market_title: p.market_title.clone(),
    }
}

fn open_position(t: &Trade) -> (p: Position)
    ensures
        p@ == opened_by(*t),
{
    let title = match &t.title {
        Some(title) => title.clone(),
        None => String::from_str("Unknown"),
    };
    Position {
        condition_id: t.condition_id.clone(),
        outcome_index: t.outcome_index,
        net_shares: 0,
        avg_price: 0,
        total_invested: 0,
        market_title: title,
    }
}

impl WalletAnalyzer {
    /// Folds `trades`, in the order given, into one position per
    /// (market, outcome) key, in order of the key's first trade, and keeps
    /// those that are not closed.
    pub fn build_positions(&self, trades: &[Trade]) -> (r: Vec<Position>)
        ensures
            positions_view(r@) == open_positions(trades@),
    {
        let all = fold_trades(trades);
        let mut open: Vec<Position> = Vec::new();
        let mut i: usize = 0;
        let ghost folded = positions_view(all@);
        while i < all.len()
            invariant
                i <= all@.len(),
                folded == positions_view(all@),
                folded == fold_positions(trades@),
                positions_view(open@) == folded.take(i as int).filter(|p: PositionView| is_open(p)),
            decreases all@.len() - i,
        {
            assert(folded.take(i + 1).drop_last() =~= folded.take(i as int));
            let p = &all[i];
            if p.net_shares > CLOSED_EPSILON || p.net_shares < -CLOSED_EPSILON {
                open.push(copy_position(p));
            }
            proof {
                reveal(Seq::filter);
                assert(positions_view(open@) =~= folded.take(i + 1).filter(|p: PositionView| is_open(p)));
            }
            i = i + 1;
        }
        assert(folded.take(all@.len() as int) =~= folded);
        open
    }
}

/// All positions that `trades` touch, closed ones included.
fn fold_trades(trades: &[Trade]) -> (r: Vec<Position>)
    ensures
        positions_view(r@) == fold_positions(trades@),
{
    let mut ps: Vec<Position> = Vec::new();
    let mut i: usize = 0;
    while i < trades.len()
        invariant
            i <= trades@.len(),
            positions_view(ps@) == fold_positions(trades@.take(i as int)),
        decreases trades@.len() - i,
    {
        let t = &trades[i];
        let ghost before = positions_view(ps@);
        assert(trades@.take(i + 1).drop_last() =~= trades@.take(i as int));
        assert(trades@.take(i + 1).last() == *t);
        assert(fold_positions(trades@.take(i + 1)) == match key_index(before, t.condition_id@, t.outcome_index) {
            Some(k) => before.update(k, apply_trade(before[k], *t)),
            None => before.push(apply_trade(opened_by(*t), *t)),
        });
        match find_position(&ps, &t.condition_id, t.outcome_index) {
            Some(j) => {
                apply_to(&mut ps[j], t);
                assert(positions_view(ps@) =~= before.update(j as int, apply_trade(before[j as int], *t)));
            },
            None => {
                let mut p = open_position(t);
                apply_to(&mut p, t);
                ps.push(p);
                assert(positions_view(ps@) =~= before.push(apply_trade(opened_by(*t), *t)));
            },
        }
        i = i + 1;
    }
    assert(trades@.take(trades@.len() as int) =~= trades@);
    ps
}

/// The position that trade `i` of `trades` applies to, as it stands before it.
pub open spec fn position_before(trades: Seq<Trade>, i: int) -> PositionView {
    let ps = fold_positions(trades.take(i));
    let t = trades[i];
    match key_index(ps, t.condition_id@, t.outcome_index) {
        Some(k) => ps[k],
        None => opened_by(t),
    }
}

/// Capital beyond shares × average price, in millionths of a dollar.
pub open spec fn basis_gap(p: PositionView) -> int {
    p.total_invested - (p.net_shares * p.avg_price) / 1_000_000
}

/// While shares are positive, capital is shares × average price up to the
/// rounding of the average: at least that, and short of it by less than one
/// millionth of a dollar per share of `peak`, plus one millionth.
pub open spec fn basis_within(p: PositionView, peak: int) -> bool {
    p.net_shares > 0 ==> 0 <= basis_gap(p) && basis_gap(p) * 1_000_000 < peak + 1_000_000
}

/// The most shares any trade of `trades` left a position holding, or zero.
pub open spec fn peak_shares(trades: Seq<Trade>) -> int
    decreases trades.len(),
{
    if trades.len() == 0 {
        0
    } else {
        let prev = peak_shares(trades.drop_last());
        let now = apply_trade(position_before(trades, trades.len() - 1), trades.last()).net_shares;
        if now > prev { now } else { prev }
    }
}

/// A position with no shares, or short, holds no capital and no average price.
pub open spec fn flat_is_zero(p: PositionView) -> bool {
    p.net_shares <= 0 ==> p.total_invested == 0 && p.avg_price == 0
}

/// A sell that takes a position from zero or fewer shares to more than zero.
pub open spec fn sell_reopens(p: PositionView, t: Trade) -> bool {
    t.side == TradeSide::Sell && p.net_shares <= 0 && apply_trade(p, t).net_shares > 0
}

/// A buy that changes a position and leaves it at zero or fewer shares.
pub open spec fn buy_leaves_flat(p: PositionView, t: Trade) -> bool {
    t.side == TradeSide::Buy && apply_trade(p, t) != p && apply_trade(p, t).net_shares <= 0
}

proof fn lemma_fold_prefix(trades: Seq<Trade>, i: int)
    requires
        0 <= i < trades.len(),
    ensures
        trades.drop_last().take(i) == trades.take(i),
        i < trades.len() - 1 ==> trades.drop_last()[i] == trades[i],
{
    assert(trades.drop_last().take(i) =~= trades.take(i));
}

proof fn lemma_peak_grows(trades: Seq<Trade>)
    ensures
        peak_shares(trades) >= 0,
    decreases trades.len(),
{
    if trades.len() > 0 {
        lemma_peak_grows(trades.drop_last());
    }
}

/// A buy that leaves shares positive sets the average from the capital, so
/// the gap is what rounding the average down leaves.
proof fn lemma_buy_gap(shares: int, capital: int, avg: int)
    requires
        shares > 0,
        avg == (capital * 1_000_000) / shares,
    ensures
        0 <= capital - (shares * avg) / 1_000_000,
        (capital - (shares * avg) / 1_000_000) * 1_000_000 < shares + 1_000_000,
{
    let u = 1_000_000int;
    vstd::arithmetic::div_mod::lemma_fundamental_div_mod(capital * u, shares);
    vstd::arithmetic::div_mod::lemma_fundamental_div_mod(shares * avg, u);
    let q = (shares * avg) / u;
    assert(0 <= capital - q && (capital - q) * u < shares + u) by (nonlinear_arith)
        requires
            capital * u == shares * avg + (capital * u) % shares,
            0 <= (capital * u) % shares < shares,
            shares * avg == u * q + (shares * avg) % u,
            0 <= (shares * avg) % u < u,
            u == 1_000_000,
    ;
}

/// Cost-basis invariant of the fold. In every position that `trades` leave:
/// while the share count is positive, the capital is the share count times
/// the average price up to the rounding of the average (see
/// [`basis_within`]), provided no sell lifts a position from zero or fewer
/// shares to more than zero; and at zero or fewer shares, capital and
/// average price are both zero, provided no buy leaves a position there.
pub proof fn lemma_cost_basis(trades: Seq<Trade>)
    ensures
        (forall|i: int| 0 <= i < trades.len() ==> !sell_reopens(#[trigger] position_before(trades, i), trades[i]))
            ==> forall|k: int| 0 <= k < fold_positions(trades).len() ==> basis_within(#[trigger] fold_positions(trades)[k], peak_shares(trades)),
        (forall|i: int| 0 <= i < trades.len() ==> !buy_leaves_flat(#[trigger] position_before(trades, i), trades[i]))
            ==> forall|k: int| 0 <= k < fold_positions(trades).len() ==> flat_is_zero(#[trigger] fold_positions(trades)[k]),
    decreases trades.len(),
{
    if trades.len() > 0 {
        let init = trades.drop_last();
        let n = trades.len() - 1;
        assert forall|i: int| 0 <= i < init.len() implies #[trigger] position_before(init, i) == position_before(trades, i) by {
            lemma_fold_prefix(trades, i);
        }
        lemma_cost_basis(init);
        lemma_peak_grows(init);
        assert(trades.take(n) =~= init);
        let ps = fold_positions(init);
        let t = trades.last();
        let p = position_before(trades, n);
        let peak = peak_shares(trades);
        lemma_key_index_range(ps, t.condition_id@, t.outcome_index);
        if forall|i: int| 0 <= i < trades.len() ==> !sell_reopens(#[trigger] position_before(trades, i), trades[i]) {
            assert forall|i: int| 0 <= i < init.len() implies !sell_reopens(#[trigger] position_before(init, i), init[i]) by {
                assert(position_before(init, i) == position_before(trades, i));
                assert(init[i] == trades[i]);
            }
            assert(!sell_reopens(p, t));
            if let Some(k) = key_index(ps, t.condition_id@, t.outcome_index) {
                assert(basis_within(ps[k], peak_shares(init)));
            }
            assert(basis_within(p, peak_shares(init)));
            let q = apply_trade(p, t);
            if q != p && t.side == TradeSide::Buy && q.net_shares > 0 {
                lemma_buy_gap(q.net_shares, q.total_invested, q.avg_price);
            }
            assert(basis_within(q, peak));
            assert forall|k: int| 0 <= k < ps.len() implies basis_within(#[trigger] ps[k], peak) by {
                assert(basis_within(ps[k], peak_shares(init)));
            }
        }
        if forall|i: int| 0 <= i < trades.len() ==> !buy_leaves_flat(#[trigger] position_before(trades, i), trades[i]) {
            assert forall|i: int| 0 <= i < init.len() implies !buy_leaves_flat(#[trigger] position_before(init, i), init[i]) by {
                assert(position_before(init, i) == position_before(trades, i));
                assert(init[i] == trades[i]);
            }
            assert(!buy_leaves_flat(p, t));
            if let Some(k) = key_index(ps, t.condition_id@, t.outcome_index) {
                assert(flat_is_zero(ps[k]));
            }
            assert(flat_is_zero(apply_trade(p, t)));
        }
    }
}

} // verus!
