//! Rule-based classification of an account's performance figures.

use vstd::prelude::*;
use crate::models::WalletPerformance;
use crate::wallet_analyzer::WalletAnalyzer;

verus! {

/// Fewer settled positions than this give no verdict.
pub const MIN_RESOLVED_POSITIONS: usize = 10;

/// Win rate above 75%, in millionths.
pub const EXTREME_WIN_RATE: i128 = 750_000;

/// Win rate above 65%, in millionths.
pub const ELEVATED_WIN_RATE: i128 = 650_000;

/// Return on investment above 50%, in millionths.
pub const HIGH_ROI: i128 = 500_000;

/// Capital above $1000, in millionths of a dollar.
pub const SIGNIFICANT_CAPITAL: i128 = 1_000_000_000;

/// Win rate above 70%, in millionths, for the sustained-outperformance rule.
pub const SUSTAINED_WIN_RATE: i128 = 700_000;

/// Why an account was, or could not be, assessed.
#[derive(Clone, Copy, Debug, PartialEq, Eq, Structural)]
pub enum Flag {
    /// Fewer than ten settled positions: no verdict.
    InsufficientData,
    /// Win rate above 75%.
    ExtremeWinRate,
    /// Win rate above 65% and at most 75%.
    ElevatedWinRate,
    /// Return above 50% with more than $1000 of capital.
    HighRoi,
    /// More than 15 wins at a win rate above 70%.
    ConsistentPerformance,
    /// Average win more than twice the absolute average loss, over more than 10 wins.
    AsymmetricPayoff,
}

pub open spec fn abs(x: int) -> int {
    if x < 0 { -x } else { x }
}

/// The rules that fire on `p`, in rule order.
pub open spec fn fired_flags(p: WalletPerformance) -> Seq<Flag> {
    let rate: Seq<Flag> = if p.win_rate > EXTREME_WIN_RATE {
        seq![Flag::ExtremeWinRate]
    } else if p.win_rate > ELEVATED_WIN_RATE {
        seq![Flag::ElevatedWinRate]
    } else {
        seq![]
    };
    let roi: Seq<Flag> = if p.roi > HIGH_ROI && p.total_invested > SIGNIFICANT_CAPITAL {
        seq![Flag::HighRoi]
    } else {
        seq![]
    };
    let sustained: Seq<Flag> = if p.wins > 15 && p.win_rate > SUSTAINED_WIN_RATE {
        seq![Flag::ConsistentPerformance]
    } else {
        seq![]
    };
    let asymmetric: Seq<Flag> = if p.avg_profit_per_win > 2 * abs(p.avg_loss_per_loss as int) && p.wins > 10 {
        seq![Flag::AsymmetricPayoff]
    } else {
        seq![]
    };
    rate + roi + sustained + asymmetric
}

/// Verdict and reasons for `p`.
pub open spec fn classification(p: WalletPerformance) -> (bool, Seq<Flag>) {
    if p.resolved_positions < MIN_RESOLVED_POSITIONS {
        (false, seq![Flag::InsufficientData])
    } else {
        (fired_flags(p).len() > 0, fired_flags(p))
    }
}

fn asymmetric_payoff(win: i128, loss: i128) -> (r: bool)
    ensures
        r == (win > 2 * abs(loss as int)),
{
    if loss == i128::MIN {
        return false;
    }
    let a: i128 = if loss < 0 { -loss } else { loss };
    if a > i128::MAX / 2 {
        false
    } else {
        win > 2 * a
    }
}

impl WalletAnalyzer {
    /// Whether the figures look like trading on inside knowledge, and why.
    /// With fewer than ten settled positions there is no verdict; otherwise
    /// every rule is checked and each one that fires gives a reason.
    pub fn is_suspicious(&self, performance: &WalletPerformance) -> (r: (bool, Vec<Flag>))
        ensures
            (r.0, r.1@) == classification(*performance),
    {
        if performance.resolved_positions < MIN_RESOLVED_POSITIONS {
            let mut v = Vec::new();
            v.push(Flag::InsufficientData);
            assert(v@ =~= seq![Flag::InsufficientData]);
            return (false, v);
        }
        let mut flags: Vec<Flag> = Vec::new();
        if performance.win_rate > EXTREME_WIN_RATE {
            flags.push(Flag::ExtremeWinRate);
        } else if performance.win_rate > ELEVATED_WIN_RATE {
            flags.push(Flag::ElevatedWinRate);
        }
        let ghost f1 = flags@;
        if performance.roi > HIGH_ROI && performance.total_invested > SIGNIFICANT_CAPITAL {
            flags.push(Flag::HighRoi);
        }
        let ghost f2 = flags@;
        if performance.wins > 15 && performance.win_rate > SUSTAINED_WIN_RATE {
            flags.push(Flag::ConsistentPerformance);
        }
        let ghost f3 = flags@;
        if asymmetric_payoff(performance.avg_profit_per_win, performance.avg_loss_per_loss)
            && performance.wins > 10 {
            flags.push(Flag::AsymmetricPayoff);
        }
        proof {
            let p = *performance;
            let rate: Seq<Flag> = if p.win_rate > EXTREME_WIN_RATE {
                seq![Flag::ExtremeWinRate]
            } else if p.win_rate > ELEVATED_WIN_RATE {
                seq![Flag::ElevatedWinRate]
            } else {
                seq![]
            };
            assert(f1 =~= rate);
            assert(flags@ =~= fired_flags(p));
        }
        let suspicious = flags.len() > 0;
        (suspicious, flags)
    }
}

/// Win-rate boundary: with enough settled positions, a win rate above 65%
/// and at most 75% gives the elevated reason and not the extreme one, and a
/// win rate above 75% gives the extreme reason and not the elevated one.
pub proof fn lemma_win_rate_boundary(p: WalletPerformance)
    requires
        p.resolved_positions >= MIN_RESOLVED_POSITIONS,
    ensures
        ELEVATED_WIN_RATE < p.win_rate <= EXTREME_WIN_RATE ==> classification(p).1.contains(Flag::ElevatedWinRate)
            && !classification(p).1.contains(Flag::ExtremeWinRate) && classification(p).0,
        p.win_rate > EXTREME_WIN_RATE ==> classification(p).1.contains(Flag::ExtremeWinRate)
            && !classification(p).1.contains(Flag::ElevatedWinRate) && classification(p).0,
{
    let f = classification(p).1;
    assert(f == fired_flags(p));
    if p.win_rate > ELEVATED_WIN_RATE {
        assert(f[0] == if p.win_rate > EXTREME_WIN_RATE { Flag::ExtremeWinRate } else { Flag::ElevatedWinRate });
        assert forall|i: int| 1 <= i < f.len() implies f[i] != Flag::ExtremeWinRate && f[i] != Flag::ElevatedWinRate by {}
    }
}

} // verus!
