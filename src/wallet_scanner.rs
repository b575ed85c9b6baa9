//! Choosing which accounts to analyze, and which results to report.

use vstd::prelude::*;
use crate::models::WalletPerformance;

verus! {

/// Accounts with fewer trades in the sample are not analyzed.
pub const MIN_SAMPLE_TRADES: usize = 3;

/// A wallet and its number of trades in a sample.
pub struct WalletCount {
    pub wallet: String,
    pub trades: usize,
}

/// Index of `w` among the tallied wallets.
pub open spec fn tally_index(t: Seq<(Seq<char>, nat)>, w: Seq<char>) -> Option<int>
    decreases t.len(),
{
    if t.len() == 0 {
        None
    } else if t.last().0 == w {
        Some(t.len() - 1)
    } else {
        tally_index(t.drop_last(), w)
    }
}

/// Each distinct wallet of `ws` with its number of occurrences, in order of
/// first occurrence.
pub open spec fn tally(ws: Seq<Seq<char>>) -> Seq<(Seq<char>, nat)>
    decreases ws.len(),
{
    if ws.len() == 0 {
        Seq::empty()
    } else {
        let t = tally(ws.drop_last());
        let w = ws.last();
        match tally_index(t, w) {
            Some(i) => t.update(i, (w, t[i].1 + 1)),
            None => t.push((w, 1nat)),
        }
    }
}

/// Index of the first entry with the most trades among those with at least
/// [`MIN_SAMPLE_TRADES`].
pub open spec fn best_index(t: Seq<(Seq<char>, nat)>) -> Option<int>
    decreases t.len(),
{
    if t.len() == 0 {
        None
    } else {
        let b = best_index(t.drop_last());
        let c = t.last().1;
        if c >= MIN_SAMPLE_TRADES && (b is None || c > t[b->0].1) {
            Some(t.len() - 1)
        } else {
            b
        }
    }
}

/// Up to `k` eligible wallets, most trades first, earlier first among equals.
pub open spec fn ranked(t: Seq<(Seq<char>, nat)>, k: nat) -> Seq<Seq<char>>
    decreases k,
{
    if k == 0 {
        Seq::empty()
    } else {
        match best_index(t) {
            Some(i) => seq![t[i].0] + ranked(t.remove(i), (k - 1) as nat),
            None => Seq::empty(),
        }
    }
}

pub open spec fn wallets_view(ws: Seq<String>) -> Seq<Seq<char>> {
    ws.map_values(|w: String| w@)
}

pub open spec fn counts_view(cs: Seq<WalletCount>) -> Seq<(Seq<char>, nat)> {
    cs.map_values(|c: WalletCount| (c.wallet@, c.trades as nat))
}

proof fn lemma_tally_index(t: Seq<(Seq<char>, nat)>, w: Seq<char>)
    ensures
        tally_index(t, w) matches Some(i) ==> 0 <= i < t.len() && t[i].0 == w,
        tally_index(t, w) is None ==> forall|k: int| 0 <= k < t.len() ==> t[k].0 != w,
    decreases t.len(),
{
    if t.len() > 0 {
        lemma_tally_index(t.drop_last(), w);
        if tally_index(t, w) is None {
            assert forall|k: int| 0 <= k < t.len() implies t[k].0 != w by {
                if k < t.len() - 1 {
                    assert(t.drop_last()[k] == t[k]);
                }
            }
        }
    }
}

/// Index of the entry for `w`.
fn find_tally(counts: &Vec<WalletCount>, w: &String) -> (r: Option<usize>)
    ensures
        match r {
            Some(k) => k < counts@.len() && tally_index(counts_view(counts@), w@) == Some(k as int),
            None => tally_index(counts_view(counts@), w@) is None,
        },
{
    let ghost t = counts_view(counts@);
    let mut j: usize = counts.len();
    assert(t.take(j as int) =~= t);
    while j > 0
        invariant
            j <= counts@.len(),
            t == counts_view(counts@),
            tally_index(t, w@) == tally_index(t.take(j as int), w@),
        decreases j,
    {
        let ghost pre = t.take(j as int);
        assert(pre.drop_last() =~= t.take(j - 1));
        assert(pre.last() == (counts@[j - 1].wallet@, counts@[j - 1].trades as nat));
        if counts[j - 1].wallet == *w {
            return Some(j - 1);
        }
        j = j - 1;
    }
    assert(t.take(0) =~= Seq::<(Seq<char>, nat)>::empty());
    None
}

proof fn lemma_tally_len(ws: Seq<Seq<char>>)
    ensures
        tally(ws).len() <= ws.len(),
        forall|k: int| 0 <= k < tally(ws).len() ==> #[trigger] tally(ws)[k].1 <= ws.len(),
    decreases ws.len(),
{
    if ws.len() > 0 {
        lemma_tally_len(ws.drop_last());
        lemma_tally_index(tally(ws.drop_last()), ws.last());
    }
}

/// Trade counts per wallet of a sample of trade owners.
pub fn count_wallets(owners: &Vec<String>) -> (r: Vec<WalletCount>)
    ensures
        counts_view(r@) == tally(wallets_view(owners@)),
{
    let ghost ws = wallets_view(owners@);
    let mut counts: Vec<WalletCount> = Vec::new();
    let mut i: usize = 0;
    while i < owners.len()
        invariant
            i <= owners@.len(),
            ws == wallets_view(owners@),
            counts_view(counts@) == tally(ws.take(i as int)),
        decreases owners@.len() - i,
    {
        let w = &owners[i];
        let ghost before = counts_view(counts@);
        assert(ws.take(i + 1).drop_last() =~= ws.take(i as int));
        assert(ws.take(i + 1).last() == w@);
        proof {
            lemma_tally_len(ws.take(i as int));
            lemma_tally_index(before, w@);
        }
        let found = find_tally(&counts, w);
        match found {
            Some(k) => {
                assert(tally_index(before, w@) == Some(k as int));
                assert(counts@[k as int].trades <= i);
                counts[k].trades = counts[k].trades + 1;
                assert(counts_view(counts@) =~= before.update(k as int, (w@, before[k as int].1 + 1)));
            },
            None => {
                counts.push(WalletCount { wallet: w.clone(), trades: 1 });
                assert(counts_view(counts@) =~= before.push((w@, 1nat)));
            },
        }
        i = i + 1;
    }
    assert(ws.take(owners@.len() as int) =~= ws);
    counts
}

/// The wallets to analyze from a sample of trade owners: those with at
/// least [`MIN_SAMPLE_TRADES`] trades, most trades first (earlier first
/// among equal counts), at most `max_wallets` of them.
pub fn select_active_wallets(owners: &Vec<String>, max_wallets: usize) -> (r: Vec<String>)
    ensures
        wallets_view(r@) == ranked(tally(wallets_view(owners@)), max_wallets as nat),
{
    let mut counts = count_wallets(owners);
    let mut picked: Vec<String> = Vec::new();
    let mut k: usize = 0;
    let ghost full = counts_view(counts@);
    while k < max_wallets
        invariant
            k <= max_wallets,
            full == tally(wallets_view(owners@)),
            ranked(full, max_wallets as nat) == wallets_view(picked@) + ranked(counts_view(counts@), (max_wallets - k) as nat),
        decreases max_wallets - k,
    {
        let ghost t = counts_view(counts@);
        match best_count(&counts) {
            Some(i) => {
                let c = counts.remove(i);
                assert(counts_view(counts@) =~= t.remove(i as int));
                let ghost before = wallets_view(picked@);
                picked.push(c.wallet);
                assert(wallets_view(picked@) =~= before.push(t[i as int].0));
                assert(ranked(t, (max_wallets - k) as nat) == seq![t[i as int].0] + ranked(t.remove(i as int), (max_wallets - k - 1) as nat));
                assert(before + ranked(t, (max_wallets - k) as nat) =~= wallets_view(picked@) + ranked(counts_view(counts@), (max_wallets - (k + 1)) as nat));
            },
            None => {
                assert(ranked(t, (max_wallets - k) as nat) =~= Seq::empty());
                assert(wallets_view(picked@) + ranked(t, (max_wallets - k) as nat) =~= wallets_view(picked@));
                return picked;
            },
        }
        k = k + 1;
    }
    assert(wallets_view(picked@) + ranked(counts_view(counts@), 0) =~= wallets_view(picked@));
    picked
}

/// Index of the first entry with the most trades among the eligible ones.
fn best_count(counts: &Vec<WalletCount>) -> (r: Option<usize>)
    ensures
        match r {
            Some(i) => i < counts@.len() && best_index(counts_view(counts@)) == Some(i as int),
            None => best_index(counts_view(counts@)) is None,
        },
{
    let ghost t = counts_view(counts@);
    let mut best: Option<usize> = None;
    let mut i: usize = 0;
    while i < counts.len()
        invariant
            i <= counts@.len(),
            t == counts_view(counts@),
            match best {
                Some(b) => b < i && best_index(t.take(i as int)) == Some(b as int),
                None => best_index(t.take(i as int)) is None,
            },
        decreases counts@.len() - i,
    {
        let ghost pre = t.take(i + 1);
        assert(pre.drop_last() =~= t.take(i as int));
        assert(pre.last() == t[i as int]);
        let c = counts[i].trades;
        let better = match best {
            Some(b) => c > counts[b].trades,
            None => true,
        };
        if c >= MIN_SAMPLE_TRADES && better {
            best = Some(i);
        }
        i = i + 1;
    }
    assert(t.take(counts@.len() as int) =~= t);
    best
}

/// Whether an analyzed account is worth reporting: at least ten settled
/// positions, a return above 10% and a net profit above $50.
pub fn is_profitable(performance: &WalletPerformance) -> (r: bool)
    ensures
        r == (performance.resolved_positions >= 10 && performance.roi > 100_000
            && performance.net_profit > 50_000_000),
{
    performance.resolved_positions >= 10 && performance.roi > 100_000 && performance.net_profit > 50_000_000
}

/// The wallets of `wallets` that are not in `scanned`, in order.
pub fn unscanned_wallets(wallets: &Vec<String>, scanned: &Vec<String>) -> (r: Vec<String>)
    ensures
        wallets_view(r@) == wallets_view(wallets@).filter(|w: Seq<char>| !wallets_view(scanned@).contains(w)),
{
    let ghost ws = wallets_view(wallets@);
    let ghost ss = wallets_view(scanned@);
    let mut out: Vec<String> = Vec::new();
    let mut i: usize = 0;
    while i < wallets.len()
        invariant
            i <= wallets@.len(),
            ws == wallets_view(wallets@),
            ss == wallets_view(scanned@),
            wallets_view(out@) == ws.take(i as int).filter(|w: Seq<char>| !ss.contains(w)),
        decreases wallets@.len() - i,
    {
        let w = &wallets[i];
        let mut seen = false;
        let mut j: usize = 0;
        while j < scanned.len()
            invariant
                j <= scanned@.len(),
                ss == wallets_view(scanned@),
                seen == exists|k: int| 0 <= k < j && ss[k] == w@,
            decreases scanned@.len() - j,
        {
            assert(ss[j as int] == scanned@[j as int]@);
            if scanned[j] == *w {
                seen = true;
            }
            proof {
                if ss[j as int] == w@ {
                    assert(0 <= j < j + 1 && ss[j as int] == w@);
                }
            }
            j = j + 1;
        }
        assert(seen == ss.contains(w@));
        let ghost before = wallets_view(out@);
        if !seen {
            out.push(w.clone());
            assert(wallets_view(out@) =~= before.push(w@));
        }
        proof {
            reveal(Seq::filter);
            assert(ws.take(i + 1).drop_last() =~= ws.take(i as int));
            assert(ws.take(i + 1).last() == w@);
        }
        i = i + 1;
    }
    assert(ws.take(wallets@.len() as int) =~= ws);
    out
}

} // verus!
