//! Decisions of the bounded concurrent paginator. A page-offset API gives
//! no total count: the only end-of-data signal is a page that is not full.
//! The caller fetches the first page itself, then runs a loop that hands
//! each page result to [`Paginator::on_page`] and fetches the page it names;
//! the paginator keeps the frontier, the pages in flight and the count of
//! records collected.

use vstd::prelude::*;

verus! {

/// How a record kind is paged.
#[derive(Clone, Copy, Debug)]
pub struct PageConfig {
    /// Records per full page.
    pub page_size: usize,
    /// Most pages in flight at once.
    pub max_concurrent: usize,
    /// Stop once this many records are collected, and keep no more.
    pub record_cap: Option<usize>,
}

impl PageConfig {
    pub open spec fn valid(&self) -> bool {
        &&& self.page_size > 0
        &&& 0 < self.max_concurrent < usize::MAX
    }

    /// Open markets: pages of 100, twenty in flight, no cap.
    pub fn active_markets() -> (r: Self)
        ensures
            r.valid(),
            r.page_size == 100 && r.max_concurrent == 20 && r.record_cap is None,
    {
        PageConfig { page_size: 100, max_concurrent: 20, record_cap: None }
    }

    /// Resolved markets: pages of 100, ten in flight, optional cap.
    pub fn resolved_markets(record_cap: Option<usize>) -> (r: Self)
        ensures
            r.valid(),
            r.page_size == 100 && r.max_concurrent == 10 && r.record_cap == record_cap,
    {
        PageConfig { page_size: 100, max_concurrent: 10, record_cap }
    }
}

/// What fetching one page gave.
#[derive(Clone, Copy, Debug, PartialEq, Eq, Structural)]
pub enum PageResult {
    /// The page held this many records.
    Records(usize),
    /// Transport failure or unreadable body; counts as an empty page that is not full.
    Failed,
}

/// What the caller does with a page result.
#[derive(Clone, Copy, Debug, PartialEq, Eq, Structural)]
pub struct PageDecision {
    /// Append the page's records to the result.
    pub keep: bool,
    /// Fetch this page next.
    pub fetch: Option<usize>,
}

/// Mathematical state of a [`Paginator`].
pub struct PagerState {
    /// The frontier: pages below it have been dispatched, page 0 included.
    pub next_page: nat,
    /// Pages dispatched and not yet reported.
    pub in_flight: Seq<nat>,
    /// Records collected so far.
    pub collected: nat,
    /// The record cap was reached: the results still in flight are dropped.
    pub stopped: bool,
}

/// Index of the first `x` in `s`.
pub open spec fn first_index(s: Seq<nat>, x: nat) -> Option<int>
    decreases s.len(),
{
    if s.len() == 0 {
        None
    } else if s[0] == x {
        Some(0)
    } else {
        match first_index(s.drop_first(), x) {
            Some(i) => Some(i + 1),
            None => None,
        }
    }
}

/// State after the first page, of `first` records. A first page that is
/// not full, or that reaches the cap, ends the fetch. Otherwise pages
/// `1..=max_concurrent` are dispatched.
pub open spec fn start_state(cfg: PageConfig, first: nat) -> PagerState {
    if first < cfg.page_size || (cfg.record_cap matches Some(c) && first >= c) {
        PagerState { next_page: 1, in_flight: Seq::empty(), collected: first, stopped: false }
    } else {
        PagerState {
            next_page: (cfg.max_concurrent + 1) as nat,
            in_flight: Seq::new(cfg.max_concurrent as nat, |i: int| (i + 1) as nat),
            collected: first,
            stopped: false,
        }
    }
}

/// Whether `page` is a result that the state accepts.
pub open spec fn accepts(s: PagerState, page: nat) -> bool {
    !s.stopped && first_index(s.in_flight, page) is Some
}

/// State after the result of `page`. A result for a page not in flight, or
/// after the cap was reached, changes nothing. A failure only retires the
/// page. Records are counted; reaching the cap stops the fetch; a full page
/// dispatches the frontier page and advances the frontier.
pub open spec fn page_step(cfg: PageConfig, s: PagerState, page: nat, result: PageResult) -> PagerState {
    if !accepts(s, page) {
        s
    } else {
        let rest = s.in_flight.remove(first_index(s.in_flight, page)->0);
        match result {
            PageResult::Failed => PagerState { in_flight: rest, ..s },
            PageResult::Records(n) => {
                let collected = (s.collected + n) as nat;
                if cfg.record_cap matches Some(c) && collected >= c {
                    PagerState { in_flight: rest, collected, stopped: true, ..s }
                } else if n == cfg.page_size && s.next_page < usize::MAX {
                    PagerState {
                        next_page: s.next_page + 1,
                        in_flight: rest.push(s.next_page),
                        collected,
                        stopped: false,
                    }
                } else {
                    PagerState { in_flight: rest, collected, ..s }
                }
            },
        }
    }
}

/// The fetch is over: nothing is in flight, or the cap was reached.
pub open spec fn finished(s: PagerState) -> bool {
    s.stopped || s.in_flight.len() == 0
}

/// How many of the collected records the result holds.
pub open spec fn kept(cfg: PageConfig, s: PagerState) -> nat {
    match cfg.record_cap {
        Some(c) => if s.collected < c { s.collected } else { c as nat },
        None => s.collected,
    }
}

/// State after the page results `events`, in order.
pub open spec fn run(cfg: PageConfig, s: PagerState, events: Seq<(nat, PageResult)>) -> PagerState
    decreases events.len(),
{
    if events.len() == 0 {
        s
    } else {
        let e = events.last();
        page_step(cfg, run(cfg, s, events.drop_last()), e.0, e.1)
    }
}

/// Frontier, pages in flight and collected count of one paged fetch.
pub struct Paginator {
    config: PageConfig,
    next_page: usize,
    in_flight: Vec<usize>,
    collected: usize,
    stopped: bool,
}

impl View for Paginator {
    type V = PagerState;

    closed spec fn view(&self) -> PagerState {
        PagerState {
            next_page: self.next_page as nat,
            in_flight: self.in_flight@.map_values(|p: usize| p as nat),
            collected: self.collected as nat,
            stopped: self.stopped,
        }
    }
}

impl Paginator {
    pub closed spec fn spec_config(&self) -> PageConfig {
        self.config
    }

    /// Starts the fetch after the first page, which held `first_count`
    /// records; returns the pages to fetch.
    pub fn start(config: PageConfig, first_count: usize) -> (r: (Paginator, Vec<usize>))
        requires
            config.valid(),
        ensures
            r.0@ == start_state(config, first_count as nat),
            r.0.spec_config() == config,
            r.1@.map_values(|p: usize| p as nat) == r.0@.in_flight,
    {
        let mut in_flight: Vec<usize> = Vec::new();
        assert(in_flight@.map_values(|p: usize| p as nat) =~= Seq::new(0, |k: int| (k + 1) as nat));
        assert(in_flight@.map_values(|p: usize| p as nat) =~= Seq::empty());
        let mut next_page: usize = 1;
        let capped = match config.record_cap {
            Some(c) => first_count >= c,
            None => false,
        };
        if first_count >= config.page_size && !capped {
            let mut i: usize = 0;
            while i < config.max_concurrent
                invariant
                    config.valid(),
                    i <= config.max_concurrent,
                    in_flight@.map_values(|p: usize| p as nat) == Seq::new(i as nat, |k: int| (k + 1) as nat),
                decreases config.max_concurrent - i,
            {
                let ghost before = in_flight@;
                in_flight.push(i + 1);
                assert(in_flight@ == before.push((i + 1) as usize));
                assert(in_flight@.map_values(|p: usize| p as nat) =~= before.map_values(|p: usize| p as nat).push((i + 1) as nat));
                assert(in_flight@.map_values(|p: usize| p as nat) =~= Seq::new((i + 1) as nat, |k: int| (k + 1) as nat));
                i = i + 1;
            }
            next_page = config.max_concurrent + 1;
        }
        let pages = copy_pages(&in_flight);
        let p = Paginator { config, next_page, in_flight, collected: first_count, stopped: false };
        assert(p@ =~= start_state(config, first_count as nat));
        (p, pages)
    }

    /// Takes the result of `page` and says whether to keep its records and
    /// which page to fetch next.
    pub fn on_page(&mut self, page: usize, result: PageResult) -> (d: PageDecision)
        requires
            result matches PageResult::Records(n) ==> old(self)@.collected + n <= usize::MAX,
        ensures
            final(self)@ == page_step(old(self).spec_config(), old(self)@, page as nat, result),
            final(self).spec_config() == old(self).spec_config(),
            d.keep == accepts(old(self)@, page as nat),
            d.fetch == (if final(self)@.next_page > old(self)@.next_page {
                Some(old(self)@.next_page as usize)
            } else {
                None::<usize>
            }),
    {
        let ghost pages = self.in_flight@.map_values(|p: usize| p as nat);
        let idx = if self.stopped { None } else { find_page(&self.in_flight, page) };
        match idx {
            None => PageDecision { keep: false, fetch: None },
            Some(i) => {
                self.in_flight.remove(i);
                assert(self.in_flight@.map_values(|p: usize| p as nat) =~= pages.remove(i as int));
                match result {
                    PageResult::Failed => PageDecision { keep: true, fetch: None },
                    PageResult::Records(n) => {
                        self.collected = self.collected + n;
                        let capped = match self.config.record_cap {
                            Some(c) => self.collected >= c,
                            None => false,
                        };
                        if capped {
                            self.stopped = true;
                            PageDecision { keep: true, fetch: None }
                        } else if n == self.config.page_size && self.next_page < usize::MAX {
                            let fetch = self.next_page;
                            self.in_flight.push(fetch);
                            self.next_page = fetch + 1;
                            assert(self.in_flight@.map_values(|p: usize| p as nat) =~= pages.remove(i as int).push(
                                fetch as nat,
                            ));
                            PageDecision { keep: true, fetch: Some(fetch) }
                        } else {
                            PageDecision { keep: true, fetch: None }
                        }
                    },
                }
            },
        }
    }

    /// Whether the fetch is over.
    pub fn is_finished(&self) -> (r: bool)
        ensures
            r == finished(self@),
    {
        self.stopped || self.in_flight.len() == 0
    }

    /// How many of the collected records the result keeps.
    pub fn records_to_keep(&self) -> (r: usize)
        ensures
            r == kept(self.spec_config(), self@),
    {
        match self.config.record_cap {
            Some(c) => if self.collected < c { self.collected } else { c },
            None => self.collected,
        }
    }
}

fn copy_pages(v: &Vec<usize>) -> (r: Vec<usize>)
    ensures
        r@ == v@,
{
    let mut r: Vec<usize> = Vec::new();
    let mut i: usize = 0;
    while i < v.len()
        invariant
            i <= v@.len(),
            r@ =~= v@.take(i as int),
        decreases v@.len() - i,
    {
        r.push(v[i]);
        i = i + 1;
    }
    assert(v@.take(v@.len() as int) =~= v@);
    r
}

proof fn lemma_first_index_found(s: Seq<nat>, x: nat, j: int)
    requires
        0 <= j < s.len(),
        s[j] == x,
        forall|k: int| 0 <= k < j ==> s[k] != x,
    ensures
        first_index(s, x) == Some(j),
    decreases j,
{
    if j > 0 {
        let t = s.drop_first();
        assert forall|k: int| 0 <= k < j - 1 implies t[k] != x by {
            assert(t[k] == s[k + 1]);
        }
        lemma_first_index_found(t, x, j - 1);
    }
}

proof fn lemma_first_index_absent(s: Seq<nat>, x: nat)
    requires
        forall|k: int| 0 <= k < s.len() ==> s[k] != x,
    ensures
        first_index(s, x) is None,
    decreases s.len(),
{
    if s.len() > 0 {
        let t = s.drop_first();
        assert forall|k: int| 0 <= k < t.len() implies t[k] != x by {
            assert(t[k] == s[k + 1]);
        }
        lemma_first_index_absent(t, x);
    }
}

/// Position of the first `page` in `pages`.
fn find_page(pages: &Vec<usize>, page: usize) -> (r: Option<usize>)
    ensures
        match r {
            Some(i) => i < pages@.len() && first_index(pages@.map_values(|p: usize| p as nat), page as nat) == Some(i as int),
            None => first_index(pages@.map_values(|p: usize| p as nat), page as nat) is None,
        },
{
    let ghost s = pages@.map_values(|p: usize| p as nat);
    let mut i: usize = 0;
    while i < pages.len()
        invariant
            i <= pages@.len(),
            s == pages@.map_values(|p: usize| p as nat),
            forall|k: int| 0 <= k < i ==> s[k] != page as nat,
        decreases pages@.len() - i,
    {
        if pages[i] == page {
            proof {
                lemma_first_index_found(s, page as nat, i as int);
            }
            return Some(i);
        }
        i = i + 1;
    }
    proof {
        lemma_first_index_absent(s, page as nat);
    }
    None
}

/// Facts behind the dispatch bound, with `full` the number of full pages
/// accepted after the first.
spec fn capped_run_facts(cfg: PageConfig, s: PagerState, full: nat) -> bool {
    let p = cfg.page_size as int;
    let c = cfg.max_concurrent as int;
    let cap = cfg.record_cap->0 as int;
    ||| s.next_page == 1 && s.in_flight.len() == 0
    ||| {
        &&& p * (s.next_page - c) < cap
        &&& s.next_page <= 1 + c + full
        &&& p * (1 + full) <= s.collected
    }
}

proof fn lemma_capped_run(cfg: PageConfig, first: nat, events: Seq<(nat, PageResult)>) -> (full: nat)
    requires
        cfg.valid(),
        cfg.record_cap is Some,
    ensures
        capped_run_facts(cfg, run(cfg, start_state(cfg, first), events), full),
    decreases events.len(),
{
    let p = cfg.page_size as int;
    let c = cfg.max_concurrent as int;
    let s0 = start_state(cfg, first);
    if events.len() == 0 {
        if s0.next_page != 1 {
            assert(p * (1 + 0) <= first) by (nonlinear_arith)
                requires
                    p <= first,
            ;
        }
        0
    } else {
        let full = lemma_capped_run(cfg, first, events.drop_last());
        let s = run(cfg, s0, events.drop_last());
        let e = events.last();
        let t = page_step(cfg, s, e.0, e.1);
        if s.next_page == 1 && s.in_flight.len() == 0 {
            assert(first_index(s.in_flight, e.0) is None);
            full
        } else if accepts(s, e.0) && e.1 == PageResult::Records(cfg.page_size) {
            let full2 = full + 1;
            assert(p * (1 + full2) == p * (1 + full) + p) by (nonlinear_arith)
                requires
                    full2 == full + 1,
            ;
            if t.next_page > s.next_page {
                assert(p * (t.next_page - c) <= p * (1 + full2)) by (nonlinear_arith)
                    requires
                        t.next_page - c <= 1 + full2,
                        p > 0,
                ;
            }
            full2
        } else {
            full
        }
    }
}

/// Dispatch bound: under a record cap, whatever the page results and the
/// order they come in, the pages dispatched, the first included, number at
/// most cap / page_size + max_concurrent.
pub proof fn lemma_dispatch_bound(cfg: PageConfig, first: nat, events: Seq<(nat, PageResult)>)
    requires
        cfg.valid(),
        cfg.record_cap is Some,
    ensures
        run(cfg, start_state(cfg, first), events).next_page * cfg.page_size
            <= cfg.record_cap->0 + cfg.max_concurrent * cfg.page_size,
{
    let full = lemma_capped_run(cfg, first, events);
    let s = run(cfg, start_state(cfg, first), events);
    let p = cfg.page_size as int;
    let c = cfg.max_concurrent as int;
    let cap = cfg.record_cap->0 as int;
    if s.next_page == 1 && s.in_flight.len() == 0 {
        assert(1 * p <= c * p) by (nonlinear_arith)
            requires
                c >= 1,
                p > 0,
        ;
    } else {
        assert(s.next_page * p <= cap + c * p) by (nonlinear_arith)
            requires
                p * (s.next_page - c) < cap,
        ;
    }
}

/// Records on page `j` of an API that holds `full_pages` full pages of
/// `page_size` records followed by one page of `tail` records.
pub open spec fn api_records(page_size: nat, full_pages: nat, tail: nat, j: nat) -> nat {
    if j < full_pages {
        page_size
    } else if j == full_pages {
        tail
    } else {
        0
    }
}

/// Result of fetching page `j` from that API when page `failing`, if any, always fails.
pub open spec fn api_result(page_size: nat, full_pages: nat, tail: nat, failing: Option<nat>, j: nat) -> PageResult {
    if failing == Some(j) {
        PageResult::Failed
    } else {
        PageResult::Records(api_records(page_size, full_pages, tail, j) as usize)
    }
}

/// The API's answers to the pages of `order`, in that order.
pub open spec fn api_events(
    page_size: nat,
    full_pages: nat,
    tail: nat,
    failing: Option<nat>,
    order: Seq<nat>,
) -> Seq<(nat, PageResult)> {
    order.map_values(|j: nat| (j, api_result(page_size, full_pages, tail, failing, j)))
}

/// Records that page `j` delivers.
spec fn delivered(page_size: nat, full_pages: nat, tail: nat, failing: Option<nat>, j: nat) -> nat {
    if failing == Some(j) { 0 } else { api_records(page_size, full_pages, tail, j) }
}

/// Records delivered by the pages below `d` that are not in `pending`.
spec fn sum_delivered(
    page_size: nat,
    full_pages: nat,
    tail: nat,
    failing: Option<nat>,
    d: nat,
    pending: Seq<nat>,
) -> nat
    decreases d,
{
    if d == 0 {
        0
    } else {
        let j = (d - 1) as nat;
        sum_delivered(page_size, full_pages, tail, failing, j, pending) + if pending.contains(j) {
            0
        } else {
            delivered(page_size, full_pages, tail, failing, j)
        }
    }
}

proof fn lemma_sum_delivered_change(
    page_size: nat,
    full_pages: nat,
    tail: nat,
    failing: Option<nat>,
    d: nat,
    s: Seq<nat>,
    t: Seq<nat>,
    j0: nat,
)
    requires
        forall|j: nat| j < d && j != j0 ==> s.contains(j) == t.contains(j),
        j0 < d ==> s.contains(j0) && !t.contains(j0),
    ensures
        sum_delivered(page_size, full_pages, tail, failing, d, t) == sum_delivered(page_size, full_pages, tail, failing, d, s)
            + if j0 < d { delivered(page_size, full_pages, tail, failing, j0) } else { 0 },
    decreases d,
{
    if d > 0 {
        lemma_sum_delivered_change(page_size, full_pages, tail, failing, (d - 1) as nat, s, t, j0);
    }
}

proof fn lemma_sum_delivered_total(page_size: nat, full_pages: nat, tail: nat, failing: Option<nat>, d: nat)
    requires
        d > full_pages,
    ensures
        sum_delivered(page_size, full_pages, tail, failing, d, Seq::empty()) == full_pages * page_size + tail
            - match failing {
            Some(f) => api_records(page_size, full_pages, tail, f) as int,
            None => 0int,
        },
    decreases d,
{
    if d == full_pages + 1 {
        lemma_sum_delivered_prefix(page_size, full_pages, tail, failing, full_pages);
    } else {
        lemma_sum_delivered_total(page_size, full_pages, tail, failing, (d - 1) as nat);
    }
}

proof fn lemma_sum_delivered_prefix(page_size: nat, full_pages: nat, tail: nat, failing: Option<nat>, d: nat)
    requires
        d <= full_pages,
    ensures
        sum_delivered(page_size, full_pages, tail, failing, d + 1, Seq::empty()) == d * page_size
            + api_records(page_size, full_pages, tail, d)
            - match failing {
            Some(f) => if f <= d { api_records(page_size, full_pages, tail, f) as int } else { 0int },
            None => 0int,
        },
    decreases d,
{
    let e = Seq::<nat>::empty();
    assert(!e.contains(d));
    assert(sum_delivered(page_size, full_pages, tail, failing, d + 1, e) == sum_delivered(
        page_size,
        full_pages,
        tail,
        failing,
        d,
        e,
    ) + delivered(page_size, full_pages, tail, failing, d));
    if d > 0 {
        let dm = (d - 1) as nat;
        lemma_sum_delivered_prefix(page_size, full_pages, tail, failing, dm);
        assert(dm + 1 == d);
        assert(api_records(page_size, full_pages, tail, dm) == page_size);
        assert(d * page_size == dm * page_size + page_size) by (nonlinear_arith)
            requires
                dm + 1 == d,
        ;
        let prev = sum_delivered(page_size, full_pages, tail, failing, d, e);
        assert(prev == dm * page_size + page_size - match failing {
            Some(f) => if f <= dm { api_records(page_size, full_pages, tail, f) as int } else { 0int },
            None => 0int,
        });
        match failing {
            Some(f) => {
                if f == d {
                    assert(delivered(page_size, full_pages, tail, failing, d) == 0);
                } else {
                    assert(delivered(page_size, full_pages, tail, failing, d) == api_records(page_size, full_pages, tail, d));
                }
            },
            None => {},
        }
    } else {
        assert(sum_delivered(page_size, full_pages, tail, failing, 0, e) == 0);
        assert(d * page_size == 0);
        if failing == Some(0nat) {
            assert(delivered(page_size, full_pages, tail, failing, d) == 0);
        }
    }
}

/// Facts behind completeness, for a run on the synthetic API without a
/// cap: `nonfull` counts the accepted pages that were not full, and
/// `failed_done` says whether the failing page has been reported.
spec fn complete_facts(
    cfg: PageConfig,
    full_pages: nat,
    tail: nat,
    failing: Option<nat>,
    s: PagerState,
    nonfull: nat,
    failed_done: bool,
) -> bool {
    let p = cfg.page_size as nat;
    let d = s.next_page;
    &&& !s.stopped
    &&& s.in_flight.no_duplicates()
    &&& forall|k: int| 0 <= k < s.in_flight.len() ==> 1 <= #[trigger] s.in_flight[k] < d
    &&& d >= usize::MAX || s.in_flight.len() + nonfull == cfg.max_concurrent
    &&& failing is None ==> !failed_done
    &&& failing matches Some(f) ==> (failed_done ==> !s.in_flight.contains(f) && f < d)
    &&& nonfull > (if failed_done { 1nat } else { 0 }) ==> d > full_pages
    &&& s.collected == sum_delivered(p, full_pages, tail, failing, d, s.in_flight)
}

proof fn lemma_remove_no_dup(s: Seq<nat>, i: int)
    requires
        s.no_duplicates(),
        0 <= i < s.len(),
    ensures
        s.remove(i).no_duplicates(),
        forall|x: nat| s.remove(i).contains(x) == (s.contains(x) && x != s[i]),
{
    let r = s.remove(i);
    assert forall|x: nat| r.contains(x) == (s.contains(x) && x != s[i]) by {
        if r.contains(x) {
            let k = choose|k: int| 0 <= k < r.len() && r[k] == x;
            if k < i {
                assert(s[k] == x);
            } else {
                assert(s[k + 1] == x);
            }
        }
        if s.contains(x) && x != s[i] {
            let k = choose|k: int| 0 <= k < s.len() && s[k] == x;
            if k < i {
                assert(r[k] == x);
            } else {
                assert(r[k - 1] == x);
            }
        }
    }
}

proof fn lemma_first_index_range(s: Seq<nat>, x: nat)
    ensures
        first_index(s, x) matches Some(i) ==> 0 <= i < s.len() && s[i] == x,
        first_index(s, x) is None ==> !s.contains(x),
    decreases s.len(),
{
    if s.len() > 0 {
        lemma_first_index_range(s.drop_first(), x);
        if first_index(s, x) is None {
            assert forall|k: int| 0 <= k < s.len() implies s[k] != x by {
                if k > 0 {
                    assert(s.drop_first()[k - 1] == s[k]);
                }
            }
        }
    }
}

proof fn lemma_complete_run(
    cfg: PageConfig,
    full_pages: nat,
    tail: nat,
    failing: Option<nat>,
    order: Seq<nat>,
) -> (r: (nat, bool))
    requires
        cfg.valid(),
        cfg.record_cap is None,
        full_pages >= 1,
        tail < cfg.page_size,
        failing matches Some(f) ==> f >= 1,
    ensures
        complete_facts(
            cfg,
            full_pages,
            tail,
            failing,
            run(cfg, start_state(cfg, cfg.page_size as nat), api_events(cfg.page_size as nat, full_pages, tail, failing, order)),
            r.0,
            r.1,
        ),
    decreases order.len(),
{
    let p = cfg.page_size as nat;
    let s0 = start_state(cfg, p);
    let events = api_events(p, full_pages, tail, failing, order);
    if order.len() == 0 {
        let c = cfg.max_concurrent as nat;
        let pending = s0.in_flight;
        assert forall|i: int, j: int| 0 <= i < pending.len() && 0 <= j < pending.len() && i != j implies pending[i] != pending[j] by {}
        assert forall|j: nat| 1 <= j <= c implies pending.contains(j) by {
            assert(pending[j - 1] == j);
        }
        lemma_sum_delivered_start(cfg, full_pages, tail, failing, (c + 1) as nat, pending);
        assert(complete_facts(cfg, full_pages, tail, failing, s0, 0, false));
        (0, false)
    } else {
        let init = order.drop_last();
        assert(api_events(p, full_pages, tail, failing, init) =~= events.drop_last());
        let (nonfull, failed_done) = lemma_complete_run(cfg, full_pages, tail, failing, init);
        let s = run(cfg, s0, events.drop_last());
        let j = order.last();
        assert(events.last() == (j, api_result(p, full_pages, tail, failing, j)));
        let t = page_step(cfg, s, j, api_result(p, full_pages, tail, failing, j));
        let d = s.next_page;
        lemma_first_index_range(s.in_flight, j);
        assert(run(cfg, s0, events) == t);
        if !accepts(s, j) {
            (nonfull, failed_done)
        } else {
            let i = first_index(s.in_flight, j)->0;
            let rest = s.in_flight.remove(i);
            lemma_remove_no_dup(s.in_flight, i);
            lemma_sum_delivered_change(p, full_pages, tail, failing, d, s.in_flight, rest, j);
            if failing == Some(j) {
                assert(complete_facts(cfg, full_pages, tail, failing, t, nonfull + 1, true));
                (nonfull + 1, true)
            } else {
                let n = api_records(p, full_pages, tail, j);
                if n == p && d < usize::MAX {
                    let pushed = rest.push(d);
                    assert forall|x: nat| x < d implies pushed.contains(x) == rest.contains(x) by {
                        if pushed.contains(x) {
                            let k = choose|k: int| 0 <= k < pushed.len() && pushed[k] == x;
                            if k < rest.len() {
                                assert(rest[k] == x);
                            }
                        }
                        if rest.contains(x) {
                            let k = choose|k: int| 0 <= k < rest.len() && rest[k] == x;
                            assert(pushed[k] == x);
                        }
                    }
                    assert(pushed[rest.len() as int] == d);
                    assert(!rest.contains(d)) by {
                        if rest.contains(d) {
                            let k = choose|k: int| 0 <= k < rest.len() && rest[k] == d;
                            assert(s.in_flight.contains(rest[k]));
                            let k2 = choose|k2: int| 0 <= k2 < s.in_flight.len() && s.in_flight[k2] == d;
                        }
                    }
                    lemma_sum_delivered_change(p, full_pages, tail, failing, (d + 1) as nat, pushed, rest, d);
                    lemma_sum_delivered_change(p, full_pages, tail, failing, d, rest, pushed, d);
                    assert forall|k: int| 0 <= k < pushed.len() implies 1 <= #[trigger] pushed[k] < d + 1 by {
                        if k < rest.len() {
                            assert(s.in_flight.contains(rest[k]));
                            let k2 = choose|k2: int| 0 <= k2 < s.in_flight.len() && s.in_flight[k2] == rest[k];
                        }
                    }
                    assert(pushed.no_duplicates()) by {
                        assert forall|a: int, b: int| 0 <= a < pushed.len() && 0 <= b < pushed.len() && a != b
                            implies pushed[a] != pushed[b] by {
                            if a < rest.len() && b < rest.len() {
                                assert(rest[a] != rest[b]);
                            } else if a < rest.len() {
                                assert(rest.contains(pushed[a]));
                            } else {
                                assert(rest.contains(pushed[b]));
                            }
                        }
                    }
                    assert(complete_facts(cfg, full_pages, tail, failing, t, nonfull, failed_done));
                    (nonfull, failed_done)
                } else if n == p {
                    assert forall|k: int| 0 <= k < rest.len() implies 1 <= #[trigger] rest[k] < d by {
                        assert(s.in_flight.contains(rest[k]));
                        let k2 = choose|k2: int| 0 <= k2 < s.in_flight.len() && s.in_flight[k2] == rest[k];
                    }
                    assert(complete_facts(cfg, full_pages, tail, failing, t, nonfull, failed_done));
                    (nonfull, failed_done)
                } else {
                    assert(s.in_flight[i] == j);
                    assert forall|k: int| 0 <= k < rest.len() implies 1 <= #[trigger] rest[k] < d by {
                        assert(s.in_flight.contains(rest[k]));
                        let k2 = choose|k2: int| 0 <= k2 < s.in_flight.len() && s.in_flight[k2] == rest[k];
                    }
                    assert(complete_facts(cfg, full_pages, tail, failing, t, nonfull + 1, failed_done));
                    (nonfull + 1, failed_done)
                }
            }
        }
    }
}

proof fn lemma_sum_delivered_start(cfg: PageConfig, full_pages: nat, tail: nat, failing: Option<nat>, d: nat, pending: Seq<nat>)
    requires
        cfg.valid(),
        full_pages >= 1,
        failing matches Some(f) ==> f >= 1,
        1 <= d,
        forall|j: nat| 1 <= j < d ==> pending.contains(j),
        !pending.contains(0),
    ensures
        sum_delivered(cfg.page_size as nat, full_pages, tail, failing, d, pending) == cfg.page_size,
    decreases d,
{
    let j = (d - 1) as nat;
    if d > 1 {
        lemma_sum_delivered_start(cfg, full_pages, tail, failing, j, pending);
        assert(pending.contains(j));
    } else {
        assert(!pending.contains(j));
        assert(sum_delivered(cfg.page_size as nat, full_pages, tail, failing, 0, pending) == 0);
    }
}

proof fn lemma_run_idle(cfg: PageConfig, s: PagerState, events: Seq<(nat, PageResult)>)
    requires
        s.in_flight.len() == 0,
    ensures
        run(cfg, s, events) == s,
    decreases events.len(),
{
    if events.len() > 0 {
        lemma_run_idle(cfg, s, events.drop_last());
    }
}

/// Records kept by a finished fetch on the synthetic API, with `failing`
/// never answered with records.
proof fn lemma_finished_total(cfg: PageConfig, full_pages: nat, tail: nat, failing: Option<nat>, order: Seq<nat>)
    requires
        cfg.valid(),
        cfg.record_cap is None,
        tail < cfg.page_size,
        full_pages < usize::MAX,
        failing matches Some(f) ==> f >= 1 && cfg.max_concurrent >= 2,
    ensures
        ({
            let p = cfg.page_size as nat;
            let s = run(
                cfg,
                start_state(cfg, api_records(p, full_pages, tail, 0)),
                api_events(p, full_pages, tail, failing, order),
            );
            finished(s) ==> kept(cfg, s) == full_pages * p + tail - match failing {
                Some(f) => api_records(p, full_pages, tail, f) as int,
                None => 0int,
            }
        }),
{
    let p = cfg.page_size as nat;
    let events = api_events(p, full_pages, tail, failing, order);
    if full_pages == 0 {
        let s0 = start_state(cfg, tail);
        lemma_run_idle(cfg, s0, events);
        assert(0 * p == 0);
    } else {
        let (nonfull, failed_done) = lemma_complete_run(cfg, full_pages, tail, failing, order);
        let s = run(cfg, start_state(cfg, p), events);
        if finished(s) {
            assert(s.next_page > full_pages);
            assert(s.in_flight =~= Seq::<nat>::empty());
            lemma_sum_delivered_total(p, full_pages, tail, failing, s.next_page);
        }
    }
}

/// Completeness: on an API that holds `full_pages` full pages followed by
/// one page of `tail` records, a fetch without a cap that has finished has
/// collected every record, whatever the concurrency limit and whatever
/// order the pages come back in; and it has finished once
/// `full_pages + max_concurrent - 1` results were accepted (see
/// [`lemma_pagination_ends`]).
pub proof fn lemma_pagination_complete(cfg: PageConfig, full_pages: nat, tail: nat, order: Seq<nat>)
    requires
        cfg.valid(),
        cfg.record_cap is None,
        tail < cfg.page_size,
        full_pages + cfg.max_concurrent < usize::MAX,
    ensures
        ({
            let p = cfg.page_size as nat;
            let s0 = start_state(cfg, api_records(p, full_pages, tail, 0));
            let events = api_events(p, full_pages, tail, None, order);
            let s = run(cfg, s0, events);
            &&& finished(s) ==> kept(cfg, s) == full_pages * p + tail
            &&& accepted_reports(cfg, s0, events) == full_pages + cfg.max_concurrent - 1 ==> kept(cfg, s)
                == full_pages * p + tail
        }),
{
    lemma_finished_total(cfg, full_pages, tail, None, order);
    lemma_pagination_ends(cfg, full_pages, tail, None, order);
}

/// Fault tolerance: on the same API, where one page after the first always
/// fails and at least two pages may be in flight, a fetch that has finished
/// has collected every record of the other pages and is not an error; it
/// has finished once `full_pages + max_concurrent - 1` results were accepted.
pub proof fn lemma_pagination_skips_failed_page(
    cfg: PageConfig,
    full_pages: nat,
    tail: nat,
    failing: nat,
    order: Seq<nat>,
)
    requires
        cfg.valid(),
        cfg.record_cap is None,
        cfg.max_concurrent >= 2,
        tail < cfg.page_size,
        full_pages + cfg.max_concurrent < usize::MAX,
        failing >= 1,
    ensures
        ({
            let p = cfg.page_size as nat;
            let s0 = start_state(cfg, api_records(p, full_pages, tail, 0));
            let events = api_events(p, full_pages, tail, Some(failing), order);
            let s = run(cfg, s0, events);
            let total = full_pages * p + tail - api_records(p, full_pages, tail, failing);
            &&& finished(s) ==> kept(cfg, s) == total
            &&& accepted_reports(cfg, s0, events) == full_pages + cfg.max_concurrent - 1 ==> kept(cfg, s) == total
        }),
{
    lemma_finished_total(cfg, full_pages, tail, Some(failing), order);
    lemma_pagination_ends(cfg, full_pages, tail, Some(failing), order);
}

/// How many of `events` the fetch accepted, that is, were results of pages
/// in flight before the cap was reached.
pub open spec fn accepted_reports(cfg: PageConfig, s: PagerState, events: Seq<(nat, PageResult)>) -> nat
    decreases events.len(),
{
    if events.len() == 0 {
        0
    } else {
        let prev = events.drop_last();
        accepted_reports(cfg, s, prev) + if accepts(run(cfg, s, prev), events.last().0) { 1nat } else { 0 }
    }
}

/// Number of pages in `s` at or past page `m`.
spec fn count_from(s: Seq<nat>, m: nat) -> nat
    decreases s.len(),
{
    if s.len() == 0 {
        0
    } else {
        count_from(s.drop_last(), m) + if s.last() >= m { 1nat } else { 0 }
    }
}

proof fn lemma_count_push(s: Seq<nat>, x: nat, m: nat)
    ensures
        count_from(s.push(x), m) == count_from(s, m) + if x >= m { 1nat } else { 0 },
{
    assert(s.push(x).drop_last() =~= s);
}

proof fn lemma_count_remove(s: Seq<nat>, i: int, m: nat)
    requires
        0 <= i < s.len(),
    ensures
        count_from(s.remove(i), m) + (if s[i] >= m { 1nat } else { 0 }) == count_from(s, m),
    decreases s.len(),
{
    if i == s.len() - 1 {
        assert(s.remove(i) =~= s.drop_last());
    } else {
        let t = s.drop_last();
        lemma_count_remove(t, i, m);
        assert(s.remove(i).drop_last() =~= t.remove(i));
        assert(s.remove(i).last() == s.last());
    }
}

proof fn lemma_count_le(s: Seq<nat>, m: nat)
    ensures
        count_from(s, m) <= s.len(),
    decreases s.len(),
{
    if s.len() > 0 {
        lemma_count_le(s.drop_last(), m);
    }
}

proof fn lemma_count_start(c: nat, m: nat)
    requires
        m >= 1,
    ensures
        count_from(Seq::new(c, |i: int| (i + 1) as nat), m) == if c + 1 >= m { (c + 1 - m) as nat } else { 0 },
    decreases c,
{
    if c > 0 {
        let s = Seq::new(c, |i: int| (i + 1) as nat);
        assert(s.drop_last() =~= Seq::new((c - 1) as nat, |i: int| (i + 1) as nat));
        lemma_count_start((c - 1) as nat, m);
    }
}

/// Facts behind termination, with `nonfull` the accepted pages that were not
/// full and `late` the accepted pages at or past `full_pages`.
spec fn ending_facts(
    cfg: PageConfig,
    full_pages: nat,
    s: PagerState,
    nonfull: nat,
    late: nat,
    accepted: nat,
) -> bool {
    let c = cfg.max_concurrent as int;
    let m = full_pages as int;
    let d = s.next_page as int;
    &&& s.in_flight.len() + nonfull == c
    &&& late <= nonfull
    &&& d >= m ==> d - m == count_from(s.in_flight, full_pages) + late
    &&& d < m ==> count_from(s.in_flight, full_pages) == 0 && late == 0
    &&& accepted + s.in_flight.len() + (m + c - d) == m + c - 1
    &&& d <= m + c
}

proof fn lemma_ending_run(cfg: PageConfig, full_pages: nat, tail: nat, failing: Option<nat>, order: Seq<nat>) -> (r: (
    nat,
    nat,
))
    requires
        cfg.valid(),
        cfg.record_cap is None,
        full_pages >= 1,
        full_pages + cfg.max_concurrent < usize::MAX,
        tail < cfg.page_size,
        failing matches Some(f) ==> f >= 1,
    ensures
        ({
            let p = cfg.page_size as nat;
            let s0 = start_state(cfg, p);
            let events = api_events(p, full_pages, tail, failing, order);
            ending_facts(cfg, full_pages, run(cfg, s0, events), r.0, r.1, accepted_reports(cfg, s0, events))
        }),
    decreases order.len(),
{
    let p = cfg.page_size as nat;
    let c = cfg.max_concurrent as nat;
    let m = full_pages;
    let s0 = start_state(cfg, p);
    let events = api_events(p, full_pages, tail, failing, order);
    if order.len() == 0 {
        lemma_count_start(c, m);
        (0, 0)
    } else {
        let init = order.drop_last();
        assert(api_events(p, full_pages, tail, failing, init) =~= events.drop_last());
        let (nonfull, late) = lemma_ending_run(cfg, full_pages, tail, failing, init);
        let _ = lemma_complete_run(cfg, full_pages, tail, failing, init);
        let s = run(cfg, s0, events.drop_last());
        let j = order.last();
        assert(events.last() == (j, api_result(p, full_pages, tail, failing, j)));
        let t = page_step(cfg, s, j, api_result(p, full_pages, tail, failing, j));
        let d = s.next_page;
        assert(run(cfg, s0, events) == t);
        lemma_first_index_range(s.in_flight, j);
        lemma_count_le(s.in_flight, m);
        if !accepts(s, j) {
            (nonfull, late)
        } else {
            let i = first_index(s.in_flight, j)->0;
            let rest = s.in_flight.remove(i);
            lemma_count_remove(s.in_flight, i, m);
            lemma_count_le(rest, m);
            assert(s.in_flight[i] == j);
            assert(j < d);
            if failing == Some(j) {
                if j >= m {
                    (nonfull + 1, late + 1)
                } else {
                    (nonfull + 1, late)
                }
            } else {
                let n = api_records(p, full_pages, tail, j);
                if n == p {
                    assert(j < m);
                    assert(d < usize::MAX);
                    lemma_count_push(rest, d, m);
                    lemma_count_le(rest.push(d), m);
                    (nonfull, late)
                } else {
                    assert(j >= m);
                    (nonfull + 1, late + 1)
                }
            }
        }
    }
}

/// Termination: on an API that holds `full_pages` full pages followed by one
/// page of `tail` records, with page `failing`, if any, always failing, a
/// fetch without a cap dispatches at most `full_pages + max_concurrent`
/// pages, the first included, and accepts at most `full_pages +
/// max_concurrent - 1` results, whatever order they come in. A result for
/// a page in flight is always accepted, so once that many are accepted —
/// every page sent has been reported — the fetch is finished.
pub proof fn lemma_pagination_ends(cfg: PageConfig, full_pages: nat, tail: nat, failing: Option<nat>, order: Seq<nat>)
    requires
        cfg.valid(),
        cfg.record_cap is None,
        full_pages + cfg.max_concurrent < usize::MAX,
        tail < cfg.page_size,
        failing matches Some(f) ==> f >= 1,
    ensures
        ({
            let p = cfg.page_size as nat;
            let s0 = start_state(cfg, api_records(p, full_pages, tail, 0));
            let events = api_events(p, full_pages, tail, failing, order);
            let s = run(cfg, s0, events);
            let accepted = accepted_reports(cfg, s0, events);
            &&& s.next_page <= full_pages + cfg.max_concurrent
            &&& accepted + s.in_flight.len() <= full_pages + cfg.max_concurrent - 1
            &&& accepted == full_pages + cfg.max_concurrent - 1 ==> finished(s)
            &&& !finished(s) ==> forall|page: nat| s.in_flight.contains(page) ==> accepts(s, page)
        }),
{
    let p = cfg.page_size as nat;
    let events = api_events(p, full_pages, tail, failing, order);
    let s0 = start_state(cfg, api_records(p, full_pages, tail, 0));
    let s = run(cfg, s0, events);
    if full_pages == 0 {
        lemma_run_idle(cfg, s0, events);
        lemma_accepted_idle(cfg, s0, events);
    } else {
        let _ = lemma_ending_run(cfg, full_pages, tail, failing, order);
    }
    assert forall|page: nat| !finished(s) && s.in_flight.contains(page) implies accepts(s, page) by {
        lemma_first_index_range(s.in_flight, page);
    }
}

proof fn lemma_accepted_idle(cfg: PageConfig, s: PagerState, events: Seq<(nat, PageResult)>)
    requires
        s.in_flight.len() == 0,
    ensures
        accepted_reports(cfg, s, events) == 0,
    decreases events.len(),
{
    if events.len() > 0 {
        lemma_accepted_idle(cfg, s, events.drop_last());
        lemma_run_idle(cfg, s, events.drop_last());
        lemma_first_index_range(s.in_flight, events.last().0);
    }
}

} // verus!
