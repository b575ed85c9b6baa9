//! Decisions of a plain sequential page-by-page fetch: one page at a time,
//! until a page comes back short or a record target is met.

use vstd::prelude::*;

verus! {

/// Offset, limit and progress of a sequential fetch.
pub struct SequentialPager {
    pub page_limit: usize,
    /// Stop once this many records are collected.
    pub target: Option<usize>,
    pub offset: usize,
    pub collected: usize,
    pub done: bool,
}

/// The size of the next page to ask for: a full page, or what is left of the target.
pub open spec fn request_size(p: SequentialPager) -> int {
    match p.target {
        Some(t) => if t - p.collected < p.page_limit { t - p.collected } else { p.page_limit as int },
        None => p.page_limit as int,
    }
}

/// Whether a fetch has more to ask for.
pub open spec fn wants_more(p: SequentialPager) -> bool {
    !p.done && match p.target {
        Some(t) => p.collected < t,
        None => true,
    }
}

impl SequentialPager {
    pub fn new(page_limit: usize, target: Option<usize>) -> (r: Self)
        requires
            page_limit > 0,
        ensures
            r.page_limit == page_limit && r.target == target,
            r.offset == 0 && r.collected == 0 && !r.done,
    {
        SequentialPager { page_limit, target, offset: 0, collected: 0, done: false }
    }

    /// The (offset, limit) of the next request, or None when the fetch is over.
    pub fn next_request(&self) -> (r: Option<(usize, usize)>)
        ensures
            wants_more(*self) ==> r == Some((self.offset, request_size(*self) as usize)),
            !wants_more(*self) ==> r is None,
    {
        if self.done {
            return None;
        }
        match self.target {
            Some(t) => {
                if self.collected >= t {
                    None
                } else {
                    let left = t - self.collected;
                    Some((self.offset, if left < self.page_limit { left } else { self.page_limit }))
                }
            },
            None => Some((self.offset, self.page_limit)),
        }
    }

    /// Records that the request for `requested` records gave `count`. A
    /// short page ends the fetch; otherwise the offset moves on by the
    /// request size. An offset that cannot advance ends the fetch too.
    pub fn on_page(&mut self, requested: usize, count: usize)
        requires
            old(self).collected + count <= usize::MAX,
        ensures
            final(self).page_limit == old(self).page_limit,
            final(self).target == old(self).target,
            final(self).collected == old(self).collected + count,
            final(self).done == (old(self).done || count < requested || old(self).offset + requested > usize::MAX),
            !final(self).done ==> final(self).offset == old(self).offset + requested,
            final(self).done ==> final(self).offset == old(self).offset,
    {
        self.collected = self.collected + count;
        if count < requested || self.offset > usize::MAX - requested {
            self.done = true;
        } else if !self.done {
            self.offset = self.offset + requested;
        }
    }
}

} // verus!
