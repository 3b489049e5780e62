//! Offset/limit windows over an ordered result.

use vstd::prelude::*;

verus! {

/// The number of results on a page when none is asked for.
pub const DEFAULT_PER_PAGE: u64 = 50;

/// A page request: how many results, and how many to skip.
#[derive(Debug, Clone, Copy, PartialEq, Eq)]
pub struct Pagination {
    /// Number of results per page.
    pub per_page: Option<u64>,
    /// Number of results of the earlier pages, to skip.
    pub last: Option<u64>,
}

impl Pagination {
    pub open spec fn spec_per_page(&self) -> nat {
        match self.per_page {
            Some(n) => n as nat,
            None => DEFAULT_PER_PAGE as nat,
        }
    }

    pub open spec fn spec_offset(&self) -> nat {
        match self.last {
            Some(n) => n as nat,
            None => 0,
        }
    }

    /// The page size asked for, or the default.
    pub fn per_page(&self) -> (r: u64)
        ensures
            r as nat == self.spec_per_page(),
    {
        match self.per_page {
            Some(n) => n,
            None => DEFAULT_PER_PAGE,
        }
    }

    /// The number of results to skip, zero unless asked for.
    pub fn offset(&self) -> (r: u64)
        ensures
            r as nat == self.spec_offset(),
    {
        match self.last {
            Some(n) => n,
            None => 0,
        }
    }
}

pub open spec fn min_nat(a: nat, b: nat) -> nat {
    if a <= b {
        a
    } else {
        b
    }
}

/// The window of `s` that skips `offset` elements and holds at most `per_page`.
pub open spec fn page<T>(s: Seq<T>, per_page: nat, offset: nat) -> Seq<T> {
    s.subrange(min_nat(offset, s.len()) as int, min_nat(offset + per_page, s.len()) as int)
}

/// The window of `v` that the pagination asks for.
pub fn paginate<T: Copy>(v: &Vec<T>, p: &Pagination) -> (r: Vec<T>)
    ensures
        r@ == page(v@, p.spec_per_page(), p.spec_offset()),
{
    let per_page = p.per_page();
    let offset = p.offset();
    let len = v.len();
    let start: usize = if (offset as u128) < (len as u128) { offset as usize } else { len };
    let end: usize = if (offset as u128) + (per_page as u128) < (len as u128) {
        (offset + per_page) as usize
    } else {
        len
    };
    let mut r: Vec<T> = Vec::new();
    let mut i: usize = start;
    while i < end
        invariant
            start <= i <= end,
            end <= v@.len(),
            r@ == v@.subrange(start as int, i as int),
        decreases end - i,
    {
        r.push(v[i]);
        i = i + 1;
        assert(r@ =~= v@.subrange(start as int, i as int));
    }
    r
}

/// A page never holds more than its size, and two consecutive pages of size `n`
/// together are the first `2n` results.
pub proof fn lemma_pages_concatenate<T>(s: Seq<T>, n: nat)
    ensures
        page(s, n, 0).len() <= n,
        page(s, n, n).len() <= n,
        page(s, n, 0) + page(s, n, n) == s.take(min_nat(2 * n, s.len()) as int),
{
    assert(page(s, n, 0) + page(s, n, n) =~= s.take(min_nat(2 * n, s.len()) as int));
}

/// Any page holds at most its size.
pub proof fn lemma_page_bound<T>(s: Seq<T>, per_page: nat, offset: nat)
    ensures
        page(s, per_page, offset).len() <= per_page,
{
}

} // verus!
