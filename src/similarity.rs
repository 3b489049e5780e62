//! Ranking media by the Hamming distance between 64-bit perceptual hashes.

use vstd::prelude::*;
use crate::paging::{page, paginate, Pagination};

verus! {

/// The largest distance that counts as similar when none is asked for.
pub const DEFAULT_MAX_DISTANCE: u64 = 3;

/// The number of set bits.
pub open spec fn popcount(x: nat) -> nat
    decreases x,
{
    if x == 0 {
        0
    } else {
        (x % 2) + popcount(x / 2)
    }
}

pub open spec fn two_pow(k: nat) -> nat
    decreases k,
{
    if k == 0 {
        1
    } else {
        2 * two_pow((k - 1) as nat)
    }
}

/// The Hamming distance of two hashes: the bits in which they differ.
pub open spec fn distance_spec(a: u64, b: u64) -> nat {
    popcount((a ^ b) as nat)
}

proof fn lemma_popcount_bound(x: nat, k: nat)
    requires
        x < two_pow(k),
    ensures
        popcount(x) <= k,
    decreases k,
{
    if x > 0 {
        assert(k > 0);
        lemma_popcount_bound(x / 2, (k - 1) as nat);
    }
}

/// No two hashes differ in more than 64 bits.
pub proof fn lemma_distance_bound(a: u64, b: u64)
    ensures
        distance_spec(a, b) <= 64,
{
    reveal_with_fuel(two_pow, 65);
    assert(two_pow(64) == 18446744073709551616);
    lemma_popcount_bound((a ^ b) as nat, 64);
}

/// The Hamming distance of two hashes.
pub fn distance(a: u64, b: u64) -> (r: u64)
    ensures
        r as nat == distance_spec(a, b),
        r <= 64,
{
    proof {
        lemma_distance_bound(a, b);
    }
    let total: u64 = a ^ b;
    let mut x: u64 = total;
    let mut c: u64 = 0;
    while x != 0
        invariant
            c + popcount(x as nat) == popcount(total as nat),
            popcount(total as nat) <= 64,
        decreases x,
    {
        c = c + x % 2;
        x = x / 2;
    }
    c
}

/// A media item that a similarity query looks at: its id and its hash, if it has one.
#[derive(Debug, Clone, Copy, PartialEq, Eq)]
pub struct Candidate {
    pub id: usize,
    pub hash: Option<u64>,
}

/// The ids of the candidates at exactly distance `d` from `reference`, in their order.
/// A candidate without a hash is never at any distance.
pub open spec fn at_distance(c: Seq<Candidate>, reference: u64, d: nat) -> Seq<(usize, u64)>
    decreases c.len(),
{
    if c.len() == 0 {
        Seq::empty()
    } else {
        let rest = at_distance(c.drop_last(), reference, d);
        match c.last().hash {
            Some(h) => if distance_spec(h, reference) == d {
                rest.push((c.last().id, d as u64))
            } else {
                rest
            },
            None => rest,
        }
    }
}

/// The candidates within distance `max` of `reference`: nearest first, and at
/// equal distance in the order of `c`.
pub open spec fn ranked(c: Seq<Candidate>, reference: u64, max: nat) -> Seq<(usize, u64)>
    decreases max,
{
    if max == 0 {
        at_distance(c, reference, 0)
    } else {
        ranked(c, reference, (max - 1) as nat) + at_distance(c, reference, max)
    }
}

pub open spec fn effective_max(max_distance: Option<u64>) -> nat {
    let m = match max_distance {
        Some(m) => m as nat,
        None => DEFAULT_MAX_DISTANCE as nat,
    };
    if m <= 64 { m } else { 64 }
}

/// The candidates at distance `d`, in order.
fn collect_at_distance(c: &Vec<Candidate>, reference: u64, d: u64, out: &mut Vec<(usize, u64)>)
    ensures
        final(out)@ == old(out)@ + at_distance(c@, reference, d as nat),
{
    let ghost start = out@;
    let mut i: usize = 0;
    while i < c.len()
        invariant
            i <= c@.len(),
            out@ == start + at_distance(c@.subrange(0, i as int), reference, d as nat),
        decreases c@.len() - i,
    {
        let cand = c[i];
        assert(c@.subrange(0, i + 1).drop_last() =~= c@.subrange(0, i as int));
        assert(c@.subrange(0, i + 1).last() == cand);
        match cand.hash {
            Some(h) => {
                if distance(h, reference) == d {
                    out.push((cand.id, d));
                    assert(out@ =~= start + at_distance(c@.subrange(0, i + 1), reference, d as nat));
                }
            },
            None => {},
        }
        i = i + 1;
    }
    assert(c@.subrange(0, c@.len() as int) =~= c@);
}

/// The candidates within the maximum distance (the default where none is given)
/// of `reference`, nearest first and at equal distance in the order of `candidates`,
/// with their distances; then the page asked for.
pub fn rank_by_similarity(
    candidates: &Vec<Candidate>,
    reference: u64,
    max_distance: Option<u64>,
    pagination: &Pagination,
) -> (r: Vec<(usize, u64)>)
    ensures
        r@ == page(
            ranked(candidates@, reference, effective_max(max_distance)),
            pagination.spec_per_page(),
            pagination.spec_offset(),
        ),
{
    let m = match max_distance {
        Some(m) => m,
        None => DEFAULT_MAX_DISTANCE,
    };
    let max: u64 = if m <= 64 { m } else { 64 };
    let mut all: Vec<(usize, u64)> = Vec::new();
    collect_at_distance(candidates, reference, 0, &mut all);
    assert(all@ =~= ranked(candidates@, reference, 0));
    let mut d: u64 = 0;
    while d < max
        invariant
            d <= max <= 64,
            all@ == ranked(candidates@, reference, d as nat),
        decreases max - d,
    {
        d = d + 1;
        collect_at_distance(candidates, reference, d, &mut all);
    }
    paginate(&all, pagination)
}

pub proof fn lemma_at_distance_entries(c: Seq<Candidate>, reference: u64, d: nat, k: int)
    requires
        0 <= k < at_distance(c, reference, d).len(),
        d <= 64,
    ensures
        at_distance(c, reference, d)[k].1 as nat == d,
    decreases c.len(),
{
    if c.len() > 0 {
        let rest = at_distance(c.drop_last(), reference, d);
        if k < rest.len() {
            lemma_at_distance_entries(c.drop_last(), reference, d, k);
        }
    }
}

/// Each entry of a ranking is at most `max` away, and distances never decrease along it.
pub proof fn lemma_ranked_ordered(c: Seq<Candidate>, reference: u64, max: nat)
    requires
        max <= 64,
    ensures
        forall|k: int| 0 <= k < ranked(c, reference, max).len() ==> (#[trigger] ranked(c, reference, max)[k]).1 <= max,
        forall|i: int, j: int|
            0 <= i <= j < ranked(c, reference, max).len() ==> (#[trigger] ranked(c, reference, max)[i]).1
                <= (#[trigger] ranked(c, reference, max)[j]).1,
    decreases max,
{
    let r = ranked(c, reference, max);
    if max == 0 {
        assert forall|k: int| 0 <= k < r.len() implies (#[trigger] r[k]).1 == 0 by {
            lemma_at_distance_entries(c, reference, 0, k);
        }
    } else {
        let prev = ranked(c, reference, (max - 1) as nat);
        let here = at_distance(c, reference, max);
        lemma_ranked_ordered(c, reference, (max - 1) as nat);
        assert forall|k: int| 0 <= k < r.len() implies (#[trigger] r[k]).1 <= max by {
            if k >= prev.len() {
                lemma_at_distance_entries(c, reference, max, k - prev.len());
            } else {
                assert(r[k] == prev[k]);
            }
        }
        assert forall|i: int, j: int| 0 <= i <= j < r.len() implies (#[trigger] r[i]).1 <= (#[trigger] r[j]).1 by {
            if j >= prev.len() {
                lemma_at_distance_entries(c, reference, max, j - prev.len());
                if i >= prev.len() {
                    lemma_at_distance_entries(c, reference, max, i - prev.len());
                } else {
                    assert(r[i] == prev[i]);
                }
            } else {
                assert(r[i] == prev[i]);
                assert(r[j] == prev[j]);
            }
        }
    }
}

/// Every page of a similarity ranking stays within the maximum distance and is
/// ordered by distance.
pub proof fn lemma_similarity_page_ordered(
    c: Seq<Candidate>,
    reference: u64,
    max_distance: Option<u64>,
    per_page: nat,
    offset: nat,
)
    ensures
        ({
            let p = page(ranked(c, reference, effective_max(max_distance)), per_page, offset);
            &&& forall|k: int| 0 <= k < p.len() ==> (#[trigger] p[k]).1 as nat <= effective_max(max_distance)
            &&& forall|i: int, j: int| 0 <= i <= j < p.len() ==> (#[trigger] p[i]).1 <= (#[trigger] p[j]).1
        }),
{
    let all = ranked(c, reference, effective_max(max_distance));
    lemma_ranked_ordered(c, reference, effective_max(max_distance));
    let p = page(all, per_page, offset);
    let s = crate::paging::min_nat(offset, all.len()) as int;
    assert forall|k: int| 0 <= k < p.len() implies (#[trigger] p[k]).1 as nat <= effective_max(max_distance) by {
        assert(p[k] == all[s + k]);
    }
    assert forall|i: int, j: int| 0 <= i <= j < p.len() implies (#[trigger] p[i]).1 <= (#[trigger] p[j]).1 by {
        assert(p[i] == all[s + i]);
        assert(p[j] == all[s + j]);
    }
}


/// Candidates whose ids strictly decrease along the sequence.
pub open spec fn ids_decreasing(c: Seq<Candidate>) -> bool {
    forall|i: int, j: int| 0 <= i < j < c.len() ==> (#[trigger] c[i]).id > (#[trigger] c[j]).id
}

proof fn lemma_at_distance_decreasing(c: Seq<Candidate>, reference: u64, d: nat)
    requires
        ids_decreasing(c),
    ensures
        forall|i: int, j: int| 0 <= i < j < at_distance(c, reference, d).len()
            ==> (#[trigger] at_distance(c, reference, d)[i]).0 > (#[trigger] at_distance(c, reference, d)[j]).0,
        c.len() > 0 ==> forall|k: int| 0 <= k < at_distance(c, reference, d).len()
            ==> (#[trigger] at_distance(c, reference, d)[k]).0 >= c.last().id,
    decreases c.len(),
{
    if c.len() > 0 {
        let p = c.drop_last();
        assert(ids_decreasing(p)) by {
            assert forall|i: int, j: int| 0 <= i < j < p.len() implies (#[trigger] p[i]).id > (#[trigger] p[j]).id by {
                assert(p[i] == c[i] && p[j] == c[j]);
            }
        }
        lemma_at_distance_decreasing(p, reference, d);
        let rest = at_distance(p, reference, d);
        let whole = at_distance(c, reference, d);
        assert(c.last() == c[c.len() - 1]);
        if p.len() > 0 {
            assert(p.last() == c[c.len() - 2]);
            assert(c[c.len() - 2].id > c[c.len() - 1].id);
        }
        assert forall|k: int| 0 <= k < whole.len() implies (#[trigger] whole[k]).0 >= c.last().id by {
            if k < rest.len() {
                assert(whole[k] == rest[k]);
            }
        }
        assert forall|i: int, j: int| 0 <= i < j < whole.len() implies (#[trigger] whole[i]).0 > (#[trigger] whole[j]).0 by {
            if j < rest.len() {
                assert(whole[i] == rest[i] && whole[j] == rest[j]);
            } else {
                assert(whole[i] == rest[i]);
                assert(whole[j].0 == c.last().id);
                assert(p.len() > 0);
            }
        }
    }
}

/// Within a ranking, entries at equal distance keep the order of the
/// candidates: where ids decrease along the candidates, they decrease there too.
pub proof fn lemma_ranked_ties(c: Seq<Candidate>, reference: u64, max: nat)
    requires
        ids_decreasing(c),
        max <= 64,
    ensures
        forall|i: int, j: int| 0 <= i < j < ranked(c, reference, max).len()
            && (#[trigger] ranked(c, reference, max)[i]).1 == (#[trigger] ranked(c, reference, max)[j]).1
            ==> ranked(c, reference, max)[i].0 > ranked(c, reference, max)[j].0,
    decreases max,
{
    let r = ranked(c, reference, max);
    lemma_at_distance_decreasing(c, reference, max);
    if max > 0 {
        let prev = ranked(c, reference, (max - 1) as nat);
        let here = at_distance(c, reference, max);
        lemma_ranked_ties(c, reference, (max - 1) as nat);
        lemma_ranked_ordered(c, reference, (max - 1) as nat);
        assert forall|i: int, j: int| 0 <= i < j < r.len() && (#[trigger] r[i]).1 == (#[trigger] r[j]).1 implies r[i].0 > r[j].0 by {
            if j < prev.len() {
                assert(r[i] == prev[i] && r[j] == prev[j]);
            } else if i >= prev.len() {
                assert(r[i] == here[i - prev.len()] && r[j] == here[j - prev.len()]);
            } else {
                assert(r[i] == prev[i]);
                assert(r[j] == here[j - prev.len()]);
                lemma_at_distance_entries(c, reference, max, j - prev.len());
            }
        }
    }
}

} // verus!
