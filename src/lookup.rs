//! Lookups by content address, collection covers and near-duplicate pairs.

use vstd::prelude::*;
use crate::catalog::Catalog;
use crate::relations::member_in;
use crate::similarity::{distance, distance_spec};

verus! {

/// The largest distance at which two media count as duplicates when none is asked for.
pub const DEFAULT_DUPLICATE_DISTANCE: u64 = 1;

/// Whether `(a, b, d)` is a pair of near duplicates within `max`: two media with
/// hashes, `a` before `b`, at distance `d`.
pub open spec fn duplicate_pair(cat: &Catalog, max: nat, a: usize, b: usize, d: u64) -> bool {
    &&& a < b < cat.media@.len()
    &&& cat.media@[a as int].perceptual_hash is Some
    &&& cat.media@[b as int].perceptual_hash is Some
    &&& d as nat == distance_spec(cat.media@[a as int].perceptual_hash->0, cat.media@[b as int].perceptual_hash->0)
    &&& d as nat <= max
}

/// Pairs in strictly increasing order of their first two ids.
pub open spec fn pairs_increasing(v: Seq<(usize, usize, u64)>) -> bool {
    forall|i: int, j: int| 0 <= i < j < v.len() ==> {
        let (a, b, _) = #[trigger] v[i];
        let (c, d, _) = #[trigger] v[j];
        a < c || (a == c && b < d)
    }
}

impl Catalog {
    /// The media item with the content address `sha`, if any.
    pub fn media_by_sha(&self, sha: &String) -> (r: Option<usize>)
        requires
            self.wf(),
        ensures
            match r {
                Some(i) => i < self.media@.len() && self.media@[i as int].sha256@ == sha@,
                None => !self.has_sha(sha@),
            },
    {
        let mut i: usize = 0;
        while i < self.media.len()
            invariant
                i <= self.media@.len(),
                forall|k: int| 0 <= k < i ==> (#[trigger] self.media@[k]).sha256@ != sha@,
            decreases self.media@.len() - i,
        {
            if self.media[i].sha256 == *sha {
                return Some(i);
            }
            i = i + 1;
        }
        None
    }

    /// The first media item of collection `c`: the one with the lowest place.
    pub fn collection_cover(&self, c: usize) -> (r: Option<usize>)
        requires
            self.wf(),
        ensures
            match r {
                Some(m) => member_in(self.memberships@, m, c) && exists|k: int| 0 <= k < self.memberships@.len()
                    && (#[trigger] self.memberships@[k]).media == m && self.memberships@[k].collection == c
                    && forall|j: int| 0 <= j < self.memberships@.len() && (#[trigger] self.memberships@[j]).collection == c
                        ==> self.memberships@[k].ord <= self.memberships@[j].ord,
                None => forall|m: usize| !member_in(self.memberships@, m, c),
            },
    {
        let mut best: Option<usize> = None;
        let mut i: usize = 0;
        while i < self.memberships.len()
            invariant
                i <= self.memberships@.len(),
                match best {
                    Some(k) => k < i && self.memberships@[k as int].collection == c
                        && forall|j: int| 0 <= j < i && (#[trigger] self.memberships@[j]).collection == c
                            ==> self.memberships@[k as int].ord <= self.memberships@[j].ord,
                    None => forall|j: int| 0 <= j < i ==> (#[trigger] self.memberships@[j]).collection != c,
                },
            decreases self.memberships@.len() - i,
        {
            let row = self.memberships[i];
            if row.collection == c {
                match best {
                    Some(k) => {
                        if row.ord < self.memberships[k].ord {
                            best = Some(i);
                        }
                    },
                    None => {
                        best = Some(i);
                    },
                }
            }
            i = i + 1;
        }
        match best {
            Some(k) => {
                let m = self.memberships[k].media;
                assert(self.memberships@[k as int].media == m);
                Some(m)
            },
            None => {
                proof {
                    assert forall|m: usize| !member_in(self.memberships@, m, c) by {
                        if member_in(self.memberships@, m, c) {
                            let k = choose|k: int| 0 <= k < self.memberships@.len() && (#[trigger] self.memberships@[k]).media == m
                                && self.memberships@[k].collection == c;
                        }
                    }
                }
                None
            },
        }
    }

    /// Every pair of media whose hashes are within the distance asked for (the
    /// default where none is), each pair once, ordered by ids.
    pub fn duplicates(&self, max_distance: Option<u64>) -> (r: Vec<(usize, usize, u64)>)
        requires
            self.wf(),
        ensures
            forall|a: usize, b: usize, d: u64| #[trigger] r@.contains((a, b, d)) <==> duplicate_pair(
                self,
                match max_distance {
                    Some(m) => m as nat,
                    None => DEFAULT_DUPLICATE_DISTANCE as nat,
                },
                a,
                b,
                d,
            ),
            pairs_increasing(r@),
    {
        let max = match max_distance {
            Some(m) => m,
            None => DEFAULT_DUPLICATE_DISTANCE,
        };
        let ghost mx = max as nat;
        assert(mx == match max_distance {
            Some(m) => m as nat,
            None => DEFAULT_DUPLICATE_DISTANCE as nat,
        });
        let n = self.media.len();
        let mut r: Vec<(usize, usize, u64)> = Vec::new();
        let mut a: usize = 0;
        while a < n
            invariant
                n == self.media@.len(),
                mx == max as nat,
                a <= n,
                pairs_increasing(r@),
                forall|k: int| 0 <= k < r@.len() ==> (#[trigger] r@[k]).0 < a,
                forall|x: usize, y: usize, d: u64| #[trigger] r@.contains((x, y, d)) <==> duplicate_pair(self, mx, x, y, d) && x < a,
            decreases n - a,
        {
            let mut b: usize = a + 1;
            while b < n
                invariant
                    n == self.media@.len(),
                    mx == max as nat,
                    a < n,
                    a + 1 <= b <= n,
                    pairs_increasing(r@),
                    forall|k: int| 0 <= k < r@.len() ==> (#[trigger] r@[k]).0 < a || (r@[k].0 == a && r@[k].1 < b),
                    forall|x: usize, y: usize, d: u64| #[trigger] r@.contains((x, y, d)) <==> duplicate_pair(self, mx, x, y, d)
                        && (x < a || (x == a && y < b)),
                decreases n - b,
            {
                let ghost before = r@;
                let ha = self.media[a].perceptual_hash;
                let hb = self.media[b].perceptual_hash;
                assert(ha == self.media@[a as int].perceptual_hash);
                assert(hb == self.media@[b as int].perceptual_hash);
                match (ha, hb) {
                    (Some(h1), Some(h2)) => {
                        let d = distance(h1, h2);
                        if d <= max {
                            r.push((a, b, d));
                            proof {
                                assert(duplicate_pair(self, mx, a, b, d));
                                assert forall|e: u64| duplicate_pair(self, mx, a, b, e) implies e == d by {}
                            }
                        } else {
                            assert forall|e: u64| !duplicate_pair(self, mx, a, b, e) by {}
                        }
                    },
                    _ => {
                        assert forall|e: u64| !duplicate_pair(self, mx, a, b, e) by {}
                    },
                }
                proof {
                    assert forall|x: usize, y: usize, d: u64| #[trigger] r@.contains((x, y, d)) <==> duplicate_pair(self, mx, x, y, d)
                        && (x < a || (x == a && y < b + 1)) by {
                        if r@ != before {
                            crate::reconcile::lemma_push_contains(before, r@[r@.len() - 1], (x, y, d));
                            assert(r@ == before.push(r@[r@.len() - 1]));
                        }
                        if x == a && y == b {
                            if before.contains((x, y, d)) {
                                let k = choose|k: int| 0 <= k < before.len() && before[k] == (x, y, d);
                                assert(before[k].0 < a || (before[k].0 == a && before[k].1 < b));
                            }
                        }
                    }
                    assert forall|k: int| 0 <= k < r@.len() implies (#[trigger] r@[k]).0 < a || (r@[k].0 == a && r@[k].1 < b + 1) by {
                        if k < before.len() {
                            assert(r@[k] == before[k]);
                        }
                    }
                    assert forall|i: int, j: int| 0 <= i < j < r@.len() implies {
                        let (p, q, _) = #[trigger] r@[i];
                        let (s, t, _) = #[trigger] r@[j];
                        p < s || (p == s && q < t)
                    } by {
                        if j < before.len() {
                            assert(r@[i] == before[i] && r@[j] == before[j]);
                        } else {
                            assert(r@[i] == before[i]);
                        }
                    }
                }
                b = b + 1;
            }
            a = a + 1;
        }
        r
    }
}

} // verus!
