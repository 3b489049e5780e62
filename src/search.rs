//! Compiling search criteria into a filter over the catalog and running it:
//! every facet must pass, results come newest first, then the page is cut.

use vstd::prelude::*;
use crate::catalog::Catalog;
use crate::relations::collection_has_tag;
use crate::collections::sep;
use crate::paging::{page, paginate, Pagination};
use crate::reconcile::has_row;
use crate::similarity::{effective_max, rank_by_similarity, ranked, Candidate};
use crate::tagset::{excluded_terms, included_terms, lowercase_all, split_terms, tags_match};
use crate::text::{lower_of, split_on, split_text, views_of};

verus! {

/// A compiled media filter: for each facet, what must and what must not hold.
/// Tags compare by lowercase text, creators by any of their names, and a
/// collection path covers that collection and every collection below it.
#[derive(Debug)]
pub struct MediaFilter {
    pub tags_required: Vec<String>,
    pub tags_forbidden: Vec<String>,
    pub creators_required: Vec<String>,
    pub creators_forbidden: Vec<String>,
    pub collections_required: Vec<String>,
    pub collections_forbidden: Vec<String>,
}

/// Whether media item `m` has a tag with the text `t`.
pub open spec fn media_has_tag(cat: &Catalog, m: usize, t: Seq<char>) -> bool {
    exists|k: int|
        0 <= k < cat.media_tags@.len() && (#[trigger] cat.media_tags@[k]).0 == m && cat.tags@[cat.media_tags@[k].1 as int].tag@ == t
}

/// The texts of the tags of media item `m`.
pub open spec fn media_tag_set(cat: &Catalog, m: usize) -> Set<Seq<char>> {
    Set::new(|t: Seq<char>| media_has_tag(cat, m, t))
}

/// Whether media item `m` has a creator found under the name `n`.
pub open spec fn media_has_creator(cat: &Catalog, m: usize, n: Seq<char>) -> bool {
    exists|c: usize| has_row(cat.media_creators@, m, c) && #[trigger] cat.resolves(n, c)
}

/// Whether `pre` is a prefix of `s`.
pub open spec fn is_prefix_of(pre: Seq<Seq<char>>, s: Seq<Seq<char>>) -> bool {
    pre.len() <= s.len() && s.subrange(0, pre.len() as int) == pre
}

/// Whether media item `m` is within the collection at the path `path`: in it,
/// or in a collection below it.
pub open spec fn media_in_path(cat: &Catalog, m: usize, path: Seq<char>) -> bool {
    exists|k: int|
        0 <= k < cat.memberships@.len() && (#[trigger] cat.memberships@[k]).media == m
            && is_prefix_of(split_on(path, sep()), cat.collections.path_of(cat.memberships@[k].collection as nat))
}

pub open spec fn lowered(v: Seq<String>) -> Seq<Seq<char>> {
    v.map_values(|s: String| lower_of(s@))
}

/// Whether media item `m` passes every facet of `f`.
pub open spec fn media_matches(cat: &Catalog, m: usize, f: &MediaFilter) -> bool {
    &&& forall|i: int| 0 <= i < f.tags_required@.len() ==> media_has_tag(cat, m, lower_of(#[trigger] f.tags_required@[i]@))
    &&& forall|i: int| 0 <= i < f.tags_forbidden@.len() ==> !media_has_tag(cat, m, lower_of(#[trigger] f.tags_forbidden@[i]@))
    &&& forall|i: int| 0 <= i < f.creators_required@.len() ==> media_has_creator(cat, m, (#[trigger] f.creators_required@[i])@)
    &&& forall|i: int| 0 <= i < f.creators_forbidden@.len() ==> !media_has_creator(cat, m, (#[trigger] f.creators_forbidden@[i])@)
    &&& forall|i: int| 0 <= i < f.collections_required@.len() ==> media_in_path(cat, m, (#[trigger] f.collections_required@[i])@)
    &&& forall|i: int| 0 <= i < f.collections_forbidden@.len() ==> !media_in_path(cat, m, (#[trigger] f.collections_forbidden@[i])@)
}


/// The ids below `n` of the media that pass `f`, newest (highest id) first.
pub open spec fn matching_desc(cat: &Catalog, f: &MediaFilter, n: nat) -> Seq<usize>
    decreases n,
{
    if n == 0 {
        Seq::empty()
    } else {
        let rest = matching_desc(cat, f, (n - 1) as nat);
        if media_matches(cat, (n - 1) as usize, f) {
            seq![(n - 1) as usize] + rest
        } else {
            rest
        }
    }
}

/// All the media that pass `f`, newest first.
pub open spec fn search_results(cat: &Catalog, f: &MediaFilter) -> Seq<usize> {
    matching_desc(cat, f, cat.media@.len())
}

/// The media as similarity candidates, newest first.
pub open spec fn candidates_desc(cat: &Catalog, n: nat) -> Seq<Candidate>
    decreases n,
{
    if n == 0 || n > cat.media@.len() {
        Seq::empty()
    } else {
        seq![Candidate { id: (n - 1) as usize, hash: cat.media@[n - 1].perceptual_hash }] + candidates_desc(cat, (n - 1) as nat)
    }
}

impl MediaFilter {
    /// The filter that the search terms ask for: a term with a single leading `-`
    /// excludes, any other includes.
    pub fn from_terms(tags: &Vec<String>, creators: &Vec<String>, collections: &Vec<String>) -> (r: MediaFilter)
        ensures
            views_of(r.tags_required@) == included_terms(views_of(tags@)),
            views_of(r.tags_forbidden@) == excluded_terms(views_of(tags@)),
            views_of(r.creators_required@) == included_terms(views_of(creators@)),
            views_of(r.creators_forbidden@) == excluded_terms(views_of(creators@)),
            views_of(r.collections_required@) == included_terms(views_of(collections@)),
            views_of(r.collections_forbidden@) == excluded_terms(views_of(collections@)),
    {
        let (tags_required, tags_forbidden) = split_terms(tags);
        let (creators_required, creators_forbidden) = split_terms(creators);
        let (collections_required, collections_forbidden) = split_terms(collections);
        MediaFilter {
            tags_required,
            tags_forbidden,
            creators_required,
            creators_forbidden,
            collections_required,
            collections_forbidden,
        }
    }
}

impl Catalog {
    /// The texts of the tags of media item `m`.
    pub fn media_tag_texts(&self, m: usize) -> (r: Vec<String>)
        requires
            self.wf(),
        ensures
            forall|t: Seq<char>| views_of(r@).contains(t) <==> media_has_tag(self, m, t),
    {
        let mut r: Vec<String> = Vec::new();
        let mut i: usize = 0;
        while i < self.media_tags.len()
            invariant
                self.wf(),
                i <= self.media_tags@.len(),
                forall|t: Seq<char>| views_of(r@).contains(t) <==> exists|k: int|
                    0 <= k < i && (#[trigger] self.media_tags@[k]).0 == m && self.tags@[self.media_tags@[k].1 as int].tag@ == t,
            decreases self.media_tags@.len() - i,
        {
            let (a, b) = self.media_tags[i];
            let ghost before = r@;
            assert(b < self.tags@.len());
            if a == m {
                r.push(self.tags[b].tag.clone());
            }
            proof {
                assert forall|t: Seq<char>| views_of(r@).contains(t) <==> exists|k: int|
                    0 <= k < i + 1 && (#[trigger] self.media_tags@[k]).0 == m && self.tags@[self.media_tags@[k].1 as int].tag@ == t by {
                    if a == m {
                        assert(views_of(r@) =~= views_of(before).push(self.tags@[b as int].tag@));
                        crate::reconcile::lemma_push_contains(views_of(before), self.tags@[b as int].tag@, t);
                    } else {
                        assert(r@ == before);
                    }
                    if exists|k: int| 0 <= k < i + 1 && (#[trigger] self.media_tags@[k]).0 == m && self.tags@[self.media_tags@[k].1 as int].tag@ == t {
                        let k = choose|k: int| 0 <= k < i + 1 && (#[trigger] self.media_tags@[k]).0 == m && self.tags@[self.media_tags@[k].1 as int].tag@ == t;
                        if k < i {
                            assert(exists|k: int| 0 <= k < i && (#[trigger] self.media_tags@[k]).0 == m && self.tags@[self.media_tags@[k].1 as int].tag@ == t);
                        }
                    }
                }
            }
            i = i + 1;
        }
        r
    }

    /// Whether media item `m` has a creator found under the name `n`.
    pub fn has_creator_named(&self, m: usize, n: &String) -> (r: bool)
        requires
            self.wf(),
        ensures
            r == media_has_creator(self, m, n@),
    {
        match self.find_creator(n.as_str()) {
            Some(c) => {
                let r = crate::reconcile::objects_of(&self.media_creators, m);
                let found = crate::reconcile::contains_id(&r, c);
                proof {
                    if media_has_creator(self, m, n@) {
                        let d = choose|d: usize| has_row(self.media_creators@, m, d) && #[trigger] self.resolves(n@, d);
                        self.lemma_resolves_unique(n@, c, d);
                    }
                }
                found
            },
            None => false,
        }
    }

    /// Whether media item `m` is within the collection at `path`: in it, or in
    /// a collection below it.
    pub fn in_collection_path(&self, m: usize, path: &String) -> (r: bool)
        requires
            self.wf(),
        ensures
            r == media_in_path(self, m, path@),
    {
        let segs = split_text(path.as_str(), '/');
        let mut i: usize = 0;
        while i < self.memberships.len()
            invariant
                self.wf(),
                views_of(segs@) == split_on(path@, sep()),
                i <= self.memberships@.len(),
                forall|k: int| 0 <= k < i && (#[trigger] self.memberships@[k]).media == m ==> !is_prefix_of(
                    split_on(path@, sep()),
                    self.collections.path_of(self.memberships@[k].collection as nat),
                ),
            decreases self.memberships@.len() - i,
        {
            let row = self.memberships[i];
            if row.media == m {
                let p = self.collections.materialize_segments(row.collection);
                if is_prefix(&segs, &p) {
                    return true;
                }
            }
            i = i + 1;
        }
        false
    }

    /// Whether media item `m` passes every facet of `f`.
    pub fn matches(&self, m: usize, f: &MediaFilter) -> (r: bool)
        requires
            self.wf(),
        ensures
            r == media_matches(self, m, f),
    {
        let texts = self.media_tag_texts(m);
        let req = lowercase_all(&f.tags_required);
        let forb = lowercase_all(&f.tags_forbidden);
        let tags_ok = tags_match(&texts, &req, &forb);
        proof {
            assert(views_of(req@) =~= lowered(f.tags_required@));
            assert(views_of(forb@) =~= lowered(f.tags_forbidden@));
        }
        if !tags_ok {
            proof {
                if forall|i: int| 0 <= i < f.tags_required@.len() ==> media_has_tag(self, m, lower_of(#[trigger] f.tags_required@[i]@)) {
                    if forall|i: int| 0 <= i < f.tags_forbidden@.len() ==> !media_has_tag(self, m, lower_of(#[trigger] f.tags_forbidden@[i]@)) {
                        assert forall|i: int| 0 <= i < views_of(req@).len() implies views_of(texts@).contains(#[trigger] views_of(req@)[i]) by {
                            assert(views_of(req@)[i] == lower_of(f.tags_required@[i]@));
                        }
                        assert forall|i: int| 0 <= i < views_of(forb@).len() implies !views_of(texts@).contains(#[trigger] views_of(forb@)[i]) by {
                            assert(views_of(forb@)[i] == lower_of(f.tags_forbidden@[i]@));
                        }
                    }
                }
            }
            return false;
        }
        proof {
            assert forall|i: int| 0 <= i < f.tags_required@.len() implies media_has_tag(self, m, lower_of(#[trigger] f.tags_required@[i]@)) by {
                assert(views_of(req@)[i] == lower_of(f.tags_required@[i]@));
            }
            assert forall|i: int| 0 <= i < f.tags_forbidden@.len() implies !media_has_tag(self, m, lower_of(#[trigger] f.tags_forbidden@[i]@)) by {
                assert(views_of(forb@)[i] == lower_of(f.tags_forbidden@[i]@));
            }
        }
        let mut i: usize = 0;
        while i < f.creators_required.len()
            invariant
                self.wf(),
                i <= f.creators_required@.len(),
                forall|k: int| 0 <= k < i ==> media_has_creator(self, m, (#[trigger] f.creators_required@[k])@),
            decreases f.creators_required@.len() - i,
        {
            if !self.has_creator_named(m, &f.creators_required[i]) {
                return false;
            }
            i = i + 1;
        }
        let mut i: usize = 0;
        while i < f.creators_forbidden.len()
            invariant
                self.wf(),
                i <= f.creators_forbidden@.len(),
                forall|k: int| 0 <= k < i ==> !media_has_creator(self, m, (#[trigger] f.creators_forbidden@[k])@),
            decreases f.creators_forbidden@.len() - i,
        {
            if self.has_creator_named(m, &f.creators_forbidden[i]) {
                return false;
            }
            i = i + 1;
        }
        let mut i: usize = 0;
        while i < f.collections_required.len()
            invariant
                self.wf(),
                i <= f.collections_required@.len(),
                forall|k: int| 0 <= k < i ==> media_in_path(self, m, (#[trigger] f.collections_required@[k])@),
            decreases f.collections_required@.len() - i,
        {
            if !self.in_collection_path(m, &f.collections_required[i]) {
                return false;
            }
            i = i + 1;
        }
        let mut i: usize = 0;
        while i < f.collections_forbidden.len()
            invariant
                self.wf(),
                i <= f.collections_forbidden@.len(),
                forall|k: int| 0 <= k < i ==> !media_in_path(self, m, (#[trigger] f.collections_forbidden@[k])@),
            decreases f.collections_forbidden@.len() - i,
        {
            if self.in_collection_path(m, &f.collections_forbidden[i]) {
                return false;
            }
            i = i + 1;
        }
        true
    }

    /// The media that pass `f`, newest first, cut to the page asked for.
    pub fn search(&self, f: &MediaFilter, p: &Pagination) -> (r: Vec<usize>)
        requires
            self.wf(),
        ensures
            r@ == page(search_results(self, f), p.spec_per_page(), p.spec_offset()),
    {
        let mut all: Vec<usize> = Vec::new();
        let mut i: usize = 0;
        while i < self.media.len()
            invariant
                self.wf(),
                i <= self.media@.len(),
                all@ == matching_desc(self, f, i as nat),
            decreases self.media@.len() - i,
        {
            if self.matches(i, f) {
                all.insert(0, i);
                assert(all@ =~= seq![i] + matching_desc(self, f, i as nat));
            }
            i = i + 1;
        }
        paginate(&all, p)
    }

    /// The media within the maximum distance of the hash `reference`, nearest first
    /// and newest first at equal distance, with their distances, cut to the page.
    /// Media without a perceptual hash never match.
    pub fn search_by_similarity(&self, reference: u64, max_distance: Option<u64>, p: &Pagination) -> (r: Vec<(usize, u64)>)
        ensures
            r@ == page(
                ranked(candidates_desc(self, self.media@.len()), reference, effective_max(max_distance)),
                p.spec_per_page(),
                p.spec_offset(),
            ),
    {
        let mut cands: Vec<Candidate> = Vec::new();
        let mut i: usize = 0;
        while i < self.media.len()
            invariant
                i <= self.media@.len(),
                cands@ == candidates_desc(self, i as nat),
            decreases self.media@.len() - i,
        {
            cands.insert(0, Candidate { id: i, hash: self.media[i].perceptual_hash });
            assert(cands@ =~= candidates_desc(self, (i + 1) as nat));
            i = i + 1;
        }
        rank_by_similarity(&cands, reference, max_distance, p)
    }
}

/// Whether the texts of `a` begin the texts of `b`.
pub fn is_prefix(a: &Vec<String>, b: &Vec<String>) -> (r: bool)
    ensures
        r == is_prefix_of(views_of(a@), views_of(b@)),
{
    if a.len() > b.len() {
        return false;
    }
    let mut i: usize = 0;
    while i < a.len()
        invariant
            i <= a@.len() <= b@.len(),
            forall|k: int| 0 <= k < i ==> a@[k]@ == b@[k]@,
        decreases a@.len() - i,
    {
        if a[i] != b[i] {
            assert(views_of(b@).subrange(0, a@.len() as int)[i as int] != views_of(a@)[i as int]);
            return false;
        }
        i = i + 1;
    }
    assert(views_of(b@).subrange(0, a@.len() as int) =~= views_of(a@));
    true
}

/// Whether collection `c` has a creator found under the name `n`.
pub open spec fn collection_has_creator(cat: &Catalog, c: usize, n: Seq<char>) -> bool {
    exists|d: usize| has_row(cat.collection_creators@, c, d) && #[trigger] cat.resolves(n, d)
}

/// Whether collection `c` passes the tag and creator facets of `f`; its
/// collection facet does not apply to collections.
pub open spec fn collection_matches(cat: &Catalog, c: usize, f: &MediaFilter) -> bool {
    &&& forall|i: int| 0 <= i < f.tags_required@.len() ==> collection_has_tag(cat, c, lower_of(#[trigger] f.tags_required@[i]@))
    &&& forall|i: int| 0 <= i < f.tags_forbidden@.len() ==> !collection_has_tag(cat, c, lower_of(#[trigger] f.tags_forbidden@[i]@))
    &&& forall|i: int| 0 <= i < f.creators_required@.len() ==> collection_has_creator(cat, c, (#[trigger] f.creators_required@[i])@)
    &&& forall|i: int| 0 <= i < f.creators_forbidden@.len() ==> !collection_has_creator(cat, c, (#[trigger] f.creators_forbidden@[i])@)
}

/// The ids below `n` of the collections that pass `f`, newest (highest id) first.
pub open spec fn collections_desc(cat: &Catalog, f: &MediaFilter, n: nat) -> Seq<usize>
    decreases n,
{
    if n == 0 {
        Seq::empty()
    } else {
        let rest = collections_desc(cat, f, (n - 1) as nat);
        if collection_matches(cat, (n - 1) as usize, f) {
            seq![(n - 1) as usize] + rest
        } else {
            rest
        }
    }
}

impl Catalog {
    /// The texts of the tags of collection `c`.
    pub fn collection_tag_texts(&self, c: usize) -> (r: Vec<String>)
        requires
            self.wf(),
        ensures
            forall|t: Seq<char>| views_of(r@).contains(t) <==> collection_has_tag(self, c, t),
    {
        let mut r: Vec<String> = Vec::new();
        let mut i: usize = 0;
        while i < self.collection_tags.len()
            invariant
                self.wf(),
                i <= self.collection_tags@.len(),
                forall|t: Seq<char>| views_of(r@).contains(t) <==> exists|k: int|
                    0 <= k < i && (#[trigger] self.collection_tags@[k]).0 == c && self.tags@[self.collection_tags@[k].1 as int].tag@ == t,
            decreases self.collection_tags@.len() - i,
        {
            let (a, b) = self.collection_tags[i];
            let ghost before = r@;
            assert(b < self.tags@.len());
            if a == c {
                r.push(self.tags[b].tag.clone());
            }
            proof {
                assert forall|t: Seq<char>| views_of(r@).contains(t) <==> exists|k: int|
                    0 <= k < i + 1 && (#[trigger] self.collection_tags@[k]).0 == c && self.tags@[self.collection_tags@[k].1 as int].tag@ == t by {
                    if a == c {
                        assert(views_of(r@) =~= views_of(before).push(self.tags@[b as int].tag@));
                        crate::reconcile::lemma_push_contains(views_of(before), self.tags@[b as int].tag@, t);
                    } else {
                        assert(r@ == before);
                    }
                    if exists|k: int| 0 <= k < i + 1 && (#[trigger] self.collection_tags@[k]).0 == c && self.tags@[self.collection_tags@[k].1 as int].tag@ == t {
                        let k = choose|k: int| 0 <= k < i + 1 && (#[trigger] self.collection_tags@[k]).0 == c && self.tags@[self.collection_tags@[k].1 as int].tag@ == t;
                        if k < i {
                            assert(exists|k: int| 0 <= k < i && (#[trigger] self.collection_tags@[k]).0 == c && self.tags@[self.collection_tags@[k].1 as int].tag@ == t);
                        }
                    }
                }
            }
            i = i + 1;
        }
        r
    }

    /// Whether collection `c` has a creator found under the name `n`.
    pub fn collection_has_creator_named(&self, c: usize, n: &String) -> (r: bool)
        requires
            self.wf(),
        ensures
            r == collection_has_creator(self, c, n@),
    {
        match self.find_creator(n.as_str()) {
            Some(d) => {
                let r = crate::reconcile::objects_of(&self.collection_creators, c);
                let found = crate::reconcile::contains_id(&r, d);
                proof {
                    if collection_has_creator(self, c, n@) {
                        let e = choose|e: usize| has_row(self.collection_creators@, c, e) && #[trigger] self.resolves(n@, e);
                        self.lemma_resolves_unique(n@, d, e);
                    }
                }
                found
            },
            None => false,
        }
    }

    /// Whether collection `c` passes the tag and creator facets of `f`.
    pub fn collection_passes(&self, c: usize, f: &MediaFilter) -> (r: bool)
        requires
            self.wf(),
        ensures
            r == collection_matches(self, c, f),
    {
        let texts = self.collection_tag_texts(c);
        let req = lowercase_all(&f.tags_required);
        let forb = lowercase_all(&f.tags_forbidden);
        let tags_ok = tags_match(&texts, &req, &forb);
        if !tags_ok {
            proof {
                if forall|i: int| 0 <= i < f.tags_required@.len() ==> collection_has_tag(self, c, lower_of(#[trigger] f.tags_required@[i]@)) {
                    if forall|i: int| 0 <= i < f.tags_forbidden@.len() ==> !collection_has_tag(self, c, lower_of(#[trigger] f.tags_forbidden@[i]@)) {
                        assert forall|i: int| 0 <= i < views_of(req@).len() implies views_of(texts@).contains(#[trigger] views_of(req@)[i]) by {
                            assert(views_of(req@)[i] == lower_of(f.tags_required@[i]@));
                        }
                        assert forall|i: int| 0 <= i < views_of(forb@).len() implies !views_of(texts@).contains(#[trigger] views_of(forb@)[i]) by {
                            assert(views_of(forb@)[i] == lower_of(f.tags_forbidden@[i]@));
                        }
                    }
                }
            }
            return false;
        }
        proof {
            assert forall|i: int| 0 <= i < f.tags_required@.len() implies collection_has_tag(self, c, lower_of(#[trigger] f.tags_required@[i]@)) by {
                assert(views_of(req@)[i] == lower_of(f.tags_required@[i]@));
            }
            assert forall|i: int| 0 <= i < f.tags_forbidden@.len() implies !collection_has_tag(self, c, lower_of(#[trigger] f.tags_forbidden@[i]@)) by {
                assert(views_of(forb@)[i] == lower_of(f.tags_forbidden@[i]@));
            }
        }
        let mut i: usize = 0;
        while i < f.creators_required.len()
            invariant
                self.wf(),
                i <= f.creators_required@.len(),
                forall|k: int| 0 <= k < i ==> collection_has_creator(self, c, (#[trigger] f.creators_required@[k])@),
            decreases f.creators_required@.len() - i,
        {
            if !self.collection_has_creator_named(c, &f.creators_required[i]) {
                return false;
            }
            i = i + 1;
        }
        let mut i: usize = 0;
        while i < f.creators_forbidden.len()
            invariant
                self.wf(),
                i <= f.creators_forbidden@.len(),
                forall|k: int| 0 <= k < i ==> !collection_has_creator(self, c, (#[trigger] f.creators_forbidden@[k])@),
            decreases f.creators_forbidden@.len() - i,
        {
            if self.collection_has_creator_named(c, &f.creators_forbidden[i]) {
                return false;
            }
            i = i + 1;
        }
        true
    }

    /// The collections that pass the tag and creator facets of `f`, newest first,
    /// cut to the page asked for.
    pub fn search_collections(&self, f: &MediaFilter, p: &Pagination) -> (r: Vec<usize>)
        requires
            self.wf(),
        ensures
            r@ == page(collections_desc(self, f, self.collections.nodes@.len()), p.spec_per_page(), p.spec_offset()),
    {
        let mut all: Vec<usize> = Vec::new();
        let mut i: usize = 0;
        while i < self.collections.nodes.len()
            invariant
                self.wf(),
                i <= self.collections.nodes@.len(),
                all@ == collections_desc(self, f, i as nat),
            decreases self.collections.nodes@.len() - i,
        {
            if self.collection_passes(i, f) {
                all.insert(0, i);
                assert(all@ =~= seq![i] + collections_desc(self, f, i as nat));
            }
            i = i + 1;
        }
        paginate(&all, p)
    }
}

/// A media item is among the results of a search exactly when it passes the filter.
pub proof fn lemma_matching_members(cat: &Catalog, f: &MediaFilter, n: nat, m: usize)
    ensures
        matching_desc(cat, f, n).contains(m) <==> (m as nat) < n && media_matches(cat, m, f),
    decreases n,
{
    if n > 0 {
        lemma_matching_members(cat, f, (n - 1) as nat, m);
        let rest = matching_desc(cat, f, (n - 1) as nat);
        if media_matches(cat, (n - 1) as usize, f) {
            let s = seq![(n - 1) as usize] + rest;
            if rest.contains(m) {
                let k = choose|k: int| 0 <= k < rest.len() && rest[k] == m;
                assert(s[k + 1] == m);
            }
            if s.contains(m) {
                let k = choose|k: int| 0 <= k < s.len() && s[k] == m;
                if k > 0 {
                    assert(rest[k - 1] == m);
                }
            }
            if m as nat == n - 1 {
                assert(s[0] == m);
            }
        }
    }
}

/// With only tag criteria, a media item is found exactly when its tags hold every
/// required tag and none of the forbidden ones, compared in lowercase.
pub proof fn lemma_tag_search(cat: &Catalog, f: &MediaFilter, m: usize)
    requires
        m < cat.media@.len(),
        f.creators_required@.len() == 0,
        f.creators_forbidden@.len() == 0,
        f.collections_required@.len() == 0,
        f.collections_forbidden@.len() == 0,
    ensures
        search_results(cat, f).contains(m) <==> (forall|i: int| 0 <= i < f.tags_required@.len()
            ==> media_tag_set(cat, m).contains(lower_of(#[trigger] f.tags_required@[i]@)))
            && (forall|i: int| 0 <= i < f.tags_forbidden@.len() ==> !media_tag_set(cat, m).contains(lower_of(#[trigger] f.tags_forbidden@[i]@))),
{
    lemma_matching_members(cat, f, cat.media@.len(), m);
}

/// With only tag criteria given in lowercase, a media item is found exactly when
/// its tags hold every required tag and none of the forbidden ones.
pub proof fn lemma_lowercase_tag_search(cat: &Catalog, f: &MediaFilter, m: usize)
    requires
        m < cat.media@.len(),
        f.creators_required@.len() == 0,
        f.creators_forbidden@.len() == 0,
        f.collections_required@.len() == 0,
        f.collections_forbidden@.len() == 0,
        forall|i: int| 0 <= i < f.tags_required@.len() ==> lower_of((#[trigger] f.tags_required@[i])@) == f.tags_required@[i]@,
        forall|i: int| 0 <= i < f.tags_forbidden@.len() ==> lower_of((#[trigger] f.tags_forbidden@[i])@) == f.tags_forbidden@[i]@,
    ensures
        search_results(cat, f).contains(m) <==> (forall|i: int| 0 <= i < f.tags_required@.len()
            ==> media_tag_set(cat, m).contains((#[trigger] f.tags_required@[i])@))
            && (forall|i: int| 0 <= i < f.tags_forbidden@.len() ==> !media_tag_set(cat, m).contains((#[trigger] f.tags_forbidden@[i])@)),
{
    lemma_tag_search(cat, f, m);
}

/// Two consecutive search pages of size `n` are the first `2n` results, and
/// neither is longer than `n`.
pub proof fn lemma_search_pages(cat: &Catalog, f: &MediaFilter, n: nat)
    ensures
        page(search_results(cat, f), n, 0).len() <= n,
        page(search_results(cat, f), n, n).len() <= n,
        page(search_results(cat, f), n, 0) + page(search_results(cat, f), n, n)
            == search_results(cat, f).take(crate::paging::min_nat(2 * n, search_results(cat, f).len()) as int),
{
    crate::paging::lemma_pages_concatenate(search_results(cat, f), n);
}

} // verus!
