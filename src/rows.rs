//! The denormalized rows that searches return: a media item's fields with its
//! tags, creators, sources and collections gathered in.

use vstd::prelude::*;
use crate::catalog::{Catalog, MediaItem};
use crate::error::AppError;
use crate::models::TagEntity;
use crate::paging::{page, Pagination};
use crate::reconcile::lemma_push_contains;
use crate::relations::{member_in, source_in};
use crate::search::{search_results, MediaFilter};
use crate::similarity::{effective_max, ranked};
use crate::search::candidates_desc;
use crate::text::views_of;

verus! {

/// One media item with everything related to it.
#[derive(Debug)]
pub struct MediaRow {
    pub id: usize,
    pub sha256: String,
    pub perceptual_hash: Option<u64>,
    pub storage_uri: String,
    pub title: Option<String>,
    pub description: Option<String>,
    pub uploaded: i64,
    /// Each tag with the name of its group.
    pub tags: Vec<TagEntity>,
    /// The display names of the creators.
    pub creators: Vec<String>,
    pub sources: Vec<String>,
    /// The ids and names of the collections the item is in.
    pub collections: Vec<(usize, String)>,
    /// The distance to the reference hash, in a similarity search.
    pub distance: Option<u64>,
}

/// Whether `v` lists the tag `t` in the group named `g`.
pub open spec fn lists_tag(v: Seq<TagEntity>, g: Seq<char>, t: Seq<char>) -> bool {
    exists|k: int| 0 <= k < v.len() && (#[trigger] v[k]).group@ == g && v[k].tag@ == t
}

/// Whether `v` lists the collection `c`.
pub open spec fn lists_collection(v: Seq<(usize, String)>, c: usize) -> bool {
    exists|k: int| 0 <= k < v.len() && (#[trigger] v[k]).0 == c
}

/// Whether media item `m` has the tag `t` in the group named `g`.
pub open spec fn media_has_grouped_tag(cat: &Catalog, m: usize, g: Seq<char>, t: Seq<char>) -> bool {
    exists|k: int|
        0 <= k < cat.media_tags@.len() && (#[trigger] cat.media_tags@[k]).0 == m && cat.tags@[cat.media_tags@[k].1 as int].tag@ == t
            && cat.tag_groups@[cat.tags@[cat.media_tags@[k].1 as int].group as int]@ == g
}

/// Whether media item `m` has a creator with the display name `n`.
pub open spec fn media_has_creator_name(cat: &Catalog, m: usize, n: Seq<char>) -> bool {
    exists|k: int| 0 <= k < cat.media_creators@.len() && (#[trigger] cat.media_creators@[k]).0 == m
        && cat.creators@[cat.media_creators@[k].1 as int]@ == n
}

/// Whether `row` is the row of media item `m`, up to the order of its lists.
pub open spec fn row_of(cat: &Catalog, m: usize, row: &MediaRow) -> bool {
    &&& m < cat.media@.len()
    &&& row.id == m
    &&& row.sha256@ == cat.media@[m as int].sha256@
    &&& row.perceptual_hash == cat.media@[m as int].perceptual_hash
    &&& row.storage_uri@ == cat.media@[m as int].storage_uri@
    &&& row.uploaded == cat.media@[m as int].uploaded
    &&& forall|g: Seq<char>, t: Seq<char>| #[trigger] lists_tag(row.tags@, g, t)
        <==> media_has_grouped_tag(cat, m, g, t)
    &&& forall|n: Seq<char>| #[trigger] views_of(row.creators@).contains(n) <==> media_has_creator_name(cat, m, n)
    &&& forall|t: Seq<char>| #[trigger] views_of(row.sources@).contains(t) <==> source_in(cat.sources@, m, t)
    &&& forall|c: usize| #[trigger] lists_collection(row.collections@, c)
        <==> member_in(cat.memberships@, m, c)
    &&& forall|k: int| 0 <= k < row.collections@.len() ==> (#[trigger] row.collections@[k]).0 < cat.collections.nodes@.len()
        && row.collections@[k].1@ == cat.collections.name_of(row.collections@[k].0 as int)
}

fn copy_text(s: &Option<String>) -> (r: Option<String>)
    ensures
        r == *s,
{
    match s {
        Some(t) => Some(t.clone()),
        None => None,
    }
}

impl Catalog {
    /// Each tag of media item `m` with the name of its group.
    pub fn media_tag_entities(&self, m: usize) -> (r: Vec<TagEntity>)
        requires
            self.wf(),
        ensures
            forall|g: Seq<char>, t: Seq<char>| #[trigger] lists_tag(r@, g, t)
                <==> media_has_grouped_tag(self, m, g, t),
    {
        let mut r: Vec<TagEntity> = Vec::new();
        let mut i: usize = 0;
        while i < self.media_tags.len()
            invariant
                self.wf(),
                i <= self.media_tags@.len(),
                forall|g: Seq<char>, t: Seq<char>| #[trigger] lists_tag(r@, g, t)
                    <==> exists|k: int| 0 <= k < i && (#[trigger] self.media_tags@[k]).0 == m
                        && self.tags@[self.media_tags@[k].1 as int].tag@ == t
                        && self.tag_groups@[self.tags@[self.media_tags@[k].1 as int].group as int]@ == g,
            decreases self.media_tags@.len() - i,
        {
            let (a, b) = self.media_tags[i];
            let ghost before = r@;
            assert(b < self.tags@.len());
            if a == m {
                let tag = &self.tags[b];
                assert(tag.group < self.tag_groups@.len());
                r.push(TagEntity { group: self.tag_groups[tag.group].clone(), tag: tag.tag.clone() });
            }
            proof {
                assert forall|g: Seq<char>, t: Seq<char>| #[trigger] lists_tag(r@, g, t)
                    <==> exists|k: int| 0 <= k < i + 1 && (#[trigger] self.media_tags@[k]).0 == m
                        && self.tags@[self.media_tags@[k].1 as int].tag@ == t
                        && self.tag_groups@[self.tags@[self.media_tags@[k].1 as int].group as int]@ == g by {
                    if lists_tag(r@, g, t) {
                        let k = choose|k: int| 0 <= k < r@.len() && (#[trigger] r@[k]).group@ == g && r@[k].tag@ == t;
                        if k < before.len() {
                            assert(r@[k] == before[k]);
                        }
                    }
                    if lists_tag(before, g, t) {
                        let k = choose|k: int| 0 <= k < before.len() && (#[trigger] before[k]).group@ == g && before[k].tag@ == t;
                        assert(r@[k] == before[k]);
                    }
                    if exists|k: int| 0 <= k < i + 1 && (#[trigger] self.media_tags@[k]).0 == m
                        && self.tags@[self.media_tags@[k].1 as int].tag@ == t
                        && self.tag_groups@[self.tags@[self.media_tags@[k].1 as int].group as int]@ == g {
                        let k = choose|k: int| 0 <= k < i + 1 && (#[trigger] self.media_tags@[k]).0 == m
                            && self.tags@[self.media_tags@[k].1 as int].tag@ == t
                            && self.tag_groups@[self.tags@[self.media_tags@[k].1 as int].group as int]@ == g;
                        if k == i {
                            assert(r@[r@.len() - 1].group@ == g);
                        }
                    }
                }
            }
            i = i + 1;
        }
        r
    }

    /// The display names of the creators of media item `m`.
    pub fn media_creator_names(&self, m: usize) -> (r: Vec<String>)
        requires
            self.wf(),
        ensures
            forall|n: Seq<char>| #[trigger] views_of(r@).contains(n) <==> media_has_creator_name(self, m, n),
    {
        let mut r: Vec<String> = Vec::new();
        let mut i: usize = 0;
        while i < self.media_creators.len()
            invariant
                self.wf(),
                i <= self.media_creators@.len(),
                forall|n: Seq<char>| #[trigger] views_of(r@).contains(n) <==> exists|k: int| 0 <= k < i
                    && (#[trigger] self.media_creators@[k]).0 == m && self.creators@[self.media_creators@[k].1 as int]@ == n,
            decreases self.media_creators@.len() - i,
        {
            let (a, b) = self.media_creators[i];
            let ghost before = r@;
            assert(b < self.creators@.len());
            if a == m {
                r.push(self.creators[b].clone());
            }
            proof {
                assert forall|n: Seq<char>| #[trigger] views_of(r@).contains(n) <==> exists|k: int| 0 <= k < i + 1
                    && (#[trigger] self.media_creators@[k]).0 == m && self.creators@[self.media_creators@[k].1 as int]@ == n by {
                    if a == m {
                        assert(views_of(r@) =~= views_of(before).push(self.creators@[b as int]@));
                        lemma_push_contains(views_of(before), self.creators@[b as int]@, n);
                    } else {
                        assert(r@ == before);
                    }
                    if exists|k: int| 0 <= k < i + 1 && (#[trigger] self.media_creators@[k]).0 == m && self.creators@[self.media_creators@[k].1 as int]@ == n {
                        let k = choose|k: int| 0 <= k < i + 1 && (#[trigger] self.media_creators@[k]).0 == m && self.creators@[self.media_creators@[k].1 as int]@ == n;
                        if k < i {
                            assert(exists|k: int| 0 <= k < i && (#[trigger] self.media_creators@[k]).0 == m && self.creators@[self.media_creators@[k].1 as int]@ == n);
                        }
                    }
                }
            }
            i = i + 1;
        }
        r
    }

    /// The sources of media item `m`.
    pub fn media_sources(&self, m: usize) -> (r: Vec<String>)
        ensures
            forall|t: Seq<char>| #[trigger] views_of(r@).contains(t) <==> source_in(self.sources@, m, t),
    {
        let mut r: Vec<String> = Vec::new();
        let mut i: usize = 0;
        while i < self.sources.len()
            invariant
                i <= self.sources@.len(),
                forall|t: Seq<char>| #[trigger] views_of(r@).contains(t) <==> source_in(self.sources@.subrange(0, i as int), m, t),
            decreases self.sources@.len() - i,
        {
            let ghost before = r@;
            let ghost pre = self.sources@.subrange(0, i as int);
            let ghost post = self.sources@.subrange(0, i + 1);
            if self.sources[i].0 == m {
                r.push(self.sources[i].1.clone());
            }
            proof {
                assert forall|t: Seq<char>| #[trigger] views_of(r@).contains(t) <==> source_in(post, m, t) by {
                    if self.sources@[i as int].0 == m {
                        assert(views_of(r@) =~= views_of(before).push(self.sources@[i as int].1@));
                        lemma_push_contains(views_of(before), self.sources@[i as int].1@, t);
                    } else {
                        assert(r@ == before);
                    }
                    if source_in(post, m, t) {
                        let k = choose|k: int| 0 <= k < post.len() && (#[trigger] post[k]).0 == m && post[k].1@ == t;
                        if k < i {
                            assert(pre[k] == post[k]);
                        }
                    }
                    if source_in(pre, m, t) {
                        let k = choose|k: int| 0 <= k < pre.len() && (#[trigger] pre[k]).0 == m && pre[k].1@ == t;
                        assert(post[k] == pre[k]);
                    }
                    assert(post[i as int] == self.sources@[i as int]);
                }
            }
            i = i + 1;
        }
        assert(self.sources@.subrange(0, self.sources@.len() as int) =~= self.sources@);
        r
    }

    /// The ids and names of the collections media item `m` is in.
    pub fn media_collections(&self, m: usize) -> (r: Vec<(usize, String)>)
        requires
            self.wf(),
        ensures
            forall|c: usize| #[trigger] lists_collection(r@, c) <==> member_in(self.memberships@, m, c),
            forall|k: int| 0 <= k < r@.len() ==> (#[trigger] r@[k]).0 < self.collections.nodes@.len()
                && r@[k].1@ == self.collections.name_of(r@[k].0 as int),
    {
        let mut r: Vec<(usize, String)> = Vec::new();
        let mut i: usize = 0;
        while i < self.memberships.len()
            invariant
                self.wf(),
                i <= self.memberships@.len(),
                forall|c: usize| #[trigger] lists_collection(r@, c) <==> exists|k: int| 0 <= k < i
                    && (#[trigger] self.memberships@[k]).media == m && self.memberships@[k].collection == c,
                forall|k: int| 0 <= k < r@.len() ==> (#[trigger] r@[k]).0 < self.collections.nodes@.len()
                    && r@[k].1@ == self.collections.name_of(r@[k].0 as int),
            decreases self.memberships@.len() - i,
        {
            let row = self.memberships[i];
            let ghost before = r@;
            if row.media == m {
                assert(row.collection < self.collections.nodes@.len());
                r.push((row.collection, self.collections.nodes[row.collection].name.clone()));
            }
            proof {
                assert forall|c: usize| #[trigger] lists_collection(r@, c) <==> exists|k: int| 0 <= k < i + 1
                    && (#[trigger] self.memberships@[k]).media == m && self.memberships@[k].collection == c by {
                    if lists_collection(r@, c) {
                        let k = choose|k: int| 0 <= k < r@.len() && (#[trigger] r@[k]).0 == c;
                        if k < before.len() {
                            assert(r@[k] == before[k]);
                        }
                    }
                    if lists_collection(before, c) {
                        let k = choose|k: int| 0 <= k < before.len() && (#[trigger] before[k]).0 == c;
                        assert(r@[k] == before[k]);
                    }
                    if exists|k: int| 0 <= k < i + 1 && (#[trigger] self.memberships@[k]).media == m && self.memberships@[k].collection == c {
                        let k = choose|k: int| 0 <= k < i + 1 && (#[trigger] self.memberships@[k]).media == m && self.memberships@[k].collection == c;
                        if k == i {
                            assert(r@[r@.len() - 1].0 == c);
                        }
                    }
                }
                assert forall|k: int| 0 <= k < r@.len() implies (#[trigger] r@[k]).0 < self.collections.nodes@.len()
                    && r@[k].1@ == self.collections.name_of(r@[k].0 as int) by {
                    if k < before.len() {
                        assert(r@[k] == before[k]);
                    }
                }
            }
            i = i + 1;
        }
        r
    }

    /// The row of media item `m`.
    pub fn media_row(&self, m: usize) -> (r: MediaRow)
        requires
            self.wf(),
            m < self.media@.len(),
        ensures
            row_of(self, m, &r),
            r.title == self.media@[m as int].title,
            r.description == self.media@[m as int].description,
            r.distance is None,
    {
        let item: &MediaItem = &self.media[m];
        MediaRow {
            id: m,
            sha256: item.sha256.clone(),
            perceptual_hash: item.perceptual_hash,
            storage_uri: item.storage_uri.clone(),
            title: copy_text(&item.title),
            description: copy_text(&item.description),
            uploaded: item.uploaded,
            tags: self.media_tag_entities(m),
            creators: self.media_creator_names(m),
            sources: self.media_sources(m),
            collections: self.media_collections(m),
            distance: None,
        }
    }

    /// The rows of the media that pass `f`, newest first, cut to the page; every
    /// row has the same shape whatever the filter.
    pub fn search_rows(&self, f: &MediaFilter, p: &Pagination) -> (r: Vec<MediaRow>)
        requires
            self.wf(),
        ensures
            r@.len() == page(search_results(self, f), p.spec_per_page(), p.spec_offset()).len(),
            forall|k: int| 0 <= k < r@.len() ==> row_of(
                self,
                page(search_results(self, f), p.spec_per_page(), p.spec_offset())[k],
                #[trigger] &r@[k],
            ),
    {
        let ids = self.search(f, p);
        proof {
            crate::search::lemma_matching_members(self, f, self.media@.len() as nat, 0);
        }
        let mut r: Vec<MediaRow> = Vec::new();
        let mut i: usize = 0;
        while i < ids.len()
            invariant
                self.wf(),
                i <= ids@.len(),
                r@.len() == i,
                ids@ == page(search_results(self, f), p.spec_per_page(), p.spec_offset()),
                forall|k: int| 0 <= k < i ==> row_of(self, ids@[k], #[trigger] &r@[k]),
            decreases ids@.len() - i,
        {
            proof {
                let all = search_results(self, f);
                let s = crate::paging::min_nat(p.spec_offset(), all.len()) as int;
                assert(ids@[i as int] == all[s + i]);
                assert(all.contains(all[s + i]));
                crate::search::lemma_matching_members(self, f, self.media@.len() as nat, ids@[i as int]);
            }
            let row = self.media_row(ids[i]);
            let ghost before = r@;
            r.push(row);
            proof {
                assert forall|k: int| 0 <= k < i + 1 implies row_of(self, ids@[k], #[trigger] &r@[k]) by {
                    if k < i {
                        assert(r@[k] == before[k]);
                    }
                }
            }
            i = i + 1;
        }
        r
    }

    /// The rows of the media within the maximum distance of `reference`, nearest
    /// first and newest first at equal distance, each with its distance, cut to the page.
    pub fn similar_rows(&self, reference: u64, max_distance: Option<u64>, p: &Pagination) -> (r: Vec<MediaRow>)
        requires
            self.wf(),
        ensures
            r@.len() == page(ranked(candidates_desc(self, self.media@.len()), reference, effective_max(max_distance)),
                p.spec_per_page(), p.spec_offset()).len(),
            forall|k: int| 0 <= k < r@.len() ==> ({
                let e = page(ranked(candidates_desc(self, self.media@.len()), reference, effective_max(max_distance)),
                    p.spec_per_page(), p.spec_offset())[k];
                row_of(self, e.0, #[trigger] &r@[k]) && r@[k].distance == Some(e.1)
            }),
    {
        let found = self.search_by_similarity(reference, max_distance, p);
        let mut r: Vec<MediaRow> = Vec::new();
        let mut i: usize = 0;
        while i < found.len()
            invariant
                self.wf(),
                i <= found@.len(),
                r@.len() == i,
                found@ == page(ranked(candidates_desc(self, self.media@.len()), reference, effective_max(max_distance)),
                    p.spec_per_page(), p.spec_offset()),
                forall|k: int| 0 <= k < i ==> row_of(self, found@[k].0, #[trigger] &r@[k]) && r@[k].distance == Some(found@[k].1),
            decreases found@.len() - i,
        {
            let (id, d) = found[i];
            proof {
                lemma_ranked_ids_valid(self, reference, effective_max(max_distance), p.spec_per_page(), p.spec_offset(), i as int);
            }
            let mut row = self.media_row(id);
            row.distance = Some(d);
            let ghost before = r@;
            r.push(row);
            proof {
                assert forall|k: int| 0 <= k < i + 1 implies row_of(self, found@[k].0, #[trigger] &r@[k]) && r@[k].distance == Some(found@[k].1) by {
                    if k < i {
                        assert(r@[k] == before[k]);
                    }
                }
            }
            i = i + 1;
        }
        r
    }
}

impl Catalog {
    /// The rows of the media similar to media item `id`, as `similar_rows` gives
    /// them for its hash. An unknown item is not found; an item without a
    /// perceptual hash cannot be compared and is a bad request.
    pub fn similar_to_media(&self, id: usize, max_distance: Option<u64>, p: &Pagination) -> (r: Result<Vec<MediaRow>, AppError>)
        requires
            self.wf(),
        ensures
            id >= self.media@.len() ==> r is Err && r->Err_0 is NotFound,
            id < self.media@.len() ==> (r is Err <==> self.media@[id as int].perceptual_hash is None),
            id < self.media@.len() && r is Err ==> r->Err_0 is BadRequest,
            r is Ok ==> ({
                let reference = self.media@[id as int].perceptual_hash->0;
                let found = page(ranked(candidates_desc(self, self.media@.len()), reference, effective_max(max_distance)),
                    p.spec_per_page(), p.spec_offset());
                &&& r->Ok_0@.len() == found.len()
                &&& forall|k: int| 0 <= k < found.len() ==> row_of(self, found[k].0, #[trigger] &r->Ok_0@[k])
                    && r->Ok_0@[k].distance == Some(found[k].1)
            }),
    {
        if id >= self.media.len() {
            return Err(AppError::NotFound(String::from_str("media not found")));
        }
        match self.media[id].perceptual_hash {
            Some(h) => Ok(self.similar_rows(h, max_distance, p)),
            None => Err(AppError::BadRequest(String::from_str("media has no perceptual hash"))),
        }
    }
}

/// The media as candidates are listed newest first: ids strictly decrease.
proof fn lemma_candidates_decreasing(cat: &Catalog, n: nat)
    requires
        n <= usize::MAX,
    ensures
        crate::similarity::ids_decreasing(candidates_desc(cat, n)),
        n <= cat.media@.len() ==> candidates_desc(cat, n).len() == n,
        forall|k: int| 0 <= k < candidates_desc(cat, n).len() ==> (#[trigger] candidates_desc(cat, n)[k]).id == n - 1 - k,
    decreases n,
{
    if n > 0 && n <= cat.media@.len() {
        lemma_candidates_decreasing(cat, (n - 1) as nat);
        let rest = candidates_desc(cat, (n - 1) as nat);
        let whole = candidates_desc(cat, n);
        assert(whole == seq![crate::similarity::Candidate { id: (n - 1) as usize, hash: cat.media@[n - 1].perceptual_hash }] + rest);
        assert forall|k: int| 0 <= k < whole.len() implies (#[trigger] whole[k]).id == n - 1 - k by {
            if k > 0 {
                assert(whole[k] == rest[k - 1]);
            } else {
                assert(whole[0].id == (n - 1) as usize);
            }
        }
    }
}

/// In a page of a similarity search, media at equal distance come newest
/// first: by id, and so by upload time.
pub proof fn lemma_similarity_ties_by_upload(cat: &Catalog, reference: u64, max_distance: Option<u64>, per_page: nat, offset: nat)
    requires
        cat.wf(),
        cat.media@.len() <= usize::MAX,
    ensures
        ({
            let p = page(ranked(candidates_desc(cat, cat.media@.len()), reference, effective_max(max_distance)), per_page, offset);
            forall|i: int, j: int| 0 <= i < j < p.len() && (#[trigger] p[i]).1 == (#[trigger] p[j]).1
                ==> p[i].0 > p[j].0 && cat.media@[p[i].0 as int].uploaded >= cat.media@[p[j].0 as int].uploaded
        }),
{
    let c = candidates_desc(cat, cat.media@.len());
    lemma_candidates_decreasing(cat, cat.media@.len());
    let all = ranked(c, reference, effective_max(max_distance));
    crate::similarity::lemma_ranked_ties(c, reference, effective_max(max_distance));
    let p = page(all, per_page, offset);
    let s = crate::paging::min_nat(offset, all.len()) as int;
    assert forall|i: int, j: int| 0 <= i < j < p.len() && (#[trigger] p[i]).1 == (#[trigger] p[j]).1
        implies p[i].0 > p[j].0 && cat.media@[p[i].0 as int].uploaded >= cat.media@[p[j].0 as int].uploaded by {
        assert(p[i] == all[s + i] && p[j] == all[s + j]);
        lemma_ranked_ids_valid(cat, reference, effective_max(max_distance), per_page, offset, i);
        let a = p[j].0 as int;
        let b = p[i].0 as int;
        assert(cat.media@[a].uploaded <= cat.media@[b].uploaded);
    }
}

/// Every id that a similarity ranking of the catalog lists is a media id.
proof fn lemma_ranked_ids_valid(cat: &Catalog, reference: u64, max: nat, per_page: nat, offset: nat, k: int)
    requires
        0 <= k < page(ranked(candidates_desc(cat, cat.media@.len()), reference, max), per_page, offset).len(),
    ensures
        page(ranked(candidates_desc(cat, cat.media@.len()), reference, max), per_page, offset)[k].0 < cat.media@.len(),
{
    let c = candidates_desc(cat, cat.media@.len());
    lemma_candidates_valid(cat, cat.media@.len());
    let all = ranked(c, reference, max);
    lemma_ranked_valid(c, reference, max, cat.media@.len());
    let s = crate::paging::min_nat(offset, all.len()) as int;
    assert(page(all, per_page, offset)[k] == all[s + k]);
}

proof fn lemma_candidates_valid(cat: &Catalog, n: nat)
    ensures
        forall|k: int| 0 <= k < candidates_desc(cat, n).len() ==> (#[trigger] candidates_desc(cat, n)[k]).id < cat.media@.len(),
    decreases n,
{
    if n > 0 && n <= cat.media@.len() {
        lemma_candidates_valid(cat, (n - 1) as nat);
        let rest = candidates_desc(cat, (n - 1) as nat);
        assert forall|k: int| 0 <= k < candidates_desc(cat, n).len() implies (#[trigger] candidates_desc(cat, n)[k]).id < cat.media@.len() by {
            if k > 0 {
                assert(candidates_desc(cat, n)[k] == rest[k - 1]);
            }
        }
    }
}

proof fn lemma_at_distance_valid(c: Seq<crate::similarity::Candidate>, reference: u64, d: nat, bound: nat)
    requires
        forall|k: int| 0 <= k < c.len() ==> (#[trigger] c[k]).id < bound,
    ensures
        forall|k: int| 0 <= k < crate::similarity::at_distance(c, reference, d).len()
            ==> (#[trigger] crate::similarity::at_distance(c, reference, d)[k]).0 < bound,
    decreases c.len(),
{
    if c.len() > 0 {
        let p = c.drop_last();
        assert forall|k: int| 0 <= k < p.len() implies (#[trigger] p[k]).id < bound by {
            assert(p[k] == c[k]);
        }
        lemma_at_distance_valid(p, reference, d, bound);
        assert(c.last() == c[c.len() - 1]);
        let rest = crate::similarity::at_distance(p, reference, d);
        let whole = crate::similarity::at_distance(c, reference, d);
        assert forall|k: int| 0 <= k < whole.len() implies (#[trigger] whole[k]).0 < bound by {
            if k < rest.len() {
                assert(whole[k] == rest[k]);
            }
        }
    }
}

proof fn lemma_ranked_valid(c: Seq<crate::similarity::Candidate>, reference: u64, max: nat, bound: nat)
    requires
        forall|k: int| 0 <= k < c.len() ==> (#[trigger] c[k]).id < bound,
    ensures
        forall|k: int| 0 <= k < ranked(c, reference, max).len() ==> (#[trigger] ranked(c, reference, max)[k]).0 < bound,
    decreases max,
{
    lemma_at_distance_valid(c, reference, max, bound);
    if max > 0 {
        lemma_ranked_valid(c, reference, (max - 1) as nat, bound);
        let prev = ranked(c, reference, (max - 1) as nat);
        let here = crate::similarity::at_distance(c, reference, max);
        assert forall|k: int| 0 <= k < ranked(c, reference, max).len() implies (#[trigger] ranked(c, reference, max)[k]).0 < bound by {
            if k < prev.len() {
                assert(ranked(c, reference, max)[k] == prev[k]);
            } else {
                assert(ranked(c, reference, max)[k] == here[k - prev.len()]);
            }
        }
    }
}

} // verus!
