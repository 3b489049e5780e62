//! The catalog store: media, tags, creators with aliases, sources and collections,
//! with the relations between them.
//!
//! Every entity's id is its index in its table. Lookup keys (tag text, tag-group
//! name, creator alias) are kept in lowercase; display names keep their casing.

use vstd::prelude::*;
use crate::collections::CollectionTree;
use crate::error::AppError;
use crate::reconcile::{has_row, replace_objects};
use crate::text::{lower_of, lowercase, views_of};

verus! {

/// A stored media item.
#[derive(Debug)]
pub struct MediaItem {
    pub sha256: String,
    pub perceptual_hash: Option<u64>,
    pub storage_uri: String,
    pub title: Option<String>,
    pub description: Option<String>,
    pub uploaded: i64,
}

/// A tag: its lowercase text and its group.
#[derive(Debug)]
pub struct Tag {
    pub tag: String,
    pub group: usize,
}

/// A lowercase name under which a creator is found.
#[derive(Debug)]
pub struct CreatorAlias {
    pub alias: String,
    pub creator: usize,
}

/// A media item's place in a collection; `ord` orders the collection.
#[derive(Debug, Clone, Copy, PartialEq, Eq)]
pub struct Membership {
    pub media: usize,
    pub collection: usize,
    pub ord: i64,
}

/// The whole store.
#[derive(Debug)]
pub struct Catalog {
    pub media: Vec<MediaItem>,
    pub tag_groups: Vec<String>,
    pub tags: Vec<Tag>,
    pub creators: Vec<String>,
    pub aliases: Vec<CreatorAlias>,
    pub collections: CollectionTree,
    pub media_tags: Vec<(usize, usize)>,
    pub collection_tags: Vec<(usize, usize)>,
    pub media_creators: Vec<(usize, usize)>,
    pub collection_creators: Vec<(usize, usize)>,
    pub sources: Vec<(usize, String)>,
    pub memberships: Vec<Membership>,
}

/// Rows whose subjects are below `n` and objects below `k`, none twice.
pub open spec fn rows_valid(rows: Seq<(usize, usize)>, n: nat, k: nat) -> bool {
    &&& rows.no_duplicates()
    &&& forall|i: int| 0 <= i < rows.len() ==> (#[trigger] rows[i]).0 < n && rows[i].1 < k
}

/// The creator that the alias text `a` (already lowercase) names.
pub open spec fn alias_names(aliases: Seq<CreatorAlias>, a: Seq<char>, c: usize) -> bool {
    exists|k: int| 0 <= k < aliases.len() && (#[trigger] aliases[k]).alias@ == a && aliases[k].creator == c
}

impl Catalog {
    pub open spec fn aliases_wf(&self) -> bool {
        &&& forall|i: int| 0 <= i < self.aliases@.len() ==> (#[trigger] self.aliases@[i]).creator < self.creators@.len()
        &&& forall|i: int, j: int|
            0 <= i < j < self.aliases@.len() ==> (#[trigger] self.aliases@[i]).alias@ != (#[trigger] self.aliases@[j]).alias@
    }

    pub open spec fn tags_wf(&self) -> bool {
        &&& forall|i: int| 0 <= i < self.tags@.len() ==> (#[trigger] self.tags@[i]).group < self.tag_groups@.len()
        &&& forall|i: int, j: int|
            0 <= i < j < self.tags@.len() ==> (#[trigger] self.tags@[i]).tag@ != (#[trigger] self.tags@[j]).tag@
        &&& forall|i: int, j: int|
            0 <= i < j < self.tag_groups@.len() ==> (#[trigger] self.tag_groups@[i])@ != (#[trigger] self.tag_groups@[j])@
    }

    pub open spec fn media_wf(&self) -> bool {
        &&& forall|i: int, j: int|
            0 <= i < j < self.media@.len() ==> (#[trigger] self.media@[i]).sha256@ != (#[trigger] self.media@[j]).sha256@
        &&& forall|i: int, j: int|
            0 <= i < j < self.media@.len() ==> (#[trigger] self.media@[i]).uploaded <= (#[trigger] self.media@[j]).uploaded
    }

    pub open spec fn sources_wf(&self) -> bool {
        &&& forall|i: int| 0 <= i < self.sources@.len() ==> (#[trigger] self.sources@[i]).0 < self.media@.len()
        &&& forall|i: int, j: int|
            0 <= i < j < self.sources@.len() ==> !((#[trigger] self.sources@[i]).0 == (#[trigger] self.sources@[j]).0
                && self.sources@[i].1@ == self.sources@[j].1@)
    }

    pub open spec fn memberships_wf(&self) -> bool {
        &&& forall|i: int|
            0 <= i < self.memberships@.len() ==> (#[trigger] self.memberships@[i]).media < self.media@.len()
                && self.memberships@[i].collection < self.collections.nodes@.len()
        &&& forall|i: int, j: int|
            0 <= i < j < self.memberships@.len() ==> !((#[trigger] self.memberships@[i]).media
                == (#[trigger] self.memberships@[j]).media && self.memberships@[i].collection
                == self.memberships@[j].collection)
    }

    /// Keys are unique, every row refers to existing entities, and upload times
    /// never go down along the media ids.
    pub open spec fn wf(&self) -> bool {
        &&& self.collections.wf()
        &&& self.aliases_wf()
        &&& self.tags_wf()
        &&& self.media_wf()
        &&& self.sources_wf()
        &&& self.memberships_wf()
        &&& rows_valid(self.media_tags@, self.media@.len(), self.tags@.len())
        &&& rows_valid(self.collection_tags@, self.collections.nodes@.len(), self.tags@.len())
        &&& rows_valid(self.media_creators@, self.media@.len(), self.creators@.len())
        &&& rows_valid(self.collection_creators@, self.collections.nodes@.len(), self.creators@.len())
    }

    /// The creator that the name `n` is found under, through its lowercase form.
    pub open spec fn resolves(&self, n: Seq<char>, c: usize) -> bool {
        alias_names(self.aliases@, lower_of(n), c)
    }

    /// Whether some creator is found under the name `n`.
    pub open spec fn found(&self, n: Seq<char>) -> bool {
        exists|c: usize| self.resolves(n, c)
    }

    /// An empty catalog.
    pub fn new() -> (r: Self)
        ensures
            r.wf(),
            r.media@.len() == 0,
            r.creators@.len() == 0,
            r.collections.nodes@.len() == 0,
    {
        Catalog {
            media: Vec::new(),
            tag_groups: Vec::new(),
            tags: Vec::new(),
            creators: Vec::new(),
            aliases: Vec::new(),
            collections: CollectionTree::new(),
            media_tags: Vec::new(),
            collection_tags: Vec::new(),
            media_creators: Vec::new(),
            collection_creators: Vec::new(),
            sources: Vec::new(),
            memberships: Vec::new(),
        }
    }

    /// A name resolves to at most one creator.
    pub proof fn lemma_resolves_unique(&self, n: Seq<char>, a: usize, b: usize)
        requires
            self.aliases_wf(),
            self.resolves(n, a),
            self.resolves(n, b),
        ensures
            a == b,
    {
        let i = choose|i: int| 0 <= i < self.aliases@.len() && (#[trigger] self.aliases@[i]).alias@ == lower_of(n) && self.aliases@[i].creator == a;
        let j = choose|j: int| 0 <= j < self.aliases@.len() && (#[trigger] self.aliases@[j]).alias@ == lower_of(n) && self.aliases@[j].creator == b;
        if i < j {
            assert(self.aliases@[i].alias@ != self.aliases@[j].alias@);
        } else if j < i {
            assert(self.aliases@[j].alias@ != self.aliases@[i].alias@);
        }
    }

    /// The creator listed under the lowercase alias `key`, if any.
    pub fn find_alias(&self, key: &String) -> (r: Option<usize>)
        requires
            self.aliases_wf(),
        ensures
            match r {
                Some(c) => alias_names(self.aliases@, key@, c) && c < self.creators@.len(),
                None => forall|c: usize| !alias_names(self.aliases@, key@, c),
            },
    {
        let mut i: usize = 0;
        while i < self.aliases.len()
            invariant
                i <= self.aliases@.len(),
                self.aliases_wf(),
                forall|k: int| 0 <= k < i ==> (#[trigger] self.aliases@[k]).alias@ != key@,
            decreases self.aliases@.len() - i,
        {
            if self.aliases[i].alias == *key {
                assert(self.aliases@[i as int].alias@ == key@);
                assert(alias_names(self.aliases@, key@, self.aliases@[i as int].creator));
                assert(self.aliases@[i as int].creator < self.creators@.len());
                return Some(self.aliases[i].creator);
            }
            i = i + 1;
        }
        None
    }

    /// The creator that `name` is found under, if any.
    pub fn find_creator(&self, name: &str) -> (r: Option<usize>)
        requires
            self.aliases_wf(),
        ensures
            match r {
                Some(c) => self.resolves(name@, c) && c < self.creators@.len(),
                None => forall|c: usize| !self.resolves(name@, c),
            },
    {
        let key = lowercase(name);
        self.find_alias(&key)
    }

    /// The creator that `name` is found under; where there is none, a new creator
    /// with this display name and its lowercase form as alias.
    pub fn ensure_creator(&mut self, name: &str) -> (r: usize)
        requires
            old(self).wf(),
        ensures
            final(self).wf(),
            r < final(self).creators@.len(),
            final(self).resolves(name@, r),
            final(self).aliases@.len() >= old(self).aliases@.len(),
            forall|i: int| 0 <= i < old(self).aliases@.len() ==> #[trigger] final(self).aliases@[i] == old(self).aliases@[i],
            final(self).creators@.len() >= old(self).creators@.len(),
            forall|i: int| 0 <= i < old(self).creators@.len() ==> #[trigger] final(self).creators@[i] == old(self).creators@[i],
            old(self).found(name@) ==> final(self).creators@ == old(self).creators@
                && final(self).aliases@ == old(self).aliases@,
            !old(self).found(name@) ==> r == old(self).creators@.len()
                && final(self).creators@.len() == old(self).creators@.len() + 1
                && final(self).creators@[r as int]@ == name@
                && final(self).aliases@.len() == old(self).aliases@.len() + 1
                && final(self).aliases@.last().alias@ == lower_of(name@)
                && final(self).aliases@.last().creator == r,
            final(self).media@ == old(self).media@,
            final(self).tag_groups@ == old(self).tag_groups@,
            final(self).tags@ == old(self).tags@,
            final(self).collections == old(self).collections,
            final(self).media_tags@ == old(self).media_tags@,
            final(self).collection_tags@ == old(self).collection_tags@,
            final(self).media_creators@ == old(self).media_creators@,
            final(self).collection_creators@ == old(self).collection_creators@,
            final(self).sources@ == old(self).sources@,
            final(self).memberships@ == old(self).memberships@,
    {
        let key = lowercase(name);
        match self.find_alias(&key) {
            Some(c) => c,
            None => {
                let c = self.creators.len();
                let ghost before = *self;
                self.creators.push(name.to_owned());
                self.aliases.push(CreatorAlias { alias: key, creator: c });
                proof {
                    let k = before.aliases@.len() as int;
                    assert(self.aliases@[k].alias@ == lower_of(name@));
                    assert(alias_names(self.aliases@, lower_of(name@), c));
                    assert forall|i: int, j: int| 0 <= i < j < self.aliases@.len()
                        implies (#[trigger] self.aliases@[i]).alias@ != (#[trigger] self.aliases@[j]).alias@ by {
                        if j == k {
                            assert(self.aliases@[i] == before.aliases@[i]);
                            if before.aliases@[i].alias@ == key@ {
                                assert(alias_names(before.aliases@, key@, before.aliases@[i].creator));
                            }
                        } else {
                            assert(self.aliases@[i] == before.aliases@[i]);
                            assert(self.aliases@[j] == before.aliases@[j]);
                        }
                    }
                    assert forall|i: int| 0 <= i < self.aliases@.len() implies (#[trigger] self.aliases@[i]).creator < self.creators@.len() by {
                        if i < k {
                            assert(self.aliases@[i] == before.aliases@[i]);
                        }
                    }
                    assert forall|i: int| 0 <= i < self.media_creators@.len()
                        implies (#[trigger] self.media_creators@[i]).0 < self.media@.len() && self.media_creators@[i].1 < self.creators@.len() by {
                        assert(self.media_creators@[i] == before.media_creators@[i]);
                    }
                    assert forall|i: int| 0 <= i < self.collection_creators@.len()
                        implies (#[trigger] self.collection_creators@[i]).0 < self.collections.nodes@.len() && self.collection_creators@[i].1 < self.creators@.len() by {
                        assert(self.collection_creators@[i] == before.collection_creators@[i]);
                    }
                    assert(!before.found(name@));
                }
                c
            },
        }
    }

    /// Adds `alias` (in lowercase) as a name of `creator`. An alias that names
    /// another creator is refused; one that already names this creator changes nothing.
    pub fn add_alias(&mut self, creator: usize, alias: &str) -> (r: Result<(), AppError>)
        requires
            old(self).wf(),
        ensures
            final(self).wf(),
            creator >= old(self).creators@.len() ==> r is Err && r->Err_0 is NotFound,
            creator < old(self).creators@.len() ==> (r is Err <==> exists|c: usize| c != creator && old(self).resolves(alias@, c)),
            r is Err ==> creator < old(self).creators@.len() ==> r->Err_0 is Exists,
            r is Err ==> *final(self) == *old(self),
            r is Ok ==> final(self).resolves(alias@, creator),
            r is Ok ==> forall|n: Seq<char>, c: usize| old(self).resolves(n, c) ==> #[trigger] final(self).resolves(n, c),
            final(self).creators@ == old(self).creators@,
            final(self).media_creators@ == old(self).media_creators@,
            final(self).collection_creators@ == old(self).collection_creators@,
    {
        if creator >= self.creators.len() {
            return Err(AppError::NotFound(String::from_str("creator not found")));
        }
        let key = lowercase(alias);
        match self.find_alias(&key) {
            Some(c) => {
                if c == creator {
                    proof {
                        assert forall|d: usize| d != creator implies !old(self).resolves(alias@, d) by {
                            if old(self).resolves(alias@, d) {
                                self.lemma_resolves_unique(alias@, d, creator);
                            }
                        }
                    }
                    Ok(())
                } else {
                    assert(c != creator && old(self).resolves(alias@, c));
                    Err(AppError::Exists(String::from_str("alias names another creator")))
                }
            },
            None => {
                let ghost before = *self;
                self.aliases.push(CreatorAlias { alias: key, creator });
                proof {
                    let k = before.aliases@.len() as int;
                    assert(self.aliases@[k].alias@ == lower_of(alias@));
                    assert(alias_names(self.aliases@, lower_of(alias@), creator));
                    assert forall|i: int, j: int| 0 <= i < j < self.aliases@.len()
                        implies (#[trigger] self.aliases@[i]).alias@ != (#[trigger] self.aliases@[j]).alias@ by {
                        assert(self.aliases@[i] == before.aliases@[i]);
                        if j == k {
                            if before.aliases@[i].alias@ == key@ {
                                assert(alias_names(before.aliases@, key@, before.aliases@[i].creator));
                            }
                        } else {
                            assert(self.aliases@[j] == before.aliases@[j]);
                        }
                    }
                    assert forall|i: int| 0 <= i < self.aliases@.len() implies (#[trigger] self.aliases@[i]).creator < self.creators@.len() by {
                        if i < k {
                            assert(self.aliases@[i] == before.aliases@[i]);
                        }
                    }
                    assert forall|n: Seq<char>, c: usize| before.resolves(n, c) implies #[trigger] self.resolves(n, c) by {
                        let i = choose|i: int| 0 <= i < before.aliases@.len() && (#[trigger] before.aliases@[i]).alias@ == lower_of(n) && before.aliases@[i].creator == c;
                        assert(self.aliases@[i] == before.aliases@[i]);
                    }
                }
                Ok(())
            },
        }
    }
}

/// Whether creator `c`, named `n`, was made for a name of `names` that no
/// alias of `before` matched; `ids` are the creators the names went to.
pub open spec fn created_for(before: &Catalog, names: Seq<String>, ids: Seq<usize>, c: int, n: Seq<char>) -> bool {
    exists|k: int| 0 <= k < names.len() && !before.found(names[k]@) && ids[k] == c && n == names[k]@
}

/// Whether the alias row `a` was added for a name of `names` that no alias of
/// `before` matched: its text is that name in lowercase, pointing at the
/// creator the name went to.
pub open spec fn alias_added_for(before: &Catalog, names: Seq<String>, ids: Seq<usize>, a: CreatorAlias) -> bool {
    exists|k: int| 0 <= k < names.len() && !before.found(names[k]@) && a.alias@ == lower_of(names[k]@) && a.creator == ids[k]
}

/// Whether some alias row has the text `a`.
pub open spec fn alias_taken(aliases: Seq<CreatorAlias>, a: Seq<char>) -> bool {
    exists|k: int| 0 <= k < aliases.len() && (#[trigger] aliases[k]).alias@ == a
}

/// Alias rows with distinct texts.
pub open spec fn aliases_distinct(aliases: Seq<CreatorAlias>) -> bool {
    forall|i: int, j: int| 0 <= i < j < aliases.len() ==> (#[trigger] aliases[i]).alias@ != (#[trigger] aliases[j]).alias@
}

/// Adds the alias row `(a, c)` unless a row has the text `a`.
fn add_alias_row(rows: &mut Vec<CreatorAlias>, a: String, c: usize)
    requires
        aliases_distinct(old(rows)@),
    ensures
        aliases_distinct(final(rows)@),
        forall|t: Seq<char>, d: usize| #[trigger] alias_names(final(rows)@, t, d) <==> alias_names(old(rows)@, t, d)
            || (t == a@ && d == c && !alias_taken(old(rows)@, a@)),
        forall|k: int| 0 <= k < final(rows)@.len() ==> (#[trigger] final(rows)@[k]).creator == c || old(rows)@.contains(final(rows)@[k]),
{
    let mut i: usize = 0;
    while i < rows.len()
        invariant
            i <= rows@.len(),
            rows@ == old(rows)@,
            aliases_distinct(rows@),
            forall|k: int| 0 <= k < i ==> (#[trigger] rows@[k]).alias@ != a@,
        decreases rows@.len() - i,
    {
        if rows[i].alias == a {
            assert(alias_taken(rows@, a@));
            assert forall|k: int| 0 <= k < rows@.len() implies (#[trigger] rows@[k]).creator == c || rows@.contains(rows@[k]) by {}
            return;
        }
        i = i + 1;
    }
    let ghost before = rows@;
    let ghost av = a@;
    rows.push(CreatorAlias { alias: a, creator: c });
    proof {
        assert(!alias_taken(before, av));
        assert forall|p: int, q: int| 0 <= p < q < rows@.len() implies (#[trigger] rows@[p]).alias@ != (#[trigger] rows@[q]).alias@ by {
            assert(rows@[p] == before[p]);
            if q < before.len() {
                assert(rows@[q] == before[q]);
            }
        }
        assert forall|t: Seq<char>, d: usize| #[trigger] alias_names(rows@, t, d) <==> alias_names(before, t, d)
            || (t == av && d == c && !alias_taken(before, av)) by {
            if alias_names(before, t, d) {
                let k = choose|k: int| 0 <= k < before.len() && (#[trigger] before[k]).alias@ == t && before[k].creator == d;
                assert(rows@[k] == before[k]);
            }
            if t == av && d == c {
                assert(rows@[before.len() as int].alias@ == av);
            }
            if alias_names(rows@, t, d) {
                let k = choose|k: int| 0 <= k < rows@.len() && (#[trigger] rows@[k]).alias@ == t && rows@[k].creator == d;
                if k < before.len() {
                    assert(rows@[k] == before[k]);
                }
            }
        }
        assert forall|k: int| 0 <= k < rows@.len() implies (#[trigger] rows@[k]).creator == c || before.contains(rows@[k]) by {
            if k < before.len() {
                assert(rows@[k] == before[k]);
            }
        }
    }
}

/// What `sha2::Sha256` digests the bytes `data` to, written as lowercase hex.
pub uninterp spec fn sha256_hex_of(data: Seq<u8>) -> Seq<char>;

/// Relies on `sha2::Sha256::digest` and the lowercase hex formatting of its
/// 32-byte output: two hex digits per byte.
#[verifier::external_body]
fn sha256_hex(data: &[u8]) -> (r: String)
    ensures
        r@ == sha256_hex_of(data@),
        r@.len() == 64,
{
    format!("{:x}", <sha2::Sha256 as sha2::Digest>::digest(data))
}

impl Catalog {
    /// The latest upload time, or `now` for an empty catalog.
    pub open spec fn upload_time(&self, now: i64) -> i64 {
        if self.media@.len() == 0 || self.media@.last().uploaded <= now {
            now
        } else {
            self.media@.last().uploaded
        }
    }

    /// Whether some media item has this content address.
    pub open spec fn has_sha(&self, sha: Seq<char>) -> bool {
        exists|i: int| 0 <= i < self.media@.len() && (#[trigger] self.media@[i]).sha256@ == sha
    }

    /// Stores a new media item under the next id. Its content address must be new.
    /// It is recorded as uploaded at `now`, or at the latest upload time where
    /// that is later, so that upload times never go down along the ids.
    pub fn create_media(
        &mut self,
        sha256: String,
        perceptual_hash: Option<u64>,
        storage_uri: String,
        title: Option<String>,
        description: Option<String>,
        now: i64,
    ) -> (r: Result<usize, AppError>)
        requires
            old(self).wf(),
        ensures
            final(self).wf(),
            r is Err <==> old(self).has_sha(sha256@),
            r is Err ==> r->Err_0 is Exists && *final(self) == *old(self),
            r is Ok ==> r->Ok_0 == old(self).media@.len() && final(self).media@.len() == old(self).media@.len() + 1
                && final(self).media@.drop_last() == old(self).media@
                && final(self).media@.last().sha256@ == sha256@
                && final(self).media@.last().perceptual_hash == perceptual_hash
                && final(self).media@.last().storage_uri@ == storage_uri@
                && final(self).media@.last().title == title
                && final(self).media@.last().description == description
                && final(self).media@.last().uploaded == old(self).upload_time(now),
            final(self).creators@ == old(self).creators@,
            final(self).aliases@ == old(self).aliases@,
            final(self).media_creators@ == old(self).media_creators@,
            final(self).media_tags@ == old(self).media_tags@,
            final(self).memberships@ == old(self).memberships@,
    {
        let mut i: usize = 0;
        while i < self.media.len()
            invariant
                i <= self.media@.len(),
                self.wf(),
                *self == *old(self),
                forall|k: int| 0 <= k < i ==> (#[trigger] self.media@[k]).sha256@ != sha256@,
            decreases self.media@.len() - i,
        {
            if self.media[i].sha256 == sha256 {
                assert(self.media@[i as int].sha256@ == sha256@);
                return Err(AppError::Exists(String::from_str("media with this content exists")));
            }
            i = i + 1;
        }
        let n = self.media.len();
        let uploaded = if n > 0 && self.media[n - 1].uploaded > now {
            self.media[n - 1].uploaded
        } else {
            now
        };
        let ghost before = *self;
        self.media.push(MediaItem { sha256, perceptual_hash, storage_uri, title, description, uploaded });
        proof {
            assert(self.media@.drop_last() =~= before.media@);
            assert forall|a: int, b: int| 0 <= a < b < self.media@.len()
                implies (#[trigger] self.media@[a]).sha256@ != (#[trigger] self.media@[b]).sha256@
                && self.media@[a].uploaded <= self.media@[b].uploaded by {
                assert(self.media@[a] == before.media@[a]);
                if b < n {
                    assert(self.media@[b] == before.media@[b]);
                } else {
                    assert(before.media@[a].uploaded <= before.media@[n - 1].uploaded || a == n - 1);
                }
            }
            assert forall|k: int| 0 <= k < self.sources@.len() implies (#[trigger] self.sources@[k]).0 < self.media@.len() by {
                assert(self.sources@[k] == before.sources@[k]);
            }
            assert forall|k: int| 0 <= k < self.memberships@.len() implies (#[trigger] self.memberships@[k]).media < self.media@.len()
                && self.memberships@[k].collection < self.collections.nodes@.len() by {
                assert(self.memberships@[k] == before.memberships@[k]);
            }
            assert forall|k: int| 0 <= k < self.media_tags@.len() implies (#[trigger] self.media_tags@[k]).0 < self.media@.len()
                && self.media_tags@[k].1 < self.tags@.len() by {
                assert(self.media_tags@[k] == before.media_tags@[k]);
            }
            assert forall|k: int| 0 <= k < self.media_creators@.len() implies (#[trigger] self.media_creators@[k]).0 < self.media@.len()
                && self.media_creators@[k].1 < self.creators@.len() by {
                assert(self.media_creators@[k] == before.media_creators@[k]);
            }
        }
        Ok(n)
    }

    /// Stores the content `data` as a new media item, addressed by its SHA-256
    /// digest; content that is already stored is refused.
    pub fn create_media_from_bytes(
        &mut self,
        data: &[u8],
        perceptual_hash: Option<u64>,
        storage_uri: String,
        title: Option<String>,
        description: Option<String>,
        now: i64,
    ) -> (r: Result<usize, AppError>)
        requires
            old(self).wf(),
        ensures
            final(self).wf(),
            r is Err <==> old(self).has_sha(sha256_hex_of(data@)),
            r is Err ==> r->Err_0 is Exists && *final(self) == *old(self),
            r is Ok ==> r->Ok_0 == old(self).media@.len() && final(self).media@.len() == old(self).media@.len() + 1
                && final(self).media@.drop_last() == old(self).media@
                && final(self).media@.last().sha256@ == sha256_hex_of(data@)
                && final(self).media@.last().perceptual_hash == perceptual_hash
                && final(self).media@.last().storage_uri@ == storage_uri@
                && final(self).media@.last().title == title
                && final(self).media@.last().description == description
                && final(self).media@.last().uploaded == old(self).upload_time(now),
    {
        let sha = sha256_hex(data);
        self.create_media(sha, perceptual_hash, storage_uri, title, description, now)
    }
}

impl Catalog {
    /// The creators that the names `names` are found under, in order. A name
    /// whose lowercase form no alias matched gets a new creator with that display
    /// name and that alias (later names equal to it in lowercase then find it);
    /// no other creator or alias is added, and an empty list changes nothing.
    pub fn ensure_creators(&mut self, names: &Vec<String>) -> (ids: Vec<usize>)
        requires
            old(self).wf(),
        ensures
            final(self).wf(),
            ids@.len() == names@.len(),
            forall|k: int| 0 <= k < names@.len() ==> final(self).resolves(names@[k]@, #[trigger] ids@[k])
                && ids@[k] < final(self).creators@.len(),
            forall|n: Seq<char>, c: usize| old(self).resolves(n, c) ==> #[trigger] final(self).resolves(n, c),
            final(self).creators@.len() >= old(self).creators@.len(),
            (forall|k: int| 0 <= k < names@.len() ==> old(self).found(#[trigger] names@[k]@))
                ==> final(self).creators@ == old(self).creators@ && final(self).aliases@ == old(self).aliases@,
            names@.len() == 0 ==> *final(self) == *old(self),
            forall|k: int| 0 <= k < names@.len() && old(self).found(names@[k]@) ==> old(self).resolves(names@[k]@, #[trigger] ids@[k]),
            forall|k: int| 0 <= k < names@.len() && !old(self).found(names@[k]@) ==> (#[trigger] ids@[k]) >= old(self).creators@.len(),
            forall|k1: int, k2: int| 0 <= k1 < names@.len() && 0 <= k2 < names@.len() && !old(self).found(names@[k1]@)
                && !old(self).found(names@[k2]@) && lower_of(names@[k1]@) != lower_of(names@[k2]@)
                ==> #[trigger] ids@[k1] != #[trigger] ids@[k2],
            forall|k: int| 0 <= k < names@.len() && !old(self).found(names@[k]@)
                && (forall|j: int| 0 <= j < k ==> lower_of((#[trigger] names@[j])@) != lower_of(names@[k]@))
                ==> final(self).creators@[#[trigger] ids@[k] as int]@ == names@[k]@,
            forall|i: int| 0 <= i < old(self).creators@.len() ==> #[trigger] final(self).creators@[i] == old(self).creators@[i],
            forall|c: int| old(self).creators@.len() <= c < final(self).creators@.len()
                ==> #[trigger] created_for(old(self), names@, ids@, c, final(self).creators@[c]@),
            final(self).aliases@.len() >= old(self).aliases@.len(),
            forall|i: int| 0 <= i < old(self).aliases@.len() ==> #[trigger] final(self).aliases@[i] == old(self).aliases@[i],
            forall|a: int| old(self).aliases@.len() <= a < final(self).aliases@.len()
                ==> #[trigger] alias_added_for(old(self), names@, ids@, final(self).aliases@[a]),
            final(self).media@ == old(self).media@,
            final(self).tag_groups@ == old(self).tag_groups@,
            final(self).tags@ == old(self).tags@,
            final(self).media_tags@ == old(self).media_tags@,
            final(self).collection_tags@ == old(self).collection_tags@,
            final(self).collections == old(self).collections,
            final(self).media_creators@ == old(self).media_creators@,
            final(self).collection_creators@ == old(self).collection_creators@,
            final(self).sources@ == old(self).sources@,
            final(self).memberships@ == old(self).memberships@,
    {
        let ghost start = *self;
        let ghost mut origin: Seq<int> = Seq::empty();
        let ghost mut alias_origin: Seq<int> = Seq::empty();
        let mut ids: Vec<usize> = Vec::new();
        let mut i: usize = 0;
        while i < names.len()
            invariant
                self.wf(),
                i <= names@.len(),
                ids@.len() == i,
                forall|k: int| 0 <= k < i ==> self.resolves(names@[k]@, #[trigger] ids@[k]) && ids@[k] < self.creators@.len(),
                forall|n: Seq<char>, c: usize| start.resolves(n, c) ==> #[trigger] self.resolves(n, c),
                self.creators@.len() >= start.creators@.len(),
                (forall|k: int| 0 <= k < names@.len() ==> start.found(#[trigger] names@[k]@))
                    ==> self.creators@ == start.creators@ && self.aliases@ == start.aliases@,
                i == 0 ==> *self == start,
                forall|k: int| 0 <= k < i && start.found(names@[k]@) ==> start.resolves(names@[k]@, #[trigger] ids@[k]),
                forall|k: int| 0 <= k < i && !start.found(names@[k]@) ==> (#[trigger] ids@[k]) >= start.creators@.len(),
                forall|k1: int, k2: int| 0 <= k1 < i && 0 <= k2 < i && !start.found(names@[k1]@)
                    && !start.found(names@[k2]@) && #[trigger] ids@[k1] == #[trigger] ids@[k2]
                    ==> lower_of(names@[k1]@) == lower_of(names@[k2]@),
                forall|k: int| 0 <= k < i && !start.found(names@[k]@)
                    && (forall|j: int| 0 <= j < k ==> lower_of((#[trigger] names@[j])@) != lower_of(names@[k]@))
                    ==> self.creators@[#[trigger] ids@[k] as int]@ == names@[k]@,
                forall|j: int| 0 <= j < start.creators@.len() ==> #[trigger] self.creators@[j] == start.creators@[j],
                origin.len() == self.creators@.len() - start.creators@.len(),
                forall|c: int| start.creators@.len() <= c < self.creators@.len() ==> 0 <= #[trigger] origin[c - start.creators@.len()] < i
                    && !start.found(names@[origin[c - start.creators@.len()]]@) && ids@[origin[c - start.creators@.len()]] == c
                    && self.creators@[c]@ == names@[origin[c - start.creators@.len()]]@,
                self.aliases@.len() >= start.aliases@.len(),
                forall|j: int| 0 <= j < start.aliases@.len() ==> #[trigger] self.aliases@[j] == start.aliases@[j],
                alias_origin.len() == self.aliases@.len() - start.aliases@.len(),
                forall|a: int| start.aliases@.len() <= a < self.aliases@.len() ==> 0 <= #[trigger] alias_origin[a - start.aliases@.len()] < i
                    && !start.found(names@[alias_origin[a - start.aliases@.len()]]@)
                    && self.aliases@[a].alias@ == lower_of(names@[alias_origin[a - start.aliases@.len()]]@)
                    && self.aliases@[a].creator == ids@[alias_origin[a - start.aliases@.len()]],
                self.media@ == start.media@,
                self.tag_groups@ == start.tag_groups@,
                self.tags@ == start.tags@,
                self.media_tags@ == start.media_tags@,
                self.collection_tags@ == start.collection_tags@,
                self.collections == start.collections,
                self.media_creators@ == start.media_creators@,
                self.collection_creators@ == start.collection_creators@,
                self.sources@ == start.sources@,
                self.memberships@ == start.memberships@,
            decreases names@.len() - i,
        {
            let ghost prev = *self;
            let ghost prev_ids = ids@;
            let ghost nm = names@[i as int]@;
            let c = self.ensure_creator(names[i].as_str());
            proof {
                let ni = i as int;
                if start.found(nm) {
                    let c0 = choose|c0: usize| start.resolves(nm, c0);
                    assert(prev.resolves(nm, c0));
                    assert(self.resolves(nm, c0));
                    self.lemma_resolves_unique(nm, c0, c);
                } else if prev.found(nm) {
                    let d = choose|d: usize| prev.resolves(nm, d);
                    let a = choose|a: int| 0 <= a < prev.aliases@.len() && (#[trigger] prev.aliases@[a]).alias@ == lower_of(nm) && prev.aliases@[a].creator == d;
                    if a < start.aliases@.len() {
                        assert(start.aliases@[a] == prev.aliases@[a]);
                        assert(start.resolves(nm, d));
                    }
                    let k = alias_origin[a - start.aliases@.len()];
                    assert(prev_ids[k] >= start.creators@.len());
                    assert(self.resolves(nm, d));
                    self.lemma_resolves_unique(nm, d, c);
                }
                assert forall|n: Seq<char>, d: usize| prev.resolves(n, d) implies #[trigger] self.resolves(n, d) by {
                    let j = choose|j: int| 0 <= j < prev.aliases@.len() && (#[trigger] prev.aliases@[j]).alias@ == lower_of(n) && prev.aliases@[j].creator == d;
                    assert(self.aliases@[j] == prev.aliases@[j]);
                }
                if forall|k: int| 0 <= k < names@.len() ==> start.found(#[trigger] names@[k]@) {
                    assert(start.found(names@[i as int]@));
                    let c0 = choose|c0: usize| start.resolves(names@[i as int]@, c0);
                    assert(prev.resolves(names@[i as int]@, c0));
                    assert(prev.found(names@[i as int]@));
                }
            }
            ids.push(c);
            i = i + 1;
            proof {
                let ni = i - 1;
                assert(ids@[ni] == c);
                assert forall|k: int| 0 <= k < i && start.found(names@[k]@) implies start.resolves(names@[k]@, #[trigger] ids@[k]) by {
                    if k < ni {
                        assert(ids@[k] == prev_ids[k]);
                    }
                }
                assert forall|k: int| 0 <= k < i && !start.found(names@[k]@) implies (#[trigger] ids@[k]) >= start.creators@.len() by {
                    if k < ni {
                        assert(ids@[k] == prev_ids[k]);
                    }
                }
                if self.creators@.len() > prev.creators@.len() {
                    assert(!prev.found(nm));
                    assert(!start.found(nm)) by {
                        if start.found(nm) {
                            let c0 = choose|c0: usize| start.resolves(nm, c0);
                            assert(prev.resolves(nm, c0));
                        }
                    }
                    origin = origin.push(ni);
                    alias_origin = alias_origin.push(ni);
                }
                assert forall|d: int| #![trigger self.creators@[d]] start.creators@.len() <= d < self.creators@.len() implies {
                    let k = origin[d - start.creators@.len()];
                    0 <= k < i && !start.found(names@[k]@) && ids@[k] == d && self.creators@[d]@ == names@[k]@
                } by {
                    if d < prev.creators@.len() {
                        assert(self.creators@[d] == prev.creators@[d]);
                        let k = origin[d - start.creators@.len()];
                        assert(ids@[k] == prev_ids[k]);
                    }
                }
                assert forall|a: int| #![trigger self.aliases@[a]] start.aliases@.len() <= a < self.aliases@.len() implies {
                    let k = alias_origin[a - start.aliases@.len()];
                    0 <= k < i && !start.found(names@[k]@) && self.aliases@[a].alias@ == lower_of(names@[k]@)
                        && self.aliases@[a].creator == ids@[k]
                } by {
                    if a < prev.aliases@.len() {
                        assert(self.aliases@[a] == prev.aliases@[a]);
                        let k = alias_origin[a - start.aliases@.len()];
                        assert(ids@[k] == prev_ids[k]);
                    }
                }
                let found_new = prev.found(nm) && !start.found(nm);
                let mut k0: int = 0;
                if found_new {
                    let d = choose|d: usize| prev.resolves(nm, d);
                    let a = choose|a: int| 0 <= a < prev.aliases@.len() && (#[trigger] prev.aliases@[a]).alias@ == lower_of(nm) && prev.aliases@[a].creator == d;
                    if a < start.aliases@.len() {
                        assert(start.aliases@[a] == prev.aliases@[a]);
                        assert(start.resolves(nm, d));
                    }
                    k0 = alias_origin[a - start.aliases@.len()];
                    assert(self.resolves(nm, d));
                    self.lemma_resolves_unique(nm, d, c);
                    assert(0 <= k0 < ni && !start.found(names@[k0]@) && lower_of(names@[k0]@) == lower_of(nm) && prev_ids[k0] == c);
                }
                assert forall|k1: int, k2: int| 0 <= k1 < i && 0 <= k2 < i && !start.found(names@[k1]@)
                    && !start.found(names@[k2]@) && #[trigger] ids@[k1] == #[trigger] ids@[k2]
                    implies lower_of(names@[k1]@) == lower_of(names@[k2]@) by {
                    if k1 < ni && k2 < ni {
                        assert(ids@[k1] == prev_ids[k1] && ids@[k2] == prev_ids[k2]);
                    } else if k1 != k2 {
                        let other = if k1 == ni { k2 } else { k1 };
                        assert(ids@[other] == prev_ids[other]);
                        assert(prev_ids[other] < prev.creators@.len());
                        if !prev.found(nm) {
                            assert(c == prev.creators@.len());
                        } else {
                            assert(prev_ids[k0] == prev_ids[other]);
                        }
                    }
                }
                assert forall|k: int| 0 <= k < i && !start.found(names@[k]@)
                    && (forall|j: int| 0 <= j < k ==> lower_of((#[trigger] names@[j])@) != lower_of(names@[k]@))
                    implies self.creators@[#[trigger] ids@[k] as int]@ == names@[k]@ by {
                    if k < ni {
                        assert(ids@[k] == prev_ids[k]);
                        assert(prev_ids[k] < prev.creators@.len());
                        assert(self.creators@[prev_ids[k] as int] == prev.creators@[prev_ids[k] as int]);
                    } else {
                        if prev.found(nm) {
                            assert(lower_of(names@[k0]@) != lower_of(names@[ni]@));
                        }
                    }
                }
            }
        }
        proof {
            assert(*old(self) == start);
            assert forall|c: int| old(self).creators@.len() <= c < self.creators@.len()
                implies #[trigger] created_for(old(self), names@, ids@, c, self.creators@[c]@) by {
                let k = origin[c - old(self).creators@.len()];
                assert(0 <= k < names@.len());
                assert(ids@[k] == c);
                assert(self.creators@[c]@ == names@[k]@);
                assert(!old(self).found(names@[k]@));
            }
            assert forall|a: int| old(self).aliases@.len() <= a < self.aliases@.len()
                implies #[trigger] alias_added_for(old(self), names@, ids@, self.aliases@[a]) by {
                let k = alias_origin[a - old(self).aliases@.len()];
                assert(0 <= k < names@.len() && !old(self).found(names@[k]@) && self.aliases@[a].alias@ == lower_of(names@[k]@)
                    && self.aliases@[a].creator == ids@[k]);
            }
        }
        ids
    }

    /// Gives media item `m` exactly the creators that `desired` names, creating a
    /// creator for each name found under none. `None` asks for no change; an
    /// empty list removes every creator of the item.
    pub fn reconcile_media_creators(&mut self, m: usize, desired: Option<Vec<String>>) -> (r: Result<(), AppError>)
        requires
            old(self).wf(),
        ensures
            final(self).wf(),
            r is Err <==> m >= old(self).media@.len(),
            r is Err ==> r->Err_0 is NotFound && *final(self) == *old(self),
            r is Ok && desired is None ==> *final(self) == *old(self),
            r is Ok && desired is Some ==> creators_reconciled(old(self), final(self), m, views_of(desired->0@)),
            final(self).media@ == old(self).media@,
            final(self).tags@ == old(self).tags@,
            final(self).tag_groups@ == old(self).tag_groups@,
            final(self).collection_tags@ == old(self).collection_tags@,
            final(self).media_tags@ == old(self).media_tags@,
            final(self).collections == old(self).collections,
            final(self).collection_creators@ == old(self).collection_creators@,
            final(self).sources@ == old(self).sources@,
            final(self).memberships@ == old(self).memberships@,
    {
        if m >= self.media.len() {
            return Err(AppError::NotFound(String::from_str("media not found")));
        }
        let names = match desired {
            None => {
                return Ok(());
            },
            Some(names) => names,
        };
        let ghost start = *self;
        let ghost dv = views_of(names@);
        let ids = self.ensure_creators(&names);
        let ghost mid = *self;
        let ghost old_rows = self.media_creators@;
        replace_objects(&mut self.media_creators, m, &ids);
        proof {
            self.lemma_rows_name_exactly(&start, &mid, old_rows, self.media_creators@, m, names@, ids@);
            self.lemma_new_creators(&start, &mid, names@, ids@);
            assert forall|x: int| 0 <= x < self.media_creators@.len() implies (#[trigger] self.media_creators@[x]).0 < self.media@.len()
                && self.media_creators@[x].1 < self.creators@.len() by {
                let (a, b) = self.media_creators@[x];
                assert(has_row(self.media_creators@, a, b));
                if a == m {
                    let k = choose|k: int| 0 <= k < ids@.len() && ids@[k] == b;
                } else {
                    let y = choose|y: int| 0 <= y < old_rows.len() && old_rows[y] == (a, b);
                }
            }
            assert(self.aliases@ == mid.aliases@);
            assert forall|n: Seq<char>, c: usize| start.resolves(n, c) implies #[trigger] self.resolves(n, c) by {
                assert(mid.resolves(n, c));
            }
            assert((forall|i: int| 0 <= i < dv.len() ==> start.found(#[trigger] dv[i])) ==> (forall|k: int| 0 <= k < names@.len() ==> start.found(#[trigger] names@[k]@))) by {
                if forall|i: int| 0 <= i < dv.len() ==> start.found(#[trigger] dv[i]) {
                    assert forall|k: int| 0 <= k < names@.len() implies start.found(#[trigger] names@[k]@) by {
                        assert(dv[k] == names@[k]@);
                    }
                }
            }
        }
        Ok(())
    }

    /// Gives collection `c` exactly the creators that `desired` names, creating a
    /// creator for each name found under none. `None` asks for no change.
    pub fn reconcile_collection_creators(&mut self, c: usize, desired: Option<Vec<String>>) -> (r: Result<(), AppError>)
        requires
            old(self).wf(),
        ensures
            final(self).wf(),
            r is Err <==> c >= old(self).collections.nodes@.len(),
            r is Err ==> r->Err_0 is NotFound && *final(self) == *old(self),
            r is Ok && desired is None ==> *final(self) == *old(self),
            r is Ok && desired is Some ==> names_reconciled(old(self), final(self), old(self).collection_creators@,
                final(self).collection_creators@, c, views_of(desired->0@)),
            final(self).media@ == old(self).media@,
            final(self).tags@ == old(self).tags@,
            final(self).media_tags@ == old(self).media_tags@,
            final(self).collections == old(self).collections,
            final(self).media_creators@ == old(self).media_creators@,
            final(self).sources@ == old(self).sources@,
            final(self).memberships@ == old(self).memberships@,
    {
        if c >= self.collections.nodes.len() {
            return Err(AppError::NotFound(String::from_str("collection not found")));
        }
        let names = match desired {
            None => {
                return Ok(());
            },
            Some(names) => names,
        };
        let ghost start = *self;
        let ghost dv = views_of(names@);
        let ids = self.ensure_creators(&names);
        let ghost mid = *self;
        let ghost old_rows = self.collection_creators@;
        replace_objects(&mut self.collection_creators, c, &ids);
        proof {
            self.lemma_rows_name_exactly(&start, &mid, old_rows, self.collection_creators@, c, names@, ids@);
            self.lemma_new_creators(&start, &mid, names@, ids@);
            assert forall|x: int| 0 <= x < self.collection_creators@.len() implies (#[trigger] self.collection_creators@[x]).0 < self.collections.nodes@.len()
                && self.collection_creators@[x].1 < self.creators@.len() by {
                let (a, b) = self.collection_creators@[x];
                assert(has_row(self.collection_creators@, a, b));
                if a == c {
                    let k = choose|k: int| 0 <= k < ids@.len() && ids@[k] == b;
                } else {
                    let y = choose|y: int| 0 <= y < old_rows.len() && old_rows[y] == (a, b);
                }
            }
            assert(self.aliases@ == mid.aliases@);
            assert forall|n: Seq<char>, d: usize| start.resolves(n, d) implies #[trigger] self.resolves(n, d) by {
                assert(mid.resolves(n, d));
            }
            assert((forall|i: int| 0 <= i < dv.len() ==> start.found(#[trigger] dv[i])) ==> (forall|k: int| 0 <= k < names@.len() ==> start.found(#[trigger] names@[k]@))) by {
                if forall|i: int| 0 <= i < dv.len() ==> start.found(#[trigger] dv[i]) {
                    assert forall|k: int| 0 <= k < names@.len() implies start.found(#[trigger] names@[k]@) by {
                        assert(dv[k] == names@[k]@);
                    }
                }
            }
        }
        Ok(())
    }

    /// The creators that resolving `names` added are exactly those made for
    /// names that no alias matched before.
    proof fn lemma_new_creators(&self, start: &Catalog, mid: &Catalog, names: Seq<String>, ids: Seq<usize>)
        requires
            self.aliases_wf(),
            self.aliases@ == mid.aliases@,
            self.creators@ == mid.creators@,
            ids.len() == names.len(),
            forall|k: int| 0 <= k < names.len() ==> mid.resolves(names[k]@, #[trigger] ids[k]),
            forall|k: int| 0 <= k < names.len() && !start.found(names[k]@) ==> (#[trigger] ids[k]) >= start.creators@.len(),
            forall|c: int| start.creators@.len() <= c < mid.creators@.len()
                ==> #[trigger] created_for(start, names, ids, c, mid.creators@[c]@),
        ensures
            forall|i: int, c: usize| 0 <= i < views_of(names).len() && !start.found(views_of(names)[i])
                && #[trigger] self.resolves(views_of(names)[i], c) ==> c >= start.creators@.len(),
            forall|c: int| start.creators@.len() <= c < self.creators@.len() ==> #[trigger] made_for(start, self, views_of(names), c),
    {
        let dv = views_of(names);
        assert forall|i: int, c: usize| 0 <= i < dv.len() && !start.found(dv[i]) && #[trigger] self.resolves(dv[i], c)
            implies c >= start.creators@.len() by {
            assert(dv[i] == names[i]@);
            assert(mid.resolves(names[i]@, ids[i]));
            self.lemma_resolves_unique(dv[i], c, ids[i]);
        }
        assert forall|c: int| start.creators@.len() <= c < self.creators@.len() implies #[trigger] made_for(start, self, dv, c) by {
            assert(created_for(start, names, ids, c, mid.creators@[c]@));
            let k = choose|k: int| 0 <= k < names.len() && !start.found(names[k]@) && ids[k] == c && mid.creators@[c]@ == names[k]@;
            assert(dv[k] == names[k]@);
            assert(mid.resolves(names[k]@, ids[k]));
            assert(self.resolves(dv[k], c as usize));
        }
    }

    /// After a subject's rows were replaced by the creators its names were found
    /// under, it is related to exactly the creators some name is found under.
    proof fn lemma_rows_name_exactly(
        &self,
        start: &Catalog,
        mid: &Catalog,
        rows_before: Seq<(usize, usize)>,
        rows_after: Seq<(usize, usize)>,
        s: usize,
        names: Seq<String>,
        ids: Seq<usize>,
    )
        requires
            self.aliases_wf(),
            self.aliases@ == mid.aliases@,
            ids.len() == names.len(),
            forall|k: int| 0 <= k < names.len() ==> mid.resolves(names[k]@, #[trigger] ids[k]),
            forall|a: usize, b: usize| has_row(rows_after, a, b) <==> crate::reconcile::replaced(rows_before, s, ids, a, b),
        ensures
            forall|k: int| 0 <= k < views_of(names).len() ==> self.found(#[trigger] views_of(names)[k]),
            forall|a: usize, b: usize| #[trigger] has_row(rows_after, a, b) <==> if a == s {
                exists|i: int| 0 <= i < views_of(names).len() && self.resolves(#[trigger] views_of(names)[i], b)
            } else {
                has_row(rows_before, a, b)
            },
    {
        let dv = views_of(names);
        assert forall|k: int| 0 <= k < dv.len() implies self.found(#[trigger] dv[k]) by {
            assert(mid.resolves(names[k]@, ids[k]));
            assert(self.resolves(dv[k], ids[k]));
        }
        assert forall|a: usize, b: usize| #[trigger] has_row(rows_after, a, b) <==> if a == s {
            exists|i: int| 0 <= i < dv.len() && self.resolves(#[trigger] dv[i], b)
        } else {
            has_row(rows_before, a, b)
        } by {
            if a == s {
                if ids.contains(b) {
                    let k = choose|k: int| 0 <= k < ids.len() && ids[k] == b;
                    assert(mid.resolves(names[k]@, ids[k]));
                    assert(self.resolves(dv[k], b));
                }
                if exists|i: int| 0 <= i < dv.len() && self.resolves(#[trigger] dv[i], b) {
                    let k = choose|k: int| 0 <= k < dv.len() && self.resolves(#[trigger] dv[k], b);
                    assert(mid.resolves(names[k]@, ids[k]));
                    assert(self.resolves(dv[k], ids[k]));
                    self.lemma_resolves_unique(dv[k], b, ids[k]);
                    assert(ids.contains(b));
                }
            }
        }
    }
}

/// What giving subject `s` the creators that the names `desired` are found under
/// leaves, for the relation that is `rows_before` before and `rows_after` after:
/// every name is found under some creator, `s` is related to exactly the
/// creators its names are found under, other subjects keep their rows, names
/// found before stay found, and where every name was found before, no creator or
/// alias is added.
pub open spec fn names_reconciled(
    before: &Catalog,
    after: &Catalog,
    rows_before: Seq<(usize, usize)>,
    rows_after: Seq<(usize, usize)>,
    s: usize,
    desired: Seq<Seq<char>>,
) -> bool {
    &&& forall|i: int| 0 <= i < desired.len() ==> after.found(#[trigger] desired[i])
    &&& forall|a: usize, b: usize| #[trigger] has_row(rows_after, a, b) <==> if a == s {
        exists|i: int| 0 <= i < desired.len() && after.resolves(#[trigger] desired[i], b)
    } else {
        has_row(rows_before, a, b)
    }
    &&& forall|n: Seq<char>, c: usize| before.resolves(n, c) ==> #[trigger] after.resolves(n, c)
    &&& (forall|i: int| 0 <= i < desired.len() ==> before.found(#[trigger] desired[i]))
        ==> after.creators@ == before.creators@ && after.aliases@ == before.aliases@
    &&& forall|i: int, c: usize| 0 <= i < desired.len() && !before.found(desired[i]) && #[trigger] after.resolves(desired[i], c)
        ==> c >= before.creators@.len()
    &&& after.creators@.len() >= before.creators@.len()
    &&& forall|c: int| 0 <= c < before.creators@.len() ==> #[trigger] after.creators@[c] == before.creators@[c]
    &&& forall|c: int| before.creators@.len() <= c < after.creators@.len() ==> #[trigger] made_for(before, after, desired, c)
}

/// Whether creator `c` of `after` was made for a name of `desired` that no
/// alias of `before` matched: the name is found under it, and it is its display name.
pub open spec fn made_for(before: &Catalog, after: &Catalog, desired: Seq<Seq<char>>, c: int) -> bool {
    exists|i: int| 0 <= i < desired.len() && !before.found(desired[i]) && after.resolves(desired[i], c as usize)
        && after.creators@[c]@ == desired[i]
}

/// What reconciling media item `m`'s creators with the names `desired` leaves.
pub open spec fn creators_reconciled(before: &Catalog, after: &Catalog, m: usize, desired: Seq<Seq<char>>) -> bool {
    names_reconciled(before, after, before.media_creators@, after.media_creators@, m, desired)
}

/// Reconciling twice with the same names leaves what reconciling once left: no
/// creator or alias is added and the relation rows are the same.
pub proof fn lemma_creators_idempotent(c0: &Catalog, c1: &Catalog, c2: &Catalog, m: usize, desired: Seq<Seq<char>>)
    requires
        c1.wf(),
        creators_reconciled(c0, c1, m, desired),
        creators_reconciled(c1, c2, m, desired),
    ensures
        c2.creators@ == c1.creators@,
        c2.aliases@ == c1.aliases@,
        forall|a: usize, b: usize| has_row(c2.media_creators@, a, b) <==> has_row(c1.media_creators@, a, b),
{
    assert forall|i: int| 0 <= i < desired.len() implies c1.found(#[trigger] desired[i]) by {}
    assert(c2.aliases@ == c1.aliases@);
    assert forall|a: usize, b: usize| has_row(c2.media_creators@, a, b) <==> has_row(c1.media_creators@, a, b) by {
        if a == m {
            if exists|i: int| 0 <= i < desired.len() && c2.resolves(#[trigger] desired[i], b) {
                let i = choose|i: int| 0 <= i < desired.len() && c2.resolves(#[trigger] desired[i], b);
                assert(c1.resolves(desired[i], b));
            }
            if exists|i: int| 0 <= i < desired.len() && c1.resolves(#[trigger] desired[i], b) {
                let i = choose|i: int| 0 <= i < desired.len() && c1.resolves(#[trigger] desired[i], b);
                assert(c2.resolves(desired[i], b));
            }
        }
    }
}

impl Catalog {
    /// Updates creator `id`: its display name where one is given, and its
    /// aliases, where given, to exactly the lowercase forms of `aliases`. An
    /// unknown creator is not found, an alias of another creator conflicts, and
    /// on either nothing changes.
    pub fn update_creator(&mut self, id: usize, name: Option<String>, aliases: Option<Vec<String>>) -> (r: Result<(), AppError>)
        requires
            old(self).wf(),
        ensures
            final(self).wf(),
            id >= old(self).creators@.len() ==> r is Err && r->Err_0 is NotFound,
            id < old(self).creators@.len() ==> (r is Err <==> aliases is Some && exists|i: int, c: usize|
                0 <= i < aliases->0@.len() && c != id && #[trigger] old(self).resolves(aliases->0@[i]@, c)),
            id < old(self).creators@.len() && r is Err ==> r->Err_0 is Exists,
            r is Err ==> *final(self) == *old(self),
            r is Ok ==> final(self).creators@.len() == old(self).creators@.len(),
            r is Ok ==> forall|k: int| 0 <= k < old(self).creators@.len() && k != id ==> #[trigger] final(self).creators@[k] == old(self).creators@[k],
            r is Ok ==> final(self).creators@[id as int]@ == match name {
                Some(n) => n@,
                None => old(self).creators@[id as int]@,
            },
            r is Ok && aliases is None ==> final(self).aliases@ == old(self).aliases@,
            r is Ok && aliases is Some ==> forall|t: Seq<char>| #[trigger] alias_names(final(self).aliases@, t, id)
                <==> exists|i: int| 0 <= i < aliases->0@.len() && t == lower_of(#[trigger] aliases->0@[i]@),
            r is Ok ==> forall|t: Seq<char>, c: usize| c != id ==> (#[trigger] alias_names(final(self).aliases@, t, c)
                <==> alias_names(old(self).aliases@, t, c)),
            final(self).media@ == old(self).media@,
            final(self).media_creators@ == old(self).media_creators@,
            final(self).collection_creators@ == old(self).collection_creators@,
            final(self).media_tags@ == old(self).media_tags@,
            final(self).tags@ == old(self).tags@,
            final(self).collections == old(self).collections,
            final(self).memberships@ == old(self).memberships@,
            final(self).sources@ == old(self).sources@,
    {
        if id >= self.creators.len() {
            return Err(AppError::NotFound(String::from_str("creator not found")));
        }
        match aliases {
            Some(list) => {
                let keys = crate::tagset::lowercase_all(&list);
                let mut i: usize = 0;
                while i < keys.len()
                    invariant
                        self.wf(),
                        *self == *old(self),
                        keys@.len() == list@.len(),
                        aliases == Some(list),
                        id < self.creators@.len(),
                        forall|k: int| 0 <= k < list@.len() ==> (#[trigger] keys@[k])@ == lower_of(list@[k]@),
                        i <= keys@.len(),
                        forall|k: int, c: usize| 0 <= k < i && c != id ==> !#[trigger] alias_names(self.aliases@, keys@[k]@, c),
                    decreases keys@.len() - i,
                {
                    match self.find_alias(&keys[i]) {
                        Some(c) => {
                            if c != id {
                                assert(self.resolves(list@[i as int]@, c));
                                assert(aliases->0@[i as int]@ == list@[i as int]@);
                                assert(0 <= i < aliases->0@.len() && c != id && old(self).resolves(aliases->0@[i as int]@, c));
                                return Err(AppError::Exists(String::from_str("alias names another creator")));
                            }
                            proof {
                                assert forall|d: usize| d != id implies !alias_names(self.aliases@, keys@[i as int]@, d) by {
                                    if alias_names(self.aliases@, keys@[i as int]@, d) {
                                        self.lemma_resolves_unique(list@[i as int]@, d, c);
                                    }
                                }
                            }
                        },
                        None => {},
                    }
                    i = i + 1;
                }
                proof {
                    assert forall|k: int, c: usize| 0 <= k < list@.len() && c != id implies !#[trigger] self.resolves(list@[k]@, c) by {
                        assert(keys@[k]@ == lower_of(list@[k]@));
                        assert(!alias_names(self.aliases@, keys@[k]@, c));
                    }
                }
                let ghost start = self.aliases@;
                let mut kept: Vec<CreatorAlias> = Vec::new();
                let mut j: usize = 0;
                while j < self.aliases.len()
                    invariant
                        self.wf(),
                        *self == *old(self),
                        self.aliases@ == start,
                        j <= start.len(),
                        aliases_distinct(kept@),
                        forall|k: int| 0 <= k < kept@.len() ==> (#[trigger] kept@[k]).creator < self.creators@.len(),
                        forall|t: Seq<char>, c: usize| #[trigger] alias_names(kept@, t, c) <==> alias_names(start.subrange(0, j as int), t, c)
                            && (c != id || views_of(keys@).contains(t)),
                    decreases start.len() - j,
                {
                    let row_creator = self.aliases[j].creator;
                    let ghost row = start[j as int];
                    let ghost before = kept@;
                    if row_creator != id || crate::tagset::text_in(&keys, &self.aliases[j].alias) {
                        add_alias_row(&mut kept, self.aliases[j].alias.clone(), row_creator);
                        proof {
                            assert(!alias_taken(before, row.alias@)) by {
                                if alias_taken(before, row.alias@) {
                                    let k = choose|k: int| 0 <= k < before.len() && (#[trigger] before[k]).alias@ == row.alias@;
                                    assert(alias_names(before, before[k].alias@, before[k].creator));
                                    assert(alias_names(start.subrange(0, j as int), before[k].alias@, before[k].creator));
                                    let z = choose|z: int| 0 <= z < j && (#[trigger] start.subrange(0, j as int)[z]).alias@ == before[k].alias@
                                        && start.subrange(0, j as int)[z].creator == before[k].creator;
                                    assert(start[z].alias@ == start[j as int].alias@);
                                }
                            }
                        }
                    }
                    proof {
                        assert(row_creator < self.creators@.len());
                        assert forall|k: int| 0 <= k < kept@.len() implies (#[trigger] kept@[k]).creator < self.creators@.len() by {
                            if kept@[k].creator != row_creator {
                                let n = choose|n: int| 0 <= n < before.len() && before[n] == kept@[k];
                            }
                        }
                        assert forall|t: Seq<char>, c: usize| #[trigger] alias_names(kept@, t, c) <==> alias_names(start.subrange(0, j + 1), t, c)
                            && (c != id || views_of(keys@).contains(t)) by {
                            let pre = start.subrange(0, j as int);
                            let post = start.subrange(0, j + 1);
                            assert(post[j as int] == row);
                            if alias_names(post, t, c) {
                                let k = choose|k: int| 0 <= k < post.len() && (#[trigger] post[k]).alias@ == t && post[k].creator == c;
                                if k < j {
                                    assert(pre[k] == post[k]);
                                }
                            }
                            if alias_names(pre, t, c) {
                                let k = choose|k: int| 0 <= k < pre.len() && (#[trigger] pre[k]).alias@ == t && pre[k].creator == c;
                                assert(post[k] == pre[k]);
                            }
                        }
                    }
                    j = j + 1;
                }
                assert(start.subrange(0, start.len() as int) =~= start);
                let ghost removed = kept@;
                let mut q: usize = 0;
                while q < keys.len()
                    invariant
                        self.wf(),
                        *self == *old(self),
                        self.aliases@ == start,
                        id < self.creators@.len(),
                        q <= keys@.len(),
                        aliases_distinct(kept@),
                        forall|k: int, c: usize| 0 <= k < keys@.len() && c != id ==> !#[trigger] alias_names(start, keys@[k]@, c),
                        forall|k: int| 0 <= k < kept@.len() ==> (#[trigger] kept@[k]).creator < self.creators@.len(),
                        forall|t: Seq<char>, c: usize| #[trigger] alias_names(kept@, t, c) <==> if c == id {
                            views_of(keys@).contains(t) && (alias_names(start, t, c) || views_of(keys@.subrange(0, q as int)).contains(t))
                        } else {
                            alias_names(start, t, c)
                        },
                    decreases keys@.len() - q,
                {
                    let ghost before = kept@;
                    let ghost key = keys@[q as int]@;
                    add_alias_row(&mut kept, keys[q].clone(), id);
                    proof {
                        assert(views_of(keys@)[q as int] == key);
                        assert(views_of(keys@).contains(key));
                        assert(views_of(keys@.subrange(0, q + 1)) =~= views_of(keys@.subrange(0, q as int)).push(key));
                        assert forall|t: Seq<char>, c: usize| #[trigger] alias_names(kept@, t, c) <==> if c == id {
                            views_of(keys@).contains(t) && (alias_names(start, t, c) || views_of(keys@.subrange(0, q + 1)).contains(t))
                        } else {
                            alias_names(start, t, c)
                        } by {
                            crate::reconcile::lemma_push_contains(views_of(keys@.subrange(0, q as int)), key, t);
                            if t == key && c == id && alias_taken(before, key) {
                                let k = choose|k: int| 0 <= k < before.len() && (#[trigger] before[k]).alias@ == key;
                                assert(alias_names(before, key, before[k].creator));
                                if before[k].creator != id {
                                    assert(alias_names(start, keys@[q as int]@, before[k].creator));
                                }
                            }
                        }
                        assert forall|k: int| 0 <= k < kept@.len() implies (#[trigger] kept@[k]).creator < self.creators@.len() by {
                            if kept@[k].creator != id {
                                let n = choose|n: int| 0 <= n < before.len() && before[n] == kept@[k];
                            }
                        }
                    }
                    q = q + 1;
                }
                proof {
                    assert(keys@.subrange(0, keys@.len() as int) =~= keys@);
                    assert forall|t: Seq<char>| #[trigger] alias_names(kept@, t, id)
                        <==> exists|i: int| 0 <= i < list@.len() && t == lower_of(#[trigger] list@[i]@) by {
                        if views_of(keys@).contains(t) {
                            let i = choose|i: int| 0 <= i < views_of(keys@).len() && views_of(keys@)[i] == t;
                            assert(keys@[i]@ == lower_of(list@[i]@));
                        }
                        if exists|i: int| 0 <= i < list@.len() && t == lower_of(#[trigger] list@[i]@) {
                            let i = choose|i: int| 0 <= i < list@.len() && t == lower_of(#[trigger] list@[i]@);
                            assert(views_of(keys@)[i] == t);
                        }
                    }
                }
                self.aliases = kept;
            },
            None => {},
        }
        match name {
            Some(n) => {
                let ghost before = self.creators@;
                self.creators.remove(id);
                self.creators.insert(id, n);
                proof {
                    assert forall|k: int| 0 <= k < before.len() && k != id implies #[trigger] self.creators@[k] == before[k] by {
                        if k < id {
                            assert(self.creators@[k] == before.remove(id as int)[k]);
                        } else {
                            assert(self.creators@[k] == before.remove(id as int)[k - 1]);
                        }
                    }
                }
            },
            None => {},
        }
        Ok(())
    }
}

/// After reconciling with `desired` and then with names `fewer` that `desired`
/// all holds, the item loses exactly the creators that no name of `fewer` is
/// found under, and gains none.
pub proof fn lemma_creators_subset(c0: &Catalog, c1: &Catalog, c2: &Catalog, m: usize, desired: Seq<Seq<char>>, fewer: Seq<Seq<char>>)
    requires
        c1.wf(),
        forall|i: int| 0 <= i < fewer.len() ==> desired.contains(#[trigger] fewer[i]),
        creators_reconciled(c0, c1, m, desired),
        creators_reconciled(c1, c2, m, fewer),
    ensures
        forall|c: usize| has_row(c2.media_creators@, m, c) ==> has_row(c1.media_creators@, m, c),
        forall|c: usize| has_row(c1.media_creators@, m, c) && !has_row(c2.media_creators@, m, c)
            <==> has_row(c1.media_creators@, m, c) && !exists|i: int| 0 <= i < fewer.len() && c1.resolves(#[trigger] fewer[i], c),
{
    assert forall|i: int| 0 <= i < fewer.len() implies c1.found(#[trigger] fewer[i]) by {
        let j = choose|j: int| 0 <= j < desired.len() && desired[j] == fewer[i];
        assert(c1.found(desired[j]));
    }
    assert(c2.aliases@ == c1.aliases@);
    assert forall|c: usize| has_row(c2.media_creators@, m, c) implies has_row(c1.media_creators@, m, c) by {
        let i = choose|i: int| 0 <= i < fewer.len() && c2.resolves(#[trigger] fewer[i], c);
        let j = choose|j: int| 0 <= j < desired.len() && desired[j] == fewer[i];
        assert(c1.resolves(desired[j], c));
    }
    assert forall|c: usize| has_row(c1.media_creators@, m, c) && !has_row(c2.media_creators@, m, c)
        <==> has_row(c1.media_creators@, m, c) && !exists|i: int| 0 <= i < fewer.len() && c1.resolves(#[trigger] fewer[i], c) by {
        if exists|i: int| 0 <= i < fewer.len() && c1.resolves(#[trigger] fewer[i], c) {
            let i = choose|i: int| 0 <= i < fewer.len() && c1.resolves(#[trigger] fewer[i], c);
            assert(c2.resolves(fewer[i], c));
        }
        if exists|i: int| 0 <= i < fewer.len() && c2.resolves(#[trigger] fewer[i], c) {
            let i = choose|i: int| 0 <= i < fewer.len() && c2.resolves(#[trigger] fewer[i], c);
            assert(c1.resolves(fewer[i], c));
        }
    }
}

} // verus!
