//! The request and response models of the catalog's operations.

use vstd::prelude::*;
use std::collections::BTreeMap;
use crate::search::MediaFilter;
use crate::tagset::{excluded_terms, included_terms};
use crate::text::views_of;

verus! {

/// A list of texts.
#[derive(Debug, Clone, PartialEq, Eq, PartialOrd, Ord)]
pub struct DataVector(pub Vec<String>);

impl Default for DataVector {
    fn default() -> (r: Self)
        ensures
            r.0@.len() == 0,
    {
        DataVector(Vec::new())
    }
}

/// A list of 32-bit integers.
#[derive(Debug, Clone, PartialEq, Eq, PartialOrd, Ord)]
pub struct DataVectorI32(pub Vec<i32>);

impl Default for DataVectorI32 {
    fn default() -> (r: Self)
        ensures
            r.0@.len() == 0,
    {
        DataVectorI32(Vec::new())
    }
}

/// A list of 64-bit integers.
#[derive(Debug, Clone, PartialEq, Eq, PartialOrd, Ord)]
pub struct DataVectorI64(pub Vec<i64>);

impl Default for DataVectorI64 {
    fn default() -> (r: Self)
        ensures
            r.0@.len() == 0,
    {
        DataVectorI64(Vec::new())
    }
}

/// A list of ids with texts.
#[derive(Debug, Clone, PartialEq, Eq, PartialOrd, Ord)]
pub struct DataVectorI64String(pub Vec<(i64, String)>);

impl Default for DataVectorI64String {
    fn default() -> (r: Self)
        ensures
            r.0@.len() == 0,
    {
        DataVectorI64String(Vec::new())
    }
}

/// Texts by id.
#[derive(Debug, Clone, PartialEq)]
pub struct DataMapI64String(pub BTreeMap<i64, String>);

impl Default for DataMapI64String {
    fn default() -> (r: Self)
        ensures
            r.0@ == Map::<i64, String>::empty(),
    {
        DataMapI64String(BTreeMap::new())
    }
}

/// Integers by id.
#[derive(Debug, Clone, PartialEq, Eq, PartialOrd, Ord)]
pub struct DataMapI64I64(pub BTreeMap<i64, i64>);

impl Default for DataMapI64I64 {
    fn default() -> (r: Self)
        ensures
            r.0@ == Map::<i64, i64>::empty(),
    {
        DataMapI64I64(BTreeMap::new())
    }
}

/// A tag with the name of its group.
#[derive(Debug, Clone)]
pub struct TagEntity {
    pub group: String,
    pub tag: String,
}

/// The pixel size of an image.
#[derive(Debug, Clone, Copy, PartialEq, Eq)]
pub struct ImageResolution {
    pub width: u32,
    pub height: u32,
}

/// What is known of an image's pixels.
#[derive(Debug, Clone, Copy, PartialEq, Eq)]
pub struct ImageMetadata {
    pub resolution: ImageResolution,
    pub bits_per_pixel: u16,
    pub transparent: bool,
}

/// A search by tags and creators; a term with a leading `-` excludes.
#[derive(Debug)]
pub struct SearchQuery {
    pub tags: Vec<String>,
    pub creators: Vec<String>,
}

/// What a search returns: media, collections or both.
#[derive(Debug, Clone, Copy, PartialEq, Eq)]
pub enum QueryType {
    All,
    Media,
    Collection,
}

impl Default for QueryType {
    fn default() -> (r: Self)
        ensures
            r == QueryType::All,
    {
        QueryType::All
    }
}

/// A search over every facet; an absent list sets no condition on its facet.
#[derive(Debug)]
pub struct SearchQueryJson {
    pub tags: Option<Vec<String>>,
    pub creators: Option<Vec<String>>,
    pub collections: Option<Vec<String>>,
    pub description: Option<String>,
    pub query_type: QueryType,
}

/// A similarity search: the reference hash, as its signed bit pattern, and the
/// largest distance wanted.
#[derive(Debug, Clone, Copy, PartialEq, Eq)]
pub struct HashQuery {
    pub hash: i64,
    pub max_distance: Option<i64>,
}

/// A kind of name to complete.
#[derive(Debug, Clone, Copy, PartialEq, Eq)]
pub enum TagType {
    All,
    Tag,
    Artist,
    Collection,
}

impl Default for TagType {
    fn default() -> (r: Self)
        ensures
            r == TagType::All,
    {
        TagType::All
    }
}

/// A name to complete, and of what kind.
#[derive(Debug)]
pub struct TagQuery {
    pub tag: String,
    pub tag_type: TagType,
}

/// One completion.
#[derive(Debug)]
pub struct TagReturn {
    pub id: i64,
    pub tag: String,
    pub tag_type: TagType,
    pub tag_group: Option<String>,
}

/// A media item to put into a collection at a place.
#[derive(Debug, Clone, Copy, PartialEq, Eq)]
pub struct AddItem {
    pub media_id: i64,
    pub ord: i32,
}

/// Media items to put into a collection.
#[derive(Debug)]
pub struct AddQuery {
    pub media: Vec<AddItem>,
}

/// A duplicate search: the largest distance that counts.
#[derive(Debug, Clone, Copy, PartialEq, Eq)]
pub struct DuplicateQuery {
    pub distance: Option<u64>,
}

/// File content, as served.
#[derive(Debug)]
pub struct Binary(pub String);

/// The terms of an optional list, none where it is absent.
pub open spec fn terms_of(v: Option<Vec<String>>) -> Seq<Seq<char>> {
    match v {
        Some(v) => views_of(v@),
        None => Seq::empty(),
    }
}

fn terms_or_empty(v: &Option<Vec<String>>) -> (r: Vec<String>)
    ensures
        views_of(r@) == terms_of(*v),
{
    match v {
        Some(v) => {
            let mut r: Vec<String> = Vec::new();
            let mut i: usize = 0;
            while i < v.len()
                invariant
                    i <= v@.len(),
                    r@ == v@.subrange(0, i as int),
                decreases v@.len() - i,
            {
                r.push(v[i].clone());
                assert(r@ =~= v@.subrange(0, i + 1));
                i = i + 1;
            }
            assert(v@.subrange(0, v@.len() as int) =~= v@);
            r
        },
        None => Vec::new(),
    }
}

impl SearchQuery {
    /// The media filter of this query; it sets no condition on collections.
    pub fn to_filter(&self) -> (r: MediaFilter)
        ensures
            views_of(r.tags_required@) == included_terms(views_of(self.tags@)),
            views_of(r.tags_forbidden@) == excluded_terms(views_of(self.tags@)),
            views_of(r.creators_required@) == included_terms(views_of(self.creators@)),
            views_of(r.creators_forbidden@) == excluded_terms(views_of(self.creators@)),
            r.collections_required@.len() == 0,
            r.collections_forbidden@.len() == 0,
    {
        let none: Vec<String> = Vec::new();
        let r = MediaFilter::from_terms(&self.tags, &self.creators, &none);
        proof {
            assert(views_of(none@) =~= Seq::<Seq<char>>::empty());
            assert(included_terms(Seq::<Seq<char>>::empty()) == Seq::<Seq<char>>::empty());
            assert(excluded_terms(Seq::<Seq<char>>::empty()) == Seq::<Seq<char>>::empty());
        }
        r
    }
}

impl SearchQueryJson {
    /// The media filter of this query: each list present splits into terms to
    /// match and, with a leading `-`, terms to exclude.
    pub fn to_filter(&self) -> (r: MediaFilter)
        ensures
            views_of(r.tags_required@) == included_terms(terms_of(self.tags)),
            views_of(r.tags_forbidden@) == excluded_terms(terms_of(self.tags)),
            views_of(r.creators_required@) == included_terms(terms_of(self.creators)),
            views_of(r.creators_forbidden@) == excluded_terms(terms_of(self.creators)),
            views_of(r.collections_required@) == included_terms(terms_of(self.collections)),
            views_of(r.collections_forbidden@) == excluded_terms(terms_of(self.collections)),
    {
        let tags = terms_or_empty(&self.tags);
        let creators = terms_or_empty(&self.creators);
        let collections = terms_or_empty(&self.collections);
        MediaFilter::from_terms(&tags, &creators, &collections)
    }

    /// Whether the query asks for media.
    pub fn wants_media(&self) -> (r: bool)
        ensures
            r == (self.query_type != QueryType::Collection),
    {
        match self.query_type {
            QueryType::Collection => false,
            _ => true,
        }
    }

    /// Whether the query asks for collections.
    pub fn wants_collections(&self) -> (r: bool)
        ensures
            r == (self.query_type != QueryType::Media),
    {
        match self.query_type {
            QueryType::Media => false,
            _ => true,
        }
    }
}

impl HashQuery {
    /// The reference hash as its 64 bits.
    pub fn reference(&self) -> (r: u64)
        ensures
            r == self.hash as u64,
    {
        self.hash as u64
    }

    /// Whether any distance is admitted: a negative maximum admits none.
    pub fn admits_any(&self) -> (r: bool)
        ensures
            r == match self.max_distance {
                Some(d) => d >= 0,
                None => true,
            },
    {
        match self.max_distance {
            Some(d) => d >= 0,
            None => true,
        }
    }

    /// The largest distance asked for, where it admits any (see `admits_any`).
    pub fn max(&self) -> (r: Option<u64>)
        ensures
            r == match self.max_distance {
                Some(d) => Some(if d < 0 { 0u64 } else { d as u64 }),
                None => None::<u64>,
            },
    {
        match self.max_distance {
            Some(d) => Some(if d < 0 { 0 } else { d as u64 }),
            None => None,
        }
    }
}

/// The media type served for a file extension.
pub open spec fn mime_of(ext: Seq<char>) -> Seq<char> {
    if ext == "apng"@ {
        "image/apng"@
    } else if ext == "avif"@ {
        "image/avif"@
    } else if ext == "gif"@ {
        "image/gif"@
    } else if ext == "jpg"@ || ext == "jpeg"@ {
        "image/jpeg"@
    } else if ext == "png"@ {
        "image/png"@
    } else if ext == "svg"@ {
        "image/svg+xml"@
    } else if ext == "webp"@ {
        "image/webp"@
    } else {
        "application/octet-stream"@
    }
}

/// The media type served for a file extension; unknown ones are served as bytes.
pub fn extension_to_mime(ext: &str) -> (r: &'static str)
    ensures
        r@ == mime_of(ext@),
{
    let e = String::from_str(ext);
    if e == String::from_str("apng") {
        "image/apng"
    } else if e == String::from_str("avif") {
        "image/avif"
    } else if e == String::from_str("gif") {
        "image/gif"
    } else if e == String::from_str("jpg") || e == String::from_str("jpeg") {
        "image/jpeg"
    } else if e == String::from_str("png") {
        "image/png"
    } else if e == String::from_str("svg") {
        "image/svg+xml"
    } else if e == String::from_str("webp") {
        "image/webp"
    } else {
        "application/octet-stream"
    }
}

} // verus!
