//! Reconciling a media item's tags, sources and collection memberships, and a
//! collection's creators and ordered media, with the sets a request desires.

use vstd::prelude::*;
use crate::catalog::{creators_reconciled, Catalog, Membership, Tag};
use crate::collections::sep;
use crate::text::split_on;
use crate::error::AppError;
use crate::reconcile::{has_row, replace_objects};
use crate::search::media_has_tag;
use crate::tagset::{from_groups, groups_to_tuple, has_tag, DataMap};
use crate::text::{lower_of, views_of};
use crate::tagset::text_in;

verus! {

/// Whether some group of `groups` lists a tag whose lowercase form is `t`.
pub open spec fn desired_tag(groups: Seq<(String, Vec<String>)>, t: Seq<char>) -> bool {
    exists|i: int, j: int|
        0 <= i < groups.len() && 0 <= j < groups[i].1@.len() && t == lower_of(#[trigger] groups[i].1@[j]@)
}

/// Reconciling an item's tags twice with the same groups leaves the rows, the
/// tags and the tag groups that reconciling once left.
pub proof fn lemma_tags_idempotent(c0: &Catalog, c1: &Catalog, c2: &Catalog, m: usize, groups: Seq<(String, Vec<String>)>)
    requires
        c1.wf(),
        c2.wf(),
        tags_reconciled(c0, c1, m, groups),
        tags_reconciled(c1, c2, m, groups),
    ensures
        forall|a: usize, b: usize| has_row(c2.media_tags@, a, b) <==> has_row(c1.media_tags@, a, b),
        c2.tags@ == c1.tags@,
        c2.tag_groups@ == c1.tag_groups@,
{
    assert forall|t: Seq<char>| #[trigger] desired_tag(groups, t) implies tag_exists(c1.tags@, t) by {
        assert(media_has_tag(c1, m, t));
        let x = choose|x: int| 0 <= x < c1.media_tags@.len() && (#[trigger] c1.media_tags@[x]).0 == m
            && c1.tags@[c1.media_tags@[x].1 as int].tag@ == t;
        assert(c1.media_tags@[x].1 < c1.tags@.len());
        assert(c1.tags@[c1.media_tags@[x].1 as int].tag@ == t);
    }
    assert forall|a: usize, b: usize| has_row(c2.media_tags@, a, b) <==> has_row(c1.media_tags@, a, b) by {
        if a == m {
            if has_row(c2.media_tags@, m, b) {
                let x = choose|x: int| 0 <= x < c2.media_tags@.len() && c2.media_tags@[x] == (m, b);
                assert(c2.media_tags@[x].0 == m);
                let t = c2.tags@[b as int].tag@;
                assert(media_has_tag(c2, m, t));
                assert(media_has_tag(c1, m, t));
                let y = choose|y: int| 0 <= y < c1.media_tags@.len() && (#[trigger] c1.media_tags@[y]).0 == m
                    && c1.tags@[c1.media_tags@[y].1 as int].tag@ == t;
                let b1 = c1.media_tags@[y].1;
                assert(c2.tags@[b1 as int] == c1.tags@[b1 as int]);
                if b1 < b {
                    assert(c2.tags@[b1 as int].tag@ != c2.tags@[b as int].tag@);
                } else if b < b1 {
                    assert(c2.tags@[b as int].tag@ != c2.tags@[b1 as int].tag@);
                }
                assert(c1.media_tags@[y] == (m, b));
            }
            if has_row(c1.media_tags@, m, b) {
                let x = choose|x: int| 0 <= x < c1.media_tags@.len() && c1.media_tags@[x] == (m, b);
                assert(c1.media_tags@[x].0 == m);
                let t = c1.tags@[b as int].tag@;
                assert(media_has_tag(c1, m, t));
                assert(media_has_tag(c2, m, t));
                let y = choose|y: int| 0 <= y < c2.media_tags@.len() && (#[trigger] c2.media_tags@[y]).0 == m
                    && c2.tags@[c2.media_tags@[y].1 as int].tag@ == t;
                let b2 = c2.media_tags@[y].1;
                assert(c2.tags@[b as int] == c1.tags@[b as int]);
                if b2 < b {
                    assert(c2.tags@[b2 as int].tag@ != c2.tags@[b as int].tag@);
                } else if b < b2 {
                    assert(c2.tags@[b as int].tag@ != c2.tags@[b2 as int].tag@);
                }
                assert(c2.media_tags@[y] == (m, b));
            }
        }
    }
}

/// Whether some tag has the text `t`.
pub open spec fn tag_exists(tags: Seq<Tag>, t: Seq<char>) -> bool {
    exists|k: int| 0 <= k < tags.len() && (#[trigger] tags[k]).tag@ == t
}

/// Whether some tag group is named `g`.
pub open spec fn group_exists(groups: Seq<String>, g: Seq<char>) -> bool {
    exists|k: int| 0 <= k < groups.len() && (#[trigger] groups[k])@ == g
}

/// Whether the tag `t`, in the group named `g`, was asked for by a pair of `pairs`.
pub open spec fn tag_from_pairs(pairs: Seq<(String, String)>, g: Seq<char>, t: Seq<char>) -> bool {
    exists|k: int| 0 <= k < pairs.len() && (#[trigger] pairs[k]).1@ == t && pairs[k].0@ == g
}

/// Whether collection `c` has a tag with the text `t`.
pub open spec fn collection_has_tag(cat: &Catalog, c: usize, t: Seq<char>) -> bool {
    exists|k: int|
        0 <= k < cat.collection_tags@.len() && (#[trigger] cat.collection_tags@[k]).0 == c
            && cat.tags@[cat.collection_tags@[k].1 as int].tag@ == t
}

/// What reconciling media item `m`'s tags with `groups` leaves: the item has
/// exactly the tags the groups list, in lowercase; other items keep their tag
/// rows, and tags are only ever added.
pub open spec fn tags_reconciled(before: &Catalog, after: &Catalog, m: usize, groups: Seq<(String, Vec<String>)>) -> bool {
    &&& forall|t: Seq<char>| #[trigger] media_has_tag(after, m, t) <==> desired_tag(groups, t)
    &&& forall|a: usize, b: usize| a != m ==> (#[trigger] has_row(after.media_tags@, a, b) <==> has_row(before.media_tags@, a, b))
    &&& after.tags@.len() >= before.tags@.len()
    &&& forall|i: int| 0 <= i < before.tags@.len() ==> #[trigger] after.tags@[i] == before.tags@[i]
    &&& (forall|t: Seq<char>| #[trigger] desired_tag(groups, t) ==> tag_exists(before.tags@, t))
        ==> after.tags@ == before.tags@ && after.tag_groups@ == before.tag_groups@
    &&& forall|b: int| before.tags@.len() <= b < after.tags@.len() ==> #[trigger] from_groups(
        groups,
        after.tag_groups@[after.tags@[b].group as int]@,
        after.tags@[b].tag@,
    )
}

/// Whether `rows` relate item `a` to the source `t`.
pub open spec fn source_in(rows: Seq<(usize, String)>, a: usize, t: Seq<char>) -> bool {
    exists|k: int| 0 <= k < rows.len() && (#[trigger] rows[k]).0 == a && rows[k].1@ == t
}

/// No item is related to the same source twice.
pub open spec fn sources_unique(rows: Seq<(usize, String)>) -> bool {
    forall|i: int, j: int| 0 <= i < j < rows.len() ==> !((#[trigger] rows[i]).0 == (#[trigger] rows[j]).0 && rows[i].1@ == rows[j].1@)
}

/// Whether `rows` relate item `a` to the source `t`.
pub fn has_source_row(rows: &Vec<(usize, String)>, a: usize, t: &String) -> (r: bool)
    ensures
        r == source_in(rows@, a, t@),
{
    let mut i: usize = 0;
    while i < rows.len()
        invariant
            i <= rows@.len(),
            forall|k: int| 0 <= k < i ==> !((#[trigger] rows@[k]).0 == a && rows@[k].1@ == t@),
        decreases rows@.len() - i,
    {
        if rows[i].0 == a && rows[i].1 == *t {
            return true;
        }
        i = i + 1;
    }
    false
}

/// Adds the row `(a, t)` unless it is there.
fn add_source_row(rows: &mut Vec<(usize, String)>, a: usize, t: String)
    requires
        sources_unique(old(rows)@),
    ensures
        sources_unique(final(rows)@),
        forall|b: usize, u: Seq<char>| #[trigger] source_in(final(rows)@, b, u) <==> source_in(old(rows)@, b, u) || (b == a && u == t@),
        forall|k: int| 0 <= k < final(rows)@.len() ==> (#[trigger] final(rows)@[k]).0 == a || old(rows)@.contains(final(rows)@[k]),
{
    if has_source_row(rows, a, &t) {
        assert forall|k: int| 0 <= k < rows@.len() implies (#[trigger] rows@[k]).0 == a || rows@.contains(rows@[k]) by {}
        return;
    }
    let ghost before = rows@;
    let ghost tv = t@;
    rows.push((a, t));
    proof {
        assert forall|i: int, j: int| 0 <= i < j < rows@.len()
            implies !((#[trigger] rows@[i]).0 == (#[trigger] rows@[j]).0 && rows@[i].1@ == rows@[j].1@) by {
            assert(rows@[i] == before[i]);
            if j < before.len() {
                assert(rows@[j] == before[j]);
            }
        }
        assert forall|b: usize, u: Seq<char>| #[trigger] source_in(rows@, b, u) <==> source_in(before, b, u) || (b == a && u == tv) by {
            if source_in(before, b, u) {
                let k = choose|k: int| 0 <= k < before.len() && (#[trigger] before[k]).0 == b && before[k].1@ == u;
                assert(rows@[k] == before[k]);
            }
            if b == a && u == tv {
                assert(rows@[before.len() as int].0 == a);
            }
            if source_in(rows@, b, u) {
                let k = choose|k: int| 0 <= k < rows@.len() && (#[trigger] rows@[k]).0 == b && rows@[k].1@ == u;
                if k < before.len() {
                    assert(rows@[k] == before[k]);
                }
            }
        }
        assert forall|k: int| 0 <= k < rows@.len() implies (#[trigger] rows@[k]).0 == a || before.contains(rows@[k]) by {
            if k < before.len() {
                assert(rows@[k] == before[k]);
            }
        }
    }
}

/// Whether `rows` put item `a` into collection `c`.
pub open spec fn member_in(rows: Seq<Membership>, a: usize, c: usize) -> bool {
    exists|k: int| 0 <= k < rows.len() && (#[trigger] rows[k]).media == a && rows[k].collection == c
}

/// Whether `o` comes after the place of every row of collection `c` in `rows`,
/// unless that place is already the largest there is.
pub open spec fn ord_after(rows: Seq<Membership>, c: usize, o: i64) -> bool {
    forall|k: int| 0 <= k < rows.len() && (#[trigger] rows[k]).collection == c ==> rows[k].ord < o || rows[k].ord == i64::MAX
}

/// Whether the collection `c` is at one of the paths of `paths`.
pub open spec fn at_some_path(tree: &crate::collections::CollectionTree, paths: Seq<Seq<char>>, c: usize) -> bool {
    exists|i: int| 0 <= i < paths.len() && tree.path_of(c as nat) == split_on(#[trigger] paths[i], sep())
}

/// Whether every path of `paths` names a collection.
pub open spec fn all_paths_found(tree: &crate::collections::CollectionTree, paths: Seq<Seq<char>>) -> bool {
    forall|i: int| 0 <= i < paths.len() ==> tree.has_path(split_on(#[trigger] paths[i], sep()))
}

/// Whether `rows` put item `a` into collection `c`.
pub fn is_member(rows: &Vec<Membership>, a: usize, c: usize) -> (r: bool)
    ensures
        r == member_in(rows@, a, c),
{
    let mut i: usize = 0;
    while i < rows.len()
        invariant
            i <= rows@.len(),
            forall|k: int| 0 <= k < i ==> !((#[trigger] rows@[k]).media == a && rows@[k].collection == c),
        decreases rows@.len() - i,
    {
        if rows[i].media == a && rows[i].collection == c {
            return true;
        }
        i = i + 1;
    }
    false
}

/// The place after every row of collection `c`: one more than the largest, or
/// one where the collection is empty; the largest place stays where it is.
pub fn next_ord(rows: &Vec<Membership>, c: usize) -> (r: i64)
    ensures
        ord_after(rows@, c, r),
{
    let mut top: i64 = 0;
    let mut i: usize = 0;
    while i < rows.len()
        invariant
            i <= rows@.len(),
            forall|k: int| 0 <= k < i && (#[trigger] rows@[k]).collection == c ==> rows@[k].ord <= top,
        decreases rows@.len() - i,
    {
        if rows[i].collection == c && rows[i].ord > top {
            top = rows[i].ord;
        }
        i = i + 1;
    }
    if top < i64::MAX {
        top + 1
    } else {
        top
    }
}

/// What reconciling item `m`'s sources with `desired` leaves: `m` has exactly
/// the desired sources, and other items keep theirs.
pub open spec fn sources_reconciled(before: Seq<(usize, String)>, after: Seq<(usize, String)>, m: usize, desired: Seq<Seq<char>>) -> bool {
    forall|a: usize, t: Seq<char>| #[trigger] source_in(after, a, t) <==> if a == m {
        desired.contains(t)
    } else {
        source_in(before, a, t)
    }
}

/// Reconciling an item's sources twice with the same list relates the same
/// sources as reconciling once.
pub proof fn lemma_sources_idempotent(
    s0: Seq<(usize, String)>,
    s1: Seq<(usize, String)>,
    s2: Seq<(usize, String)>,
    m: usize,
    desired: Seq<Seq<char>>,
)
    requires
        sources_reconciled(s0, s1, m, desired),
        sources_reconciled(s1, s2, m, desired),
    ensures
        forall|a: usize, t: Seq<char>| source_in(s2, a, t) <==> source_in(s1, a, t),
{
    assert forall|a: usize, t: Seq<char>| source_in(s2, a, t) <==> source_in(s1, a, t) by {
        assert(source_in(s2, a, t) == (if a == m { desired.contains(t) } else { source_in(s1, a, t) }));
        assert(source_in(s1, a, t) == (if a == m { desired.contains(t) } else { source_in(s0, a, t) }));
    }
}

impl Catalog {
    /// Puts media item `m` into exactly the collections at the paths `desired`.
    /// A membership that stays keeps its place; a new one goes after every item of
    /// its collection. A path that names no collection is refused and nothing
    /// changes. `None` asks for no change.
    pub fn reconcile_media_collections(&mut self, m: usize, desired: Option<Vec<String>>) -> (r: Result<(), AppError>)
        requires
            old(self).wf(),
        ensures
            final(self).wf(),
            m >= old(self).media@.len() ==> r is Err && r->Err_0 is NotFound,
            m < old(self).media@.len() && desired is Some ==> (r is Err <==> !all_paths_found(&old(self).collections, views_of(desired->0@))),
            m < old(self).media@.len() && desired is Some && r is Err ==> exists|i: int| 0 <= i < desired->0@.len()
                && !old(self).collections.has_path(split_on(#[trigger] desired->0@[i]@, sep()))
                && r->Err_0.is_bad_request_with("collection not found: "@ + desired->0@[i]@),
            m < old(self).media@.len() && desired is None ==> r is Ok,
            r is Err ==> *final(self) == *old(self),
            r is Ok && desired is None ==> *final(self) == *old(self),
            r is Ok && desired is Some ==> forall|a: usize, c: usize| #[trigger] member_in(final(self).memberships@, a, c) <==> if a == m {
                c < old(self).collections.nodes@.len() && at_some_path(&old(self).collections, views_of(desired->0@), c)
            } else {
                member_in(old(self).memberships@, a, c)
            },
            r is Ok ==> forall|k: int| 0 <= k < old(self).memberships@.len() && member_in(final(self).memberships@, old(self).memberships@[k].media, old(self).memberships@[k].collection)
                ==> #[trigger] final(self).memberships@.contains(old(self).memberships@[k]),
            r is Ok ==> forall|k: int| 0 <= k < final(self).memberships@.len() && !member_in(old(self).memberships@, #[trigger] final(self).memberships@[k].media, final(self).memberships@[k].collection)
                ==> ord_after(old(self).memberships@, final(self).memberships@[k].collection, final(self).memberships@[k].ord),
            final(self).media@ == old(self).media@,
            final(self).tags@ == old(self).tags@,
            final(self).tag_groups@ == old(self).tag_groups@,
            final(self).media_tags@ == old(self).media_tags@,
            final(self).creators@ == old(self).creators@,
            final(self).aliases@ == old(self).aliases@,
            final(self).media_creators@ == old(self).media_creators@,
            final(self).collections == old(self).collections,
            final(self).sources@ == old(self).sources@,
    {
        if m >= self.media.len() {
            return Err(AppError::NotFound(String::from_str("media not found")));
        }
        let paths = match desired {
            None => {
                return Ok(());
            },
            Some(p) => p,
        };
        let ghost pv = views_of(paths@);
        let ids = self.resolve_paths(&paths);
        let ids = match ids {
            Ok(ids) => ids,
            Err(i) => {
                return Err(AppError::BadRequest(crate::text::joined_message("collection not found: ", paths[i].as_str())));
            },
        };
        let ghost start = self.memberships@;
        let mut kept: Vec<Membership> = Vec::new();
        let mut j: usize = 0;
        while j < self.memberships.len()
            invariant
                self.wf(),
                *self == *old(self),
                self.memberships@ == start,
                j <= start.len(),
                forall|k: int| 0 <= k < kept@.len() ==> start.contains(#[trigger] kept@[k]),
                forall|p: int, q: int| 0 <= p < q < kept@.len() ==> !((#[trigger] kept@[p]).media == (#[trigger] kept@[q]).media
                    && kept@[p].collection == kept@[q].collection),
                forall|k: int| 0 <= k < j && (start[k].media != m || ids@.contains(start[k].collection)) ==> kept@.contains(#[trigger] start[k]),
                forall|k: int| 0 <= k < kept@.len() ==> ((#[trigger] kept@[k]).media != m || ids@.contains(kept@[k].collection)),
                forall|k: int| 0 <= k < kept@.len() ==> exists|x: int| 0 <= x < j && start[x] == #[trigger] kept@[k],
            decreases start.len() - j,
        {
            let row = self.memberships[j];
            let ghost before = kept@;
            if row.media != m || crate::reconcile::contains_id(&ids, row.collection) {
                kept.push(row);
                proof {
                    assert forall|p: int, q: int| 0 <= p < q < kept@.len() implies !((#[trigger] kept@[p]).media == (#[trigger] kept@[q]).media
                        && kept@[p].collection == kept@[q].collection) by {
                        if q == kept@.len() - 1 {
                            assert(kept@[p] == before[p]);
                            let x = choose|x: int| 0 <= x < j && start[x] == #[trigger] before[p];
                            assert(start[j as int] == row);
                        } else {
                            assert(kept@[p] == before[p]);
                            assert(kept@[q] == before[q]);
                        }
                    }
                    assert(kept@[kept@.len() - 1] == row);
                }
            }
            proof {
                assert forall|k: int| 0 <= k < j + 1 && (start[k].media != m || ids@.contains(start[k].collection)) implies kept@.contains(#[trigger] start[k]) by {
                    if k < j {
                        let x = choose|x: int| 0 <= x < before.len() && before[x] == start[k];
                        assert(kept@[x] == start[k]);
                    } else {
                        assert(kept@[kept@.len() - 1] == row);
                    }
                }
                assert forall|k: int| 0 <= k < kept@.len() implies exists|x: int| 0 <= x < j + 1 && start[x] == #[trigger] kept@[k] by {
                    if k < before.len() {
                        assert(kept@[k] == before[k]);
                        let x = choose|x: int| 0 <= x < j && start[x] == #[trigger] before[k];
                    } else {
                        assert(start[j as int] == kept@[k]);
                    }
                }
                assert forall|k: int| 0 <= k < kept@.len() implies start.contains(#[trigger] kept@[k]) by {
                    let x = choose|x: int| 0 <= x < j + 1 && start[x] == #[trigger] kept@[k];
                }
                assert forall|k: int| 0 <= k < kept@.len() implies ((#[trigger] kept@[k]).media != m || ids@.contains(kept@[k].collection)) by {
                    if k < before.len() {
                        assert(kept@[k] == before[k]);
                    }
                }
            }
            j = j + 1;
        }
        let ghost removed = kept@;
        let mut q: usize = 0;
        while q < ids.len()
            invariant
                self.wf(),
                *self == *old(self),
                self.memberships@ == start,
                m < self.media@.len(),
                q <= ids@.len(),
                forall|k: int| 0 <= k < ids@.len() ==> (#[trigger] ids@[k]) < self.collections.nodes@.len(),
                forall|p: int, r: int| 0 <= p < r < kept@.len() ==> !((#[trigger] kept@[p]).media == (#[trigger] kept@[r]).media
                    && kept@[p].collection == kept@[r].collection),
                forall|a: usize, c: usize| #[trigger] member_in(kept@, a, c) <==> member_in(removed, a, c)
                    || (a == m && ids@.subrange(0, q as int).contains(c)),
                forall|k: int| 0 <= k < kept@.len() ==> removed.contains(#[trigger] kept@[k]) || (kept@[k].media == m
                    && kept@[k].collection < self.collections.nodes@.len()
                    && !member_in(start, m, kept@[k].collection) && ord_after(start, kept@[k].collection, kept@[k].ord)),
                forall|k: int| 0 <= k < start.len() && (start[k].media != m || ids@.contains(start[k].collection)) ==> kept@.contains(#[trigger] start[k]),
                forall|k: int| 0 <= k < start.len() && (start[k].media != m || ids@.contains(start[k].collection)) ==> removed.contains(#[trigger] start[k]),
                forall|k: int| 0 <= k < removed.len() ==> start.contains(#[trigger] removed[k]),
                forall|k: int| 0 <= k < removed.len() ==> ((#[trigger] removed[k]).media != m || ids@.contains(removed[k].collection)),
            decreases ids@.len() - q,
        {
            let c = ids[q];
            let ghost before = kept@;
            if !is_member(&kept, m, c) {
                let o = next_ord(&kept, c);
                proof {
                    assert(ids@.contains(c)) by {
                        assert(ids@[q as int] == c);
                    }
                    assert(!member_in(start, m, c)) by {
                        if member_in(start, m, c) {
                            let k = choose|k: int| 0 <= k < start.len() && (#[trigger] start[k]).media == m && start[k].collection == c;
                            assert(kept@.contains(start[k]));
                            let x = choose|x: int| 0 <= x < kept@.len() && kept@[x] == start[k];
                            assert(kept@[x].media == m && kept@[x].collection == c);
                        }
                    }
                    assert forall|k: int| 0 <= k < start.len() && (#[trigger] start[k]).collection == c implies start[k].ord < o || start[k].ord == i64::MAX by {
                        assert(kept@.contains(start[k]));
                        let x = choose|x: int| 0 <= x < kept@.len() && kept@[x] == start[k];
                        assert(kept@[x].collection == c);
                    }
                }
                kept.push(Membership { media: m, collection: c, ord: o });
                proof {
                    assert forall|p: int, r: int| 0 <= p < r < kept@.len() implies !((#[trigger] kept@[p]).media == (#[trigger] kept@[r]).media
                        && kept@[p].collection == kept@[r].collection) by {
                        assert(kept@[p] == before[p] || p == kept@.len() - 1);
                        if r == kept@.len() - 1 {
                            assert(kept@[p] == before[p]);
                            if before[p].media == m && before[p].collection == c {
                                assert(member_in(before, m, c));
                            }
                        } else {
                            assert(kept@[r] == before[r]);
                        }
                    }
                    assert forall|k: int| 0 <= k < kept@.len() implies removed.contains(#[trigger] kept@[k]) || (kept@[k].media == m
                        && kept@[k].collection < self.collections.nodes@.len()
                        && !member_in(start, m, kept@[k].collection) && ord_after(start, kept@[k].collection, kept@[k].ord)) by {
                        if k < before.len() {
                            assert(kept@[k] == before[k]);
                        }
                    }
                    assert forall|k: int| 0 <= k < start.len() && (start[k].media != m || ids@.contains(start[k].collection)) implies kept@.contains(#[trigger] start[k]) by {
                        let x = choose|x: int| 0 <= x < before.len() && before[x] == start[k];
                        assert(kept@[x] == start[k]);
                    }
                }
            }
            proof {
                assert(ids@.subrange(0, q + 1) =~= ids@.subrange(0, q as int).push(c));
                assert forall|a: usize, x: usize| #[trigger] member_in(kept@, a, x) <==> member_in(removed, a, x)
                    || (a == m && ids@.subrange(0, q + 1).contains(x)) by {
                    crate::reconcile::lemma_push_contains(ids@.subrange(0, q as int), c, x);
                    if kept@ != before {
                        if member_in(kept@, a, x) {
                            let k = choose|k: int| 0 <= k < kept@.len() && (#[trigger] kept@[k]).media == a && kept@[k].collection == x;
                            if k < before.len() {
                                assert(before[k] == kept@[k]);
                            }
                        }
                        if member_in(before, a, x) {
                            let k = choose|k: int| 0 <= k < before.len() && (#[trigger] before[k]).media == a && before[k].collection == x;
                            assert(kept@[k] == before[k]);
                        }
                        if a == m && x == c {
                            assert(kept@[kept@.len() - 1].media == m);
                        }
                    }
                }
            }
            q = q + 1;
        }
        proof {
            assert(ids@.subrange(0, ids@.len() as int) =~= ids@);
            let tree = &self.collections;
            assert forall|a: usize, c: usize| #[trigger] member_in(kept@, a, c) <==> if a == m {
                c < tree.nodes@.len() && at_some_path(tree, pv, c)
            } else {
                member_in(start, a, c)
            } by {
                if member_in(removed, a, c) {
                    let k = choose|k: int| 0 <= k < removed.len() && (#[trigger] removed[k]).media == a && removed[k].collection == c;
                    assert(start.contains(removed[k]));
                    let y = choose|y: int| 0 <= y < start.len() && start[y] == removed[k];
                    assert(member_in(start, a, c));
                    if a == m {
                        assert(ids@.contains(c));
                    }
                }
                if a != m && member_in(start, a, c) {
                    let k = choose|k: int| 0 <= k < start.len() && (#[trigger] start[k]).media == a && start[k].collection == c;
                    assert(removed.contains(start[k]));
                    let x = choose|x: int| 0 <= x < removed.len() && removed[x] == start[k];
                    assert(removed[x].media == a);
                }
                if a == m {
                    if ids@.contains(c) {
                        let k = choose|k: int| 0 <= k < ids@.len() && ids@[k] == c;
                        assert(tree.path_of(ids@[k] as nat) == split_on(pv[k], sep()));
                    }
                    if c < tree.nodes@.len() && at_some_path(tree, pv, c) {
                        let i = choose|i: int| 0 <= i < pv.len() && tree.path_of(c as nat) == split_on(#[trigger] pv[i], sep());
                        tree.lemma_path_injective(c as nat, ids@[i] as nat);
                        assert(ids@.contains(ids@[i]));
                    }
                }
            }
            assert forall|k: int| 0 <= k < start.len() && member_in(kept@, start[k].media, start[k].collection)
                implies #[trigger] kept@.contains(start[k]) by {
                if start[k].media == m {
                    let mm = start[k].media;
                    let cc = start[k].collection;
                    if member_in(removed, mm, cc) {
                        let x = choose|x: int| 0 <= x < removed.len() && (#[trigger] removed[x]).media == mm && removed[x].collection == cc;
                    }
                }
            }
            assert forall|k: int| 0 <= k < kept@.len() && !member_in(start, #[trigger] kept@[k].media, kept@[k].collection)
                implies ord_after(start, kept@[k].collection, kept@[k].ord) by {
                if removed.contains(kept@[k]) {
                    let x = choose|x: int| 0 <= x < removed.len() && removed[x] == kept@[k];
                    assert(start.contains(removed[x]));
                    let y = choose|y: int| 0 <= y < start.len() && start[y] == removed[x];
                    assert(member_in(start, start[y].media, start[y].collection));
                }
            }
            assert forall|k: int| 0 <= k < kept@.len() implies (#[trigger] kept@[k]).media < self.media@.len()
                && kept@[k].collection < self.collections.nodes@.len() by {
                if removed.contains(kept@[k]) {
                    let x = choose|x: int| 0 <= x < removed.len() && removed[x] == kept@[k];
                    assert(start.contains(removed[x]));
                    let y = choose|y: int| 0 <= y < start.len() && start[y] == removed[x];
                }
            }
        }
        self.memberships = kept;
        Ok(())
    }

    /// The collections at the paths `paths`, in order, or `None` where some path
    /// names no collection.
    pub fn resolve_paths(&self, paths: &Vec<String>) -> (r: Result<Vec<usize>, usize>)
        requires
            self.wf(),
        ensures
            r is Err <==> !all_paths_found(&self.collections, views_of(paths@)),
            r is Err ==> r->Err_0 < paths@.len() && !self.collections.has_path(split_on(paths@[r->Err_0 as int]@, sep())),
            r is Ok ==> r->Ok_0@.len() == paths@.len() && forall|k: int| 0 <= k < paths@.len() ==> (#[trigger] r->Ok_0@[k])
                < self.collections.nodes@.len() && self.collections.path_of(r->Ok_0@[k] as nat) == split_on(paths@[k]@, sep()),
    {
        let ghost pv = views_of(paths@);
        let mut ids: Vec<usize> = Vec::new();
        let mut i: usize = 0;
        while i < paths.len()
            invariant
                self.wf(),
                pv == views_of(paths@),
                i <= paths@.len(),
                ids@.len() == i,
                forall|k: int| 0 <= k < i ==> (#[trigger] ids@[k]) < self.collections.nodes@.len()
                    && self.collections.path_of(ids@[k] as nat) == split_on(paths@[k]@, sep()),
            decreases paths@.len() - i,
        {
            assert(pv[i as int] == paths@[i as int]@);
            match self.collections.resolve(paths[i].as_str()) {
                Some(c) => {
                    ids.push(c);
                },
                None => {
                    assert(!all_paths_found(&self.collections, pv));
                    return Err(i);
                },
            }
            i = i + 1;
        }
        proof {
            assert forall|k: int| 0 <= k < pv.len() implies self.collections.has_path(split_on(#[trigger] pv[k], sep())) by {
                assert(pv[k] == paths@[k]@);
                assert(self.collections.path_of(ids@[k] as nat) == split_on(pv[k], sep()));
            }
        }
        Ok(ids)
    }

    /// Gives media item `m` exactly the sources that `desired` lists: rows of
    /// sources no longer listed are deleted and missing ones inserted once.
    /// `None` asks for no change.
    pub fn reconcile_sources(&mut self, m: usize, desired: Option<Vec<String>>) -> (r: Result<(), AppError>)
        requires
            old(self).wf(),
        ensures
            final(self).wf(),
            r is Err <==> m >= old(self).media@.len(),
            r is Err ==> r->Err_0 is NotFound && *final(self) == *old(self),
            r is Ok && desired is None ==> *final(self) == *old(self),
            r is Ok && desired is Some ==> sources_reconciled(old(self).sources@, final(self).sources@, m, views_of(desired->0@)),
            final(self).media@ == old(self).media@,
            final(self).tags@ == old(self).tags@,
            final(self).tag_groups@ == old(self).tag_groups@,
            final(self).media_tags@ == old(self).media_tags@,
            final(self).creators@ == old(self).creators@,
            final(self).aliases@ == old(self).aliases@,
            final(self).media_creators@ == old(self).media_creators@,
            final(self).collections == old(self).collections,
            final(self).memberships@ == old(self).memberships@,
    {
        if m >= self.media.len() {
            return Err(AppError::NotFound(String::from_str("media not found")));
        }
        let wanted = match desired {
            None => {
                return Ok(());
            },
            Some(w) => w,
        };
        let ghost start = self.sources@;
        let mut kept: Vec<(usize, String)> = Vec::new();
        let mut i: usize = 0;
        while i < self.sources.len()
            invariant
                self.wf(),
                m < self.media@.len(),
                self.sources@ == start,
                i <= start.len(),
                sources_unique(kept@),
                forall|k: int| 0 <= k < kept@.len() ==> (#[trigger] kept@[k]).0 < self.media@.len(),
                forall|a: usize, t: Seq<char>| #[trigger] source_in(kept@, a, t) <==> source_in(start.subrange(0, i as int), a, t)
                    && (a != m || views_of(wanted@).contains(t)),
            decreases start.len() - i,
        {
            let a = self.sources[i].0;
            let ghost row = start[i as int];
            let ghost before = kept@;
            if a != m || text_in(&wanted, &self.sources[i].1) {
                add_source_row(&mut kept, a, self.sources[i].1.clone());
            }
            proof {
                assert forall|b: usize, t: Seq<char>| #[trigger] source_in(kept@, b, t) <==> source_in(start.subrange(0, i + 1), b, t)
                    && (b != m || views_of(wanted@).contains(t)) by {
                    if source_in(start.subrange(0, i + 1), b, t) {
                        let k = choose|k: int| 0 <= k < i + 1 && (#[trigger] start.subrange(0, i + 1)[k]).0 == b && start.subrange(0, i + 1)[k].1@ == t;
                        if k < i {
                            assert(start.subrange(0, i as int)[k] == start.subrange(0, i + 1)[k]);
                        }
                    }
                    if source_in(start.subrange(0, i as int), b, t) {
                        let k = choose|k: int| 0 <= k < i && (#[trigger] start.subrange(0, i as int)[k]).0 == b && start.subrange(0, i as int)[k].1@ == t;
                        assert(start.subrange(0, i + 1)[k] == start.subrange(0, i as int)[k]);
                    }
                    assert(start.subrange(0, i + 1)[i as int] == row);
                }
                assert forall|k: int| 0 <= k < kept@.len() implies (#[trigger] kept@[k]).0 < self.media@.len() by {
                    if kept@ != before && kept@[k].0 != a {
                        let x = choose|x: int| 0 <= x < before.len() && before[x] == kept@[k];
                    }
                }
            }
            i = i + 1;
        }
        assert(start.subrange(0, start.len() as int) =~= start);
        let mut j: usize = 0;
        while j < wanted.len()
            invariant
                self.wf(),
                m < self.media@.len(),
                self.sources@ == start,
                j <= wanted@.len(),
                sources_unique(kept@),
                forall|k: int| 0 <= k < kept@.len() ==> (#[trigger] kept@[k]).0 < self.media@.len(),
                forall|a: usize, t: Seq<char>| #[trigger] source_in(kept@, a, t) <==> if a == m {
                    views_of(wanted@).contains(t)
                        && (source_in(start, a, t) || views_of(wanted@.subrange(0, j as int)).contains(t))
                } else {
                    source_in(start, a, t)
                },
            decreases wanted@.len() - j,
        {
            let ghost before = kept@;
            add_source_row(&mut kept, m, wanted[j].clone());
            proof {
                let w = views_of(wanted@);
                assert(w[j as int] == wanted@[j as int]@);
                assert(views_of(wanted@.subrange(0, j + 1)) =~= views_of(wanted@.subrange(0, j as int)).push(wanted@[j as int]@));
                assert forall|t: Seq<char>| views_of(wanted@.subrange(0, j + 1)).contains(t)
                    <==> views_of(wanted@.subrange(0, j as int)).contains(t) || t == wanted@[j as int]@ by {
                    crate::reconcile::lemma_push_contains(views_of(wanted@.subrange(0, j as int)), wanted@[j as int]@, t);
                }
                assert(w.contains(wanted@[j as int]@));
                assert forall|a: usize, t: Seq<char>| #[trigger] source_in(kept@, a, t) <==> if a == m {
                    views_of(wanted@).contains(t)
                        && (source_in(start, a, t) || views_of(wanted@.subrange(0, j + 1)).contains(t))
                } else {
                    source_in(start, a, t)
                } by {
                    assert(source_in(kept@, a, t) <==> source_in(before, a, t) || (a == m && t == wanted@[j as int]@));
                }
                assert forall|k: int| 0 <= k < kept@.len() implies (#[trigger] kept@[k]).0 < self.media@.len() by {
                    if kept@[k].0 != m {
                        let x = choose|x: int| 0 <= x < before.len() && before[x] == kept@[k];
                    }
                }
            }
            j = j + 1;
        }
        proof {
            assert forall|t: Seq<char>| views_of(wanted@).contains(t) implies views_of(wanted@.subrange(0, wanted@.len() as int)).contains(t) by {
                assert(wanted@.subrange(0, wanted@.len() as int) =~= wanted@);
            }
        }
        self.sources = kept;
        Ok(())
    }

    /// The tag group named `name`, created where there is none.
    pub fn ensure_group(&mut self, name: &String) -> (r: usize)
        requires
            old(self).wf(),
        ensures
            final(self).wf(),
            r < final(self).tag_groups@.len(),
            final(self).tag_groups@[r as int]@ == name@,
            group_exists(old(self).tag_groups@, name@) ==> final(self).tag_groups@ == old(self).tag_groups@,
            final(self).tag_groups@.len() >= old(self).tag_groups@.len(),
            forall|i: int| 0 <= i < old(self).tag_groups@.len() ==> #[trigger] final(self).tag_groups@[i] == old(self).tag_groups@[i],
            final(self).tags@ == old(self).tags@,
            final(self).media@ == old(self).media@,
            final(self).media_tags@ == old(self).media_tags@,
            final(self).collection_tags@ == old(self).collection_tags@,
            final(self).creators@ == old(self).creators@,
            final(self).aliases@ == old(self).aliases@,
            final(self).media_creators@ == old(self).media_creators@,
            final(self).collection_creators@ == old(self).collection_creators@,
            final(self).collections == old(self).collections,
            final(self).sources@ == old(self).sources@,
            final(self).memberships@ == old(self).memberships@,
    {
        let mut i: usize = 0;
        while i < self.tag_groups.len()
            invariant
                i <= self.tag_groups@.len(),
                self.wf(),
                *self == *old(self),
                forall|k: int| 0 <= k < i ==> (#[trigger] self.tag_groups@[k])@ != name@,
            decreases self.tag_groups@.len() - i,
        {
            if self.tag_groups[i] == *name {
                return i;
            }
            i = i + 1;
        }
        let ghost before = *self;
        self.tag_groups.push(name.clone());
        proof {
            assert forall|a: int, b: int| 0 <= a < b < self.tag_groups@.len()
                implies (#[trigger] self.tag_groups@[a])@ != (#[trigger] self.tag_groups@[b])@ by {
                assert(self.tag_groups@[a] == before.tag_groups@[a]);
                if b < before.tag_groups@.len() {
                    assert(self.tag_groups@[b] == before.tag_groups@[b]);
                }
            }
            assert forall|k: int| 0 <= k < self.tags@.len() implies (#[trigger] self.tags@[k]).group < self.tag_groups@.len() by {
                assert(self.tags@[k] == before.tags@[k]);
            }
        }
        i
    }

    /// The tag with the text `tag`, created in the group `group` where there is none.
    pub fn ensure_tag(&mut self, group: &String, tag: &String) -> (r: usize)
        requires
            old(self).wf(),
        ensures
            final(self).wf(),
            r < final(self).tags@.len(),
            final(self).tags@[r as int].tag@ == tag@,
            tag_exists(old(self).tags@, tag@) ==> final(self).tags@ == old(self).tags@
                && final(self).tag_groups@ == old(self).tag_groups@,
            !tag_exists(old(self).tags@, tag@) ==> r == old(self).tags@.len()
                && final(self).tags@.len() == old(self).tags@.len() + 1
                && final(self).tag_groups@[final(self).tags@[r as int].group as int]@ == group@,
            final(self).tag_groups@.len() >= old(self).tag_groups@.len(),
            forall|i: int| 0 <= i < old(self).tag_groups@.len() ==> #[trigger] final(self).tag_groups@[i] == old(self).tag_groups@[i],
            final(self).tags@.len() >= old(self).tags@.len(),
            forall|i: int| 0 <= i < old(self).tags@.len() ==> #[trigger] final(self).tags@[i] == old(self).tags@[i],
            final(self).media@ == old(self).media@,
            final(self).media_tags@ == old(self).media_tags@,
            final(self).collection_tags@ == old(self).collection_tags@,
            final(self).creators@ == old(self).creators@,
            final(self).aliases@ == old(self).aliases@,
            final(self).media_creators@ == old(self).media_creators@,
            final(self).collection_creators@ == old(self).collection_creators@,
            final(self).collections == old(self).collections,
            final(self).sources@ == old(self).sources@,
            final(self).memberships@ == old(self).memberships@,
    {
        let mut i: usize = 0;
        while i < self.tags.len()
            invariant
                i <= self.tags@.len(),
                self.wf(),
                *self == *old(self),
                forall|k: int| 0 <= k < i ==> (#[trigger] self.tags@[k]).tag@ != tag@,
            decreases self.tags@.len() - i,
        {
            if self.tags[i].tag == *tag {
                return i;
            }
            i = i + 1;
        }
        let g = self.ensure_group(group);
        let ghost before = *self;
        let id = self.tags.len();
        self.tags.push(Tag { tag: tag.clone(), group: g });
        proof {
            assert forall|a: int, b: int| 0 <= a < b < self.tags@.len()
                implies (#[trigger] self.tags@[a]).tag@ != (#[trigger] self.tags@[b]).tag@ by {
                assert(self.tags@[a] == before.tags@[a]);
                if b < before.tags@.len() {
                    assert(self.tags@[b] == before.tags@[b]);
                }
            }
            assert forall|k: int| 0 <= k < self.tags@.len() implies (#[trigger] self.tags@[k]).group < self.tag_groups@.len() by {
                if k < before.tags@.len() {
                    assert(self.tags@[k] == before.tags@[k]);
                }
            }
            assert forall|k: int| 0 <= k < self.media_tags@.len() implies (#[trigger] self.media_tags@[k]).0 < self.media@.len()
                && self.media_tags@[k].1 < self.tags@.len() by {
                assert(self.media_tags@[k] == before.media_tags@[k]);
            }
        }
        id
    }

    /// The tags with the texts of the pairs `pairs`, in order, each created in
    /// its pair's group where it does not exist.
    pub fn ensure_tag_ids(&mut self, pairs: &Vec<(String, String)>) -> (ids: Vec<usize>)
        requires
            old(self).wf(),
        ensures
            final(self).wf(),
            ids@.len() == pairs@.len(),
            forall|k: int| 0 <= k < pairs@.len() ==> (#[trigger] ids@[k]) < final(self).tags@.len()
                && final(self).tags@[ids@[k] as int].tag@ == pairs@[k].1@,
            final(self).tags@.len() >= old(self).tags@.len(),
            forall|k: int| 0 <= k < old(self).tags@.len() ==> #[trigger] final(self).tags@[k] == old(self).tags@[k],
            (forall|k: int| 0 <= k < pairs@.len() ==> tag_exists(old(self).tags@, #[trigger] pairs@[k].1@))
                ==> final(self).tags@ == old(self).tags@ && final(self).tag_groups@ == old(self).tag_groups@,
            final(self).tag_groups@.len() >= old(self).tag_groups@.len(),
            forall|k: int| 0 <= k < old(self).tag_groups@.len() ==> #[trigger] final(self).tag_groups@[k] == old(self).tag_groups@[k],
            forall|b: int| old(self).tags@.len() <= b < final(self).tags@.len() ==> #[trigger] tag_from_pairs(
                pairs@,
                final(self).tag_groups@[final(self).tags@[b].group as int]@,
                final(self).tags@[b].tag@,
            ),
            final(self).media@ == old(self).media@,
            final(self).media_tags@ == old(self).media_tags@,
            final(self).collection_tags@ == old(self).collection_tags@,
            final(self).creators@ == old(self).creators@,
            final(self).aliases@ == old(self).aliases@,
            final(self).media_creators@ == old(self).media_creators@,
            final(self).collection_creators@ == old(self).collection_creators@,
            final(self).collections == old(self).collections,
            final(self).sources@ == old(self).sources@,
            final(self).memberships@ == old(self).memberships@,
    {
        let ghost start = *self;
        let mut ids: Vec<usize> = Vec::new();
        let mut i: usize = 0;
        while i < pairs.len()
            invariant
                self.wf(),
                i <= pairs@.len(),
                ids@.len() == i,
                forall|k: int| 0 <= k < i ==> (#[trigger] ids@[k]) < self.tags@.len() && self.tags@[ids@[k] as int].tag@ == pairs@[k].1@,
                self.tags@.len() >= start.tags@.len(),
                forall|k: int| 0 <= k < start.tags@.len() ==> #[trigger] self.tags@[k] == start.tags@[k],
                (forall|k: int| 0 <= k < pairs@.len() ==> tag_exists(start.tags@, #[trigger] pairs@[k].1@))
                    ==> self.tags@ == start.tags@ && self.tag_groups@ == start.tag_groups@,
                self.tag_groups@.len() >= start.tag_groups@.len(),
                forall|k: int| 0 <= k < start.tag_groups@.len() ==> #[trigger] self.tag_groups@[k] == start.tag_groups@[k],
                forall|b: int| start.tags@.len() <= b < self.tags@.len() ==> #[trigger] tag_from_pairs(
                    pairs@,
                    self.tag_groups@[self.tags@[b].group as int]@,
                    self.tags@[b].tag@,
                ),
                self.media@ == start.media@,
                self.media_tags@ == start.media_tags@,
                self.collection_tags@ == start.collection_tags@,
                self.creators@ == start.creators@,
                self.aliases@ == start.aliases@,
                self.media_creators@ == start.media_creators@,
                self.collection_creators@ == start.collection_creators@,
                self.collections == start.collections,
                self.sources@ == start.sources@,
                self.memberships@ == start.memberships@,
            decreases pairs@.len() - i,
        {
            let ghost prev = *self;
            let id = self.ensure_tag(&pairs[i].0, &pairs[i].1);
            proof {
                assert forall|k: int| 0 <= k < i implies (#[trigger] ids@[k]) < self.tags@.len() && self.tags@[ids@[k] as int].tag@ == pairs@[k].1@ by {
                    assert(self.tags@[ids@[k] as int] == prev.tags@[ids@[k] as int]);
                }
                if forall|k: int| 0 <= k < pairs@.len() ==> tag_exists(start.tags@, #[trigger] pairs@[k].1@) {
                    assert(tag_exists(start.tags@, pairs@[i as int].1@));
                    let j = choose|j: int| 0 <= j < start.tags@.len() && (#[trigger] start.tags@[j]).tag@ == pairs@[i as int].1@;
                    assert(prev.tags@[j] == start.tags@[j]);
                    assert(tag_exists(prev.tags@, pairs@[i as int].1@));
                }
                assert forall|b: int| start.tags@.len() <= b < self.tags@.len() implies #[trigger] tag_from_pairs(
                    pairs@,
                    self.tag_groups@[self.tags@[b].group as int]@,
                    self.tags@[b].tag@,
                ) by {
                    if b < prev.tags@.len() {
                        assert(self.tags@[b] == prev.tags@[b]);
                        assert(prev.tags@[b].group < prev.tag_groups@.len());
                        assert(self.tag_groups@[prev.tags@[b].group as int] == prev.tag_groups@[prev.tags@[b].group as int]);
                        assert(tag_from_pairs(pairs@, prev.tag_groups@[prev.tags@[b].group as int]@, prev.tags@[b].tag@));
                    } else {
                        assert(b == id as int);
                        assert(pairs@[i as int].1@ == self.tags@[b].tag@ && pairs@[i as int].0@ == self.tag_groups@[self.tags@[b].group as int]@);
                    }
                }
            }
            ids.push(id);
            i = i + 1;
        }
        ids
    }

    /// Gives collection `c` exactly the tags that `desired` lists, each in
    /// lowercase, creating tags and groups that do not exist. `None` asks for no
    /// change.
    pub fn reconcile_collection_tags(&mut self, c: usize, desired: Option<DataMap>) -> (r: Result<(), AppError>)
        requires
            old(self).wf(),
        ensures
            final(self).wf(),
            r is Err <==> c >= old(self).collections.nodes@.len(),
            r is Err ==> r->Err_0 is NotFound && *final(self) == *old(self),
            r is Ok && desired is None ==> *final(self) == *old(self),
            r is Ok && desired is Some ==> forall|t: Seq<char>| #[trigger] collection_has_tag(final(self), c, t) <==> desired_tag((desired->0).0@, t),
            r is Ok ==> forall|a: usize, b: usize| a != c ==> (#[trigger] has_row(final(self).collection_tags@, a, b) <==> has_row(old(self).collection_tags@, a, b)),
            r is Ok && desired is Some ==> ((forall|t: Seq<char>| #[trigger] desired_tag((desired->0).0@, t) ==> tag_exists(old(self).tags@, t))
                ==> final(self).tags@ == old(self).tags@ && final(self).tag_groups@ == old(self).tag_groups@),
            r is Ok && desired is Some ==> forall|b: int| old(self).tags@.len() <= b < final(self).tags@.len() ==> #[trigger] from_groups(
                (desired->0).0@,
                final(self).tag_groups@[final(self).tags@[b].group as int]@,
                final(self).tags@[b].tag@,
            ),
            final(self).media@ == old(self).media@,
            final(self).media_tags@ == old(self).media_tags@,
            final(self).creators@ == old(self).creators@,
            final(self).aliases@ == old(self).aliases@,
            final(self).media_creators@ == old(self).media_creators@,
            final(self).collection_creators@ == old(self).collection_creators@,
            final(self).collections == old(self).collections,
            final(self).memberships@ == old(self).memberships@,
    {
        if c >= self.collections.nodes.len() {
            return Err(AppError::NotFound(String::from_str("collection not found")));
        }
        let groups = match desired {
            None => {
                return Ok(());
            },
            Some(groups) => groups,
        };
        let ghost gs = groups.0@;
        let pairs = groups_to_tuple(groups);
        let ghost before_ids = *self;
        proof {
            if forall|t: Seq<char>| #[trigger] desired_tag(gs, t) ==> tag_exists(before_ids.tags@, t) {
                assert forall|k: int| 0 <= k < pairs@.len() implies tag_exists(before_ids.tags@, #[trigger] pairs@[k].1@) by {
                    assert(from_groups(gs, pairs@[k].0@, pairs@[k].1@));
                    let (gi, gj) = choose|gi: int, gj: int|
                        0 <= gi < gs.len() && 0 <= gj < gs[gi].1@.len() && pairs@[k].0@ == lower_of(#[trigger] gs[gi].0@)
                            && pairs@[k].1@ == lower_of(#[trigger] gs[gi].1@[gj]@);
                    assert(desired_tag(gs, pairs@[k].1@));
                }
            }
        }
        let ids = self.ensure_tag_ids(&pairs);
        let ghost mid = *self;
        proof {
            assert forall|b: int| before_ids.tags@.len() <= b < mid.tags@.len() implies #[trigger] from_groups(
                gs,
                mid.tag_groups@[mid.tags@[b].group as int]@,
                mid.tags@[b].tag@,
            ) by {
                assert(tag_from_pairs(pairs@, mid.tag_groups@[mid.tags@[b].group as int]@, mid.tags@[b].tag@));
                let k = choose|k: int| 0 <= k < pairs@.len() && (#[trigger] pairs@[k]).1@ == mid.tags@[b].tag@
                    && pairs@[k].0@ == mid.tag_groups@[mid.tags@[b].group as int]@;
                assert(from_groups(gs, pairs@[k].0@, pairs@[k].1@));
            }
        }
        replace_objects(&mut self.collection_tags, c, &ids);
        proof {
            assert forall|x: int| 0 <= x < self.collection_tags@.len() implies (#[trigger] self.collection_tags@[x]).0 < self.collections.nodes@.len()
                && self.collection_tags@[x].1 < self.tags@.len() by {
                let (a, b) = self.collection_tags@[x];
                assert(has_row(self.collection_tags@, a, b));
                if a == c {
                    let k = choose|k: int| 0 <= k < ids@.len() && ids@[k] == b;
                } else {
                    let y = choose|y: int| 0 <= y < mid.collection_tags@.len() && mid.collection_tags@[y] == (a, b);
                }
            }
            assert forall|t: Seq<char>| #[trigger] collection_has_tag(self, c, t) <==> desired_tag(gs, t) by {
                if collection_has_tag(self, c, t) {
                    let x = choose|x: int| 0 <= x < self.collection_tags@.len() && (#[trigger] self.collection_tags@[x]).0 == c
                        && self.tags@[self.collection_tags@[x].1 as int].tag@ == t;
                    let b = self.collection_tags@[x].1;
                    assert(has_row(self.collection_tags@, c, b));
                    let k = choose|k: int| 0 <= k < ids@.len() && ids@[k] == b;
                    assert(from_groups(gs, pairs@[k].0@, pairs@[k].1@));
                }
                if desired_tag(gs, t) {
                    let (gi, gj) = choose|gi: int, gj: int|
                        0 <= gi < gs.len() && 0 <= gj < gs[gi].1@.len() && t == lower_of(#[trigger] gs[gi].1@[gj]@);
                    assert(has_tag(pairs@, lower_of(gs[gi].1@[gj]@)));
                    let k = choose|k: int| 0 <= k < pairs@.len() && (#[trigger] pairs@[k]).1@ == t;
                    assert(ids@.contains(ids@[k]));
                    assert(has_row(self.collection_tags@, c, ids@[k]));
                    let x = choose|x: int| 0 <= x < self.collection_tags@.len() && self.collection_tags@[x] == (c, ids@[k]);
                    assert(self.collection_tags@[x].0 == c);
                }
            }
        }
        Ok(())
    }

    /// Gives media item `m` exactly the tags that `desired` lists, each in
    /// lowercase, creating tags and groups that do not exist. A tag that exists
    /// keeps its group. `None` asks for no change.
    pub fn reconcile_media_tags(&mut self, m: usize, desired: Option<DataMap>) -> (r: Result<(), AppError>)
        requires
            old(self).wf(),
        ensures
            final(self).wf(),
            r is Err <==> m >= old(self).media@.len(),
            r is Err ==> r->Err_0 is NotFound && *final(self) == *old(self),
            r is Ok && desired is None ==> *final(self) == *old(self),
            r is Ok && desired is Some ==> tags_reconciled(old(self), final(self), m, (desired->0).0@),
            final(self).media@ == old(self).media@,
            final(self).creators@ == old(self).creators@,
            final(self).aliases@ == old(self).aliases@,
            final(self).media_creators@ == old(self).media_creators@,
            final(self).collections == old(self).collections,
            final(self).memberships@ == old(self).memberships@,
            final(self).sources@ == old(self).sources@,
    {
        if m >= self.media.len() {
            return Err(AppError::NotFound(String::from_str("media not found")));
        }
        let groups = match desired {
            None => {
                return Ok(());
            },
            Some(groups) => groups,
        };
        let ghost gs = groups.0@;
        let pairs = groups_to_tuple(groups);
        let ghost before_ids = *self;
        proof {
            if forall|t: Seq<char>| #[trigger] desired_tag(gs, t) ==> tag_exists(before_ids.tags@, t) {
                assert forall|k: int| 0 <= k < pairs@.len() implies tag_exists(before_ids.tags@, #[trigger] pairs@[k].1@) by {
                    assert(from_groups(gs, pairs@[k].0@, pairs@[k].1@));
                    let (gi, gj) = choose|gi: int, gj: int|
                        0 <= gi < gs.len() && 0 <= gj < gs[gi].1@.len() && pairs@[k].0@ == lower_of(#[trigger] gs[gi].0@)
                            && pairs@[k].1@ == lower_of(#[trigger] gs[gi].1@[gj]@);
                    assert(desired_tag(gs, pairs@[k].1@));
                }
            }
        }
        let ids = self.ensure_tag_ids(&pairs);
        let ghost mid = *self;
        proof {
            assert forall|b: int| before_ids.tags@.len() <= b < mid.tags@.len() implies #[trigger] from_groups(
                gs,
                mid.tag_groups@[mid.tags@[b].group as int]@,
                mid.tags@[b].tag@,
            ) by {
                assert(tag_from_pairs(pairs@, mid.tag_groups@[mid.tags@[b].group as int]@, mid.tags@[b].tag@));
                let k = choose|k: int| 0 <= k < pairs@.len() && (#[trigger] pairs@[k]).1@ == mid.tags@[b].tag@
                    && pairs@[k].0@ == mid.tag_groups@[mid.tags@[b].group as int]@;
                assert(from_groups(gs, pairs@[k].0@, pairs@[k].1@));
            }
        }
        replace_objects(&mut self.media_tags, m, &ids);
        proof {
            assert forall|x: int| 0 <= x < self.media_tags@.len() implies (#[trigger] self.media_tags@[x]).0 < self.media@.len()
                && self.media_tags@[x].1 < self.tags@.len() by {
                let (a, b) = self.media_tags@[x];
                assert(has_row(self.media_tags@, a, b));
                if a == m {
                    let k = choose|k: int| 0 <= k < ids@.len() && ids@[k] == b;
                } else {
                    let y = choose|y: int| 0 <= y < mid.media_tags@.len() && mid.media_tags@[y] == (a, b);
                }
            }
            assert forall|t: Seq<char>| #[trigger] media_has_tag(self, m, t) <==> desired_tag(gs, t) by {
                if media_has_tag(self, m, t) {
                    let x = choose|x: int| 0 <= x < self.media_tags@.len() && (#[trigger] self.media_tags@[x]).0 == m
                        && self.tags@[self.media_tags@[x].1 as int].tag@ == t;
                    let b = self.media_tags@[x].1;
                    assert(has_row(self.media_tags@, m, b));
                    let k = choose|k: int| 0 <= k < ids@.len() && ids@[k] == b;
                    assert(from_groups(gs, pairs@[k].0@, pairs@[k].1@));
                }
                if desired_tag(gs, t) {
                    let (gi, gj) = choose|gi: int, gj: int|
                        0 <= gi < gs.len() && 0 <= gj < gs[gi].1@.len() && t == lower_of(#[trigger] gs[gi].1@[gj]@);
                    assert(has_tag(pairs@, lower_of(gs[gi].1@[gj]@)));
                    let k = choose|k: int| 0 <= k < pairs@.len() && (#[trigger] pairs@[k]).1@ == t;
                    assert(ids@.contains(ids@[k]));
                    assert(has_row(self.media_tags@, m, ids@[k]));
                    let x = choose|x: int| 0 <= x < self.media_tags@.len() && self.media_tags@[x] == (m, ids@[k]);
                    assert(self.media_tags@[x].0 == m);
                }
            }
        }
        Ok(())
    }
}


/// Whether `o` is the place of the first listing of `a` in `list`.
pub open spec fn first_place(list: Seq<usize>, a: usize, o: int) -> bool {
    0 <= o < list.len() && list[o] == a && forall|j: int| 0 <= j < o ==> list[j] != a
}

/// Whether every id of `list` is below `n`.
pub open spec fn ids_below(list: Seq<usize>, n: nat) -> bool {
    forall|k: int| 0 <= k < list.len() ==> (#[trigger] list[k]) < n
}

/// Whether every id of `list` is below `n`.
pub fn all_below(list: &Vec<usize>, n: usize) -> (r: bool)
    ensures
        r == ids_below(list@, n as nat),
{
    let mut i: usize = 0;
    while i < list.len()
        invariant
            i <= list@.len(),
            forall|k: int| 0 <= k < i ==> (#[trigger] list@[k]) < n,
        decreases list@.len() - i,
    {
        if list[i] >= n {
            return false;
        }
        i = i + 1;
    }
    true
}

impl Catalog {
    /// Replaces the media of collection `c` by `ordered`, each placed at its
    /// position in the list (a repeated item at its first). Rows of other
    /// collections stay. An unknown collection or media id is refused and nothing
    /// changes. `None` asks for no change.
    pub fn set_collection_media(&mut self, c: usize, ordered: Option<Vec<usize>>) -> (r: Result<(), AppError>)
        requires
            old(self).wf(),
            ordered is Some ==> ordered->0@.len() <= i64::MAX,
        ensures
            final(self).wf(),
            r is Err <==> c >= old(self).collections.nodes@.len() || (ordered is Some && !ids_below(ordered->0@, old(self).media@.len())),
            r is Err ==> r->Err_0 is NotFound && *final(self) == *old(self),
            r is Ok && ordered is None ==> *final(self) == *old(self),
            r is Ok && ordered is Some ==> forall|a: usize, d: usize| #[trigger] member_in(final(self).memberships@, a, d) <==> if d == c {
                ordered->0@.contains(a)
            } else {
                member_in(old(self).memberships@, a, d)
            },
            r is Ok && ordered is Some ==> forall|k: int| 0 <= k < final(self).memberships@.len() && (#[trigger] final(self).memberships@[k]).collection == c
                ==> first_place(ordered->0@, final(self).memberships@[k].media, final(self).memberships@[k].ord as int),
            r is Ok ==> forall|k: int| 0 <= k < old(self).memberships@.len() && (#[trigger] old(self).memberships@[k]).collection != c
                ==> final(self).memberships@.contains(old(self).memberships@[k]),
            final(self).media@ == old(self).media@,
            final(self).tags@ == old(self).tags@,
            final(self).media_tags@ == old(self).media_tags@,
            final(self).creators@ == old(self).creators@,
            final(self).aliases@ == old(self).aliases@,
            final(self).media_creators@ == old(self).media_creators@,
            final(self).collection_creators@ == old(self).collection_creators@,
            final(self).collections == old(self).collections,
            final(self).sources@ == old(self).sources@,
    {
        if c >= self.collections.nodes.len() {
            return Err(AppError::NotFound(String::from_str("collection not found")));
        }
        let list = match ordered {
            None => {
                return Ok(());
            },
            Some(l) => l,
        };
        if !all_below(&list, self.media.len()) {
            return Err(AppError::NotFound(String::from_str("media not found")));
        }
        let ghost start = self.memberships@;
        let mut kept: Vec<Membership> = Vec::new();
        let mut j: usize = 0;
        while j < self.memberships.len()
            invariant
                self.wf(),
                *self == *old(self),
                self.memberships@ == start,
                j <= start.len(),
                forall|k: int| 0 <= k < kept@.len() ==> (#[trigger] kept@[k]).collection != c,
                forall|k: int| 0 <= k < kept@.len() ==> exists|x: int| 0 <= x < j && start[x] == #[trigger] kept@[k],
                forall|k: int| 0 <= k < j && start[k].collection != c ==> kept@.contains(#[trigger] start[k]),
                forall|p: int, q: int| 0 <= p < q < kept@.len() ==> !((#[trigger] kept@[p]).media == (#[trigger] kept@[q]).media
                    && kept@[p].collection == kept@[q].collection),
            decreases start.len() - j,
        {
            let row = self.memberships[j];
            let ghost before = kept@;
            if row.collection != c {
                kept.push(row);
                proof {
                    assert forall|p: int, q: int| 0 <= p < q < kept@.len() implies !((#[trigger] kept@[p]).media == (#[trigger] kept@[q]).media
                        && kept@[p].collection == kept@[q].collection) by {
                        assert(kept@[p] == before[p]);
                        if q == kept@.len() - 1 {
                            let x = choose|x: int| 0 <= x < j && start[x] == #[trigger] before[p];
                            assert(start[j as int] == row);
                        } else {
                            assert(kept@[q] == before[q]);
                        }
                    }
                }
            }
            proof {
                assert forall|k: int| 0 <= k < kept@.len() implies exists|x: int| 0 <= x < j + 1 && start[x] == #[trigger] kept@[k] by {
                    if k < before.len() {
                        assert(kept@[k] == before[k]);
                        let x = choose|x: int| 0 <= x < j && start[x] == #[trigger] before[k];
                    } else {
                        assert(start[j as int] == kept@[k]);
                    }
                }
                assert forall|k: int| 0 <= k < j + 1 && start[k].collection != c implies kept@.contains(#[trigger] start[k]) by {
                    if k < j {
                        let x = choose|x: int| 0 <= x < before.len() && before[x] == start[k];
                        assert(kept@[x] == start[k]);
                    } else {
                        assert(kept@[kept@.len() - 1] == row);
                    }
                }
                assert forall|k: int| 0 <= k < kept@.len() implies (#[trigger] kept@[k]).collection != c by {
                    if k < before.len() {
                        assert(kept@[k] == before[k]);
                    }
                }
            }
            j = j + 1;
        }
        let ghost others = kept@;
        let mut i: usize = 0;
        while i < list.len()
            invariant
                self.wf(),
                *self == *old(self),
                self.memberships@ == start,
                c < self.collections.nodes@.len(),
                ids_below(list@, self.media@.len()),
                list@.len() <= i64::MAX,
                i <= list@.len(),
                forall|k: int| 0 <= k < start.len() && start[k].collection != c ==> kept@.contains(#[trigger] start[k]),
                forall|k: int| 0 <= k < kept@.len() ==> others.contains(#[trigger] kept@[k]) || (kept@[k].collection == c
                    && first_place(list@, kept@[k].media, kept@[k].ord as int) && kept@[k].media < self.media@.len()),
                forall|k: int| 0 <= k < others.len() ==> (#[trigger] others[k]).collection != c && start.contains(others[k]),
                forall|a: usize, d: usize| #[trigger] member_in(kept@, a, d) <==> if d == c {
                    list@.subrange(0, i as int).contains(a)
                } else {
                    member_in(others, a, d)
                },
                forall|p: int, q: int| 0 <= p < q < kept@.len() ==> !((#[trigger] kept@[p]).media == (#[trigger] kept@[q]).media
                    && kept@[p].collection == kept@[q].collection),
            decreases list@.len() - i,
        {
            let a = list[i];
            let ghost before = kept@;
            proof {
                crate::reconcile::lemma_prefix_step(list@, i as int, a);
            }
            if !is_member(&kept, a, c) {
                kept.push(Membership { media: a, collection: c, ord: i as i64 });
                proof {
                    assert(!list@.subrange(0, i as int).contains(a));
                    assert forall|j2: int| 0 <= j2 < i implies list@[j2] != a by {
                        if list@[j2] == a {
                            assert(list@.subrange(0, i as int)[j2] == a);
                        }
                    }
                    assert(first_place(list@, a, i as int));
                    assert forall|p: int, q: int| 0 <= p < q < kept@.len() implies !((#[trigger] kept@[p]).media == (#[trigger] kept@[q]).media
                        && kept@[p].collection == kept@[q].collection) by {
                        assert(kept@[p] == before[p]);
                        if q == kept@.len() - 1 {
                            if before[p].media == a && before[p].collection == c {
                                assert(member_in(before, a, c));
                            }
                        } else {
                            assert(kept@[q] == before[q]);
                        }
                    }
                    assert forall|k: int| 0 <= k < kept@.len() implies others.contains(#[trigger] kept@[k]) || (kept@[k].collection == c
                        && first_place(list@, kept@[k].media, kept@[k].ord as int) && kept@[k].media < self.media@.len()) by {
                        if k < before.len() {
                            assert(kept@[k] == before[k]);
                        }
                    }
                    assert forall|k: int| 0 <= k < start.len() && start[k].collection != c implies kept@.contains(#[trigger] start[k]) by {
                        let x = choose|x: int| 0 <= x < before.len() && before[x] == start[k];
                        assert(kept@[x] == start[k]);
                    }
                }
            }
            proof {
                assert forall|b: usize, d: usize| #[trigger] member_in(kept@, b, d) <==> if d == c {
                    list@.subrange(0, i + 1).contains(b)
                } else {
                    member_in(others, b, d)
                } by {
                    crate::reconcile::lemma_prefix_step(list@, i as int, b);
                    if kept@ != before {
                        if member_in(kept@, b, d) {
                            let k = choose|k: int| 0 <= k < kept@.len() && (#[trigger] kept@[k]).media == b && kept@[k].collection == d;
                            if k < before.len() {
                                assert(before[k] == kept@[k]);
                            }
                        }
                        if member_in(before, b, d) {
                            let k = choose|k: int| 0 <= k < before.len() && (#[trigger] before[k]).media == b && before[k].collection == d;
                            assert(kept@[k] == before[k]);
                        }
                        if b == a && d == c {
                            assert(kept@[kept@.len() - 1].media == a);
                        }
                    }
                }
            }
            i = i + 1;
        }
        proof {
            assert(list@.subrange(0, list@.len() as int) =~= list@);
            assert forall|a: usize, d: usize| #[trigger] member_in(kept@, a, d) <==> if d == c {
                list@.contains(a)
            } else {
                member_in(start, a, d)
            } by {
                if d != c {
                    if member_in(others, a, d) {
                        let k = choose|k: int| 0 <= k < others.len() && (#[trigger] others[k]).media == a && others[k].collection == d;
                        assert(start.contains(others[k]));
                        let y = choose|y: int| 0 <= y < start.len() && start[y] == others[k];
                    }
                    if member_in(start, a, d) {
                        let k = choose|k: int| 0 <= k < start.len() && (#[trigger] start[k]).media == a && start[k].collection == d;
                        assert(kept@.contains(start[k]));
                        let x = choose|x: int| 0 <= x < kept@.len() && kept@[x] == start[k];
                        assert(member_in(kept@, a, d));
                    }
                }
            }
            assert forall|k: int| 0 <= k < kept@.len() && (#[trigger] kept@[k]).collection == c
                implies first_place(list@, kept@[k].media, kept@[k].ord as int) by {
                if others.contains(kept@[k]) {
                    let x = choose|x: int| 0 <= x < others.len() && others[x] == kept@[k];
                }
            }
            assert forall|k: int| 0 <= k < kept@.len() implies (#[trigger] kept@[k]).media < self.media@.len()
                && kept@[k].collection < self.collections.nodes@.len() by {
                if others.contains(kept@[k]) {
                    let x = choose|x: int| 0 <= x < others.len() && others[x] == kept@[k];
                    assert(start.contains(others[x]));
                    let y = choose|y: int| 0 <= y < start.len() && start[y] == others[x];
                }
            }
        }
        self.memberships = kept;
        Ok(())
    }
}


/// The last piece of a `/`-joined path.
pub open spec fn last_piece(path: Seq<char>) -> Seq<char> {
    split_on(path, sep()).last()
}

impl Catalog {
    /// Updates collection `id`: its name (the last piece of `name`, where given),
    /// its description, its media in order, and its creators. An unknown
    /// collection or media id is not found, a name that a sibling has conflicts,
    /// and on either nothing changes.
    pub fn update_collection(
        &mut self,
        id: usize,
        name: Option<String>,
        description: Option<String>,
        creators: Option<Vec<String>>,
        media: Option<Vec<usize>>,
    ) -> (r: Result<(), AppError>)
        requires
            old(self).wf(),
            media is Some ==> media->0@.len() <= i64::MAX,
        ensures
            final(self).wf(),
            id >= old(self).collections.nodes@.len() ==> r is Err && r->Err_0 is NotFound,
            id < old(self).collections.nodes@.len() && media is Some && !ids_below(media->0@, old(self).media@.len()) ==> r is Err && r->Err_0 is NotFound,
            id < old(self).collections.nodes@.len() && !(media is Some && !ids_below(media->0@, old(self).media@.len())) ==> (r is Err
                <==> name is Some && exists|j: int| 0 <= j < old(self).collections.nodes@.len() && j != id
                    && old(self).collections.parent_of(j) == old(self).collections.parent_of(id as int)
                    && #[trigger] old(self).collections.name_of(j) == last_piece(name->0@)),
            r is Err ==> *final(self) == *old(self),
            r is Ok ==> final(self).collections.nodes@.len() == old(self).collections.nodes@.len()
                && final(self).collections.parent_of(id as int) == old(self).collections.parent_of(id as int),
            r is Ok && name is Some ==> final(self).collections.name_of(id as int) == last_piece(name->0@),
            r is Ok && name is None ==> final(self).collections.name_of(id as int) == old(self).collections.name_of(id as int),
            r is Ok ==> final(self).collections.nodes@[id as int].description == match description {
                Some(d) => Some(d),
                None => old(self).collections.nodes@[id as int].description,
            },
            r is Ok && media is Some ==> forall|a: usize| #[trigger] member_in(final(self).memberships@, a, id) <==> media->0@.contains(a),
            r is Ok && media is Some ==> forall|k: int| 0 <= k < final(self).memberships@.len() && (#[trigger] final(self).memberships@[k]).collection == id
                ==> first_place(media->0@, final(self).memberships@[k].media, final(self).memberships@[k].ord as int),
            r is Ok && media is None ==> final(self).memberships@ == old(self).memberships@,
            r is Ok ==> forall|a: usize, d: usize| d != id ==> (#[trigger] member_in(final(self).memberships@, a, d)
                <==> member_in(old(self).memberships@, a, d)),
            r is Ok ==> forall|k: int| 0 <= k < old(self).memberships@.len() && (#[trigger] old(self).memberships@[k]).collection != id
                ==> final(self).memberships@.contains(old(self).memberships@[k]),
            r is Ok ==> forall|a: usize, b: usize| a != id ==> (#[trigger] has_row(final(self).collection_creators@, a, b)
                <==> has_row(old(self).collection_creators@, a, b)),
            r is Ok && creators is Some ==> forall|b: usize| #[trigger] has_row(final(self).collection_creators@, id, b)
                <==> exists|i: int| 0 <= i < creators->0@.len() && final(self).resolves(#[trigger] creators->0@[i]@, b),
            final(self).media@ == old(self).media@,
            final(self).media_creators@ == old(self).media_creators@,
            final(self).media_tags@ == old(self).media_tags@,
    {
        if id >= self.collections.nodes.len() {
            return Err(AppError::NotFound(String::from_str("collection not found")));
        }
        match &media {
            Some(list) => {
                if !all_below(list, self.media.len()) {
                    return Err(AppError::NotFound(String::from_str("media not found")));
                }
            },
            None => {},
        }
        let ghost before = *self;
        match name {
            Some(n) => {
                let pieces = crate::text::split_text(n.as_str(), '/');
                proof {
                    crate::text::lemma_split_nonempty(n@, sep());
                    crate::text::lemma_split_no_sep(n@, sep());
                    assert(views_of(pieces@)[pieces@.len() - 1] == pieces@[pieces@.len() - 1]@);
                    assert(pieces@[pieces@.len() - 1]@ == last_piece(n@));
                }
                let last = pieces[pieces.len() - 1].clone();
                let desc = description;
                match self.collections.rename(id, last, desc) {
                    Ok(()) => {},
                    Err(e) => {
                        return Err(e);
                    },
                }
            },
            None => {
                match description {
                    Some(d) => {
                        let current = self.collections.nodes[id].name.clone();
                        proof {
                            assert(self.collections.name_of(id as int) == current@);
                        }
                        let renamed = self.collections.rename(id, current, Some(d));
                        proof {
                            if renamed is Err {
                                let j = choose|j: int| 0 <= j < before.collections.nodes@.len() && j != id
                                    && before.collections.parent_of(j) == before.collections.parent_of(id as int)
                                    && #[trigger] before.collections.name_of(j) == current@;
                            }
                        }
                    },
                    None => {},
                }
            },
        }
        proof {
            assert forall|k: int| 0 <= k < self.collection_creators@.len() implies (#[trigger] self.collection_creators@[k]).0 < self.collections.nodes@.len()
                && self.collection_creators@[k].1 < self.creators@.len() by {
                assert(self.collection_creators@[k] == before.collection_creators@[k]);
            }
        }
        let placed = self.set_collection_media(id, media);
        let named = self.reconcile_collection_creators(id, creators);
        proof {
            assert(placed is Ok);
            assert(named is Ok);
            if creators is Some {
                let dv = views_of(creators->0@);
                assert forall|b: usize| #[trigger] has_row(self.collection_creators@, id, b)
                    <==> exists|i: int| 0 <= i < creators->0@.len() && self.resolves(#[trigger] creators->0@[i]@, b) by {
                    if exists|i: int| 0 <= i < dv.len() && self.resolves(#[trigger] dv[i], b) {
                        let i = choose|i: int| 0 <= i < dv.len() && self.resolves(#[trigger] dv[i], b);
                        assert(dv[i] == creators->0@[i]@);
                    }
                    if exists|i: int| 0 <= i < creators->0@.len() && self.resolves(#[trigger] creators->0@[i]@, b) {
                        let i = choose|i: int| 0 <= i < creators->0@.len() && self.resolves(#[trigger] creators->0@[i]@, b);
                        assert(dv[i] == creators->0@[i]@);
                    }
                }
            }
        }
        Ok(())
    }

    /// Creates the collection at a `/`-joined path, with any missing ancestors,
    /// then gives it the media `media` in that order and the creators `creators`
    /// names. An unknown media id or a path that already names a collection is
    /// refused, and then nothing changes.
    pub fn create_collection(
        &mut self,
        path: &str,
        description: Option<String>,
        creators: Option<Vec<String>>,
        media: Option<Vec<usize>>,
    ) -> (r: Result<usize, AppError>)
        requires
            old(self).wf(),
            old(self).collections.nodes@.len() + split_on(path@, sep()).len() < usize::MAX,
            media is Some ==> media->0@.len() <= i64::MAX,
        ensures
            final(self).wf(),
            r is Err <==> (media is Some && !ids_below(media->0@, old(self).media@.len()))
                || old(self).collections.has_path(split_on(path@, sep())),
            r is Err ==> *final(self) == *old(self),
            old(self).collections.has_path(split_on(path@, sep())) ==> r is Err && r->Err_0 is BadRequest,
            !old(self).collections.has_path(split_on(path@, sep())) && media is Some && !ids_below(media->0@, old(self).media@.len())
                ==> r is Err && r->Err_0 is NotFound,
            r is Ok ==> r->Ok_0 < final(self).collections.nodes@.len()
                && final(self).collections.path_of(r->Ok_0 as nat) == split_on(path@, sep()),
            r is Ok ==> crate::collections::added_tail(&old(self).collections, &final(self).collections, split_on(path@, sep()), description)
                && r->Ok_0 == final(self).collections.nodes@.len() - 1,
            r is Ok && media is Some ==> forall|a: usize| #[trigger] member_in(final(self).memberships@, a, r->Ok_0) <==> media->0@.contains(a),
            r is Ok && media is Some ==> forall|k: int| 0 <= k < final(self).memberships@.len() && (#[trigger] final(self).memberships@[k]).collection == r->Ok_0
                ==> first_place(media->0@, final(self).memberships@[k].media, final(self).memberships@[k].ord as int),
            r is Ok && creators is Some ==> forall|b: usize| #[trigger] has_row(final(self).collection_creators@, r->Ok_0, b)
                <==> exists|i: int| 0 <= i < creators->0@.len() && final(self).resolves(#[trigger] creators->0@[i]@, b),
            final(self).media@ == old(self).media@,
            final(self).media_creators@ == old(self).media_creators@,
            final(self).media_tags@ == old(self).media_tags@,
    {
        if self.collections.resolve(path).is_some() {
            return Err(AppError::BadRequest(crate::text::joined_message("collection already exists: ", path)));
        }
        match &media {
            Some(list) => {
                if !all_below(list, self.media.len()) {
                    return Err(AppError::NotFound(String::from_str("media not found")));
                }
            },
            None => {},
        }
        let ghost before = *self;
        let id = match self.collections.create_path(path, description) {
            Ok(id) => id,
            Err(e) => {
                return Err(e);
            },
        };
        proof {
            assert forall|k: int| 0 <= k < self.memberships@.len() implies (#[trigger] self.memberships@[k]).media < self.media@.len()
                && self.memberships@[k].collection < self.collections.nodes@.len() by {
                assert(self.memberships@[k] == before.memberships@[k]);
            }
            assert forall|k: int| 0 <= k < self.collection_creators@.len() implies (#[trigger] self.collection_creators@[k]).0 < self.collections.nodes@.len()
                && self.collection_creators@[k].1 < self.creators@.len() by {
                assert(self.collection_creators@[k] == before.collection_creators@[k]);
            }
        }
        let placed = self.set_collection_media(id, media);
        let named = self.reconcile_collection_creators(id, creators);
        proof {
            assert(placed is Ok);
            assert(named is Ok);
            if creators is Some {
                let dv = views_of(creators->0@);
                assert forall|b: usize| #[trigger] has_row(self.collection_creators@, id, b)
                    <==> exists|i: int| 0 <= i < creators->0@.len() && self.resolves(#[trigger] creators->0@[i]@, b) by {
                    if exists|i: int| 0 <= i < dv.len() && self.resolves(#[trigger] dv[i], b) {
                        let i = choose|i: int| 0 <= i < dv.len() && self.resolves(#[trigger] dv[i], b);
                        assert(dv[i] == creators->0@[i]@);
                    }
                    if exists|i: int| 0 <= i < creators->0@.len() && self.resolves(#[trigger] creators->0@[i]@, b) {
                        let i = choose|i: int| 0 <= i < creators->0@.len() && self.resolves(#[trigger] creators->0@[i]@, b);
                        assert(dv[i] == creators->0@[i]@);
                    }
                }
            }
        }
        Ok(id)
    }
}


impl Catalog {
    /// Applies a media patch: for each facet given, the item's relations become
    /// exactly what it lists (collections by path, tags by group, creators by
    /// name, sources by text); a facet that is absent stays as it is. An unknown
    /// item is not found and a collection path that names nothing is a bad
    /// request naming it; on either error nothing changes.
    pub fn patch_media(
        &mut self,
        m: usize,
        tags: Option<DataMap>,
        creators: Option<Vec<String>>,
        sources: Option<Vec<String>>,
        collections: Option<Vec<String>>,
    ) -> (r: Result<(), AppError>)
        requires
            old(self).wf(),
        ensures
            final(self).wf(),
            r is Err ==> *final(self) == *old(self),
            m >= old(self).media@.len() ==> r is Err && r->Err_0 is NotFound,
            m < old(self).media@.len() ==> (r is Err <==> collections is Some
                && !all_paths_found(&old(self).collections, views_of(collections->0@))),
            m < old(self).media@.len() && r is Err ==> exists|i: int| 0 <= i < collections->0@.len()
                && !old(self).collections.has_path(split_on(#[trigger] collections->0@[i]@, sep()))
                && r->Err_0.is_bad_request_with("collection not found: "@ + collections->0@[i]@),
            r is Ok && collections is Some ==> forall|a: usize, c: usize| #[trigger] member_in(final(self).memberships@, a, c) <==> if a == m {
                c < old(self).collections.nodes@.len() && at_some_path(&old(self).collections, views_of(collections->0@), c)
            } else {
                member_in(old(self).memberships@, a, c)
            },
            r is Ok && collections is None ==> final(self).memberships@ == old(self).memberships@,
            r is Ok && tags is Some ==> tags_reconciled(old(self), final(self), m, (tags->0).0@),
            r is Ok && tags is None ==> final(self).media_tags@ == old(self).media_tags@ && final(self).tags@ == old(self).tags@,
            r is Ok && creators is Some ==> creators_reconciled(old(self), final(self), m, views_of(creators->0@)),
            r is Ok && creators is None ==> final(self).media_creators@ == old(self).media_creators@
                && final(self).creators@ == old(self).creators@ && final(self).aliases@ == old(self).aliases@,
            r is Ok && sources is Some ==> sources_reconciled(old(self).sources@, final(self).sources@, m, views_of(sources->0@)),
            r is Ok && sources is None ==> final(self).sources@ == old(self).sources@,
            final(self).media@ == old(self).media@,
            final(self).collections == old(self).collections,
    {
        if m >= self.media.len() {
            return Err(AppError::NotFound(String::from_str("media not found")));
        }
        let ghost s0 = *self;
        let placed = self.reconcile_media_collections(m, collections);
        match placed {
            Ok(()) => {},
            Err(e) => {
                return Err(e);
            },
        }
        let ghost s1 = *self;
        let tagged = self.reconcile_media_tags(m, tags);
        let ghost s2 = *self;
        let named = self.reconcile_media_creators(m, creators);
        let ghost s3 = *self;
        let sourced = self.reconcile_sources(m, sources);
        proof {
            assert(tagged is Ok && named is Ok && sourced is Ok);
            if tags is Some {
                assert(tags_reconciled(&s1, &s2, m, (tags->0).0@));
                assert forall|t: Seq<char>| #[trigger] media_has_tag(self, m, t) == media_has_tag(&s2, m, t) by {}
                assert forall|t: Seq<char>| #[trigger] media_has_tag(&s1, m, t) == media_has_tag(&s0, m, t) by {}
            }
            if creators is Some {
                assert(creators_reconciled(&s2, &s3, m, views_of(creators->0@)));
                assert forall|n: Seq<char>, c: usize| #[trigger] self.resolves(n, c) == s3.resolves(n, c) by {}
                assert forall|n: Seq<char>, c: usize| #[trigger] s2.resolves(n, c) == s0.resolves(n, c) by {}
                assert forall|n: Seq<char>| #[trigger] self.found(n) == s3.found(n) by {
                    if self.found(n) {
                        let c = choose|c: usize| self.resolves(n, c);
                        assert(s3.resolves(n, c));
                    }
                    if s3.found(n) {
                        let c = choose|c: usize| s3.resolves(n, c);
                        assert(self.resolves(n, c));
                    }
                }
                assert forall|n: Seq<char>| #[trigger] s2.found(n) == s0.found(n) by {
                    if s2.found(n) {
                        let c = choose|c: usize| s2.resolves(n, c);
                        assert(s0.resolves(n, c));
                    }
                    if s0.found(n) {
                        let c = choose|c: usize| s0.resolves(n, c);
                        assert(s2.resolves(n, c));
                    }
                }
                let dv = views_of(creators->0@);
                assert forall|c: int| s0.creators@.len() <= c < self.creators@.len() implies #[trigger] crate::catalog::made_for(&s0, self, dv, c) by {
                    assert(crate::catalog::made_for(&s2, &s3, dv, c));
                    let i = choose|i: int| 0 <= i < dv.len() && !s2.found(dv[i]) && s3.resolves(dv[i], c as usize)
                        && s3.creators@[c]@ == dv[i];
                    assert(self.resolves(dv[i], c as usize));
                }
                assert forall|a: usize, b: usize| #[trigger] has_row(self.media_creators@, a, b) <==> if a == m {
                    exists|i: int| 0 <= i < dv.len() && self.resolves(#[trigger] dv[i], b)
                } else {
                    has_row(s0.media_creators@, a, b)
                } by {
                    if a == m {
                        if exists|i: int| 0 <= i < dv.len() && self.resolves(#[trigger] dv[i], b) {
                            let i = choose|i: int| 0 <= i < dv.len() && self.resolves(#[trigger] dv[i], b);
                            assert(s3.resolves(dv[i], b));
                        }
                        if exists|i: int| 0 <= i < dv.len() && s3.resolves(#[trigger] dv[i], b) {
                            let i = choose|i: int| 0 <= i < dv.len() && s3.resolves(#[trigger] dv[i], b);
                            assert(self.resolves(dv[i], b));
                        }
                    }
                }
            }
        }
        Ok(())
    }
}

} // verus!
