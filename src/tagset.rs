//! Tag sets: required/forbidden matching, the leading-dash convention for exclusions,
//! and flattening tag groups into sorted `(group, tag)` pairs.

use vstd::prelude::*;
use crate::text::{chars_of, lower_of, lowercase, string_of, views_of};

verus! {

/// Whether a media item with the tags `tags` passes a filter: every included tag
/// is among them and no excluded tag is.
pub open spec fn tags_match_spec(tags: Seq<Seq<char>>, required: Seq<Seq<char>>, forbidden: Seq<Seq<char>>) -> bool {
    &&& forall|i: int| 0 <= i < required.len() ==> tags.contains(#[trigger] required[i])
    &&& forall|i: int| 0 <= i < forbidden.len() ==> !tags.contains(#[trigger] forbidden[i])
}

/// Whether `v` holds a string with the text of `t`.
pub fn text_in(v: &Vec<String>, t: &String) -> (r: bool)
    ensures
        r == views_of(v@).contains(t@),
{
    let mut i: usize = 0;
    while i < v.len()
        invariant
            i <= v@.len(),
            forall|k: int| 0 <= k < i ==> v@[k]@ != t@,
        decreases v@.len() - i,
    {
        if v[i] == *t {
            assert(views_of(v@)[i as int] == t@);
            return true;
        }
        i = i + 1;
    }
    assert(!views_of(v@).contains(t@)) by {
        if views_of(v@).contains(t@) {
            let k = choose|k: int| 0 <= k < views_of(v@).len() && views_of(v@)[k] == t@;
            assert(v@[k]@ == t@);
        }
    }
    false
}

/// Whether a media item with the tags `tags` passes the required and forbidden lists.
pub fn tags_match(tags: &Vec<String>, required: &Vec<String>, forbidden: &Vec<String>) -> (r: bool)
    ensures
        r == tags_match_spec(views_of(tags@), views_of(required@), views_of(forbidden@)),
{
    let mut i: usize = 0;
    while i < required.len()
        invariant
            i <= required@.len(),
            forall|k: int| 0 <= k < i ==> views_of(tags@).contains(#[trigger] views_of(required@)[k]),
        decreases required@.len() - i,
    {
        if !text_in(tags, &required[i]) {
            assert(views_of(required@)[i as int] == required@[i as int]@);
            return false;
        }
        i = i + 1;
    }
    let mut j: usize = 0;
    while j < forbidden.len()
        invariant
            j <= forbidden@.len(),
            forall|k: int| 0 <= k < required@.len() ==> views_of(tags@).contains(#[trigger] views_of(required@)[k]),
            forall|k: int| 0 <= k < j ==> !views_of(tags@).contains(#[trigger] views_of(forbidden@)[k]),
        decreases forbidden@.len() - j,
    {
        if text_in(tags, &forbidden[j]) {
            assert(views_of(forbidden@)[j as int] == forbidden@[j as int]@);
            return false;
        }
        j = j + 1;
    }
    true
}

/// A term that starts with `-` asks to exclude the rest of it.
pub open spec fn is_exclusion(t: Seq<char>) -> bool {
    t.len() > 0 && t[0] == '-'
}

/// The terms that ask for a match, as given.
pub open spec fn included_terms(ts: Seq<Seq<char>>) -> Seq<Seq<char>>
    decreases ts.len(),
{
    if ts.len() == 0 {
        Seq::empty()
    } else if is_exclusion(ts.last()) {
        included_terms(ts.drop_last())
    } else {
        included_terms(ts.drop_last()).push(ts.last())
    }
}

/// The terms that ask to exclude, with their leading `-` taken off.
pub open spec fn excluded_terms(ts: Seq<Seq<char>>) -> Seq<Seq<char>>
    decreases ts.len(),
{
    if ts.len() == 0 {
        Seq::empty()
    } else if is_exclusion(ts.last()) {
        excluded_terms(ts.drop_last()).push(ts.last().drop_first())
    } else {
        excluded_terms(ts.drop_last())
    }
}

/// Splits search terms into those to match and those to exclude: a single
/// leading `-` marks an exclusion and is taken off.
pub fn split_terms(terms: &Vec<String>) -> (r: (Vec<String>, Vec<String>))
    ensures
        views_of(r.0@) == included_terms(views_of(terms@)),
        views_of(r.1@) == excluded_terms(views_of(terms@)),
{
    let mut inc: Vec<String> = Vec::new();
    let mut exc: Vec<String> = Vec::new();
    let mut i: usize = 0;
    while i < terms.len()
        invariant
            i <= terms@.len(),
            views_of(inc@) == included_terms(views_of(terms@.subrange(0, i as int))),
            views_of(exc@) == excluded_terms(views_of(terms@.subrange(0, i as int))),
        decreases terms@.len() - i,
    {
        let ghost pre = views_of(terms@.subrange(0, i as int));
        let ghost post = views_of(terms@.subrange(0, i + 1));
        assert(post.drop_last() =~= pre);
        assert(post.last() == terms@[i as int]@);
        let cs = chars_of(terms[i].as_str());
        if cs.len() > 0 && cs[0] == '-' {
            let rest = string_of(&cs, 1);
            let ghost before = exc@;
            exc.push(rest);
            assert(cs@.subrange(1, cs@.len() as int) =~= cs@.drop_first());
            assert(views_of(exc@) =~= views_of(before).push(cs@.drop_first()));
        } else {
            let ghost before = inc@;
            inc.push(terms[i].clone());
            assert(views_of(inc@) =~= views_of(before).push(terms@[i as int]@));
        }
        i = i + 1;
    }
    assert(terms@.subrange(0, terms@.len() as int) =~= terms@);
    (inc, exc)
}

/// Lowercases each string.
pub fn lowercase_all(v: &Vec<String>) -> (r: Vec<String>)
    ensures
        r@.len() == v@.len(),
        forall|i: int| 0 <= i < v@.len() ==> (#[trigger] r@[i])@ == lower_of(v@[i]@),
{
    let mut r: Vec<String> = Vec::new();
    let mut i: usize = 0;
    while i < v.len()
        invariant
            i <= v@.len(),
            r@.len() == i,
            forall|k: int| 0 <= k < i ==> (#[trigger] r@[k])@ == lower_of(v@[k]@),
        decreases v@.len() - i,
    {
        r.push(lowercase(v[i].as_str()));
        i = i + 1;
    }
    r
}

/// Code-point lexicographic order on texts, the order of `String`'s `<`.
pub open spec fn lex_lt(a: Seq<char>, b: Seq<char>) -> bool
    decreases a.len(),
{
    if a.len() == 0 {
        b.len() > 0
    } else if b.len() == 0 {
        false
    } else if a[0] != b[0] {
        (a[0] as int) < (b[0] as int)
    } else {
        lex_lt(a.drop_first(), b.drop_first())
    }
}

pub proof fn lemma_lex_irreflexive(a: Seq<char>)
    ensures
        !lex_lt(a, a),
    decreases a.len(),
{
    if a.len() > 0 {
        lemma_lex_irreflexive(a.drop_first());
    }
}

pub proof fn lemma_lex_total(a: Seq<char>, b: Seq<char>)
    ensures
        a == b || lex_lt(a, b) || lex_lt(b, a),
    decreases a.len(),
{
    if a.len() > 0 && b.len() > 0 && a[0] == b[0] {
        lemma_lex_total(a.drop_first(), b.drop_first());
        if a.drop_first() == b.drop_first() {
            assert(a =~= seq![a[0]] + a.drop_first());
            assert(b =~= seq![b[0]] + b.drop_first());
        }
    } else if a.len() > 0 && b.len() > 0 {
        assert((a[0] as int) != (b[0] as int));
    } else if a.len() == 0 && b.len() == 0 {
        assert(a =~= b);
    }
}

pub proof fn lemma_lex_asymmetric(a: Seq<char>, b: Seq<char>)
    ensures
        !(lex_lt(a, b) && lex_lt(b, a)),
    decreases a.len(),
{
    if a.len() > 0 && b.len() > 0 && a[0] == b[0] {
        lemma_lex_asymmetric(a.drop_first(), b.drop_first());
    }
}

pub proof fn lemma_lex_transitive(a: Seq<char>, b: Seq<char>, c: Seq<char>)
    requires
        lex_lt(a, b),
        lex_lt(b, c),
    ensures
        lex_lt(a, c),
    decreases a.len(),
{
    if a.len() > 0 && b.len() > 0 && c.len() > 0 && a[0] == b[0] && b[0] == c[0] {
        lemma_lex_transitive(a.drop_first(), b.drop_first(), c.drop_first());
    }
}

/// Compares two texts in code-point lexicographic order: `-1`, `0` or `1`.
pub fn compare_text(a: &String, b: &String) -> (r: i8)
    ensures
        r == -1 <==> lex_lt(a@, b@),
        r == 0 <==> a@ == b@,
        r == 1 <==> lex_lt(b@, a@),
{
    let x = chars_of(a.as_str());
    let y = chars_of(b.as_str());
    let mut i: usize = 0;
    proof {
        lemma_lex_total(a@, b@);
        lemma_lex_asymmetric(a@, b@);
        lemma_lex_irreflexive(a@);
        assert(x@.skip(0) =~= x@);
        assert(y@.skip(0) =~= y@);
    }
    loop
        invariant
            x@ == a@,
            y@ == b@,
            i <= x@.len(),
            i <= y@.len(),
            x@.subrange(0, i as int) == y@.subrange(0, i as int),
            lex_lt(a@, b@) == lex_lt(x@.skip(i as int), y@.skip(i as int)),
            lex_lt(b@, a@) == lex_lt(y@.skip(i as int), x@.skip(i as int)),
        decreases x@.len() - i,
    {
        if i == x.len() {
            if i == y.len() {
                assert(x@ =~= x@.subrange(0, i as int));
                assert(y@ =~= y@.subrange(0, i as int));
                return 0;
            }
            assert(a@ != b@);
            return -1;
        }
        if i == y.len() {
            assert(a@ != b@);
            return 1;
        }
        let p = x[i];
        let q = y[i];
        if p != q {
            assert(x@.skip(i as int)[0] == p);
            assert(y@.skip(i as int)[0] == q);
            if p < q {
                return -1;
            } else {
                return 1;
            }
        }
        assert(x@.skip(i as int).drop_first() =~= x@.skip(i + 1));
        assert(y@.skip(i as int).drop_first() =~= y@.skip(i + 1));
        assert(x@.subrange(0, i + 1) =~= x@.subrange(0, i as int).push(p));
        assert(y@.subrange(0, i + 1) =~= y@.subrange(0, i as int).push(q));
        i = i + 1;
    }
}

/// Pairs strictly ordered by their second text.
pub open spec fn sorted_by_tag(v: Seq<(String, String)>) -> bool {
    forall|i: int, j: int| 0 <= i < j < v.len() ==> lex_lt((#[trigger] v[i]).1@, (#[trigger] v[j]).1@)
}

/// Whether some pair of `v` has the tag `t`.
pub open spec fn has_tag(v: Seq<(String, String)>, t: Seq<char>) -> bool {
    exists|k: int| 0 <= k < v.len() && (#[trigger] v[k]).1@ == t
}

/// Adds the pair `(g, t)` in its place, unless a pair with the tag `t` is there.
fn insert_by_tag(out: &mut Vec<(String, String)>, g: String, t: String)
    requires
        sorted_by_tag(old(out)@),
    ensures
        sorted_by_tag(final(out)@),
        has_tag(final(out)@, t@),
        forall|x: (String, String)| #[trigger] final(out)@.contains(x) <==> old(out)@.contains(x) || (x == (g, t)
            && !has_tag(old(out)@, t@)),
{
    let mut p: usize = 0;
    while p < out.len()
        invariant
            p <= out@.len(),
            sorted_by_tag(out@),
            forall|k: int| 0 <= k < p ==> lex_lt((#[trigger] out@[k]).1@, t@),
        ensures
            p <= out@.len(),
            sorted_by_tag(out@),
            forall|k: int| 0 <= k < p ==> lex_lt((#[trigger] out@[k]).1@, t@),
            p < out@.len() ==> !lex_lt(out@[p as int].1@, t@),
        decreases out@.len() - p,
    {
        if compare_text(&out[p].1, &t) != -1 {
            break;
        }
        p = p + 1;
    }
    if p < out.len() && compare_text(&out[p].1, &t) == 0 {
        assert(has_tag(out@, t@));
        return;
    }
    let ghost before = out@;
    proof {
        assert(!has_tag(before, t@)) by {
            if has_tag(before, t@) {
                let k = choose|k: int| 0 <= k < before.len() && (#[trigger] before[k]).1@ == t@;
                if k < p {
                    lemma_lex_irreflexive(t@);
                } else {
                    lemma_lex_total(before[p as int].1@, t@);
                    if k > p {
                        assert(lex_lt(before[p as int].1@, before[k].1@));
                        lemma_lex_transitive(t@, before[p as int].1@, t@);
                        lemma_lex_irreflexive(t@);
                    }
                }
            }
        }
    }
    out.insert(p, (g, t));
    proof {
        let tv = t@;
        assert(out@[p as int].1@ == tv);
        assert forall|i: int, j: int| 0 <= i < j < out@.len() implies lex_lt((#[trigger] out@[i]).1@, (#[trigger] out@[j]).1@) by {
            if j < p {
                assert(out@[i] == before[i] && out@[j] == before[j]);
            } else if j == p {
                assert(out@[i] == before[i]);
            } else if i == p {
                assert(out@[j] == before[j - 1]);
                lemma_lex_total(before[p as int].1@, tv);
                if j - 1 > p {
                    lemma_lex_transitive(tv, before[p as int].1@, before[j - 1].1@);
                }
            } else if i < p {
                assert(out@[i] == before[i] && out@[j] == before[j - 1]);
            } else {
                assert(out@[i] == before[i - 1] && out@[j] == before[j - 1]);
            }
        }
        assert forall|x: (String, String)| #[trigger] out@.contains(x) <==> before.contains(x) || x == (g, t) by {
            if out@.contains(x) {
                let k = choose|k: int| 0 <= k < out@.len() && out@[k] == x;
                if k < p {
                    assert(before[k] == x);
                } else if k > p {
                    assert(before[k - 1] == x);
                }
            }
            if before.contains(x) {
                let k = choose|k: int| 0 <= k < before.len() && before[k] == x;
                if k < p {
                    assert(out@[k] == x);
                } else {
                    assert(out@[k + 1] == x);
                }
            }
        }
        assert(has_tag(out@, tv));
    }
}

/// Tag groups: each group's name with its tags, in the order given.
#[derive(Debug)]
pub struct DataMap(pub Vec<(String, Vec<String>)>);

/// Whether `(g, t)` is the lowercase form of a tag of some group of `groups`.
pub open spec fn from_groups(groups: Seq<(String, Vec<String>)>, g: Seq<char>, t: Seq<char>) -> bool {
    exists|i: int, j: int|
        0 <= i < groups.len() && 0 <= j < groups[i].1@.len() && g == lower_of(#[trigger] groups[i].0@) && t
            == lower_of(#[trigger] groups[i].1@[j]@)
}

/// Flattens tag groups into `(group, tag)` pairs, both lowercased, one pair per
/// distinct tag, sorted by tag. Where a tag is listed under several groups, the
/// pair of its first listing is kept.
pub fn groups_to_tuple(tags_in: DataMap) -> (r: Vec<(String, String)>)
    ensures
        sorted_by_tag(r@),
        forall|k: int| 0 <= k < r@.len() ==> from_groups(tags_in.0@, (#[trigger] r@[k]).0@, r@[k].1@),
        forall|i: int, j: int|
            0 <= i < tags_in.0@.len() && 0 <= j < tags_in.0@[i].1@.len() ==> has_tag(
                r@,
                lower_of(#[trigger] tags_in.0@[i].1@[j]@),
            ),
{
    let groups = tags_in.0;
    let mut out: Vec<(String, String)> = Vec::new();
    let mut i: usize = 0;
    while i < groups.len()
        invariant
            i <= groups@.len(),
            sorted_by_tag(out@),
            forall|k: int| 0 <= k < out@.len() ==> from_groups(groups@, (#[trigger] out@[k]).0@, out@[k].1@),
            forall|a: int, b: int|
                0 <= a < i && 0 <= b < groups@[a].1@.len() ==> has_tag(out@, lower_of(#[trigger] groups@[a].1@[b]@)),
        decreases groups@.len() - i,
    {
        let group = lowercase(groups[i].0.as_str());
        let tags = &groups[i].1;
        let mut j: usize = 0;
        while j < tags.len()
            invariant
                i < groups@.len(),
                *tags == groups@[i as int].1,
                group@ == lower_of(groups@[i as int].0@),
                j <= tags@.len(),
                sorted_by_tag(out@),
                forall|k: int| 0 <= k < out@.len() ==> from_groups(groups@, (#[trigger] out@[k]).0@, out@[k].1@),
                forall|a: int, b: int|
                    0 <= a < i && 0 <= b < groups@[a].1@.len() ==> has_tag(out@, lower_of(#[trigger] groups@[a].1@[b]@)),
                forall|b: int| 0 <= b < j ==> has_tag(out@, lower_of(#[trigger] groups@[i as int].1@[b]@)),
            decreases tags@.len() - j,
        {
            let tag = lowercase(tags[j].as_str());
            let ghost before = out@;
            let ghost gv = group@;
            let ghost tv = tag@;
            insert_by_tag(&mut out, group.clone(), tag);
            proof {
                assert(from_groups(groups@, gv, tv)) by {
                    assert(tv == lower_of(groups@[i as int].1@[j as int]@));
                }
                assert forall|k: int| 0 <= k < out@.len() implies from_groups(groups@, (#[trigger] out@[k]).0@, out@[k].1@) by {
                    assert(out@.contains(out@[k]));
                    if before.contains(out@[k]) {
                        let m = choose|m: int| 0 <= m < before.len() && before[m] == out@[k];
                        assert(from_groups(groups@, before[m].0@, before[m].1@));
                    }
                }
                assert forall|t: Seq<char>| has_tag(before, t) implies has_tag(out@, t) by {
                    let m = choose|m: int| 0 <= m < before.len() && (#[trigger] before[m]).1@ == t;
                    assert(before.contains(before[m]));
                    assert(out@.contains(before[m]));
                    let n = choose|n: int| 0 <= n < out@.len() && out@[n] == before[m];
                    assert(out@[n].1@ == t);
                }
                assert forall|a: int, b: int|
                    0 <= a < i && 0 <= b < groups@[a].1@.len() implies has_tag(out@, lower_of(#[trigger] groups@[a].1@[b]@)) by {
                    assert(has_tag(before, lower_of(groups@[a].1@[b]@)));
                }
                assert forall|b: int| 0 <= b < j + 1 implies has_tag(out@, lower_of(#[trigger] groups@[i as int].1@[b]@)) by {
                    if b < j {
                        assert(has_tag(before, lower_of(groups@[i as int].1@[b]@)));
                    }
                }
            }
            j = j + 1;
        }
        i = i + 1;
    }
    out
}


/// Whether `i` is the first place of the text `v` in `a`.
pub open spec fn first_text_at(a: Seq<String>, v: Seq<char>, i: int) -> bool {
    0 <= i < a.len() && a[i]@ == v && forall|j: int| 0 <= j < i ==> a[j]@ != v
}

/// Removes the first string with the text of `value`, if there is one.
pub fn delete_value(array: &mut Vec<String>, value: &String)
    ensures
        (exists|i: int| first_text_at(old(array)@, value@, i) && final(array)@ == old(array)@.remove(i))
            || (!views_of(old(array)@).contains(value@) && final(array)@ == old(array)@),
{
    let mut i: usize = 0;
    while i < array.len()
        invariant
            i <= array@.len(),
            array@ == old(array)@,
            forall|j: int| 0 <= j < i ==> array@[j]@ != value@,
        decreases array@.len() - i,
    {
        if array[i] == *value {
            let ghost before = array@;
            array.remove(i);
            assert(first_text_at(before, value@, i as int));
            return;
        }
        i = i + 1;
    }
    assert(!views_of(array@).contains(value@)) by {
        if views_of(array@).contains(value@) {
            let k = choose|k: int| 0 <= k < views_of(array@).len() && views_of(array@)[k] == value@;
            assert(array@[k]@ == value@);
        }
    }
}

/// Whether `i` is the place of the group named `g` in `m`.
pub open spec fn group_at(m: Seq<(String, Vec<String>)>, g: Seq<char>, i: int) -> bool {
    0 <= i < m.len() && m[i].0@ == g && forall|j: int| 0 <= j < i ==> m[j].0@ != g
}

/// The place of the group named `g`, if there is one.
pub fn find_group(tag_groups: &DataMap, g: &String) -> (r: Option<usize>)
    ensures
        match r {
            Some(i) => group_at(tag_groups.0@, g@, i as int),
            None => forall|j: int| 0 <= j < tag_groups.0@.len() ==> (#[trigger] tag_groups.0@[j]).0@ != g@,
        },
{
    let mut i: usize = 0;
    while i < tag_groups.0.len()
        invariant
            i <= tag_groups.0@.len(),
            forall|j: int| 0 <= j < i ==> (#[trigger] tag_groups.0@[j]).0@ != g@,
        decreases tag_groups.0@.len() - i,
    {
        if tag_groups.0[i].0 == *g {
            return Some(i);
        }
        i = i + 1;
    }
    None
}

/// Adds `tag` at the end of the group named `group`, creating the group at the
/// end where there is none.
pub fn tag_group_add(tag_groups: &mut DataMap, tag: &String, group: &String)
    ensures
        match (exists|i: int| group_at(old(tag_groups).0@, group@, i)) {
            true => exists|i: int| group_at(old(tag_groups).0@, group@, i) && final(tag_groups).0@.len() == old(tag_groups).0@.len()
                && final(tag_groups).0@[i].0 == old(tag_groups).0@[i].0
                && final(tag_groups).0@[i].1@ == old(tag_groups).0@[i].1@.push(*tag)
                && forall|j: int| 0 <= j < old(tag_groups).0@.len() && j != i ==> #[trigger] final(tag_groups).0@[j] == old(tag_groups).0@[j],
            false => final(tag_groups).0@.len() == old(tag_groups).0@.len() + 1
                && final(tag_groups).0@.drop_last() == old(tag_groups).0@
                && final(tag_groups).0@.last().0@ == group@
                && final(tag_groups).0@.last().1@ == seq![*tag],
        },
{
    match find_group(tag_groups, group) {
        Some(i) => {
            let ghost before = tag_groups.0@;
            let mut entry = tag_groups.0.remove(i);
            entry.1.push(tag.clone());
            tag_groups.0.insert(i, entry);
            proof {
                assert forall|j: int| 0 <= j < before.len() && j != i implies #[trigger] tag_groups.0@[j] == before[j] by {
                    if j < i {
                        assert(tag_groups.0@[j] == before.remove(i as int)[j]);
                    } else {
                        assert(tag_groups.0@[j] == before.remove(i as int)[j - 1]);
                    }
                }
            }
        },
        None => {
            let mut tags: Vec<String> = Vec::new();
            tags.push(tag.clone());
            let ghost before = tag_groups.0@;
            tag_groups.0.push((group.clone(), tags));
            proof {
                assert(tag_groups.0@.drop_last() =~= before);
                assert(tags@ =~= seq![*tag]);
                assert(!exists|i: int| group_at(before, group@, i));
            }
        },
    }
}

/// Removes the first `tag` from the group named `group`, where both are there.
pub fn tag_group_delete(tag_groups: &mut DataMap, tag: &String, group: &String)
    ensures
        final(tag_groups).0@.len() == old(tag_groups).0@.len(),
        forall|j: int| 0 <= j < old(tag_groups).0@.len() && !group_at(old(tag_groups).0@, group@, j)
            ==> #[trigger] final(tag_groups).0@[j] == old(tag_groups).0@[j],
        forall|i: int| group_at(old(tag_groups).0@, group@, i) ==> {
            &&& final(tag_groups).0@[i].0 == old(tag_groups).0@[i].0
            &&& ((exists|k: int| first_text_at(old(tag_groups).0@[i].1@, tag@, k)
                    && final(tag_groups).0@[i].1@ == old(tag_groups).0@[i].1@.remove(k))
                || (!views_of(old(tag_groups).0@[i].1@).contains(tag@)
                    && final(tag_groups).0@[i].1@ == old(tag_groups).0@[i].1@))
        },
{
    match find_group(tag_groups, group) {
        Some(i) => {
            let ghost before = tag_groups.0@;
            let mut entry = tag_groups.0.remove(i);
            delete_value(&mut entry.1, tag);
            tag_groups.0.insert(i, entry);
            proof {
                assert forall|j: int| 0 <= j < before.len() && !group_at(before, group@, j) implies #[trigger] tag_groups.0@[j] == before[j] by {
                    if j < i {
                        assert(tag_groups.0@[j] == before.remove(i as int)[j]);
                    } else if j > i {
                        assert(tag_groups.0@[j] == before.remove(i as int)[j - 1]);
                    }
                }
                assert forall|k: int| group_at(before, group@, k) implies k == i by {
                    if k < i {
                        assert(before[k].0@ != group@);
                    } else if k > i {
                        assert(before[i as int].0@ != group@);
                    }
                }
            }
        },
        None => {},
    }
}

} // verus!
