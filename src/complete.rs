//! Completing a typed prefix to creator, collection and tag names, the most
//! used first.

use vstd::prelude::*;
use crate::catalog::{Catalog, Membership};
use crate::models::TagType;
use crate::text::{chars_of, string_of};

verus! {

/// One completion: what it names, its text, the tag group for a tag, and how
/// many media it is used on.
#[derive(Debug)]
pub struct Completion {
    pub id: usize,
    pub text: String,
    pub kind: TagType,
    pub group: Option<String>,
    pub count: u64,
}

/// What a completion holds, as plain values.
pub open spec fn completion_view(c: Completion) -> (usize, Seq<char>, TagType, Option<Seq<char>>, u64) {
    (c.id, c.text@, c.kind, match c.group {
        Some(g) => Some(g@),
        None => None,
    }, c.count)
}

pub open spec fn completion_views(v: Seq<Completion>) -> Seq<(usize, Seq<char>, TagType, Option<Seq<char>>, u64)> {
    v.map_values(|c: Completion| completion_view(c))
}

/// Whether `s` begins with `p`.
pub open spec fn has_prefix(s: Seq<char>, p: Seq<char>) -> bool {
    p.len() <= s.len() && s.subrange(0, p.len() as int) == p
}

/// What follows the first `:` of `s`, if it has one.
pub open spec fn colon_rest(s: Seq<char>) -> Option<Seq<char>>
    decreases s.len(),
{
    if s.len() == 0 {
        None
    } else if s[0] == ':' {
        Some(s.drop_first())
    } else {
        colon_rest(s.drop_first())
    }
}

/// The part of `s` after its first `:`, or all of `s` where it has none.
pub open spec fn after_colon(s: Seq<char>) -> Seq<char> {
    match colon_rest(s) {
        Some(r) => r,
        None => s,
    }
}

/// The number of rows whose object is `o`.
pub open spec fn count_objects(rows: Seq<(usize, usize)>, o: usize) -> nat
    decreases rows.len(),
{
    if rows.len() == 0 {
        0
    } else {
        count_objects(rows.drop_last(), o) + if rows.last().1 == o { 1nat } else { 0nat }
    }
}

/// The number of memberships of collection `c`.
pub open spec fn count_members(rows: Seq<Membership>, c: usize) -> nat
    decreases rows.len(),
{
    if rows.len() == 0 {
        0
    } else {
        count_members(rows.drop_last(), c) + if rows.last().collection == c { 1nat } else { 0nat }
    }
}

/// Whether `s` begins with `p`.
pub fn starts_with(s: &String, p: &Vec<char>) -> (r: bool)
    ensures
        r == has_prefix(s@, p@),
{
    let cs = chars_of(s.as_str());
    if p.len() > cs.len() {
        return false;
    }
    let mut i: usize = 0;
    while i < p.len()
        invariant
            cs@ == s@,
            p@.len() <= cs@.len(),
            i <= p@.len(),
            forall|k: int| 0 <= k < i ==> cs@[k] == p@[k],
        decreases p@.len() - i,
    {
        if cs[i] != p[i] {
            assert(s@.subrange(0, p@.len() as int)[i as int] != p@[i as int]);
            return false;
        }
        i = i + 1;
    }
    assert(s@.subrange(0, p@.len() as int) =~= p@);
    true
}

/// The part of `s` after its first `:`, or all of `s` where it has none.
pub fn text_after_colon(s: &String) -> (r: Vec<char>)
    ensures
        r@ == after_colon(s@),
{
    let cs = chars_of(s.as_str());
    let mut i: usize = cs.len();
    let mut found: Option<usize> = None;
    proof {
        assert(cs@.skip(cs@.len() as int) =~= Seq::<char>::empty());
    }
    while i > 0
        invariant
            cs@ == s@,
            i <= cs@.len(),
            match found {
                Some(k) => i <= k < cs@.len() && colon_rest(cs@.skip(i as int)) == Some(cs@.skip(k as int + 1)),
                None => colon_rest(cs@.skip(i as int)) is None,
            },
        decreases i,
    {
        i = i - 1;
        assert(cs@.skip(i as int).drop_first() =~= cs@.skip(i + 1));
        assert(cs@.skip(i as int)[0] == cs@[i as int]);
        if cs[i] == ':' {
            found = Some(i);
        }
    }
    assert(cs@.skip(0) =~= cs@);
    match found {
        Some(k) => {
            let mut r: Vec<char> = Vec::new();
            let mut j: usize = k + 1;
            while j < cs.len()
                invariant
                    k < cs@.len(),
                    k + 1 <= j <= cs@.len(),
                    r@ == cs@.subrange(k + 1, j as int),
                decreases cs@.len() - j,
            {
                r.push(cs[j]);
                j = j + 1;
                assert(r@ =~= cs@.subrange(k + 1, j as int));
            }
            assert(cs@.skip(k as int + 1) =~= cs@.subrange(k + 1, cs@.len() as int));
            r
        },
        None => cs,
    }
}


pub type CompletionView = (usize, Seq<char>, TagType, Option<Seq<char>>, u64);

/// The creators below `n` whose display name begins with `p`, in id order.
pub open spec fn creator_candidates(cat: &Catalog, p: Seq<char>, n: nat) -> Seq<CompletionView>
    decreases n,
{
    if n == 0 || n > cat.creators@.len() {
        Seq::empty()
    } else {
        let rest = creator_candidates(cat, p, (n - 1) as nat);
        let i = (n - 1) as usize;
        if has_prefix(cat.creators@[i as int]@, p) {
            rest.push((i, cat.creators@[i as int]@, TagType::Artist, None, count_objects(cat.media_creators@, i) as u64))
        } else {
            rest
        }
    }
}

/// The collections below `n` whose name begins with `p`, in id order.
pub open spec fn collection_candidates(cat: &Catalog, p: Seq<char>, n: nat) -> Seq<CompletionView>
    decreases n,
{
    if n == 0 || n > cat.collections.nodes@.len() {
        Seq::empty()
    } else {
        let rest = collection_candidates(cat, p, (n - 1) as nat);
        let i = (n - 1) as usize;
        if has_prefix(cat.collections.name_of(i as int), p) {
            rest.push((i, cat.collections.name_of(i as int), TagType::Collection, None, count_members(cat.memberships@, i) as u64))
        } else {
            rest
        }
    }
}

/// The tags below `n` whose text begins with `p`, in id order, written with a
/// leading `-` where `neg` holds.
pub open spec fn tag_candidates(cat: &Catalog, p: Seq<char>, neg: bool, n: nat) -> Seq<CompletionView>
    decreases n,
{
    if n == 0 || n > cat.tags@.len() {
        Seq::empty()
    } else {
        let rest = tag_candidates(cat, p, neg, (n - 1) as nat);
        let i = (n - 1) as usize;
        let t = cat.tags@[i as int];
        if has_prefix(t.tag@, p) && t.group < cat.tag_groups@.len() {
            rest.push((
                i,
                if neg { seq!['-'] + t.tag@ } else { t.tag@ },
                TagType::Tag,
                Some(cat.tag_groups@[t.group as int]@),
                count_objects(cat.media_tags@, i) as u64,
            ))
        } else {
            rest
        }
    }
}

/// The candidates with exactly `k` uses, in order.
pub open spec fn with_count(c: Seq<CompletionView>, k: u64) -> Seq<CompletionView>
    decreases c.len(),
{
    if c.len() == 0 {
        Seq::empty()
    } else if c.last().4 == k {
        with_count(c.drop_last(), k).push(c.last())
    } else {
        with_count(c.drop_last(), k)
    }
}

/// The candidates with `top` uses down to `low` uses, the most used first, in
/// order at equal use.
pub open spec fn from_top(c: Seq<CompletionView>, top: u64, low: u64) -> Seq<CompletionView>
    decreases top - low,
{
    if low >= top {
        with_count(c, top)
    } else {
        from_top(c, top, (low + 1) as u64) + with_count(c, low)
    }
}

/// The largest use count among the candidates, zero where there are none.
pub open spec fn max_count(c: Seq<CompletionView>) -> u64
    decreases c.len(),
{
    if c.len() == 0 {
        0
    } else if c.last().4 > max_count(c.drop_last()) {
        c.last().4
    } else {
        max_count(c.drop_last())
    }
}

/// The candidates of the kinds `kind` asks for, creators first, then collections, then tags.
pub open spec fn candidates(cat: &Catalog, kind: TagType, text: Seq<char>) -> Seq<CompletionView> {
    let p = after_colon(text);
    let neg = p.len() > 0 && p[0] == '-';
    let tp = if neg { p.drop_first() } else { p };
    (if kind == TagType::All || kind == TagType::Artist { creator_candidates(cat, p, cat.creators@.len()) } else { Seq::empty() })
        + (if kind == TagType::All || kind == TagType::Collection { collection_candidates(cat, p, cat.collections.nodes@.len()) } else { Seq::empty() })
        + (if kind == TagType::All || kind == TagType::Tag { tag_candidates(cat, tp, neg, cat.tags@.len()) } else { Seq::empty() })
}

proof fn lemma_with_count_entries(c: Seq<CompletionView>, k: u64, i: int)
    requires
        0 <= i < with_count(c, k).len(),
    ensures
        with_count(c, k)[i].4 == k,
    decreases c.len(),
{
    if c.len() > 0 {
        let rest = with_count(c.drop_last(), k);
        if i < rest.len() {
            lemma_with_count_entries(c.drop_last(), k, i);
        }
    }
}

/// Along the completions, use counts never go up, and stay between `low` and `top`.
pub proof fn lemma_from_top_ordered(c: Seq<CompletionView>, top: u64, low: u64)
    requires
        low <= top,
    ensures
        forall|i: int| 0 <= i < from_top(c, top, low).len() ==> low <= (#[trigger] from_top(c, top, low)[i]).4 <= top,
        forall|i: int, j: int| 0 <= i <= j < from_top(c, top, low).len() ==> (#[trigger] from_top(c, top, low)[i]).4
            >= (#[trigger] from_top(c, top, low)[j]).4,
    decreases top - low,
{
    let r = from_top(c, top, low);
    if low >= top {
        assert forall|i: int| 0 <= i < r.len() implies low <= (#[trigger] r[i]).4 <= top by {
            lemma_with_count_entries(c, top, i);
        }
        assert forall|i: int, j: int| 0 <= i <= j < r.len() implies (#[trigger] r[i]).4 >= (#[trigger] r[j]).4 by {
            lemma_with_count_entries(c, top, i);
            lemma_with_count_entries(c, top, j);
        }
    } else {
        let hi = from_top(c, top, (low + 1) as u64);
        let here = with_count(c, low);
        lemma_from_top_ordered(c, top, (low + 1) as u64);
        assert forall|i: int| 0 <= i < r.len() implies low <= (#[trigger] r[i]).4 <= top by {
            if i < hi.len() {
                assert(r[i] == hi[i]);
            } else {
                lemma_with_count_entries(c, low, i - hi.len());
            }
        }
        assert forall|i: int, j: int| 0 <= i <= j < r.len() implies (#[trigger] r[i]).4 >= (#[trigger] r[j]).4 by {
            if j < hi.len() {
                assert(r[i] == hi[i] && r[j] == hi[j]);
            } else if i < hi.len() {
                assert(r[i] == hi[i]);
                lemma_with_count_entries(c, low, j - hi.len());
            } else {
                lemma_with_count_entries(c, low, i - hi.len());
                lemma_with_count_entries(c, low, j - hi.len());
            }
        }
    }
}

/// The number of rows whose object is `o`.
fn count_rows(rows: &Vec<(usize, usize)>, o: usize) -> (r: u64)
    ensures
        r as nat == count_objects(rows@, o),
{
    let mut n: u64 = 0;
    let mut i: usize = 0;
    while i < rows.len()
        invariant
            i <= rows@.len(),
            n as nat == count_objects(rows@.subrange(0, i as int), o),
            n <= i,
        decreases rows@.len() - i,
    {
        assert(rows@.subrange(0, i + 1).drop_last() =~= rows@.subrange(0, i as int));
        if rows[i].1 == o {
            n = n + 1;
        }
        i = i + 1;
    }
    assert(rows@.subrange(0, rows@.len() as int) =~= rows@);
    n
}

/// The number of memberships of collection `c`.
fn count_collection(rows: &Vec<Membership>, c: usize) -> (r: u64)
    ensures
        r as nat == count_members(rows@, c),
{
    let mut n: u64 = 0;
    let mut i: usize = 0;
    while i < rows.len()
        invariant
            i <= rows@.len(),
            n as nat == count_members(rows@.subrange(0, i as int), c),
            n <= i,
        decreases rows@.len() - i,
    {
        assert(rows@.subrange(0, i + 1).drop_last() =~= rows@.subrange(0, i as int));
        if rows[i].collection == c {
            n = n + 1;
        }
        i = i + 1;
    }
    assert(rows@.subrange(0, rows@.len() as int) =~= rows@);
    n
}

fn clone_completion(c: &Completion) -> (r: Completion)
    ensures
        completion_view(r) == completion_view(*c),
{
    let group = match &c.group {
        Some(g) => Some(g.clone()),
        None => None,
    };
    Completion { id: c.id, text: c.text.clone(), kind: c.kind, group, count: c.count }
}

/// The largest use count among `v`, zero where it is empty.
fn max_of_counts(v: &Vec<Completion>) -> (r: u64)
    ensures
        r == max_count(completion_views(v@)),
{
    let mut m: u64 = 0;
    let mut i: usize = 0;
    while i < v.len()
        invariant
            i <= v@.len(),
            m == max_count(completion_views(v@.subrange(0, i as int))),
        decreases v@.len() - i,
    {
        assert(completion_views(v@.subrange(0, i + 1)).drop_last() =~= completion_views(v@.subrange(0, i as int)));
        assert(completion_views(v@.subrange(0, i + 1)).last() == completion_view(v@[i as int]));
        if v[i].count > m {
            m = v[i].count;
        }
        i = i + 1;
    }
    assert(v@.subrange(0, v@.len() as int) =~= v@);
    m
}

/// Appends copies of the entries of `v` used exactly `k` times, in order.
fn take_with_count(v: &Vec<Completion>, k: u64, out: &mut Vec<Completion>)
    ensures
        completion_views(final(out)@) == completion_views(old(out)@) + with_count(completion_views(v@), k),
{
    let ghost start = completion_views(out@);
    let mut i: usize = 0;
    while i < v.len()
        invariant
            i <= v@.len(),
            completion_views(out@) == start + with_count(completion_views(v@.subrange(0, i as int)), k),
        decreases v@.len() - i,
    {
        assert(completion_views(v@.subrange(0, i + 1)).drop_last() =~= completion_views(v@.subrange(0, i as int)));
        assert(completion_views(v@.subrange(0, i + 1)).last() == completion_view(v@[i as int]));
        if v[i].count == k {
            let c = clone_completion(&v[i]);
            let ghost before = out@;
            out.push(c);
            assert(completion_views(out@) =~= completion_views(before).push(completion_view(c)));
        }
        i = i + 1;
    }
    assert(v@.subrange(0, v@.len() as int) =~= v@);
}

fn copy_group(g: &String) -> (r: Option<String>)
    ensures
        r is Some && r->0@ == g@,
{
    Some(g.clone())
}

impl Catalog {
    /// Appends the creators whose display name begins with `p`.
    fn creator_completions(&self, p: &Vec<char>, out: &mut Vec<Completion>)
        ensures
            completion_views(final(out)@) == completion_views(old(out)@) + creator_candidates(self, p@, self.creators@.len()),
    {
        let ghost start = completion_views(out@);
        let mut i: usize = 0;
        while i < self.creators.len()
            invariant
                i <= self.creators@.len(),
                completion_views(out@) == start + creator_candidates(self, p@, i as nat),
            decreases self.creators@.len() - i,
        {
            if starts_with(&self.creators[i], p) {
                let count = count_rows(&self.media_creators, i);
                let ghost before = out@;
                out.push(Completion { id: i, text: self.creators[i].clone(), kind: TagType::Artist, group: None, count });
                assert(completion_views(out@) =~= completion_views(before).push(completion_view(out@.last())));
            }
            i = i + 1;
        }
    }

    /// Appends the collections whose name begins with `p`.
    fn collection_completions(&self, p: &Vec<char>, out: &mut Vec<Completion>)
        ensures
            completion_views(final(out)@) == completion_views(old(out)@) + collection_candidates(self, p@, self.collections.nodes@.len()),
    {
        let ghost start = completion_views(out@);
        let mut i: usize = 0;
        while i < self.collections.nodes.len()
            invariant
                i <= self.collections.nodes@.len(),
                completion_views(out@) == start + collection_candidates(self, p@, i as nat),
            decreases self.collections.nodes@.len() - i,
        {
            if starts_with(&self.collections.nodes[i].name, p) {
                let count = count_collection(&self.memberships, i);
                let ghost before = out@;
                out.push(Completion {
                    id: i,
                    text: self.collections.nodes[i].name.clone(),
                    kind: TagType::Collection,
                    group: None,
                    count,
                });
                assert(completion_views(out@) =~= completion_views(before).push(completion_view(out@.last())));
            }
            i = i + 1;
        }
    }

    /// Appends the tags whose text begins with `p`, with a leading `-` where `neg` holds.
    fn tag_completions(&self, p: &Vec<char>, neg: bool, out: &mut Vec<Completion>)
        requires
            self.wf(),
        ensures
            completion_views(final(out)@) == completion_views(old(out)@) + tag_candidates(self, p@, neg, self.tags@.len()),
    {
        let ghost start = completion_views(out@);
        let mut i: usize = 0;
        while i < self.tags.len()
            invariant
                self.wf(),
                i <= self.tags@.len(),
                completion_views(out@) == start + tag_candidates(self, p@, neg, i as nat),
            decreases self.tags@.len() - i,
        {
            let t = &self.tags[i];
            if starts_with(&t.tag, p) {
                let count = count_rows(&self.media_tags, i);
                let text = if neg {
                    let mut cs: Vec<char> = Vec::new();
                    cs.push('-');
                    let body = chars_of(t.tag.as_str());
                    let mut j: usize = 0;
                    while j < body.len()
                        invariant
                            j <= body@.len(),
                            cs@ == seq!['-'] + body@.subrange(0, j as int),
                        decreases body@.len() - j,
                    {
                        cs.push(body[j]);
                        j = j + 1;
                        assert(cs@ =~= seq!['-'] + body@.subrange(0, j as int));
                    }
                    assert(body@.subrange(0, body@.len() as int) =~= body@);
                    string_of(&cs, 0)
                } else {
                    t.tag.clone()
                };
                let group = copy_group(&self.tag_groups[t.group]);
                let ghost before = out@;
                out.push(Completion { id: i, text, kind: TagType::Tag, group, count });
                assert(completion_views(out@) =~= completion_views(before).push(completion_view(out@.last())));
            }
            i = i + 1;
        }
    }

    /// Completes `text` (the part after its first `:`, where it has one) to the
    /// names of the kinds `kind` asks for that begin with it: creators by display
    /// name, collections by name, tags by text. For tags a leading `-` is kept
    /// out of the match and put back on the result. The most used come first,
    /// and at equal use creators, then collections, then tags, each by id.
    pub fn completions(&self, text: &String, kind: TagType) -> (r: Vec<Completion>)
        requires
            self.wf(),
        ensures
            completion_views(r@) == from_top(candidates(self, kind, text@), max_count(candidates(self, kind, text@)), 0),
    {
        let p = text_after_colon(text);
        let neg = p.len() > 0 && p[0] == '-';
        let tp = if neg {
            let mut v: Vec<char> = Vec::new();
            let mut j: usize = 1;
            while j < p.len()
                invariant
                    1 <= j <= p@.len(),
                    v@ == p@.subrange(1, j as int),
                decreases p@.len() - j,
            {
                v.push(p[j]);
                j = j + 1;
                assert(v@ =~= p@.subrange(1, j as int));
            }
            assert(v@ =~= p@.drop_first());
            v
        } else {
            p.clone()
        };
        let mut all: Vec<Completion> = Vec::new();
        proof {
            assert(completion_views(all@) =~= Seq::<CompletionView>::empty());
        }
        let all_kinds = match kind { TagType::All => true, _ => false };
        if all_kinds || match kind { TagType::Artist => true, _ => false } {
            self.creator_completions(&p, &mut all);
        }
        if all_kinds || match kind { TagType::Collection => true, _ => false } {
            self.collection_completions(&p, &mut all);
        }
        if all_kinds || match kind { TagType::Tag => true, _ => false } {
            self.tag_completions(&tp, neg, &mut all);
        }
        proof {
            assert(completion_views(all@) =~= candidates(self, kind, text@));
        }
        let ghost cands = completion_views(all@);
        let top = max_of_counts(&all);
        let mut out: Vec<Completion> = Vec::new();
        let mut d: u64 = top;
        loop
            invariant_except_break
                completion_views(out@) == if d == top { Seq::empty() } else { from_top(cands, top, (d + 1) as u64) },
            invariant
                d <= top,
                completion_views(all@) == cands,
                top == max_count(cands),
            ensures
                completion_views(out@) == from_top(cands, top, 0),
            decreases d,
        {
            take_with_count(&all, d, &mut out);
            if d == 0 {
                break;
            }
            d = d - 1;
        }
        out
    }
}

} // verus!
