//! Collections as a tree of named nodes addressed by `/`-joined paths.
//!
//! A node's id is its index in the tree, and a parent always comes before its
//! children, so that walking up from any node ends and no cycle can form.

use vstd::prelude::*;
use crate::error::AppError;
use crate::text::{join_text, join_with, lemma_split_join, lemma_split_no_sep, split_on, split_text, views_of};

verus! {

/// One collection: its name, its parent (none for a root) and a description.
#[derive(Debug)]
pub struct CollectionNode {
    pub name: String,
    pub parent: Option<usize>,
    pub description: Option<String>,
}

/// A collection found by its path, with the ids of its direct children.
#[derive(Debug)]
pub struct CollectionSummary {
    pub id: usize,
    pub name: String,
    pub description: Option<String>,
    pub parent: Option<usize>,
    pub children: Vec<usize>,
}

/// All collections; a collection's id is its index.
#[derive(Debug)]
pub struct CollectionTree {
    pub nodes: Vec<CollectionNode>,
}

/// The path separator.
pub open spec fn sep() -> char {
    '/'
}

/// What creating the path `segs` added to `before`, giving `after`: the nodes
/// added are the last prefixes of `segs` in order (the new node `n` has the
/// path of the first `segs.len() - (after.nodes.len() - 1 - n)` names), every
/// shorter prefix was there before, and only the last new node has the
/// description.
pub open spec fn added_tail(before: &CollectionTree, after: &CollectionTree, segs: Seq<Seq<char>>, description: Option<String>) -> bool {
    let added = after.nodes@.len() - before.nodes@.len();
    &&& 1 <= added <= segs.len()
    &&& forall|q: int| 1 <= q <= segs.len() - added ==> #[trigger] before.has_path(segs.subrange(0, q))
    &&& forall|n: int| before.nodes@.len() <= n < after.nodes@.len() ==> #[trigger] after.path_of(n as nat)
        == segs.subrange(0, segs.len() - (after.nodes@.len() - 1 - n))
    &&& forall|n: int| before.nodes@.len() <= n < after.nodes@.len() ==> (#[trigger] after.nodes@[n]).description
        == if n == after.nodes@.len() - 1 { description } else { None }
}

impl CollectionTree {
    pub open spec fn name_of(&self, id: int) -> Seq<char> {
        self.nodes@[id].name@
    }

    pub open spec fn parent_of(&self, id: int) -> Option<usize> {
        self.nodes@[id].parent
    }

    /// Parents come first, names hold no separator, and siblings have distinct names.
    pub open spec fn wf(&self) -> bool {
        &&& self.nodes@.len() < usize::MAX
        &&& forall|i: int|
            0 <= i < self.nodes@.len() && (#[trigger] self.parent_of(i)) is Some ==> (
            self.parent_of(i)->0 as int) < i
        &&& forall|i: int| 0 <= i < self.nodes@.len() ==> !(#[trigger] self.name_of(i)).contains(sep())
        &&& forall|i: int, j: int|
            0 <= i < self.nodes@.len() && 0 <= j < self.nodes@.len() && i != j && #[trigger] self.parent_of(i)
                == #[trigger] self.parent_of(j) ==> self.name_of(i) != self.name_of(j)
    }

    /// The names from the root down to the collection `id`.
    pub open spec fn path_of(&self, id: nat) -> Seq<Seq<char>>
        decreases id,
    {
        if id < self.nodes@.len() {
            match self.parent_of(id as int) {
                Some(p) => if (p as nat) < id {
                    self.path_of(p as nat).push(self.name_of(id as int))
                } else {
                    seq![self.name_of(id as int)]
                },
                None => seq![self.name_of(id as int)],
            }
        } else {
            Seq::empty()
        }
    }

    /// Whether some collection has exactly these names as its path.
    pub open spec fn has_path(&self, segs: Seq<Seq<char>>) -> bool {
        exists|id: nat| id < self.nodes@.len() && #[trigger] self.path_of(id) == segs
    }

    /// An empty tree.
    pub fn new() -> (r: Self)
        ensures
            r.wf(),
            r.nodes@.len() == 0,
    {
        CollectionTree { nodes: Vec::new() }
    }

    pub proof fn lemma_path_len(&self, id: nat)
        requires
            id < self.nodes@.len(),
        ensures
            self.path_of(id).len() >= 1,
            self.path_of(id).last() == self.name_of(id as int),
            self.parent_of(id as int) is None ==> self.path_of(id).len() == 1,
        decreases id,
    {
        match self.parent_of(id as int) {
            Some(p) => if (p as nat) < id {
                self.lemma_path_len(p as nat);
            },
            None => {},
        }
    }

    /// Paths tell collections apart.
    pub proof fn lemma_path_injective(&self, a: nat, b: nat)
        requires
            self.wf(),
            a < self.nodes@.len(),
            b < self.nodes@.len(),
            self.path_of(a) == self.path_of(b),
        ensures
            a == b,
        decreases a + b,
    {
        self.lemma_path_len(a);
        self.lemma_path_len(b);
        let pa = self.parent_of(a as int);
        let pb = self.parent_of(b as int);
        assert(pa is Some ==> (pa->0 as int) < a);
        assert(pb is Some ==> (pb->0 as int) < b);
        match (pa, pb) {
            (Some(x), Some(y)) => {
                self.lemma_path_len(x as nat);
                self.lemma_path_len(y as nat);
                assert(self.path_of(x as nat) =~= self.path_of(a).drop_last());
                assert(self.path_of(y as nat) =~= self.path_of(b).drop_last());
                self.lemma_path_injective(x as nat, y as nat);
            },
            (Some(x), None) => {
                self.lemma_path_len(x as nat);
            },
            (None, Some(y)) => {
                self.lemma_path_len(y as nat);
            },
            (None, None) => {},
        }
        if a != b {
            assert(self.parent_of(a as int) == self.parent_of(b as int));
            assert(self.name_of(a as int) != self.name_of(b as int));
        }
    }

    /// Appending nodes leaves the paths of the nodes already there as they were.
    pub proof fn lemma_path_stable(&self, other: &Self, id: nat)
        requires
            id < self.nodes@.len(),
            self.nodes@.len() <= other.nodes@.len(),
            forall|i: int| 0 <= i < self.nodes@.len() ==> #[trigger] other.nodes@[i] == self.nodes@[i],
        ensures
            other.path_of(id) == self.path_of(id),
        decreases id,
    {
        assert(other.nodes@[id as int] == self.nodes@[id as int]);
        match self.parent_of(id as int) {
            Some(p) => if (p as nat) < id {
                self.lemma_path_stable(other, p as nat);
            },
            None => {},
        }
    }

    /// The names from the root down to the collection `id`.
    pub fn materialize_segments(&self, id: usize) -> (r: Vec<String>)
        requires
            self.wf(),
            id < self.nodes@.len(),
        ensures
            views_of(r@) == self.path_of(id as nat),
    {
        let mut acc: Vec<String> = Vec::new();
        let mut cur: usize = id;
        loop
            invariant_except_break
                self.path_of(id as nat) == self.path_of(cur as nat) + views_of(acc@),
            invariant
                self.wf(),
                cur < self.nodes@.len(),
            ensures
                views_of(acc@) == self.path_of(id as nat),
            decreases cur,
        {
            let node = &self.nodes[cur];
            let ghost before = acc@;
            acc.insert(0, node.name.clone());
            assert(acc@ =~= seq![self.nodes@[cur as int].name] + before);
            assert(views_of(acc@) =~= seq![self.name_of(cur as int)] + views_of(before));
            assert(self.parent_of(cur as int) == node.parent);
            match node.parent {
                Some(p) => {
                    assert((p as int) < cur);
                    assert(self.path_of(cur as nat) == self.path_of(p as nat).push(self.name_of(cur as int)));
                    assert(self.path_of(p as nat) + views_of(acc@) =~= self.path_of(cur as nat) + views_of(before));
                    cur = p;
                },
                None => {
                    assert(self.path_of(cur as nat) == seq![self.name_of(cur as int)]);
                    assert(self.path_of(id as nat) =~= views_of(acc@));
                    break;
                },
            }
        }
        acc
    }

    /// The `/`-joined path of the collection `id`.
    pub fn materialize(&self, id: usize) -> (r: String)
        requires
            self.wf(),
            id < self.nodes@.len(),
        ensures
            r@ == join_with(self.path_of(id as nat), sep()),
    {
        let segs = self.materialize_segments(id);
        join_text(&segs, '/')
    }

    /// The collection whose path is exactly these names, if there is one.
    pub fn resolve_segments(&self, segs: &Vec<String>) -> (r: Option<usize>)
        requires
            self.wf(),
        ensures
            match r {
                Some(id) => id < self.nodes@.len() && self.path_of(id as nat) == views_of(segs@),
                None => !self.has_path(views_of(segs@)),
            },
    {
        let mut i: usize = 0;
        while i < self.nodes.len()
            invariant
                self.wf(),
                i <= self.nodes@.len(),
                forall|j: nat| j < i ==> #[trigger] self.path_of(j) != views_of(segs@),
            decreases self.nodes@.len() - i,
        {
            let p = self.materialize_segments(i);
            if same_pieces(&p, segs) {
                return Some(i);
            }
            i = i + 1;
        }
        None
    }

    /// The collection at a `/`-joined path; only an exact match of the whole path counts.
    pub fn resolve(&self, path: &str) -> (r: Option<usize>)
        requires
            self.wf(),
        ensures
            match r {
                Some(id) => id < self.nodes@.len() && self.path_of(id as nat) == split_on(path@, sep()),
                None => !self.has_path(split_on(path@, sep())),
            },
    {
        let segs = split_text(path, '/');
        self.resolve_segments(&segs)
    }

    /// The child of `parent` (a root where `None`) with this name, if any.
    pub fn find_child(&self, parent: Option<usize>, name: &String) -> (r: Option<usize>)
        requires
            self.wf(),
        ensures
            match r {
                Some(c) => c < self.nodes@.len() && self.parent_of(c as int) == parent && self.name_of(c as int) == name@,
                None => forall|c: int|
                    0 <= c < self.nodes@.len() ==> !(#[trigger] self.parent_of(c) == parent && self.name_of(c) == name@),
            },
    {
        let mut i: usize = 0;
        while i < self.nodes.len()
            invariant
                i <= self.nodes@.len(),
                forall|c: int| 0 <= c < i ==> !(#[trigger] self.parent_of(c) == parent && self.name_of(c) == name@),
            decreases self.nodes@.len() - i,
        {
            let node = &self.nodes[i];
            let same_parent = match (node.parent, parent) {
                (Some(a), Some(b)) => a == b,
                (None, None) => true,
                _ => false,
            };
            if same_parent && node.name == *name {
                return Some(i);
            }
            i = i + 1;
        }
        None
    }

    /// Creates the collection at a `/`-joined path, with any missing ancestors.
    /// A path that already names a collection is refused. The nodes added are
    /// exactly the missing tail of the path, in order, each the parent of the
    /// next; the last gets the description and is returned.
    pub fn create_path(&mut self, path: &str, description: Option<String>) -> (r: Result<usize, AppError>)
        requires
            old(self).wf(),
            old(self).nodes@.len() + split_on(path@, sep()).len() < usize::MAX,
        ensures
            final(self).wf(),
            old(self).has_path(split_on(path@, sep())) <==> r is Err,
            r is Err ==> *final(self) == *old(self) && r->Err_0 is BadRequest,
            final(self).nodes@.len() >= old(self).nodes@.len(),
            forall|i: int| 0 <= i < old(self).nodes@.len() ==> #[trigger] final(self).nodes@[i] == old(self).nodes@[i],
            r is Ok ==> r->Ok_0 < final(self).nodes@.len() && final(self).path_of(r->Ok_0 as nat) == split_on(path@, sep()),
            r is Ok ==> added_tail(old(self), final(self), split_on(path@, sep()), description) && r->Ok_0 == final(self).nodes@.len() - 1,
    {
        let segs = split_text(path, '/');
        proof {
            lemma_split_no_sep(path@, sep());
            crate::text::lemma_split_nonempty(path@, sep());
        }
        if self.resolve_segments(&segs).is_some() {
            return Err(AppError::BadRequest(crate::text::joined_message("collection already exists: ", path)));
        }
        assert forall|k: int| 0 <= k < segs@.len() implies !(#[trigger] segs@[k]@).contains(sep()) by {
            assert(views_of(segs@)[k] == segs@[k]@);
        }
        let ghost start = *self;
        let ghost sv = views_of(segs@);
        let mut parent: Option<usize> = None;
        let mut j: usize = 0;
        while j < segs.len()
            invariant
                self.wf(),
                1 <= segs@.len(),
                sv == views_of(segs@),
                sv == split_on(path@, sep()),
                !start.has_path(sv),
                forall|k: int| 0 <= k < segs@.len() ==> !(#[trigger] segs@[k]@).contains(sep()),
                j <= segs@.len(),
                self.nodes@.len() <= start.nodes@.len() + j,
                start.nodes@.len() + segs@.len() < usize::MAX,
                start.nodes@.len() <= self.nodes@.len(),
                forall|i: int| 0 <= i < start.nodes@.len() ==> #[trigger] self.nodes@[i] == start.nodes@[i],
                j == 0 ==> parent is None,
                j > 0 ==> parent is Some && parent->0 < self.nodes@.len()
                    && self.path_of(parent->0 as nat) == sv.subrange(0, j as int),
                self.nodes@.len() > start.nodes@.len() ==> parent == Some((self.nodes@.len() - 1) as usize),
                forall|q: int| 1 <= q <= j - (self.nodes@.len() - start.nodes@.len()) ==> #[trigger] start.has_path(sv.subrange(0, q)),
                forall|n: int| start.nodes@.len() <= n < self.nodes@.len() ==> #[trigger] self.path_of(n as nat)
                    == sv.subrange(0, j - (self.nodes@.len() - 1 - n)),
                forall|n: int| start.nodes@.len() <= n < self.nodes@.len() ==> (#[trigger] self.nodes@[n]).description
                    == if j - (self.nodes@.len() - 1 - n) == segs@.len() { description } else { None },
            decreases segs@.len() - j,
        {
            assert(sv[j as int] == segs@[j as int]@);
            assert(!segs@[j as int]@.contains(sep()));
            let found = self.find_child(parent, &segs[j]);
            let ghost prev = *self;
            match found {
                Some(c) => {
                    proof {
                        if self.nodes@.len() > start.nodes@.len() {
                            let last = self.nodes@.len() - 1;
                            assert(self.parent_of(c as int) == Some(last as usize));
                            assert((last as int) < c);
                        }
                        self.lemma_path_len(c as nat);
                        if j > 0 {
                            assert(self.path_of(c as nat) == self.path_of(parent->0 as nat).push(segs@[j as int]@));
                        }
                        assert(self.path_of(c as nat) =~= sv.subrange(0, j as int + 1));
                        assert(c < start.nodes@.len());
                        start.lemma_path_stable(self, c as nat);
                        assert(start.has_path(sv.subrange(0, j as int + 1)));
                    }
                    parent = Some(c);
                },
                None => {
                    let desc = if j + 1 == segs.len() {
                        match &description {
                            Some(d) => Some(d.clone()),
                            None => None,
                        }
                    } else {
                        None
                    };
                    let id = self.nodes.len();
                    self.nodes.push(CollectionNode { name: segs[j].clone(), parent, description: desc });
                    proof {
                        assert forall|i: int| 0 <= i < prev.nodes@.len() implies #[trigger] self.nodes@[i] == prev.nodes@[i] by {}
                        assert(self.parent_of(id as int) == parent);
                        assert(self.name_of(id as int) == segs@[j as int]@);
                        assert forall|a: int, b: int|
                            0 <= a < self.nodes@.len() && 0 <= b < self.nodes@.len() && a != b
                                && #[trigger] self.parent_of(a) == #[trigger] self.parent_of(b)
                            implies self.name_of(a) != self.name_of(b) by {
                            if a == id as int {
                                assert(!(prev.parent_of(b) == parent && prev.name_of(b) == segs@[j as int]@));
                            } else if b == id as int {
                                assert(!(prev.parent_of(a) == parent && prev.name_of(a) == segs@[j as int]@));
                            } else {
                                assert(prev.parent_of(a) == prev.parent_of(b));
                            }
                        }
                        assert forall|i: int| 0 <= i < self.nodes@.len() implies !(#[trigger] self.name_of(i)).contains(sep()) by {
                            if i < prev.nodes@.len() {
                                assert(prev.name_of(i) == self.name_of(i));
                            }
                        }
                        assert forall|i: int|
                            0 <= i < self.nodes@.len() && (#[trigger] self.parent_of(i)) is Some implies (
                            self.parent_of(i)->0 as int) < i by {
                            if i < prev.nodes@.len() {
                                assert(prev.parent_of(i) == self.parent_of(i));
                            }
                        }
                        assert(self.wf());
                        if j > 0 {
                            prev.lemma_path_stable(self, parent->0 as nat);
                            assert(self.path_of(id as nat) == self.path_of(parent->0 as nat).push(segs@[j as int]@));
                        } else {
                            assert(self.path_of(id as nat) == seq![segs@[j as int]@]);
                        }
                        assert(self.path_of(id as nat) =~= sv.subrange(0, j as int + 1));
                        assert forall|n: int| start.nodes@.len() <= n < self.nodes@.len() implies #[trigger] self.path_of(n as nat)
                            == sv.subrange(0, j + 1 - (self.nodes@.len() - 1 - n)) by {
                            if n < id as int {
                                prev.lemma_path_stable(self, n as nat);
                            }
                        }
                        assert forall|n: int| start.nodes@.len() <= n < self.nodes@.len() implies (#[trigger] self.nodes@[n]).description
                            == if j + 1 - (self.nodes@.len() - 1 - n) == segs@.len() { description } else { None } by {
                            if n < id as int {
                                assert(self.nodes@[n] == prev.nodes@[n]);
                            }
                        }
                    }
                    parent = Some(id);
                },
            }
            j = j + 1;
        }
        proof {
            if self.nodes@.len() == start.nodes@.len() {
                assert(self.path_of(parent->0 as nat) =~= sv);
                start.lemma_path_stable(self, parent->0 as nat);
                assert(start.has_path(sv));
            }
            assert(sv.subrange(0, segs@.len() as int) =~= sv);
            assert(added_tail(&start, self, sv, description));
        }
        Ok(parent.unwrap())
    }

    /// Gives collection `id` the name `name` and, where one is given, the
    /// description `description`. A name that a sibling has is refused, and then
    /// nothing changes.
    pub fn rename(&mut self, id: usize, name: String, description: Option<String>) -> (r: Result<(), AppError>)
        requires
            old(self).wf(),
            id < old(self).nodes@.len(),
            !name@.contains(sep()),
        ensures
            final(self).wf(),
            r is Err <==> exists|j: int| 0 <= j < old(self).nodes@.len() && j != id && old(self).parent_of(j) == old(self).parent_of(id as int)
                && #[trigger] old(self).name_of(j) == name@,
            r is Err ==> *final(self) == *old(self) && r->Err_0 is Exists,
            r is Ok ==> final(self).nodes@.len() == old(self).nodes@.len()
                && final(self).name_of(id as int) == name@
                && final(self).parent_of(id as int) == old(self).parent_of(id as int)
                && final(self).nodes@[id as int].description == (match description {
                    Some(d) => Some(d),
                    None => old(self).nodes@[id as int].description,
                })
                && forall|j: int| 0 <= j < old(self).nodes@.len() && j != id ==> #[trigger] final(self).nodes@[j] == old(self).nodes@[j],
    {
        let parent = self.nodes[id].parent;
        let mut i: usize = 0;
        while i < self.nodes.len()
            invariant
                self.wf(),
                *self == *old(self),
                id < self.nodes@.len(),
                parent == self.parent_of(id as int),
                i <= self.nodes@.len(),
                forall|j: int| 0 <= j < i && j != id ==> !(self.parent_of(j) == parent && #[trigger] self.name_of(j) == name@),
            decreases self.nodes@.len() - i,
        {
            let same_parent = match (self.nodes[i].parent, parent) {
                (Some(a), Some(b)) => a == b,
                (None, None) => true,
                _ => false,
            };
            if i != id && same_parent && self.nodes[i].name == name {
                assert(self.name_of(i as int) == name@);
                return Err(AppError::Exists(String::from_str("a sibling has this name")));
            }
            i = i + 1;
        }
        let ghost before = *self;
        let mut node = self.nodes.remove(id);
        node.name = name;
        match description {
            Some(d) => {
                node.description = Some(d);
            },
            None => {},
        }
        self.nodes.insert(id, node);
        proof {
            assert forall|j: int| 0 <= j < before.nodes@.len() && j != id implies #[trigger] self.nodes@[j] == before.nodes@[j] by {
                if j < id {
                    assert(self.nodes@[j] == before.nodes@.remove(id as int)[j]);
                } else {
                    assert(self.nodes@[j] == before.nodes@.remove(id as int)[j - 1]);
                }
            }
            assert forall|a: int, b: int|
                0 <= a < self.nodes@.len() && 0 <= b < self.nodes@.len() && a != b && #[trigger] self.parent_of(a)
                    == #[trigger] self.parent_of(b) implies self.name_of(a) != self.name_of(b) by {
                if a != id && b != id {
                    assert(before.parent_of(a) == before.parent_of(b));
                }
            }
            assert forall|j: int| 0 <= j < self.nodes@.len() && (#[trigger] self.parent_of(j)) is Some implies (
                self.parent_of(j)->0 as int) < j by {
                assert(before.parent_of(j) == self.parent_of(j));
            }
            assert forall|j: int| 0 <= j < self.nodes@.len() implies !(#[trigger] self.name_of(j)).contains(sep()) by {
                if j != id {
                    assert(before.name_of(j) == self.name_of(j));
                }
            }
        }
        Ok(())
    }

    /// The collection at a path, with its direct children.
    pub fn summary(&self, id: usize) -> (r: CollectionSummary)
        requires
            self.wf(),
            id < self.nodes@.len(),
        ensures
            r.id == id,
            r.name@ == self.name_of(id as int),
            r.parent == self.parent_of(id as int),
            r.description == self.nodes@[id as int].description,
            forall|c: usize| r.children@.contains(c) <==> c < self.nodes@.len() && self.parent_of(c as int) == Some(id),
            forall|a: int, b: int| 0 <= a < b < r.children@.len() ==> r.children@[a] < r.children@[b],
    {
        let node = &self.nodes[id];
        let mut children: Vec<usize> = Vec::new();
        let mut i: usize = 0;
        while i < self.nodes.len()
            invariant
                i <= self.nodes@.len(),
                self.nodes@.len() < usize::MAX,
                forall|c: usize| children@.contains(c) <==> c < i && self.parent_of(c as int) == Some(id),
                forall|a: int, b: int| 0 <= a < b < children@.len() ==> children@[a] < children@[b],
                forall|a: int| 0 <= a < children@.len() ==> children@[a] < i,
            decreases self.nodes@.len() - i,
        {
            let is_child = match self.nodes[i].parent {
                Some(p) => p == id,
                None => false,
            };
            assert(is_child == (self.parent_of(i as int) == Some(id)));
            let ghost before = children@;
            if is_child {
                children.push(i);
            }
            proof {
                assert forall|c: usize| children@.contains(c) <==> c < i + 1 && self.parent_of(c as int) == Some(id) by {
                    if is_child {
                        if c == i {
                            assert(children@[children@.len() - 1] == c);
                        }
                        if children@.contains(c) {
                            let k = choose|k: int| 0 <= k < children@.len() && children@[k] == c;
                            if k < before.len() {
                                assert(before[k] == c);
                                assert(before.contains(c));
                            }
                        }
                        if before.contains(c) {
                            let k = choose|k: int| 0 <= k < before.len() && before[k] == c;
                            assert(children@[k] == c);
                        }
                    } else {
                        assert(children@ == before);
                    }
                }
            }
            i = i + 1;
        }
        let description = match &node.description {
            Some(d) => Some(d.clone()),
            None => None,
        };
        CollectionSummary { id, name: node.name.clone(), description, parent: node.parent, children }
    }
}

/// Whether two lists of strings hold the same texts in the same order.
pub fn same_pieces(a: &Vec<String>, b: &Vec<String>) -> (r: bool)
    ensures
        r == (views_of(a@) == views_of(b@)),
{
    if a.len() != b.len() {
        assert(views_of(a@).len() != views_of(b@).len());
        return false;
    }
    let mut i: usize = 0;
    while i < a.len()
        invariant
            i <= a@.len(),
            a@.len() == b@.len(),
            forall|k: int| 0 <= k < i ==> a@[k]@ == b@[k]@,
        decreases a@.len() - i,
    {
        if a[i] != b[i] {
            assert(views_of(a@)[i as int] != views_of(b@)[i as int]);
            return false;
        }
        i = i + 1;
    }
    assert(views_of(a@) =~= views_of(b@));
    true
}

/// The id of the collection at a `/`-joined path.
pub fn collection_id_by_path(tree: &CollectionTree, path: String) -> (r: Option<usize>)
    requires
        tree.wf(),
    ensures
        match r {
            Some(id) => id < tree.nodes@.len() && tree.path_of(id as nat) == split_on(path@, sep()),
            None => !tree.has_path(split_on(path@, sep())),
        },
{
    tree.resolve(path.as_str())
}

/// The collection at a `/`-joined path, with its children.
pub fn collection_by_path(tree: &CollectionTree, path: String) -> (r: Option<CollectionSummary>)
    requires
        tree.wf(),
    ensures
        match r {
            Some(s) => s.id < tree.nodes@.len() && tree.path_of(s.id as nat) == split_on(path@, sep())
                && s.name@ == tree.name_of(s.id as int)
                && forall|c: usize| s.children@.contains(c) <==> c < tree.nodes@.len() && tree.parent_of(c as int) == Some(s.id),
            None => !tree.has_path(split_on(path@, sep())),
        },
{
    match tree.resolve(path.as_str()) {
        Some(id) => Some(tree.summary(id)),
        None => None,
    }
}

/// The path of a collection, joined and split again, is its path; so resolving
/// it finds a collection, and that collection is the one it came from.
pub proof fn lemma_path_round_trip(tree: &CollectionTree, id: nat)
    requires
        tree.wf(),
        id < tree.nodes@.len(),
    ensures
        split_on(join_with(tree.path_of(id), sep()), sep()) == tree.path_of(id),
        tree.has_path(split_on(join_with(tree.path_of(id), sep()), sep())),
        forall|found: nat| found < tree.nodes@.len() && #[trigger] tree.path_of(found) == split_on(join_with(tree.path_of(id), sep()), sep())
            ==> found == id,
{
    tree.lemma_path_len(id);
    lemma_path_pieces(tree, id);
    lemma_split_join(tree.path_of(id), sep());
    assert forall|found: nat| found < tree.nodes@.len() && #[trigger] tree.path_of(found) == split_on(join_with(tree.path_of(id), sep()), sep())
        implies found == id by {
        tree.lemma_path_injective(found, id);
    }
}

/// A collection whose path is the split of `path` materializes back to `path`.
pub proof fn lemma_materialize_path(tree: &CollectionTree, id: nat, path: Seq<char>)
    requires
        tree.path_of(id) == split_on(path, sep()),
    ensures
        join_with(tree.path_of(id), sep()) == path,
{
    crate::text::lemma_join_split(path, sep());
}

/// No name along a path holds the separator.
proof fn lemma_path_pieces(tree: &CollectionTree, id: nat)
    requires
        tree.wf(),
        id < tree.nodes@.len(),
    ensures
        forall|i: int| 0 <= i < tree.path_of(id).len() ==> !(#[trigger] tree.path_of(id)[i]).contains(sep()),
    decreases id,
{
    match tree.parent_of(id as int) {
        Some(p) => {
            lemma_path_pieces(tree, p as nat);
            let pp = tree.path_of(p as nat);
            assert forall|i: int| 0 <= i < tree.path_of(id).len() implies !(#[trigger] tree.path_of(id)[i]).contains(sep()) by {
                if i < pp.len() {
                    assert(tree.path_of(id)[i] == pp[i]);
                }
            }
        },
        None => {},
    }
}

} // verus!
