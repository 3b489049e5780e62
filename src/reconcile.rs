//! Reconciling a many-to-many relation with a desired set: the minimal rows to
//! insert and delete so that a subject's related ids become exactly that set.

use vstd::prelude::*;

verus! {

/// The ids to insert and to delete.
#[derive(Debug)]
pub struct Diff {
    pub to_add: Vec<usize>,
    pub to_remove: Vec<usize>,
}

/// A prefix one longer holds what the shorter one holds and the next element.
pub proof fn lemma_prefix_step<T>(s: Seq<T>, i: int, y: T)
    requires
        0 <= i < s.len(),
    ensures
        s.subrange(0, i + 1).contains(y) <==> s.subrange(0, i).contains(y) || s[i] == y,
{
    let pre = s.subrange(0, i);
    let post = s.subrange(0, i + 1);
    assert(post =~= pre.push(s[i]));
    lemma_push_contains(pre, s[i], y);
}

/// A pushed sequence holds what it held and the pushed element.
pub proof fn lemma_push_contains<T>(v: Seq<T>, x: T, y: T)
    ensures
        v.push(x).contains(y) <==> v.contains(y) || x == y,
{
    if v.contains(y) {
        let k = choose|k: int| 0 <= k < v.len() && v[k] == y;
        assert(v.push(x)[k] == y);
    }
    if x == y {
        assert(v.push(x)[v.len() as int] == y);
    }
    if v.push(x).contains(y) {
        let k = choose|k: int| 0 <= k < v.len() + 1 && v.push(x)[k] == y;
        if k < v.len() {
            assert(v[k] == y);
        }
    }
}

/// Pushing an element that is not there keeps a sequence free of duplicates.
pub proof fn lemma_push_no_dup<T>(v: Seq<T>, x: T)
    requires
        v.no_duplicates(),
        !v.contains(x),
    ensures
        v.push(x).no_duplicates(),
{
    assert forall|p: int, q: int| 0 <= p < v.push(x).len() && 0 <= q < v.push(x).len() && p != q
        implies v.push(x)[p] != v.push(x)[q] by {
        if p < v.len() && q < v.len() {
            assert(v.push(x)[p] == v[p]);
            assert(v.push(x)[q] == v[q]);
        } else if p < v.len() {
            assert(v.push(x)[p] == v[p]);
        } else {
            assert(v.push(x)[q] == v[q]);
        }
    }
}

/// Whether `v` holds `x`.
pub fn contains_id(v: &Vec<usize>, x: usize) -> (r: bool)
    ensures
        r == v@.contains(x),
{
    let mut i: usize = 0;
    while i < v.len()
        invariant
            i <= v@.len(),
            forall|k: int| 0 <= k < i ==> v@[k] != x,
        decreases v@.len() - i,
    {
        if v[i] == x {
            return true;
        }
        i = i + 1;
    }
    false
}

/// The ids of `desired` missing from `current`, and those of `current` missing
/// from `desired`, each listed once, in the order in which they first occur.
pub fn reconcile(current: &Vec<usize>, desired: &Vec<usize>) -> (r: Diff)
    ensures
        forall|x: usize| r.to_add@.contains(x) <==> desired@.contains(x) && !current@.contains(x),
        forall|x: usize| r.to_remove@.contains(x) <==> current@.contains(x) && !desired@.contains(x),
        r.to_add@.no_duplicates(),
        r.to_remove@.no_duplicates(),
{
    let to_add = missing_from(desired, current);
    let to_remove = missing_from(current, desired);
    Diff { to_add, to_remove }
}

/// The ids of `a` that `b` lacks, each once, in the order of `a`.
fn missing_from(a: &Vec<usize>, b: &Vec<usize>) -> (r: Vec<usize>)
    ensures
        forall|x: usize| r@.contains(x) <==> a@.contains(x) && !b@.contains(x),
        r@.no_duplicates(),
{
    let mut r: Vec<usize> = Vec::new();
    let mut i: usize = 0;
    while i < a.len()
        invariant
            i <= a@.len(),
            forall|x: usize| r@.contains(x) <==> a@.subrange(0, i as int).contains(x) && !b@.contains(x),
            r@.no_duplicates(),
        decreases a@.len() - i,
    {
        let x = a[i];
        let ghost before = r@;
        if !contains_id(b, x) && !contains_id(&r, x) {
            r.push(x);
        }
        proof {
            assert forall|y: usize| r@.contains(y) <==> a@.subrange(0, i + 1).contains(y) && !b@.contains(y) by {
                lemma_prefix_step(a@, i as int, y);
                if r@ != before {
                    lemma_push_contains(before, x, y);
                }
            }
            if r@ != before {
                lemma_push_no_dup(before, x);
            }
        }
        i = i + 1;
    }
    assert(a@.subrange(0, a@.len() as int) =~= a@);
    r
}

/// The rows `(subject, object)` of a relation.
pub open spec fn has_row(rows: Seq<(usize, usize)>, s: usize, o: usize) -> bool {
    rows.contains((s, o))
}

/// The rows after the subject `s` has been given exactly the objects of `desired`.
pub open spec fn replaced(rows: Seq<(usize, usize)>, s: usize, desired: Seq<usize>, a: usize, b: usize) -> bool {
    if a == s {
        desired.contains(b)
    } else {
        has_row(rows, a, b)
    }
}

/// The objects that `rows` relates to the subject `s`, in the order of the rows.
pub fn objects_of(rows: &Vec<(usize, usize)>, s: usize) -> (r: Vec<usize>)
    ensures
        forall|o: usize| r@.contains(o) <==> has_row(rows@, s, o),
{
    let mut r: Vec<usize> = Vec::new();
    let mut i: usize = 0;
    while i < rows.len()
        invariant
            i <= rows@.len(),
            forall|o: usize| r@.contains(o) <==> rows@.subrange(0, i as int).contains((s, o)),
        decreases rows@.len() - i,
    {
        let (a, b) = rows[i];
        let ghost before = r@;
        if a == s {
            r.push(b);
        }
        proof {
            assert forall|o: usize| r@.contains(o) <==> rows@.subrange(0, i + 1).contains((s, o)) by {
                lemma_prefix_step(rows@, i as int, (s, o));
                if a == s {
                    lemma_push_contains(before, b, o);
                }
            }
        }
        i = i + 1;
    }
    assert(rows@.subrange(0, rows@.len() as int) =~= rows@);
    r
}

/// Gives the subject `s` exactly the objects of `desired`: deletes the rows of
/// objects no longer desired and inserts those missing. Rows of other subjects
/// stay, no row is inserted twice, and the diff that was applied is returned.
pub fn replace_objects(rows: &mut Vec<(usize, usize)>, s: usize, desired: &Vec<usize>) -> (r: Diff)
    requires
        old(rows)@.no_duplicates(),
    ensures
        final(rows)@.no_duplicates(),
        forall|a: usize, b: usize| has_row(final(rows)@, a, b) <==> replaced(old(rows)@, s, desired@, a, b),
        forall|x: usize| r.to_add@.contains(x) <==> desired@.contains(x) && !has_row(old(rows)@, s, x),
        forall|x: usize| r.to_remove@.contains(x) <==> has_row(old(rows)@, s, x) && !desired@.contains(x),
{
    let current = objects_of(rows, s);
    let diff = reconcile(&current, desired);
    let ghost start = rows@;
    assert forall|x: usize| diff.to_add@.contains(x) <==> desired@.contains(x) && !has_row(start, s, x) by {
        assert(current@.contains(x) == has_row(start, s, x));
    }
    assert forall|x: usize| diff.to_remove@.contains(x) <==> has_row(start, s, x) && !desired@.contains(x) by {
        assert(current@.contains(x) == has_row(start, s, x));
    }
    let mut kept: Vec<(usize, usize)> = Vec::new();
    let mut i: usize = 0;
    while i < rows.len()
        invariant
            i <= rows@.len(),
            rows@ == start,
            start.no_duplicates(),
            kept@.no_duplicates(),
            forall|a: usize, b: usize| #[trigger] kept@.contains((a, b)) <==> start.subrange(0, i as int).contains((a, b))
                && !(a == s && diff.to_remove@.contains(b)),
        decreases rows@.len() - i,
    {
        let (a, b) = rows[i];
        let ghost before = kept@;
        let drop_row = a == s && contains_id(&diff.to_remove, b);
        if !drop_row {
            kept.push((a, b));
        }
        proof {
            assert(!start.subrange(0, i as int).contains((a, b))) by {
                if start.subrange(0, i as int).contains((a, b)) {
                    let k = choose|k: int| 0 <= k < i && start.subrange(0, i as int)[k] == (a, b);
                    assert(start[k] == start[i as int]);
                }
            }
            assert forall|x: usize, y: usize| #[trigger] kept@.contains((x, y)) <==> start.subrange(0, i + 1).contains((x, y))
                && !(x == s && diff.to_remove@.contains(y)) by {
                lemma_prefix_step(start, i as int, (x, y));
                if !drop_row {
                    lemma_push_contains(before, (a, b), (x, y));
                }
            }
            if !drop_row {
                lemma_push_no_dup(before, (a, b));
            }
        }
        i = i + 1;
    }
    assert(start.subrange(0, start.len() as int) =~= start);
    let mut j: usize = 0;
    while j < diff.to_add.len()
        invariant
            j <= diff.to_add@.len(),
            diff.to_add@.no_duplicates(),
            kept@.no_duplicates(),
            forall|x: usize| diff.to_add@.contains(x) ==> !has_row(start, s, x),
            forall|a: usize, b: usize| #[trigger] kept@.contains((a, b)) <==> (start.contains((a, b))
                && !(a == s && diff.to_remove@.contains(b))) || (a == s && diff.to_add@.subrange(0, j as int).contains(b)),
        decreases diff.to_add@.len() - j,
    {
        let x = diff.to_add[j];
        let ghost before = kept@;
        kept.push((s, x));
        proof {
            assert(diff.to_add@.contains(x)) by {
                assert(diff.to_add@[j as int] == x);
            }
            assert(!diff.to_add@.subrange(0, j as int).contains(x)) by {
                if diff.to_add@.subrange(0, j as int).contains(x) {
                    let k = choose|k: int| 0 <= k < j && diff.to_add@.subrange(0, j as int)[k] == x;
                    assert(diff.to_add@[k] == diff.to_add@[j as int]);
                }
            }
            assert(!has_row(start, s, x));
            assert(!before.contains((s, x))) by {
                if before.contains((s, x)) {
                    assert(start.contains((s, x)) || diff.to_add@.subrange(0, j as int).contains(x));
                }
            }
            assert forall|a: usize, b: usize| #[trigger] kept@.contains((a, b)) <==> (start.contains((a, b))
                && !(a == s && diff.to_remove@.contains(b))) || (a == s && diff.to_add@.subrange(0, j + 1).contains(b)) by {
                lemma_prefix_step(diff.to_add@, j as int, b);
                lemma_push_contains(before, (s, x), (a, b));
            }
            lemma_push_no_dup(before, (s, x));
        }
        j = j + 1;
    }
    assert(diff.to_add@.subrange(0, diff.to_add@.len() as int) =~= diff.to_add@);
    *rows = kept;
    diff
}

} // verus!
