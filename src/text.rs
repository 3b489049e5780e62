//! Text helpers: case folding, character access, path splitting and form encoding.

use vstd::prelude::*;
use vstd::std_specs::iter::IteratorSpec;
use vstd::string::StringSliceAdditionalSpecFns;

verus! {

/// What `str::to_lowercase` returns for a string: the lookup key of a name.
pub uninterp spec fn lower_of(s: Seq<char>) -> Seq<char>;

/// Relies on `str::to_lowercase`: the result depends on the characters alone,
/// and the empty string stays empty.
#[verifier::external_body]
pub(crate) fn lowercase(s: &str) -> (r: String)
    ensures
        r@ == lower_of(s@),
        s@.len() == 0 ==> r@.len() == 0,
{
    s.to_lowercase()
}

/// Relies on `String::push`: appends one character.
#[verifier::external_body]
fn push_char(s: &mut String, c: char)
    ensures
        final(s)@ == old(s)@.push(c),
{
    s.push(c)
}

/// The characters of a string, in order.
pub fn chars_of(s: &str) -> (r: Vec<char>)
    ensures
        r@ == s@,
{
    broadcast use vstd::string::axiom_spec_iter;
    let mut it = s.chars();
    let mut r: Vec<char> = Vec::new();
    loop
        invariant
            it.obeys_prophetic_iter_laws(),
            r@ + it.remaining() == s@,
            it.decrease() is Some,
        ensures
            r@ == s@,
        decreases it.decrease()->0,
    {
        match it.next() {
            Some(c) => {
                r.push(c);
            },
            None => {
                assert(r@ =~= r@ + it.remaining());
                break;
            },
        }
    }
    r
}


/// A string holding the characters of `cs` from index `start` on.
pub fn string_of(cs: &Vec<char>, start: usize) -> (r: String)
    requires
        start <= cs@.len(),
    ensures
        r@ == cs@.subrange(start as int, cs@.len() as int),
        start == 0 ==> r@ == cs@,
{
    let mut r = String::new();
    let mut i: usize = start;
    while i < cs.len()
        invariant
            start <= i <= cs@.len(),
            r@ == cs@.subrange(start as int, i as int),
        decreases cs@.len() - i,
    {
        push_char(&mut r, cs[i]);
        i = i + 1;
        assert(r@ =~= cs@.subrange(start as int, i as int));
    }
    assert(start == 0 ==> r@ =~= cs@);
    r
}

/// The pieces of `s` between occurrences of `sep`, as `str::split` yields them:
/// an empty string gives one empty piece, and a trailing separator an empty last piece.
pub open spec fn split_on(s: Seq<char>, sep: char) -> Seq<Seq<char>>
    decreases s.len(),
{
    if s.len() == 0 {
        seq![Seq::<char>::empty()]
    } else {
        let prev = split_on(s.drop_last(), sep);
        if s.last() == sep {
            prev.push(Seq::<char>::empty())
        } else {
            prev.update(prev.len() - 1, prev.last().push(s.last()))
        }
    }
}

/// Pieces joined back with `sep` between each two.
pub open spec fn join_with(pieces: Seq<Seq<char>>, sep: char) -> Seq<char>
    decreases pieces.len(),
{
    if pieces.len() == 0 {
        Seq::<char>::empty()
    } else if pieces.len() == 1 {
        pieces[0]
    } else {
        join_with(pieces.drop_last(), sep).push(sep) + pieces.last()
    }
}

/// The views of a sequence of strings.
pub open spec fn views_of(v: Seq<String>) -> Seq<Seq<char>> {
    v.map_values(|x: String| x@)
}

pub proof fn lemma_split_nonempty(s: Seq<char>, sep: char)
    ensures
        split_on(s, sep).len() >= 1,
    decreases s.len(),
{
    if s.len() > 0 {
        lemma_split_nonempty(s.drop_last(), sep);
    }
}

/// No piece of a split holds the separator.
pub proof fn lemma_split_no_sep(s: Seq<char>, sep: char)
    ensures
        forall|i: int|
            0 <= i < split_on(s, sep).len() ==> !(#[trigger] split_on(s, sep)[i]).contains(sep),
    decreases s.len(),
{
    if s.len() > 0 {
        lemma_split_no_sep(s.drop_last(), sep);
        lemma_split_nonempty(s.drop_last(), sep);
        let prev = split_on(s.drop_last(), sep);
        if s.last() != sep {
            let grown = prev.last().push(s.last());
            assert(!grown.contains(sep)) by {
                if grown.contains(sep) {
                    let k = choose|k: int| 0 <= k < grown.len() && grown[k] == sep;
                    assert(prev[prev.len() - 1] == prev.last());
                    if k < prev.last().len() {
                        assert(prev.last()[k] == sep);
                    }
                }
            }
        } else {
            assert forall|i: int| 0 <= i < split_on(s, sep).len() implies !(#[trigger] split_on(s, sep)[i]).contains(sep) by {
                if i == prev.len() {
                    assert(split_on(s, sep)[i] =~= Seq::<char>::empty());
                }
            }
        }
    }
}

/// Splitting the pieces of a text that holds `sep` and one more piece without it.
proof fn lemma_split_append(a: Seq<char>, b: Seq<char>, sep: char)
    requires
        !b.contains(sep),
    ensures
        split_on(a.push(sep) + b, sep) == split_on(a, sep).push(b),
    decreases b.len(),
{
    if b.len() == 0 {
        assert(a.push(sep) + b =~= a.push(sep));
        assert(a.push(sep).drop_last() =~= a);
        assert(b =~= Seq::<char>::empty());
        assert(a.push(sep).last() == sep);
        assert(split_on(a.push(sep), sep) == split_on(a, sep).push(Seq::<char>::empty()));
    } else {
        let bp = b.drop_last();
        assert(!bp.contains(sep)) by {
            if bp.contains(sep) {
                let k = choose|k: int| 0 <= k < bp.len() && bp[k] == sep;
                assert(b[k] == sep);
            }
        }
        lemma_split_append(a, bp, sep);
        let whole = a.push(sep) + b;
        assert(whole.drop_last() =~= a.push(sep) + bp);
        assert(whole.last() == b.last());
        assert(b.last() != sep) by {
            assert(b[b.len() - 1] == b.last());
        }
        assert(bp.push(b.last()) =~= b);
        assert(split_on(whole, sep) =~= split_on(a, sep).push(b));
    }
}

/// Splitting undoes joining when no piece holds the separator.
pub proof fn lemma_split_join(pieces: Seq<Seq<char>>, sep: char)
    requires
        pieces.len() >= 1,
        forall|i: int| 0 <= i < pieces.len() ==> !(#[trigger] pieces[i]).contains(sep),
    ensures
        split_on(join_with(pieces, sep), sep) == pieces,
    decreases pieces.len(),
{
    if pieces.len() == 1 {
        lemma_split_single(pieces[0], sep);
        assert(split_on(pieces[0], sep) =~= pieces);
    } else {
        let prev = pieces.drop_last();
        assert forall|i: int| 0 <= i < prev.len() implies !(#[trigger] prev[i]).contains(sep) by {
            assert(prev[i] == pieces[i]);
        }
        lemma_split_join(prev, sep);
        assert(!pieces.last().contains(sep)) by {
            assert(pieces[pieces.len() - 1] == pieces.last());
        }
        lemma_split_append(join_with(prev, sep), pieces.last(), sep);
        assert(prev.push(pieces.last()) =~= pieces);
    }
}

/// A text without the separator is one piece.
proof fn lemma_split_single(s: Seq<char>, sep: char)
    requires
        !s.contains(sep),
    ensures
        split_on(s, sep) == seq![s],
    decreases s.len(),
{
    if s.len() > 0 {
        let sp = s.drop_last();
        assert(!sp.contains(sep)) by {
            if sp.contains(sep) {
                let k = choose|k: int| 0 <= k < sp.len() && sp[k] == sep;
                assert(s[k] == sep);
            }
        }
        lemma_split_single(sp, sep);
        assert(s.last() != sep) by {
            assert(s[s.len() - 1] == s.last());
        }
        assert(sp.push(s.last()) =~= s);
        assert(seq![sp].update(0, sp.push(s.last())) =~= seq![s]);
    } else {
        assert(s =~= Seq::<char>::empty());
    }
}

proof fn lemma_join_push_empty(ps: Seq<Seq<char>>, sep: char)
    requires
        ps.len() >= 1,
    ensures
        join_with(ps.push(Seq::<char>::empty()), sep) == join_with(ps, sep).push(sep),
{
    let q = ps.push(Seq::<char>::empty());
    assert(q.drop_last() =~= ps);
    assert(join_with(ps, sep).push(sep) + Seq::<char>::empty() =~= join_with(ps, sep).push(sep));
}

proof fn lemma_join_grow_last(ps: Seq<Seq<char>>, c: char, sep: char)
    requires
        ps.len() >= 1,
    ensures
        join_with(ps.update(ps.len() - 1, ps.last().push(c)), sep) == join_with(ps, sep).push(c),
{
    let q = ps.update(ps.len() - 1, ps.last().push(c));
    if ps.len() == 1 {
        assert(q[0] == ps[0].push(c));
    } else {
        assert(q.drop_last() =~= ps.drop_last());
        assert(q.last() == ps.last().push(c));
        assert(join_with(ps.drop_last(), sep).push(sep) + ps.last().push(c)
            =~= (join_with(ps.drop_last(), sep).push(sep) + ps.last()).push(c));
    }
}

/// Joining the pieces of a split gives the text back.
pub proof fn lemma_join_split(s: Seq<char>, sep: char)
    ensures
        join_with(split_on(s, sep), sep) == s,
    decreases s.len(),
{
    if s.len() == 0 {
        assert(join_with(seq![Seq::<char>::empty()], sep) == Seq::<char>::empty());
    } else {
        lemma_join_split(s.drop_last(), sep);
        lemma_split_nonempty(s.drop_last(), sep);
        let prev = split_on(s.drop_last(), sep);
        if s.last() == sep {
            lemma_join_push_empty(prev, sep);
        } else {
            lemma_join_grow_last(prev, s.last(), sep);
        }
        assert(s.drop_last().push(s.last()) =~= s);
    }
}

/// Splits a text at each `sep`, as `str::split` does.
pub fn split_text(s: &str, sep: char) -> (r: Vec<String>)
    ensures
        views_of(r@) == split_on(s@, sep),
{
    let cs = chars_of(s);
    let mut r: Vec<String> = Vec::new();
    let mut cur: Vec<char> = Vec::new();
    let mut i: usize = 0;
    while i < cs.len()
        invariant
            i <= cs@.len(),
            cs@ == s@,
            views_of(r@).push(cur@) == split_on(cs@.subrange(0, i as int), sep),
        decreases cs@.len() - i,
    {
        let c = cs[i];
        let ghost before = cs@.subrange(0, i as int);
        let ghost after = cs@.subrange(0, i as int + 1);
        assert(after.drop_last() =~= before);
        assert(after.last() == c);
        if c == sep {
            let piece = string_of(&cur, 0);
            r.push(piece);
            cur = Vec::new();
            assert(views_of(r@).push(cur@) =~= split_on(before, sep).push(Seq::<char>::empty()));
        } else {
            let ghost prev = split_on(before, sep);
            cur.push(c);
            assert(views_of(r@).push(cur@) =~= prev.update(prev.len() - 1, prev.last().push(c)));
        }
        i = i + 1;
    }
    assert(cs@.subrange(0, cs@.len() as int) =~= cs@);
    let last = string_of(&cur, 0);
    r.push(last);
    assert(views_of(r@) =~= split_on(s@, sep));
    r
}

/// Joins pieces with `sep` between each two.
pub fn join_text(pieces: &Vec<String>, sep: char) -> (r: String)
    ensures
        r@ == join_with(views_of(pieces@), sep),
{
    let mut cs: Vec<char> = Vec::new();
    let mut i: usize = 0;
    while i < pieces.len()
        invariant
            i <= pieces@.len(),
            cs@ == join_with(views_of(pieces@.subrange(0, i as int)), sep),
        decreases pieces@.len() - i,
    {
        let ghost before = pieces@.subrange(0, i as int);
        let ghost after = pieces@.subrange(0, i as int + 1);
        assert(views_of(after).drop_last() =~= views_of(before));
        if i > 0 {
            cs.push(sep);
        }
        let piece = chars_of(pieces[i].as_str());
        let mut j: usize = 0;
        let ghost start = cs@;
        while j < piece.len()
            invariant
                j <= piece@.len(),
                cs@ == start + piece@.subrange(0, j as int),
            decreases piece@.len() - j,
        {
            cs.push(piece[j]);
            j = j + 1;
            assert(cs@ =~= start + piece@.subrange(0, j as int));
        }
        assert(piece@.subrange(0, piece@.len() as int) =~= piece@);
        if i == 0 {
            assert(start =~= Seq::<char>::empty());
            assert(cs@ =~= views_of(after)[0]);
        }
        i = i + 1;
    }
    assert(pieces@.subrange(0, pieces@.len() as int) =~= pieces@);
    string_of(&cs, 0)
}


/// A message made of `prefix` followed by `item`.
pub fn joined_message(prefix: &str, item: &str) -> (r: String)
    ensures
        r@ == prefix@ + item@,
{
    let mut cs = chars_of(prefix);
    let more = chars_of(item);
    let ghost start = cs@;
    let mut i: usize = 0;
    while i < more.len()
        invariant
            i <= more@.len(),
            cs@ == start + more@.subrange(0, i as int),
        decreases more@.len() - i,
    {
        cs.push(more[i]);
        i = i + 1;
        assert(cs@ =~= start + more@.subrange(0, i as int));
    }
    assert(more@.subrange(0, more@.len() as int) =~= more@);
    string_of(&cs, 0)
}

/// Bytes that form encoding keeps as they are: ASCII letters, digits and `*-._`.
pub open spec fn keeps_byte(b: u8) -> bool {
    (48 <= b <= 57) || (65 <= b <= 90) || (97 <= b <= 122) || b == 42 || b == 45 || b == 46 || b == 95
}

/// The uppercase hex digit of a value below 16.
pub open spec fn hex_digit(n: u8) -> char {
    if n < 10 {
        (n + 48) as char
    } else {
        (n + 55) as char
    }
}

/// How form encoding writes one byte: kept as is, a space as `+`, any other as
/// `%` and two uppercase hex digits.
pub open spec fn encode_byte(b: u8) -> Seq<char> {
    if keeps_byte(b) {
        seq![b as char]
    } else if b == 32 {
        seq!['+']
    } else {
        seq!['%', hex_digit(b / 16), hex_digit(b % 16)]
    }
}

/// The `application/x-www-form-urlencoded` form of some bytes.
pub open spec fn form_encoded(bytes: Seq<u8>) -> Seq<char>
    decreases bytes.len(),
{
    if bytes.len() == 0 {
        Seq::empty()
    } else {
        form_encoded(bytes.drop_last()) + encode_byte(bytes.last())
    }
}

/// Relies on `url::form_urlencoded::byte_serialize`, which keeps letters, digits
/// and `*-._`, writes a space as `+` and any other byte as `%XX`.
#[verifier::external_body]
fn byte_serialize(bytes: &[u8]) -> (r: String)
    ensures
        r@ == form_encoded(bytes@),
{
    url::form_urlencoded::byte_serialize(bytes).collect()
}

/// The form-encoded text of `s`, for a query string.
pub fn urlencode(s: &str) -> (r: String)
    ensures
        r@ == form_encoded(s.spec_bytes()),
{
    byte_serialize(s.as_bytes())
}

} // verus!
