//! Text at the level of characters: splitting on separators, trimming,
//! padding, and reading and writing decimal numbers.
//!
//! Every string is modelled by its sequence of characters.

use vstd::prelude::*;

verus! {

/// What `char::is_whitespace` answers for `c`.
pub uninterp spec fn char_is_whitespace(c: char) -> bool;

/// `char::is_whitespace` depends on the character alone. Which characters
/// count as white space is left to the standard library's tables.
pub assume_specification[ char::is_whitespace ](c: char) -> (b: bool)
    ensures
        b == char_is_whitespace(c),
;

/// What `char::is_alphabetic` answers for `c`.
pub uninterp spec fn char_is_alphabetic(c: char) -> bool;

/// `char::is_alphabetic` depends on the character alone. Which characters
/// count as alphabetic is left to the standard library's tables.
pub assume_specification[ char::is_alphabetic ](c: char) -> (b: bool)
    ensures
        b == char_is_alphabetic(c),
;

/// The characters of `str::to_uppercase` applied to the text `s`.
pub uninterp spec fn str_uppercase(s: Seq<char>) -> Seq<char>;

/// `str::to_uppercase` depends on the text alone. The case mapping itself is
/// left to the standard library's tables.
pub assume_specification[ str::to_uppercase ](s: &str) -> (upper: String)
    ensures
        upper@ == str_uppercase(s@),
;

/// `String::push` appends one character at the end.
pub assume_specification[ String::push ](s: &mut String, c: char)
    ensures
        final(s)@ == old(s)@.push(c),
;

/// `==` on string slices compares them character by character.
pub assume_specification[ <str as PartialEq>::eq ](a: &str, b: &str) -> (same: bool)
    ensures
        same == (a@ == b@),
;

/// The characters of `s`, in a vector.
pub fn chars_of(s: &str) -> (v: Vec<char>)
    ensures
        v@ == s@,
{
    let mut v: Vec<char> = Vec::new();
    for c in it: s.chars()
        invariant
            it.seq() == s@,
            v@ == s@.take(it.index() as int),
    {
        v.push(c);
    }
    v
}

/// The characters `v[from..to]` as a string.
pub fn string_of(v: &Vec<char>, from: usize, to: usize) -> (s: String)
    requires
        from <= to <= v@.len(),
    ensures
        s@ == v@.subrange(from as int, to as int),
{
    let mut s = String::new();
    let mut i: usize = from;
    while i < to
        invariant
            from <= i <= to <= v@.len(),
            s@ == v@.subrange(from as int, i as int),
        decreases to - i,
    {
        s.push(v[i]);
        i = i + 1;
    }
    s
}

// ---------------------------------------------------------------------
// Splitting
// ---------------------------------------------------------------------

/// The parts of `s` between separators, a separator being any character of
/// `seps`. Reading `s` from the left, a separator opens a new (empty) part and
/// any other character extends the part that is open. There is always at
/// least one part; `n` separators give `n + 1` parts.
pub open spec fn split_on(s: Seq<char>, seps: Seq<char>) -> Seq<Seq<char>>
    decreases s.len(),
{
    if s.len() == 0 {
        seq![Seq::<char>::empty()]
    } else {
        let before = split_on(s.drop_last(), seps);
        if seps.contains(s.last()) {
            before.push(Seq::<char>::empty())
        } else {
            before.drop_last().push(before.last().push(s.last()))
        }
    }
}

/// No character of `s` is a separator.
pub open spec fn free_of(s: Seq<char>, seps: Seq<char>) -> bool {
    forall|i: int| 0 <= i < s.len() ==> !seps.contains(#[trigger] s[i])
}

/// A split has at least one part, and no part holds a separator.
pub proof fn lemma_split_parts(s: Seq<char>, seps: Seq<char>)
    ensures
        split_on(s, seps).len() >= 1,
        forall|k: int|
            0 <= k < split_on(s, seps).len() ==> free_of(#[trigger] split_on(s, seps)[k], seps),
    decreases s.len(),
{
    if s.len() > 0 {
        lemma_split_parts(s.drop_last(), seps);
        let before = split_on(s.drop_last(), seps);
        let parts = split_on(s, seps);
        assert forall|k: int| 0 <= k < parts.len() implies free_of(#[trigger] parts[k], seps) by {
            if k < before.len() - 1 {
                assert(parts[k] == before[k]);
            } else if seps.contains(s.last()) {
                if k == before.len() - 1 {
                    assert(parts[k] == before[k]);
                }
            } else {
                assert(free_of(before[before.len() - 1], seps));
            }
        }
    }
}

/// Text without separators is its own single part.
pub proof fn lemma_split_free(s: Seq<char>, seps: Seq<char>)
    requires
        free_of(s, seps),
    ensures
        split_on(s, seps) == seq![s],
    decreases s.len(),
{
    if s.len() > 0 {
        assert(!seps.contains(s[s.len() - 1]));
        lemma_split_free(s.drop_last(), seps);
        assert(s.drop_last().push(s.last()) =~= s);
        assert(seq![s.drop_last()].drop_last().push(s) =~= seq![s]);
    } else {
        assert(s =~= Seq::<char>::empty());
    }
}

/// Splitting `a`, one separator `c` and separator-free text `b` in a row
/// gives the parts of `a` followed by `b`.
pub proof fn lemma_split_append(a: Seq<char>, c: char, b: Seq<char>, seps: Seq<char>)
    requires
        seps.contains(c),
        free_of(b, seps),
    ensures
        split_on(a.push(c) + b, seps) == split_on(a, seps).push(b),
    decreases b.len(),
{
    if b.len() == 0 {
        assert(a.push(c) + b =~= a.push(c));
        assert(a.push(c).drop_last() =~= a);
        assert(b =~= Seq::<char>::empty());
    } else {
        let whole = a.push(c) + b;
        assert(!seps.contains(b[b.len() - 1]));
        assert(whole.drop_last() =~= a.push(c) + b.drop_last());
        assert(whole.last() == b.last());
        lemma_split_append(a, c, b.drop_last(), seps);
        let before = split_on(a, seps).push(b.drop_last());
        assert(before.drop_last() =~= split_on(a, seps));
        assert(b.drop_last().push(b.last()) =~= b);
    }
}

/// Splits `s` on the characters of `seps`.
pub fn split_text(s: &str, seps: &Vec<char>) -> (parts: Vec<String>)
    ensures
        parts.deep_view() == split_on(s@, seps@),
{
    let mut parts: Vec<String> = Vec::new();
    let mut current = String::new();
    assert(s@.take(0) =~= Seq::<char>::empty());
    assert(current@ =~= Seq::<char>::empty());
    for c in it: s.chars()
        invariant
            it.seq() == s@,
            parts.deep_view().push(current@) == split_on(s@.take(it.index() as int), seps@),
    {
        let ghost done = parts.deep_view();
        let ghost open = current@;
        proof {
            assert(s@.take(it.index() + 1).drop_last() =~= s@.take(it.index() as int));
            assert(s@.take(it.index() + 1).last() == c);
            assert(done.push(open).drop_last() =~= done);
        }
        if contains_char(seps, c) {
            parts.push(current);
            current = String::new();
            assert(parts.deep_view() =~~= done.push(open));
        } else {
            current.push(c);
            assert(parts.deep_view() =~~= done);
        }
    }
    assert(s@.take(s@.len() as int) =~= s@);
    let ghost done = parts.deep_view();
    parts.push(current);
    assert(parts.deep_view() =~~= done.push(current@));
    parts
}

/// Whether `c` is one of `set`.
pub fn contains_char(set: &Vec<char>, c: char) -> (found: bool)
    ensures
        found == set@.contains(c),
{
    let mut i: usize = 0;
    while i < set.len()
        invariant
            i <= set@.len(),
            forall|j: int| 0 <= j < i ==> set@[j] != c,
        decreases set@.len() - i,
    {
        if set[i] == c {
            return true;
        }
        i = i + 1;
    }
    false
}

// ---------------------------------------------------------------------
// Trimming
// ---------------------------------------------------------------------

/// `s` without its leading white space.
pub open spec fn trim_start(s: Seq<char>) -> Seq<char>
    decreases s.len(),
{
    if s.len() > 0 && char_is_whitespace(s[0]) {
        trim_start(s.drop_first())
    } else {
        s
    }
}

/// `s` without its trailing white space.
pub open spec fn trim_end(s: Seq<char>) -> Seq<char>
    decreases s.len(),
{
    if s.len() > 0 && char_is_whitespace(s.last()) {
        trim_end(s.drop_last())
    } else {
        s
    }
}

/// `s` without leading and trailing white space.
pub open spec fn trim(s: Seq<char>) -> Seq<char> {
    trim_end(trim_start(s))
}

/// The bounds `(from, to)` of `v` without its surrounding white space.
pub fn trim_bounds(v: &Vec<char>) -> (bounds: (usize, usize))
    ensures
        bounds.0 <= bounds.1 <= v@.len(),
        v@.subrange(bounds.0 as int, bounds.1 as int) == trim(v@),
{
    let mut from: usize = 0;
    assert(v@.skip(0) =~= v@);
    while from < v.len() && v[from].is_whitespace()
        invariant
            from <= v@.len(),
            trim_start(v@) == trim_start(v@.skip(from as int)),
        decreases v@.len() - from,
    {
        assert(v@.skip(from as int).drop_first() =~= v@.skip(from + 1));
        from = from + 1;
    }
    let mut to: usize = v.len();
    assert(v@.skip(from as int) =~= v@.subrange(from as int, to as int));
    while to > from && v[to - 1].is_whitespace()
        invariant
            from <= to <= v@.len(),
            trim(v@) == trim_end(v@.subrange(from as int, to as int)),
        decreases to,
    {
        assert(v@.subrange(from as int, to as int).drop_last() =~= v@.subrange(
            from as int,
            to - 1,
        ));
        to = to - 1;
    }
    (from, to)
}

/// `s` without the white space around it.
pub fn trimmed(s: &str) -> (t: String)
    ensures
        t@ == trim(s@),
{
    let v = chars_of(s);
    let (from, to) = trim_bounds(&v);
    string_of(&v, from, to)
}

// ---------------------------------------------------------------------
// Padding
// ---------------------------------------------------------------------

/// `s` with `fill` put in front until it is `width` characters long; `s`
/// itself where it is that long already.
pub open spec fn pad_left(s: Seq<char>, width: nat, fill: char) -> Seq<char> {
    if s.len() >= width {
        s
    } else {
        Seq::new((width - s.len()) as nat, |i: int| fill) + s
    }
}

/// Padding twice is padding once.
pub proof fn lemma_pad_left_idempotent(s: Seq<char>, width: nat, fill: char)
    ensures
        pad_left(s, width, fill).len() >= width,
        pad_left(s, width, fill).len() >= s.len(),
        pad_left(pad_left(s, width, fill), width, fill) == pad_left(s, width, fill),
{
}

/// Padding puts nothing but `fill` in front of `s`.
pub proof fn lemma_pad_left_free(s: Seq<char>, width: nat, fill: char, seps: Seq<char>)
    requires
        free_of(s, seps),
        !seps.contains(fill),
    ensures
        free_of(pad_left(s, width, fill), seps),
{
}

/// Appends `pad_left(v, width, fill)` to `out`.
pub fn push_padded(out: &mut String, v: &Vec<char>, width: usize, fill: char)
    ensures
        final(out)@ == old(out)@ + pad_left(v@, width as nat, fill),
{
    let ghost start = out@;
    let mut n: usize = v.len();
    while n < width
        invariant
            v@.len() <= n,
            n <= width || n == v@.len(),
            out@ == start + Seq::new((n - v@.len()) as nat, |i: int| fill),
        decreases width - n,
    {
        out.push(fill);
        n = n + 1;
        assert(out@ =~= start + Seq::new((n - v@.len()) as nat, |i: int| fill));
    }
    let ghost padding = out@;
    let mut i: usize = 0;
    while i < v.len()
        invariant
            i <= v@.len(),
            out@ == padding + v@.take(i as int),
        decreases v@.len() - i,
    {
        out.push(v[i]);
        i = i + 1;
        assert(out@ =~= padding + v@.take(i as int));
    }
    assert(v@.take(v@.len() as int) =~= v@);
    assert(out@ =~= start + pad_left(v@, width as nat, fill));
}

} // verus!
