//! Splitting a sequence of characters on a literal delimiter, joining pieces
//! back together with a separator, and the small conversions between `str`,
//! `String` and `Vec<char>` that the rest of the crate builds on.

use vstd::prelude::*;

verus! {

/// Relies on `String::push`: appends the given character to the end of the string.
#[verifier::external_body]
pub fn push_char(s: &mut String, c: char)
    ensures
        final(s)@ == old(s)@.push(c),
{
    s.push(c)
}

/// For a vector of characters the deep view is just the view.
pub proof fn lemma_chars_deep_view(v: &Vec<char>)
    ensures
        v.deep_view() == v@,
{
    assert(v.deep_view() =~= v@);
}

/// The characters of a string slice, in order.
pub fn chars_of(s: &str) -> (v: Vec<char>)
    ensures
        v@ == s@,
{
    let n = s.unicode_len();
    let mut v: Vec<char> = Vec::new();
    let mut i: usize = 0;
    while i < n
        invariant
            i <= n,
            n == s@.len(),
            v@ == s@.take(i as int),
        decreases n - i,
    {
        v.push(s.get_char(i));
        proof {
            assert(s@.take(i + 1) =~= s@.take(i as int).push(s@[i as int]));
        }
        i = i + 1;
    }
    proof {
        assert(s@.take(n as int) =~= s@);
    }
    v
}

/// A `String` holding exactly the given characters.
pub fn string_from_chars(v: &Vec<char>) -> (s: String)
    ensures
        s@ == v@,
{
    let mut s = String::new();
    let mut i: usize = 0;
    while i < v.len()
        invariant
            i <= v@.len(),
            s@ == v@.take(i as int),
        decreases v@.len() - i,
    {
        push_char(&mut s, v[i]);
        proof {
            assert(v@.take(i + 1) =~= v@.take(i as int).push(v@[i as int]));
        }
        i = i + 1;
    }
    proof {
        assert(v@.take(v@.len() as int) =~= v@);
    }
    s
}

/// The characters of `s` from `from` (inclusive) to `to` (exclusive).
pub fn subvec(s: &Vec<char>, from: usize, to: usize) -> (r: Vec<char>)
    requires
        from <= to <= s@.len(),
    ensures
        r@ == s@.subrange(from as int, to as int),
{
    let mut r: Vec<char> = Vec::new();
    let mut i: usize = from;
    while i < to
        invariant
            from <= i <= to <= s@.len(),
            r@ == s@.subrange(from as int, i as int),
        decreases to - i,
    {
        r.push(s[i]);
        proof {
            assert(s@.subrange(from as int, i + 1) =~= s@.subrange(from as int, i as int).push(
                s@[i as int],
            ));
        }
        i = i + 1;
    }
    r
}

/// The delimiter `d` occurs in `s` starting at position `i`.
pub open spec fn match_at(s: Seq<char>, d: Seq<char>, i: int) -> bool {
    &&& 0 <= i
    &&& i + d.len() <= s.len()
    &&& s.subrange(i, i + d.len() as int) == d
}

/// The first position at or after `from` where `d` occurs in `s`.
pub open spec fn spec_find_from(s: Seq<char>, d: Seq<char>, from: int) -> Option<int>
    decreases s.len() - from,
        when d.len() > 0
{
    if from + d.len() > s.len() {
        None
    } else if match_at(s, d, from) {
        Some(from)
    } else {
        spec_find_from(s, d, from + 1)
    }
}

pub proof fn lemma_find_from_props(s: Seq<char>, d: Seq<char>, from: int)
    requires
        d.len() > 0,
    ensures
        match spec_find_from(s, d, from) {
            Some(j) => from <= j && match_at(s, d, j) && forall|k: int|
                from <= k < j ==> !match_at(s, d, k),
            None => forall|k: int| from <= k ==> !match_at(s, d, k),
        },
    decreases s.len() - from,
{
    if from + d.len() > s.len() {
    } else if match_at(s, d, from) {
    } else {
        lemma_find_from_props(s, d, from + 1);
    }
}

/// Splitting `s` on `d`, starting at position `from`: the text up to the next
/// occurrence of `d`, then the split of what follows that occurrence.
pub open spec fn spec_split_from(s: Seq<char>, d: Seq<char>, from: int) -> Seq<Seq<char>>
    decreases s.len() - from,
        when 0 <= from <= s.len() && d.len() > 0
        via spec_split_from_decreases
{
    match spec_find_from(s, d, from) {
        None => seq![s.subrange(from, s.len() as int)],
        Some(j) => seq![s.subrange(from, j)] + spec_split_from(s, d, j + d.len()),
    }
}

#[via_fn]
proof fn spec_split_from_decreases(s: Seq<char>, d: Seq<char>, from: int) {
    lemma_find_from_props(s, d, from);
}

/// The pieces of `s` delimited by occurrences of `d`, in order; empty pieces
/// are kept, and a text with no occurrence of `d` is a single piece.
pub open spec fn spec_split(s: Seq<char>, d: Seq<char>) -> Seq<Seq<char>> {
    spec_split_from(s, d, 0)
}

pub proof fn lemma_split_from_len(s: Seq<char>, d: Seq<char>, from: int)
    requires
        0 <= from <= s.len(),
        d.len() > 0,
    ensures
        spec_split_from(s, d, from).len() >= 1,
    decreases s.len() - from,
{
    lemma_find_from_props(s, d, from);
    match spec_find_from(s, d, from) {
        None => {},
        Some(j) => {
            lemma_split_from_len(s, d, j + d.len());
        },
    }
}

/// If `d` occurs at `j` and nowhere between `from` and `j`, then `j` is
/// where the search from `from` finds it.
pub proof fn lemma_find_at(s: Seq<char>, d: Seq<char>, from: int, j: int)
    requires
        d.len() > 0,
        0 <= from <= j,
        match_at(s, d, j),
        forall|k: int| from <= k < j ==> !match_at(s, d, k),
    ensures
        spec_find_from(s, d, from) == Some(j),
    decreases j - from,
{
    if from < j {
        lemma_find_at(s, d, from + 1, j);
    }
}

/// If `d` occurs nowhere at or after `from`, the search finds nothing.
pub proof fn lemma_find_from_none(s: Seq<char>, d: Seq<char>, from: int)
    requires
        d.len() > 0,
        forall|k: int| from <= k ==> !match_at(s, d, k),
    ensures
        spec_find_from(s, d, from) is None,
    decreases s.len() - from,
{
    if from + d.len() <= s.len() {
        lemma_find_from_none(s, d, from + 1);
    }
}

/// Splitting undoes joining for three pieces around a separator character
/// that none of the pieces contains.
pub proof fn lemma_split_three(a: Seq<char>, b: Seq<char>, c: Seq<char>, x: char)
    requires
        forall|k: int| 0 <= k < a.len() ==> a[k] != x,
        forall|k: int| 0 <= k < b.len() ==> b[k] != x,
        forall|k: int| 0 <= k < c.len() ==> c[k] != x,
    ensures
        spec_split(a + seq![x] + b + seq![x] + c, seq![x]) == seq![a, b, c],
{
    let d = seq![x];
    let s = a + seq![x] + b + seq![x] + c;
    let p1 = a.len() as int;
    let p2 = a.len() + 1 + b.len() as int;
    assert(s.len() == a.len() + b.len() + c.len() + 2);
    assert forall|k: int| 0 <= k < s.len() implies (match_at(s, d, k) <==> s[k] == x) by {
        assert(s.subrange(k, k + 1) =~= seq![s[k]]);
        if s[k] == x {
            assert(s.subrange(k, k + 1) =~= d);
        } else {
            assert(s.subrange(k, k + 1) != d) by {
                assert(s.subrange(k, k + 1)[0] != d[0]);
            }
        }
    }
    assert(s[p1] == x);
    assert(s[p2] == x);
    assert(forall|k: int| 0 <= k < p1 ==> s[k] == a[k] && s[k] != x);
    assert(forall|k: int| p1 < k < p2 ==> s[k] == b[k - p1 - 1] && s[k] != x);
    assert(forall|k: int| p2 < k < s.len() ==> s[k] == c[k - p2 - 1] && s[k] != x);
    lemma_find_at(s, d, 0, p1);
    assert(spec_split_from(s, d, 0) == seq![s.subrange(0, p1)] + spec_split_from(s, d, p1 + 1));
    assert(s.subrange(0, p1) =~= a);
    lemma_find_at(s, d, p1 + 1, p2);
    assert(spec_split_from(s, d, p1 + 1) == seq![s.subrange(p1 + 1, p2)] + spec_split_from(
        s,
        d,
        p2 + 1,
    ));
    assert(s.subrange(p1 + 1, p2) =~= b);
    lemma_find_from_none(s, d, p2 + 1);
    assert(spec_split_from(s, d, p2 + 1) == seq![s.subrange(p2 + 1, s.len() as int)]);
    assert(s.subrange(p2 + 1, s.len() as int) =~= c);
    assert(spec_split(s, d) =~= seq![a, b, c]);
}

pub proof fn lemma_split_from_count(s: Seq<char>, d: Seq<char>, from: int)
    requires
        0 <= from <= s.len(),
        d.len() > 0,
    ensures
        1 <= spec_split_from(s, d, from).len() <= s.len() - from + 1,
    decreases s.len() - from,
{
    lemma_find_from_props(s, d, from);
    match spec_find_from(s, d, from) {
        None => {},
        Some(j) => {
            lemma_split_from_count(s, d, j + d.len());
        },
    }
}

/// Whether `d` occurs anywhere in `s`.
pub fn contains_seq(s: &Vec<char>, d: &Vec<char>) -> (r: bool)
    requires
        d@.len() > 0,
    ensures
        r == (spec_find_from(s@, d@, 0) is Some),
{
    find_from(s, d, 0).is_some()
}

/// The characters of `d` occur in `s` starting at `at`.
fn matches_at(s: &Vec<char>, d: &Vec<char>, at: usize) -> (r: bool)
    requires
        at + d@.len() <= s@.len(),
    ensures
        r == match_at(s@, d@, at as int),
{
    let slen = s.len();
    let dlen = d.len();
    let mut i: usize = 0;
    while i < dlen
        invariant
            i <= dlen,
            dlen == d@.len(),
            slen == s@.len(),
            at + dlen <= slen,
            forall|k: int| 0 <= k < i ==> s@[at + k] == d@[k],
        decreases dlen - i,
    {
        if s[at + i] != d[i] {
            assert(s@.subrange(at as int, at + d@.len() as int)[i as int] != d@[i as int]);
            return false;
        }
        i = i + 1;
    }
    proof {
        assert(s@.subrange(at as int, at + d@.len() as int) =~= d@);
    }
    true
}

/// The first position at or after `from` where `d` occurs in `s`.
pub fn find_from(s: &Vec<char>, d: &Vec<char>, from: usize) -> (r: Option<usize>)
    requires
        d@.len() > 0,
        from <= s@.len(),
    ensures
        match r {
            Some(j) => spec_find_from(s@, d@, from as int) == Some(j as int),
            None => spec_find_from(s@, d@, from as int) is None,
        },
{
    let slen = s.len();
    let dlen = d.len();
    if dlen > slen || from > slen - dlen {
        return None;
    }
    let limit = slen - dlen;
    let mut j: usize = from;
    while j <= limit
        invariant
            from <= j <= limit + 1,
            limit == s@.len() - d@.len(),
            dlen == d@.len() > 0,
            slen == s@.len(),
            spec_find_from(s@, d@, from as int) == spec_find_from(s@, d@, j as int),
        decreases limit + 1 - j,
    {
        if matches_at(s, d, j) {
            return Some(j);
        }
        j = j + 1;
    }
    None
}

/// Splitting `s` on a non-empty delimiter `d`.
pub fn split_chars(s: &Vec<char>, d: &Vec<char>) -> (r: Vec<Vec<char>>)
    requires
        d@.len() > 0,
    ensures
        r.deep_view() == spec_split(s@, d@),
{
    let slen = s.len();
    let mut r: Vec<Vec<char>> = Vec::new();
    let mut pos: usize = 0;
    loop
        invariant
            pos <= slen,
            slen == s@.len(),
            d@.len() > 0,
            spec_split(s@, d@) == r.deep_view() + spec_split_from(s@, d@, pos as int),
        decreases s@.len() - pos,
    {
        proof {
            lemma_find_from_props(s@, d@, pos as int);
        }
        let ghost old_dv = r.deep_view();
        match find_from(s, d, pos) {
            Some(j) => {
                let piece = subvec(s, pos, j);
                proof {
                    assert(piece.deep_view() =~= s@.subrange(pos as int, j as int));
                }
                r.push(piece);
                proof {
                    assert(r.deep_view() =~= old_dv.push(s@.subrange(pos as int, j as int)));
                    assert(old_dv.push(s@.subrange(pos as int, j as int)) + spec_split_from(
                        s@,
                        d@,
                        j + d@.len(),
                    ) =~= old_dv + (seq![s@.subrange(pos as int, j as int)] + spec_split_from(
                        s@,
                        d@,
                        j + d@.len(),
                    )));
                }
                pos = j + d.len();
            },
            None => {
                let piece = subvec(s, pos, s.len());
                proof {
                    assert(piece.deep_view() =~= s@.subrange(pos as int, s@.len() as int));
                }
                r.push(piece);
                proof {
                    assert(r.deep_view() =~= old_dv.push(
                        s@.subrange(pos as int, s@.len() as int),
                    ));
                    assert(old_dv.push(s@.subrange(pos as int, s@.len() as int)) =~= old_dv + seq![
                        s@.subrange(pos as int, s@.len() as int),
                    ]);
                }
                return r;
            },
        }
    }
}

/// The pieces joined in order, with `sep` between neighbouring pieces.
pub open spec fn spec_join(parts: Seq<Seq<char>>, sep: Seq<char>) -> Seq<char>
    decreases parts.len(),
{
    if parts.len() == 0 {
        Seq::empty()
    } else if parts.len() == 1 {
        parts[0]
    } else {
        spec_join(parts.drop_last(), sep) + sep + parts.last()
    }
}

/// Join the strings in `parts`, separated by `sep`.
pub fn join_strings(parts: &Vec<String>, sep: &str) -> (r: String)
    ensures
        r@ == spec_join(parts.deep_view(), sep@),
{
    let mut r = String::new();
    let mut i: usize = 0;
    while i < parts.len()
        invariant
            i <= parts@.len(),
            parts.deep_view().len() == parts@.len(),
            r@ == spec_join(parts.deep_view().take(i as int), sep@),
        decreases parts@.len() - i,
    {
        if i > 0 {
            r.append(sep);
        }
        r.append(parts[i].as_str());
        proof {
            let dv = parts.deep_view();
            assert(dv[i as int] == parts@[i as int]@);
            assert(dv.take(i + 1).drop_last() =~= dv.take(i as int));
            assert(dv.take(i + 1).last() == dv[i as int]);
        }
        i = i + 1;
    }
    proof {
        assert(parts.deep_view().take(parts@.len() as int) =~= parts.deep_view());
    }
    r
}

} // verus!
