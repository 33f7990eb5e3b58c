//! Cutting one line three ways: on a delimiter, by bytes, or by characters.
//!
//! Each mode first segments the line into an ordered sequence of textual
//! units — one field, one byte, one character per unit — and then keeps the
//! units whose index the range selects (or, in complement mode, the ones it
//! does not).  Units are kept in ascending index order and the whole result
//! is reversed when the step is negative.
//!
//! In byte mode an ASCII byte becomes a one-character unit and any other
//! byte a lowercase `0xHH` token, so the bytes inside a multi-byte UTF-8
//! sequence stay inspectable without producing invalid text.

use crate::range_parser::Range;
use crate::selection::complement_of;
use crate::selection::empty_interval;
use crate::selection::in_bounds;
use crate::selection::index_selected;
use crate::selection::resolved;
use crate::selection::select_indices;
use crate::text::chars_of;
use crate::text::lemma_chars_deep_view;
use crate::text::push_char;
use crate::text::spec_split;
use crate::text::split_chars;
use crate::text::string_from_chars;
use vstd::prelude::*;
use vstd::utf8::encode_utf8;

verus! {

/// The lowercase hexadecimal digit with value `d`.
pub open spec fn hex_char(d: int) -> char {
    if d == 0 {
        '0'
    } else if d == 1 {
        '1'
    } else if d == 2 {
        '2'
    } else if d == 3 {
        '3'
    } else if d == 4 {
        '4'
    } else if d == 5 {
        '5'
    } else if d == 6 {
        '6'
    } else if d == 7 {
        '7'
    } else if d == 8 {
        '8'
    } else if d == 9 {
        '9'
    } else if d == 10 {
        'a'
    } else if d == 11 {
        'b'
    } else if d == 12 {
        'c'
    } else if d == 13 {
        'd'
    } else if d == 14 {
        'e'
    } else {
        'f'
    }
}

/// The unit a single raw byte becomes: ASCII bytes stand for themselves,
/// any other byte becomes the four characters `0xHH` in lowercase hex.
pub open spec fn byte_unit(b: u8) -> Seq<char> {
    if b < 128 {
        seq![b as char]
    } else {
        seq!['0', 'x', hex_char(b as int / 16), hex_char(b as int % 16)]
    }
}

/// The units of byte mode: one per raw byte of the line.
pub open spec fn spec_byte_units(bytes: Seq<u8>) -> Seq<Seq<char>> {
    Seq::new(bytes.len(), |i: int| byte_unit(bytes[i]))
}

/// The units of character mode: one per Unicode scalar value of the line.
pub open spec fn spec_char_units(chars: Seq<char>) -> Seq<Seq<char>> {
    Seq::new(chars.len(), |i: int| seq![chars[i]])
}

/// The indices whose units survive: the selection itself, or in complement
/// mode everything in `[0, n)` outside it.
pub open spec fn keep_set(start: int, end: int, step: int, n: int, complement: bool) -> Set<int> {
    if complement {
        complement_of(select_indices(start, end, step, n), n)
    } else {
        select_indices(start, end, step, n)
    }
}

/// The units with index below `k` whose index lies in `s`, in ascending
/// index order.
pub open spec fn filter_by_set_upto(units: Seq<Seq<char>>, s: Set<int>, k: int) -> Seq<Seq<char>>
    decreases k,
{
    if k <= 0 {
        Seq::empty()
    } else if s.contains(k - 1) {
        filter_by_set_upto(units, s, k - 1).push(units[k - 1])
    } else {
        filter_by_set_upto(units, s, k - 1)
    }
}

/// The units whose index lies in `s`, in ascending index order.
pub open spec fn filter_by_set(units: Seq<Seq<char>>, s: Set<int>) -> Seq<Seq<char>> {
    filter_by_set_upto(units, s, units.len() as int)
}

/// What cutting a segmented line yields: nothing for a zero step, for bounds
/// that fail the non-complement check, or for an empty resolved interval;
/// otherwise the kept units in ascending order, reversed as a whole when the
/// step is negative.
pub open spec fn spec_cut_line(
    units: Seq<Seq<char>>,
    start: int,
    end: int,
    step: int,
    complement: bool,
) -> Seq<Seq<char>> {
    let n = units.len() as int;
    if step == 0 {
        Seq::empty()
    } else if !complement && !in_bounds(start, end, n) {
        Seq::empty()
    } else if empty_interval(resolved(start, n), resolved(end, n)) {
        Seq::empty()
    } else {
        let kept = filter_by_set(units, keep_set(start, end, step, n, complement));
        if step < 0 {
            kept.reverse()
        } else {
            kept
        }
    }
}

/// Inverting the kept-index set twice gives back the original kept units,
/// order included: complementing is an involution on the assembled output.
pub proof fn lemma_double_complement_keeps_units(
    units: Seq<Seq<char>>,
    start: int,
    end: int,
    step: int,
)
    ensures
        filter_by_set(
            units,
            complement_of(
                complement_of(select_indices(start, end, step, units.len() as int), units.len() as int),
                units.len() as int,
            ),
        ) == filter_by_set(units, select_indices(start, end, step, units.len() as int)),
{
    crate::selection::lemma_complement_involutive(start, end, step, units.len() as int);
}

/// The lowercase hexadecimal digit with value `d`.
fn hex_char_of(d: u8) -> (c: char)
    requires
        d < 16,
    ensures
        c == hex_char(d as int),
{
    match d {
        0 => '0',
        1 => '1',
        2 => '2',
        3 => '3',
        4 => '4',
        5 => '5',
        6 => '6',
        7 => '7',
        8 => '8',
        9 => '9',
        10 => 'a',
        11 => 'b',
        12 => 'c',
        13 => 'd',
        14 => 'e',
        _ => 'f',
    }
}

/// The textual unit standing for one raw byte.
fn handle_bytes(byte: u8) -> (r: String)
    ensures
        r@ == byte_unit(byte),
{
    let mut s = String::new();
    if byte < 128 {
        push_char(&mut s, byte as char);
        proof {
            assert(s@ =~= byte_unit(byte));
        }
    } else {
        push_char(&mut s, '0');
        push_char(&mut s, 'x');
        push_char(&mut s, hex_char_of(byte / 16));
        push_char(&mut s, hex_char_of(byte % 16));
        proof {
            assert(s@ =~= byte_unit(byte));
        }
    }
    s
}

/// The given strings in reverse order.
fn reverse_strings(v: Vec<String>) -> (r: Vec<String>)
    ensures
        r.deep_view() == v.deep_view().reverse(),
{
    let len = v.len();
    let mut r: Vec<String> = Vec::new();
    let mut i: usize = 0;
    while i < len
        invariant
            i <= len,
            len == v@.len(),
            r.deep_view() =~= Seq::new(i as nat, |k: int| v.deep_view()[len - 1 - k]),
        decreases len - i,
    {
        let ghost old_dv = r.deep_view();
        r.push(v[len - 1 - i].clone());
        proof {
            assert(r.deep_view() =~= old_dv.push(v.deep_view()[len - 1 - i]));
            assert(r.deep_view() =~= Seq::new((i + 1) as nat, |k: int| v.deep_view()[len - 1 - k]));
        }
        i = i + 1;
    }
    proof {
        assert(r.deep_view() =~= v.deep_view().reverse());
    }
    r
}

/// Keep the units of `items` that the range selects (or, in complement
/// mode, the ones it does not), in ascending index order, reversing the
/// result when the step is negative.
pub fn cut_line(items: Vec<String>, range: Range, n: i32, is_showing_complement: bool) -> (r: Vec<
    String,
>)
    requires
        n as int == items@.len(),
    ensures
        r.deep_view() == spec_cut_line(
            items.deep_view(),
            range.start as int,
            range.end as int,
            range.step as int,
            is_showing_complement,
        ),
{
    let (start, end, step) = range.to_tuple();
    let ghost units = items.deep_view();
    proof {
        assert(units.len() == items@.len());
    }
    if step == 0 {
        let r: Vec<String> = Vec::new();
        proof {
            assert(r.deep_view() =~= Seq::<Seq<char>>::empty());
        }
        return r;
    }
    if !is_showing_complement {
        let start_ok = -n <= start && start < n;
        let end_ok = -n <= end && end != 0 && end <= n;
        if !(start_ok && end_ok) {
            let r: Vec<String> = Vec::new();
            proof {
                assert(r.deep_view() =~= Seq::<Seq<char>>::empty());
            }
            return r;
        }
    }
    let rs: i32 = if start >= 0 {
        start
    } else {
        n + start
    };
    let re: i32 = if end >= 0 {
        end
    } else {
        n + end
    };
    let degenerate = if (rs < 0) == (re < 0) {
        rs >= re
    } else {
        rs < 0
    };
    if degenerate {
        let r: Vec<String> = Vec::new();
        proof {
            assert(r.deep_view() =~= Seq::<Seq<char>>::empty());
        }
        return r;
    }
    let ghost ks = keep_set(start as int, end as int, step as int, n as int, is_showing_complement);
    let mut kept: Vec<String> = Vec::new();
    let mut i: usize = 0;
    while i < items.len()
        invariant
            i <= items@.len(),
            n as int == items@.len(),
            units == items.deep_view(),
            step != 0,
            ks == keep_set(start as int, end as int, step as int, n as int, is_showing_complement),
            kept.deep_view() == filter_by_set_upto(units, ks, i as int),
        decreases items@.len() - i,
    {
        let ii: i32 = i as i32;
        let sel = index_selected(start, end, step, n, ii);
        let keep = if is_showing_complement {
            !sel
        } else {
            sel
        };
        proof {
            assert(keep == ks.contains(i as int));
        }
        if keep {
            let ghost old_dv = kept.deep_view();
            kept.push(items[i].clone());
            proof {
                assert(kept.deep_view() =~= old_dv.push(units[i as int]));
            }
        }
        i = i + 1;
    }
    proof {
        assert(filter_by_set_upto(units, ks, items@.len() as int) == filter_by_set(units, ks));
    }
    if step < 0 {
        reverse_strings(kept)
    } else {
        kept
    }
}

/// The pieces of `v`, each as its own `String`.
fn strings_of(pieces: &Vec<Vec<char>>) -> (r: Vec<String>)
    ensures
        r.deep_view() == pieces.deep_view(),
{
    let mut r: Vec<String> = Vec::new();
    let mut i: usize = 0;
    while i < pieces.len()
        invariant
            i <= pieces@.len(),
            r.deep_view() =~= pieces.deep_view().take(i as int),
        decreases pieces@.len() - i,
    {
        let ghost old_dv = r.deep_view();
        r.push(string_from_chars(&pieces[i]));
        proof {
            lemma_chars_deep_view(&pieces@[i as int]);
            assert(r.deep_view() =~= old_dv.push(pieces.deep_view()[i as int]));
            assert(r.deep_view() =~= pieces.deep_view().take(i + 1));
        }
        i = i + 1;
    }
    proof {
        assert(pieces.deep_view().take(pieces@.len() as int) =~= pieces.deep_view());
    }
    r
}

/// Cut a line split on a literal delimiter: one unit per field, empty
/// fields included.
pub fn cut_line_with_delimiter(
    line: &str,
    range: Range,
    delimiter: String,
    is_showing_complement: bool,
) -> (r: Vec<String>)
    requires
        delimiter@.len() > 0,
        line@.len() < 0x7fff_ffff,
    ensures
        r.deep_view() == spec_cut_line(
            spec_split(line@, delimiter@),
            range.start as int,
            range.end as int,
            range.step as int,
            is_showing_complement,
        ),
{
    let lv = chars_of(line);
    let dv = chars_of(delimiter.as_str());
    let pieces = split_chars(&lv, &dv);
    let items = strings_of(&pieces);
    proof {
        crate::text::lemma_split_from_count(line@, delimiter@, 0);
        assert(items.deep_view() == spec_split(line@, delimiter@));
        assert(items@.len() == spec_split(line@, delimiter@).len());
    }
    let n = items.len() as i32;
    cut_line(items, range, n, is_showing_complement)
}

/// Cut a line by its raw bytes: one unit per byte, with non-ASCII bytes
/// rendered as lowercase `0xHH` tokens.
pub fn cut_line_with_bytes(line: &str, range: Range, is_showing_complement: bool) -> (r: Vec<
    String,
>)
    requires
        encode_utf8(line@).len() <= 0x7fff_ffff,
    ensures
        r.deep_view() == spec_cut_line(
            spec_byte_units(encode_utf8(line@)),
            range.start as int,
            range.end as int,
            range.step as int,
            is_showing_complement,
        ),
{
    let bs = line.as_bytes_vec();
    let mut items: Vec<String> = Vec::new();
    let mut i: usize = 0;
    while i < bs.len()
        invariant
            i <= bs@.len(),
            bs@ == encode_utf8(line@),
            items.deep_view() =~= spec_byte_units(bs@).take(i as int),
        decreases bs@.len() - i,
    {
        let ghost old_dv = items.deep_view();
        items.push(handle_bytes(bs[i]));
        proof {
            assert(items.deep_view() =~= old_dv.push(byte_unit(bs@[i as int])));
            assert(items.deep_view() =~= spec_byte_units(bs@).take(i + 1));
        }
        i = i + 1;
    }
    proof {
        assert(spec_byte_units(bs@).take(bs@.len() as int) =~= spec_byte_units(bs@));
        assert(items.deep_view() == spec_byte_units(encode_utf8(line@)));
    }
    let n = bs.len() as i32;
    cut_line(items, range, n, is_showing_complement)
}

/// Cut a line by its characters: one unit per Unicode scalar value.
pub fn cut_line_with_characters(line: &str, range: Range, is_showing_complement: bool) -> (r: Vec<
    String,
>)
    requires
        line@.len() <= 0x7fff_ffff,
    ensures
        r.deep_view() == spec_cut_line(
            spec_char_units(line@),
            range.start as int,
            range.end as int,
            range.step as int,
            is_showing_complement,
        ),
{
    let cs = chars_of(line);
    let mut items: Vec<String> = Vec::new();
    let mut i: usize = 0;
    while i < cs.len()
        invariant
            i <= cs@.len(),
            cs@ == line@,
            items.deep_view() =~= spec_char_units(cs@).take(i as int),
        decreases cs@.len() - i,
    {
        let ghost old_dv = items.deep_view();
        let mut unit = String::new();
        push_char(&mut unit, cs[i]);
        proof {
            assert(unit@ =~= seq![cs@[i as int]]);
        }
        items.push(unit);
        proof {
            assert(items.deep_view() =~= old_dv.push(seq![cs@[i as int]]));
            assert(items.deep_view() =~= spec_char_units(cs@).take(i + 1));
        }
        i = i + 1;
    }
    proof {
        assert(spec_char_units(cs@).take(cs@.len() as int) =~= spec_char_units(cs@));
        assert(items.deep_view() == spec_char_units(line@));
    }
    let n = cs.len() as i32;
    cut_line(items, range, n, is_showing_complement)
}

} // verus!
