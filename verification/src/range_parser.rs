//! The `start:end:step` range grammar.
//!
//! A range token holds up to three colon-separated components.  A missing
//! `start` defaults to `0`, a missing `end` to the current sequence length
//! `n`, and a missing `step` to `1`; a bare number `K` abbreviates the
//! one-unit range `K:K+1:1`.  Because the default for `end` is `n`, parsing
//! is relative to a sequence length and must be redone for every line.
//!
//! A spec string holds one or more range tokens separated by commas; if any
//! token is invalid the whole spec is rejected with a single generic error.

use crate::numbers::parse_i32;
use crate::numbers::spec_parse_i32;
use crate::text::chars_of;
use crate::text::spec_split;
use crate::text::split_chars;
use vstd::prelude::*;

verus! {

/// A range: a `start` and an exclusive `end`, both possibly counted back
/// from the end of the sequence, walked with the given `step`.
#[derive(Debug, PartialEq, Eq, Structural, Clone, Copy)]
pub struct Range {
    pub start: i32,
    pub end: i32,
    pub step: i32,
}

impl View for Range {
    type V = (int, int, int);

    open spec fn view(&self) -> (int, int, int) {
        (self.start as int, self.end as int, self.step as int)
    }
}

impl DeepView for Range {
    type V = (int, int, int);

    open spec fn deep_view(&self) -> (int, int, int) {
        self.view()
    }
}

impl Range {
    /// Create a new range with the given start, end and step.
    pub fn new(start: i32, end: i32, step: i32) -> (r: Self)
        ensures
            r@ == (start as int, end as int, step as int),
    {
        Range { start, end, step }
    }

    /// The range as a `(start, end, step)` tuple.
    pub fn to_tuple(self) -> (t: (i32, i32, i32))
        ensures
            t.0 == self.start,
            t.1 == self.end,
            t.2 == self.step,
    {
        (self.start, self.end, self.step)
    }
}

/// The one error message every malformed range spec collapses to.
pub open spec fn spec_invalid_range_msg() -> Seq<char> {
    "Invalid range"@
}

/// The value of one component of a range token: an empty component falls
/// back to the given default, anything else must be a signed number.
pub open spec fn spec_parse_item(s: Seq<char>, default: int) -> Option<int> {
    if s.len() == 0 {
        Some(default)
    } else {
        spec_parse_i32(s)
    }
}

/// The `(start, end, step)` denoted by one range token against length `n`,
/// or `None` for an empty token, more than two colons, a component that is
/// not a number, or a bare `start` whose implicit `end` would not fit.
pub open spec fn spec_parse_single_range(s: Seq<char>, n: int) -> Option<(int, int, int)> {
    let groups = spec_split(s, seq![':']);
    if s.len() == 0 || groups.len() > 3 {
        None
    } else {
        let start_o = spec_parse_item(groups[0], 0);
        let end_o = if groups.len() >= 2 {
            spec_parse_item(groups[1], n)
        } else {
            match start_o {
                Some(v) => if v < 0x7fff_ffff {
                    Some(v + 1)
                } else {
                    None
                },
                None => None,
            }
        };
        let step_o = if groups.len() == 3 {
            spec_parse_item(groups[2], 1)
        } else {
            Some(1)
        };
        match (start_o, end_o, step_o) {
            (Some(a), Some(b), Some(c)) => Some((a, b, c)),
            _ => None,
        }
    }
}

/// Every comma-separated token of the spec string is a valid range token.
pub open spec fn all_tokens_parse(tokens: Seq<Seq<char>>, n: int) -> bool {
    forall|i: int|
        0 <= i < tokens.len() ==> (#[trigger] spec_parse_single_range(tokens[i], n)) is Some
}

/// The ranges denoted by a whole spec string against length `n`, in the
/// order they were written, or `None` if any token is invalid.
pub open spec fn spec_parse_range(s: Seq<char>, n: int) -> Option<Seq<(int, int, int)>> {
    let tokens = spec_split(s, seq![',']);
    if all_tokens_parse(tokens, n) {
        Some(Seq::new(tokens.len(), |i: int| spec_parse_single_range(tokens[i], n).unwrap()))
    } else {
        None
    }
}

/// The canonical `start:end:step` text of a range.
pub open spec fn spec_format_range(start: int, end: int, step: int) -> Seq<char> {
    crate::numbers::spec_format_i32(start) + seq![':'] + crate::numbers::spec_format_i32(end)
        + seq![':'] + crate::numbers::spec_format_i32(step)
}

/// Formatting a range and parsing the text back yields the very same
/// `(start, end, step)` triple, whatever sequence length it is parsed
/// against: the canonical text never leans on a default.
pub proof fn lemma_format_parse_round_trip(start: int, end: int, step: int, n: int)
    requires
        -0x8000_0000 <= start <= 0x7fff_ffff,
        -0x8000_0000 <= end <= 0x7fff_ffff,
        -0x8000_0000 <= step <= 0x7fff_ffff,
    ensures
        spec_parse_single_range(spec_format_range(start, end, step), n) == Some(
            (start, end, step),
        ),
{
    let a = crate::numbers::spec_format_i32(start);
    let b = crate::numbers::spec_format_i32(end);
    let c = crate::numbers::spec_format_i32(step);
    let s = spec_format_range(start, end, step);
    crate::numbers::lemma_format_parses(start);
    crate::numbers::lemma_format_parses(end);
    crate::numbers::lemma_format_parses(step);
    crate::text::lemma_split_three(a, b, c, ':');
    let groups = spec_split(s, seq![':']);
    assert(groups == seq![a, b, c]);
    assert(groups.len() == 3);
    assert(groups[0] == a && groups[1] == b && groups[2] == c);
    assert(s.len() > 0);
    assert(spec_parse_item(groups[0], 0) == Some(start));
    assert(spec_parse_item(groups[1], n) == Some(end));
    assert(spec_parse_item(groups[2], 1) == Some(step));
}

/// The canonical `start:end:step` text of a range.
pub fn format_range(range: &Range) -> (r: String)
    ensures
        r@ == spec_format_range(range.start as int, range.end as int, range.step as int),
{
    let mut s = crate::numbers::format_i32(range.start);
    crate::text::push_char(&mut s, ':');
    let end_text = crate::numbers::format_i32(range.end);
    s.append(end_text.as_str());
    crate::text::push_char(&mut s, ':');
    let step_text = crate::numbers::format_i32(range.step);
    s.append(step_text.as_str());
    proof {
        assert(s@ =~= spec_format_range(range.start as int, range.end as int, range.step as int));
    }
    s
}

/// The error value returned for every malformed range spec.
fn invalid_range_error() -> (e: String)
    ensures
        e@ == spec_invalid_range_msg(),
{
    String::from_str("Invalid range")
}

/// One component of a range token, with its default for when it is empty.
fn parse_item(s: &Vec<char>, default: i32) -> (r: Option<i32>)
    ensures
        match r {
            Some(v) => spec_parse_item(s@, default as int) == Some(v as int),
            None => spec_parse_item(s@, default as int) is None,
        },
{
    if s.len() == 0 {
        Some(default)
    } else {
        parse_i32(s)
    }
}

/// One range token, parsed against the sequence length `n`.
fn parse_single_range_chars(v: &Vec<char>, n: usize) -> (r: Option<Range>)
    requires
        n <= 0x7fff_ffff,
    ensures
        match r {
            Some(rg) => spec_parse_single_range(v@, n as int) == Some(rg@),
            None => spec_parse_single_range(v@, n as int) is None,
        },
{
    if v.len() == 0 {
        return None;
    }
    let mut colon: Vec<char> = Vec::new();
    colon.push(':');
    proof {
        assert(colon@ =~= seq![':']);
    }
    let groups = split_chars(v, &colon);
    let ghost sgroups = spec_split(v@, seq![':']);
    proof {
        assert(groups.deep_view() == sgroups);
        assert(groups@.len() == sgroups.len());
    }
    if groups.len() > 3 {
        return None;
    }
    proof {
        crate::text::lemma_split_from_len(v@, seq![':'], 0);
        crate::text::lemma_chars_deep_view(&groups@[0]);
        assert(groups@[0]@ =~= sgroups[0]);
    }
    let parsed_start = parse_item(&groups[0], 0);
    let parsed_end: Option<i32> = if groups.len() >= 2 {
        proof {
            crate::text::lemma_chars_deep_view(&groups@[1]);
            assert(groups@[1]@ =~= sgroups[1]);
        }
        parse_item(&groups[1], n as i32)
    } else {
        match parsed_start {
            Some(s) => if s < 0x7fff_ffff {
                Some(s + 1)
            } else {
                None
            },
            None => None,
        }
    };
    let parsed_step: Option<i32> = if groups.len() == 3 {
        proof {
            crate::text::lemma_chars_deep_view(&groups@[2]);
            assert(groups@[2]@ =~= sgroups[2]);
        }
        parse_item(&groups[2], 1)
    } else {
        Some(1)
    };
    match (parsed_start, parsed_end, parsed_step) {
        (Some(start), Some(end), Some(step)) => Some(Range::new(start, end, step)),
        _ => None,
    }
}

/// One range token, parsed against the sequence length `n`; the error is the
/// one fixed message of [`spec_invalid_range_msg`].
pub fn parse_single_range(field: &str, n: usize) -> (r: Result<Range, String>)
    requires
        n <= 0x7fff_ffff,
    ensures
        match r {
            Ok(rg) => spec_parse_single_range(field@, n as int) == Some(rg@),
            Err(e) => spec_parse_single_range(field@, n as int) is None && e@
                == spec_invalid_range_msg(),
        },
{
    let v = chars_of(field);
    match parse_single_range_chars(&v, n) {
        Some(rg) => Ok(rg),
        None => Err(invalid_range_error()),
    }
}

/// Parse a whole spec string: the comma-separated range tokens in written
/// order, or the one fixed error message if any token is invalid.
pub fn parse_range(input: &str, n: usize) -> (r: Result<Vec<Range>, String>)
    requires
        n <= 0x7fff_ffff,
    ensures
        match r {
            Ok(ranges) => spec_parse_range(input@, n as int) == Some(ranges.deep_view()),
            Err(e) => spec_parse_range(input@, n as int) is None && e@
                == spec_invalid_range_msg(),
        },
{
    let v = chars_of(input);
    let mut comma: Vec<char> = Vec::new();
    comma.push(',');
    proof {
        assert(comma@ =~= seq![',']);
    }
    let tokens = split_chars(&v, &comma);
    let ghost stokens = spec_split(input@, seq![',']);
    proof {
        assert(tokens.deep_view() == stokens);
    }
    let mut result: Vec<Range> = Vec::new();
    let mut i: usize = 0;
    while i < tokens.len()
        invariant
            i <= tokens@.len(),
            n <= 0x7fff_ffff,
            stokens == spec_split(input@, seq![',']),
            tokens.deep_view() == stokens,
            tokens@.len() == stokens.len(),
            result@.len() == i as int,
            forall|k: int|
                0 <= k < i ==> (#[trigger] spec_parse_single_range(stokens[k], n as int))
                    == Some(result@[k]@),
        decreases tokens@.len() - i,
    {
        proof {
            crate::text::lemma_chars_deep_view(&tokens@[i as int]);
            assert(tokens@[i as int]@ =~= stokens[i as int]);
        }
        match parse_single_range_chars(&tokens[i], n) {
            Some(rg) => {
                result.push(rg);
            },
            None => {
                assert(!all_tokens_parse(stokens, n as int));
                return Err(invalid_range_error());
            },
        }
        i = i + 1;
    }
    proof {
        assert(all_tokens_parse(stokens, n as int));
        assert(result.deep_view() =~= Seq::new(
            stokens.len(),
            |k: int| spec_parse_single_range(stokens[k], n as int).unwrap(),
        ));
    }
    Ok(result)
}

} // verus!
