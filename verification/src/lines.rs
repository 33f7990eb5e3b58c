//! Driving the cutter over whole lines: pick a segmentation mode, apply
//! every range of a parsed spec to one line, and process a batch of lines,
//! turning a malformed range spec into that line's output instead of an
//! error for the whole run.

use crate::cut::cut_line_with_bytes;
use crate::cut::cut_line_with_characters;
use crate::cut::cut_line_with_delimiter;
use crate::cut::spec_byte_units;
use crate::cut::spec_char_units;
use crate::cut::spec_cut_line;
use crate::range_parser::parse_range;
use crate::range_parser::spec_invalid_range_msg;
use crate::range_parser::spec_parse_range;
use crate::range_parser::Range;
use crate::text::chars_of;
use crate::text::contains_seq;
use crate::text::join_strings;
use crate::text::spec_find_from;
use crate::text::spec_join;
use crate::text::spec_split;
use crate::text::split_chars;
use vstd::prelude::*;
use vstd::string::StringSliceAdditionalSpecFns;
use vstd::utf8::encode_utf8;

verus! {

/// How a line is segmented into units before ranges are applied.
#[allow(non_camel_case_types)]
#[derive(Debug, Clone, Copy, PartialEq, Eq, Structural)]
pub enum CutType {
    BYTES,
    CHARACTERS,
    FIELDS,
}

/// Every Unicode scalar value takes at least one byte to encode.
pub proof fn lemma_encode_len(chars: Seq<char>)
    ensures
        encode_utf8(chars).len() >= chars.len(),
    decreases chars.len(),
{
    if chars.len() > 0 {
        lemma_encode_len(chars.drop_first());
    }
}

/// The units a line yields under the given segmentation mode.
pub open spec fn spec_units_for(cut_type: CutType, line: Seq<char>, delim: Seq<char>) -> Seq<
    Seq<char>,
> {
    match cut_type {
        CutType::BYTES => spec_byte_units(encode_utf8(line)),
        CutType::CHARACTERS => spec_char_units(line),
        CutType::FIELDS => spec_split(line, delim),
    }
}

/// One line's output: each range's kept units joined with the output
/// delimiter, and the per-range strings joined with it again.
pub open spec fn spec_cut_line_output(
    cut_type: CutType,
    ranges: Seq<(int, int, int)>,
    line: Seq<char>,
    delim: Seq<char>,
    out_delim: Seq<char>,
    complement: bool,
) -> Seq<char> {
    let units = spec_units_for(cut_type, line, delim);
    spec_join(
        Seq::new(
            ranges.len(),
            |i: int|
                spec_join(
                    spec_cut_line(units, ranges[i].0, ranges[i].1, ranges[i].2, complement),
                    out_delim,
                ),
        ),
        out_delim,
    )
}

/// What one line contributes to the run: nothing when field mode is asked
/// to keep only delimited lines and the line holds no delimiter; otherwise
/// the cut output, or the fixed error message if the spec does not parse
/// against this line's unit count.
pub open spec fn spec_process_line(
    cut_type: CutType,
    spec_str: Seq<char>,
    line: Seq<char>,
    delim: Seq<char>,
    out_delim: Seq<char>,
    only_delimited: bool,
    complement: bool,
) -> Option<Seq<char>> {
    if cut_type == CutType::FIELDS && only_delimited && spec_find_from(line, delim, 0) is None {
        None
    } else {
        let n = spec_units_for(cut_type, line, delim).len() as int;
        match spec_parse_range(spec_str, n) {
            Some(ranges) => Some(
                spec_cut_line_output(cut_type, ranges, line, delim, out_delim, complement),
            ),
            None => Some(spec_invalid_range_msg()),
        }
    }
}

/// The outputs of the first `k` lines, in order, skipped lines omitted.
pub open spec fn spec_outputs_upto(
    lines: Seq<Seq<char>>,
    cut_type: CutType,
    spec_str: Seq<char>,
    delim: Seq<char>,
    out_delim: Seq<char>,
    only_delimited: bool,
    complement: bool,
    k: int,
) -> Seq<Seq<char>>
    decreases k,
{
    if k <= 0 {
        Seq::empty()
    } else {
        let prev = spec_outputs_upto(
            lines,
            cut_type,
            spec_str,
            delim,
            out_delim,
            only_delimited,
            complement,
            k - 1,
        );
        match spec_process_line(
            cut_type,
            spec_str,
            lines[k - 1],
            delim,
            out_delim,
            only_delimited,
            complement,
        ) {
            Some(o) => prev.push(o),
            None => prev,
        }
    }
}

/// The outputs of a whole run: a trailing empty line is dropped first, then
/// every remaining line is processed independently.
pub open spec fn spec_cut_lines(
    lines: Seq<Seq<char>>,
    cut_type: CutType,
    spec_str: Seq<char>,
    delim: Seq<char>,
    out_delim: Seq<char>,
    only_delimited: bool,
    complement: bool,
) -> Seq<Seq<char>> {
    let trimmed = if lines.len() > 0 && lines.last().len() == 0 {
        lines.drop_last()
    } else {
        lines
    };
    spec_outputs_upto(
        trimmed,
        cut_type,
        spec_str,
        delim,
        out_delim,
        only_delimited,
        complement,
        trimmed.len() as int,
    )
}

/// Apply every range of a parsed spec to one line and join the results.
pub fn cut_line_output(
    cut_type: CutType,
    ranges: &Vec<Range>,
    line: &str,
    delimiter: &str,
    output_delimiter: &str,
    is_showing_complement: bool,
) -> (r: String)
    requires
        delimiter@.len() > 0,
        encode_utf8(line@).len() < 0x7fff_ffff,
    ensures
        r@ == spec_cut_line_output(
            cut_type,
            ranges.deep_view(),
            line@,
            delimiter@,
            output_delimiter@,
            is_showing_complement,
        ),
{
    proof {
        lemma_encode_len(line@);
    }
    let ghost units = spec_units_for(cut_type, line@, delimiter@);
    let mut parts: Vec<String> = Vec::new();
    let mut i: usize = 0;
    while i < ranges.len()
        invariant
            i <= ranges@.len(),
            delimiter@.len() > 0,
            encode_utf8(line@).len() < 0x7fff_ffff,
            line@.len() < 0x7fff_ffff,
            units == spec_units_for(cut_type, line@, delimiter@),
            parts.deep_view() =~= Seq::new(
                i as nat,
                |k: int|
                    spec_join(
                        spec_cut_line(
                            units,
                            ranges.deep_view()[k].0,
                            ranges.deep_view()[k].1,
                            ranges.deep_view()[k].2,
                            is_showing_complement,
                        ),
                        output_delimiter@,
                    ),
            ),
        decreases ranges@.len() - i,
    {
        let rg = ranges[i];
        let kept = match cut_type {
            CutType::BYTES => cut_line_with_bytes(line, rg, is_showing_complement),
            CutType::CHARACTERS => cut_line_with_characters(line, rg, is_showing_complement),
            CutType::FIELDS => cut_line_with_delimiter(
                line,
                rg,
                String::from_str(delimiter),
                is_showing_complement,
            ),
        };
        let ghost old_dv = parts.deep_view();
        parts.push(join_strings(&kept, output_delimiter));
        proof {
            assert(ranges.deep_view()[i as int] == ranges@[i as int]@);
            assert(parts.deep_view() =~= old_dv.push(
                spec_join(
                    spec_cut_line(
                        units,
                        ranges.deep_view()[i as int].0,
                        ranges.deep_view()[i as int].1,
                        ranges.deep_view()[i as int].2,
                        is_showing_complement,
                    ),
                    output_delimiter@,
                ),
            ));
        }
        i = i + 1;
    }
    proof {
        assert(parts.deep_view() =~= Seq::new(
            ranges.deep_view().len(),
            |k: int|
                spec_join(
                    spec_cut_line(
                        units,
                        ranges.deep_view()[k].0,
                        ranges.deep_view()[k].1,
                        ranges.deep_view()[k].2,
                        is_showing_complement,
                    ),
                    output_delimiter@,
                ),
        ));
    }
    join_strings(&parts, output_delimiter)
}

/// The number of units the line yields under the given mode.
fn unit_count(cut_type: CutType, line: &str, delimiter: &str) -> (n: usize)
    requires
        delimiter@.len() > 0,
        encode_utf8(line@).len() < 0x7fff_ffff,
    ensures
        n == spec_units_for(cut_type, line@, delimiter@).len(),
        n <= 0x7fff_ffff,
{
    proof {
        lemma_encode_len(line@);
        assert(line.spec_bytes() == encode_utf8(line@));
    }
    match cut_type {
        CutType::BYTES => {
            let n = line.len();
            proof {
                assert(line.spec_bytes().len() < 0x7fff_ffff);
                assert(n == line.spec_bytes().len());
            }
            n
        },
        CutType::CHARACTERS => line.unicode_len(),
        CutType::FIELDS => {
            let lv = chars_of(line);
            let dv = chars_of(delimiter);
            let pieces = split_chars(&lv, &dv);
            proof {
                crate::text::lemma_split_from_count(line@, delimiter@, 0);
                assert(pieces.deep_view().len() == spec_split(line@, delimiter@).len());
            }
            pieces.len()
        },
    }
}

/// Process a batch of lines: drop one trailing empty line, honour the
/// only-delimited filter in field mode, parse the spec against each line's
/// own unit count, and collect one output string per processed line — the
/// fixed error message where the spec does not parse for that line.
pub fn cut_lines(
    lines: &Vec<String>,
    cut_type: CutType,
    fields: &str,
    is_showing_only_delimited: bool,
    delimiter: &str,
    output_delimiter: &str,
    is_showing_complement: bool,
) -> (r: Vec<String>)
    requires
        delimiter@.len() > 0,
        forall|i: int|
            0 <= i < lines@.len() ==> (#[trigger] encode_utf8(lines@[i]@)).len() < 0x7fff_ffff,
    ensures
        r.deep_view() == spec_cut_lines(
            lines.deep_view(),
            cut_type,
            fields@,
            delimiter@,
            output_delimiter@,
            is_showing_only_delimited,
            is_showing_complement,
        ),
{
    let ghost all = lines.deep_view();
    let mut m = lines.len();
    if m > 0 && lines[m - 1].as_str().is_empty() {
        m = m - 1;
    }
    let ghost trimmed = all.take(m as int);
    proof {
        if lines@.len() > 0 && all.last().len() == 0 {
            assert(trimmed =~= all.drop_last());
        } else {
            assert(trimmed =~= all);
        }
    }
    let dv = chars_of(delimiter);
    let mut out: Vec<String> = Vec::new();
    let mut i: usize = 0;
    while i < m
        invariant
            i <= m <= lines@.len(),
            all == lines.deep_view(),
            trimmed == all.take(m as int),
            dv@ == delimiter@,
            delimiter@.len() > 0,
            forall|k: int|
                0 <= k < lines@.len() ==> (#[trigger] encode_utf8(lines@[k]@)).len() < 0x7fff_ffff,
            out.deep_view() == spec_outputs_upto(
                trimmed,
                cut_type,
                fields@,
                delimiter@,
                output_delimiter@,
                is_showing_only_delimited,
                is_showing_complement,
                i as int,
            ),
        decreases m - i,
    {
        let line = &lines[i];
        proof {
            assert(trimmed[i as int] == lines@[i as int]@);
        }
        let mut skip = false;
        if cut_type == CutType::FIELDS && is_showing_only_delimited {
            let lv = chars_of(line.as_str());
            if !contains_seq(&lv, &dv) {
                skip = true;
            }
        }
        if !skip {
            let n = unit_count(cut_type, line.as_str(), delimiter);
            let output = match parse_range(fields, n) {
                Ok(ranges) => cut_line_output(
                    cut_type,
                    &ranges,
                    line.as_str(),
                    delimiter,
                    output_delimiter,
                    is_showing_complement,
                ),
                Err(message) => message,
            };
            let ghost old_dv = out.deep_view();
            out.push(output);
            proof {
                assert(out.deep_view() =~= old_dv.push(
                    spec_process_line(
                        cut_type,
                        fields@,
                        trimmed[i as int],
                        delimiter@,
                        output_delimiter@,
                        is_showing_only_delimited,
                        is_showing_complement,
                    ).unwrap(),
                ));
            }
        }
        i = i + 1;
    }
    proof {
        assert(trimmed.len() == m as int);
    }
    out
}

} // verus!
