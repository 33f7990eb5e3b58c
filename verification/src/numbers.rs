//! Decimal parsing and formatting for the signed 32-bit numbers that appear
//! in a range specification: an optional leading `-` followed by decimal
//! digits, nothing else.

use vstd::prelude::*;

verus! {

/// The numeric value of a decimal digit character, `None` for any other character.
pub open spec fn digit_of(c: char) -> Option<int> {
    if c == '0' {
        Some(0)
    } else if c == '1' {
        Some(1)
    } else if c == '2' {
        Some(2)
    } else if c == '3' {
        Some(3)
    } else if c == '4' {
        Some(4)
    } else if c == '5' {
        Some(5)
    } else if c == '6' {
        Some(6)
    } else if c == '7' {
        Some(7)
    } else if c == '8' {
        Some(8)
    } else if c == '9' {
        Some(9)
    } else {
        None
    }
}

pub open spec fn is_digit(c: char) -> bool {
    digit_of(c) is Some
}

pub open spec fn all_digits(s: Seq<char>) -> bool {
    forall|i: int| 0 <= i < s.len() ==> is_digit(#[trigger] s[i])
}

/// The value of a sequence of decimal digits, most significant first.
pub open spec fn digits_val(s: Seq<char>) -> int
    decreases s.len(),
{
    if s.len() == 0 {
        0
    } else {
        digits_val(s.drop_last()) * 10 + digit_of(s.last()).unwrap_or(0)
    }
}

/// The value denoted by a whole token: an optional `-` sign, then at least
/// one digit, and the value must fit in an `i32`.  Anything else is `None`.
pub open spec fn spec_parse_i32(s: Seq<char>) -> Option<int> {
    if s.len() > 0 && s[0] == '-' {
        let mag = s.subrange(1, s.len() as int);
        if mag.len() > 0 && all_digits(mag) && digits_val(mag) <= 0x8000_0000 {
            Some(-digits_val(mag))
        } else {
            None
        }
    } else if s.len() > 0 && all_digits(s) && digits_val(s) <= 0x7fff_ffff {
        Some(digits_val(s))
    } else {
        None
    }
}

pub proof fn lemma_digits_val_nonneg(s: Seq<char>)
    requires
        all_digits(s),
    ensures
        digits_val(s) >= 0,
    decreases s.len(),
{
    if s.len() > 0 {
        assert(all_digits(s.drop_last()));
        lemma_digits_val_nonneg(s.drop_last());
    }
}

/// Reading more digits can only increase the value.
pub proof fn lemma_digits_val_prefix(s: Seq<char>, k: int)
    requires
        all_digits(s),
        0 <= k <= s.len(),
    ensures
        digits_val(s.take(k)) <= digits_val(s),
    decreases s.len(),
{
    if k < s.len() {
        assert(all_digits(s.drop_last()));
        assert(s.take(k) =~= s.drop_last().take(k));
        lemma_digits_val_prefix(s.drop_last(), k);
        lemma_digits_val_nonneg(s.drop_last());
    } else {
        assert(s.take(k) =~= s);
    }
}

/// The decimal digit character with value `d`.
pub open spec fn digit_char(d: int) -> char {
    if d == 0 {
        '0'
    } else if d == 1 {
        '1'
    } else if d == 2 {
        '2'
    } else if d == 3 {
        '3'
    } else if d == 4 {
        '4'
    } else if d == 5 {
        '5'
    } else if d == 6 {
        '6'
    } else if d == 7 {
        '7'
    } else if d == 8 {
        '8'
    } else {
        '9'
    }
}

/// The decimal digits of a non-negative value, most significant first,
/// without leading zeros (a lone `0` for zero).
pub open spec fn spec_format_nat(v: int) -> Seq<char>
    decreases v,
{
    if v < 10 {
        seq![digit_char(v)]
    } else {
        spec_format_nat(v / 10).push(digit_char(v % 10))
    }
}

/// The decimal form of a signed value: a `-` sign for negative values, then
/// the digits of the magnitude.
pub open spec fn spec_format_i32(v: int) -> Seq<char> {
    if v < 0 {
        seq!['-'] + spec_format_nat(-v)
    } else {
        spec_format_nat(v)
    }
}

/// Formatting a non-negative value gives at least one digit, digits only,
/// and they denote the value itself.
pub proof fn lemma_format_nat_digits(v: int)
    requires
        0 <= v,
    ensures
        spec_format_nat(v).len() >= 1,
        all_digits(spec_format_nat(v)),
        digits_val(spec_format_nat(v)) == v,
    decreases v,
{
    if v < 10 {
        let s = spec_format_nat(v);
        assert(s.drop_last() =~= Seq::<char>::empty());
        assert(s.last() == digit_char(v));
        assert(digit_of(digit_char(v)) == Some(v));
        assert(digits_val(s) == digits_val(s.drop_last()) * 10 + digit_of(s.last()).unwrap_or(0));
    } else {
        lemma_format_nat_digits(v / 10);
        let s = spec_format_nat(v);
        assert(s.drop_last() =~= spec_format_nat(v / 10));
        assert(s.last() == digit_char(v % 10));
        assert(digit_of(digit_char(v % 10)) == Some(v % 10));
        assert(digits_val(s) == digits_val(s.drop_last()) * 10 + digit_of(s.last()).unwrap_or(0));
        assert(digits_val(s) == (v / 10) * 10 + (v % 10));
        assert((v / 10) * 10 + (v % 10) == v);
    }
}

/// Formatting a value that fits in an `i32` and parsing the result gives
/// back the value; and the formatted text never holds a `:` or a `,`, so it
/// survives embedding in a larger range spec.
pub proof fn lemma_format_parses(v: int)
    requires
        -0x8000_0000 <= v <= 0x7fff_ffff,
    ensures
        spec_parse_i32(spec_format_i32(v)) == Some(v),
        spec_format_i32(v).len() >= 1,
        forall|k: int|
            0 <= k < spec_format_i32(v).len() ==> #[trigger] spec_format_i32(v)[k] != ':'
                && spec_format_i32(v)[k] != ',',
{
    let s = spec_format_i32(v);
    if v < 0 {
        lemma_format_nat_digits(-v);
        let mag = spec_format_nat(-v);
        assert(s[0] == '-');
        assert(s.subrange(1, s.len() as int) =~= mag);
        assert forall|k: int| 0 <= k < s.len() implies s[k] != ':' && s[k] != ',' by {
            if k > 0 {
                assert(is_digit(mag[k - 1]));
            }
        }
    } else {
        lemma_format_nat_digits(v);
        assert(is_digit(s[0]));
        assert(s[0] != '-');
        assert forall|k: int| 0 <= k < s.len() implies s[k] != ':' && s[k] != ',' by {
            assert(is_digit(s[k]));
        }
    }
}

/// The decimal digit character with value `d`.
fn digit_char_of(d: u8) -> (c: char)
    requires
        d < 10,
    ensures
        c == digit_char(d as int),
{
    match d {
        0 => '0',
        1 => '1',
        2 => '2',
        3 => '3',
        4 => '4',
        5 => '5',
        6 => '6',
        7 => '7',
        8 => '8',
        _ => '9',
    }
}

/// Append the decimal digits of `m` to `s`.
fn push_format_nat(s: &mut String, m: u32)
    ensures
        final(s)@ == old(s)@ + spec_format_nat(m as int),
    decreases m,
{
    if m < 10 {
        crate::text::push_char(s, digit_char_of(m as u8));
        proof {
            assert(s@ =~= old(s)@ + spec_format_nat(m as int));
        }
    } else {
        push_format_nat(s, m / 10);
        crate::text::push_char(s, digit_char_of((m % 10) as u8));
        proof {
            assert(s@ =~= old(s)@ + spec_format_nat(m as int));
        }
    }
}

/// The decimal form of `v`: an optional `-` sign, then the digits of the
/// magnitude without leading zeros.
pub fn format_i32(v: i32) -> (r: String)
    ensures
        r@ == spec_format_i32(v as int),
{
    let mut s = String::new();
    if v < 0 {
        crate::text::push_char(&mut s, '-');
        let m: u32 = if v == i32::MIN {
            0x8000_0000
        } else {
            (-v) as u32
        };
        push_format_nat(&mut s, m);
        proof {
            assert(s@ =~= seq!['-'] + spec_format_nat(m as int));
        }
    } else {
        push_format_nat(&mut s, v as u32);
        proof {
            assert(s@ =~= spec_format_nat(v as int));
        }
    }
    s
}

/// The numeric value of a decimal digit character, `None` for any other character.
pub fn digit_value(c: char) -> (r: Option<u8>)
    ensures
        match r {
            Some(d) => digit_of(c) == Some(d as int),
            None => digit_of(c) is None,
        },
{
    match c {
        '0' => Some(0),
        '1' => Some(1),
        '2' => Some(2),
        '3' => Some(3),
        '4' => Some(4),
        '5' => Some(5),
        '6' => Some(6),
        '7' => Some(7),
        '8' => Some(8),
        '9' => Some(9),
        _ => None,
    }
}

/// Parse a token as a signed 32-bit number: an optional leading `-`, then
/// decimal digits only; rejects the empty token, a bare `-`, stray
/// characters, and values outside the `i32` range.
pub fn parse_i32(s: &Vec<char>) -> (r: Option<i32>)
    ensures
        match r {
            Some(v) => spec_parse_i32(s@) == Some(v as int),
            None => spec_parse_i32(s@) is None,
        },
{
    let n = s.len();
    if n == 0 {
        return None;
    }
    let neg = s[0] == '-';
    let start: usize = if neg { 1 } else { 0 };
    if start == n {
        // a bare "-"
        return None;
    }
    let ghost mag = s@.subrange(start as int, n as int);
    proof {
        if !neg {
            assert(mag =~= s@);
        }
    }
    let mut acc: u64 = 0;
    let mut i: usize = start;
    while i < n
        invariant
            start <= i <= n,
            n == s@.len(),
            neg <==> start == 1,
            neg ==> s@[0] == '-' && mag == s@.subrange(1, s@.len() as int),
            !neg ==> start == 0 && s@.len() > 0 && s@[0] != '-' && mag == s@,
            mag.len() > 0,
            all_digits(mag.take(i - start)),
            acc == digits_val(mag.take(i - start)),
            acc <= 0x8000_0000,
        decreases n - i,
    {
        let d = match digit_value(s[i]) {
            Some(d) => d,
            None => {
                // a non-digit makes the whole token invalid
                assert(!is_digit(mag[i - start]));
                return None;
            },
        };
        let next: u64 = acc * 10 + d as u64;
        proof {
            assert(mag.take(i + 1 - start).drop_last() =~= mag.take(i - start));
            assert(mag.take(i + 1 - start).last() == mag[i - start]);
        }
        if next > 0x8000_0000 {
            // the value can only grow from here, so it cannot fit in an i32
            proof {
                if all_digits(mag) {
                    lemma_digits_val_prefix(mag, i + 1 - start);
                }
            }
            return None;
        }
        acc = next;
        i = i + 1;
    }
    proof {
        assert(mag.take(n - start) =~= mag);
    }
    if neg {
        if acc == 0x8000_0000 {
            Some(i32::MIN)
        } else {
            Some(-(acc as i32))
        }
    } else {
        if acc <= 0x7fff_ffff {
            Some(acc as i32)
        } else {
            // 0x8000_0000 is one past i32::MAX
            None
        }
    }
}

} // verus!
