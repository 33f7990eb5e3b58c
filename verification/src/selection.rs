//! Which zero-based indices of a sequence of `n` units a `(start, end, step)`
//! range selects.
//!
//! A negative bound counts back from the end of the sequence: it is resolved
//! to `n + bound` once `n` is known.  The selector then works in unsigned
//! machine words, so a resolved bound that is still negative wraps around and
//! lies above every index of the sequence; [`empty_interval`] and
//! [`sel_contains`] spell out the consequences of that comparison.

use vstd::prelude::*;

verus! {

/// A range bound resolved against the sequence length `n`: non-negative
/// bounds index from the front, negative ones count back from the end.
pub open spec fn resolved(index: int, n: int) -> int {
    if index >= 0 {
        index
    } else {
        n + index
    }
}

/// Whether the half-open interval from `rs` to `re` is empty, with the two
/// resolved bounds compared as unsigned machine words: a negative resolved
/// bound wraps around and compares above every non-negative one.
pub open spec fn empty_interval(rs: int, re: int) -> bool {
    if (rs < 0) == (re < 0) {
        rs >= re
    } else {
        rs < 0
    }
}

/// The bounds check applied outside complement mode: `start` must point at a
/// unit, and `end` must be a usable exclusive bound (in particular not `0`,
/// which could never lie to the right of a selected unit).
pub open spec fn in_bounds(start: int, end: int, n: int) -> bool {
    &&& -n <= start < n
    &&& -n <= end <= n
    &&& end != 0
}

/// The distance walked between selected indices: the magnitude of `step`.
/// The sign of `step` only reverses the output order, never the selection.
pub open spec fn step_stride(step: int) -> int {
    if step >= 0 {
        step
    } else {
        -step
    }
}

/// Index `i` is selected: it lies in the resolved half-open interval (read in
/// unsigned machine words, so a wrapped-around start selects nothing below
/// it, and a wrapped-around end caps the interval only at `n`), and its
/// distance from the resolved start is a multiple of the stride.
pub open spec fn sel_contains(start: int, end: int, step: int, n: int, i: int) -> bool {
    let rs = resolved(start, n);
    let re = resolved(end, n);
    &&& step != 0
    &&& !empty_interval(rs, re)
    &&& 0 <= i < n
    &&& 0 <= rs <= i
    &&& (re < 0 || i < re)
    &&& (i - rs) % step_stride(step) == 0
}

/// The set of unit indices a range selects from a sequence of `n` units.
pub open spec fn select_indices(start: int, end: int, step: int, n: int) -> Set<int> {
    Set::new(|i: int| sel_contains(start, end, step, n, i))
}

/// The indices of `[0, n)` that are not in `s`.
pub open spec fn complement_of(s: Set<int>, n: int) -> Set<int> {
    Set::new(|i: int| 0 <= i < n && !s.contains(i))
}

/// A step of zero selects nothing, whatever the bounds and the length.
pub proof fn lemma_step_zero_selects_nothing(start: int, end: int, n: int)
    ensures
        select_indices(start, end, 0, n) == Set::<int>::empty(),
{
    assert(select_indices(start, end, 0, n) =~= Set::<int>::empty());
}

/// A unit-step range with `0 <= start < end <= n` selects exactly the
/// indices from `start` up to but excluding `end`.
pub proof fn lemma_unit_step_selects_interval(start: int, end: int, n: int)
    requires
        0 <= start < end <= n,
    ensures
        select_indices(start, end, 1, n) == Set::new(|i: int| start <= i < end),
{
    assert(select_indices(start, end, 1, n) =~= Set::new(|i: int| start <= i < end));
}

/// Negative bounds are nothing but shorthand: counting `k` and `j` back from
/// the end selects the same indices as writing `n - k` and `n - j` directly.
pub proof fn lemma_negative_indices_normalize(k: int, j: int, n: int)
    requires
        0 < j < k <= n,
    ensures
        select_indices(-k, -j, 1, n) == select_indices(n - k, n - j, 1, n),
{
    assert(select_indices(-k, -j, 1, n) =~= select_indices(n - k, n - j, 1, n));
}

/// The sign of the step never changes which indices are selected; it only
/// decides whether the assembled output is reversed.
pub proof fn lemma_step_sign_irrelevant(start: int, end: int, step: int, n: int)
    requires
        step != 0,
    ensures
        select_indices(start, end, step, n) == select_indices(start, end, -step, n),
{
    assert(select_indices(start, end, step, n) =~= select_indices(start, end, -step, n));
}

/// Complementing a selection twice gives back the selection itself, on every
/// index a sequence of `n` units has.
pub proof fn lemma_complement_involutive(start: int, end: int, step: int, n: int)
    ensures
        complement_of(complement_of(select_indices(start, end, step, n), n), n)
            == select_indices(start, end, step, n),
{
    assert(complement_of(complement_of(select_indices(start, end, step, n), n), n)
        =~= select_indices(start, end, step, n));
}

/// Whether index `i` is selected, decided exactly as [`sel_contains`] reads.
pub fn index_selected(start: i32, end: i32, step: i32, n: i32, i: i32) -> (r: bool)
    requires
        n >= 0,
        0 <= i < n,
        step != 0,
    ensures
        r == sel_contains(start as int, end as int, step as int, n as int, i as int),
{
    let rs: i32 = if start >= 0 {
        start
    } else {
        n + start
    };
    let re: i32 = if end >= 0 {
        end
    } else {
        n + end
    };
    let empty = if (rs < 0) == (re < 0) {
        rs >= re
    } else {
        rs < 0
    };
    if empty {
        return false;
    }
    if !(0 <= rs && rs <= i) {
        return false;
    }
    if !(re < 0 || i < re) {
        return false;
    }
    let stride: i64 = if step < 0 {
        -(step as i64)
    } else {
        step as i64
    };
    let diff: u64 = (i - rs) as u64;
    diff % (stride as u64) == 0
}

} // verus!
