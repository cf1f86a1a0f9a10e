//! The delimiter-balance matcher.
//!
//! Called on a slice of neutralized text positioned just after an
//! already-consumed open delimiter (so the nesting depth starts at one), it
//! returns the offset one past the close delimiter that brings the depth
//! back to zero, or reports the input unbalanced.

use vstd::prelude::*;

use crate::types::ParseError;

verus! {

/// The nesting depth after the first `n` bytes of `s`, starting from depth
/// one: each `open` increments, each `close` decrements.
pub open spec fn depth_after(s: Seq<u8>, open: u8, close: u8, n: int) -> int
    decreases n,
{
    if n <= 0 {
        1
    } else {
        depth_after(s, open, close, n - 1) + (if s[n - 1] == open {
            1int
        } else if s[n - 1] == close {
            -1int
        } else {
            0int
        })
    }
}

/// The first `n` (from `m` upward) at which the depth reaches zero, if any.
pub open spec fn first_balance_from(s: Seq<u8>, open: u8, close: u8, m: int) -> Option<int>
    decreases s.len() - m,
{
    if !(0 <= m <= s.len()) {
        None
    } else if depth_after(s, open, close, m) == 0 {
        Some(m)
    } else if m == s.len() {
        None
    } else {
        first_balance_from(s, open, close, m + 1)
    }
}

/// The number of bytes consumed up to and including the close delimiter
/// paired with the open delimiter consumed just before `s`; `None` when `s`
/// is exhausted first.
pub open spec fn balance_point(s: Seq<u8>, open: u8, close: u8) -> Option<int> {
    first_balance_from(s, open, close, 0)
}

/// Find the close delimiter matching the open delimiter consumed just
/// before `text`: scan forward keeping a nesting depth that starts at one,
/// and return the offset one past the byte that brings it to zero.  Returns
/// `Unbalanced` exactly when the depth never reaches zero.
pub fn find_match(text: &[u8], open: u8, close: u8) -> (r: Result<usize, ParseError>)
    requires
        text@.len() < usize::MAX,
    ensures
        r matches Ok(j) ==> balance_point(text@, open, close) == Some(j as int),
        r is Err ==> balance_point(text@, open, close) is None && r == Err::<
            usize,
            ParseError,
        >(ParseError::Unbalanced),
        r matches Ok(j) ==> 1 <= j <= text@.len() && depth_after(text@, open, close, j as int)
            == 0 && forall|m: int| 0 <= m < j ==> depth_after(text@, open, close, m) != 0,
{
    let n: usize = text.len();
    let mut depth: usize = 1;
    let mut i: usize = 0;
    while i < n
        invariant
            n == text@.len(),
            n < usize::MAX,
            0 <= i <= n,
            depth == depth_after(text@, open, close, i as int),
            depth >= 1,
            depth <= i + 1,
            first_balance_from(text@, open, close, 0) == first_balance_from(
                text@,
                open,
                close,
                i as int,
            ),
            forall|m: int| 0 <= m <= i ==> depth_after(text@, open, close, m) != 0,
        decreases n - i,
    {
        let c: u8 = text[i];
        if c == open {
            depth = depth + 1;
        } else if c == close {
            depth = depth - 1;
            if depth == 0 {
                proof {
                    assert(depth_after(text@, open, close, i + 1) == 0);
                    assert(first_balance_from(text@, open, close, i as int)
                        == first_balance_from(text@, open, close, i + 1));
                    assert(first_balance_from(text@, open, close, i + 1) == Some((i + 1) as int));
                }
                return Ok(i + 1);
            }
        }
        i = i + 1;
    }
    Err(ParseError::Unbalanced)
}

/// A found balance point lies inside the slice, past at least one byte.
proof fn lemma_first_balance_bounds(s: Seq<u8>, open: u8, close: u8, m: int)
    ensures
        first_balance_from(s, open, close, m) matches Some(j) ==> m <= j <= s.len()
            && depth_after(s, open, close, j) == 0,
    decreases s.len() - m,
{
    if 0 <= m <= s.len() && depth_after(s, open, close, m) != 0 && m < s.len() {
        lemma_first_balance_bounds(s, open, close, m + 1);
    }
}

pub proof fn lemma_balance_point_bounds(s: Seq<u8>, open: u8, close: u8)
    ensures
        balance_point(s, open, close) matches Some(j) ==> 1 <= j <= s.len(),
{
    lemma_first_balance_bounds(s, open, close, 0);
    assert(depth_after(s, open, close, 0) == 1);
}

/// The number of occurrences of byte `b` in `s`.
pub open spec fn count_byte(s: Seq<u8>, b: u8) -> int
    decreases s.len(),
{
    if s.len() == 0 {
        0
    } else {
        count_byte(s.drop_last(), b) + (if s.last() == b {
            1int
        } else {
            0int
        })
    }
}

/// The depth is one plus the surplus of opens over closes seen so far.
proof fn lemma_depth_is_count(s: Seq<u8>, open: u8, close: u8, n: int)
    requires
        open != close,
        0 <= n <= s.len(),
    ensures
        depth_after(s, open, close, n) == 1 + count_byte(s.take(n), open) - count_byte(
            s.take(n),
            close,
        ),
    decreases n,
{
    if n == 0 {
        assert(s.take(0) =~= Seq::<u8>::empty());
    } else {
        lemma_depth_is_count(s, open, close, n - 1);
        assert(s.take(n).drop_last() =~= s.take(n - 1));
        assert(s.take(n).last() == s[n - 1]);
    }
}

/// Before the depth first reaches zero it stays strictly positive: it
/// starts at one and moves by single steps.
proof fn lemma_depth_positive(s: Seq<u8>, open: u8, close: u8, j: int, m: int)
    requires
        0 <= m < j <= s.len(),
        forall|l: int| 0 <= l < j ==> depth_after(s, open, close, l) != 0,
    ensures
        depth_after(s, open, close, m) >= 1,
    decreases m,
{
    if m > 0 {
        lemma_depth_positive(s, open, close, j, m - 1);
    }
}

/// Walking from `m` to the known first zero at `j` finds exactly `j`.
proof fn lemma_first_balance_reaches(s: Seq<u8>, open: u8, close: u8, m: int, j: int)
    requires
        0 <= m <= j <= s.len(),
        depth_after(s, open, close, j) == 0,
        forall|l: int| 0 <= l < j ==> depth_after(s, open, close, l) != 0,
    ensures
        first_balance_from(s, open, close, m) == Some(j),
    decreases j - m,
{
    if m < j {
        lemma_first_balance_reaches(s, open, close, m + 1, j);
    }
}

/// Balance correctness: on a well-formed slice — one whose running depth,
/// started at one for the already-consumed open delimiter, first returns to
/// zero at offset `j`, for arbitrary nesting depth in between — the matcher
/// answers exactly `j`; the byte at `j - 1` is the paired close delimiter,
/// and the bytes before `j` close exactly one more delimiter than they open.
pub proof fn lemma_balance_correctness(s: Seq<u8>, open: u8, close: u8, j: int)
    requires
        open != close,
        0 <= j <= s.len(),
        depth_after(s, open, close, j) == 0,
        forall|m: int| 0 <= m < j ==> depth_after(s, open, close, m) != 0,
    ensures
        balance_point(s, open, close) == Some(j),
        1 <= j && s[j - 1] == close,
        count_byte(s.take(j), close) == count_byte(s.take(j), open) + 1,
{
    lemma_first_balance_reaches(s, open, close, 0, j);
    assert(depth_after(s, open, close, 0) == 1);
    lemma_depth_positive(s, open, close, j, j - 1);
    assert(depth_after(s, open, close, j) == depth_after(s, open, close, j - 1) + (if s[j - 1]
        == open {
        1int
    } else if s[j - 1] == close {
        -1int
    } else {
        0int
    }));
    lemma_depth_is_count(s, open, close, j);
    assert(count_byte(s.take(j), close) == count_byte(s.take(j), open) + 1);
}

} // verus!
