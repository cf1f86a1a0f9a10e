//! Comment neutralization ("whiteout").
//!
//! Given source text as bytes, produce a same-length text in which every
//! byte that belongs to a comment is replaced by an ASCII space, except
//! newlines, which are copied through unchanged.  Every byte outside a
//! comment is copied unchanged.  Because the replacement is byte for byte,
//! all offsets discovered in the neutralized text are valid in the original
//! text as well.
//!
//! Two comment forms are recognized: a line comment `//` running through the
//! next newline (or end of input), and a block comment `/*` running through
//! the next `*/` (or end of input, when unterminated).

use vstd::prelude::*;

use crate::types::ParseError;

verus! {

/// The scanner state before a given byte: ordinary code, code right after a
/// `/` that may open a comment, inside a line comment, or inside a block
/// comment (recording whether the previous comment byte was a `*`).
#[derive(Clone, Copy, PartialEq, Eq, Structural)]
pub enum ScanState {
    Code,
    Slash,
    Line,
    Block(bool),
}

/// One step of the comment scanner: the state after reading byte `b` in
/// state `st`.
pub open spec fn state_step(st: ScanState, b: u8) -> ScanState {
    match st {
        ScanState::Code => if b == 47u8 {
            ScanState::Slash
        } else {
            ScanState::Code
        },
        ScanState::Slash => if b == 42u8 {
            ScanState::Block(false)
        } else if b == 47u8 {
            ScanState::Line
        } else {
            ScanState::Code
        },
        ScanState::Line => if b == 10u8 {
            ScanState::Code
        } else {
            ScanState::Line
        },
        ScanState::Block(star) => if star && b == 47u8 {
            ScanState::Code
        } else {
            ScanState::Block(b == 42u8)
        },
    }
}

/// The scanner state before byte `i` of `s`.
pub open spec fn state_at(s: Seq<u8>, i: int) -> ScanState
    decreases i,
{
    if i <= 0 {
        ScanState::Code
    } else {
        state_step(state_at(s, i - 1), s[i - 1])
    }
}

/// Whether byte `i` of `s` belongs to a comment (and is therefore blanked
/// by neutralization).  The four cases are: inside a line comment, inside a
/// block comment, the `/` that opens a comment, and the `/` or `*` right
/// after such a `/`.
pub open spec fn in_comment(s: Seq<u8>, i: int) -> bool {
    ||| state_at(s, i) is Line
    ||| state_at(s, i) is Block
    ||| (state_at(s, i) is Code && s[i] == 47u8 && i + 1 < s.len() && (s[i + 1] == 47u8 || s[i
        + 1] == 42u8))
    ||| (state_at(s, i) is Slash && (s[i] == 47u8 || s[i] == 42u8))
}

/// What neutralization makes of byte `i` of `s`: newlines survive, comment
/// bytes become spaces, everything else is copied.
pub open spec fn neutral_byte(s: Seq<u8>, i: int) -> u8 {
    if s[i] == 10u8 {
        10u8
    } else if in_comment(s, i) {
        32u8
    } else {
        s[i]
    }
}

/// The neutralized form of `s`: same length, comments blanked.
pub open spec fn neutralized(s: Seq<u8>) -> Seq<u8> {
    Seq::new(s.len(), |i: int| neutral_byte(s, i))
}

/// Neutralize comments: blank every comment byte of `text` to an ASCII
/// space, keeping newlines and all non-comment bytes, so that the result has
/// exactly the byte length of `text` and every newline keeps its offset.
/// The pass itself never fails.
pub fn whiteout(text: &[u8]) -> (r: Result<Vec<u8>, ParseError>)
    ensures
        r matches Ok(w) && w@ == neutralized(text@),
        r matches Ok(w) ==> w@.len() == text@.len(),
        r matches Ok(w) ==> forall|i: int|
            0 <= i < text@.len() ==> (w@[i] == 10u8 <==> text@[i] == 10u8),
        r matches Ok(w) ==> forall|i: int|
            0 <= i < text@.len() && !in_comment(text@, i) ==> w@[i] == text@[i],
        r matches Ok(w) ==> forall|i: int|
            0 <= i < text@.len() && in_comment(text@, i) && text@[i] != 10u8 ==> w@[i] == 32u8,
{
    let n: usize = text.len();
    let mut white: Vec<u8> = Vec::new();
    let mut st: ScanState = ScanState::Code;
    let mut i: usize = 0;
    while i < n
        invariant
            n == text@.len(),
            0 <= i <= n,
            st == state_at(text@, i as int),
            white@.len() == i,
            forall|j: int| 0 <= j < i ==> white@[j] == neutral_byte(text@, j),
        decreases n - i,
    {
        let b: u8 = text[i];
        let blank: bool = match st {
            ScanState::Code => b == 47u8 && i + 1 < n && (text[i + 1] == 47u8 || text[i + 1]
                == 42u8),
            ScanState::Slash => b == 47u8 || b == 42u8,
            ScanState::Line => true,
            ScanState::Block(_) => true,
        };
        if b == 10u8 {
            white.push(10u8);
        } else if blank {
            white.push(32u8);
        } else {
            white.push(b);
        }
        st = match st {
            ScanState::Code => if b == 47u8 {
                ScanState::Slash
            } else {
                ScanState::Code
            },
            ScanState::Slash => if b == 42u8 {
                ScanState::Block(false)
            } else if b == 47u8 {
                ScanState::Line
            } else {
                ScanState::Code
            },
            ScanState::Line => if b == 10u8 {
                ScanState::Code
            } else {
                ScanState::Line
            },
            ScanState::Block(star) => if star && b == 47u8 {
                ScanState::Code
            } else {
                ScanState::Block(b == 42u8)
            },
        };
        i = i + 1;
    }
    proof {
        assert(white@ =~= neutralized(text@));
    }
    Ok(white)
}

/// In a neutralized text the scanner never enters a comment: it stays in
/// `Code` or `Slash`, and in `Slash` the byte under the scanner is never a
/// `/` or `*` (so no comment can open).
proof fn lemma_neutral_state(t: Seq<u8>, i: int)
    requires
        0 <= i <= t.len(),
    ensures
        state_at(neutralized(t), i) is Code || state_at(neutralized(t), i) is Slash,
        state_at(neutralized(t), i) is Slash && i < t.len() ==> neutralized(t)[i] != 47u8
            && neutralized(t)[i] != 42u8,
    decreases i,
{
    let w = neutralized(t);
    if i > 0 {
        lemma_neutral_state(t, i - 1);
        let st = state_at(w, i - 1);
        let b = w[i - 1];
        assert(state_at(w, i) == state_step(st, b));
        if st is Code && b == 47u8 {
            // A surviving slash: position i - 1 of t is a slash outside any
            // comment, so the byte after it cannot open one.
            assert(t[i - 1] == 47u8 && !in_comment(t, i - 1));
            assert(state_at(t, i - 1) is Code);
            assert(!(i < t.len() && (t[i] == 47u8 || t[i] == 42u8)));
            if i < t.len() {
                assert(state_at(t, i) == state_step(state_at(t, i - 1), t[i - 1]));
                assert(state_at(t, i) is Slash);
                assert(!in_comment(t, i));
                assert(w[i] == neutral_byte(t, i));
            }
        }
    }
}

/// Neutralization is idempotent: a neutralized text contains no comments
/// any more, so neutralizing it again changes nothing.
pub proof fn lemma_neutralize_idempotent(t: Seq<u8>)
    ensures
        neutralized(neutralized(t)) == neutralized(t),
{
    let w = neutralized(t);
    assert forall|i: int| 0 <= i < w.len() implies neutral_byte(w, i) == w[i] by {
        lemma_neutral_state(t, i);
        if state_at(w, i) is Code && w[i] == 47u8 && i + 1 < w.len() {
            assert(state_at(w, i + 1) == state_step(state_at(w, i), w[i]));
            lemma_neutral_state(t, i + 1);
        }
    }
    assert(neutralized(w) =~= w);
}

/// Comment transparency: two texts whose comments sit in the same places,
/// that agree byte for byte outside those comments, and whose comments have
/// the same internal newline layout, neutralize to the very same text.  Any
/// pass over the neutralized text — the delimiter matcher in particular —
/// therefore behaves identically on both, whatever delimiter bytes the
/// comments contain.
pub proof fn lemma_comment_transparency(t1: Seq<u8>, t2: Seq<u8>)
    requires
        t1.len() == t2.len(),
        forall|i: int| 0 <= i < t1.len() ==> (in_comment(t1, i) <==> in_comment(t2, i)),
        forall|i: int| 0 <= i < t1.len() && !in_comment(t1, i) ==> t1[i] == t2[i],
        forall|i: int| 0 <= i < t1.len() && in_comment(t1, i) ==> (t1[i] == 10u8 <==> t2[i]
            == 10u8),
    ensures
        neutralized(t1) == neutralized(t2),
{
    assert(neutralized(t1) =~= neutralized(t2));
}

} // verus!
