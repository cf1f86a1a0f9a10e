//! Header-pattern discovery and block extraction.
//!
//! Three header-pattern classes are searched for in the neutralized text:
//! blocks with a braced body (any of the five keywords, delimiter pair
//! `{`/`}`), tuple-style structs (keyword `struct`, pair `(`/`)`), and bare
//! structs terminated by a `;`.  A header anchors at the start of the input
//! or right after a newline, with only horizontal whitespace before the
//! keyword; after the keyword come whitespace, an optional generic-parameter
//! bracket, the identifier, and then arbitrary text up to the opening
//! delimiter on the identifier's line.  All offsets found in the neutralized
//! text are used to slice the original text, which is sound because
//! neutralization preserves byte positions exactly.

use vstd::prelude::*;

use crate::comments::neutralized;
use crate::comments::whiteout;
use crate::matcher::balance_point;
use crate::matcher::find_match;
use crate::types::BlockView;
use crate::types::CodeBlock;
use crate::types::CodeTypes;
use crate::types::ParseError;

verus! {

/// The three header-pattern classes: blocks with a braced body, tuple-style
/// structs with a parenthesized body, and bare (unit) structs terminated by
/// a semicolon.
#[derive(Clone, Copy, PartialEq, Eq, Structural)]
pub enum PatternClass {
    Body,
    Tuple,
    Unit,
}

/// Whitespace, as the header patterns understand it (ASCII).
pub open spec fn is_space(b: u8) -> bool {
    b == 32 || b == 9 || b == 10 || b == 11 || b == 12 || b == 13
}

/// Horizontal whitespace: whitespace other than a newline.
pub open spec fn is_hspace(b: u8) -> bool {
    is_space(b) && b != 10
}

/// An identifier byte: ASCII letters, digits, `_`, or any byte of a
/// multi-byte character.
pub open spec fn is_word_byte(b: u8) -> bool {
    (48 <= b <= 57) || (65 <= b <= 90) || (97 <= b <= 122) || b == 95 || b >= 128
}

/// A header may only start at the beginning of the input or right after a
/// newline, with nothing but horizontal whitespace in between: walking back
/// from `k`, only horizontal whitespace may appear before a newline or the
/// start of input is reached.
pub open spec fn anchored(w: Seq<u8>, k: int) -> bool
    decreases k,
{
    if k <= 0 {
        true
    } else if w[k - 1] == 10u8 {
        true
    } else if is_hspace(w[k - 1]) {
        anchored(w, k - 1)
    } else {
        false
    }
}

/// The first position at or after `i` holding no whitespace (or the end of
/// the text).
pub open spec fn skip_spaces(w: Seq<u8>, i: int) -> int
    decreases w.len() - i,
{
    if 0 <= i < w.len() && is_space(w[i]) {
        skip_spaces(w, i + 1)
    } else {
        i
    }
}

/// The first position at or after `i` holding `target`, provided no newline
/// comes first: the search is confined to the current line.
pub open spec fn find_on_line(w: Seq<u8>, i: int, target: u8) -> Option<int>
    decreases w.len() - i,
{
    if !(0 <= i < w.len()) {
        None
    } else if w[i] == target {
        Some(i)
    } else if w[i] == 10u8 {
        None
    } else {
        find_on_line(w, i + 1, target)
    }
}

/// The end of the identifier starting at `i`: the first position holding no
/// identifier byte.
pub open spec fn word_end(w: Seq<u8>, i: int) -> int
    decreases w.len() - i,
{
    if 0 <= i < w.len() && is_word_byte(w[i]) {
        word_end(w, i + 1)
    } else {
        i
    }
}

/// The bytes of the keyword introducing a declaration of kind `kind`.
pub open spec fn keyword_bytes(kind: CodeTypes) -> Seq<u8> {
    match kind {
        CodeTypes::Fn => seq![102u8, 110u8],
        CodeTypes::Enum => seq![101u8, 110u8, 117u8, 109u8],
        CodeTypes::Struct => seq![115u8, 116u8, 114u8, 117u8, 99u8, 116u8],
        CodeTypes::Trait => seq![116u8, 114u8, 97u8, 105u8, 116u8],
        CodeTypes::Mod => seq![109u8, 111u8, 100u8],
    }
}

/// Whether the keyword of `kind` occupies `w` starting at `k`.
pub open spec fn keyword_at(w: Seq<u8>, k: int, kind: CodeTypes) -> bool {
    let kw = keyword_bytes(kind);
    0 <= k && k + kw.len() <= w.len() && w.subrange(k, k + kw.len() as int) == kw
}

/// Which of the five keywords starts at `k`, if any.  The keywords begin
/// with five distinct letters, so at most one can match.
pub open spec fn body_kind_at(w: Seq<u8>, k: int) -> Option<CodeTypes> {
    if keyword_at(w, k, CodeTypes::Fn) {
        Some(CodeTypes::Fn)
    } else if keyword_at(w, k, CodeTypes::Struct) {
        Some(CodeTypes::Struct)
    } else if keyword_at(w, k, CodeTypes::Enum) {
        Some(CodeTypes::Enum)
    } else if keyword_at(w, k, CodeTypes::Trait) {
        Some(CodeTypes::Trait)
    } else if keyword_at(w, k, CodeTypes::Mod) {
        Some(CodeTypes::Mod)
    } else {
        None
    }
}

/// The keyword a class recognizes at `k`: any of the five for body blocks,
/// only `struct` for the tuple and unit classes.
pub open spec fn class_kind_at(w: Seq<u8>, c: PatternClass, k: int) -> Option<CodeTypes> {
    match c {
        PatternClass::Body => body_kind_at(w, k),
        _ => if keyword_at(w, k, CodeTypes::Struct) {
            Some(CodeTypes::Struct)
        } else {
            None
        },
    }
}

/// The byte that terminates a class's header: the opening delimiter, or the
/// semicolon for unit blocks.
pub open spec fn class_term(c: PatternClass) -> u8 {
    match c {
        PatternClass::Body => 123u8,
        PatternClass::Tuple => 40u8,
        PatternClass::Unit => 59u8,
    }
}

/// The close delimiter paired with a class's opening delimiter (unused for
/// unit blocks, which have no body).
pub open spec fn class_close(c: PatternClass) -> u8 {
    match c {
        PatternClass::Body => 125u8,
        PatternClass::Tuple => 41u8,
        PatternClass::Unit => 0u8,
    }
}

/// One discovered header: the keyword offset (which is also the block's
/// span start), its kind, the identifier's span, and the offset of the
/// header's terminating byte.
pub ghost struct Header {
    pub start: int,
    pub kind: CodeTypes,
    pub name_start: int,
    pub name_end: int,
    pub term: int,
}

/// Where scanning resumes after an optional generic-parameter bracket at
/// `i`: behind the closing `>` of the bracket (which must sit on the same
/// line) and any following whitespace, or at `i` itself when no bracket
/// opens there.
pub open spec fn after_generics(w: Seq<u8>, i: int) -> Option<int> {
    if 0 <= i < w.len() && w[i] == 60u8 {
        match find_on_line(w, i + 1, 62u8) {
            None => None,
            Some(g) => Some(skip_spaces(w, g + 1)),
        }
    } else {
        Some(i)
    }
}

/// The part of a header after its keyword, which ends at position `e`: at
/// least one whitespace byte, an optional generic bracket, the identifier,
/// and then the terminating byte `term` somewhere on the identifier's line.
/// Yields the identifier's span and the terminator's offset.
pub open spec fn header_tail(w: Seq<u8>, e: int, term: u8) -> Option<(int, int, int)> {
    if 0 <= e < w.len() && is_space(w[e]) {
        match after_generics(w, skip_spaces(w, e)) {
            None => None,
            Some(a) => if a < w.len() && is_word_byte(w[a]) {
                match find_on_line(w, word_end(w, a), term) {
                    None => None,
                    Some(t) => Some((a, word_end(w, a), t)),
                }
            } else {
                None
            },
        }
    } else {
        None
    }
}

/// The header of class `c` starting at `k`, if one starts there: `k` must
/// be anchored and carry one of the class's keywords, followed by a valid
/// header tail.
pub open spec fn match_at(w: Seq<u8>, c: PatternClass, k: int) -> Option<Header> {
    if 0 <= k < w.len() && anchored(w, k) {
        match class_kind_at(w, c, k) {
            None => None,
            Some(kind) => match header_tail(
                w,
                k + keyword_bytes(kind).len() as int,
                class_term(c),
            ) {
                None => None,
                Some((ns, ne, t)) => Some(
                    Header { start: k, kind: kind, name_start: ns, name_end: ne, term: t },
                ),
            },
        }
    } else {
        None
    }
}

/// The first position at or after `from` where a header of class `c`
/// starts.
pub open spec fn first_match_from(w: Seq<u8>, c: PatternClass, from: int) -> Option<int>
    decreases w.len() - from,
{
    if !(0 <= from < w.len()) {
        None
    } else if match_at(w, c, from) is Some {
        Some(from)
    } else {
        first_match_from(w, c, from + 1)
    }
}

/// Skipping whitespace never moves backwards or past the end.
pub proof fn lemma_skip_spaces_bounds(w: Seq<u8>, i: int)
    requires
        0 <= i <= w.len(),
    ensures
        i <= skip_spaces(w, i) <= w.len(),
    decreases w.len() - i,
{
    if 0 <= i < w.len() && is_space(w[i]) {
        lemma_skip_spaces_bounds(w, i + 1);
    }
}

pub proof fn lemma_find_on_line_bounds(w: Seq<u8>, i: int, target: u8)
    requires
        0 <= i,
    ensures
        find_on_line(w, i, target) matches Some(t) ==> i <= t < w.len() && w[t] == target,
    decreases w.len() - i,
{
    if 0 <= i < w.len() && w[i] != target && w[i] != 10u8 {
        lemma_find_on_line_bounds(w, i + 1, target);
    }
}

pub proof fn lemma_word_end_bounds(w: Seq<u8>, i: int)
    requires
        0 <= i <= w.len(),
    ensures
        i <= word_end(w, i) <= w.len(),
    decreases w.len() - i,
{
    if 0 <= i < w.len() && is_word_byte(w[i]) {
        lemma_word_end_bounds(w, i + 1);
    }
}

/// A discovered header sits inside the text in the expected order: the
/// identifier follows the keyword, and the terminator follows the
/// identifier, all strictly before the end of the text.
pub proof fn lemma_match_at_bounds(w: Seq<u8>, c: PatternClass, k: int)
    ensures
        match_at(w, c, k) matches Some(h) ==> h.start == k && 0 <= k && k + 2 <= h.name_start
            && h.name_start < h.name_end && h.name_end <= h.term && h.term < w.len() && w[h.term]
            == class_term(c),
{
    if match_at(w, c, k) is Some {
        let kind = class_kind_at(w, c, k)->Some_0;
        let e = k + keyword_bytes(kind).len() as int;
        assert(e <= w.len());
        assert(k + 2 <= e);
        lemma_skip_spaces_bounds(w, e);
        let i1 = skip_spaces(w, e);
        assert(is_space(w[e]));
        assert(e + 1 <= i1);
        let a = after_generics(w, i1)->Some_0;
        if 0 <= i1 < w.len() && w[i1] == 60u8 {
            lemma_find_on_line_bounds(w, i1 + 1, 62u8);
            let g = find_on_line(w, i1 + 1, 62u8)->Some_0;
            lemma_skip_spaces_bounds(w, g + 1);
        }
        assert(e < a);
        lemma_word_end_bounds(w, a);
        let ne = word_end(w, a);
        assert(is_word_byte(w[a]));
        assert(ne == word_end(w, a + 1));
        lemma_word_end_bounds(w, a + 1);
        assert(a + 1 <= ne);
        lemma_find_on_line_bounds(w, ne, class_term(c));
    }
}

/// Scanning for a header never finds one before `from`.
pub proof fn lemma_first_match_found(w: Seq<u8>, c: PatternClass, from: int)
    requires
        0 <= from,
    ensures
        first_match_from(w, c, from) matches Some(k) ==> from <= k < w.len() && match_at(w, c, k)
            is Some,
    decreases w.len() - from,
{
    if 0 <= from < w.len() && match_at(w, c, from) is None {
        lemma_first_match_found(w, c, from + 1);
    }
}

/// All headers of class `c` found from `from` onward, in the order the scan
/// discovers them: repeatedly the earliest header at or after the current
/// position, resuming after each header's terminator.
pub open spec fn matches_from(w: Seq<u8>, c: PatternClass, from: int) -> Seq<Header>
    decreases w.len() - from,
{
    if 0 <= from <= w.len() {
        match first_match_from(w, c, from) {
            None => Seq::empty(),
            Some(k) => match match_at(w, c, k) {
                None => Seq::empty(),
                Some(h) => {
                    proof {
                        lemma_first_match_found(w, c, from);
                        lemma_match_at_bounds(w, c, k);
                    }
                    seq![h] + matches_from(w, c, h.term + 1)
                },
            },
        }
    } else {
        Seq::empty()
    }
}

/// Exec mirror of one discovered header, with its offsets as machine
/// integers.
#[derive(Clone, Copy)]
pub struct HeaderPos {
    pub start: usize,
    pub kind: CodeTypes,
    pub name_start: usize,
    pub name_end: usize,
    pub term: usize,
}

impl View for HeaderPos {
    type V = Header;

    open spec fn view(&self) -> Header {
        Header {
            start: self.start as int,
            kind: self.kind,
            name_start: self.name_start as int,
            name_end: self.name_end as int,
            term: self.term as int,
        }
    }
}

fn is_space_x(b: u8) -> (r: bool)
    ensures
        r == is_space(b),
{
    b == 32 || b == 9 || b == 10 || b == 11 || b == 12 || b == 13
}

fn is_hspace_x(b: u8) -> (r: bool)
    ensures
        r == is_hspace(b),
{
    b == 32 || b == 9 || b == 11 || b == 12 || b == 13
}

fn is_word_byte_x(b: u8) -> (r: bool)
    ensures
        r == is_word_byte(b),
{
    (48 <= b && b <= 57) || (65 <= b && b <= 90) || (97 <= b && b <= 122) || b == 95 || b >= 128
}

fn anchored_x(w: &[u8], k: usize) -> (r: bool)
    requires
        k <= w@.len(),
    ensures
        r == anchored(w@, k as int),
{
    let mut j: usize = k;
    loop
        invariant
            0 <= j <= k <= w@.len(),
            anchored(w@, k as int) == anchored(w@, j as int),
        decreases j,
    {
        if j == 0 {
            return true;
        }
        let b: u8 = w[j - 1];
        if b == 10 {
            return true;
        }
        if !is_hspace_x(b) {
            return false;
        }
        j = j - 1;
    }
}

fn skip_spaces_x(w: &[u8], i: usize) -> (r: usize)
    requires
        i <= w@.len(),
    ensures
        r as int == skip_spaces(w@, i as int),
        i <= r <= w@.len(),
{
    let n: usize = w.len();
    let mut j: usize = i;
    while j < n && is_space_x(w[j])
        invariant
            i <= j <= n,
            n == w@.len(),
            skip_spaces(w@, i as int) == skip_spaces(w@, j as int),
        decreases n - j,
    {
        j = j + 1;
    }
    j
}

fn find_on_line_x(w: &[u8], i: usize, target: u8) -> (r: Option<usize>)
    requires
        i <= w@.len(),
    ensures
        r matches Some(t) ==> find_on_line(w@, i as int, target) == Some(t as int),
        r is None ==> find_on_line(w@, i as int, target) is None,
{
    let n: usize = w.len();
    let mut j: usize = i;
    loop
        invariant
            i <= j <= n,
            n == w@.len(),
            find_on_line(w@, i as int, target) == find_on_line(w@, j as int, target),
        decreases n - j,
    {
        if j == n {
            return None;
        }
        let b: u8 = w[j];
        if b == target {
            return Some(j);
        }
        if b == 10 {
            return None;
        }
        j = j + 1;
    }
}

fn word_end_x(w: &[u8], i: usize) -> (r: usize)
    requires
        i <= w@.len(),
    ensures
        r as int == word_end(w@, i as int),
        i <= r <= w@.len(),
{
    let n: usize = w.len();
    let mut j: usize = i;
    while j < n && is_word_byte_x(w[j])
        invariant
            i <= j <= n,
            n == w@.len(),
            word_end(w@, i as int) == word_end(w@, j as int),
        decreases n - j,
    {
        j = j + 1;
    }
    j
}

/// Whether the keyword of `kind` occupies `w` starting at `k`.
fn keyword_at_x(w: &[u8], k: usize, kind: CodeTypes) -> (r: bool)
    requires
        k <= w@.len(),
    ensures
        r == keyword_at(w@, k as int, kind),
{
    let n: usize = w.len();
    let r: bool = match kind {
        CodeTypes::Fn => n >= 2 && k <= n - 2 && w[k] == 102 && w[k + 1] == 110,
        CodeTypes::Enum => n >= 4 && k <= n - 4 && w[k] == 101 && w[k + 1] == 110 && w[k + 2]
            == 117 && w[k + 3] == 109,
        CodeTypes::Struct => n >= 6 && k <= n - 6 && w[k] == 115 && w[k + 1] == 116 && w[k + 2]
            == 114 && w[k + 3] == 117 && w[k + 4] == 99 && w[k + 5] == 116,
        CodeTypes::Trait => n >= 5 && k <= n - 5 && w[k] == 116 && w[k + 1] == 114 && w[k + 2]
            == 97 && w[k + 3] == 105 && w[k + 4] == 116,
        CodeTypes::Mod => n >= 3 && k <= n - 3 && w[k] == 109 && w[k + 1] == 111 && w[k + 2]
            == 100,
    };
    proof {
        let kw = keyword_bytes(kind);
        if r {
            assert(w@.subrange(k as int, k + kw.len() as int) =~= kw);
        } else {
            if k + kw.len() <= w@.len() && w@.subrange(k as int, k + kw.len() as int) == kw {
                assert(forall|j: int|
                    0 <= j < kw.len() ==> w@.subrange(k as int, k + kw.len() as int)[j] == kw[j]);
                assert(false);
            }
        }
    }
    r
}

/// The length of the keyword introducing `kind`.
fn keyword_len_x(kind: CodeTypes) -> (r: usize)
    ensures
        r as int == keyword_bytes(kind).len(),
{
    match kind {
        CodeTypes::Fn => 2,
        CodeTypes::Enum => 4,
        CodeTypes::Struct => 6,
        CodeTypes::Trait => 5,
        CodeTypes::Mod => 3,
    }
}

fn class_kind_x(w: &[u8], c: PatternClass, k: usize) -> (r: Option<CodeTypes>)
    requires
        k <= w@.len(),
    ensures
        r == class_kind_at(w@, c, k as int),
{
    match c {
        PatternClass::Body => {
            if keyword_at_x(w, k, CodeTypes::Fn) {
                Some(CodeTypes::Fn)
            } else if keyword_at_x(w, k, CodeTypes::Struct) {
                Some(CodeTypes::Struct)
            } else if keyword_at_x(w, k, CodeTypes::Enum) {
                Some(CodeTypes::Enum)
            } else if keyword_at_x(w, k, CodeTypes::Trait) {
                Some(CodeTypes::Trait)
            } else if keyword_at_x(w, k, CodeTypes::Mod) {
                Some(CodeTypes::Mod)
            } else {
                None
            }
        },
        _ => {
            if keyword_at_x(w, k, CodeTypes::Struct) {
                Some(CodeTypes::Struct)
            } else {
                None
            }
        },
    }
}

fn class_term_x(c: PatternClass) -> (r: u8)
    ensures
        r == class_term(c),
{
    match c {
        PatternClass::Body => 123,
        PatternClass::Tuple => 40,
        PatternClass::Unit => 59,
    }
}

/// Try to recognize a header of class `c` whose keyword starts at `k`.
fn try_match_at(w: &[u8], c: PatternClass, k: usize) -> (r: Option<HeaderPos>)
    requires
        k < w@.len(),
    ensures
        r matches Some(h) ==> match_at(w@, c, k as int) == Some(h@),
        r is None ==> match_at(w@, c, k as int) is None,
{
    let n: usize = w.len();
    if !anchored_x(w, k) {
        return None;
    }
    let kind: CodeTypes = match class_kind_x(w, c, k) {
        None => {
            return None;
        },
        Some(kd) => kd,
    };
    let e: usize = k + keyword_len_x(kind);
    if e >= n || !is_space_x(w[e]) {
        return None;
    }
    let term: u8 = class_term_x(c);
    let i1: usize = skip_spaces_x(w, e);
    let a: usize;
    if i1 < n && w[i1] == 60 {
        match find_on_line_x(w, i1 + 1, 62) {
            None => {
                return None;
            },
            Some(g) => {
                proof {
                    lemma_find_on_line_bounds(w@, i1 + 1, 62u8);
                }
                a = skip_spaces_x(w, g + 1);
            },
        }
    } else {
        a = i1;
    }
    if a >= n || !is_word_byte_x(w[a]) {
        return None;
    }
    let ne: usize = word_end_x(w, a);
    match find_on_line_x(w, ne, term) {
        None => None,
        Some(t) => Some(HeaderPos { start: k, kind, name_start: a, name_end: ne, term: t }),
    }
}

/// Discover every header of class `c`, left to right, resuming after each
/// header's terminating byte.
fn scan_class(w: &[u8], c: PatternClass) -> (res: Vec<HeaderPos>)
    ensures
        res@.map_values(|h: HeaderPos| h@) == matches_from(w@, c, 0),
{
    let n: usize = w.len();
    let mut res: Vec<HeaderPos> = Vec::new();
    let mut k: usize = 0;
    let ghost mut from: int = 0;
    while k < n
        invariant
            n == w@.len(),
            0 <= from <= k <= n,
            matches_from(w@, c, 0) == res@.map_values(|h: HeaderPos| h@) + matches_from(
                w@,
                c,
                from,
            ),
            first_match_from(w@, c, from) == first_match_from(w@, c, k as int),
        decreases n - k,
    {
        match try_match_at(w, c, k) {
            None => {
                k = k + 1;
            },
            Some(h) => {
                proof {
                    lemma_match_at_bounds(w@, c, k as int);
                    assert(first_match_from(w@, c, k as int) == Some(k as int));
                    assert(matches_from(w@, c, from) == seq![h@] + matches_from(
                        w@,
                        c,
                        h@.term + 1,
                    ));
                    assert(res@.push(h).map_values(|x: HeaderPos| x@) =~= res@.map_values(
                        |x: HeaderPos| x@,
                    ).push(h@));
                }
                let next: usize = h.term + 1;
                res.push(h);
                k = next;
                proof {
                    from = k as int;
                    assert(matches_from(w@, c, 0) =~= res@.map_values(|x: HeaderPos| x@)
                        + matches_from(w@, c, from));
                }
            },
        }
    }
    proof {
        assert(matches_from(w@, c, from) =~= Seq::<Header>::empty());
        assert(matches_from(w@, c, 0) =~= res@.map_values(|h: HeaderPos| h@));
    }
    res
}

/// Walking back from `j`, the position after the last non-whitespace byte
/// before `j` (or 0 when only whitespace precedes `j`).
pub open spec fn rskip_spaces(s: Seq<u8>, j: int) -> int
    decreases j,
{
    if 0 < j <= s.len() && is_space(s[j - 1]) {
        rskip_spaces(s, j - 1)
    } else {
        j
    }
}

/// `s` with leading and trailing whitespace removed.
pub open spec fn trimmed(s: Seq<u8>) -> Seq<u8> {
    let lo = skip_spaces(s, 0);
    if lo == s.len() {
        Seq::empty()
    } else {
        s.subrange(lo, rskip_spaces(s, s.len() as int))
    }
}

/// Skipping whitespace stops on a non-whitespace byte (or the end).
proof fn lemma_skip_spaces_stops(s: Seq<u8>, i: int)
    requires
        0 <= i <= s.len(),
    ensures
        skip_spaces(s, i) < s.len() ==> !is_space(s[skip_spaces(s, i)]),
    decreases s.len() - i,
{
    if 0 <= i < s.len() && is_space(s[i]) {
        lemma_skip_spaces_stops(s, i + 1);
    }
}

/// Trimming never walks past a known non-whitespace byte.
proof fn lemma_rskip_spaces_stops(s: Seq<u8>, j: int, lo: int)
    requires
        0 <= lo < j <= s.len(),
        !is_space(s[lo]),
    ensures
        lo + 1 <= rskip_spaces(s, j) <= j,
    decreases j,
{
    if is_space(s[j - 1]) {
        lemma_rskip_spaces_stops(s, j - 1, lo);
    }
}

/// Remove leading and trailing whitespace from `s`.
fn trim_x(s: &[u8]) -> (r: Vec<u8>)
    ensures
        r@ == trimmed(s@),
{
    let n: usize = s.len();
    let lo: usize = skip_spaces_x(s, 0);
    if lo == n {
        let r: Vec<u8> = Vec::new();
        proof {
            assert(r@ =~= trimmed(s@));
        }
        r
    } else {
        let mut hi: usize = n;
        while hi > 0 && is_space_x(s[hi - 1])
            invariant
                0 <= hi <= n,
                n == s@.len(),
                rskip_spaces(s@, n as int) == rskip_spaces(s@, hi as int),
            decreases hi,
        {
            hi = hi - 1;
        }
        proof {
            lemma_skip_spaces_stops(s@, 0);
            lemma_rskip_spaces_stops(s@, n as int, lo as int);
        }
        vstd::slice::slice_to_vec(vstd::slice::slice_subrange(s, lo, hi))
    }
}

/// The offset one past the end of a block whose header is `h`: right after
/// the close delimiter paired with the header's opening delimiter, or right
/// after the semicolon for unit blocks.  `None` when the neutralized text
/// is exhausted before the depth balances.
pub open spec fn block_end(w: Seq<u8>, c: PatternClass, h: Header) -> Option<int> {
    if c is Unit {
        Some(h.term + 1)
    } else {
        match balance_point(w.subrange(h.term + 1, w.len() as int), class_term(c), class_close(c)) {
            None => None,
            Some(j) => Some(h.term + 1 + j),
        }
    }
}

/// The block a header `h` of class `c` denotes, its textual fields sliced
/// from the original text `t` (not the neutralized `w`): the identifier,
/// the trimmed text from keyword to terminator, and the block's span.
pub open spec fn block_view(t: Seq<u8>, w: Seq<u8>, c: PatternClass, h: Header) -> BlockView {
    BlockView {
        name: t.subrange(h.name_start, h.name_end),
        kind: h.kind,
        sig: trimmed(t.subrange(h.start, h.term)),
        start: h.start,
        end: match block_end(w, c, h) {
            None => 0,
            Some(e) => e,
        },
    }
}

/// All blocks of one pattern class, in discovery order; `None` exactly when
/// some discovered header's body never closes.
pub open spec fn class_blocks(t: Seq<u8>, c: PatternClass) -> Option<Seq<BlockView>> {
    let w = neutralized(t);
    let hs = matches_from(w, c, 0);
    if forall|i: int| 0 <= i < hs.len() ==> block_end(w, c, #[trigger] hs[i]) is Some {
        Some(Seq::new(hs.len(), |i: int| block_view(t, w, c, hs[i])))
    } else {
        None
    }
}

/// The in-text ordering facts every discovered header obeys.
pub open spec fn header_wf(w: Seq<u8>, c: PatternClass, h: Header) -> bool {
    0 <= h.start && h.start + 2 <= h.name_start && h.name_start < h.name_end && h.name_end
        <= h.term && h.term < w.len()
}

/// Every header the scan discovers is well formed.
pub proof fn lemma_matches_from_wf(w: Seq<u8>, c: PatternClass, from: int)
    ensures
        forall|i: int|
            0 <= i < matches_from(w, c, from).len() ==> header_wf(
                w,
                c,
                #[trigger] matches_from(w, c, from)[i],
            ),
    decreases w.len() - from,
{
    if 0 <= from <= w.len() {
        match first_match_from(w, c, from) {
            None => {},
            Some(k) => match match_at(w, c, k) {
                None => {},
                Some(h) => {
                    lemma_first_match_found(w, c, from);
                    lemma_match_at_bounds(w, c, k);
                    lemma_matches_from_wf(w, c, h.term + 1);
                    assert(matches_from(w, c, from) == seq![h] + matches_from(w, c, h.term + 1));
                },
            },
        }
    }
}

/// Build the blocks of one pattern class: discover the class's headers in
/// the neutralized text, find each block's end, and slice name and
/// signature from the original text.
fn class_blocks_x(text: &[u8], white: &[u8], c: PatternClass) -> (r: Result<
    Vec<CodeBlock>,
    ParseError,
>)
    requires
        white@ == neutralized(text@),
        text@.len() < usize::MAX,
    ensures
        r matches Ok(v) ==> class_blocks(text@, c) == Some(v@.map_values(|b: CodeBlock| b@)),
        r is Err ==> class_blocks(text@, c) is None && r == Err::<Vec<CodeBlock>, ParseError>(
            ParseError::Unbalanced,
        ),
{
    let hs: Vec<HeaderPos> = scan_class(white, c);
    let ghost hsv = matches_from(white@, c, 0);
    proof {
        lemma_matches_from_wf(white@, c, 0);
    }
    let mut out: Vec<CodeBlock> = Vec::new();
    let mut i: usize = 0;
    while i < hs.len()
        invariant
            white@ == neutralized(text@),
            text@.len() < usize::MAX,
            white@.len() == text@.len(),
            hs@.map_values(|h: HeaderPos| h@) == hsv,
            hsv == matches_from(white@, c, 0),
            forall|j: int| 0 <= j < hsv.len() ==> header_wf(white@, c, #[trigger] hsv[j]),
            0 <= i <= hs@.len(),
            forall|j: int| 0 <= j < i ==> block_end(white@, c, #[trigger] hsv[j]) is Some,
            out@.len() == i,
            forall|j: int|
                0 <= j < i ==> out@.map_values(|b: CodeBlock| b@)[j] == block_view(
                    text@,
                    white@,
                    c,
                    hsv[j],
                ),
        decreases hs@.len() - i,
    {
        let h: HeaderPos = hs[i];
        proof {
            assert(hs@.map_values(|x: HeaderPos| x@)[i as int] == h@);
            assert(header_wf(white@, c, hsv[i as int]));
        }
        let end: usize;
        match c {
            PatternClass::Unit => {
                end = h.term + 1;
            },
            _ => {
                let sub: &[u8] = vstd::slice::slice_subrange(white, h.term + 1, white.len());
                match find_match(sub, class_term_x(c), class_close_x(c)) {
                    Ok(j) => {
                        end = h.term + 1 + j;
                    },
                    Err(_) => {
                        proof {
                            assert(block_end(white@, c, hsv[i as int]) is None);
                            assert(class_blocks(text@, c) is None);
                        }
                        return Err(ParseError::Unbalanced);
                    },
                }
            },
        }
        let name: Vec<u8> = vstd::slice::slice_to_vec(
            vstd::slice::slice_subrange(text, h.name_start, h.name_end),
        );
        let sig: Vec<u8> = trim_x(vstd::slice::slice_subrange(text, h.start, h.term));
        let block = CodeBlock { name, kind: h.kind, sig, pos: (h.start, end) };
        proof {
            assert(block@ == block_view(text@, white@, c, hsv[i as int]));
            assert(out@.push(block).map_values(|b: CodeBlock| b@) =~= out@.map_values(
                |b: CodeBlock| b@,
            ).push(block@));
        }
        out.push(block);
        i = i + 1;
    }
    proof {
        assert(class_blocks(text@, c) matches Some(v) && v =~= out@.map_values(
            |b: CodeBlock| b@,
        ));
    }
    Ok(out)
}

fn class_close_x(c: PatternClass) -> (r: u8)
    ensures
        r == class_close(c),
{
    match c {
        PatternClass::Body => 125,
        PatternClass::Tuple => 41,
        PatternClass::Unit => 0,
    }
}

/// Merge two block sequences by ascending span start, preferring the left
/// sequence on ties (which keeps the classes' fixed precedence stable).
pub open spec fn merge_by_start(a: Seq<BlockView>, b: Seq<BlockView>) -> Seq<BlockView>
    decreases a.len() + b.len(),
{
    if a.len() == 0 {
        b
    } else if b.len() == 0 {
        a
    } else if a[0].start <= b[0].start {
        seq![a[0]] + merge_by_start(a.drop_first(), b)
    } else {
        seq![b[0]] + merge_by_start(a, b.drop_first())
    }
}

/// Merge two lists of blocks by ascending span start, keeping the left
/// list's blocks first on ties.
fn merge_blocks(a: Vec<CodeBlock>, b: Vec<CodeBlock>) -> (r: Vec<CodeBlock>)
    ensures
        r@.map_values(|x: CodeBlock| x@) == merge_by_start(
            a@.map_values(|x: CodeBlock| x@),
            b@.map_values(|x: CodeBlock| x@),
        ),
{
    let mut a = a;
    let mut b = b;
    let ghost ga = a@.map_values(|x: CodeBlock| x@);
    let ghost gb = b@.map_values(|x: CodeBlock| x@);
    let mut out: Vec<CodeBlock> = Vec::new();
    while a.len() > 0 && b.len() > 0
        invariant
            out@.map_values(|x: CodeBlock| x@) + merge_by_start(
                a@.map_values(|x: CodeBlock| x@),
                b@.map_values(|x: CodeBlock| x@),
            ) == merge_by_start(ga, gb),
        decreases a@.len() + b@.len(),
    {
        let ghost am = a@.map_values(|x: CodeBlock| x@);
        let ghost bm = b@.map_values(|x: CodeBlock| x@);
        if a[0].pos.0 <= b[0].pos.0 {
            let x = a.remove(0);
            proof {
                assert(a@.map_values(|y: CodeBlock| y@) =~= am.drop_first());
                assert(merge_by_start(am, bm) == seq![x@] + merge_by_start(am.drop_first(), bm));
                assert(out@.push(x).map_values(|y: CodeBlock| y@) =~= out@.map_values(
                    |y: CodeBlock| y@,
                ).push(x@));
                assert(out@.map_values(|y: CodeBlock| y@).push(x@) + merge_by_start(
                    am.drop_first(),
                    bm,
                ) =~= out@.map_values(|y: CodeBlock| y@) + merge_by_start(am, bm));
            }
            out.push(x);
        } else {
            let x = b.remove(0);
            proof {
                assert(b@.map_values(|y: CodeBlock| y@) =~= bm.drop_first());
                assert(merge_by_start(am, bm) == seq![x@] + merge_by_start(am, bm.drop_first()));
                assert(out@.push(x).map_values(|y: CodeBlock| y@) =~= out@.map_values(
                    |y: CodeBlock| y@,
                ).push(x@));
                assert(out@.map_values(|y: CodeBlock| y@).push(x@) + merge_by_start(
                    am,
                    bm.drop_first(),
                ) =~= out@.map_values(|y: CodeBlock| y@) + merge_by_start(am, bm));
            }
            out.push(x);
        }
    }
    while a.len() > 0
        invariant
            a@.len() == 0 || b@.len() == 0,
            out@.map_values(|x: CodeBlock| x@) + merge_by_start(
                a@.map_values(|x: CodeBlock| x@),
                b@.map_values(|x: CodeBlock| x@),
            ) == merge_by_start(ga, gb),
        decreases a@.len(),
    {
        let ghost am = a@.map_values(|x: CodeBlock| x@);
        let ghost bm = b@.map_values(|x: CodeBlock| x@);
        let x = a.remove(0);
        proof {
            assert(bm.len() == 0);
            assert(merge_by_start(am, bm) == am);
            assert(a@.map_values(|y: CodeBlock| y@) =~= am.drop_first());
            assert(merge_by_start(am.drop_first(), bm) == am.drop_first());
            assert(out@.push(x).map_values(|y: CodeBlock| y@) =~= out@.map_values(
                |y: CodeBlock| y@,
            ).push(x@));
            assert(out@.map_values(|y: CodeBlock| y@).push(x@) + am.drop_first() =~= out@.map_values(
                |y: CodeBlock| y@,
            ) + am);
        }
        out.push(x);
    }
    while b.len() > 0
        invariant
            a@.len() == 0 || b@.len() == 0,
            out@.map_values(|x: CodeBlock| x@) + merge_by_start(
                a@.map_values(|x: CodeBlock| x@),
                b@.map_values(|x: CodeBlock| x@),
            ) == merge_by_start(ga, gb),
        decreases b@.len(),
    {
        let ghost am = a@.map_values(|x: CodeBlock| x@);
        let ghost bm = b@.map_values(|x: CodeBlock| x@);
        let x = b.remove(0);
        proof {
            assert(am.len() == 0);
            assert(merge_by_start(am, bm) == bm);
            assert(b@.map_values(|y: CodeBlock| y@) =~= bm.drop_first());
            assert(merge_by_start(am, bm.drop_first()) == bm.drop_first());
            assert(out@.push(x).map_values(|y: CodeBlock| y@) =~= out@.map_values(
                |y: CodeBlock| y@,
            ).push(x@));
            assert(out@.map_values(|y: CodeBlock| y@).push(x@) + bm.drop_first() =~= out@.map_values(
                |y: CodeBlock| y@,
            ) + bm);
        }
        out.push(x);
    }
    proof {
        assert(out@.map_values(|x: CodeBlock| x@) =~= merge_by_start(ga, gb));
    }
    out
}

/// The complete extraction: the blocks of all three pattern classes,
/// merged by ascending span start (body blocks before tuple blocks before
/// unit blocks on equal starts); `None` exactly when some discovered
/// header's body never closes.
pub open spec fn extraction(t: Seq<u8>) -> Option<Seq<BlockView>> {
    match (class_blocks(t, PatternClass::Body), class_blocks(t, PatternClass::Tuple), class_blocks(
        t,
        PatternClass::Unit,
    )) {
        (Some(x), Some(y), Some(z)) => Some(merge_by_start(merge_by_start(x, y), z)),
        _ => None,
    }
}

/// Whether a block list is ordered by ascending span start.
pub open spec fn sorted_by_start(v: Seq<BlockView>) -> bool {
    forall|i: int, j: int|
        #![trigger v[i], v[j]]
        0 <= i <= j < v.len() ==> v[i].start <= v[j].start
}

/// Every header the scan discovers starts at or after `from`.
proof fn lemma_matches_from_ge(w: Seq<u8>, c: PatternClass, from: int)
    ensures
        forall|i: int|
            0 <= i < matches_from(w, c, from).len() ==> (#[trigger] matches_from(w, c, from)[i]).start
                >= from,
    decreases w.len() - from,
{
    if 0 <= from <= w.len() {
        match first_match_from(w, c, from) {
            None => {},
            Some(k) => match match_at(w, c, k) {
                None => {},
                Some(h) => {
                    lemma_first_match_found(w, c, from);
                    lemma_match_at_bounds(w, c, k);
                    lemma_matches_from_ge(w, c, h.term + 1);
                    assert(matches_from(w, c, from) == seq![h] + matches_from(w, c, h.term + 1));
                },
            },
        }
    }
}

/// The discovered headers of one class come in strictly ascending start
/// order.
proof fn lemma_matches_from_sorted(w: Seq<u8>, c: PatternClass, from: int)
    ensures
        forall|i: int, j: int|
            #![trigger matches_from(w, c, from)[i], matches_from(w, c, from)[j]]
            0 <= i < j < matches_from(w, c, from).len() ==> matches_from(w, c, from)[i].start
                < matches_from(w, c, from)[j].start,
    decreases w.len() - from,
{
    if 0 <= from <= w.len() {
        match first_match_from(w, c, from) {
            None => {},
            Some(k) => match match_at(w, c, k) {
                None => {},
                Some(h) => {
                    lemma_first_match_found(w, c, from);
                    lemma_match_at_bounds(w, c, k);
                    lemma_matches_from_sorted(w, c, h.term + 1);
                    lemma_matches_from_ge(w, c, h.term + 1);
                    assert(matches_from(w, c, from) == seq![h] + matches_from(w, c, h.term + 1));
                },
            },
        }
    }
}

/// A common lower bound on the starts of two lists bounds their merge.
proof fn lemma_merge_lower_bound(a: Seq<BlockView>, b: Seq<BlockView>, x: int)
    requires
        forall|i: int| 0 <= i < a.len() ==> x <= (#[trigger] a[i]).start,
        forall|i: int| 0 <= i < b.len() ==> x <= (#[trigger] b[i]).start,
    ensures
        forall|i: int|
            0 <= i < merge_by_start(a, b).len() ==> x <= (#[trigger] merge_by_start(a, b)[i]).start,
    decreases a.len() + b.len(),
{
    if a.len() > 0 && b.len() > 0 {
        if a[0].start <= b[0].start {
            lemma_merge_lower_bound(a.drop_first(), b, x);
        } else {
            lemma_merge_lower_bound(a, b.drop_first(), x);
        }
    }
}

/// Merging two lists ordered by start yields a list ordered by start.
proof fn lemma_merge_sorted(a: Seq<BlockView>, b: Seq<BlockView>)
    requires
        sorted_by_start(a),
        sorted_by_start(b),
    ensures
        sorted_by_start(merge_by_start(a, b)),
    decreases a.len() + b.len(),
{
    if a.len() > 0 && b.len() > 0 {
        if a[0].start <= b[0].start {
            assert(sorted_by_start(a.drop_first()));
            lemma_merge_sorted(a.drop_first(), b);
            lemma_merge_lower_bound(a.drop_first(), b, a[0].start);
        } else {
            assert(sorted_by_start(b.drop_first()));
            lemma_merge_sorted(a, b.drop_first());
            lemma_merge_lower_bound(a, b.drop_first(), b[0].start);
        }
    }
}

/// Whether every span in a block list is well formed within a text of
/// length `n`: starts before it ends, and ends within the text.
pub open spec fn spans_valid(v: Seq<BlockView>, n: int) -> bool {
    forall|i: int| 0 <= i < v.len() ==> 0 <= (#[trigger] v[i]).start < v[i].end <= n
}

/// The spans of one class's blocks are well formed: each runs from its
/// keyword to past its terminator (and past the paired close delimiter,
/// when the block has a body), all within the text.
proof fn lemma_class_blocks_spans(t: Seq<u8>, c: PatternClass)
    ensures
        class_blocks(t, c) matches Some(v) ==> spans_valid(v, t.len() as int),
{
    let w = neutralized(t);
    let hs = matches_from(w, c, 0);
    lemma_matches_from_wf(w, c, 0);
    if class_blocks(t, c) is Some {
        let v = class_blocks(t, c)->Some_0;
        assert forall|i: int| 0 <= i < v.len() implies 0 <= (#[trigger] v[i]).start < v[i].end
            <= t.len() by {
            let h = hs[i];
            assert(block_end(w, c, h) is Some);
            if !(c is Unit) {
                let sub = w.subrange(h.term + 1, w.len() as int);
                crate::matcher::lemma_balance_point_bounds(sub, class_term(c), class_close(c));
            }
        }
    }
}

/// Merging preserves well-formed spans.
proof fn lemma_merge_spans(a: Seq<BlockView>, b: Seq<BlockView>, n: int)
    requires
        spans_valid(a, n),
        spans_valid(b, n),
    ensures
        spans_valid(merge_by_start(a, b), n),
    decreases a.len() + b.len(),
{
    if a.len() > 0 && b.len() > 0 {
        if a[0].start <= b[0].start {
            assert(spans_valid(a.drop_first(), n));
            lemma_merge_spans(a.drop_first(), b, n);
        } else {
            assert(spans_valid(b.drop_first(), n));
            lemma_merge_spans(a, b.drop_first(), n);
        }
    }
}

/// Every span of an extraction is well formed: `0 <= start < end <= len`.
pub proof fn lemma_extraction_spans(t: Seq<u8>)
    ensures
        extraction(t) matches Some(v) ==> spans_valid(v, t.len() as int),
{
    if extraction(t) is Some {
        let x = class_blocks(t, PatternClass::Body)->Some_0;
        let y = class_blocks(t, PatternClass::Tuple)->Some_0;
        let z = class_blocks(t, PatternClass::Unit)->Some_0;
        lemma_class_blocks_spans(t, PatternClass::Body);
        lemma_class_blocks_spans(t, PatternClass::Tuple);
        lemma_class_blocks_spans(t, PatternClass::Unit);
        lemma_merge_spans(x, y, t.len() as int);
        lemma_merge_spans(merge_by_start(x, y), z, t.len() as int);
    }
}

/// The blocks of one class are ordered by ascending span start.
proof fn lemma_class_blocks_sorted(t: Seq<u8>, c: PatternClass)
    ensures
        class_blocks(t, c) matches Some(v) ==> sorted_by_start(v),
{
    lemma_matches_from_sorted(neutralized(t), c, 0);
}

/// The result list of an extraction is ordered by ascending span start.
pub proof fn lemma_extraction_sorted(t: Seq<u8>)
    ensures
        extraction(t) matches Some(v) ==> sorted_by_start(v),
{
    if extraction(t) is Some {
        let x = class_blocks(t, PatternClass::Body)->Some_0;
        let y = class_blocks(t, PatternClass::Tuple)->Some_0;
        let z = class_blocks(t, PatternClass::Unit)->Some_0;
        lemma_class_blocks_sorted(t, PatternClass::Body);
        lemma_class_blocks_sorted(t, PatternClass::Tuple);
        lemma_class_blocks_sorted(t, PatternClass::Unit);
        lemma_merge_sorted(x, y);
        lemma_merge_sorted(merge_by_start(x, y), z);
    }
}

/// Scan `text` for every declaration block of the three pattern classes
/// and return them ordered by ascending span start.  Returns `Unbalanced`
/// exactly when some discovered block's body never closes, in which case no
/// partial result is produced.
pub fn get_code_blocks(text: &[u8]) -> (r: Result<Vec<CodeBlock>, ParseError>)
    requires
        text@.len() < usize::MAX,
    ensures
        r matches Ok(v) ==> extraction(text@) == Some(v@.map_values(|b: CodeBlock| b@)),
        r matches Ok(v) ==> sorted_by_start(v@.map_values(|b: CodeBlock| b@)),
        r matches Ok(v) ==> spans_valid(v@.map_values(|b: CodeBlock| b@), text@.len() as int),
        r is Err ==> extraction(text@) is None && r == Err::<Vec<CodeBlock>, ParseError>(
            ParseError::Unbalanced,
        ),
{
    proof {
        lemma_extraction_sorted(text@);
        lemma_extraction_spans(text@);
    }
    let white: Vec<u8> = match whiteout(text) {
        Ok(w) => w,
        Err(e) => {
            proof {
                assert(false);
            }
            return Err(e);
        },
    };
    let body: Vec<CodeBlock> = match class_blocks_x(text, white.as_slice(), PatternClass::Body) {
        Ok(v) => v,
        Err(e) => {
            return Err(e);
        },
    };
    let tuple: Vec<CodeBlock> = match class_blocks_x(text, white.as_slice(), PatternClass::Tuple) {
        Ok(v) => v,
        Err(e) => {
            return Err(e);
        },
    };
    let unit: Vec<CodeBlock> = match class_blocks_x(text, white.as_slice(), PatternClass::Unit) {
        Ok(v) => v,
        Err(e) => {
            return Err(e);
        },
    };
    let merged: Vec<CodeBlock> = merge_blocks(merge_blocks(body, tuple), unit);
    Ok(merged)
}

} // verus!
