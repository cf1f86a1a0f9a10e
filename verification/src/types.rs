//! The result types of the scan: the error taxonomy, the closed set of
//! declaration kinds, and one extracted declaration block.

use vstd::prelude::*;

verus! {

/// Why an extraction aborted: the delimiter matcher exhausted its input
/// before the nesting depth returned to zero, so the text cannot be scanned
/// safely past that point.
#[derive(Debug, Clone, Copy, PartialEq, Eq, Structural)]
pub enum ParseError {
    Unbalanced,
}

/// The kind of a declaration block, assigned once from the matched keyword.
#[derive(Debug, Clone, Copy, PartialEq, Eq, Structural)]
pub enum CodeTypes {
    Fn,
    Enum,
    Struct,
    Trait,
    Mod,
}

/// One extracted declaration.
///
/// `name` holds the identifier that follows the keyword, `sig` the text from
/// the keyword up to (but not including) the delimiter that opens the body,
/// trimmed of surrounding whitespace, and `pos` the byte span of the block in
/// the original text: `pos.0` is the offset of the keyword, `pos.1` one past
/// the close delimiter (or one past the terminating semicolon for a bare
/// declaration without a body).
#[derive(Debug)]
pub struct CodeBlock {
    pub name: Vec<u8>,
    pub kind: CodeTypes,
    pub sig: Vec<u8>,
    pub pos: (usize, usize),
}

/// The mathematical content of a `CodeBlock`: its fields as sequences and
/// unbounded integers.
pub ghost struct BlockView {
    pub name: Seq<u8>,
    pub kind: CodeTypes,
    pub sig: Seq<u8>,
    pub start: int,
    pub end: int,
}

impl View for CodeBlock {
    type V = BlockView;

    open spec fn view(&self) -> BlockView {
        BlockView {
            name: self.name@,
            kind: self.kind,
            sig: self.sig@,
            start: self.pos.0 as int,
            end: self.pos.1 as int,
        }
    }
}

} // verus!
