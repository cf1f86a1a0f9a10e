//! Extraction of top-level declaration blocks (functions, structs, enums,
//! traits, modules) and their byte spans from C-family source text.
//!
//! The pipeline has three stages, each verified against a mathematical model
//! of the text as a sequence of bytes:
//! - `comments`: a neutralization pass that blanks comment bodies to spaces
//!   while preserving byte length and newline positions;
//! - `matcher`: a delimiter-balance matcher that finds the close delimiter
//!   paired with an already-consumed open delimiter;
//! - `parse`: header-pattern discovery over the neutralized text, mapping the
//!   discovered offsets back onto the original text.

pub mod comments;
pub mod matcher;
pub mod parse;
pub mod types;

pub use comments::whiteout;
pub use matcher::find_match;
pub use parse::get_code_blocks;
pub use types::CodeBlock;
pub use types::CodeTypes;
pub use types::ParseError;
