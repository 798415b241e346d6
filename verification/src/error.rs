//! The failures that end a parse.

use vstd::prelude::*;

verus! {

/// The text is not validly indented. Holds the tokenizer's own error,
/// which names the offending line.
#[derive(Debug)]
pub struct IndentationFail(pub indent_tokenizer::Error);

/// Why a text gave no locks.
#[derive(Debug)]
pub enum ParseError {
    /// The text is not validly indented.
    Indentation(IndentationFail),
    /// The text is longer than the tokenizer can count the lines of.
    TooLong,
}

} // verus!
