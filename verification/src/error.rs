//! The ways in which parsing fails.

use vstd::prelude::*;

verus! {

/// Why a buffer could not be parsed. Every offset counts bytes from the start
/// of the text that the cursor reads.
#[derive(Clone, Copy, Debug, PartialEq, Eq, Structural)]
pub enum ParseError {
    /// A token was required where the input ends.
    EndOfInput,
    /// The byte at the offset fits no alternative of the grammar there.
    UnexpectedCharacter(u8, usize),
    /// The string literal whose opening quote stands at the offset is never
    /// closed.
    UnterminatedString(usize),
    /// An evaluated expression, which starts with `$` at the offset. Its
    /// syntax is not defined.
    UnsupportedExpression(usize),
}

} // verus!
