use vstd::prelude::*;

verus! {

/// Why a parse failed. Every variant carries the byte offset from the start
/// of the input at which the failure was found.
#[derive(Debug, Clone, Copy, PartialEq, Eq, Structural)]
pub enum ParseError {
    /// A `null`, `true` or `false` literal started at `pos` but diverged.
    MalformedLiteral { pos: usize },
    /// The character `found` at `pos` cannot start a token or continue a number.
    UnexpectedCharacter { pos: usize, found: char },
    /// A second `e`/`E` in the number literal, at `pos`.
    DoubleExponentMarker { pos: usize },
    /// The number literal starting at `pos` does not denote a number of its kind.
    NumberFormat { pos: usize },
    /// The string opened by the quote at `pos` is never closed.
    UnterminatedString { pos: usize },
    /// The bytes from `offset` on have no valid UTF-8 prefix.
    Utf8Decode { offset: usize },
}

} // verus!
