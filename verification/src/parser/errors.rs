//! What a failed parse reports.

use vstd::prelude::*;

verus! {

/// The rule that the input broke.
#[derive(Clone, Copy, Debug, PartialEq, Eq, Structural)]
pub enum ErrorKind {
    /// A `<` was required.
    ExpectedTagOpen,
    /// A `>` was required.
    ExpectedTagClose,
    /// An identifier was required where a tag, trait or attribute is named.
    ExpectedTagName,
    /// The text at a value position is none of the five literal forms,
    /// or holds an integer that does not fit 64 bits.
    MalformedLiteral,
    /// The closing marker does not repeat the opening name.
    MismatchedClosingTag,
    /// The input ended where the broken rule needed more of it.
    UnexpectedEndOfInput,
}

/// A failed parse: the broken rule, and the index of the character
/// (counted from the start of the text handed in) at which it was tried.
#[derive(Clone, Copy, Debug, PartialEq, Eq, Structural)]
pub struct SyntaxError {
    pub kind: ErrorKind,
    pub position: usize,
}

/// What the grammar makes of a text at a position: a value and the position
/// just behind it, or the broken rule and where it was tried.
pub enum Outcome<T> {
    Accepted { value: T, end: int },
    Rejected { kind: ErrorKind, position: int },
}

impl<T> Outcome<T> {
    /// The error that an executable parser returns for a rejection.
    pub open spec fn error(self) -> SyntaxError
        recommends
            self is Rejected,
    {
        SyntaxError { kind: self->kind, position: self->position as usize }
    }
}

} // verus!
