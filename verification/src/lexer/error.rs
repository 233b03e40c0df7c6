//! What can be wrong with a piece of source text.

use super::token::Span;
use vstd::prelude::*;

verus! {

/// What a lexical error is about.
#[derive(Debug, Clone, Copy, PartialEq, Eq, Structural)]
pub enum LexErrorKind {
    UnterminatedString,
    /// A `#{` whose `}` never comes.
    UnterminatedInterp,
    UnterminatedBlockComment,
    /// A byte-order mark anywhere but at the very start.
    UnexpectedBom,
    UnexpectedChar(char),
    BadHexEscape,
    BadUnicodeEscape,
    UnknownEscape(char),
    UnterminatedRune,
    EmptyRune,
    /// A rune literal that holds more than one character.
    OvershortRune,
    /// A number without digits where it needs some.
    EmptyIntLiteral,
    /// A literal that does not fit 64 bits.
    IntegerOverflow,
    /// An underscore that does not stand alone between two digits.
    MisplacedUnderscore,
}

/// An error and the bytes it is about.
#[derive(Debug, PartialEq)]
pub struct LexError {
    pub kind: LexErrorKind,
    pub span: Span,
}

/// An error with its place, as numbers.
pub struct Fault {
    pub kind: LexErrorKind,
    pub start: int,
    pub end: int,
}

impl View for LexError {
    type V = Fault;

    open spec fn view(&self) -> Fault {
        Fault { kind: self.kind, start: self.span.start as int, end: self.span.end as int }
    }
}

impl LexError {
    pub fn new(kind: LexErrorKind, span: Span) -> (r: LexError)
        ensures
            r.kind == kind,
            r.span == span,
    {
        LexError { kind, span }
    }
}

} // verus!
