//! What stands between tokens: comments, and where lines start.
//!
//! The parser never sees these. They ride beside the tokens so that a formatter can put
//! the author's comments and blank lines back.

use super::token::{Span, Spanned};
use vstd::prelude::*;

verus! {

/// The three kinds of comment.
#[derive(Debug, Clone, Copy, PartialEq, Eq, Structural)]
pub enum TriviaKind {
    /// `// ..`
    Line,
    /// `/// ..`, but not `//// ..`
    Doc,
    /// `/* .. */`, which nests
    Block,
}

/// One comment: its bytes, delimiters and all, and its text without them.
#[derive(Debug, PartialEq)]
pub struct Trivia {
    pub kind: TriviaKind,
    pub span: Span,
    pub text: String,
}

/// A comment as numbers and characters.
pub struct Comment {
    pub kind: TriviaKind,
    pub start: int,
    pub end: int,
    pub text: Seq<char>,
}

impl View for Trivia {
    type V = Comment;

    open spec fn view(&self) -> Comment {
        Comment {
            kind: self.kind,
            start: self.span.start as int,
            end: self.span.end as int,
            text: self.text@,
        }
    }
}

/// A file taken apart.
#[derive(Debug, PartialEq)]
pub struct Lexed {
    pub tokens: Vec<Spanned>,
    pub trivia: Vec<Trivia>,
    /// The byte offset at which each line starts, the first line's 0 included.
    pub line_starts: Vec<usize>,
}

/// How many of the offsets lie after `a` and not after `b`.
pub open spec fn starts_between(starts: Seq<usize>, a: int, b: int) -> nat
    decreases starts.len(),
{
    if starts.len() == 0 {
        0
    } else {
        starts_between(starts.drop_last(), a, b) + if a < starts.last() <= b {
            1nat
        } else {
            0nat
        }
    }
}

impl Lexed {
    /// How many blank lines separate what ends at byte `a_end` from what starts at byte
    /// `b_start`: one less than the line breaks between them.
    pub fn blank_lines_between(&self, a_end: usize, b_start: usize) -> (n: usize)
        ensures
            n == if starts_between(self.line_starts@, a_end as int, b_start as int) == 0 {
                0
            } else {
                starts_between(self.line_starts@, a_end as int, b_start as int) - 1
            },
    {
        let mut n: usize = 0;
        let mut i: usize = 0;
        while i < self.line_starts.len()
            invariant
                i <= self.line_starts.len(),
                n <= i,
                n == starts_between(self.line_starts@.take(i as int), a_end as int, b_start as int),
            decreases self.line_starts.len() - i,
        {
            let at: usize = self.line_starts[i];
            assert(self.line_starts@.take(i + 1).drop_last() =~= self.line_starts@.take(i as int));
            if a_end < at && at <= b_start {
                n += 1;
            }
            i += 1;
        }
        assert(self.line_starts@.take(i as int) =~= self.line_starts@);
        if n == 0 {
            0
        } else {
            n - 1
        }
    }
}

} // verus!
