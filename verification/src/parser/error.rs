//! What can be wrong with a run of tokens, and how it is put in words.

use crate::lexer::token::token_name;
use crate::lexer::{Span, Token};
use vstd::prelude::*;
use vstd::string::*;

verus! {

/// A parse error.
///
/// The kinds are a closed set, so that a caller can match on them rather than on prose.
#[derive(Debug, PartialEq)]
pub struct ParseError {
    pub span: Span,
    pub kind: ParseErrorKind,
}

#[derive(Debug, PartialEq)]
pub enum ParseErrorKind {
    /// Nothing that may stand here was found.
    Expected { expected: Vec<Expected>, found: Option<Token> },
    /// `enum Color { .. }`: not a keyword; sum types are unions of records.
    EnumDeclaration,
    /// `fn main() -> i64` or `fn main() throws E`: main's signature is fixed.
    MainSignatureFixed,
    /// `p.f = e`: records are values, and there is no field assignment.
    FieldAssignment,
    /// `xs[i] = e`: lists and maps are values, and there is no index assignment.
    IndexAssignment,
    /// `f() = e` and the like: the target is not something that can be rebound.
    InvalidAssignTarget,
    /// `(x,)`: there is no tuple of one element.
    OneElementTuple,
}

/// What the parser wanted.
#[derive(Debug, PartialEq)]
pub enum Expected {
    Token(Token),
    /// A named construct.
    Label(&'static str),
    EndOfInput,
    /// Anything at all.
    Something,
}

/// A parse error as a mathematical value.
pub struct SParseError {
    pub span: Span,
    pub kind: SParseErrorKind,
}

pub enum SParseErrorKind {
    Expected { expected: Seq<Expected>, found: Option<Token> },
    EnumDeclaration,
    MainSignatureFixed,
    FieldAssignment,
    IndexAssignment,
    InvalidAssignTarget,
    OneElementTuple,
}

impl View for ParseErrorKind {
    type V = SParseErrorKind;

    open spec fn view(&self) -> SParseErrorKind {
        match *self {
            ParseErrorKind::Expected { expected, found } => SParseErrorKind::Expected {
                expected: expected@,
                found,
            },
            ParseErrorKind::EnumDeclaration => SParseErrorKind::EnumDeclaration,
            ParseErrorKind::MainSignatureFixed => SParseErrorKind::MainSignatureFixed,
            ParseErrorKind::FieldAssignment => SParseErrorKind::FieldAssignment,
            ParseErrorKind::IndexAssignment => SParseErrorKind::IndexAssignment,
            ParseErrorKind::InvalidAssignTarget => SParseErrorKind::InvalidAssignTarget,
            ParseErrorKind::OneElementTuple => SParseErrorKind::OneElementTuple,
        }
    }
}

impl View for ParseError {
    type V = SParseError;

    open spec fn view(&self) -> SParseError {
        SParseError { span: self.span, kind: self.kind@ }
    }
}

/// How a wanted thing is named.
pub open spec fn expected_name(e: Expected) -> Seq<char> {
    match e {
        Expected::Token(t) => token_name(t),
        Expected::Label(l) => l@,
        Expected::EndOfInput => "end of input"@,
        Expected::Something => "something"@,
    }
}

/// The words without repetitions, each where it first stands.
pub open spec fn distinct(words: Seq<Seq<char>>) -> Seq<Seq<char>>
    decreases words.len(),
{
    if words.len() == 0 {
        seq![]
    } else {
        let d = distinct(words.drop_last());
        if d.contains(words.last()) {
            d
        } else {
            d.push(words.last())
        }
    }
}

/// The words with `sep` between them.
pub open spec fn joined(words: Seq<Seq<char>>, sep: Seq<char>) -> Seq<char>
    decreases words.len(),
{
    if words.len() == 0 {
        seq![]
    } else if words.len() == 1 {
        words[0]
    } else {
        joined(words.drop_last(), sep) + sep + words.last()
    }
}

/// `a`, `a or b`, `a, b or c`.
pub open spec fn alternatives(words: Seq<Seq<char>>) -> Seq<char> {
    if words.len() == 0 {
        "something else"@
    } else if words.len() == 1 {
        words[0]
    } else {
        joined(words.drop_last(), ", "@) + " or "@ + words.last()
    }
}

/// The names of the wanted things, without repetitions.
pub open spec fn expected_names(expected: Seq<Expected>) -> Seq<Seq<char>> {
    distinct(expected.map_values(|e: Expected| expected_name(e)))
}

/// A parse error in words.
pub open spec fn message(kind: SParseErrorKind) -> Seq<char> {
    match kind {
        SParseErrorKind::Expected { expected, found } => "expected "@ + alternatives(
            expected_names(expected),
        ) + match found {
            Some(t) => ", found "@ + token_name(t),
            None => ", found end of input"@,
        },
        SParseErrorKind::EnumDeclaration =>
            "`enum` does not exist: declare the variants as records and union them, e.g. `record Red {}` `record Green {}` `type Color = Red | Green`"@,
        SParseErrorKind::MainSignatureFixed =>
            "`main` takes no return type and no `throws` clause: it returns `()` and implicitly throws `Error`. Use `std::exit(n)` for an exit code"@,
        SParseErrorKind::FieldAssignment =>
            "records are values: there is no field assignment. Build a new record instead, e.g. `p = Point { ..p, x: 1 }`"@,
        SParseErrorKind::IndexAssignment =>
            "lists and maps are values: there is no index assignment. Use the returned copy instead, e.g. `xs = list::set(xs, i, v)`"@,
        SParseErrorKind::InvalidAssignTarget =>
            "cannot assign to this: only a binding can be rebound"@,
        SParseErrorKind::OneElementTuple =>
            "there is no tuple of one element: `(x,)` would be one, and `(x)` is just `x`"@,
    }
}

impl Expected {
    pub fn name(&self) -> (r: String)
        ensures
            r@ == expected_name(*self),
    {
        match self {
            Expected::Token(t) => t.describe(),
            Expected::Label(l) => (*l).to_owned(),
            Expected::EndOfInput => "end of input".to_owned(),
            Expected::Something => "something".to_owned(),
        }
    }
}

spec fn words_of(v: Seq<String>) -> Seq<Seq<char>> {
    v.map_values(|s: String| s@)
}

fn contains_word(words: &Vec<String>, w: &String) -> (r: bool)
    ensures
        r == words_of(words@).contains(w@),
{
    let mut i: usize = 0;
    while i < words.len()
        invariant
            i <= words.len(),
            forall|j: int| 0 <= j < i ==> (#[trigger] words[j])@ != w@,
        decreases words.len() - i,
    {
        if words[i] == *w {
            assert(words_of(words@)[i as int] == w@);
            return true;
        }
        i += 1;
    }
    assert forall|j: int| 0 <= j < words_of(words@).len() implies words_of(words@)[j] != w@ by {
        assert(words_of(words@)[j] == words[j]@);
    }
    false
}

fn names(expected: &Vec<Expected>) -> (r: Vec<String>)
    ensures
        words_of(r@) == expected_names(expected@),
{
    let ghost all = expected@.map_values(|e: Expected| expected_name(e));
    let mut seen: Vec<String> = Vec::new();
    let mut i: usize = 0;
    assert(words_of(seen@) =~= distinct(all.take(0)));
    while i < expected.len()
        invariant
            i <= expected.len(),
            all == expected@.map_values(|e: Expected| expected_name(e)),
            words_of(seen@) == distinct(all.take(i as int)),
        decreases expected.len() - i,
    {
        let w = expected[i].name();
        assert(all.take(i + 1).drop_last() =~= all.take(i as int));
        assert(all.take(i + 1).last() == w@);
        if !contains_word(&seen, &w) {
            let ghost before = seen@;
            seen.push(w);
            assert(words_of(seen@) =~= words_of(before).push(w@));
        }
        i += 1;
    }
    assert(all.take(i as int) =~= all);
    seen
}

/// Append the first `n` words to `out`, with commas between them.
fn push_joined(out: &mut String, words: &Vec<String>, n: usize)
    requires
        n <= words.len(),
    ensures
        final(out)@ == old(out)@ + joined(words_of(words@).take(n as int), ", "@),
    decreases n,
{
    let ghost ws = words_of(words@).take(n as int);
    if n == 0 {
        assert(out@ =~= old(out)@ + joined(ws, ", "@));
    } else if n == 1 {
        out.append(words[0].as_str());
        assert(ws[0] == words[0]@);
    } else {
        push_joined(out, words, n - 1);
        assert(ws.drop_last() =~= words_of(words@).take(n - 1));
        out.append(", ");
        out.append(words[n - 1].as_str());
        assert(ws.last() == words[n - 1]@);
        assert(out@ =~= old(out)@ + joined(ws, ", "@));
    }
}

fn push_alternatives(out: &mut String, words: &Vec<String>)
    ensures
        final(out)@ == old(out)@ + alternatives(words_of(words@)),
{
    let ghost ws = words_of(words@);
    let n: usize = words.len();
    if n == 0 {
        out.append("something else");
    } else if n == 1 {
        out.append(words[0].as_str());
        assert(ws[0] == words[0]@);
    } else {
        push_joined(out, words, n - 1);
        assert(ws.drop_last() =~= ws.take(n - 1));
        out.append(" or ");
        out.append(words[n - 1].as_str());
        assert(ws.last() == words[n - 1]@);
        assert(out@ =~= old(out)@ + alternatives(ws));
    }
}

impl ParseError {
    pub fn new(span: Span, kind: ParseErrorKind) -> (r: ParseError)
        ensures
            r.span == span,
            r.kind == kind,
    {
        ParseError { span, kind }
    }

    /// This error in words.
    pub fn describe(&self) -> (r: String)
        ensures
            r@ == message(self.kind@),
    {
        match &self.kind {
            ParseErrorKind::Expected { expected, found } => {
                let mut out = "expected ".to_owned();
                push_alternatives(&mut out, &names(expected));
                match found {
                    Some(t) => {
                        out.append(", found ");
                        out.append(t.describe().as_str());
                    },
                    None => out.append(", found end of input"),
                }
                assert(out@ =~= message(self.kind@));
                out
            },
            ParseErrorKind::EnumDeclaration =>
                "`enum` does not exist: declare the variants as records and union them, e.g. `record Red {}` `record Green {}` `type Color = Red | Green`".to_owned(),
            ParseErrorKind::MainSignatureFixed =>
                "`main` takes no return type and no `throws` clause: it returns `()` and implicitly throws `Error`. Use `std::exit(n)` for an exit code".to_owned(),
            ParseErrorKind::FieldAssignment =>
                "records are values: there is no field assignment. Build a new record instead, e.g. `p = Point { ..p, x: 1 }`".to_owned(),
            ParseErrorKind::IndexAssignment =>
                "lists and maps are values: there is no index assignment. Use the returned copy instead, e.g. `xs = list::set(xs, i, v)`".to_owned(),
            ParseErrorKind::InvalidAssignTarget =>
                "cannot assign to this: only a binding can be rebound".to_owned(),
            ParseErrorKind::OneElementTuple =>
                "there is no tuple of one element: `(x,)` would be one, and `(x)` is just `x`".to_owned(),
        }
    }
}

/// Complaints add up in order.
pub broadcast proof fn notes_assoc(a: Seq<SParseError>, b: Seq<SParseError>, c: Seq<SParseError>)
    ensures
        #[trigger] ((a + b) + c) == a + (b + c),
{
    assert((a + b) + c =~= a + (b + c));
}

pub broadcast proof fn notes_none(a: Seq<SParseError>)
    ensures
        #[trigger] (a + Seq::<SParseError>::empty()) == a,
{
    assert(a + Seq::<SParseError>::empty() =~= a);
}

pub broadcast proof fn notes_first(a: Seq<SParseError>)
    ensures
        #[trigger] (Seq::<SParseError>::empty() + a) == a,
{
    assert(Seq::<SParseError>::empty() + a =~= a);
}

pub broadcast group group_notes {
    notes_assoc,
    notes_none,
    notes_first,
}

} // verus!
