//! Tokens to a syntax tree, by recursive descent.
//!
//! [`grammar`] says which tree a run of tokens reads as; the functions here compute it, one
//! function to a rule.

mod decl;
pub mod error;
mod expr;
pub mod grammar;
pub mod laws;

pub use error::{Expected, ParseError, ParseErrorKind};

use crate::ast::{Field, LambdaParam, Module, TypeSpec, TypeSpecKind};
use crate::number::number_exprs;
use crate::lexer::{Span, Spanned, Token};
use crate::syntax::{
    decls_of, fields_of, group_lists, names_of, opt_name_of, sems, type_specs_of, Node,
    STypeSpecKind,
};
use crate::text::str_eq;
use error::{group_notes, SParseError};
use grammar::{Res, TypeMode};
use vstd::prelude::*;

verus! {

broadcast use {group_lists, group_notes};

/// Where the tokens stop making sense, and what was wanted there.
pub(crate) struct Fail {
    pub at: usize,
    pub want: Vec<Expected>,
}

/// A tree and the position after it, or where it failed.
pub(crate) type R<T> = Result<(T, usize), Fail>;

pub open spec fn errs(es: Seq<ParseError>) -> Seq<SParseError> {
    es.map_values(|e: ParseError| e@)
}

pub(crate) fn want(i: usize, t: Token) -> (f: Fail)
    ensures
        f.at == i,
        f.want@ == seq![Expected::Token(t)],
{
    let mut want: Vec<Expected> = Vec::new();
    want.push(Expected::Token(t));
    assert(want@ =~= seq![Expected::Token(t)]);
    Fail { at: i, want }
}

pub(crate) fn want2(i: usize, t: Token, u: Token) -> (f: Fail)
    ensures
        f.at == i,
        f.want@ == seq![Expected::Token(t), Expected::Token(u)],
{
    let mut want: Vec<Expected> = Vec::new();
    want.push(Expected::Token(t));
    want.push(Expected::Token(u));
    assert(want@ =~= seq![Expected::Token(t), Expected::Token(u)]);
    Fail { at: i, want }
}

pub(crate) fn lack(i: usize, label: &'static str) -> (f: Fail)
    ensures
        f.at == i,
        f.want@ == seq![Expected::Label(label)],
{
    let mut want: Vec<Expected> = Vec::new();
    want.push(Expected::Label(label));
    assert(want@ =~= seq![Expected::Label(label)]);
    Fail { at: i, want }
}

pub(crate) struct Parser<'a> {
    pub toks: &'a [Spanned],
    /// Complaints that did not stop the reading.
    pub notes: Vec<ParseError>,
}

/// What a function that reads a rule without complaints does: it finds what the grammar
/// says.
pub(crate) open spec fn saw<T: Node>(p: Parser, r: R<T>, s: Res<T::V>, least: int) -> bool {
    match r {
        Ok((x, j)) => {
            &&& s matches Ok(g)
            &&& g.node == x.sem()
            &&& g.next == j
            &&& least <= j <= p.toks.len()
        },
        Err(f) => {
            &&& s matches Err(m)
            &&& m.at == f.at
            &&& m.want == f.want@
        },
    }
}

/// What a function that reads a rule does: it finds what the grammar says, and adds the
/// grammar's complaints to those there were. Nothing is said of complaints where it fails.
pub(crate) open spec fn did<T: Node>(p0: Parser, p1: Parser, r: R<T>, s: Res<T::V>, least: int) -> bool {
    &&& p1.toks == p0.toks
    &&& match r {
        Ok((x, j)) => {
            &&& s matches Ok(g)
            &&& g.node == x.sem()
            &&& g.next == j
            &&& errs(p1.notes@) == errs(p0.notes@) + g.notes
            &&& least <= j <= p0.toks.len()
        },
        Err(f) => {
            &&& s matches Err(m)
            &&& m.at == f.at
            &&& m.want == f.want@
        },
    }
}

// ---- leaves ----

impl<'a> Parser<'a> {
    /// Whether token `i` exists and is `t`.
    pub(super) fn at(&self, i: usize, t: &Token) -> (r: bool)
        requires
            t@ is Fixed,
        ensures
            r == grammar::tok(self.toks@, i as int, *t),
    {
        i < self.toks.len() && self.toks[i].token.is(t)
    }

    /// The bytes from token `i` to the token before `j`.
    pub(super) fn span(&self, i: usize, j: usize) -> (r: Span)
        requires
            i < j <= self.toks.len(),
        ensures
            r == grammar::span(self.toks@, i as int, j as int),
    {
        self.toks[i].span.start..self.toks[j - 1].span.end
    }

    pub(super) fn note(&mut self, span: Span, kind: ParseErrorKind)
        ensures
            final(self).toks == old(self).toks,
            errs(final(self).notes@) == errs(old(self).notes@) + seq![
                grammar::note(span, kind@),
            ],
    {
        self.notes.push(ParseError::new(span, kind));
        assert(errs(self.notes@) =~= errs(old(self).notes@) + seq![grammar::note(span, kind@)]);
    }

    /// The name of the identifier at `i`, if there is one.
    pub(super) fn name(&self, i: usize) -> (r: Option<String>)
        ensures
            opt_name_of(r) == grammar::name_at(self.toks@, i as int),
            r is Some ==> i < self.toks.len(),
    {
        if i < self.toks.len() {
            match &self.toks[i].token {
                Token::Ident(s) => Some(s.clone()),
                _ => None,
            }
        } else {
            None
        }
    }

    pub(super) fn path(&self, i: usize) -> (r: R<Vec<String>>)
        requires
            i <= self.toks.len(),
        ensures
            saw(*self, r, grammar::path(self.toks@, i as int), i + 1),
    {
        let ghost ts = self.toks@;
        let first = match self.name(i) {
            Some(s) => s,
            None => {
                return Err(lack(i, "an identifier"));
            },
        };
        let mut acc: Vec<String> = Vec::new();
        acc.push(first);
        assert(sems(acc@) =~= seq![first@]);
        let mut j: usize = i + 1;
        loop
            invariant
                i < j <= self.toks.len(),
                ts == self.toks@,
                grammar::path(ts, i as int) == grammar::path_from(ts, j as int, sems(acc@)),
            decreases self.toks.len() - j,
        {
            if !self.at(j, &Token::ColonColon) {
                return Ok((acc, j));
            }
            match self.name(j + 1) {
                None => {
                    return Ok((acc, j));
                },
                Some(s) => {
                    let ghost before = acc@;
                    acc.push(s);
                    assert(sems(acc@) =~= sems(before).push(s@));
                    j += 2;
                },
            }
        }
    }

    /// A string without interpolations.
    pub(super) fn plain_str(&self, i: usize) -> (r: R<String>)
        requires
            i <= self.toks.len(),
        ensures
            saw(*self, r, grammar::plain_str(self.toks@, i as int), i + 1),
    {
        if !self.at(i, &Token::StrStart) {
            return Err(lack(i, "a string"));
        }
        if i + 1 < self.toks.len() {
            if let Token::StrText(s) = &self.toks[i + 1].token {
                let text = s.clone();
                if self.at(i + 2, &Token::StrEnd) {
                    return Ok((text, i + 3));
                }
                return Err(want(i + 2, Token::StrEnd));
            }
        }
        if self.at(i + 1, &Token::StrEnd) {
            let none = String::new();
            assert(none@ =~= seq![]);
            Ok((none, i + 2))
        } else {
            Err(want(i + 1, Token::StrEnd))
        }
    }

    /// The position after the `}` that closes the brace open at `i`.
    pub(super) fn braces_end(&self, i: usize) -> (r: Option<usize>)
        requires
            1 <= i <= self.toks.len(),
        ensures
            match r {
                Some(j) => grammar::braces_end(self.toks@, i as int, 1) == Some(j as int) && i < j
                    <= self.toks.len(),
                None => grammar::braces_end(self.toks@, i as int, 1) is None,
            },
    {
        let mut j: usize = i;
        let mut depth: usize = 1;
        while depth > 0
            invariant
                i <= j <= self.toks.len(),
                1 <= i,
                depth <= j - i + 1,
                depth == 0 ==> i < j,
                grammar::braces_end(self.toks@, i as int, 1) == grammar::braces_end(
                    self.toks@,
                    j as int,
                    depth as nat,
                ),
            decreases self.toks.len() - j,
        {
            if j >= self.toks.len() {
                return None;
            }
            if self.at(j, &Token::LBrace) {
                depth += 1;
            } else if self.at(j, &Token::RBrace) {
                depth -= 1;
            }
            j += 1;
        }
        Some(j)
    }

    /// Set the complaints aside, for a reading that may be given up.
    pub(super) fn set_aside(&mut self) -> (saved: Vec<ParseError>)
        ensures
            final(self).toks == old(self).toks,
            final(self).notes@ == Seq::<ParseError>::empty(),
            saved@ == old(self).notes@,
    {
        let mut saved: Vec<ParseError> = Vec::new();
        saved.append(&mut self.notes);
        assert(saved@ =~= old(self).notes@);
        saved
    }

    /// Put the complaints that were set aside before those there are.
    pub(super) fn bring_back(&mut self, saved: Vec<ParseError>)
        ensures
            final(self).toks == old(self).toks,
            errs(final(self).notes@) == errs(saved@) + errs(old(self).notes@),
    {
        let mut all = saved;
        all.append(&mut self.notes);
        self.notes = all;
        assert(errs(self.notes@) =~= errs(saved@) + errs(old(self).notes@));
    }

    /// Complain about `(x,)` from the `(` at `i` to the position `j` after the `)`.
    pub(super) fn lone_comma(&mut self, i: usize, j: usize)
        requires
            i < j <= old(self).toks.len(),
            2 <= j,
        ensures
            final(self).toks == old(self).toks,
            errs(final(self).notes@) == errs(old(self).notes@) + grammar::lone_comma(
                old(self).toks@,
                i as int,
                j as int,
            ),
    {
        if self.at(j - 2, &Token::Comma) {
            let span = self.span(i, j);
            self.note(span, ParseErrorKind::OneElementTuple);
        }
    }
}

// ---- types ----

impl<'a> Parser<'a> {
    /// A type: a union of intersections of negations.
    pub(super) fn ty(&mut self, i: usize, m: TypeMode) -> (r: R<TypeSpec>)
        requires
            i <= old(self).toks.len(),
        ensures
            did(*old(self), *final(self), r, grammar::ty(old(self).toks@, i as int, m), i + 1),
        decreases old(self).toks.len() - i, 5int,
    {
        let ghost ts = self.toks@;
        let ghost p0 = *self;
        let ghost whole = grammar::ty(ts, i as int, m);
        let ghost g0 = grammar::inter(ts, i as int, m);
        let (first, k) = match self.inter(i, m) {
            Err(f) => {
                return Err(f);
            },
            Ok(x) => x,
        };
        let mut acc: Vec<TypeSpec> = Vec::new();
        acc.push(first);
        assert(sems(acc@) =~= seq![first.sem()]);
        let ghost mut notes: Seq<SParseError> = g0->Ok_0.notes;
        let mut j: usize = k;
        while self.at(j, &Token::Bar)
            invariant
                i < j <= self.toks.len(),
                p0 == *old(self),
                self.toks == p0.toks,
                ts == self.toks@,
                acc.len() > 0,
                whole == grammar::ty(ts, i as int, m),
                errs(self.notes@) == errs(p0.notes@) + notes,
                whole == grammar::union_from(ts, j as int, i as int, m, sems(acc@), notes),
            decreases self.toks.len() - j,
        {
            let ghost g = grammar::inter(ts, j + 1, m);
            match self.inter(j + 1, m) {
                Err(f) => {
                    return Err(f);
                },
                Ok((x, k)) => {
                    let ghost before = acc@;
                    acc.push(x);
                    assert(sems(acc@) =~= sems(before).push(x.sem()));
                    proof {
                        notes = notes + g->Ok_0.notes;
                    }
                    j = k;
                },
            }
        }
        assert(sems(acc@).len() == acc.len());
        if acc.len() == 1 {
            let one = acc.pop().unwrap();
            Ok((one, j))
        } else {
            let span = self.span(i, j);
            let kind = TypeSpecKind::Union(acc);
            assert(kind.sem() == STypeSpecKind::Union(type_specs_of(acc@)));
            Ok((TypeSpec { kind, span }, j))
        }
    }

    pub(super) fn inter(&mut self, i: usize, m: TypeMode) -> (r: R<TypeSpec>)
        requires
            i <= old(self).toks.len(),
        ensures
            did(*old(self), *final(self), r, grammar::inter(old(self).toks@, i as int, m), i + 1),
        decreases old(self).toks.len() - i, 4int,
    {
        let ghost ts = self.toks@;
        let ghost p0 = *self;
        let ghost whole = grammar::inter(ts, i as int, m);
        let ghost g0 = grammar::negated(ts, i as int, m);
        let (first, k) = match self.negated(i, m) {
            Err(f) => {
                return Err(f);
            },
            Ok(x) => x,
        };
        let mut acc: Vec<TypeSpec> = Vec::new();
        acc.push(first);
        assert(sems(acc@) =~= seq![first.sem()]);
        let ghost mut notes: Seq<SParseError> = g0->Ok_0.notes;
        let mut j: usize = k;
        while self.at(j, &Token::Ampersand)
            invariant
                i < j <= self.toks.len(),
                p0 == *old(self),
                self.toks == p0.toks,
                ts == self.toks@,
                acc.len() > 0,
                whole == grammar::inter(ts, i as int, m),
                errs(self.notes@) == errs(p0.notes@) + notes,
                whole == grammar::inter_from(ts, j as int, i as int, m, sems(acc@), notes),
            decreases self.toks.len() - j,
        {
            let ghost g = grammar::negated(ts, j + 1, m);
            match self.negated(j + 1, m) {
                Err(f) => {
                    return Err(f);
                },
                Ok((x, k)) => {
                    let ghost before = acc@;
                    acc.push(x);
                    assert(sems(acc@) =~= sems(before).push(x.sem()));
                    proof {
                        notes = notes + g->Ok_0.notes;
                    }
                    j = k;
                },
            }
        }
        assert(sems(acc@).len() == acc.len());
        if acc.len() == 1 {
            let one = acc.pop().unwrap();
            Ok((one, j))
        } else {
            let span = self.span(i, j);
            let kind = TypeSpecKind::Intersect(acc);
            assert(kind.sem() == STypeSpecKind::Intersect(type_specs_of(acc@)));
            Ok((TypeSpec { kind, span }, j))
        }
    }

    pub(super) fn negated(&mut self, i: usize, m: TypeMode) -> (r: R<TypeSpec>)
        requires
            i <= old(self).toks.len(),
        ensures
            did(*old(self), *final(self), r, grammar::negated(old(self).toks@, i as int, m), i + 1),
        decreases old(self).toks.len() - i, 3int,
    {
        if self.at(i, &Token::Bang) {
            match self.negated(i + 1, m) {
                Err(f) => Err(f),
                Ok((x, j)) => {
                    let span = self.span(i, j);
                    let kind = TypeSpecKind::Negate(Box::new(x));
                    assert(kind.sem() == STypeSpecKind::Negate(Box::new(x.sem())));
                    Ok((TypeSpec { kind, span }, j))
                },
            }
        } else {
            match self.atomic(i, m) {
                Err(f) => Err(f),
                Ok((kind, j)) => {
                    let span = self.span(i, j);
                    Ok((TypeSpec { kind, span }, j))
                },
            }
        }
    }

    pub(super) fn atomic(&mut self, i: usize, m: TypeMode) -> (r: R<TypeSpecKind>)
        requires
            i <= old(self).toks.len(),
        ensures
            did(*old(self), *final(self), r, grammar::atomic(old(self).toks@, i as int, m), i + 1),
        decreases old(self).toks.len() - i, 2int,
    {
        if i >= self.toks.len() {
            return Err(lack(i, "a type"));
        }
        match &self.toks[i].token {
            Token::Null => Ok((TypeSpecKind::Null, i + 1)),
            Token::Atom(a) => Ok((TypeSpecKind::Atom(a.clone()), i + 1)),
            Token::LBrace => match self.fields(i + 1, Token::RBrace) {
                Err(f) => Err(f),
                Ok((x, j)) => {
                    assert(fields_of(x@) == sems(x@));
                    Ok((TypeSpecKind::Struct(x), j))
                },
            },
            Token::LParen => self.parenthesised(i, m),
            Token::Ident(s) => if str_eq(s.as_str(), "any") {
                Ok((TypeSpecKind::Any, i + 1))
            } else {
                self.named(i, m)
            },
            _ => Err(lack(i, "a type")),
        }
    }

    /// A path, perhaps with arguments in brackets.
    pub(super) fn named(&mut self, i: usize, m: TypeMode) -> (r: R<TypeSpecKind>)
        requires
            i <= old(self).toks.len(),
        ensures
            did(*old(self), *final(self), r, grammar::named(old(self).toks@, i as int, m), i + 1),
        decreases old(self).toks.len() - i, 1int,
    {
        let ghost ts = self.toks@;
        let (path, j) = match self.path(i) {
            Err(f) => {
                return Err(f);
            },
            Ok(x) => x,
        };
        assert(names_of(path@) =~= sems(path@));
        if !self.at(j, &Token::LBracket) {
            let args: Vec<TypeSpec> = Vec::new();
            assert(type_specs_of(args@) =~= seq![]);
            return Ok((TypeSpecKind::Named { path, args }, j));
        }
        let saved = self.set_aside();
        match self.types(j + 1, Token::RBracket) {
            Ok((args, k)) => {
                self.bring_back(saved);
                assert(type_specs_of(args@) == sems(args@));
                Ok((TypeSpecKind::Named { path, args }, k))
            },
            Err(f) => {
                self.notes = saved;
                if m == TypeMode::Soft {
                    let args: Vec<TypeSpec> = Vec::new();
                    assert(type_specs_of(args@) =~= seq![]);
                    Ok((TypeSpecKind::Named { path, args }, j))
                } else {
                    Err(f)
                }
            },
        }
    }

    /// A list of types in parentheses, and the arrow after it if there is one.
    pub(super) fn parenthesised(&mut self, i: usize, m: TypeMode) -> (r: R<TypeSpecKind>)
        requires
            i < old(self).toks.len(),
            old(self).toks@[i as int].token is LParen,
        ensures
            did(*old(self), *final(self), r, grammar::atomic(old(self).toks@, i as int, m), i + 1),
        decreases old(self).toks.len() - i, 1int,
    {
        let ghost ts = self.toks@;
        let (items, j) = match self.types(i + 1, Token::RParen) {
            Err(f) => {
                return Err(f);
            },
            Ok(x) => x,
        };
        assert(type_specs_of(items@) == sems(items@));
        if m != TypeMode::Thrown && self.at(j, &Token::Arrow) {
            match self.ty(j + 1, m) {
                Err(f) => Err(f),
                Ok((ret, k)) => Ok(
                    (TypeSpecKind::Fn { params: items, throws: None, ret: Box::new(ret) }, k),
                ),
            }
        } else if m != TypeMode::Thrown && self.at(j, &Token::Throws) {
            let (t, k) = match self.ty(j + 1, TypeMode::Thrown) {
                Err(f) => {
                    return Err(f);
                },
                Ok(x) => x,
            };
            if !self.at(k, &Token::Arrow) {
                return Err(want(k, Token::Arrow));
            }
            match self.ty(k + 1, m) {
                Err(f) => Err(f),
                Ok((ret, l)) => Ok(
                    (
                        TypeSpecKind::Fn {
                            params: items,
                            throws: Some(Box::new(t)),
                            ret: Box::new(ret),
                        },
                        l,
                    ),
                ),
            }
        } else if items.len() == 1 {
            self.lone_comma(i, j);
            let mut items = items;
            assert(sems(items@)[0] == items@[0].sem());
            let one = items.pop().unwrap();
            Ok((one.kind, j))
        } else {
            Ok((TypeSpecKind::Tuple(items), j))
        }
    }

    /// `name: T`
    pub(super) fn field(&mut self, i: usize) -> (r: R<Field>)
        requires
            i <= old(self).toks.len(),
        ensures
            did(*old(self), *final(self), r, grammar::field(old(self).toks@, i as int), i + 1),
        decreases old(self).toks.len() - i, 6int,
    {
        let name = match self.name(i) {
            None => {
                return Err(lack(i, "an identifier"));
            },
            Some(s) => s,
        };
        if !self.at(i + 1, &Token::Colon) {
            return Err(want(i + 1, Token::Colon));
        }
        match self.ty(i + 2, TypeMode::Full) {
            Err(f) => Err(f),
            Ok((ty, j)) => {
                let span = self.span(i, j);
                Ok((Field { name, ty, span }, j))
            },
        }
    }

    pub(super) fn types(&mut self, i: usize, close: Token) -> (r: R<Vec<TypeSpec>>)
        requires
            i <= old(self).toks.len(),
            close@ is Fixed,
        ensures
            did(*old(self), *final(self), r, grammar::types_from(old(self).toks@, i as int, close, seq![], seq![]), i + 1),
        decreases old(self).toks.len() - i, 7int,
    {
        let ghost ts = self.toks@;
        let ghost p0 = *self;
        let ghost whole = grammar::types_from(ts, i as int, close, seq![], seq![]);
        let mut acc: Vec<TypeSpec> = Vec::new();
        let ghost mut notes: Seq<SParseError> = seq![];
        let mut j: usize = i;
        assert(sems(acc@) =~= seq![]);
        loop
            invariant
                i <= j <= self.toks.len(),
                p0 == *old(self),
                self.toks == p0.toks,
                ts == self.toks@,
                whole == grammar::types_from(ts, i as int, close, seq![], seq![]),
                close@ is Fixed,
                errs(self.notes@) == errs(p0.notes@) + notes,
                whole == grammar::types_from(ts, j as int, close, sems(acc@), notes),
            decreases self.toks.len() - j,
        {
            if self.at(j, &close) {
                return Ok((acc, j + 1));
            }
            let ghost g = grammar::ty(ts, j as int, TypeMode::Full);
            match self.ty(j, TypeMode::Full) {
                Err(f) => {
                    return Err(f);
                },
                Ok((x, k)) => {
                    let ghost before = acc@;
                    acc.push(x);
                    assert(sems(acc@) =~= sems(before).push(x.sem()));
                    proof {
                        notes = notes + g->Ok_0.notes;
                    }
                    if self.at(k, &Token::Comma) {
                        j = k + 1;
                    } else if self.at(k, &close) {
                        return Ok((acc, k + 1));
                    } else {
                        return Err(want2(k, Token::Comma, close));
                    }
                },
            }
        }
    }


    pub(super) fn fields(&mut self, i: usize, close: Token) -> (r: R<Vec<Field>>)
        requires
            i <= old(self).toks.len(),
            close@ is Fixed,
        ensures
            did(*old(self), *final(self), r, grammar::fields_from(old(self).toks@, i as int, close, seq![], seq![]), i + 1),
        decreases old(self).toks.len() - i, 7int,
    {
        let ghost ts = self.toks@;
        let ghost p0 = *self;
        let ghost whole = grammar::fields_from(ts, i as int, close, seq![], seq![]);
        let mut acc: Vec<Field> = Vec::new();
        let ghost mut notes: Seq<SParseError> = seq![];
        let mut j: usize = i;
        assert(sems(acc@) =~= seq![]);
        loop
            invariant
                i <= j <= self.toks.len(),
                p0 == *old(self),
                self.toks == p0.toks,
                ts == self.toks@,
                whole == grammar::fields_from(ts, i as int, close, seq![], seq![]),
                close@ is Fixed,
                errs(self.notes@) == errs(p0.notes@) + notes,
                whole == grammar::fields_from(ts, j as int, close, sems(acc@), notes),
            decreases self.toks.len() - j,
        {
            if self.at(j, &close) {
                return Ok((acc, j + 1));
            }
            let ghost g = grammar::field(ts, j as int);
            match self.field(j) {
                Err(f) => {
                    return Err(f);
                },
                Ok((x, k)) => {
                    let ghost before = acc@;
                    acc.push(x);
                    assert(sems(acc@) =~= sems(before).push(x.sem()));
                    proof {
                        notes = notes + g->Ok_0.notes;
                    }
                    if self.at(k, &Token::Comma) {
                        j = k + 1;
                    } else if self.at(k, &close) {
                        return Ok((acc, k + 1));
                    } else {
                        return Err(want2(k, Token::Comma, close));
                    }
                },
            }
        }
    }


    /// The type after a colon, if there is a colon at `i`.
    pub(super) fn ascription(&mut self, i: usize) -> (r: R<Option<TypeSpec>>)
        requires
            i <= old(self).toks.len(),
        ensures
            did(*old(self), *final(self), r, grammar::ascription(old(self).toks@, i as int), i as int),
    {
        if self.at(i, &Token::Colon) {
            match self.ty(i + 1, TypeMode::Full) {
                Err(f) => Err(f),
                Ok((t, j)) => Ok((Some(t), j)),
            }
        } else {
            Ok((None, i))
        }
    }

    pub(super) fn lambda_param(&mut self, i: usize) -> (r: R<LambdaParam>)
        requires
            i <= old(self).toks.len(),
        ensures
            did(*old(self), *final(self), r, grammar::lambda_param(old(self).toks@, i as int), i + 1),
    {
        let name = match self.name(i) {
            None => {
                return Err(lack(i, "an identifier"));
            },
            Some(s) => s,
        };
        match self.ascription(i + 1) {
            Err(f) => Err(f),
            Ok((ty, j)) => Ok((LambdaParam { name, ty }, j)),
        }
    }

    pub(super) fn lambda_params(&mut self, i: usize, close: Token) -> (r: R<Vec<LambdaParam>>)
        requires
            i <= old(self).toks.len(),
            close@ is Fixed,
        ensures
            did(*old(self), *final(self), r, grammar::lambda_params_from(old(self).toks@, i as int, close, seq![], seq![]), i + 1),
    {
        let ghost ts = self.toks@;
        let ghost p0 = *self;
        let ghost whole = grammar::lambda_params_from(ts, i as int, close, seq![], seq![]);
        let mut acc: Vec<LambdaParam> = Vec::new();
        let ghost mut notes: Seq<SParseError> = seq![];
        let mut j: usize = i;
        assert(sems(acc@) =~= seq![]);
        loop
            invariant
                i <= j <= self.toks.len(),
                p0 == *old(self),
                self.toks == p0.toks,
                ts == self.toks@,
                whole == grammar::lambda_params_from(ts, i as int, close, seq![], seq![]),
                close@ is Fixed,
                errs(self.notes@) == errs(p0.notes@) + notes,
                whole == grammar::lambda_params_from(ts, j as int, close, sems(acc@), notes),
            decreases self.toks.len() - j,
        {
            if self.at(j, &close) {
                return Ok((acc, j + 1));
            }
            let ghost g = grammar::lambda_param(ts, j as int);
            match self.lambda_param(j) {
                Err(f) => {
                    return Err(f);
                },
                Ok((x, k)) => {
                    let ghost before = acc@;
                    acc.push(x);
                    assert(sems(acc@) =~= sems(before).push(x.sem()));
                    proof {
                        notes = notes + g->Ok_0.notes;
                    }
                    if self.at(k, &Token::Comma) {
                        j = k + 1;
                    } else if self.at(k, &close) {
                        return Ok((acc, k + 1));
                    } else {
                        return Err(want2(k, Token::Comma, close));
                    }
                },
            }
        }
    }


    /// The type arguments of a call from `i`: one or more, then `]`.
    pub(super) fn type_args(&mut self, i: usize) -> (r: R<Vec<TypeSpec>>)
        requires
            i <= old(self).toks.len(),
        ensures
            did(*old(self), *final(self), r, grammar::type_args_from(old(self).toks@, i as int, seq![], seq![]), i + 1),
    {
        let ghost ts = self.toks@;
        let ghost p0 = *self;
        let ghost whole = grammar::type_args_from(ts, i as int, seq![], seq![]);
        let mut acc: Vec<TypeSpec> = Vec::new();
        let ghost mut notes: Seq<SParseError> = seq![];
        let mut j: usize = i;
        assert(sems(acc@) =~= seq![]);
        loop
            invariant
                i <= j <= self.toks.len(),
                p0 == *old(self),
                self.toks == p0.toks,
                ts == self.toks@,
                whole == grammar::type_args_from(ts, i as int, seq![], seq![]),
                errs(self.notes@) == errs(p0.notes@) + notes,
                whole == grammar::type_args_from(ts, j as int, sems(acc@), notes),
            decreases self.toks.len() - j,
        {
            let ghost g = grammar::ty(ts, j as int, TypeMode::Full);
            match self.ty(j, TypeMode::Full) {
                Err(f) => {
                    return Err(f);
                },
                Ok((x, k)) => {
                    let ghost before = acc@;
                    acc.push(x);
                    assert(sems(acc@) =~= sems(before).push(x.sem()));
                    proof {
                        notes = notes + g->Ok_0.notes;
                    }
                    if self.at(k, &Token::Comma) {
                        j = k + 1;
                    } else if self.at(k, &Token::RBracket) {
                        return Ok((acc, k + 1));
                    } else {
                        return Err(want2(k, Token::Comma, Token::RBracket));
                    }
                },
            }
        }
    }
}

/// The module that a run of tokens reads as, if it reads as one, and everything that is
/// wrong with it. `eoi` is the byte offset of the end of the text, where whatever is
/// missing at the end is reported.
///
/// A declaration that cannot be read does not stop the rest: it is reported, skipped, and
/// stands in the module as an error.
pub fn parse(tokens: &[Spanned], eoi: usize) -> (r: (Option<Module>, Vec<ParseError>))
    ensures
        (r.0.sem(), errs(r.1@)) == grammar::module(tokens@, eoi),
{
    let mut p = Parser { toks: tokens, notes: Vec::new() };
    assert(errs(p.notes@) =~= seq![]);
    let (decls, end) = p.decls(0, eoi);
    assert(decls_of(decls@) == sems(decls@));
    if end == tokens.len() {
        let mut module = Module { decls };
        number_exprs(&mut module);
        (Some(module), p.notes)
    } else {
        let mut want: Vec<Expected> = Vec::new();
        want.push(Expected::EndOfInput);
        assert(want@ =~= seq![Expected::EndOfInput]);
        let e = p.error(Fail { at: end, want }, eoi);
        let ghost notes = p.notes@;
        p.notes.push(e);
        assert(errs(p.notes@) =~= errs(notes).push(e@));
        (None, p.notes)
    }
}

} // verus!
