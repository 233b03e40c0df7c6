//! Declarations, and getting past those that cannot be read.

use super::error::{group_notes, SParseError};
use super::grammar::{self, Miss, Signature, TypeMode};
use super::{
    did, errs, lack, saw, want, want2, Expected, Fail, ParseError, ParseErrorKind, Parser, R,
};
use crate::ast::{
    AliasDecl, AnnArg, Annotation, Block, ConstDecl, Decl, DeclKind, FnDecl, ImplDecl, ModDecl,
    Param, ProtocolDecl, RecordDecl, TestBlock, TestKind, TypeSpec, UseDecl, UseTree, WhereClause,
};
use crate::lexer::{Spanned, Token};
use crate::syntax::{
    ann_args_of, annotations_of, decls_of, fields_of, fn_decls_of, group_lists, names_of, params_of,
    sems, use_trees_of, where_clauses_of, Node, SAnnArg, SDecl, SDeclKind, SModDecl,
};
use crate::text::str_eq;
use vstd::prelude::*;

verus! {

broadcast use {group_lists, group_notes};

// ---- declarations ----

fn stops_skipping(t: &Token) -> (r: bool)
    ensures
        r == grammar::stops_skipping(*t),
{
    match t {
        Token::Fn | Token::Test | Token::Bench | Token::Record | Token::Opaque => true,
        Token::Type | Token::Mu | Token::Newtype | Token::Protocol | Token::Impl => true,
        Token::Use | Token::Const | Token::RBrace => true,
        _ => false,
    }
}

/// The failure of a declaration to start at `i`.
fn no_decl(i: usize) -> (f: Fail)
    ensures
        f.at == i,
        f.want@ == grammar::decl_starts(),
{
    let mut want: Vec<Expected> = Vec::new();
    want.push(Expected::Token(Token::At));
    want.push(Expected::Token(Token::Fn));
    want.push(Expected::Token(Token::Opaque));
    want.push(Expected::Token(Token::Record));
    want.push(Expected::Token(Token::Protocol));
    want.push(Expected::Token(Token::Impl));
    want.push(Expected::Token(Token::Mu));
    want.push(Expected::Token(Token::Type));
    want.push(Expected::Token(Token::Newtype));
    want.push(Expected::Token(Token::Use));
    want.push(Expected::Token(Token::Internal));
    want.push(Expected::Token(Token::Mod));
    want.push(Expected::Token(Token::Const));
    want.push(Expected::Token(Token::Test));
    want.push(Expected::Token(Token::Bench));
    assert(want@ =~= grammar::decl_starts());
    Fail { at: i, want }
}

/// The failure of a function or a record to follow annotations.
fn no_annotated(i: usize) -> (f: Fail)
    ensures
        f.at == i,
        f.want@ == grammar::annotated_starts(),
{
    let mut want: Vec<Expected> = Vec::new();
    want.push(Expected::Token(Token::Fn));
    want.push(Expected::Token(Token::Opaque));
    want.push(Expected::Token(Token::Record));
    assert(want@ =~= grammar::annotated_starts());
    Fail { at: i, want }
}

/// What stands before a function's `throws`.
pub(super) struct Head {
    name: String,
    generics: Vec<String>,
    params: Vec<Param>,
}

impl Node for Head {
    type V = Signature;

    closed spec fn sem(&self) -> Signature {
        Signature {
            name: self.name@,
            generics: names_of(self.generics@),
            params: params_of(self.params@),
        }
    }
}

impl<'a> Parser<'a> {
    /// `@name` and `@name("..")`, as often as they come.
    pub(super) fn annotations(&self, i: usize) -> (r: R<Vec<Annotation>>)
        requires
            i <= self.toks.len(),
        ensures
            saw(*self, r, grammar::annotations_from(self.toks@, i as int, seq![]), i as int),
    {
        let ghost ts = self.toks@;
        let mut acc: Vec<Annotation> = Vec::new();
        let mut j: usize = i;
        assert(sems(acc@) =~= seq![]);
        while self.at(j, &Token::At)
            invariant
                i <= j <= self.toks.len(),
                ts == self.toks@,
                grammar::annotations_from(ts, i as int, seq![]) == grammar::annotations_from(
                    ts,
                    j as int,
                    sems(acc@),
                ),
            decreases self.toks.len() - j,
        {
            match self.annotation(j) {
                Err(f) => {
                    return Err(f);
                },
                Ok((a, k)) => {
                    let ghost before = acc@;
                    acc.push(a);
                    assert(sems(acc@) =~= sems(before).push(a.sem()));
                    j = k;
                },
            }
        }
        Ok((acc, j))
    }

    pub(super) fn annotation(&self, i: usize) -> (r: R<Annotation>)
        requires
            i <= self.toks.len(),
            i < self.toks.len(),
        ensures
            saw(*self, r, grammar::annotation(self.toks@, i as int), i + 1),
    {
        let name = match self.name(i + 1) {
            None => {
                return Err(lack(i + 1, "an identifier"));
            },
            Some(s) => s,
        };
        if !self.at(i + 2, &Token::LParen) {
            let span = self.span(i, i + 2);
            let args: Vec<AnnArg> = Vec::new();
            assert(ann_args_of(args@) =~= seq![]);
            return Ok((Annotation { name, arg: None, args, span }, i + 2));
        }
        match self.plain_str(i + 3) {
            Err(f) => Err(f),
            Ok((s, j)) => if self.at(j, &Token::RParen) {
                let span = self.span(i, j + 1);
                let mut args: Vec<AnnArg> = Vec::new();
                args.push(AnnArg::Text(s.clone()));
                assert(ann_args_of(args@) =~= seq![SAnnArg::Text(s@)]);
                Ok((Annotation { name, arg: Some(s), args, span }, j + 1))
            } else {
                Err(want(j, Token::RParen))
            },
        }
    }

    pub(super) fn param(&mut self, i: usize) -> (r: R<Param>)
        requires
            i <= old(self).toks.len(),
        ensures
            did(*old(self), *final(self), r, grammar::param(old(self).toks@, i as int), i + 1),
    {
        match self.field(i) {
            Err(f) => Err(f),
            Ok((f, j)) => Ok((Param { name: f.name, ty: f.ty, span: f.span }, j)),
        }
    }

    pub(super) fn params(&mut self, i: usize, close: Token) -> (r: R<Vec<Param>>)
        requires
            i <= old(self).toks.len(),
            close@ is Fixed,
        ensures
            did(*old(self), *final(self), r, grammar::params_from(old(self).toks@, i as int, close, seq![], seq![]), i + 1),
    {
        let ghost ts = self.toks@;
        let ghost p0 = *self;
        let ghost whole = grammar::params_from(ts, i as int, close, seq![], seq![]);
        let mut acc: Vec<Param> = Vec::new();
        let ghost mut notes: Seq<SParseError> = seq![];
        let mut j: usize = i;
        assert(sems(acc@) =~= seq![]);
        loop
            invariant
                i <= j <= self.toks.len(),
                p0 == *old(self),
                self.toks == p0.toks,
                ts == self.toks@,
                whole == grammar::params_from(ts, i as int, close, seq![], seq![]),
                close@ is Fixed,
                errs(self.notes@) == errs(p0.notes@) + notes,
                whole == grammar::params_from(ts, j as int, close, sems(acc@), notes),
            decreases self.toks.len() - j,
        {
            if self.at(j, &close) {
                return Ok((acc, j + 1));
            }
            let ghost g = grammar::param(ts, j as int);
            match self.param(j) {
                Err(f) => {
                    return Err(f);
                },
                Ok((x, k)) => {
                    let ghost before = acc@;
                    acc.push(x);
                    assert(sems(acc@) =~= sems(before).push(x.sem()));
                    proof {
                        notes = notes + g->Ok_0.notes;
                    }
                    if self.at(k, &Token::Comma) {
                        j = k + 1;
                    } else if self.at(k, &close) {
                        return Ok((acc, k + 1));
                    } else {
                        return Err(want2(k, Token::Comma, close));
                    }
                },
            }
        }
    }


    /// Names up to a `]`.
    pub(super) fn names(&self, i: usize) -> (r: R<Vec<String>>)
        requires
            i <= self.toks.len(),
        ensures
            saw(*self, r, grammar::names_from(self.toks@, i as int, seq![]), i + 1),
    {
        let ghost ts = self.toks@;
        let mut acc: Vec<String> = Vec::new();
        let mut j: usize = i;
        assert(sems(acc@) =~= seq![]);
        loop
            invariant
                i <= j <= self.toks.len(),
                ts == self.toks@,
                grammar::names_from(ts, i as int, seq![]) == grammar::names_from(
                    ts,
                    j as int,
                    sems(acc@),
                ),
            decreases self.toks.len() - j,
        {
            if self.at(j, &Token::RBracket) {
                return Ok((acc, j + 1));
            }
            match self.name(j) {
                None => {
                    return Err(lack(j, "an identifier"));
                },
                Some(s) => {
                    let ghost before = acc@;
                    acc.push(s);
                    assert(sems(acc@) =~= sems(before).push(s@));
                    if self.at(j + 1, &Token::Comma) {
                        j += 2;
                    } else if self.at(j + 1, &Token::RBracket) {
                        return Ok((acc, j + 2));
                    } else {
                        return Err(want2(j + 1, Token::Comma, Token::RBracket));
                    }
                },
            }
        }
    }

    /// `[T, U]`, if there is a `[` at `i`.
    pub(super) fn generic_params(&self, i: usize) -> (r: R<Vec<String>>)
        requires
            i <= self.toks.len(),
        ensures
            saw(*self, r, grammar::generic_params(self.toks@, i as int), i as int),
    {
        if self.at(i, &Token::LBracket) {
            self.names(i + 1)
        } else {
            let none: Vec<String> = Vec::new();
            assert(sems(none@) =~= seq![]);
            Ok((none, i))
        }
    }

    /// `where T: A, U: B`, if there is a `where` at `i`.
    pub(super) fn where_clauses(&mut self, i: usize) -> (r: R<Vec<WhereClause>>)
        requires
            i <= old(self).toks.len(),
        ensures
            did(*old(self), *final(self), r, grammar::where_clauses(old(self).toks@, i as int), i as int),
    {
        let ghost ts = self.toks@;
        let ghost p0 = *self;
        let ghost whole = grammar::where_clauses(ts, i as int);
        let mut acc: Vec<WhereClause> = Vec::new();
        let ghost mut notes: Seq<SParseError> = seq![];
        assert(sems(acc@) =~= seq![]);
        if !self.at(i, &Token::Where) {
            return Ok((acc, i));
        }
        let mut j: usize = i + 1;
        loop
            invariant
                i < j <= self.toks.len(),
                p0 == *old(self),
                self.toks == p0.toks,
                ts == self.toks@,
                whole == grammar::where_clauses(ts, i as int),
                errs(self.notes@) == errs(p0.notes@) + notes,
                whole == grammar::wheres_from(ts, j as int, sems(acc@), notes),
            decreases self.toks.len() - j,
        {
            let ghost g = grammar::field(ts, j as int);
            match self.field(j) {
                Err(f) => {
                    return Err(f);
                },
                Ok((f, k)) => {
                    let ghost before = acc@;
                    assert(f.sem().name == f.name@ && f.sem().ty == f.ty.sem());
                    let w = WhereClause { param: f.name, bound: f.ty };
                    acc.push(w);
                    assert(sems(acc@) =~= sems(before).push(w.sem()));
                    proof {
                        notes = notes + g->Ok_0.notes;
                    }
                    if self.at(k, &Token::Comma) {
                        j = k + 1;
                    } else {
                        return Ok((acc, k));
                    }
                },
            }
        }
    }

    /// The type after `keyword`, if that is at `i`.
    pub(super) fn clause(&mut self, i: usize, keyword: Token, m: TypeMode) -> (r: R<Option<TypeSpec>>)
        requires
            i <= old(self).toks.len(),
            keyword@ is Fixed,
        ensures
            did(*old(self), *final(self), r, grammar::clause(old(self).toks@, i as int, keyword, m), i as int),
    {
        if self.at(i, &keyword) {
            match self.ty(i + 1, m) {
                Err(f) => Err(f),
                Ok((t, j)) => Ok((Some(t), j)),
            }
        } else {
            Ok((None, i))
        }
    }

    pub(super) fn optional_block(&mut self, i: usize) -> (r: R<Option<Block>>)
        requires
            i <= old(self).toks.len(),
        ensures
            did(*old(self), *final(self), r, grammar::optional_block(old(self).toks@, i as int), i as int),
    {
        if self.at(i, &Token::LBrace) {
            match self.block(i) {
                Err(f) => Err(f),
                Ok((b, j)) => Ok((Some(b), j)),
            }
        } else {
            Ok((None, i))
        }
    }

    pub(super) fn signature(&mut self, i: usize) -> (r: R<Head>)
        requires
            i <= old(self).toks.len(),
            i < old(self).toks.len(),
        ensures
            did(*old(self), *final(self), r, grammar::signature(old(self).toks@, i as int), i + 1),
    {
        let name = match self.name(i + 1) {
            None => {
                return Err(lack(i + 1, "an identifier"));
            },
            Some(s) => s,
        };
        let (generics, j) = match self.generic_params(i + 2) {
            Err(f) => {
                return Err(f);
            },
            Ok(x) => x,
        };
        if !self.at(j, &Token::LParen) {
            return Err(want(j, Token::LParen));
        }
        match self.params(j + 1, Token::RParen) {
            Err(f) => Err(f),
            Ok((params, k)) => {
                assert(names_of(generics@) =~= sems(generics@));
                assert(params_of(params@) == sems(params@));
                Ok((Head { name, generics, params }, k))
            },
        }
    }

    /// A function, whose `fn` is at `i`.
    pub(super) fn fn_decl(&mut self, i: usize, annotations: Vec<Annotation>) -> (r: R<FnDecl>)
        requires
            i <= old(self).toks.len(),
            i < old(self).toks.len(),
        ensures
            did(*old(self), *final(self), r, grammar::fn_decl(old(self).toks@, i as int, sems(annotations@)), i + 1),
    {
        let (s, j) = match self.signature(i) {
            Err(f) => {
                return Err(f);
            },
            Ok(x) => x,
        };
        let (throws, k) = match self.clause(j, Token::Throws, TypeMode::Thrown) {
            Err(f) => {
                return Err(f);
            },
            Ok(x) => x,
        };
        let (ret, l) = match self.clause(k, Token::Arrow, TypeMode::Full) {
            Err(f) => {
                return Err(f);
            },
            Ok(x) => x,
        };
        let (wheres, n) = match self.where_clauses(l) {
            Err(f) => {
                return Err(f);
            },
            Ok(x) => x,
        };
        match self.optional_block(n) {
            Err(f) => Err(f),
            Ok((body, end)) => {
                assert(where_clauses_of(wheres@) == sems(wheres@));
                assert(annotations_of(annotations@) == sems(annotations@));
                Ok(
                    (
                        FnDecl {
                            name: s.name,
                            generics: s.generics,
                            params: s.params,
                            throws,
                            ret,
                            wheres,
                            body,
                            annotations,
                        },
                        end,
                    ),
                )
            },
        }
    }

    /// A record, whose `opaque` or `record` is at `i`.
    pub(super) fn record_decl(&mut self, i: usize, annotations: Vec<Annotation>) -> (r: R<RecordDecl>)
        requires
            i <= old(self).toks.len(),
        ensures
            did(*old(self), *final(self), r, grammar::record_decl(old(self).toks@, i as int, sems(annotations@)), i + 1),
    {
        let opaque = self.at(i, &Token::Opaque);
        let j: usize = if opaque {
            i + 1
        } else {
            i
        };
        if !self.at(j, &Token::Record) {
            return Err(want(j, Token::Record));
        }
        let name = match self.name(j + 1) {
            None => {
                return Err(lack(j + 1, "an identifier"));
            },
            Some(s) => s,
        };
        let (generics, k) = match self.generic_params(j + 2) {
            Err(f) => {
                return Err(f);
            },
            Ok(x) => x,
        };
        if !self.at(k, &Token::LBrace) {
            return Err(want(k, Token::LBrace));
        }
        match self.fields(k + 1, Token::RBrace) {
            Err(f) => Err(f),
            Ok((fields, l)) => {
                assert(names_of(generics@) =~= sems(generics@));
                assert(fields_of(fields@) == sems(fields@));
                assert(annotations_of(annotations@) == sems(annotations@));
                Ok((RecordDecl { name, generics, opaque, fields, annotations }, l))
            },
        }
    }

    /// The methods of a protocol or an impl from `i` on, up to the `}`.
    pub(super) fn methods(&mut self, i: usize) -> (r: R<Vec<FnDecl>>)
        requires
            i <= old(self).toks.len(),
        ensures
            did(*old(self), *final(self), r, grammar::methods_from(old(self).toks@, i as int, seq![], seq![]), i + 1),
    {
        let ghost ts = self.toks@;
        let ghost p0 = *self;
        let ghost whole = grammar::methods_from(ts, i as int, seq![], seq![]);
        let mut acc: Vec<FnDecl> = Vec::new();
        let ghost mut notes: Seq<SParseError> = seq![];
        let mut j: usize = i;
        assert(sems(acc@) =~= seq![]);
        loop
            invariant
                i <= j <= self.toks.len(),
                p0 == *old(self),
                self.toks == p0.toks,
                ts == self.toks@,
                whole == grammar::methods_from(ts, i as int, seq![], seq![]),
                errs(self.notes@) == errs(p0.notes@) + notes,
                whole == grammar::methods_from(ts, j as int, sems(acc@), notes),
            decreases self.toks.len() - j,
        {
            if self.at(j, &Token::RBrace) {
                return Ok((acc, j + 1));
            }
            let (annotations, k) = match self.annotations(j) {
                Err(f) => {
                    return Err(f);
                },
                Ok(x) => x,
            };
            if !self.at(k, &Token::Fn) {
                if k == j {
                    return Err(want2(j, Token::Fn, Token::RBrace));
                }
                return Err(want(k, Token::Fn));
            }
            let ghost g = grammar::fn_decl(ts, k as int, sems(annotations@));
            match self.fn_decl(k, annotations) {
                Err(f) => {
                    return Err(f);
                },
                Ok((x, l)) => {
                    let ghost before = acc@;
                    acc.push(x);
                    assert(sems(acc@) =~= sems(before).push(x.sem()));
                    proof {
                        notes = notes + g->Ok_0.notes;
                    }
                    j = l;
                },
            }
        }
    }

    /// How many `_` stand between the brackets, if there is a `[` at `i`.
    pub(super) fn holes(&self, i: usize) -> (r: R<usize>)
        requires
            i <= self.toks.len(),
        ensures
            saw(*self, r, grammar::holes(self.toks@, i as int), i as int),
    {
        if !self.at(i, &Token::LBracket) {
            return Ok((0, i));
        }
        let ghost ts = self.toks@;
        let mut j: usize = i + 1;
        let mut n: usize = 0;
        loop
            invariant
                i < j <= self.toks.len(),
                n <= j - i - 1,
                ts == self.toks@,
                grammar::holes(ts, i as int) == grammar::holes_from(ts, j as int, n as int),
            decreases self.toks.len() - j,
        {
            let hole = match self.name(j) {
                Some(s) => str_eq(s.as_str(), "_"),
                None => false,
            };
            if !hole {
                return Err(lack(j, "`_`"));
            }
            if self.at(j + 1, &Token::Comma) {
                j += 2;
                n += 1;
            } else if self.at(j + 1, &Token::RBracket) {
                return Ok((n + 1, j + 2));
            } else {
                return Err(want2(j + 1, Token::Comma, Token::RBracket));
            }
        }
    }

    /// `protocol P for T where .. { .. }` at `i`.
    pub(super) fn protocol_decl(&mut self, i: usize) -> (r: R<ProtocolDecl>)
        requires
            i <= old(self).toks.len(),
            i < old(self).toks.len(),
        ensures
            did(*old(self), *final(self), r, grammar::protocol_decl(old(self).toks@, i as int), i + 1),
    {
        let name = match self.name(i + 1) {
            None => {
                return Err(lack(i + 1, "an identifier"));
            },
            Some(s) => s,
        };
        if !self.at(i + 2, &Token::For) {
            return Err(want(i + 2, Token::For));
        }
        let subject = match self.name(i + 3) {
            None => {
                return Err(lack(i + 3, "an identifier"));
            },
            Some(s) => s,
        };
        let (subject_arity, j) = match self.holes(i + 4) {
            Err(f) => {
                return Err(f);
            },
            Ok(x) => x,
        };
        let (wheres, k) = match self.where_clauses(j) {
            Err(f) => {
                return Err(f);
            },
            Ok(x) => x,
        };
        if !self.at(k, &Token::LBrace) {
            return Err(want(k, Token::LBrace));
        }
        match self.methods(k + 1) {
            Err(f) => Err(f),
            Ok((methods, l)) => {
                assert(where_clauses_of(wheres@) == sems(wheres@));
                assert(fn_decls_of(methods@) == sems(methods@));
                Ok((ProtocolDecl { name, subject, subject_arity, wheres, methods }, l))
            },
        }
    }

    /// `impl[T] P for T { .. }` at `i`.
    pub(super) fn impl_decl(&mut self, i: usize) -> (r: R<ImplDecl>)
        requires
            i <= old(self).toks.len(),
            i < old(self).toks.len(),
        ensures
            did(*old(self), *final(self), r, grammar::impl_decl(old(self).toks@, i as int), i + 1),
    {
        let (generics, j) = match self.generic_params(i + 1) {
            Err(f) => {
                return Err(f);
            },
            Ok(x) => x,
        };
        let (protocol, k) = match self.path(j) {
            Err(f) => {
                return Err(f);
            },
            Ok(x) => x,
        };
        if !self.at(k, &Token::For) {
            return Err(want(k, Token::For));
        }
        let (target, l) = match self.ty(k + 1, TypeMode::Full) {
            Err(f) => {
                return Err(f);
            },
            Ok(x) => x,
        };
        if !self.at(l, &Token::LBrace) {
            return Err(want(l, Token::LBrace));
        }
        match self.methods(l + 1) {
            Err(f) => Err(f),
            Ok((methods, end)) => {
                assert(names_of(generics@) =~= sems(generics@));
                assert(names_of(protocol@) =~= sems(protocol@));
                assert(fn_decls_of(methods@) == sems(methods@));
                Ok((ImplDecl { protocol, generics, target, methods }, end))
            },
        }
    }

    /// `Name[T] = type`
    pub(super) fn alias_body(&mut self, i: usize) -> (r: R<AliasDecl>)
        requires
            i <= old(self).toks.len(),
        ensures
            did(*old(self), *final(self), r, grammar::alias_body(old(self).toks@, i as int), i + 1),
    {
        let name = match self.name(i) {
            None => {
                return Err(lack(i, "an identifier"));
            },
            Some(s) => s,
        };
        let (generics, j) = match self.generic_params(i + 1) {
            Err(f) => {
                return Err(f);
            },
            Ok(x) => x,
        };
        if !self.at(j, &Token::Eq) {
            return Err(want(j, Token::Eq));
        }
        match self.ty(j + 1, TypeMode::Full) {
            Err(f) => Err(f),
            Ok((value, k)) => {
                assert(names_of(generics@) =~= sems(generics@));
                Ok((AliasDecl { name, generics, value }, k))
            },
        }
    }

    /// `a::b`, `a::b as c`, `a::*` or `a::{ .. }`
    pub(super) fn use_tree(&self, i: usize) -> (r: R<UseTree>)
        requires
            i <= self.toks.len(),
        ensures
            saw(*self, r, grammar::use_tree(self.toks@, i as int), i + 1),
        decreases self.toks.len() - i, 0int,
    {
        let (path, j) = match self.path(i) {
            Err(f) => {
                return Err(f);
            },
            Ok(x) => x,
        };
        assert(names_of(path@) =~= sems(path@));
        if self.at(j, &Token::ColonColon) {
            if self.at(j + 1, &Token::Star) {
                Ok((UseTree::Glob { prefix: path }, j + 2))
            } else if self.at(j + 1, &Token::LBrace) {
                match self.use_trees(j + 2) {
                    Err(f) => Err(f),
                    Ok((children, k)) => {
                        assert(use_trees_of(children@) == sems(children@));
                        Ok((UseTree::Group { prefix: path, children }, k))
                    },
                }
            } else {
                Err(want2(j + 1, Token::Star, Token::LBrace))
            }
        } else if self.at(j, &Token::As) {
            match self.name(j + 1) {
                None => Err(lack(j + 1, "an identifier")),
                Some(alias) => Ok((UseTree::Leaf { path, alias: Some(alias) }, j + 2)),
            }
        } else {
            Ok((UseTree::Leaf { path, alias: None }, j))
        }
    }

    /// Trees up to a `}`.
    pub(super) fn use_trees(&self, i: usize) -> (r: R<Vec<UseTree>>)
        requires
            i <= self.toks.len(),
        ensures
            saw(
                *self,
                r,
                grammar::use_trees_from(self.toks@, i as int, Token::RBrace, seq![], seq![]),
                i + 1,
            ),
        decreases self.toks.len() - i, 1int,
    {
        let ghost ts = self.toks@;
        let ghost whole = grammar::use_trees_from(ts, i as int, Token::RBrace, seq![], seq![]);
        let mut acc: Vec<UseTree> = Vec::new();
        let ghost mut notes: Seq<SParseError> = seq![];
        let mut j: usize = i;
        assert(sems(acc@) =~= seq![]);
        loop
            invariant
                i <= j <= self.toks.len(),
                ts == self.toks@,
                whole == grammar::use_trees_from(ts, i as int, Token::RBrace, seq![], seq![]),
                whole == grammar::use_trees_from(ts, j as int, Token::RBrace, sems(acc@), notes),
            decreases self.toks.len() - j,
        {
            if self.at(j, &Token::RBrace) {
                return Ok((acc, j + 1));
            }
            let ghost g = grammar::use_tree(ts, j as int);
            match self.use_tree(j) {
                Err(f) => {
                    return Err(f);
                },
                Ok((x, k)) => {
                    let ghost before = acc@;
                    acc.push(x);
                    assert(sems(acc@) =~= sems(before).push(x.sem()));
                    proof {
                        notes = notes + g->Ok_0.notes;
                    }
                    if self.at(k, &Token::Comma) {
                        j = k + 1;
                    } else if self.at(k, &Token::RBrace) {
                        return Ok((acc, k + 1));
                    } else {
                        return Err(want2(k, Token::Comma, Token::RBrace));
                    }
                },
            }
        }
    }

    pub(super) fn use_decl(&self, i: usize) -> (r: R<UseDecl>)
        requires
            i <= self.toks.len(),
            i < self.toks.len(),
        ensures
            saw(*self, r, grammar::use_decl(self.toks@, i as int), i + 1),
    {
        match self.use_tree(i + 1) {
            Err(f) => Err(f),
            Ok((tree, j)) => {
                let k: usize = self.past_semi(j);
                let span = self.span(i, k);
                Ok((UseDecl { tree, span }, k))
            },
        }
    }

    pub(super) fn const_decl(&mut self, i: usize) -> (r: R<ConstDecl>)
        requires
            i <= old(self).toks.len(),
            i < old(self).toks.len(),
        ensures
            did(*old(self), *final(self), r, grammar::const_decl(old(self).toks@, i as int), i + 1),
    {
        let name = match self.name(i + 1) {
            None => {
                return Err(lack(i + 1, "an identifier"));
            },
            Some(s) => s,
        };
        let (ty, j) = match self.ascription(i + 2) {
            Err(f) => {
                return Err(f);
            },
            Ok(x) => x,
        };
        if !self.at(j, &Token::Eq) {
            return Err(want(j, Token::Eq));
        }
        match self.expr(j + 1, true) {
            Err(f) => Err(f),
            Ok((value, k)) => Ok((ConstDecl { name, ty, value }, self.past_semi(k))),
        }
    }

    pub(super) fn test_decl(&mut self, i: usize) -> (r: R<TestBlock>)
        requires
            i <= old(self).toks.len(),
            i < old(self).toks.len(),
        ensures
            did(*old(self), *final(self), r, grammar::test_decl(old(self).toks@, i as int), i + 1),
    {
        let kind = if self.at(i, &Token::Test) {
            TestKind::Test
        } else {
            TestKind::Bench
        };
        let (name, j) = match self.plain_str(i + 1) {
            Err(f) => {
                return Err(f);
            },
            Ok(x) => x,
        };
        match self.block(j) {
            Err(f) => Err(f),
            Ok((body, k)) => Ok((TestBlock { kind, name, body }, k)),
        }
    }

    pub(super) fn decl(&mut self, i: usize, eoi: usize) -> (r: R<Decl>)
        requires
            i <= old(self).toks.len(),
        ensures
            did(*old(self), *final(self), r, grammar::decl(old(self).toks@, eoi, i as int), i + 1),
        decreases old(self).toks.len() - i, 3int,
    {
        match self.decl_kind(i, eoi) {
            Err(f) => Err(f),
            Ok((kind, j)) => {
                let span = self.span(i, j);
                Ok((Decl { kind, span }, j))
            },
        }
    }

    pub(super) fn decl_kind(&mut self, i: usize, eoi: usize) -> (r: R<DeclKind>)
        requires
            i <= old(self).toks.len(),
        ensures
            did(*old(self), *final(self), r, grammar::decl_kind(old(self).toks@, eoi, i as int), i + 1),
        decreases old(self).toks.len() - i, 2int,
    {
        let (annotations, j) = match self.annotations(i) {
            Err(f) => {
                return Err(f);
            },
            Ok(x) => x,
        };
        if self.at(j, &Token::Fn) {
            match self.fn_decl(j, annotations) {
                Err(f) => Err(f),
                Ok((x, k)) => Ok((DeclKind::Fn(x), k)),
            }
        } else if self.at(j, &Token::Opaque) || self.at(j, &Token::Record) {
            match self.record_decl(j, annotations) {
                Err(f) => Err(f),
                Ok((x, k)) => Ok((DeclKind::Record(x), k)),
            }
        } else if j != i {
            Err(no_annotated(j))
        } else {
            self.plain_decl(i, eoi)
        }
    }

    /// A declaration without annotations that is neither a function nor a record.
    pub(super) fn plain_decl(&mut self, i: usize, eoi: usize) -> (r: R<DeclKind>)
        requires
            i <= old(self).toks.len(),
        ensures
            did(*old(self), *final(self), r, grammar::plain_decl(old(self).toks@, eoi, i as int), i + 1),
        decreases old(self).toks.len() - i, 1int,
    {
        if i >= self.toks.len() {
            return Err(no_decl(i));
        }
        match &self.toks[i].token {
            Token::Protocol => match self.protocol_decl(i) {
                Err(f) => Err(f),
                Ok((x, k)) => Ok((DeclKind::Protocol(x), k)),
            },
            Token::Impl => match self.impl_decl(i) {
                Err(f) => Err(f),
                Ok((x, k)) => Ok((DeclKind::Impl(x), k)),
            },
            Token::Mu => if self.at(i + 1, &Token::Type) {
                match self.alias_body(i + 2) {
                    Err(f) => Err(f),
                    Ok((x, k)) => Ok((DeclKind::MuType(x), k)),
                }
            } else {
                Err(want(i + 1, Token::Type))
            },
            Token::Type => match self.alias_body(i + 1) {
                Err(f) => Err(f),
                Ok((x, k)) => Ok((DeclKind::TypeAlias(x), k)),
            },
            Token::Newtype => match self.alias_body(i + 1) {
                Err(f) => Err(f),
                Ok((x, k)) => Ok((DeclKind::Newtype(x), k)),
            },
            Token::Use => match self.use_decl(i) {
                Err(f) => Err(f),
                Ok((x, k)) => Ok((DeclKind::Use(x), k)),
            },
            Token::Internal => if self.at(i + 1, &Token::Mod) {
                self.mod_decl(i + 1, eoi, true)
            } else {
                Err(want(i + 1, Token::Mod))
            },
            Token::Mod => self.mod_decl(i, eoi, false),
            Token::Const => match self.const_decl(i) {
                Err(f) => Err(f),
                Ok((x, k)) => Ok((DeclKind::Const(x), k)),
            },
            Token::Test | Token::Bench => match self.test_decl(i) {
                Err(f) => Err(f),
                Ok((x, k)) => Ok((DeclKind::TestBlock(x), k)),
            },
            Token::Ident(s) => {
                if str_eq(s.as_str(), "enum") && self.name(i + 1).is_some() && self.at(
                    i + 2,
                    &Token::LBrace,
                ) {
                    if let Some(j) = self.braces_end(i + 3) {
                        let span = self.span(i, j);
                        self.note(span, ParseErrorKind::EnumDeclaration);
                        return Ok((DeclKind::Error, j));
                    }
                }
                Err(no_decl(i))
            },
            _ => Err(no_decl(i)),
        }
    }

    /// `mod m { .. }`, whose `mod` is at `i`.
    pub(super) fn mod_decl(&mut self, i: usize, eoi: usize, internal: bool) -> (r: R<DeclKind>)
        requires
            i <= old(self).toks.len(),
            i < old(self).toks.len(),
        ensures
            did(*old(self), *final(self), r, grammar::mod_decl(old(self).toks@, eoi, i as int, internal), i + 1),
        decreases old(self).toks.len() - i, 0int,
    {
        let name = match self.name(i + 1) {
            None => {
                return Err(lack(i + 1, "an identifier"));
            },
            Some(s) => s,
        };
        if !self.at(i + 2, &Token::LBrace) {
            return Err(want(i + 2, Token::LBrace));
        }
        let (decls, j) = self.decls(i + 3, eoi);
        if self.at(j, &Token::RBrace) {
            assert(decls_of(decls@) == sems(decls@));
            let m = ModDecl { name, internal, decls };
            assert(m.sem() == SModDecl { name: name@, internal, decls: decls_of(decls@) });
            Ok((DeclKind::Mod(m), j + 1))
        } else {
            Err(want(j, Token::RBrace))
        }
    }

    /// Where the skipping of a bad declaration stops that has got to `i`.
    pub(super) fn skip(&self, i: usize) -> (r: usize)
        requires
            1 <= i <= self.toks.len(),
        ensures
            r == grammar::skip_from(self.toks@, i as int),
            i <= r <= self.toks.len(),
    {
        let mut j: usize = i;
        while j < self.toks.len()
            invariant
                1 <= i <= j <= self.toks.len(),
                grammar::skip_from(self.toks@, i as int) == grammar::skip_from(
                    self.toks@,
                    j as int,
                ),
            decreases self.toks.len() - j,
        {
            if self.at(j, &Token::LBrace) {
                match self.braces_end(j + 1) {
                    Some(k) => {
                        j = k;
                    },
                    None => {
                        j += 1;
                    },
                }
            } else if stops_skipping(&self.toks[j].token) {
                return j;
            } else {
                j += 1;
            }
        }
        j
    }

    /// The error that a failure is reported as.
    pub(super) fn error(&self, f: Fail, eoi: usize) -> (r: ParseError)
        ensures
            r@ == grammar::miss_error(
                self.toks@,
                eoi,
                Miss { at: f.at as int, want: f.want@ },
            ),
    {
        if f.at < self.toks.len() {
            let t: &Spanned = &self.toks[f.at];
            let kind = ParseErrorKind::Expected { expected: f.want, found: Some(t.token.clone()) };
            ParseError::new(t.span.start..t.span.end, kind)
        } else {
            ParseError::new(
                eoi..eoi,
                ParseErrorKind::Expected { expected: f.want, found: None },
            )
        }
    }

    /// Declarations from `i` on, up to the end or a `}`. One that cannot be read is
    /// reported and skipped.
    pub(super) fn decls(&mut self, i: usize, eoi: usize) -> (r: (Vec<Decl>, usize))
        requires
            1 <= i <= old(self).toks.len() || i == 0,
        ensures
            final(self).toks == old(self).toks,
            ({
                let x = grammar::decls_from(old(self).toks@, eoi, i as int, seq![], seq![]);
                &&& x.node == r.0.sem()
                &&& x.next == r.1
                &&& errs(final(self).notes@) == errs(old(self).notes@) + x.notes
                &&& i <= r.1 <= old(self).toks.len()
            }),
        decreases old(self).toks.len() - i, 4int,
    {
        let ghost ts = self.toks@;
        let ghost p0 = *self;
        let ghost whole = grammar::decls_from(ts, eoi, i as int, seq![], seq![]);
        let mut acc: Vec<Decl> = Vec::new();
        let ghost mut notes: Seq<SParseError> = seq![];
        let mut j: usize = i;
        assert(sems(acc@) =~= seq![]);
        while j < self.toks.len() && !self.at(j, &Token::RBrace)
            invariant
                i <= j <= self.toks.len(),
                p0 == *old(self),
                self.toks == p0.toks,
                ts == self.toks@,
                errs(self.notes@) == errs(p0.notes@) + notes,
                whole == grammar::decls_from(ts, eoi, j as int, sems(acc@), notes),
            decreases self.toks.len() - j,
        {
            let ghost before = acc@;
            let ghost g = grammar::decl(ts, eoi, j as int);
            let saved = self.set_aside();
            match self.decl(j, eoi) {
                Ok((d, k)) => {
                    self.bring_back(saved);
                    acc.push(d);
                    assert(sems(acc@) =~= sems(before).push(d.sem()));
                    proof {
                        notes = notes + g->Ok_0.notes;
                    }
                    j = k;
                },
                Err(f) => {
                    self.notes = saved;
                    let k: usize = self.skip(j + 1);
                    let e = self.error(f, eoi);
                    let ghost notes0 = self.notes@;
                    self.notes.push(e);
                    assert(errs(self.notes@) =~= errs(notes0) + seq![e@]);
                    proof {
                        assert(notes.push(e@) =~= notes + seq![e@]);
                        notes = notes.push(e@);
                    }
                    let d = Decl { kind: DeclKind::Error, span: self.span(j, k) };
                    assert(DeclKind::Error.sem() == SDeclKind::Error);
                    assert(d.sem() == SDecl { kind: SDeclKind::Error, span: d.span });
                    acc.push(d);
                    assert(sems(acc@) =~= sems(before).push(d.sem()));
                    j = k;
                },
            }
        }
        (acc, j)
    }
}

} // verus!
