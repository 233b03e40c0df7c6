//! Patterns, expressions and blocks.

use super::error::{group_notes, SParseError};
use super::grammar::{self, SItem, TypeMode};
use super::{did, errs, lack, want, want2, Expected, ParseError, ParseErrorKind, Parser, R};
use crate::ast::{
    AssertKind, BinOp, Block, CastForm, CatchArm, Elem, Expr, ExprId, ExprKind, FieldInit, FieldPat,
    MatchArm, Pattern, PatternKind, Stmt, StmtKind, StrPart, TryForm, TypeSpec, UnOp, UNSET,
};
use crate::lexer::Token;
use crate::syntax::{
    elems_of, expr_kind_of, exprs_of, field_inits_of, field_pats_of, group_lists, lambda_params_of,
    match_arms_of, names_of, opt_names_of, patterns_of, sems, stmts_of, str_parts_of, type_specs_of,
    Node, SExpr, SExprKind, SStmt, SStmtKind, SStrPart,
};
use crate::text::str_eq;
use vstd::prelude::*;

verus! {

broadcast use {group_lists, group_notes};

// ---- patterns ----

fn negatable(t: &Token) -> (r: Option<ExprKind>)
    ensures
        r.sem() == grammar::negatable(*t),
{
    match t {
        Token::Int(n) => Some(ExprKind::Int(*n)),
        Token::Float(f) => Some(ExprKind::Float(f.clone())),
        _ => None,
    }
}

/// The literals that are one token.
fn literal(t: &Token) -> (r: Option<ExprKind>)
    ensures
        r.sem() == grammar::literal(*t),
{
    match t {
        Token::Int(n) => Some(ExprKind::Int(*n)),
        Token::Float(f) => Some(ExprKind::Float(f.clone())),
        Token::Rune(c) => Some(ExprKind::Rune(*c)),
        Token::Atom(a) => Some(ExprKind::Atom(a.clone())),
        Token::True => Some(ExprKind::Bool(true)),
        Token::False => Some(ExprKind::Bool(false)),
        Token::Null => Some(ExprKind::Null),
        _ => None,
    }
}

fn prefix(t: &Token) -> (r: Option<UnOp>)
    ensures
        r == grammar::prefix(*t),
{
    match t {
        Token::Minus => Some(UnOp::Neg),
        Token::Bang => Some(UnOp::Not),
        Token::Bnot => Some(UnOp::Bnot),
        _ => None,
    }
}

fn assert_kind(t: &Token) -> (r: Option<AssertKind>)
    ensures
        r == grammar::assert_kind(*t),
{
    match t {
        Token::Assert => Some(AssertKind::Assert),
        Token::AssertEq => Some(AssertKind::Eq),
        Token::AssertNe => Some(AssertKind::Ne),
        Token::AssertThrows => Some(AssertKind::Throws),
        _ => None,
    }
}

fn starts_expr(t: &Token) -> (r: bool)
    ensures
        r == grammar::starts_expr(*t),
{
    match t {
        Token::If | Token::Match | Token::Loop | Token::While | Token::For => true,
        Token::Break | Token::Continue | Token::Return | Token::Throw | Token::Try => true,
        Token::Assert | Token::AssertEq | Token::AssertNe | Token::AssertThrows => true,
        Token::LParen | Token::LBracket | Token::LBrace | Token::StrStart => true,
        Token::Minus | Token::Bang | Token::Bnot | Token::Ident(_) => true,
        t => literal(t).is_some(),
    }
}

/// Expressions that end in a block stand alone as statements, without a semicolon.
fn is_block_like(e: &Expr) -> (r: bool)
    ensures
        r == grammar::is_block_like(e.sem().kind),
{
    assert(expr_kind_of(e.kind) == e.sem().kind);
    match &e.kind {
        ExprKind::If { .. } | ExprKind::Match { .. } | ExprKind::Loop { .. } => true,
        ExprKind::While { .. } | ExprKind::For { .. } | ExprKind::Block(_) => true,
        _ => false,
    }
}

impl<'a> Parser<'a> {
    pub(super) fn pattern(&mut self, i: usize) -> (r: R<Pattern>)
        requires
            i <= old(self).toks.len(),
        ensures
            did(*old(self), *final(self), r, grammar::pattern(old(self).toks@, i as int), i + 1),
        decreases old(self).toks.len() - i, 9int,
    {
        match self.pattern_kind(i) {
            Err(f) => Err(f),
            Ok((kind, j)) => {
                let span = self.span(i, j);
                Ok((Pattern { kind, span, id: ExprId(UNSET) }, j))
            },
        }
    }

    pub(super) fn pattern_kind(&mut self, i: usize) -> (r: R<PatternKind>)
        requires
            i <= old(self).toks.len(),
        ensures
            did(*old(self), *final(self), r, grammar::pattern_kind(old(self).toks@, i as int), i + 1),
        decreases old(self).toks.len() - i, 8int,
    {
        if i >= self.toks.len() {
            return Err(lack(i, "a pattern"));
        }
        match &self.toks[i].token {
            Token::Ident(s) => {
                if str_eq(s.as_str(), "_") {
                    return Ok((PatternKind::Wildcard, i + 1));
                }
                match self.path(i) {
                    Err(f) => Err(f),
                    Ok((p, j)) => {
                        assert(names_of(p@) =~= sems(p@));
                        if self.at(j, &Token::LBrace) {
                            self.record_pattern(j + 1, Some(p))
                        } else {
                            Ok((PatternKind::Bind(s.clone()), i + 1))
                        }
                    },
                }
            },
            Token::Is => match self.ty(i + 1, TypeMode::Full) {
                Err(f) => Err(f),
                Ok((t, j)) => Ok((PatternKind::Is(t), j)),
            },
            Token::LBrace => self.record_pattern(i + 1, None),
            Token::LParen => self.paren_pattern(i),
            Token::Minus => self.negative_pattern(i),
            Token::StrStart => match self.string(i + 1) {
                Err(f) => Err(f),
                Ok((parts, j)) => {
                    let span = self.span(i, j);
                    assert(str_parts_of(parts@) == sems(parts@));
                    let kind = ExprKind::Str(parts);
                    assert(kind.sem() == SExprKind::Str(str_parts_of(parts@)));
                    let e = Expr { kind, span, id: ExprId(UNSET) };
                    assert(e.sem() == SExpr { kind: kind.sem(), span, id: ExprId(UNSET) });
                    Ok((PatternKind::Literal(Box::new(e)), j))
                },
            },
            t => match literal(t) {
                Some(kind) => {
                    let span = self.span(i, i + 1);
                    let e = Expr { kind, span, id: ExprId(UNSET) };
                    assert(e.sem() == SExpr { kind: kind.sem(), span, id: ExprId(UNSET) });
                    Ok((PatternKind::Literal(Box::new(e)), i + 1))
                },
                None => Err(lack(i, "a pattern")),
            },
        }
    }

    /// Patterns in parentheses.
    pub(super) fn paren_pattern(&mut self, i: usize) -> (r: R<PatternKind>)
        requires
            i < old(self).toks.len(),
            old(self).toks@[i as int].token is LParen,
        ensures
            did(*old(self), *final(self), r, grammar::pattern_kind(old(self).toks@, i as int), i + 1),
        decreases old(self).toks.len() - i, 1int,
    {
        match self.patterns(i + 1, Token::RParen) {
            Err(f) => Err(f),
            Ok((items, j)) => {
                assert(patterns_of(items@) == sems(items@));
                if items.len() == 1 {
                    self.lone_comma(i, j);
                    let mut items = items;
                    assert(sems(items@)[0] == items@[0].sem());
                    let one = items.pop().unwrap();
                    assert(one.sem().kind == one.kind.sem());
                    Ok((one.kind, j))
                } else {
                    Ok((PatternKind::Tuple(items), j))
                }
            },
        }
    }

    /// A minus and a number.
    pub(super) fn negative_pattern(&mut self, i: usize) -> (r: R<PatternKind>)
        requires
            i < old(self).toks.len(),
            old(self).toks@[i as int].token is Minus,
        ensures
            did(*old(self), *final(self), r, grammar::pattern_kind(old(self).toks@, i as int), i + 1),
    {
        if i + 1 < self.toks.len() {
            if let Some(kind) = negatable(&self.toks[i + 1].token) {
                let rhs = Expr { kind, span: self.span(i, i + 2), id: ExprId(UNSET) };
                assert(rhs.sem() == SExpr { kind: kind.sem(), span: rhs.span, id: ExprId(UNSET) });
                let kind = ExprKind::Unary { op: UnOp::Neg, rhs: Box::new(rhs) };
                assert(kind.sem() == SExprKind::Unary { op: UnOp::Neg, rhs: Box::new(rhs.sem()) });
                let e = Expr { kind, span: self.span(i, i + 2), id: ExprId(UNSET) };
                assert(e.sem() == SExpr { kind: kind.sem(), span: e.span, id: ExprId(UNSET) });
                return Ok((PatternKind::Literal(Box::new(e)), i + 2));
            }
        }
        Err(lack(i + 1, "a number"))
    }

    /// `x` or `x: p`
    pub(super) fn field_pattern(&mut self, i: usize) -> (r: R<FieldPat>)
        requires
            i <= old(self).toks.len(),
        ensures
            did(*old(self), *final(self), r, grammar::field_pattern(old(self).toks@, i as int), i + 1),
        decreases old(self).toks.len() - i, 1int,
    {
        let name = match self.name(i) {
            None => {
                return Err(lack(i, "an identifier"));
            },
            Some(s) => s,
        };
        if self.at(i + 1, &Token::Colon) {
            match self.pattern(i + 2) {
                Err(f) => Err(f),
                Ok((p, j)) => {
                    let span = self.span(i, j);
                    Ok((FieldPat { name, pat: Some(p), span }, j))
                },
            }
        } else {
            let span = self.span(i, i + 1);
            Ok((FieldPat { name, pat: None, span }, i + 1))
        }
    }

    /// The fields of a record pattern from `i` on, perhaps a `..`, and the `}`.
    pub(super) fn record_pattern(&mut self, i: usize, path: Option<Vec<String>>) -> (r: R<PatternKind>)
        requires
            i <= old(self).toks.len(),
        ensures
            did(*old(self), *final(self), r, grammar::record_pattern_from(old(self).toks@, i as int, opt_names_of(path), seq![], seq![]), i + 1),
        decreases old(self).toks.len() - i, 2int,
    {
        let ghost ts = self.toks@;
        let ghost p0 = *self;
        let ghost name = opt_names_of(path);
        let ghost whole = grammar::record_pattern_from(ts, i as int, name, seq![], seq![]);
        let mut acc: Vec<FieldPat> = Vec::new();
        let ghost mut notes: Seq<SParseError> = seq![];
        let mut j: usize = i;
        assert(sems(acc@) =~= seq![]);
        loop
            invariant
                i <= j <= self.toks.len(),
                p0 == *old(self),
                self.toks == p0.toks,
                ts == self.toks@,
                name == opt_names_of(path),
                whole == grammar::record_pattern_from(ts, i as int, name, seq![], seq![]),
                errs(self.notes@) == errs(p0.notes@) + notes,
                whole == grammar::record_pattern_from(ts, j as int, name, sems(acc@), notes),
            decreases self.toks.len() - j,
        {
            if self.at(j, &Token::RBrace) {
                assert(field_pats_of(acc@) == sems(acc@));
                return Ok((PatternKind::Record { path, fields: acc, rest: false }, j + 1));
            }
            if self.at(j, &Token::DotDot) {
                if self.at(j + 1, &Token::RBrace) {
                    assert(field_pats_of(acc@) == sems(acc@));
                    return Ok((PatternKind::Record { path, fields: acc, rest: true }, j + 2));
                }
                return Err(want(j + 1, Token::RBrace));
            }
            let ghost g = grammar::field_pattern(ts, j as int);
            match self.field_pattern(j) {
                Err(f) => {
                    return Err(f);
                },
                Ok((x, k)) => {
                    let ghost before = acc@;
                    acc.push(x);
                    assert(sems(acc@) =~= sems(before).push(x.sem()));
                    proof {
                        notes = notes + g->Ok_0.notes;
                    }
                    if self.at(k, &Token::Comma) {
                        j = k + 1;
                    } else if self.at(k, &Token::RBrace) || self.at(k, &Token::DotDot) {
                        j = k;
                    } else {
                        return Err(want2(k, Token::Comma, Token::RBrace));
                    }
                },
            }
        }
    }
}

// ---- expressions ----

impl<'a> Parser<'a> {
    /// An expression. Without `lit`, a name before a `{` is not a record literal.
    pub(super) fn expr(&mut self, i: usize, lit: bool) -> (r: R<Expr>)
        requires
            i <= old(self).toks.len(),
        ensures
            did(*old(self), *final(self), r, grammar::expr(old(self).toks@, i as int, lit), i + 1),
        decreases old(self).toks.len() - i, 26int,
    {
        self.level(i, 1, lit)
    }

    /// An expression whose operators bind at level `p` or tighter.
    pub(super) fn level(&mut self, i: usize, p: u8, lit: bool) -> (r: R<Expr>)
        requires
            i <= old(self).toks.len(),
            1 <= p <= 12,
        ensures
            did(*old(self), *final(self), r, grammar::level(old(self).toks@, i as int, p as int, lit), i + 1),
        decreases old(self).toks.len() - i, 26 - p,
    {
        if p == 12 {
            return self.unary(i, lit);
        }
        let ghost ts = self.toks@;
        let ghost p0 = *self;
        let ghost whole = grammar::level(ts, i as int, p as int, lit);
        let ghost g0 = grammar::level(ts, i as int, p + 1, lit);
        let (first, k) = match self.level(i, p + 1, lit) {
            Err(f) => {
                return Err(f);
            },
            Ok(x) => x,
        };
        let mut acc: Expr = first;
        let ghost mut notes: Seq<SParseError> = g0->Ok_0.notes;
        let mut j: usize = k;
        loop
            invariant
                1 <= p < 12,
                i < j <= self.toks.len(),
                p0 == *old(self),
                self.toks == p0.toks,
                ts == self.toks@,
                whole == grammar::level(ts, i as int, p as int, lit),
                errs(self.notes@) == errs(p0.notes@) + notes,
                whole == grammar::level_from(ts, j as int, p as int, lit, acc.sem(), notes),
            decreases self.toks.len() - j,
        {
            let op = match self.operator(j, p) {
                None => {
                    return Ok((acc, j));
                },
                Some(op) => op,
            };
            let ghost g = grammar::level(ts, j + 1, p + 1, lit);
            match self.level(j + 1, p + 1, lit) {
                Err(f) => {
                    return Err(f);
                },
                Ok((rhs, k)) => {
                    let ghost lhs = acc;
                    let span = acc.span.start..rhs.span.end;
                    let kind = ExprKind::Binary { op, lhs: Box::new(acc), rhs: Box::new(rhs) };
                    assert(kind.sem() == SExprKind::Binary {
                        op,
                        lhs: Box::new(lhs.sem()),
                        rhs: Box::new(rhs.sem()),
                    });
                    acc = Expr { kind, span, id: ExprId(UNSET) };
                    assert(acc.sem() == SExpr { kind: kind.sem(), span, id: ExprId(UNSET) });
                    assert(lhs.sem().span == lhs.span && rhs.sem().span == rhs.span);
                    proof {
                        notes = notes + g->Ok_0.notes;
                    }
                    j = k;
                },
            }
        }
    }

    /// The operator of level `p` at `j`, if there is one.
    pub(super) fn operator(&self, j: usize, p: u8) -> (r: Option<BinOp>)
        ensures
            r == grammar::operator(self.toks@, j as int, p as int),
            r is Some ==> j < self.toks.len(),
    {
        if j < self.toks.len() {
            match BinOp::from_token(&self.toks[j].token) {
                Some(op) => if op.prec() == p {
                    Some(op)
                } else {
                    None
                },
                None => None,
            }
        } else {
            None
        }
    }

    pub(super) fn unary(&mut self, i: usize, lit: bool) -> (r: R<Expr>)
        requires
            i <= old(self).toks.len(),
        ensures
            did(*old(self), *final(self), r, grammar::unary(old(self).toks@, i as int, lit), i + 1),
        decreases old(self).toks.len() - i, 13int,
    {
        let op = if i < self.toks.len() {
            prefix(&self.toks[i].token)
        } else {
            None
        };
        if let Some(op) = op {
            match self.unary(i + 1, lit) {
                Err(f) => Err(f),
                Ok((rhs, j)) => {
                    let span = self.span(i, j);
                    let kind = ExprKind::Unary { op, rhs: Box::new(rhs) };
                    assert(kind.sem() == SExprKind::Unary { op, rhs: Box::new(rhs.sem()) });
                    Ok((Expr { kind, span, id: ExprId(UNSET) }, j))
                },
            }
        } else {
            match self.atom(i, lit) {
                Err(f) => Err(f),
                Ok((kind, j)) => {
                    let span = self.span(i, j);
                    let e = Expr { kind, span, id: ExprId(UNSET) };
                    assert(e.sem() == SExpr { kind: kind.sem(), span, id: ExprId(UNSET) });
                    self.postfix_ops(i, j, e)
                },
            }
        }
    }

    /// Calls, indexing, field access, `is` and `as` from `j` on, after the operand that
    /// started at `i`.
    pub(super) fn postfix_ops(&mut self, i: usize, j: usize, base: Expr) -> (r: R<Expr>)
        requires
            i < j <= old(self).toks.len(),
        ensures
            did(
                *old(self),
                *final(self),
                r,
                grammar::postfix_from(old(self).toks@, j as int, i as int, base.sem(), seq![]),
                i + 1,
            ),
        decreases old(self).toks.len() - j, 3int,
    {
        let ghost ts = self.toks@;
        let ghost p0 = *self;
        let ghost whole = grammar::postfix_from(ts, j as int, i as int, base.sem(), seq![]);
        let mut acc: Expr = base;
        let ghost mut notes: Seq<SParseError> = seq![];
        let mut k: usize = j;
        while self.at(k, &Token::LParen) || self.at(k, &Token::LBracket) || self.at(k, &Token::Dot)
            || self.at(k, &Token::Is) || self.at(k, &Token::As)
            invariant
                i < j <= k <= self.toks.len(),
                p0 == *old(self),
                self.toks == p0.toks,
                ts == self.toks@,
                whole == grammar::postfix_from(ts, j as int, i as int, base.sem(), seq![]),
                errs(self.notes@) == errs(p0.notes@) + notes,
                whole == grammar::postfix_from(ts, k as int, i as int, acc.sem(), notes),
            decreases self.toks.len() - k,
        {
            let ghost g = grammar::postfix(ts, k as int, acc.sem());
            match self.postfix(k, acc) {
                Err(f) => {
                    return Err(f);
                },
                Ok((kind, l)) => {
                    let span = self.span(i, l);
                    acc = Expr { kind, span, id: ExprId(UNSET) };
                    assert(acc.sem() == SExpr { kind: kind.sem(), span, id: ExprId(UNSET) });
                    proof {
                        notes = notes + g->Ok_0.notes;
                    }
                    k = l;
                },
            }
        }
        Ok((acc, k))
    }

    /// One call, index, field access, `is` or `as` at `i`, applied to `base`.
    pub(super) fn postfix(&mut self, i: usize, base: Expr) -> (r: R<ExprKind>)
        requires
            i <= old(self).toks.len(),
            grammar::postfix_starts(old(self).toks@, i as int),
        ensures
            did(*old(self), *final(self), r, grammar::postfix(old(self).toks@, i as int, base.sem()), i + 1),
        decreases old(self).toks.len() - i, 2int,
    {
        if self.at(i, &Token::LParen) {
            let none: Vec<TypeSpec> = Vec::new();
            assert(sems(none@) =~= seq![]);
            return self.call_args(i, base, none);
        }
        if self.at(i, &Token::LBracket) {
            let saved = self.set_aside();
            match self.type_args(i + 1) {
                Ok((generics, j)) => if self.at(j, &Token::LParen) {
                    self.bring_back(saved);
                    self.call_args(j, base, generics)
                } else {
                    self.notes = saved;
                    self.index(i, base)
                },
                Err(_) => {
                    self.notes = saved;
                    self.index(i, base)
                },
            }
        } else if self.at(i, &Token::Dot) {
            match self.name(i + 1) {
                None => Err(lack(i + 1, "an identifier")),
                Some(name) => Ok((ExprKind::Field { base: Box::new(base), name }, i + 2)),
            }
        } else {
            let is = self.at(i, &Token::Is);
            match self.ty(i + 1, TypeMode::Soft) {
                Err(f) => Err(f),
                Ok((ty, j)) => if is {
                    Ok((ExprKind::Is { lhs: Box::new(base), ty }, j))
                } else {
                    Ok((ExprKind::As { form: CastForm::Plain, lhs: Box::new(base), ty }, j))
                },
            }
        }
    }

    /// The arguments of a call, whose `(` is at `i`.
    pub(super) fn call_args(&mut self, i: usize, base: Expr, generics: Vec<TypeSpec>) -> (r: R<ExprKind>)
        requires
            i <= old(self).toks.len(),
            i < old(self).toks.len(),
        ensures
            did(*old(self), *final(self), r, grammar::call_args(old(self).toks@, i as int, base.sem(), sems(generics@), seq![]), i + 1),
        decreases old(self).toks.len() - i, 1int,
    {
        match self.exprs(i + 1, Token::RParen) {
            Err(f) => Err(f),
            Ok((args, j)) => {
                assert(exprs_of(args@) == sems(args@));
                assert(type_specs_of(generics@) == sems(generics@));
                Ok((ExprKind::Call { callee: Box::new(base), generics, args }, j))
            },
        }
    }

    /// `[e]`, whose `[` is at `i`.
    pub(super) fn index(&mut self, i: usize, base: Expr) -> (r: R<ExprKind>)
        requires
            i <= old(self).toks.len(),
            i < old(self).toks.len(),
        ensures
            did(*old(self), *final(self), r, grammar::index(old(self).toks@, i as int, base.sem()), i + 1),
        decreases old(self).toks.len() - i, 1int,
    {
        match self.expr(i + 1, true) {
            Err(f) => Err(f),
            Ok((index, j)) => if self.at(j, &Token::RBracket) {
                Ok((ExprKind::Index { base: Box::new(base), index: Box::new(index) }, j + 1))
            } else {
                Err(want(j, Token::RBracket))
            },
        }
    }

    /// The expression at `i`, if one may start there.
    pub(super) fn optional_expr(&mut self, i: usize) -> (r: R<Option<Box<Expr>>>)
        requires
            i <= old(self).toks.len(),
        ensures
            did(*old(self), *final(self), r, grammar::optional_expr(old(self).toks@, i as int), i as int),
        decreases old(self).toks.len() - i, 27int,
    {
        if i < self.toks.len() && starts_expr(&self.toks[i].token) {
            match self.expr(i, true) {
                Err(f) => Err(f),
                Ok((x, j)) => Ok((Some(Box::new(x)), j)),
            }
        } else {
            Ok((None, i))
        }
    }

    /// Whether what stands between the braces from `{` at `j` is a record literal.
    pub(super) fn starts_record(&self, j: usize) -> (r: bool)
        requires
            j <= self.toks.len(),
        ensures
            r == grammar::starts_record(self.toks@, j as int),
    {
        if !self.at(j, &Token::LBrace) {
            return false;
        }
        if self.at(j + 1, &Token::RBrace) || self.at(j + 1, &Token::DotDot) {
            return true;
        }
        match self.name(j + 1) {
            Some(_) => self.at(j + 2, &Token::Colon),
            None => false,
        }
    }

    /// An expression without operators around it.
    pub(super) fn atom(&mut self, i: usize, lit: bool) -> (r: R<ExprKind>)
        requires
            i <= old(self).toks.len(),
        ensures
            did(*old(self), *final(self), r, grammar::atom(old(self).toks@, i as int, lit), i + 1),
        decreases old(self).toks.len() - i, 12int,
    {
        if i >= self.toks.len() {
            return Err(lack(i, "an expression"));
        }
        match &self.toks[i].token {
            Token::If | Token::Match | Token::Loop | Token::While | Token::For => self.block_like(i),
            Token::Break => match self.optional_expr(i + 1) {
                Err(f) => Err(f),
                Ok((x, j)) => Ok((ExprKind::Break(x), j)),
            },
            Token::Continue => Ok((ExprKind::Continue, i + 1)),
            Token::Return => match self.optional_expr(i + 1) {
                Err(f) => Err(f),
                Ok((x, j)) => Ok((ExprKind::Return(x), j)),
            },
            Token::Throw => match self.expr(i + 1, true) {
                Err(f) => Err(f),
                Ok((x, j)) => Ok((ExprKind::Throw(Box::new(x)), j)),
            },
            Token::Try => self.try_expr(i),
            Token::Assert | Token::AssertEq | Token::AssertNe | Token::AssertThrows => {
                self.assert_expr(i, lit)
            },
            Token::LParen => self.lambda_or_paren(i, lit),
            Token::LBracket => match self.elems(i + 1, Token::RBracket) {
                Err(f) => Err(f),
                Ok((x, j)) => {
                    assert(elems_of(x@) == sems(x@));
                    Ok((ExprKind::List(x), j))
                },
            },
            Token::LBrace => if lit && self.starts_record(i) {
                self.record_lit(i + 1, None)
            } else {
                match self.block(i) {
                    Err(f) => Err(f),
                    Ok((b, j)) => Ok((ExprKind::Block(b), j)),
                }
            },
            Token::StrStart => match self.string(i + 1) {
                Err(f) => Err(f),
                Ok((parts, j)) => {
                    assert(str_parts_of(parts@) == sems(parts@));
                    Ok((ExprKind::Str(parts), j))
                },
            },
            Token::Ident(_) => match self.path(i) {
                Err(f) => Err(f),
                Ok((p, j)) => {
                    assert(names_of(p@) =~= sems(p@));
                    if lit && self.starts_record(j) {
                        self.record_lit(j + 1, Some(p))
                    } else {
                        Ok((ExprKind::Path(p), j))
                    }
                },
            },
            t => match literal(t) {
                Some(k) => Ok((k, i + 1)),
                None => Err(lack(i, "an expression")),
            },
        }
    }

    /// An assertion word and its arguments.
    pub(super) fn assert_expr(&mut self, i: usize, lit: bool) -> (r: R<ExprKind>)
        requires
            i < old(self).toks.len(),
            grammar::assert_kind(old(self).toks@[i as int].token) is Some,
        ensures
            did(*old(self), *final(self), r, grammar::atom(old(self).toks@, i as int, lit), i + 1),
        decreases old(self).toks.len() - i, 1int,
    {
        let kind = assert_kind(&self.toks[i].token).unwrap();
        if !self.at(i + 1, &Token::LParen) {
            return Err(want(i + 1, Token::LParen));
        }
        match self.exprs(i + 2, Token::RParen) {
            Err(f) => Err(f),
            Ok((args, j)) => {
                assert(exprs_of(args@) == sems(args@));
                Ok((ExprKind::Assert { kind, args }, j))
            },
        }
    }

    /// What starts with `(`: a lambda if its parameters and a `=>` stand there, and
    /// otherwise expressions in parentheses.
    pub(super) fn lambda_or_paren(&mut self, i: usize, lit: bool) -> (r: R<ExprKind>)
        requires
            i < old(self).toks.len(),
            old(self).toks@[i as int].token is LParen,
        ensures
            did(*old(self), *final(self), r, grammar::atom(old(self).toks@, i as int, lit), i + 1),
        decreases old(self).toks.len() - i, 2int,
    {
        let saved = self.set_aside();
        match self.lambda_params(i + 1, Token::RParen) {
            Ok((params, j)) => if self.at(j, &Token::FatArrow) {
                self.bring_back(saved);
                match self.expr(j + 1, true) {
                    Err(f) => Err(f),
                    Ok((body, k)) => {
                        assert(lambda_params_of(params@) == sems(params@));
                        Ok((ExprKind::Lambda { params, body: Box::new(body) }, k))
                    },
                }
            } else {
                self.notes = saved;
                self.paren(i)
            },
            Err(_) => {
                self.notes = saved;
                self.paren(i)
            },
        }
    }

    /// Expressions in parentheses.
    pub(super) fn paren(&mut self, i: usize) -> (r: R<ExprKind>)
        requires
            i <= old(self).toks.len(),
            i < old(self).toks.len(),
        ensures
            did(*old(self), *final(self), r, grammar::paren(old(self).toks@, i as int), i + 1),
        decreases old(self).toks.len() - i, 1int,
    {
        match self.exprs(i + 1, Token::RParen) {
            Err(f) => Err(f),
            Ok((items, j)) => {
                assert(exprs_of(items@) == sems(items@));
                if items.len() == 1 {
                    self.lone_comma(i, j);
                    let mut items = items;
                    assert(sems(items@)[0] == items@[0].sem());
                    let one = items.pop().unwrap();
                    assert(one.sem().kind == one.kind.sem());
                    Ok((one.kind, j))
                } else {
                    Ok((ExprKind::Tuple(items), j))
                }
            },
        }
    }

    /// `e` or `..e` in a list.
    pub(super) fn elem(&mut self, i: usize) -> (r: R<Elem>)
        requires
            i <= old(self).toks.len(),
        ensures
            did(*old(self), *final(self), r, grammar::elem(old(self).toks@, i as int), i + 1),
        decreases old(self).toks.len() - i, 27int,
    {
        if self.at(i, &Token::DotDot) {
            match self.expr(i + 1, true) {
                Err(f) => Err(f),
                Ok((x, j)) => Ok((Elem::Spread(x), j)),
            }
        } else {
            match self.expr(i, true) {
                Err(f) => Err(f),
                Ok((x, j)) => Ok((Elem::Value(x), j)),
            }
        }
    }

    /// `x: e` in a record literal.
    pub(super) fn field_init(&mut self, i: usize) -> (r: R<FieldInit>)
        requires
            i <= old(self).toks.len(),
        ensures
            did(*old(self), *final(self), r, grammar::field_init(old(self).toks@, i as int), i + 1),
        decreases old(self).toks.len() - i, 1int,
    {
        let name = match self.name(i) {
            None => {
                return Err(lack(i, "an identifier"));
            },
            Some(s) => s,
        };
        if !self.at(i + 1, &Token::Colon) {
            return Err(want(i + 1, Token::Colon));
        }
        match self.expr(i + 2, true) {
            Err(f) => Err(f),
            Ok((value, j)) => {
                let span = self.span(i, j);
                Ok((FieldInit { name, value, span }, j))
            },
        }
    }

    /// The fields of a record literal from `i` on, perhaps a spread, and the `}`.
    pub(super) fn record_lit(&mut self, i: usize, path: Option<Vec<String>>) -> (r: R<ExprKind>)
        requires
            i <= old(self).toks.len(),
        ensures
            did(*old(self), *final(self), r, grammar::record_from(old(self).toks@, i as int, opt_names_of(path), seq![], seq![]), i + 1),
        decreases old(self).toks.len() - i, 2int,
    {
        let ghost ts = self.toks@;
        let ghost p0 = *self;
        let ghost name = opt_names_of(path);
        let ghost whole = grammar::record_from(ts, i as int, name, seq![], seq![]);
        let mut acc: Vec<FieldInit> = Vec::new();
        let ghost mut notes: Seq<SParseError> = seq![];
        let mut j: usize = i;
        assert(sems(acc@) =~= seq![]);
        loop
            invariant
                i <= j <= self.toks.len(),
                p0 == *old(self),
                self.toks == p0.toks,
                ts == self.toks@,
                name == opt_names_of(path),
                whole == grammar::record_from(ts, i as int, name, seq![], seq![]),
                errs(self.notes@) == errs(p0.notes@) + notes,
                whole == grammar::record_from(ts, j as int, name, sems(acc@), notes),
            decreases self.toks.len() - j,
        {
            if self.at(j, &Token::RBrace) {
                assert(field_inits_of(acc@) == sems(acc@));
                return Ok((ExprKind::RecordLit { path, fields: acc, spread: None }, j + 1));
            }
            if self.at(j, &Token::DotDot) {
                match self.expr(j + 1, true) {
                    Err(f) => {
                        return Err(f);
                    },
                    Ok((x, k)) => {
                        if self.at(k, &Token::RBrace) {
                            assert(field_inits_of(acc@) == sems(acc@));
                            return Ok(
                                (
                                    ExprKind::RecordLit {
                                        path,
                                        fields: acc,
                                        spread: Some(Box::new(x)),
                                    },
                                    k + 1,
                                ),
                            );
                        }
                        return Err(want(k, Token::RBrace));
                    },
                }
            }
            let ghost g = grammar::field_init(ts, j as int);
            match self.field_init(j) {
                Err(f) => {
                    return Err(f);
                },
                Ok((x, k)) => {
                    let ghost before = acc@;
                    acc.push(x);
                    assert(sems(acc@) =~= sems(before).push(x.sem()));
                    proof {
                        notes = notes + g->Ok_0.notes;
                    }
                    if self.at(k, &Token::Comma) {
                        j = k + 1;
                    } else if self.at(k, &Token::RBrace) || self.at(k, &Token::DotDot) {
                        j = k;
                    } else {
                        return Err(want2(k, Token::Comma, Token::RBrace));
                    }
                },
            }
        }
    }

    /// The parts of a string literal from `i` on, up to its closing quote.
    pub(super) fn string(&mut self, i: usize) -> (r: R<Vec<StrPart>>)
        requires
            i <= old(self).toks.len(),
        ensures
            did(*old(self), *final(self), r, grammar::string_from(old(self).toks@, i as int, seq![], seq![]), i + 1),
        decreases old(self).toks.len() - i, 2int,
    {
        let ghost ts = self.toks@;
        let ghost p0 = *self;
        let ghost whole = grammar::string_from(ts, i as int, seq![], seq![]);
        let mut acc: Vec<StrPart> = Vec::new();
        let ghost mut notes: Seq<SParseError> = seq![];
        let mut j: usize = i;
        assert(sems(acc@) =~= seq![]);
        loop
            invariant
                i <= j <= self.toks.len(),
                p0 == *old(self),
                self.toks == p0.toks,
                ts == self.toks@,
                whole == grammar::string_from(ts, i as int, seq![], seq![]),
                errs(self.notes@) == errs(p0.notes@) + notes,
                whole == grammar::string_from(ts, j as int, sems(acc@), notes),
            decreases self.toks.len() - j,
        {
            if j >= self.toks.len() {
                return Err(want(j, Token::StrEnd));
            }
            let ghost before = acc@;
            match &self.toks[j].token {
                Token::StrEnd => {
                    return Ok((acc, j + 1));
                },
                Token::StrText(s) => {
                    let part = StrPart::Text(s.clone());
                    acc.push(part);
                    assert(part.sem() == SStrPart::Text(s@));
                    assert(sems(acc@) =~= sems(before).push(part.sem()));
                    j += 1;
                },
                Token::InterpStart => {
                    let ghost g = grammar::expr(ts, j + 1, true);
                    match self.expr(j + 1, true) {
                        Err(f) => {
                            return Err(f);
                        },
                        Ok((x, k)) => {
                            if !self.at(k, &Token::InterpEnd) {
                                return Err(want(k, Token::InterpEnd));
                            }
                            let part = StrPart::Interp(x);
                            acc.push(part);
                            assert(part.sem() == SStrPart::Interp(x.sem()));
                            assert(sems(acc@) =~= sems(before).push(part.sem()));
                            proof {
                                notes = notes + g->Ok_0.notes;
                            }
                            j = k + 1;
                        },
                    }
                },
                _ => {
                    return Err(want(j, Token::StrEnd));
                },
            }
        }
    }

    /// `try`, `try?` or `try!` at `i`.
    pub(super) fn try_expr(&mut self, i: usize) -> (r: R<ExprKind>)
        requires
            i <= old(self).toks.len(),
            i < old(self).toks.len(),
        ensures
            did(*old(self), *final(self), r, grammar::try_expr(old(self).toks@, i as int), i + 1),
        decreases old(self).toks.len() - i, 1int,
    {
        let mut form = TryForm::Propagate;
        let mut j: usize = i + 1;
        if self.at(j, &Token::Question) {
            form = TryForm::Soften;
            j += 1;
        } else if self.at(j, &Token::Bang) {
            form = TryForm::Assert;
            j += 1;
        }
        let (body, k) = match self.unary(j, true) {
            Err(f) => {
                return Err(f);
            },
            Ok(x) => x,
        };
        if self.at(k, &Token::Catch) {
            match self.catch_arm(k) {
                Err(f) => Err(f),
                Ok((c, l)) => Ok(
                    (ExprKind::Try { form, body: Box::new(body), catch: Some(c) }, l),
                ),
            }
        } else {
            Ok((ExprKind::Try { form, body: Box::new(body), catch: None }, k))
        }
    }

    /// `catch (e) { .. }` at `i`.
    pub(super) fn catch_arm(&mut self, i: usize) -> (r: R<CatchArm>)
        requires
            i <= old(self).toks.len(),
            i < old(self).toks.len(),
        ensures
            did(*old(self), *final(self), r, grammar::catch_arm(old(self).toks@, i as int), i + 1),
        decreases old(self).toks.len() - i, 1int,
    {
        if !self.at(i + 1, &Token::LParen) {
            return Err(want(i + 1, Token::LParen));
        }
        let binding = match self.name(i + 2) {
            None => {
                return Err(lack(i + 2, "an identifier"));
            },
            Some(s) => s,
        };
        if !self.at(i + 3, &Token::RParen) {
            return Err(want(i + 3, Token::RParen));
        }
        match self.block(i + 4) {
            Err(f) => Err(f),
            Ok((body, j)) => {
                let span = self.span(i, j);
                Ok((CatchArm { binding, body, span }, j))
            },
        }
    }

    /// `if`, `match`, `loop`, `while` or `for` at `i`.
    pub(super) fn block_like(&mut self, i: usize) -> (r: R<ExprKind>)
        requires
            i <= old(self).toks.len(),
            i < old(self).toks.len(),
        ensures
            did(*old(self), *final(self), r, grammar::block_like(old(self).toks@, i as int), i + 1),
        decreases old(self).toks.len() - i, 2int,
    {
        match &self.toks[i].token {
            Token::If => self.if_chain(i),
            Token::Match => self.match_expr(i),
            Token::Loop => match self.block(i + 1) {
                Err(f) => Err(f),
                Ok((body, j)) => Ok((ExprKind::Loop { body }, j)),
            },
            Token::While => match self.expr(i + 1, false) {
                Err(f) => Err(f),
                Ok((c, j)) => match self.block(j) {
                    Err(f) => Err(f),
                    Ok((body, k)) => Ok((ExprKind::While { cond: Box::new(c), body }, k)),
                },
            },
            Token::For => self.for_expr(i),
            _ => Err(lack(i, "an expression")),
        }
    }

    pub(super) fn match_expr(&mut self, i: usize) -> (r: R<ExprKind>)
        requires
            i < old(self).toks.len(),
            old(self).toks@[i as int].token is Match,
        ensures
            did(*old(self), *final(self), r, grammar::block_like(old(self).toks@, i as int), i + 1),
        decreases old(self).toks.len() - i, 1int,
    {
        let (s, j) = match self.expr(i + 1, false) {
            Err(f) => {
                return Err(f);
            },
            Ok(x) => x,
        };
        if !self.at(j, &Token::LBrace) {
            return Err(want(j, Token::LBrace));
        }
        match self.arms(j + 1, Token::RBrace) {
            Err(f) => Err(f),
            Ok((arms, k)) => {
                assert(match_arms_of(arms@) == sems(arms@));
                Ok((ExprKind::Match { scrutinee: Box::new(s), arms }, k))
            },
        }
    }

    pub(super) fn for_expr(&mut self, i: usize) -> (r: R<ExprKind>)
        requires
            i < old(self).toks.len(),
            old(self).toks@[i as int].token is For,
        ensures
            did(*old(self), *final(self), r, grammar::block_like(old(self).toks@, i as int), i + 1),
        decreases old(self).toks.len() - i, 1int,
    {
        let (pat, j) = match self.pattern(i + 1) {
            Err(f) => {
                return Err(f);
            },
            Ok(x) => x,
        };
        if !self.at(j, &Token::In) {
            return Err(want(j, Token::In));
        }
        let (iter, k) = match self.expr(j + 1, false) {
            Err(f) => {
                return Err(f);
            },
            Ok(x) => x,
        };
        match self.block(k) {
            Err(f) => Err(f),
            Ok((body, l)) => Ok((ExprKind::For { pat, iter: Box::new(iter), body }, l)),
        }
    }

    /// `if c { .. }`, perhaps with an `else`.
    pub(super) fn if_chain(&mut self, i: usize) -> (r: R<ExprKind>)
        requires
            i <= old(self).toks.len(),
            i < old(self).toks.len(),
        ensures
            did(*old(self), *final(self), r, grammar::if_chain(old(self).toks@, i as int), i + 1),
        decreases old(self).toks.len() - i, 1int,
    {
        let (c, j) = match self.expr(i + 1, false) {
            Err(f) => {
                return Err(f);
            },
            Ok(x) => x,
        };
        let (then, k) = match self.block(j) {
            Err(f) => {
                return Err(f);
            },
            Ok(x) => x,
        };
        if self.at(k, &Token::Else) {
            match self.else_branch(k + 1) {
                Err(f) => Err(f),
                Ok((x, l)) => Ok(
                    (ExprKind::If { cond: Box::new(c), then, else_: Some(Box::new(x)) }, l),
                ),
            }
        } else {
            Ok((ExprKind::If { cond: Box::new(c), then, else_: None }, k))
        }
    }

    pub(super) fn else_branch(&mut self, i: usize) -> (r: R<Expr>)
        requires
            i <= old(self).toks.len(),
        ensures
            did(*old(self), *final(self), r, grammar::else_branch(old(self).toks@, i as int), i + 1),
        decreases old(self).toks.len() - i, 2int,
    {
        if self.at(i, &Token::If) {
            match self.if_chain(i) {
                Err(f) => Err(f),
                Ok((kind, j)) => {
                    let span = self.span(i, j);
                    Ok((Expr { kind, span, id: ExprId(UNSET) }, j))
                },
            }
        } else {
            match self.block(i) {
                Err(f) => Err(f),
                Ok((b, j)) => {
                    let span = self.span(i, j);
                    let kind = ExprKind::Block(b);
                    assert(kind.sem() == SExprKind::Block(b.sem()));
                    Ok((Expr { kind, span, id: ExprId(UNSET) }, j))
                },
            }
        }
    }

    /// `pattern if guard => body`
    pub(super) fn arm(&mut self, i: usize) -> (r: R<MatchArm>)
        requires
            i <= old(self).toks.len(),
        ensures
            did(*old(self), *final(self), r, grammar::arm(old(self).toks@, i as int), i + 1),
        decreases old(self).toks.len() - i, 27int,
    {
        let (pat, j) = match self.pattern(i) {
            Err(f) => {
                return Err(f);
            },
            Ok(x) => x,
        };
        let mut guard: Option<Expr> = None;
        let mut k: usize = j;
        if self.at(j, &Token::If) {
            match self.expr(j + 1, true) {
                Err(f) => {
                    return Err(f);
                },
                Ok((g, l)) => {
                    guard = Some(g);
                    k = l;
                },
            }
        }
        if !self.at(k, &Token::FatArrow) {
            return Err(want(k, Token::FatArrow));
        }
        match self.expr(k + 1, true) {
            Err(f) => Err(f),
            Ok((body, l)) => {
                let span = self.span(i, l);
                Ok((MatchArm { pat, guard, body, span }, l))
            },
        }
    }

    pub(super) fn exprs(&mut self, i: usize, close: Token) -> (r: R<Vec<Expr>>)
        requires
            i <= old(self).toks.len(),
            close@ is Fixed,
        ensures
            did(*old(self), *final(self), r, grammar::exprs_from(old(self).toks@, i as int, close, seq![], seq![]), i + 1),
        decreases old(self).toks.len() - i, 30int,
    {
        let ghost ts = self.toks@;
        let ghost p0 = *self;
        let ghost whole = grammar::exprs_from(ts, i as int, close, seq![], seq![]);
        let mut acc: Vec<Expr> = Vec::new();
        let ghost mut notes: Seq<SParseError> = seq![];
        let mut j: usize = i;
        assert(sems(acc@) =~= seq![]);
        loop
            invariant
                i <= j <= self.toks.len(),
                p0 == *old(self),
                self.toks == p0.toks,
                ts == self.toks@,
                whole == grammar::exprs_from(ts, i as int, close, seq![], seq![]),
                close@ is Fixed,
                errs(self.notes@) == errs(p0.notes@) + notes,
                whole == grammar::exprs_from(ts, j as int, close, sems(acc@), notes),
            decreases self.toks.len() - j,
        {
            if self.at(j, &close) {
                return Ok((acc, j + 1));
            }
            let ghost g = grammar::expr(ts, j as int, true);
            match self.expr(j, true) {
                Err(f) => {
                    return Err(f);
                },
                Ok((x, k)) => {
                    let ghost before = acc@;
                    acc.push(x);
                    assert(sems(acc@) =~= sems(before).push(x.sem()));
                    proof {
                        notes = notes + g->Ok_0.notes;
                    }
                    if self.at(k, &Token::Comma) {
                        j = k + 1;
                    } else if self.at(k, &close) {
                        return Ok((acc, k + 1));
                    } else {
                        return Err(want2(k, Token::Comma, close));
                    }
                },
            }
        }
    }


    pub(super) fn elems(&mut self, i: usize, close: Token) -> (r: R<Vec<Elem>>)
        requires
            i <= old(self).toks.len(),
            close@ is Fixed,
        ensures
            did(*old(self), *final(self), r, grammar::elems_from(old(self).toks@, i as int, close, seq![], seq![]), i + 1),
        decreases old(self).toks.len() - i, 30int,
    {
        let ghost ts = self.toks@;
        let ghost p0 = *self;
        let ghost whole = grammar::elems_from(ts, i as int, close, seq![], seq![]);
        let mut acc: Vec<Elem> = Vec::new();
        let ghost mut notes: Seq<SParseError> = seq![];
        let mut j: usize = i;
        assert(sems(acc@) =~= seq![]);
        loop
            invariant
                i <= j <= self.toks.len(),
                p0 == *old(self),
                self.toks == p0.toks,
                ts == self.toks@,
                whole == grammar::elems_from(ts, i as int, close, seq![], seq![]),
                close@ is Fixed,
                errs(self.notes@) == errs(p0.notes@) + notes,
                whole == grammar::elems_from(ts, j as int, close, sems(acc@), notes),
            decreases self.toks.len() - j,
        {
            if self.at(j, &close) {
                return Ok((acc, j + 1));
            }
            let ghost g = grammar::elem(ts, j as int);
            match self.elem(j) {
                Err(f) => {
                    return Err(f);
                },
                Ok((x, k)) => {
                    let ghost before = acc@;
                    acc.push(x);
                    assert(sems(acc@) =~= sems(before).push(x.sem()));
                    proof {
                        notes = notes + g->Ok_0.notes;
                    }
                    if self.at(k, &Token::Comma) {
                        j = k + 1;
                    } else if self.at(k, &close) {
                        return Ok((acc, k + 1));
                    } else {
                        return Err(want2(k, Token::Comma, close));
                    }
                },
            }
        }
    }


    pub(super) fn patterns(&mut self, i: usize, close: Token) -> (r: R<Vec<Pattern>>)
        requires
            i <= old(self).toks.len(),
            close@ is Fixed,
        ensures
            did(*old(self), *final(self), r, grammar::patterns_from(old(self).toks@, i as int, close, seq![], seq![]), i + 1),
        decreases old(self).toks.len() - i, 30int,
    {
        let ghost ts = self.toks@;
        let ghost p0 = *self;
        let ghost whole = grammar::patterns_from(ts, i as int, close, seq![], seq![]);
        let mut acc: Vec<Pattern> = Vec::new();
        let ghost mut notes: Seq<SParseError> = seq![];
        let mut j: usize = i;
        assert(sems(acc@) =~= seq![]);
        loop
            invariant
                i <= j <= self.toks.len(),
                p0 == *old(self),
                self.toks == p0.toks,
                ts == self.toks@,
                whole == grammar::patterns_from(ts, i as int, close, seq![], seq![]),
                close@ is Fixed,
                errs(self.notes@) == errs(p0.notes@) + notes,
                whole == grammar::patterns_from(ts, j as int, close, sems(acc@), notes),
            decreases self.toks.len() - j,
        {
            if self.at(j, &close) {
                return Ok((acc, j + 1));
            }
            let ghost g = grammar::pattern(ts, j as int);
            match self.pattern(j) {
                Err(f) => {
                    return Err(f);
                },
                Ok((x, k)) => {
                    let ghost before = acc@;
                    acc.push(x);
                    assert(sems(acc@) =~= sems(before).push(x.sem()));
                    proof {
                        notes = notes + g->Ok_0.notes;
                    }
                    if self.at(k, &Token::Comma) {
                        j = k + 1;
                    } else if self.at(k, &close) {
                        return Ok((acc, k + 1));
                    } else {
                        return Err(want2(k, Token::Comma, close));
                    }
                },
            }
        }
    }


    pub(super) fn arms(&mut self, i: usize, close: Token) -> (r: R<Vec<MatchArm>>)
        requires
            i <= old(self).toks.len(),
            close@ is Fixed,
        ensures
            did(*old(self), *final(self), r, grammar::arms_from(old(self).toks@, i as int, close, seq![], seq![]), i + 1),
        decreases old(self).toks.len() - i, 30int,
    {
        let ghost ts = self.toks@;
        let ghost p0 = *self;
        let ghost whole = grammar::arms_from(ts, i as int, close, seq![], seq![]);
        let mut acc: Vec<MatchArm> = Vec::new();
        let ghost mut notes: Seq<SParseError> = seq![];
        let mut j: usize = i;
        assert(sems(acc@) =~= seq![]);
        loop
            invariant
                i <= j <= self.toks.len(),
                p0 == *old(self),
                self.toks == p0.toks,
                ts == self.toks@,
                whole == grammar::arms_from(ts, i as int, close, seq![], seq![]),
                close@ is Fixed,
                errs(self.notes@) == errs(p0.notes@) + notes,
                whole == grammar::arms_from(ts, j as int, close, sems(acc@), notes),
            decreases self.toks.len() - j,
        {
            if self.at(j, &close) {
                return Ok((acc, j + 1));
            }
            let ghost g = grammar::arm(ts, j as int);
            match self.arm(j) {
                Err(f) => {
                    return Err(f);
                },
                Ok((x, k)) => {
                    let ghost before = acc@;
                    acc.push(x);
                    assert(sems(acc@) =~= sems(before).push(x.sem()));
                    proof {
                        notes = notes + g->Ok_0.notes;
                    }
                    if self.at(k, &Token::Comma) {
                        j = k + 1;
                    } else if self.at(k, &close) {
                        return Ok((acc, k + 1));
                    } else {
                        return Err(want2(k, Token::Comma, close));
                    }
                },
            }
        }
    }


}

// ---- blocks ----

/// One entry of a block: a statement, or an expression and whether a `;` followed.
pub(super) enum Item {
    Stmt(Stmt),
    Expr(Expr, bool),
}

impl Node for Item {
    type V = SItem;

    closed spec fn sem(&self) -> SItem {
        match *self {
            Item::Stmt(s) => SItem::Stmt(s.sem()),
            Item::Expr(e, semi) => SItem::Expr(e.sem(), semi),
        }
    }
}

/// An expression as a statement.
fn expr_stmt(e: Expr) -> (s: Stmt)
    ensures
        s.sem() == (SStmt { kind: SStmtKind::Expr(e.sem()), span: e.sem().span }),
{
    let span = e.span.start..e.span.end;
    let kind = StmtKind::Expr(e);
    assert(kind.sem() == SStmtKind::Expr(e.sem()));
    let s = Stmt { kind, span };
    assert(s.sem() == SStmt { kind: kind.sem(), span });
    assert(e.sem().span == e.span);
    s
}

impl<'a> Parser<'a> {
    /// The position after an optional semicolon.
    pub(super) fn past_semi(&self, i: usize) -> (r: usize)
        requires
            i <= self.toks.len(),
        ensures
            r == grammar::past_semi(self.toks@, i as int),
            i <= r <= self.toks.len(),
    {
        if self.at(i, &Token::Semi) {
            i + 1
        } else {
            i
        }
    }

    /// The entry of a block at `i`.
    pub(super) fn item(&mut self, i: usize) -> (r: R<Item>)
        requires
            i <= old(self).toks.len(),
        ensures
            did(*old(self), *final(self), r, grammar::item(old(self).toks@, i as int), i + 1),
        decreases old(self).toks.len() - i, 28int,
    {
        if i >= self.toks.len() {
            return Err(lack(i, "an expression"));
        }
        match &self.toks[i].token {
            Token::Let => self.let_stmt(i),
            Token::If | Token::Match | Token::Loop | Token::While | Token::For => {
                match self.block_like(i) {
                    Err(f) => Err(f),
                    Ok((kind, j)) => {
                        let e = Expr { kind, span: self.span(i, j), id: ExprId(UNSET) };
                        assert(e.sem() == SExpr { kind: kind.sem(), span: e.span, id: ExprId(UNSET) });
                        let semi = self.at(j, &Token::Semi);
                        Ok((Item::Expr(e, semi), self.past_semi(j)))
                    },
                }
            },
            _ => self.expr_item(i),
        }
    }

    /// An expression, or an assignment to one.
    pub(super) fn expr_item(&mut self, i: usize) -> (r: R<Item>)
        requires
            i < old(self).toks.len(),
            !(old(self).toks@[i as int].token is Let),
            !(old(self).toks@[i as int].token is If),
            !(old(self).toks@[i as int].token is Match),
            !(old(self).toks@[i as int].token is Loop),
            !(old(self).toks@[i as int].token is While),
            !(old(self).toks@[i as int].token is For),
        ensures
            did(*old(self), *final(self), r, grammar::item(old(self).toks@, i as int), i + 1),
        decreases old(self).toks.len() - i, 27int,
    {
        let (x, j) = match self.expr(i, true) {
            Err(f) => {
                return Err(f);
            },
            Ok(x) => x,
        };
        if !self.at(j, &Token::Eq) {
            let semi = self.at(j, &Token::Semi);
            return Ok((Item::Expr(x, semi), self.past_semi(j)));
        }
        match self.expr(j + 1, true) {
            Err(f) => Err(f),
            Ok((v, k)) => {
                let l: usize = self.past_semi(k);
                let span = self.span(i, l);
                let kind = self.assignment(x, v);
                let s = Stmt { kind, span };
                assert(s.sem() == SStmt { kind: kind.sem(), span });
                Ok((Item::Stmt(s), l))
            },
        }
    }

    /// What `target = value` is.
    pub(super) fn assignment(&mut self, target: Expr, value: Expr) -> (r: StmtKind)
        ensures
            final(self).toks == old(self).toks,
            r.sem() == grammar::assignment(target.sem(), value.sem()).0,
            errs(final(self).notes@) == errs(old(self).notes@) + grammar::assignment(
                target.sem(),
                value.sem(),
            ).1,
    {
        assert(target.sem().kind == target.kind.sem());
        let complaint = match target.kind {
            ExprKind::Path(mut segments) => {
                assert(names_of(segments@).len() == segments.len());
                if segments.len() == 1 {
                    assert(names_of(segments@)[0] == segments[0]@);
                    let name = segments.pop().unwrap();
                    return StmtKind::Assign { name, value };
                }
                ParseErrorKind::InvalidAssignTarget
            },
            ExprKind::Field { .. } => ParseErrorKind::FieldAssignment,
            ExprKind::Index { .. } => ParseErrorKind::IndexAssignment,
            _ => ParseErrorKind::InvalidAssignTarget,
        };
        self.note(target.span, complaint);
        StmtKind::Error
    }

    /// `let p: T = e;` at `i`.
    pub(super) fn let_stmt(&mut self, i: usize) -> (r: R<Item>)
        requires
            i <= old(self).toks.len(),
            i < old(self).toks.len(),
        ensures
            did(*old(self), *final(self), r, grammar::let_stmt(old(self).toks@, i as int), i + 1),
        decreases old(self).toks.len() - i, 1int,
    {
        let (pat, j) = match self.pattern(i + 1) {
            Err(f) => {
                return Err(f);
            },
            Ok(x) => x,
        };
        let (ty, k) = match self.ascription(j) {
            Err(f) => {
                return Err(f);
            },
            Ok(x) => x,
        };
        if !self.at(k, &Token::Eq) {
            return Err(want(k, Token::Eq));
        }
        match self.expr(k + 1, true) {
            Err(f) => Err(f),
            Ok((value, l)) => {
                let end: usize = self.past_semi(l);
                let span = self.span(i, end);
                let kind = StmtKind::Let { pat, ty, value };
                assert(kind.sem() == SStmtKind::Let {
                    pat: pat.sem(),
                    ty: ty.sem(),
                    value: value.sem(),
                });
                let s = Stmt { kind, span };
                assert(s.sem() == SStmt { kind: kind.sem(), span });
                Ok((Item::Stmt(s), end))
            },
        }
    }

    /// A block: its entries, and the last of them as its value if it is an expression
    /// without a semicolon.
    pub(super) fn block(&mut self, i: usize) -> (r: R<Block>)
        requires
            i <= old(self).toks.len(),
        ensures
            did(*old(self), *final(self), r, grammar::block(old(self).toks@, i as int), i + 1),
        decreases old(self).toks.len() - i, 1int,
    {
        if !self.at(i, &Token::LBrace) {
            return Err(want(i, Token::LBrace));
        }
        let ghost ts = self.toks@;
        let ghost p0 = *self;
        let ghost whole = grammar::block(ts, i as int);
        let mut stmts: Vec<Stmt> = Vec::new();
        let mut pending: Option<Expr> = None;
        let mut semis: Vec<ParseError> = Vec::new();
        let ghost mut notes: Seq<SParseError> = seq![];
        let mut j: usize = i + 1;
        assert(sems(stmts@) =~= seq![]);
        assert(errs(semis@) =~= seq![]);
        while !self.at(j, &Token::RBrace)
            invariant
                i < j <= self.toks.len(),
                p0 == *old(self),
                self.toks == p0.toks,
                ts == self.toks@,
                whole == grammar::block(ts, i as int),
                errs(self.notes@) == errs(p0.notes@) + notes,
                whole == grammar::block_from(
                    ts,
                    j as int,
                    i as int,
                    sems(stmts@),
                    pending.sem(),
                    notes,
                    errs(semis@),
                ),
            decreases self.toks.len() - j,
        {
            if j >= self.toks.len() {
                return Err(want(j, Token::RBrace));
            }
            let ghost g = grammar::item(ts, j as int);
            match self.item(j) {
                Err(f) => {
                    return Err(f);
                },
                Ok((x, k)) => {
                    proof {
                        notes = notes + g->Ok_0.notes;
                    }
                    let ghost stmts0 = stmts@;
                    let ghost semis0 = semis@;
                    let ghost pending0 = pending.sem();
                    // What was pending is not the last entry after all.
                    if let Some(e) = pending {
                        if !is_block_like(&e) {
                            let mut expected: Vec<Expected> = Vec::new();
                            expected.push(Expected::Token(Token::Semi));
                            assert(expected@ =~= seq![Expected::Token(Token::Semi)]);
                            assert(e.sem().span == e.span);
                            semis.push(
                                ParseError::new(
                                    e.span.end..e.span.end,
                                    ParseErrorKind::Expected { expected, found: None },
                                ),
                            );
                        }
                        stmts.push(expr_stmt(e));
                    }
                    assert(errs(semis@) =~= errs(semis0) + grammar::unfinished(pending0));
                    assert(sems(stmts@) =~= grammar::settled(sems(stmts0), pending0));
                    let ghost stmts1 = stmts@;
                    match x {
                        Item::Expr(e, false) => {
                            pending = Some(e);
                        },
                        Item::Expr(e, true) => {
                            pending = None;
                            let s = expr_stmt(e);
                            stmts.push(s);
                            assert(sems(stmts@) =~= sems(stmts1).push(s.sem()));
                        },
                        Item::Stmt(s) => {
                            pending = None;
                            stmts.push(s);
                            assert(sems(stmts@) =~= sems(stmts1).push(s.sem()));
                        },
                    }
                    j = k;
                },
            }
        }
        let ghost semis0 = semis@;
        let ghost notes0 = self.notes@;
        self.notes.append(&mut semis);
        assert(errs(self.notes@) =~= errs(notes0) + errs(semis0));
        let span = self.span(i, j + 1);
        let tail: Option<Box<Expr>> = match pending {
            Some(x) => Some(Box::new(x)),
            None => None,
        };
        assert(stmts_of(stmts@) == sems(stmts@));
        Ok((Block { stmts, tail, span }, j + 1))
    }
}

} // verus!
