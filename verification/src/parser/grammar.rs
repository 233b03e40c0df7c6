//! The grammar: which tree a run of tokens reads as.
//!
//! Every rule is a function of the tokens `ts` and a position `i`. It gives the tree that
//! starts there, the position after it, and complaints that do not stop the reading; or the
//! place where the tokens stop making sense, and what was wanted there.
//!
//! A rule looks at the next token or two and commits. Only two places read ahead: `(` may
//! start a lambda, and `[` may hold type arguments of a call.

use super::error::{Expected, SParseError, SParseErrorKind};
use crate::ast::{AssertKind, BinOp, CastForm, ExprId, TestKind, TryForm, UnOp, UNSET};
use crate::lexer::{Span, Spanned, Token};
use crate::number::numbered_module;
use crate::ops::{op_of, prec_of};
use crate::syntax::{
    SAliasDecl, SAnnArg, SAnnotation, SBlock, SCatchArm, SConstDecl, SDecl, SDeclKind, SElem, SExpr,
    SExprKind, SField, SFieldInit, SFieldPat, SFnDecl, SImplDecl, SLambdaParam, SMatchArm, SModDecl,
    SModule, SParam, SPattern, SPatternKind, SProtocolDecl, SRecordDecl, SStmt, SStmtKind, SStrPart,
    STestBlock, STypeSpec, STypeSpecKind, SUseDecl, SUseTree, SWhereClause,
};
use vstd::prelude::*;

verus! {

/// Where the tokens stop making sense, and what was wanted there.
pub struct Miss {
    pub at: int,
    pub want: Seq<Expected>,
}

/// A tree, the position after it, and complaints about it.
pub struct Got<T> {
    pub node: T,
    pub next: int,
    pub notes: Seq<SParseError>,
}

pub type Res<T> = Result<Got<T>, Miss>;

/// Whether token `i` exists and is `t`.
pub open spec fn tok(ts: Seq<Spanned>, i: int, t: Token) -> bool {
    0 <= i < ts.len() && ts[i].token == t
}

/// The bytes from token `i` to the token before `j`.
pub open spec fn span(ts: Seq<Spanned>, i: int, j: int) -> Span {
    Span { start: ts[i].span.start, end: ts[j - 1].span.end }
}

pub open spec fn want<T>(i: int, t: Token) -> Res<T> {
    Err(Miss { at: i, want: seq![Expected::Token(t)] })
}

pub open spec fn want2<T>(i: int, t: Token, u: Token) -> Res<T> {
    Err(Miss { at: i, want: seq![Expected::Token(t), Expected::Token(u)] })
}

pub open spec fn lack<T>(i: int, label: &'static str) -> Res<T> {
    Err(Miss { at: i, want: seq![Expected::Label(label)] })
}

pub open spec fn got<T>(node: T, next: int) -> Res<T> {
    Ok(Got { node, next, notes: seq![] })
}

/// The same result; one that does not move on within the `n` tokens, which no rule gives,
/// is a miss.
pub open spec fn sure<T>(r: Res<T>, i: int, n: nat) -> Res<T> {
    match r {
        Ok(g) => if i < g.next <= n {
            r
        } else {
            Err(Miss { at: i, want: seq![] })
        },
        Err(m) => Err(m),
    }
}

pub open spec fn note(span: Span, kind: SParseErrorKind) -> SParseError {
    SParseError { span, kind }
}

// ---- leaves ----

/// The name of the identifier at `i`, if there is one.
pub open spec fn name_at(ts: Seq<Spanned>, i: int) -> Option<Seq<char>> {
    if 0 <= i < ts.len() {
        match ts[i].token {
            Token::Ident(s) => Some(s@),
            _ => None,
        }
    } else {
        None
    }
}

/// The rest of a path: `::` and a name, as often as they come.
pub open spec fn path_from(ts: Seq<Spanned>, i: int, acc: Seq<Seq<char>>) -> Res<Seq<Seq<char>>>
    decreases ts.len() - i,
{
    if tok(ts, i, Token::ColonColon) && name_at(ts, i + 1) is Some {
        path_from(ts, i + 2, acc.push(name_at(ts, i + 1)->0))
    } else {
        got(acc, i)
    }
}

pub open spec fn path(ts: Seq<Spanned>, i: int) -> Res<Seq<Seq<char>>> {
    match name_at(ts, i) {
        Some(s) => path_from(ts, i + 1, seq![s]),
        None => lack(i, "an identifier"),
    }
}

/// A string without interpolations.
pub open spec fn plain_str(ts: Seq<Spanned>, i: int) -> Res<Seq<char>> {
    if !tok(ts, i, Token::StrStart) {
        lack(i, "a string")
    } else if i + 1 < ts.len() && ts[i + 1].token is StrText {
        if tok(ts, i + 2, Token::StrEnd) {
            got(ts[i + 1].token->StrText_0@, i + 3)
        } else {
            want(i + 2, Token::StrEnd)
        }
    } else if tok(ts, i + 1, Token::StrEnd) {
        got(seq![], i + 2)
    } else {
        want(i + 1, Token::StrEnd)
    }
}

/// The position after the `}` that closes the braces `depth` deep at `i`.
pub open spec fn braces_end(ts: Seq<Spanned>, i: int, depth: nat) -> Option<int>
    decreases ts.len() - i,
{
    if depth == 0 {
        Some(i)
    } else if i >= ts.len() {
        None
    } else if tok(ts, i, Token::LBrace) {
        braces_end(ts, i + 1, depth + 1)
    } else if tok(ts, i, Token::RBrace) {
        braces_end(ts, i + 1, (depth - 1) as nat)
    } else {
        braces_end(ts, i + 1, depth)
    }
}

// ---- types ----

/// How a type is read. After `throws` an arrow at the top is not taken, for it belongs to
/// the function that throws. After `is` and `as` a `[` that does not hold types is left
/// alone, for it may index the result.
#[derive(Clone, Copy, PartialEq, Eq, Structural)]
pub enum TypeMode {
    Full,
    Thrown,
    Soft,
}

/// A type: a union of intersections of negations.
pub open spec fn ty(ts: Seq<Spanned>, i: int, m: TypeMode) -> Res<STypeSpec>
    decreases ts.len() - i, 5int,
{
    match sure(inter(ts, i, m), i, ts.len()) {
        Err(e) => Err(e),
        Ok(x) => union_from(ts, x.next, i, m, seq![x.node], x.notes),
    }
}

pub open spec fn union_from(
    ts: Seq<Spanned>,
    j: int,
    i: int,
    m: TypeMode,
    acc: Seq<STypeSpec>,
    notes: Seq<SParseError>,
) -> Res<STypeSpec>
    decreases ts.len() - j, 0int,
{
    if tok(ts, j, Token::Bar) {
        match sure(inter(ts, j + 1, m), j + 1, ts.len()) {
            Err(e) => Err(e),
            Ok(x) => union_from(ts, x.next, i, m, acc.push(x.node), notes + x.notes),
        }
    } else {
        Ok(
            Got {
                node: if acc.len() == 1 {
                    acc[0]
                } else {
                    STypeSpec { kind: STypeSpecKind::Union(acc), span: span(ts, i, j) }
                },
                next: j,
                notes,
            },
        )
    }
}

pub open spec fn inter(ts: Seq<Spanned>, i: int, m: TypeMode) -> Res<STypeSpec>
    decreases ts.len() - i, 4int,
{
    match sure(negated(ts, i, m), i, ts.len()) {
        Err(e) => Err(e),
        Ok(x) => inter_from(ts, x.next, i, m, seq![x.node], x.notes),
    }
}

pub open spec fn inter_from(
    ts: Seq<Spanned>,
    j: int,
    i: int,
    m: TypeMode,
    acc: Seq<STypeSpec>,
    notes: Seq<SParseError>,
) -> Res<STypeSpec>
    decreases ts.len() - j, 0int,
{
    if tok(ts, j, Token::Ampersand) {
        match sure(negated(ts, j + 1, m), j + 1, ts.len()) {
            Err(e) => Err(e),
            Ok(x) => inter_from(ts, x.next, i, m, acc.push(x.node), notes + x.notes),
        }
    } else {
        Ok(
            Got {
                node: if acc.len() == 1 {
                    acc[0]
                } else {
                    STypeSpec { kind: STypeSpecKind::Intersect(acc), span: span(ts, i, j) }
                },
                next: j,
                notes,
            },
        )
    }
}

pub open spec fn negated(ts: Seq<Spanned>, i: int, m: TypeMode) -> Res<STypeSpec>
    decreases ts.len() - i, 3int,
{
    if tok(ts, i, Token::Bang) {
        match sure(negated(ts, i + 1, m), i + 1, ts.len()) {
            Err(e) => Err(e),
            Ok(x) => Ok(
                Got {
                    node: STypeSpec {
                        kind: STypeSpecKind::Negate(Box::new(x.node)),
                        span: span(ts, i, x.next),
                    },
                    next: x.next,
                    notes: x.notes,
                },
            ),
        }
    } else {
        match sure(atomic(ts, i, m), i, ts.len()) {
            Err(e) => Err(e),
            Ok(x) => Ok(
                Got {
                    node: STypeSpec { kind: x.node, span: span(ts, i, x.next) },
                    next: x.next,
                    notes: x.notes,
                },
            ),
        }
    }
}

pub open spec fn atomic(ts: Seq<Spanned>, i: int, m: TypeMode) -> Res<STypeSpecKind>
    decreases ts.len() - i, 2int,
{
    if !(0 <= i < ts.len()) {
        lack(i, "a type")
    } else {
        match ts[i].token {
            Token::Null => got(STypeSpecKind::Null, i + 1),
            Token::Atom(a) => got(STypeSpecKind::Atom(a@), i + 1),
            Token::LBrace => match sure(
                fields_from(ts, i + 1, Token::RBrace, seq![], seq![]),
                i + 1,
                ts.len(),
            ) {
                Err(e) => Err(e),
                Ok(x) => Ok(
                    Got { node: STypeSpecKind::Struct(x.node), next: x.next, notes: x.notes },
                ),
            },
            Token::LParen => match sure(
                types_from(ts, i + 1, Token::RParen, seq![], seq![]),
                i + 1,
                ts.len(),
            ) {
                Err(e) => Err(e),
                Ok(x) => parenthesised(ts, i, x, m),
            },
            Token::Ident(s) => if s@ == "any"@ {
                got(STypeSpecKind::Any, i + 1)
            } else {
                named(ts, i, m)
            },
            _ => lack(i, "a type"),
        }
    }
}

/// A path, perhaps with arguments in brackets.
pub open spec fn named(ts: Seq<Spanned>, i: int, m: TypeMode) -> Res<STypeSpecKind>
    decreases ts.len() - i, 1int,
{
    match sure(path(ts, i), i, ts.len()) {
        Err(e) => Err(e),
        Ok(p) => {
            let bare = got(STypeSpecKind::Named { path: p.node, args: seq![] }, p.next);
            if tok(ts, p.next, Token::LBracket) {
                match sure(
                    types_from(ts, p.next + 1, Token::RBracket, seq![], seq![]),
                    p.next + 1,
                    ts.len(),
                ) {
                    Err(e) => if m == TypeMode::Soft {
                        bare
                    } else {
                        Err(e)
                    },
                    Ok(x) => Ok(
                        Got {
                            node: STypeSpecKind::Named { path: p.node, args: x.node },
                            next: x.next,
                            notes: x.notes,
                        },
                    ),
                }
            } else {
                bare
            }
        },
    }
}

/// What follows a parenthesised list that started at `i`: an arrow makes it a function
/// type, and `throws` binds to the arrow after it. Without one, a single type is just
/// itself, and there is no tuple of one.
pub open spec fn parenthesised(
    ts: Seq<Spanned>,
    i: int,
    items: Got<Seq<STypeSpec>>,
    m: TypeMode,
) -> Res<STypeSpecKind>
    decreases ts.len() - i, 1int,
{
    let j = items.next;
    if !(i < j <= ts.len()) {
        Err(Miss { at: i, want: seq![] })
    } else if m != TypeMode::Thrown && tok(ts, j, Token::Arrow) {
        match sure(ty(ts, j + 1, m), j + 1, ts.len()) {
            Err(e) => Err(e),
            Ok(r) => Ok(
                Got {
                    node: STypeSpecKind::Fn {
                        params: items.node,
                        throws: None,
                        ret: Box::new(r.node),
                    },
                    next: r.next,
                    notes: items.notes + r.notes,
                },
            ),
        }
    } else if m != TypeMode::Thrown && tok(ts, j, Token::Throws) {
        match sure(ty(ts, j + 1, TypeMode::Thrown), j + 1, ts.len()) {
            Err(e) => Err(e),
            Ok(t) => if !tok(ts, t.next, Token::Arrow) {
                want(t.next, Token::Arrow)
            } else {
                match sure(ty(ts, t.next + 1, m), t.next + 1, ts.len()) {
                    Err(e) => Err(e),
                    Ok(r) => Ok(
                        Got {
                            node: STypeSpecKind::Fn {
                                params: items.node,
                                throws: Some(Box::new(t.node)),
                                ret: Box::new(r.node),
                            },
                            next: r.next,
                            notes: items.notes + t.notes + r.notes,
                        },
                    ),
                }
            },
        }
    } else if items.node.len() == 1 {
        Ok(
            Got {
                node: items.node[0].kind,
                next: j,
                notes: items.notes + lone_comma(ts, i, j),
            },
        )
    } else {
        Ok(Got { node: STypeSpecKind::Tuple(items.node), next: j, notes: items.notes })
    }
}

/// The complaint about `(x,)`, from the `(` at `i` to the position `j` after the `)`.
pub open spec fn lone_comma(ts: Seq<Spanned>, i: int, j: int) -> Seq<SParseError> {
    if tok(ts, j - 2, Token::Comma) {
        seq![note(span(ts, i, j), SParseErrorKind::OneElementTuple)]
    } else {
        seq![]
    }
}

/// `name: T`
pub open spec fn field(ts: Seq<Spanned>, i: int) -> Res<SField>
    decreases ts.len() - i, 6int,
{
    match name_at(ts, i) {
        None => lack(i, "an identifier"),
        Some(name) => if !tok(ts, i + 1, Token::Colon) {
            want(i + 1, Token::Colon)
        } else {
            match sure(ty(ts, i + 2, TypeMode::Full), i + 2, ts.len()) {
                Err(e) => Err(e),
                Ok(t) => Ok(
                    Got {
                        node: SField { name, ty: t.node, span: span(ts, i, t.next) },
                        next: t.next,
                        notes: t.notes,
                    },
                ),
            }
        },
    }
}

/// Types, with commas between them and perhaps one after the last, up to `close`.
pub open spec fn types_from(
    ts: Seq<Spanned>,
    i: int,
    close: Token,
    acc: Seq<STypeSpec>,
    notes: Seq<SParseError>,
) -> Res<Seq<STypeSpec>>
    decreases ts.len() - i, 7int,
{
    if tok(ts, i, close) {
        Ok(Got { node: acc, next: i + 1, notes })
    } else {
        match sure(ty(ts, i, TypeMode::Full), i, ts.len()) {
            Err(m) => Err(m),
            Ok(x) => if tok(ts, x.next, Token::Comma) {
                types_from(ts, x.next + 1, close, acc.push(x.node), notes + x.notes)
            } else if tok(ts, x.next, close) {
                Ok(Got { node: acc.push(x.node), next: x.next + 1, notes: notes + x.notes })
            } else {
                want2(x.next, Token::Comma, close)
            },
        }
    }
}

/// Fields, with commas between them and perhaps one after the last, up to `close`.
pub open spec fn fields_from(
    ts: Seq<Spanned>,
    i: int,
    close: Token,
    acc: Seq<SField>,
    notes: Seq<SParseError>,
) -> Res<Seq<SField>>
    decreases ts.len() - i, 7int,
{
    if tok(ts, i, close) {
        Ok(Got { node: acc, next: i + 1, notes })
    } else {
        match sure(field(ts, i), i, ts.len()) {
            Err(m) => Err(m),
            Ok(x) => if tok(ts, x.next, Token::Comma) {
                fields_from(ts, x.next + 1, close, acc.push(x.node), notes + x.notes)
            } else if tok(ts, x.next, close) {
                Ok(Got { node: acc.push(x.node), next: x.next + 1, notes: notes + x.notes })
            } else {
                want2(x.next, Token::Comma, close)
            },
        }
    }
}

/// The type after a colon, if there is a colon at `i`.
pub open spec fn ascription(ts: Seq<Spanned>, i: int) -> Res<Option<STypeSpec>> {
    if tok(ts, i, Token::Colon) {
        match sure(ty(ts, i + 1, TypeMode::Full), i + 1, ts.len()) {
            Err(e) => Err(e),
            Ok(t) => Ok(Got { node: Some(t.node), next: t.next, notes: t.notes }),
        }
    } else {
        got(None, i)
    }
}

/// `name` or `name: T`
pub open spec fn lambda_param(ts: Seq<Spanned>, i: int) -> Res<SLambdaParam> {
    match name_at(ts, i) {
        None => lack(i, "an identifier"),
        Some(name) => match ascription(ts, i + 1) {
            Err(e) => Err(e),
            Ok(t) => Ok(
                Got { node: SLambdaParam { name, ty: t.node }, next: t.next, notes: t.notes },
            ),
        },
    }
}

/// Parameters of a lambda, with commas between them and perhaps one after the last, up to `close`.
pub open spec fn lambda_params_from(
    ts: Seq<Spanned>,
    i: int,
    close: Token,
    acc: Seq<SLambdaParam>,
    notes: Seq<SParseError>,
) -> Res<Seq<SLambdaParam>>
    decreases ts.len() - i, 0int,
{
    if tok(ts, i, close) {
        Ok(Got { node: acc, next: i + 1, notes })
    } else {
        match sure(lambda_param(ts, i), i, ts.len()) {
            Err(m) => Err(m),
            Ok(x) => if tok(ts, x.next, Token::Comma) {
                lambda_params_from(ts, x.next + 1, close, acc.push(x.node), notes + x.notes)
            } else if tok(ts, x.next, close) {
                Ok(Got { node: acc.push(x.node), next: x.next + 1, notes: notes + x.notes })
            } else {
                want2(x.next, Token::Comma, close)
            },
        }
    }
}

/// The type arguments of a call from `i`: one or more, then `]`.
pub open spec fn type_args_from(
    ts: Seq<Spanned>,
    i: int,
    acc: Seq<STypeSpec>,
    notes: Seq<SParseError>,
) -> Res<Seq<STypeSpec>>
    decreases ts.len() - i,
{
    match sure(ty(ts, i, TypeMode::Full), i, ts.len()) {
        Err(e) => Err(e),
        Ok(x) => if tok(ts, x.next, Token::Comma) {
            type_args_from(ts, x.next + 1, acc.push(x.node), notes + x.notes)
        } else if tok(ts, x.next, Token::RBracket) {
            Ok(Got { node: acc.push(x.node), next: x.next + 1, notes: notes + x.notes })
        } else {
            want2(x.next, Token::Comma, Token::RBracket)
        },
    }
}

// ---- patterns ----

pub open spec fn pattern(ts: Seq<Spanned>, i: int) -> Res<SPattern>
    decreases ts.len() - i, 9int,
{
    match sure(pattern_kind(ts, i), i, ts.len()) {
        Err(e) => Err(e),
        Ok(x) => Ok(
            Got {
                node: SPattern { kind: x.node, span: span(ts, i, x.next), id: ExprId(UNSET) },
                next: x.next,
                notes: x.notes,
            },
        ),
    }
}

pub open spec fn pattern_kind(ts: Seq<Spanned>, i: int) -> Res<SPatternKind>
    decreases ts.len() - i, 8int,
{
    if !(0 <= i < ts.len()) {
        lack(i, "a pattern")
    } else {
        match ts[i].token {
            Token::Ident(s) => if s@ == "_"@ {
                got(SPatternKind::Wildcard, i + 1)
            } else {
                match sure(path(ts, i), i, ts.len()) {
                    Err(e) => Err(e),
                    Ok(p) => if tok(ts, p.next, Token::LBrace) {
                        record_pattern_from(ts, p.next + 1, Some(p.node), seq![], seq![])
                    } else {
                        got(SPatternKind::Bind(s@), i + 1)
                    },
                }
            },
            Token::Is => match sure(ty(ts, i + 1, TypeMode::Full), i + 1, ts.len()) {
                Err(e) => Err(e),
                Ok(t) => Ok(
                    Got { node: SPatternKind::Is(t.node), next: t.next, notes: t.notes },
                ),
            },
            Token::LBrace => record_pattern_from(ts, i + 1, None, seq![], seq![]),
            Token::LParen => match sure(
                patterns_from(ts, i + 1, Token::RParen, seq![], seq![]),
                i + 1,
                ts.len(),
            ) {
                Err(e) => Err(e),
                Ok(x) => if x.node.len() == 1 {
                    Ok(
                        Got {
                            node: x.node[0].kind,
                            next: x.next,
                            notes: x.notes + lone_comma(ts, i, x.next),
                        },
                    )
                } else {
                    Ok(Got { node: SPatternKind::Tuple(x.node), next: x.next, notes: x.notes })
                },
            },
            Token::Minus => if i + 1 < ts.len() && negatable(ts[i + 1].token) is Some {
                got(
                    SPatternKind::Literal(
                        Box::new(
                            SExpr {
                                kind: SExprKind::Unary {
                                    op: UnOp::Neg,
                                    rhs: Box::new(
                                        SExpr {
                                            kind: negatable(ts[i + 1].token)->0,
                                            span: span(ts, i, i + 2),
                                            id: ExprId(UNSET),
                                        },
                                    ),
                                },
                                span: span(ts, i, i + 2),
                                id: ExprId(UNSET),
                            },
                        ),
                    ),
                    i + 2,
                )
            } else {
                lack(i + 1, "a number")
            },
            Token::StrStart => match sure(string_from(ts, i + 1, seq![], seq![]), i + 1, ts.len()) {
                Err(e) => Err(e),
                Ok(x) => Ok(
                    Got {
                        node: SPatternKind::Literal(
                            Box::new(
                                SExpr {
                                    kind: SExprKind::Str(x.node),
                                    span: span(ts, i, x.next),
                                    id: ExprId(UNSET),
                                },
                            ),
                        ),
                        next: x.next,
                        notes: x.notes,
                    },
                ),
            },
            t => match literal(t) {
                Some(k) => got(
                    SPatternKind::Literal(Box::new(SExpr { kind: k, span: span(ts, i, i + 1), id: ExprId(UNSET) })),
                    i + 1,
                ),
                None => lack(i, "a pattern"),
            },
        }
    }
}

/// The numbers that a minus may precede in a pattern.
pub open spec fn negatable(t: Token) -> Option<SExprKind> {
    match t {
        Token::Int(n) => Some(SExprKind::Int(n)),
        Token::Float(f) => Some(SExprKind::Float(f@)),
        _ => None,
    }
}

/// The literals that are one token.
pub open spec fn literal(t: Token) -> Option<SExprKind> {
    match t {
        Token::Int(n) => Some(SExprKind::Int(n)),
        Token::Float(f) => Some(SExprKind::Float(f@)),
        Token::Rune(c) => Some(SExprKind::Rune(c)),
        Token::Atom(a) => Some(SExprKind::Atom(a@)),
        Token::True => Some(SExprKind::Bool(true)),
        Token::False => Some(SExprKind::Bool(false)),
        Token::Null => Some(SExprKind::Null),
        _ => None,
    }
}

/// `x` or `x: p`
pub open spec fn field_pattern(ts: Seq<Spanned>, i: int) -> Res<SFieldPat>
    decreases ts.len() - i, 1int,
{
    match name_at(ts, i) {
        None => lack(i, "an identifier"),
        Some(name) => if tok(ts, i + 1, Token::Colon) {
            match sure(pattern(ts, i + 2), i + 2, ts.len()) {
                Err(e) => Err(e),
                Ok(p) => Ok(
                    Got {
                        node: SFieldPat { name, pat: Some(p.node), span: span(ts, i, p.next) },
                        next: p.next,
                        notes: p.notes,
                    },
                ),
            }
        } else {
            got(SFieldPat { name, pat: None, span: span(ts, i, i + 1) }, i + 1)
        },
    }
}

/// The fields of a record pattern from `i` on, perhaps a `..`, and the `}`.
pub open spec fn record_pattern_from(
    ts: Seq<Spanned>,
    i: int,
    name: Option<Seq<Seq<char>>>,
    acc: Seq<SFieldPat>,
    notes: Seq<SParseError>,
) -> Res<SPatternKind>
    decreases ts.len() - i, 2int,
{
    if tok(ts, i, Token::RBrace) {
        Ok(
            Got {
                node: SPatternKind::Record { path: name, fields: acc, rest: false },
                next: i + 1,
                notes,
            },
        )
    } else if tok(ts, i, Token::DotDot) {
        if tok(ts, i + 1, Token::RBrace) {
            Ok(
                Got {
                    node: SPatternKind::Record { path: name, fields: acc, rest: true },
                    next: i + 2,
                    notes,
                },
            )
        } else {
            want(i + 1, Token::RBrace)
        }
    } else {
        match sure(field_pattern(ts, i), i, ts.len()) {
            Err(e) => Err(e),
            Ok(x) => if tok(ts, x.next, Token::Comma) {
                record_pattern_from(ts, x.next + 1, name, acc.push(x.node), notes + x.notes)
            } else if tok(ts, x.next, Token::RBrace) || tok(ts, x.next, Token::DotDot) {
                record_pattern_from(ts, x.next, name, acc.push(x.node), notes + x.notes)
            } else {
                want2(x.next, Token::Comma, Token::RBrace)
            },
        }
    }
}

// ---- expressions ----

/// An expression. Without `lit`, a name before a `{` is not a record literal: the `{`
/// starts the body of the `if`, `while`, `for` or `match` whose head this is.
pub open spec fn expr(ts: Seq<Spanned>, i: int, lit: bool) -> Res<SExpr>
    decreases ts.len() - i, 26int,
{
    level(ts, i, 1, lit)
}

/// An expression whose operators bind at level `p` or tighter.
pub open spec fn level(ts: Seq<Spanned>, i: int, p: int, lit: bool) -> Res<SExpr>
    decreases ts.len() - i, 26 - p,
{
    if !(1 <= p <= 11) {
        if p == 12 {
            unary(ts, i, lit)
        } else {
            Err(Miss { at: i, want: seq![] })
        }
    } else {
        match sure(level(ts, i, p + 1, lit), i, ts.len()) {
            Err(e) => Err(e),
            Ok(x) => level_from(ts, x.next, p, lit, x.node, x.notes),
        }
    }
}

/// The operator of level `p` at `j`, if there is one.
pub open spec fn operator(ts: Seq<Spanned>, j: int, p: int) -> Option<BinOp> {
    if 0 <= j < ts.len() {
        match op_of(ts[j].token) {
            Some(op) => if prec_of(op) == p {
                Some(op)
            } else {
                None
            },
            None => None,
        }
    } else {
        None
    }
}

/// Operators of level `p` group to the left.
pub open spec fn level_from(
    ts: Seq<Spanned>,
    j: int,
    p: int,
    lit: bool,
    acc: SExpr,
    notes: Seq<SParseError>,
) -> Res<SExpr>
    decreases ts.len() - j, 0int,
{
    match operator(ts, j, p) {
        Some(op) => match sure(level(ts, j + 1, p + 1, lit), j + 1, ts.len()) {
            Err(e) => Err(e),
            Ok(x) => level_from(
                ts,
                x.next,
                p,
                lit,
                SExpr {
                    kind: SExprKind::Binary { op, lhs: Box::new(acc), rhs: Box::new(x.node) },
                    span: Span { start: acc.span.start, end: x.node.span.end },
                    id: ExprId(UNSET),
                },
                notes + x.notes,
            ),
        },
        None => Ok(Got { node: acc, next: j, notes }),
    }
}

pub open spec fn prefix(t: Token) -> Option<UnOp> {
    match t {
        Token::Minus => Some(UnOp::Neg),
        Token::Bang => Some(UnOp::Not),
        Token::Bnot => Some(UnOp::Bnot),
        _ => None,
    }
}

/// Prefix operators bind looser than what follows an operand: `-x.f` is `-(x.f)`.
pub open spec fn unary(ts: Seq<Spanned>, i: int, lit: bool) -> Res<SExpr>
    decreases ts.len() - i, 13int,
{
    if 0 <= i < ts.len() && prefix(ts[i].token) is Some {
        match sure(unary(ts, i + 1, lit), i + 1, ts.len()) {
            Err(e) => Err(e),
            Ok(x) => Ok(
                Got {
                    node: SExpr {
                        kind: SExprKind::Unary {
                            op: prefix(ts[i].token)->0,
                            rhs: Box::new(x.node),
                        },
                        span: span(ts, i, x.next),
                        id: ExprId(UNSET),
                    },
                    next: x.next,
                    notes: x.notes,
                },
            ),
        }
    } else {
        match sure(atom(ts, i, lit), i, ts.len()) {
            Err(e) => Err(e),
            Ok(x) => match postfix_from(
                ts,
                x.next,
                i,
                SExpr { kind: x.node, span: span(ts, i, x.next), id: ExprId(UNSET) },
                seq![],
            ) {
                Err(e) => Err(e),
                Ok(y) => Ok(Got { node: y.node, next: y.next, notes: x.notes + y.notes }),
            },
        }
    }
}

/// Calls, indexing, field access, `is` and `as` after the operand that started at `i`.
pub open spec fn postfix_from(
    ts: Seq<Spanned>,
    j: int,
    i: int,
    acc: SExpr,
    notes: Seq<SParseError>,
) -> Res<SExpr>
    decreases ts.len() - j, 3int,
{
    if postfix_starts(ts, j) {
        match sure(postfix(ts, j, acc), j, ts.len()) {
            Err(e) => Err(e),
            Ok(x) => postfix_from(
                ts,
                x.next,
                i,
                SExpr { kind: x.node, span: span(ts, i, x.next), id: ExprId(UNSET) },
                notes + x.notes,
            ),
        }
    } else {
        Ok(Got { node: acc, next: j, notes })
    }
}

pub open spec fn postfix_starts(ts: Seq<Spanned>, j: int) -> bool {
    ||| tok(ts, j, Token::LParen)
    ||| tok(ts, j, Token::LBracket)
    ||| tok(ts, j, Token::Dot)
    ||| tok(ts, j, Token::Is)
    ||| tok(ts, j, Token::As)
}

/// One call, index, field access, `is` or `as` at `j`, applied to `base`.
pub open spec fn postfix(ts: Seq<Spanned>, j: int, base: SExpr) -> Res<SExprKind>
    decreases ts.len() - j, 2int,
{
    if tok(ts, j, Token::LParen) {
        call_args(ts, j, base, seq![], seq![])
    } else if tok(ts, j, Token::LBracket) {
        match type_args_from(ts, j + 1, seq![], seq![]) {
            Ok(g) => if j < g.next && tok(ts, g.next, Token::LParen) {
                call_args(ts, g.next, base, g.node, g.notes)
            } else {
                index(ts, j, base)
            },
            Err(_) => index(ts, j, base),
        }
    } else if tok(ts, j, Token::Dot) {
        match name_at(ts, j + 1) {
            None => lack(j + 1, "an identifier"),
            Some(name) => got(SExprKind::Field { base: Box::new(base), name }, j + 2),
        }
    } else {
        match sure(ty(ts, j + 1, TypeMode::Soft), j + 1, ts.len()) {
            Err(e) => Err(e),
            Ok(t) => Ok(
                Got {
                    node: if tok(ts, j, Token::Is) {
                        SExprKind::Is { lhs: Box::new(base), ty: t.node }
                    } else {
                        SExprKind::As { form: CastForm::Plain, lhs: Box::new(base), ty: t.node }
                    },
                    next: t.next,
                    notes: t.notes,
                },
            ),
        }
    }
}

/// The arguments of a call, whose `(` is at `j`.
pub open spec fn call_args(
    ts: Seq<Spanned>,
    j: int,
    base: SExpr,
    generics: Seq<STypeSpec>,
    notes: Seq<SParseError>,
) -> Res<SExprKind>
    decreases ts.len() - j, 1int,
{
    if !(0 <= j < ts.len()) {
        want(j, Token::LParen)
    } else {
        match sure(exprs_from(ts, j + 1, Token::RParen, seq![], seq![]), j + 1, ts.len()) {
            Err(e) => Err(e),
            Ok(x) => Ok(
                Got {
                    node: SExprKind::Call { callee: Box::new(base), generics, args: x.node },
                    next: x.next,
                    notes: notes + x.notes,
                },
            ),
        }
    }
}

/// `[e]`, whose `[` is at `j`.
pub open spec fn index(ts: Seq<Spanned>, j: int, base: SExpr) -> Res<SExprKind>
    decreases ts.len() - j, 1int,
{
    if !(0 <= j < ts.len()) {
        want(j, Token::LBracket)
    } else {
        match sure(expr(ts, j + 1, true), j + 1, ts.len()) {
            Err(e) => Err(e),
            Ok(x) => if tok(ts, x.next, Token::RBracket) {
                Ok(
                    Got {
                        node: SExprKind::Index { base: Box::new(base), index: Box::new(x.node) },
                        next: x.next + 1,
                        notes: x.notes,
                    },
                )
            } else {
                want(x.next, Token::RBracket)
            },
        }
    }
}

/// Whether an expression may start with a token.
pub open spec fn starts_expr(t: Token) -> bool {
    match t {
        Token::If | Token::Match | Token::Loop | Token::While | Token::For => true,
        Token::Break | Token::Continue | Token::Return | Token::Throw | Token::Try => true,
        Token::Assert | Token::AssertEq | Token::AssertNe | Token::AssertThrows => true,
        Token::LParen | Token::LBracket | Token::LBrace | Token::StrStart => true,
        Token::Minus | Token::Bang | Token::Bnot | Token::Ident(_) => true,
        t => literal(t) is Some,
    }
}

/// The expression at `i`, if one may start there.
pub open spec fn optional_expr(ts: Seq<Spanned>, i: int) -> Res<Option<Box<SExpr>>>
    decreases ts.len() - i, 27int,
{
    if 0 <= i < ts.len() && starts_expr(ts[i].token) {
        match sure(expr(ts, i, true), i, ts.len()) {
            Err(e) => Err(e),
            Ok(x) => Ok(Got { node: Some(Box::new(x.node)), next: x.next, notes: x.notes }),
        }
    } else {
        got(None, i)
    }
}

/// Whether what stands between the braces from `{` at `j` is a record literal rather than
/// a block: nothing, a spread, or a field.
pub open spec fn starts_record(ts: Seq<Spanned>, j: int) -> bool {
    &&& tok(ts, j, Token::LBrace)
    &&& {
        ||| tok(ts, j + 1, Token::RBrace)
        ||| tok(ts, j + 1, Token::DotDot)
        ||| name_at(ts, j + 1) is Some && tok(ts, j + 2, Token::Colon)
    }
}

pub open spec fn assert_kind(t: Token) -> Option<AssertKind> {
    match t {
        Token::Assert => Some(AssertKind::Assert),
        Token::AssertEq => Some(AssertKind::Eq),
        Token::AssertNe => Some(AssertKind::Ne),
        Token::AssertThrows => Some(AssertKind::Throws),
        _ => None,
    }
}

/// An expression without operators around it.
pub open spec fn atom(ts: Seq<Spanned>, i: int, lit: bool) -> Res<SExprKind>
    decreases ts.len() - i, 12int,
{
    if !(0 <= i < ts.len()) {
        lack(i, "an expression")
    } else {
        match ts[i].token {
            Token::If | Token::Match | Token::Loop | Token::While | Token::For => block_like(ts, i),
            Token::Break => match optional_expr(ts, i + 1) {
                Err(e) => Err(e),
                Ok(x) => Ok(
                    Got { node: SExprKind::Break(x.node), next: x.next, notes: x.notes },
                ),
            },
            Token::Continue => got(SExprKind::Continue, i + 1),
            Token::Return => match optional_expr(ts, i + 1) {
                Err(e) => Err(e),
                Ok(x) => Ok(
                    Got { node: SExprKind::Return(x.node), next: x.next, notes: x.notes },
                ),
            },
            Token::Throw => match sure(expr(ts, i + 1, true), i + 1, ts.len()) {
                Err(e) => Err(e),
                Ok(x) => Ok(
                    Got {
                        node: SExprKind::Throw(Box::new(x.node)),
                        next: x.next,
                        notes: x.notes,
                    },
                ),
            },
            Token::Try => try_expr(ts, i),
            Token::Assert | Token::AssertEq | Token::AssertNe | Token::AssertThrows => if !tok(
                ts,
                i + 1,
                Token::LParen,
            ) {
                want(i + 1, Token::LParen)
            } else {
                match sure(
                    exprs_from(ts, i + 2, Token::RParen, seq![], seq![]),
                    i + 2,
                    ts.len(),
                ) {
                    Err(e) => Err(e),
                    Ok(x) => Ok(
                        Got {
                            node: SExprKind::Assert {
                                kind: assert_kind(ts[i].token)->0,
                                args: x.node,
                            },
                            next: x.next,
                            notes: x.notes,
                        },
                    ),
                }
            },
            Token::LParen => match lambda_params_from(ts, i + 1, Token::RParen, seq![], seq![]) {
                Ok(ps) => if i < ps.next && tok(ts, ps.next, Token::FatArrow) {
                    match sure(expr(ts, ps.next + 1, true), ps.next + 1, ts.len()) {
                        Err(e) => Err(e),
                        Ok(x) => Ok(
                            Got {
                                node: SExprKind::Lambda {
                                    params: ps.node,
                                    body: Box::new(x.node),
                                },
                                next: x.next,
                                notes: ps.notes + x.notes,
                            },
                        ),
                    }
                } else {
                    paren(ts, i)
                },
                Err(_) => paren(ts, i),
            },
            Token::LBracket => match sure(
                elems_from(ts, i + 1, Token::RBracket, seq![], seq![]),
                i + 1,
                ts.len(),
            ) {
                Err(e) => Err(e),
                Ok(x) => Ok(
                    Got { node: SExprKind::List(x.node), next: x.next, notes: x.notes },
                ),
            },
            Token::LBrace => if lit && starts_record(ts, i) {
                record_from(ts, i + 1, None, seq![], seq![])
            } else {
                match sure(block(ts, i), i, ts.len()) {
                    Err(e) => Err(e),
                    Ok(x) => Ok(
                        Got { node: SExprKind::Block(x.node), next: x.next, notes: x.notes },
                    ),
                }
            },
            Token::StrStart => match sure(string_from(ts, i + 1, seq![], seq![]), i + 1, ts.len()) {
                Err(e) => Err(e),
                Ok(x) => Ok(Got { node: SExprKind::Str(x.node), next: x.next, notes: x.notes }),
            },
            Token::Ident(_) => match sure(path(ts, i), i, ts.len()) {
                Err(e) => Err(e),
                Ok(p) => if lit && starts_record(ts, p.next) {
                    record_from(ts, p.next + 1, Some(p.node), seq![], seq![])
                } else {
                    got(SExprKind::Path(p.node), p.next)
                },
            },
            t => match literal(t) {
                Some(k) => got(k, i + 1),
                None => lack(i, "an expression"),
            },
        }
    }
}

/// Expressions in parentheses from `(` at `i`: one is just itself, and there is no tuple of
/// one.
pub open spec fn paren(ts: Seq<Spanned>, i: int) -> Res<SExprKind>
    decreases ts.len() - i, 1int,
{
    if !(0 <= i < ts.len()) {
        want(i, Token::LParen)
    } else {
        match sure(exprs_from(ts, i + 1, Token::RParen, seq![], seq![]), i + 1, ts.len()) {
            Err(e) => Err(e),
            Ok(x) => if x.node.len() == 1 {
                Ok(
                    Got {
                        node: x.node[0].kind,
                        next: x.next,
                        notes: x.notes + lone_comma(ts, i, x.next),
                    },
                )
            } else {
                Ok(Got { node: SExprKind::Tuple(x.node), next: x.next, notes: x.notes })
            },
        }
    }
}

/// `e` or `..e` in a list.
pub open spec fn elem(ts: Seq<Spanned>, i: int) -> Res<SElem>
    decreases ts.len() - i, 27int,
{
    if tok(ts, i, Token::DotDot) {
        match sure(expr(ts, i + 1, true), i + 1, ts.len()) {
            Err(e) => Err(e),
            Ok(x) => Ok(Got { node: SElem::Spread(x.node), next: x.next, notes: x.notes }),
        }
    } else {
        match sure(expr(ts, i, true), i, ts.len()) {
            Err(e) => Err(e),
            Ok(x) => Ok(Got { node: SElem::Value(x.node), next: x.next, notes: x.notes }),
        }
    }
}

/// `x: e` in a record literal.
pub open spec fn field_init(ts: Seq<Spanned>, i: int) -> Res<SFieldInit>
    decreases ts.len() - i, 1int,
{
    match name_at(ts, i) {
        None => lack(i, "an identifier"),
        Some(name) => if !tok(ts, i + 1, Token::Colon) {
            want(i + 1, Token::Colon)
        } else {
            match sure(expr(ts, i + 2, true), i + 2, ts.len()) {
                Err(e) => Err(e),
                Ok(x) => Ok(
                    Got {
                        node: SFieldInit { name, value: x.node, span: span(ts, i, x.next) },
                        next: x.next,
                        notes: x.notes,
                    },
                ),
            }
        },
    }
}

/// The fields of a record literal from `i` on, perhaps a spread, and the `}`.
pub open spec fn record_from(
    ts: Seq<Spanned>,
    i: int,
    name: Option<Seq<Seq<char>>>,
    acc: Seq<SFieldInit>,
    notes: Seq<SParseError>,
) -> Res<SExprKind>
    decreases ts.len() - i, 2int,
{
    if tok(ts, i, Token::RBrace) {
        Ok(
            Got {
                node: SExprKind::RecordLit { path: name, fields: acc, spread: None },
                next: i + 1,
                notes,
            },
        )
    } else if tok(ts, i, Token::DotDot) {
        match sure(expr(ts, i + 1, true), i + 1, ts.len()) {
            Err(e) => Err(e),
            Ok(x) => if tok(ts, x.next, Token::RBrace) {
                Ok(
                    Got {
                        node: SExprKind::RecordLit {
                            path: name,
                            fields: acc,
                            spread: Some(Box::new(x.node)),
                        },
                        next: x.next + 1,
                        notes: notes + x.notes,
                    },
                )
            } else {
                want(x.next, Token::RBrace)
            },
        }
    } else {
        match sure(field_init(ts, i), i, ts.len()) {
            Err(e) => Err(e),
            Ok(x) => if tok(ts, x.next, Token::Comma) {
                record_from(ts, x.next + 1, name, acc.push(x.node), notes + x.notes)
            } else if tok(ts, x.next, Token::RBrace) || tok(ts, x.next, Token::DotDot) {
                record_from(ts, x.next, name, acc.push(x.node), notes + x.notes)
            } else {
                want2(x.next, Token::Comma, Token::RBrace)
            },
        }
    }
}

/// The parts of a string literal from `i` on, up to its closing quote.
pub open spec fn string_from(
    ts: Seq<Spanned>,
    i: int,
    acc: Seq<SStrPart>,
    notes: Seq<SParseError>,
) -> Res<Seq<SStrPart>>
    decreases ts.len() - i, 2int,
{
    if !(0 <= i < ts.len()) {
        want(i, Token::StrEnd)
    } else {
        match ts[i].token {
            Token::StrEnd => Ok(Got { node: acc, next: i + 1, notes }),
            Token::StrText(s) => string_from(ts, i + 1, acc.push(SStrPart::Text(s@)), notes),
            Token::InterpStart => match sure(expr(ts, i + 1, true), i + 1, ts.len()) {
                Err(e) => Err(e),
                Ok(x) => if tok(ts, x.next, Token::InterpEnd) {
                    string_from(
                        ts,
                        x.next + 1,
                        acc.push(SStrPart::Interp(x.node)),
                        notes + x.notes,
                    )
                } else {
                    want(x.next, Token::InterpEnd)
                },
            },
            _ => want(i, Token::StrEnd),
        }
    }
}

/// `try`, `try?` or `try!` at `i`. Its body binds tighter than any binary operator, so
/// `try? get(m, k) orelse 30` gives the default to the `try`.
pub open spec fn try_expr(ts: Seq<Spanned>, i: int) -> Res<SExprKind>
    decreases ts.len() - i, 1int,
{
    let (form, j) = if tok(ts, i + 1, Token::Question) {
        (TryForm::Soften, i + 2)
    } else if tok(ts, i + 1, Token::Bang) {
        (TryForm::Assert, i + 2)
    } else {
        (TryForm::Propagate, i + 1)
    };
    if !(0 <= i < ts.len()) {
        want(i, Token::Try)
    } else {
        match sure(unary(ts, j, true), j, ts.len()) {
            Err(e) => Err(e),
            Ok(x) => if tok(ts, x.next, Token::Catch) {
                match sure(catch_arm(ts, x.next), x.next, ts.len()) {
                    Err(e) => Err(e),
                    Ok(c) => Ok(
                        Got {
                            node: SExprKind::Try {
                                form,
                                body: Box::new(x.node),
                                catch: Some(c.node),
                            },
                            next: c.next,
                            notes: x.notes + c.notes,
                        },
                    ),
                }
            } else {
                Ok(
                    Got {
                        node: SExprKind::Try { form, body: Box::new(x.node), catch: None },
                        next: x.next,
                        notes: x.notes,
                    },
                )
            },
        }
    }
}

/// `catch (e) { .. }` at `i`.
pub open spec fn catch_arm(ts: Seq<Spanned>, i: int) -> Res<SCatchArm>
    decreases ts.len() - i, 1int,
{
    if !tok(ts, i + 1, Token::LParen) {
        want(i + 1, Token::LParen)
    } else {
        match name_at(ts, i + 2) {
            None => lack(i + 2, "an identifier"),
            Some(binding) => if !tok(ts, i + 3, Token::RParen) {
                want(i + 3, Token::RParen)
            } else {
                match sure(block(ts, i + 4), i + 4, ts.len()) {
                    Err(e) => Err(e),
                    Ok(b) => Ok(
                        Got {
                            node: SCatchArm { binding, body: b.node, span: span(ts, i, b.next) },
                            next: b.next,
                            notes: b.notes,
                        },
                    ),
                }
            },
        }
    }
}

/// `if`, `match`, `loop`, `while` or `for` at `i`.
pub open spec fn block_like(ts: Seq<Spanned>, i: int) -> Res<SExprKind>
    decreases ts.len() - i, 2int,
{
    if !(0 <= i < ts.len()) {
        lack(i, "an expression")
    } else {
        match ts[i].token {
            Token::If => if_chain(ts, i),
            Token::Match => match sure(expr(ts, i + 1, false), i + 1, ts.len()) {
                Err(e) => Err(e),
                Ok(s) => if !tok(ts, s.next, Token::LBrace) {
                    want(s.next, Token::LBrace)
                } else {
                    match sure(
                        arms_from(ts, s.next + 1, Token::RBrace, seq![], seq![]),
                        s.next + 1,
                        ts.len(),
                    ) {
                        Err(e) => Err(e),
                        Ok(x) => Ok(
                            Got {
                                node: SExprKind::Match {
                                    scrutinee: Box::new(s.node),
                                    arms: x.node,
                                },
                                next: x.next,
                                notes: s.notes + x.notes,
                            },
                        ),
                    }
                },
            },
            Token::Loop => match sure(block(ts, i + 1), i + 1, ts.len()) {
                Err(e) => Err(e),
                Ok(b) => Ok(
                    Got { node: SExprKind::Loop { body: b.node }, next: b.next, notes: b.notes },
                ),
            },
            Token::While => match sure(expr(ts, i + 1, false), i + 1, ts.len()) {
                Err(e) => Err(e),
                Ok(c) => match sure(block(ts, c.next), c.next, ts.len()) {
                    Err(e) => Err(e),
                    Ok(b) => Ok(
                        Got {
                            node: SExprKind::While { cond: Box::new(c.node), body: b.node },
                            next: b.next,
                            notes: c.notes + b.notes,
                        },
                    ),
                },
            },
            Token::For => match sure(pattern(ts, i + 1), i + 1, ts.len()) {
                Err(e) => Err(e),
                Ok(p) => if !tok(ts, p.next, Token::In) {
                    want(p.next, Token::In)
                } else {
                    match sure(expr(ts, p.next + 1, false), p.next + 1, ts.len()) {
                        Err(e) => Err(e),
                        Ok(c) => match sure(block(ts, c.next), c.next, ts.len()) {
                            Err(e) => Err(e),
                            Ok(b) => Ok(
                                Got {
                                    node: SExprKind::For {
                                        pat: p.node,
                                        iter: Box::new(c.node),
                                        body: b.node,
                                    },
                                    next: b.next,
                                    notes: p.notes + c.notes + b.notes,
                                },
                            ),
                        },
                    }
                },
            },
            _ => lack(i, "an expression"),
        }
    }
}

/// `if c { .. }`, perhaps with an `else` that is a block or another `if`.
pub open spec fn if_chain(ts: Seq<Spanned>, i: int) -> Res<SExprKind>
    decreases ts.len() - i, 1int,
{
    if !(0 <= i < ts.len()) {
        want(i, Token::If)
    } else {
        match sure(expr(ts, i + 1, false), i + 1, ts.len()) {
            Err(e) => Err(e),
            Ok(c) => match sure(block(ts, c.next), c.next, ts.len()) {
                Err(e) => Err(e),
                Ok(b) => if tok(ts, b.next, Token::Else) {
                    match sure(else_branch(ts, b.next + 1), b.next + 1, ts.len()) {
                        Err(e) => Err(e),
                        Ok(x) => Ok(
                            Got {
                                node: SExprKind::If {
                                    cond: Box::new(c.node),
                                    then: b.node,
                                    else_: Some(Box::new(x.node)),
                                },
                                next: x.next,
                                notes: c.notes + b.notes + x.notes,
                            },
                        ),
                    }
                } else {
                    Ok(
                        Got {
                            node: SExprKind::If {
                                cond: Box::new(c.node),
                                then: b.node,
                                else_: None,
                            },
                            next: b.next,
                            notes: c.notes + b.notes,
                        },
                    )
                },
            },
        }
    }
}

pub open spec fn else_branch(ts: Seq<Spanned>, i: int) -> Res<SExpr>
    decreases ts.len() - i, 2int,
{
    if tok(ts, i, Token::If) {
        match sure(if_chain(ts, i), i, ts.len()) {
            Err(e) => Err(e),
            Ok(x) => Ok(
                Got {
                    node: SExpr { kind: x.node, span: span(ts, i, x.next), id: ExprId(UNSET) },
                    next: x.next,
                    notes: x.notes,
                },
            ),
        }
    } else {
        match sure(block(ts, i), i, ts.len()) {
            Err(e) => Err(e),
            Ok(x) => Ok(
                Got {
                    node: SExpr { kind: SExprKind::Block(x.node), span: span(ts, i, x.next), id: ExprId(UNSET) },
                    next: x.next,
                    notes: x.notes,
                },
            ),
        }
    }
}

/// `pattern if guard => body`
pub open spec fn arm(ts: Seq<Spanned>, i: int) -> Res<SMatchArm>
    decreases ts.len() - i, 27int,
{
    match sure(pattern(ts, i), i, ts.len()) {
        Err(e) => Err(e),
        Ok(p) => if tok(ts, p.next, Token::If) {
            match sure(expr(ts, p.next + 1, true), p.next + 1, ts.len()) {
                Err(e) => Err(e),
                Ok(g) => arm_body(ts, g.next, i, p.node, Some(g.node), p.notes + g.notes),
            }
        } else {
            arm_body(ts, p.next, i, p.node, None, p.notes)
        },
    }
}

pub open spec fn arm_body(
    ts: Seq<Spanned>,
    j: int,
    i: int,
    pat: SPattern,
    guard: Option<SExpr>,
    notes: Seq<SParseError>,
) -> Res<SMatchArm>
    decreases ts.len() - j, 1int,
{
    if !tok(ts, j, Token::FatArrow) {
        want(j, Token::FatArrow)
    } else {
        match sure(expr(ts, j + 1, true), j + 1, ts.len()) {
            Err(e) => Err(e),
            Ok(x) => Ok(
                Got {
                    node: SMatchArm { pat, guard, body: x.node, span: span(ts, i, x.next) },
                    next: x.next,
                    notes: notes + x.notes,
                },
            ),
        }
    }
}

/// Expressions, with commas between them and perhaps one after the last, up to `close`.
pub open spec fn exprs_from(
    ts: Seq<Spanned>,
    i: int,
    close: Token,
    acc: Seq<SExpr>,
    notes: Seq<SParseError>,
) -> Res<Seq<SExpr>>
    decreases ts.len() - i, 30int,
{
    if tok(ts, i, close) {
        Ok(Got { node: acc, next: i + 1, notes })
    } else {
        match sure(expr(ts, i, true), i, ts.len()) {
            Err(m) => Err(m),
            Ok(x) => if tok(ts, x.next, Token::Comma) {
                exprs_from(ts, x.next + 1, close, acc.push(x.node), notes + x.notes)
            } else if tok(ts, x.next, close) {
                Ok(Got { node: acc.push(x.node), next: x.next + 1, notes: notes + x.notes })
            } else {
                want2(x.next, Token::Comma, close)
            },
        }
    }
}

/// Elements of a list, with commas between them and perhaps one after the last, up to `close`.
pub open spec fn elems_from(
    ts: Seq<Spanned>,
    i: int,
    close: Token,
    acc: Seq<SElem>,
    notes: Seq<SParseError>,
) -> Res<Seq<SElem>>
    decreases ts.len() - i, 30int,
{
    if tok(ts, i, close) {
        Ok(Got { node: acc, next: i + 1, notes })
    } else {
        match sure(elem(ts, i), i, ts.len()) {
            Err(m) => Err(m),
            Ok(x) => if tok(ts, x.next, Token::Comma) {
                elems_from(ts, x.next + 1, close, acc.push(x.node), notes + x.notes)
            } else if tok(ts, x.next, close) {
                Ok(Got { node: acc.push(x.node), next: x.next + 1, notes: notes + x.notes })
            } else {
                want2(x.next, Token::Comma, close)
            },
        }
    }
}

/// Patterns, with commas between them and perhaps one after the last, up to `close`.
pub open spec fn patterns_from(
    ts: Seq<Spanned>,
    i: int,
    close: Token,
    acc: Seq<SPattern>,
    notes: Seq<SParseError>,
) -> Res<Seq<SPattern>>
    decreases ts.len() - i, 30int,
{
    if tok(ts, i, close) {
        Ok(Got { node: acc, next: i + 1, notes })
    } else {
        match sure(pattern(ts, i), i, ts.len()) {
            Err(m) => Err(m),
            Ok(x) => if tok(ts, x.next, Token::Comma) {
                patterns_from(ts, x.next + 1, close, acc.push(x.node), notes + x.notes)
            } else if tok(ts, x.next, close) {
                Ok(Got { node: acc.push(x.node), next: x.next + 1, notes: notes + x.notes })
            } else {
                want2(x.next, Token::Comma, close)
            },
        }
    }
}

/// Arms of a match, with commas between them and perhaps one after the last, up to `close`.
pub open spec fn arms_from(
    ts: Seq<Spanned>,
    i: int,
    close: Token,
    acc: Seq<SMatchArm>,
    notes: Seq<SParseError>,
) -> Res<Seq<SMatchArm>>
    decreases ts.len() - i, 30int,
{
    if tok(ts, i, close) {
        Ok(Got { node: acc, next: i + 1, notes })
    } else {
        match sure(arm(ts, i), i, ts.len()) {
            Err(m) => Err(m),
            Ok(x) => if tok(ts, x.next, Token::Comma) {
                arms_from(ts, x.next + 1, close, acc.push(x.node), notes + x.notes)
            } else if tok(ts, x.next, close) {
                Ok(Got { node: acc.push(x.node), next: x.next + 1, notes: notes + x.notes })
            } else {
                want2(x.next, Token::Comma, close)
            },
        }
    }
}

// ---- blocks ----

/// Expressions that end in a block stand alone as statements, without a semicolon.
pub open spec fn is_block_like(k: SExprKind) -> bool {
    match k {
        SExprKind::If { .. } | SExprKind::Match { .. } | SExprKind::Loop { .. } => true,
        SExprKind::While { .. } | SExprKind::For { .. } | SExprKind::Block(_) => true,
        _ => false,
    }
}

/// One entry of a block: a statement, or an expression and whether a `;` followed.
pub enum SItem {
    Stmt(SStmt),
    Expr(SExpr, bool),
}

/// The position after an optional semicolon.
pub open spec fn past_semi(ts: Seq<Spanned>, i: int) -> int {
    if tok(ts, i, Token::Semi) {
        i + 1
    } else {
        i
    }
}

/// The entry of a block at `i`.
///
/// An `if`, `match` or loop at the start of an entry is the entry, not an operand: `if a {}`
/// and then a line `-1;` are two statements.
pub open spec fn item(ts: Seq<Spanned>, i: int) -> Res<SItem>
    decreases ts.len() - i, 28int,
{
    if !(0 <= i < ts.len()) {
        lack(i, "an expression")
    } else {
        match ts[i].token {
            Token::Let => let_stmt(ts, i),
            Token::If | Token::Match | Token::Loop | Token::While | Token::For => match sure(
                block_like(ts, i),
                i,
                ts.len(),
            ) {
                Err(e) => Err(e),
                Ok(x) => Ok(
                    Got {
                        node: SItem::Expr(
                            SExpr { kind: x.node, span: span(ts, i, x.next), id: ExprId(UNSET) },
                            tok(ts, x.next, Token::Semi),
                        ),
                        next: past_semi(ts, x.next),
                        notes: x.notes,
                    },
                ),
            },
            _ => match sure(expr(ts, i, true), i, ts.len()) {
                Err(e) => Err(e),
                Ok(x) => if tok(ts, x.next, Token::Eq) {
                    match sure(expr(ts, x.next + 1, true), x.next + 1, ts.len()) {
                        Err(e) => Err(e),
                        Ok(v) => {
                            let (kind, complaint) = assignment(x.node, v.node);
                            Ok(
                                Got {
                                    node: SItem::Stmt(
                                        SStmt {
                                            kind,
                                            span: span(ts, i, past_semi(ts, v.next)),
                                        },
                                    ),
                                    next: past_semi(ts, v.next),
                                    notes: x.notes + v.notes + complaint,
                                },
                            )
                        },
                    }
                } else {
                    Ok(
                        Got {
                            node: SItem::Expr(x.node, tok(ts, x.next, Token::Semi)),
                            next: past_semi(ts, x.next),
                            notes: x.notes,
                        },
                    )
                },
            },
        }
    }
}

/// What `target = value` is. Only a binding can be rebound; the rest is refused, with what
/// it looks like.
pub open spec fn assignment(target: SExpr, value: SExpr) -> (SStmtKind, Seq<SParseError>) {
    match target.kind {
        SExprKind::Path(p) => if p.len() == 1 {
            (SStmtKind::Assign { name: p[0], value }, seq![])
        } else {
            (SStmtKind::Error, seq![note(target.span, SParseErrorKind::InvalidAssignTarget)])
        },
        SExprKind::Field { .. } => (
            SStmtKind::Error,
            seq![note(target.span, SParseErrorKind::FieldAssignment)],
        ),
        SExprKind::Index { .. } => (
            SStmtKind::Error,
            seq![note(target.span, SParseErrorKind::IndexAssignment)],
        ),
        _ => (SStmtKind::Error, seq![note(target.span, SParseErrorKind::InvalidAssignTarget)]),
    }
}

/// `let p: T = e;` at `i`.
pub open spec fn let_stmt(ts: Seq<Spanned>, i: int) -> Res<SItem>
    decreases ts.len() - i, 1int,
{
    if !(0 <= i < ts.len()) {
        want(i, Token::Let)
    } else {
        match sure(pattern(ts, i + 1), i + 1, ts.len()) {
            Err(e) => Err(e),
            Ok(p) => match ascription(ts, p.next) {
                Err(e) => Err(e),
                Ok(t) => if !(p.next <= t.next && tok(ts, t.next, Token::Eq)) {
                    want(t.next, Token::Eq)
                } else {
                    match sure(expr(ts, t.next + 1, true), t.next + 1, ts.len()) {
                        Err(e) => Err(e),
                        Ok(v) => Ok(
                            Got {
                                node: SItem::Stmt(
                                    SStmt {
                                        kind: SStmtKind::Let {
                                            pat: p.node,
                                            ty: t.node,
                                            value: v.node,
                                        },
                                        span: span(ts, i, past_semi(ts, v.next)),
                                    },
                                ),
                                next: past_semi(ts, v.next),
                                notes: p.notes + t.notes + v.notes,
                            },
                        ),
                    }
                },
            },
        }
    }
}

/// A block: its entries, and the last of them as its value if it is an expression without a
/// semicolon.
pub open spec fn block(ts: Seq<Spanned>, i: int) -> Res<SBlock>
    decreases ts.len() - i, 1int,
{
    if tok(ts, i, Token::LBrace) {
        block_from(ts, i + 1, i, seq![], None, seq![], seq![])
    } else {
        want(i, Token::LBrace)
    }
}

/// An expression that turned out not to be the last entry, as a statement.
pub open spec fn settled(stmts: Seq<SStmt>, pending: Option<SExpr>) -> Seq<SStmt> {
    match pending {
        Some(x) => stmts.push(SStmt { kind: SStmtKind::Expr(x), span: x.span }),
        None => stmts,
    }
}

/// The complaint about an expression that needs a semicolon and has none.
pub open spec fn unfinished(pending: Option<SExpr>) -> Seq<SParseError> {
    match pending {
        Some(x) => if is_block_like(x.kind) {
            seq![]
        } else {
            seq![
                note(
                    Span { start: x.span.end, end: x.span.end },
                    SParseErrorKind::Expected {
                        expected: seq![Expected::Token(Token::Semi)],
                        found: None,
                    },
                ),
            ]
        },
        None => seq![],
    }
}

/// The rest of the block that started at `i`. `pending` is the last entry so far if it is an
/// expression without a semicolon; `semis` are the complaints about missing ones.
pub open spec fn block_from(
    ts: Seq<Spanned>,
    j: int,
    i: int,
    stmts: Seq<SStmt>,
    pending: Option<SExpr>,
    notes: Seq<SParseError>,
    semis: Seq<SParseError>,
) -> Res<SBlock>
    decreases ts.len() - j, 30int,
{
    if tok(ts, j, Token::RBrace) {
        Ok(
            Got {
                node: SBlock {
                    stmts,
                    tail: match pending {
                        Some(x) => Some(Box::new(x)),
                        None => None,
                    },
                    span: span(ts, i, j + 1),
                },
                next: j + 1,
                notes: notes + semis,
            },
        )
    } else if !(0 <= j < ts.len()) {
        want(j, Token::RBrace)
    } else {
        match sure(item(ts, j), j, ts.len()) {
            Err(e) => Err(e),
            Ok(x) => match x.node {
                SItem::Expr(e, false) => block_from(
                    ts,
                    x.next,
                    i,
                    settled(stmts, pending),
                    Some(e),
                    notes + x.notes,
                    semis + unfinished(pending),
                ),
                SItem::Expr(e, true) => block_from(
                    ts,
                    x.next,
                    i,
                    settled(stmts, pending).push(SStmt { kind: SStmtKind::Expr(e), span: e.span }),
                    None,
                    notes + x.notes,
                    semis + unfinished(pending),
                ),
                SItem::Stmt(s) => block_from(
                    ts,
                    x.next,
                    i,
                    settled(stmts, pending).push(s),
                    None,
                    notes + x.notes,
                    semis + unfinished(pending),
                ),
            },
        }
    }
}

// ---- declarations ----

/// `@name` and `@name("..")`, as often as they come.
pub open spec fn annotations_from(
    ts: Seq<Spanned>,
    i: int,
    acc: Seq<SAnnotation>,
) -> Res<Seq<SAnnotation>>
    decreases ts.len() - i,
{
    if tok(ts, i, Token::At) {
        match sure(annotation(ts, i), i, ts.len()) {
            Err(e) => Err(e),
            Ok(a) => annotations_from(ts, a.next, acc.push(a.node)),
        }
    } else {
        got(acc, i)
    }
}

pub open spec fn annotation(ts: Seq<Spanned>, i: int) -> Res<SAnnotation> {
    match name_at(ts, i + 1) {
        None => lack(i + 1, "an identifier"),
        Some(name) => if tok(ts, i + 2, Token::LParen) {
            match sure(plain_str(ts, i + 3), i + 3, ts.len()) {
                Err(e) => Err(e),
                Ok(s) => if tok(ts, s.next, Token::RParen) {
                    got(
                        SAnnotation {
                            name,
                            arg: Some(s.node),
                            args: seq![SAnnArg::Text(s.node)],
                            span: span(ts, i, s.next + 1),
                        },
                        s.next + 1,
                    )
                } else {
                    want(s.next, Token::RParen)
                },
            }
        } else {
            got(SAnnotation { name, arg: None, args: seq![], span: span(ts, i, i + 2) }, i + 2)
        },
    }
}

/// `name: T`
pub open spec fn param(ts: Seq<Spanned>, i: int) -> Res<SParam> {
    match field(ts, i) {
        Err(e) => Err(e),
        Ok(f) => Ok(
            Got {
                node: SParam { name: f.node.name, ty: f.node.ty, span: f.node.span },
                next: f.next,
                notes: f.notes,
            },
        ),
    }
}

/// Parameters, with commas between them and perhaps one after the last, up to `close`.
pub open spec fn params_from(
    ts: Seq<Spanned>,
    i: int,
    close: Token,
    acc: Seq<SParam>,
    notes: Seq<SParseError>,
) -> Res<Seq<SParam>>
    decreases ts.len() - i, 0int,
{
    if tok(ts, i, close) {
        Ok(Got { node: acc, next: i + 1, notes })
    } else {
        match sure(param(ts, i), i, ts.len()) {
            Err(m) => Err(m),
            Ok(x) => if tok(ts, x.next, Token::Comma) {
                params_from(ts, x.next + 1, close, acc.push(x.node), notes + x.notes)
            } else if tok(ts, x.next, close) {
                Ok(Got { node: acc.push(x.node), next: x.next + 1, notes: notes + x.notes })
            } else {
                want2(x.next, Token::Comma, close)
            },
        }
    }
}

/// Names, with commas between them and perhaps one after the last, up to `]`.
pub open spec fn names_from(ts: Seq<Spanned>, i: int, acc: Seq<Seq<char>>) -> Res<Seq<Seq<char>>>
    decreases ts.len() - i,
{
    if tok(ts, i, Token::RBracket) {
        got(acc, i + 1)
    } else {
        match name_at(ts, i) {
            None => lack(i, "an identifier"),
            Some(s) => if tok(ts, i + 1, Token::Comma) {
                names_from(ts, i + 2, acc.push(s))
            } else if tok(ts, i + 1, Token::RBracket) {
                got(acc.push(s), i + 2)
            } else {
                want2(i + 1, Token::Comma, Token::RBracket)
            },
        }
    }
}

/// `[T, U]`, if there is a `[` at `i`.
pub open spec fn generic_params(ts: Seq<Spanned>, i: int) -> Res<Seq<Seq<char>>> {
    if tok(ts, i, Token::LBracket) {
        names_from(ts, i + 1, seq![])
    } else {
        got(seq![], i)
    }
}

/// `where T: A, U: B`, if there is a `where` at `i`.
pub open spec fn where_clauses(ts: Seq<Spanned>, i: int) -> Res<Seq<SWhereClause>> {
    if tok(ts, i, Token::Where) {
        wheres_from(ts, i + 1, seq![], seq![])
    } else {
        got(seq![], i)
    }
}

pub open spec fn wheres_from(
    ts: Seq<Spanned>,
    i: int,
    acc: Seq<SWhereClause>,
    notes: Seq<SParseError>,
) -> Res<Seq<SWhereClause>>
    decreases ts.len() - i,
{
    match sure(field(ts, i), i, ts.len()) {
        Err(e) => Err(e),
        Ok(f) => {
            let all = acc.push(SWhereClause { param: f.node.name, bound: f.node.ty });
            if tok(ts, f.next, Token::Comma) {
                wheres_from(ts, f.next + 1, all, notes + f.notes)
            } else {
                Ok(Got { node: all, next: f.next, notes: notes + f.notes })
            }
        },
    }
}

/// The type after `keyword`, if that is at `i`.
pub open spec fn clause(
    ts: Seq<Spanned>,
    i: int,
    keyword: Token,
    m: TypeMode,
) -> Res<Option<STypeSpec>> {
    if tok(ts, i, keyword) {
        match ty(ts, i + 1, m) {
            Err(e) => Err(e),
            Ok(t) => Ok(Got { node: Some(t.node), next: t.next, notes: t.notes }),
        }
    } else {
        got(None, i)
    }
}

/// The block at `i`, if there is a `{` there.
pub open spec fn optional_block(ts: Seq<Spanned>, i: int) -> Res<Option<SBlock>> {
    if tok(ts, i, Token::LBrace) {
        match block(ts, i) {
            Err(e) => Err(e),
            Ok(b) => Ok(Got { node: Some(b.node), next: b.next, notes: b.notes }),
        }
    } else {
        got(None, i)
    }
}

/// What stands before a function's `throws`.
pub struct Signature {
    pub name: Seq<char>,
    pub generics: Seq<Seq<char>>,
    pub params: Seq<SParam>,
}

/// `fn f[T](x: T)`, whose `fn` is at `i`.
pub open spec fn signature(ts: Seq<Spanned>, i: int) -> Res<Signature> {
    match name_at(ts, i + 1) {
        None => lack(i + 1, "an identifier"),
        Some(name) => match generic_params(ts, i + 2) {
            Err(e) => Err(e),
            Ok(g) => if !tok(ts, g.next, Token::LParen) {
                want(g.next, Token::LParen)
            } else {
                match params_from(ts, g.next + 1, Token::RParen, seq![], seq![]) {
                    Err(e) => Err(e),
                    Ok(p) => Ok(
                        Got {
                            node: Signature { name, generics: g.node, params: p.node },
                            next: p.next,
                            notes: p.notes,
                        },
                    ),
                }
            },
        },
    }
}

/// A function, whose `fn` is at `i`. `throws` comes before `->`. The body may be missing:
/// whether it may is not a question of syntax.
pub open spec fn fn_decl(ts: Seq<Spanned>, i: int, annotations: Seq<SAnnotation>) -> Res<SFnDecl> {
    match signature(ts, i) {
        Err(e) => Err(e),
        Ok(s) => match clause(ts, s.next, Token::Throws, TypeMode::Thrown) {
            Err(e) => Err(e),
            Ok(t) => match clause(ts, t.next, Token::Arrow, TypeMode::Full) {
                Err(e) => Err(e),
                Ok(r) => match where_clauses(ts, r.next) {
                    Err(e) => Err(e),
                    Ok(w) => match optional_block(ts, w.next) {
                        Err(e) => Err(e),
                        Ok(b) => Ok(
                            Got {
                                node: SFnDecl {
                                    name: s.node.name,
                                    generics: s.node.generics,
                                    params: s.node.params,
                                    throws: t.node,
                                    ret: r.node,
                                    wheres: w.node,
                                    body: b.node,
                                    annotations,
                                },
                                next: b.next,
                                notes: s.notes + t.notes + r.notes + w.notes + b.notes,
                            },
                        ),
                    },
                },
            },
        },
    }
}

/// A record, whose `opaque` or `record` is at `i`.
pub open spec fn record_decl(
    ts: Seq<Spanned>,
    i: int,
    annotations: Seq<SAnnotation>,
) -> Res<SRecordDecl> {
    let opaque = tok(ts, i, Token::Opaque);
    let j = if opaque {
        i + 1
    } else {
        i
    };
    if !tok(ts, j, Token::Record) {
        want(j, Token::Record)
    } else {
        match name_at(ts, j + 1) {
            None => lack(j + 1, "an identifier"),
            Some(name) => match generic_params(ts, j + 2) {
                Err(e) => Err(e),
                Ok(g) => if !tok(ts, g.next, Token::LBrace) {
                    want(g.next, Token::LBrace)
                } else {
                    match fields_from(ts, g.next + 1, Token::RBrace, seq![], seq![]) {
                        Err(e) => Err(e),
                        Ok(f) => Ok(
                            Got {
                                node: SRecordDecl {
                                    name,
                                    generics: g.node,
                                    opaque,
                                    fields: f.node,
                                    annotations,
                                },
                                next: f.next,
                                notes: f.notes,
                            },
                        ),
                    }
                },
            },
        }
    }
}

/// The methods of a protocol or an impl from `i` on, up to the `}`.
pub open spec fn methods_from(
    ts: Seq<Spanned>,
    i: int,
    acc: Seq<SFnDecl>,
    notes: Seq<SParseError>,
) -> Res<Seq<SFnDecl>>
    decreases ts.len() - i,
{
    if tok(ts, i, Token::RBrace) {
        Ok(Got { node: acc, next: i + 1, notes })
    } else {
        match annotations_from(ts, i, seq![]) {
            Err(e) => Err(e),
            Ok(a) => if !tok(ts, a.next, Token::Fn) {
                if a.next == i {
                    want2(i, Token::Fn, Token::RBrace)
                } else {
                    want(a.next, Token::Fn)
                }
            } else {
                match sure(fn_decl(ts, a.next, a.node), i, ts.len()) {
                    Err(e) => Err(e),
                    Ok(f) => methods_from(ts, f.next, acc.push(f.node), notes + f.notes),
                }
            },
        }
    }
}

/// How many `_` stand between the brackets, if there is a `[` at `i`.
pub open spec fn holes(ts: Seq<Spanned>, i: int) -> Res<usize> {
    if tok(ts, i, Token::LBracket) {
        holes_from(ts, i + 1, 0)
    } else {
        got(0usize, i)
    }
}

pub open spec fn holes_from(ts: Seq<Spanned>, i: int, n: int) -> Res<usize>
    decreases ts.len() - i,
{
    if name_at(ts, i) != Some("_"@) {
        lack(i, "`_`")
    } else if tok(ts, i + 1, Token::Comma) {
        holes_from(ts, i + 2, n + 1)
    } else if tok(ts, i + 1, Token::RBracket) {
        got((n + 1) as usize, i + 2)
    } else {
        want2(i + 1, Token::Comma, Token::RBracket)
    }
}

/// `protocol P for T where .. { .. }` at `i`.
pub open spec fn protocol_decl(ts: Seq<Spanned>, i: int) -> Res<SProtocolDecl> {
    match name_at(ts, i + 1) {
        None => lack(i + 1, "an identifier"),
        Some(name) => if !tok(ts, i + 2, Token::For) {
            want(i + 2, Token::For)
        } else {
            match name_at(ts, i + 3) {
                None => lack(i + 3, "an identifier"),
                Some(subject) => match holes(ts, i + 4) {
                    Err(e) => Err(e),
                    Ok(h) => match where_clauses(ts, h.next) {
                        Err(e) => Err(e),
                        Ok(w) => if !tok(ts, w.next, Token::LBrace) {
                            want(w.next, Token::LBrace)
                        } else {
                            match methods_from(ts, w.next + 1, seq![], seq![]) {
                                Err(e) => Err(e),
                                Ok(m) => Ok(
                                    Got {
                                        node: SProtocolDecl {
                                            name,
                                            subject,
                                            subject_arity: h.node,
                                            wheres: w.node,
                                            methods: m.node,
                                        },
                                        next: m.next,
                                        notes: w.notes + m.notes,
                                    },
                                ),
                            }
                        },
                    },
                },
            }
        },
    }
}

/// `impl[T] P for T { .. }` at `i`.
pub open spec fn impl_decl(ts: Seq<Spanned>, i: int) -> Res<SImplDecl> {
    match generic_params(ts, i + 1) {
        Err(e) => Err(e),
        Ok(g) => match path(ts, g.next) {
            Err(e) => Err(e),
            Ok(p) => if !tok(ts, p.next, Token::For) {
                want(p.next, Token::For)
            } else {
                match ty(ts, p.next + 1, TypeMode::Full) {
                    Err(e) => Err(e),
                    Ok(t) => if !tok(ts, t.next, Token::LBrace) {
                        want(t.next, Token::LBrace)
                    } else {
                        match methods_from(ts, t.next + 1, seq![], seq![]) {
                            Err(e) => Err(e),
                            Ok(m) => Ok(
                                Got {
                                    node: SImplDecl {
                                        protocol: p.node,
                                        generics: g.node,
                                        target: t.node,
                                        methods: m.node,
                                    },
                                    next: m.next,
                                    notes: t.notes + m.notes,
                                },
                            ),
                        }
                    },
                }
            },
        },
    }
}

/// `Name[T] = type`, which `type`, `mu type` and `newtype` share.
pub open spec fn alias_body(ts: Seq<Spanned>, i: int) -> Res<SAliasDecl> {
    match name_at(ts, i) {
        None => lack(i, "an identifier"),
        Some(name) => match generic_params(ts, i + 1) {
            Err(e) => Err(e),
            Ok(g) => if !tok(ts, g.next, Token::Eq) {
                want(g.next, Token::Eq)
            } else {
                match ty(ts, g.next + 1, TypeMode::Full) {
                    Err(e) => Err(e),
                    Ok(t) => Ok(
                        Got {
                            node: SAliasDecl { name, generics: g.node, value: t.node },
                            next: t.next,
                            notes: t.notes,
                        },
                    ),
                }
            },
        },
    }
}

/// `a::b`, `a::b as c`, `a::*` or `a::{ .. }`
pub open spec fn use_tree(ts: Seq<Spanned>, i: int) -> Res<SUseTree>
    decreases ts.len() - i, 0int,
{
    match sure(path(ts, i), i, ts.len()) {
        Err(e) => Err(e),
        Ok(p) => if tok(ts, p.next, Token::ColonColon) {
            if tok(ts, p.next + 1, Token::Star) {
                got(SUseTree::Glob { prefix: p.node }, p.next + 2)
            } else if tok(ts, p.next + 1, Token::LBrace) {
                match sure(
                    use_trees_from(ts, p.next + 2, Token::RBrace, seq![], seq![]),
                    p.next + 2,
                    ts.len(),
                ) {
                    Err(e) => Err(e),
                    Ok(x) => got(SUseTree::Group { prefix: p.node, children: x.node }, x.next),
                }
            } else {
                want2(p.next + 1, Token::Star, Token::LBrace)
            }
        } else if tok(ts, p.next, Token::As) {
            match name_at(ts, p.next + 1) {
                None => lack(p.next + 1, "an identifier"),
                Some(alias) => got(
                    SUseTree::Leaf { path: p.node, alias: Some(alias) },
                    p.next + 2,
                ),
            }
        } else {
            got(SUseTree::Leaf { path: p.node, alias: None }, p.next)
        },
    }
}

/// Trees, with commas between them and perhaps one after the last, up to `close`.
pub open spec fn use_trees_from(
    ts: Seq<Spanned>,
    i: int,
    close: Token,
    acc: Seq<SUseTree>,
    notes: Seq<SParseError>,
) -> Res<Seq<SUseTree>>
    decreases ts.len() - i, 1int,
{
    if tok(ts, i, close) {
        Ok(Got { node: acc, next: i + 1, notes })
    } else {
        match sure(use_tree(ts, i), i, ts.len()) {
            Err(m) => Err(m),
            Ok(x) => if tok(ts, x.next, Token::Comma) {
                use_trees_from(ts, x.next + 1, close, acc.push(x.node), notes + x.notes)
            } else if tok(ts, x.next, close) {
                Ok(Got { node: acc.push(x.node), next: x.next + 1, notes: notes + x.notes })
            } else {
                want2(x.next, Token::Comma, close)
            },
        }
    }
}

/// A `use` at `i`, with or without a semicolon.
pub open spec fn use_decl(ts: Seq<Spanned>, i: int) -> Res<SUseDecl> {
    match use_tree(ts, i + 1) {
        Err(e) => Err(e),
        Ok(t) => got(
            SUseDecl { tree: t.node, span: span(ts, i, past_semi(ts, t.next)) },
            past_semi(ts, t.next),
        ),
    }
}

/// `const C: T = e;` at `i`.
pub open spec fn const_decl(ts: Seq<Spanned>, i: int) -> Res<SConstDecl> {
    match name_at(ts, i + 1) {
        None => lack(i + 1, "an identifier"),
        Some(name) => match ascription(ts, i + 2) {
            Err(e) => Err(e),
            Ok(t) => if !tok(ts, t.next, Token::Eq) {
                want(t.next, Token::Eq)
            } else {
                match expr(ts, t.next + 1, true) {
                    Err(e) => Err(e),
                    Ok(v) => Ok(
                        Got {
                            node: SConstDecl { name, ty: t.node, value: v.node },
                            next: past_semi(ts, v.next),
                            notes: t.notes + v.notes,
                        },
                    ),
                }
            },
        },
    }
}

/// `test ".." { .. }` or `bench ".." { .. }` at `i`.
pub open spec fn test_decl(ts: Seq<Spanned>, i: int) -> Res<STestBlock> {
    match plain_str(ts, i + 1) {
        Err(e) => Err(e),
        Ok(s) => match block(ts, s.next) {
            Err(e) => Err(e),
            Ok(b) => Ok(
                Got {
                    node: STestBlock {
                        kind: if tok(ts, i, Token::Test) {
                            TestKind::Test
                        } else {
                            TestKind::Bench
                        },
                        name: s.node,
                        body: b.node,
                    },
                    next: b.next,
                    notes: b.notes,
                },
            ),
        },
    }
}

/// What a declaration may start with.
pub open spec fn decl_starts() -> Seq<Expected> {
    seq![
        Expected::Token(Token::At),
        Expected::Token(Token::Fn),
        Expected::Token(Token::Opaque),
        Expected::Token(Token::Record),
        Expected::Token(Token::Protocol),
        Expected::Token(Token::Impl),
        Expected::Token(Token::Mu),
        Expected::Token(Token::Type),
        Expected::Token(Token::Newtype),
        Expected::Token(Token::Use),
        Expected::Token(Token::Internal),
        Expected::Token(Token::Mod),
        Expected::Token(Token::Const),
        Expected::Token(Token::Test),
        Expected::Token(Token::Bench),
    ]
}

/// What may follow annotations.
pub open spec fn annotated_starts() -> Seq<Expected> {
    seq![
        Expected::Token(Token::Fn),
        Expected::Token(Token::Opaque),
        Expected::Token(Token::Record),
    ]
}

/// The error that a miss is reported as. Past the last token it is at `eoi`.
pub open spec fn miss_error(ts: Seq<Spanned>, eoi: usize, m: Miss) -> SParseError {
    if 0 <= m.at < ts.len() {
        note(
            ts[m.at].span,
            SParseErrorKind::Expected { expected: m.want, found: Some(ts[m.at].token) },
        )
    } else {
        note(
            Span { start: eoi, end: eoi },
            SParseErrorKind::Expected { expected: m.want, found: None },
        )
    }
}

/// The same result around another node.
pub open spec fn mapped<T, U>(r: Res<T>, f: spec_fn(T) -> U) -> Res<U> {
    match r {
        Err(e) => Err(e),
        Ok(x) => Ok(Got { node: f(x.node), next: x.next, notes: x.notes }),
    }
}

/// A declaration at `i`.
pub open spec fn decl(ts: Seq<Spanned>, eoi: usize, i: int) -> Res<SDecl>
    decreases ts.len() - i, 3int,
{
    match sure(decl_kind(ts, eoi, i), i, ts.len()) {
        Err(e) => Err(e),
        Ok(x) => Ok(
            Got {
                node: SDecl { kind: x.node, span: span(ts, i, x.next) },
                next: x.next,
                notes: x.notes,
            },
        ),
    }
}

pub open spec fn decl_kind(ts: Seq<Spanned>, eoi: usize, i: int) -> Res<SDeclKind>
    decreases ts.len() - i, 2int,
{
    match annotations_from(ts, i, seq![]) {
        Err(e) => Err(e),
        Ok(a) => if tok(ts, a.next, Token::Fn) {
            mapped(fn_decl(ts, a.next, a.node), |x: SFnDecl| SDeclKind::Fn(x))
        } else if tok(ts, a.next, Token::Opaque) || tok(ts, a.next, Token::Record) {
            mapped(record_decl(ts, a.next, a.node), |x: SRecordDecl| SDeclKind::Record(x))
        } else if a.next != i {
            Err(Miss { at: a.next, want: annotated_starts() })
        } else {
            plain_decl(ts, eoi, i)
        },
    }
}

/// A declaration without annotations that is neither a function nor a record.
pub open spec fn plain_decl(ts: Seq<Spanned>, eoi: usize, i: int) -> Res<SDeclKind>
    decreases ts.len() - i, 1int,
{
    if !(0 <= i < ts.len()) {
        Err(Miss { at: i, want: decl_starts() })
    } else {
        match ts[i].token {
            Token::Protocol => mapped(
                protocol_decl(ts, i),
                |x: SProtocolDecl| SDeclKind::Protocol(x),
            ),
            Token::Impl => mapped(impl_decl(ts, i), |x: SImplDecl| SDeclKind::Impl(x)),
            Token::Mu => if tok(ts, i + 1, Token::Type) {
                mapped(alias_body(ts, i + 2), |x: SAliasDecl| SDeclKind::MuType(x))
            } else {
                want(i + 1, Token::Type)
            },
            Token::Type => mapped(alias_body(ts, i + 1), |x: SAliasDecl| SDeclKind::TypeAlias(x)),
            Token::Newtype => mapped(
                alias_body(ts, i + 1),
                |x: SAliasDecl| SDeclKind::Newtype(x),
            ),
            Token::Use => mapped(use_decl(ts, i), |x: SUseDecl| SDeclKind::Use(x)),
            Token::Internal => if tok(ts, i + 1, Token::Mod) {
                mod_decl(ts, eoi, i + 1, true)
            } else {
                want(i + 1, Token::Mod)
            },
            Token::Mod => mod_decl(ts, eoi, i, false),
            Token::Const => mapped(const_decl(ts, i), |x: SConstDecl| SDeclKind::Const(x)),
            Token::Test | Token::Bench => mapped(
                test_decl(ts, i),
                |x: STestBlock| SDeclKind::TestBlock(x),
            ),
            Token::Ident(s) => match enum_end(ts, i) {
                // `enum` is not a keyword, but people will type it.
                Some(j) => if s@ == "enum"@ {
                    Ok(
                        Got {
                            node: SDeclKind::Error,
                            next: j,
                            notes: seq![
                                note(span(ts, i, j), SParseErrorKind::EnumDeclaration),
                            ],
                        },
                    )
                } else {
                    Err(Miss { at: i, want: decl_starts() })
                },
                None => Err(Miss { at: i, want: decl_starts() }),
            },
            _ => Err(Miss { at: i, want: decl_starts() }),
        }
    }
}

/// The position after `word Name { .. }` at `i`, if that is what stands there.
pub open spec fn enum_end(ts: Seq<Spanned>, i: int) -> Option<int> {
    if name_at(ts, i + 1) is Some && tok(ts, i + 2, Token::LBrace) {
        braces_end(ts, i + 3, 1)
    } else {
        None
    }
}

/// `mod m { .. }`, whose `mod` is at `i`.
pub open spec fn mod_decl(ts: Seq<Spanned>, eoi: usize, i: int, internal: bool) -> Res<SDeclKind>
    decreases ts.len() - i, 0int,
{
    match name_at(ts, i + 1) {
        None => lack(i + 1, "an identifier"),
        Some(name) => if !tok(ts, i + 2, Token::LBrace) {
            want(i + 2, Token::LBrace)
        } else {
            let x = decls_from(ts, eoi, i + 3, seq![], seq![]);
            if tok(ts, x.next, Token::RBrace) {
                Ok(
                    Got {
                        node: SDeclKind::Mod(SModDecl { name, internal, decls: x.node }),
                        next: x.next + 1,
                        notes: x.notes,
                    },
                )
            } else {
                want(x.next, Token::RBrace)
            }
        },
    }
}

/// Where skipping a bad declaration stops: at the start of another, or at a `}` that was
/// not opened while skipping.
pub open spec fn stops_skipping(t: Token) -> bool {
    match t {
        Token::Fn | Token::Test | Token::Bench | Token::Record | Token::Opaque => true,
        Token::Type | Token::Mu | Token::Newtype | Token::Protocol | Token::Impl => true,
        Token::Use | Token::Const | Token::RBrace => true,
        _ => false,
    }
}

/// Where the skipping of a bad declaration stops that has got to `i`. Balanced braces are
/// skipped as a unit.
pub open spec fn skip_from(ts: Seq<Spanned>, i: int) -> int
    decreases ts.len() - i,
{
    if !(0 <= i < ts.len()) {
        i
    } else if tok(ts, i, Token::LBrace) {
        match braces_end(ts, i + 1, 1) {
            Some(j) => if i < j <= ts.len() {
                skip_from(ts, j)
            } else {
                skip_from(ts, i + 1)
            },
            None => skip_from(ts, i + 1),
        }
    } else if stops_skipping(ts[i].token) {
        i
    } else {
        skip_from(ts, i + 1)
    }
}

/// Declarations from `i` on, up to the end or a `}`. One that cannot be read is reported,
/// skipped, and stands as an error among the others.
pub open spec fn decls_from(
    ts: Seq<Spanned>,
    eoi: usize,
    i: int,
    acc: Seq<SDecl>,
    notes: Seq<SParseError>,
) -> Got<Seq<SDecl>>
    decreases ts.len() - i, 4int,
{
    if !(0 <= i < ts.len()) || tok(ts, i, Token::RBrace) {
        Got { node: acc, next: i, notes }
    } else {
        match sure(decl(ts, eoi, i), i, ts.len()) {
            Ok(x) => decls_from(ts, eoi, x.next, acc.push(x.node), notes + x.notes),
            Err(m) => {
                let j = skip_from(ts, i + 1);
                if i < j <= ts.len() {
                    decls_from(
                        ts,
                        eoi,
                        j,
                        acc.push(SDecl { kind: SDeclKind::Error, span: span(ts, i, j) }),
                        notes.push(miss_error(ts, eoi, m)),
                    )
                } else {
                    Got { node: acc, next: i, notes }
                }
            },
        }
    }
}

/// The module that a run of tokens reads as, if it reads as one, and everything that is
/// wrong with it. Its expressions are numbered from zero.
pub open spec fn module(ts: Seq<Spanned>, eoi: usize) -> (Option<SModule>, Seq<SParseError>) {
    let x = decls_from(ts, eoi, 0, seq![], seq![]);
    if x.next == ts.len() {
        (Some(numbered_module(SModule { decls: x.node }, 0).0), x.notes)
    } else {
        (
            None,
            x.notes.push(
                miss_error(ts, eoi, Miss { at: x.next, want: seq![Expected::EndOfInput] }),
            ),
        )
    }
}

} // verus!
