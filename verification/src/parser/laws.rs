//! How operators group what stands between them.

use super::grammar::{
    block, else_branch, expr, if_chain, index, level, level_from, operator, postfix, prefix, unary, Got,
    Miss,
};
use crate::ast::{BinOp, ExprId, UnOp, UNSET};
use crate::lexer::{Span, Spanned, Token};
use crate::ops::{each_kind_binds_looser_than_the_one_before, levels_are_contiguous, op_of, prec_of};
use crate::syntax::{SBlock, SExpr, SExprKind};
use vstd::prelude::*;

verus! {

/// Whether an operand stands at `i`, and is `x`.
pub open spec fn operand(ts: Seq<Spanned>, i: int, lit: bool, x: Got<SExpr>) -> bool {
    0 <= i < x.next <= ts.len() && unary(ts, i, lit) == Ok::<Got<SExpr>, Miss>(x)
}

/// Whether the operator `op` stands at `j`.
pub open spec fn stands(ts: Seq<Spanned>, j: int, op: BinOp) -> bool {
    0 <= j < ts.len() && op_of(ts[j].token) == Some(op)
}

/// Whether no operator stands at `j`.
pub open spec fn none_stands(ts: Seq<Spanned>, j: int) -> bool {
    0 <= j < ts.len() ==> op_of(ts[j].token) is None
}

/// Whether an expression applies an operator to two others.
pub open spec fn applies(e: SExpr, op: BinOp, lhs: SExpr, rhs: SExpr) -> bool {
    e.kind == (SExprKind::Binary { op, lhs: Box::new(lhs), rhs: Box::new(rhs) })
}

proof fn lemma_climb(ts: Seq<Spanned>, i: int, lit: bool, p: int, q: int, x: Got<SExpr>)
    requires
        1 <= p <= q <= 12,
        i < x.next <= ts.len(),
        level(ts, i, q, lit) == Ok::<Got<SExpr>, Miss>(x),
        forall|r: int| p <= r < q ==> operator(ts, x.next, r) is None,
    ensures
        level(ts, i, p, lit) == Ok::<Got<SExpr>, Miss>(x),
    decreases q - p,
{
    if p < q {
        lemma_climb(ts, i, lit, p + 1, q, x);
        assert(operator(ts, x.next, p) is None);
        assert(level_from(ts, x.next, p, lit, x.node, x.notes) == Ok::<Got<SExpr>, Miss>(x));
        assert(1 <= p <= 11);
        assert(level(ts, i, p, lit) == level_from(ts, x.next, p, lit, x.node, x.notes));
    }
}

spec fn joined(op: BinOp, x: Got<SExpr>, y: Got<SExpr>) -> Got<SExpr> {
    Got {
        node: SExpr {
            kind: SExprKind::Binary { op, lhs: Box::new(x.node), rhs: Box::new(y.node) },
            span: Span { start: x.node.span.start, end: y.node.span.end },
            id: ExprId(UNSET),
        },
        next: y.next,
        notes: x.notes + y.notes,
    }
}

/// Two operands of one level.
proof fn lemma_join(ts: Seq<Spanned>, i: int, lit: bool, op: BinOp, x: Got<SExpr>, y: Got<SExpr>)
    requires
        i < x.next < y.next <= ts.len(),
        stands(ts, x.next, op),
        1 <= prec_of(op) <= 11,
        level(ts, i, prec_of(op) + 1, lit) == Ok::<Got<SExpr>, Miss>(x),
        level(ts, x.next + 1, prec_of(op) + 1, lit) == Ok::<Got<SExpr>, Miss>(y),
        x.next + 1 < y.next,
        operator(ts, y.next, prec_of(op) as int) is None,
    ensures
        level(ts, i, prec_of(op) as int, lit) == Ok::<Got<SExpr>, Miss>(
            joined(op, x, y),
        ),
{
    let p = prec_of(op) as int;
    let z = joined(op, x, y);
    assert(operator(ts, x.next, p) == Some(op));
    assert(level_from(ts, y.next, p, lit, z.node, z.notes) == Ok::<Got<SExpr>, Miss>(z));
    assert(level_from(ts, x.next, p, lit, x.node, x.notes) == Ok::<Got<SExpr>, Miss>(z));
}

proof fn lemma_low(op: BinOp)
    ensures
        1 <= prec_of(op) <= 11,
{
    levels_are_contiguous(prec_of(op));
}

/// Of two operators, the one that binds tighter takes what stands between them; where they
/// bind alike, the first does. The whole then is the other, applied to that and to the
/// operand that is left.
pub proof fn operators_group_by_how_tightly_they_bind(
    ts: Seq<Spanned>,
    i: int,
    lit: bool,
    first: BinOp,
    second: BinOp,
    a: Got<SExpr>,
    b: Got<SExpr>,
    c: Got<SExpr>,
)
    requires
        operand(ts, i, lit, a),
        stands(ts, a.next, first),
        operand(ts, a.next + 1, lit, b),
        stands(ts, b.next, second),
        operand(ts, b.next + 1, lit, c),
        none_stands(ts, c.next),
    ensures
        expr(ts, i, lit) matches Ok(r) && r.next == c.next && if prec_of(first) >= prec_of(
            second,
        ) {
            exists|ab: SExpr| #[trigger]
                applies(ab, first, a.node, b.node) && applies(r.node, second, ab, c.node)
        } else {
            exists|bc: SExpr| #[trigger]
                applies(bc, second, b.node, c.node) && applies(r.node, first, a.node, bc)
        },
{
    lemma_low(first);
    lemma_low(second);
    let (p, q) = (prec_of(first) as int, prec_of(second) as int);
    assert(level(ts, i, 12, lit) == unary(ts, i, lit));
    assert(level(ts, a.next + 1, 12, lit) == unary(ts, a.next + 1, lit));
    assert(level(ts, b.next + 1, 12, lit) == unary(ts, b.next + 1, lit));
    lemma_climb(ts, i, lit, p + 1, 12, a);
    lemma_climb(ts, b.next + 1, lit, q + 1, 12, c);
    if p > q {
        lemma_climb(ts, a.next + 1, lit, p + 1, 12, b);
        lemma_join(ts, i, lit, first, a, b);
        let ab = joined(first, a, b);
        lemma_climb(ts, i, lit, q + 1, p, ab);
        lemma_join(ts, i, lit, second, ab, c);
        let all = joined(second, ab, c);
        lemma_climb(ts, i, lit, 1, q, all);
        assert(applies(ab.node, first, a.node, b.node));
        assert(applies(all.node, second, ab.node, c.node));
    } else if p < q {
        lemma_climb(ts, a.next + 1, lit, q + 1, 12, b);
        lemma_join(ts, a.next + 1, lit, second, b, c);
        let bc = joined(second, b, c);
        lemma_climb(ts, a.next + 1, lit, p + 1, q, bc);
        lemma_join(ts, i, lit, first, a, bc);
        let all = joined(first, a, bc);
        lemma_climb(ts, i, lit, 1, p, all);
        assert(applies(bc.node, second, b.node, c.node));
        assert(applies(all.node, first, a.node, bc.node));
    } else {
        lemma_climb(ts, a.next + 1, lit, p + 1, 12, b);
        let ab = joined(first, a, b);
        let all = joined(second, ab, c);
        assert(operator(ts, a.next, p) == Some(first));
        assert(operator(ts, b.next, p) == Some(second));
        assert(operator(ts, c.next, p) is None);
        assert(level_from(ts, c.next, p, lit, all.node, all.notes) == Ok::<Got<SExpr>, Miss>(all));
        assert(level_from(ts, b.next, p, lit, ab.node, ab.notes) == Ok::<Got<SExpr>, Miss>(all));
        assert(level_from(ts, a.next, p, lit, a.node, a.notes) == Ok::<Got<SExpr>, Miss>(all));
        assert(level(ts, i, p, lit) == Ok::<Got<SExpr>, Miss>(all));
        lemma_climb(ts, i, lit, 1, p, all);
        assert(applies(ab.node, first, a.node, b.node));
        assert(applies(all.node, second, ab.node, c.node));
    }
}

/// `a + b * c` multiplies first, and so does `a * b + c`; the same holds of `-`, `/` and `%`.
/// Of two that bind alike, the first is applied first: `a - b - c` is `(a - b) - c`.
pub proof fn products_come_before_sums(
    ts: Seq<Spanned>,
    i: int,
    lit: bool,
    first: Token,
    second: Token,
    a: Got<SExpr>,
    b: Got<SExpr>,
    c: Got<SExpr>,
)
    requires
        operand(ts, i, lit, a),
        a.next < ts.len(),
        ts[a.next].token == first,
        operand(ts, a.next + 1, lit, b),
        b.next < ts.len(),
        ts[b.next].token == second,
        operand(ts, b.next + 1, lit, c),
        none_stands(ts, c.next),
        first is Plus || first is Minus || first is Star || first is Slash || first is Percent,
        second is Plus || second is Minus || second is Star || second is Slash || second is Percent,
    ensures
        expr(ts, i, lit) matches Ok(r) && r.next == c.next && if (first is Plus || first is Minus)
            && (second is Star || second is Slash || second is Percent) {
            exists|bc: SExpr| #[trigger]
                applies(bc, op_of(second)->0, b.node, c.node) && applies(
                    r.node,
                    op_of(first)->0,
                    a.node,
                    bc,
                )
        } else {
            exists|ab: SExpr| #[trigger]
                applies(ab, op_of(first)->0, a.node, b.node) && applies(
                    r.node,
                    op_of(second)->0,
                    ab,
                    c.node,
                )
        },
{
    let (f, s) = (op_of(first)->0, op_of(second)->0);
    each_kind_binds_looser_than_the_one_before(f, s);
    each_kind_binds_looser_than_the_one_before(s, f);
    operators_group_by_how_tightly_they_bind(ts, i, lit, f, s, a, b, c);
}

/// A prefix operator takes the operand behind it, whatever that is, and no more: `-a + b` is
/// `(-a) + b`.
pub proof fn prefixes_take_one_operand(
    ts: Seq<Spanned>,
    i: int,
    lit: bool,
    x: Got<SExpr>,
)
    requires
        0 <= i < ts.len(),
        operand(ts, i + 1, lit, x),
    ensures
        ts[i].token is Minus ==> (unary(ts, i, lit) matches Ok(r) && r.next == x.next
            && r.node.kind == (SExprKind::Unary { op: UnOp::Neg, rhs: Box::new(x.node) })),
        ts[i].token is Bang ==> (unary(ts, i, lit) matches Ok(r) && r.next == x.next && r.node.kind
            == (SExprKind::Unary { op: UnOp::Not, rhs: Box::new(x.node) })),
        ts[i].token is Bnot ==> (unary(ts, i, lit) matches Ok(r) && r.next == x.next && r.node.kind
            == (SExprKind::Unary { op: UnOp::Bnot, rhs: Box::new(x.node) })),
{
    if ts[i].token is Minus || ts[i].token is Bang || ts[i].token is Bnot {
        assert(prefix(ts[i].token) is Some);
    }
}

/// A dot and a name read that field of what stands before them.
pub proof fn a_dot_reads_the_field_behind_it(ts: Seq<Spanned>, j: int, base: SExpr, name: String)
    requires
        0 <= j,
        j + 1 < ts.len(),
        ts[j].token is Dot,
        ts[j + 1].token == Token::Ident(name),
    ensures
        postfix(ts, j, base) matches Ok(r) && r.next == j + 2 && r.node == (SExprKind::Field {
            base: Box::new(base),
            name: name@,
        }),
{
}

/// `[e]` reads what stands before it at `e`.
pub proof fn brackets_read_at_what_stands_in_them(
    ts: Seq<Spanned>,
    j: int,
    base: SExpr,
    e: Got<SExpr>,
)
    requires
        0 <= j < ts.len(),
        expr(ts, j + 1, true) == Ok::<Got<SExpr>, Miss>(e),
        j + 1 < e.next < ts.len(),
        ts[e.next].token is RBracket,
    ensures
        index(ts, j, base) matches Ok(r) && r.next == e.next + 1 && r.node == (SExprKind::Index {
            base: Box::new(base),
            index: Box::new(e.node),
        }),
{
}

/// `if c { t }` chooses by `c`, and takes `t` where it holds; what stands behind an `else` is
/// taken where it does not.
pub proof fn an_if_keeps_its_parts_in_place(
    ts: Seq<Spanned>,
    i: int,
    c: Got<SExpr>,
    t: Got<SBlock>,
)
    requires
        0 <= i < ts.len(),
        expr(ts, i + 1, false) == Ok::<Got<SExpr>, Miss>(c),
        i + 1 < c.next <= ts.len(),
        block(ts, c.next) == Ok::<Got<SBlock>, Miss>(t),
        c.next < t.next <= ts.len(),
    ensures
        !(t.next < ts.len() && ts[t.next].token is Else) ==> (if_chain(ts, i) matches Ok(r) && r.next
            == t.next && r.node == (SExprKind::If {
            cond: Box::new(c.node),
            then: t.node,
            else_: None,
        })),
        t.next < ts.len() && ts[t.next].token is Else ==> match else_branch(ts, t.next + 1) {
            Ok(x) => t.next + 1 < x.next <= ts.len() ==> (if_chain(ts, i) matches Ok(r) && r.next
                == x.next && r.node == (SExprKind::If {
                cond: Box::new(c.node),
                then: t.node,
                else_: Some(Box::new(x.node)),
            })),
            Err(_) => true,
        },
{
}

} // verus!
