//! What lowered expressions come to when they run.
//!
//! A plain expression is one of literals, local names, operators, `if` with an `else`, and
//! blocks that are no more than an expression. Its meaning is told over the syntax tree, and
//! what it is lowered to is run.

use super::super::repr::SRepr;
use super::super::run::{
    along, bound, comes, divides, fits, held, is_result, lemma_comes_next, lemma_comes_nowhere,
    lemma_comes_on, outcome, results_are_unique, with, Held, Place, Spot, Val, World,
};
use super::super::ssa::{
    empty_block, BlockId, PrimOp, SBlock, SFunc, SInst, SOp, STarget, STerm, Value,
};
use super::scan::{
    assigned_block, assigned_opt, assigning_block, assigning_expr, assigning_opt, assigning_stmts,
    fresh, Scan,
};
use super::scheme::{
    passed, rebound, x_and_or, x_binary, x_block, x_body, x_else, x_expr, x_flow, x_if, x_operation,
    x_path, x_stmts, x_then, x_value,
};
use super::state::{
    current, expr_layout, expr_ty, found, in_frames, l_block, l_branch, l_emit, l_end, l_enter,
    l_jump, l_param, l_pop, l_push, values_of, Ctx, SLower,
};
use super::forms::l_params;
use crate::ast::{BinOp, UnOp};
use crate::syntax::{SExpr, SExprKind};
use crate::types::TyId;
use vstd::prelude::*;

verus! {

// ---- what plain expressions mean ----

/// What names stand for.
pub type Names = spec_fn(Seq<char>) -> Option<Val>;

/// Whether `v` is what an operator makes of two integers.
pub open spec fn of_integers(op: BinOp, x: int, y: int, v: Val) -> bool {
    match op {
        BinOp::Add => v == Val::Int(x + y) && fits(x + y),
        BinOp::Sub => v == Val::Int(x - y) && fits(x - y),
        BinOp::Mul => v == Val::Int(x * y) && fits(x * y),
        BinOp::Div => v matches Val::Int(q) && fits(q) && exists|r: int| divides(x, y, q, r),
        BinOp::Rem => v matches Val::Int(r) && exists|q: int| fits(q) && divides(x, y, q, r),
        BinOp::Eq => v == Val::Bool(x == y),
        BinOp::Ne => v == Val::Bool(!(x == y)),
        BinOp::Lt => v == Val::Bool(x < y),
        BinOp::Le => v == Val::Bool(!(y < x)),
        BinOp::Gt => v == Val::Bool(y < x),
        BinOp::Ge => v == Val::Bool(!(x < y)),
        BinOp::Band => v == Val::Int((x as i64 & y as i64) as int),
        BinOp::Bor => v == Val::Int((x as i64 | y as i64) as int),
        BinOp::Bxor => v == Val::Int((x as i64 ^ y as i64) as int),
        _ => false,
    }
}

/// Whether `v` is what an operator makes of two values, once both are there.
pub open spec fn of_both(op: BinOp, a: Val, b: Val, v: Val) -> bool {
    match (a, b) {
        (Val::Int(x), Val::Int(y)) => of_integers(op, x, y, v),
        (Val::Bool(x), Val::Bool(y)) => op is Eq && v == Val::Bool(x == y) || op is Ne && v
            == Val::Bool(x != y),
        _ => false,
    }
}

/// What an expression means, if it means something. The right side of `and` counts only where
/// the left is true, and that of `or` only where it is false; of `if`, only the way that the
/// condition picks counts.
pub open spec fn meaning(e: SExpr, names: Names) -> Option<Val>
    decreases e,
{
    match e.kind {
        SExprKind::Int(n) => if fits(n as int) {
            Some(Val::Int(n as int))
        } else {
            None
        },
        SExprKind::Bool(b) => Some(Val::Bool(b)),
        SExprKind::Path(p) => if p.len() == 1 {
            names(p[0])
        } else {
            None
        },
        SExprKind::Unary { op, rhs } => match (op, meaning(*rhs, names)) {
            (UnOp::Neg, Some(Val::Int(x))) => Some(
                Val::Int(
                    if fits(-x) {
                        -x
                    } else {
                        x
                    },
                ),
            ),
            (UnOp::Not, Some(Val::Bool(x))) => Some(Val::Bool(!x)),
            _ => None,
        },
        SExprKind::Binary { op, lhs, rhs } => match (op, meaning(*lhs, names)) {
            (BinOp::And, Some(Val::Bool(x))) => if x {
                meaning(*rhs, names)
            } else {
                Some(Val::Bool(false))
            },
            (BinOp::Or, Some(Val::Bool(x))) => if x {
                Some(Val::Bool(true))
            } else {
                meaning(*rhs, names)
            },
            (_, Some(a)) => match meaning(*rhs, names) {
                Some(b) => if exists|v: Val| of_both(op, a, b, v) {
                    Some(choose|v: Val| of_both(op, a, b, v))
                } else {
                    None
                },
                None => None,
            },
            _ => None,
        },
        SExprKind::If { cond, then, else_ } => match (then.tail, else_, meaning(*cond, names)) {
            (Some(t), Some(x), Some(Val::Bool(b))) => if b {
                meaning(*t, names)
            } else {
                meaning(*x, names)
            },
            _ => None,
        },
        SExprKind::Block(b) => match b.tail {
            Some(t) => meaning(*t, names),
            None => None,
        },
        _ => None,
    }
}

/// Whether an expression is a plain one. The layout of an `if` says that it has a value.
pub open spec fn is_plain(c: Ctx, s: SLower, e: SExpr) -> bool
    decreases e,
{
    match e.kind {
        SExprKind::Int(_) | SExprKind::Bool(_) => true,
        SExprKind::Path(p) => p.len() == 1 && found(s, p[0]) is Some,
        SExprKind::Unary { rhs, .. } => is_plain(c, s, *rhs),
        SExprKind::Binary { op, lhs, rhs } => !(op is Orelse) && !(op is Pipe) && is_plain(c, s, *lhs)
            && is_plain(c, s, *rhs),
        SExprKind::If { cond, then, else_ } => match (then.tail, else_) {
            (Some(t), Some(x)) => then.stmts.len() == 0 && !(expr_layout(c, s, e.id) is Unit)
                && is_plain(c, s, *cond) && is_plain(c, s, *t) && is_plain(c, s, *x),
            _ => false,
        },
        SExprKind::Block(b) => match b.tail {
            Some(t) => b.stmts.len() == 0 && is_plain(c, s, *t),
            None => false,
        },
        _ => false,
    }
}

// ---- how lowering goes on ----

pub open spec fn at(s: SLower) -> int {
    s.b.current.0 as int
}

/// The instructions of the current block.
pub open spec fn now(s: SLower) -> Seq<SInst> {
    s.b.blocks[at(s)].insts
}

pub open spec fn is_open(s: SLower) -> bool {
    !s.terminated && 0 <= at(s) < s.b.blocks.len()
}

pub open spec fn starts(a: Seq<SInst>, b: Seq<SInst>) -> bool {
    a.len() <= b.len() && forall|k: int| 0 <= k < a.len() ==> b[k] == a[k]
}

/// Whether lowering has gone on from one state to another: only what stood in the current
/// block has been added to, and new blocks.
pub open spec fn goes_on(s: SLower, t: SLower) -> bool {
    &&& s.b.blocks.len() <= t.b.blocks.len()
    &&& s.b.values.len() <= t.b.values.len()
    &&& t.scope == s.scope
    &&& t.subst == s.subst
    &&& t.loops == s.loops
    &&& is_open(t)
    &&& at(t) == at(s) || at(t) >= s.b.blocks.len()
    &&& forall|i: int|
        0 <= i < s.b.blocks.len() && i != at(s) ==> #[trigger] t.b.blocks[i] == s.b.blocks[i]
    &&& starts(now(s), t.b.blocks[at(s)].insts)
    &&& t.b.blocks[at(s)].params == s.b.blocks[at(s)].params
}

/// Whether a function has what lowering from one state to another has put in.
pub open spec fn holds(g: SFunc, s: SLower, t: SLower) -> bool {
    &&& t.b.blocks.len() <= g.blocks.len()
    &&& forall|i: int|
        0 <= i < t.b.blocks.len() && (i == at(s) || i >= s.b.blocks.len()) ==> if i == at(t) {
            starts(t.b.blocks[i].insts, (#[trigger] g.blocks[i]).insts) && g.blocks[i].params
                == t.b.blocks[i].params
        } else {
            g.blocks[i] == t.b.blocks[i]
        }
}

/// There are numbers for the blocks and values of a state.
pub open spec fn is_numbered(t: SLower) -> bool {
    t.b.blocks.len() <= u32::MAX && t.b.values.len() <= u32::MAX
}

pub(super) proof fn lemma_on(s: SLower, t: SLower, u: SLower)
    requires
        is_open(s),
        goes_on(s, t),
        goes_on(t, u),
    ensures
        goes_on(s, u),
{
}

pub(super) proof fn lemma_holds_parts(g: SFunc, s: SLower, t: SLower, u: SLower)
    requires
        is_open(s),
        goes_on(s, t),
        goes_on(t, u),
        holds(g, s, u),
    ensures
        holds(g, s, t),
        holds(g, t, u),
{
    assert forall|i: int|
        0 <= i < t.b.blocks.len() && (i == at(s) || i >= s.b.blocks.len()) implies if i == at(t) {
        starts(t.b.blocks[i].insts, (#[trigger] g.blocks[i]).insts) && g.blocks[i].params
            == t.b.blocks[i].params
    } else {
        g.blocks[i] == t.b.blocks[i]
    } by {
        if i != at(t) {
            assert(u.b.blocks[i] == t.b.blocks[i]);
            assert(i != at(u));
        }
    }
}

pub(super) proof fn lemma_emit_on(s: SLower, op: SOp, r: SRepr, ty: TyId)
    requires
        is_open(s),
    ensures
        goes_on(s, l_emit(s, op, r, ty).0),
        l_emit(s, op, r, ty).0.b.values.len() == s.b.values.len() + 1,
        l_emit(s, op, r, ty).0.b.blocks.len() == s.b.blocks.len(),
        at(l_emit(s, op, r, ty).0) == at(s),
        now(l_emit(s, op, r, ty).0) == now(s).push(
            SInst { result: Some(l_emit(s, op, r, ty).1), op },
        ),
        l_emit(s, op, r, ty).1 == Value(s.b.values.len() as u32),
{
    reveal(l_emit);
}

// ---- two ways that meet ----

/// A branch from `s`, the two ways that it leads to, and the state `t` where they meet: one
/// way is lowered from `x1` to `y1` and has the value `v1`, the other from `x2` to `y2` with
/// `v2`. Where they meet, `out` holds the one or the other.
pub struct Fork {
    pub s: SLower,
    pub cond: Value,
    /// Whether the first way is that of a true condition.
    pub yes: bool,
    pub out: Value,
    pub x1: SLower,
    pub y1: SLower,
    pub v1: Value,
    pub x2: SLower,
    pub y2: SLower,
    pub v2: Value,
    pub t: SLower,
}

pub open spec fn one(f: Fork) -> int {
    f.s.b.blocks.len() as int
}

pub open spec fn other(f: Fork) -> int {
    f.s.b.blocks.len() as int + 1
}

pub open spec fn meet(f: Fork) -> int {
    f.s.b.blocks.len() as int + 2
}

pub open spec fn to(b: int, args: Seq<Value>) -> STarget {
    STarget { to: BlockId(b as u32), args }
}

/// The blocks after the branch.
pub open spec fn branched(f: Fork) -> Seq<SBlock> {
    let b = f.s.b.blocks;
    let (yes, no) = if f.yes {
        (one(f), other(f))
    } else {
        (other(f), one(f))
    };
    b.update(
        at(f.s),
        SBlock {
            term: STerm::Branch { cond: f.cond, then: to(yes, seq![]), els: to(no, seq![]) },
            ..b[at(f.s)]
        },
    ).push(empty_block(BlockId(one(f) as u32))).push(
        empty_block(BlockId(other(f) as u32)),
    ).push(SBlock { params: seq![f.out], ..empty_block(BlockId(meet(f) as u32)) })
}

/// The blocks of a state, with the current one ended by a jump to where the ways meet.
pub open spec fn met(f: Fork, y: SLower, v: Value) -> Seq<SBlock> {
    y.b.blocks.update(
        at(y),
        SBlock { term: STerm::Jump(to(meet(f), seq![v])), ..y.b.blocks[at(y)] },
    )
}

pub open spec fn is_fork(f: Fork) -> bool {
    &&& is_open(f.s)
    &&& is_numbered(f.t)
    &&& f.out == Value(f.s.b.values.len() as u32)
    &&& f.s.b.values.len() < f.x1.b.values.len()
    &&& f.x1.b.blocks == branched(f)
    &&& at(f.x1) == one(f)
    &&& is_open(f.x1)
    &&& goes_on(f.x1, f.y1)
    &&& f.x2.b.blocks == met(f, f.y1, f.v1)
    &&& f.x2.b.values.len() == f.y1.b.values.len()
    &&& at(f.x2) == other(f)
    &&& is_open(f.x2)
    &&& goes_on(f.x2, f.y2)
    &&& f.t.b.blocks == met(f, f.y2, f.v2)
    &&& f.t.b.values.len() == f.y2.b.values.len()
    &&& at(f.t) == meet(f)
    &&& !f.t.terminated
    &&& f.t.scope == f.s.scope
    &&& f.t.subst == f.s.subst
    &&& f.t.loops == f.s.loops
}

/// What a fork has come to, block by block.
pub(super) proof fn lemma_fork_shape(f: Fork)
    requires
        is_fork(f),
    ensures
        f.y1.b.blocks.len() >= f.s.b.blocks.len() + 3,
        f.y2.b.blocks.len() >= f.y1.b.blocks.len(),
        f.t.b.blocks.len() == f.y2.b.blocks.len(),
        f.t.b.blocks[at(f.s)] == branched(f)[at(f.s)],
        f.t.b.blocks[meet(f)] == branched(f)[meet(f)],
        forall|i: int|
            0 <= i < f.s.b.blocks.len() && i != at(f.s) ==> f.t.b.blocks[i] == f.s.b.blocks[i],
        forall|i: int|
            i == one(f) || f.s.b.blocks.len() + 3 <= i < f.y1.b.blocks.len()
                ==> #[trigger] f.t.b.blocks[i] == met(f, f.y1, f.v1)[i],
        forall|i: int|
            i == other(f) || f.y1.b.blocks.len() <= i < f.y2.b.blocks.len()
                ==> #[trigger] f.t.b.blocks[i] == met(f, f.y2, f.v2)[i],
        goes_on(f.s, f.t),
{
    let m = f.s.b.blocks.len() as int;
    let b0 = branched(f);
    assert(b0.len() == m + 3);
    let (b1, b2, b3, b4) = (f.y1.b.blocks, f.x2.b.blocks, f.y2.b.blocks, f.t.b.blocks);
    assert(at(f.y1) == m || at(f.y1) >= m + 3);
    assert(at(f.y2) == m + 1 || at(f.y2) >= b2.len());
    assert(b2.len() == b1.len());
    assert(b4.len() == b3.len());
    assert forall|i: int| 0 <= i < m + 3 && i != m implies b1[i] == b0[i] by {
        assert(f.x1.b.blocks[i] == b0[i]);
    }
    assert forall|i: int| 0 <= i < b2.len() && i != m + 1 implies b3[i] == b2[i] by {
        assert(f.x2.b.blocks[i] == b2[i]);
    }
    assert forall|i: int| 0 <= i < b3.len() && i != at(f.y2) implies b4[i] == b3[i] by {}
    assert forall|i: int| 0 <= i < b2.len() && i != at(f.y1) implies b2[i] == b1[i] by {}
    assert(starts(now(f.s), b4[at(f.s)].insts));
}

pub(super) proof fn lemma_fork_holds(g: SFunc, f: Fork)
    requires
        is_fork(f),
        holds(g, f.s, f.t),
    ensures
        holds(g, f.x1, f.y1),
        holds(g, f.x2, f.y2),
        g.blocks[at(f.s)] == branched(f)[at(f.s)],
        g.blocks[meet(f)].params == seq![f.out],
        g.blocks[at(f.y1)] == met(f, f.y1, f.v1)[at(f.y1)],
        g.blocks[at(f.y2)] == met(f, f.y2, f.v2)[at(f.y2)],
        g.blocks[one(f)].params.len() == 0,
        g.blocks[other(f)].params.len() == 0,
        f.t.b.blocks.len() <= g.blocks.len(),
{
    lemma_fork_shape(f);
    let m = f.s.b.blocks.len() as int;
    assert(branched(f).len() == m + 3);
    assert(f.t.b.blocks[one(f)] == met(f, f.y1, f.v1)[one(f)]);
    assert(f.t.b.blocks[other(f)] == met(f, f.y2, f.v2)[other(f)]);
    assert(f.y1.b.blocks[one(f)].params == f.x1.b.blocks[one(f)].params);
    assert(f.y1.b.blocks[other(f)] == f.x1.b.blocks[other(f)]);
    assert(f.x2.b.blocks[other(f)] == f.y1.b.blocks[other(f)]);
    assert(f.y2.b.blocks[other(f)].params == f.x2.b.blocks[other(f)].params);
    assert forall|i: int|
        0 <= i < f.y1.b.blocks.len() && (i == at(f.x1) || i >= f.x1.b.blocks.len()) implies if i
        == at(f.y1) {
        starts(f.y1.b.blocks[i].insts, (#[trigger] g.blocks[i]).insts) && g.blocks[i].params
            == f.y1.b.blocks[i].params
    } else {
        g.blocks[i] == f.y1.b.blocks[i]
    } by {
        assert(f.t.b.blocks[i] == met(f, f.y1, f.v1)[i]);
        assert(i != meet(f));
    }
    assert forall|i: int|
        0 <= i < f.y2.b.blocks.len() && (i == at(f.x2) || i >= f.x2.b.blocks.len()) implies if i
        == at(f.y2) {
        starts(f.y2.b.blocks[i].insts, (#[trigger] g.blocks[i]).insts) && g.blocks[i].params
            == f.y2.b.blocks[i].params
    } else {
        g.blocks[i] == f.y2.b.blocks[i]
    } by {
        assert(f.t.b.blocks[i] == met(f, f.y2, f.v2)[i]);
        assert(i != meet(f));
    }
    assert(f.t.b.blocks[at(f.y1)] == met(f, f.y1, f.v1)[at(f.y1)]);
    assert(f.t.b.blocks[at(f.y2)] == met(f, f.y2, f.v2)[at(f.y2)]);
}

pub open spec fn place(s: SLower, h: Held) -> Place {
    Place { block: at(s), at: now(s).len() as int, holds: h }
}

/// Taking the way that a condition picks.
proof fn lemma_fork_runs(g: SFunc, f: Fork, h: Held, w: World, x: bool)
    requires
        is_fork(f),
        holds(g, f.s, f.t),
        h(f.cond) == Val::Bool(x),
    ensures
        x == f.yes ==> comes(g, place(f.s, h), Place { block: one(f), at: 0, holds: h }, w),
        x != f.yes ==> comes(g, place(f.s, h), Place { block: other(f), at: 0, holds: h }, w),
{
    lemma_fork_holds(g, f);
    lemma_fork_shape(f);
    let b = if x == f.yes {
        one(f)
    } else {
        other(f)
    };
    let t = to(b, seq![]);
    assert(held(t.args, h) =~= seq![]);
    assert(bound(g.blocks[b].params, held(t.args, h), h) == h);
    assert(along(g, t, h) == Spot::At(b, h));
    lemma_comes_next(g, place(f.s, h), Place { block: b, at: 0, holds: h }, w);
}

/// Coming to where the ways meet.
proof fn lemma_meets(g: SFunc, f: Fork, y: SLower, v: Value, h: Held, w: World)
    requires
        is_fork(f),
        holds(g, f.s, f.t),
        y == f.y1 && v == f.v1 || y == f.y2 && v == f.v2,
    ensures
        comes(g, place(y, h), place(f.t, with(h, f.out, h(v))), w),
{
    lemma_fork_holds(g, f);
    lemma_fork_shape(f);
    let t = to(meet(f), seq![v]);
    let (ps, xs) = (seq![f.out], held(t.args, h));
    assert(xs =~= seq![h(v)]);
    assert(ps.drop_last() =~= seq![]);
    assert(bound(ps.drop_last(), xs.take(0), h) == h);
    assert(bound(ps, xs, h) == with(h, f.out, h(v)));
    assert(along(g, t, h) == Spot::At(meet(f), with(h, f.out, h(v))));
    assert(now(f.t).len() == 0);
    lemma_comes_next(g, place(y, h), place(f.t, with(h, f.out, h(v))), w);
}

// ---- lowering a plain expression goes on ----

/// How much there is to an expression.
pub open spec fn weight(e: SExpr) -> nat
    decreases e,
{
    match e.kind {
        SExprKind::Unary { rhs, .. } => 1 + weight(*rhs),
        SExprKind::Binary { lhs, rhs, .. } => 1 + weight(*lhs) + weight(*rhs),
        SExprKind::If { cond, then, else_ } => match (then.tail, else_) {
            (Some(t), Some(x)) => 1 + weight(*cond) + weight(*t) + weight(*x),
            _ => 1,
        },
        SExprKind::Block(b) => match b.tail {
            Some(t) => 1 + weight(*t),
            None => 1,
        },
        _ => 1,
    }
}

/// There are numbers for what an expression is lowered to.
pub open spec fn has_room(s: SLower, e: SExpr) -> bool {
    s.b.blocks.len() + 3 * weight(e) <= u32::MAX && s.b.values.len() + 3 * weight(e) <= u32::MAX
}

pub open spec fn grew(s: SLower, t: SLower, k: nat) -> bool {
    t.b.blocks.len() <= s.b.blocks.len() + 3 * k && t.b.values.len() <= s.b.values.len() + 3 * k
}

proof fn lemma_same_names(s: SLower, t: SLower, k: int, name: Seq<char>)
    requires
        t.scope == s.scope.push(seq![]),
        0 <= k <= s.scope.len(),
    ensures
        in_frames(t.scope, name, k) == in_frames(s.scope, name, k),
    decreases k,
{
    if k > 0 {
        lemma_same_names(s, t, k - 1, name);
        assert(t.scope[k - 1] == s.scope[k - 1]);
    }
}

pub(super) proof fn lemma_found_pushed(s: SLower, t: SLower, name: Seq<char>)
    requires
        t.scope == s.scope.push(seq![]),
    ensures
        found(t, name) == found(s, name),
{
    lemma_same_names(s, t, s.scope.len() as int, name);
    assert(t.scope[s.scope.len() as int] == Seq::<(Seq<char>, Value)>::empty());
}

/// Whether names stand for the same in two states.
pub open spec fn alike(s: SLower, t: SLower) -> bool {
    t.subst == s.subst && forall|name: Seq<char>| #[trigger] found(t, name) == found(s, name)
}

pub(super) proof fn lemma_plain_alike(c: Ctx, s: SLower, t: SLower, e: SExpr)
    requires
        alike(s, t),
        is_plain(c, s, e),
    ensures
        is_plain(c, t, e),
    decreases e,
{
    match e.kind {
        SExprKind::Unary { rhs, .. } => lemma_plain_alike(c, s, t, *rhs),
        SExprKind::Binary { lhs, rhs, .. } => {
            lemma_plain_alike(c, s, t, *lhs);
            lemma_plain_alike(c, s, t, *rhs);
        },
        SExprKind::If { cond, then, else_ } => {
            lemma_plain_alike(c, s, t, *cond);
            lemma_plain_alike(c, s, t, *then.tail->0);
            lemma_plain_alike(c, s, t, *else_->0);
        },
        SExprKind::Block(b) => lemma_plain_alike(c, s, t, *b.tail->0),
        _ => {},
    }
}

pub(super) proof fn lemma_plain_assigns(c: Ctx, s: SLower, e: SExpr, x: Scan)
    requires
        is_plain(c, s, e),
    ensures
        assigning_expr(e, x) == x,
    decreases e,
{
    match e.kind {
        SExprKind::Unary { rhs, .. } => lemma_plain_assigns(c, s, *rhs, x),
        SExprKind::Binary { lhs, rhs, .. } => {
            lemma_plain_assigns(c, s, *lhs, x);
            lemma_plain_assigns(c, s, *rhs, x);
        },
        SExprKind::If { cond, then, else_ } => {
            lemma_plain_assigns(c, s, *cond, x);
            lemma_plain_assigns(c, s, *then.tail->0, x);
            lemma_plain_assigns(c, s, *else_->0, x);
            lemma_block_assigns(c, s, then, x);
            assert(assigning_opt(else_, x) == x);
        },
        SExprKind::Block(b) => {
            lemma_plain_assigns(c, s, *b.tail->0, x);
            lemma_block_assigns(c, s, b, x);
        },
        _ => {},
    }
}

proof fn lemma_block_assigns(c: Ctx, s: SLower, b: crate::syntax::SBlock, x: Scan)
    requires
        b.stmts.len() == 0,
        b.tail matches Some(t) && assigning_expr(*t, x) == x,
    ensures
        assigning_block(b, x) == x,
{
    assert(assigning_stmts(b.stmts, b.stmts.len() as int, x) == x);
    assert(assigning_opt(b.tail, x) == x);
}

spec fn and_or_fork(c: Ctx, n: nat, s: SLower, e: SExpr, ty: TyId) -> Fork {
    let (op, lhs, rhs) = (e.kind->Binary_op, e.kind->Binary_lhs, e.kind->Binary_rhs);
    let (s1, l) = x_expr(c, n, s, *lhs);
    let (s2, rhs_b) = l_block(s1);
    let (s3, short_b) = l_block(s2);
    let (s4, join) = l_block(s3);
    let (s5, out) = l_param(s4, join, SRepr::Bool, ty);
    let s6 = if op is And {
        l_branch(s5, l, rhs_b, short_b)
    } else {
        l_branch(s5, l, short_b, rhs_b)
    };
    let x1 = l_enter(s6, rhs_b);
    let (y1, v1) = x_expr(c, n, x1, *rhs);
    let x2 = l_enter(l_jump(y1, join, seq![v1]), short_b);
    let (y2, v2) = l_emit(x2, SOp::ConstBool(!(op is And)), SRepr::Bool, ty);
    Fork {
        s: s1,
        cond: l,
        yes: op is And,
        out,
        x1,
        y1,
        v1,
        x2,
        y2,
        v2,
        t: l_enter(l_jump(y2, join, seq![v2]), join),
    }
}

pub(super) proof fn lemma_branched(s: SLower, r: SRepr, ty: TyId, cond: Value, yes: bool)
    requires
        is_open(s),
        s.b.blocks.len() + 3 <= u32::MAX,
    ensures
        ({
            let (s2, a) = l_block(s);
            let (s3, b) = l_block(s2);
            let (s4, j) = l_block(s3);
            let (s5, out) = l_param(s4, j, r, ty);
            let s6 = if yes {
                l_branch(s5, cond, a, b)
            } else {
                l_branch(s5, cond, b, a)
            };
            let f = Fork {
                s,
                cond,
                yes,
                out,
                x1: s,
                y1: s,
                v1: out,
                x2: s,
                y2: s,
                v2: out,
                t: s,
            };
            &&& a == BlockId(one(f) as u32)
            &&& b == BlockId(other(f) as u32)
            &&& j == BlockId(meet(f) as u32)
            &&& out == Value(s.b.values.len() as u32)
            &&& s6.b.blocks == branched(f)
            &&& s6.b.values.len() == s.b.values.len() + 1
            &&& s6.scope == s.scope
            &&& s6.subst == s.subst
            &&& s6.loops == s.loops
            &&& s6.b.current == s.b.current
        }),
{
    reveal(l_block);
    reveal(l_param);
    reveal(l_end);
    let (s2, a) = l_block(s);
    let (s3, b) = l_block(s2);
    let (s4, j) = l_block(s3);
    let (s5, out) = l_param(s4, j, r, ty);
    let s6 = if yes {
        l_branch(s5, cond, a, b)
    } else {
        l_branch(s5, cond, b, a)
    };
    let f = Fork { s, cond, yes, out, x1: s, y1: s, v1: out, x2: s, y2: s, v2: out, t: s };
    assert(Seq::<Value>::empty().push(out) =~= seq![out]);
    assert(s6.b.blocks =~= branched(f));
}

/// The fork of `and` and `or` is one.
proof fn lemma_and_or_fork(c: Ctx, n: nat, s: SLower, e: SExpr, ty: TyId)
    requires
        e.kind matches SExprKind::Binary { op, .. } && (op is And || op is Or),
        ({
            let f = and_or_fork(c, n, s, e, ty);
            &&& is_open(f.s)
            &&& f.s.b.blocks.len() + 3 <= u32::MAX
            &&& f.s.b.values.len() + 1 <= u32::MAX
        }),
    ensures
        ({
            let f = and_or_fork(c, n, s, e, ty);
            &&& f.x1.b.blocks == branched(f)
            &&& at(f.x1) == one(f)
            &&& is_open(f.x1)
            &&& f.x1.b.values.len() == f.s.b.values.len() + 1
            &&& f.x1.b.blocks.len() == f.s.b.blocks.len() + 3
            &&& f.x1.scope == f.s.scope
            &&& f.x1.subst == f.s.subst
            &&& f.out == Value(f.s.b.values.len() as u32)
            &&& x_and_or(c, n, s, e, ty).1 == f.out
            &&& goes_on(f.x1, f.y1) && f.y1.b.values.len() + 1 <= u32::MAX && f.y1.b.blocks.len()
                <= u32::MAX ==> is_fork(f) && x_and_or(c, n, s, e, ty).0 == f.t
                && f.t.b.values.len() == f.y1.b.values.len() + 1 && f.t.b.blocks.len()
                == f.y1.b.blocks.len()
        }),
{
    let f = and_or_fork(c, n, s, e, ty);
    lemma_branched(f.s, SRepr::Bool, ty, f.cond, f.yes);
    reveal(l_enter);
    reveal(l_end);
    if goes_on(f.x1, f.y1) {
        assert(f.x2.b.blocks =~= met(f, f.y1, f.v1));
        assert(f.y1.b.blocks.len() >= f.s.b.blocks.len() + 3);
        assert(is_open(f.x2));
        lemma_emit_on(f.x2, SOp::ConstBool(!(e.kind->Binary_op is And)), SRepr::Bool, ty);
        assert(f.t.b.blocks =~= met(f, f.y2, f.v2));
    }
}

spec fn if_fork(c: Ctx, n: nat, s: SLower, e: SExpr, r: SRepr, ty: TyId) -> Fork {
    let (cond, then, els) = (e.kind->If_cond, e.kind->If_then.tail->0, e.kind->If_else_->0);
    let (s1, l) = x_expr(c, n, s, *cond);
    let (s2, then_b) = l_block(s1);
    let (s3, else_b) = l_block(s2);
    let (s4, join) = l_block(s3);
    let (s5, out) = l_param(s4, join, r, ty);
    let x1 = l_push(l_enter(l_branch(s5, l, then_b, else_b), then_b));
    let (y1, v1) = x_expr(c, n, x1, *then);
    let x2 = l_push(l_enter(l_pop(l_jump(y1, join, seq![v1])), else_b));
    let (y2, v2) = x_expr(c, n, x2, *els);
    Fork {
        s: s1,
        cond: l,
        yes: true,
        out,
        x1,
        y1,
        v1,
        x2,
        y2,
        v2,
        t: l_enter(l_pop(l_jump(y2, join, seq![v2])), join),
    }
}

proof fn lemma_if_fork(c: Ctx, n: nat, s: SLower, e: SExpr, r: SRepr, ty: TyId)
    requires
        e.kind is If,
        ({
            let f = if_fork(c, n, s, e, r, ty);
            &&& is_open(f.s)
            &&& f.s.b.blocks.len() + 3 <= u32::MAX
            &&& f.s.b.values.len() + 1 <= u32::MAX
        }),
    ensures
        ({
            let f = if_fork(c, n, s, e, r, ty);
            &&& f.x1.b.blocks == branched(f)
            &&& at(f.x1) == one(f)
            &&& is_open(f.x1)
            &&& f.x1.b.values.len() == f.s.b.values.len() + 1
            &&& f.x1.b.blocks.len() == f.s.b.blocks.len() + 3
            &&& f.x1.scope == f.s.scope.push(seq![])
            &&& f.x1.subst == f.s.subst
            &&& f.out == Value(f.s.b.values.len() as u32)
            &&& goes_on(f.x1, f.y1) ==> {
                &&& f.x2.b.blocks == met(f, f.y1, f.v1)
                &&& at(f.x2) == other(f)
                &&& is_open(f.x2)
                &&& f.x2.b.values.len() == f.y1.b.values.len()
                &&& f.x2.b.blocks.len() == f.y1.b.blocks.len()
                &&& f.x2.scope == f.s.scope.push(seq![])
                &&& f.x2.subst == f.s.subst
            }
            &&& goes_on(f.x1, f.y1) && goes_on(f.x2, f.y2) && f.y2.b.values.len() <= u32::MAX
                && f.y2.b.blocks.len() <= u32::MAX ==> is_fork(f) && f.t.b.values.len()
                == f.y2.b.values.len() && f.t.b.blocks.len() == f.y2.b.blocks.len()
        }),
{
    let f = if_fork(c, n, s, e, r, ty);
    lemma_branched(f.s, r, ty, f.cond, true);
    reveal(l_enter);
    reveal(l_end);
    reveal(l_push);
    reveal(l_pop);
    if goes_on(f.x1, f.y1) {
        assert(f.x2.b.blocks =~= met(f, f.y1, f.v1));
        assert(f.y1.b.blocks.len() >= f.s.b.blocks.len() + 3);
        assert(f.y1.scope.drop_last() =~= f.s.scope);
        assert(f.x2.scope =~= f.s.scope.push(seq![]));
        if goes_on(f.x2, f.y2) {
            assert(f.y2.scope.drop_last() =~= f.s.scope);
            assert(f.t.b.blocks =~= met(f, f.y2, f.v2));
        }
    }
}

/// `if` is lowered to its fork.
proof fn lemma_if_is_fork(c: Ctx, n: nat, s: SLower, e: SExpr, r: SRepr, ty: TyId)
    requires
        is_plain(c, s, e),
        e.kind is If,
        !(r is Unit),
        ({
            let f = if_fork(c, n, s, e, r, ty);
            !f.y1.terminated && !f.y2.terminated && !f.x1.terminated && !f.x2.terminated
        }),
    ensures
        x_if(c, n, s, e, r, ty) == (
            if_fork(c, n, s, e, r, ty).t,
            if_fork(c, n, s, e, r, ty).out,
        ),
{
    let f = if_fork(c, n, s, e, r, ty);
    let (cond, then, else_) = (e.kind->If_cond, e.kind->If_then, e.kind->If_else_);
    let empty = Seq::<Seq<char>>::empty();
    lemma_plain_assigns(c, s, *then.tail->0, fresh(empty));
    lemma_plain_assigns(c, s, *else_->0, fresh(empty));
    lemma_block_assigns(c, s, then, fresh(empty));
    assert(assigned_block(then, seq![]) == empty);
    assert(assigned_opt(else_, empty) == empty);
    let names = rebound(s, assigned_opt(else_, assigned_block(then, seq![])));
    assert(names =~= empty);
    let (s1, l) = x_expr(c, n, s, *cond);
    let (s2, then_b) = l_block(s1);
    let (s3, else_b) = l_block(s2);
    let (s4, join) = l_block(s3);
    let (s5, out) = l_param(s4, join, r, ty);
    assert(values_of(s5, names) =~= seq![]);
    assert(l_params(s5, join, values_of(s5, names), values_of(s5, names).len() as int) == (
        s5,
        Seq::<Value>::empty(),
    ));
    let s7 = l_enter(l_branch(s5, l, then_b, else_b), then_b);
    assert(x_body(c, n, l_push(s7), then) == (f.y1, Some(f.v1))) by {
        assert(x_stmts(c, n, l_push(s7), then.stmts, then.stmts.len() as int) == l_push(s7));
    }
    assert(passed(f.y1, Some(f.v1), names) =~= seq![f.v1]) by {
        assert(values_of(f.y1, names) =~= seq![]);
    }
    let s8 = x_then(c, n, s7, then, names, join, true, ty);
    assert(s8 == l_pop(l_jump(f.y1, join, seq![f.v1])));
    assert(passed(f.y2, Some(f.v2), names) =~= seq![f.v2]) by {
        assert(values_of(f.y2, names) =~= seq![]);
    }
    let s9 = x_else(c, n, l_enter(s8, else_b), else_, names, join, true);
    assert(s9 == l_pop(l_jump(f.y2, join, seq![f.v2])));
}

/// Lowering a plain expression goes on, and its value is a new one or one that is there.
pub(super) proof fn lemma_goes_on(c: Ctx, n: nat, s: SLower, e: SExpr)
    requires
        is_open(s),
        is_plain(c, s, e),
        has_room(s, e),
        binds_values(s),
    ensures
        goes_on(s, x_expr(c, n, s, e).0),
        grew(s, x_expr(c, n, s, e).0, weight(e)),
        x_expr(c, n, s, e).1.0 < x_expr(c, n, s, e).0.b.values.len(),
    decreases e,
{
    let r = expr_layout(c, s, e.id);
    let ty = expr_ty(c, e.id);
    let (t, v) = x_expr(c, n, s, e);
    match e.kind {
        SExprKind::Int(x) => lemma_emit_on(s, SOp::ConstI64(x as i64), r, ty),
        SExprKind::Bool(b) => lemma_emit_on(s, SOp::ConstBool(b), r, ty),
        SExprKind::Path(p) => {
            let u = found(s, p[0])->0;
            assert(x_value(c, n, s, e, r, ty) == x_path(c, n, s, e, r, ty));
            lemma_emit_on(s, SOp::Cast(u), r, ty);
        },
        SExprKind::Unary { op, rhs } => {
            lemma_goes_on(c, n, s, *rhs);
            let (s1, a) = x_expr(c, n, s, *rhs);
            let k = SOp::Prim(super::names::unary_prim(op), seq![a]);
            assert(x_expr(c, n, s, e) == x_operation(c, n, s, e, r, ty));
            assert(x_operation(c, n, s, e, r, ty) == l_emit(s1, k, r, ty));
            lemma_emit_on(s1, k, r, ty);
            lemma_on(s, s1, t);
        },
        SExprKind::Binary { op, lhs, rhs } => {
            lemma_goes_on(c, n, s, *lhs);
            let (s1, a) = x_expr(c, n, s, *lhs);
            assert(x_expr(c, n, s, e) == x_operation(c, n, s, e, r, ty));
            assert(x_operation(c, n, s, e, r, ty) == x_binary(c, n, s, e, r, ty));
            if op is And || op is Or {
                assert(x_binary(c, n, s, e, r, ty) == x_and_or(c, n, s, e, ty));
                let f = and_or_fork(c, n, s, e, ty);
                lemma_and_or_fork(c, n, s, e, ty);
                assert(alike(s, f.x1));
                lemma_plain_alike(c, s, f.x1, *rhs);
                lemma_binds_on(s, f.x1);
                lemma_goes_on(c, n, f.x1, *rhs);
                lemma_fork_shape(f);
                lemma_on(s, s1, t);
            } else {
                assert(alike(s, s1));
                lemma_plain_alike(c, s, s1, *rhs);
                lemma_binds_on(s, s1);
                lemma_goes_on(c, n, s1, *rhs);
                let (s2, b) = x_expr(c, n, s1, *rhs);
                let k = SOp::Prim(super::names::binary_prim(op)->0, seq![a, b]);
                assert(x_binary(c, n, s, e, r, ty) == l_emit(s2, k, r, ty));
                lemma_emit_on(s2, k, r, ty);
                lemma_on(s, s1, s2);
                lemma_on(s, s2, t);
            }
        },
        SExprKind::If { cond, then, else_ } => {
            lemma_goes_on(c, n, s, *cond);
            let f = if_fork(c, n, s, e, r, ty);
            lemma_if_fork(c, n, s, e, r, ty);
            assert forall|name: Seq<char>| #[trigger] found(f.x1, name) == found(s, name) by {
                lemma_found_pushed(f.s, f.x1, name);
                assert(found(f.s, name) == found(s, name));
            }
            lemma_plain_alike(c, s, f.x1, *then.tail->0);
            lemma_binds_on(s, f.x1);
            lemma_goes_on(c, n, f.x1, *then.tail->0);
            assert forall|name: Seq<char>| #[trigger] found(f.x2, name) == found(s, name) by {
                lemma_found_pushed(f.s, f.x2, name);
                assert(found(f.s, name) == found(s, name));
            }
            lemma_plain_alike(c, s, f.x2, *else_->0);
            lemma_binds_on(s, f.x2);
            lemma_goes_on(c, n, f.x2, *else_->0);
            lemma_if_is_fork(c, n, s, e, r, ty);
            assert(x_expr(c, n, s, e) == x_flow(c, n, s, e, r, ty));
            assert(x_flow(c, n, s, e, r, ty) == x_if(c, n, s, e, r, ty));
            lemma_fork_shape(f);
            lemma_on(s, f.s, t);
        },
        SExprKind::Block(b) => {
            lemma_block_is(c, n, s, e, r, ty);
            let x = l_push(s);
            lemma_pushed(s);
            lemma_plain_alike(c, s, x, *b.tail->0);
            lemma_binds_on(s, x);
            lemma_goes_on(c, n, x, *b.tail->0);
            lemma_popped(s, x_expr(c, n, x, *b.tail->0).0);
        },
        _ => {},
    }
}

/// Names stand for values that there are.
pub open spec fn binds_values(s: SLower) -> bool {
    forall|name: Seq<char>| (#[trigger] found(s, name)) matches Some(v) ==> v.0 < s.b.values.len()
}

pub(super) proof fn lemma_binds_on(s: SLower, t: SLower)
    requires
        binds_values(s),
        alike(s, t),
        s.b.values.len() <= t.b.values.len(),
    ensures
        binds_values(t),
{
    assert forall|name: Seq<char>| (#[trigger] found(t, name)) is Some implies (found(t, name)->0).0
        < t.b.values.len() by {
        assert(found(t, name) == found(s, name));
    }
}

pub(super) proof fn lemma_pushed(s: SLower)
    ensures
        alike(s, l_push(s)),
        l_push(s).b == s.b,
        l_push(s).terminated == s.terminated,
        l_push(s).scope == s.scope.push(seq![]),
{
    reveal(l_push);
    assert forall|name: Seq<char>| #[trigger] found(l_push(s), name) == found(s, name) by {
        lemma_found_pushed(s, l_push(s), name);
    }
}

proof fn lemma_popped(s: SLower, t: SLower)
    requires
        is_open(s),
        goes_on(l_push(s), t),
    ensures
        goes_on(s, l_pop(t)),
        l_pop(t).b == t.b,
{
    reveal(l_push);
    reveal(l_pop);
    assert(t.scope.drop_last() =~= s.scope);
}

/// A block that is no more than an expression is lowered as the expression is.
proof fn lemma_block_is(c: Ctx, n: nat, s: SLower, e: SExpr, r: SRepr, ty: TyId)
    requires
        is_plain(c, s, e),
        e.kind is Block,
        is_open(s),
    ensures
        ({
            let (t, v) = x_expr(c, n, l_push(s), *e.kind->Block_0.tail->0);
            x_expr(c, n, s, e) == (l_pop(t), v)
        }),
{
    let b = e.kind->Block_0;
    let empty = Seq::<Seq<char>>::empty();
    lemma_plain_assigns(c, s, *b.tail->0, fresh(empty));
    lemma_block_assigns(c, s, b, fresh(empty));
    let names = rebound(s, assigned_block(b, seq![]));
    assert(names =~= empty);
    lemma_pushed(s);
    let (t, v) = x_expr(c, n, l_push(s), *b.tail->0);
    assert(x_body(c, n, l_push(s), b) == (t, Some(v))) by {
        assert(x_stmts(c, n, l_push(s), b.stmts, b.stmts.len() as int) == l_push(s));
    }
    assert(x_block(c, n, s, b) == (l_pop(t), Some(v)));
}

// ---- running what it is lowered to ----

/// Whether what names stand for is held by the values that they are bound to.
pub open spec fn stand(s: SLower, h: Held, names: Names) -> bool {
    forall|name: Seq<char>|
        names(name) is Some ==> (#[trigger] found(s, name) matches Some(v) && names(name) == Some(
            h(v),
        ))
}

/// Whether a cast changes how a thing is laid out, and not what it is.
pub open spec fn casts_keep(w: World) -> bool {
    forall|x: Val| #[trigger] w(SOp::Cast(Value(0)), seq![x]) == x
}

/// Whether what the first `n` values hold is the same.
pub open spec fn kept(h: Held, k: Held, n: nat) -> bool {
    forall|v: Value| v.0 < n ==> #[trigger] k(v) == h(v)
}

pub(super) proof fn lemma_emit_runs(g: SFunc, s: SLower, op: SOp, r: SRepr, ty: TyId, h: Held, w: World)
    requires
        is_open(s),
        s.b.values.len() < u32::MAX,
        holds(g, s, l_emit(s, op, r, ty).0),
    ensures
        comes(
            g,
            place(s, h),
            place(
                l_emit(s, op, r, ty).0,
                with(h, Value(s.b.values.len() as u32), outcome(op, h, w)),
            ),
            w,
        ),
        kept(h, with(h, Value(s.b.values.len() as u32), outcome(op, h, w)), s.b.values.len()),
{
    lemma_emit_on(s, op, r, ty);
    let (t, v) = l_emit(s, op, r, ty);
    let i = SInst { result: Some(v), op };
    assert(now(t)[now(s).len() as int] == i);
    assert(g.blocks[at(s)].insts[now(s).len() as int] == i);
    lemma_comes_next(g, place(s, h), place(t, with(h, v, outcome(op, h, w))), w);
}

proof fn lemma_outcome_is(op: PrimOp, args: Seq<Value>, h: Held, w: World, v: Val)
    requires
        is_result(op, held(args, h), v),
    ensures
        outcome(SOp::Prim(op, args), h, w) == v,
{
    let x = choose|x: Val| is_result(op, held(args, h), x);
    results_are_unique(op, held(args, h), v, x);
}

proof fn lemma_operators_agree(op: BinOp, a: Val, b: Val, v: Val)
    requires
        of_both(op, a, b, v),
    ensures
        super::names::binary_prim(op) matches Some(p) && is_result(p, seq![a, b], v),
{
}

pub(super) proof fn lemma_kept_on(h: Held, k: Held, l: Held, m: nat, n: nat)
    requires
        kept(h, k, m),
        kept(k, l, n),
        m <= n,
    ensures
        kept(h, l, m),
{
    assert forall|v: Value| v.0 < m implies #[trigger] l(v) == h(v) by {
        assert(k(v) == h(v));
    }
}

pub(super) proof fn lemma_stand_on(s: SLower, t: SLower, h: Held, k: Held, names: Names)
    requires
        stand(s, h, names),
        binds_values(s),
        alike(s, t),
        kept(h, k, s.b.values.len()),
    ensures
        stand(t, k, names),
{
    assert forall|name: Seq<char>| names(name) is Some implies (#[trigger] found(
        t,
        name,
    ) matches Some(v) && names(name) == Some(k(v))) by {
        assert(found(t, name) == found(s, name));
        let v = found(s, name)->0;
        assert(k(v) == h(v));
    }
}

/// One way of a fork: from the branch, through the way, to where the ways meet.
pub(super) proof fn lemma_way(
    g: SFunc,
    f: Fork,
    h: Held,
    k: Held,
    w: World,
    x: SLower,
    y: SLower,
    v: Value,
    taken: bool,
)
    requires
        is_fork(f),
        holds(g, f.s, f.t),
        h(f.cond) == Val::Bool(taken),
        taken == f.yes ==> x == f.x1 && y == f.y1 && v == f.v1,
        taken != f.yes ==> x == f.x2 && y == f.y2 && v == f.v2,
        comes(g, place(x, h), place(y, k), w),
        kept(h, k, x.b.values.len()),
        now(x).len() == 0,
    ensures
        comes(g, place(f.s, h), place(f.t, with(k, f.out, k(v))), w),
        kept(h, with(k, f.out, k(v)), f.s.b.values.len()),
{
    lemma_fork_runs(g, f, h, w, taken);
    lemma_meets(g, f, y, v, k, w);
    lemma_comes_on(g, place(f.s, h), place(x, h), place(y, k), w);
    lemma_comes_on(g, place(f.s, h), place(y, k), place(f.t, with(k, f.out, k(v))), w);
    let l = with(k, f.out, k(v));
    assert forall|u: Value| u.0 < f.s.b.values.len() implies #[trigger] l(u) == h(u) by {
        assert(k(u) == h(u));
    }
}

pub(super) proof fn lemma_ways_begin(f: Fork)
    requires
        is_fork(f),
    ensures
        now(f.x1).len() == 0,
        now(f.x2).len() == 0,
        f.x1.b.values.len() >= f.s.b.values.len(),
        f.x2.b.values.len() >= f.s.b.values.len(),
{
    lemma_fork_shape(f);
    let m = f.s.b.blocks.len() as int;
    assert(branched(f).len() == m + 3);
    assert(f.y1.b.blocks[other(f)] == f.x1.b.blocks[other(f)]);
    assert(f.x2.b.blocks[other(f)] == f.y1.b.blocks[other(f)]);
}

/// A plain expression comes to what it means. In any function that holds what it is lowered
/// to, a run that is where lowering it began, with what names stand for held by their values,
/// comes to where lowering it ended; its value then holds what the expression means, and
/// what was held before is held still.
pub proof fn lowered_expressions_come_to_what_they_mean(
    c: Ctx,
    n: nat,
    s: SLower,
    e: SExpr,
    g: SFunc,
    h: Held,
    w: World,
    names: Names,
    x: Val,
) -> (k: Held)
    requires
        is_open(s),
        is_plain(c, s, e),
        has_room(s, e),
        binds_values(s),
        holds(g, s, x_expr(c, n, s, e).0),
        stand(s, h, names),
        casts_keep(w),
        meaning(e, names) == Some(x),
    ensures
        ({
            let (t, v) = x_expr(c, n, s, e);
            &&& comes(
                g,
                Place { block: at(s), at: now(s).len() as int, holds: h },
                Place { block: at(t), at: now(t).len() as int, holds: k },
                w,
            )
            &&& k(v) == x
            &&& kept(h, k, s.b.values.len())
            &&& v.0 < t.b.values.len()
            &&& goes_on(s, t)
        }),
    decreases e, 1int,
{
    let r = expr_layout(c, s, e.id);
    let ty = expr_ty(c, e.id);
    let (t, v) = x_expr(c, n, s, e);
    lemma_goes_on(c, n, s, e);
    match e.kind {
        SExprKind::Int(i) => {
            lemma_emit_runs(g, s, SOp::ConstI64(i as i64), r, ty, h, w);
            lemma_emit_on(s, SOp::ConstI64(i as i64), r, ty);
            with(h, Value(s.b.values.len() as u32), outcome(SOp::ConstI64(i as i64), h, w))
        },
        SExprKind::Bool(b) => {
            lemma_emit_runs(g, s, SOp::ConstBool(b), r, ty, h, w);
            lemma_emit_on(s, SOp::ConstBool(b), r, ty);
            with(h, Value(s.b.values.len() as u32), outcome(SOp::ConstBool(b), h, w))
        },
        SExprKind::Path(p) => {
            assert(x_value(c, n, s, e, r, ty) == x_path(c, n, s, e, r, ty));
            let u = found(s, p[0])->0;
            if super::state::repr_at(s, u) == r {
                lemma_comes_nowhere(g, place(s, h), w);
                h
            } else {
                let op = SOp::Cast(u);
                lemma_emit_runs(g, s, op, r, ty, h, w);
                lemma_emit_on(s, op, r, ty);
                assert(held(super::super::ssa::operands(op), h) =~= seq![h(u)]);
                with(h, Value(s.b.values.len() as u32), outcome(op, h, w))
            }
        },
        SExprKind::Unary { op, rhs } => {
            let (s1, a) = x_expr(c, n, s, *rhs);
            let y = meaning(*rhs, names)->0;
            lemma_goes_on(c, n, s, *rhs);
            let q = SOp::Prim(super::names::unary_prim(op), seq![a]);
            assert(x_expr(c, n, s, e) == x_operation(c, n, s, e, r, ty));
            assert(x_operation(c, n, s, e, r, ty) == l_emit(s1, q, r, ty));
            lemma_emit_on(s1, q, r, ty);
            lemma_holds_parts(g, s, s1, t);
            let k = lowered_expressions_come_to_what_they_mean(
                c,
                n,
                s,
                *rhs,
                g,
                h,
                w,
                names,
                y,
            );
            assert(held(seq![a], k) =~= seq![y]);
            lemma_outcome_is(super::names::unary_prim(op), seq![a], k, w, x);
            lemma_emit_runs(g, s1, q, r, ty, k, w);
            let l = with(k, Value(s1.b.values.len() as u32), outcome(q, k, w));
            lemma_comes_on(g, place(s, h), place(s1, k), place(t, l), w);
            lemma_kept_on(h, k, l, s.b.values.len(), s1.b.values.len());
            l
        },
        SExprKind::Binary { op, lhs, rhs } => {
            assert(x_expr(c, n, s, e) == x_operation(c, n, s, e, r, ty));
            assert(x_operation(c, n, s, e, r, ty) == x_binary(c, n, s, e, r, ty));
            if op is And || op is Or {
                assert(x_binary(c, n, s, e, r, ty) == x_and_or(c, n, s, e, ty));
                lemma_and_or_runs(c, n, s, e, g, h, w, names, x)
            } else {
                lemma_operator_runs(c, n, s, e, g, h, w, names, x)
            }
        },
        SExprKind::If { .. } => lemma_if_runs(c, n, s, e, g, h, w, names, x),
        SExprKind::Block(b) => {
            lemma_block_is(c, n, s, e, r, ty);
            let y = l_push(s);
            lemma_pushed(s);
            lemma_plain_alike(c, s, y, *b.tail->0);
            lemma_binds_on(s, y);
            lemma_goes_on(c, n, y, *b.tail->0);
            lemma_popped(s, x_expr(c, n, y, *b.tail->0).0);
            lemma_stand_on(s, y, h, h, names);
            assert(holds(g, y, x_expr(c, n, y, *b.tail->0).0));
            lowered_expressions_come_to_what_they_mean(
                c,
                n,
                y,
                *b.tail->0,
                g,
                h,
                w,
                names,
                x,
            )
        },
        _ => h,
    }
}

proof fn lemma_operator_runs(
    c: Ctx,
    n: nat,
    s: SLower,
    e: SExpr,
    g: SFunc,
    h: Held,
    w: World,
    names: Names,
    x: Val,
) -> (l: Held)
    requires
        is_open(s),
        is_plain(c, s, e),
        has_room(s, e),
        binds_values(s),
        holds(g, s, x_expr(c, n, s, e).0),
        stand(s, h, names),
        casts_keep(w),
        meaning(e, names) == Some(x),
        e.kind matches SExprKind::Binary { op, .. } && !(op is And) && !(op is Or),
    ensures
        comes(g, place(s, h), place(x_expr(c, n, s, e).0, l), w),
        l(x_expr(c, n, s, e).1) == x,
        kept(h, l, s.b.values.len()),
    decreases e, 0int,
{
    let r = expr_layout(c, s, e.id);
    let ty = expr_ty(c, e.id);
    let (t, v) = x_expr(c, n, s, e);
    let (op, lhs, rhs) = (e.kind->Binary_op, e.kind->Binary_lhs, e.kind->Binary_rhs);
    let (y, z) = (meaning(*lhs, names)->0, meaning(*rhs, names)->0);
    assert(of_both(op, y, z, x));
    let (s1, a) = x_expr(c, n, s, *lhs);
    lemma_goes_on(c, n, s, *lhs);
    assert(alike(s, s1));
    lemma_plain_alike(c, s, s1, *rhs);
    lemma_binds_on(s, s1);
    lemma_goes_on(c, n, s1, *rhs);
    let (s2, b) = x_expr(c, n, s1, *rhs);
    lemma_operators_agree(op, y, z, x);
    let p = super::names::binary_prim(op)->0;
    let q = SOp::Prim(p, seq![a, b]);
    assert(x_expr(c, n, s, e) == x_operation(c, n, s, e, r, ty));
    assert(x_operation(c, n, s, e, r, ty) == x_binary(c, n, s, e, r, ty));
    assert(x_binary(c, n, s, e, r, ty) == l_emit(s2, q, r, ty));
    lemma_emit_on(s2, q, r, ty);
    lemma_on(s, s1, s2);
    lemma_holds_parts(g, s, s2, t);
    lemma_holds_parts(g, s, s1, s2);
    let k = lowered_expressions_come_to_what_they_mean(c, n, s, *lhs, g, h, w, names, y);
    lemma_stand_on(s, s1, h, k, names);
    let l = lowered_expressions_come_to_what_they_mean(c, n, s1, *rhs, g, k, w, names, z);
    assert(l(a) == y);
    assert(held(seq![a, b], l) =~= seq![y, z]);
    lemma_outcome_is(p, seq![a, b], l, w, x);
    lemma_emit_runs(g, s2, q, r, ty, l, w);
    let m = with(l, Value(s2.b.values.len() as u32), outcome(q, l, w));
    lemma_comes_on(g, place(s, h), place(s1, k), place(s2, l), w);
    lemma_comes_on(g, place(s, h), place(s2, l), place(t, m), w);
    lemma_kept_on(h, k, l, s.b.values.len(), s1.b.values.len());
    lemma_kept_on(h, l, m, s.b.values.len(), s2.b.values.len());
    m
}

proof fn lemma_and_or_runs(
    c: Ctx,
    n: nat,
    s: SLower,
    e: SExpr,
    g: SFunc,
    h: Held,
    w: World,
    names: Names,
    x: Val,
) -> (l: Held)
    requires
        is_open(s),
        is_plain(c, s, e),
        has_room(s, e),
        binds_values(s),
        holds(g, s, x_and_or(c, n, s, e, expr_ty(c, e.id)).0),
        stand(s, h, names),
        casts_keep(w),
        meaning(e, names) == Some(x),
        e.kind matches SExprKind::Binary { op, .. } && (op is And || op is Or),
    ensures
        comes(g, place(s, h), place(x_and_or(c, n, s, e, expr_ty(c, e.id)).0, l), w),
        l(x_and_or(c, n, s, e, expr_ty(c, e.id)).1) == x,
        kept(h, l, s.b.values.len()),
    decreases e, 0int,
{
    let ty = expr_ty(c, e.id);
    let (op, lhs, rhs) = (e.kind->Binary_op, e.kind->Binary_lhs, e.kind->Binary_rhs);
    let f = and_or_fork(c, n, s, e, ty);
    lemma_goes_on(c, n, s, *lhs);
    lemma_and_or_fork(c, n, s, e, ty);
    assert(alike(s, f.x1));
    lemma_plain_alike(c, s, f.x1, *rhs);
    lemma_binds_on(s, f.x1);
    lemma_goes_on(c, n, f.x1, *rhs);
    lemma_fork_shape(f);
    lemma_ways_begin(f);
    lemma_holds_parts(g, s, f.s, f.t);
    lemma_fork_holds(g, f);
    let short = Val::Bool(op is Or);
    if meaning(*lhs, names) == Some(short) {
        let k = lowered_expressions_come_to_what_they_mean(c, n, s, *lhs, g, h, w, names, short);
        let q = SOp::ConstBool(!(op is And));
        lemma_emit_runs(g, f.x2, q, SRepr::Bool, ty, k, w);
        lemma_emit_on(f.x2, q, SRepr::Bool, ty);
        let l = with(k, Value(f.x2.b.values.len() as u32), outcome(q, k, w));
        lemma_way(g, f, k, l, w, f.x2, f.y2, f.v2, op is Or);
        let m = with(l, f.out, l(f.v2));
        lemma_comes_on(g, place(s, h), place(f.s, k), place(f.t, m), w);
        lemma_kept_on(h, k, m, s.b.values.len(), f.s.b.values.len());
        m
    } else {
        let long = Val::Bool(op is And);
        let k = lowered_expressions_come_to_what_they_mean(c, n, s, *lhs, g, h, w, names, long);
        lemma_stand_on(s, f.x1, h, k, names);
        let l = lowered_expressions_come_to_what_they_mean(
            c,
            n,
            f.x1,
            *rhs,
            g,
            k,
            w,
            names,
            x,
        );
        lemma_way(g, f, k, l, w, f.x1, f.y1, f.v1, op is And);
        let m = with(l, f.out, l(f.v1));
        lemma_comes_on(g, place(s, h), place(f.s, k), place(f.t, m), w);
        lemma_kept_on(h, k, m, s.b.values.len(), f.s.b.values.len());
        m
    }
}

proof fn lemma_if_runs(
    c: Ctx,
    n: nat,
    s: SLower,
    e: SExpr,
    g: SFunc,
    h: Held,
    w: World,
    names: Names,
    x: Val,
) -> (l: Held)
    requires
        is_open(s),
        is_plain(c, s, e),
        has_room(s, e),
        binds_values(s),
        holds(g, s, x_expr(c, n, s, e).0),
        stand(s, h, names),
        casts_keep(w),
        meaning(e, names) == Some(x),
        e.kind is If,
    ensures
        comes(g, place(s, h), place(x_expr(c, n, s, e).0, l), w),
        l(x_expr(c, n, s, e).1) == x,
        kept(h, l, s.b.values.len()),
    decreases e, 0int,
{
    let r = expr_layout(c, s, e.id);
    let ty = expr_ty(c, e.id);
    let (cond, then, els) = (e.kind->If_cond, e.kind->If_then.tail->0, e.kind->If_else_->0);
    let f = if_fork(c, n, s, e, r, ty);
    lemma_goes_on(c, n, s, *cond);
    lemma_if_fork(c, n, s, e, r, ty);
    assert forall|name: Seq<char>| #[trigger] found(f.x1, name) == found(s, name) by {
        lemma_found_pushed(f.s, f.x1, name);
        assert(found(f.s, name) == found(s, name));
    }
    lemma_plain_alike(c, s, f.x1, *then);
    lemma_binds_on(s, f.x1);
    lemma_goes_on(c, n, f.x1, *then);
    assert forall|name: Seq<char>| #[trigger] found(f.x2, name) == found(s, name) by {
        lemma_found_pushed(f.s, f.x2, name);
        assert(found(f.s, name) == found(s, name));
    }
    lemma_plain_alike(c, s, f.x2, *els);
    lemma_binds_on(s, f.x2);
    lemma_goes_on(c, n, f.x2, *els);
    lemma_if_is_fork(c, n, s, e, r, ty);
    assert(x_expr(c, n, s, e) == x_flow(c, n, s, e, r, ty));
    assert(x_flow(c, n, s, e, r, ty) == x_if(c, n, s, e, r, ty));
    lemma_fork_shape(f);
    lemma_ways_begin(f);
    lemma_holds_parts(g, s, f.s, f.t);
    lemma_fork_holds(g, f);
    if meaning(*cond, names) == Some(Val::Bool(true)) {
        let k = lowered_expressions_come_to_what_they_mean(
            c,
            n,
            s,
            *cond,
            g,
            h,
            w,
            names,
            Val::Bool(true),
        );
        lemma_stand_on(s, f.x1, h, k, names);
        let l = lowered_expressions_come_to_what_they_mean(
            c,
            n,
            f.x1,
            *then,
            g,
            k,
            w,
            names,
            x,
        );
        lemma_way(g, f, k, l, w, f.x1, f.y1, f.v1, true);
        let m = with(l, f.out, l(f.v1));
        lemma_comes_on(g, place(s, h), place(f.s, k), place(f.t, m), w);
        lemma_kept_on(h, k, m, s.b.values.len(), f.s.b.values.len());
        m
    } else {
        let k = lowered_expressions_come_to_what_they_mean(
            c,
            n,
            s,
            *cond,
            g,
            h,
            w,
            names,
            Val::Bool(false),
        );
        lemma_stand_on(s, f.x2, h, k, names);
        let l = lowered_expressions_come_to_what_they_mean(
            c,
            n,
            f.x2,
            *els,
            g,
            k,
            w,
            names,
            x,
        );
        lemma_way(g, f, k, l, w, f.x2, f.y2, f.v2, false);
        let m = with(l, f.out, l(f.v2));
        lemma_comes_on(g, place(s, h), place(f.s, k), place(f.t, m), w);
        lemma_kept_on(h, k, m, s.b.values.len(), f.s.b.values.len());
        m
    }
}

} // verus!
