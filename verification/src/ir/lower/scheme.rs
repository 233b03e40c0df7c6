//! How each form is lowered.
//!
//! Every rule takes the state before it and gives the state after it, with the value that
//! the form has. `n` is how many constants may still be put in for each other: a constant is
//! lowered again wherever it is used, and what the checker accepts has no constant that
//! leads back to itself.

use super::super::repr::{canonical, combine, SRepr};
use super::super::ssa::{BlockId, PrimOp, SOp, STarget, STerm, Value};
use super::calls::{
    l_cast_assert, l_cast_soften, l_dispatch, l_error_message, l_escape, l_panic, l_type_test,
    use_from,
};
use super::describe::described;
use super::forms::{
    l_bind_pattern, l_break, l_call_fn, l_check, l_closure_call, l_concat, l_continue, l_elem,
    l_field, l_lambda, l_params, l_params2, l_pop_handler, l_pop_loop, l_push_handler, l_push_loop,
    l_text,
};
use super::names::{
    binary_prim, comparing_prim, mangled, to_string_symbol, unary_prim, variant_scalar,
};
use super::scan::{assigned_block, assigned_opt, assigned_round};
use super::state::{
    carried, expr_layout, expr_ty, found, l_bind, l_bind_all, l_block, l_branch, l_dead, l_emit,
    l_end, l_enter, l_jump, l_note, l_param, l_pop, l_push, l_unit, l_value, layout_in, repr_at,
    ty_at, values_of, Ctx, SLoop, SLower,
};
use super::subst::last_name;
use crate::ast::{AssertKind, BinOp, CastForm, TryForm};
use crate::check::fact;
use crate::syntax::{
    names_of, Node, SBlock, SCatchArm, SElem, SExpr, SExprKind, SFieldInit, SFieldPat, SMatchArm,
    SPattern, SPatternKind, SStmt, SStmtKind, SStrPart,
};
use crate::types::TyId;
use vstd::prelude::*;

verus! {

/// The variables that a block rebinds and that are bound around it.
pub open spec fn rebound(s: SLower, names: Seq<Seq<char>>) -> Seq<Seq<char>> {
    carried(s, names, names.len() as int)
}

/// An expression.
///
/// One that does not come back (`break`, `return` and the like) has a value that nothing
/// computes, and what follows it is dead.
pub open spec fn x_expr(c: Ctx, n: nat, s: SLower, e: SExpr) -> (SLower, Value)
    decreases n, e, 9int,
{
    let r = expr_layout(c, s, e.id);
    let ty = expr_ty(c, e.id);
    match e.kind {
        SExprKind::Int(_) | SExprKind::Float(_) | SExprKind::Bool(_) | SExprKind::Null
        | SExprKind::Atom(_) | SExprKind::Rune(_) => l_literal(c, s, e, r, ty),
        SExprKind::Lambda { .. } => l_lambda(s, e, r, ty),
        SExprKind::Str(_) | SExprKind::Path(_) | SExprKind::Tuple(_) | SExprKind::List(_)
        | SExprKind::RecordLit { .. } => x_value(c, n, s, e, r, ty),
        SExprKind::Unary { .. } | SExprKind::Binary { .. } | SExprKind::Call { .. }
        | SExprKind::Index { .. } | SExprKind::Field { .. } | SExprKind::Is { .. }
        | SExprKind::As { .. } => x_operation(c, n, s, e, r, ty),
        SExprKind::Break(_) | SExprKind::Continue | SExprKind::Return(_) | SExprKind::Throw(
            _,
        ) => x_leave(c, n, s, e, ty),
        _ => x_flow(c, n, s, e, r, ty),
    }
}

/// A literal that stands for itself.
pub open spec fn l_literal(c: Ctx, s: SLower, e: SExpr, r: SRepr, ty: TyId) -> (SLower, Value) {
    match e.kind {
        SExprKind::Int(x) => l_emit(s, SOp::ConstI64(x as i64), r, ty),
        SExprKind::Float(_) => {
            let bits = match fact(c.facts.floats@, e.id) {
                Some(b) => b,
                None => 0,
            };
            l_emit(s, SOp::ConstF64(bits), r, ty)
        },
        SExprKind::Bool(b) => l_emit(s, SOp::ConstBool(b), r, ty),
        SExprKind::Atom(a) => l_emit(s, SOp::ConstAtom(a), r, ty),
        SExprKind::Null => l_emit(s, SOp::ConstNull, r, ty),
        _ => l_note(s, "expr"@, r, ty),
    }
}

/// The forms that say what runs.
pub open spec fn x_flow(c: Ctx, n: nat, s: SLower, e: SExpr, r: SRepr, ty: TyId) -> (SLower, Value)
    decreases n, e, 8int,
{
    match e.kind {
        SExprKind::If { .. } => x_if(c, n, s, e, r, ty),
        SExprKind::Match { .. } => x_match(c, n, s, e, r, ty),
        SExprKind::Loop { .. } => x_loop(c, n, s, e, r, ty),
        SExprKind::While { .. } => x_while(c, n, s, e, ty),
        SExprKind::For { .. } => x_for(c, n, s, e, ty),
        SExprKind::Block(b) => {
            let (s1, t) = x_block(c, n, s, b);
            match t {
                Some(v) => (s1, v),
                None => l_unit(s1, ty),
            }
        },
        SExprKind::Try { .. } => x_try(c, n, s, e, r, ty),
        _ => x_assert(c, n, s, e, ty),
    }
}

/// The first `k` expressions, in order.
pub open spec fn x_exprs(c: Ctx, n: nat, s: SLower, es: Seq<SExpr>, k: int) -> (SLower, Seq<Value>)
    decreases n, es, k,
{
    if 0 < k <= es.len() {
        let (s1, vs) = x_exprs(c, n, s, es, k - 1);
        let (s2, v) = x_expr(c, n, s1, es[k - 1]);
        (s2, vs.push(v))
    } else {
        (s, seq![])
    }
}

// ---- literals and names ----

pub open spec fn x_value(c: Ctx, n: nat, s: SLower, e: SExpr, r: SRepr, ty: TyId) -> (SLower, Value)
    decreases n, e, 8int,
{
    match e.kind {
        SExprKind::Str(_) => x_str(c, n, s, e, r, ty),
        SExprKind::Path(_) => x_path(c, n, s, e, r, ty),
        SExprKind::Tuple(es) => {
            let (s1, vs) = x_exprs(c, n, s, es, es.len() as int);
            l_emit(s1, SOp::MakeTuple(vs), r, ty)
        },
        SExprKind::List(_) => x_list(c, n, s, e, r, ty),
        _ => x_record(c, n, s, e, r, ty),
    }
}

/// A string: a constant, or its parts put together from left to right.
pub open spec fn x_str(c: Ctx, n: nat, s: SLower, e: SExpr, r: SRepr, ty: TyId) -> (SLower, Value)
    decreases n, e, 5int,
{
    match e.kind {
        SExprKind::Str(parts) => if parts.len() == 0 {
            l_emit(s, SOp::ConstStr(""@), r, ty)
        } else if parts.len() == 1 && parts[0] is Text {
            l_emit(s, SOp::ConstStr(parts[0]->Text_0), r, ty)
        } else {
            x_parts(c, n, s, parts, parts.len() as int, ty)
        },
        _ => l_unit(s, ty),
    }
}

/// One part of a string: text, or an expression turned into text the way that the checker
/// found, or as its base type is.
pub open spec fn x_part(c: Ctx, n: nat, s: SLower, p: SStrPart, ty: TyId) -> (SLower, Value)
    decreases n, p, 0int,
{
    match p {
        SStrPart::Text(t) => l_text(s, t, ty),
        SStrPart::Interp(e) => {
            let (s1, v) = x_expr(c, n, s, e);
            match fact(c.facts.interp_calls@, e.id) {
                Some(res) => l_dispatch(c, s1, res, "to_string"@, seq![v], SRepr::Str, ty),
                None => match to_string_symbol(repr_at(s1, v)) {
                    Some(sym) => l_emit(
                        s1,
                        SOp::Native { symbol: sym, args: seq![v] },
                        SRepr::Str,
                        ty,
                    ),
                    None => (s1, v),
                },
            }
        },
    }
}

pub open spec fn x_parts(c: Ctx, n: nat, s: SLower, ps: Seq<SStrPart>, k: int, ty: TyId) -> (
    SLower,
    Value,
)
    decreases n, ps, k,
{
    if 1 < k <= ps.len() {
        let (s1, acc) = x_parts(c, n, s, ps, k - 1, ty);
        let (s2, v) = x_part(c, n, s1, ps[k - 1], ty);
        l_concat(s2, acc, v, ty)
    } else if k == 1 && ps.len() >= 1 {
        x_part(c, n, s, ps[0], ty)
    } else {
        l_unit(s, ty)
    }
}

/// A name: a local, a constant, or a function as a value. A local that is known to be of a
/// narrower type here is converted.
pub open spec fn x_path(c: Ctx, n: nat, s: SLower, e: SExpr, r: SRepr, ty: TyId) -> (SLower, Value)
    decreases n, e, 5int,
{
    match e.kind {
        SExprKind::Path(p) => {
            let local = if p.len() == 1 {
                found(s, p[0])
            } else {
                None
            };
            match local {
                Some(v) => if repr_at(s, v) == r {
                    (s, v)
                } else {
                    l_emit(s, SOp::Cast(v), r, ty)
                },
                None => match use_from(c.env.const_names@, s.module, p, 0) {
                    Some(i) => if n > 0 {
                        x_expr(c, (n - 1) as nat, s, c.env.consts[i as int].sem())
                    } else {
                        l_note(s, "path-as-value"@, r, ty)
                    },
                    None => match use_from(c.env.fn_names@, s.module, p, 0) {
                        Some(i) => {
                            let m = c.env.fns[i as int];
                            l_emit(
                                s,
                                SOp::MakeClosure {
                                    func: mangled(names_of(m.module@), m.name@),
                                    captures: seq![],
                                },
                                r,
                                ty,
                            )
                        },
                        None => l_note(s, "path-as-value"@, r, ty),
                    },
                },
            }
        },
        _ => l_unit(s, ty),
    }
}

pub open spec fn has_spread(es: Seq<SElem>) -> bool {
    exists|i: int| 0 <= i < es.len() && (#[trigger] es[i]) is Spread
}

pub open spec fn x_elem(c: Ctx, n: nat, s: SLower, e: SElem) -> (SLower, Value)
    decreases n, e, 0int,
{
    match e {
        SElem::Value(x) => x_expr(c, n, s, x),
        SElem::Spread(x) => x_expr(c, n, s, x),
    }
}

pub open spec fn x_elems(c: Ctx, n: nat, s: SLower, es: Seq<SElem>, k: int) -> (SLower, Seq<Value>)
    decreases n, es, k,
{
    if 0 < k <= es.len() {
        let (s1, vs) = x_elems(c, n, s, es, k - 1);
        let (s2, v) = x_elem(c, n, s1, es[k - 1]);
        (s2, vs.push(v))
    } else {
        (s, seq![])
    }
}

pub open spec fn layouts_at(s: SLower, vs: Seq<Value>) -> Seq<SRepr> {
    Seq::new(vs.len(), |i: int| repr_at(s, vs[i]))
}

/// A list. Where its type is erased, it is built as what it is and then erased.
pub open spec fn x_list(c: Ctx, n: nat, s: SLower, e: SExpr, r: SRepr, ty: TyId) -> (SLower, Value)
    decreases n, e, 5int,
{
    match e.kind {
        SExprKind::List(es) => if has_spread(es) {
            l_note(s, "list spread"@, r, ty)
        } else {
            let (s1, vs) = x_elems(c, n, s, es, es.len() as int);
            if r is Any {
                let elem = combine(canonical(layouts_at(s1, vs)));
                let (s2, built) = l_emit(
                    s1,
                    SOp::MakeList(vs),
                    SRepr::List(Box::new(elem)),
                    ty,
                );
                l_emit(s2, SOp::Cast(built), r, ty)
            } else {
                l_emit(s1, SOp::MakeList(vs), r, ty)
            }
        },
        _ => l_unit(s, ty),
    }
}

/// The first field from `k` on that has a name.
pub open spec fn init_from(fs: Seq<SFieldInit>, name: Seq<char>, k: int) -> Option<int>
    decreases fs.len() - k,
{
    if k >= fs.len() {
        None
    } else if fs[k].name == name {
        Some(k)
    } else {
        init_from(fs, name, k + 1)
    }
}

/// The fields of a record in the order of its layout, whatever order they were written in.
pub open spec fn field_order(fs: Seq<SFieldInit>, r: SRepr) -> Seq<Seq<char>> {
    match r {
        SRepr::Record { fields, .. } => Seq::new(fields.len(), |i: int| fields[i].0),
        _ => Seq::new(fs.len(), |i: int| fs[i].name),
    }
}

/// The first `k` fields in an order. One that was not written is null.
pub open spec fn x_fields(
    c: Ctx,
    n: nat,
    s: SLower,
    fs: Seq<SFieldInit>,
    order: Seq<Seq<char>>,
    k: int,
    ty: TyId,
) -> (SLower, Seq<(Seq<char>, Value)>)
    decreases n, fs, k,
{
    if 0 < k <= order.len() {
        let (s1, built) = x_fields(c, n, s, fs, order, k - 1, ty);
        let (s2, v) = match init_from(fs, order[k - 1], 0) {
            Some(i) => if 0 <= i < fs.len() {
                x_expr(c, n, s1, fs[i].value)
            } else {
                l_unit(s1, ty)
            },
            None => l_emit(s1, SOp::ConstNull, SRepr::Null, ty),
        };
        (s2, built.push((order[k - 1], v)))
    } else {
        (s, seq![])
    }
}

pub open spec fn record_name(path: Option<Seq<Seq<char>>>) -> Option<Seq<char>> {
    match path {
        Some(p) => if p.len() > 0 {
            Some(p.last())
        } else {
            None
        },
        None => None,
    }
}

pub open spec fn x_record(c: Ctx, n: nat, s: SLower, e: SExpr, r: SRepr, ty: TyId) -> (
    SLower,
    Value,
)
    decreases n, e, 5int,
{
    match e.kind {
        SExprKind::RecordLit { path, fields, spread } => if spread is Some {
            l_note(s, "record spread"@, r, ty)
        } else {
            let order = field_order(fields, r);
            let (s1, built) = x_fields(c, n, s, fields, order, order.len() as int, ty);
            l_emit(s1, SOp::MakeRecord { name: record_name(path), fields: built }, r, ty)
        },
        _ => l_unit(s, ty),
    }
}

// ---- operations ----

pub open spec fn x_operation(c: Ctx, n: nat, s: SLower, e: SExpr, r: SRepr, ty: TyId) -> (
    SLower,
    Value,
)
    decreases n, e, 8int,
{
    match e.kind {
        SExprKind::Unary { op, rhs } => {
            let (s1, v) = x_expr(c, n, s, *rhs);
            l_emit(s1, SOp::Prim(unary_prim(op), seq![v]), r, ty)
        },
        SExprKind::Binary { .. } => x_binary(c, n, s, e, r, ty),
        SExprKind::Call { args, .. } => {
            let (s1, vs) = x_exprs(c, n, s, args, args.len() as int);
            x_call(c, n, s1, e, vs, r, ty)
        },
        SExprKind::Index { base, index } => {
            let (s1, b) = x_expr(c, n, s, *base);
            let (s2, i) = x_expr(c, n, s1, *index);
            l_emit(s2, SOp::Index { base: b, index: i, covered: None }, r, ty)
        },
        SExprKind::Field { base, name } => {
            let (s1, b) = x_expr(c, n, s, *base);
            l_emit(s1, SOp::Field { base: b, field: name }, r, ty)
        },
        SExprKind::Is { lhs, ty: spec } => {
            let (s1, v) = x_expr(c, n, s, *lhs);
            l_type_test(c, s1, v, spec, e.id)
        },
        SExprKind::As { form, lhs, ty: spec } => {
            let (s1, v) = x_expr(c, n, s, *lhs);
            match form {
                CastForm::Plain => l_emit(s1, SOp::Cast(v), r, ty),
                CastForm::Assert => l_cast_assert(c, s1, e.id, v, spec, r, ty),
                CastForm::Soften => l_cast_soften(c, s1, e.id, v, spec, r, ty),
            }
        },
        _ => l_unit(s, ty),
    }
}

pub open spec fn x_binary(c: Ctx, n: nat, s: SLower, e: SExpr, r: SRepr, ty: TyId) -> (
    SLower,
    Value,
)
    decreases n, e, 6int,
{
    match e.kind {
        SExprKind::Binary { op, lhs, rhs } => match binary_prim(op) {
            Some(p) => {
                let (s1, a) = x_expr(c, n, s, *lhs);
                let (s2, b) = x_expr(c, n, s1, *rhs);
                l_emit(s2, SOp::Prim(p, seq![a, b]), r, ty)
            },
            None => match op {
                BinOp::And => x_and_or(c, n, s, e, ty),
                BinOp::Or => x_and_or(c, n, s, e, ty),
                BinOp::Orelse => x_orelse(c, n, s, e, r, ty),
                _ => x_pipe(c, n, s, e, r, ty),
            },
        },
        _ => l_unit(s, ty),
    }
}

/// `and` and `or`: the right side runs only where the left does not decide.
pub open spec fn x_and_or(c: Ctx, n: nat, s: SLower, e: SExpr, ty: TyId) -> (SLower, Value)
    decreases n, e, 5int,
{
    match e.kind {
        SExprKind::Binary { op, lhs, rhs } => {
            let (s1, l) = x_expr(c, n, s, *lhs);
            let (s2, rhs_b) = l_block(s1);
            let (s3, short_b) = l_block(s2);
            let (s4, join) = l_block(s3);
            let (s5, out) = l_param(s4, join, SRepr::Bool, ty);
            let s6 = if op is And {
                l_branch(s5, l, rhs_b, short_b)
            } else {
                l_branch(s5, l, short_b, rhs_b)
            };
            let (s7, v) = x_expr(c, n, l_enter(s6, rhs_b), *rhs);
            let s8 = if s7.terminated {
                s7
            } else {
                l_jump(s7, join, seq![v])
            };
            let (s9, short) = l_emit(
                l_enter(s8, short_b),
                SOp::ConstBool(!(op is And)),
                SRepr::Bool,
                ty,
            );
            (l_enter(l_jump(s9, join, seq![short]), join), out)
        },
        _ => l_unit(s, ty),
    }
}

/// `a orelse b`: `b` where `a` is null.
pub open spec fn x_orelse(c: Ctx, n: nat, s: SLower, e: SExpr, r: SRepr, ty: TyId) -> (
    SLower,
    Value,
)
    decreases n, e, 5int,
{
    match e.kind {
        SExprKind::Binary { op, lhs, rhs } => {
            let (s1, l) = x_expr(c, n, s, *lhs);
            let (s2, none) = l_emit(s1, SOp::IsNull(l), SRepr::Bool, ty_at(s1, l));
            let (s3, none_b) = l_block(s2);
            let (s4, some_b) = l_block(s3);
            let (s5, join) = l_block(s4);
            let (s6, out) = l_param(s5, join, r, ty);
            let s7 = l_enter(l_branch(s6, none, none_b, some_b), none_b);
            let (s8, v) = x_expr(c, n, s7, *rhs);
            let s9 = if s8.terminated {
                s8
            } else {
                l_jump(s8, join, seq![v])
            };
            let (s10, unwrapped) = l_emit(l_enter(s9, some_b), SOp::Cast(l), r, ty);
            (l_enter(l_jump(s10, join, seq![unwrapped]), join), out)
        },
        _ => l_unit(s, ty),
    }
}

/// `a |> f(b)` is `f(a, b)`.
pub open spec fn x_pipe(c: Ctx, n: nat, s: SLower, e: SExpr, r: SRepr, ty: TyId) -> (SLower, Value)
    decreases n, e, 5int,
{
    match e.kind {
        SExprKind::Binary { op, lhs, rhs } => match rhs.kind {
            SExprKind::Call { args, .. } => {
                let (s1, v) = x_expr(c, n, s, *lhs);
                let (s2, vs) = x_exprs(c, n, s1, args, args.len() as int);
                x_call(c, n, s2, *rhs, seq![v] + vs, r, ty)
            },
            _ => l_note(s, "pipe rhs"@, r, ty),
        },
        _ => l_unit(s, ty),
    }
}

pub open spec fn called_name(callee: SExpr) -> Seq<char> {
    match callee.kind {
        SExprKind::Path(p) => last_name(p),
        _ => ""@,
    }
}

/// A call, its arguments lowered already. Who is called is decided in this order: by what
/// the checker resolved; by a local of that name, which is a closure; by a function of that
/// name; and otherwise by the value of the callee, which is a closure.
pub open spec fn x_call(
    c: Ctx,
    n: nat,
    s: SLower,
    call: SExpr,
    args: Seq<Value>,
    r: SRepr,
    ty: TyId,
) -> (SLower, Value)
    decreases n, call, 7int,
{
    match call.kind {
        SExprKind::Call { callee, .. } => match fact(c.facts.calls@, call.id) {
            Some(res) => l_dispatch(c, s, res, called_name(*callee), args, r, ty),
            None => {
                let path = match callee.kind {
                    SExprKind::Path(p) => Some(p),
                    _ => None,
                };
                let local = match path {
                    Some(p) => if p.len() == 1 {
                        found(s, p[0])
                    } else {
                        None
                    },
                    None => None,
                };
                let named = match path {
                    Some(p) => use_from(c.env.fn_names@, s.module, p, 0),
                    None => None,
                };
                match (local, named) {
                    (Some(v), _) => l_closure_call(c, s, callee.id, v, args, r, ty),
                    (None, Some(i)) => l_call_fn(
                        c,
                        s,
                        c.env.fns[i as int],
                        call.id,
                        args,
                        r,
                        ty,
                    ),
                    (None, None) => {
                        let (s1, v) = x_expr(c, n, s, *callee);
                        l_closure_call(c, s1, callee.id, v, args, r, ty)
                    },
                }
            },
        },
        _ => l_unit(s, ty),
    }
}

// ---- leaving ----

/// The forms that do not come back.
pub open spec fn x_leave(c: Ctx, n: nat, s: SLower, e: SExpr, ty: TyId) -> (SLower, Value)
    decreases n, e, 8int,
{
    let s1 = match e.kind {
        SExprKind::Break(v) => {
            let (a, x) = match v {
                Some(v) => x_expr(c, n, s, *v),
                None => l_emit(s, SOp::ConstNull, SRepr::Null, ty),
            };
            l_break(a, x)
        },
        SExprKind::Continue => l_continue(s),
        SExprKind::Return(v) => match v {
            Some(v) => {
                let (a, x) = x_expr(c, n, s, *v);
                l_end(a, STerm::Ret(Some(x)))
            },
            None => l_end(s, STerm::Ret(None)),
        },
        SExprKind::Throw(x) => {
            let (a, err) = x_expr(c, n, s, *x);
            l_raise(a, err, ty)
        },
        _ => s,
    };
    l_value(l_dead(s1), SRepr::Never, ty)
}

/// Send an error to the innermost handler, or out of the function.
pub open spec fn l_raise(s: SLower, err: Value, ty: TyId) -> SLower {
    if s.handlers.len() > 0 {
        l_jump(s, s.handlers.last(), seq![err])
    } else {
        l_escape(s, err, ty)
    }
}

// ---- blocks ----

pub open spec fn x_stmt(c: Ctx, n: nat, s: SLower, x: SStmt) -> SLower
    decreases n, x, 0int,
{
    match x.kind {
        SStmtKind::Let { pat, value, .. } => {
            let (s1, v) = x_expr(c, n, s, value);
            let (s2, w) = match fact(c.facts.declared@, value.id) {
                Some(ty) => {
                    let want = layout_in(c, s1, ty);
                    if want == repr_at(s1, v) {
                        (s1, v)
                    } else {
                        l_emit(s1, SOp::Cast(v), want, ty)
                    }
                },
                None => (s1, v),
            };
            l_bind_pattern(s2, pat, w)
        },
        SStmtKind::Assign { name, value } => {
            let (s1, v) = x_expr(c, n, s, value);
            l_bind(s1, name, v)
        },
        SStmtKind::Expr(e) => x_expr(c, n, s, e).0,
        SStmtKind::Error => s,
    }
}

/// The first `k` statements, up to one that does not come back.
pub open spec fn x_stmts(c: Ctx, n: nat, s: SLower, xs: Seq<SStmt>, k: int) -> SLower
    decreases n, xs, k,
{
    if 0 < k <= xs.len() {
        let s1 = x_stmts(c, n, s, xs, k - 1);
        if s1.terminated {
            s1
        } else {
            x_stmt(c, n, s1, xs[k - 1])
        }
    } else {
        s
    }
}

/// The statements of a block and its last expression, in the scope that is there.
pub open spec fn x_body(c: Ctx, n: nat, s: SLower, b: SBlock) -> (SLower, Option<Value>)
    decreases n, b, 4int,
{
    let s1 = x_stmts(c, n, s, b.stmts, b.stmts.len() as int);
    match b.tail {
        Some(e) => if s1.terminated {
            (s1, None)
        } else {
            let (s2, v) = x_expr(c, n, s1, *e);
            (s2, Some(v))
        },
        None => (s1, None),
    }
}

/// A block, in a scope of its own. What it rebinds stays rebound after it.
pub open spec fn x_block(c: Ctx, n: nat, s: SLower, b: SBlock) -> (SLower, Option<Value>)
    decreases n, b, 5int,
{
    let names = rebound(s, assigned_block(b, seq![]));
    let (s1, v) = x_body(c, n, l_push(s), b);
    let vs = values_of(s1, names);
    (l_bind_all(l_pop(s1), names, vs, names.len() as int), v)
}

// ---- choices ----

/// `if`: the two ways meet in a block that takes the value, if there is one, and every
/// variable that either way rebinds.
pub open spec fn x_if(c: Ctx, n: nat, s: SLower, e: SExpr, r: SRepr, ty: TyId) -> (SLower, Value)
    decreases n, e, 5int,
{
    match e.kind {
        SExprKind::If { cond, then, else_ } => {
            let names = rebound(s, assigned_opt(else_, assigned_block(then, seq![])));
            let (s1, cv) = x_expr(c, n, s, *cond);
            let (s2, then_b) = l_block(s1);
            let (s3, else_b) = l_block(s2);
            let (s4, join) = l_block(s3);
            let produces = !(r is Unit) && else_ is Some;
            let (s5, out) = if produces {
                let (a, p) = l_param(s4, join, r, ty);
                (a, Some(p))
            } else {
                (s4, None)
            };
            let (s6, ps) = l_params(s5, join, values_of(s5, names), values_of(s5, names).len() as int);
            let s7 = l_enter(l_branch(s6, cv, then_b, else_b), then_b);
            let s8 = x_then(c, n, s7, then, names, join, produces, ty);
            let s9 = x_else(c, n, l_enter(s8, else_b), else_, names, join, produces);
            let s10 = l_bind_all(l_enter(s9, join), names, ps, names.len() as int);
            match out {
                Some(v) => (s10, v),
                None => l_unit(s10, ty),
            }
        },
        _ => l_unit(s, ty),
    }
}

/// What a way passes on: its value, if it has one, and what variables stand for.
pub open spec fn passed(s: SLower, v: Option<Value>, names: Seq<Seq<char>>) -> Seq<Value> {
    (match v {
        Some(v) => seq![v],
        None => seq![],
    }) + values_of(s, names)
}

pub open spec fn x_then(
    c: Ctx,
    n: nat,
    s: SLower,
    b: SBlock,
    names: Seq<Seq<char>>,
    join: BlockId,
    produces: bool,
    ty: TyId,
) -> SLower
    decreases n, b, 6int,
{
    let (s1, t) = x_body(c, n, l_push(s), b);
    let s2 = if s1.terminated {
        s1
    } else if produces {
        let (a, v) = match t {
            Some(v) => (s1, v),
            None => l_unit(s1, ty),
        };
        l_jump(a, join, passed(a, Some(v), names))
    } else {
        l_jump(s1, join, passed(s1, None, names))
    };
    l_pop(s2)
}

pub open spec fn x_else(
    c: Ctx,
    n: nat,
    s: SLower,
    e: Option<Box<SExpr>>,
    names: Seq<Seq<char>>,
    join: BlockId,
    produces: bool,
) -> SLower
    decreases n, e, 6int,
{
    match e {
        Some(x) => {
            let (s1, v) = x_expr(c, n, l_push(s), *x);
            let s2 = if s1.terminated {
                s1
            } else {
                let given = if produces {
                    Some(v)
                } else {
                    None
                };
                l_jump(s1, join, passed(s1, given, names))
            };
            l_pop(s2)
        },
        None => l_jump(s, join, passed(s, None, names)),
    }
}

/// `match`: each arm in turn tests the subject, and the first that fits runs.
pub open spec fn x_match(c: Ctx, n: nat, s: SLower, e: SExpr, r: SRepr, ty: TyId) -> (SLower, Value)
    decreases n, e, 5int,
{
    match e.kind {
        SExprKind::Match { scrutinee, arms } => {
            let (s1, subj) = x_expr(c, n, s, *scrutinee);
            let (s2, join) = l_block(s1);
            let (s3, out) = if r is Unit {
                (s2, None)
            } else {
                let (a, p) = l_param(s2, join, r, ty);
                (a, Some(p))
            };
            let s4 = x_arms(c, n, s3, arms, arms.len() as int, subj, join, out is Some);
            let s5 = l_enter(l_end(s4, STerm::Unreachable), join);
            match out {
                Some(v) => (s5, v),
                None => l_unit(s5, ty),
            }
        },
        _ => l_unit(s, ty),
    }
}

pub open spec fn x_arms(
    c: Ctx,
    n: nat,
    s: SLower,
    xs: Seq<SMatchArm>,
    k: int,
    subj: Value,
    join: BlockId,
    produces: bool,
) -> SLower
    decreases n, xs, k,
{
    if 0 < k <= xs.len() {
        let s1 = x_arms(c, n, s, xs, k - 1, subj, join, produces);
        x_arm(c, n, s1, xs[k - 1], subj, join, produces)
    } else {
        s
    }
}

pub open spec fn x_arm(
    c: Ctx,
    n: nat,
    s: SLower,
    a: SMatchArm,
    subj: Value,
    join: BlockId,
    produces: bool,
) -> SLower
    decreases n, a, 0int,
{
    let (s1, matched) = l_block(s);
    let (s2, next) = l_block(s1);
    let (s3, test) = x_test(c, n, s2, subj, a.pat);
    let s4 = match test {
        Some(t) => l_branch(s3, t, matched, next),
        None => l_jump(s3, matched, seq![]),
    };
    let s5 = l_bind_pattern(l_push(l_enter(s4, matched)), a.pat, subj);
    let s6 = match a.guard {
        Some(g) => {
            let (x, gv) = x_expr(c, n, s5, g);
            let (y, body_b) = l_block(x);
            l_enter(l_branch(y, gv, body_b, next), body_b)
        },
        None => s5,
    };
    let (s7, v) = x_expr(c, n, s6, a.body);
    let s8 = if s7.terminated {
        s7
    } else if produces {
        l_jump(s7, join, seq![v])
    } else {
        l_jump(s7, join, seq![])
    };
    l_enter(l_pop(s8), next)
}

/// Both of two tests.
pub open spec fn l_both(s: SLower, a: Option<Value>, b: Option<Value>) -> (SLower, Option<Value>) {
    match (a, b) {
        (Some(x), Some(y)) => {
            let (s1, v) = l_emit(
                s,
                SOp::Prim(PrimOp::And, seq![x, y]),
                SRepr::Bool,
                ty_at(s, y),
            );
            (s1, Some(v))
        },
        (None, Some(y)) => (s, Some(y)),
        (_, None) => (s, a),
    }
}

/// Whether a value fits a pattern, if there is anything to test.
pub open spec fn x_test(c: Ctx, n: nat, s: SLower, subj: Value, p: SPattern) -> (
    SLower,
    Option<Value>,
)
    decreases n, p, 3int,
{
    match p.kind {
        SPatternKind::Is(spec) => {
            let (s1, v) = l_type_test(c, s, subj, spec, p.id);
            (s1, Some(v))
        },
        SPatternKind::Literal(lit) => {
            let (s1, v) = x_literal_test(c, n, s, subj, *lit);
            (s1, Some(v))
        },
        SPatternKind::Record { path, fields, .. } => {
            let (s1, t) = match record_name(path) {
                Some(name) => {
                    let (a, v) = l_emit(
                        s,
                        SOp::IsVariant {
                            value: subj,
                            variant: name,
                            tested: super::calls::tested_repr(c, s, p.id),
                        },
                        SRepr::Bool,
                        ty_at(s, subj),
                    );
                    (a, Some(v))
                },
                None => (s, None),
            };
            x_field_tests(c, n, s1, subj, fields, fields.len() as int, t)
        },
        SPatternKind::Tuple(ps) => x_elem_tests(c, n, s, subj, ps, ps.len() as int),
        _ => (s, None),
    }
}

pub open spec fn x_field_test(
    c: Ctx,
    n: nat,
    s: SLower,
    subj: Value,
    f: SFieldPat,
    t: Option<Value>,
) -> (SLower, Option<Value>)
    decreases n, f, 0int,
{
    match f.pat {
        Some(p) => {
            let (s1, v) = l_field(s, subj, f.name);
            let (s2, u) = x_test(c, n, s1, v, p);
            l_both(s2, t, u)
        },
        None => (s, t),
    }
}

pub open spec fn x_field_tests(
    c: Ctx,
    n: nat,
    s: SLower,
    subj: Value,
    fs: Seq<SFieldPat>,
    k: int,
    t: Option<Value>,
) -> (SLower, Option<Value>)
    decreases n, fs, k,
{
    if 0 < k <= fs.len() {
        let (s1, u) = x_field_tests(c, n, s, subj, fs, k - 1, t);
        x_field_test(c, n, s1, subj, fs[k - 1], u)
    } else {
        (s, t)
    }
}

pub open spec fn x_elem_tests(
    c: Ctx,
    n: nat,
    s: SLower,
    subj: Value,
    ps: Seq<SPattern>,
    k: int,
) -> (SLower, Option<Value>)
    decreases n, ps, k,
{
    if 0 < k <= ps.len() {
        let (s1, t) = x_elem_tests(c, n, s, subj, ps, k - 1);
        let (s2, v) = l_elem(s1, subj, k - 1);
        let (s3, u) = x_test(c, n, s2, v, ps[k - 1]);
        l_both(s3, t, u)
    } else {
        (s, None)
    }
}

/// Whether a value is a literal. Null is tested for; anything else is compared.
pub open spec fn x_literal_test(c: Ctx, n: nat, s: SLower, subj: Value, lit: SExpr) -> (
    SLower,
    Value,
)
    decreases n, lit, 10int,
{
    let bty = ty_at(s, subj);
    if lit.kind is Null {
        l_emit(s, SOp::IsNull(subj), SRepr::Bool, bty)
    } else {
        let scalar = variant_scalar(repr_at(s, subj));
        let (s1, v) = match lit.kind {
            SExprKind::Int(x) => l_emit(s, SOp::ConstI64(x as i64), scalar, bty),
            SExprKind::Bool(b) => l_emit(s, SOp::ConstBool(b), scalar, bty),
            SExprKind::Atom(a) => l_emit(s, SOp::ConstAtom(a), SRepr::Tag, bty),
            _ => x_expr(c, n, s, lit),
        };
        l_emit(s1, SOp::Prim(PrimOp::Eq, seq![subj, v]), SRepr::Bool, bty)
    }
}

// ---- loops ----

/// `loop`: the variables that the body rebinds are parameters of the loop's header, and of
/// its exit.
pub open spec fn x_loop(c: Ctx, n: nat, s: SLower, e: SExpr, r: SRepr, ty: TyId) -> (SLower, Value)
    decreases n, e, 5int,
{
    match e.kind {
        SExprKind::Loop { body } => {
            let names = rebound(s, assigned_block(body, seq![]));
            let inits = values_of(s, names);
            let (s1, header) = l_block(s);
            let (s2, exit) = l_block(s1);
            let (s3, out) = if r is Unit {
                (s2, None)
            } else {
                let (a, p) = l_param(s2, exit, r, ty);
                (a, Some(p))
            };
            let (s4, hs, xs) = l_params2(s3, header, exit, inits, inits.len() as int);
            let s5 = l_push(l_enter(l_jump(s4, header, inits), header));
            let s6 = l_bind_all(s5, names, hs, names.len() as int);
            let l = SLoop {
                continue_target: header,
                exit,
                carried: names,
                has_value: out is Some,
            };
            let s7 = x_round(c, n, l_push_loop(s6, l), body);
            let s8 = l_bind_all(l_pop(l_pop_loop(s7)), names, xs, names.len() as int);
            let s9 = l_enter(s8, exit);
            match out {
                Some(v) => (s9, v),
                None => l_unit(s9, ty),
            }
        },
        _ => l_unit(s, ty),
    }
}

/// The body of a loop, and round again.
pub open spec fn x_round(c: Ctx, n: nat, s: SLower, b: SBlock) -> SLower
    decreases n, b, 6int,
{
    let s1 = x_body(c, n, s, b).0;
    if s1.terminated {
        s1
    } else {
        l_continue(s1)
    }
}

/// `while`: the header tests the condition.
pub open spec fn x_while(c: Ctx, n: nat, s: SLower, e: SExpr, ty: TyId) -> (SLower, Value)
    decreases n, e, 5int,
{
    match e.kind {
        SExprKind::While { cond, body } => {
            let names = rebound(s, assigned_block(body, seq![]));
            let inits = values_of(s, names);
            let (s1, header) = l_block(s);
            let (s2, body_b) = l_block(s1);
            let (s3, exit) = l_block(s2);
            let (s4, hs, xs) = l_params2(s3, header, exit, inits, inits.len() as int);
            let s5 = l_push(l_enter(l_jump(s4, header, inits), header));
            let s6 = l_bind_all(s5, names, hs, names.len() as int);
            let (s7, cv) = x_expr(c, n, s6, *cond);
            let s8 = l_end(
                s7,
                STerm::Branch {
                    cond: cv,
                    then: STarget { to: body_b, args: seq![] },
                    els: STarget { to: exit, args: hs },
                },
            );
            let l = SLoop { continue_target: header, exit, carried: names, has_value: false };
            let s9 = x_round(c, n, l_push_loop(l_enter(s8, body_b), l), body);
            let s10 = l_bind_all(l_pop(l_pop_loop(s9)), names, xs, names.len() as int);
            l_unit(l_enter(s10, exit), ty)
        },
        _ => l_unit(s, ty),
    }
}

/// `for`: an index runs from zero to the length of the list. `continue` goes to a block that
/// adds one to the index.
pub open spec fn x_for(c: Ctx, n: nat, s: SLower, e: SExpr, ty: TyId) -> (SLower, Value)
    decreases n, e, 5int,
{
    match e.kind {
        SExprKind::For { pat, iter, body } => {
            let (s1, list) = x_expr(c, n, s, *iter);
            let elem = match repr_at(s1, list) {
                SRepr::List(x) => *x,
                _ => SRepr::Any,
            };
            let (s2, len) = l_emit(
                s1,
                SOp::Native { symbol: "neon_list_len"@, args: seq![list] },
                SRepr::I64,
                ty,
            );
            let (s3, zero) = l_emit(s2, SOp::ConstI64(0), SRepr::I64, ty);
            x_for_loop(c, n, s3, e, list, elem, len, zero, ty)
        },
        _ => l_unit(s, ty),
    }
}

/// Add one to the index of a `for`, and go round.
pub open spec fn l_latch(s: SLower, header: BlockId, index: Value, ls: Seq<Value>, ty: TyId) -> SLower {
    let (s1, one) = l_emit(s, SOp::ConstI64(1), SRepr::I64, ty);
    let (s2, next) = l_emit(s1, SOp::Prim(PrimOp::Add, seq![index, one]), SRepr::I64, ty);
    l_jump(s2, header, seq![next] + ls)
}

/// The header of a `for`: the index is below the length, or the loop is left.
pub open spec fn l_for_header(
    s: SLower,
    names: Seq<Seq<char>>,
    hs: Seq<Value>,
    index: Value,
    len: Value,
    body_b: BlockId,
    exit: BlockId,
    ty: TyId,
) -> SLower {
    let s1 = l_bind_all(s, names, hs, names.len() as int);
    let (s2, cv) = l_emit(s1, SOp::Prim(PrimOp::Lt, seq![index, len]), SRepr::Bool, ty);
    l_end(
        s2,
        STerm::Branch {
            cond: cv,
            then: STarget { to: body_b, args: seq![] },
            els: STarget { to: exit, args: hs },
        },
    )
}

/// One round of a `for`: the element is read and bound, and the body runs.
pub open spec fn x_for_round(
    c: Ctx,
    n: nat,
    s: SLower,
    e: SExpr,
    list: Value,
    index: Value,
    elem: SRepr,
    l: SLoop,
    ty: TyId,
) -> SLower
    decreases n, e, 3int,
{
    match e.kind {
        SExprKind::For { pat, body, .. } => {
            let (s1, x) = l_emit(
                l_push(s),
                SOp::Index { base: list, index, covered: None },
                elem,
                ty,
            );
            let s2 = x_round(c, n, l_push_loop(l_bind_pattern(s1, pat, x), l), body);
            l_pop(l_pop_loop(s2))
        },
        _ => s,
    }
}

pub open spec fn x_for_loop(
    c: Ctx,
    n: nat,
    s: SLower,
    e: SExpr,
    list: Value,
    elem: SRepr,
    len: Value,
    zero: Value,
    ty: TyId,
) -> (SLower, Value)
    decreases n, e, 4int,
{
    match e.kind {
        SExprKind::For { pat, body, .. } => {
            let names = rebound(s, assigned_round(pat, body));
            let inits = values_of(s, names);
            let (s4, header) = l_block(s);
            let (s5, body_b) = l_block(s4);
            let (s6, latch) = l_block(s5);
            let (s7, exit) = l_block(s6);
            let (s8, index) = l_param(s7, header, SRepr::I64, ty);
            let (s9, hs, xs) = l_params2(s8, header, exit, inits, inits.len() as int);
            let (s10, ls) = l_params(s9, latch, inits, inits.len() as int);
            let s11 = l_push(l_enter(l_jump(s10, header, seq![zero] + inits), header));
            let s12 = l_for_header(s11, names, hs, index, len, body_b, exit, ty);
            let l = SLoop { continue_target: latch, exit, carried: names, has_value: false };
            let s13 = x_for_round(c, n, l_enter(s12, body_b), e, list, index, elem, l, ty);
            let s14 = l_pop(l_latch(l_enter(s13, latch), header, index, ls, ty));
            let s15 = l_bind_all(s14, names, xs, names.len() as int);
            l_unit(l_enter(s15, exit), ty)
        },
        _ => l_unit(s, ty),
    }
}

// ---- errors ----

/// `try`: errors of the body go to a handler, which passes them on, gives null, panics, or
/// runs a `catch`.
pub open spec fn x_try(c: Ctx, n: nat, s: SLower, e: SExpr, r: SRepr, ty: TyId) -> (SLower, Value)
    decreases n, e, 5int,
{
    match e.kind {
        SExprKind::Try { form, body, catch } => {
            let (s1, join) = l_block(s);
            let (s2, out) = l_param(s1, join, r, ty);
            let (s3, handler) = l_block(s2);
            let err_ty = match fact(c.facts.caught@, e.id) {
                Some(t) => t,
                None => ty,
            };
            let (s4, err) = l_param(s3, handler, layout_in(c, s3, err_ty), err_ty);
            let (s5, v) = x_expr(c, n, l_push_handler(s4, handler), *body);
            let s6 = if s5.terminated {
                s5
            } else {
                l_jump(s5, join, seq![v])
            };
            let s7 = l_enter(l_pop_handler(s6), handler);
            let s8 = x_handle(c, n, s7, form, catch, err, join, ty);
            (l_enter(s8, join), out)
        },
        _ => l_unit(s, ty),
    }
}

/// What becomes of an error that a `try` catches.
pub open spec fn x_handle(
    c: Ctx,
    n: nat,
    s: SLower,
    form: TryForm,
    catch: Option<SCatchArm>,
    err: Value,
    join: BlockId,
    ty: TyId,
) -> SLower
    decreases n, catch, 6int,
{
    match catch {
        Some(arm) => {
            let (s1, t) = x_block(c, n, l_bind(l_push(s), arm.binding, err), arm.body);
            let (s2, w) = match t {
                Some(w) => (s1, w),
                None => l_unit(s1, ty),
            };
            let s3 = if s2.terminated {
                s2
            } else {
                l_jump(s2, join, seq![w])
            };
            l_pop(s3)
        },
        None => match form {
            TryForm::Propagate => l_raise(s, err, ty),
            TryForm::Soften => {
                let (s1, none) = l_emit(s, SOp::ConstNull, SRepr::Null, ty);
                l_jump(s1, join, seq![none])
            },
            TryForm::Assert => {
                let (s1, msg) = l_error_message(s, err, ty);
                l_panic(s1, msg)
            },
        },
    }
}

/// Assertions. One that is a comparison says what its two sides were.
pub open spec fn x_assert(c: Ctx, n: nat, s: SLower, e: SExpr, ty: TyId) -> (SLower, Value)
    decreases n, e, 5int,
{
    match e.kind {
        SExprKind::Assert { kind, args } => match kind {
            AssertKind::Throws => l_note(s, "assert_throws"@, SRepr::Unit, ty),
            AssertKind::Assert => if args.len() == 0 {
                l_unit(s, ty)
            } else {
                x_assert_one(c, n, s, args[0], ty)
            },
            AssertKind::Eq => if args.len() < 2 {
                l_unit(s, ty)
            } else {
                let (s1, l) = x_expr(c, n, s, args[0]);
                let (s2, r) = x_expr(c, n, s1, args[1]);
                let (s3, cv) = l_emit(s2, SOp::Prim(PrimOp::Eq, seq![l, r]), SRepr::Bool, ty);
                let text = described(args[0]) + " == "@ + described(args[1]);
                l_check(s3, cv, Some((l, r)), text, ty)
            },
            AssertKind::Ne => if args.len() < 2 {
                l_unit(s, ty)
            } else {
                let (s1, l) = x_expr(c, n, s, args[0]);
                let (s2, r) = x_expr(c, n, s1, args[1]);
                let (s3, cv) = l_emit(s2, SOp::Prim(PrimOp::Ne, seq![l, r]), SRepr::Bool, ty);
                let text = described(args[0]) + " != "@ + described(args[1]);
                l_check(s3, cv, Some((l, r)), text, ty)
            },
        },
        _ => l_unit(s, ty),
    }
}

pub open spec fn x_assert_one(c: Ctx, n: nat, s: SLower, e: SExpr, ty: TyId) -> (SLower, Value)
    decreases n, e, 10int,
{
    let split = match e.kind {
        SExprKind::Binary { op, .. } => comparing_prim(op),
        _ => None,
    };
    match (split, e.kind) {
        (Some(p), SExprKind::Binary { lhs, rhs, .. }) => {
            let (s1, l) = x_expr(c, n, s, *lhs);
            let (s2, r) = x_expr(c, n, s1, *rhs);
            let (s3, cv) = l_emit(s2, SOp::Prim(p, seq![l, r]), SRepr::Bool, ty);
            l_check(s3, cv, Some((l, r)), described(e), ty)
        },
        _ => {
            let (s1, cv) = x_expr(c, n, s, e);
            l_check(s1, cv, None, described(e), ty)
        },
    }
}

} // verus!
