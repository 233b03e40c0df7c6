//! Numbering expressions, so that what is found out about each can be looked up.

use crate::ast::{
    Block, CatchArm, ConstDecl, Decl, DeclKind, Elem, Expr, ExprId, ExprKind, FieldInit, FieldPat,
    FnDecl, ImplDecl, MatchArm, ModDecl, Module, Pattern, PatternKind, ProtocolDecl, Stmt, StmtKind,
    StrPart, TestBlock,
};
use crate::syntax::{
    lemma_decls_of, lemma_elems_of, lemma_exprs_of, lemma_field_inits_of, lemma_field_pats_of,
    lemma_fn_decls_of, lemma_match_arms_of, lemma_patterns_of, lemma_stmts_of, lemma_str_parts_of,
    sems, Node, SBlock, SCatchArm, SConstDecl, SDecl, SDeclKind, SElem, SExpr, SExprKind,
    SFieldInit, SFieldPat, SFnDecl, SImplDecl, SMatchArm, SModDecl, SModule, SPattern, SPatternKind,
    SProtocolDecl, SStmt, SStmtKind, SStrPart, STestBlock,
};
use vstd::prelude::*;

pub mod laws;

verus! {

/// The number after `n`.
pub open spec fn after(n: u32) -> u32 {
    if n == u32::MAX {
        0
    } else {
        (n + 1) as u32
    }
}

/// An expression numbered from `n` on, and the next number: first the expression itself, and
/// then what it is made of, in order.
pub open spec fn numbered_expr(x: SExpr, n: u32) -> (SExpr, u32)
    decreases x, 0int,
{
    let r0 = numbered_expr_kind(x.kind, after(n));
    (SExpr { kind: r0.0, id: ExprId(n), ..x }, r0.1)
}

pub open spec fn numbered_expr_kind(x: SExprKind, n: u32) -> (SExprKind, u32)
    decreases x, 0int,
{
    match x {
        SExprKind::Str(a) => {
            let r0 = numbered_str_part_list(a, a.len() as int, n);
            (SExprKind::Str(r0.0), r0.1)
        },
        SExprKind::Tuple(a) => {
            let r0 = numbered_expr_list(a, a.len() as int, n);
            (SExprKind::Tuple(r0.0), r0.1)
        },
        SExprKind::List(a) => {
            let r0 = numbered_elem_list(a, a.len() as int, n);
            (SExprKind::List(r0.0), r0.1)
        },
        SExprKind::RecordLit { path, fields, spread } => {
            let r0 = numbered_field_init_list(fields, fields.len() as int, n);
            let r1 = numbered_expr_opt_box(spread, r0.1);
            (SExprKind::RecordLit { path, fields: r0.0, spread: r1.0 }, r1.1)
        },
        SExprKind::Lambda { params, body } => {
            let r0 = numbered_expr(*body, n);
            (SExprKind::Lambda { params, body: Box::new(r0.0) }, r0.1)
        },
        SExprKind::Unary { op, rhs } => {
            let r0 = numbered_expr(*rhs, n);
            (SExprKind::Unary { op, rhs: Box::new(r0.0) }, r0.1)
        },
        SExprKind::Binary { op, lhs, rhs } => {
            let r0 = numbered_expr(*lhs, n);
            let r1 = numbered_expr(*rhs, r0.1);
            (SExprKind::Binary { op, lhs: Box::new(r0.0), rhs: Box::new(r1.0) }, r1.1)
        },
        SExprKind::Call { callee, generics, args } => {
            let r0 = numbered_expr(*callee, n);
            let r1 = numbered_expr_list(args, args.len() as int, r0.1);
            (SExprKind::Call { callee: Box::new(r0.0), generics, args: r1.0 }, r1.1)
        },
        SExprKind::Index { base, index } => {
            let r0 = numbered_expr(*base, n);
            let r1 = numbered_expr(*index, r0.1);
            (SExprKind::Index { base: Box::new(r0.0), index: Box::new(r1.0) }, r1.1)
        },
        SExprKind::Field { base, name } => {
            let r0 = numbered_expr(*base, n);
            (SExprKind::Field { base: Box::new(r0.0), name }, r0.1)
        },
        SExprKind::Is { lhs, ty } => {
            let r0 = numbered_expr(*lhs, n);
            (SExprKind::Is { lhs: Box::new(r0.0), ty }, r0.1)
        },
        SExprKind::As { form, lhs, ty } => {
            let r0 = numbered_expr(*lhs, n);
            (SExprKind::As { form, lhs: Box::new(r0.0), ty }, r0.1)
        },
        SExprKind::If { cond, then, else_ } => {
            let r0 = numbered_expr(*cond, n);
            let r1 = numbered_block(then, r0.1);
            let r2 = numbered_expr_opt_box(else_, r1.1);
            (SExprKind::If { cond: Box::new(r0.0), then: r1.0, else_: r2.0 }, r2.1)
        },
        SExprKind::Match { scrutinee, arms } => {
            let r0 = numbered_expr(*scrutinee, n);
            let r1 = numbered_match_arm_list(arms, arms.len() as int, r0.1);
            (SExprKind::Match { scrutinee: Box::new(r0.0), arms: r1.0 }, r1.1)
        },
        SExprKind::Loop { body } => {
            let r0 = numbered_block(body, n);
            (SExprKind::Loop { body: r0.0 }, r0.1)
        },
        SExprKind::While { cond, body } => {
            let r0 = numbered_expr(*cond, n);
            let r1 = numbered_block(body, r0.1);
            (SExprKind::While { cond: Box::new(r0.0), body: r1.0 }, r1.1)
        },
        SExprKind::For { pat, iter, body } => {
            let r0 = numbered_pattern(pat, n);
            let r1 = numbered_expr(*iter, r0.1);
            let r2 = numbered_block(body, r1.1);
            (SExprKind::For { pat: r0.0, iter: Box::new(r1.0), body: r2.0 }, r2.1)
        },
        SExprKind::Block(a) => {
            let r0 = numbered_block(a, n);
            (SExprKind::Block(r0.0), r0.1)
        },
        SExprKind::Break(a) => {
            let r0 = numbered_expr_opt_box(a, n);
            (SExprKind::Break(r0.0), r0.1)
        },
        SExprKind::Return(a) => {
            let r0 = numbered_expr_opt_box(a, n);
            (SExprKind::Return(r0.0), r0.1)
        },
        SExprKind::Throw(a) => {
            let r0 = numbered_expr(*a, n);
            (SExprKind::Throw(Box::new(r0.0)), r0.1)
        },
        SExprKind::Try { form, body, catch } => {
            let r0 = numbered_expr(*body, n);
            let r1 = numbered_catch_arm_opt(catch, r0.1);
            (SExprKind::Try { form, body: Box::new(r0.0), catch: r1.0 }, r1.1)
        },
        SExprKind::Assert { kind, args } => {
            let r0 = numbered_expr_list(args, args.len() as int, n);
            (SExprKind::Assert { kind, args: r0.0 }, r0.1)
        },
        _ => (x, n),
    }
}

pub open spec fn numbered_str_part(x: SStrPart, n: u32) -> (SStrPart, u32)
    decreases x, 0int,
{
    match x {
        SStrPart::Interp(a) => {
            let r0 = numbered_expr(a, n);
            (SStrPart::Interp(r0.0), r0.1)
        },
        _ => (x, n),
    }
}

pub open spec fn numbered_elem(x: SElem, n: u32) -> (SElem, u32)
    decreases x, 0int,
{
    match x {
        SElem::Value(a) => {
            let r0 = numbered_expr(a, n);
            (SElem::Value(r0.0), r0.1)
        },
        SElem::Spread(a) => {
            let r0 = numbered_expr(a, n);
            (SElem::Spread(r0.0), r0.1)
        },
    }
}

pub open spec fn numbered_field_init(x: SFieldInit, n: u32) -> (SFieldInit, u32)
    decreases x, 0int,
{
    let r0 = numbered_expr(x.value, n);
    (SFieldInit { value: r0.0, ..x }, r0.1)
}

pub open spec fn numbered_match_arm(x: SMatchArm, n: u32) -> (SMatchArm, u32)
    decreases x, 0int,
{
    let r0 = numbered_pattern(x.pat, n);
    let r1 = numbered_expr_opt(x.guard, r0.1);
    let r2 = numbered_expr(x.body, r1.1);
    (SMatchArm { pat: r0.0, guard: r1.0, body: r2.0, ..x }, r2.1)
}

pub open spec fn numbered_catch_arm(x: SCatchArm, n: u32) -> (SCatchArm, u32)
    decreases x, 0int,
{
    let r0 = numbered_block(x.body, n);
    (SCatchArm { body: r0.0, ..x }, r0.1)
}

pub open spec fn numbered_block(x: SBlock, n: u32) -> (SBlock, u32)
    decreases x, 0int,
{
    let r0 = numbered_stmt_list(x.stmts, x.stmts.len() as int, n);
    let r1 = numbered_expr_opt_box(x.tail, r0.1);
    (SBlock { stmts: r0.0, tail: r1.0, ..x }, r1.1)
}

pub open spec fn numbered_stmt(x: SStmt, n: u32) -> (SStmt, u32)
    decreases x, 0int,
{
    let r0 = numbered_stmt_kind(x.kind, n);
    (SStmt { kind: r0.0, ..x }, r0.1)
}

pub open spec fn numbered_stmt_kind(x: SStmtKind, n: u32) -> (SStmtKind, u32)
    decreases x, 0int,
{
    match x {
        SStmtKind::Let { pat, ty, value } => {
            let r0 = numbered_pattern(pat, n);
            let r1 = numbered_expr(value, r0.1);
            (SStmtKind::Let { pat: r0.0, ty, value: r1.0 }, r1.1)
        },
        SStmtKind::Assign { name, value } => {
            let r0 = numbered_expr(value, n);
            (SStmtKind::Assign { name, value: r0.0 }, r0.1)
        },
        SStmtKind::Expr(a) => {
            let r0 = numbered_expr(a, n);
            (SStmtKind::Expr(r0.0), r0.1)
        },
        _ => (x, n),
    }
}

pub open spec fn numbered_pattern(x: SPattern, n: u32) -> (SPattern, u32)
    decreases x, 0int,
{
    let r0 = numbered_pattern_kind(x.kind, after(n));
    (SPattern { kind: r0.0, id: ExprId(n), ..x }, r0.1)
}

pub open spec fn numbered_pattern_kind(x: SPatternKind, n: u32) -> (SPatternKind, u32)
    decreases x, 0int,
{
    match x {
        SPatternKind::Record { path, fields, rest } => {
            let r0 = numbered_field_pat_list(fields, fields.len() as int, n);
            (SPatternKind::Record { path, fields: r0.0, rest }, r0.1)
        },
        SPatternKind::Tuple(a) => {
            let r0 = numbered_pattern_list(a, a.len() as int, n);
            (SPatternKind::Tuple(r0.0), r0.1)
        },
        SPatternKind::Literal(a) => {
            let r0 = numbered_expr(*a, n);
            (SPatternKind::Literal(Box::new(r0.0)), r0.1)
        },
        _ => (x, n),
    }
}

pub open spec fn numbered_field_pat(x: SFieldPat, n: u32) -> (SFieldPat, u32)
    decreases x, 0int,
{
    let r0 = numbered_pattern_opt(x.pat, n);
    (SFieldPat { pat: r0.0, ..x }, r0.1)
}

/// A module with its expressions numbered from `n` on, and the next number.
pub open spec fn numbered_module(x: SModule, n: u32) -> (SModule, u32)
    decreases x, 0int,
{
    let r0 = numbered_decl_list(x.decls, x.decls.len() as int, n);
    (SModule { decls: r0.0 }, r0.1)
}

pub open spec fn numbered_decl(x: SDecl, n: u32) -> (SDecl, u32)
    decreases x, 0int,
{
    let r0 = numbered_decl_kind(x.kind, n);
    (SDecl { kind: r0.0, ..x }, r0.1)
}

pub open spec fn numbered_decl_kind(x: SDeclKind, n: u32) -> (SDeclKind, u32)
    decreases x, 0int,
{
    match x {
        SDeclKind::Fn(a) => {
            let r0 = numbered_fn_decl(a, n);
            (SDeclKind::Fn(r0.0), r0.1)
        },
        SDeclKind::Protocol(a) => {
            let r0 = numbered_protocol_decl(a, n);
            (SDeclKind::Protocol(r0.0), r0.1)
        },
        SDeclKind::Impl(a) => {
            let r0 = numbered_impl_decl(a, n);
            (SDeclKind::Impl(r0.0), r0.1)
        },
        SDeclKind::Mod(a) => {
            let r0 = numbered_mod_decl(a, n);
            (SDeclKind::Mod(r0.0), r0.1)
        },
        SDeclKind::Const(a) => {
            let r0 = numbered_const_decl(a, n);
            (SDeclKind::Const(r0.0), r0.1)
        },
        SDeclKind::TestBlock(a) => {
            let r0 = numbered_test_block(a, n);
            (SDeclKind::TestBlock(r0.0), r0.1)
        },
        _ => (x, n),
    }
}

pub open spec fn numbered_fn_decl(x: SFnDecl, n: u32) -> (SFnDecl, u32)
    decreases x, 0int,
{
    let r0 = numbered_block_opt(x.body, n);
    (SFnDecl { body: r0.0, ..x }, r0.1)
}

pub open spec fn numbered_protocol_decl(x: SProtocolDecl, n: u32) -> (SProtocolDecl, u32)
    decreases x, 0int,
{
    let r0 = numbered_fn_decl_list(x.methods, x.methods.len() as int, n);
    (SProtocolDecl { methods: r0.0, ..x }, r0.1)
}

pub open spec fn numbered_impl_decl(x: SImplDecl, n: u32) -> (SImplDecl, u32)
    decreases x, 0int,
{
    let r0 = numbered_fn_decl_list(x.methods, x.methods.len() as int, n);
    (SImplDecl { methods: r0.0, ..x }, r0.1)
}

pub open spec fn numbered_mod_decl(x: SModDecl, n: u32) -> (SModDecl, u32)
    decreases x, 0int,
{
    let r0 = numbered_decl_list(x.decls, x.decls.len() as int, n);
    (SModDecl { decls: r0.0, ..x }, r0.1)
}

pub open spec fn numbered_const_decl(x: SConstDecl, n: u32) -> (SConstDecl, u32)
    decreases x, 0int,
{
    let r0 = numbered_expr(x.value, n);
    (SConstDecl { value: r0.0, ..x }, r0.1)
}

pub open spec fn numbered_test_block(x: STestBlock, n: u32) -> (STestBlock, u32)
    decreases x, 0int,
{
    let r0 = numbered_block(x.body, n);
    (STestBlock { body: r0.0, ..x }, r0.1)
}

pub open spec fn numbered_str_part_list(s: Seq<SStrPart>, k: int, n: u32) -> (Seq<SStrPart>, u32)
    decreases s, k,
{
    if 0 < k <= s.len() {
        let r0 = numbered_str_part_list(s, k - 1, n);
        let r1 = numbered_str_part(s[k - 1], r0.1);
        (r0.0.push(r1.0), r1.1)
    } else {
        (seq![], n)
    }
}

pub open spec fn numbered_expr_list(s: Seq<SExpr>, k: int, n: u32) -> (Seq<SExpr>, u32)
    decreases s, k,
{
    if 0 < k <= s.len() {
        let r0 = numbered_expr_list(s, k - 1, n);
        let r1 = numbered_expr(s[k - 1], r0.1);
        (r0.0.push(r1.0), r1.1)
    } else {
        (seq![], n)
    }
}

pub open spec fn numbered_elem_list(s: Seq<SElem>, k: int, n: u32) -> (Seq<SElem>, u32)
    decreases s, k,
{
    if 0 < k <= s.len() {
        let r0 = numbered_elem_list(s, k - 1, n);
        let r1 = numbered_elem(s[k - 1], r0.1);
        (r0.0.push(r1.0), r1.1)
    } else {
        (seq![], n)
    }
}

pub open spec fn numbered_field_init_list(s: Seq<SFieldInit>, k: int, n: u32) -> (Seq<SFieldInit>, u32)
    decreases s, k,
{
    if 0 < k <= s.len() {
        let r0 = numbered_field_init_list(s, k - 1, n);
        let r1 = numbered_field_init(s[k - 1], r0.1);
        (r0.0.push(r1.0), r1.1)
    } else {
        (seq![], n)
    }
}

pub open spec fn numbered_match_arm_list(s: Seq<SMatchArm>, k: int, n: u32) -> (Seq<SMatchArm>, u32)
    decreases s, k,
{
    if 0 < k <= s.len() {
        let r0 = numbered_match_arm_list(s, k - 1, n);
        let r1 = numbered_match_arm(s[k - 1], r0.1);
        (r0.0.push(r1.0), r1.1)
    } else {
        (seq![], n)
    }
}

pub open spec fn numbered_stmt_list(s: Seq<SStmt>, k: int, n: u32) -> (Seq<SStmt>, u32)
    decreases s, k,
{
    if 0 < k <= s.len() {
        let r0 = numbered_stmt_list(s, k - 1, n);
        let r1 = numbered_stmt(s[k - 1], r0.1);
        (r0.0.push(r1.0), r1.1)
    } else {
        (seq![], n)
    }
}

pub open spec fn numbered_field_pat_list(s: Seq<SFieldPat>, k: int, n: u32) -> (Seq<SFieldPat>, u32)
    decreases s, k,
{
    if 0 < k <= s.len() {
        let r0 = numbered_field_pat_list(s, k - 1, n);
        let r1 = numbered_field_pat(s[k - 1], r0.1);
        (r0.0.push(r1.0), r1.1)
    } else {
        (seq![], n)
    }
}

pub open spec fn numbered_pattern_list(s: Seq<SPattern>, k: int, n: u32) -> (Seq<SPattern>, u32)
    decreases s, k,
{
    if 0 < k <= s.len() {
        let r0 = numbered_pattern_list(s, k - 1, n);
        let r1 = numbered_pattern(s[k - 1], r0.1);
        (r0.0.push(r1.0), r1.1)
    } else {
        (seq![], n)
    }
}

pub open spec fn numbered_decl_list(s: Seq<SDecl>, k: int, n: u32) -> (Seq<SDecl>, u32)
    decreases s, k,
{
    if 0 < k <= s.len() {
        let r0 = numbered_decl_list(s, k - 1, n);
        let r1 = numbered_decl(s[k - 1], r0.1);
        (r0.0.push(r1.0), r1.1)
    } else {
        (seq![], n)
    }
}

pub open spec fn numbered_fn_decl_list(s: Seq<SFnDecl>, k: int, n: u32) -> (Seq<SFnDecl>, u32)
    decreases s, k,
{
    if 0 < k <= s.len() {
        let r0 = numbered_fn_decl_list(s, k - 1, n);
        let r1 = numbered_fn_decl(s[k - 1], r0.1);
        (r0.0.push(r1.0), r1.1)
    } else {
        (seq![], n)
    }
}

pub open spec fn numbered_catch_arm_opt(x: Option<SCatchArm>, n: u32) -> (Option<SCatchArm>, u32)
    decreases x, 0int,
{
    match x {
        Some(a) => {
            let r = numbered_catch_arm(a, n);
            (Some(r.0), r.1)
        },
        None => (None, n),
    }
}

pub open spec fn numbered_expr_opt(x: Option<SExpr>, n: u32) -> (Option<SExpr>, u32)
    decreases x, 0int,
{
    match x {
        Some(a) => {
            let r = numbered_expr(a, n);
            (Some(r.0), r.1)
        },
        None => (None, n),
    }
}

pub open spec fn numbered_pattern_opt(x: Option<SPattern>, n: u32) -> (Option<SPattern>, u32)
    decreases x, 0int,
{
    match x {
        Some(a) => {
            let r = numbered_pattern(a, n);
            (Some(r.0), r.1)
        },
        None => (None, n),
    }
}

pub open spec fn numbered_block_opt(x: Option<SBlock>, n: u32) -> (Option<SBlock>, u32)
    decreases x, 0int,
{
    match x {
        Some(a) => {
            let r = numbered_block(a, n);
            (Some(r.0), r.1)
        },
        None => (None, n),
    }
}

pub open spec fn numbered_expr_opt_box(x: Option<Box<SExpr>>, n: u32) -> (Option<Box<SExpr>>, u32)
    decreases x, 0int,
{
    match x {
        Some(a) => {
            let r = numbered_expr(*a, n);
            (Some(Box::new(r.0)), r.1)
        },
        None => (None, n),
    }
}

// ---- doing it ----

fn next(n: u32) -> (r: u32)
    ensures
        r == after(n),
{
    if n == u32::MAX {
        0
    } else {
        n + 1
    }
}

fn number_expr(x: &mut Expr, n: u32) -> (r: u32)
    ensures
        (final(x).sem(), r) == numbered_expr(old(x).sem(), n),
    decreases *old(x),
{
    x.id = ExprId(n);
    let n: u32 = next(n);
    let n: u32 = number_expr_kind(&mut x.kind, n);
    n
}

fn number_expr_kind(x: &mut ExprKind, n: u32) -> (r: u32)
    ensures
        (final(x).sem(), r) == numbered_expr_kind(old(x).sem(), n),
    decreases *old(x),
{
    match &mut *x {
        ExprKind::Str(a) => {
            let ghost o = a@;
            let n: u32 = number_str_part_list(a, n);
            proof {
                lemma_str_parts_of(o);
                lemma_str_parts_of(a@);
            }
            n
        },
        ExprKind::Tuple(a) => {
            let ghost o = a@;
            let n: u32 = number_expr_list(a, n);
            proof {
                lemma_exprs_of(o);
                lemma_exprs_of(a@);
            }
            n
        },
        ExprKind::List(a) => {
            let ghost o = a@;
            let n: u32 = number_elem_list(a, n);
            proof {
                lemma_elems_of(o);
                lemma_elems_of(a@);
            }
            n
        },
        ExprKind::RecordLit { fields, spread, .. } => {
            let ghost o = fields@;
            let n: u32 = number_field_init_list(fields, n);
            proof {
                lemma_field_inits_of(o);
                lemma_field_inits_of(fields@);
            }
            let n: u32 = number_expr_opt_box(spread, n);
            n
        },
        ExprKind::Lambda { body, .. } => {
            let n: u32 = number_expr(body, n);
            n
        },
        ExprKind::Unary { rhs, .. } => {
            let n: u32 = number_expr(rhs, n);
            n
        },
        ExprKind::Binary { lhs, rhs, .. } => {
            let n: u32 = number_expr(lhs, n);
            let n: u32 = number_expr(rhs, n);
            n
        },
        ExprKind::Call { callee, args, .. } => {
            let n: u32 = number_expr(callee, n);
            let ghost o = args@;
            let n: u32 = number_expr_list(args, n);
            proof {
                lemma_exprs_of(o);
                lemma_exprs_of(args@);
            }
            n
        },
        ExprKind::Index { base, index } => {
            let n: u32 = number_expr(base, n);
            let n: u32 = number_expr(index, n);
            n
        },
        ExprKind::Field { base, .. } => {
            let n: u32 = number_expr(base, n);
            n
        },
        ExprKind::Is { lhs, .. } => {
            let n: u32 = number_expr(lhs, n);
            n
        },
        ExprKind::As { lhs, .. } => {
            let n: u32 = number_expr(lhs, n);
            n
        },
        ExprKind::If { cond, then, else_ } => {
            let n: u32 = number_expr(cond, n);
            let n: u32 = number_block(then, n);
            let n: u32 = number_expr_opt_box(else_, n);
            n
        },
        ExprKind::Match { scrutinee, arms } => {
            let n: u32 = number_expr(scrutinee, n);
            let ghost o = arms@;
            let n: u32 = number_match_arm_list(arms, n);
            proof {
                lemma_match_arms_of(o);
                lemma_match_arms_of(arms@);
            }
            n
        },
        ExprKind::Loop { body } => {
            let n: u32 = number_block(body, n);
            n
        },
        ExprKind::While { cond, body } => {
            let n: u32 = number_expr(cond, n);
            let n: u32 = number_block(body, n);
            n
        },
        ExprKind::For { pat, iter, body } => {
            let n: u32 = number_pattern(pat, n);
            let n: u32 = number_expr(iter, n);
            let n: u32 = number_block(body, n);
            n
        },
        ExprKind::Block(a) => {
            let n: u32 = number_block(a, n);
            n
        },
        ExprKind::Break(a) => {
            let n: u32 = number_expr_opt_box(a, n);
            n
        },
        ExprKind::Return(a) => {
            let n: u32 = number_expr_opt_box(a, n);
            n
        },
        ExprKind::Throw(a) => {
            let n: u32 = number_expr(a, n);
            n
        },
        ExprKind::Try { body, catch, .. } => {
            let n: u32 = number_expr(body, n);
            let n: u32 = number_catch_arm_opt(catch, n);
            n
        },
        ExprKind::Assert { args, .. } => {
            let ghost o = args@;
            let n: u32 = number_expr_list(args, n);
            proof {
                lemma_exprs_of(o);
                lemma_exprs_of(args@);
            }
            n
        },
        _ => n,
    }
}

fn number_str_part(x: &mut StrPart, n: u32) -> (r: u32)
    ensures
        (final(x).sem(), r) == numbered_str_part(old(x).sem(), n),
    decreases *old(x),
{
    match &mut *x {
        StrPart::Interp(a) => {
            let n: u32 = number_expr(a, n);
            n
        },
        _ => n,
    }
}

fn number_elem(x: &mut Elem, n: u32) -> (r: u32)
    ensures
        (final(x).sem(), r) == numbered_elem(old(x).sem(), n),
    decreases *old(x),
{
    match &mut *x {
        Elem::Value(a) => {
            let n: u32 = number_expr(a, n);
            n
        },
        Elem::Spread(a) => {
            let n: u32 = number_expr(a, n);
            n
        },
    }
}

fn number_field_init(x: &mut FieldInit, n: u32) -> (r: u32)
    ensures
        (final(x).sem(), r) == numbered_field_init(old(x).sem(), n),
    decreases *old(x),
{
    let n: u32 = number_expr(&mut x.value, n);
    n
}

fn number_match_arm(x: &mut MatchArm, n: u32) -> (r: u32)
    ensures
        (final(x).sem(), r) == numbered_match_arm(old(x).sem(), n),
    decreases *old(x),
{
    let n: u32 = number_pattern(&mut x.pat, n);
    let n: u32 = number_expr_opt(&mut x.guard, n);
    let n: u32 = number_expr(&mut x.body, n);
    n
}

fn number_catch_arm(x: &mut CatchArm, n: u32) -> (r: u32)
    ensures
        (final(x).sem(), r) == numbered_catch_arm(old(x).sem(), n),
    decreases *old(x),
{
    let n: u32 = number_block(&mut x.body, n);
    n
}

fn number_block(x: &mut Block, n: u32) -> (r: u32)
    ensures
        (final(x).sem(), r) == numbered_block(old(x).sem(), n),
    decreases *old(x),
{
    let ghost o = x.stmts@;
    let n: u32 = number_stmt_list(&mut x.stmts, n);
    proof {
        lemma_stmts_of(o);
        lemma_stmts_of(x.stmts@);
    }
    let n: u32 = number_expr_opt_box(&mut x.tail, n);
    n
}

fn number_stmt(x: &mut Stmt, n: u32) -> (r: u32)
    ensures
        (final(x).sem(), r) == numbered_stmt(old(x).sem(), n),
    decreases *old(x),
{
    let n: u32 = number_stmt_kind(&mut x.kind, n);
    n
}

fn number_stmt_kind(x: &mut StmtKind, n: u32) -> (r: u32)
    ensures
        (final(x).sem(), r) == numbered_stmt_kind(old(x).sem(), n),
    decreases *old(x),
{
    match &mut *x {
        StmtKind::Let { pat, value, .. } => {
            let n: u32 = number_pattern(pat, n);
            let n: u32 = number_expr(value, n);
            n
        },
        StmtKind::Assign { value, .. } => {
            let n: u32 = number_expr(value, n);
            n
        },
        StmtKind::Expr(a) => {
            let n: u32 = number_expr(a, n);
            n
        },
        _ => n,
    }
}

fn number_pattern(x: &mut Pattern, n: u32) -> (r: u32)
    ensures
        (final(x).sem(), r) == numbered_pattern(old(x).sem(), n),
    decreases *old(x),
{
    x.id = ExprId(n);
    let n: u32 = next(n);
    let n: u32 = number_pattern_kind(&mut x.kind, n);
    n
}

fn number_pattern_kind(x: &mut PatternKind, n: u32) -> (r: u32)
    ensures
        (final(x).sem(), r) == numbered_pattern_kind(old(x).sem(), n),
    decreases *old(x),
{
    match &mut *x {
        PatternKind::Record { fields, .. } => {
            let ghost o = fields@;
            let n: u32 = number_field_pat_list(fields, n);
            proof {
                lemma_field_pats_of(o);
                lemma_field_pats_of(fields@);
            }
            n
        },
        PatternKind::Tuple(a) => {
            let ghost o = a@;
            let n: u32 = number_pattern_list(a, n);
            proof {
                lemma_patterns_of(o);
                lemma_patterns_of(a@);
            }
            n
        },
        PatternKind::Literal(a) => {
            let n: u32 = number_expr(a, n);
            n
        },
        _ => n,
    }
}

fn number_field_pat(x: &mut FieldPat, n: u32) -> (r: u32)
    ensures
        (final(x).sem(), r) == numbered_field_pat(old(x).sem(), n),
    decreases *old(x),
{
    let n: u32 = number_pattern_opt(&mut x.pat, n);
    n
}

fn number_module(x: &mut Module, n: u32) -> (r: u32)
    ensures
        (final(x).sem(), r) == numbered_module(old(x).sem(), n),
    decreases *old(x),
{
    let ghost o = x.decls@;
    let n: u32 = number_decl_list(&mut x.decls, n);
    proof {
        lemma_decls_of(o);
        lemma_decls_of(x.decls@);
    }
    n
}

fn number_decl(x: &mut Decl, n: u32) -> (r: u32)
    ensures
        (final(x).sem(), r) == numbered_decl(old(x).sem(), n),
    decreases *old(x),
{
    let n: u32 = number_decl_kind(&mut x.kind, n);
    n
}

fn number_decl_kind(x: &mut DeclKind, n: u32) -> (r: u32)
    ensures
        (final(x).sem(), r) == numbered_decl_kind(old(x).sem(), n),
    decreases *old(x),
{
    match &mut *x {
        DeclKind::Fn(a) => {
            let n: u32 = number_fn_decl(a, n);
            n
        },
        DeclKind::Protocol(a) => {
            let n: u32 = number_protocol_decl(a, n);
            n
        },
        DeclKind::Impl(a) => {
            let n: u32 = number_impl_decl(a, n);
            n
        },
        DeclKind::Mod(a) => {
            let n: u32 = number_mod_decl(a, n);
            n
        },
        DeclKind::Const(a) => {
            let n: u32 = number_const_decl(a, n);
            n
        },
        DeclKind::TestBlock(a) => {
            let n: u32 = number_test_block(a, n);
            n
        },
        _ => n,
    }
}

fn number_fn_decl(x: &mut FnDecl, n: u32) -> (r: u32)
    ensures
        (final(x).sem(), r) == numbered_fn_decl(old(x).sem(), n),
    decreases *old(x),
{
    let n: u32 = number_block_opt(&mut x.body, n);
    n
}

fn number_protocol_decl(x: &mut ProtocolDecl, n: u32) -> (r: u32)
    ensures
        (final(x).sem(), r) == numbered_protocol_decl(old(x).sem(), n),
    decreases *old(x),
{
    let ghost o = x.methods@;
    let n: u32 = number_fn_decl_list(&mut x.methods, n);
    proof {
        lemma_fn_decls_of(o);
        lemma_fn_decls_of(x.methods@);
    }
    n
}

fn number_impl_decl(x: &mut ImplDecl, n: u32) -> (r: u32)
    ensures
        (final(x).sem(), r) == numbered_impl_decl(old(x).sem(), n),
    decreases *old(x),
{
    let ghost o = x.methods@;
    let n: u32 = number_fn_decl_list(&mut x.methods, n);
    proof {
        lemma_fn_decls_of(o);
        lemma_fn_decls_of(x.methods@);
    }
    n
}

fn number_mod_decl(x: &mut ModDecl, n: u32) -> (r: u32)
    ensures
        (final(x).sem(), r) == numbered_mod_decl(old(x).sem(), n),
    decreases *old(x),
{
    let ghost o = x.decls@;
    let n: u32 = number_decl_list(&mut x.decls, n);
    proof {
        lemma_decls_of(o);
        lemma_decls_of(x.decls@);
    }
    n
}

fn number_const_decl(x: &mut ConstDecl, n: u32) -> (r: u32)
    ensures
        (final(x).sem(), r) == numbered_const_decl(old(x).sem(), n),
    decreases *old(x),
{
    let n: u32 = number_expr(&mut x.value, n);
    n
}

fn number_test_block(x: &mut TestBlock, n: u32) -> (r: u32)
    ensures
        (final(x).sem(), r) == numbered_test_block(old(x).sem(), n),
    decreases *old(x),
{
    let n: u32 = number_block(&mut x.body, n);
    n
}

fn number_str_part_list(xs: &mut Vec<StrPart>, n: u32) -> (r: u32)
    ensures
        (sems(final(xs)@), r) == numbered_str_part_list(sems(old(xs)@), old(xs)@.len() as int, n),
    decreases *old(xs),
{
    let ghost s = sems(xs@);
    let ghost n0 = n;
    let mut n: u32 = n;
    let mut i: usize = 0;
    assert(sems(xs@).take(0) =~= numbered_str_part_list(s, 0, n0).0);
    while i < xs.len()
        invariant
            i <= xs.len() == old(xs).len() == s.len(),
            s == sems(old(xs)@),
            (sems(xs@).take(i as int), n) == numbered_str_part_list(s, i as int, n0),
            forall|k: int| i <= k < xs.len() ==> #[trigger] xs@[k] == old(xs)@[k],
        decreases xs.len() - i,
    {
        let ghost before = sems(xs@);
        assert(xs@[i as int] == old(xs)@[i as int]);
        assert(s[i as int] == old(xs)@[i as int].sem());
        n = number_str_part(&mut xs[i], n);
        assert(sems(xs@).take(i + 1) =~= before.take(i as int).push(xs@[i as int].sem()));
        i += 1;
    }
    assert(sems(xs@).take(i as int) =~= sems(xs@));
    n
}

fn number_expr_list(xs: &mut Vec<Expr>, n: u32) -> (r: u32)
    ensures
        (sems(final(xs)@), r) == numbered_expr_list(sems(old(xs)@), old(xs)@.len() as int, n),
    decreases *old(xs),
{
    let ghost s = sems(xs@);
    let ghost n0 = n;
    let mut n: u32 = n;
    let mut i: usize = 0;
    assert(sems(xs@).take(0) =~= numbered_expr_list(s, 0, n0).0);
    while i < xs.len()
        invariant
            i <= xs.len() == old(xs).len() == s.len(),
            s == sems(old(xs)@),
            (sems(xs@).take(i as int), n) == numbered_expr_list(s, i as int, n0),
            forall|k: int| i <= k < xs.len() ==> #[trigger] xs@[k] == old(xs)@[k],
        decreases xs.len() - i,
    {
        let ghost before = sems(xs@);
        assert(xs@[i as int] == old(xs)@[i as int]);
        assert(s[i as int] == old(xs)@[i as int].sem());
        n = number_expr(&mut xs[i], n);
        assert(sems(xs@).take(i + 1) =~= before.take(i as int).push(xs@[i as int].sem()));
        i += 1;
    }
    assert(sems(xs@).take(i as int) =~= sems(xs@));
    n
}

fn number_elem_list(xs: &mut Vec<Elem>, n: u32) -> (r: u32)
    ensures
        (sems(final(xs)@), r) == numbered_elem_list(sems(old(xs)@), old(xs)@.len() as int, n),
    decreases *old(xs),
{
    let ghost s = sems(xs@);
    let ghost n0 = n;
    let mut n: u32 = n;
    let mut i: usize = 0;
    assert(sems(xs@).take(0) =~= numbered_elem_list(s, 0, n0).0);
    while i < xs.len()
        invariant
            i <= xs.len() == old(xs).len() == s.len(),
            s == sems(old(xs)@),
            (sems(xs@).take(i as int), n) == numbered_elem_list(s, i as int, n0),
            forall|k: int| i <= k < xs.len() ==> #[trigger] xs@[k] == old(xs)@[k],
        decreases xs.len() - i,
    {
        let ghost before = sems(xs@);
        assert(xs@[i as int] == old(xs)@[i as int]);
        assert(s[i as int] == old(xs)@[i as int].sem());
        n = number_elem(&mut xs[i], n);
        assert(sems(xs@).take(i + 1) =~= before.take(i as int).push(xs@[i as int].sem()));
        i += 1;
    }
    assert(sems(xs@).take(i as int) =~= sems(xs@));
    n
}

fn number_field_init_list(xs: &mut Vec<FieldInit>, n: u32) -> (r: u32)
    ensures
        (sems(final(xs)@), r) == numbered_field_init_list(sems(old(xs)@), old(xs)@.len() as int, n),
    decreases *old(xs),
{
    let ghost s = sems(xs@);
    let ghost n0 = n;
    let mut n: u32 = n;
    let mut i: usize = 0;
    assert(sems(xs@).take(0) =~= numbered_field_init_list(s, 0, n0).0);
    while i < xs.len()
        invariant
            i <= xs.len() == old(xs).len() == s.len(),
            s == sems(old(xs)@),
            (sems(xs@).take(i as int), n) == numbered_field_init_list(s, i as int, n0),
            forall|k: int| i <= k < xs.len() ==> #[trigger] xs@[k] == old(xs)@[k],
        decreases xs.len() - i,
    {
        let ghost before = sems(xs@);
        assert(xs@[i as int] == old(xs)@[i as int]);
        assert(s[i as int] == old(xs)@[i as int].sem());
        n = number_field_init(&mut xs[i], n);
        assert(sems(xs@).take(i + 1) =~= before.take(i as int).push(xs@[i as int].sem()));
        i += 1;
    }
    assert(sems(xs@).take(i as int) =~= sems(xs@));
    n
}

fn number_match_arm_list(xs: &mut Vec<MatchArm>, n: u32) -> (r: u32)
    ensures
        (sems(final(xs)@), r) == numbered_match_arm_list(sems(old(xs)@), old(xs)@.len() as int, n),
    decreases *old(xs),
{
    let ghost s = sems(xs@);
    let ghost n0 = n;
    let mut n: u32 = n;
    let mut i: usize = 0;
    assert(sems(xs@).take(0) =~= numbered_match_arm_list(s, 0, n0).0);
    while i < xs.len()
        invariant
            i <= xs.len() == old(xs).len() == s.len(),
            s == sems(old(xs)@),
            (sems(xs@).take(i as int), n) == numbered_match_arm_list(s, i as int, n0),
            forall|k: int| i <= k < xs.len() ==> #[trigger] xs@[k] == old(xs)@[k],
        decreases xs.len() - i,
    {
        let ghost before = sems(xs@);
        assert(xs@[i as int] == old(xs)@[i as int]);
        assert(s[i as int] == old(xs)@[i as int].sem());
        n = number_match_arm(&mut xs[i], n);
        assert(sems(xs@).take(i + 1) =~= before.take(i as int).push(xs@[i as int].sem()));
        i += 1;
    }
    assert(sems(xs@).take(i as int) =~= sems(xs@));
    n
}

fn number_stmt_list(xs: &mut Vec<Stmt>, n: u32) -> (r: u32)
    ensures
        (sems(final(xs)@), r) == numbered_stmt_list(sems(old(xs)@), old(xs)@.len() as int, n),
    decreases *old(xs),
{
    let ghost s = sems(xs@);
    let ghost n0 = n;
    let mut n: u32 = n;
    let mut i: usize = 0;
    assert(sems(xs@).take(0) =~= numbered_stmt_list(s, 0, n0).0);
    while i < xs.len()
        invariant
            i <= xs.len() == old(xs).len() == s.len(),
            s == sems(old(xs)@),
            (sems(xs@).take(i as int), n) == numbered_stmt_list(s, i as int, n0),
            forall|k: int| i <= k < xs.len() ==> #[trigger] xs@[k] == old(xs)@[k],
        decreases xs.len() - i,
    {
        let ghost before = sems(xs@);
        assert(xs@[i as int] == old(xs)@[i as int]);
        assert(s[i as int] == old(xs)@[i as int].sem());
        n = number_stmt(&mut xs[i], n);
        assert(sems(xs@).take(i + 1) =~= before.take(i as int).push(xs@[i as int].sem()));
        i += 1;
    }
    assert(sems(xs@).take(i as int) =~= sems(xs@));
    n
}

fn number_field_pat_list(xs: &mut Vec<FieldPat>, n: u32) -> (r: u32)
    ensures
        (sems(final(xs)@), r) == numbered_field_pat_list(sems(old(xs)@), old(xs)@.len() as int, n),
    decreases *old(xs),
{
    let ghost s = sems(xs@);
    let ghost n0 = n;
    let mut n: u32 = n;
    let mut i: usize = 0;
    assert(sems(xs@).take(0) =~= numbered_field_pat_list(s, 0, n0).0);
    while i < xs.len()
        invariant
            i <= xs.len() == old(xs).len() == s.len(),
            s == sems(old(xs)@),
            (sems(xs@).take(i as int), n) == numbered_field_pat_list(s, i as int, n0),
            forall|k: int| i <= k < xs.len() ==> #[trigger] xs@[k] == old(xs)@[k],
        decreases xs.len() - i,
    {
        let ghost before = sems(xs@);
        assert(xs@[i as int] == old(xs)@[i as int]);
        assert(s[i as int] == old(xs)@[i as int].sem());
        n = number_field_pat(&mut xs[i], n);
        assert(sems(xs@).take(i + 1) =~= before.take(i as int).push(xs@[i as int].sem()));
        i += 1;
    }
    assert(sems(xs@).take(i as int) =~= sems(xs@));
    n
}

fn number_pattern_list(xs: &mut Vec<Pattern>, n: u32) -> (r: u32)
    ensures
        (sems(final(xs)@), r) == numbered_pattern_list(sems(old(xs)@), old(xs)@.len() as int, n),
    decreases *old(xs),
{
    let ghost s = sems(xs@);
    let ghost n0 = n;
    let mut n: u32 = n;
    let mut i: usize = 0;
    assert(sems(xs@).take(0) =~= numbered_pattern_list(s, 0, n0).0);
    while i < xs.len()
        invariant
            i <= xs.len() == old(xs).len() == s.len(),
            s == sems(old(xs)@),
            (sems(xs@).take(i as int), n) == numbered_pattern_list(s, i as int, n0),
            forall|k: int| i <= k < xs.len() ==> #[trigger] xs@[k] == old(xs)@[k],
        decreases xs.len() - i,
    {
        let ghost before = sems(xs@);
        assert(xs@[i as int] == old(xs)@[i as int]);
        assert(s[i as int] == old(xs)@[i as int].sem());
        n = number_pattern(&mut xs[i], n);
        assert(sems(xs@).take(i + 1) =~= before.take(i as int).push(xs@[i as int].sem()));
        i += 1;
    }
    assert(sems(xs@).take(i as int) =~= sems(xs@));
    n
}

fn number_decl_list(xs: &mut Vec<Decl>, n: u32) -> (r: u32)
    ensures
        (sems(final(xs)@), r) == numbered_decl_list(sems(old(xs)@), old(xs)@.len() as int, n),
    decreases *old(xs),
{
    let ghost s = sems(xs@);
    let ghost n0 = n;
    let mut n: u32 = n;
    let mut i: usize = 0;
    assert(sems(xs@).take(0) =~= numbered_decl_list(s, 0, n0).0);
    while i < xs.len()
        invariant
            i <= xs.len() == old(xs).len() == s.len(),
            s == sems(old(xs)@),
            (sems(xs@).take(i as int), n) == numbered_decl_list(s, i as int, n0),
            forall|k: int| i <= k < xs.len() ==> #[trigger] xs@[k] == old(xs)@[k],
        decreases xs.len() - i,
    {
        let ghost before = sems(xs@);
        assert(xs@[i as int] == old(xs)@[i as int]);
        assert(s[i as int] == old(xs)@[i as int].sem());
        n = number_decl(&mut xs[i], n);
        assert(sems(xs@).take(i + 1) =~= before.take(i as int).push(xs@[i as int].sem()));
        i += 1;
    }
    assert(sems(xs@).take(i as int) =~= sems(xs@));
    n
}

fn number_fn_decl_list(xs: &mut Vec<FnDecl>, n: u32) -> (r: u32)
    ensures
        (sems(final(xs)@), r) == numbered_fn_decl_list(sems(old(xs)@), old(xs)@.len() as int, n),
    decreases *old(xs),
{
    let ghost s = sems(xs@);
    let ghost n0 = n;
    let mut n: u32 = n;
    let mut i: usize = 0;
    assert(sems(xs@).take(0) =~= numbered_fn_decl_list(s, 0, n0).0);
    while i < xs.len()
        invariant
            i <= xs.len() == old(xs).len() == s.len(),
            s == sems(old(xs)@),
            (sems(xs@).take(i as int), n) == numbered_fn_decl_list(s, i as int, n0),
            forall|k: int| i <= k < xs.len() ==> #[trigger] xs@[k] == old(xs)@[k],
        decreases xs.len() - i,
    {
        let ghost before = sems(xs@);
        assert(xs@[i as int] == old(xs)@[i as int]);
        assert(s[i as int] == old(xs)@[i as int].sem());
        n = number_fn_decl(&mut xs[i], n);
        assert(sems(xs@).take(i + 1) =~= before.take(i as int).push(xs@[i as int].sem()));
        i += 1;
    }
    assert(sems(xs@).take(i as int) =~= sems(xs@));
    n
}

fn number_catch_arm_opt(x: &mut Option<CatchArm>, n: u32) -> (r: u32)
    ensures
        (final(x).sem(), r) == numbered_catch_arm_opt(old(x).sem(), n),
    decreases *old(x),
{
    match &mut *x {
        Some(a) => number_catch_arm(a, n),
        None => n,
    }
}

fn number_expr_opt(x: &mut Option<Expr>, n: u32) -> (r: u32)
    ensures
        (final(x).sem(), r) == numbered_expr_opt(old(x).sem(), n),
    decreases *old(x),
{
    match &mut *x {
        Some(a) => number_expr(a, n),
        None => n,
    }
}

fn number_pattern_opt(x: &mut Option<Pattern>, n: u32) -> (r: u32)
    ensures
        (final(x).sem(), r) == numbered_pattern_opt(old(x).sem(), n),
    decreases *old(x),
{
    match &mut *x {
        Some(a) => number_pattern(a, n),
        None => n,
    }
}

fn number_block_opt(x: &mut Option<Block>, n: u32) -> (r: u32)
    ensures
        (final(x).sem(), r) == numbered_block_opt(old(x).sem(), n),
    decreases *old(x),
{
    match &mut *x {
        Some(a) => number_block(a, n),
        None => n,
    }
}

fn number_expr_opt_box(x: &mut Option<Box<Expr>>, n: u32) -> (r: u32)
    ensures
        (final(x).sem(), r) == numbered_expr_opt_box(old(x).sem(), n),
    decreases *old(x),
{
    match &mut *x {
        Some(a) => number_expr(a, n),
        None => n,
    }
}

/// Number the expressions and patterns of a module from `base` on; gives the next number.
pub fn number_exprs_from(module: &mut Module, base: u32) -> (next: u32)
    ensures
        (final(module).sem(), next) == numbered_module(old(module).sem(), base),
{
    number_module(module, base)
}

/// Number the expressions and patterns of a module.
pub fn number_exprs(module: &mut Module)
    ensures
        final(module).sem() == numbered_module(old(module).sem(), 0).0,
{
    number_exprs_from(module, 0);
}

} // verus!
