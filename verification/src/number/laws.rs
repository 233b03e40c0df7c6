//! Numbers run on without a gap, so that no two expressions share one.

use super::{
    after, numbered_block, numbered_block_opt, numbered_catch_arm, numbered_catch_arm_opt,
    numbered_const_decl, numbered_decl, numbered_decl_kind, numbered_decl_list, numbered_elem,
    numbered_elem_list, numbered_expr, numbered_expr_kind, numbered_expr_list, numbered_expr_opt,
    numbered_expr_opt_box, numbered_field_init, numbered_field_init_list, numbered_field_pat,
    numbered_field_pat_list, numbered_fn_decl, numbered_fn_decl_list, numbered_impl_decl,
    numbered_match_arm, numbered_match_arm_list, numbered_mod_decl, numbered_module,
    numbered_pattern, numbered_pattern_kind, numbered_pattern_list, numbered_pattern_opt,
    numbered_protocol_decl, numbered_stmt, numbered_stmt_kind, numbered_stmt_list,
    numbered_str_part, numbered_str_part_list, numbered_test_block,
};
use crate::ast::ExprId;
use crate::syntax::{
    SBlock, SCatchArm, SConstDecl, SDecl, SDeclKind, SElem, SExpr, SExprKind, SFieldInit, SFieldPat,
    SFnDecl, SImplDecl, SMatchArm, SModDecl, SModule, SPattern, SPatternKind, SProtocolDecl, SStmt,
    SStmtKind, SStrPart, STestBlock,
};
use vstd::prelude::*;

verus! {

/// The number `c` places after `n`. Behind the last number they begin anew.
#[verifier::opaque]
pub open spec fn nth(n: u32, c: nat) -> u32 {
    ((n + c) % 0x1_0000_0000) as u32
}

/// Numbers followed by the `c` numbers from `n` on.
#[verifier::opaque]
pub open spec fn run(o: Seq<ExprId>, n: u32, c: nat) -> Seq<ExprId> {
    o + Seq::new(c, |i: int| ExprId(nth(n, i as nat)))
}

proof fn lemma_nth(n: u32, a: nat, b: nat)
    ensures
        nth(nth(n, a), b) == nth(n, a + b),
{
    reveal(nth);
    vstd::arithmetic::div_mod::lemma_add_mod_noop(n as int + a, b as int, 0x1_0000_0000);
    vstd::arithmetic::div_mod::lemma_add_mod_noop(
        (n as int + a) % 0x1_0000_0000,
        b as int,
        0x1_0000_0000,
    );
}

/// Fewer numbers than there are differ.
proof fn lemma_nth_apart(n: u32, a: nat, b: nat)
    requires
        a < b < 0x1_0000_0000 + a,
    ensures
        nth(n, a) != nth(n, b),
{
    reveal(nth);
}

pub proof fn lemma_run(o: Seq<ExprId>, n: u32, a: nat, b: nat)
    ensures
        run(run(o, n, a), nth(n, a), b) == run(o, n, a + b),
        nth(nth(n, a), b) == nth(n, a + b),
{
    reveal(run);
    lemma_nth(n, a, b);
    assert forall|i: nat| i < b implies #[trigger] nth(nth(n, a), i) == nth(n, a + i) by {
        lemma_nth(n, a, i);
    }
    assert(run(run(o, n, a), nth(n, a), b) =~= run(o, n, a + b));
}

pub proof fn lemma_run_none(o: Seq<ExprId>, n: u32)
    ensures
        run(o, n, 0) == o,
        nth(n, 0) == n,
{
    reveal(run);
    reveal(nth);
    assert(run(o, n, 0) =~= o);
}

proof fn lemma_run_one(o: Seq<ExprId>, n: u32)
    ensures
        run(o, n, 1) == o.push(ExprId(n)),
        after(n) == nth(n, 1),
{
    reveal(run);
    reveal(nth);
    assert(run(o, n, 1) =~= o.push(ExprId(n)));
}

/// As many numbers as there are differ, wherever they begin.
pub proof fn lemma_run_apart(n: u32, c: nat)
    requires
        c <= 0x1_0000_0000,
    ensures
        run(seq![], n, c).no_duplicates(),
{
    reveal(run);
    let ids = run(seq![], n, c);
    assert forall|i: int, j: int| 0 <= i < j < ids.len() implies ids[i] != ids[j] by {
        lemma_nth_apart(n, i as nat, j as nat);
    }
}

// ---- how many there are ----

pub open spec fn count_expr(x: SExpr) -> nat
    decreases x, 0int,
{
    1 + count_expr_kind(x.kind)
}

pub open spec fn count_expr_kind(x: SExprKind) -> nat
    decreases x, 0int,
{
    match x {
        SExprKind::Str(a) => count_str_part_list(a, a.len() as int),
        SExprKind::Tuple(a) => count_expr_list(a, a.len() as int),
        SExprKind::List(a) => count_elem_list(a, a.len() as int),
        SExprKind::RecordLit { fields, spread, .. } => count_field_init_list(fields, fields.len() as int) + count_expr_opt_box(spread),
        SExprKind::Lambda { body, .. } => count_expr(*body),
        SExprKind::Unary { rhs, .. } => count_expr(*rhs),
        SExprKind::Binary { lhs, rhs, .. } => count_expr(*lhs) + count_expr(*rhs),
        SExprKind::Call { callee, args, .. } => count_expr(*callee) + count_expr_list(args, args.len() as int),
        SExprKind::Index { base, index } => count_expr(*base) + count_expr(*index),
        SExprKind::Field { base, .. } => count_expr(*base),
        SExprKind::Is { lhs, .. } => count_expr(*lhs),
        SExprKind::As { lhs, .. } => count_expr(*lhs),
        SExprKind::If { cond, then, else_ } => count_expr(*cond) + count_block(then) + count_expr_opt_box(else_),
        SExprKind::Match { scrutinee, arms } => count_expr(*scrutinee) + count_match_arm_list(arms, arms.len() as int),
        SExprKind::Loop { body } => count_block(body),
        SExprKind::While { cond, body } => count_expr(*cond) + count_block(body),
        SExprKind::For { pat, iter, body } => count_pattern(pat) + count_expr(*iter) + count_block(body),
        SExprKind::Block(a) => count_block(a),
        SExprKind::Break(a) => count_expr_opt_box(a),
        SExprKind::Return(a) => count_expr_opt_box(a),
        SExprKind::Throw(a) => count_expr(*a),
        SExprKind::Try { body, catch, .. } => count_expr(*body) + count_catch_arm_opt(catch),
        SExprKind::Assert { args, .. } => count_expr_list(args, args.len() as int),
        _ => 0,
    }
}

pub open spec fn count_str_part(x: SStrPart) -> nat
    decreases x, 0int,
{
    match x {
        SStrPart::Interp(a) => count_expr(a),
        _ => 0,
    }
}

pub open spec fn count_elem(x: SElem) -> nat
    decreases x, 0int,
{
    match x {
        SElem::Value(a) => count_expr(a),
        SElem::Spread(a) => count_expr(a),
    }
}

pub open spec fn count_field_init(x: SFieldInit) -> nat
    decreases x, 0int,
{
    count_expr(x.value)
}

pub open spec fn count_match_arm(x: SMatchArm) -> nat
    decreases x, 0int,
{
    count_pattern(x.pat) + count_expr_opt(x.guard) + count_expr(x.body)
}

pub open spec fn count_catch_arm(x: SCatchArm) -> nat
    decreases x, 0int,
{
    count_block(x.body)
}

pub open spec fn count_block(x: SBlock) -> nat
    decreases x, 0int,
{
    count_stmt_list(x.stmts, x.stmts.len() as int) + count_expr_opt_box(x.tail)
}

pub open spec fn count_stmt(x: SStmt) -> nat
    decreases x, 0int,
{
    count_stmt_kind(x.kind)
}

pub open spec fn count_stmt_kind(x: SStmtKind) -> nat
    decreases x, 0int,
{
    match x {
        SStmtKind::Let { pat, value, .. } => count_pattern(pat) + count_expr(value),
        SStmtKind::Assign { value, .. } => count_expr(value),
        SStmtKind::Expr(a) => count_expr(a),
        _ => 0,
    }
}

pub open spec fn count_pattern(x: SPattern) -> nat
    decreases x, 0int,
{
    1 + count_pattern_kind(x.kind)
}

pub open spec fn count_pattern_kind(x: SPatternKind) -> nat
    decreases x, 0int,
{
    match x {
        SPatternKind::Record { fields, .. } => count_field_pat_list(fields, fields.len() as int),
        SPatternKind::Tuple(a) => count_pattern_list(a, a.len() as int),
        SPatternKind::Literal(a) => count_expr(*a),
        _ => 0,
    }
}

pub open spec fn count_field_pat(x: SFieldPat) -> nat
    decreases x, 0int,
{
    count_pattern_opt(x.pat)
}

pub open spec fn count_module(x: SModule) -> nat
    decreases x, 0int,
{
    count_decl_list(x.decls, x.decls.len() as int)
}

pub open spec fn count_decl(x: SDecl) -> nat
    decreases x, 0int,
{
    count_decl_kind(x.kind)
}

pub open spec fn count_decl_kind(x: SDeclKind) -> nat
    decreases x, 0int,
{
    match x {
        SDeclKind::Fn(a) => count_fn_decl(a),
        SDeclKind::Protocol(a) => count_protocol_decl(a),
        SDeclKind::Impl(a) => count_impl_decl(a),
        SDeclKind::Mod(a) => count_mod_decl(a),
        SDeclKind::Const(a) => count_const_decl(a),
        SDeclKind::TestBlock(a) => count_test_block(a),
        _ => 0,
    }
}

pub open spec fn count_fn_decl(x: SFnDecl) -> nat
    decreases x, 0int,
{
    count_block_opt(x.body)
}

pub open spec fn count_protocol_decl(x: SProtocolDecl) -> nat
    decreases x, 0int,
{
    count_fn_decl_list(x.methods, x.methods.len() as int)
}

pub open spec fn count_impl_decl(x: SImplDecl) -> nat
    decreases x, 0int,
{
    count_fn_decl_list(x.methods, x.methods.len() as int)
}

pub open spec fn count_mod_decl(x: SModDecl) -> nat
    decreases x, 0int,
{
    count_decl_list(x.decls, x.decls.len() as int)
}

pub open spec fn count_const_decl(x: SConstDecl) -> nat
    decreases x, 0int,
{
    count_expr(x.value)
}

pub open spec fn count_test_block(x: STestBlock) -> nat
    decreases x, 0int,
{
    count_block(x.body)
}

pub open spec fn count_str_part_list(s: Seq<SStrPart>, k: int) -> nat
    decreases s, k,
{
    if 0 < k <= s.len() {
        count_str_part_list(s, k - 1) + count_str_part(s[k - 1])
    } else {
        0
    }
}

pub open spec fn count_expr_list(s: Seq<SExpr>, k: int) -> nat
    decreases s, k,
{
    if 0 < k <= s.len() {
        count_expr_list(s, k - 1) + count_expr(s[k - 1])
    } else {
        0
    }
}

pub open spec fn count_elem_list(s: Seq<SElem>, k: int) -> nat
    decreases s, k,
{
    if 0 < k <= s.len() {
        count_elem_list(s, k - 1) + count_elem(s[k - 1])
    } else {
        0
    }
}

pub open spec fn count_field_init_list(s: Seq<SFieldInit>, k: int) -> nat
    decreases s, k,
{
    if 0 < k <= s.len() {
        count_field_init_list(s, k - 1) + count_field_init(s[k - 1])
    } else {
        0
    }
}

pub open spec fn count_match_arm_list(s: Seq<SMatchArm>, k: int) -> nat
    decreases s, k,
{
    if 0 < k <= s.len() {
        count_match_arm_list(s, k - 1) + count_match_arm(s[k - 1])
    } else {
        0
    }
}

pub open spec fn count_stmt_list(s: Seq<SStmt>, k: int) -> nat
    decreases s, k,
{
    if 0 < k <= s.len() {
        count_stmt_list(s, k - 1) + count_stmt(s[k - 1])
    } else {
        0
    }
}

pub open spec fn count_field_pat_list(s: Seq<SFieldPat>, k: int) -> nat
    decreases s, k,
{
    if 0 < k <= s.len() {
        count_field_pat_list(s, k - 1) + count_field_pat(s[k - 1])
    } else {
        0
    }
}

pub open spec fn count_pattern_list(s: Seq<SPattern>, k: int) -> nat
    decreases s, k,
{
    if 0 < k <= s.len() {
        count_pattern_list(s, k - 1) + count_pattern(s[k - 1])
    } else {
        0
    }
}

pub open spec fn count_decl_list(s: Seq<SDecl>, k: int) -> nat
    decreases s, k,
{
    if 0 < k <= s.len() {
        count_decl_list(s, k - 1) + count_decl(s[k - 1])
    } else {
        0
    }
}

pub open spec fn count_fn_decl_list(s: Seq<SFnDecl>, k: int) -> nat
    decreases s, k,
{
    if 0 < k <= s.len() {
        count_fn_decl_list(s, k - 1) + count_fn_decl(s[k - 1])
    } else {
        0
    }
}

pub open spec fn count_catch_arm_opt(x: Option<SCatchArm>) -> nat
    decreases x, 0int,
{
    match x {
        Some(a) => count_catch_arm(a),
        None => 0,
    }
}

pub open spec fn count_expr_opt(x: Option<SExpr>) -> nat
    decreases x, 0int,
{
    match x {
        Some(a) => count_expr(a),
        None => 0,
    }
}

pub open spec fn count_pattern_opt(x: Option<SPattern>) -> nat
    decreases x, 0int,
{
    match x {
        Some(a) => count_pattern(a),
        None => 0,
    }
}

pub open spec fn count_block_opt(x: Option<SBlock>) -> nat
    decreases x, 0int,
{
    match x {
        Some(a) => count_block(a),
        None => 0,
    }
}

pub open spec fn count_expr_opt_box(x: Option<Box<SExpr>>) -> nat
    decreases x, 0int,
{
    match x {
        Some(a) => count_expr(*a),
        None => 0,
    }
}

// ---- which they have ----

pub open spec fn ids_expr(x: SExpr, o: Seq<ExprId>) -> Seq<ExprId>
    decreases x, 0int,
{
    ids_expr_kind(x.kind, o.push(x.id))
}

pub open spec fn ids_expr_kind(x: SExprKind, o: Seq<ExprId>) -> Seq<ExprId>
    decreases x, 0int,
{
    match x {
        SExprKind::Str(a) => ids_str_part_list(a, a.len() as int, o),
        SExprKind::Tuple(a) => ids_expr_list(a, a.len() as int, o),
        SExprKind::List(a) => ids_elem_list(a, a.len() as int, o),
        SExprKind::RecordLit { fields, spread, .. } => ids_expr_opt_box(spread, ids_field_init_list(fields, fields.len() as int, o)),
        SExprKind::Lambda { body, .. } => ids_expr(*body, o),
        SExprKind::Unary { rhs, .. } => ids_expr(*rhs, o),
        SExprKind::Binary { lhs, rhs, .. } => ids_expr(*rhs, ids_expr(*lhs, o)),
        SExprKind::Call { callee, args, .. } => ids_expr_list(args, args.len() as int, ids_expr(*callee, o)),
        SExprKind::Index { base, index } => ids_expr(*index, ids_expr(*base, o)),
        SExprKind::Field { base, .. } => ids_expr(*base, o),
        SExprKind::Is { lhs, .. } => ids_expr(*lhs, o),
        SExprKind::As { lhs, .. } => ids_expr(*lhs, o),
        SExprKind::If { cond, then, else_ } => ids_expr_opt_box(else_, ids_block(then, ids_expr(*cond, o))),
        SExprKind::Match { scrutinee, arms } => ids_match_arm_list(arms, arms.len() as int, ids_expr(*scrutinee, o)),
        SExprKind::Loop { body } => ids_block(body, o),
        SExprKind::While { cond, body } => ids_block(body, ids_expr(*cond, o)),
        SExprKind::For { pat, iter, body } => ids_block(body, ids_expr(*iter, ids_pattern(pat, o))),
        SExprKind::Block(a) => ids_block(a, o),
        SExprKind::Break(a) => ids_expr_opt_box(a, o),
        SExprKind::Return(a) => ids_expr_opt_box(a, o),
        SExprKind::Throw(a) => ids_expr(*a, o),
        SExprKind::Try { body, catch, .. } => ids_catch_arm_opt(catch, ids_expr(*body, o)),
        SExprKind::Assert { args, .. } => ids_expr_list(args, args.len() as int, o),
        _ => o,
    }
}

pub open spec fn ids_str_part(x: SStrPart, o: Seq<ExprId>) -> Seq<ExprId>
    decreases x, 0int,
{
    match x {
        SStrPart::Interp(a) => ids_expr(a, o),
        _ => o,
    }
}

pub open spec fn ids_elem(x: SElem, o: Seq<ExprId>) -> Seq<ExprId>
    decreases x, 0int,
{
    match x {
        SElem::Value(a) => ids_expr(a, o),
        SElem::Spread(a) => ids_expr(a, o),
    }
}

pub open spec fn ids_field_init(x: SFieldInit, o: Seq<ExprId>) -> Seq<ExprId>
    decreases x, 0int,
{
    ids_expr(x.value, o)
}

pub open spec fn ids_match_arm(x: SMatchArm, o: Seq<ExprId>) -> Seq<ExprId>
    decreases x, 0int,
{
    ids_expr(x.body, ids_expr_opt(x.guard, ids_pattern(x.pat, o)))
}

pub open spec fn ids_catch_arm(x: SCatchArm, o: Seq<ExprId>) -> Seq<ExprId>
    decreases x, 0int,
{
    ids_block(x.body, o)
}

pub open spec fn ids_block(x: SBlock, o: Seq<ExprId>) -> Seq<ExprId>
    decreases x, 0int,
{
    ids_expr_opt_box(x.tail, ids_stmt_list(x.stmts, x.stmts.len() as int, o))
}

pub open spec fn ids_stmt(x: SStmt, o: Seq<ExprId>) -> Seq<ExprId>
    decreases x, 0int,
{
    ids_stmt_kind(x.kind, o)
}

pub open spec fn ids_stmt_kind(x: SStmtKind, o: Seq<ExprId>) -> Seq<ExprId>
    decreases x, 0int,
{
    match x {
        SStmtKind::Let { pat, value, .. } => ids_expr(value, ids_pattern(pat, o)),
        SStmtKind::Assign { value, .. } => ids_expr(value, o),
        SStmtKind::Expr(a) => ids_expr(a, o),
        _ => o,
    }
}

pub open spec fn ids_pattern(x: SPattern, o: Seq<ExprId>) -> Seq<ExprId>
    decreases x, 0int,
{
    ids_pattern_kind(x.kind, o.push(x.id))
}

pub open spec fn ids_pattern_kind(x: SPatternKind, o: Seq<ExprId>) -> Seq<ExprId>
    decreases x, 0int,
{
    match x {
        SPatternKind::Record { fields, .. } => ids_field_pat_list(fields, fields.len() as int, o),
        SPatternKind::Tuple(a) => ids_pattern_list(a, a.len() as int, o),
        SPatternKind::Literal(a) => ids_expr(*a, o),
        _ => o,
    }
}

pub open spec fn ids_field_pat(x: SFieldPat, o: Seq<ExprId>) -> Seq<ExprId>
    decreases x, 0int,
{
    ids_pattern_opt(x.pat, o)
}

pub open spec fn ids_module(x: SModule, o: Seq<ExprId>) -> Seq<ExprId>
    decreases x, 0int,
{
    ids_decl_list(x.decls, x.decls.len() as int, o)
}

pub open spec fn ids_decl(x: SDecl, o: Seq<ExprId>) -> Seq<ExprId>
    decreases x, 0int,
{
    ids_decl_kind(x.kind, o)
}

pub open spec fn ids_decl_kind(x: SDeclKind, o: Seq<ExprId>) -> Seq<ExprId>
    decreases x, 0int,
{
    match x {
        SDeclKind::Fn(a) => ids_fn_decl(a, o),
        SDeclKind::Protocol(a) => ids_protocol_decl(a, o),
        SDeclKind::Impl(a) => ids_impl_decl(a, o),
        SDeclKind::Mod(a) => ids_mod_decl(a, o),
        SDeclKind::Const(a) => ids_const_decl(a, o),
        SDeclKind::TestBlock(a) => ids_test_block(a, o),
        _ => o,
    }
}

pub open spec fn ids_fn_decl(x: SFnDecl, o: Seq<ExprId>) -> Seq<ExprId>
    decreases x, 0int,
{
    ids_block_opt(x.body, o)
}

pub open spec fn ids_protocol_decl(x: SProtocolDecl, o: Seq<ExprId>) -> Seq<ExprId>
    decreases x, 0int,
{
    ids_fn_decl_list(x.methods, x.methods.len() as int, o)
}

pub open spec fn ids_impl_decl(x: SImplDecl, o: Seq<ExprId>) -> Seq<ExprId>
    decreases x, 0int,
{
    ids_fn_decl_list(x.methods, x.methods.len() as int, o)
}

pub open spec fn ids_mod_decl(x: SModDecl, o: Seq<ExprId>) -> Seq<ExprId>
    decreases x, 0int,
{
    ids_decl_list(x.decls, x.decls.len() as int, o)
}

pub open spec fn ids_const_decl(x: SConstDecl, o: Seq<ExprId>) -> Seq<ExprId>
    decreases x, 0int,
{
    ids_expr(x.value, o)
}

pub open spec fn ids_test_block(x: STestBlock, o: Seq<ExprId>) -> Seq<ExprId>
    decreases x, 0int,
{
    ids_block(x.body, o)
}

pub open spec fn ids_str_part_list(s: Seq<SStrPart>, k: int, o: Seq<ExprId>) -> Seq<ExprId>
    decreases s, k,
{
    if 0 < k <= s.len() {
        ids_str_part(s[k - 1], ids_str_part_list(s, k - 1, o))
    } else {
        o
    }
}

pub open spec fn ids_expr_list(s: Seq<SExpr>, k: int, o: Seq<ExprId>) -> Seq<ExprId>
    decreases s, k,
{
    if 0 < k <= s.len() {
        ids_expr(s[k - 1], ids_expr_list(s, k - 1, o))
    } else {
        o
    }
}

pub open spec fn ids_elem_list(s: Seq<SElem>, k: int, o: Seq<ExprId>) -> Seq<ExprId>
    decreases s, k,
{
    if 0 < k <= s.len() {
        ids_elem(s[k - 1], ids_elem_list(s, k - 1, o))
    } else {
        o
    }
}

pub open spec fn ids_field_init_list(s: Seq<SFieldInit>, k: int, o: Seq<ExprId>) -> Seq<ExprId>
    decreases s, k,
{
    if 0 < k <= s.len() {
        ids_field_init(s[k - 1], ids_field_init_list(s, k - 1, o))
    } else {
        o
    }
}

pub open spec fn ids_match_arm_list(s: Seq<SMatchArm>, k: int, o: Seq<ExprId>) -> Seq<ExprId>
    decreases s, k,
{
    if 0 < k <= s.len() {
        ids_match_arm(s[k - 1], ids_match_arm_list(s, k - 1, o))
    } else {
        o
    }
}

pub open spec fn ids_stmt_list(s: Seq<SStmt>, k: int, o: Seq<ExprId>) -> Seq<ExprId>
    decreases s, k,
{
    if 0 < k <= s.len() {
        ids_stmt(s[k - 1], ids_stmt_list(s, k - 1, o))
    } else {
        o
    }
}

pub open spec fn ids_field_pat_list(s: Seq<SFieldPat>, k: int, o: Seq<ExprId>) -> Seq<ExprId>
    decreases s, k,
{
    if 0 < k <= s.len() {
        ids_field_pat(s[k - 1], ids_field_pat_list(s, k - 1, o))
    } else {
        o
    }
}

pub open spec fn ids_pattern_list(s: Seq<SPattern>, k: int, o: Seq<ExprId>) -> Seq<ExprId>
    decreases s, k,
{
    if 0 < k <= s.len() {
        ids_pattern(s[k - 1], ids_pattern_list(s, k - 1, o))
    } else {
        o
    }
}

pub open spec fn ids_decl_list(s: Seq<SDecl>, k: int, o: Seq<ExprId>) -> Seq<ExprId>
    decreases s, k,
{
    if 0 < k <= s.len() {
        ids_decl(s[k - 1], ids_decl_list(s, k - 1, o))
    } else {
        o
    }
}

pub open spec fn ids_fn_decl_list(s: Seq<SFnDecl>, k: int, o: Seq<ExprId>) -> Seq<ExprId>
    decreases s, k,
{
    if 0 < k <= s.len() {
        ids_fn_decl(s[k - 1], ids_fn_decl_list(s, k - 1, o))
    } else {
        o
    }
}

pub open spec fn ids_catch_arm_opt(x: Option<SCatchArm>, o: Seq<ExprId>) -> Seq<ExprId>
    decreases x, 0int,
{
    match x {
        Some(a) => ids_catch_arm(a, o),
        None => o,
    }
}

pub open spec fn ids_expr_opt(x: Option<SExpr>, o: Seq<ExprId>) -> Seq<ExprId>
    decreases x, 0int,
{
    match x {
        Some(a) => ids_expr(a, o),
        None => o,
    }
}

pub open spec fn ids_pattern_opt(x: Option<SPattern>, o: Seq<ExprId>) -> Seq<ExprId>
    decreases x, 0int,
{
    match x {
        Some(a) => ids_pattern(a, o),
        None => o,
    }
}

pub open spec fn ids_block_opt(x: Option<SBlock>, o: Seq<ExprId>) -> Seq<ExprId>
    decreases x, 0int,
{
    match x {
        Some(a) => ids_block(a, o),
        None => o,
    }
}

pub open spec fn ids_expr_opt_box(x: Option<Box<SExpr>>, o: Seq<ExprId>) -> Seq<ExprId>
    decreases x, 0int,
{
    match x {
        Some(a) => ids_expr(*a, o),
        None => o,
    }
}

// ---- what numbering gives ----

proof fn lemma_expr(x: SExpr, n: u32, o: Seq<ExprId>)
    ensures
        numbered_expr(x, n).1 == nth(n, count_expr(x)),
        ids_expr(numbered_expr(x, n).0, o) == run(o, n, count_expr(x)),
    decreases x, 0int,
{
    lemma_run_one(o, n);
    let c0 = count_expr_kind(x.kind);
    lemma_expr_kind(x.kind, nth(n, 1nat), run(o, n, 1nat));
    lemma_run(o, n, 1nat, c0);
}

proof fn lemma_expr_kind(x: SExprKind, n: u32, o: Seq<ExprId>)
    ensures
        numbered_expr_kind(x, n).1 == nth(n, count_expr_kind(x)),
        ids_expr_kind(numbered_expr_kind(x, n).0, o) == run(o, n, count_expr_kind(x)),
    decreases x, 0int,
{
    match x {
        SExprKind::Str(a) => {
            lemma_run_none(o, n);
            let c0 = count_str_part_list(a, a.len() as int);
            lemma_str_part_list(a, a.len() as int, nth(n, 0nat), run(o, n, 0nat));
            lemma_run(o, n, 0nat, c0);
        },
        SExprKind::Tuple(a) => {
            lemma_run_none(o, n);
            let c0 = count_expr_list(a, a.len() as int);
            lemma_expr_list(a, a.len() as int, nth(n, 0nat), run(o, n, 0nat));
            lemma_run(o, n, 0nat, c0);
        },
        SExprKind::List(a) => {
            lemma_run_none(o, n);
            let c0 = count_elem_list(a, a.len() as int);
            lemma_elem_list(a, a.len() as int, nth(n, 0nat), run(o, n, 0nat));
            lemma_run(o, n, 0nat, c0);
        },
        SExprKind::RecordLit { fields, spread, .. } => {
            lemma_run_none(o, n);
            let c0 = count_field_init_list(fields, fields.len() as int);
            lemma_field_init_list(fields, fields.len() as int, nth(n, 0nat), run(o, n, 0nat));
            lemma_run(o, n, 0nat, c0);
            let c1 = count_expr_opt_box(spread);
            lemma_expr_opt_box(spread, nth(n, (0nat + c0)), run(o, n, (0nat + c0)));
            lemma_run(o, n, (0nat + c0), c1);
        },
        SExprKind::Lambda { body, .. } => {
            lemma_run_none(o, n);
            let c0 = count_expr(*body);
            lemma_expr(*body, nth(n, 0nat), run(o, n, 0nat));
            lemma_run(o, n, 0nat, c0);
        },
        SExprKind::Unary { rhs, .. } => {
            lemma_run_none(o, n);
            let c0 = count_expr(*rhs);
            lemma_expr(*rhs, nth(n, 0nat), run(o, n, 0nat));
            lemma_run(o, n, 0nat, c0);
        },
        SExprKind::Binary { lhs, rhs, .. } => {
            lemma_run_none(o, n);
            let c0 = count_expr(*lhs);
            lemma_expr(*lhs, nth(n, 0nat), run(o, n, 0nat));
            lemma_run(o, n, 0nat, c0);
            let c1 = count_expr(*rhs);
            lemma_expr(*rhs, nth(n, (0nat + c0)), run(o, n, (0nat + c0)));
            lemma_run(o, n, (0nat + c0), c1);
        },
        SExprKind::Call { callee, args, .. } => {
            lemma_run_none(o, n);
            let c0 = count_expr(*callee);
            lemma_expr(*callee, nth(n, 0nat), run(o, n, 0nat));
            lemma_run(o, n, 0nat, c0);
            let c1 = count_expr_list(args, args.len() as int);
            lemma_expr_list(args, args.len() as int, nth(n, (0nat + c0)), run(o, n, (0nat + c0)));
            lemma_run(o, n, (0nat + c0), c1);
        },
        SExprKind::Index { base, index } => {
            lemma_run_none(o, n);
            let c0 = count_expr(*base);
            lemma_expr(*base, nth(n, 0nat), run(o, n, 0nat));
            lemma_run(o, n, 0nat, c0);
            let c1 = count_expr(*index);
            lemma_expr(*index, nth(n, (0nat + c0)), run(o, n, (0nat + c0)));
            lemma_run(o, n, (0nat + c0), c1);
        },
        SExprKind::Field { base, .. } => {
            lemma_run_none(o, n);
            let c0 = count_expr(*base);
            lemma_expr(*base, nth(n, 0nat), run(o, n, 0nat));
            lemma_run(o, n, 0nat, c0);
        },
        SExprKind::Is { lhs, .. } => {
            lemma_run_none(o, n);
            let c0 = count_expr(*lhs);
            lemma_expr(*lhs, nth(n, 0nat), run(o, n, 0nat));
            lemma_run(o, n, 0nat, c0);
        },
        SExprKind::As { lhs, .. } => {
            lemma_run_none(o, n);
            let c0 = count_expr(*lhs);
            lemma_expr(*lhs, nth(n, 0nat), run(o, n, 0nat));
            lemma_run(o, n, 0nat, c0);
        },
        SExprKind::If { cond, then, else_ } => {
            lemma_run_none(o, n);
            let c0 = count_expr(*cond);
            lemma_expr(*cond, nth(n, 0nat), run(o, n, 0nat));
            lemma_run(o, n, 0nat, c0);
            let c1 = count_block(then);
            lemma_block(then, nth(n, (0nat + c0)), run(o, n, (0nat + c0)));
            lemma_run(o, n, (0nat + c0), c1);
            let c2 = count_expr_opt_box(else_);
            lemma_expr_opt_box(else_, nth(n, ((0nat + c0) + c1)), run(o, n, ((0nat + c0) + c1)));
            lemma_run(o, n, ((0nat + c0) + c1), c2);
        },
        SExprKind::Match { scrutinee, arms } => {
            lemma_run_none(o, n);
            let c0 = count_expr(*scrutinee);
            lemma_expr(*scrutinee, nth(n, 0nat), run(o, n, 0nat));
            lemma_run(o, n, 0nat, c0);
            let c1 = count_match_arm_list(arms, arms.len() as int);
            lemma_match_arm_list(arms, arms.len() as int, nth(n, (0nat + c0)), run(o, n, (0nat + c0)));
            lemma_run(o, n, (0nat + c0), c1);
        },
        SExprKind::Loop { body } => {
            lemma_run_none(o, n);
            let c0 = count_block(body);
            lemma_block(body, nth(n, 0nat), run(o, n, 0nat));
            lemma_run(o, n, 0nat, c0);
        },
        SExprKind::While { cond, body } => {
            lemma_run_none(o, n);
            let c0 = count_expr(*cond);
            lemma_expr(*cond, nth(n, 0nat), run(o, n, 0nat));
            lemma_run(o, n, 0nat, c0);
            let c1 = count_block(body);
            lemma_block(body, nth(n, (0nat + c0)), run(o, n, (0nat + c0)));
            lemma_run(o, n, (0nat + c0), c1);
        },
        SExprKind::For { pat, iter, body } => {
            lemma_run_none(o, n);
            let c0 = count_pattern(pat);
            lemma_pattern(pat, nth(n, 0nat), run(o, n, 0nat));
            lemma_run(o, n, 0nat, c0);
            let c1 = count_expr(*iter);
            lemma_expr(*iter, nth(n, (0nat + c0)), run(o, n, (0nat + c0)));
            lemma_run(o, n, (0nat + c0), c1);
            let c2 = count_block(body);
            lemma_block(body, nth(n, ((0nat + c0) + c1)), run(o, n, ((0nat + c0) + c1)));
            lemma_run(o, n, ((0nat + c0) + c1), c2);
        },
        SExprKind::Block(a) => {
            lemma_run_none(o, n);
            let c0 = count_block(a);
            lemma_block(a, nth(n, 0nat), run(o, n, 0nat));
            lemma_run(o, n, 0nat, c0);
        },
        SExprKind::Break(a) => {
            lemma_run_none(o, n);
            let c0 = count_expr_opt_box(a);
            lemma_expr_opt_box(a, nth(n, 0nat), run(o, n, 0nat));
            lemma_run(o, n, 0nat, c0);
        },
        SExprKind::Return(a) => {
            lemma_run_none(o, n);
            let c0 = count_expr_opt_box(a);
            lemma_expr_opt_box(a, nth(n, 0nat), run(o, n, 0nat));
            lemma_run(o, n, 0nat, c0);
        },
        SExprKind::Throw(a) => {
            lemma_run_none(o, n);
            let c0 = count_expr(*a);
            lemma_expr(*a, nth(n, 0nat), run(o, n, 0nat));
            lemma_run(o, n, 0nat, c0);
        },
        SExprKind::Try { body, catch, .. } => {
            lemma_run_none(o, n);
            let c0 = count_expr(*body);
            lemma_expr(*body, nth(n, 0nat), run(o, n, 0nat));
            lemma_run(o, n, 0nat, c0);
            let c1 = count_catch_arm_opt(catch);
            lemma_catch_arm_opt(catch, nth(n, (0nat + c0)), run(o, n, (0nat + c0)));
            lemma_run(o, n, (0nat + c0), c1);
        },
        SExprKind::Assert { args, .. } => {
            lemma_run_none(o, n);
            let c0 = count_expr_list(args, args.len() as int);
            lemma_expr_list(args, args.len() as int, nth(n, 0nat), run(o, n, 0nat));
            lemma_run(o, n, 0nat, c0);
        },
        _ => lemma_run_none(o, n),
    }
}

proof fn lemma_str_part(x: SStrPart, n: u32, o: Seq<ExprId>)
    ensures
        numbered_str_part(x, n).1 == nth(n, count_str_part(x)),
        ids_str_part(numbered_str_part(x, n).0, o) == run(o, n, count_str_part(x)),
    decreases x, 0int,
{
    match x {
        SStrPart::Interp(a) => {
            lemma_run_none(o, n);
            let c0 = count_expr(a);
            lemma_expr(a, nth(n, 0nat), run(o, n, 0nat));
            lemma_run(o, n, 0nat, c0);
        },
        _ => lemma_run_none(o, n),
    }
}

proof fn lemma_elem(x: SElem, n: u32, o: Seq<ExprId>)
    ensures
        numbered_elem(x, n).1 == nth(n, count_elem(x)),
        ids_elem(numbered_elem(x, n).0, o) == run(o, n, count_elem(x)),
    decreases x, 0int,
{
    match x {
        SElem::Value(a) => {
            lemma_run_none(o, n);
            let c0 = count_expr(a);
            lemma_expr(a, nth(n, 0nat), run(o, n, 0nat));
            lemma_run(o, n, 0nat, c0);
        },
        SElem::Spread(a) => {
            lemma_run_none(o, n);
            let c0 = count_expr(a);
            lemma_expr(a, nth(n, 0nat), run(o, n, 0nat));
            lemma_run(o, n, 0nat, c0);
        },
    }
}

proof fn lemma_field_init(x: SFieldInit, n: u32, o: Seq<ExprId>)
    ensures
        numbered_field_init(x, n).1 == nth(n, count_field_init(x)),
        ids_field_init(numbered_field_init(x, n).0, o) == run(o, n, count_field_init(x)),
    decreases x, 0int,
{
    lemma_run_none(o, n);
    let c0 = count_expr(x.value);
    lemma_expr(x.value, nth(n, 0nat), run(o, n, 0nat));
    lemma_run(o, n, 0nat, c0);
}

proof fn lemma_match_arm(x: SMatchArm, n: u32, o: Seq<ExprId>)
    ensures
        numbered_match_arm(x, n).1 == nth(n, count_match_arm(x)),
        ids_match_arm(numbered_match_arm(x, n).0, o) == run(o, n, count_match_arm(x)),
    decreases x, 0int,
{
    lemma_run_none(o, n);
    let c0 = count_pattern(x.pat);
    lemma_pattern(x.pat, nth(n, 0nat), run(o, n, 0nat));
    lemma_run(o, n, 0nat, c0);
    let c1 = count_expr_opt(x.guard);
    lemma_expr_opt(x.guard, nth(n, (0nat + c0)), run(o, n, (0nat + c0)));
    lemma_run(o, n, (0nat + c0), c1);
    let c2 = count_expr(x.body);
    lemma_expr(x.body, nth(n, ((0nat + c0) + c1)), run(o, n, ((0nat + c0) + c1)));
    lemma_run(o, n, ((0nat + c0) + c1), c2);
}

proof fn lemma_catch_arm(x: SCatchArm, n: u32, o: Seq<ExprId>)
    ensures
        numbered_catch_arm(x, n).1 == nth(n, count_catch_arm(x)),
        ids_catch_arm(numbered_catch_arm(x, n).0, o) == run(o, n, count_catch_arm(x)),
    decreases x, 0int,
{
    lemma_run_none(o, n);
    let c0 = count_block(x.body);
    lemma_block(x.body, nth(n, 0nat), run(o, n, 0nat));
    lemma_run(o, n, 0nat, c0);
}

proof fn lemma_block(x: SBlock, n: u32, o: Seq<ExprId>)
    ensures
        numbered_block(x, n).1 == nth(n, count_block(x)),
        ids_block(numbered_block(x, n).0, o) == run(o, n, count_block(x)),
    decreases x, 0int,
{
    lemma_run_none(o, n);
    let c0 = count_stmt_list(x.stmts, x.stmts.len() as int);
    lemma_stmt_list(x.stmts, x.stmts.len() as int, nth(n, 0nat), run(o, n, 0nat));
    lemma_run(o, n, 0nat, c0);
    let c1 = count_expr_opt_box(x.tail);
    lemma_expr_opt_box(x.tail, nth(n, (0nat + c0)), run(o, n, (0nat + c0)));
    lemma_run(o, n, (0nat + c0), c1);
}

proof fn lemma_stmt(x: SStmt, n: u32, o: Seq<ExprId>)
    ensures
        numbered_stmt(x, n).1 == nth(n, count_stmt(x)),
        ids_stmt(numbered_stmt(x, n).0, o) == run(o, n, count_stmt(x)),
    decreases x, 0int,
{
    lemma_run_none(o, n);
    let c0 = count_stmt_kind(x.kind);
    lemma_stmt_kind(x.kind, nth(n, 0nat), run(o, n, 0nat));
    lemma_run(o, n, 0nat, c0);
}

proof fn lemma_stmt_kind(x: SStmtKind, n: u32, o: Seq<ExprId>)
    ensures
        numbered_stmt_kind(x, n).1 == nth(n, count_stmt_kind(x)),
        ids_stmt_kind(numbered_stmt_kind(x, n).0, o) == run(o, n, count_stmt_kind(x)),
    decreases x, 0int,
{
    match x {
        SStmtKind::Let { pat, value, .. } => {
            lemma_run_none(o, n);
            let c0 = count_pattern(pat);
            lemma_pattern(pat, nth(n, 0nat), run(o, n, 0nat));
            lemma_run(o, n, 0nat, c0);
            let c1 = count_expr(value);
            lemma_expr(value, nth(n, (0nat + c0)), run(o, n, (0nat + c0)));
            lemma_run(o, n, (0nat + c0), c1);
        },
        SStmtKind::Assign { value, .. } => {
            lemma_run_none(o, n);
            let c0 = count_expr(value);
            lemma_expr(value, nth(n, 0nat), run(o, n, 0nat));
            lemma_run(o, n, 0nat, c0);
        },
        SStmtKind::Expr(a) => {
            lemma_run_none(o, n);
            let c0 = count_expr(a);
            lemma_expr(a, nth(n, 0nat), run(o, n, 0nat));
            lemma_run(o, n, 0nat, c0);
        },
        _ => lemma_run_none(o, n),
    }
}

proof fn lemma_pattern(x: SPattern, n: u32, o: Seq<ExprId>)
    ensures
        numbered_pattern(x, n).1 == nth(n, count_pattern(x)),
        ids_pattern(numbered_pattern(x, n).0, o) == run(o, n, count_pattern(x)),
    decreases x, 0int,
{
    lemma_run_one(o, n);
    let c0 = count_pattern_kind(x.kind);
    lemma_pattern_kind(x.kind, nth(n, 1nat), run(o, n, 1nat));
    lemma_run(o, n, 1nat, c0);
}

proof fn lemma_pattern_kind(x: SPatternKind, n: u32, o: Seq<ExprId>)
    ensures
        numbered_pattern_kind(x, n).1 == nth(n, count_pattern_kind(x)),
        ids_pattern_kind(numbered_pattern_kind(x, n).0, o) == run(o, n, count_pattern_kind(x)),
    decreases x, 0int,
{
    match x {
        SPatternKind::Record { fields, .. } => {
            lemma_run_none(o, n);
            let c0 = count_field_pat_list(fields, fields.len() as int);
            lemma_field_pat_list(fields, fields.len() as int, nth(n, 0nat), run(o, n, 0nat));
            lemma_run(o, n, 0nat, c0);
        },
        SPatternKind::Tuple(a) => {
            lemma_run_none(o, n);
            let c0 = count_pattern_list(a, a.len() as int);
            lemma_pattern_list(a, a.len() as int, nth(n, 0nat), run(o, n, 0nat));
            lemma_run(o, n, 0nat, c0);
        },
        SPatternKind::Literal(a) => {
            lemma_run_none(o, n);
            let c0 = count_expr(*a);
            lemma_expr(*a, nth(n, 0nat), run(o, n, 0nat));
            lemma_run(o, n, 0nat, c0);
        },
        _ => lemma_run_none(o, n),
    }
}

proof fn lemma_field_pat(x: SFieldPat, n: u32, o: Seq<ExprId>)
    ensures
        numbered_field_pat(x, n).1 == nth(n, count_field_pat(x)),
        ids_field_pat(numbered_field_pat(x, n).0, o) == run(o, n, count_field_pat(x)),
    decreases x, 0int,
{
    lemma_run_none(o, n);
    let c0 = count_pattern_opt(x.pat);
    lemma_pattern_opt(x.pat, nth(n, 0nat), run(o, n, 0nat));
    lemma_run(o, n, 0nat, c0);
}

/// Numbering puts the numbers of a module behind others without a gap.
pub proof fn lemma_module(x: SModule, n: u32, o: Seq<ExprId>)
    ensures
        numbered_module(x, n).1 == nth(n, count_module(x)),
        ids_module(numbered_module(x, n).0, o) == run(o, n, count_module(x)),
    decreases x, 0int,
{
    lemma_run_none(o, n);
    let c0 = count_decl_list(x.decls, x.decls.len() as int);
    lemma_decl_list(x.decls, x.decls.len() as int, nth(n, 0nat), run(o, n, 0nat));
    lemma_run(o, n, 0nat, c0);
}

proof fn lemma_decl(x: SDecl, n: u32, o: Seq<ExprId>)
    ensures
        numbered_decl(x, n).1 == nth(n, count_decl(x)),
        ids_decl(numbered_decl(x, n).0, o) == run(o, n, count_decl(x)),
    decreases x, 0int,
{
    lemma_run_none(o, n);
    let c0 = count_decl_kind(x.kind);
    lemma_decl_kind(x.kind, nth(n, 0nat), run(o, n, 0nat));
    lemma_run(o, n, 0nat, c0);
}

proof fn lemma_decl_kind(x: SDeclKind, n: u32, o: Seq<ExprId>)
    ensures
        numbered_decl_kind(x, n).1 == nth(n, count_decl_kind(x)),
        ids_decl_kind(numbered_decl_kind(x, n).0, o) == run(o, n, count_decl_kind(x)),
    decreases x, 0int,
{
    match x {
        SDeclKind::Fn(a) => {
            lemma_run_none(o, n);
            let c0 = count_fn_decl(a);
            lemma_fn_decl(a, nth(n, 0nat), run(o, n, 0nat));
            lemma_run(o, n, 0nat, c0);
        },
        SDeclKind::Protocol(a) => {
            lemma_run_none(o, n);
            let c0 = count_protocol_decl(a);
            lemma_protocol_decl(a, nth(n, 0nat), run(o, n, 0nat));
            lemma_run(o, n, 0nat, c0);
        },
        SDeclKind::Impl(a) => {
            lemma_run_none(o, n);
            let c0 = count_impl_decl(a);
            lemma_impl_decl(a, nth(n, 0nat), run(o, n, 0nat));
            lemma_run(o, n, 0nat, c0);
        },
        SDeclKind::Mod(a) => {
            lemma_run_none(o, n);
            let c0 = count_mod_decl(a);
            lemma_mod_decl(a, nth(n, 0nat), run(o, n, 0nat));
            lemma_run(o, n, 0nat, c0);
        },
        SDeclKind::Const(a) => {
            lemma_run_none(o, n);
            let c0 = count_const_decl(a);
            lemma_const_decl(a, nth(n, 0nat), run(o, n, 0nat));
            lemma_run(o, n, 0nat, c0);
        },
        SDeclKind::TestBlock(a) => {
            lemma_run_none(o, n);
            let c0 = count_test_block(a);
            lemma_test_block(a, nth(n, 0nat), run(o, n, 0nat));
            lemma_run(o, n, 0nat, c0);
        },
        _ => lemma_run_none(o, n),
    }
}

proof fn lemma_fn_decl(x: SFnDecl, n: u32, o: Seq<ExprId>)
    ensures
        numbered_fn_decl(x, n).1 == nth(n, count_fn_decl(x)),
        ids_fn_decl(numbered_fn_decl(x, n).0, o) == run(o, n, count_fn_decl(x)),
    decreases x, 0int,
{
    lemma_run_none(o, n);
    let c0 = count_block_opt(x.body);
    lemma_block_opt(x.body, nth(n, 0nat), run(o, n, 0nat));
    lemma_run(o, n, 0nat, c0);
}

proof fn lemma_protocol_decl(x: SProtocolDecl, n: u32, o: Seq<ExprId>)
    ensures
        numbered_protocol_decl(x, n).1 == nth(n, count_protocol_decl(x)),
        ids_protocol_decl(numbered_protocol_decl(x, n).0, o) == run(o, n, count_protocol_decl(x)),
    decreases x, 0int,
{
    lemma_run_none(o, n);
    let c0 = count_fn_decl_list(x.methods, x.methods.len() as int);
    lemma_fn_decl_list(x.methods, x.methods.len() as int, nth(n, 0nat), run(o, n, 0nat));
    lemma_run(o, n, 0nat, c0);
}

proof fn lemma_impl_decl(x: SImplDecl, n: u32, o: Seq<ExprId>)
    ensures
        numbered_impl_decl(x, n).1 == nth(n, count_impl_decl(x)),
        ids_impl_decl(numbered_impl_decl(x, n).0, o) == run(o, n, count_impl_decl(x)),
    decreases x, 0int,
{
    lemma_run_none(o, n);
    let c0 = count_fn_decl_list(x.methods, x.methods.len() as int);
    lemma_fn_decl_list(x.methods, x.methods.len() as int, nth(n, 0nat), run(o, n, 0nat));
    lemma_run(o, n, 0nat, c0);
}

proof fn lemma_mod_decl(x: SModDecl, n: u32, o: Seq<ExprId>)
    ensures
        numbered_mod_decl(x, n).1 == nth(n, count_mod_decl(x)),
        ids_mod_decl(numbered_mod_decl(x, n).0, o) == run(o, n, count_mod_decl(x)),
    decreases x, 0int,
{
    lemma_run_none(o, n);
    let c0 = count_decl_list(x.decls, x.decls.len() as int);
    lemma_decl_list(x.decls, x.decls.len() as int, nth(n, 0nat), run(o, n, 0nat));
    lemma_run(o, n, 0nat, c0);
}

proof fn lemma_const_decl(x: SConstDecl, n: u32, o: Seq<ExprId>)
    ensures
        numbered_const_decl(x, n).1 == nth(n, count_const_decl(x)),
        ids_const_decl(numbered_const_decl(x, n).0, o) == run(o, n, count_const_decl(x)),
    decreases x, 0int,
{
    lemma_run_none(o, n);
    let c0 = count_expr(x.value);
    lemma_expr(x.value, nth(n, 0nat), run(o, n, 0nat));
    lemma_run(o, n, 0nat, c0);
}

proof fn lemma_test_block(x: STestBlock, n: u32, o: Seq<ExprId>)
    ensures
        numbered_test_block(x, n).1 == nth(n, count_test_block(x)),
        ids_test_block(numbered_test_block(x, n).0, o) == run(o, n, count_test_block(x)),
    decreases x, 0int,
{
    lemma_run_none(o, n);
    let c0 = count_block(x.body);
    lemma_block(x.body, nth(n, 0nat), run(o, n, 0nat));
    lemma_run(o, n, 0nat, c0);
}

proof fn lemma_str_part_prefix(a: Seq<SStrPart>, b: Seq<SStrPart>, k: int, o: Seq<ExprId>)
    requires
        k <= a.len(),
        k <= b.len(),
        forall|i: int| 0 <= i < k ==> a[i] == b[i],
    ensures
        ids_str_part_list(a, k, o) == ids_str_part_list(b, k, o),
    decreases k,
{
    if k > 0 {
        lemma_str_part_prefix(a, b, k - 1, o);
        assert(a[k - 1] == b[k - 1]);
    }
}

proof fn lemma_str_part_list(s: Seq<SStrPart>, k: int, n: u32, o: Seq<ExprId>)
    requires
        0 <= k <= s.len(),
    ensures
        numbered_str_part_list(s, k, n).0.len() == k,
        numbered_str_part_list(s, k, n).1 == nth(n, count_str_part_list(s, k)),
        ids_str_part_list(numbered_str_part_list(s, k, n).0, k, o) == run(o, n, count_str_part_list(s, k)),
    decreases s, k,
{
    if k > 0 {
        lemma_str_part_list(s, k - 1, n, o);
        let (ys, m) = numbered_str_part_list(s, k - 1, n);
        let c = count_str_part_list(s, k - 1);
        lemma_str_part(s[k - 1], m, run(o, n, c));
        let zs = ys.push(numbered_str_part(s[k - 1], m).0);
        lemma_str_part_prefix(ys, zs, k - 1, o);
        assert(zs[k - 1] == numbered_str_part(s[k - 1], m).0);
        lemma_run(o, n, c, count_str_part(s[k - 1]));
    } else {
        lemma_run_none(o, n);
    }
}

proof fn lemma_expr_prefix(a: Seq<SExpr>, b: Seq<SExpr>, k: int, o: Seq<ExprId>)
    requires
        k <= a.len(),
        k <= b.len(),
        forall|i: int| 0 <= i < k ==> a[i] == b[i],
    ensures
        ids_expr_list(a, k, o) == ids_expr_list(b, k, o),
    decreases k,
{
    if k > 0 {
        lemma_expr_prefix(a, b, k - 1, o);
        assert(a[k - 1] == b[k - 1]);
    }
}

proof fn lemma_expr_list(s: Seq<SExpr>, k: int, n: u32, o: Seq<ExprId>)
    requires
        0 <= k <= s.len(),
    ensures
        numbered_expr_list(s, k, n).0.len() == k,
        numbered_expr_list(s, k, n).1 == nth(n, count_expr_list(s, k)),
        ids_expr_list(numbered_expr_list(s, k, n).0, k, o) == run(o, n, count_expr_list(s, k)),
    decreases s, k,
{
    if k > 0 {
        lemma_expr_list(s, k - 1, n, o);
        let (ys, m) = numbered_expr_list(s, k - 1, n);
        let c = count_expr_list(s, k - 1);
        lemma_expr(s[k - 1], m, run(o, n, c));
        let zs = ys.push(numbered_expr(s[k - 1], m).0);
        lemma_expr_prefix(ys, zs, k - 1, o);
        assert(zs[k - 1] == numbered_expr(s[k - 1], m).0);
        lemma_run(o, n, c, count_expr(s[k - 1]));
    } else {
        lemma_run_none(o, n);
    }
}

proof fn lemma_elem_prefix(a: Seq<SElem>, b: Seq<SElem>, k: int, o: Seq<ExprId>)
    requires
        k <= a.len(),
        k <= b.len(),
        forall|i: int| 0 <= i < k ==> a[i] == b[i],
    ensures
        ids_elem_list(a, k, o) == ids_elem_list(b, k, o),
    decreases k,
{
    if k > 0 {
        lemma_elem_prefix(a, b, k - 1, o);
        assert(a[k - 1] == b[k - 1]);
    }
}

proof fn lemma_elem_list(s: Seq<SElem>, k: int, n: u32, o: Seq<ExprId>)
    requires
        0 <= k <= s.len(),
    ensures
        numbered_elem_list(s, k, n).0.len() == k,
        numbered_elem_list(s, k, n).1 == nth(n, count_elem_list(s, k)),
        ids_elem_list(numbered_elem_list(s, k, n).0, k, o) == run(o, n, count_elem_list(s, k)),
    decreases s, k,
{
    if k > 0 {
        lemma_elem_list(s, k - 1, n, o);
        let (ys, m) = numbered_elem_list(s, k - 1, n);
        let c = count_elem_list(s, k - 1);
        lemma_elem(s[k - 1], m, run(o, n, c));
        let zs = ys.push(numbered_elem(s[k - 1], m).0);
        lemma_elem_prefix(ys, zs, k - 1, o);
        assert(zs[k - 1] == numbered_elem(s[k - 1], m).0);
        lemma_run(o, n, c, count_elem(s[k - 1]));
    } else {
        lemma_run_none(o, n);
    }
}

proof fn lemma_field_init_prefix(a: Seq<SFieldInit>, b: Seq<SFieldInit>, k: int, o: Seq<ExprId>)
    requires
        k <= a.len(),
        k <= b.len(),
        forall|i: int| 0 <= i < k ==> a[i] == b[i],
    ensures
        ids_field_init_list(a, k, o) == ids_field_init_list(b, k, o),
    decreases k,
{
    if k > 0 {
        lemma_field_init_prefix(a, b, k - 1, o);
        assert(a[k - 1] == b[k - 1]);
    }
}

proof fn lemma_field_init_list(s: Seq<SFieldInit>, k: int, n: u32, o: Seq<ExprId>)
    requires
        0 <= k <= s.len(),
    ensures
        numbered_field_init_list(s, k, n).0.len() == k,
        numbered_field_init_list(s, k, n).1 == nth(n, count_field_init_list(s, k)),
        ids_field_init_list(numbered_field_init_list(s, k, n).0, k, o) == run(o, n, count_field_init_list(s, k)),
    decreases s, k,
{
    if k > 0 {
        lemma_field_init_list(s, k - 1, n, o);
        let (ys, m) = numbered_field_init_list(s, k - 1, n);
        let c = count_field_init_list(s, k - 1);
        lemma_field_init(s[k - 1], m, run(o, n, c));
        let zs = ys.push(numbered_field_init(s[k - 1], m).0);
        lemma_field_init_prefix(ys, zs, k - 1, o);
        assert(zs[k - 1] == numbered_field_init(s[k - 1], m).0);
        lemma_run(o, n, c, count_field_init(s[k - 1]));
    } else {
        lemma_run_none(o, n);
    }
}

proof fn lemma_match_arm_prefix(a: Seq<SMatchArm>, b: Seq<SMatchArm>, k: int, o: Seq<ExprId>)
    requires
        k <= a.len(),
        k <= b.len(),
        forall|i: int| 0 <= i < k ==> a[i] == b[i],
    ensures
        ids_match_arm_list(a, k, o) == ids_match_arm_list(b, k, o),
    decreases k,
{
    if k > 0 {
        lemma_match_arm_prefix(a, b, k - 1, o);
        assert(a[k - 1] == b[k - 1]);
    }
}

proof fn lemma_match_arm_list(s: Seq<SMatchArm>, k: int, n: u32, o: Seq<ExprId>)
    requires
        0 <= k <= s.len(),
    ensures
        numbered_match_arm_list(s, k, n).0.len() == k,
        numbered_match_arm_list(s, k, n).1 == nth(n, count_match_arm_list(s, k)),
        ids_match_arm_list(numbered_match_arm_list(s, k, n).0, k, o) == run(o, n, count_match_arm_list(s, k)),
    decreases s, k,
{
    if k > 0 {
        lemma_match_arm_list(s, k - 1, n, o);
        let (ys, m) = numbered_match_arm_list(s, k - 1, n);
        let c = count_match_arm_list(s, k - 1);
        lemma_match_arm(s[k - 1], m, run(o, n, c));
        let zs = ys.push(numbered_match_arm(s[k - 1], m).0);
        lemma_match_arm_prefix(ys, zs, k - 1, o);
        assert(zs[k - 1] == numbered_match_arm(s[k - 1], m).0);
        lemma_run(o, n, c, count_match_arm(s[k - 1]));
    } else {
        lemma_run_none(o, n);
    }
}

proof fn lemma_stmt_prefix(a: Seq<SStmt>, b: Seq<SStmt>, k: int, o: Seq<ExprId>)
    requires
        k <= a.len(),
        k <= b.len(),
        forall|i: int| 0 <= i < k ==> a[i] == b[i],
    ensures
        ids_stmt_list(a, k, o) == ids_stmt_list(b, k, o),
    decreases k,
{
    if k > 0 {
        lemma_stmt_prefix(a, b, k - 1, o);
        assert(a[k - 1] == b[k - 1]);
    }
}

proof fn lemma_stmt_list(s: Seq<SStmt>, k: int, n: u32, o: Seq<ExprId>)
    requires
        0 <= k <= s.len(),
    ensures
        numbered_stmt_list(s, k, n).0.len() == k,
        numbered_stmt_list(s, k, n).1 == nth(n, count_stmt_list(s, k)),
        ids_stmt_list(numbered_stmt_list(s, k, n).0, k, o) == run(o, n, count_stmt_list(s, k)),
    decreases s, k,
{
    if k > 0 {
        lemma_stmt_list(s, k - 1, n, o);
        let (ys, m) = numbered_stmt_list(s, k - 1, n);
        let c = count_stmt_list(s, k - 1);
        lemma_stmt(s[k - 1], m, run(o, n, c));
        let zs = ys.push(numbered_stmt(s[k - 1], m).0);
        lemma_stmt_prefix(ys, zs, k - 1, o);
        assert(zs[k - 1] == numbered_stmt(s[k - 1], m).0);
        lemma_run(o, n, c, count_stmt(s[k - 1]));
    } else {
        lemma_run_none(o, n);
    }
}

proof fn lemma_field_pat_prefix(a: Seq<SFieldPat>, b: Seq<SFieldPat>, k: int, o: Seq<ExprId>)
    requires
        k <= a.len(),
        k <= b.len(),
        forall|i: int| 0 <= i < k ==> a[i] == b[i],
    ensures
        ids_field_pat_list(a, k, o) == ids_field_pat_list(b, k, o),
    decreases k,
{
    if k > 0 {
        lemma_field_pat_prefix(a, b, k - 1, o);
        assert(a[k - 1] == b[k - 1]);
    }
}

proof fn lemma_field_pat_list(s: Seq<SFieldPat>, k: int, n: u32, o: Seq<ExprId>)
    requires
        0 <= k <= s.len(),
    ensures
        numbered_field_pat_list(s, k, n).0.len() == k,
        numbered_field_pat_list(s, k, n).1 == nth(n, count_field_pat_list(s, k)),
        ids_field_pat_list(numbered_field_pat_list(s, k, n).0, k, o) == run(o, n, count_field_pat_list(s, k)),
    decreases s, k,
{
    if k > 0 {
        lemma_field_pat_list(s, k - 1, n, o);
        let (ys, m) = numbered_field_pat_list(s, k - 1, n);
        let c = count_field_pat_list(s, k - 1);
        lemma_field_pat(s[k - 1], m, run(o, n, c));
        let zs = ys.push(numbered_field_pat(s[k - 1], m).0);
        lemma_field_pat_prefix(ys, zs, k - 1, o);
        assert(zs[k - 1] == numbered_field_pat(s[k - 1], m).0);
        lemma_run(o, n, c, count_field_pat(s[k - 1]));
    } else {
        lemma_run_none(o, n);
    }
}

proof fn lemma_pattern_prefix(a: Seq<SPattern>, b: Seq<SPattern>, k: int, o: Seq<ExprId>)
    requires
        k <= a.len(),
        k <= b.len(),
        forall|i: int| 0 <= i < k ==> a[i] == b[i],
    ensures
        ids_pattern_list(a, k, o) == ids_pattern_list(b, k, o),
    decreases k,
{
    if k > 0 {
        lemma_pattern_prefix(a, b, k - 1, o);
        assert(a[k - 1] == b[k - 1]);
    }
}

proof fn lemma_pattern_list(s: Seq<SPattern>, k: int, n: u32, o: Seq<ExprId>)
    requires
        0 <= k <= s.len(),
    ensures
        numbered_pattern_list(s, k, n).0.len() == k,
        numbered_pattern_list(s, k, n).1 == nth(n, count_pattern_list(s, k)),
        ids_pattern_list(numbered_pattern_list(s, k, n).0, k, o) == run(o, n, count_pattern_list(s, k)),
    decreases s, k,
{
    if k > 0 {
        lemma_pattern_list(s, k - 1, n, o);
        let (ys, m) = numbered_pattern_list(s, k - 1, n);
        let c = count_pattern_list(s, k - 1);
        lemma_pattern(s[k - 1], m, run(o, n, c));
        let zs = ys.push(numbered_pattern(s[k - 1], m).0);
        lemma_pattern_prefix(ys, zs, k - 1, o);
        assert(zs[k - 1] == numbered_pattern(s[k - 1], m).0);
        lemma_run(o, n, c, count_pattern(s[k - 1]));
    } else {
        lemma_run_none(o, n);
    }
}

proof fn lemma_decl_prefix(a: Seq<SDecl>, b: Seq<SDecl>, k: int, o: Seq<ExprId>)
    requires
        k <= a.len(),
        k <= b.len(),
        forall|i: int| 0 <= i < k ==> a[i] == b[i],
    ensures
        ids_decl_list(a, k, o) == ids_decl_list(b, k, o),
    decreases k,
{
    if k > 0 {
        lemma_decl_prefix(a, b, k - 1, o);
        assert(a[k - 1] == b[k - 1]);
    }
}

proof fn lemma_decl_list(s: Seq<SDecl>, k: int, n: u32, o: Seq<ExprId>)
    requires
        0 <= k <= s.len(),
    ensures
        numbered_decl_list(s, k, n).0.len() == k,
        numbered_decl_list(s, k, n).1 == nth(n, count_decl_list(s, k)),
        ids_decl_list(numbered_decl_list(s, k, n).0, k, o) == run(o, n, count_decl_list(s, k)),
    decreases s, k,
{
    if k > 0 {
        lemma_decl_list(s, k - 1, n, o);
        let (ys, m) = numbered_decl_list(s, k - 1, n);
        let c = count_decl_list(s, k - 1);
        lemma_decl(s[k - 1], m, run(o, n, c));
        let zs = ys.push(numbered_decl(s[k - 1], m).0);
        lemma_decl_prefix(ys, zs, k - 1, o);
        assert(zs[k - 1] == numbered_decl(s[k - 1], m).0);
        lemma_run(o, n, c, count_decl(s[k - 1]));
    } else {
        lemma_run_none(o, n);
    }
}

proof fn lemma_fn_decl_prefix(a: Seq<SFnDecl>, b: Seq<SFnDecl>, k: int, o: Seq<ExprId>)
    requires
        k <= a.len(),
        k <= b.len(),
        forall|i: int| 0 <= i < k ==> a[i] == b[i],
    ensures
        ids_fn_decl_list(a, k, o) == ids_fn_decl_list(b, k, o),
    decreases k,
{
    if k > 0 {
        lemma_fn_decl_prefix(a, b, k - 1, o);
        assert(a[k - 1] == b[k - 1]);
    }
}

proof fn lemma_fn_decl_list(s: Seq<SFnDecl>, k: int, n: u32, o: Seq<ExprId>)
    requires
        0 <= k <= s.len(),
    ensures
        numbered_fn_decl_list(s, k, n).0.len() == k,
        numbered_fn_decl_list(s, k, n).1 == nth(n, count_fn_decl_list(s, k)),
        ids_fn_decl_list(numbered_fn_decl_list(s, k, n).0, k, o) == run(o, n, count_fn_decl_list(s, k)),
    decreases s, k,
{
    if k > 0 {
        lemma_fn_decl_list(s, k - 1, n, o);
        let (ys, m) = numbered_fn_decl_list(s, k - 1, n);
        let c = count_fn_decl_list(s, k - 1);
        lemma_fn_decl(s[k - 1], m, run(o, n, c));
        let zs = ys.push(numbered_fn_decl(s[k - 1], m).0);
        lemma_fn_decl_prefix(ys, zs, k - 1, o);
        assert(zs[k - 1] == numbered_fn_decl(s[k - 1], m).0);
        lemma_run(o, n, c, count_fn_decl(s[k - 1]));
    } else {
        lemma_run_none(o, n);
    }
}

proof fn lemma_catch_arm_opt(x: Option<SCatchArm>, n: u32, o: Seq<ExprId>)
    ensures
        numbered_catch_arm_opt(x, n).1 == nth(n, count_catch_arm_opt(x)),
        ids_catch_arm_opt(numbered_catch_arm_opt(x, n).0, o) == run(o, n, count_catch_arm_opt(x)),
    decreases x, 0int,
{
    match x {
        Some(a) => lemma_catch_arm(a, n, o),
        None => lemma_run_none(o, n),
    }
}

proof fn lemma_expr_opt(x: Option<SExpr>, n: u32, o: Seq<ExprId>)
    ensures
        numbered_expr_opt(x, n).1 == nth(n, count_expr_opt(x)),
        ids_expr_opt(numbered_expr_opt(x, n).0, o) == run(o, n, count_expr_opt(x)),
    decreases x, 0int,
{
    match x {
        Some(a) => lemma_expr(a, n, o),
        None => lemma_run_none(o, n),
    }
}

proof fn lemma_pattern_opt(x: Option<SPattern>, n: u32, o: Seq<ExprId>)
    ensures
        numbered_pattern_opt(x, n).1 == nth(n, count_pattern_opt(x)),
        ids_pattern_opt(numbered_pattern_opt(x, n).0, o) == run(o, n, count_pattern_opt(x)),
    decreases x, 0int,
{
    match x {
        Some(a) => lemma_pattern(a, n, o),
        None => lemma_run_none(o, n),
    }
}

proof fn lemma_block_opt(x: Option<SBlock>, n: u32, o: Seq<ExprId>)
    ensures
        numbered_block_opt(x, n).1 == nth(n, count_block_opt(x)),
        ids_block_opt(numbered_block_opt(x, n).0, o) == run(o, n, count_block_opt(x)),
    decreases x, 0int,
{
    match x {
        Some(a) => lemma_block(a, n, o),
        None => lemma_run_none(o, n),
    }
}

proof fn lemma_expr_opt_box(x: Option<Box<SExpr>>, n: u32, o: Seq<ExprId>)
    ensures
        numbered_expr_opt_box(x, n).1 == nth(n, count_expr_opt_box(x)),
        ids_expr_opt_box(numbered_expr_opt_box(x, n).0, o) == run(o, n, count_expr_opt_box(x)),
    decreases x, 0int,
{
    match x {
        Some(a) => lemma_expr(*a, n, o),
        None => lemma_run_none(o, n),
    }
}

/// The expressions and patterns of a module get the numbers from `n` on, one after the other
/// and each once, as long as there are no more of them than there are numbers; the next
/// number is the one after the last.
pub proof fn numbers_run_on(m: SModule, n: u32)
    ensures
        numbered_module(m, n).1 == nth(n, count_module(m)),
        ids_module(numbered_module(m, n).0, seq![]) == Seq::new(
            count_module(m),
            |i: int| ExprId(nth(n, i as nat)),
        ),
        count_module(m) <= 0x1_0000_0000 ==> ids_module(
            numbered_module(m, n).0,
            seq![],
        ).no_duplicates(),
{
    lemma_module(m, n, seq![]);
    if count_module(m) <= 0x1_0000_0000 {
        lemma_run_apart(n, count_module(m));
    }
    reveal(run);
    assert(run(seq![], n, count_module(m)) =~= Seq::new(
        count_module(m),
        |i: int| ExprId(nth(n, i as nat)),
    ));
}

} // verus!
