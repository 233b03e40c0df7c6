//! Which names an expression uses and which it assigns.

use crate::ast::{
    Block, CatchArm, Elem, Expr, ExprKind, FieldInit, FieldPat, LambdaParam, MatchArm, Pattern,
    PatternKind, Stmt, StmtKind,
};
use crate::syntax::{
    lemma_elems_of, lemma_exprs_of, lemma_field_inits_of, lemma_field_pats_of,
    lemma_lambda_params_of, lemma_match_arms_of, lemma_patterns_of, lemma_stmts_of, names_of, sems,
    Node, SBlock, SCatchArm, SElem, SExpr, SExprKind, SFieldInit, SFieldPat, SLambdaParam,
    SMatchArm, SPattern, SPatternKind, SStmt, SStmtKind,
};
use crate::text::str_eq;
use vstd::prelude::*;

verus! {

// ---- the names that a pattern binds ----

/// The names that a pattern binds, in order. A field without a pattern of its own binds its
/// name.
pub open spec fn pattern_names(p: SPattern) -> Seq<Seq<char>>
    decreases p, 0int,
{
    match p.kind {
        SPatternKind::Bind(n) => seq![n],
        SPatternKind::Tuple(ps) => patterns_names(ps, ps.len() as int),
        SPatternKind::Record { fields, .. } => fields_names(fields, fields.len() as int),
        _ => seq![],
    }
}

pub open spec fn patterns_names(ps: Seq<SPattern>, k: int) -> Seq<Seq<char>>
    decreases ps, k,
{
    if 0 < k <= ps.len() {
        patterns_names(ps, k - 1) + pattern_names(ps[k - 1])
    } else {
        seq![]
    }
}

pub open spec fn field_names(f: SFieldPat) -> Seq<Seq<char>>
    decreases f, 0int,
{
    match f.pat {
        Some(p) => pattern_names(p),
        None => seq![f.name],
    }
}

pub open spec fn fields_names(fs: Seq<SFieldPat>, k: int) -> Seq<Seq<char>>
    decreases fs, k,
{
    if 0 < k <= fs.len() {
        fields_names(fs, k - 1) + field_names(fs[k - 1])
    } else {
        seq![]
    }
}

// ---- free names ----

/// A scan for free names: what is bound where it stands, and what it has found.
pub struct Scan {
    pub bound: Seq<Seq<char>>,
    /// In the order of their uses, with repetitions.
    pub used: Seq<Seq<char>>,
}

/// What a scan has found within a scope of its own.
pub open spec fn leaving(s: Scan, inner: Scan) -> Scan {
    Scan { bound: s.bound, used: inner.used }
}

pub open spec fn binding(s: Scan, names: Seq<Seq<char>>) -> Scan {
    Scan { bound: s.bound + names, used: s.used }
}

pub open spec fn lambda_names(ps: Seq<SLambdaParam>) -> Seq<Seq<char>> {
    Seq::new(ps.len(), |i: int| ps[i].name)
}

/// The free names of an expression. Only a name on its own is a variable; a longer path
/// names an item of a module.
///
/// Blocks, lambdas, arms, loops over lists and handlers have scopes of their own.
pub open spec fn free_expr(e: SExpr, s: Scan) -> Scan
    decreases e, 0int,
{
    match e.kind {
        SExprKind::Path(p) => if p.len() == 1 && !s.bound.contains(p[0]) {
            Scan { bound: s.bound, used: s.used.push(p[0]) }
        } else {
            s
        },
        SExprKind::Lambda { params, body } => leaving(
            s,
            free_expr(*body, binding(s, lambda_names(params))),
        ),
        SExprKind::Unary { rhs, .. } => free_expr(*rhs, s),
        SExprKind::Binary { lhs, rhs, .. } => {
            let a = free_expr(*lhs, s);
            free_expr(*rhs, a)
        },
        SExprKind::Call { callee, args, .. } => {
            let a = free_expr(*callee, s);
            free_es(args, args.len() as int, a)
        },
        SExprKind::Index { base, index } => {
            let a = free_expr(*base, s);
            free_expr(*index, a)
        },
        SExprKind::Field { base, .. } => free_expr(*base, s),
        SExprKind::List(a) => free_elems(a, a.len() as int, s),
        SExprKind::RecordLit { fields, spread, .. } => {
            let a = free_inits(fields, fields.len() as int, s);
            free_opt(spread, a)
        },
        SExprKind::Tuple(a) => free_es(a, a.len() as int, s),
        SExprKind::If { cond, then, else_ } => {
            let a = free_expr(*cond, s);
            let b = free_block(then, a);
            free_opt(else_, b)
        },
        SExprKind::Match { scrutinee, arms } => {
            let a = free_expr(*scrutinee, s);
            free_arms(arms, arms.len() as int, a)
        },
        SExprKind::Block(a) => free_block(a, s),
        SExprKind::Loop { body } => free_block(body, s),
        SExprKind::While { cond, body } => {
            let a = free_expr(*cond, s);
            free_block(body, a)
        },
        SExprKind::For { pat, iter, body } => {
            let a = free_expr(*iter, s);
            leaving(a, free_block(body, binding(a, pattern_names(pat))))
        },
        SExprKind::Break(a) => free_opt(a, s),
        SExprKind::Return(a) => free_opt(a, s),
        SExprKind::Throw(a) => free_expr(*a, s),
        SExprKind::Try { body, catch, .. } => {
            let a = free_expr(*body, s);
            free_catch(catch, a)
        },
        SExprKind::Is { lhs, .. } => free_expr(*lhs, s),
        SExprKind::As { lhs, .. } => free_expr(*lhs, s),
        SExprKind::Assert { args, .. } => free_es(args, args.len() as int, s),
        _ => s,
    }
}

pub open spec fn free_opt(e: Option<Box<SExpr>>, s: Scan) -> Scan
    decreases e, 0int,
{
    match e {
        Some(e) => free_expr(*e, s),
        None => s,
    }
}

pub open spec fn free_es(es: Seq<SExpr>, k: int, s: Scan) -> Scan
    decreases es, k,
{
    if 0 < k <= es.len() {
        free_expr(es[k - 1], free_es(es, k - 1, s))
    } else {
        s
    }
}

pub open spec fn free_elem(e: SElem, s: Scan) -> Scan
    decreases e, 0int,
{
    match e {
        SElem::Value(x) => free_expr(x, s),
        SElem::Spread(x) => free_expr(x, s),
    }
}

pub open spec fn free_elems(es: Seq<SElem>, k: int, s: Scan) -> Scan
    decreases es, k,
{
    if 0 < k <= es.len() {
        free_elem(es[k - 1], free_elems(es, k - 1, s))
    } else {
        s
    }
}

pub open spec fn free_inits(fs: Seq<SFieldInit>, k: int, s: Scan) -> Scan
    decreases fs, k,
{
    if 0 < k <= fs.len() {
        free_expr(fs[k - 1].value, free_inits(fs, k - 1, s))
    } else {
        s
    }
}

pub open spec fn free_arm(a: SMatchArm, s: Scan) -> Scan
    decreases a, 0int,
{
    let i = binding(s, pattern_names(a.pat));
    let g = match a.guard {
        Some(g) => free_expr(g, i),
        None => i,
    };
    leaving(s, free_expr(a.body, g))
}

pub open spec fn free_arms(xs: Seq<SMatchArm>, k: int, s: Scan) -> Scan
    decreases xs, k,
{
    if 0 < k <= xs.len() {
        free_arm(xs[k - 1], free_arms(xs, k - 1, s))
    } else {
        s
    }
}

pub open spec fn free_catch(c: Option<SCatchArm>, s: Scan) -> Scan
    decreases c, 0int,
{
    match c {
        Some(c) => leaving(s, free_block(c.body, binding(s, seq![c.binding]))),
        None => s,
    }
}

pub open spec fn free_stmt(x: SStmt, s: Scan) -> Scan
    decreases x, 0int,
{
    match x.kind {
        SStmtKind::Let { pat, value, .. } => binding(free_expr(value, s), pattern_names(pat)),
        SStmtKind::Assign { value, .. } => free_expr(value, s),
        SStmtKind::Expr(e) => free_expr(e, s),
        SStmtKind::Error => s,
    }
}

pub open spec fn free_stmts(xs: Seq<SStmt>, k: int, s: Scan) -> Scan
    decreases xs, k,
{
    if 0 < k <= xs.len() {
        free_stmt(xs[k - 1], free_stmts(xs, k - 1, s))
    } else {
        s
    }
}

/// The free names of a block. What a `let` binds is bound in the rest of the block.
pub open spec fn free_block(b: SBlock, s: Scan) -> Scan
    decreases b, 0int,
{
    leaving(s, free_opt(b.tail, free_stmts(b.stmts, b.stmts.len() as int, s)))
}

// ---- assigned names ----

/// A scan for the names that an expression assigns, in order, with repetitions. A lambda
/// assigns none: it cannot rebind what it captures. What is bound inside is not the name
/// outside, and an assignment to it is none to that.
pub open spec fn assigning_expr(e: SExpr, s: Scan) -> Scan
    decreases e, 0int,
{
    match e.kind {
        SExprKind::Unary { rhs, .. } => assigning_expr(*rhs, s),
        SExprKind::Binary { lhs, rhs, .. } => assigning_expr(*rhs, assigning_expr(*lhs, s)),
        SExprKind::Call { callee, args, .. } => assigning_es(args, args.len() as int, assigning_expr(*callee, s)),
        SExprKind::Index { base, index } => assigning_expr(*index, assigning_expr(*base, s)),
        SExprKind::Field { base, .. } => assigning_expr(*base, s),
        SExprKind::List(a) => assigning_elems(a, a.len() as int, s),
        SExprKind::RecordLit { fields, spread, .. } => assigning_opt(spread, assigning_inits(fields, fields.len() as int, s)),
        SExprKind::Tuple(a) => assigning_es(a, a.len() as int, s),
        SExprKind::If { cond, then, else_ } => assigning_opt(else_, assigning_block(then, assigning_expr(*cond, s))),
        SExprKind::Match { scrutinee, arms } => assigning_arms(arms, arms.len() as int, assigning_expr(*scrutinee, s)),
        SExprKind::Block(a) => assigning_block(a, s),
        SExprKind::Loop { body } => assigning_block(body, s),
        SExprKind::While { cond, body } => assigning_block(body, assigning_expr(*cond, s)),
        SExprKind::For { pat, iter, body } => {
            let a = assigning_expr(*iter, s);
            leaving(a, assigning_block(body, binding(a, pattern_names(pat))))
        },
        SExprKind::Break(a) => assigning_opt(a, s),
        SExprKind::Return(a) => assigning_opt(a, s),
        SExprKind::Throw(a) => assigning_expr(*a, s),
        SExprKind::Try { body, catch, .. } => assigning_catch(catch, assigning_expr(*body, s)),
        SExprKind::Is { lhs, .. } => assigning_expr(*lhs, s),
        SExprKind::As { lhs, .. } => assigning_expr(*lhs, s),
        SExprKind::Assert { args, .. } => assigning_es(args, args.len() as int, s),
        _ => s,
    }
}

pub open spec fn assigning_opt(e: Option<Box<SExpr>>, s: Scan) -> Scan
    decreases e, 0int,
{
    match e {
        Some(e) => assigning_expr(*e, s),
        None => s,
    }
}

pub open spec fn assigning_es(xs: Seq<SExpr>, k: int, s: Scan) -> Scan
    decreases xs, k,
{
    if 0 < k <= xs.len() {
        assigning_expr(xs[k - 1], assigning_es(xs, k - 1, s))
    } else {
        s
    }
}

pub open spec fn assigning_elem(e: SElem, s: Scan) -> Scan
    decreases e, 0int,
{
    match e {
        SElem::Value(x) => assigning_expr(x, s),
        SElem::Spread(x) => assigning_expr(x, s),
    }
}

pub open spec fn assigning_elems(xs: Seq<SElem>, k: int, s: Scan) -> Scan
    decreases xs, k,
{
    if 0 < k <= xs.len() {
        assigning_elem(xs[k - 1], assigning_elems(xs, k - 1, s))
    } else {
        s
    }
}

pub open spec fn assigning_inits(xs: Seq<SFieldInit>, k: int, s: Scan) -> Scan
    decreases xs, k,
{
    if 0 < k <= xs.len() {
        assigning_expr(xs[k - 1].value, assigning_inits(xs, k - 1, s))
    } else {
        s
    }
}

pub open spec fn assigning_arm(a: SMatchArm, s: Scan) -> Scan
    decreases a, 0int,
{
    let b = binding(s, pattern_names(a.pat));
    leaving(
        s,
        match a.guard {
            Some(g) => assigning_expr(a.body, assigning_expr(g, b)),
            None => assigning_expr(a.body, b),
        },
    )
}

pub open spec fn assigning_arms(xs: Seq<SMatchArm>, k: int, s: Scan) -> Scan
    decreases xs, k,
{
    if 0 < k <= xs.len() {
        assigning_arm(xs[k - 1], assigning_arms(xs, k - 1, s))
    } else {
        s
    }
}

pub open spec fn assigning_catch(c: Option<SCatchArm>, s: Scan) -> Scan
    decreases c, 0int,
{
    match c {
        Some(c) => leaving(s, assigning_block(c.body, binding(s, seq![c.binding]))),
        None => s,
    }
}

pub open spec fn assigning_stmt(x: SStmt, s: Scan) -> Scan
    decreases x, 0int,
{
    match x.kind {
        SStmtKind::Let { pat, value, .. } => binding(assigning_expr(value, s), pattern_names(pat)),
        SStmtKind::Assign { name, value } => assigning_expr(value, noted(s, name)),
        SStmtKind::Expr(e) => assigning_expr(e, s),
        SStmtKind::Error => s,
    }
}

pub open spec fn assigning_stmts(xs: Seq<SStmt>, k: int, s: Scan) -> Scan
    decreases xs, k,
{
    if 0 < k <= xs.len() {
        assigning_stmt(xs[k - 1], assigning_stmts(xs, k - 1, s))
    } else {
        s
    }
}

/// A scan for the names that a block assigns. A `let` assigns nothing, and binds in the rest
/// of the block.
pub open spec fn assigning_block(b: SBlock, s: Scan) -> Scan
    decreases b, 0int,
{
    leaving(s, assigning_opt(b.tail, assigning_stmts(b.stmts, b.stmts.len() as int, s)))
}

/// A scan with a name noted, unless it is bound inside.
pub open spec fn noted(s: Scan, name: Seq<char>) -> Scan {
    if s.bound.contains(name) {
        s
    } else {
        Scan { bound: s.bound, used: s.used.push(name) }
    }
}

/// A scan at its start, with names found before.
pub open spec fn fresh(o: Seq<Seq<char>>) -> Scan {
    Scan { bound: seq![], used: o }
}

/// Names, with those added that a block assigns and that are bound outside it.
pub open spec fn assigned_block(b: SBlock, o: Seq<Seq<char>>) -> Seq<Seq<char>> {
    assigning_block(b, fresh(o)).used
}

pub open spec fn assigned_opt(e: Option<Box<SExpr>>, o: Seq<Seq<char>>) -> Seq<Seq<char>> {
    assigning_opt(e, fresh(o)).used
}

/// The names that the body of a loop over a list assigns and that are bound outside the
/// loop.
pub open spec fn assigned_round(pat: SPattern, body: SBlock) -> Seq<Seq<char>> {
    assigning_block(body, Scan { bound: pattern_names(pat), used: seq![] }).used
}

// ---- computing it ----

/// Collect the names that a pattern binds.
pub fn collect_pattern(p: &Pattern, out: &mut Vec<String>)
    ensures
        names_of(final(out)@) == names_of(old(out)@) + pattern_names(p.sem()),
    decreases p,
{
    let ghost o = names_of(out@);
    match &p.kind {
        PatternKind::Bind(n) => {
            out.push(n.clone());
            assert(names_of(out@) =~= o + seq![n@]);
        },
        PatternKind::Tuple(ps) => {
            collect_patterns(ps, out);
            proof {
                lemma_patterns_of(ps@);
            }
        },
        PatternKind::Record { fields, .. } => {
            collect_field_pats(fields, out);
            proof {
                lemma_field_pats_of(fields@);
            }
        },
        _ => {
            assert(names_of(out@) =~= o + seq![]);
        },
    }
}

fn collect_patterns(ps: &Vec<Pattern>, out: &mut Vec<String>)
    ensures
        names_of(final(out)@) == names_of(old(out)@) + patterns_names(sems(ps@), ps@.len() as int),
    decreases ps,
{
    let ghost o = names_of(out@);
    let mut i: usize = 0;
    assert(names_of(out@) =~= o + patterns_names(sems(ps@), 0));
    while i < ps.len()
        invariant
            i <= ps.len(),
            names_of(out@) == o + patterns_names(sems(ps@), i as int),
        decreases ps.len() - i,
    {
        assert(sems(ps@)[i as int] == ps[i as int].sem());
        collect_pattern(&ps[i], out);
        i += 1;
        assert(names_of(out@) =~= o + patterns_names(sems(ps@), i as int));
    }
}

fn collect_field_pats(fields: &Vec<FieldPat>, out: &mut Vec<String>)
    ensures
        names_of(final(out)@) == names_of(old(out)@) + fields_names(
            sems(fields@),
            fields@.len() as int,
        ),
    decreases fields,
{
    let ghost o = names_of(out@);
    let mut i: usize = 0;
    assert(names_of(out@) =~= o + fields_names(sems(fields@), 0));
    while i < fields.len()
        invariant
            i <= fields.len(),
            names_of(out@) == o + fields_names(sems(fields@), i as int),
        decreases fields.len() - i,
    {
        let f = &fields[i];
        assert(sems(fields@)[i as int] == f.sem());
        let ghost before = names_of(out@);
        match &f.pat {
            Some(q) => collect_pattern(q, out),
            None => out.push(f.name.clone()),
        }
        assert(names_of(out@) =~= before + field_names(f.sem()));
        i += 1;
        assert(names_of(out@) =~= o + fields_names(sems(fields@), i as int));
    }
}

fn is_among(names: &Vec<String>, name: &str) -> (r: bool)
    ensures
        r == names_of(names@).contains(name@),
{
    let ghost s = names_of(names@);
    let mut i: usize = 0;
    while i < names.len()
        invariant
            i <= names.len(),
            s == names_of(names@),
            forall|k: int| 0 <= k < i ==> #[trigger] s[k] != name@,
        decreases names.len() - i,
    {
        if str_eq(names[i].as_str(), name) {
            assert(s[i as int] == name@);
            return true;
        }
        i += 1;
    }
    false
}

/// A scan for names as it is made.
pub struct Found {
    pub bound: Vec<String>,
    pub used: Vec<String>,
}

impl View for Found {
    type V = Scan;

    open spec fn view(&self) -> Scan {
        Scan { bound: names_of(self.bound@), used: names_of(self.used@) }
    }
}

fn copy_names(ns: &Vec<String>) -> (r: Vec<String>)
    ensures
        names_of(r@) == names_of(ns@),
{
    let mut r: Vec<String> = Vec::new();
    let mut i: usize = 0;
    while i < ns.len()
        invariant
            i <= ns.len(),
            r.len() == i,
            forall|k: int| 0 <= k < i ==> (#[trigger] r[k])@ == ns[k]@,
        decreases ns.len() - i,
    {
        r.push(ns[i].clone());
        i += 1;
    }
    assert(names_of(r@) =~= names_of(ns@));
    r
}

fn bind_params(params: &Vec<LambdaParam>, bound: &mut Vec<String>)
    ensures
        names_of(final(bound)@) == names_of(old(bound)@) + lambda_names(sems(params@)),
{
    let ghost o = names_of(bound@);
    let ghost ns = lambda_names(sems(params@));
    let mut i: usize = 0;
    assert(names_of(bound@) =~= o + ns.take(0));
    while i < params.len()
        invariant
            i <= params.len(),
            ns == lambda_names(sems(params@)),
            names_of(bound@) == o + ns.take(i as int),
        decreases params.len() - i,
    {
        assert(sems(params@)[i as int] == params[i as int].sem());
        assert(ns[i as int] == params[i as int].name@);
        let ghost before = names_of(bound@);
        bound.push(params[i].name.clone());
        assert(names_of(bound@) =~= before.push(params[i as int].name@));
        i += 1;
        assert(names_of(bound@) =~= o + ns.take(i as int));
    }
    assert(ns.take(i as int) =~= ns);
}

/// Collect the free names of an expression.
pub fn collect_free_expr(e: &Expr, s: &mut Found)
    ensures
        final(s)@ == free_expr(e.sem(), old(s)@),
    decreases e, 2int,
{
    match &e.kind {
        ExprKind::Lambda { .. } | ExprKind::For { .. } | ExprKind::Try { .. } => free_in_scoped(e, s),
        ExprKind::If { .. }
        | ExprKind::Match { .. }
        | ExprKind::Block(_)
        | ExprKind::Loop { .. }
        | ExprKind::While { .. }
        | ExprKind::Break(_)
        | ExprKind::Return(_)
        | ExprKind::Throw(_) => free_in_flow(e, s),
        _ => free_in_simple(e, s),
    }
}

/// The expressions with scopes of their own.
fn free_in_scoped(e: &Expr, s: &mut Found)
    requires
        e.kind is Lambda || e.kind is For || e.kind is Try,
    ensures
        final(s)@ == free_expr(e.sem(), old(s)@),
    decreases e, 1int,
{
    match &e.kind {
        ExprKind::Lambda { params, body } => {
            proof {
                lemma_lambda_params_of(params@);
            }
            let ghost a = s@;
            let saved = copy_names(&s.bound);
            bind_params(params, &mut s.bound);
            assert(s@ == binding(a, lambda_names(sems(params@))));
            collect_free_expr(body, s);
            s.bound = saved;
        },
        ExprKind::For { pat, iter, body } => {
            collect_free_expr(iter, s);
            let ghost a = s@;
            let saved = copy_names(&s.bound);
            collect_pattern(pat, &mut s.bound);
            assert(s@ == binding(a, pattern_names(pat.sem())));
            collect_free(body, s);
            s.bound = saved;
        },
        ExprKind::Try { body, catch, .. } => {
            collect_free_expr(body, s);
            free_in_catch(catch, s);
        },
        _ => {},
    }
}

/// The expressions that say what runs.
fn free_in_flow(e: &Expr, s: &mut Found)
    requires
        e.kind is If || e.kind is Match || e.kind is Block || e.kind is Loop || e.kind is While || e.kind is Break || e.kind is Return || e.kind is Throw,
    ensures
        final(s)@ == free_expr(e.sem(), old(s)@),
    decreases e, 1int,
{
    match &e.kind {
        ExprKind::If { cond, then, else_ } => {
            collect_free_expr(cond, s);
            collect_free(then, s);
            free_in_opt(else_, s);
        },
        ExprKind::Match { scrutinee, arms } => {
            collect_free_expr(scrutinee, s);
            proof {
                lemma_match_arms_of(arms@);
            }
            free_in_arms(arms, s);
        },
        ExprKind::Block(a) => {
            collect_free(a, s);
        },
        ExprKind::Loop { body } => {
            collect_free(body, s);
        },
        ExprKind::While { cond, body } => {
            collect_free_expr(cond, s);
            collect_free(body, s);
        },
        ExprKind::Break(a) => {
            free_in_opt(a, s);
        },
        ExprKind::Return(a) => {
            free_in_opt(a, s);
        },
        ExprKind::Throw(a) => {
            collect_free_expr(a, s);
        },
        _ => {},
    }
}

/// The other expressions.
fn free_in_simple(e: &Expr, s: &mut Found)
    requires
        !(e.kind is Lambda),
        !(e.kind is For),
        !(e.kind is Try),
        !(e.kind is If),
        !(e.kind is Match),
        !(e.kind is Block),
        !(e.kind is Loop),
        !(e.kind is While),
        !(e.kind is Break),
        !(e.kind is Return),
        !(e.kind is Throw),
    ensures
        final(s)@ == free_expr(e.sem(), old(s)@),
    decreases e, 1int,
{
    match &e.kind {
        ExprKind::Path(p) => {
            if p.len() == 1 {
                assert(names_of(p@)[0] == p[0]@);
                if !is_among(&s.bound, p[0].as_str()) {
                    let ghost a = s@;
                    s.used.push(p[0].clone());
                    assert(s@.used =~= a.used.push(p[0]@));
                }
            }
        },
        ExprKind::Unary { rhs, .. } => {
            collect_free_expr(rhs, s);
        },
        ExprKind::Binary { lhs, rhs, .. } => {
            collect_free_expr(lhs, s);
            collect_free_expr(rhs, s);
        },
        ExprKind::Call { callee, args, .. } => {
            collect_free_expr(callee, s);
            proof {
                lemma_exprs_of(args@);
            }
            free_in_es(args, s);
        },
        ExprKind::Index { base, index } => {
            collect_free_expr(base, s);
            collect_free_expr(index, s);
        },
        ExprKind::Field { base, .. } => {
            collect_free_expr(base, s);
        },
        ExprKind::List(a) => {
            proof {
                lemma_elems_of(a@);
            }
            free_in_elems(a, s);
        },
        ExprKind::RecordLit { fields, spread, .. } => {
            proof {
                lemma_field_inits_of(fields@);
            }
            free_in_inits(fields, s);
            free_in_opt(spread, s);
        },
        ExprKind::Tuple(a) => {
            proof {
                lemma_exprs_of(a@);
            }
            free_in_es(a, s);
        },
        ExprKind::Is { lhs, .. } => {
            collect_free_expr(lhs, s);
        },
        ExprKind::As { lhs, .. } => {
            collect_free_expr(lhs, s);
        },
        ExprKind::Assert { args, .. } => {
            proof {
                lemma_exprs_of(args@);
            }
            free_in_es(args, s);
        },
        _ => {},
    }
}

fn free_in_catch(c: &Option<CatchArm>, s: &mut Found)
    ensures
        final(s)@ == free_catch(c.sem(), old(s)@),
    decreases c, 0int,
{
    match c {
        Some(c) => {
            let ghost a = s@;
            let saved = copy_names(&s.bound);
            s.bound.push(c.binding.clone());
            assert(s@.bound =~= a.bound + seq![c.binding@]);
            assert(s@ == binding(a, seq![c.binding@]));
            collect_free(&c.body, s);
            s.bound = saved;
        },
        None => {},
    }
}

fn free_in_opt(e: &Option<Box<Expr>>, s: &mut Found)
    ensures
        final(s)@ == free_opt(e.sem(), old(s)@),
    decreases e, 0int,
{
    match e {
        Some(e) => collect_free_expr(e, s),
        None => {},
    }
}

fn free_in_es(xs: &Vec<Expr>, s: &mut Found)
    ensures
        final(s)@ == free_es(sems(xs@), xs@.len() as int, old(s)@),
    decreases xs, 0int,
{
    let ghost s0 = s@;
    let mut i: usize = 0;
    while i < xs.len()
        invariant
            i <= xs.len(),
            s@ == free_es(sems(xs@), i as int, s0),
        decreases xs.len() - i,
    {
        assert(sems(xs@)[i as int] == xs[i as int].sem());
        collect_free_expr(&xs[i], s);
        i += 1;
    }
}

fn free_in_elem(x: &Elem, s: &mut Found)
    ensures
        final(s)@ == free_elem(x.sem(), old(s)@),
    decreases x, 1int,
{
    match x {
        Elem::Value(e) => collect_free_expr(e, s),
        Elem::Spread(e) => collect_free_expr(e, s),
    }
}

fn free_in_elems(xs: &Vec<Elem>, s: &mut Found)
    ensures
        final(s)@ == free_elems(sems(xs@), xs@.len() as int, old(s)@),
    decreases xs, 0int,
{
    let ghost s0 = s@;
    let mut i: usize = 0;
    while i < xs.len()
        invariant
            i <= xs.len(),
            s@ == free_elems(sems(xs@), i as int, s0),
        decreases xs.len() - i,
    {
        assert(sems(xs@)[i as int] == xs[i as int].sem());
        free_in_elem(&xs[i], s);
        i += 1;
    }
}

fn free_in_inits(xs: &Vec<FieldInit>, s: &mut Found)
    ensures
        final(s)@ == free_inits(sems(xs@), xs@.len() as int, old(s)@),
    decreases xs, 0int,
{
    let ghost s0 = s@;
    let mut i: usize = 0;
    while i < xs.len()
        invariant
            i <= xs.len(),
            s@ == free_inits(sems(xs@), i as int, s0),
        decreases xs.len() - i,
    {
        assert(sems(xs@)[i as int] == xs[i as int].sem());
        collect_free_expr(&xs[i].value, s);
        i += 1;
    }
}

fn free_in_arm(a: &MatchArm, s: &mut Found)
    ensures
        final(s)@ == free_arm(a.sem(), old(s)@),
    decreases a, 1int,
{
    let ghost s0 = s@;
    let saved = copy_names(&s.bound);
    collect_pattern(&a.pat, &mut s.bound);
    assert(s@ == binding(s0, pattern_names(a.pat.sem())));
    if let Some(g) = &a.guard {
        collect_free_expr(g, s);
    }
    collect_free_expr(&a.body, s);
    s.bound = saved;
}

fn free_in_arms(xs: &Vec<MatchArm>, s: &mut Found)
    ensures
        final(s)@ == free_arms(sems(xs@), xs@.len() as int, old(s)@),
    decreases xs, 0int,
{
    let ghost s0 = s@;
    let mut i: usize = 0;
    while i < xs.len()
        invariant
            i <= xs.len(),
            s@ == free_arms(sems(xs@), i as int, s0),
        decreases xs.len() - i,
    {
        assert(sems(xs@)[i as int] == xs[i as int].sem());
        free_in_arm(&xs[i], s);
        i += 1;
    }
}

fn free_in_stmt(x: &Stmt, s: &mut Found)
    ensures
        final(s)@ == free_stmt(x.sem(), old(s)@),
    decreases x, 1int,
{
    match &x.kind {
        StmtKind::Let { pat, value, .. } => {
            collect_free_expr(value, s);
            let ghost s1 = s@;
            collect_pattern(pat, &mut s.bound);
            assert(s@ == binding(s1, pattern_names(pat.sem())));
        },
        StmtKind::Assign { value, .. } => collect_free_expr(value, s),
        StmtKind::Expr(e) => collect_free_expr(e, s),
        StmtKind::Error => {},
    }
}

fn free_in_stmts(xs: &Vec<Stmt>, s: &mut Found)
    ensures
        final(s)@ == free_stmts(sems(xs@), xs@.len() as int, old(s)@),
    decreases xs, 0int,
{
    let ghost s0 = s@;
    let mut i: usize = 0;
    while i < xs.len()
        invariant
            i <= xs.len(),
            s@ == free_stmts(sems(xs@), i as int, s0),
        decreases xs.len() - i,
    {
        assert(sems(xs@)[i as int] == xs[i as int].sem());
        free_in_stmt(&xs[i], s);
        i += 1;
    }
}

/// Collect the free names of a block.
pub fn collect_free(b: &Block, s: &mut Found)
    ensures
        final(s)@ == free_block(b.sem(), old(s)@),
    decreases b, 1int,
{
    proof {
        lemma_stmts_of(b.stmts@);
    }
    let saved = copy_names(&s.bound);
    free_in_stmts(&b.stmts, s);
    free_in_opt(&b.tail, s);
    s.bound = saved;
}

fn assigned_in_expr(e: &Expr, s: &mut Found)
    ensures
        final(s)@ == assigning_expr(e.sem(), old(s)@),
    decreases e, 2int,
{
    match &e.kind {
        ExprKind::If { .. }
        | ExprKind::Match { .. }
        | ExprKind::Block(_)
        | ExprKind::Loop { .. }
        | ExprKind::While { .. }
        | ExprKind::For { .. }
        | ExprKind::Break(_)
        | ExprKind::Return(_)
        | ExprKind::Throw(_)
        | ExprKind::Try { .. } => assigned_in_flow(e, s),
        _ => assigned_in_simple(e, s),
    }
}

fn assigned_in_flow(e: &Expr, s: &mut Found)
    requires
        e.kind is If || e.kind is Match || e.kind is Block || e.kind is Loop || e.kind is While || e.kind is For || e.kind is Break || e.kind is Return || e.kind is Throw || e.kind is Try,
    ensures
        final(s)@ == assigning_expr(e.sem(), old(s)@),
    decreases e, 1int,
{
    match &e.kind {
        ExprKind::If { cond, then, else_ } => {
            assigned_in_expr(cond, s);
            assigned_in_block(then, s);
            assigned_in_opt(else_, s);
        },
        ExprKind::Match { scrutinee, arms } => {
            assigned_in_expr(scrutinee, s);
            proof {
                lemma_match_arms_of(arms@);
            }
            assigned_in_arms(arms, s);
        },
        ExprKind::Block(a) => {
            assigned_in_block(a, s);
        },
        ExprKind::Loop { body } => {
            assigned_in_block(body, s);
        },
        ExprKind::While { cond, body } => {
            assigned_in_expr(cond, s);
            assigned_in_block(body, s);
        },
        ExprKind::For { pat, iter, body } => {
            assigned_in_expr(iter, s);
            let ghost a = s@;
            let saved = copy_names(&s.bound);
            collect_pattern(pat, &mut s.bound);
            assert(s@ == binding(a, pattern_names(pat.sem())));
            assigned_in_block(body, s);
            s.bound = saved;
        },
        ExprKind::Break(a) => {
            assigned_in_opt(a, s);
        },
        ExprKind::Return(a) => {
            assigned_in_opt(a, s);
        },
        ExprKind::Throw(a) => {
            assigned_in_expr(a, s);
        },
        ExprKind::Try { body, catch, .. } => {
            assigned_in_expr(body, s);
            assigned_in_catch(catch, s);
        },
        _ => {},
    }
}

fn assigned_in_simple(e: &Expr, s: &mut Found)
    requires
        !(e.kind is If),
        !(e.kind is Match),
        !(e.kind is Block),
        !(e.kind is Loop),
        !(e.kind is While),
        !(e.kind is For),
        !(e.kind is Break),
        !(e.kind is Return),
        !(e.kind is Throw),
        !(e.kind is Try),
    ensures
        final(s)@ == assigning_expr(e.sem(), old(s)@),
    decreases e, 1int,
{
    match &e.kind {
        ExprKind::Unary { rhs, .. } => {
            assigned_in_expr(rhs, s);
        },
        ExprKind::Binary { lhs, rhs, .. } => {
            assigned_in_expr(lhs, s);
            assigned_in_expr(rhs, s);
        },
        ExprKind::Call { callee, args, .. } => {
            assigned_in_expr(callee, s);
            proof {
                lemma_exprs_of(args@);
            }
            assigned_in_es(args, s);
        },
        ExprKind::Index { base, index } => {
            assigned_in_expr(base, s);
            assigned_in_expr(index, s);
        },
        ExprKind::Field { base, .. } => {
            assigned_in_expr(base, s);
        },
        ExprKind::List(a) => {
            proof {
                lemma_elems_of(a@);
            }
            assigned_in_elems(a, s);
        },
        ExprKind::RecordLit { fields, spread, .. } => {
            proof {
                lemma_field_inits_of(fields@);
            }
            assigned_in_inits(fields, s);
            assigned_in_opt(spread, s);
        },
        ExprKind::Tuple(a) => {
            proof {
                lemma_exprs_of(a@);
            }
            assigned_in_es(a, s);
        },
        ExprKind::Is { lhs, .. } => {
            assigned_in_expr(lhs, s);
        },
        ExprKind::As { lhs, .. } => {
            assigned_in_expr(lhs, s);
        },
        ExprKind::Assert { args, .. } => {
            proof {
                lemma_exprs_of(args@);
            }
            assigned_in_es(args, s);
        },
        _ => {},
    }
}

fn assigned_in_catch(c: &Option<CatchArm>, s: &mut Found)
    ensures
        final(s)@ == assigning_catch(c.sem(), old(s)@),
    decreases c, 0int,
{
    match c {
        Some(c) => {
            let ghost a = s@;
            let saved = copy_names(&s.bound);
            s.bound.push(c.binding.clone());
            assert(s@.bound =~= a.bound + seq![c.binding@]);
            assert(s@ == binding(a, seq![c.binding@]));
            assigned_in_block(&c.body, s);
            s.bound = saved;
        },
        None => {},
    }
}

fn assigned_in_opt(e: &Option<Box<Expr>>, s: &mut Found)
    ensures
        final(s)@ == assigning_opt(e.sem(), old(s)@),
    decreases e, 0int,
{
    match e {
        Some(e) => assigned_in_expr(e, s),
        None => {},
    }
}

fn assigned_in_es(xs: &Vec<Expr>, s: &mut Found)
    ensures
        final(s)@ == assigning_es(sems(xs@), xs@.len() as int, old(s)@),
    decreases xs, 0int,
{
    let ghost s0 = s@;
    let mut i: usize = 0;
    while i < xs.len()
        invariant
            i <= xs.len(),
            s@ == assigning_es(sems(xs@), i as int, s0),
        decreases xs.len() - i,
    {
        assert(sems(xs@)[i as int] == xs[i as int].sem());
        assigned_in_expr(&xs[i], s);
        i += 1;
    }
}

fn assigned_in_elem(x: &Elem, s: &mut Found)
    ensures
        final(s)@ == assigning_elem(x.sem(), old(s)@),
    decreases x, 1int,
{
    match x {
        Elem::Value(e) => assigned_in_expr(e, s),
        Elem::Spread(e) => assigned_in_expr(e, s),
    }
}

fn assigned_in_elems(xs: &Vec<Elem>, s: &mut Found)
    ensures
        final(s)@ == assigning_elems(sems(xs@), xs@.len() as int, old(s)@),
    decreases xs, 0int,
{
    let ghost s0 = s@;
    let mut i: usize = 0;
    while i < xs.len()
        invariant
            i <= xs.len(),
            s@ == assigning_elems(sems(xs@), i as int, s0),
        decreases xs.len() - i,
    {
        assert(sems(xs@)[i as int] == xs[i as int].sem());
        assigned_in_elem(&xs[i], s);
        i += 1;
    }
}

fn assigned_in_inits(xs: &Vec<FieldInit>, s: &mut Found)
    ensures
        final(s)@ == assigning_inits(sems(xs@), xs@.len() as int, old(s)@),
    decreases xs, 0int,
{
    let ghost s0 = s@;
    let mut i: usize = 0;
    while i < xs.len()
        invariant
            i <= xs.len(),
            s@ == assigning_inits(sems(xs@), i as int, s0),
        decreases xs.len() - i,
    {
        assert(sems(xs@)[i as int] == xs[i as int].sem());
        assigned_in_expr(&xs[i].value, s);
        i += 1;
    }
}

fn assigned_in_arm(a: &MatchArm, s: &mut Found)
    ensures
        final(s)@ == assigning_arm(a.sem(), old(s)@),
    decreases a, 1int,
{
    let ghost s0 = s@;
    let saved = copy_names(&s.bound);
    collect_pattern(&a.pat, &mut s.bound);
    assert(s@ == binding(s0, pattern_names(a.pat.sem())));
    if let Some(g) = &a.guard {
        assigned_in_expr(g, s);
    }
    assigned_in_expr(&a.body, s);
    s.bound = saved;
}

fn assigned_in_arms(xs: &Vec<MatchArm>, s: &mut Found)
    ensures
        final(s)@ == assigning_arms(sems(xs@), xs@.len() as int, old(s)@),
    decreases xs, 0int,
{
    let ghost s0 = s@;
    let mut i: usize = 0;
    while i < xs.len()
        invariant
            i <= xs.len(),
            s@ == assigning_arms(sems(xs@), i as int, s0),
        decreases xs.len() - i,
    {
        assert(sems(xs@)[i as int] == xs[i as int].sem());
        assigned_in_arm(&xs[i], s);
        i += 1;
    }
}

fn assigned_in_stmt(x: &Stmt, s: &mut Found)
    ensures
        final(s)@ == assigning_stmt(x.sem(), old(s)@),
    decreases x, 1int,
{
    let ghost s0 = s@;
    match &x.kind {
        StmtKind::Let { pat, value, .. } => {
            assigned_in_expr(value, s);
            let ghost s1 = s@;
            collect_pattern(pat, &mut s.bound);
            assert(s@ == binding(s1, pattern_names(pat.sem())));
        },
        StmtKind::Assign { name, value } => {
            if !is_among(&s.bound, name.as_str()) {
                s.used.push(name.clone());
                assert(s@.used =~= s0.used.push(name@));
            }
            assigned_in_expr(value, s);
        },
        StmtKind::Expr(e) => assigned_in_expr(e, s),
        StmtKind::Error => {},
    }
}

fn assigned_in_stmts(xs: &Vec<Stmt>, s: &mut Found)
    ensures
        final(s)@ == assigning_stmts(sems(xs@), xs@.len() as int, old(s)@),
    decreases xs, 0int,
{
    let ghost s0 = s@;
    let mut i: usize = 0;
    while i < xs.len()
        invariant
            i <= xs.len(),
            s@ == assigning_stmts(sems(xs@), i as int, s0),
        decreases xs.len() - i,
    {
        assert(sems(xs@)[i as int] == xs[i as int].sem());
        assigned_in_stmt(&xs[i], s);
        i += 1;
    }
}

fn assigned_in_block(b: &Block, s: &mut Found)
    ensures
        final(s)@ == assigning_block(b.sem(), old(s)@),
    decreases b, 1int,
{
    proof {
        lemma_stmts_of(b.stmts@);
    }
    let saved = copy_names(&s.bound);
    assigned_in_stmts(&b.stmts, s);
    assigned_in_opt(&b.tail, s);
    s.bound = saved;
}

/// Collect the names that a block assigns and that are bound outside it.
pub fn collect_assigns_block(b: &Block, out: Vec<String>) -> (r: Vec<String>)
    ensures
        names_of(r@) == assigned_block(b.sem(), names_of(out@)),
{
    let mut s = Found { bound: Vec::new(), used: out };
    assert(s@.bound =~= seq![]);
    assigned_in_block(b, &mut s);
    s.used
}

/// Collect the names that an expression assigns and that are bound outside it.
pub fn collect_assigns_expr(e: &Option<Box<Expr>>, out: Vec<String>) -> (r: Vec<String>)
    ensures
        names_of(r@) == assigned_opt(e.sem(), names_of(out@)),
{
    let mut s = Found { bound: Vec::new(), used: out };
    assert(s@.bound =~= seq![]);
    assigned_in_opt(e, &mut s);
    s.used
}

/// Collect the names that the body of a loop over a list assigns.
pub fn collect_assigns_round(pat: &Pattern, b: &Block) -> (r: Vec<String>)
    ensures
        names_of(r@) == assigned_round(pat.sem(), b.sem()),
{
    let mut s = Found { bound: Vec::new(), used: Vec::new() };
    collect_pattern(pat, &mut s.bound);
    assert(s@.used =~= seq![]);
    assert(s@.bound =~= pattern_names(pat.sem()));
    assigned_in_block(b, &mut s);
    s.used
}

} // verus!
