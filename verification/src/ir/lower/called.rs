//! What a lowered function returns when it is called.

use super::super::run::{bound, comes, held, leaves, with, Held, Place, Spot, Val, World};

use super::super::ssa::{BlockId, SFunc, Value};
use super::funcs::{instance_layout, start, x_end, x_fn, x_params};

use super::meaning::{
    at, binds_values, casts_keep, goes_on, grew, holds, is_open, is_plain, kept, lemma_emit_on,
    lemma_emit_runs, lemma_goes_on, lemma_holds_parts, lemma_kept_on, lemma_on, lemma_pushed,
    lowered_expressions_come_to_what_they_mean, meaning, now, place, stand, weight, Names,
};
use crate::check::fact;
use crate::syntax::{SPatternKind, SStmt, SStmtKind};
use super::scheme::{rebound, x_block, x_body, x_expr, x_stmt, x_stmts};
use super::state::{
    found, in_frame, in_frames, l_bind, l_bind_all, l_emit, l_end, l_param, l_pop, l_push, l_switch,
    layout_in, repr_at, values_of, Ctx, SLower,
};
use super::scan::assigned_block;
use super::super::run::{lemma_comes_nowhere, lemma_comes_on, outcome};
use super::super::ssa::{operands, SOp};
use super::subst::SSubst;
use crate::check::FnSig;
use crate::syntax::{SBlock, SExpr, SParam};

use vstd::prelude::*;

verus! {

/// What a name stands for among the first `k` parameters: what the last of that name gets.
pub open spec fn given(ps: Seq<SParam>, args: Seq<Val>, k: int, name: Seq<char>) -> Option<Val>
    decreases k,
{
    if k <= 0 {
        None
    } else if ps[k - 1].name == name {
        Some(args[k - 1])
    } else {
        given(ps, args, k - 1, name)
    }
}

/// A state in which the first `k` parameters are bound, and nothing else is done.
spec fn is_begun(s: SLower, ps: Seq<SParam>, vs: Seq<Value>, subst: SSubst, k: int) -> bool {
    &&& is_open(s)
    &&& at(s) == 0
    &&& s.b.blocks.len() == 1
    &&& now(s).len() == 0
    &&& s.b.blocks[0].params == vs
    &&& vs.len() == k
    &&& s.b.values.len() == k
    &&& forall|i: int| 0 <= i < k ==> #[trigger] vs[i] == Value(i as u32)
    &&& s.scope.len() == 1
    &&& s.scope[0].len() == k
    &&& forall|i: int| 0 <= i < k ==> #[trigger] s.scope[0][i] == (ps[i].name, vs[i])
    &&& s.subst == subst
}

proof fn lemma_begun(c: Ctx, s: SLower, ps: Seq<SParam>, sig: Option<FnSig>, k: int, subst: SSubst)
    requires
        0 <= k <= ps.len(),
        is_begun(s, ps, seq![], subst, 0),
    ensures
        is_begun(x_params(c, s, ps, sig, k).0, ps, x_params(c, s, ps, sig, k).1, subst, k),
    decreases k,
{
    if k > 0 {
        lemma_begun(c, s, ps, sig, k - 1, subst);
        reveal(l_param);
        reveal(l_bind);
        let (s1, vs) = x_params(c, s, ps, sig, k - 1);
        let (t, us) = x_params(c, s, ps, sig, k);
        assert(t.scope[0] =~= s1.scope[0].push((ps[k - 1].name, us[k - 1])));
        assert(t.b.blocks[0].params =~= us);
    }
}

proof fn lemma_given(
    s: SLower,
    ps: Seq<SParam>,
    vs: Seq<Value>,
    args: Seq<Val>,
    h: Held,
    k: int,
    name: Seq<char>,
)
    requires
        0 <= k <= s.scope[0].len(),
        forall|i: int| 0 <= i < k ==> #[trigger] s.scope[0][i] == (ps[i].name, vs[i]),
        forall|i: int| 0 <= i < k ==> h(#[trigger] vs[i]) == args[i],
    ensures
        match in_frame(s.scope[0], name, k) {
            Some(v) => given(ps, args, k, name) == Some(h(v)) && exists|i: int|
                0 <= i < k && vs[i] == v,
            None => given(ps, args, k, name) is None,
        },
    decreases k,
{
    if k > 0 {
        lemma_given(s, ps, vs, args, h, k - 1, name);
        assert(s.scope[0][k - 1] == (ps[k - 1].name, vs[k - 1]));
        assert(h(vs[k - 1]) == args[k - 1]);
        if ps[k - 1].name != name {
            if let Some(v) = in_frame(s.scope[0], name, k - 1) {
                let i = choose|i: int| 0 <= i < k - 1 && vs[i] == v;
                assert(vs[i] == v);
            }
        }
    }
}

proof fn lemma_bound_in_order(ps: Seq<Value>, xs: Seq<Val>, h: Held, i: int)
    requires
        ps.len() == xs.len() <= u32::MAX,
        forall|j: int| 0 <= j < ps.len() ==> #[trigger] ps[j] == Value(j as u32),
        0 <= i < ps.len(),
    ensures
        bound(ps, xs, h)(ps[i]) == xs[i],
    decreases ps.len(),
{
    let (qs, ys) = (ps.drop_last(), xs.take(ps.len() - 1));
    assert(ps.last() == Value((ps.len() - 1) as u32));
    if i < ps.len() - 1 {
        assert forall|j: int| 0 <= j < qs.len() implies #[trigger] qs[j] == Value(j as u32) by {
            assert(qs[j] == ps[j]);
        }
        lemma_bound_in_order(qs, ys, h, i);
        assert(qs[i] == ps[i]);
        assert(ps[i] != ps.last());
    }
}

// ---- statements ----

/// The name that a statement binds: a `let` of a single name, or an assignment.
pub open spec fn bound_by(x: SStmt) -> Option<(Seq<char>, SExpr)> {
    match x.kind {
        SStmtKind::Let { pat, value, .. } => match pat.kind {
            SPatternKind::Bind(n) => Some((n, value)),
            _ => None,
        },
        SStmtKind::Assign { name, value } => Some((name, value)),
        _ => None,
    }
}

/// What names stand for once one of them stands for something new.
pub open spec fn renamed(names: Names, name: Seq<char>, x: Val) -> Names {
    |n: Seq<char>|
        if n == name {
            Some(x)
        } else {
            names(n)
        }
}

/// What names stand for after the first `k` statements, each of which binds a name to what
/// its expression means by then.
pub open spec fn names_after(xs: Seq<SStmt>, k: int, names: Names) -> Option<Names>
    decreases k,
{
    if k <= 0 {
        Some(names)
    } else {
        match (names_after(xs, k - 1, names), bound_by(xs[k - 1])) {
            (Some(m), Some((name, e))) => match meaning(e, m) {
                Some(x) => Some(renamed(m, name, x)),
                None => None,
            },
            _ => None,
        }
    }
}

/// Whether the first `k` statements bind names to plain expressions.
pub open spec fn are_plain(c: Ctx, n: nat, s: SLower, xs: Seq<SStmt>, k: int) -> bool
    decreases k,
{
    k <= 0 || (are_plain(c, n, s, xs, k - 1) && (bound_by(xs[k - 1]) matches Some(b) && is_plain(
        c,
        x_stmts(c, n, s, xs, k - 1),
        b.1,
    )))
}

/// How much there is to the first `k` statements.
pub open spec fn weight_of(xs: Seq<SStmt>, k: int) -> nat
    decreases k,
{
    if k <= 0 {
        0
    } else {
        weight_of(xs, k - 1) + 1 + match bound_by(xs[k - 1]) {
            Some(b) => weight(b.1),
            None => 0,
        }
    }
}

/// One state with the scope of another.
pub open spec fn scoped(t: SLower, s: SLower) -> SLower {
    SLower { scope: s.scope, subst: s.subst, ..t }
}

pub(super) proof fn lemma_bind(s: SLower, name: Seq<char>, v: Value)
    requires
        s.scope.len() > 0,
    ensures
        l_bind(s, name, v).b == s.b,
        l_bind(s, name, v).terminated == s.terminated,
        l_bind(s, name, v).subst == s.subst,
        l_bind(s, name, v).loops == s.loops,
        l_bind(s, name, v).scope.len() == s.scope.len(),
        l_bind(s, name, v).scope.drop_last() == s.scope.drop_last(),
        forall|m: Seq<char>| #[trigger] found(l_bind(s, name, v), m) == if m == name {
            Some(v)
        } else {
            found(s, m)
        },
{
    reveal(l_bind);
    let t = l_bind(s, name, v);
    let k = s.scope.len() as int;
    assert(t.scope[k - 1] == s.scope[k - 1].push((name, v)));
    assert(t.scope.drop_last() =~= s.scope.drop_last());
    assert forall|m: Seq<char>| #[trigger] found(t, m) == if m == name {
        Some(v)
    } else {
        found(s, m)
    } by {
        lemma_frames_same(s, t, k - 1, m);
        let (x, y) = (s.scope[k - 1], t.scope[k - 1]);
        lemma_frame_same(x, y, x.len() as int, m);
        assert(y[x.len() as int] == (name, v));
    }
}

proof fn lemma_frame_same(
    x: Seq<(Seq<char>, Value)>,
    y: Seq<(Seq<char>, Value)>,
    k: int,
    m: Seq<char>,
)
    requires
        0 <= k <= x.len() <= y.len(),
        forall|i: int| 0 <= i < x.len() ==> x[i] == y[i],
    ensures
        in_frame(x, m, k) == in_frame(y, m, k),
    decreases k,
{
    if k > 0 {
        lemma_frame_same(x, y, k - 1, m);
    }
}

proof fn lemma_frames_same(s: SLower, t: SLower, k: int, m: Seq<char>)
    requires
        0 <= k <= s.scope.len(),
        k <= t.scope.len(),
        forall|i: int| 0 <= i < k ==> s.scope[i] == t.scope[i],
    ensures
        in_frames(s.scope, m, k) == in_frames(t.scope, m, k),
    decreases k,
{
    if k > 0 {
        lemma_frames_same(s, t, k - 1, m);
        assert(s.scope[k - 1] == t.scope[k - 1]);
    }
}

/// The value of a statement, and the state once it is there.
spec fn stmt_value(c: Ctx, n: nat, s: SLower, x: SStmt) -> (SLower, Value) {
    let e = (bound_by(x)->0).1;
    let (s1, v) = x_expr(c, n, s, e);
    if x.kind is Let {
        match fact(c.facts.declared@, e.id) {
            Some(ty) => {
                let want = layout_in(c, s1, ty);
                if want == repr_at(s1, v) {
                    (s1, v)
                } else {
                    l_emit(s1, SOp::Cast(v), want, ty)
                }
            },
            None => (s1, v),
        }
    } else {
        (s1, v)
    }
}

proof fn lemma_stmt_is(c: Ctx, n: nat, s: SLower, x: SStmt)
    requires
        bound_by(x) is Some,
    ensures
        x_stmt(c, n, s, x) == l_bind(
            stmt_value(c, n, s, x).0,
            (bound_by(x)->0).0,
            stmt_value(c, n, s, x).1,
        ),
{
}

/// The value of a statement is what its expression means.
proof fn lemma_stmt_runs(
    c: Ctx,
    n: nat,
    s: SLower,
    x: SStmt,
    g: SFunc,
    h: Held,
    w: World,
    names: Names,
    y: Val,
) -> (k: Held)
    requires
        bound_by(x) is Some,
        is_open(s),
        is_plain(c, s, (bound_by(x)->0).1),
        s.b.blocks.len() + 3 * (1 + weight((bound_by(x)->0).1)) <= u32::MAX,
        s.b.values.len() + 3 * (1 + weight((bound_by(x)->0).1)) <= u32::MAX,
        binds_values(s),
        holds(g, s, stmt_value(c, n, s, x).0),
        stand(s, h, names),
        casts_keep(w),
        meaning((bound_by(x)->0).1, names) == Some(y),
    ensures
        goes_on(s, stmt_value(c, n, s, x).0),
        grew(s, stmt_value(c, n, s, x).0, 1 + weight((bound_by(x)->0).1)),
        stmt_value(c, n, s, x).1.0 < stmt_value(c, n, s, x).0.b.values.len(),
        comes(g, place(s, h), place(stmt_value(c, n, s, x).0, k), w),
        k(stmt_value(c, n, s, x).1) == y,
        kept(h, k, s.b.values.len()),
{
    let e = (bound_by(x)->0).1;
    let (s1, v) = x_expr(c, n, s, e);
    let (t, u) = stmt_value(c, n, s, x);
    lemma_goes_on(c, n, s, e);
    if t == s1 && u == v {
        lowered_expressions_come_to_what_they_mean(c, n, s, e, g, h, w, names, y)
    } else {
        let ty = fact(c.facts.declared@, e.id)->0;
        let want = layout_in(c, s1, ty);
        let op = SOp::Cast(v);
        lemma_emit_on(s1, op, want, ty);
        lemma_on(s, s1, t);
        lemma_holds_parts(g, s, s1, t);
        let k = lowered_expressions_come_to_what_they_mean(c, n, s, e, g, h, w, names, y);
        lemma_emit_runs(g, s1, op, want, ty, k, w);
        assert(held(operands(op), k) =~= seq![k(v)]);
        let l = with(k, Value(s1.b.values.len() as u32), outcome(op, k, w));
        lemma_comes_on(g, place(s, h), place(s1, k), place(t, l), w);
        lemma_kept_on(h, k, l, s.b.values.len(), s1.b.values.len());
        l
    }
}

proof fn lemma_stmt_goes_on(c: Ctx, n: nat, s: SLower, x: SStmt)
    requires
        bound_by(x) is Some,
        is_open(s),
        is_plain(c, s, (bound_by(x)->0).1),
        s.b.blocks.len() + 3 * (1 + weight((bound_by(x)->0).1)) <= u32::MAX,
        s.b.values.len() + 3 * (1 + weight((bound_by(x)->0).1)) <= u32::MAX,
        binds_values(s),
    ensures
        goes_on(s, stmt_value(c, n, s, x).0),
        grew(s, stmt_value(c, n, s, x).0, 1 + weight((bound_by(x)->0).1)),
        stmt_value(c, n, s, x).1.0 < stmt_value(c, n, s, x).0.b.values.len(),
{
    let e = (bound_by(x)->0).1;
    let (s1, v) = x_expr(c, n, s, e);
    let (t, u) = stmt_value(c, n, s, x);
    lemma_goes_on(c, n, s, e);
    if !(t == s1 && u == v) {
        let ty = fact(c.facts.declared@, e.id)->0;
        lemma_emit_on(s1, SOp::Cast(v), layout_in(c, s1, ty), ty);
        lemma_on(s, s1, t);
    }
}

/// A statement binds its name, and leaves the others.
pub(super) proof fn lemma_stmt_binds(c: Ctx, n: nat, s: SLower, x: SStmt)
    requires
        bound_by(x) is Some,
        is_open(s),
        s.scope.len() > 0,
        is_plain(c, s, (bound_by(x)->0).1),
        is_roomy(s, 1 + weight((bound_by(x)->0).1)),
        binds_values(s),
    ensures
        forall|m: Seq<char>|
            found(s, m) is Some ==> (#[trigger] found(x_stmt(c, n, s, x), m)) is Some,
{
    lemma_stmt_goes_on(c, n, s, x);
    lemma_stmt_is(c, n, s, x);
    let (t, v) = stmt_value(c, n, s, x);
    lemma_bind(t, (bound_by(x)->0).0, v);
    assert forall|m: Seq<char>| found(s, m) is Some implies (#[trigger] found(
        x_stmt(c, n, s, x),
        m,
    )) is Some by {
        assert(found(t, m) == found(s, m));
    }
}

pub open spec fn is_roomy(s: SLower, k: nat) -> bool {
    s.b.blocks.len() + 3 * k <= u32::MAX && s.b.values.len() + 3 * k <= u32::MAX
}

pub(super) proof fn lemma_stmts_go_on(c: Ctx, n: nat, s: SLower, xs: Seq<SStmt>, k: int)
    requires
        0 <= k <= xs.len(),
        is_open(s),
        s.scope.len() > 0,
        are_plain(c, n, s, xs, k),
        is_roomy(s, weight_of(xs, k)),
        binds_values(s),
    ensures
        ({
            let t = x_stmts(c, n, s, xs, k);
            &&& goes_on(s, scoped(t, s))
            &&& is_open(t)
            &&& t.scope.len() == s.scope.len()
            &&& t.scope.drop_last() == s.scope.drop_last()
            &&& t.subst == s.subst
            &&& t.loops == s.loops
            &&& grew(s, t, weight_of(xs, k))
            &&& binds_values(t)
        }),
    decreases k,
{
    if k > 0 {
        lemma_stmts_go_on(c, n, s, xs, k - 1);
        let s1 = x_stmts(c, n, s, xs, k - 1);
        let x = xs[k - 1];
        lemma_stmt_goes_on(c, n, s1, x);
        let (s2, v) = stmt_value(c, n, s1, x);
        lemma_stmt_is(c, n, s1, x);
        let name = (bound_by(x)->0).0;
        let t = x_stmts(c, n, s, xs, k);
        assert(t == l_bind(s2, name, v));
        lemma_bind(s2, name, v);
        lemma_on(s, scoped(s1, s), scoped(t, s));
        assert forall|m: Seq<char>| (#[trigger] found(t, m)) is Some implies (found(t, m)->0).0
            < t.b.values.len() by {
            assert(found(s2, m) == found(s1, m));
        }
    } else {
        assert(scoped(s, s) == s);
    }
}

/// After statements, names stand for what the statements have bound them to.
pub(super) proof fn lemma_stmts_run(
    c: Ctx,
    n: nat,
    s: SLower,
    xs: Seq<SStmt>,
    k: int,
    g: SFunc,
    h: Held,
    w: World,
    names: Names,
) -> (l: Held)
    requires
        0 <= k <= xs.len(),
        is_open(s),
        s.scope.len() > 0,
        are_plain(c, n, s, xs, k),
        is_roomy(s, weight_of(xs, k)),
        binds_values(s),
        holds(g, s, x_stmts(c, n, s, xs, k)),
        stand(s, h, names),
        casts_keep(w),
        names_after(xs, k, names) is Some,
    ensures
        comes(g, place(s, h), place(x_stmts(c, n, s, xs, k), l), w),
        stand(x_stmts(c, n, s, xs, k), l, names_after(xs, k, names)->0),
        kept(h, l, s.b.values.len()),
    decreases k,
{
    if k > 0 {
        lemma_stmts_go_on(c, n, s, xs, k - 1);
        lemma_stmts_go_on(c, n, s, xs, k);
        let s1 = x_stmts(c, n, s, xs, k - 1);
        let t = x_stmts(c, n, s, xs, k);
        let x = xs[k - 1];
        lemma_stmt_goes_on(c, n, s1, x);
        let (s2, v) = stmt_value(c, n, s1, x);
        lemma_stmt_is(c, n, s1, x);
        let (name, e) = bound_by(x)->0;
        lemma_bind(s2, name, v);
        lemma_holds_parts(g, s, scoped(s1, s), scoped(t, s));
        assert(holds(g, s, s1));
        assert(holds(g, s1, s2));
        let m = names_after(xs, k - 1, names)->0;
        let y = meaning(e, m)->0;
        let i = lemma_stmts_run(c, n, s, xs, k - 1, g, h, w, names);
        let j = lemma_stmt_runs(c, n, s1, x, g, i, w, m, y);
        lemma_comes_on(g, place(s, h), place(s1, i), place(s2, j), w);
        lemma_kept_on(h, i, j, s.b.values.len(), s1.b.values.len());
        assert(place(t, j) == place(s2, j));
        let after = renamed(m, name, y);
        assert forall|z: Seq<char>| after(z) is Some implies (#[trigger] found(t, z) matches Some(u)
            && after(z) == Some(j(u))) by {
            if z != name {
                assert(found(s2, z) == found(s1, z));
                let u = found(s1, z)->0;
                assert(j(u) == i(u));
            }
        }
        j
    } else {
        lemma_comes_nowhere(g, place(s, h), w);
        h
    }
}

/// The state in which the body of a function begins.
pub open spec fn begun(
    c: Ctx,
    name: Seq<char>,
    module: Seq<Seq<char>>,
    subst: SSubst,
    sig: FnSig,
    ps: Seq<SParam>,
) -> SLower {
    l_push(
        x_params(
            c,
            start(
                name,
                module,
                subst,
                instance_layout(c, subst, sig.ret),
                instance_layout(c, subst, sig.throws),
            ),
            ps,
            Some(sig),
            ps.len() as int,
        ).0,
    )
}

/// A function returns what its body means. Its parameters stand for what it is called with;
/// every statement binds a name to a plain expression, and what the last expression means by
/// then is what a run of the function returns.
pub proof fn lowered_functions_return_what_their_bodies_mean(
    c: Ctx,
    name: Seq<char>,
    module: Seq<Seq<char>>,
    subst: SSubst,
    sig: FnSig,
    ps: Seq<SParam>,
    body: SBlock,
    args: Seq<Val>,
    h: Held,
    w: World,
    x: Val,
) -> (q: Place)
    requires
        args.len() == ps.len(),
        body.tail is Some,
        !(instance_layout(c, subst, sig.ret) is Unit),
        ({
            let s = begun(c, name, module, subst, sig, ps);
            let n = c.env.consts@.len();
            let k = body.stmts.len() as int;
            are_plain(c, n, s, body.stmts, k) && is_plain(
                c,
                x_stmts(c, n, s, body.stmts, k),
                *body.tail->0,
            )
        }),
        ps.len() + 3 * (weight_of(body.stmts, body.stmts.len() as int) + weight(*body.tail->0)) + 1
            <= u32::MAX,
        casts_keep(w),
        names_after(
            body.stmts,
            body.stmts.len() as int,
            |n: Seq<char>| given(ps, args, ps.len() as int, n),
        ) matches Some(names) && meaning(*body.tail->0, names) == Some(x),
    ensures
        ({
            let f = x_fn(c, name, module, subst, Some(sig), ps, body).func;
            &&& f.entry == BlockId(0)
            &&& f.params.len() == ps.len()
            &&& comes(f, Place { block: 0, at: 0, holds: bound(f.params, args, h) }, q, w)
            &&& 0 <= q.block < f.blocks.len()
            &&& q.at == f.blocks[q.block].insts.len()
            &&& leaves(f, f.blocks[q.block].term, q.holds) == Spot::Returned(Some(x))
        }),
{
    let (ret, throws) = (
        instance_layout(c, subst, sig.ret),
        instance_layout(c, subst, sig.throws),
    );
    let s0 = start(name, module, subst, ret, throws);
    let k = ps.len() as int;
    let (s1, vs) = x_params(c, s0, ps, Some(sig), k);
    assert(is_begun(s0, ps, seq![], subst, 0));
    lemma_begun(c, s0, ps, Some(sig), k, subst);
    reveal(l_switch);
    assert(l_switch(s1, BlockId(0)) == s1);
    let n = c.env.consts@.len();
    let first: Names = |m: Seq<char>| given(ps, args, k, m);
    let g = bound(vs, args, h);
    assert forall|i: int| 0 <= i < k implies g(#[trigger] vs[i]) == args[i] by {
        lemma_bound_in_order(vs, args, h, i);
    }
    assert forall|m: Seq<char>| #[trigger] found(s1, m) == in_frame(s1.scope[0], m, k) by {
        assert(in_frames(s1.scope, m, 0) is None);
    }
    let s = l_push(s1);
    lemma_pushed(s1);
    assert(stand(s, g, first)) by {
        assert forall|m: Seq<char>| first(m) is Some implies (#[trigger] found(s, m) matches Some(v)
            && first(m) == Some(g(v))) by {
            lemma_given(s1, ps, vs, args, g, k, m);
            assert(found(s, m) == found(s1, m));
        }
    }
    assert(binds_values(s)) by {
        assert forall|m: Seq<char>| (#[trigger] found(s, m)) is Some implies (found(s, m)->0).0
            < s.b.values.len() by {
            lemma_given(s1, ps, vs, args, g, k, m);
            assert(found(s, m) == found(s1, m));
            let i = choose|i: int| 0 <= i < k && vs[i] == found(s, m)->0;
            assert(vs[i] == Value(i as u32));
        }
    }
    let xs = body.stmts;
    let e = *body.tail->0;
    let z = xs.len() as int;
    lemma_stmts_go_on(c, n, s, xs, z);
    let s2 = x_stmts(c, n, s, xs, z);
    lemma_goes_on(c, n, s2, e);
    let (t, v) = x_expr(c, n, s2, e);
    assert(x_body(c, n, s, body) == (t, Some(v)));
    reveal(l_end);
    let f = x_fn(c, name, module, subst, Some(sig), ps, body).func;
    let rebinds = rebound(s1, assigned_block(body, seq![]));
    let last = l_bind_all(l_pop(t), rebinds, values_of(t, rebinds), rebinds.len() as int);
    assert(x_block(c, n, s1, body) == (last, Some(v)));
    lemma_bound_all(t, rebinds, values_of(t, rebinds), rebinds.len() as int);
    let end = x_end(last, ret, Some(v));
    assert(f.blocks == end.b.blocks);
    assert(last.b == t.b);
    lemma_on(s, scoped(s2, s), scoped(t, s));
    assert(holds(f, s, scoped(t, s)));
    lemma_holds_parts(f, s, scoped(s2, s), scoped(t, s));
    assert(holds(f, s, s2));
    assert(holds(f, s2, t));
    let names = names_after(xs, z, first)->0;
    let i = lemma_stmts_run(c, n, s, xs, z, f, g, w, first);
    let l = lowered_expressions_come_to_what_they_mean(c, n, s2, e, f, i, w, names, x);
    lemma_comes_on(f, place(s, g), place(s2, i), place(t, l), w);
    place(t, l)
}

proof fn lemma_bound_all(t: SLower, names: Seq<Seq<char>>, vs: Seq<Value>, k: int)
    ensures
        l_bind_all(l_pop(t), names, vs, k).b == t.b,
        l_bind_all(l_pop(t), names, vs, k).terminated == t.terminated,
    decreases k,
{
    reveal(l_pop);
    reveal(l_bind);
    if k > 0 {
        lemma_bound_all(t, names, vs, k - 1);
    }
}

} // verus!
