//! What a lowered `while` comes to when it runs.

use super::super::run::{
    along, bound, comes, held, lemma_comes_next, lemma_comes_on, with, Held, Place, Val, World,
};
use super::super::ssa::{empty_block, BlockId, SBlock, SFunc, STarget, STerm, Value};
use super::called::{
    are_plain, is_roomy, lemma_bind, lemma_stmts_go_on, lemma_stmts_run, names_after, scoped,
    weight_of,
};
use super::forms::{l_continue, l_params2, l_pop_loop, l_push_loop};
use super::meaning::{
    alike, at, binds_values, casts_keep, goes_on, has_room, holds, is_open, is_plain, kept,
    lemma_goes_on, lemma_kept_on, lemma_plain_assigns, lowered_expressions_come_to_what_they_mean,
    meaning, now, place, stand, starts, weight, Names,
};
use super::scan::{
    assigned_block, assigning_expr, assigning_opt, assigning_stmt, assigning_stmts, fresh, noted,
    Scan,
};
use super::scheme::{rebound, x_body, x_expr, x_round, x_stmts, x_while};
use super::state::{
    carried, current, found, l_bind_all, l_block, l_end, l_enter, l_jump, l_param, l_pop, l_push,
    values_of, Ctx, SLoop, SLower,
};
use crate::syntax::{SExpr, SExprKind, SStmt, SStmtKind};
use crate::types::TyId;
use vstd::prelude::*;

verus! {

/// What names stand for when a loop ends after `m` rounds: the condition holds before each of
/// them, and not after the last.
pub open spec fn after_rounds(cond: SExpr, xs: Seq<SStmt>, names: Names, m: nat) -> Option<Names>
    decreases m,
{
    if m == 0 {
        if meaning(cond, names) == Some(Val::Bool(false)) {
            Some(names)
        } else {
            None
        }
    } else if meaning(cond, names) == Some(Val::Bool(true)) {
        match names_after(xs, xs.len() as int, names) {
            Some(r) => after_rounds(cond, xs, r, (m - 1) as nat),
            None => None,
        }
    } else {
        None
    }
}

// ---- parameters ----

/// Values that differ, none of which is among the first `n`.
spec fn are_new(vs: Seq<Value>, n: nat) -> bool {
    &&& vs.no_duplicates()
    &&& forall|i: int| 0 <= i < vs.len() ==> (#[trigger] vs[i]).0 >= n
}

proof fn lemma_bound_at(ps: Seq<Value>, xs: Seq<Val>, h: Held, i: int)
    requires
        ps.len() == xs.len(),
        ps.no_duplicates(),
        0 <= i < ps.len(),
    ensures
        bound(ps, xs, h)(ps[i]) == xs[i],
    decreases ps.len(),
{
    if i < ps.len() - 1 {
        let (qs, ys) = (ps.drop_last(), xs.take(ps.len() - 1));
        assert(qs.no_duplicates());
        lemma_bound_at(qs, ys, h, i);
        assert(qs[i] == ps[i]);
        assert(ps[i] != ps[ps.len() - 1]);
    }
}

proof fn lemma_bound_keeps(ps: Seq<Value>, xs: Seq<Val>, h: Held, n: nat)
    requires
        forall|i: int| 0 <= i < ps.len() ==> (#[trigger] ps[i]).0 >= n,
    ensures
        kept(h, bound(ps, xs, h), n),
    decreases ps.len(),
{
    if ps.len() > 0 && xs.len() >= ps.len() {
        let (qs, ys) = (ps.drop_last(), xs.take(ps.len() - 1));
        assert forall|i: int| 0 <= i < qs.len() implies (#[trigger] qs[i]).0 >= n by {
            assert(qs[i] == ps[i]);
        }
        lemma_bound_keeps(qs, ys, h, n);
        let g = bound(ps, xs, h);
        assert forall|v: Value| v.0 < n implies #[trigger] g(v) == h(v) by {
            assert(ps[ps.len() - 1].0 >= n);
            assert(bound(qs, ys, h)(v) == h(v));
        }
    }
}

/// What `k` parameters each of two blocks come to.
proof fn lemma_params2(s: SLower, a: BlockId, b: BlockId, vs: Seq<Value>, k: int)
    requires
        0 <= k <= vs.len(),
        0 <= a.0 < s.b.blocks.len(),
        0 <= b.0 < s.b.blocks.len(),
        a != b,
        s.b.blocks[a.0 as int].params.len() == 0,
        s.b.blocks[b.0 as int].params.len() == 0,
        s.b.values.len() + 2 * k <= u32::MAX,
    ensures
        ({
            let (t, ps, qs) = l_params2(s, a, b, vs, k);
            let (x, y) = (s.b.blocks[a.0 as int], s.b.blocks[b.0 as int]);
            &&& t.b.blocks == s.b.blocks.update(a.0 as int, SBlock { params: ps, ..x }).update(
                b.0 as int,
                SBlock { params: qs, ..y },
            )
            &&& t.b.values.len() == s.b.values.len() + 2 * k
            &&& ps.len() == k && qs.len() == k
            &&& are_new(ps, s.b.values.len())
            &&& are_new(qs, s.b.values.len())
            &&& forall|i: int| 0 <= i < k ==> (#[trigger] ps[i]).0 < t.b.values.len()
            &&& forall|i: int| 0 <= i < k ==> (#[trigger] qs[i]).0 < t.b.values.len()
            &&& t.scope == s.scope && t.subst == s.subst && t.loops == s.loops && t.terminated
                == s.terminated && t.b.current == s.b.current
        }),
    decreases k,
{
    if k > 0 {
        lemma_params2(s, a, b, vs, k - 1);
        reveal(l_param);
        let (t1, ps1, qs1) = l_params2(s, a, b, vs, k - 1);
        let (t, ps, qs) = l_params2(s, a, b, vs, k);
        let (x, y) = (s.b.blocks[a.0 as int], s.b.blocks[b.0 as int]);
        assert(t.b.blocks =~= s.b.blocks.update(a.0 as int, SBlock { params: ps, ..x }).update(
            b.0 as int,
            SBlock { params: qs, ..y },
        ));
        assert forall|i: int, j: int| 0 <= i < j < k implies ps[i] != ps[j] && qs[i] != qs[j] by {
            assert(ps[i] == ps1[i] && qs[i] == qs1[i]);
            assert(ps1[i].0 < t1.b.values.len());
            assert(qs1[i].0 < t1.b.values.len());
            if j < k - 1 {
                assert(ps[j] == ps1[j] && qs[j] == qs1[j]);
            }
        }
        assert forall|i: int| 0 <= i < k implies (#[trigger] ps[i]).0 >= s.b.values.len() && ps[i].0
            < t.b.values.len() by {
            if i < k - 1 {
                assert(ps[i] == ps1[i]);
            }
        }
        assert forall|i: int| 0 <= i < k implies (#[trigger] qs[i]).0 >= s.b.values.len() && qs[i].0
            < t.b.values.len() by {
            if i < k - 1 {
                assert(qs[i] == qs1[i]);
            }
        }
    } else {
        let (x, y) = (s.b.blocks[a.0 as int], s.b.blocks[b.0 as int]);
        let e = Seq::<Value>::empty();
        assert(x.params =~= e);
        assert(y.params =~= e);
        assert(s.b.blocks =~= s.b.blocks.update(a.0 as int, SBlock { params: e, ..x }).update(
            b.0 as int,
            SBlock { params: e, ..y },
        ));
    }
}

/// Binding names that differ, one after the other.
proof fn lemma_bind_all(s: SLower, names: Seq<Seq<char>>, vs: Seq<Value>, k: int)
    requires
        s.scope.len() > 0,
        0 <= k <= names.len(),
        names.len() == vs.len(),
        names.no_duplicates(),
    ensures
        ({
            let t = l_bind_all(s, names, vs, k);
            &&& t.b == s.b && t.terminated == s.terminated && t.subst == s.subst && t.loops
                == s.loops && t.scope.len() == s.scope.len() && t.scope.drop_last()
                == s.scope.drop_last()
            &&& forall|i: int| 0 <= i < k ==> found(t, #[trigger] names[i]) == Some(vs[i])
            &&& forall|z: Seq<char>|
                (forall|i: int| 0 <= i < k ==> names[i] != z) ==> #[trigger] found(t, z) == found(
                    s,
                    z,
                )
        }),
    decreases k,
{
    if k > 0 {
        lemma_bind_all(s, names, vs, k - 1);
        let t1 = l_bind_all(s, names, vs, k - 1);
        lemma_bind(t1, names[k - 1], vs[k - 1]);
        let t = l_bind_all(s, names, vs, k);
        assert forall|i: int| 0 <= i < k implies found(t, #[trigger] names[i]) == Some(vs[i]) by {
            if i < k - 1 {
                assert(names[i] != names[k - 1]);
            }
        }
        assert forall|z: Seq<char>| (forall|i: int| 0 <= i < k ==> names[i] != z) implies
            #[trigger] found(t, z) == found(s, z) by {
            assert(names[k - 1] != z);
            assert(found(t1, z) == found(s, z));
        }
    }
}

proof fn lemma_carried(s: SLower, names: Seq<Seq<char>>, k: int)
    requires
        0 <= k <= names.len(),
    ensures
        carried(s, names, k).no_duplicates(),
        forall|i: int|
            0 <= i < carried(s, names, k).len() ==> found(s, #[trigger] carried(s, names, k)[i])
                is Some && names.contains(carried(s, names, k)[i]),
        forall|i: int|
            0 <= i < k && found(s, #[trigger] names[i]) is Some ==> carried(s, names, k).contains(
                names[i],
            ),
    decreases k,
{
    if k > 0 {
        lemma_carried(s, names, k - 1);
        let before = carried(s, names, k - 1);
        let all = carried(s, names, k);
        assert(names.contains(names[k - 1]));
        if all != before {
            assert(all == before.push(names[k - 1]));
            assert(all[all.len() - 1] == names[k - 1]);
        }
        assert forall|i: int| 0 <= i < k && found(s, #[trigger] names[i]) is Some implies all.contains(
            names[i],
        ) by {
            if i < k - 1 || all == before {
                assert(before.contains(names[i]));
                let j = choose|j: int| 0 <= j < before.len() && before[j] == names[i];
                assert(all[j] == names[i]);
            }
        }
    }
}

proof fn lemma_current(s: SLower, names: Seq<Seq<char>>, k: int)
    requires
        0 <= k <= names.len(),
        forall|i: int| 0 <= i < names.len() ==> found(s, #[trigger] names[i]) is Some,
    ensures
        current(s, names, k).len() == k,
        forall|i: int|
            0 <= i < k ==> Some(#[trigger] current(s, names, k)[i]) == found(s, names[i]),
    decreases k,
{
    if k > 0 {
        lemma_current(s, names, k - 1);
        assert(found(s, names[k - 1]) is Some);
    }
}

// ---- the body ----

/// Statements that assign to names that stand for something.
pub open spec fn only_assign(xs: Seq<SStmt>, names: Names) -> bool {
    forall|i: int|
        0 <= i < xs.len() ==> ((#[trigger] xs[i]).kind matches SStmtKind::Assign { name, .. }
            && names(name) is Some)
}

proof fn lemma_assigned(c: Ctx, n: nat, s: SLower, xs: Seq<SStmt>, k: int, o: Scan)
    requires
        0 <= k <= xs.len(),
        are_plain(c, n, s, xs, k),
        forall|i: int| 0 <= i < xs.len() ==> (#[trigger] xs[i]).kind is Assign,
        o.bound.len() == 0,
    ensures
        assigning_stmts(xs, k, o).bound == o.bound,
        forall|i: int|
            0 <= i < k ==> assigning_stmts(xs, k, o).used.contains(
                (#[trigger] xs[i]).kind->Assign_name,
            ),
        forall|z: Seq<char>|
            #[trigger] o.used.contains(z) ==> assigning_stmts(xs, k, o).used.contains(z),
        forall|z: Seq<char>|
            #[trigger] assigning_stmts(xs, k, o).used.contains(z) ==> o.used.contains(z) || exists|
                i: int,
            |
                0 <= i < k && (#[trigger] xs[i]).kind->Assign_name == z,
    decreases k,
{
    if k > 0 {
        lemma_assigned(c, n, s, xs, k - 1, o);
        let a = assigning_stmts(xs, k - 1, o);
        let x = xs[k - 1];
        assert(x.kind is Assign);
        let name = x.kind->Assign_name;
        let e = x.kind->Assign_value;
        let b = noted(a, name);
        lemma_plain_assigns(c, x_stmts(c, n, s, xs, k - 1), e, b);
        assert(assigning_stmts(xs, k, o) == assigning_stmt(x, a));
        assert(assigning_stmt(x, a) == assigning_expr(e, b));
        assert(assigning_stmts(xs, k, o) == b);
        assert(b.used == a.used.push(name));
        assert(b.used[a.used.len() as int] == name);
        assert forall|z: Seq<char>| #[trigger] a.used.contains(z) implies b.used.contains(z) by {
            let j = choose|j: int| 0 <= j < a.used.len() && a.used[j] == z;
            assert(b.used[j] == z);
        }
        assert forall|z: Seq<char>| #[trigger] b.used.contains(z) implies o.used.contains(z)
            || exists|i: int| 0 <= i < k && (#[trigger] xs[i]).kind->Assign_name == z by {
            let j = choose|j: int| 0 <= j < b.used.len() && b.used[j] == z;
            if j < a.used.len() {
                assert(a.used[j] == z);
                assert(a.used.contains(z));
            } else {
                assert(xs[k - 1].kind->Assign_name == z);
            }
        }
    }
}

proof fn lemma_unassigned(xs: Seq<SStmt>, k: int, names: Names, z: Seq<char>)
    requires
        0 <= k <= xs.len(),
        names_after(xs, k, names) is Some,
        forall|i: int| 0 <= i < xs.len() ==> (#[trigger] xs[i]).kind is Assign,
        forall|i: int| 0 <= i < k ==> (#[trigger] xs[i]).kind->Assign_name != z,
    ensures
        (names_after(xs, k, names)->0)(z) == names(z),
    decreases k,
{
    if k > 0 {
        lemma_unassigned(xs, k - 1, names, z);
        assert(xs[k - 1].kind is Assign);
        assert(xs[k - 1].kind->Assign_name != z);
    }
}

proof fn lemma_still_stands(xs: Seq<SStmt>, k: int, names: Names, z: Seq<char>)
    requires
        0 <= k <= xs.len(),
        names_after(xs, k, names) is Some,
        names(z) is Some,
    ensures
        (names_after(xs, k, names)->0)(z) is Some,
    decreases k,
{
    if k > 0 {
        lemma_still_stands(xs, k - 1, names, z);
    }
}

// ---- the loop ----

/// A loop from `s`: the state `a` where its header begins, `b` where its condition is there,
/// `x` where its body begins, `y` where that ends, and `t` where the loop is left.
struct Loop {
    s: SLower,
    names: Seq<Seq<char>>,
    inits: Seq<Value>,
    hs: Seq<Value>,
    xs: Seq<Value>,
    a: SLower,
    b: SLower,
    cv: Value,
    x: SLower,
    y: SLower,
    t: SLower,
}

spec fn to(b: int, args: Seq<Value>) -> STarget {
    STarget { to: BlockId(b as u32), args }
}

spec fn ended(s: SLower, term: STerm) -> Seq<SBlock> {
    s.b.blocks.update(at(s), SBlock { term, ..s.b.blocks[at(s)] })
}

spec fn opened(l: Loop) -> Seq<SBlock> {
    let m = l.s.b.blocks.len() as int;
    ended(l.s, STerm::Jump(to(m, l.inits))).push(
        SBlock { params: l.hs, ..empty_block(BlockId(m as u32)) },
    ).push(empty_block(BlockId((m + 1) as u32))).push(
        SBlock { params: l.xs, ..empty_block(BlockId((m + 2) as u32)) },
    )
}

spec fn is_loop(l: Loop) -> bool {
    let m = l.s.b.blocks.len() as int;
    &&& is_open(l.s)
    &&& l.t.b.blocks.len() <= u32::MAX
    &&& l.t.b.values.len() <= u32::MAX
    &&& l.a.b.blocks == opened(l)
    &&& at(l.a) == m
    &&& is_open(l.a)
    &&& l.s.b.values.len() <= l.a.b.values.len()
    &&& goes_on(l.a, l.b)
    &&& l.x.b.blocks == ended(
        l.b,
        STerm::Branch { cond: l.cv, then: to(m + 1, seq![]), els: to(m + 2, l.hs) },
    )
    &&& l.x.b.values.len() == l.b.b.values.len()
    &&& at(l.x) == m + 1
    &&& is_open(l.x)
    &&& goes_on(l.x, scoped(l.y, l.x))
    &&& l.t.b.blocks == ended(l.y, STerm::Jump(to(m, values_of(l.y, l.names))))
    &&& l.t.b.values.len() == l.y.b.values.len()
    &&& at(l.t) == m + 2
    &&& !l.t.terminated
    &&& l.inits.len() == l.hs.len() == l.xs.len() == l.names.len()
    &&& values_of(l.y, l.names).len() == l.names.len()
    &&& are_new(l.hs, l.s.b.values.len())
    &&& are_new(l.xs, l.s.b.values.len())
    &&& forall|i: int| 0 <= i < l.hs.len() ==> (#[trigger] l.hs[i]).0 < l.a.b.values.len()
    &&& forall|i: int| 0 <= i < l.xs.len() ==> (#[trigger] l.xs[i]).0 < l.a.b.values.len()
}

proof fn lemma_loop_shape(l: Loop)
    requires
        is_loop(l),
    ensures
        ({
            let m = l.s.b.blocks.len() as int;
            let b4 = l.t.b.blocks;
            &&& l.b.b.blocks.len() >= m + 3
            &&& l.y.b.blocks.len() >= l.b.b.blocks.len()
            &&& b4.len() == l.y.b.blocks.len()
            &&& b4[at(l.s)] == opened(l)[at(l.s)]
            &&& b4[m + 2] == opened(l)[m + 2]
            &&& forall|i: int|
                0 <= i < m && i != at(l.s) ==> #[trigger] b4[i] == l.s.b.blocks[i]
            &&& forall|i: int|
                i == m || m + 3 <= i < l.b.b.blocks.len() ==> #[trigger] b4[i] == l.x.b.blocks[i]
            &&& now(l.a).len() == 0
            &&& now(l.x).len() == 0
            &&& now(l.t).len() == 0
            &&& b4[m].params == l.hs
            &&& b4[m + 1].params.len() == 0
            &&& b4[m + 2].params == l.xs
            &&& at(l.b) != m + 2 && at(l.y) != m + 2
            &&& goes_on(l.s, scoped_loop(l.t, l.s))
        }),
{
    let m = l.s.b.blocks.len() as int;
    let b0 = opened(l);
    assert(b0.len() == m + 3);
    let (b1, b2, b3, b4) = (l.b.b.blocks, l.x.b.blocks, l.y.b.blocks, l.t.b.blocks);
    assert(at(l.b) == m || at(l.b) >= m + 3);
    assert(at(l.y) == m + 1 || at(l.y) >= b2.len());
    assert forall|i: int| 0 <= i < m + 3 && i != m implies b1[i] == b0[i] by {
        assert(l.a.b.blocks[i] == b0[i]);
    }
    assert forall|i: int| 0 <= i < b2.len() && i != m + 1 implies b3[i] == b2[i] by {
        assert(l.x.b.blocks[i] == b2[i]);
    }
    assert forall|i: int| 0 <= i < b3.len() && i != at(l.y) implies b4[i] == b3[i] by {}
    assert forall|i: int| 0 <= i < b2.len() && i != at(l.b) implies b2[i] == b1[i] by {}
    assert(b1[m].params == b0[m].params);
    assert(b2[m + 1] == b0[m + 1]);
    assert(b3[m + 1].params == b2[m + 1].params);
    assert(starts(now(l.s), b4[at(l.s)].insts));
}

spec fn scoped_loop(t: SLower, s: SLower) -> SLower {
    SLower { scope: s.scope, subst: s.subst, loops: s.loops, ..t }
}

proof fn lemma_loop_holds(g: SFunc, l: Loop)
    requires
        is_loop(l),
        holds(g, l.s, l.t),
    ensures
        holds(g, l.a, l.b),
        holds(g, l.x, l.y),
        l.t.b.blocks.len() <= g.blocks.len(),
        g.blocks[at(l.s)] == opened(l)[at(l.s)],
        g.blocks[at(l.b)] == l.x.b.blocks[at(l.b)],
        g.blocks[at(l.y)] == l.t.b.blocks[at(l.y)],
        g.blocks[l.s.b.blocks.len() as int].params == l.hs,
        g.blocks[l.s.b.blocks.len() as int + 1].params.len() == 0,
        g.blocks[l.s.b.blocks.len() as int + 2].params == l.xs,
{
    lemma_loop_shape(l);
    let m = l.s.b.blocks.len() as int;
    let b4 = l.t.b.blocks;
    assert forall|i: int|
        0 <= i < l.b.b.blocks.len() && (i == at(l.a) || i >= l.a.b.blocks.len()) implies if i == at(
        l.b,
    ) {
        starts(l.b.b.blocks[i].insts, (#[trigger] g.blocks[i]).insts) && g.blocks[i].params
            == l.b.b.blocks[i].params
    } else {
        g.blocks[i] == l.b.b.blocks[i]
    } by {
        assert(b4[i] == l.x.b.blocks[i]);
        assert(i != m + 2);
    }
    assert forall|i: int|
        0 <= i < l.y.b.blocks.len() && (i == at(l.x) || i >= l.x.b.blocks.len()) implies if i == at(
        l.y,
    ) {
        starts(l.y.b.blocks[i].insts, (#[trigger] g.blocks[i]).insts) && g.blocks[i].params
            == l.y.b.blocks[i].params
    } else {
        g.blocks[i] == l.y.b.blocks[i]
    } by {
        assert(g.blocks[i] == b4[i]);
    }
    assert(b4[at(l.b)] == l.x.b.blocks[at(l.b)]);
}

/// Going along an edge that passes values to parameters.
proof fn lemma_edge(
    g: SFunc,
    s: SLower,
    t: SLower,
    target: STarget,
    h: Held,
    w: World,
)
    requires
        0 <= at(s) < g.blocks.len(),
        g.blocks[at(s)].insts.len() == now(s).len(),
        super::super::run::leaves(g, g.blocks[at(s)].term, h) == along(g, target, h),
        target.to.0 == at(t),
        0 <= at(t) < g.blocks.len(),
        target.args.len() == g.blocks[at(t)].params.len(),
        now(t).len() == 0,
    ensures
        comes(
            g,
            place(s, h),
            place(t, bound(g.blocks[at(t)].params, held(target.args, h), h)),
            w,
        ),
{
    lemma_comes_next(
        g,
        place(s, h),
        place(t, bound(g.blocks[at(t)].params, held(target.args, h), h)),
        w,
    );
}

/// The loop, from where its header begins.
proof fn lemma_rounds(
    c: Ctx,
    n: nat,
    l: Loop,
    cond: SExpr,
    xs: Seq<SStmt>,
    g: SFunc,
    h: Held,
    w: World,
    names: Names,
    m: nat,
) -> (k: Held)
    requires
        is_loop(l),
        holds(g, l.s, l.t),
        (l.b, l.cv) == x_expr(c, n, l.a, cond),
        l.y == x_stmts(c, n, l.x, xs, xs.len() as int),
        is_plain(c, l.a, cond),
        has_room(l.a, cond),
        binds_values(l.a),
        are_plain(c, n, l.x, xs, xs.len() as int),
        is_roomy(l.x, weight_of(xs, xs.len() as int)),
        binds_values(l.x),
        l.x.scope.len() > 0,
        alike(l.a, l.x),
        only_assign(xs, names),
        loop_names(l, xs),
        stand(l.a, h, names),
        casts_keep(w),
        after_rounds(cond, xs, names, m) is Some,
    ensures
        ({
            let r = after_rounds(cond, xs, names, m)->0;
            &&& comes(g, place(l.a, h), place(l.t, k), w)
            &&& kept(h, k, l.s.b.values.len())
            &&& forall|i: int|
                0 <= i < l.names.len() ==> r(#[trigger] l.names[i]) is Some ==> r(l.names[i])
                    == Some(k(l.xs[i]))
            &&& forall|z: Seq<char>| !l.names.contains(z) ==> #[trigger] r(z) == names(z)
        }),
    decreases m,
{
    lemma_loop_shape(l);
    lemma_loop_holds(g, l);
    let base = l.s.b.blocks.len() as int;
    let size = l.s.b.values.len();
    if m == 0 {
        let i = lowered_expressions_come_to_what_they_mean(
            c,
            n,
            l.a,
            cond,
            g,
            h,
            w,
            names,
            Val::Bool(false),
        );
        lemma_edge(g, l.b, l.t, to(base + 2, l.hs), i, w);
        let vs = held(l.hs, i);
        let k = bound(l.xs, vs, i);
        lemma_comes_on(g, place(l.a, h), place(l.b, i), place(l.t, k), w);
        lemma_bound_keeps(l.xs, vs, i, size);
        lemma_kept_on(h, i, k, size, size);
        assert forall|j: int| 0 <= j < l.names.len() && names(#[trigger] l.names[j]) is Some implies
            names(l.names[j]) == Some(k(l.xs[j])) by {
            lemma_bound_at(l.xs, vs, i, j);
            assert(found(l.a, l.names[j]) == Some(l.hs[j]));
            assert(i(l.hs[j]) == h(l.hs[j]));
        }
        k
    } else {
        let i = lowered_expressions_come_to_what_they_mean(
            c,
            n,
            l.a,
            cond,
            g,
            h,
            w,
            names,
            Val::Bool(true),
        );
        lemma_edge(g, l.b, l.x, to(base + 1, seq![]), i, w);
        assert(held(Seq::<Value>::empty(), i) =~= seq![]);
        assert(bound(g.blocks[at(l.x)].params, held(Seq::<Value>::empty(), i), i) == i);
        lemma_comes_on(g, place(l.a, h), place(l.b, i), place(l.x, i), w);
        assert(stand(l.x, i, names)) by {
            assert forall|z: Seq<char>| names(z) is Some implies (#[trigger] found(
                l.x,
                z,
            ) matches Some(v) && names(z) == Some(i(v))) by {
                assert(found(l.x, z) == found(l.a, z));
                let v = found(l.a, z)->0;
                assert(i(v) == h(v));
            }
        }
        let z = xs.len() as int;
        let r = names_after(xs, z, names)->0;
        let j = lemma_stmts_run(c, n, l.x, xs, z, g, i, w, names);
        lemma_comes_on(g, place(l.a, h), place(l.x, i), place(l.y, j), w);
        let back = values_of(l.y, l.names);
        lemma_edge(g, l.y, l.a, to(base, back), j, w);
        let vs = held(back, j);
        let q = bound(l.hs, vs, j);
        lemma_comes_on(g, place(l.a, h), place(l.y, j), place(l.a, q), w);
        lemma_kept_on(h, i, j, l.a.b.values.len(), l.x.b.values.len());
        lemma_bound_keeps(l.hs, vs, j, size);
        lemma_kept_on(h, j, q, size, size);
        assert(stand(l.a, q, r)) by {
            assert forall|u: Seq<char>| r(u) is Some implies (#[trigger] found(l.a, u) matches Some(
                v,
            ) && r(u) == Some(q(v))) by {
                lemma_round_stands(l, xs, names, u);
                if l.names.contains(u) {
                    let p = choose|p: int| 0 <= p < l.names.len() && l.names[p] == u;
                    lemma_bound_at(l.hs, vs, j, p);
                    lemma_current(l.y, l.names, l.names.len() as int);
                    assert(Some(back[p]) == found(l.y, l.names[p]));
                    assert(vs[p] == j(back[p]));
                } else {
                    let v = found(l.a, u)->0;
                    assert(found(l.a, u) == found(l.s, u));
                    assert(v.0 < size);
                    assert(q(v) == h(v));
                }
            }
        }
        assert(only_assign(xs, r)) by {
            assert forall|p: int| 0 <= p < xs.len() implies ((#[trigger] xs[p]).kind matches
                SStmtKind::Assign { name, .. } && r(name) is Some) by {
                lemma_still_stands(xs, z, names, xs[p].kind->Assign_name);
            }
        }
        let k = lemma_rounds(c, n, l, cond, xs, g, q, w, r, (m - 1) as nat);
        lemma_comes_on(g, place(l.a, h), place(l.a, q), place(l.t, k), w);
        lemma_kept_on(h, q, k, size, size);
        let last = after_rounds(cond, xs, names, m)->0;
        assert forall|u: Seq<char>| !l.names.contains(u) implies #[trigger] last(u) == names(u) by {
            lemma_round_stands(l, xs, names, u);
        }
        k
    }
}

/// The names that a loop carries are those that its body assigns, and they stand for the
/// parameters of its header.
spec fn loop_names(l: Loop, xs: Seq<SStmt>) -> bool {
    &&& forall|i: int|
        0 <= i < xs.len() ==> (#[trigger] xs[i]).kind is Assign && (found(
            l.s,
            xs[i].kind->Assign_name,
        ) is Some ==> l.names.contains(xs[i].kind->Assign_name))
    &&& forall|i: int|
        0 <= i < l.names.len() ==> found(l.a, #[trigger] l.names[i]) == Some(l.hs[i])
    &&& forall|i: int| 0 <= i < l.names.len() ==> found(l.y, #[trigger] l.names[i]) is Some
    &&& forall|z: Seq<char>|
        !l.names.contains(z) ==> #[trigger] found(l.a, z) == found(l.s, z)
    &&& binds_values(l.s)
}

proof fn lemma_round_stands(l: Loop, xs: Seq<SStmt>, names: Names, u: Seq<char>)
    requires
        loop_names(l, xs),
        only_assign(xs, names),
        names_after(xs, xs.len() as int, names) is Some,
        forall|z: Seq<char>| names(z) is Some ==> (#[trigger] found(l.a, z)) is Some,
    ensures
        !l.names.contains(u) ==> (names_after(xs, xs.len() as int, names)->0)(u) == names(u),
{
    if !l.names.contains(u) {
        assert forall|i: int| 0 <= i < xs.len() implies (#[trigger] xs[i]).kind->Assign_name != u by {
            let a = xs[i].kind->Assign_name;
            if a == u {
                assert(names(a) is Some);
                assert(found(l.a, a) is Some);
                assert(found(l.a, a) == found(l.s, a));
            }
        }
        lemma_unassigned(xs, xs.len() as int, names, u);
    }
}

/// The loop that a `while` is lowered to.
spec fn loop_of(c: Ctx, n: nat, s: SLower, e: SExpr) -> Loop {
    let (cond, body) = (e.kind->While_cond, e.kind->While_body);
    let names = rebound(s, assigned_block(body, seq![]));
    let inits = values_of(s, names);
    let (s1, header) = l_block(s);
    let (s2, body_b) = l_block(s1);
    let (s3, exit) = l_block(s2);
    let (s4, hs, xs) = l_params2(s3, header, exit, inits, inits.len() as int);
    let s5 = l_push(l_enter(l_jump(s4, header, inits), header));
    let a = l_bind_all(s5, names, hs, names.len() as int);
    let (b, cv) = x_expr(c, n, a, *cond);
    let s8 = l_end(
        b,
        STerm::Branch {
            cond: cv,
            then: STarget { to: body_b, args: seq![] },
            els: STarget { to: exit, args: hs },
        },
    );
    let l = SLoop { continue_target: header, exit, carried: names, has_value: false };
    let x = l_push_loop(l_enter(s8, body_b), l);
    let y = x_stmts(c, n, x, body.stmts, body.stmts.len() as int);
    let s9 = l_continue(y);
    let s10 = l_bind_all(l_pop(l_pop_loop(s9)), names, xs, names.len() as int);
    Loop { s, names, inits, hs, xs, a, b, cv, x, y, t: l_enter(s10, exit) }
}

/// What a `while` asks for: its condition is plain, its body assigns plain expressions to
/// names that are bound around it, and there are numbers for what it is lowered to.
pub open spec fn is_plain_while(c: Ctx, n: nat, s: SLower, e: SExpr) -> bool {
    e.kind matches SExprKind::While { cond, body } && {
        let l = loop_of_states(c, n, s, e);
        let k = body.stmts.len() as int;
        &&& body.tail is None
        &&& forall|i: int|
            0 <= i < body.stmts.len() ==> ((#[trigger] body.stmts[i]).kind matches
                SStmtKind::Assign { name, .. } && found(s, name) is Some)
        &&& is_plain(c, l.0, *cond)
        &&& are_plain(c, n, l.1, body.stmts, k)
        &&& s.b.blocks.len() + 3 * (weight(*cond) + weight_of(body.stmts, k)) + 3 <= u32::MAX
        &&& s.b.values.len() + 2 * body.stmts.len() + 3 * (weight(*cond) + weight_of(
            body.stmts,
            k,
        )) <= u32::MAX
    }
}

/// The states in which the condition of a `while` is lowered, and in which its body is.
pub closed spec fn loop_of_states(c: Ctx, n: nat, s: SLower, e: SExpr) -> (SLower, SLower) {
    (loop_of(c, n, s, e).a, loop_of(c, n, s, e).x)
}

proof fn lemma_carried_len(s: SLower, names: Seq<Seq<char>>, k: int)
    requires
        0 <= k,
    ensures
        carried(s, names, k).len() <= k,
    decreases k,
{
    if k > 0 {
        lemma_carried_len(s, names, k - 1);
    }
}

proof fn lemma_used_len(c: Ctx, n: nat, s: SLower, xs: Seq<SStmt>, k: int, o: Scan)
    requires
        0 <= k <= xs.len(),
        are_plain(c, n, s, xs, k),
        forall|i: int| 0 <= i < xs.len() ==> (#[trigger] xs[i]).kind is Assign,
        o.bound.len() == 0,
    ensures
        assigning_stmts(xs, k, o).used.len() <= o.used.len() + k,
        assigning_stmts(xs, k, o).bound == o.bound,
    decreases k,
{
    if k > 0 {
        lemma_used_len(c, n, s, xs, k - 1, o);
        let a = assigning_stmts(xs, k - 1, o);
        let x = xs[k - 1];
        let (name, e) = (x.kind->Assign_name, x.kind->Assign_value);
        lemma_plain_assigns(c, x_stmts(c, n, s, xs, k - 1), e, noted(a, name));
        assert(assigning_stmts(xs, k, o) == assigning_stmt(x, a));
        assert(assigning_stmt(x, a) == assigning_expr(e, noted(a, name)));
    }
}

/// The names of a loop.
proof fn lemma_loop_names(c: Ctx, n: nat, s: SLower, e: SExpr)
    requires
        is_plain_while(c, n, s, e),
    ensures
        ({
            let l = loop_of(c, n, s, e);
            let xs = e.kind->While_body.stmts;
            &&& l.names.no_duplicates()
            &&& l.names.len() <= xs.len()
            &&& forall|i: int| 0 <= i < l.names.len() ==> found(s, #[trigger] l.names[i]) is Some
            &&& forall|i: int|
                0 <= i < xs.len() ==> l.names.contains((#[trigger] xs[i]).kind->Assign_name)
            &&& l.inits.len() == l.names.len()
            &&& forall|i: int|
                0 <= i < l.names.len() ==> Some(#[trigger] l.inits[i]) == found(s, l.names[i])
        }),
{
    let l = loop_of(c, n, s, e);
    let body = e.kind->While_body;
    let xs = body.stmts;
    let z = xs.len() as int;
    let o = fresh(seq![]);
    lemma_assigned(c, n, l.x, xs, z, o);
    lemma_used_len(c, n, l.x, xs, z, o);
    let used = assigning_stmts(xs, z, o).used;
    assert(assigning_opt(body.tail, assigning_stmts(xs, z, o)) == assigning_stmts(xs, z, o));
    assert(assigned_block(body, seq![]) == used);
    lemma_carried(s, used, used.len() as int);
    lemma_carried_len(s, used, used.len() as int);
    assert forall|i: int| 0 <= i < xs.len() implies l.names.contains(
        (#[trigger] xs[i]).kind->Assign_name,
    ) by {
        let a = xs[i].kind->Assign_name;
        assert(used.contains(a));
        let j = choose|j: int| 0 <= j < used.len() && used[j] == a;
        assert(found(s, used[j]) is Some);
    }
    lemma_current(s, l.names, l.names.len() as int);
}

/// The loop of a plain `while` is one.
proof fn lemma_is_loop(c: Ctx, n: nat, s: SLower, e: SExpr)
    requires
        is_open(s),
        s.scope.len() > 0,
        binds_values(s),
        is_plain_while(c, n, s, e),
    ensures
        ({
            let l = loop_of(c, n, s, e);
            let xs = e.kind->While_body.stmts;
            &&& is_loop(l)
            &&& has_room(l.a, *e.kind->While_cond)
            &&& binds_values(l.a)
            &&& is_roomy(l.x, weight_of(xs, xs.len() as int))
            &&& binds_values(l.x)
            &&& l.x.scope.len() > 0
            &&& alike(l.a, l.x)
            &&& loop_names(l, xs)
            &&& l.t.subst == s.subst
            &&& l.t.scope.len() == s.scope.len()
            &&& forall|i: int|
                0 <= i < l.names.len() ==> found(l.t, #[trigger] l.names[i]) == Some(l.xs[i])
            &&& forall|z: Seq<char>| !l.names.contains(z) ==> #[trigger] found(l.t, z) == found(s, z)
        }),
{
    let l = loop_of(c, n, s, e);
    let (cond, body) = (e.kind->While_cond, e.kind->While_body);
    let stmts = body.stmts;
    let z = stmts.len() as int;
    let m = s.b.blocks.len() as int;
    lemma_loop_names(c, n, s, e);
    reveal(l_block);
    reveal(l_end);
    reveal(l_enter);
    reveal(l_push);
    reveal(l_pop);
    reveal(l_push_loop);
    reveal(l_pop_loop);
    let (s1, header) = l_block(s);
    let (s2, body_b) = l_block(s1);
    let (s3, exit) = l_block(s2);
    assert(s3.b.blocks[m] == empty_block(header));
    assert(s3.b.blocks[m + 2] == empty_block(exit));
    lemma_params2(s3, header, exit, l.inits, l.inits.len() as int);
    let s4 = l_params2(s3, header, exit, l.inits, l.inits.len() as int).0;
    let s5 = l_push(l_enter(l_jump(s4, header, l.inits), header));
    lemma_bind_all(s5, l.names, l.hs, l.names.len() as int);
    assert(l.a.b.blocks =~= opened(l));
    assert forall|q: Seq<char>| !l.names.contains(q) implies #[trigger] found(l.a, q) == found(
        s,
        q,
    ) by {
        assert(forall|i: int| 0 <= i < l.names.len() ==> l.names[i] != q);
        super::meaning::lemma_found_pushed(s, s5, q);
    }
    assert forall|q: Seq<char>| (#[trigger] found(l.a, q)) is Some implies (found(l.a, q)->0).0
        < l.a.b.values.len() by {
        if l.names.contains(q) {
            let i = choose|i: int| 0 <= i < l.names.len() && l.names[i] == q;
            assert(found(l.a, l.names[i]) == Some(l.hs[i]));
        } else {
            assert(found(l.a, q) == found(s, q));
        }
    }
    lemma_goes_on(c, n, l.a, *cond);
    assert(l.x.scope == l.a.scope);
    assert forall|q: Seq<char>| #[trigger] found(l.x, q) == found(l.a, q) by {}
    assert(l.x.b.blocks =~= ended(
        l.b,
        STerm::Branch { cond: l.cv, then: to(m + 1, seq![]), els: to(m + 2, l.hs) },
    ));
    assert(is_open(l.x));
    lemma_stmts_go_on(c, n, l.x, stmts, z);
    lemma_names_stay(c, n, l.x, stmts, z);
    lemma_current(l.y, l.names, l.names.len() as int);
    let lp = SLoop { continue_target: header, exit, carried: l.names, has_value: false };
    assert(l.y.loops.last() == lp);
    let s9 = l_continue(l.y);
    assert(s9.b.blocks == ended(l.y, STerm::Jump(to(m, values_of(l.y, l.names)))));
    let p = l_pop(l_pop_loop(s9));
    assert(p.scope =~= s.scope) by {
        assert(l.y.scope.drop_last() == l.x.scope.drop_last());
        assert(l.a.scope.drop_last() == s5.scope.drop_last());
        assert(s5.scope.drop_last() =~= s.scope);
    }
    lemma_bind_all(p, l.names, l.xs, l.names.len() as int);
    let after = l_bind_all(p, l.names, l.xs, l.names.len() as int);
    assert(l.t.scope == after.scope);
    assert forall|q: Seq<char>| !l.names.contains(q) implies #[trigger] found(l.t, q) == found(
        s,
        q,
    ) by {
        assert(forall|i: int| 0 <= i < l.names.len() ==> l.names[i] != q);
        assert(found(after, q) == found(p, q));
        assert(found(p, q) == found(s, q));
    }
    assert forall|i: int| 0 <= i < l.names.len() implies found(l.t, #[trigger] l.names[i]) == Some(
        l.xs[i],
    ) by {
        assert(found(after, l.names[i]) == Some(l.xs[i]));
    }
}

/// Names that stand for something go on to.
proof fn lemma_names_stay(c: Ctx, n: nat, s: SLower, xs: Seq<SStmt>, k: int)
    requires
        0 <= k <= xs.len(),
        is_open(s),
        s.scope.len() > 0,
        are_plain(c, n, s, xs, k),
        is_roomy(s, weight_of(xs, k)),
        binds_values(s),
    ensures
        forall|q: Seq<char>|
            found(s, q) is Some ==> (#[trigger] found(x_stmts(c, n, s, xs, k), q)) is Some,
    decreases k,
{
    if k > 0 {
        lemma_names_stay(c, n, s, xs, k - 1);
        lemma_stmts_go_on(c, n, s, xs, k - 1);
        super::called::lemma_stmt_binds(c, n, x_stmts(c, n, s, xs, k - 1), xs[k - 1]);
    }
}

/// A `while` comes to where it ends, with its names standing for what its rounds have made of
/// them: the body runs as often as the condition holds, and each round goes on from what the
/// one before it left.
pub proof fn lowered_loops_come_to_what_their_rounds_leave(
    c: Ctx,
    n: nat,
    s: SLower,
    e: SExpr,
    ty: TyId,
    g: SFunc,
    h: Held,
    w: World,
    names: Names,
    m: nat,
) -> (k: Held)
    requires
        is_open(s),
        s.scope.len() > 0,
        binds_values(s),
        is_plain_while(c, n, s, e),
        only_assign(e.kind->While_body.stmts, names),
        holds(g, s, x_while(c, n, s, e, ty).0),
        x_while(c, n, s, e, ty).0.b.values.len() < u32::MAX,
        stand(s, h, names),
        casts_keep(w),
        after_rounds(*e.kind->While_cond, e.kind->While_body.stmts, names, m) is Some,
    ensures
        ({
            let t = x_while(c, n, s, e, ty).0;
            &&& comes(
                g,
                Place { block: at(s), at: now(s).len() as int, holds: h },
                Place { block: at(t), at: now(t).len() as int, holds: k },
                w,
            )
            &&& kept(h, k, s.b.values.len())
            &&& stand(t, k, after_rounds(*e.kind->While_cond, e.kind->While_body.stmts, names, m)->0)
        }),
{
    let l = loop_of(c, n, s, e);
    let (cond, body) = (e.kind->While_cond, e.kind->While_body);
    let xs = body.stmts;
    let size = s.b.values.len();
    lemma_is_loop(c, n, s, e);
    lemma_loop_names(c, n, s, e);
    lemma_loop_shape(l);
    let u = x_while(c, n, s, e, ty).0;
    assert(x_body(c, n, l.x, body).0 == l.y);
    assert(x_round(c, n, l.x, body) == l_continue(l.y));
    assert(u == super::state::l_unit(l.t, ty).0);
    let op = super::super::ssa::SOp::ConstUnit;
    super::meaning::lemma_emit_on(l.t, op, super::super::repr::SRepr::Unit, ty);
    super::meaning::lemma_holds_parts(g, s, scoped_loop(l.t, s), scoped_loop(u, s));
    assert(holds(g, s, l.t));
    assert(holds(g, l.t, u));
    lemma_loop_holds(g, l);
    let vs = held(l.inits, h);
    let q = bound(l.hs, vs, h);
    lemma_edge(g, s, l.a, to(s.b.blocks.len() as int, l.inits), h, w);
    lemma_bound_keeps(l.hs, vs, h, size);
    assert(stand(l.a, q, names)) by {
        assert forall|z: Seq<char>| names(z) is Some implies (#[trigger] found(l.a, z) matches Some(v)
            && names(z) == Some(q(v))) by {
            assert(found(s, z) is Some);
            if l.names.contains(z) {
                let i = choose|i: int| 0 <= i < l.names.len() && l.names[i] == z;
                lemma_bound_at(l.hs, vs, h, i);
                assert(found(l.a, l.names[i]) == Some(l.hs[i]));
                assert(Some(l.inits[i]) == found(s, l.names[i]));
            } else {
                assert(found(l.a, z) == found(s, z));
                let v = found(s, z)->0;
                assert(q(v) == h(v));
            }
        }
    }
    let k = lemma_rounds(c, n, l, *cond, xs, g, q, w, names, m);
    lemma_comes_on(g, place(s, h), place(l.a, q), place(l.t, k), w);
    lemma_kept_on(h, q, k, size, size);
    super::meaning::lemma_emit_runs(g, l.t, op, super::super::repr::SRepr::Unit, ty, k, w);
    let f = with(
        k,
        Value(l.t.b.values.len() as u32),
        super::super::run::outcome(op, k, w),
    );
    lemma_comes_on(g, place(s, h), place(l.t, k), place(u, f), w);
    lemma_kept_on(h, k, f, size, l.t.b.values.len());
    let r = after_rounds(*cond, xs, names, m)->0;
    assert(stand(u, f, r)) by {
        assert forall|z: Seq<char>| r(z) is Some implies (#[trigger] found(u, z) matches Some(v) && r(
            z,
        ) == Some(f(v))) by {
            assert(found(u, z) == found(l.t, z));
            if l.names.contains(z) {
                let i = choose|i: int| 0 <= i < l.names.len() && l.names[i] == z;
                assert(found(l.t, l.names[i]) == Some(l.xs[i]));
                assert(l.xs[i].0 < l.t.b.values.len());
                assert(f(l.xs[i]) == k(l.xs[i]));
            } else {
                assert(r(z) == names(z));
                let v = found(s, z)->0;
                assert(f(v) == h(v));
            }
        }
    }
    f
}

} // verus!
