//! What is made of lowered expressions: elements, fields, tuples, and what stands in for null.

use super::super::repr::SRepr;
use super::super::run::{
    comes, held, lemma_comes_nowhere, lemma_comes_on, outcome, with, Held, Place, Val, World,
};
use super::super::ssa::{operands, SFunc, SOp, Value};
use super::meaning::{
    alike, at, binds_values, casts_keep, goes_on, grew, holds, is_fork, is_open, is_plain,
    kept, lemma_binds_on, lemma_branched, lemma_emit_on, lemma_emit_runs, lemma_fork_holds,
    lemma_fork_shape, lemma_goes_on, lemma_holds_parts, lemma_kept_on, lemma_on, lemma_plain_alike,
    lemma_stand_on, lemma_way, lemma_ways_begin, lowered_expressions_come_to_what_they_mean, meaning,
    met, now, place, stand, weight, Fork, Names,
};
use super::scheme::{x_binary, x_expr, x_exprs, x_operation, x_orelse, x_value};
use super::state::{
    expr_layout, expr_ty, l_block, l_branch, l_emit, l_end, l_enter, l_jump, l_param, ty_at, Ctx,
    SLower,
};

use crate::syntax::{SExpr, SExprKind};
use crate::types::TyId;
use vstd::prelude::*;

verus! {

// ---- several expressions, one after the other ----

/// How much there is to the first `k` expressions.
pub open spec fn weights(es: Seq<SExpr>, k: int) -> nat
    decreases k,
{
    if k <= 0 {
        0
    } else {
        weights(es, k - 1) + weight(es[k - 1])
    }
}

pub open spec fn all_plain(c: Ctx, s: SLower, es: Seq<SExpr>) -> bool {
    forall|i: int| 0 <= i < es.len() ==> is_plain(c, s, #[trigger] es[i])
}

/// There are numbers for so much.
pub open spec fn roomy(s: SLower, k: nat) -> bool {
    s.b.blocks.len() + 3 * k <= u32::MAX && s.b.values.len() + 3 * k <= u32::MAX
}

proof fn lemma_exprs_go_on(c: Ctx, n: nat, s: SLower, es: Seq<SExpr>, k: int)
    requires
        0 <= k <= es.len(),
        is_open(s),
        all_plain(c, s, es),
        roomy(s, weights(es, k)),
        binds_values(s),
    ensures
        goes_on(s, x_exprs(c, n, s, es, k).0),
        grew(s, x_exprs(c, n, s, es, k).0, weights(es, k)),
        x_exprs(c, n, s, es, k).1.len() == k,
        forall|i: int|
            0 <= i < k ==> (#[trigger] x_exprs(c, n, s, es, k).1[i]).0 < x_exprs(
                c,
                n,
                s,
                es,
                k,
            ).0.b.values.len(),
    decreases k,
{
    if k > 0 {
        lemma_exprs_go_on(c, n, s, es, k - 1);
        let (s1, vs) = x_exprs(c, n, s, es, k - 1);
        assert(alike(s, s1));
        assert(is_plain(c, s, es[k - 1]));
        lemma_plain_alike(c, s, s1, es[k - 1]);
        lemma_binds_on(s, s1);
        lemma_goes_on(c, n, s1, es[k - 1]);
        let (s2, v) = x_expr(c, n, s1, es[k - 1]);
        lemma_on(s, s1, s2);
        let all = x_exprs(c, n, s, es, k).1;
        assert forall|i: int| 0 <= i < k implies (#[trigger] all[i]).0 < s2.b.values.len() by {
            if i < k - 1 {
                assert(all[i] == vs[i]);
            }
        }
    }
}

/// Expressions come to what they mean from left to right, and all of it is held at the end.
pub proof fn lowered_expressions_are_all_held(
    c: Ctx,
    n: nat,
    s: SLower,
    es: Seq<SExpr>,
    k: int,
    g: SFunc,
    h: Held,
    w: World,
    names: Names,
) -> (l: Held)
    requires
        0 <= k <= es.len(),
        is_open(s),
        all_plain(c, s, es),
        roomy(s, weights(es, k)),
        binds_values(s),
        holds(g, s, x_exprs(c, n, s, es, k).0),
        stand(s, h, names),
        casts_keep(w),
        forall|i: int| 0 <= i < es.len() ==> meaning(#[trigger] es[i], names) is Some,
    ensures
        ({
            let (t, vs) = x_exprs(c, n, s, es, k);
            &&& goes_on(s, t)
            &&& comes(
                g,
                Place { block: at(s), at: now(s).len() as int, holds: h },
                Place { block: at(t), at: now(t).len() as int, holds: l },
                w,
            )
            &&& kept(h, l, s.b.values.len())
            &&& vs.len() == k
            &&& forall|i: int| 0 <= i < k ==> meaning(es[i], names) == Some(l(#[trigger] vs[i]))
        }),
    decreases k,
{
    lemma_exprs_go_on(c, n, s, es, k);
    if k > 0 {
        lemma_weights(es, k);
        lemma_exprs_go_on(c, n, s, es, k - 1);
        let (s1, vs) = x_exprs(c, n, s, es, k - 1);
        let e = es[k - 1];
        assert(alike(s, s1));
        assert(is_plain(c, s, e));
        lemma_plain_alike(c, s, s1, e);
        lemma_binds_on(s, s1);
        lemma_goes_on(c, n, s1, e);
        let (s2, v) = x_expr(c, n, s1, e);
        lemma_holds_parts(g, s, s1, s2);
        let i = lowered_expressions_are_all_held(c, n, s, es, k - 1, g, h, w, names);
        lemma_stand_on(s, s1, h, i, names);
        assert(meaning(es[k - 1], names) is Some);
        let x = meaning(e, names)->0;
        let j = lowered_expressions_come_to_what_they_mean(c, n, s1, e, g, i, w, names, x);
        lemma_comes_on(g, place(s, h), place(s1, i), place(s2, j), w);
        lemma_kept_on(h, i, j, s.b.values.len(), s1.b.values.len());
        let all = x_exprs(c, n, s, es, k).1;
        assert forall|q: int| 0 <= q < k implies meaning(es[q], names) == Some(
            j(#[trigger] all[q]),
        ) by {
            if q < k - 1 {
                assert(all[q] == vs[q]);
                assert(vs[q].0 < s1.b.values.len());
                assert(j(vs[q]) == i(vs[q]));
            }
        }
        j
    } else {
        lemma_comes_nowhere(g, place(s, h), w);
        h
    }
}

proof fn lemma_weights(es: Seq<SExpr>, k: int)
    requires
        k > 0,
    ensures
        weights(es, k - 1) <= weights(es, k),
{
}

/// One more instruction behind others.
proof fn lemma_then(
    g: SFunc,
    s: SLower,
    t: SLower,
    op: SOp,
    r: SRepr,
    ty: TyId,
    h: Held,
    k: Held,
    w: World,
) -> (l: Held)
    requires
        is_open(s),
        goes_on(s, t),
        t.b.values.len() < u32::MAX,
        holds(g, t, l_emit(t, op, r, ty).0),
        comes(g, place(s, h), place(t, k), w),
        kept(h, k, s.b.values.len()),
    ensures
        goes_on(s, l_emit(t, op, r, ty).0),
        comes(g, place(s, h), place(l_emit(t, op, r, ty).0, l), w),
        kept(h, l, s.b.values.len()),
        kept(k, l, t.b.values.len()),
        l(l_emit(t, op, r, ty).1) == outcome(op, k, w),
{
    let u = l_emit(t, op, r, ty).0;
    lemma_emit_on(t, op, r, ty);
    lemma_emit_runs(g, t, op, r, ty, k, w);
    let l = with(k, Value(t.b.values.len() as u32), outcome(op, k, w));
    lemma_comes_on(g, place(s, h), place(t, k), place(u, l), w);
    lemma_kept_on(h, k, l, s.b.values.len(), t.b.values.len());
    lemma_on(s, t, u);
    l
}

/// A tuple holds what its expressions mean, in their order.
pub proof fn tuples_hold_their_elements_in_order(
    c: Ctx,
    n: nat,
    s: SLower,
    e: SExpr,
    g: SFunc,
    h: Held,
    w: World,
    names: Names,
) -> (l: Held)
    requires
        e.kind is Tuple,
        is_open(s),
        all_plain(c, s, e.kind->Tuple_0),
        roomy(s, weights(e.kind->Tuple_0, e.kind->Tuple_0.len() as int) + 1),
        binds_values(s),
        holds(g, s, x_expr(c, n, s, e).0),
        stand(s, h, names),
        casts_keep(w),
        forall|i: int|
            0 <= i < e.kind->Tuple_0.len() ==> meaning(#[trigger] e.kind->Tuple_0[i], names) is Some,
    ensures
        ({
            let (t, v) = x_expr(c, n, s, e);
            let es = e.kind->Tuple_0;
            let parts = Seq::new(es.len(), |i: int| meaning(es[i], names)->0);
            &&& comes(
                g,
                Place { block: at(s), at: now(s).len() as int, holds: h },
                Place { block: at(t), at: now(t).len() as int, holds: l },
                w,
            )
            &&& kept(h, l, s.b.values.len())
            &&& l(v) == w(SOp::MakeTuple(seq![]), parts)
        }),
{
    let es = e.kind->Tuple_0;
    let (r, ty) = (expr_layout(c, s, e.id), expr_ty(c, e.id));
    let z = es.len() as int;
    lemma_exprs_go_on(c, n, s, es, z);
    let (s1, vs) = x_exprs(c, n, s, es, z);
    let op = SOp::MakeTuple(vs);
    assert(x_expr(c, n, s, e) == x_value(c, n, s, e, r, ty));
    assert(x_value(c, n, s, e, r, ty) == l_emit(s1, op, r, ty));
    lemma_emit_on(s1, op, r, ty);
    lemma_holds_parts(g, s, s1, l_emit(s1, op, r, ty).0);
    let k = lowered_expressions_are_all_held(c, n, s, es, z, g, h, w, names);
    let l = lemma_then(g, s, s1, op, r, ty, h, k, w);
    assert(held(operands(op), k) =~= Seq::new(es.len(), |i: int| meaning(es[i], names)->0)) by {
        assert forall|i: int| 0 <= i < z implies held(vs, k)[i] == meaning(es[i], names)->0 by {
            assert(meaning(es[i], names) == Some(k(vs[i])));
        }
    }
    l
}

/// An index reads the list that stands before it at the index that stands in the brackets.
pub proof fn indexing_reads_the_list_at_the_index(
    c: Ctx,
    n: nat,
    s: SLower,
    e: SExpr,
    g: SFunc,
    h: Held,
    w: World,
    names: Names,
    list: Val,
    index: Val,
) -> (l: Held)
    requires
        e.kind matches SExprKind::Index { base, index: i } && is_plain(c, s, *base) && is_plain(
            c,
            s,
            *i,
        ) && roomy(s, weight(*base) + weight(*i) + 1) && meaning(*base, names) == Some(list)
            && meaning(*i, names) == Some(index),
        is_open(s),
        binds_values(s),
        holds(g, s, x_expr(c, n, s, e).0),
        stand(s, h, names),
        casts_keep(w),
    ensures
        ({
            let (t, v) = x_expr(c, n, s, e);
            &&& comes(
                g,
                Place { block: at(s), at: now(s).len() as int, holds: h },
                Place { block: at(t), at: now(t).len() as int, holds: l },
                w,
            )
            &&& kept(h, l, s.b.values.len())
            &&& l(v) == w(
                SOp::Index { base: Value(0), index: Value(0), covered: None },
                seq![list, index],
            )
        }),
{
    let (base, i) = (e.kind->Index_base, e.kind->Index_index);
    let (r, ty) = (expr_layout(c, s, e.id), expr_ty(c, e.id));
    lemma_goes_on(c, n, s, *base);
    let (s1, a) = x_expr(c, n, s, *base);
    assert(alike(s, s1));
    lemma_plain_alike(c, s, s1, *i);
    lemma_binds_on(s, s1);
    lemma_goes_on(c, n, s1, *i);
    let (s2, b) = x_expr(c, n, s1, *i);
    let op = SOp::Index { base: a, index: b, covered: None };
    assert(x_expr(c, n, s, e) == x_operation(c, n, s, e, r, ty));
    assert(x_operation(c, n, s, e, r, ty) == l_emit(s2, op, r, ty));
    lemma_emit_on(s2, op, r, ty);
    lemma_on(s, s1, s2);
    lemma_holds_parts(g, s, s2, l_emit(s2, op, r, ty).0);
    lemma_holds_parts(g, s, s1, s2);
    let k = lowered_expressions_come_to_what_they_mean(c, n, s, *base, g, h, w, names, list);
    lemma_stand_on(s, s1, h, k, names);
    let q = lowered_expressions_come_to_what_they_mean(c, n, s1, *i, g, k, w, names, index);
    lemma_comes_on(g, place(s, h), place(s1, k), place(s2, q), w);
    lemma_kept_on(h, k, q, s.b.values.len(), s1.b.values.len());
    assert(q(a) == list);
    let l = lemma_then(g, s, s2, op, r, ty, h, q, w);
    assert(held(operands(op), q) =~= seq![list, index]);
    l
}

/// A field is read of what stands before the dot, by the name behind it.
pub proof fn fields_are_read_by_their_names(
    c: Ctx,
    n: nat,
    s: SLower,
    e: SExpr,
    g: SFunc,
    h: Held,
    w: World,
    names: Names,
    whole: Val,
) -> (l: Held)
    requires
        e.kind matches SExprKind::Field { base, .. } && is_plain(c, s, *base) && roomy(
            s,
            weight(*base) + 1,
        ) && meaning(*base, names) == Some(whole),
        is_open(s),
        binds_values(s),
        holds(g, s, x_expr(c, n, s, e).0),
        stand(s, h, names),
        casts_keep(w),
    ensures
        ({
            let (t, v) = x_expr(c, n, s, e);
            &&& comes(
                g,
                Place { block: at(s), at: now(s).len() as int, holds: h },
                Place { block: at(t), at: now(t).len() as int, holds: l },
                w,
            )
            &&& kept(h, l, s.b.values.len())
            &&& l(v) == w(SOp::Field { base: Value(0), field: e.kind->Field_name }, seq![whole])
        }),
{
    let base = e.kind->Field_base;
    let (r, ty) = (expr_layout(c, s, e.id), expr_ty(c, e.id));
    lemma_goes_on(c, n, s, *base);
    let (s1, a) = x_expr(c, n, s, *base);
    let op = SOp::Field { base: a, field: e.kind->Field_name };
    assert(x_expr(c, n, s, e) == x_operation(c, n, s, e, r, ty));
    assert(x_operation(c, n, s, e, r, ty) == l_emit(s1, op, r, ty));
    lemma_emit_on(s1, op, r, ty);
    lemma_holds_parts(g, s, s1, l_emit(s1, op, r, ty).0);
    let k = lowered_expressions_come_to_what_they_mean(c, n, s, *base, g, h, w, names, whole);
    let l = lemma_then(g, s, s1, op, r, ty, h, k, w);
    assert(held(operands(op), k) =~= seq![whole]);
    l
}

// ---- what stands in for null ----

spec fn orelse_fork(c: Ctx, n: nat, s: SLower, e: SExpr, r: SRepr, ty: TyId) -> Fork {
    let (lhs, rhs) = (e.kind->Binary_lhs, e.kind->Binary_rhs);
    let (s1, l) = x_expr(c, n, s, *lhs);
    let (s2, none) = l_emit(s1, SOp::IsNull(l), SRepr::Bool, ty_at(s1, l));
    let (s3, none_b) = l_block(s2);
    let (s4, some_b) = l_block(s3);
    let (s5, join) = l_block(s4);
    let (s6, out) = l_param(s5, join, r, ty);
    let x1 = l_enter(l_branch(s6, none, none_b, some_b), none_b);
    let (y1, v1) = x_expr(c, n, x1, *rhs);
    let x2 = l_enter(l_jump(y1, join, seq![v1]), some_b);
    let (y2, v2) = l_emit(x2, SOp::Cast(l), r, ty);
    Fork {
        s: s2,
        cond: none,
        yes: true,
        out,
        x1,
        y1,
        v1,
        x2,
        y2,
        v2,
        t: l_enter(l_jump(y2, join, seq![v2]), join),
    }
}

/// `a orelse b` is `a` where that is not null, and `b` where it is.
pub proof fn orelse_stands_in_for_null(
    c: Ctx,
    n: nat,
    s: SLower,
    e: SExpr,
    g: SFunc,
    h: Held,
    w: World,
    names: Names,
    a: Val,
    null: bool,
) -> (m: Held)
    requires
        e.kind matches SExprKind::Binary { op, lhs, rhs } && op is Orelse && is_plain(c, s, *lhs)
            && is_plain(c, s, *rhs) && roomy(s, weight(*lhs) + weight(*rhs) + 2) && meaning(
            *lhs,
            names,
        ) == Some(a) && (null ==> meaning(*rhs, names) is Some),
        w(SOp::IsNull(Value(0)), seq![a]) == Val::Bool(null),
        is_open(s),
        binds_values(s),
        holds(g, s, x_expr(c, n, s, e).0),
        stand(s, h, names),
        casts_keep(w),
    ensures
        ({
            let (t, v) = x_expr(c, n, s, e);
            &&& comes(
                g,
                Place { block: at(s), at: now(s).len() as int, holds: h },
                Place { block: at(t), at: now(t).len() as int, holds: m },
                w,
            )
            &&& kept(h, m, s.b.values.len())
            &&& !null ==> m(v) == a
            &&& null ==> meaning(*e.kind->Binary_rhs, names) == Some(m(v))
        }),
{
    let (r, ty) = (expr_layout(c, s, e.id), expr_ty(c, e.id));
    let (lhs, rhs) = (e.kind->Binary_lhs, e.kind->Binary_rhs);
    let f = orelse_fork(c, n, s, e, r, ty);
    let (s1, l) = x_expr(c, n, s, *lhs);
    lemma_goes_on(c, n, s, *lhs);
    let op = SOp::IsNull(l);
    lemma_emit_on(s1, op, SRepr::Bool, ty_at(s1, l));
    lemma_on(s, s1, f.s);
    lemma_branched(f.s, r, ty, f.cond, true);
    reveal(l_enter);
    reveal(l_end);
    assert(alike(s, f.x1));
    lemma_plain_alike(c, s, f.x1, *rhs);
    lemma_binds_on(s, f.x1);
    lemma_goes_on(c, n, f.x1, *rhs);
    assert(f.x2.b.blocks =~= met(f, f.y1, f.v1));
    lemma_emit_on(f.x2, SOp::Cast(l), r, ty);
    assert(f.t.b.blocks =~= met(f, f.y2, f.v2));
    assert(is_fork(f));
    assert(x_expr(c, n, s, e) == x_operation(c, n, s, e, r, ty));
    assert(x_operation(c, n, s, e, r, ty) == x_binary(c, n, s, e, r, ty));
    assert(x_binary(c, n, s, e, r, ty) == x_orelse(c, n, s, e, r, ty));
    assert(x_orelse(c, n, s, e, r, ty) == (f.t, f.out));
    lemma_fork_shape(f);
    lemma_ways_begin(f);
    lemma_on(s, f.s, f.t);
    lemma_holds_parts(g, s, f.s, f.t);
    lemma_holds_parts(g, s, s1, f.s);
    lemma_fork_holds(g, f);
    let i = lowered_expressions_come_to_what_they_mean(c, n, s, *lhs, g, h, w, names, a);
    let k = lemma_then(g, s, s1, op, SRepr::Bool, ty_at(s1, l), h, i, w);
    assert(held(operands(op), i) =~= seq![a]);
    if null {
        lemma_stand_on(s, f.x1, h, k, names);
        let x = meaning(*rhs, names)->0;
        let q = lowered_expressions_come_to_what_they_mean(c, n, f.x1, *rhs, g, k, w, names, x);
        lemma_way(g, f, k, q, w, f.x1, f.y1, f.v1, true);
        let m = with(q, f.out, q(f.v1));
        lemma_comes_on(g, place(s, h), place(f.s, k), place(f.t, m), w);
        lemma_kept_on(h, k, m, s.b.values.len(), f.s.b.values.len());
        m
    } else {
        let cast = SOp::Cast(l);
        lemma_emit_runs(g, f.x2, cast, r, ty, k, w);
        let q = with(k, Value(f.x2.b.values.len() as u32), outcome(cast, k, w));
        lemma_way(g, f, k, q, w, f.x2, f.y2, f.v2, false);
        let m = with(q, f.out, q(f.v2));
        lemma_comes_on(g, place(s, h), place(f.s, k), place(f.t, m), w);
        lemma_kept_on(h, k, m, s.b.values.len(), f.s.b.values.len());
        assert(k(l) == a);
        assert(held(operands(cast), k) =~= seq![a]);
        m
    }
}

} // verus!
