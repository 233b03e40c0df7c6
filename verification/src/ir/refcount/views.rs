//! Views and environments: a view takes a reference just where one is consumed, and neither
//! is ever released.

use super::balance::{countable, hands_out, is_view, net, uses, delta};
use super::{
    block_code, blocks_code, body_code, borrow_all, borrowed, consume_all, consumed, context_of,
    context_wf, copies, counted_only, define, dressed, edge_releases, exit_code, exit_releases,
    inner_code, insertable, inserted, live_at_end, live_at_end_set, live_before_all, live_in,
    live_in_set, live_into, owner_retains, owner_uses, param_code, release, releases_reversed,
    retain, retains_reversed, root_used, roots_have, split, split_arms, step, target_code,
    view_retains, views_end, SContext, SStep,
};
use super::laws::is_count;
use crate::ir::cfg::{cfg, preds};
use crate::ir::graph::walks;
use crate::ir::ssa::{
    block_in_range, inst_in_range, targets, term_operands, values_below, SBlock, SFunc, SInst,
    SOp, SSwitchKey, STarget, STerm, Value,
};
use vstd::prelude::*;

verus! {

/// Whether a run of instructions releases a value.
pub open spec fn releases(is: Seq<SInst>, v: Value) -> bool {
    exists|k: int| 0 <= k < is.len() && (#[trigger] is[k]).op == SOp::Release(v)
}

/// A value that no block takes as a parameter.
pub open spec fn is_no_param(f: SFunc, v: Value) -> bool {
    forall|b: int| 0 <= b < f.blocks.len() ==> !(#[trigger] f.blocks[b]).params.contains(v)
}

/// A value that no instruction makes.
pub open spec fn is_never_made(f: SFunc, v: Value) -> bool {
    forall|b: int, k: int|
        0 <= b < f.blocks.len() && 0 <= k < f.blocks[b].insts.len() ==> (
        #[trigger] f.blocks[b].insts[k]).result != Some(v)
}

/// What is never released: a view that is no parameter, and an environment that no
/// instruction makes.
pub open spec fn is_kept(f: SFunc, v: Value) -> bool {
    let c = context_of(f);
    ||| is_view(c, v) && is_no_param(f, v)
    ||| Some(v) == c.env && v.0 < c.counted.len() && is_never_made(f, v)
}

// ---- no releases ----

proof fn lemma_releases_add(a: Seq<SInst>, b: Seq<SInst>, v: Value)
    requires
        !releases(a, v),
        !releases(b, v),
    ensures
        !releases(a + b, v),
{
    let s = a + b;
    assert forall|k: int| 0 <= k < s.len() implies (#[trigger] s[k]).op != SOp::Release(v) by {
        if k < a.len() {
            assert(s[k] == a[k]);
        } else {
            assert(s[k] == b[k - a.len()]);
        }
    }
}

proof fn lemma_releases_push(a: Seq<SInst>, i: SInst, v: Value)
    requires
        !releases(a, v),
        i.op != SOp::Release(v),
    ensures
        !releases(a.push(i), v),
{
    let s = a.push(i);
    assert forall|k: int| 0 <= k < s.len() implies (#[trigger] s[k]).op != SOp::Release(v) by {
        if k < a.len() {
            assert(s[k] == a[k]);
        }
    }
}

proof fn lemma_retains_release_nothing(vs: Seq<Value>, v: Value)
    ensures
        !releases(retains_reversed(vs), v),
    decreases vs.len(),
{
    if vs.len() > 0 {
        lemma_retains_release_nothing(vs.drop_last(), v);
        lemma_releases_add(seq![retain(vs.last())], retains_reversed(vs.drop_last()), v);
    }
}

proof fn lemma_releases_of(vs: Seq<Value>, v: Value)
    requires
        !vs.contains(v),
    ensures
        !releases(releases_reversed(vs), v),
    decreases vs.len(),
{
    if vs.len() > 0 {
        assert(!vs.drop_last().contains(v)) by {
            if vs.drop_last().contains(v) {
                let k = choose|k: int| 0 <= k < vs.drop_last().len() && vs.drop_last()[k] == v;
                assert(vs[k] == v);
            }
        }
        assert(vs[vs.len() - 1] != v);
        lemma_releases_of(vs.drop_last(), v);
        lemma_releases_add(seq![release(vs.last())], releases_reversed(vs.drop_last()), v);
    }
}

/// Where every root is an owner.
spec fn owners_below(c: SContext) -> bool {
    forall|i: int| 0 <= i < c.root.len() ==> c.base[(#[trigger] c.root[i]).0 as int] is None
}

/// A value that no step releases.
spec fn is_spared(c: SContext, v: Value) -> bool {
    v.0 < c.counted.len() && (c.base[v.0 as int] is Some || Some(v) == c.env)
}

proof fn lemma_root_used(c: SContext, s: SStep, x: Value, v: Value, n: nat)
    requires
        context_wf(c, n),
        owners_below(c),
        is_spared(c, v),
        x.0 < n,
        !s.releases.contains(v),
    ensures
        !root_used(c, s, x).releases.contains(v),
        root_used(c, s, x).retains == s.retains,
{
    let r = c.root[x.0 as int];
    assert(c.base[r.0 as int] is None);
    let p = s.releases.push(r);
    if p.contains(v) {
        let k = choose|k: int| 0 <= k < p.len() && p[k] == v;
        if k < s.releases.len() {
            assert(s.releases[k] == v);
        }
    }
}

proof fn lemma_consume_all(c: SContext, s: SStep, vs: Seq<Value>, v: Value, n: nat)
    requires
        context_wf(c, n),
        owners_below(c),
        is_spared(c, v),
        values_below(vs, n),
        !s.releases.contains(v),
    ensures
        !consume_all(c, s, vs).releases.contains(v),
        c.base[v.0 as int] is Some ==> uses(consume_all(c, s, vs).retains, v) == uses(s.retains, v)
            + uses(vs, v),
    decreases vs.len(),
{
    if vs.len() > 0 {
        let shorter = vs.drop_last();
        assert(values_below(shorter, n)) by {
            assert forall|k: int| 0 <= k < shorter.len() implies (#[trigger] shorter[k]).0 < n by {
                assert(shorter[k] == vs[k]);
            }
        }
        assert(vs.last() == vs[vs.len() - 1]);
        lemma_consume_all(c, s, shorter, v, n);
        let m = consume_all(c, s, shorter);
        let x = vs.last();
        assert(m.retains.push(x).drop_last() =~= m.retains);
        if c.base[x.0 as int] is Some {
            lemma_root_used(c, SStep { retains: m.retains.push(x), ..m }, x, v, n);
        }
    }
}

proof fn lemma_borrow_all(c: SContext, s: SStep, vs: Seq<Value>, v: Value, n: nat)
    requires
        context_wf(c, n),
        owners_below(c),
        is_spared(c, v),
        values_below(vs, n),
        !s.releases.contains(v),
    ensures
        !borrow_all(c, s, vs).releases.contains(v),
        borrow_all(c, s, vs).retains == s.retains,
    decreases vs.len(),
{
    if vs.len() > 0 {
        let shorter = vs.drop_last();
        assert(values_below(shorter, n)) by {
            assert forall|k: int| 0 <= k < shorter.len() implies (#[trigger] shorter[k]).0 < n by {
                assert(shorter[k] == vs[k]);
            }
        }
        assert(vs.last() == vs[vs.len() - 1]);
        lemma_borrow_all(c, s, shorter, v, n);
        lemma_root_used(c, borrow_all(c, s, shorter), vs.last(), v, n);
    }
}

proof fn lemma_dressed(c: SContext, i: SInst, live: Seq<bool>, v: Value, n: nat)
    requires
        context_wf(c, n),
        owners_below(c),
        is_spared(c, v),
        inst_in_range(i, n),
        !is_count(i),
        c.base[v.0 as int] is None ==> i.result != Some(v),
    ensures
        !releases(dressed(i, step(c, i, live)), v),
        is_view(c, v) ==> net(dressed(i, step(c, i, live)), v) == 0,
{
    let d = define(c, i.result, live);
    let cs = counted_only(c.counted, consumed(i.op));
    let bs = counted_only(c.counted, borrowed(i.op));
    super::balance::lemma_operands_below(i.op, n);
    super::balance::lemma_counted_only_below(c.counted, consumed(i.op), n);
    super::balance::lemma_counted_only_below(c.counted, borrowed(i.op), n);
    assert(!d.releases.contains(v)) by {
        if d.releases.contains(v) {
            let k = choose|k: int| 0 <= k < d.releases.len() && d.releases[k] == v;
        }
    }
    lemma_consume_all(c, d, cs, v, n);
    lemma_borrow_all(c, consume_all(c, d, cs), bs, v, n);
    let s = step(c, i, live);
    let (a, z) = (retains_reversed(s.retains), releases_reversed(s.releases));
    lemma_retains_release_nothing(s.retains, v);
    lemma_releases_of(s.releases, v);
    assert(!releases(seq![i], v));
    lemma_releases_add(seq![i], z, v);
    lemma_releases_add(a, seq![i] + z, v);
    if is_view(c, v) {
        super::balance::lemma_uses_counted(c.counted, consumed(i.op), v);
        super::balance::lemma_retains(s.retains, v);
        super::balance::lemma_releases(s.releases, v);
        lemma_absent_unused(s.releases, v);
        super::balance::lemma_net_one(i, v);
        super::balance::lemma_net_add(seq![i], z, v);
        super::balance::lemma_net_add(a, seq![i] + z, v);
        super::balance::what_is_taken_is_consumed(i.op);
        assert(delta(i, v) == -uses(consumed(i.op), v));
        assert(uses(d.retains, v) == 0);
    }
}

proof fn lemma_absent_unused(vs: Seq<Value>, v: Value)
    requires
        !vs.contains(v),
    ensures
        uses(vs, v) == 0,
    decreases vs.len(),
{
    if vs.len() > 0 {
        assert(vs[vs.len() - 1] != v);
        assert(!vs.drop_last().contains(v)) by {
            if vs.drop_last().contains(v) {
                let k = choose|k: int| 0 <= k < vs.drop_last().len() && vs.drop_last()[k] == v;
                assert(vs[k] == v);
            }
        }
        lemma_absent_unused(vs.drop_last(), v);
    }
}

proof fn lemma_body(c: SContext, is: Seq<SInst>, live: Seq<bool>, v: Value, n: nat)
    requires
        context_wf(c, n),
        owners_below(c),
        is_spared(c, v),
        forall|k: int|
            0 <= k < is.len() ==> inst_in_range(#[trigger] is[k], n) && !is_count(is[k]) && (
            c.base[v.0 as int] is None ==> is[k].result != Some(v)),
    ensures
        !releases(body_code(c, is, live).0, v),
        is_view(c, v) ==> net(body_code(c, is, live).0, v) == 0,
    decreases is.len(),
{
    if is.len() > 0 {
        let i = is.last();
        let shorter = is.drop_last();
        assert(i == is[is.len() - 1]);
        assert forall|k: int| 0 <= k < shorter.len() implies inst_in_range(#[trigger] shorter[k], n)
            && !is_count(shorter[k]) && (c.base[v.0 as int] is None ==> shorter[k].result != Some(
            v,
        )) by {
            assert(shorter[k] == is[k]);
        }
        lemma_dressed(c, i, live, v, n);
        let s = step(c, i, live);
        lemma_body(c, shorter, s.live, v, n);
        let before = body_code(c, shorter, s.live).0;
        lemma_releases_add(before, dressed(i, s), v);
        super::balance::lemma_net_add(before, dressed(i, s), v);
    }
}

proof fn lemma_params(c: SContext, ps: Seq<Value>, top: Seq<bool>, v: Value)
    requires
        Some(v) == c.env || !ps.contains(v),
    ensures
        !releases(param_code(c, ps, top), v),
        net(param_code(c, ps, top), v) == 0,
    decreases ps.len(),
{
    if ps.len() > 0 {
        let p = ps.last();
        let shorter = ps.drop_last();
        assert(ps[ps.len() - 1] == p);
        assert(shorter.contains(v) ==> ps.contains(v)) by {
            if shorter.contains(v) {
                let k = choose|k: int| 0 <= k < shorter.len() && shorter[k] == v;
                assert(ps[k] == v);
            }
        }
        lemma_params(c, shorter, top, v);
        let before = param_code(c, shorter, top);
        if c.counted[p.0 as int] && !top[p.0 as int] && Some(p) != c.env {
            lemma_releases_push(before, release(p), v);
            super::balance::lemma_net_one(release(p), v);
            super::balance::lemma_net_add(before, seq![release(p)], v);
            assert(before.push(release(p)) =~= before + seq![release(p)]);
        }
    }
}

// ---- a view is never live itself ----

proof fn lemma_no_root(c: SContext, vs: Seq<Value>, v: Value, n: nat)
    requires
        context_wf(c, n),
        owners_below(c),
        v.0 < n,
        c.base[v.0 as int] is Some,
        values_below(vs, n),
    ensures
        !roots_have(c, vs, v),
    decreases vs.len(),
{
    if vs.len() > 0 {
        let shorter = vs.drop_last();
        assert(values_below(shorter, n)) by {
            assert forall|k: int| 0 <= k < shorter.len() implies (#[trigger] shorter[k]).0 < n by {
                assert(shorter[k] == vs[k]);
            }
        }
        assert(vs.last() == vs[vs.len() - 1]);
        lemma_no_root(c, shorter, v, n);
        assert(c.base[c.root[vs.last().0 as int].0 as int] is None);
    }
}

proof fn lemma_dead_before(c: SContext, is: Seq<SInst>, v: Value, n: nat)
    requires
        context_wf(c, n),
        owners_below(c),
        v.0 < n,
        c.base[v.0 as int] is Some,
        forall|k: int| 0 <= k < is.len() ==> inst_in_range(#[trigger] is[k], n),
    ensures
        !live_before_all(c, is, v, false),
    decreases is.len(),
{
    if is.len() > 0 {
        let shorter = is.drop_last();
        assert forall|k: int| 0 <= k < shorter.len() implies inst_in_range(
            #[trigger] shorter[k],
            n,
        ) by {
            assert(shorter[k] == is[k]);
        }
        assert(is.last() == is[is.len() - 1]);
        super::balance::lemma_operands_below(is.last().op, n);
        lemma_no_root(c, consumed(is.last().op), v, n);
        lemma_no_root(c, borrowed(is.last().op), v, n);
        lemma_dead_before(c, shorter, v, n);
    }
}

proof fn lemma_view_not_live(f: SFunc, b: int, v: Value)
    requires
        insertable(f),
        views_end(f),
        is_view(context_of(f), v),
        0 <= b < f.blocks.len(),
    ensures
        !live_at_end(f, b, v),
{
    let c = context_of(f);
    let n = f.values.len();
    super::balance::lemma_roots_ok(f);
    assert forall|x: int| 0 <= x < f.blocks.len() implies !live_into(
        c,
        #[trigger] f.blocks[x],
        v,
        false,
    ) by {
        assert(block_in_range(f.blocks[x], n));
        lemma_no_root(c, term_operands(f.blocks[x].term), v, n);
        lemma_dead_before(c, f.blocks[x].insts, v, n);
    }
    assert forall|x: int| !live_in(f, x, v) by {
        if live_in(f, x, v) {
            let a = choose|a: int|
                0 <= a < preds(cfg(f)).len() && #[trigger] super::exposing(f, v)[a] && walks(
                    preds(cfg(f)),
                    super::killing(f, v),
                    a,
                    x,
                );
            assert(!live_into(c, f.blocks[a], v, false));
        }
    }
    assert(block_in_range(f.blocks[b], n));
    lemma_no_root(c, term_operands(f.blocks[b].term), v, n);
}

// ---- edges ----

proof fn lemma_copies(w: Value, k: int, v: Value)
    ensures
        !releases(copies(w, k), v),
    decreases k,
{
    if k > 0 {
        lemma_copies(w, k - 1, v);
        lemma_releases_push(copies(w, k - 1), retain(w), v);
    }
}

proof fn lemma_owner_retains(c: SContext, args: Seq<Value>, succ: Seq<bool>, n: int, v: Value)
    requires
        n <= u32::MAX,
    ensures
        !releases(owner_retains(c, args, succ, n), v),
        c.base[v.0 as int] is Some ==> net(owner_retains(c, args, succ, n), v) == 0,
    decreases n,
{
    if n > 0 {
        let w = Value((n - 1) as u32);
        lemma_owner_retains(c, args, succ, n - 1, v);
        let before = owner_retains(c, args, succ, n - 1);
        let k = owner_uses(c, args, w) + (if succ[n - 1] {
            1int
        } else {
            0int
        }) - 1;
        lemma_copies(w, k, v);
        super::balance::lemma_copies(w, k, v);
        lemma_releases_add(before, copies(w, k), v);
        lemma_releases_add(before, seq![], v);
        super::balance::lemma_net_add(before, copies(w, k), v);
        super::balance::lemma_net_add(before, seq![], v);
        if w == v && c.base[v.0 as int] is Some {
            lemma_no_owner_uses(c, args, v);
        }
    }
}

proof fn lemma_no_owner_uses(c: SContext, args: Seq<Value>, v: Value)
    requires
        c.base[v.0 as int] is Some,
    ensures
        owner_uses(c, args, v) == 0,
    decreases args.len(),
{
    if args.len() > 0 {
        lemma_no_owner_uses(c, args.drop_last(), v);
    }
}

proof fn lemma_view_retains(c: SContext, args: Seq<Value>, v: Value)
    ensures
        !releases(view_retains(c, args), v),
    decreases args.len(),
{
    if args.len() > 0 {
        lemma_view_retains(c, args.drop_last(), v);
        lemma_releases_push(view_retains(c, args.drop_last()), retain(args.last()), v);
    }
}

proof fn lemma_edge_releases(
    c: SContext,
    args: Seq<Value>,
    succ: Seq<bool>,
    end: Seq<bool>,
    n: int,
    v: Value,
)
    requires
        n <= u32::MAX,
        Some(v) == c.env || !end[v.0 as int],
    ensures
        !releases(edge_releases(c, args, succ, end, n), v),
    decreases n,
{
    if n > 0 {
        lemma_edge_releases(c, args, succ, end, n - 1, v);
        let w = Value((n - 1) as u32);
        if w != v {
            lemma_releases_push(edge_releases(c, args, succ, end, n - 1), release(w), v);
        }
    }
}

proof fn lemma_exit_releases(c: SContext, moved: Option<Value>, end: Seq<bool>, n: int, v: Value)
    requires
        n <= u32::MAX,
        Some(v) == c.env || !end[v.0 as int],
    ensures
        !releases(exit_releases(c, moved, end, n), v),
    decreases n,
{
    if n > 0 {
        lemma_exit_releases(c, moved, end, n - 1, v);
        let w = Value((n - 1) as u32);
        if w != v {
            lemma_releases_push(exit_releases(c, moved, end, n - 1), release(w), v);
        }
    }
}

spec fn spared_at_end(f: SFunc, b: int, v: Value) -> bool {
    Some(v) == context_of(f).env || !live_at_end(f, b, v)
}

proof fn lemma_target_code(f: SFunc, b: int, t: STarget, v: Value)
    requires
        f.values.len() <= u32::MAX,
        v.0 < f.values.len(),
        spared_at_end(f, b, v),
    ensures
        !releases(target_code(f, b, t), v),
        is_view(context_of(f), v) && !live_at_end(f, b, v) ==> net(target_code(f, b, t), v)
            == uses(t.args, v),
{
    let c = context_of(f);
    let (succ, end) = (live_in_set(f, t.to.0 as int), live_at_end_set(f, b));
    let n = end.len() as int;
    assert(end[v.0 as int] == live_at_end(f, b, v));
    let a = view_retains(c, t.args);
    let o = owner_retains(c, t.args, succ, n);
    let d = edge_releases(c, t.args, succ, end, n);
    lemma_view_retains(c, t.args, v);
    lemma_owner_retains(c, t.args, succ, n, v);
    lemma_edge_releases(c, t.args, succ, end, n, v);
    lemma_releases_add(a, o, v);
    lemma_releases_add(a + o, d, v);
    if is_view(c, v) {
        super::balance::lemma_view_retains(c, t.args, v);
        super::balance::lemma_edge_releases(c, t.args, succ, end, n, v);
        super::balance::lemma_net_add(a, o, v);
        super::balance::lemma_net_add(a + o, d, v);
    }
}

proof fn lemma_exit_code(f: SFunc, b: int, ret: Option<Value>, v: Value)
    requires
        f.values.len() <= u32::MAX,
        v.0 < f.values.len(),
        spared_at_end(f, b, v),
    ensures
        !releases(exit_code(context_of(f), ret, live_at_end_set(f, b)), v),
        is_view(context_of(f), v) && !live_at_end(f, b, v) ==> net(
            exit_code(context_of(f), ret, live_at_end_set(f, b)),
            v,
        ) == if ret == Some(v) {
            1int
        } else {
            0int
        },
{
    let c = context_of(f);
    let end = live_at_end_set(f, b);
    let n = end.len() as int;
    assert(end[v.0 as int] == live_at_end(f, b, v));
    lemma_exit_releases(c, None, end, n, v);
    lemma_exit_releases(c, ret, end, n, v);
    super::balance::lemma_exit_releases(c, None, end, n, v);
    super::balance::lemma_exit_releases(c, ret, end, n, v);
    if let Some(x) = ret {
        lemma_releases_add(seq![retain(x)], exit_releases(c, None, end, n), v);
        super::balance::lemma_net_one(retain(x), v);
        super::balance::lemma_net_add(seq![retain(x)], exit_releases(c, None, end, n), v);
    }
}

// ---- all blocks ----

/// A block in which a view takes as many references as are consumed, by its instructions and
/// by whichever way out is taken.
pub open spec fn takes_what_it_gives(x: SBlock, v: Value) -> bool {
    &&& forall|k: int|
        0 <= k < targets(x.term).len() ==> net(x.insts, v) == uses(
            (#[trigger] targets(x.term)[k]).args,
            v,
        )
    &&& targets(x.term).len() == 0 ==> net(x.insts, v) == if hands_out(x.term, v) {
        1int
    } else {
        0int
    }
}

spec fn block_spares(f: SFunc, x: SBlock, v: Value) -> bool {
    !releases(x.insts, v) && (is_view(context_of(f), v) ==> takes_what_it_gives(x, v))
}

spec fn all_spare(f: SFunc, xs: Seq<SBlock>, v: Value) -> bool {
    forall|i: int| 0 <= i < xs.len() ==> block_spares(f, #[trigger] xs[i], v)
}

proof fn lemma_split(f: SFunc, b: int, t: STarget, next: int, v: Value)
    requires
        f.values.len() <= u32::MAX,
        v.0 < f.values.len(),
        spared_at_end(f, b, v),
        is_view(context_of(f), v) ==> !live_at_end(f, b, v),
    ensures
        all_spare(f, split(t, target_code(f, b, t), next).1, v),
        is_view(context_of(f), v) ==> uses(split(t, target_code(f, b, t), next).0.args, v) == 0,
{
    lemma_target_code(f, b, t, v);
    let (a, more) = split(t, target_code(f, b, t), next);
    if more.len() > 0 {
        let x = more[0];
        assert(targets(x.term) =~= seq![t]);
        assert(block_spares(f, x, v));
    }
}

proof fn lemma_split_arms(
    f: SFunc,
    b: int,
    arms: Seq<(SSwitchKey, STarget)>,
    next: int,
    v: Value,
)
    requires
        f.values.len() <= u32::MAX,
        v.0 < f.values.len(),
        spared_at_end(f, b, v),
        is_view(context_of(f), v) ==> !live_at_end(f, b, v),
    ensures
        all_spare(f, split_arms(f, b, arms, next).1, v),
        split_arms(f, b, arms, next).0.len() == arms.len(),
        is_view(context_of(f), v) ==> forall|k: int|
            0 <= k < arms.len() ==> uses(
                (#[trigger] split_arms(f, b, arms, next).0[k]).1.args,
                v,
            ) == 0,
    decreases arms.len(),
{
    if arms.len() > 0 {
        lemma_split_arms(f, b, arms.drop_last(), next, v);
        let (done, new) = split_arms(f, b, arms.drop_last(), next);
        lemma_split(f, b, arms.last().1, next + new.len(), v);
    }
}

proof fn lemma_block(f: SFunc, b: int, next: int, v: Value)
    requires
        countable(f, v),
        is_kept(f, v),
        0 <= b < f.blocks.len(),
    ensures
        block_spares(f, block_code(f, b, next).0, v),
        all_spare(f, block_code(f, b, next).1, v),
{
    let c = context_of(f);
    let n = f.values.len();
    let blk = f.blocks[b];
    let end = live_at_end_set(f, b);
    super::balance::lemma_roots_ok(f);
    if is_view(c, v) {
        lemma_view_not_live(f, b, v);
    }
    assert(is_spared(c, v));
    assert(block_in_range(blk, n));
    assert forall|k: int| 0 <= k < blk.insts.len() implies inst_in_range(#[trigger] blk.insts[k], n)
        && !is_count(blk.insts[k]) && (c.base[v.0 as int] is None ==> blk.insts[k].result != Some(
        v,
    )) by {
        assert(f.blocks[b].insts[k] == blk.insts[k]);
    }
    lemma_body(c, blk.insts, end, v, n);
    let (code, top) = body_code(c, blk.insts, end);
    lemma_params(c, blk.params, top, v);
    let ps = param_code(c, blk.params, top);
    lemma_releases_add(ps, code, v);
    super::balance::lemma_net_add(ps, code, v);
    let inner = inner_code(f, b);
    let (x, more) = block_code(f, b, next);
    match blk.term {
        STerm::Ret(r) => {
            lemma_exit_code(f, b, r, v);
            lemma_releases_add(inner, exit_code(c, r, end), v);
            super::balance::lemma_net_add(inner, exit_code(c, r, end), v);
        },
        STerm::Throw(r) => {
            lemma_exit_code(f, b, Some(r), v);
            lemma_releases_add(inner, exit_code(c, Some(r), end), v);
            super::balance::lemma_net_add(inner, exit_code(c, Some(r), end), v);
        },
        STerm::Jump(t) => {
            lemma_target_code(f, b, t, v);
            lemma_releases_add(inner, target_code(f, b, t), v);
            super::balance::lemma_net_add(inner, target_code(f, b, t), v);
            assert(targets(x.term) =~= seq![t]);
        },
        STerm::Branch { cond, then, els } => {
            lemma_split(f, b, then, next, v);
            let (t, new) = split(then, target_code(f, b, then), next);
            lemma_split(f, b, els, next + new.len(), v);
            let (e, m2) = split(els, target_code(f, b, els), next + new.len());
            assert(targets(x.term) =~= seq![t, e]);
        },
        STerm::Switch { on, arms, default } => {
            lemma_split_arms(f, b, arms, next, v);
            let (a, new) = split_arms(f, b, arms, next);
            lemma_split(f, b, default, next + new.len(), v);
            let (d, m2) = split(default, target_code(f, b, default), next + new.len());
            let xs = targets(x.term);
            if is_view(c, v) {
                assert forall|k: int| 0 <= k < xs.len() implies net(x.insts, v) == uses(
                    (#[trigger] xs[k]).args,
                    v,
                ) by {
                    if k < arms.len() {
                        assert(xs[k] == a[k].1);
                    } else {
                        assert(xs[k] == d);
                    }
                }
            }
        },
        STerm::Unreachable => {},
    }
}

proof fn lemma_blocks(f: SFunc, n: int, v: Value)
    requires
        countable(f, v),
        is_kept(f, v),
        0 <= n <= f.blocks.len(),
    ensures
        all_spare(f, blocks_code(f, n).0, v),
        all_spare(f, blocks_code(f, n).1, v),
    decreases n,
{
    if n > 0 {
        lemma_blocks(f, n - 1, v);
        let (done, new) = blocks_code(f, n - 1);
        lemma_block(f, n - 1, (f.blocks.len() + new.len()) as int, v);
    }
}

/// Views and environments are never released.
pub proof fn views_and_environments_are_kept(f: SFunc, v: Value, b: int)
    requires
        countable(f, v),
        is_kept(f, v),
        0 <= b < inserted(f).blocks.len(),
    ensures
        !releases(inserted(f).blocks[b].insts, v),
{
    let n = f.blocks.len() as int;
    lemma_blocks(f, n, v);
    let (done, new) = blocks_code(f, n);
    if inserted(f) == f {
        assert forall|k: int| 0 <= k < f.blocks[b].insts.len() implies (
        #[trigger] f.blocks[b].insts[k]).op != SOp::Release(v) by {
            assert(!is_count(f.blocks[b].insts[k]));
        }
    } else {
        assert(block_spares(f, (done + new)[b], v));
    }
}

/// A view takes a reference of its own for every use that consumes one, and no other: in
/// every block, and whichever way out of it is taken, its retains are as many as its
/// consuming uses.
pub proof fn views_balance(f: SFunc, v: Value, b: int)
    requires
        countable(f, v),
        is_view(context_of(f), v),
        is_no_param(f, v),
        0 <= b < inserted(f).blocks.len(),
    ensures
        takes_what_it_gives(inserted(f).blocks[b], v),
        !releases(inserted(f).blocks[b].insts, v),
{
    let n = f.blocks.len() as int;
    views_and_environments_are_kept(f, v, b);
    assert(super::counted_values(f)[v.0 as int]);
    lemma_blocks(f, n, v);
    let (done, new) = blocks_code(f, n);
    assert(block_spares(f, (done + new)[b], v));
}

} // verus!
