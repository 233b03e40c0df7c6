//! References balance: whatever way a function is gone through, what takes a reference and
//! what gives one back come to the same.

use super::laws::{counting_blocks, is_count};
use super::{
    block_code, blocks_code, body_code, borrow_all, borrowed, consume_all, consume_one, consumed,
    context_of, context_wf, copies, counted_only, define, dressed, edge_code, edge_releases,
    exit_code, exit_releases, exposing, inner_code, insertable, inserted, killing, lemma_context_wf,
    live_at_end, live_at_end_set, live_before, live_before_all, live_in, live_in_set, live_into,
    owner_retains, owner_uses, param_code, release, releases_reversed, retain, retains_reversed,
    root_used, roots_have, split, split_arms, step, target_code, view_retains, views_end, SContext, SStep,
};
use crate::ir::cfg::{cfg, preds, preds_turn_edges, successors};
use crate::ir::graph::{edge, is_walk, walk_of_one, walks};
use crate::ir::ssa::{
    block_in_range, blocks_wf, inst_in_range, operands, targets, term_operands, values_below,
    SBlock, SFunc, SInst, SOp, SSwitchKey, STarget, STerm, Value,
};
use vstd::prelude::*;

verus! {

// ---- what is counted ----

/// How often a value is among others.
pub open spec fn uses(vs: Seq<Value>, v: Value) -> int
    decreases vs.len(),
{
    if vs.len() == 0 {
        0
    } else {
        uses(vs.drop_last(), v) + if vs.last() == v {
            1int
        } else {
            0int
        }
    }
}

/// The operands of which an operation takes a reference: what it makes holds them, or what
/// it calls gets them. A store into a list in place leaves the list to its owner.
pub open spec fn takes(op: SOp) -> Seq<Value> {
    match op {
        SOp::MakeTuple(elems) => elems,
        SOp::MakeList(elems) => elems,
        SOp::MakeRecord { fields, .. } => Seq::new(fields.len(), |i: int| fields[i].1),
        SOp::MakeClosure { captures, .. } => captures,
        SOp::Call { args, .. } => args,
        SOp::CallClosure { args, .. } => args,
        SOp::Native { symbol, args } => if symbol == "neon_list_set_inplace"@ || symbol
            == "neon_list_set_field_inplace"@ {
            seq![]
        } else {
            args
        },
        _ => seq![],
    }
}

/// Taking a reference is what the placement goes by.
pub proof fn what_is_taken_is_consumed(op: SOp)
    ensures
        consumed(op) == takes(op),
{
    if op is MakeRecord {
        assert(consumed(op) =~= takes(op));
    }
}

/// What an instruction adds to the references of a value: a retain adds one, and a release
/// and every consuming use take one.
pub open spec fn delta(i: SInst, v: Value) -> int {
    match i.op {
        SOp::Retain(x) => if x == v {
            1
        } else {
            0
        },
        SOp::Release(x) => if x == v {
            -1
        } else {
            0
        },
        op => -uses(takes(op), v),
    }
}

/// What a run of instructions adds to the references of a value.
pub open spec fn net(is: Seq<SInst>, v: Value) -> int
    decreases is.len(),
{
    if is.len() == 0 {
        0
    } else {
        net(is.drop_last(), v) + delta(is.last(), v)
    }
}

/// How often a run of instructions makes a value.
pub open spec fn made(is: Seq<SInst>, v: Value) -> int
    decreases is.len(),
{
    if is.len() == 0 {
        0
    } else {
        made(is.drop_last(), v) + if is.last().result == Some(v) {
            1int
        } else {
            0int
        }
    }
}

/// An owner: a counted value that is no view and not the environment of a lambda.
pub open spec fn is_owner(c: SContext, v: Value) -> bool {
    &&& v.0 < c.counted.len()
    &&& c.counted[v.0 as int]
    &&& c.base[v.0 as int] is None
    &&& Some(v) != c.env
}

/// A view: a counted value that looks into another.
pub open spec fn is_view(c: SContext, v: Value) -> bool {
    v.0 < c.counted.len() && c.counted[v.0 as int] && c.base[v.0 as int] is Some
}

/// Whether an instruction reads a value, or a view into it.
pub open spec fn reads(c: SContext, i: SInst, v: Value) -> bool {
    roots_have(c, consumed(i.op), v) || roots_have(c, borrowed(i.op), v)
}

/// The operands of an operation that it looks at: all, but for the flag of a covered read.
pub open spec fn looked_at(op: SOp) -> Seq<Value> {
    match op {
        SOp::Index { base, index, .. } => seq![base, index],
        _ => operands(op),
    }
}

/// Whether an instruction other than a count looks at a value, or at a view into it.
pub open spec fn touches(c: SContext, i: SInst, v: Value) -> bool {
    !is_count(i) && exists|k: int|
        0 <= k < looked_at(i.op).len() && c.counted[(#[trigger] looked_at(i.op)[k]).0 as int]
            && c.root[looked_at(i.op)[k].0 as int] == v
}

proof fn lemma_has_root(c: SContext, vs: Seq<Value>, k: int, v: Value)
    requires
        0 <= k < vs.len(),
        c.counted[vs[k].0 as int],
        c.root[vs[k].0 as int] == v,
    ensures
        roots_have(c, vs, v),
    decreases vs.len(),
{
    if k < vs.len() - 1 {
        assert(vs.drop_last()[k] == vs[k]);
        lemma_has_root(c, vs.drop_last(), k, v);
    }
}

/// What is looked at is consumed or borrowed.
proof fn lemma_touched_is_read(c: SContext, i: SInst, v: Value)
    requires
        touches(c, i, v),
    ensures
        reads(c, i, v),
{
    let vs = looked_at(i.op);
    let k = choose|k: int|
        0 <= k < vs.len() && c.counted[(#[trigger] vs[k]).0 as int] && c.root[vs[k].0 as int] == v;
    match i.op {
        SOp::CallClosure { callee, args } => {
            if k == 0 {
                assert(borrowed(i.op)[0] == vs[0]);
                lemma_has_root(c, borrowed(i.op), 0, v);
            } else {
                assert(consumed(i.op)[k - 1] == vs[k]);
                lemma_has_root(c, consumed(i.op), k - 1, v);
            }
        },
        _ => {
            if k < consumed(i.op).len() && consumed(i.op)[k] == vs[k] {
                lemma_has_root(c, consumed(i.op), k, v);
            } else {
                assert(borrowed(i.op)[k] == vs[k]);
                lemma_has_root(c, borrowed(i.op), k, v);
            }
        },
    }
}

/// No instruction reads a value that it makes.
pub open spec fn made_before_read(f: SFunc, v: Value) -> bool {
    forall|b: int, k: int|
        0 <= b < f.blocks.len() && 0 <= k < f.blocks[b].insts.len() && (
        #[trigger] f.blocks[b].insts[k]).result == Some(v) ==> !reads(
            context_of(f),
            f.blocks[b].insts[k],
            v,
        )
}

/// Whether a value stands at most once among some.
pub open spec fn at_most_once(vs: Seq<Value>, v: Value) -> bool {
    forall|i: int, j: int| 0 <= i < j < vs.len() && vs[i] == v ==> vs[j] != v
}

/// No block has a value as a parameter twice.
pub open spec fn bound_apart(f: SFunc, v: Value) -> bool {
    forall|b: int| 0 <= b < f.blocks.len() ==> at_most_once((#[trigger] f.blocks[b]).params, v)
}

/// No instruction counts.
pub open spec fn uncounted(f: SFunc) -> bool {
    forall|b: int, k: int|
        0 <= b < f.blocks.len() && 0 <= k < f.blocks[b].insts.len() ==> !is_count(
            #[trigger] f.blocks[b].insts[k],
        )
}

pub(crate) open spec fn one(b: bool) -> int {
    if b {
        1
    } else {
        0
    }
}

// ---- sums ----

pub(crate) proof fn lemma_net_add(a: Seq<SInst>, b: Seq<SInst>, v: Value)
    ensures
        net(a + b, v) == net(a, v) + net(b, v),
        made(a + b, v) == made(a, v) + made(b, v),
    decreases b.len(),
{
    if b.len() == 0 {
        assert(a + b =~= a);
    } else {
        assert((a + b).drop_last() =~= a + b.drop_last());
        assert((a + b).last() == b.last());
        lemma_net_add(a, b.drop_last(), v);
    }
}

pub(crate) proof fn lemma_net_one(i: SInst, v: Value)
    ensures
        net(seq![i], v) == delta(i, v),
        made(seq![i], v) == one(i.result == Some(v)),
{
    let s = seq![i];
    assert(s.drop_last() =~= seq![]);
    assert(s.last() == i);
    assert(net(s.drop_last(), v) == 0);
    assert(made(s.drop_last(), v) == 0);
}

proof fn lemma_net_split(is: Seq<SInst>, k: int, v: Value)
    requires
        0 <= k <= is.len(),
    ensures
        net(is, v) == net(is.take(k), v) + net(is.skip(k), v),
        made(is, v) == made(is.take(k), v) + made(is.skip(k), v),
{
    assert(is =~= is.take(k) + is.skip(k));
    lemma_net_add(is.take(k), is.skip(k), v);
}

proof fn lemma_none_made(is: Seq<SInst>, v: Value)
    requires
        forall|k: int| 0 <= k < is.len() ==> (#[trigger] is[k]).result != Some(v),
    ensures
        made(is, v) == 0,
    decreases is.len(),
{
    if is.len() > 0 {
        assert forall|k: int| 0 <= k < is.drop_last().len() implies (
        #[trigger] is.drop_last()[k]).result != Some(v) by {
            assert(is.drop_last()[k] == is[k]);
        }
        lemma_none_made(is.drop_last(), v);
        assert(is.last() == is[is.len() - 1]);
    }
}

pub(super) proof fn lemma_retains(vs: Seq<Value>, v: Value)
    ensures
        net(retains_reversed(vs), v) == uses(vs, v),
        made(retains_reversed(vs), v) == 0,
    decreases vs.len(),
{
    if vs.len() > 0 {
        lemma_retains(vs.drop_last(), v);
        lemma_net_one(retain(vs.last()), v);
        lemma_net_add(seq![retain(vs.last())], retains_reversed(vs.drop_last()), v);
    }
}

pub(super) proof fn lemma_releases(vs: Seq<Value>, v: Value)
    ensures
        net(releases_reversed(vs), v) == -uses(vs, v),
        made(releases_reversed(vs), v) == 0,
    decreases vs.len(),
{
    if vs.len() > 0 {
        lemma_releases(vs.drop_last(), v);
        lemma_net_one(release(vs.last()), v);
        lemma_net_add(seq![release(vs.last())], releases_reversed(vs.drop_last()), v);
    }
}

proof fn lemma_uses_push(vs: Seq<Value>, x: Value, v: Value)
    ensures
        uses(vs.push(x), v) == uses(vs, v) + one(x == v),
{
    assert(vs.push(x).drop_last() =~= vs);
    assert(vs.push(x).last() == x);
}

pub(super) proof fn lemma_uses_counted(counted: Seq<bool>, vs: Seq<Value>, v: Value)
    requires
        counted[v.0 as int],
    ensures
        uses(counted_only(counted, vs), v) == uses(vs, v),
    decreases vs.len(),
{
    if vs.len() > 0 {
        lemma_uses_counted(counted, vs.drop_last(), v);
        lemma_uses_push(counted_only(counted, vs.drop_last()), vs.last(), v);
    }
}

// ---- one instruction ----

/// What a step has come to for a value: whether it is live, and what has been put round the
/// instruction for it.
spec fn worth(s: SStep, v: Value) -> int {
    one(s.live[v.0 as int]) + uses(s.retains, v) - uses(s.releases, v)
}

pub(super) open spec fn roots_ok(c: SContext) -> bool {
    &&& forall|i: int|
        0 <= i < c.root.len() ==> c.base[(#[trigger] c.root[i]).0 as int] is None
    &&& forall|i: int|
        0 <= i < c.root.len() && c.base[i] is None ==> #[trigger] c.root[i] == Value(i as u32)
}

proof fn lemma_root_used(c: SContext, s: SStep, x: Value, v: Value, n: nat)
    requires
        context_wf(c, n),
        is_owner(c, v),
        x.0 < n,
        s.live.len() == n,
    ensures
        root_used(c, s, x).live.len() == n,
        worth(root_used(c, s, x), v) == worth(s, v),
        root_used(c, s, x).live[v.0 as int] == (s.live[v.0 as int] || c.root[x.0 as int] == v),
        root_used(c, s, x).retains == s.retains,
        uses(root_used(c, s, x).releases, v) == uses(s.releases, v) + one(
            !s.live[v.0 as int] && c.root[x.0 as int] == v,
        ),
{
    let r = c.root[x.0 as int];
    lemma_uses_push(s.releases, r, v);
}

proof fn lemma_consume_one(c: SContext, s: SStep, x: Value, v: Value, n: nat)
    requires
        context_wf(c, n),
        roots_ok(c),
        is_owner(c, v),
        x.0 < n,
        s.live.len() == n,
    ensures
        consume_one(c, s, x).live.len() == n,
        worth(consume_one(c, s, x), v) == worth(s, v) + one(x == v),
        consume_one(c, s, x).live[v.0 as int] == (s.live[v.0 as int] || c.root[x.0 as int] == v),
{
    lemma_uses_push(s.retains, x, v);
    assert(c.base[x.0 as int] is None ==> c.root[x.0 as int] == Value(x.0 as int as u32));
    if c.base[x.0 as int] is Some {
        lemma_root_used(c, SStep { retains: s.retains.push(x), ..s }, x, v, n);
    }
}

pub(super) proof fn lemma_counted_only_below(counted: Seq<bool>, vs: Seq<Value>, n: nat)
    requires
        values_below(vs, n),
    ensures
        values_below(counted_only(counted, vs), n),
    decreases vs.len(),
{
    if vs.len() > 0 {
        assert(values_below(vs.drop_last(), n)) by {
            assert forall|k: int| 0 <= k < vs.drop_last().len() implies (
            #[trigger] vs.drop_last()[k]).0 < n by {
                assert(vs.drop_last()[k] == vs[k]);
            }
        }
        lemma_counted_only_below(counted, vs.drop_last(), n);
        assert(vs.last() == vs[vs.len() - 1]);
    }
}

/// Whether a value is the root of one among others.
spec fn roots(c: SContext, vs: Seq<Value>, v: Value) -> bool
    decreases vs.len(),
{
    vs.len() > 0 && (roots(c, vs.drop_last(), v) || c.root[vs.last().0 as int] == v)
}

proof fn lemma_roots_counted(c: SContext, vs: Seq<Value>, v: Value)
    ensures
        roots(c, counted_only(c.counted, vs), v) == roots_have(c, vs, v),
    decreases vs.len(),
{
    if vs.len() > 0 {
        lemma_roots_counted(c, vs.drop_last(), v);
        let a = counted_only(c.counted, vs.drop_last());
        assert(a.push(vs.last()).drop_last() =~= a);
        assert(a.push(vs.last()).last() == vs.last());
    }
}

proof fn lemma_consume_all(c: SContext, s: SStep, vs: Seq<Value>, v: Value, n: nat)
    requires
        context_wf(c, n),
        roots_ok(c),
        is_owner(c, v),
        values_below(vs, n),
        s.live.len() == n,
    ensures
        consume_all(c, s, vs).live.len() == n,
        worth(consume_all(c, s, vs), v) == worth(s, v) + uses(vs, v),
        consume_all(c, s, vs).live[v.0 as int] == (s.live[v.0 as int] || roots(c, vs, v)),
    decreases vs.len(),
{
    if vs.len() > 0 {
        assert(values_below(vs.drop_last(), n)) by {
            assert forall|k: int| 0 <= k < vs.drop_last().len() implies (
            #[trigger] vs.drop_last()[k]).0 < n by {
                assert(vs.drop_last()[k] == vs[k]);
            }
        }
        assert(vs.last() == vs[vs.len() - 1]);
        lemma_consume_all(c, s, vs.drop_last(), v, n);
        lemma_consume_one(c, consume_all(c, s, vs.drop_last()), vs.last(), v, n);
    }
}

proof fn lemma_borrow_all(c: SContext, s: SStep, vs: Seq<Value>, v: Value, n: nat)
    requires
        context_wf(c, n),
        is_owner(c, v),
        values_below(vs, n),
        s.live.len() == n,
    ensures
        borrow_all(c, s, vs).live.len() == n,
        worth(borrow_all(c, s, vs), v) == worth(s, v),
        borrow_all(c, s, vs).live[v.0 as int] == (s.live[v.0 as int] || roots(c, vs, v)),
        borrow_all(c, s, vs).retains == s.retains,
    decreases vs.len(),
{
    if vs.len() > 0 {
        assert(values_below(vs.drop_last(), n)) by {
            assert forall|k: int| 0 <= k < vs.drop_last().len() implies (
            #[trigger] vs.drop_last()[k]).0 < n by {
                assert(vs.drop_last()[k] == vs[k]);
            }
        }
        assert(vs.last() == vs[vs.len() - 1]);
        lemma_borrow_all(c, s, vs.drop_last(), v, n);
        lemma_root_used(c, borrow_all(c, s, vs.drop_last()), vs.last(), v, n);
    }
}

pub(super) proof fn lemma_operands_below(op: SOp, n: nat)
    requires
        values_below(operands(op), n),
    ensures
        values_below(consumed(op), n),
        values_below(borrowed(op), n),
{
    match op {
        SOp::CallClosure { callee, args } => {
            let all = operands(op);
            assert forall|k: int| 0 <= k < args.len() implies (#[trigger] args[k]).0 < n by {
                assert(all.contains(args[k]) ==> args[k].0 < n);
                assert(all[k + 1] == args[k]);
            }
            assert(all[0] == callee);
        },
        SOp::MakeRecord { fields, .. } => {
            let vs = fields.map_values(|f: (Seq<char>, Value)| f.1);
            assert(consumed(op) =~= operands(op));
        },
        SOp::Index { base, index, covered } => {
            let all = operands(op);
            assert(all[0] == base);
            assert(all[1] == index);
        },
        _ => {},
    }
}

/// Round one instruction, what an owner is worth before it comes to what it is worth after.
proof fn lemma_step(c: SContext, i: SInst, live: Seq<bool>, v: Value, n: nat)
    requires
        context_wf(c, n),
        roots_ok(c),
        is_owner(c, v),
        inst_in_range(i, n),
        live.len() == n,
        !is_count(i),
    ensures
        step(c, i, live).live.len() == n,
        step(c, i, live).live[v.0 as int] == live_before(c, i, v, live[v.0 as int]),
        one(step(c, i, live).live[v.0 as int]) + net(dressed(i, step(c, i, live)), v) + made(
            dressed(i, step(c, i, live)),
            v,
        ) == one(live[v.0 as int]),
        i.result == Some(v) && !reads(c, i, v) ==> !step(c, i, live).live[v.0 as int] && uses(
            step(c, i, live).retains,
            v,
        ) == 0,
{
    let d = define(c, i.result, live);
    let cs = counted_only(c.counted, consumed(i.op));
    let bs = counted_only(c.counted, borrowed(i.op));
    lemma_operands_below(i.op, n);
    lemma_counted_only_below(c.counted, consumed(i.op), n);
    lemma_counted_only_below(c.counted, borrowed(i.op), n);
    lemma_uses_counted(c.counted, consumed(i.op), v);
    lemma_roots_counted(c, consumed(i.op), v);
    lemma_roots_counted(c, borrowed(i.op), v);
    if let Some(x) = i.result {
        lemma_uses_push(seq![], x, v);
        assert(Seq::<Value>::empty().push(x) =~= seq![x]);
    }
    assert(d.live.len() == n);
    assert(worth(d, v) == one(live[v.0 as int]) - one(i.result == Some(v)));
    lemma_consume_all(c, d, cs, v, n);
    let m = consume_all(c, d, cs);
    lemma_borrow_all(c, m, bs, v, n);
    let s = step(c, i, live);
    lemma_retains(s.retains, v);
    lemma_releases(s.releases, v);
    lemma_net_one(i, v);
    lemma_net_add(seq![i], releases_reversed(s.releases), v);
    lemma_net_add(retains_reversed(s.retains), seq![i] + releases_reversed(s.releases), v);
    what_is_taken_is_consumed(i.op);
    assert(delta(i, v) == -uses(consumed(i.op), v));
    if i.result == Some(v) && !reads(c, i, v) {
        lemma_not_root_not_used(c, cs, v, n);
        assert(!d.live[v.0 as int]);
        lemma_retains_of_unused(c, d, cs, v, n);
    }
}

proof fn lemma_not_root_not_used(c: SContext, vs: Seq<Value>, v: Value, n: nat)
    requires
        context_wf(c, n),
        roots_ok(c),
        is_owner(c, v),
        !roots(c, vs, v),
    ensures
        uses(vs, v) == 0,
    decreases vs.len(),
{
    if vs.len() > 0 {
        lemma_not_root_not_used(c, vs.drop_last(), v, n);
        assert(c.root[v.0 as int] == Value(v.0 as int as u32));
    }
}

/// Only what is consumed is retained.
proof fn lemma_retains_of_unused(c: SContext, s: SStep, vs: Seq<Value>, v: Value, n: nat)
    requires
        uses(vs, v) == 0,
    ensures
        uses(consume_all(c, s, vs).retains, v) == uses(s.retains, v),
    decreases vs.len(),
{
    if vs.len() > 0 {
        lemma_uses_not_negative(vs.drop_last(), v);
        lemma_retains_of_unused(c, s, vs.drop_last(), v, n);
        let m = consume_all(c, s, vs.drop_last());
        lemma_uses_push(m.retains, vs.last(), v);
    }
}

proof fn lemma_uses_not_negative(vs: Seq<Value>, v: Value)
    ensures
        uses(vs, v) >= 0,
    decreases vs.len(),
{
    if vs.len() > 0 {
        lemma_uses_not_negative(vs.drop_last(), v);
    }
}

// ---- a run of instructions ----

/// What holds of a run of instructions without counts.
spec fn plain(c: SContext, is: Seq<SInst>, v: Value, n: nat) -> bool {
    forall|k: int|
        0 <= k < is.len() ==> inst_in_range(#[trigger] is[k], n) && !is_count(is[k]) && (
        is[k].result == Some(v) ==> !reads(c, is[k], v))
}

proof fn lemma_body(c: SContext, is: Seq<SInst>, live: Seq<bool>, v: Value, n: nat)
    requires
        context_wf(c, n),
        roots_ok(c),
        is_owner(c, v),
        plain(c, is, v, n),
        live.len() == n,
    ensures
        ({
            let (code, top) = body_code(c, is, live);
            &&& top.len() == n
            &&& top[v.0 as int] == live_before_all(c, is, v, live[v.0 as int])
            &&& one(top[v.0 as int]) + net(code, v) + made(code, v) == one(live[v.0 as int])
            &&& forall|j: int|
                0 <= j < code.len() && (#[trigger] code[j]).result == Some(v) ==> one(
                    top[v.0 as int],
                ) + net(code.take(j), v) + made(code.take(j), v) == 0 && delta(code[j], v) == 0
            &&& forall|j: int|
                0 <= j < code.len() && touches(c, #[trigger] code[j], v) ==> one(top[v.0 as int])
                    + net(code.take(j), v) + made(code.take(j), v) >= 1
        }),
    decreases is.len(),
{
    let (code, top) = body_code(c, is, live);
    if is.len() > 0 {
        let i = is.last();
        let shorter = is.drop_last();
        assert(i == is[is.len() - 1]);
        assert forall|k: int| 0 <= k < shorter.len() implies inst_in_range(#[trigger] shorter[k], n)
            && !is_count(shorter[k]) && (shorter[k].result == Some(v) ==> !reads(
            c,
            shorter[k],
            v,
        )) by {
            assert(shorter[k] == is[k]);
        }
        lemma_step(c, i, live, v, n);
        let s = step(c, i, live);
        lemma_body(c, shorter, s.live, v, n);
        let before = body_code(c, shorter, s.live).0;
        let d = dressed(i, s);
        lemma_net_add(before, d, v);
        assert forall|j: int| 0 <= j < code.len() && (#[trigger] code[j]).result == Some(
            v,
        ) implies one(top[v.0 as int]) + net(code.take(j), v) + made(code.take(j), v) == 0
            && delta(code[j], v) == 0 by {
            if j < before.len() {
                assert(code[j] == before[j]);
                assert(code.take(j) =~= before.take(j));
            } else {
                let rs = retains_reversed(s.retains);
                let m = j - before.len();
                assert(code[j] == d[m]);
                lemma_reversed_results(s.retains);
                lemma_reversed_results(s.releases);
                let rest = releases_reversed(s.releases);
                assert(d =~= rs + (seq![i] + rest));
                if m < rs.len() {
                    assert(d[m] == rs[m]);
                } else if m > rs.len() {
                    assert(d[m] == rest[m - rs.len() - 1]);
                }
                assert(m == rs.len());
                assert(code[j] == i);
                assert(code.take(j) =~= before + rs);
                lemma_net_add(before, rs, v);
                lemma_retains(s.retains, v);
                lemma_roots_counted(c, consumed(i.op), v);
                lemma_not_root_not_used(c, counted_only(c.counted, consumed(i.op)), v, n);
                lemma_uses_counted(c.counted, consumed(i.op), v);
                what_is_taken_is_consumed(i.op);
            }
        }
        assert forall|j: int| 0 <= j < code.len() && touches(c, #[trigger] code[j], v) implies one(
            top[v.0 as int],
        ) + net(code.take(j), v) + made(code.take(j), v) >= 1 by {
            if j < before.len() {
                assert(code[j] == before[j]);
                assert(code.take(j) =~= before.take(j));
            } else {
                let rs = retains_reversed(s.retains);
                let rest = releases_reversed(s.releases);
                let m = j - before.len();
                assert(d =~= rs + (seq![i] + rest));
                assert(code[j] == d[m]);
                lemma_reversed_count(s.retains);
                lemma_reversed_count(s.releases);
                if m < rs.len() {
                    assert(d[m] == rs[m]);
                } else if m > rs.len() {
                    assert(d[m] == rest[m - rs.len() - 1]);
                }
                assert(code[j] == i);
                lemma_touched_is_read(c, i, v);
                assert(code.take(j) =~= before + rs);
                lemma_net_add(before, rs, v);
                lemma_retains(s.retains, v);
                lemma_uses_least(s.retains, v);
                assert(s.live[v.0 as int]);
            }
        }
    }
}

proof fn lemma_uses_least(vs: Seq<Value>, v: Value)
    ensures
        uses(vs, v) >= 0,
    decreases vs.len(),
{
    if vs.len() > 0 {
        lemma_uses_least(vs.drop_last(), v);
    }
}

proof fn lemma_reversed_count(vs: Seq<Value>)
    ensures
        forall|k: int|
            0 <= k < retains_reversed(vs).len() ==> is_count(#[trigger] retains_reversed(vs)[k]),
        forall|k: int|
            0 <= k < releases_reversed(vs).len() ==> is_count(#[trigger] releases_reversed(vs)[k]),
    decreases vs.len(),
{
    if vs.len() > 0 {
        lemma_reversed_count(vs.drop_last());
        let a = retains_reversed(vs.drop_last());
        let b = releases_reversed(vs.drop_last());
        assert forall|k: int| 0 <= k < retains_reversed(vs).len() implies is_count(
            #[trigger] retains_reversed(vs)[k],
        ) by {
            if k > 0 {
                assert(retains_reversed(vs)[k] == a[k - 1]);
            }
        }
        assert forall|k: int| 0 <= k < releases_reversed(vs).len() implies is_count(
            #[trigger] releases_reversed(vs)[k],
        ) by {
            if k > 0 {
                assert(releases_reversed(vs)[k] == b[k - 1]);
            }
        }
    }
}

proof fn lemma_params_count(c: SContext, ps: Seq<Value>, top: Seq<bool>)
    ensures
        forall|k: int|
            0 <= k < param_code(c, ps, top).len() ==> is_count(#[trigger] param_code(c, ps, top)[k]),
    decreases ps.len(),
{
    if ps.len() > 0 {
        lemma_params_count(c, ps.drop_last(), top);
        let before = param_code(c, ps.drop_last(), top);
        let all = param_code(c, ps, top);
        assert forall|k: int| 0 <= k < all.len() implies is_count(#[trigger] all[k]) by {
            if k < before.len() {
                assert(all[k] == before[k]);
            }
        }
    }
}

proof fn lemma_reversed_results(vs: Seq<Value>)
    ensures
        forall|k: int|
            0 <= k < retains_reversed(vs).len() ==> (#[trigger] retains_reversed(vs)[k]).result
                is None,
        forall|k: int|
            0 <= k < releases_reversed(vs).len() ==> (#[trigger] releases_reversed(vs)[k]).result
                is None,
    decreases vs.len(),
{
    if vs.len() > 0 {
        lemma_reversed_results(vs.drop_last());
        let a = retains_reversed(vs.drop_last());
        let b = releases_reversed(vs.drop_last());
        assert forall|k: int| 0 <= k < retains_reversed(vs).len() implies (
        #[trigger] retains_reversed(vs)[k]).result is None by {
            if k > 0 {
                assert(retains_reversed(vs)[k] == a[k - 1]);
            }
        }
        assert forall|k: int| 0 <= k < releases_reversed(vs).len() implies (
        #[trigger] releases_reversed(vs)[k]).result is None by {
            if k > 0 {
                assert(releases_reversed(vs)[k] == b[k - 1]);
            }
        }
    }
}

// ---- parameters ----

proof fn lemma_param_code(c: SContext, ps: Seq<Value>, top: Seq<bool>, v: Value)
    requires
        is_owner(c, v),
        at_most_once(ps, v),
    ensures
        made(param_code(c, ps, top), v) == 0,
        net(param_code(c, ps, top), v) == -one(ps.contains(v) && !top[v.0 as int]),
    decreases ps.len(),
{
    if ps.len() > 0 {
        let p = ps.last();
        let shorter = ps.drop_last();
        assert(at_most_once(shorter, v));
        lemma_param_code(c, shorter, top, v);
        let before = param_code(c, shorter, top);
        lemma_net_one(release(p), v);
        lemma_net_add(before, seq![release(p)], v);
        assert(before.push(release(p)) =~= before + seq![release(p)]);
        assert(ps =~= shorter.push(p));
        if shorter.contains(v) {
            let k = choose|k: int| 0 <= k < shorter.len() && shorter[k] == v;
            assert(ps[k] == v);
            assert(ps[ps.len() - 1] == p);
        } else if p == v {
            assert(ps[ps.len() - 1] == v);
        } else if ps.contains(v) {
            let k = choose|k: int| 0 <= k < ps.len() && ps[k] == v;
            assert(shorter[k] == v);
        }
    }
}

// ---- edges ----

proof fn lemma_owner_uses(c: SContext, args: Seq<Value>, v: Value)
    requires
        is_owner(c, v),
    ensures
        owner_uses(c, args, v) == uses(args, v),
    decreases args.len(),
{
    if args.len() > 0 {
        lemma_owner_uses(c, args.drop_last(), v);
    }
}

pub(super) proof fn lemma_view_retains(c: SContext, args: Seq<Value>, v: Value)
    requires
        c.counted[v.0 as int],
    ensures
        made(view_retains(c, args), v) == 0,
        net(view_retains(c, args), v) == if c.base[v.0 as int] is Some {
            uses(args, v)
        } else {
            0
        },
    decreases args.len(),
{
    if args.len() > 0 {
        let a = args.last();
        lemma_view_retains(c, args.drop_last(), v);
        let before = view_retains(c, args.drop_last());
        lemma_net_one(retain(a), v);
        lemma_net_add(before, seq![retain(a)], v);
        assert(before.push(retain(a)) =~= before + seq![retain(a)]);
    }
}

pub(super) proof fn lemma_copies(w: Value, k: int, v: Value)
    ensures
        made(copies(w, k), v) == 0,
        net(copies(w, k), v) == if w == v && k > 0 {
            k
        } else {
            0
        },
    decreases k,
{
    if k > 0 {
        lemma_copies(w, k - 1, v);
        lemma_net_one(retain(w), v);
        lemma_net_add(copies(w, k - 1), seq![retain(w)], v);
        assert(copies(w, k) =~= copies(w, k - 1) + seq![retain(w)]);
    }
}

proof fn lemma_owner_retains(c: SContext, args: Seq<Value>, succ: Seq<bool>, n: int, v: Value)
    requires
        is_owner(c, v),
        n <= u32::MAX,
    ensures
        made(owner_retains(c, args, succ, n), v) == 0,
        net(owner_retains(c, args, succ, n), v) == if v.0 < n && uses(args, v) > 0 {
            uses(args, v) + one(succ[v.0 as int]) - 1
        } else {
            0
        },
    decreases n,
{
    if n > 0 {
        let w = Value((n - 1) as u32);
        lemma_owner_retains(c, args, succ, n - 1, v);
        lemma_owner_uses(c, args, v);
        let k = owner_uses(c, args, w) + (if succ[n - 1] {
            1int
        } else {
            0int
        }) - 1;
        lemma_copies(w, k, v);
        let before = owner_retains(c, args, succ, n - 1);
        lemma_net_add(before, copies(w, k), v);
        lemma_net_add(before, seq![], v);
    }
}

pub(super) proof fn lemma_edge_releases(
    c: SContext,
    args: Seq<Value>,
    succ: Seq<bool>,
    end: Seq<bool>,
    n: int,
    v: Value,
)
    requires
        n <= u32::MAX,
    ensures
        made(edge_releases(c, args, succ, end, n), v) == 0,
        net(edge_releases(c, args, succ, end, n), v) == -one(
            v.0 < n && end[v.0 as int] && owner_uses(c, args, v) == 0 && !succ[v.0 as int] && Some(
                v,
            ) != c.env,
        ),
    decreases n,
{
    if n > 0 {
        let w = Value((n - 1) as u32);
        lemma_edge_releases(c, args, succ, end, n - 1, v);
        let before = edge_releases(c, args, succ, end, n - 1);
        lemma_net_one(release(w), v);
        lemma_net_add(before, seq![release(w)], v);
        assert(before.push(release(w)) =~= before + seq![release(w)]);
    }
}

/// Along an edge, what an owner is worth at the terminator comes to what it is worth beyond.
proof fn lemma_edge(
    c: SContext,
    args: Seq<Value>,
    succ: Seq<bool>,
    end: Seq<bool>,
    v: Value,
    n: nat,
)
    requires
        is_owner(c, v),
        c.counted.len() == n,
        n <= u32::MAX,
        end.len() == n,
        uses(args, v) > 0 ==> end[v.0 as int],
        succ[v.0 as int] ==> end[v.0 as int],
    ensures
        made(edge_code(c, args, succ, end), v) == 0,
        one(end[v.0 as int]) + net(edge_code(c, args, succ, end), v) - uses(args, v) == one(
            succ[v.0 as int],
        ),
{
    let a = view_retains(c, args);
    let b = owner_retains(c, args, succ, end.len() as int);
    let d = edge_releases(c, args, succ, end, end.len() as int);
    lemma_view_retains(c, args, v);
    lemma_owner_retains(c, args, succ, end.len() as int, v);
    lemma_edge_releases(c, args, succ, end, end.len() as int, v);
    lemma_owner_uses(c, args, v);
    lemma_uses_not_negative(args, v);
    lemma_net_add(a, b, v);
    lemma_net_add(a + b, d, v);
}

pub(super) proof fn lemma_exit_releases(c: SContext, moved: Option<Value>, end: Seq<bool>, n: int, v: Value)
    requires
        n <= u32::MAX,
    ensures
        made(exit_releases(c, moved, end, n), v) == 0,
        net(exit_releases(c, moved, end, n), v) == -one(
            v.0 < n && end[v.0 as int] && Some(v) != moved && Some(v) != c.env,
        ),
    decreases n,
{
    if n > 0 {
        let w = Value((n - 1) as u32);
        lemma_exit_releases(c, moved, end, n - 1, v);
        let before = exit_releases(c, moved, end, n - 1);
        lemma_net_one(release(w), v);
        lemma_net_add(before, seq![release(w)], v);
        assert(before.push(release(w)) =~= before + seq![release(w)]);
    }
}

/// At the end of a function, an owner comes to nothing.
proof fn lemma_exit(c: SContext, ret: Option<Value>, end: Seq<bool>, v: Value, n: nat)
    requires
        is_owner(c, v),
        c.counted.len() == n,
        n <= u32::MAX,
        end.len() == n,
        ret == Some(v) ==> end[v.0 as int],
    ensures
        made(exit_code(c, ret, end), v) == 0,
        one(end[v.0 as int]) + net(exit_code(c, ret, end), v) - one(ret == Some(v)) == 0,
{
    let k = end.len() as int;
    lemma_exit_releases(c, None, end, k, v);
    lemma_exit_releases(c, ret, end, k, v);
    if let Some(x) = ret {
        lemma_net_one(retain(x), v);
        lemma_net_add(seq![retain(x)], exit_releases(c, None, end, k), v);
    }
}

// ---- liveness ----

proof fn lemma_live_grows(c: SContext, is: Seq<SInst>, v: Value)
    ensures
        live_before_all(c, is, v, false) ==> live_before_all(c, is, v, true),
    decreases is.len(),
{
    if is.len() > 0 {
        lemma_live_grows(c, is.drop_last(), v);
    }
}

/// Whether an owner is live into one of the blocks that come next.
spec fn live_next(f: SFunc, b: int, v: Value) -> bool {
    exists|k: int|
        0 <= k < successors(f.blocks[b].term).len() && live_in(
            f,
            #[trigger] successors(f.blocks[b].term)[k] as int,
            v,
        )
}

/// An owner is live into a block just if the block says so of what is live beyond it.
proof fn lemma_live_in(f: SFunc, b: int, v: Value)
    requires
        blocks_wf(f),
        0 <= b < f.blocks.len(),
    ensures
        live_in(f, b, v) == live_into(context_of(f), f.blocks[b], v, live_next(f, b, v)),
{
    let c = context_of(f);
    let g = cfg(f);
    let r = preds(g);
    let (kill, expo) = (killing(f, v), exposing(f, v));
    lemma_live_grows(c, f.blocks[b].insts, v);
    let ends = roots_have(c, term_operands(f.blocks[b].term), v);
    if live_in(f, b, v) {
        let a = choose|a: int| 0 <= a < r.len() && #[trigger] expo[a] && walks(r, kill, a, b);
        let p = choose|p: Seq<int>|
            #[trigger] is_walk(r, kill, p) && p[0] == a && p.last() == b;
        if p.len() == 1 {
            assert(a == b);
            assert(expo[b]);
        } else {
            let x = p[p.len() - 2];
            let q = p.drop_last();
            assert(is_walk(r, kill, q)) by {
                assert forall|k: int| 0 < k < q.len() implies edge(r, q[k - 1], #[trigger] q[k])
                    && !kill[q[k]] by {
                    assert(q[k] == p[k] && q[k - 1] == p[k - 1]);
                }
                assert forall|k: int| 0 <= k < q.len() implies 0 <= #[trigger] q[k]
                    < r.len() by {
                    assert(q[k] == p[k]);
                }
            }
            assert(q[0] == a && q.last() == x);
            assert(walks(r, kill, a, x));
            assert(live_in(f, x, v));
            let k = p.len() - 1;
            assert(edge(r, p[k - 1], p[k]) && !kill[p[k]]);
            preds_turn_edges(g, b, x);
            assert(edge(g, b, x));
            let j = choose|j: int| 0 <= j < g[b].len() && g[b][j] == x as usize;
            assert(successors(f.blocks[b].term)[j] as int == x);
            assert(live_next(f, b, v));
            assert(!kill[b]);
        }
    } else {
        if expo[b] {
            walk_of_one(r, kill, b);
            assert(live_in(f, b, v));
        }
        if live_next(f, b, v) && live_into(c, f.blocks[b], v, true) {
            let k = choose|k: int|
                0 <= k < successors(f.blocks[b].term).len() && live_in(
                    f,
                    #[trigger] successors(f.blocks[b].term)[k] as int,
                    v,
                );
            let x = successors(f.blocks[b].term)[k] as int;
            assert(targets(f.blocks[b].term)[k].to.0 < f.blocks.len());
            assert(g[b][k] == x as usize);
            assert(edge(g, b, x));
            preds_turn_edges(g, b, x);
            let a = choose|a: int| 0 <= a < r.len() && #[trigger] expo[a] && walks(r, kill, a, x);
            assert(!kill[b]);
            crate::ir::graph::walk_extends(r, kill, a, x, b);
            assert(live_in(f, b, v));
        }
    }
}

// ---- a block ----

pub(super) proof fn lemma_roots_ok(f: SFunc)
    requires
        insertable(f),
        views_end(f),
    ensures
        roots_ok(context_of(f)),
        context_wf(context_of(f), f.values.len()),
{
    lemma_context_wf(f);
    let c = context_of(f);
    assert forall|i: int| 0 <= i < c.root.len() implies c.base[(
    #[trigger] c.root[i]).0 as int] is None by {
        assert(c.root[i] == super::down(super::base_of(f), Value(i as u32), f.values.len()));
    }
}

/// What the references to a value are counted by: a function without counts, whose views are
/// all of some owner, where no instruction reads the value to make it and no block has it as
/// a parameter twice.
pub open spec fn countable(f: SFunc, v: Value) -> bool {
    &&& insertable(f)
    &&& views_end(f)
    &&& uncounted(f)
    &&& made_before_read(f, v)
    &&& bound_apart(f, v)
}

/// The references of an owner on entering a block: that of a parameter, or what is live.
spec fn entering(f: SFunc, b: int, v: Value) -> int {
    if f.blocks[b].params.contains(v) {
        1
    } else {
        one(live_in(f, b, v))
    }
}

proof fn lemma_block(f: SFunc, b: int, v: Value)
    requires
        countable(f, v),
        is_owner(context_of(f), v),
        0 <= b < f.blocks.len(),
    ensures
        ({
            let is = inner_code(f, b);
            &&& entering(f, b, v) + net(is, v) + made(is, v) == one(live_at_end(f, b, v))
            &&& forall|j: int|
                0 <= j < is.len() && (#[trigger] is[j]).result == Some(v) ==> entering(f, b, v)
                    + net(is.take(j), v) + made(is.take(j), v) == 0 && delta(is[j], v) == 0
            &&& forall|j: int|
                0 <= j < is.len() && touches(context_of(f), #[trigger] is[j], v) ==> entering(
                    f,
                    b,
                    v,
                ) + net(is.take(j), v) + made(is.take(j), v) >= 1
        }),
{
    let c = context_of(f);
    let n = f.values.len();
    let blk = f.blocks[b];
    let end = live_at_end_set(f, b);
    lemma_roots_ok(f);
    assert(block_in_range(blk, n));
    assert forall|k: int| 0 <= k < blk.insts.len() implies inst_in_range(#[trigger] blk.insts[k], n)
        && !is_count(blk.insts[k]) && (blk.insts[k].result == Some(v) ==> !reads(
        c,
        blk.insts[k],
        v,
    )) by {
        assert(f.blocks[b].insts[k] == blk.insts[k]);
    }
    lemma_body(c, blk.insts, end, v, n);
    let (code, top) = body_code(c, blk.insts, end);
    let ps = param_code(c, blk.params, top);
    lemma_param_code(c, blk.params, top, v);
    lemma_param_results(c, blk.params, top);
    lemma_live_in(f, b, v);
    assert(end[v.0 as int] == live_at_end(f, b, v));
    assert(live_at_end(f, b, v) == (live_next(f, b, v) || roots_have(
        c,
        term_operands(blk.term),
        v,
    )));
    let is = inner_code(f, b);
    assert(is == ps + code);
    lemma_net_add(ps, code, v);
    assert(entering(f, b, v) + net(ps, v) == one(top[v.0 as int]));
    assert forall|j: int| 0 <= j < is.len() && (#[trigger] is[j]).result == Some(v) implies entering(
        f,
        b,
        v,
    ) + net(is.take(j), v) + made(is.take(j), v) == 0 && delta(is[j], v) == 0 by {
        if j < ps.len() {
            assert(is[j] == ps[j]);
        } else {
            let k = j - ps.len();
            assert(is[j] == code[k]);
            assert(is.take(j) =~= ps + code.take(k));
            lemma_net_add(ps, code.take(k), v);
        }
    }
    assert forall|j: int| 0 <= j < is.len() && touches(c, #[trigger] is[j], v) implies entering(
        f,
        b,
        v,
    ) + net(is.take(j), v) + made(is.take(j), v) >= 1 by {
        lemma_params_count(c, blk.params, top);
        if j < ps.len() {
            assert(is[j] == ps[j]);
        } else {
            let k = j - ps.len();
            assert(is[j] == code[k]);
            assert(is.take(j) =~= ps + code.take(k));
            lemma_net_add(ps, code.take(k), v);
        }
    }
}

proof fn lemma_param_results(c: SContext, ps: Seq<Value>, top: Seq<bool>)
    ensures
        forall|k: int|
            0 <= k < param_code(c, ps, top).len() ==> (#[trigger] param_code(c, ps, top)[k]).result
                is None,
    decreases ps.len(),
{
    if ps.len() > 0 {
        lemma_param_results(c, ps.drop_last(), top);
    }
}

/// The code behind the instructions of a block, before its terminator.
spec fn tail_code(f: SFunc, b: int) -> Seq<SInst> {
    let c = context_of(f);
    let end = live_at_end_set(f, b);
    match f.blocks[b].term {
        STerm::Ret(v) => exit_code(c, v, end),
        STerm::Throw(v) => exit_code(c, Some(v), end),
        STerm::Jump(t) => target_code(f, b, t),
        _ => seq![],
    }
}

/// An edge that goes where another goes, with the code for it in a block of its own if there
/// is any.
spec fn carries(f: SFunc, b: int, base: nat, new: Seq<SBlock>, a: STarget, t: STarget) -> bool {
    let code = target_code(f, b, t);
    a == t && code.len() == 0 || (base <= a.to.0 < base + new.len() && a.args.len() == 0 && {
        let x = new[a.to.0 - base];
        x.params.len() == 0 && x.insts == code && x.term == STerm::Jump(t)
    })
}

proof fn lemma_split(f: SFunc, b: int, t: STarget, base: nat, new: Seq<SBlock>)
    requires
        base + new.len() <= u32::MAX,
    ensures
        ({
            let (a, more) = split(t, target_code(f, b, t), (base + new.len()) as int);
            more.len() <= 1 && carries(f, b, base, new + more, a, t)
        }),
{
}

proof fn lemma_carries_on(
    f: SFunc,
    b: int,
    base: nat,
    new: Seq<SBlock>,
    more: Seq<SBlock>,
    a: STarget,
    t: STarget,
)
    requires
        carries(f, b, base, new, a, t),
    ensures
        carries(f, b, base, new + more, a, t),
{
    if base <= a.to.0 < base + new.len() {
        assert((new + more)[a.to.0 - base] == new[a.to.0 - base]);
    }
}

proof fn lemma_split_arms(
    f: SFunc,
    b: int,
    arms: Seq<(SSwitchKey, STarget)>,
    base: nat,
    new: Seq<SBlock>,
)
    requires
        base + new.len() + arms.len() <= u32::MAX,
    ensures
        ({
            let (done, more) = split_arms(f, b, arms, (base + new.len()) as int);
            &&& more.len() <= arms.len()
            &&& done.len() == arms.len()
            &&& forall|k: int|
                0 <= k < arms.len() ==> carries(
                    f,
                    b,
                    base,
                    new + more,
                    (#[trigger] done[k]).1,
                    arms[k].1,
                )
        }),
    decreases arms.len(),
{
    let next = (base + new.len()) as int;
    let (done, more) = split_arms(f, b, arms, next);
    if arms.len() > 0 {
        lemma_split_arms(f, b, arms.drop_last(), base, new);
        let (d1, m1) = split_arms(f, b, arms.drop_last(), next);
        let t = arms.last().1;
        lemma_split(f, b, t, base, new + m1);
        let (to, m2) = split(t, target_code(f, b, t), next + m1.len());
        assert(new + more =~= (new + m1) + m2);
        assert forall|k: int| 0 <= k < arms.len() implies carries(
            f,
            b,
            base,
            new + more,
            (#[trigger] done[k]).1,
            arms[k].1,
        ) by {
            if k < d1.len() {
                assert(done[k] == d1[k]);
                assert(arms.drop_last()[k] == arms[k]);
                lemma_carries_on(f, b, base, new + m1, m2, d1[k].1, arms[k].1);
            }
        }
    }
}

/// What becomes of a block.
spec fn becomes(f: SFunc, b: int, base: nat, new: Seq<SBlock>, x: SBlock) -> bool {
    let (xs, ts) = (targets(x.term), targets(f.blocks[b].term));
    &&& x.params == f.blocks[b].params
    &&& x.insts == inner_code(f, b) + tail_code(f, b)
    &&& xs.len() == ts.len()
    &&& ts.len() == 0 || f.blocks[b].term is Jump ==> x.term == f.blocks[b].term
    &&& !(f.blocks[b].term is Jump) ==> forall|k: int|
        0 <= k < ts.len() ==> carries(f, b, base, new, #[trigger] xs[k], ts[k])
}

proof fn lemma_block_becomes(f: SFunc, b: int, base: nat, new: Seq<SBlock>)
    requires
        base + new.len() + targets(f.blocks[b].term).len() <= u32::MAX,
    ensures
        ({
            let (x, more) = block_code(f, b, (base + new.len()) as int);
            more.len() <= targets(f.blocks[b].term).len() && becomes(f, b, base, new + more, x)
        }),
{
    let blk = f.blocks[b];
    let next = (base + new.len()) as int;
    let (x, more) = block_code(f, b, next);
    let inner = inner_code(f, b);
    assert(inner + Seq::<SInst>::empty() =~= inner);
    let (xs, ts) = (targets(x.term), targets(blk.term));
    match blk.term {
        STerm::Branch { cond, then, els } => {
            lemma_split(f, b, then, base, new);
            let (t, m1) = split(then, target_code(f, b, then), next);
            lemma_split(f, b, els, base, new + m1);
            let (e, m2) = split(els, target_code(f, b, els), next + m1.len());
            assert(new + more =~= (new + m1) + m2);
            lemma_carries_on(f, b, base, new + m1, m2, t, then);
            assert(xs =~= seq![t, e]);
            assert(ts =~= seq![then, els]);
        },
        STerm::Switch { on, arms, default } => {
            lemma_split_arms(f, b, arms, base, new);
            let (a, m1) = split_arms(f, b, arms, next);
            lemma_split(f, b, default, base, new + m1);
            let (d, m2) = split(default, target_code(f, b, default), next + m1.len());
            assert(new + more =~= (new + m1) + m2);
            assert forall|k: int| 0 <= k < ts.len() implies carries(
                f,
                b,
                base,
                new + more,
                #[trigger] xs[k],
                ts[k],
            ) by {
                if k < arms.len() {
                    assert(xs[k] == a[k].1);
                    assert(ts[k] == arms[k].1);
                    lemma_carries_on(f, b, base, new + m1, m2, a[k].1, arms[k].1);
                } else {
                    assert(xs[k] == d && ts[k] == default);
                }
            }
        },
        _ => {},
    }
}

proof fn lemma_blocks_become(f: SFunc, n: int)
    requires
        0 <= n <= f.blocks.len(),
        f.blocks.len() + super::edge_count(f, n) <= u32::MAX,
    ensures
        ({
            let (done, new) = blocks_code(f, n);
            &&& done.len() == n
            &&& new.len() <= super::edge_count(f, n)
            &&& forall|b: int|
                0 <= b < n ==> becomes(f, b, f.blocks.len(), new, #[trigger] done[b])
        }),
    decreases n,
{
    if n > 0 {
        lemma_blocks_become(f, n - 1);
        let (d1, m1) = blocks_code(f, n - 1);
        let base = f.blocks.len();
        lemma_block_becomes(f, n - 1, base, m1);
        let (x, more) = block_code(f, n - 1, (base + m1.len()) as int);
        let (done, new) = blocks_code(f, n);
        assert forall|b: int| 0 <= b < n implies becomes(f, b, base, new, #[trigger] done[b]) by {
            if b < n - 1 {
                assert(done[b] == d1[b]);
                assert(becomes(f, b, base, m1, d1[b]));
                let (xs, ts) = (targets(d1[b].term), targets(f.blocks[b].term));
                if !(f.blocks[b].term is Jump) {
                    assert forall|k: int| 0 <= k < ts.len() implies carries(
                        f,
                        b,
                        base,
                        new,
                        #[trigger] xs[k],
                        ts[k],
                    ) by {
                        assert(carries(f, b, base, m1, xs[k], ts[k]));
                        lemma_carries_on(f, b, base, m1, more, xs[k], ts[k]);
                    }
                }
            }
        }
    }
}

/// What becomes of a function that holds something counted.
proof fn lemma_inserted(f: SFunc, v: Value)
    requires
        insertable(f),
        v.0 < f.values.len(),
        context_of(f).counted[v.0 as int],
    ensures
        inserted(f).blocks.len() >= f.blocks.len(),
        forall|b: int|
            0 <= b < f.blocks.len() ==> becomes(
                f,
                b,
                f.blocks.len(),
                inserted(f).blocks.skip(f.blocks.len() as int),
                #[trigger] inserted(f).blocks[b],
            ),
{
    assert(super::counted_values(f)[v.0 as int]);
    lemma_blocks_become(f, f.blocks.len() as int);
    let (done, new) = blocks_code(f, f.blocks.len() as int);
    let g = inserted(f);
    assert(g.blocks.skip(f.blocks.len() as int) =~= new);
    assert forall|b: int| 0 <= b < f.blocks.len() implies becomes(
        f,
        b,
        f.blocks.len(),
        new,
        #[trigger] g.blocks[b],
    ) by {
        assert(g.blocks[b] == done[b]);
    }
}

// ---- ways through a function ----

/// A block that is gone through, and which of its ways out is taken.
pub struct Way {
    pub block: int,
    pub way: int,
}

/// Ways that follow one another and lead to a block.
pub open spec fn is_path(g: SFunc, ws: Seq<Way>, end: int) -> bool {
    &&& 0 <= end < g.blocks.len()
    &&& forall|i: int|
        0 <= i < ws.len() ==> 0 <= (#[trigger] ws[i]).block < g.blocks.len() && 0 <= ws[i].way
            < targets(g.blocks[ws[i].block].term).len() && targets(
            g.blocks[ws[i].block].term,
        )[ws[i].way].to.0 == if i + 1 < ws.len() {
            ws[i + 1].block
        } else {
            end
        }
}

/// What ways through a function add to the references of a value. The first block counts
/// from instruction `from` on; what a way hands on is consumed.
pub open spec fn spent(g: SFunc, ws: Seq<Way>, from: int, v: Value) -> int
    decreases ws.len(),
{
    if ws.len() == 0 {
        0
    } else {
        let w = ws.last();
        let is = g.blocks[w.block].insts;
        spent(g, ws.drop_last(), from, v) + net(
            if ws.len() == 1 {
                is.skip(from)
            } else {
                is
            },
            v,
        ) - uses(targets(g.blocks[w.block].term)[w.way].args, v)
    }
}

/// A run through a function: ways, and from and up to which instruction of the first and the
/// last block it goes.
pub struct Run {
    pub ways: Seq<Way>,
    pub from: int,
    pub end: int,
    pub upto: int,
}

/// The block that a run begins in.
pub open spec fn first_block(r: Run) -> int {
    if r.ways.len() == 0 {
        r.end
    } else {
        r.ways[0].block
    }
}

/// What a run adds to the references of a value.
pub open spec fn spent_in(g: SFunc, r: Run, v: Value) -> int {
    let is = g.blocks[r.end].insts;
    if r.ways.len() == 0 {
        net(is.subrange(r.from, r.upto), v)
    } else {
        spent(g, r.ways, r.from, v) + net(is.take(r.upto), v)
    }
}

/// Whether a run begins where a value is bound: at the top of a block that has it as a
/// parameter, or behind the instruction that makes it.
pub open spec fn begins(g: SFunc, r: Run, v: Value) -> bool {
    let b = g.blocks[first_block(r)];
    ||| r.from == 0 && b.params.contains(v)
    ||| 0 < r.from <= b.insts.len() && b.insts[r.from - 1].result == Some(v)
}

pub open spec fn makes(is: Seq<SInst>, v: Value) -> bool {
    exists|k: int| 0 <= k < is.len() && (#[trigger] is[k]).result == Some(v)
}

/// Whether a value is not bound again in the middle of a run.
pub open spec fn bound_once(g: SFunc, r: Run, v: Value) -> bool {
    let first = g.blocks[first_block(r)].insts;
    let last = g.blocks[r.end].insts;
    if r.ways.len() == 0 {
        0 <= r.from <= r.upto <= last.len() && !makes(last.subrange(r.from, r.upto), v)
    } else {
        &&& 0 <= r.from <= first.len()
        &&& 0 <= r.upto <= last.len()
        &&& !makes(first.skip(r.from), v)
        &&& !makes(last.take(r.upto), v)
        &&& forall|i: int|
            1 <= i < r.ways.len() ==> !makes(g.blocks[(#[trigger] r.ways[i]).block].insts, v)
                && !g.blocks[r.ways[i].block].params.contains(v)
    }
}

/// Whether a block returns or throws a value.
pub open spec fn hands_out(t: STerm, v: Value) -> bool {
    t == STerm::Ret(Some(v)) || t == STerm::Throw(v)
}

/// A run that ends the function.
pub open spec fn leaves(g: SFunc, r: Run, v: Value) -> bool {
    let b = g.blocks[r.end];
    &&& r.upto == b.insts.len()
    &&& b.term is Ret || b.term is Throw
    &&& r.ways.len() > 0 ==> !b.params.contains(v)
}

/// A run that comes to where the value is bound again.
pub open spec fn comes_round(g: SFunc, r: Run, v: Value) -> bool {
    let b = g.blocks[r.end];
    ||| r.ways.len() > 0 && r.upto == 0 && b.params.contains(v)
    ||| r.upto < b.insts.len() && b.insts[r.upto].result == Some(v) && (r.ways.len() > 0
        ==> !b.params.contains(v))
}

// ---- following them ----

pub(crate) proof fn lemma_made_counts(is: Seq<SInst>, v: Value)
    ensures
        made(is, v) >= 0,
        made(is, v) == 0 <==> !makes(is, v),
    decreases is.len(),
{
    if is.len() > 0 {
        lemma_made_counts(is.drop_last(), v);
        assert(is.last() == is[is.len() - 1]);
        if makes(is.drop_last(), v) {
            let k = choose|k: int|
                0 <= k < is.drop_last().len() && (#[trigger] is.drop_last()[k]).result == Some(v);
            assert(is[k].result == Some(v));
        } else if makes(is, v) {
            let k = choose|k: int| 0 <= k < is.len() && (#[trigger] is[k]).result == Some(v);
            if k < is.len() - 1 {
                assert(is.drop_last()[k].result == Some(v));
            }
        }
    }
}

proof fn lemma_roots_add(c: SContext, a: Seq<Value>, b: Seq<Value>, v: Value)
    ensures
        roots_have(c, a + b, v) == (roots_have(c, a, v) || roots_have(c, b, v)),
    decreases b.len(),
{
    if b.len() == 0 {
        assert(a + b =~= a);
    } else {
        assert((a + b).drop_last() =~= a + b.drop_last());
        assert((a + b).last() == b.last());
        lemma_roots_add(c, a, b.drop_last(), v);
    }
}

proof fn lemma_used_is_root(c: SContext, vs: Seq<Value>, v: Value)
    requires
        roots_ok(c),
        is_owner(c, v),
        c.root.len() == c.counted.len(),
        uses(vs, v) > 0,
    ensures
        roots_have(c, vs, v),
    decreases vs.len(),
{
    assert(c.root[v.0 as int] == Value(v.0 as int as u32));
    if vs.len() > 0 && vs.last() != v {
        lemma_used_is_root(c, vs.drop_last(), v);
    }
}

proof fn lemma_arm_roots(c: SContext, arms: Seq<(SSwitchKey, STarget)>, k: int, v: Value)
    requires
        0 <= k < arms.len(),
        roots_have(c, arms[k].1.args, v),
    ensures
        roots_have(c, crate::ir::ssa::arm_args(arms), v),
    decreases arms.len(),
{
    let shorter = arms.drop_last();
    lemma_roots_add(c, crate::ir::ssa::arm_args(shorter), arms.last().1.args, v);
    if k < arms.len() - 1 {
        assert(shorter[k] == arms[k]);
        lemma_arm_roots(c, shorter, k, v);
    }
}

proof fn lemma_target_roots(c: SContext, t: STerm, k: int, v: Value)
    requires
        0 <= k < targets(t).len(),
        roots_have(c, targets(t)[k].args, v),
    ensures
        roots_have(c, term_operands(t), v),
{
    match t {
        STerm::Branch { cond, then, els } => {
            lemma_roots_add(c, seq![cond], then.args, v);
            lemma_roots_add(c, seq![cond] + then.args, els.args, v);
        },
        STerm::Switch { on, arms, default } => {
            let aa = crate::ir::ssa::arm_args(arms);
            lemma_roots_add(c, seq![on], aa, v);
            lemma_roots_add(c, seq![on] + aa, default.args, v);
            if k < arms.len() {
                assert(targets(t)[k] == arms[k].1);
                lemma_arm_roots(c, arms, k, v);
            } else {
                assert(targets(t)[k] == default);
            }
        },
        _ => {},
    }
}

/// What the code on an edge does for an owner.
proof fn lemma_target_code(f: SFunc, b: int, k: int, v: Value)
    requires
        countable(f, v),
        is_owner(context_of(f), v),
        0 <= b < f.blocks.len(),
        0 <= k < targets(f.blocks[b].term).len(),
    ensures
        ({
            let t = targets(f.blocks[b].term)[k];
            &&& made(target_code(f, b, t), v) == 0
            &&& one(live_at_end(f, b, v)) + net(target_code(f, b, t), v) - uses(t.args, v) == one(
                live_in(f, t.to.0 as int, v),
            )
        }),
{
    let c = context_of(f);
    let t = targets(f.blocks[b].term)[k];
    let (succ, end) = (live_in_set(f, t.to.0 as int), live_at_end_set(f, b));
    lemma_roots_ok(f);
    assert(end[v.0 as int] == live_at_end(f, b, v));
    assert(succ[v.0 as int] == live_in(f, t.to.0 as int, v));
    if uses(t.args, v) > 0 {
        lemma_used_is_root(c, t.args, v);
        lemma_target_roots(c, f.blocks[b].term, k, v);
    }
    assert(successors(f.blocks[b].term)[k] as int == t.to.0);
    lemma_edge(c, t.args, succ, end, v, f.values.len());
}

/// What an owner is worth where a block of the counted function is entered.
spec fn worth_on_entry(f: SFunc, x: int, v: Value, c: int) -> bool {
    let g = inserted(f);
    if x < f.blocks.len() {
        c == one(live_in(f, x, v))
    } else {
        exists|b: int, k: int|
            0 <= b < f.blocks.len() && 0 <= k < targets(f.blocks[b].term).len()
                && #[trigger] stands_for(f, g.blocks[x], b, k) && c == one(live_at_end(f, b, v))
    }
}

/// Whether a block holds the code on an edge.
spec fn stands_for(f: SFunc, x: SBlock, b: int, k: int) -> bool {
    let t = targets(f.blocks[b].term)[k];
    x.params.len() == 0 && x.insts == target_code(f, b, t) && x.term == STerm::Jump(t)
}

/// Leaving a block of the function by one of its ways.
proof fn lemma_leave(f: SFunc, b: int, k: int, v: Value)
    requires
        countable(f, v),
        is_owner(context_of(f), v),
        0 <= b < f.blocks.len(),
        0 <= k < targets(inserted(f).blocks[b].term).len(),
    ensures
        made(tail_code(f, b), v) == 0,
        worth_on_entry(
            f,
            targets(inserted(f).blocks[b].term)[k].to.0 as int,
            v,
            one(live_at_end(f, b, v)) + net(tail_code(f, b), v) - uses(
                targets(inserted(f).blocks[b].term)[k].args,
                v,
            ),
        ),
{
    let g = inserted(f);
    let n = f.blocks.len();
    lemma_inserted(f, v);
    let new = g.blocks.skip(n as int);
    assert(becomes(f, b, n, new, g.blocks[b]));
    let a = targets(g.blocks[b].term)[k];
    let t = targets(f.blocks[b].term)[k];
    lemma_target_code(f, b, k, v);
    assert(t.to.0 < n);
    if !(f.blocks[b].term is Jump) {
        assert(carries(f, b, n, new, a, t));
        if !(a == t && target_code(f, b, t).len() == 0) {
            let x = g.blocks[a.to.0 as int];
            assert(x == new[a.to.0 - n]);
            assert(stands_for(f, x, b, k));
            assert(uses(a.args, v) == 0);
        } else {
            assert(net(target_code(f, b, t), v) == 0);
        }
    }
}

/// The instructions of a block of the counted function.
proof fn lemma_in_block(f: SFunc, b: int, v: Value)
    requires
        countable(f, v),
        is_owner(context_of(f), v),
        0 <= b < f.blocks.len(),
        made(tail_code(f, b), v) == 0,
    ensures
        inserted(f).blocks.len() >= f.blocks.len(),
        inserted(f).blocks[b].params == f.blocks[b].params,
        ({
            let is = inserted(f).blocks[b].insts;
            &&& entering(f, b, v) + net(is, v) + made(is, v) == one(live_at_end(f, b, v)) + net(
                tail_code(f, b),
                v,
            )
            &&& forall|j: int|
                0 <= j < is.len() && (#[trigger] is[j]).result == Some(v) ==> entering(f, b, v)
                    + net(is.take(j), v) + made(is.take(j), v) == 0 && delta(is[j], v) == 0
        }),
{
    let is = inserted(f).blocks[b].insts;
    lemma_inserted(f, v);
    lemma_block(f, b, v);
    let (inner, tail) = (inner_code(f, b), tail_code(f, b));
    assert(is == inner + tail);
    lemma_net_add(inner, tail, v);
    lemma_made_counts(tail, v);
    assert forall|j: int| 0 <= j < is.len() && (#[trigger] is[j]).result == Some(v) implies entering(
        f,
        b,
        v,
    ) + net(is.take(j), v) + made(is.take(j), v) == 0 && delta(is[j], v) == 0 by {
        if j < inner.len() {
            assert(is[j] == inner[j]);
            assert(is.take(j) =~= inner.take(j));
        } else {
            assert(is[j] == tail[j - inner.len()]);
        }
    }
}

proof fn lemma_tail_counts(f: SFunc, b: int)
    ensures
        forall|k: int| 0 <= k < tail_code(f, b).len() ==> is_count(#[trigger] tail_code(f, b)[k]),
{
    let c = context_of(f);
    let end = live_at_end_set(f, b);
    match f.blocks[b].term {
        STerm::Ret(v) => super::laws::lemma_exit_code(c, v, end),
        STerm::Throw(v) => super::laws::lemma_exit_code(c, Some(v), end),
        STerm::Jump(t) => super::laws::lemma_edge_code(f, b, t),
        _ => {},
    }
}

/// Before an instruction of a block that looks at an owner, it is worth something.
proof fn lemma_looking_in_block(f: SFunc, b: int, j: int, v: Value)
    requires
        countable(f, v),
        is_owner(context_of(f), v),
        0 <= b < f.blocks.len(),
        0 <= j < inserted(f).blocks[b].insts.len(),
        touches(context_of(f), inserted(f).blocks[b].insts[j], v),
    ensures
        ({
            let is = inserted(f).blocks[b].insts;
            entering(f, b, v) + net(is.take(j), v) + made(is.take(j), v) >= 1
        }),
{
    let is = inserted(f).blocks[b].insts;
    lemma_inserted(f, v);
    lemma_block(f, b, v);
    let (inner, tail) = (inner_code(f, b), tail_code(f, b));
    assert(is == inner + tail);
    if j < inner.len() {
        assert(is[j] == inner[j]);
        assert(is.take(j) =~= inner.take(j));
    } else {
        assert(is[j] == tail[j - inner.len()]);
        lemma_tail_counts(f, b);
    }
}

/// Behind where an owner is bound, it is worth one.
proof fn lemma_after_binding(f: SFunc, b: int, from: int, v: Value)
    requires
        countable(f, v),
        is_owner(context_of(f), v),
        0 <= b < f.blocks.len(),
        made(tail_code(f, b), v) == 0,
        ({
            let x = inserted(f).blocks[b];
            ||| from == 0 && x.params.contains(v)
            ||| 0 < from <= x.insts.len() && x.insts[from - 1].result == Some(v)
        }),
    ensures
        entering(f, b, v) + net(inserted(f).blocks[b].insts.take(from), v) + made(
            inserted(f).blocks[b].insts.take(from),
            v,
        ) == 1,
{
    let is = inserted(f).blocks[b].insts;
    lemma_in_block(f, b, v);
    if from == 0 && inserted(f).blocks[b].params.contains(v) {
        assert(is.take(0) =~= seq![]);
    } else {
        let i = is[from - 1];
        assert(is.take(from) =~= is.take(from - 1) + seq![i]);
        lemma_net_add(is.take(from - 1), seq![i], v);
        lemma_net_one(i, v);
    }
}

proof fn lemma_tail_made(f: SFunc, b: int, v: Value)
    requires
        countable(f, v),
        is_owner(context_of(f), v),
        0 <= b < f.blocks.len(),
    ensures
        made(tail_code(f, b), v) == 0,
        f.blocks[b].term is Ret || f.blocks[b].term is Throw ==> one(live_at_end(f, b, v)) + net(
            tail_code(f, b),
            v,
        ) - one(hands_out(f.blocks[b].term, v)) == 0,
{
    let c = context_of(f);
    let end = live_at_end_set(f, b);
    let term = f.blocks[b].term;
    lemma_roots_ok(f);
    assert(end[v.0 as int] == live_at_end(f, b, v));
    if hands_out(term, v) {
        assert(term_operands(term) =~= seq![v]);
        assert(uses(seq![v], v) == 1) by {
            lemma_uses_push(seq![], v, v);
            assert(Seq::<Value>::empty().push(v) =~= seq![v]);
        }
        lemma_used_is_root(c, seq![v], v);
    }
    match term {
        STerm::Ret(x) => lemma_exit(c, x, end, v, f.values.len()),
        STerm::Throw(x) => lemma_exit(c, Some(x), end, v, f.values.len()),
        STerm::Jump(t) => lemma_target_code(f, b, 0, v),
        _ => {},
    }
}

/// A block where a value is bound, or that leaves the function, is one of those there were.
proof fn lemma_new_blocks(f: SFunc, x: int, v: Value)
    requires
        countable(f, v),
        f.blocks.len() <= x < inserted(f).blocks.len(),
    ensures
        !inserted(f).blocks[x].params.contains(v),
        !makes(inserted(f).blocks[x].insts, v),
        inserted(f).blocks[x].term is Jump,
{
    super::laws::counts_are_all_that_is_added(f);
    let n = f.blocks.len();
    let new = inserted(f).blocks.skip(n as int);
    assert(counting_blocks(n, new, n));
    assert(inserted(f).blocks[x] == new[x - n]);
}

/// Along ways from where an owner is bound, it is worth what is live.
proof fn lemma_follow(f: SFunc, r: Run, m: int, v: Value)
    requires
        countable(f, v),
        is_owner(context_of(f), v),
        is_path(inserted(f), r.ways, r.end),
        begins(inserted(f), r, v),
        bound_once(inserted(f), r, v),
        0 < m <= r.ways.len(),
    ensures
        worth_on_entry(
            f,
            if m < r.ways.len() {
                r.ways[m].block
            } else {
                r.end
            },
            v,
            1 + spent(inserted(f), r.ways.take(m), r.from, v),
        ),
    decreases m,
{
    let g = inserted(f);
    let n = f.blocks.len();
    let ws = r.ways.take(m);
    let w = r.ways[m - 1];
    assert(ws.last() == w);
    assert(ws.drop_last() =~= r.ways.take(m - 1));
    let b = w.block;
    let is = g.blocks[b].insts;
    lemma_inserted(f, v);
    if m == 1 {
        assert(ws.drop_last() =~= seq![]);
        if b >= n {
            lemma_new_blocks(f, b, v);
        }
        lemma_tail_made(f, b, v);
        lemma_in_block(f, b, v);
        lemma_after_binding(f, b, r.from, v);
        lemma_net_split(is, r.from, v);
        lemma_made_counts(is.skip(r.from), v);
        lemma_leave(f, b, w.way, v);
    } else {
        lemma_follow(f, r, m - 1, v);
        let c = 1 + spent(g, r.ways.take(m - 1), r.from, v);
        assert(worth_on_entry(f, b, v, c));
        assert(!makes(g.blocks[r.ways[m - 1].block].insts, v));
        if b < n {
            lemma_tail_made(f, b, v);
            lemma_in_block(f, b, v);
            lemma_made_counts(is, v);
            lemma_leave(f, b, w.way, v);
        } else {
            let (b0, k0) = choose|b0: int, k0: int|
                0 <= b0 < f.blocks.len() && 0 <= k0 < targets(f.blocks[b0].term).len()
                    && #[trigger] stands_for(f, g.blocks[b], b0, k0) && c == one(
                    live_at_end(f, b0, v),
                );
            lemma_target_code(f, b0, k0, v);
            assert(targets(f.blocks[b0].term)[k0].to.0 < n);
        }
    }
}

/// References balance. On every run from where an owner is bound to where the function is
/// left, or the owner bound again, the reference that it is bound with and the retains of it
/// come to as many as the releases and the consuming uses of it: nothing leaks, and nothing
/// is given back twice.
pub proof fn references_balance(f: SFunc, r: Run, v: Value)
    requires
        countable(f, v),
        is_owner(context_of(f), v),
        is_path(inserted(f), r.ways, r.end),
        begins(inserted(f), r, v),
        bound_once(inserted(f), r, v),
        leaves(inserted(f), r, v) || comes_round(inserted(f), r, v),
    ensures
        1 + spent_in(inserted(f), r, v) == if comes_round(inserted(f), r, v) {
            0
        } else if hands_out(inserted(f).blocks[r.end].term, v) {
            1int
        } else {
            0int
        },
{
    let g = inserted(f);
    let n = f.blocks.len();
    let b = r.end;
    let is = g.blocks[b].insts;
    lemma_inserted(f, v);
    if b >= n {
        lemma_new_blocks(f, b, v);
        if comes_round(g, r, v) && r.upto < is.len() {
            assert(is[r.upto].result != Some(v));
        }
    }
    lemma_tail_made(f, b, v);
    lemma_in_block(f, b, v);
    assert(becomes(f, b, n, g.blocks.skip(n as int), g.blocks[b]));
    if r.ways.len() == 0 {
        lemma_after_binding(f, b, r.from, v);
        let mid = is.subrange(r.from, r.upto);
        lemma_made_counts(mid, v);
        assert(is.take(r.upto) =~= is.take(r.from) + mid);
        lemma_net_add(is.take(r.from), mid, v);
    } else {
        lemma_follow(f, r, r.ways.len() as int, v);
        assert(r.ways.take(r.ways.len() as int) =~= r.ways);
        lemma_made_counts(is.take(r.upto), v);
        if r.upto == 0 {
            assert(is.take(0) =~= seq![]);
        }
    }
    if leaves(g, r, v) {
        assert(is.take(r.upto) =~= is);
    }
}

/// What is looked at is held. On every run from where an owner is bound to an instruction
/// that looks at it or at a view into it, at least one of its references has not been given
/// back.
pub proof fn what_is_looked_at_is_held(f: SFunc, r: Run, v: Value)
    requires
        countable(f, v),
        is_owner(context_of(f), v),
        is_path(inserted(f), r.ways, r.end),
        begins(inserted(f), r, v),
        bound_once(inserted(f), r, v),
        r.ways.len() > 0 ==> !inserted(f).blocks[r.end].params.contains(v),
        0 <= r.upto < inserted(f).blocks[r.end].insts.len(),
        touches(context_of(f), inserted(f).blocks[r.end].insts[r.upto], v),
    ensures
        1 + spent_in(inserted(f), r, v) >= 1,
{
    let g = inserted(f);
    let n = f.blocks.len();
    let b = r.end;
    let is = g.blocks[b].insts;
    lemma_inserted(f, v);
    if b >= n {
        super::laws::counts_are_all_that_is_added(f);
        let new = g.blocks.skip(n as int);
        assert(new[b - n] == g.blocks[b]);
        assert(is_count(is[r.upto]));
    }
    lemma_tail_made(f, b, v);
    lemma_looking_in_block(f, b, r.upto, v);
    lemma_looked_worth(f, r, v);
}

/// What a run has made of an owner at a place in a block.
proof fn lemma_looked_worth(f: SFunc, r: Run, v: Value)
    requires
        countable(f, v),
        is_owner(context_of(f), v),
        is_path(inserted(f), r.ways, r.end),
        begins(inserted(f), r, v),
        bound_once(inserted(f), r, v),
        r.end < f.blocks.len(),
        r.ways.len() > 0 ==> !inserted(f).blocks[r.end].params.contains(v),
        0 <= r.upto <= inserted(f).blocks[r.end].insts.len(),
    ensures
        ({
            let is = inserted(f).blocks[r.end].insts;
            1 + spent_in(inserted(f), r, v) == entering(f, r.end, v) + net(is.take(r.upto), v)
                + made(is.take(r.upto), v)
        }),
{
    let g = inserted(f);
    let b = r.end;
    let is = g.blocks[b].insts;
    lemma_inserted(f, v);
    lemma_tail_made(f, b, v);
    lemma_in_block(f, b, v);
    if r.ways.len() == 0 {
        lemma_after_binding(f, b, r.from, v);
        let mid = is.subrange(r.from, r.upto);
        lemma_made_counts(mid, v);
        assert(is.take(r.upto) =~= is.take(r.from) + mid);
        lemma_net_add(is.take(r.from), mid, v);
    } else {
        lemma_follow(f, r, r.ways.len() as int, v);
        assert(r.ways.take(r.ways.len() as int) =~= r.ways);
        lemma_made_counts(is.take(r.upto), v);
    }
}

} // verus!
