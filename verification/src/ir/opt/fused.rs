//! That a block which has taken in another does what the two did.

use super::merge::{fused, spliced};
use super::operands::{operands_of_put, put, put_all, put_for, put_inst, put_op, put_term};
use crate::ir::run::{
    after_inst, after_insts, bound, held, outcome, shape, with, Held, Val, World,
};
use crate::ir::ssa::{operands, BlockId, SFunc, SInst, SOp, STarget, STerm, Value};
use vstd::prelude::*;

verus! {

/// How a block is left: with a value, with an error, or for another block with what it passes.
pub enum Exit {
    Gives(Option<Val>),
    Throws(Val),
    Goes(BlockId, Seq<Val>),
    Else,
}

pub open spec fn goes(t: STarget, h: Held) -> Exit {
    Exit::Goes(t.to, held(t.args, h))
}

/// How a block is left by its end.
pub open spec fn exit(t: STerm, h: Held) -> Exit {
    match t {
        STerm::Ret(Some(v)) => Exit::Gives(Some(h(v))),
        STerm::Ret(None) => Exit::Gives(None),
        STerm::Throw(v) => Exit::Throws(h(v)),
        STerm::Jump(t) => goes(t, h),
        STerm::Branch { cond, then, els } => match h(cond) {
            Val::Bool(true) => goes(then, h),
            Val::Bool(false) => goes(els, h),
            _ => Exit::Else,
        },
        _ => Exit::Else,
    }
}

proof fn lemma_put_elsewhere(p: Seq<Value>, a: Seq<Value>, v: Value, k: int)
    requires
        0 <= k <= p.len(),
        !p.contains(v),
    ensures
        put_for(p, a, v, k) == v,
    decreases k,
{
    if k > 0 {
        assert(p[k - 1] != v);
        lemma_put_elsewhere(p, a, v, k - 1);
    }
}

proof fn lemma_put_at(p: Seq<Value>, a: Seq<Value>, i: int, k: int)
    requires
        0 <= i < k <= p.len(),
        p.no_duplicates(),
        p.len() == a.len(),
    ensures
        put_for(p, a, p[i], k) == a[i],
    decreases k,
{
    if i < k - 1 {
        assert(p[i] != p[k - 1]);
        lemma_put_at(p, a, i, k - 1);
    }
}

/// Whether what a value holds is what is held by the one that is put for it.
spec fn stands_in(p: Seq<Value>, a: Seq<Value>, h: Held, k: Held) -> bool {
    forall|v: Value| #[trigger] h(v) == k(put(p, a, v))
}

proof fn lemma_shape_of_put(p: Seq<Value>, a: Seq<Value>, op: SOp)
    ensures
        shape(put_op(p, a, op)) == shape(op),
{
    if op is MakeRecord {
        assert(shape(put_op(p, a, op))->MakeRecord_fields =~= shape(op)->MakeRecord_fields);
    }
}

proof fn lemma_held_of_put(p: Seq<Value>, a: Seq<Value>, vs: Seq<Value>, h: Held, k: Held)
    requires
        stands_in(p, a, h, k),
    ensures
        held(put_all(p, a, vs), k) == held(vs, h),
{
    assert forall|i: int| 0 <= i < vs.len() implies held(put_all(p, a, vs), k)[i] == held(vs, h)[i] by {
        assert(h(vs[i]) == k(put(p, a, vs[i])));
    }
    assert(held(put_all(p, a, vs), k) =~= held(vs, h));
}

proof fn lemma_outcome_of_put(p: Seq<Value>, a: Seq<Value>, op: SOp, h: Held, k: Held, w: World)
    requires
        stands_in(p, a, h, k),
    ensures
        outcome(put_op(p, a, op), k, w) == outcome(op, h, w),
{
    operands_of_put(p, a, op);
    lemma_shape_of_put(p, a, op);
    lemma_held_of_put(p, a, operands(op), h, k);
}

/// Instructions whose results are neither parameters nor arguments.
pub open spec fn leave_alone(is: Seq<SInst>, p: Seq<Value>, a: Seq<Value>) -> bool {
    forall|i: int|
        0 <= i < is.len() ==> ((#[trigger] is[i]).result matches Some(v) ==> !p.contains(v)
            && !a.contains(v))
}

/// Instructions that read none of some values.
pub open spec fn read_none(is: Seq<SInst>, p: Seq<Value>) -> bool {
    forall|i: int, j: int|
        0 <= i < is.len() && 0 <= j < operands(is[i].op).len() ==> !p.contains(
            #[trigger] operands(is[i].op)[j],
        )
}

spec fn put_insts(p: Seq<Value>, a: Seq<Value>, is: Seq<SInst>) -> Seq<SInst> {
    Seq::new(is.len(), |i: int| put_inst(p, a, is[i]))
}

proof fn lemma_insts_of_put(
    p: Seq<Value>,
    a: Seq<Value>,
    is: Seq<SInst>,
    h: Held,
    k: Held,
    w: World,
)
    requires
        stands_in(p, a, h, k),
        leave_alone(is, p, a),
        p.no_duplicates(),
        p.len() == a.len(),
    ensures
        stands_in(p, a, after_insts(is, h, w), after_insts(put_insts(p, a, is), k, w)),
    decreases is.len(),
{
    if is.len() > 0 {
        let (js, ps) = (is.drop_last(), put_insts(p, a, is));
        assert(leave_alone(js, p, a)) by {
            assert forall|i: int| 0 <= i < js.len() implies ((#[trigger] js[i]).result matches Some(v)
                ==> !p.contains(v) && !a.contains(v)) by {
                assert(js[i] == is[i]);
            }
        }
        lemma_insts_of_put(p, a, js, h, k, w);
        assert(ps.drop_last() =~= put_insts(p, a, js));
        let i = is[is.len() - 1];
        assert(ps.last() == put_inst(p, a, i));
        let (x, y) = (after_insts(js, h, w), after_insts(put_insts(p, a, js), k, w));
        lemma_outcome_of_put(p, a, i.op, x, y, w);
        let (u, v) = (after_inst(i, x, w), after_inst(put_inst(p, a, i), y, w));
        assert forall|z: Value| #[trigger] u(z) == v(put(p, a, z)) by {
            assert(x(z) == y(put(p, a, z)));
            if let Some(r) = i.result {
                if p.contains(z) {
                    let q = choose|q: int| 0 <= q < p.len() && p[q] == z;
                    lemma_put_at(p, a, q, p.len() as int);
                    assert(a.contains(a[q]));
                } else {
                    lemma_put_elsewhere(p, a, z, p.len() as int);
                }
            }
        }
    }
}

proof fn lemma_unread(p: Seq<Value>, a: Seq<Value>, is: Seq<SInst>, h: Held, w: World)
    requires
        read_none(is, p),
    ensures
        after_insts(put_insts(p, a, is), h, w) == after_insts(is, h, w),
    decreases is.len(),
{
    if is.len() > 0 {
        let (js, ps) = (is.drop_last(), put_insts(p, a, is));
        assert(read_none(js, p)) by {
            assert forall|i: int, j: int|
                0 <= i < js.len() && 0 <= j < operands(js[i].op).len() implies !p.contains(
                #[trigger] operands(js[i].op)[j],
            ) by {
                assert(!p.contains(operands(is[i].op)[j]));
            }
        }
        lemma_unread(p, a, js, h, w);
        assert(ps.drop_last() =~= put_insts(p, a, js));
        let i = is[is.len() - 1];
        assert(ps.last() == put_inst(p, a, i));
        let x = after_insts(js, h, w);
        let vs = operands(i.op);
        operands_of_put(p, a, i.op);
        lemma_shape_of_put(p, a, i.op);
        assert(put_all(p, a, vs) =~= vs) by {
            assert forall|j: int| 0 <= j < vs.len() implies put_all(p, a, vs)[j] == vs[j] by {
                assert(!p.contains(operands(is[is.len() - 1].op)[j]));
                lemma_put_elsewhere(p, a, vs[j], p.len() as int);
            }
        }
        assert(outcome(put_op(p, a, i.op), x, w) == outcome(i.op, x, w));
    }
}

proof fn lemma_exit_of_put(p: Seq<Value>, a: Seq<Value>, t: STerm, h: Held, k: Held)
    requires
        stands_in(p, a, h, k),
    ensures
        exit(put_term(p, a, t), k) == exit(t, h),
{
    match t {
        STerm::Ret(Some(v)) => {
            assert(h(v) == k(put(p, a, v)));
        },
        STerm::Throw(v) => {
            assert(h(v) == k(put(p, a, v)));
        },
        STerm::Jump(e) => lemma_held_of_put(p, a, e.args, h, k),
        STerm::Branch { cond, then, els } => {
            assert(h(cond) == k(put(p, a, cond)));
            lemma_held_of_put(p, a, then.args, h, k);
            lemma_held_of_put(p, a, els.args, h, k);
        },
        _ => {},
    }
}

proof fn lemma_bound_is(p: Seq<Value>, xs: Seq<Val>, h: Held, v: Value)
    requires
        p.len() == xs.len(),
        p.no_duplicates(),
    ensures
        !p.contains(v) ==> bound(p, xs, h)(v) == h(v),
        forall|i: int| 0 <= i < p.len() && p[i] == v ==> bound(p, xs, h)(v) == xs[i],
    decreases p.len(),
{
    if p.len() > 0 {
        let (q, ys) = (p.drop_last(), xs.take(p.len() - 1));
        assert(q.no_duplicates());
        lemma_bound_is(q, ys, h, v);
        assert(p[p.len() - 1] == p.last());
        if !p.contains(v) {
            assert(p.last() != v);
            if q.contains(v) {
                let j = choose|j: int| 0 <= j < q.len() && q[j] == v;
                assert(p[j] == v);
            }
        }
        assert forall|i: int| 0 <= i < p.len() && p[i] == v implies bound(p, xs, h)(v) == xs[i] by {
            if i < p.len() - 1 {
                assert(q[i] == v);
                assert(p[i] != p[p.len() - 1]);
            }
        }
    }
}

/// A block that has taken in the one that it jumped to does what the two did, one after the
/// other: from where it is entered, all values but the parameters that have ceased to be hold
/// at its end what they held at the end of the second, every argument holds what its
/// parameter did, and it is left as the second was.
pub proof fn a_fused_block_does_what_the_two_did(f: SFunc, a: int, h: Held, w: World)
    requires
        0 <= a < f.blocks.len(),
        f.blocks[a].term matches STerm::Jump(t) && t.to.0 < f.blocks.len() && t.to.0 != a
            && t.args.len() == f.blocks[t.to.0 as int].params.len(),
        ({
            let t = f.blocks[a].term->Jump_0;
            let b = f.blocks[t.to.0 as int];
            &&& b.params.no_duplicates()
            &&& read_none(f.blocks[a].insts, b.params)
            &&& leave_alone(b.insts, b.params, t.args)
        }),
    ensures
        ({
            let t = f.blocks[a].term->Jump_0;
            let b = f.blocks[t.to.0 as int];
            let first = after_insts(f.blocks[a].insts, h, w);
            let x = after_insts(b.insts, bound(b.params, held(t.args, first), first), w);
            let g = fused(f, a).blocks[a];
            let y = after_insts(g.insts, h, w);
            &&& g.params == f.blocks[a].params
            &&& exit(g.term, y) == exit(b.term, x)
            &&& forall|v: Value| !b.params.contains(v) ==> #[trigger] x(v) == y(v)
            &&& forall|i: int|
                0 <= i < b.params.len() ==> x(#[trigger] b.params[i]) == y(t.args[i])
        }),
{
    let t = f.blocks[a].term->Jump_0;
    let b = f.blocks[t.to.0 as int];
    let (p, args) = (b.params, t.args);
    let (one, two) = (f.blocks[a].insts, b.insts);
    let g = fused(f, a).blocks[a];
    assert(spliced(f, a)[a].insts == one + two);
    assert(g.insts =~= put_insts(p, args, one) + put_insts(p, args, two));
    assert(g.term == put_term(p, args, b.term));
    let first = after_insts(one, h, w);
    lemma_unread(p, args, one, h, w);
    lemma_insts_add(put_insts(p, args, one), put_insts(p, args, two), h, w);
    let next = bound(p, held(args, first), first);
    assert(stands_in(p, args, next, first)) by {
        assert forall|v: Value| #[trigger] next(v) == first(put(p, args, v)) by {
            lemma_bound_is(p, held(args, first), first, v);
            if p.contains(v) {
                let i = choose|i: int| 0 <= i < p.len() && p[i] == v;
                lemma_put_at(p, args, i, p.len() as int);
            } else {
                lemma_put_elsewhere(p, args, v, p.len() as int);
            }
        }
    }
    lemma_insts_of_put(p, args, two, next, first, w);
    let (x, y) = (after_insts(two, next, w), after_insts(g.insts, h, w));
    lemma_exit_of_put(p, args, b.term, x, y);
    assert forall|v: Value| !p.contains(v) implies #[trigger] x(v) == y(v) by {
        lemma_put_elsewhere(p, args, v, p.len() as int);
    }
    assert forall|i: int| 0 <= i < p.len() implies x(#[trigger] p[i]) == y(args[i]) by {
        lemma_put_at(p, args, i, p.len() as int);
    }
}

proof fn lemma_insts_add(a: Seq<SInst>, b: Seq<SInst>, h: Held, w: World)
    ensures
        after_insts(a + b, h, w) == after_insts(b, after_insts(a, h, w), w),
    decreases b.len(),
{
    if b.len() == 0 {
        assert(a + b =~= a);
    } else {
        assert((a + b).drop_last() =~= a + b.drop_last());
        assert((a + b).last() == b.last());
        lemma_insts_add(a, b.drop_last(), h, w);
    }
}

} // verus!
