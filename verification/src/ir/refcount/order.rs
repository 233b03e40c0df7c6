//! Values that are numbered in the order in which they are made.

use super::balance::{at_most_once, bound_apart, countable, made_before_read, reads, uncounted};
use super::laws::is_count;
use super::{
    base_of, borrowed, consumed, context_of, counted_values, down, edge_count, projection,
    roots_have, views_end, views_of_blocks, views_of_insts, SContext,
};
use crate::ir::opt::laws::{free_of, insts_free, of_sort, Sort};
use crate::ir::ssa::{
    block_in_range, blocks_wf, inst_in_range, operands, values_below, values_wf, SBlock, SFunc,
    SInst, Value,
};
use vstd::prelude::*;

verus! {

/// An instruction that reads only values with smaller numbers than the one that it makes.
pub open spec fn inst_in_order(i: SInst) -> bool {
    i.result matches Some(v) ==> values_below(operands(i.op), v.0 as nat)
}

pub open spec fn block_in_order(b: SBlock) -> bool {
    &&& b.params.no_duplicates()
    &&& forall|k: int| 0 <= k < b.insts.len() ==> inst_in_order(#[trigger] b.insts[k])
}

/// A function whose values are numbered in the order in which they are made.
pub open spec fn in_order(f: SFunc) -> bool {
    forall|b: int| 0 <= b < f.blocks.len() ==> block_in_order(#[trigger] f.blocks[b])
}

/// Views that look into values with smaller numbers.
spec fn looks_down(base: Seq<Option<Value>>) -> bool {
    forall|i: int| 0 <= i < base.len() ==> ((#[trigger] base[i]) matches Some(b) ==> b.0 < i)
}

proof fn lemma_views_of_insts(counted: Seq<bool>, base: Seq<Option<Value>>, is: Seq<SInst>, n: nat)
    requires
        base.len() == n,
        looks_down(base),
        forall|k: int|
            0 <= k < is.len() ==> inst_in_range(#[trigger] is[k], n) && inst_in_order(is[k]),
    ensures
        looks_down(views_of_insts(counted, base, is)),
        views_of_insts(counted, base, is).len() == n,
    decreases is.len(),
{
    if is.len() > 0 {
        let shorter = is.drop_last();
        assert forall|k: int| 0 <= k < shorter.len() implies inst_in_range(#[trigger] shorter[k], n)
            && inst_in_order(shorter[k]) by {
            assert(shorter[k] == is[k]);
        }
        lemma_views_of_insts(counted, base, shorter, n);
        let i = is.last();
        assert(i == is[is.len() - 1]);
        assert(inst_in_range(i, n));
        if let Some((v, b)) = projection(i) {
            assert(operands(i.op)[0] == b);
        }
    }
}

proof fn lemma_views_of_blocks(f: SFunc, n: int)
    requires
        values_wf(f),
        in_order(f),
        0 <= n <= f.blocks.len(),
    ensures
        looks_down(views_of_blocks(f, n)),
        views_of_blocks(f, n).len() == f.values.len(),
    decreases n,
{
    if n > 0 {
        lemma_views_of_blocks(f, n - 1);
        let b = f.blocks[n - 1];
        assert(block_in_range(b, f.values.len()));
        assert(block_in_order(b));
        lemma_views_of_insts(
            counted_values(f),
            views_of_blocks(f, n - 1),
            b.insts,
            f.values.len(),
        );
    }
}

proof fn lemma_down(base: Seq<Option<Value>>, v: Value, k: nat)
    requires
        looks_down(base),
        v.0 < base.len(),
    ensures
        down(base, v, k).0 <= v.0,
        k > v.0 ==> base[down(base, v, k).0 as int] is None,
    decreases k,
{
    if k > 0 {
        if let Some(b) = base[v.0 as int] {
            assert(base[v.0 as int] == Some(b));
            lemma_down(base, b, (k - 1) as nat);
        }
    }
}

proof fn lemma_not_root(c: SContext, vs: Seq<Value>, v: Value, n: nat)
    requires
        values_below(vs, v.0 as nat),
        c.root.len() == n,
        v.0 < n,
        forall|i: int| 0 <= i < n ==> (#[trigger] c.root[i]).0 <= i,
    ensures
        !roots_have(c, vs, v),
    decreases vs.len(),
{
    if vs.len() > 0 {
        let shorter = vs.drop_last();
        assert(values_below(shorter, v.0 as nat)) by {
            assert forall|k: int| 0 <= k < shorter.len() implies (#[trigger] shorter[k]).0
                < v.0 as nat by {
                assert(shorter[k] == vs[k]);
            }
        }
        assert(vs.last() == vs[vs.len() - 1]);
        lemma_not_root(c, shorter, v, n);
        assert(c.root[vs.last().0 as int].0 <= vs.last().0);
    }
}

/// Counts can be put into every function whose values are numbered in the order in which
/// they are made, as long as there are numbers for the blocks that it takes; and there
/// references balance.
pub proof fn what_is_in_order_is_countable(f: SFunc)
    requires
        blocks_wf(f),
        values_wf(f),
        in_order(f),
        free_of(f, Sort::Count),
        f.env is Some ==> f.params.len() > 0,
        f.blocks.len() + edge_count(f, f.blocks.len() as int) <= u32::MAX,
    ensures
        forall|v: Value| #[trigger] countable(f, v),
{
    let c = context_of(f);
    let n = f.values.len();
    lemma_views_of_blocks(f, f.blocks.len() as int);
    assert forall|i: int| 0 <= i < n implies base_of(f)[(#[trigger] down(
        base_of(f),
        Value(i as u32),
        n,
    )).0 as int] is None && down(base_of(f), Value(i as u32), n).0 <= i by {
        lemma_down(base_of(f), Value(i as u32), n);
    }
    assert(views_end(f));
    assert forall|i: int| 0 <= i < n implies (#[trigger] c.root[i]).0 <= i by {
        assert(c.root[i] == down(base_of(f), Value(i as u32), n));
    }
    assert forall|b: int, k: int|
        0 <= b < f.blocks.len() && 0 <= k < f.blocks[b].insts.len() implies !is_count(
        #[trigger] f.blocks[b].insts[k],
    ) by {
        assert(insts_free(f.blocks[b].insts, Sort::Count));
        assert(!of_sort(f.blocks[b].insts[k].op, Sort::Count));
    }
    assert(uncounted(f));
    assert forall|b: int, k: int, v: Value|
        0 <= b < f.blocks.len() && 0 <= k < f.blocks[b].insts.len() && (
        #[trigger] f.blocks[b].insts[k]).result == Some(v) implies !#[trigger] reads(
        c,
        f.blocks[b].insts[k],
        v,
    ) by {
        let i = f.blocks[b].insts[k];
        assert(block_in_range(f.blocks[b], n));
        assert(inst_in_range(i, n));
        assert(block_in_order(f.blocks[b]));
        assert(inst_in_order(i));
        super::balance::lemma_operands_below(i.op, v.0 as nat);
        lemma_not_root(c, consumed(i.op), v, n);
        lemma_not_root(c, borrowed(i.op), v, n);
    }
    assert forall|v: Value| #[trigger] made_before_read(f, v) by {
        assert forall|b: int, k: int|
            0 <= b < f.blocks.len() && 0 <= k < f.blocks[b].insts.len() && (
            #[trigger] f.blocks[b].insts[k]).result == Some(v) implies !reads(
            c,
            f.blocks[b].insts[k],
            v,
        ) by {
            assert(!reads(c, f.blocks[b].insts[k], v));
        }
    }
    assert forall|v: Value| #[trigger] bound_apart(f, v) by {
        assert forall|b: int| 0 <= b < f.blocks.len() implies at_most_once(
            (#[trigger] f.blocks[b]).params,
            v,
        ) by {
            assert(block_in_order(f.blocks[b]));
        }
    }
    assert forall|v: Value| #[trigger] countable(f, v) by {
        assert(made_before_read(f, v));
        assert(bound_apart(f, v));
    }
}

} // verus!
