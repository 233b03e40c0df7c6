//! How much is left to optimise in a function.
//!
//! Every pass that changes a function without taking blocks out of it makes it lighter, so
//! that running the passes over and over comes to an end.

use super::super::ssa::{SBlock, SFunc, SInst};
use vstd::prelude::*;

verus! {

/// An instruction weighs one, and one more while it may still be folded.
pub open spec fn inst_weight(i: SInst) -> nat {
    if i.op is Prim {
        2
    } else {
        1
    }
}

pub open spec fn insts_weight(is: Seq<SInst>, n: int) -> nat
    decreases n,
{
    if n <= 0 {
        0
    } else {
        insts_weight(is, n - 1) + inst_weight(is[n - 1])
    }
}

/// A block weighs what its instructions do, and one more while its branch may be folded.
pub open spec fn block_weight(b: SBlock) -> nat {
    insts_weight(b.insts, b.insts.len() as int) + if b.term is Branch {
        1nat
    } else {
        0nat
    }
}

pub open spec fn blocks_weight(bs: Seq<SBlock>, n: int) -> nat
    decreases n,
{
    if n <= 0 {
        0
    } else {
        blocks_weight(bs, n - 1) + block_weight(bs[n - 1])
    }
}

pub open spec fn weight(f: SFunc) -> nat {
    blocks_weight(f.blocks, f.blocks.len() as int)
}

pub proof fn lemma_insts_lighter(xs: Seq<SInst>, ys: Seq<SInst>, n: int)
    requires
        0 <= n <= xs.len(),
        n <= ys.len(),
        forall|k: int| 0 <= k < n ==> inst_weight(#[trigger] ys[k]) <= inst_weight(xs[k]),
    ensures
        insts_weight(ys, n) <= insts_weight(xs, n),
        (exists|k: int| 0 <= k < n && inst_weight(#[trigger] ys[k]) < inst_weight(xs[k]))
            ==> insts_weight(ys, n) < insts_weight(xs, n),
    decreases n,
{
    if n > 0 {
        lemma_insts_lighter(xs, ys, n - 1);
        assert(inst_weight(ys[n - 1]) <= inst_weight(xs[n - 1]));
    }
}

pub proof fn lemma_blocks_lighter(xs: Seq<SBlock>, ys: Seq<SBlock>, n: int)
    requires
        0 <= n <= xs.len(),
        n <= ys.len(),
        forall|k: int| 0 <= k < n ==> block_weight(#[trigger] ys[k]) <= block_weight(xs[k]),
    ensures
        blocks_weight(ys, n) <= blocks_weight(xs, n),
        (exists|k: int| 0 <= k < n && block_weight(#[trigger] ys[k]) < block_weight(xs[k]))
            ==> blocks_weight(ys, n) < blocks_weight(xs, n),
    decreases n,
{
    if n > 0 {
        lemma_blocks_lighter(xs, ys, n - 1);
        assert(block_weight(ys[n - 1]) <= block_weight(xs[n - 1]));
    }
}

} // verus!
