//! Taking out blocks that cannot be got to, and numbering the others anew.

use super::super::cfg::{cfg, graph_of};
use super::super::graph::{
    adj, edge, is_walk, none_of, nowhere, only, only_one, reachable, reached, walk_extends,
    walk_of_one, walks,
};
use super::super::ssa::{
    block_in_range, blocks_wf, copy_insts, copy_values, targets, term_in_range, values_wf, Block,
    BlockId, Func, SBlock, SFunc,
};
use super::thread::{orphan, retarget, retargeted, retargeting_agrees, retargeting_keeps};
use crate::syntax::{sems, Node};
use vstd::prelude::*;

verus! {

/// Whether a block can be got to from the entry.
pub open spec fn alive(f: SFunc, b: int) -> bool {
    reached(cfg(f), nowhere(f.blocks.len()), only(f.blocks.len(), f.entry.0 as int), b)
}

/// How many of the first `n` blocks can be got to: the number that block `n` has afterwards.
pub open spec fn rank(f: SFunc, n: int) -> nat
    decreases n,
{
    if n <= 0 {
        0
    } else {
        rank(f, n - 1) + if alive(f, n - 1) {
            1nat
        } else {
            0nat
        }
    }
}

pub open spec fn renumbered(f: SFunc, b: int) -> SBlock {
    SBlock {
        id: BlockId(rank(f, b) as u32),
        term: retargeted(f.blocks[b].term, |t: usize| rank(f, t as int) as usize),
        ..f.blocks[b]
    }
}

/// The blocks among the first `n` that can be got to.
pub open spec fn survivors(f: SFunc, n: int) -> Seq<SBlock>
    decreases n,
{
    if n <= 0 {
        seq![]
    } else if alive(f, n - 1) {
        survivors(f, n - 1).push(renumbered(f, n - 1))
    } else {
        survivors(f, n - 1)
    }
}

/// Whether a function has a block that cannot be got to.
pub open spec fn prunes(f: SFunc) -> bool {
    exists|b: int| 0 <= b < f.blocks.len() && !(#[trigger] alive(f, b))
}

/// A function without the blocks that cannot be got to.
pub open spec fn pruned(f: SFunc) -> SFunc {
    if prunes(f) {
        SFunc {
            entry: BlockId(rank(f, f.entry.0 as int) as u32),
            blocks: survivors(f, f.blocks.len() as int),
            ..f
        }
    } else {
        f
    }
}

// ---- what pruning keeps ----

pub(super) proof fn lemma_rank(f: SFunc, m: int, n: int)
    requires
        0 <= m <= n,
    ensures
        rank(f, m) <= rank(f, n),
        rank(f, n) <= n,
        m < n && alive(f, m) ==> rank(f, m) < rank(f, n),
        m < n && !alive(f, m) ==> rank(f, n) < n,
    decreases n,
{
    if n > 0 {
        if m < n {
            lemma_rank(f, m, n - 1);
        } else {
            lemma_rank(f, m - 1, n - 1);
        }
    }
}

proof fn lemma_survivors(f: SFunc, n: int)
    requires
        0 <= n <= f.blocks.len(),
    ensures
        survivors(f, n).len() == rank(f, n),
        forall|i: int|
            0 <= i < survivors(f, n).len() ==> exists|b: int|
                0 <= b < n && alive(f, b) && rank(f, b) == i && #[trigger] survivors(f, n)[i]
                    == #[trigger] renumbered(f, b),
    decreases n,
{
    if n > 0 {
        lemma_survivors(f, n - 1);
        let before = survivors(f, n - 1);
        assert forall|i: int| 0 <= i < survivors(f, n).len() implies exists|b: int|
            0 <= b < n && alive(f, b) && rank(f, b) == i && #[trigger] survivors(f, n)[i]
                == #[trigger] renumbered(f, b) by {
            if i < before.len() {
                assert(survivors(f, n)[i] == before[i]);
                let b = choose|b: int|
                    0 <= b < n - 1 && alive(f, b) && rank(f, b) == i && before[i]
                        == #[trigger] renumbered(f, b);
                assert(survivors(f, n)[i] == renumbered(f, b));
            } else {
                assert(survivors(f, n)[i] == renumbered(f, n - 1));
            }
        }
    }
}

proof fn lemma_entry_alive(f: SFunc)
    requires
        blocks_wf(f),
    ensures
        alive(f, f.entry.0 as int),
{
    let e = f.entry.0 as int;
    walk_of_one(cfg(f), nowhere(f.blocks.len()), e);
    assert(only(f.blocks.len(), e)[e]);
}

pub(super) proof fn lemma_target_alive(f: SFunc, b: int, k: int)
    requires
        blocks_wf(f),
        0 <= b < f.blocks.len(),
        alive(f, b),
        0 <= k < targets(f.blocks[b].term).len(),
    ensures
        alive(f, targets(f.blocks[b].term)[k].to.0 as int),
{
    let none = nowhere(f.blocks.len());
    let starts = only(f.blocks.len(), f.entry.0 as int);
    let t = targets(f.blocks[b].term)[k].to.0;
    assert(term_in_range(f.blocks[b].term, f.blocks.len()));
    assert(t < f.blocks.len());
    let a = choose|a: int|
        0 <= a < cfg(f).len() && #[trigger] starts[a] && walks(cfg(f), none, a, b);
    assert(cfg(f)[b][k] == t as usize);
    assert(edge(cfg(f), b, t as int));
    walk_extends(cfg(f), none, a, b, t as int);
    assert(starts[a] && walks(cfg(f), none, a, t as int));
}

/// A block that no edge leads to cannot be got to.
proof fn lemma_orphan_dead(f: SFunc, b: int)
    requires
        blocks_wf(f),
        orphan(f, b),
    ensures
        !alive(f, b),
{
    let none = nowhere(f.blocks.len());
    let starts = only(f.blocks.len(), f.entry.0 as int);
    if alive(f, b) {
        let a = choose|a: int|
            0 <= a < cfg(f).len() && #[trigger] starts[a] && walks(cfg(f), none, a, b);
        let p = choose|p: Seq<int>| #[trigger]
            is_walk(cfg(f), none, p) && p[0] == a && p.last() == b;
        assert(p.len() > 1);
        let x = p[p.len() - 2];
        assert(edge(cfg(f), p[p.len() - 1 - 1], p[p.len() - 1]));
        assert(0 <= p[p.len() - 2] < f.blocks.len());
        let ss = super::super::cfg::successors(f.blocks[x].term);
        let k = choose|k: int| 0 <= k < ss.len() && ss[k] == b as usize;
        assert(targets(f.blocks[x].term)[k].to.0 == b);
    }
}

/// Pruning keeps a function well-formed, and takes out at least one block where it changes
/// it.
pub proof fn pruning_keeps(f: SFunc)
    requires
        blocks_wf(f),
        values_wf(f),
    ensures
        blocks_wf(pruned(f)),
        values_wf(pruned(f)),
        pruned(f).blocks.len() <= f.blocks.len(),
        prunes(f) ==> pruned(f).blocks.len() < f.blocks.len(),
        (exists|b: int| orphan(f, b)) ==> prunes(f),
{
    if exists|b: int| orphan(f, b) {
        let b = choose|b: int| orphan(f, b);
        lemma_orphan_dead(f, b);
    }
    if prunes(f) {
        let g = pruned(f);
        let n = f.blocks.len() as int;
        lemma_survivors(f, n);
        let dead = choose|b: int| 0 <= b < n && !(#[trigger] alive(f, b));
        lemma_rank(f, dead, n);
        lemma_entry_alive(f);
        lemma_rank(f, f.entry.0 as int, n);
        assert forall|i: int| 0 <= i < g.blocks.len() implies (#[trigger] g.blocks[i]).id.0 == i
            && term_in_range(g.blocks[i].term, g.blocks.len()) && block_in_range(
            g.blocks[i],
            f.values.len(),
        ) by {
            assert(survivors(f, n)[i] == g.blocks[i]);
            let b = choose|b: int|
                0 <= b < n && alive(f, b) && rank(f, b) == i && survivors(f, n)[i]
                    == #[trigger] renumbered(f, b);
            let to = |t: usize| rank(f, t as int) as usize;
            let x = f.blocks[b];
            assert(block_in_range(x, f.values.len()));
            retargeting_keeps(x.term, to);
            assert forall|k: int| 0 <= k < targets(g.blocks[i].term).len() implies (
            #[trigger] targets(g.blocks[i].term)[k]).to.0 < g.blocks.len() by {
                lemma_target_alive(f, b, k);
                assert(term_in_range(f.blocks[b].term, f.blocks.len()));
                let t = targets(x.term)[k].to.0 as int;
                assert(t < n);
                lemma_rank(f, t, n);
            }
        }
    }
}

// ---- computing it ----

/// Take out the blocks that cannot be got to.
pub fn drop_unreachable_blocks(f: &mut Func) -> (changed: bool)
    requires
        blocks_wf(old(f).sem()),
    ensures
        final(f).sem() == pruned(old(f).sem()),
        changed == prunes(old(f).sem()),
{
    let ghost s = f.sem();
    let n: usize = f.blocks.len();
    let g = graph_of(f);
    assert(adj(g@).len() == g.len());
    let none = none_of(n);
    let starts = only_one(n, f.entry.0 as usize);
    let hit = reachable(&g, &starts, &none);
    let mut ranks: Vec<usize> = Vec::new();
    let mut count: usize = 0;
    let mut all: bool = true;
    let mut b: usize = 0;
    while b < n
        invariant
            b <= n == hit.len(),
            forall|k: int| 0 <= k < n ==> #[trigger] hit[k] == alive(s, k),
            ranks.len() == b,
            forall|k: int| 0 <= k < b ==> #[trigger] ranks[k] == rank(s, k),
            count == rank(s, b as int),
            count <= b,
            all == forall|k: int| 0 <= k < b ==> #[trigger] alive(s, k),
        decreases n - b,
    {
        ranks.push(count);
        assert(hit[b as int] == alive(s, b as int));
        if hit[b] {
            count += 1;
        } else {
            all = false;
        }
        b += 1;
    }
    if all {
        return false;
    }
    assert(prunes(s));
    let ghost to = |t: usize| rank(s, t as int) as usize;
    let mut blocks: Vec<Block> = Vec::new();
    let mut b: usize = 0;
    assert(sems(blocks@) =~= survivors(s, 0));
    while b < n
        invariant
            b <= n == hit.len() == f.blocks.len() == s.blocks.len() == ranks.len(),
            n <= u32::MAX,
            s == f.sem(),
            blocks_wf(s),
            to == |t: usize| rank(s, t as int) as usize,
            forall|k: int| 0 <= k < n ==> #[trigger] hit[k] == alive(s, k),
            forall|k: int| 0 <= k < n ==> #[trigger] ranks[k] == rank(s, k),
            sems(blocks@) == survivors(s, b as int),
        decreases n - b,
    {
        if hit[b] {
            let x = &f.blocks[b];
            assert(s.blocks[b as int] == x.sem());
            assert(term_in_range(s.blocks[b as int].term, s.blocks.len()));
            assert forall|k: int| 0 <= k < ranks.len() implies (#[trigger] ranks[k])
                < ranks.len() by {
                lemma_rank(s, k, k);
            }
            let term = retarget(&x.term, &ranks);
            proof {
                let t = s.blocks[b as int].term;
                let other = |t: usize| ranks@[t as int];
                assert forall|k: int| 0 <= k < targets(t).len() implies other(
                    (#[trigger] targets(t)[k]).to.0 as usize,
                ) == to(targets(t)[k].to.0 as usize) by {
                    assert(ranks[targets(t)[k].to.0 as int] == rank(s, targets(t)[k].to.0 as int));
                }
                retargeting_agrees(t, other, to);
                lemma_rank(s, b as int, b as int);
            }
            let r: usize = ranks[b];
            let y = Block {
                id: BlockId(r as u32),
                params: copy_values(&x.params),
                insts: copy_insts(&x.insts),
                term,
            };
            assert(y.sem() == renumbered(s, b as int));
            let ghost before = blocks@;
            blocks.push(y);
            assert(sems(blocks@) =~= sems(before).push(y.sem()));
        }
        b += 1;
    }
    let e: usize = ranks[f.entry.0 as usize];
    proof {
        lemma_rank(s, s.entry.0 as int, s.entry.0 as int);
    }
    f.entry = BlockId(e as u32);
    f.blocks = blocks;
    true
}

} // verus!
