//! Merging a block into the one that jumps to it, where nothing else does.

use super::super::cfg::{cfg, graph_of, predecessors, preds, preds_turn_edges, successors};
use super::super::graph::{adj, edge};
use super::super::ssa::{
    block_in_range, blocks_wf, copy_insts, copy_values, inst_in_range, targets, term_in_range,
    term_operands, values_wf, Block, Func, SBlock, SFunc, STerm, Term, Value,
};
use super::operands::{
    put_inst, put_op_below, put_term, put_term_below, rewrite_inst, rewrite_term,
    term_operands_of_put,
};
use super::thread::orphan;
use crate::syntax::{sems, Node};
use vstd::prelude::*;

verus! {

/// Whether a block jumps to another that is not the entry and that no other edge leads to.
pub open spec fn fuses(f: SFunc, a: int) -> bool {
    f.blocks[a].term matches STerm::Jump(t) && {
        &&& t.to.0 != a
        &&& t.to.0 != f.entry.0
        &&& preds(cfg(f))[t.to.0 as int].len() == 1
    }
}

/// The first block from `a` on that can take in the one that it jumps to.
pub open spec fn next_fuse(f: SFunc, a: int) -> Option<int>
    decreases f.blocks.len() - a,
{
    if a >= f.blocks.len() {
        None
    } else if fuses(f, a) {
        Some(a)
    } else {
        next_fuse(f, a + 1)
    }
}

/// The blocks with the one that `a` jumps to taken in.
pub open spec fn spliced(f: SFunc, a: int) -> Seq<SBlock> {
    let t = f.blocks[a].term->Jump_0;
    let b = f.blocks[t.to.0 as int];
    f.blocks.update(
        a,
        SBlock { insts: f.blocks[a].insts + b.insts, term: b.term, ..f.blocks[a] },
    ).update(t.to.0 as int, SBlock { params: seq![], ..b })
}

pub open spec fn put_block(p: Seq<Value>, a: Seq<Value>, b: SBlock) -> SBlock {
    SBlock {
        insts: Seq::new(b.insts.len(), |k: int| put_inst(p, a, b.insts[k])),
        term: put_term(p, a, b.term),
        ..b
    }
}

/// A function with the block that `a` jumps to taken into `a`. Its parameters cease to be,
/// so throughout the function the arguments stand for them. The block itself is left, with
/// no edge to it.
pub open spec fn fused(f: SFunc, a: int) -> SFunc {
    let t = f.blocks[a].term->Jump_0;
    let p = f.blocks[t.to.0 as int].params;
    let bs = spliced(f, a);
    SFunc { blocks: Seq::new(bs.len(), |b: int| put_block(p, t.args, bs[b])), ..f }
}

/// A function after at most `n` mergers, each of the first block that can be merged.
pub open spec fn mergers(f: SFunc, n: nat) -> SFunc
    decreases n,
{
    match next_fuse(f, 0) {
        Some(a) => if n == 0 {
            f
        } else {
            mergers(fused(f, a), (n - 1) as nat)
        },
        None => f,
    }
}

/// A function with every block merged that can be. Each merger leaves one block fewer with
/// an edge to it, so there are no more than there are blocks.
pub open spec fn merged(f: SFunc) -> SFunc {
    mergers(f, f.blocks.len())
}

/// Whether a function has a block to merge.
pub open spec fn merges(f: SFunc) -> bool {
    next_fuse(f, 0) is Some
}

// ---- what merging keeps ----

proof fn lemma_edges(f: SFunc, x: int, b: int)
    requires
        blocks_wf(f),
        0 <= x < f.blocks.len(),
        0 <= b < f.blocks.len(),
    ensures
        edge(cfg(f), x, b) <==> exists|k: int|
            0 <= k < targets(f.blocks[x].term).len() && (#[trigger] targets(f.blocks[x].term)[k]).to.0
                == b,
{
    let ss = successors(f.blocks[x].term);
    let ts = targets(f.blocks[x].term);
    if edge(cfg(f), x, b) {
        let k = choose|k: int| 0 <= k < ss.len() && ss[k] == b as usize;
        assert(ts[k].to.0 == b);
    }
    if exists|k: int| 0 <= k < ts.len() && (#[trigger] ts[k]).to.0 == b {
        let k = choose|k: int| 0 <= k < ts.len() && (#[trigger] ts[k]).to.0 == b;
        assert(ss[k] == b as usize);
    }
}

/// Only the block that jumps to a merged one leads there.
proof fn lemma_only_edge(f: SFunc, a: int, x: int, k: int)
    requires
        blocks_wf(f),
        0 <= a < f.blocks.len(),
        fuses(f, a),
        0 <= x < f.blocks.len(),
        0 <= k < targets(f.blocks[x].term).len(),
        targets(f.blocks[x].term)[k].to == f.blocks[a].term->Jump_0.to,
    ensures
        x == a,
{
    let b = f.blocks[a].term->Jump_0.to.0 as int;
    let ts = targets(f.blocks[x].term);
    assert(term_in_range(f.blocks[x].term, f.blocks.len()));
    assert(ts[k].to.0 == b);
    lemma_edges(f, x, b);
    lemma_edges(f, a, b);
    assert(targets(f.blocks[a].term)[0].to.0 == b);
    preds_turn_edges(cfg(f), x, b);
    preds_turn_edges(cfg(f), a, b);
    let ps = preds(cfg(f))[b];
    let i = choose|i: int| 0 <= i < ps.len() && ps[i] == x as usize;
    let j = choose|j: int| 0 <= j < ps.len() && ps[j] == a as usize;
    assert(i == j);
}

/// Where the edges of a merged function lead, edges of the function led.
proof fn lemma_fused_edges(f: SFunc, a: int, x: int, k: int)
    requires
        blocks_wf(f),
        0 <= a < f.blocks.len(),
        fuses(f, a),
        0 <= x < f.blocks.len(),
        0 <= k < targets(fused(f, a).blocks[x].term).len(),
    ensures
        targets(fused(f, a).blocks[x].term)[k].to.0 < f.blocks.len(),
        ({
            let y = if x == a {
                f.blocks[a].term->Jump_0.to.0 as int
            } else {
                x
            };
            0 <= y < f.blocks.len() && k < targets(f.blocks[y].term).len() && targets(
                f.blocks[y].term,
            )[k].to == targets(fused(f, a).blocks[x].term)[k].to
        }),
{
    let t = f.blocks[a].term->Jump_0;
    assert(term_in_range(f.blocks[a].term, f.blocks.len()));
    assert(targets(f.blocks[a].term)[0] == t);
    let y = if x == a {
        t.to.0 as int
    } else {
        x
    };
    let p = f.blocks[t.to.0 as int].params;
    term_operands_of_put(p, t.args, f.blocks[y].term);
    assert(term_in_range(f.blocks[y].term, f.blocks.len()));
    assert(fused(f, a).blocks[x].term == put_term(p, t.args, f.blocks[y].term));
    assert(targets(f.blocks[y].term)[k].to.0 < f.blocks.len());
}

/// A merger keeps a function well-formed, leaves the merged block without an edge to it, and
/// gives no other block one.
pub proof fn fusing_keeps(f: SFunc, a: int)
    requires
        blocks_wf(f),
        values_wf(f),
        0 <= a < f.blocks.len(),
        fuses(f, a),
    ensures
        blocks_wf(fused(f, a)),
        values_wf(fused(f, a)),
        fused(f, a).blocks.len() == f.blocks.len(),
        orphan(fused(f, a), f.blocks[a].term->Jump_0.to.0 as int),
        !orphan(f, f.blocks[a].term->Jump_0.to.0 as int),
        forall|b: int| orphan(f, b) ==> orphan(fused(f, a), b),
{
    let g = fused(f, a);
    let t = f.blocks[a].term->Jump_0;
    let b = t.to.0 as int;
    let n = f.values.len();
    assert(term_in_range(f.blocks[a].term, f.blocks.len()));
    assert(targets(f.blocks[a].term)[0] == t);
    let p = f.blocks[b].params;
    assert(block_in_range(f.blocks[a], n));
    assert(block_in_range(f.blocks[b], n));
    assert(term_operands(f.blocks[a].term) == t.args);
    assert forall|x: int| 0 <= x < g.blocks.len() implies block_in_range(
        #[trigger] g.blocks[x],
        n,
    ) && g.blocks[x].id == f.blocks[x].id by {
        let y = spliced(f, a)[x];
        assert(block_in_range(f.blocks[x], n));
        assert forall|k: int| 0 <= k < y.insts.len() implies inst_in_range(
            #[trigger] g.blocks[x].insts[k],
            n,
        ) by {
            if x == a && k >= f.blocks[a].insts.len() {
                assert(inst_in_range(f.blocks[b].insts[k - f.blocks[a].insts.len()], n));
            } else {
                assert(inst_in_range(f.blocks[x].insts[k], n));
            }
            put_op_below(p, t.args, y.insts[k].op, n);
        }
        put_term_below(p, t.args, y.term, n);
    }
    assert forall|x: int| 0 <= x < g.blocks.len() implies term_in_range(
        (#[trigger] g.blocks[x]).term,
        g.blocks.len(),
    ) by {
        assert forall|k: int| 0 <= k < targets(g.blocks[x].term).len() implies (
        #[trigger] targets(g.blocks[x].term)[k]).to.0 < g.blocks.len() by {
            lemma_fused_edges(f, a, x, k);
        }
    }
    assert forall|x: int, k: int|
        0 <= x < g.blocks.len() && 0 <= k < targets(g.blocks[x].term).len() implies (
    #[trigger] targets(g.blocks[x].term)[k]).to.0 != b by {
        lemma_fused_edges(f, a, x, k);
        let y = if x == a {
            b
        } else {
            x
        };
        if targets(g.blocks[x].term)[k].to.0 == b {
            assert(targets(f.blocks[y].term)[k].to == t.to);
            lemma_only_edge(f, a, y, k);
        }
    }
    assert(orphan(g, b));
    assert forall|c: int| orphan(f, c) implies orphan(g, c) by {
        assert forall|x: int, k: int|
            0 <= x < g.blocks.len() && 0 <= k < targets(g.blocks[x].term).len() implies (
        #[trigger] targets(g.blocks[x].term)[k]).to.0 != c by {
            lemma_fused_edges(f, a, x, k);
            let y = if x == a {
                b
            } else {
                x
            };
            assert(targets(f.blocks[y].term)[k].to.0 != c);
        }
    }
}

pub proof fn lemma_next_fuse(f: SFunc, a: int)
    requires
        0 <= a,
    ensures
        next_fuse(f, a) matches Some(b) ==> a <= b < f.blocks.len() && fuses(f, b),
    decreases f.blocks.len() - a,
{
    if a < f.blocks.len() && !fuses(f, a) {
        lemma_next_fuse(f, a + 1);
    }
}

proof fn mergers_keep(f: SFunc, n: nat)
    requires
        blocks_wf(f),
        values_wf(f),
    ensures
        blocks_wf(mergers(f, n)),
        values_wf(mergers(f, n)),
        mergers(f, n).blocks.len() == f.blocks.len(),
        forall|b: int| orphan(f, b) ==> orphan(mergers(f, n), b),
        n > 0 && merges(f) ==> exists|b: int| orphan(mergers(f, n), b),
    decreases n,
{
    lemma_next_fuse(f, 0);
    if let Some(a) = next_fuse(f, 0) {
        if n > 0 {
            let g = fused(f, a);
            fusing_keeps(f, a);
            mergers_keep(g, (n - 1) as nat);
            assert(orphan(mergers(g, (n - 1) as nat), f.blocks[a].term->Jump_0.to.0 as int));
        }
    }
}

/// Merging keeps a function well-formed. Where it changes a function, it leaves a block that
/// no edge leads to.
pub proof fn merging_keeps(f: SFunc)
    requires
        blocks_wf(f),
        values_wf(f),
    ensures
        blocks_wf(merged(f)),
        values_wf(merged(f)),
        merged(f).blocks.len() == f.blocks.len(),
        forall|b: int| orphan(f, b) ==> orphan(merged(f), b),
        merges(f) ==> exists|b: int| orphan(merged(f), b),
        !merges(f) ==> merged(f) == f,
{
    mergers_keep(f, f.blocks.len());
}

/// How many of the first `n` blocks an edge leads to, or are the entry.
spec fn led_to(f: SFunc, n: int) -> nat
    decreases n,
{
    if n <= 0 {
        0
    } else {
        led_to(f, n - 1) + if orphan(f, n - 1) {
            0nat
        } else {
            1nat
        }
    }
}

proof fn lemma_led_to(f: SFunc, g: SFunc, c: int, n: int)
    requires
        forall|b: int| orphan(f, b) ==> orphan(g, b),
        0 <= n <= f.blocks.len(),
    ensures
        led_to(g, n) <= led_to(f, n) <= n,
        0 <= c < n && orphan(g, c) && !orphan(f, c) ==> led_to(g, n) < led_to(f, n),
    decreases n,
{
    if n > 0 {
        lemma_led_to(f, g, c, n - 1);
    }
}

proof fn mergers_finish(f: SFunc, n: nat)
    requires
        blocks_wf(f),
        values_wf(f),
        led_to(f, f.blocks.len() as int) <= n,
    ensures
        !merges(mergers(f, n)),
    decreases n,
{
    lemma_next_fuse(f, 0);
    if let Some(a) = next_fuse(f, 0) {
        let g = fused(f, a);
        let b = f.blocks[a].term->Jump_0.to.0 as int;
        fusing_keeps(f, a);
        lemma_led_to(f, g, b, f.blocks.len() as int);
        mergers_finish(g, (n - 1) as nat);
    }
}

/// After merging there is nothing left to merge.
pub proof fn merging_finishes(f: SFunc)
    requires
        blocks_wf(f),
        values_wf(f),
    ensures
        !merges(merged(f)),
{
    lemma_led_to(f, f, 0, f.blocks.len() as int);
    mergers_finish(f, f.blocks.len());
}

// ---- computing it ----

fn find_fuse(f: &Func) -> (r: Option<usize>)
    requires
        blocks_wf(f.sem()),
    ensures
        match r {
            Some(a) => next_fuse(f.sem(), 0) == Some(a as int) && a < f.blocks.len() && fuses(
                f.sem(),
                a as int,
            ),
            None => next_fuse(f.sem(), 0) is None,
        },
{
    let ghost s = f.sem();
    let g = graph_of(f);
    let back = predecessors(&g);
    assert(adj(g@).len() == g.len());
    assert(adj(back@).len() == back.len());
    let mut a: usize = 0;
    while a < f.blocks.len()
        invariant
            a <= f.blocks.len() == back.len(),
            s == f.sem(),
            blocks_wf(s),
            s.blocks.len() == f.blocks.len(),
            adj(back@) == preds(cfg(s)),
            next_fuse(s, 0) == next_fuse(s, a as int),
        decreases f.blocks.len() - a,
    {
        assert(s.blocks[a as int] == f.blocks[a as int].sem());
        assert(term_in_range(s.blocks[a as int].term, s.blocks.len()));
        if let Term::Jump(t) = &f.blocks[a].term {
            assert(targets(s.blocks[a as int].term)[0] == t.sem());
            let b: usize = t.to.0 as usize;
            assert(adj(back@)[b as int] == back[b as int]@);
            if b != a && b != f.entry.0 as usize && back[b].len() == 1 {
                return Some(a);
            }
        }
        a += 1;
    }
    None
}

fn put_into(b: &mut Block, p: &Vec<Value>, args: &Vec<Value>)
    ensures
        final(b).sem() == put_block(p@, args@, old(b).sem()),
{
    let ghost s = b.sem();
    let mut k: usize = 0;
    while k < b.insts.len()
        invariant
            k <= b.insts.len() == s.insts.len(),
            b.id == old(b).id,
            b.params == old(b).params,
            b.term == old(b).term,
            s == old(b).sem(),
            forall|j: int|
                0 <= j < k ==> (#[trigger] b.insts[j]).sem() == put_inst(p@, args@, s.insts[j]),
            forall|j: int|
                k <= j < b.insts.len() ==> (#[trigger] b.insts[j]).sem() == s.insts[j],
        decreases s.insts.len() - k,
    {
        assert(b.insts[k as int].sem() == s.insts[k as int]);
        let i = rewrite_inst(&b.insts[k], p, args);
        b.insts.set(k, i);
        k += 1;
    }
    assert(sems(b.insts@) =~= put_block(p@, args@, s).insts);
    let t = rewrite_term(&b.term, p, args);
    b.term = t;
}

/// Take the block that `a` jumps to into `a`.
fn fuse(f: &mut Func, a: usize)
    requires
        blocks_wf(old(f).sem()),
        a < old(f).blocks.len(),
        fuses(old(f).sem(), a as int),
    ensures
        final(f).sem() == fused(old(f).sem(), a as int),
{
    let ghost s = f.sem();
    assert(s.blocks[a as int] == f.blocks[a as int].sem());
    assert(term_in_range(s.blocks[a as int].term, s.blocks.len()));
    if let Term::Jump(t) = &f.blocks[a].term {
        assert(targets(s.blocks[a as int].term)[0] == t.sem());
        let ghost st = t.sem();
        assert(s.blocks[a as int].term == STerm::Jump(st));
        let b: usize = t.to.0 as usize;
        let args = copy_values(&t.args);
        assert(s.blocks[b as int] == f.blocks[b as int].sem());
        let params = copy_values(&f.blocks[b].params);
        let mut insts = copy_insts(&f.blocks[a].insts);
        let mut more = copy_insts(&f.blocks[b].insts);
        let ghost (i1, i2) = (insts@, more@);
        insts.append(&mut more);
        assert(sems(insts@) =~= sems(i1) + sems(i2));
        let term = f.blocks[b].term.clone();
        f.blocks[a].insts = insts;
        f.blocks[a].term = term;
        f.blocks[b].params = Vec::new();
        let ghost bs = spliced(s, a as int);
        assert(f.blocks[b as int].params@ =~= seq![]);
        assert(f.blocks[a as int].sem() == bs[a as int]);
        assert(f.blocks[b as int].sem() == bs[b as int]);
        assert forall|c: int| 0 <= c < f.blocks.len() implies (#[trigger] f.blocks[c]).sem()
            == bs[c] by {
            if c != a && c != b {
                assert(s.blocks[c] == old(f).blocks[c].sem());
            }
        }
        let n: usize = f.blocks.len();
        let mut c: usize = 0;
        while c < n
            invariant
                c <= n == f.blocks.len() == bs.len(),
                f.sem() == (SFunc { blocks: sems(f.blocks@), ..s }),
                forall|j: int|
                    0 <= j < c ==> (#[trigger] f.blocks[j]).sem() == put_block(
                        params@,
                        args@,
                        bs[j],
                    ),
                forall|j: int| c <= j < n ==> (#[trigger] f.blocks[j]).sem() == bs[j],
            decreases n - c,
        {
            assert(f.blocks[c as int].sem() == bs[c as int]);
            put_into(&mut f.blocks[c], &params, &args);
            c += 1;
        }
        assert(sems(f.blocks@) =~= fused(s, a as int).blocks);
    }
}

/// Merge every block that can be into the one that jumps to it.
pub fn merge_single_pred(f: &mut Func) -> (changed: bool)
    requires
        blocks_wf(old(f).sem()),
        values_wf(old(f).sem()),
    ensures
        final(f).sem() == merged(old(f).sem()),
        changed == merges(old(f).sem()),
{
    let ghost s = f.sem();
    let mut changed: bool = false;
    let mut left: usize = f.blocks.len();
    while left > 0
        invariant
            s == old(f).sem(),
            blocks_wf(f.sem()),
            values_wf(f.sem()),
            !changed ==> left == s.blocks.len(),
            merged(s) == mergers(f.sem(), left as nat),
            changed || f.sem() == s,
            changed ==> merges(s),
        decreases left,
    {
        match find_fuse(f) {
            Some(a) => {
                proof {
                    fusing_keeps(f.sem(), a as int);
                }
                fuse(f, a);
                changed = true;
                left -= 1;
            },
            None => {
                return changed;
            },
        }
    }
    assert(mergers(f.sem(), 0) == f.sem());
    if !changed {
        assert(s.blocks.len() == 0);
    }
    changed
}

} // verus!
