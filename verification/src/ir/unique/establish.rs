//! Making sure that a list stands alone where a loop is entered.
//!
//! Nothing in a function tells whether its caller holds another reference to a list. So on
//! every edge into the loop the list is made unique, which copies it at most once.

use super::super::cfg::{cfg, graph_of, targets_of};
use super::super::partial::position_from;
use super::super::refcount::edge_count;
use super::super::repr::Repr;
use super::super::ssa::{
    arm_args, arms_sem, block_in_range, blocks_wf, copy_values, inst_in_range, operands, targets,
    term_in_range, term_operands, values_below, values_wf, Block, BlockId, Func, Inst, Op, SBlock,
    SFunc, SInst, SOp, SSwitchKey, STarget, STerm, SValueData, SwitchKey, Target, Term, Value,
};
use super::back::{back_edges, find_back_edges};
use crate::syntax::{sems, Node};
use crate::types::TyId;
use vstd::prelude::*;

verus! {

/// The parameter of a header that a list comes in by.
pub struct Gate {
    pub header: usize,
    pub slot: usize,
}

/// Whether an edge brings a list in.
pub open spec fn enters(t: STarget, g: Gate) -> bool {
    t.to.0 == g.header && g.slot < t.args.len()
}

pub open spec fn made_unique(v: Value, result: Value) -> SInst {
    SInst {
        result: Some(result),
        op: SOp::Native { symbol: "neon_list_ensure_unique"@, args: seq![v] },
    }
}

/// How many of the first `n` edges bring a list in.
pub open spec fn entering(ts: Seq<STarget>, g: Gate, n: int) -> nat
    decreases n,
{
    if n <= 0 {
        0
    } else {
        entering(ts, g, n - 1) + if enters(ts[n - 1], g) {
            1nat
        } else {
            0nat
        }
    }
}

/// Where an edge goes once every one that brings a list in has a block of its own, the
/// first of them `base`.
pub open spec fn diverted_edge(ts: Seq<STarget>, g: Gate, base: int, k: int) -> STarget {
    if enters(ts[k], g) {
        STarget { to: BlockId((base + entering(ts, g, k)) as u32), args: seq![] }
    } else {
        ts[k]
    }
}

pub open spec fn diverted(t: STerm, g: Gate, base: int) -> STerm {
    let ts = targets(t);
    match t {
        STerm::Jump(_) => STerm::Jump(diverted_edge(ts, g, base, 0)),
        STerm::Branch { cond, .. } => STerm::Branch {
            cond,
            then: diverted_edge(ts, g, base, 0),
            els: diverted_edge(ts, g, base, 1),
        },
        STerm::Switch { on, arms, .. } => STerm::Switch {
            on,
            arms: Seq::new(arms.len(), |i: int| (arms[i].0, diverted_edge(ts, g, base, i))),
            default: diverted_edge(ts, g, base, arms.len() as int),
        },
        _ => t,
    }
}

/// The block of one edge: the list is made unique, and goes on as it did.
pub open spec fn edge_block(t: STarget, g: Gate, id: int, result: Value) -> SBlock {
    SBlock {
        id: BlockId(id as u32),
        params: seq![],
        insts: seq![made_unique(t.args[g.slot as int], result)],
        term: STerm::Jump(STarget { to: t.to, args: t.args.update(g.slot as int, result) }),
    }
}

/// The blocks of those of the first `n` edges that bring a list in.
pub open spec fn edge_blocks(ts: Seq<STarget>, g: Gate, base: int, next: int, n: int) -> Seq<SBlock>
    decreases n,
{
    if n <= 0 {
        seq![]
    } else {
        let before = edge_blocks(ts, g, base, next, n - 1);
        if enters(ts[n - 1], g) {
            before.push(
                edge_block(
                    ts[n - 1],
                    g,
                    base + before.len(),
                    Value((next + before.len()) as u32),
                ),
            )
        } else {
            before
        }
    }
}

pub open spec fn more_values(values: Seq<SValueData>, d: SValueData, n: nat) -> Seq<SValueData> {
    values + Seq::new(n, |i: int| d)
}

/// A function with the list made unique on the edges that leave one block.
///
/// A block that jumps takes the call in. One that branches gets a block for each edge, so
/// that its other edges do not pay for it.
pub open spec fn gated_block(f: SFunc, g: Gate, d: SValueData, b: int) -> SFunc {
    let x = f.blocks[b];
    let next = f.values.len() as int;
    match x.term {
        STerm::Jump(t) => if enters(t, g) {
            SFunc {
                blocks: f.blocks.update(
                    b,
                    SBlock {
                        insts: x.insts.push(made_unique(t.args[g.slot as int], Value(next as u32))),
                        term: STerm::Jump(
                            STarget {
                                to: t.to,
                                args: t.args.update(g.slot as int, Value(next as u32)),
                            },
                        ),
                        ..x
                    },
                ),
                values: more_values(f.values, d, 1),
                ..f
            }
        } else {
            f
        },
        _ => {
            let ts = targets(x.term);
            let base = f.blocks.len() as int;
            SFunc {
                blocks: f.blocks.update(b, SBlock { term: diverted(x.term, g, base), ..x })
                    + edge_blocks(ts, g, base, next, ts.len() as int),
                values: more_values(f.values, d, entering(ts, g, ts.len() as int)),
                ..f
            }
        },
    }
}

/// A function with the list made unique on the edges that leave the first `n` blocks, but
/// for those that close the loop.
pub open spec fn gated(
    f: SFunc,
    g: Gate,
    d: SValueData,
    backs: Seq<(usize, usize)>,
    n: int,
) -> SFunc
    decreases n,
{
    if n <= 0 {
        f
    } else {
        let h = gated(f, g, d, backs, n - 1);
        if backs.contains(((n - 1) as usize, g.header)) {
            h
        } else {
            gated_block(h, g, d, n - 1)
        }
    }
}

/// A function with the list that goes round a loop made unique wherever the loop is entered.
pub open spec fn established(f: SFunc, header: usize, param: Value) -> SFunc {
    match position_from(f.blocks[header as int].params, param, 0) {
        Some(slot) => gated(
            f,
            Gate { header, slot: slot as usize },
            f.values[param.0 as int],
            back_edges(cfg(f), f.entry.0 as usize),
            f.blocks.len() as int,
        ),
        None => f,
    }
}

// ---- what it keeps ----

proof fn lemma_edge_blocks(ts: Seq<STarget>, g: Gate, base: int, next: int, n: int)
    requires
        0 <= n <= ts.len(),
    ensures
        edge_blocks(ts, g, base, next, n).len() == entering(ts, g, n),
        entering(ts, g, n) <= n,
    decreases n,
{
    if n > 0 {
        lemma_edge_blocks(ts, g, base, next, n - 1);
    }
}

proof fn lemma_entering_grows(ts: Seq<STarget>, g: Gate, m: int, n: int)
    requires
        0 <= m <= n,
    ensures
        entering(ts, g, m) <= entering(ts, g, n),
        m < n && enters(ts[m], g) ==> entering(ts, g, m) < entering(ts, g, n),
    decreases n,
{
    if m < n {
        lemma_entering_grows(ts, g, m, n - 1);
    }
}

proof fn lemma_targets_diverted(t: STerm, g: Gate, base: int)
    ensures
        targets(diverted(t, g, base)).len() == targets(t).len(),
        forall|k: int|
            0 <= k < targets(t).len() ==> #[trigger] targets(diverted(t, g, base))[k]
                == diverted_edge(targets(t), g, base, k),
{
    match t {
        STerm::Switch { on, arms, default } => {
            let ts = targets(diverted(t, g, base));
            assert(ts.len() == arms.len() + 1);
        },
        _ => {},
    }
}

proof fn lemma_arm_args_fewer(
    xs: Seq<(SSwitchKey, STarget)>,
    ys: Seq<(SSwitchKey, STarget)>,
    m: nat,
)
    requires
        xs.len() == ys.len(),
        values_below(arm_args(xs), m),
        forall|i: int|
            0 <= i < xs.len() ==> (#[trigger] ys[i]).1.args.len() == 0 || ys[i].1.args
                == xs[i].1.args,
    ensures
        values_below(arm_args(ys), m),
    decreases xs.len(),
{
    if xs.len() > 0 {
        let a = arm_args(xs.drop_last());
        let b = xs.last().1.args;
        assert(arm_args(xs) =~= a + b);
        assert forall|i: int| 0 <= i < a.len() implies (#[trigger] a[i]).0 < m by {
            assert(arm_args(xs)[i] == a[i]);
        }
        assert forall|i: int| 0 <= i < b.len() implies (#[trigger] b[i]).0 < m by {
            assert(arm_args(xs)[a.len() + i] == b[i]);
        }
        assert forall|i: int| 0 <= i < xs.drop_last().len() implies (
        #[trigger] ys.drop_last()[i]).1.args.len() == 0 || ys.drop_last()[i].1.args
            == xs.drop_last()[i].1.args by {
            assert(ys[i].1.args.len() == 0 || ys[i].1.args == xs[i].1.args);
        }
        lemma_arm_args_fewer(xs.drop_last(), ys.drop_last(), m);
        let l = ys.len() - 1;
        assert(ys[l].1.args.len() == 0 || ys[l].1.args == xs[l].1.args);
    }
}

proof fn lemma_diverted_below(t: STerm, g: Gate, base: int, m: nat)
    requires
        values_below(term_operands(t), m),
    ensures
        values_below(term_operands(diverted(t, g, base)), m),
{
    let all = term_operands(t);
    let d = diverted(t, g, base);
    match t {
        STerm::Jump(x) => {},
        STerm::Branch { cond, then, els } => {
            assert(all[0] == cond);
            super::uses::lemma_edge_args_below(t, 0, m);
            super::uses::lemma_edge_args_below(t, 1, m);
            assert(targets(t)[0] == then);
            assert(targets(t)[1] == els);
        },
        STerm::Switch { on, arms, default } => {
            assert(all[0] == on);
            let xs = arm_args(arms);
            assert forall|i: int| 0 <= i < xs.len() implies (#[trigger] xs[i]).0 < m by {
                assert(all[1 + i] == xs[i]);
            }
            super::uses::lemma_edge_args_below(t, arms.len() as int, m);
            assert(targets(t)[arms.len() as int] == default);
            let ys = d->Switch_arms;
            assert forall|i: int| 0 <= i < arms.len() implies (#[trigger] ys[i]).1.args.len() == 0
                || ys[i].1.args == arms[i].1.args by {
                assert(targets(t)[i] == arms[i].1);
            }
            lemma_arm_args_fewer(arms, ys, m);
        },
        _ => {},
    }
}

proof fn lemma_edge_blocks_wf(
    ts: Seq<STarget>,
    g: Gate,
    base: int,
    next: int,
    n: int,
    blocks: nat,
    values: nat,
)
    requires
        0 <= n <= ts.len(),
        0 <= base,
        0 <= next,
        base + entering(ts, g, n) <= u32::MAX,
        next + entering(ts, g, n) <= values <= u32::MAX,
        forall|k: int|
            0 <= k < ts.len() ==> (#[trigger] ts[k]).to.0 < blocks && values_below(
                ts[k].args,
                next as nat,
            ),
    ensures
        forall|j: int|
            0 <= j < edge_blocks(ts, g, base, next, n).len() ==> {
                let x = #[trigger] edge_blocks(ts, g, base, next, n)[j];
                x.id.0 == base + j && term_in_range(x.term, blocks) && block_in_range(x, values)
            },
    decreases n,
{
    if n > 0 {
        lemma_edge_blocks_wf(ts, g, base, next, n - 1, blocks, values);
        lemma_edge_blocks(ts, g, base, next, n - 1);
        let before = edge_blocks(ts, g, base, next, n - 1);
        let all = edge_blocks(ts, g, base, next, n);
        let t = ts[n - 1];
        assert forall|j: int| 0 <= j < all.len() implies {
            let x = #[trigger] all[j];
            x.id.0 == base + j && term_in_range(x.term, blocks) && block_in_range(x, values)
        } by {
            if j < before.len() {
                assert(all[j] == before[j]);
            } else {
                let x = all[j];
                let v = Value((next + before.len()) as u32);
                assert(x == edge_block(t, g, base + before.len(), v));
                let i = x.insts[0];
                assert(operands(i.op) =~= seq![t.args[g.slot as int]]);
                assert(t.args[g.slot as int].0 < next);
                assert(inst_in_range(i, values));
                assert forall|a: int| 0 <= a < term_operands(x.term).len() implies (
                #[trigger] term_operands(x.term)[a]).0 < values by {
                    if a != g.slot {
                        assert(t.args[a].0 < next);
                    }
                }
                assert(targets(x.term) =~= seq![x.term->Jump_0]);
            }
        }
    }
}

/// One step keeps a function well-formed, as long as there are numbers left.
proof fn gated_block_keeps(f: SFunc, g: Gate, d: SValueData, b: int)
    requires
        blocks_wf(f),
        values_wf(f),
        0 <= b < f.blocks.len(),
        gated_block(f, g, d, b).blocks.len() <= u32::MAX,
        gated_block(f, g, d, b).values.len() <= u32::MAX,
    ensures
        blocks_wf(gated_block(f, g, d, b)),
        values_wf(gated_block(f, g, d, b)),
{
    let x = f.blocks[b];
    let next = f.values.len() as int;
    let h = gated_block(f, g, d, b);
    let m = h.values.len();
    let ts = targets(x.term);
    let n = ts.len() as int;
    let base = f.blocks.len() as int;
    assert(block_in_range(x, f.values.len()));
    assert(term_in_range(f.blocks[b].term, f.blocks.len()));
    assert(f.values.len() <= m);
    lemma_edge_blocks(ts, g, base, next, n);
    assert forall|k: int| 0 <= k < ts.len() implies (#[trigger] ts[k]).to.0 < h.blocks.len()
        && values_below(ts[k].args, next as nat) by {
        super::uses::lemma_edge_args_below(x.term, k, f.values.len());
    }
    if !(x.term is Jump) {
        lemma_edge_blocks_wf(ts, g, base, next, n, h.blocks.len(), m);
        lemma_targets_diverted(x.term, g, base);
        lemma_diverted_below(x.term, g, base, f.values.len());
    }
    assert forall|c: int| 0 <= c < h.blocks.len() implies (#[trigger] h.blocks[c]).id.0 == c
        && term_in_range(h.blocks[c].term, h.blocks.len()) && block_in_range(h.blocks[c], m) by {
        if c < base {
            assert(block_in_range(f.blocks[c], f.values.len()));
            assert(f.blocks[c].id.0 == c);
            assert(term_in_range(f.blocks[c].term, f.blocks.len()));
            let y = h.blocks[c];
            assert forall|k: int| 0 <= k < y.insts.len() implies inst_in_range(
                #[trigger] y.insts[k],
                m,
            ) by {
                if k < f.blocks[c].insts.len() {
                    assert(inst_in_range(f.blocks[c].insts[k], f.values.len()));
                } else {
                    assert(operands(y.insts[k].op) =~= seq![
                        x.term->Jump_0.args[g.slot as int],
                    ]);
                    assert(ts[0] == x.term->Jump_0);
                }
            }
            if c == b {
                if let STerm::Jump(t) = x.term {
                    assert(ts[0] == t);
                    assert forall|a: int| 0 <= a < term_operands(y.term).len() implies (
                    #[trigger] term_operands(y.term)[a]).0 < m by {
                        if a != g.slot {
                            assert(t.args[a].0 < next);
                        }
                    }
                    assert(targets(y.term) =~= seq![y.term->Jump_0]);
                } else {
                    assert forall|k: int| 0 <= k < targets(y.term).len() implies (
                    #[trigger] targets(y.term)[k]).to.0 < h.blocks.len() by {
                        assert(ts[k].to.0 < f.blocks.len());
                        lemma_entering_grows(ts, g, k, n);
                    }
                }
            }
        } else {
            let es = edge_blocks(ts, g, base, next, n);
            assert(h.blocks[c] == es[c - base]);
        }
    }
    assert forall|i: int| 0 <= i < h.params.len() implies (#[trigger] h.params[i]).0 < m by {
        assert(f.params[i].0 < f.values.len());
    }
}

proof fn lemma_gated_block_grows(f: SFunc, g: Gate, d: SValueData, b: int)
    requires
        0 <= b < f.blocks.len(),
    ensures
        gated_block(f, g, d, b).blocks.len() >= f.blocks.len(),
        gated_block(f, g, d, b).values.len() >= f.values.len(),
        gated_block(f, g, d, b).entry == f.entry,
{
}

proof fn lemma_gated_grows(
    f: SFunc,
    g: Gate,
    d: SValueData,
    backs: Seq<(usize, usize)>,
    m: int,
    n: int,
)
    requires
        0 <= m <= n <= f.blocks.len(),
    ensures
        gated(f, g, d, backs, m).blocks.len() <= gated(f, g, d, backs, n).blocks.len(),
        gated(f, g, d, backs, m).values.len() <= gated(f, g, d, backs, n).values.len(),
        gated(f, g, d, backs, n).blocks.len() >= f.blocks.len(),
        gated(f, g, d, backs, n).values.len() >= f.values.len(),
        gated(f, g, d, backs, n).entry == f.entry,
    decreases n,
{
    if n > 0 {
        if m < n {
            lemma_gated_grows(f, g, d, backs, m, n - 1);
        } else {
            lemma_gated_grows(f, g, d, backs, m - 1, n - 1);
        }
        let h = gated(f, g, d, backs, n - 1);
        lemma_gated_block_grows(h, g, d, n - 1);
    }
}

proof fn lemma_gated_wf(
    f: SFunc,
    g: Gate,
    d: SValueData,
    backs: Seq<(usize, usize)>,
    n: int,
)
    requires
        blocks_wf(f),
        values_wf(f),
        0 <= n <= f.blocks.len(),
        gated(f, g, d, backs, n).blocks.len() <= u32::MAX,
        gated(f, g, d, backs, n).values.len() <= u32::MAX,
    ensures
        blocks_wf(gated(f, g, d, backs, n)),
        values_wf(gated(f, g, d, backs, n)),
    decreases n,
{
    if n > 0 {
        lemma_gated_grows(f, g, d, backs, n - 1, n);
        lemma_gated_grows(f, g, d, backs, 0, n - 1);
        lemma_gated_wf(f, g, d, backs, n - 1);
        if !backs.contains(((n - 1) as usize, g.header)) {
            gated_block_keeps(gated(f, g, d, backs, n - 1), g, d, n - 1);
        }
    }
}

/// Making a list unique at a loop's entry only adds blocks and values.
pub proof fn establishing_grows(f: SFunc, header: usize, param: Value)
    ensures
        established(f, header, param).blocks.len() >= f.blocks.len(),
        established(f, header, param).values.len() >= f.values.len(),
{
    if let Some(slot) = position_from(f.blocks[header as int].params, param, 0) {
        let g = Gate { header, slot: slot as usize };
        let d = f.values[param.0 as int];
        let backs = back_edges(cfg(f), f.entry.0 as usize);
        lemma_gated_grows(f, g, d, backs, 0, f.blocks.len() as int);
    }
}

proof fn lemma_gated_bound(f: SFunc, g: Gate, d: SValueData, backs: Seq<(usize, usize)>, n: int)
    requires
        0 <= n <= f.blocks.len(),
    ensures
        gated(f, g, d, backs, n).blocks.len() <= f.blocks.len() + edge_count(f, n),
        gated(f, g, d, backs, n).values.len() <= f.values.len() + edge_count(f, n),
        gated(f, g, d, backs, n).blocks.len() >= f.blocks.len(),
        forall|b: int|
            n <= b < f.blocks.len() ==> #[trigger] gated(f, g, d, backs, n).blocks[b]
                == f.blocks[b],
    decreases n,
{
    if n > 0 {
        lemma_gated_bound(f, g, d, backs, n - 1);
        let h = gated(f, g, d, backs, n - 1);
        let ts = targets(h.blocks[n - 1].term);
        assert(h.blocks[n - 1] == f.blocks[n - 1]);
        lemma_edge_blocks(
            ts,
            g,
            h.blocks.len() as int,
            h.values.len() as int,
            ts.len() as int,
        );
    }
}

/// Making a list unique at a loop's entry adds no more blocks or values than there are edges.
pub proof fn establishing_adds_for_edges(f: SFunc, header: usize, param: Value)
    ensures
        established(f, header, param).blocks.len() <= f.blocks.len() + edge_count(
            f,
            f.blocks.len() as int,
        ),
        established(f, header, param).values.len() <= f.values.len() + edge_count(
            f,
            f.blocks.len() as int,
        ),
{
    if let Some(slot) = position_from(f.blocks[header as int].params, param, 0) {
        let g = Gate { header, slot: slot as usize };
        let d = f.values[param.0 as int];
        let backs = back_edges(cfg(f), f.entry.0 as usize);
        lemma_gated_bound(f, g, d, backs, f.blocks.len() as int);
    }
}

/// Making a list unique at a loop's entry keeps a function well-formed as long as there are
/// numbers for what it adds.
pub proof fn establishing_keeps(f: SFunc, header: usize, param: Value)
    requires
        blocks_wf(f),
        values_wf(f),
        established(f, header, param).blocks.len() <= u32::MAX,
        established(f, header, param).values.len() <= u32::MAX,
    ensures
        blocks_wf(established(f, header, param)),
        values_wf(established(f, header, param)),
{
    if let Some(slot) = position_from(f.blocks[header as int].params, param, 0) {
        let g = Gate { header, slot: slot as usize };
        let d = f.values[param.0 as int];
        let backs = back_edges(cfg(f), f.entry.0 as usize);
        lemma_gated_wf(f, g, d, backs, f.blocks.len() as int);
    }
}

// ---- doing it ----

fn ensure_unique(v: Value, result: Value) -> (i: Inst)
    ensures
        i.sem() == made_unique(v, result),
{
    let mut args: Vec<Value> = Vec::new();
    args.push(v);
    assert(args@ =~= seq![v]);
    let op = Op::Native { symbol: "neon_list_ensure_unique".to_owned(), args };
    assert(op.sem() == SOp::Native { symbol: "neon_list_ensure_unique"@, args: seq![v] });
    Inst { result: Some(result), op }
}

fn does_enter(t: &Target, g: &Gate) -> (r: bool)
    ensures
        r == enters(t.sem(), *g),
{
    t.to.0 as usize == g.header && g.slot < t.args.len()
}

fn divert_edge(t: &Target, g: &Gate, id: usize) -> (r: Target)
    requires
        id <= u32::MAX,
    ensures
        r.sem() == if enters(t.sem(), *g) {
            STarget { to: BlockId(id as u32), args: seq![] }
        } else {
            t.sem()
        },
{
    if does_enter(t, g) {
        let r = Target { to: BlockId(id as u32), args: Vec::new() };
        assert(r.args@ =~= seq![]);
        r
    } else {
        t.clone()
    }
}

fn divert(t: &Term, g: &Gate, base: usize) -> (r: Term)
    requires
        base + entering(targets(t.sem()), *g, targets(t.sem()).len() as int) <= u32::MAX,
    ensures
        r.sem() == diverted(t.sem(), *g, base as int),
{
    let ghost ts = targets(t.sem());
    match t {
        Term::Jump(x) => {
            assert(ts[0] == x.sem());
            Term::Jump(divert_edge(x, g, base))
        },
        Term::Branch { cond, then, els } => {
            assert(ts[0] == then.sem());
            assert(ts[1] == els.sem());
            let first = does_enter(then, g);
            assert(entering(ts, *g, 1) == entering(ts, *g, 0) + if first {
                1nat
            } else {
                0nat
            });
            proof {
                lemma_entering_grows(ts, *g, 1, ts.len() as int);
                lemma_entering_grows(ts, *g, 0, 1);
            }
            let second: usize = if first {
                base + 1
            } else {
                base
            };
            Term::Branch {
                cond: *cond,
                then: divert_edge(then, g, base),
                els: divert_edge(els, g, second),
            }
        },
        Term::Switch { on, arms, default } => {
            let ghost before = arms_sem(arms@);
            let mut id: usize = base;
            let mut rs: Vec<(SwitchKey, Target)> = Vec::new();
            let mut i: usize = 0;
            while i < arms.len()
                invariant
                    i <= arms.len(),
                    ts == targets(t.sem()),
                    t.sem() is Switch,
                    t.sem()->Switch_arms == arms_sem(arms@),
                    ts.len() == arms.len() + 1,
                    base + entering(ts, *g, ts.len() as int) <= u32::MAX,
                    id == base + entering(ts, *g, i as int),
                    rs.len() == i,
                    forall|k: int|
                        0 <= k < i ==> (#[trigger] rs[k]).0.sem() == arms[k].0.sem()
                            && rs[k].1.sem() == diverted_edge(ts, *g, base as int, k),
                decreases arms.len() - i,
            {
                assert(ts[i as int] == arms[i as int].1.sem());
                proof {
                    lemma_entering_grows(ts, *g, i as int, ts.len() as int);
                    lemma_entering_grows(ts, *g, i + 1, ts.len() as int);
                }
                rs.push((arms[i].0.clone(), divert_edge(&arms[i].1, g, id)));
                if does_enter(&arms[i].1, g) {
                    id += 1;
                }
                i += 1;
            }
            assert(ts[arms.len() as int] == default.sem());
            proof {
                lemma_entering_grows(ts, *g, arms.len() as int, ts.len() as int);
            }
            assert(arms_sem(rs@) =~= Seq::new(
                before.len(),
                |i: int| (before[i].0, diverted_edge(ts, *g, base as int, i)),
            ));
            Term::Switch { on: *on, arms: rs, default: divert_edge(default, g, id) }
        },
        _ => t.clone(),
    }
}

fn with_arg(args: &Vec<Value>, slot: usize, v: Value) -> (r: Vec<Value>)
    requires
        slot < args.len(),
    ensures
        r@ == args@.update(slot as int, v),
{
    let mut r = copy_values(args);
    r.set(slot, v);
    r
}

/// Make the list unique on the edges that leave one block.
fn gate_block(f: &mut Func, g: &Gate, repr: &Repr, ty: TyId, b: usize)
    requires
        b < old(f).blocks.len(),
        gated_block(
            old(f).sem(),
            *g,
            SValueData { repr: repr.sem(), ty },
            b as int,
        ).blocks.len() <= u32::MAX,
        gated_block(
            old(f).sem(),
            *g,
            SValueData { repr: repr.sem(), ty },
            b as int,
        ).values.len() <= u32::MAX,
    ensures
        final(f).sem() == gated_block(
            old(f).sem(),
            *g,
            SValueData { repr: repr.sem(), ty },
            b as int,
        ),
{
    let ghost f0 = f.sem();
    let ghost d = SValueData { repr: repr.sem(), ty };
    let ghost x = f0.blocks[b as int];
    let ghost next = f0.values.len() as int;
    let ghost b0 = f.blocks[b as int];
    assert(x == b0.sem());
    assert(f0.values.len() == f.values.len());
    let ghost h = gated_block(f0, *g, d, b as int);
    let jump: Option<Target> = match &f.blocks[b].term {
        Term::Jump(t) => Some(t.clone()),
        _ => None,
    };
    if let Some(t) = jump {
        assert(x.term == STerm::Jump(t.sem()));
        if does_enter(&t, g) {
            let given = t.args[g.slot];
            let v = f.new_value(repr.clone(), ty);
            assert(f.sem().values =~= h.values);
            let i = ensure_unique(given, v);
            let args = with_arg(&t.args, g.slot, v);
            f.blocks[b].insts.push(i);
            f.blocks[b].term = Term::Jump(Target { to: t.to, args });
            let ghost b1 = f.blocks[b as int];
            assert(sems(b1.insts@) =~= sems(b0.insts@).push(i.sem()));
            assert(b1.sem() == h.blocks[b as int]);
            assert(f.sem().blocks =~= h.blocks);
        }
        return ;
    }
    let ghost st = targets(x.term);
    let base: usize = f.blocks.len();
    assert(f0.blocks.len() == base);
    proof {
        lemma_edge_blocks(st, *g, base as int, next, st.len() as int);
        assert(h.blocks.len() == base + entering(st, *g, st.len() as int));
        assert(h.values.len() == next + entering(st, *g, st.len() as int));
    }
    let mut edges: Vec<Target> = Vec::new();
    let ts = targets_of(&f.blocks[b].term);
    let mut k: usize = 0;
    while k < ts.len()
        invariant
            k <= ts.len() == st.len(),
            forall|j: int| 0 <= j < ts.len() ==> (#[trigger] ts[j]).sem() == st[j],
            edges.len() == k,
            forall|j: int| 0 <= j < k ==> (#[trigger] edges[j]).sem() == st[j],
        decreases ts.len() - k,
    {
        assert(ts[k as int].sem() == st[k as int]);
        edges.push(ts[k].clone());
        k += 1;
    }
    let term = divert(&f.blocks[b].term, g, base);
    f.blocks[b].term = term;
    let ghost start = f.blocks@;
    assert(sems(start) =~= f0.blocks.update(
        b as int,
        SBlock { term: diverted(x.term, *g, base as int), ..x },
    ));
    let mut k: usize = 0;
    assert(f.sem().blocks =~= sems(start) + edge_blocks(st, *g, base as int, next, 0));
    assert(f.sem().values =~= more_values(f0.values, d, 0));
    while k < edges.len()
        invariant
            k <= edges.len() == st.len(),
            forall|j: int| 0 <= j < edges.len() ==> (#[trigger] edges[j]).sem() == st[j],
            start.len() == base,
            d == (SValueData { repr: repr.sem(), ty }),
            next == f0.values.len(),
            base + entering(st, *g, st.len() as int) <= u32::MAX,
            next + entering(st, *g, st.len() as int) <= u32::MAX,
            f.sem() == (SFunc {
                blocks: sems(start) + edge_blocks(st, *g, base as int, next, k as int),
                values: more_values(f0.values, d, entering(st, *g, k as int)),
                ..f0
            }),
        decreases edges.len() - k,
    {
        let t = &edges[k];
        assert(t.sem() == st[k as int]);
        proof {
            lemma_edge_blocks(st, *g, base as int, next, k as int);
            lemma_entering_grows(st, *g, k as int, st.len() as int);
            lemma_entering_grows(st, *g, k + 1, st.len() as int);
        }
        let ghost bs = f.blocks@;
        let ghost vs = f.sem().values;
        assert(f.sem().blocks.len() == f.blocks.len());
        assert(f.sem().values.len() == f.values.len());
        if does_enter(t, g) {
            let id: usize = f.blocks.len();
            let given = t.args[g.slot];
            let v = f.new_value(repr.clone(), ty);
            let mut insts: Vec<Inst> = Vec::new();
            insts.push(ensure_unique(given, v));
            assert(sems(insts@) =~= seq![made_unique(given, v)]);
            let block = Block {
                id: BlockId(id as u32),
                params: Vec::new(),
                insts,
                term: Term::Jump(Target { to: t.to, args: with_arg(&t.args, g.slot, v) }),
            };
            assert(block.params@ =~= seq![]);
            assert(block.sem() == edge_block(st[k as int], *g, id as int, v));
            f.blocks.push(block);
            assert(sems(f.blocks@) =~= sems(bs).push(block.sem()));
            assert(f.sem().blocks =~= sems(start) + edge_blocks(
                st,
                *g,
                base as int,
                next,
                k + 1,
            ));
            assert(f.sem().values =~= more_values(f0.values, d, entering(st, *g, k + 1)));
        }
        k += 1;
    }
}

/// Whether an edge closes a loop.
pub fn closes(backs: &Vec<(usize, usize)>, b: usize, header: usize) -> (r: bool)
    ensures
        r == backs@.contains((b, header)),
{
    let mut i: usize = 0;
    while i < backs.len()
        invariant
            i <= backs.len(),
            forall|k: int| 0 <= k < i ==> #[trigger] backs@[k] != (b, header),
        decreases backs.len() - i,
    {
        let e = backs[i];
        if e.0 == b && e.1 == header {
            assert(backs@[i as int] == (b, header));
            return true;
        }
        i += 1;
    }
    false
}

pub fn position(vs: &Vec<Value>, v: Value) -> (r: Option<usize>)
    ensures
        match r {
            Some(i) => position_from(vs@, v, 0) == Some(i as int),
            None => position_from(vs@, v, 0) is None,
        },
{
    let mut i: usize = 0;
    while i < vs.len()
        invariant
            i <= vs.len(),
            position_from(vs@, v, 0) == position_from(vs@, v, i as int),
        decreases vs.len() - i,
    {
        if vs[i] == v {
            return Some(i);
        }
        i += 1;
    }
    None
}

/// Make the list that goes round a loop unique wherever the loop is entered.
pub fn establish(f: &mut Func, header: usize, param: Value)
    requires
        blocks_wf(old(f).sem()),
        values_wf(old(f).sem()),
        header < old(f).blocks.len(),
        param.0 < old(f).values.len(),
        established(old(f).sem(), header, param).blocks.len() <= u32::MAX,
        established(old(f).sem(), header, param).values.len() <= u32::MAX,
    ensures
        final(f).sem() == established(old(f).sem(), header, param),
{
    let ghost f0 = f.sem();
    assert(f0.blocks[header as int] == f.blocks[header as int].sem());
    let slot = match position(&f.blocks[header].params, param) {
        Some(i) => i,
        None => {
            return ;
        },
    };
    let g = Gate { header, slot };
    let graph = graph_of(f);
    assert(super::super::graph::adj(graph@).len() == graph.len());
    let backs = find_back_edges(&graph, f.entry.0 as usize);
    assert(f0.values[param.0 as int] == f.values[param.0 as int].sem());
    let repr = f.values[param.0 as usize].repr.clone();
    let ty = f.values[param.0 as usize].ty;
    let ghost d = f0.values[param.0 as int];
    assert(d == SValueData { repr: repr.sem(), ty });
    let n: usize = f.blocks.len();
    assert(f0.blocks.len() == n);
    let mut b: usize = 0;
    while b < n
        invariant
            b <= n == f0.blocks.len(),
            d == (SValueData { repr: repr.sem(), ty }),
            g.header == header,
            gated(f0, g, d, backs@, n as int).blocks.len() <= u32::MAX,
            gated(f0, g, d, backs@, n as int).values.len() <= u32::MAX,
            f.sem() == gated(f0, g, d, backs@, b as int),
        decreases n - b,
    {
        proof {
            lemma_gated_grows(f0, g, d, backs@, 0, b as int);
            lemma_gated_grows(f0, g, d, backs@, b + 1, n as int);
        }
        assert(f.sem().blocks.len() == f.blocks.len());
        if !closes(&backs, b, header) {
            gate_block(f, &g, &repr, ty, b);
        }
        b += 1;
    }
}

} // verus!
