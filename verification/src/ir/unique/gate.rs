//! That a list stands alone where a loop is entered.

use super::super::cfg::cfg;
use super::super::partial::position_from;
use super::super::ssa::{targets, SBlock, SFunc, SInst, SOp, STarget, STerm, SValueData, Value};
use super::back::back_edges;
use super::establish::{
    diverted, diverted_edge, edge_block, edge_blocks, entering, enters, established, gated,
    gated_block, made_unique, Gate,
};
use vstd::prelude::*;

verus! {

/// Whether an instruction makes `to` a list of its own with what `from` holds.
pub open spec fn makes_unique(i: SInst, from: Value, to: Value) -> bool {
    &&& i.result == Some(to)
    &&& i.op matches SOp::Native { symbol, args }
    &&& symbol == "neon_list_ensure_unique"@
    &&& args.len() == 1
    &&& args[0] == from
}

/// Whether `u` passes what `t` passes to the same block, but `x` in one slot.
pub open spec fn passes_instead(t: STarget, u: STarget, slot: int, x: Value) -> bool {
    &&& u.to == t.to
    &&& u.args.len() == t.args.len()
    &&& u.args[slot] == x
    &&& forall|j: int| 0 <= j < t.args.len() && j != slot ==> u.args[j] == t.args[j]
}

/// Whether an edge `u` of block `b` leads where `t` leads in `f`, and passes in one slot a new
/// value: the list that `t` passes there, made unique on the way. It is so at the end of the
/// block, or in a new block.
pub open spec fn enters_unique(f: SFunc, g: SFunc, b: int, t: STarget, u: STarget, slot: int) -> bool {
    ||| exists|x: Value| #[trigger]
        passes_instead(t, u, slot, x) && f.values.len() <= x.0 < g.values.len()
            && g.blocks[b].insts.len() > 0 && makes_unique(
            g.blocks[b].insts.last(),
            t.args[slot],
            x,
        )
    ||| f.blocks.len() <= u.to.0 < g.blocks.len() && u.args.len() == 0 && goes_on_unique(
        g,
        g.blocks[u.to.0 as int],
        t,
        slot,
        f.values.len(),
    )
}

/// Whether a block does nothing but make a list unique and go on.
pub open spec fn goes_on_unique(g: SFunc, x: SBlock, t: STarget, slot: int, old: nat) -> bool {
    &&& x.params.len() == 0
    &&& x.insts.len() == 1
    &&& x.insts[0].result matches Some(v)
    &&& old <= v.0 < g.values.len()
    &&& makes_unique(x.insts[0], t.args[slot], v)
    &&& x.term matches STerm::Jump(u)
    &&& passes_instead(t, u, slot, v)
}

proof fn lemma_edge_block_at(ts: Seq<STarget>, g: Gate, base: int, next: int, k: int, n: int)
    requires
        0 <= k < n <= ts.len(),
        enters(ts[k], g),
    ensures
        edge_blocks(ts, g, base, next, n).len() == entering(ts, g, n),
        entering(ts, g, k) < entering(ts, g, n),
        edge_blocks(ts, g, base, next, n)[entering(ts, g, k) as int] == edge_block(
            ts[k],
            g,
            base + entering(ts, g, k),
            Value((next + entering(ts, g, k)) as u32),
        ),
    decreases n,
{
    lemma_edge_blocks_len(ts, g, base, next, n - 1);
    let before = edge_blocks(ts, g, base, next, n - 1);
    if k < n - 1 {
        lemma_edge_block_at(ts, g, base, next, k, n - 1);
        assert(edge_blocks(ts, g, base, next, n)[entering(ts, g, k) as int]
            == before[entering(ts, g, k) as int]);
    }
}

proof fn lemma_edge_blocks_len(ts: Seq<STarget>, g: Gate, base: int, next: int, n: int)
    ensures
        edge_blocks(ts, g, base, next, n).len() == entering(ts, g, n),
    decreases n,
{
    if n > 0 {
        lemma_edge_blocks_len(ts, g, base, next, n - 1);
    }
}

/// What the edges of a block are, once the list is made unique on those that bring it in.
spec fn edges_done(f: SFunc, h: SFunc, g: Gate, b: int) -> bool {
    let ts = targets(f.blocks[b].term);
    let us = targets(h.blocks[b].term);
    &&& us.len() == ts.len()
    &&& forall|k: int|
        0 <= k < ts.len() ==> if enters(#[trigger] ts[k], g) {
            enters_unique(f, h, b, ts[k], us[k], g.slot as int)
        } else {
            us[k] == ts[k]
        }
}

proof fn lemma_targets_diverted(t: STerm, g: Gate, base: int)
    ensures
        targets(diverted(t, g, base)).len() == targets(t).len(),
        forall|k: int|
            0 <= k < targets(t).len() ==> #[trigger] targets(diverted(t, g, base))[k]
                == diverted_edge(targets(t), g, base, k),
{
    match t {
        STerm::Switch { on, arms, default } => {
            let ts = targets(diverted(t, g, base));
            assert(ts.len() == arms.len() + 1);
        },
        _ => {},
    }
}

proof fn lemma_one_block(f: SFunc, h: SFunc, g: Gate, d: SValueData, b: int)
    requires
        0 <= b < f.blocks.len() <= h.blocks.len(),
        h.blocks[b] == f.blocks[b],
        f.values.len() <= h.values.len(),
        gated_block(h, g, d, b).blocks.len() <= u32::MAX,
        gated_block(h, g, d, b).values.len() <= u32::MAX,
    ensures
        edges_done(f, gated_block(h, g, d, b), g, b),
        gated_block(h, g, d, b).blocks.len() >= h.blocks.len(),
        gated_block(h, g, d, b).values.len() >= h.values.len(),
        forall|c: int|
            0 <= c < h.blocks.len() && c != b ==> gated_block(h, g, d, b).blocks[c] == h.blocks[c],
{
    let r = gated_block(h, g, d, b);
    let ts = targets(f.blocks[b].term);
    let us = targets(r.blocks[b].term);
    let (base, next) = (h.blocks.len() as int, h.values.len() as int);
    match f.blocks[b].term {
        STerm::Jump(t) => {
            if enters(t, g) {
                let v = Value(next as u32);
                assert(r.values.len() == next + 1);
                assert(passes_instead(t, us[0], g.slot as int, v));
                assert(r.blocks[b].insts.last() == made_unique(t.args[g.slot as int], v));
                assert(makes_unique(r.blocks[b].insts.last(), t.args[g.slot as int], v));
            }
        },
        term => {
            lemma_targets_diverted(term, g, base);
            lemma_edge_blocks_len(ts, g, base, next, ts.len() as int);
            assert(r.blocks[b].term == diverted(term, g, base));
            assert forall|k: int| 0 <= k < ts.len() implies if enters(#[trigger] ts[k], g) {
                enters_unique(f, r, b, ts[k], us[k], g.slot as int)
            } else {
                us[k] == ts[k]
            } by {
                assert(us[k] == diverted_edge(ts, g, base, k));
                if enters(ts[k], g) {
                    lemma_edge_block_at(ts, g, base, next, k, ts.len() as int);
                    let e = entering(ts, g, k) as int;
                    let x = r.blocks[base + e];
                    assert(x == edge_blocks(ts, g, base, next, ts.len() as int)[e]);
                    let v = Value((next + e) as u32);
                    assert(r.values.len() == next + entering(ts, g, ts.len() as int));
                    assert(makes_unique(x.insts[0], ts[k].args[g.slot as int], v));
                    assert(passes_instead(ts[k], x.term->Jump_0, g.slot as int, v));
                    assert(goes_on_unique(r, x, ts[k], g.slot as int, f.values.len()));
                }
            }
        },
    }
}

/// What is done stays done.
proof fn lemma_stays_done(f: SFunc, h: SFunc, r: SFunc, g: Gate, b: int)
    requires
        0 <= b < f.blocks.len() <= h.blocks.len() <= r.blocks.len(),
        h.values.len() <= r.values.len(),
        edges_done(f, h, g, b),
        r.blocks[b] == h.blocks[b],
        forall|c: int| f.blocks.len() <= c < h.blocks.len() ==> r.blocks[c] == h.blocks[c],
    ensures
        edges_done(f, r, g, b),
{
    let ts = targets(f.blocks[b].term);
    let us = targets(h.blocks[b].term);
    let slot = g.slot as int;
    assert forall|k: int| 0 <= k < ts.len() implies if enters(#[trigger] ts[k], g) {
        enters_unique(f, r, b, ts[k], us[k], slot)
    } else {
        us[k] == ts[k]
    } by {
        if enters(ts[k], g) {
            assert(enters_unique(f, h, b, ts[k], us[k], slot));
            if f.blocks.len() <= us[k].to.0 < h.blocks.len() && us[k].args.len() == 0
                && goes_on_unique(h, h.blocks[us[k].to.0 as int], ts[k], slot, f.values.len()) {
                assert(goes_on_unique(
                    r,
                    r.blocks[us[k].to.0 as int],
                    ts[k],
                    slot,
                    f.values.len(),
                ));
            } else {
                let x = choose|x: Value| #[trigger]
                    passes_instead(ts[k], us[k], slot, x) && f.values.len() <= x.0 < h.values.len()
                        && h.blocks[b].insts.len() > 0 && makes_unique(
                        h.blocks[b].insts.last(),
                        ts[k].args[slot],
                        x,
                    );
                assert(passes_instead(ts[k], us[k], slot, x));
            }
        }
    }
}

proof fn lemma_gated(f: SFunc, g: Gate, d: SValueData, backs: Seq<(usize, usize)>, n: int)
    requires
        0 <= n <= f.blocks.len() <= usize::MAX,
        gated(f, g, d, backs, n).blocks.len() <= u32::MAX,
        gated(f, g, d, backs, n).values.len() <= u32::MAX,
    ensures
        gated(f, g, d, backs, n).blocks.len() >= f.blocks.len(),
        gated(f, g, d, backs, n).values.len() >= f.values.len(),
        forall|b: int|
            0 <= b < f.blocks.len() && (n <= b || backs.contains((b as usize, g.header)))
                ==> #[trigger] gated(f, g, d, backs, n).blocks[b] == f.blocks[b],
        forall|b: int|
            0 <= b < n && !backs.contains((b as usize, g.header)) ==> #[trigger] edges_done(
                f,
                gated(f, g, d, backs, n),
                g,
                b,
            ),
    decreases n,
{
    if n > 0 {
        let h = gated(f, g, d, backs, n - 1);
        let r = gated(f, g, d, backs, n);
        lemma_gated_len(f, g, d, backs, n - 1);
        lemma_grows(h, g, d, n - 1);
        lemma_gated(f, g, d, backs, n - 1);
        if !backs.contains(((n - 1) as usize, g.header)) {
            assert(h.blocks[n - 1] == f.blocks[n - 1]);
            lemma_one_block(f, h, g, d, n - 1);
            assert forall|b: int|
                0 <= b < n && !backs.contains((b as usize, g.header)) implies #[trigger] edges_done(
                f,
                r,
                g,
                b,
            ) by {
                if b < n - 1 {
                    assert(edges_done(f, h, g, b));
                    lemma_stays_done(f, h, r, g, b);
                }
            }
            assert forall|b: int|
                0 <= b < f.blocks.len() && (n <= b || backs.contains((b as usize, g.header)))
                implies #[trigger] r.blocks[b] == f.blocks[b] by {
                assert(h.blocks[b] == f.blocks[b]);
                assert(b != n - 1);
            }
        }
    }
}

proof fn lemma_gated_len(f: SFunc, g: Gate, d: SValueData, backs: Seq<(usize, usize)>, n: int)
    requires
        0 <= n <= f.blocks.len(),
    ensures
        gated(f, g, d, backs, n).blocks.len() >= f.blocks.len(),
    decreases n,
{
    if n > 0 {
        lemma_gated_len(f, g, d, backs, n - 1);
        lemma_grows(gated(f, g, d, backs, n - 1), g, d, n - 1);
    }
}

proof fn lemma_grows(h: SFunc, g: Gate, d: SValueData, b: int)
    ensures
        0 <= b < h.blocks.len() ==> gated_block(h, g, d, b).blocks.len() >= h.blocks.len(),
        gated_block(h, g, d, b).values.len() >= h.values.len(),
{
}

/// Where a loop is entered, its list stands alone: on every edge into the header that does
/// not close the loop, the parameter gets a new value, which is the list that the edge passed
/// before, made unique, and everything else is passed as before. No other edge changes, and
/// neither does a block that closes the loop.
pub proof fn lists_stand_alone_where_a_loop_is_entered(
    f: SFunc,
    header: usize,
    param: Value,
    b: int,
    k: int,
)
    requires
        f.blocks.len() <= u32::MAX,
        header < f.blocks.len(),
        f.blocks[header as int].params.contains(param),
        established(f, header, param).blocks.len() <= u32::MAX,
        established(f, header, param).values.len() <= u32::MAX,
        0 <= b < f.blocks.len(),
        0 <= k < targets(f.blocks[b].term).len(),
        f.blocks[header as int].params.len() <= usize::MAX,
    ensures
        ({
            let g = established(f, header, param);
            let (t, u) = (targets(f.blocks[b].term)[k], targets(g.blocks[b].term)[k]);
            let slot = position_from(f.blocks[header as int].params, param, 0);
            let closes = back_edges(cfg(f), f.entry.0 as usize).contains((b as usize, header));
            &&& b < g.blocks.len()
            &&& k < targets(g.blocks[b].term).len()
            &&& slot matches Some(s) && 0 <= s < f.blocks[header as int].params.len()
                && f.blocks[header as int].params[s] == param && if !closes && t.to.0 == header && s
                < t.args.len() {
                enters_unique(f, g, b, t, u, s)
            } else {
                u == t
            }
            &&& closes ==> g.blocks[b] == f.blocks[b]
        }),
{
    let ps = f.blocks[header as int].params;
    let at = choose|j: int| 0 <= j < ps.len() && ps[j] == param;
    lemma_position(ps, param, 0, at);
    let s = position_from(ps, param, 0)->0;
    let g = Gate { header, slot: s as usize };
    let backs = back_edges(cfg(f), f.entry.0 as usize);
    lemma_gated(f, g, f.values[param.0 as int], backs, f.blocks.len() as int);
    let h = established(f, header, param);
    if !backs.contains((b as usize, header)) {
        assert(edges_done(f, h, g, b));
        let ts = targets(f.blocks[b].term);
        assert(enters(ts[k], g) == (ts[k].to.0 == header && s < ts[k].args.len()));
    }
}

pub proof fn lemma_position(vs: Seq<Value>, v: Value, k: int, at: int)
    requires
        0 <= k <= at < vs.len() <= usize::MAX,
        vs[at] == v,
    ensures
        position_from(vs, v, k) matches Some(s) && k <= s <= at && vs[s] == v,
    decreases at - k,
{
    if vs[k] != v {
        lemma_position(vs, v, k + 1, at);
    }
}

} // verus!
