//! That pruning, threading and sweeping leave a function running as it did.

use super::dead::{block_reads, left, may_trap, reads, stays, swept, used};
use super::prune::{
    alive, lemma_rank, lemma_target_alive, prunes, pruned, rank, renumbered, survivors,
};
use super::thread::{chase, forwards, moved, resolved, threaded};
use crate::ir::effects::effectful;
use crate::ir::repr::SRepr;
use crate::ir::run::{
    after_inst, after_insts, along, bound, held, leaves, outcome, runs, through, with, Held, Spot,
    Val, World,
};
use crate::ir::ssa::{
    blocks_wf, operands, targets, term_in_range, term_operands, SBlock, SFunc, SInst, SOp, STarget,
    STerm, Value,
};
use vstd::prelude::*;

verus! {

// ---- pruning ----

proof fn lemma_survives(f: SFunc, b: int, n: int)
    requires
        0 <= b < n <= f.blocks.len(),
        alive(f, b),
    ensures
        survivors(f, n).len() == rank(f, n),
        rank(f, b) < rank(f, n),
        survivors(f, n)[rank(f, b) as int] == renumbered(f, b),
    decreases n,
{
    lemma_survivors_len(f, n - 1);
    if b < n - 1 {
        lemma_survives(f, b, n - 1);
        if alive(f, n - 1) {
            assert(survivors(f, n)[rank(f, b) as int] == survivors(f, n - 1)[rank(f, b) as int]);
        }
    }
}

proof fn lemma_survivors_len(f: SFunc, n: int)
    ensures
        survivors(f, n).len() == rank(f, n),
    decreases n,
{
    if n > 0 {
        lemma_survivors_len(f, n - 1);
    }
}

/// Whether one run is where the other is, in the block that has become of its own.
pub open spec fn same_spot(f: SFunc, s: Spot, t: Spot) -> bool {
    match (s, t) {
        (Spot::At(b, h), Spot::At(c, k)) => 0 <= b < f.blocks.len() && alive(f, b) && c == rank(f, b)
            && h == k,
        (Spot::At(_, _), _) => false,
        (_, Spot::At(_, _)) => false,
        _ => s == t,
    }
}

proof fn lemma_pruned_edge(f: SFunc, b: int, k: int, h: Held)
    requires
        blocks_wf(f),
        prunes(f),
        0 <= b < f.blocks.len(),
        alive(f, b),
        0 <= k < targets(f.blocks[b].term).len(),
    ensures
        same_spot(
            f,
            along(f, targets(f.blocks[b].term)[k], h),
            along(
                pruned(f),
                moved(targets(f.blocks[b].term)[k], |t: usize| rank(f, t as int) as usize),
                h,
            ),
        ),
{
    let t = targets(f.blocks[b].term)[k];
    lemma_target_alive(f, b, k);
    assert(term_in_range(f.blocks[b].term, f.blocks.len()));
    let c = t.to.0 as int;
    lemma_survives(f, c, f.blocks.len() as int);
    lemma_rank(f, c, f.blocks.len() as int);
    let g = pruned(f);
    let u = moved(t, |t: usize| rank(f, t as int) as usize);
    assert(u.to.0 == rank(f, c));
    assert(g.blocks[u.to.0 as int] == renumbered(f, c));
}

proof fn lemma_pruned_leaves(f: SFunc, b: int, h: Held)
    requires
        blocks_wf(f),
        prunes(f),
        0 <= b < f.blocks.len(),
        alive(f, b),
    ensures
        same_spot(
            f,
            leaves(f, f.blocks[b].term, h),
            leaves(pruned(f), renumbered(f, b).term, h),
        ),
{
    let term = f.blocks[b].term;
    match term {
        STerm::Jump(t) => {
            assert(targets(term)[0] == t);
            lemma_pruned_edge(f, b, 0, h);
        },
        STerm::Branch { cond, then, els } => {
            assert(targets(term)[0] == then);
            assert(targets(term)[1] == els);
            lemma_pruned_edge(f, b, 0, h);
            lemma_pruned_edge(f, b, 1, h);
        },
        _ => {},
    }
}

/// Without the blocks that cannot be got to, a function runs as with them.
pub proof fn pruning_keeps_runs(f: SFunc, b: int, h: Held, w: World, n: nat)
    requires
        blocks_wf(f),
        prunes(f),
        0 <= b < f.blocks.len(),
        alive(f, b),
    ensures
        same_spot(
            f,
            runs(f, Spot::At(b, h), w, n),
            runs(pruned(f), Spot::At(rank(f, b) as int, h), w, n),
        ),
        pruned(f).entry.0 == rank(f, f.entry.0 as int),
    decreases n,
{
    let g = pruned(f);
    lemma_survives(f, b, f.blocks.len() as int);
    lemma_rank(f, f.entry.0 as int, f.blocks.len() as int);
    lemma_rank(f, b, f.blocks.len() as int);
    if n > 0 {
        let (x, y) = (f.blocks[b], g.blocks[rank(f, b) as int]);
        assert(y == renumbered(f, b));
        let e = after_insts(x.insts, h, w);
        lemma_pruned_leaves(f, b, e);
        match leaves(f, x.term, e) {
            Spot::At(c, k) => pruning_keeps_runs(f, c, k, w, (n - 1) as nat),
            s => {
                assert(runs(f, s, w, (n - 1) as nat) == s);
                assert(runs(g, s, w, (n - 1) as nat) == s);
            },
        }
    }
}

// ---- threading ----

/// Every edge passes as many values as its block has parameters.
pub open spec fn edges_match(f: SFunc) -> bool {
    forall|b: int, k: int|
        0 <= b < f.blocks.len() && 0 <= k < targets(f.blocks[b].term).len() ==> (
        #[trigger] targets(f.blocks[b].term)[k]).args.len() == f.blocks[targets(
            f.blocks[b].term,
        )[k].to.0 as int].params.len()
}

proof fn lemma_runs_add(f: SFunc, s: Spot, w: World, m: nat, n: nat)
    ensures
        runs(f, runs(f, s, w, m), w, n) == runs(f, s, w, m + n),
    decreases m,
{
    if m > 0 {
        match s {
            Spot::At(b, h) => if 0 <= b < f.blocks.len() {
                lemma_runs_add(f, through(f, f.blocks[b], h, w), w, (m - 1) as nat, n);
            } else {
                lemma_stuck(f, s, w, n);
            },
            _ => {
                lemma_stuck(f, s, w, n);
            },
        }
    }
}

proof fn lemma_stuck(f: SFunc, s: Spot, w: World, n: nat)
    requires
        !(s matches Spot::At(b, _) && 0 <= b < f.blocks.len()),
    ensures
        runs(f, s, w, n) == s,
{
}

proof fn lemma_chased(f: SFunc, path: Seq<usize>, b: usize, h: Held, w: World) -> (m: nat)
    requires
        blocks_wf(f),
        edges_match(f),
        b < f.blocks.len(),
    ensures
        runs(f, Spot::At(b as int, h), w, m) == Spot::At(
            chase(forwards(f), path, b) as int,
            h,
        ),
        chase(forwards(f), path, b) < f.blocks.len(),
        chase(forwards(f), path, b) != b ==> f.blocks[b as int].params.len() == 0
            && f.blocks[chase(forwards(f), path, b) as int].params.len() == 0,
    decreases f.blocks.len() - path.len(),
{
    let fwd = forwards(f);
    if path.len() >= fwd.len() || path.contains(b) || fwd[b as int] is None {
        0
    } else {
        let next = fwd[b as int]->0;
        let x = f.blocks[b as int];
        let t = x.term->Jump_0;
        assert(targets(x.term)[0] == t);
        assert(term_in_range(x.term, f.blocks.len()));
        assert(t.args.len() == f.blocks[t.to.0 as int].params.len());
        assert(held(t.args, h) =~= seq![]);
        assert(bound(f.blocks[next as int].params, held(t.args, h), h) == h);
        assert(after_insts(x.insts, h, w) == h);
        assert(through(f, x, h, w) == Spot::At(next as int, h));
        let m = lemma_chased(f, path.push(b), next, h, w);
        assert(runs(f, Spot::At(b as int, h), w, m + 1) == runs(f, Spot::At(next as int, h), w, m));
        m + 1
    }
}

proof fn lemma_threaded_edge(f: SFunc, b: int, k: int, h: Held, w: World) -> (m: nat)
    requires
        blocks_wf(f),
        edges_match(f),
        0 <= b < f.blocks.len(),
        0 <= k < targets(f.blocks[b].term).len(),
    ensures
        along(
            threaded(f),
            moved(targets(f.blocks[b].term)[k], |b: usize| resolved(forwards(f), b)),
            h,
        ) == runs(f, along(f, targets(f.blocks[b].term)[k], h), w, m),
{
    let t = targets(f.blocks[b].term)[k];
    assert(term_in_range(f.blocks[b].term, f.blocks.len()));
    let c = t.to.0 as usize;
    let g = bound(f.blocks[c as int].params, held(t.args, h), h);
    assert(along(f, t, h) == Spot::At(c as int, g));
    let m = lemma_chased(f, seq![], c, g, w);
    let d = resolved(forwards(f), c);
    let u = moved(t, |b: usize| resolved(forwards(f), b));
    assert(u.to.0 == d);
    assert(threaded(f).blocks[d as int].params == f.blocks[d as int].params);
    if d != c {
        assert(held(t.args, h) =~= seq![]);
        assert(g == h);
        assert(bound(f.blocks[d as int].params, held(u.args, h), h) == h);
    }
    m
}

/// A function whose edges go past the blocks that only lead on comes to what it came to
/// through them: after any number of blocks, its run is where the run of the function is
/// after as many or more.
pub proof fn threading_keeps_runs(f: SFunc, b: int, h: Held, w: World, n: nat) -> (m: nat)
    requires
        blocks_wf(f),
        edges_match(f),
    ensures
        m >= n,
        runs(threaded(f), Spot::At(b, h), w, n) == runs(f, Spot::At(b, h), w, m),
    decreases n,
{
    let g = threaded(f);
    if n == 0 {
        0
    } else if !(0 <= b < f.blocks.len()) {
        lemma_stuck(f, Spot::At(b, h), w, n);
        n
    } else {
        let (x, y) = (f.blocks[b], g.blocks[b]);
        let e = after_insts(x.insts, h, w);
        let go = |b: usize| resolved(forwards(f), b);
        let (s, t) = (leaves(f, x.term, e), leaves(g, y.term, e));
        let i = match x.term {
            STerm::Jump(u) => {
                assert(targets(x.term)[0] == u);
                lemma_threaded_edge(f, b, 0, e, w)
            },
            STerm::Branch { cond, then, els } => {
                assert(targets(x.term)[0] == then);
                assert(targets(x.term)[1] == els);
                if e(cond) == Val::Bool(true) {
                    lemma_threaded_edge(f, b, 0, e, w)
                } else {
                    lemma_threaded_edge(f, b, 1, e, w)
                }
            },
            _ => 0,
        };
        if s is At {
            assert(t == runs(f, s, w, i));
        } else {
            assert(t == s);
            lemma_stuck(f, s, w, i);
        }
        match t {
            Spot::At(c, k) => {
                let j = threading_keeps_runs(f, c, k, w, (n - 1) as nat);
                lemma_runs_add(f, s, w, i, j);
                assert(runs(f, Spot::At(b, h), w, 1 + (i + j)) == runs(f, s, w, i + j));
                1 + (i + j)
            },
            _ => {
                lemma_stuck(g, t, w, (n - 1) as nat);
                let j = (n - 1) as nat;
                lemma_stuck(f, t, w, j);
                lemma_runs_add(f, s, w, i, j);
                assert(runs(f, Spot::At(b, h), w, 1 + (i + j)) == runs(f, s, w, i + j));
                1 + (i + j)
            },
        }
    }
}

// ---- sweeping ----

/// Whether something in a function reads a value: an instruction, or the end of a block.
pub open spec fn is_read(f: SFunc, v: Value) -> bool {
    exists|b: int| 0 <= b < f.blocks.len() && read_in(#[trigger] f.blocks[b], v)
}

pub open spec fn read_in(b: SBlock, v: Value) -> bool {
    ||| exists|k: int| 0 <= k < b.insts.len() && operands((#[trigger] b.insts[k]).op).contains(v)
    ||| term_operands(b.term).contains(v)
}

/// Whether what is read holds the same.
pub open spec fn agree(f: SFunc, h: Held, k: Held) -> bool {
    forall|v: Value| #[trigger] is_read(f, v) ==> h(v) == k(v)
}

proof fn lemma_used_is_read(f: SFunc, v: Value)
    ensures
        is_read(f, v) ==> used(f, v),
{
    if is_read(f, v) {
        let b = choose|b: int| 0 <= b < f.blocks.len() && read_in(#[trigger] f.blocks[b], v);
        let x = f.blocks[b];
        if !term_operands(x.term).contains(v) {
            let k = choose|k: int|
                0 <= k < x.insts.len() && operands((#[trigger] x.insts[k]).op).contains(v);
            assert(reads(x.insts[k], v));
        }
        assert(block_reads(f.blocks[b], v));
    }
}

proof fn lemma_held_alike(f: SFunc, vs: Seq<Value>, h: Held, k: Held)
    requires
        agree(f, h, k),
        forall|i: int| 0 <= i < vs.len() ==> is_read(f, #[trigger] vs[i]),
    ensures
        held(vs, h) == held(vs, k),
{
    assert(held(vs, h) =~= held(vs, k));
}

proof fn lemma_inst_alike(f: SFunc, b: int, j: int, h: Held, k: Held, w: World)
    requires
        agree(f, h, k),
        0 <= b < f.blocks.len(),
        0 <= j < f.blocks[b].insts.len(),
    ensures
        agree(f, after_inst(f.blocks[b].insts[j], h, w), after_inst(f.blocks[b].insts[j], k, w)),
{
    let i = f.blocks[b].insts[j];
    let vs = operands(i.op);
    assert forall|q: int| 0 <= q < vs.len() implies is_read(f, #[trigger] vs[q]) by {
        assert(vs.contains(vs[q]));
        assert(operands(f.blocks[b].insts[j].op).contains(vs[q]));
        assert(read_in(f.blocks[b], vs[q]));
    }
    lemma_held_alike(f, vs, h, k);
    assert(outcome(i.op, h, w) == outcome(i.op, k, w));
    let (x, y) = (after_inst(i, h, w), after_inst(i, k, w));
    assert forall|v: Value| #[trigger] is_read(f, v) implies x(v) == y(v) by {
        assert(h(v) == k(v));
    }
}

proof fn lemma_swept_insts(
    f: SFunc,
    pure: Map<Seq<char>, bool>,
    natives: Seq<Seq<char>>,
    b: int,
    n: int,
    h: Held,
    k: Held,
    w: World,
)
    requires
        agree(f, h, k),
        0 <= b < f.blocks.len(),
        0 <= n <= f.blocks[b].insts.len(),
    ensures
        agree(
            f,
            after_insts(f.blocks[b].insts.take(n), h, w),
            after_insts(left(f, pure, natives, f.blocks[b].insts, n), k, w),
        ),
    decreases n,
{
    let is = f.blocks[b].insts;
    if n > 0 {
        lemma_swept_insts(f, pure, natives, b, n - 1, h, k, w);
        let i = is[n - 1];
        assert(is.take(n).drop_last() =~= is.take(n - 1));
        assert(is.take(n).last() == i);
        let x = after_insts(is.take(n - 1), h, w);
        let before = left(f, pure, natives, is, n - 1);
        let y = after_insts(before, k, w);
        if stays(f, pure, natives, i) {
            assert(before.push(i).drop_last() =~= before);
            assert(before.push(i).last() == i);
            lemma_inst_alike(f, b, n - 1, x, y, w);
        } else {
            let v = i.result->0;
            lemma_used_is_read(f, v);
            let z = after_inst(i, x, w);
            assert forall|u: Value| #[trigger] is_read(f, u) implies z(u) == y(u) by {
                assert(u != v);
                assert(x(u) == y(u));
            }
        }
    }
}

proof fn lemma_bound_alike(f: SFunc, ps: Seq<Value>, xs: Seq<Val>, h: Held, k: Held)
    requires
        agree(f, h, k),
    ensures
        agree(f, bound(ps, xs, h), bound(ps, xs, k)),
    decreases ps.len(),
{
    if ps.len() > 0 && xs.len() >= ps.len() {
        let (qs, ys) = (ps.drop_last(), xs.take(ps.len() - 1));
        lemma_bound_alike(f, qs, ys, h, k);
        let (x, y) = (bound(ps, xs, h), bound(ps, xs, k));
        assert forall|v: Value| #[trigger] is_read(f, v) implies x(v) == y(v) by {
            assert(bound(qs, ys, h)(v) == bound(qs, ys, k)(v));
        }
    }
}

/// Whether two runs are at the same place, and what is read there holds the same; or have come
/// to the same.
pub open spec fn alike(f: SFunc, s: Spot, t: Spot) -> bool {
    match (s, t) {
        (Spot::At(b, h), Spot::At(c, k)) => b == c && agree(f, h, k),
        (Spot::At(_, _), _) => false,
        (_, Spot::At(_, _)) => false,
        _ => s == t,
    }
}

proof fn lemma_edge_alike(f: SFunc, g: SFunc, t: STarget, h: Held, k: Held)
    requires
        agree(f, h, k),
        forall|i: int| 0 <= i < t.args.len() ==> is_read(f, #[trigger] t.args[i]),
        g.blocks.len() == f.blocks.len(),
        forall|c: int|
            0 <= c < f.blocks.len() ==> (#[trigger] g.blocks[c]).params == f.blocks[c].params,
    ensures
        alike(f, along(f, t, h), along(g, t, k)),
{
    lemma_held_alike(f, t.args, h, k);
    if t.to.0 < f.blocks.len() {
        let c = t.to.0 as int;
        assert(g.blocks[c].params == f.blocks[c].params);
        lemma_bound_alike(f, f.blocks[c].params, held(t.args, h), h, k);
    }
}

proof fn lemma_end_alike(f: SFunc, g: SFunc, b: int, h: Held, k: Held)
    requires
        agree(f, h, k),
        0 <= b < f.blocks.len(),
        g.blocks.len() == f.blocks.len(),
        forall|c: int|
            0 <= c < f.blocks.len() ==> (#[trigger] g.blocks[c]).params == f.blocks[c].params,
    ensures
        alike(f, leaves(f, f.blocks[b].term, h), leaves(g, f.blocks[b].term, k)),
{
    let term = f.blocks[b].term;
    let vs = term_operands(term);
    assert forall|q: int| 0 <= q < vs.len() implies is_read(f, #[trigger] vs[q]) by {
        assert(vs.contains(vs[q]));
        assert(read_in(f.blocks[b], vs[q]));
    }
    match term {
        STerm::Ret(Some(v)) => {
            assert(vs[0] == v);
        },
        STerm::Throw(v) => {
            assert(vs[0] == v);
        },
        STerm::Jump(t) => lemma_edge_alike(f, g, t, h, k),
        STerm::Branch { cond, then, els } => {
            assert(vs[0] == cond);
            let m = then.args.len() as int;
            assert forall|i: int| 0 <= i < then.args.len() implies is_read(
                f,
                #[trigger] then.args[i],
            ) by {
                assert(vs[1 + i] == then.args[i]);
            }
            assert forall|i: int| 0 <= i < els.args.len() implies is_read(f, #[trigger] els.args[i]) by {
                assert(vs[1 + m + i] == els.args[i]);
            }
            lemma_edge_alike(f, g, then, h, k);
            lemma_edge_alike(f, g, els, h, k);
        },
        _ => {},
    }
}

/// Without its dead instructions a function comes to what it came to with them; on the way,
/// all that is read holds the same.
pub proof fn sweeping_keeps_runs(
    f: SFunc,
    pure: Map<Seq<char>, bool>,
    natives: Seq<Seq<char>>,
    b: int,
    h: Held,
    k: Held,
    w: World,
    n: nat,
)
    requires
        agree(f, h, k),
    ensures
        alike(
            f,
            runs(f, Spot::At(b, h), w, n),
            runs(swept(f, pure, natives), Spot::At(b, k), w, n),
        ),
    decreases n,
{
    let g = swept(f, pure, natives);
    if n > 0 && 0 <= b < f.blocks.len() {
        let is = f.blocks[b].insts;
        lemma_swept_insts(f, pure, natives, b, is.len() as int, h, k, w);
        assert(is.take(is.len() as int) =~= is);
        let (x, y) = (after_insts(is, h, w), after_insts(g.blocks[b].insts, k, w));
        lemma_end_alike(f, g, b, x, y);
        match (leaves(f, f.blocks[b].term, x), leaves(g, f.blocks[b].term, y)) {
            (Spot::At(c, p), Spot::At(d, q)) => {
                sweeping_keeps_runs(f, pure, natives, c, p, q, w, (n - 1) as nat);
            },
            (s, _) => {
                lemma_stuck(f, s, w, (n - 1) as nat);
                lemma_stuck(g, s, w, (n - 1) as nat);
            },
        }
    }
}

/// Whether an operation does something besides giving a result: it may have an effect, or
/// stop the program. A native has one unless it is declared pure, and a call unless the
/// function is known to be pure.
pub open spec fn does_something(
    f: SFunc,
    op: SOp,
    pure: Map<Seq<char>, bool>,
    natives: Seq<Seq<char>>,
) -> bool {
    match op {
        SOp::Native { symbol, .. } => !natives.contains(symbol),
        SOp::Call { func, .. } => !pure.contains_key(func) || !pure[func],
        SOp::CallClosure { .. } => true,
        SOp::Index { .. } => true,
        SOp::Cast(x) => f.values[x.0 as int].repr == SRepr::Any,
        SOp::Prim(p, args) => args.len() > 0 && f.values[args[0].0 as int].repr == SRepr::I64 && (p
            is Add || p is Sub || p is Mul || p is Div || p is Rem),
        _ => false,
    }
}

proof fn lemma_left_has(
    f: SFunc,
    pure: Map<Seq<char>, bool>,
    natives: Seq<Seq<char>>,
    is: Seq<SInst>,
    n: int,
    k: int,
)
    requires
        0 <= k < n <= is.len(),
        stays(f, pure, natives, is[k]),
    ensures
        left(f, pure, natives, is, n).contains(is[k]),
    decreases n,
{
    let all = left(f, pure, natives, is, n);
    if k == n - 1 {
        assert(all.last() == is[k]);
        assert(all[all.len() - 1] == is[k]);
    } else {
        lemma_left_has(f, pure, natives, is, n - 1, k);
        let before = left(f, pure, natives, is, n - 1);
        let j = choose|j: int| 0 <= j < before.len() && before[j] == is[k];
        assert(all[j] == is[k]);
    }
}

/// Sweeping leaves every instruction whose result is read, that has none, or that does
/// something besides.
pub proof fn sweeping_leaves_what_counts(
    f: SFunc,
    pure: Map<Seq<char>, bool>,
    natives: Seq<Seq<char>>,
    b: int,
    k: int,
)
    requires
        0 <= b < f.blocks.len(),
        0 <= k < f.blocks[b].insts.len(),
        ({
            let i = f.blocks[b].insts[k];
            ||| i.result is None
            ||| i.result matches Some(v) && is_read(f, v)
            ||| does_something(f, i.op, pure, natives)
        }),
    ensures
        swept(f, pure, natives).blocks[b].insts.contains(f.blocks[b].insts[k]),
{
    let i = f.blocks[b].insts[k];
    if let Some(v) = i.result {
        lemma_used_is_read(f, v);
        assert(does_something(f, i.op, pure, natives) ==> effectful(i.op, pure, natives) || may_trap(
            f,
            i.op,
        ));
    }
    lemma_left_has(f, pure, natives, f.blocks[b].insts, f.blocks[b].insts.len() as int, k);
}

} // verus!
