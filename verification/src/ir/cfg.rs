//! The control flow of a function: its blocks as a graph, dominators and loops.

use super::graph::{adj, edge, graph_wf, only, only_one, reachable, reached};
use super::ssa::{blocks_wf, targets, Func, SFunc, STarget, STerm, Target, Term};
use crate::syntax::Node;
use vstd::prelude::*;

verus! {

/// The blocks of a function as a graph: an edge for every way out of a block, in order.
pub open spec fn cfg(f: SFunc) -> Seq<Seq<usize>> {
    Seq::new(f.blocks.len(), |i: int| successors(f.blocks[i].term))
}

/// The blocks that a terminator can go to, one for each edge.
pub open spec fn successors(t: STerm) -> Seq<usize> {
    targets(t).map_values(|t: STarget| t.to.0 as usize)
}

/// `a`, as often as `b` is among the first `m` of `s`.
pub open spec fn times(a: int, b: int, s: Seq<usize>, m: int) -> Seq<usize>
    decreases m,
{
    if m <= 0 {
        seq![]
    } else if s[m - 1] == b {
        times(a, b, s, m - 1).push(a as usize)
    } else {
        times(a, b, s, m - 1)
    }
}

/// The nodes below `n` with edges to `b`, one for each edge, in order.
pub open spec fn preds_of(g: Seq<Seq<usize>>, b: int, n: int) -> Seq<usize>
    decreases n,
{
    if n <= 0 {
        seq![]
    } else {
        preds_of(g, b, n - 1) + times(n - 1, b, g[n - 1], g[n - 1].len() as int)
    }
}

/// The graph with its edges turned round.
pub open spec fn preds(g: Seq<Seq<usize>>) -> Seq<Seq<usize>> {
    Seq::new(g.len(), |b: int| preds_of(g, b, g.len() as int))
}

/// Where walks through a function start, leaving out `d`: at the entry, and at blocks that
/// nothing leads to.
pub open spec fn sources(g: Seq<Seq<usize>>, entry: int, d: int) -> Seq<bool> {
    Seq::new(g.len(), |i: int| i != d && (i == entry || preds(g)[i].len() == 0))
}

/// Whether every walk from a start to `b` passes `d`.
pub open spec fn dominates(g: Seq<Seq<usize>>, entry: int, d: int, b: int) -> bool {
    !reached(g, only(g.len(), d), sources(g, entry, d), b)
}

/// Whether block `l` closes a loop at `header`: it goes there, and is only got to through it.
pub open spec fn is_latch(g: Seq<Seq<usize>>, entry: int, header: int, l: int) -> bool {
    edge(g, l, header) && dominates(g, entry, header, l)
}

/// The blocks other than the header that close its loop.
pub open spec fn latches(g: Seq<Seq<usize>>, entry: int, header: int) -> Seq<bool> {
    Seq::new(g.len(), |l: int| l != header && is_latch(g, entry, header, l))
}

/// The natural loop of a header: the header, and every block from which a latch is got to
/// without passing the header.
pub open spec fn in_loop(g: Seq<Seq<usize>>, entry: int, header: int, b: int) -> bool {
    b == header || reached(preds(g), only(g.len(), header), latches(g, entry, header), b)
}

// ---- lemmas ----

proof fn times_has_only(a: int, b: int, s: Seq<usize>, m: int)
    requires
        0 <= m <= s.len(),
        0 <= a <= usize::MAX,
    ensures
        forall|k: int| 0 <= k < times(a, b, s, m).len() ==> #[trigger] times(a, b, s, m)[k] == a,
        times(a, b, s, m).len() > 0 <==> exists|k: int| 0 <= k < m && #[trigger] s[k] == b,
    decreases m,
{
    if m > 0 {
        times_has_only(a, b, s, m - 1);
        if s[m - 1] == b {
            assert(s[m - 1] == b);
        }
        if times(a, b, s, m - 1).len() > 0 {
            let k = choose|k: int| 0 <= k < m - 1 && #[trigger] s[k] == b;
            assert(s[k] == b);
        }
    }
}

proof fn preds_of_has(g: Seq<Seq<usize>>, b: int, n: int, a: int)
    requires
        0 <= n <= g.len() <= usize::MAX,
        0 <= a < g.len(),
        0 <= b < g.len(),
    ensures
        preds_of(g, b, n).contains(a as usize) <==> a < n && g[a].contains(b as usize),
        forall|k: int| 0 <= k < preds_of(g, b, n).len() ==> (#[trigger] preds_of(g, b, n)[k]) < n,
    decreases n,
{
    if n > 0 {
        preds_of_has(g, b, n - 1, a);
        let x = preds_of(g, b, n - 1);
        let y = times(n - 1, b, g[n - 1], g[n - 1].len() as int);
        times_has_only(n - 1, b, g[n - 1], g[n - 1].len() as int);
        if x.contains(a as usize) {
            let k = choose|k: int| 0 <= k < x.len() && x[k] == a as usize;
            assert((x + y)[k] == a as usize);
        }
        if a == n - 1 && g[a].contains(b as usize) {
            let k = choose|k: int| 0 <= k < g[a].len() && g[a][k] == b as usize;
            assert(g[n - 1][k] == b);
            assert(y.len() > 0);
            assert((x + y)[x.len() as int] == a as usize);
        }
        if (x + y).contains(a as usize) {
            let k = choose|k: int| 0 <= k < (x + y).len() && (x + y)[k] == a as usize;
            if k < x.len() {
                assert(x[k] == a as usize);
            } else {
                assert(y[k - x.len()] == n - 1);
                let j = choose|j: int| 0 <= j < g[n - 1].len() && #[trigger] g[n - 1][j] == b;
                assert(g[n - 1][j] == b as usize);
            }
        }
    }
}

/// Turning the edges round turns every edge round.
pub proof fn preds_turn_edges(g: Seq<Seq<usize>>, a: int, b: int)
    requires
        g.len() <= usize::MAX,
    ensures
        edge(preds(g), b, a) <==> edge(g, a, b),
{
    if 0 <= a < g.len() && 0 <= b < g.len() {
        preds_of_has(g, b, g.len() as int, a);
    }
}

pub(crate) proof fn preds_wf(g: Seq<Seq<usize>>)
    requires
        g.len() <= usize::MAX,
    ensures
        graph_wf(preds(g)),
{
    assert forall|b: int, k: int|
        0 <= b < preds(g).len() && 0 <= k < preds(g)[b].len() implies (#[trigger] preds(g)[b][k])
        < preds(g).len() by {
        preds_of_has(g, b, g.len() as int, 0);
        assert(preds_of(g, b, g.len() as int)[k] < g.len());
    }
}

/// A block dominates itself.
pub proof fn dominates_itself(g: Seq<Seq<usize>>, entry: int, b: int)
    requires
        0 <= b < g.len(),
    ensures
        dominates(g, entry, b, b),
{
    let blocked = only(g.len(), b);
    let starts = sources(g, entry, b);
    if reached(g, blocked, starts, b) {
        let a = choose|a: int|
            0 <= a < g.len() && #[trigger] starts[a] && super::graph::walks(g, blocked, a, b);
        let p = choose|p: Seq<int>| #[trigger]
            super::graph::is_walk(g, blocked, p) && p[0] == a && p.last() == b;
        if p.len() > 1 {
            let k = p.len() - 1;
            assert(!blocked[p[k]]);
        }
    }
}

// ---- computing it ----

/// The ways out of a block, in order.
pub fn targets_of(t: &Term) -> (r: Vec<&Target>)
    ensures
        r.len() == targets(t.sem()).len(),
        forall|k: int| 0 <= k < r.len() ==> (#[trigger] r[k]).sem() == targets(t.sem())[k],
{
    let mut r: Vec<&Target> = Vec::new();
    match t {
        Term::Jump(t) => r.push(t),
        Term::Branch { then, els, .. } => {
            r.push(then);
            r.push(els);
        },
        Term::Switch { arms, default, .. } => {
            let mut i: usize = 0;
            while i < arms.len()
                invariant
                    i <= arms.len(),
                    r.len() == i,
                    forall|k: int| 0 <= k < i ==> (#[trigger] r[k]).sem() == arms[k].1.sem(),
                decreases arms.len() - i,
            {
                r.push(&arms[i].1);
                i += 1;
            }
            r.push(default);
        },
        _ => {},
    }
    r
}

/// The blocks of a function as a graph.
pub fn graph_of(f: &Func) -> (g: Vec<Vec<usize>>)
    requires
        blocks_wf(f.sem()),
    ensures
        adj(g@) == cfg(f.sem()),
        graph_wf(adj(g@)),
{
    let ghost s = f.sem();
    let mut g: Vec<Vec<usize>> = Vec::new();
    let mut i: usize = 0;
    while i < f.blocks.len()
        invariant
            i <= f.blocks.len(),
            s == f.sem(),
            g.len() == i,
            forall|k: int| 0 <= k < i ==> (#[trigger] g[k])@ == successors(s.blocks[k].term),
        decreases f.blocks.len() - i,
    {
        let ts = targets_of(&f.blocks[i].term);
        assert(s.blocks[i as int] == f.blocks[i as int].sem());
        let mut row: Vec<usize> = Vec::new();
        let mut k: usize = 0;
        while k < ts.len()
            invariant
                k <= ts.len(),
                row.len() == k,
                forall|j: int| 0 <= j < k ==> #[trigger] row[j] == ts[j].to.0 as usize,
            decreases ts.len() - k,
        {
            row.push(ts[k].to.0 as usize);
            k += 1;
        }
        assert forall|j: int| 0 <= j < row.len() implies row@[j] == successors(
            s.blocks[i as int].term,
        )[j] by {
            assert(ts[j].sem() == targets(s.blocks[i as int].term)[j]);
            assert(row[j] == ts[j].to.0 as usize);
        }
        assert(row@ =~= successors(s.blocks[i as int].term));
        g.push(row);
        i += 1;
    }
    assert(adj(g@) =~= cfg(s));
    proof {
        assert forall|a: int, k: int|
            0 <= a < cfg(s).len() && 0 <= k < cfg(s)[a].len() implies (#[trigger] cfg(s)[a][k])
            < cfg(s).len() by {
            let b = s.blocks[a];
            assert(super::ssa::term_in_range(b.term, s.blocks.len()));
            assert(targets(b.term)[k].to.0 < s.blocks.len());
        }
    }
    g
}

/// The graph with its edges turned round.
pub fn predecessors(g: &Vec<Vec<usize>>) -> (r: Vec<Vec<usize>>)
    requires
        graph_wf(adj(g@)),
    ensures
        adj(r@) == preds(adj(g@)),
        graph_wf(adj(r@)),
{
    let ghost gg = adj(g@);
    let n: usize = g.len();
    let mut r: Vec<Vec<usize>> = Vec::new();
    let mut b: usize = 0;
    while b < n
        invariant
            b <= n == g.len(),
            gg == adj(g@),
            r.len() == b,
            forall|k: int| 0 <= k < b ==> (#[trigger] r[k])@ == preds_of(gg, k, n as int),
        decreases n - b,
    {
        let mut row: Vec<usize> = Vec::new();
        let mut a: usize = 0;
        while a < n
            invariant
                a <= n == g.len(),
                gg == adj(g@),
                row@ == preds_of(gg, b as int, a as int),
            decreases n - a,
        {
            let ghost before = row@;
            let mut k: usize = 0;
            assert(row@ =~= before + times(a as int, b as int, gg[a as int], 0));
            while k < g[a].len()
                invariant
                    a < n == g.len(),
                    gg == adj(g@),
                    gg[a as int] == g[a as int]@,
                    k <= g[a as int].len(),
                    row@ == before + times(a as int, b as int, gg[a as int], k as int),
                decreases g[a as int].len() - k,
            {
                if g[a][k] == b {
                    row.push(a);
                }
                k += 1;
                assert(row@ =~= before + times(a as int, b as int, gg[a as int], k as int));
            }
            a += 1;
        }
        r.push(row);
        b += 1;
    }
    assert(adj(r@) =~= preds(gg));
    proof {
        preds_wf(gg);
    }
    r
}

/// For every block, which blocks dominate it: `r[d][b]` says whether `d` dominates `b`.
pub fn dominators(g: &Vec<Vec<usize>>, entry: usize) -> (r: Vec<Vec<bool>>)
    requires
        graph_wf(adj(g@)),
        entry < g.len(),
    ensures
        r.len() == g.len(),
        forall|d: int| 0 <= d < r.len() ==> (#[trigger] r[d]).len() == g.len(),
        forall|d: int, b: int|
            0 <= d < r.len() && 0 <= b < r.len() ==> #[trigger] r[d]@[b] == dominates(
                adj(g@),
                entry as int,
                d,
                b,
            ),
{
    let ghost gg = adj(g@);
    let n: usize = g.len();
    let back = predecessors(g);
    assert(adj(back@).len() == back.len());
    let mut r: Vec<Vec<bool>> = Vec::new();
    let mut d: usize = 0;
    while d < n
        invariant
            d <= n == g.len(),
            gg == adj(g@),
            graph_wf(gg),
            adj(back@) == preds(gg),
            back.len() == n,
            entry < n,
            r.len() == d,
            forall|e: int| 0 <= e < d ==> (#[trigger] r[e]).len() == n,
            forall|e: int, b: int|
                0 <= e < d && 0 <= b < n ==> #[trigger] r[e]@[b] == dominates(
                    gg,
                    entry as int,
                    e,
                    b,
                ),
        decreases n - d,
    {
        let mut starts: Vec<bool> = Vec::new();
        let mut i: usize = 0;
        while i < n
            invariant
                i <= n == g.len(),
                gg == adj(g@),
                adj(back@) == preds(gg),
                back.len() == n,
                starts.len() == i,
                forall|k: int|
                    0 <= k < i ==> #[trigger] starts[k] == sources(gg, entry as int, d as int)[k],
            decreases n - i,
        {
            assert(preds(gg)[i as int] == back[i as int]@);
            starts.push(i != d && (i == entry || back[i].len() == 0));
            i += 1;
        }
        assert(starts@ =~= sources(gg, entry as int, d as int));
        let blocked = only_one(n, d);
        let hit = reachable(g, &starts, &blocked);
        let mut row: Vec<bool> = Vec::new();
        let mut b: usize = 0;
        while b < n
            invariant
                b <= n,
                hit.len() == n,
                row.len() == b,
                forall|k: int| 0 <= k < b ==> #[trigger] row[k] == !hit[k],
            decreases n - b,
        {
            row.push(!hit[b]);
            b += 1;
        }
        r.push(row);
        d += 1;
    }
    r
}

/// The natural loop of a header, as marks on the blocks.
pub fn loop_body(
    g: &Vec<Vec<usize>>,
    back: &Vec<Vec<usize>>,
    dom: &Vec<Vec<bool>>,
    entry: usize,
    header: usize,
) -> (r: Vec<bool>)
    requires
        graph_wf(adj(g@)),
        adj(back@) == preds(adj(g@)),
        graph_wf(adj(back@)),
        entry < g.len(),
        header < g.len(),
        dom.len() == g.len(),
        forall|d: int| 0 <= d < dom.len() ==> (#[trigger] dom[d]).len() == g.len(),
        forall|d: int, b: int|
            0 <= d < dom.len() && 0 <= b < dom.len() ==> #[trigger] dom[d]@[b] == dominates(
                adj(g@),
                entry as int,
                d,
                b,
            ),
    ensures
        r.len() == g.len(),
        forall|b: int|
            0 <= b < r.len() ==> #[trigger] r[b] == in_loop(
                adj(g@),
                entry as int,
                header as int,
                b,
            ),
{
    let ghost gg = adj(g@);
    let n: usize = g.len();
    let mut starts: Vec<bool> = Vec::new();
    let mut l: usize = 0;
    while l < n
        invariant
            l <= n == g.len(),
            gg == adj(g@),
            header < n,
            dom.len() == n,
            forall|d: int| 0 <= d < dom.len() ==> (#[trigger] dom[d]).len() == n,
            forall|d: int, b: int|
                0 <= d < dom.len() && 0 <= b < dom.len() ==> #[trigger] dom[d]@[b] == dominates(
                    gg,
                    entry as int,
                    d,
                    b,
                ),
            starts.len() == l,
            forall|k: int|
                0 <= k < l ==> #[trigger] starts[k] == latches(gg, entry as int, header as int)[k],
        decreases n - l,
    {
        let goes = has(&g[l], header);
        assert(dom[header as int]@[l as int] == dominates(
            gg,
            entry as int,
            header as int,
            l as int,
        ));
        assert(gg[l as int] == g[l as int]@);
        starts.push(l != header && goes && dom[header][l]);
        l += 1;
    }
    assert(starts@ =~= latches(gg, entry as int, header as int));
    let blocked = only_one(n, header);
    assert(adj(back@).len() == back.len());
    let mut r = reachable(back, &starts, &blocked);
    r.set(header, true);
    r
}

/// Whether a node is among others.
pub fn has(s: &Vec<usize>, b: usize) -> (r: bool)
    ensures
        r == s@.contains(b),
{
    let mut i: usize = 0;
    while i < s.len()
        invariant
            i <= s.len(),
            forall|k: int| 0 <= k < i ==> #[trigger] s[k] != b,
        decreases s.len() - i,
    {
        if s[i] == b {
            assert(s@[i as int] == b);
            return true;
        }
        i += 1;
    }
    false
}

} // verus!
