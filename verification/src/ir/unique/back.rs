//! Back edges, by depth-first search: the edges to a block on the path that the search is
//! on. Where a back edge leads is the header of a loop.

use super::super::graph::{adj, closed_under_walk, edge, graph_wf, is_walk, nowhere, walks};
use vstd::prelude::*;

verus! {

/// A depth-first search under way.
pub struct Search {
    /// The path from the entry, each block with the number of its edges looked at.
    pub stack: Seq<(usize, usize)>,
    /// Which blocks are on the path.
    pub on_path: Seq<bool>,
    /// Which blocks are done with.
    pub done: Seq<bool>,
    /// The back edges found, in order.
    pub found: Seq<(usize, usize)>,
}

pub open spec fn search_from(n: nat, entry: usize) -> Search {
    Search {
        stack: seq![(entry, 0usize)],
        on_path: Seq::new(n, |i: int| i == entry),
        done: Seq::new(n, |i: int| false),
        found: seq![],
    }
}

/// One step: look at the next edge of the last block on the path, or leave that block.
pub open spec fn step(g: Seq<Seq<usize>>, s: Search) -> Search {
    if s.stack.len() == 0 {
        s
    } else {
        let (b, i) = s.stack.last();
        let rest = s.stack.drop_last();
        if i < g[b as int].len() {
            let to = g[b as int][i as int];
            let more = rest.push((b, (i + 1) as usize));
            if s.on_path[to as int] {
                Search { stack: more, found: s.found.push((b, to)), ..s }
            } else if !s.done[to as int] {
                Search {
                    stack: more.push((to, 0usize)),
                    on_path: s.on_path.update(to as int, true),
                    ..s
                }
            } else {
                Search { stack: more, ..s }
            }
        } else {
            Search {
                stack: rest,
                on_path: s.on_path.update(b as int, false),
                done: s.done.update(b as int, true),
                ..s
            }
        }
    }
}

pub open spec fn steps(g: Seq<Seq<usize>>, s: Search, n: nat) -> Search
    decreases n,
{
    if n == 0 {
        s
    } else {
        step(g, steps(g, s, (n - 1) as nat))
    }
}

/// Whether the search is over after some steps.
pub open spec fn over(g: Seq<Seq<usize>>, entry: usize, n: nat) -> bool {
    steps(g, search_from(g.len(), entry), n).stack.len() == 0
}

/// The back edges of a graph, in the order in which they are found.
pub open spec fn back_edges(g: Seq<Seq<usize>>, entry: usize) -> Seq<(usize, usize)> {
    steps(g, search_from(g.len(), entry), choose|n: nat| over(g, entry, n)).found
}

proof fn lemma_stays_over(g: Seq<Seq<usize>>, s: Search, m: nat, n: nat)
    requires
        m <= n,
        steps(g, s, m).stack.len() == 0,
    ensures
        steps(g, s, n) == steps(g, s, m),
    decreases n,
{
    if m < n {
        lemma_stays_over(g, s, m, (n - 1) as nat);
    }
}

proof fn lemma_back_edges(g: Seq<Seq<usize>>, entry: usize, n: nat)
    requires
        over(g, entry, n),
    ensures
        back_edges(g, entry) == steps(g, search_from(g.len(), entry), n).found,
{
    let m = choose|n: nat| over(g, entry, n);
    if m <= n {
        lemma_stays_over(g, search_from(g.len(), entry), m, n);
    } else {
        lemma_stays_over(g, search_from(g.len(), entry), n, m);
    }
}

// ---- why it ends ----

/// How many of the first `n` blocks the search has not come to.
spec fn fresh(s: Search, n: int) -> nat
    decreases n,
{
    if n <= 0 {
        0
    } else {
        fresh(s, n - 1) + if !s.on_path[n - 1] && !s.done[n - 1] {
            1nat
        } else {
            0nat
        }
    }
}

/// How much of the path is left to look at.
spec fn ahead(g: Seq<Seq<usize>>, stack: Seq<(usize, usize)>) -> nat
    decreases stack.len(),
{
    if stack.len() == 0 {
        0
    } else {
        let (b, i) = stack.last();
        ahead(g, stack.drop_last()) + if i < g[b as int].len() {
            (g[b as int].len() - i + 1) as nat
        } else {
            1nat
        }
    }
}

spec fn search_wf(g: Seq<Seq<usize>>, s: Search) -> bool {
    &&& s.on_path.len() == g.len()
    &&& s.done.len() == g.len()
    &&& forall|k: int| 0 <= k < s.stack.len() ==> (#[trigger] s.stack[k]).0 < g.len()
}

proof fn lemma_fresh(s: Search, t: Search, c: int, n: int)
    requires
        0 <= n <= s.on_path.len(),
        s.on_path.len() == s.done.len() == t.on_path.len() == t.done.len(),
        forall|k: int|
            0 <= k < n && k != c ==> (#[trigger] t.on_path[k] || t.done[k]) == (s.on_path[k]
                || s.done[k]),
        t.on_path[c] || t.done[c],
        0 <= c < s.on_path.len(),
    ensures
        fresh(t, n) <= fresh(s, n),
        c < n && !s.on_path[c] && !s.done[c] ==> fresh(t, n) < fresh(s, n),
    decreases n,
{
    if n > 0 {
        lemma_fresh(s, t, c, n - 1);
        if n - 1 != c {
            assert((t.on_path[n - 1] || t.done[n - 1]) == (s.on_path[n - 1] || s.done[n - 1]));
        }
    }
}

proof fn lemma_step(g: Seq<Seq<usize>>, s: Search)
    requires
        graph_wf(g),
        search_wf(g, s),
        s.stack.len() > 0,
    ensures
        search_wf(g, step(g, s)),
        g[s.stack.last().0 as int].len() <= usize::MAX ==> fresh(step(g, s), g.len() as int)
            < fresh(s, g.len() as int) || (fresh(step(g, s), g.len() as int) <= fresh(
            s,
            g.len() as int,
        ) && ahead(g, step(g, s).stack) < ahead(g, s.stack)),
{
    let n = g.len() as int;
    let (b, i) = s.stack.last();
    assert(s.stack[s.stack.len() - 1].0 < g.len());
    let rest = s.stack.drop_last();
    let t = step(g, s);
    assert forall|k: int| 0 <= k < rest.len() implies (#[trigger] rest[k]).0 < g.len() by {
        assert(s.stack[k].0 < g.len());
    }
    if i < g[b as int].len() {
        let to = g[b as int][i as int];
        assert(g[b as int][i as int] < g.len());
        let more = rest.push((b, (i + 1) as usize));
        assert(more.drop_last() =~= rest);
        if !s.on_path[to as int] && !s.done[to as int] {
            lemma_fresh(s, t, to as int, n);
        } else {
            assert(t.stack == more);
            lemma_fresh(s, t, to as int, n);
        }
    } else {
        lemma_fresh(s, t, b as int, n);
    }
}

// ---- computing it ----

/// Find the back edges of a graph.
pub fn find_back_edges(g: &Vec<Vec<usize>>, entry: usize) -> (r: Vec<(usize, usize)>)
    requires
        graph_wf(adj(g@)),
        entry < g.len(),
    ensures
        r@ == back_edges(adj(g@), entry),
{
    let ghost gg = adj(g@);
    let n: usize = g.len();
    assert(gg.len() == n);
    let mut stack: Vec<(usize, usize)> = Vec::new();
    stack.push((entry, 0usize));
    let mut on_path: Vec<bool> = super::super::graph::only_one(n, entry);
    let mut done: Vec<bool> = super::super::graph::none_of(n);
    let mut found: Vec<(usize, usize)> = Vec::new();
    let ghost s0 = search_from(gg.len(), entry);
    let ghost mut s = s0;
    let ghost mut count: nat = 0;
    assert(stack@ =~= s.stack);
    assert(on_path@ =~= s.on_path);
    assert(done@ =~= s.done);
    assert(found@ =~= s.found);
    while stack.len() > 0
        invariant
            gg == adj(g@),
            graph_wf(gg),
            gg.len() == n == g.len(),
            s0 == search_from(gg.len(), entry),
            s == steps(gg, s0, count),
            search_wf(gg, s),
            stack@ == s.stack,
            on_path@ == s.on_path,
            done@ == s.done,
            found@ == s.found,
        decreases fresh(s, n as int), ahead(gg, s.stack),
    {
        let ghost t = step(gg, s);
        proof {
            assert(s.stack[s.stack.len() - 1].0 < gg.len());
            assert(gg[s.stack.last().0 as int].len() == g[s.stack.last().0 as int].len());
            lemma_step(gg, s);
        }
        let last = stack[stack.len() - 1];
        let b: usize = last.0;
        let i: usize = last.1;
        assert(s.stack[s.stack.len() - 1].0 < gg.len());
        assert(gg[b as int] == g[b as int]@);
        stack.pop();
        if i < g[b].len() {
            let to: usize = g[b][i];
            assert(gg[b as int][i as int] < gg.len());
            stack.push((b, i + 1));
            if on_path[to] {
                found.push((b, to));
            } else if !done[to] {
                on_path.set(to, true);
                stack.push((to, 0usize));
            }
        } else {
            on_path.set(b, false);
            done.set(b, true);
        }
        proof {
            assert(stack@ =~= t.stack);
            assert(on_path@ =~= t.on_path);
            assert(done@ =~= t.done);
            assert(found@ =~= t.found);
            s = t;
            count = count + 1;
        }
    }
    proof {
        assert(over(gg, entry, count));
        lemma_back_edges(gg, entry, count);
    }
    found
}

proof fn lemma_found_edges(g: Seq<Seq<usize>>, s: Search, n: nat)
    requires
        graph_wf(g),
        search_wf(g, s),
        forall|k: int|
            0 <= k < s.found.len() ==> (#[trigger] s.found[k]).0 < g.len() && g[s.found[k].0 as int].contains(
                s.found[k].1,
            ),
    ensures
        search_wf(g, steps(g, s, n)),
        forall|k: int|
            0 <= k < steps(g, s, n).found.len() ==> (#[trigger] steps(g, s, n).found[k]).0
                < g.len() && g[steps(g, s, n).found[k].0 as int].contains(
                steps(g, s, n).found[k].1,
            ),
    decreases n,
{
    if n > 0 {
        lemma_found_edges(g, s, (n - 1) as nat);
        let t = steps(g, s, (n - 1) as nat);
        let u = steps(g, s, n);
        if t.stack.len() > 0 {
            lemma_step(g, t);
            let (b, i) = t.stack.last();
            assert(t.stack[t.stack.len() - 1].0 < g.len());
            assert forall|k: int| 0 <= k < u.found.len() implies (#[trigger] u.found[k]).0
                < g.len() && g[u.found[k].0 as int].contains(u.found[k].1) by {
                if k < t.found.len() {
                    assert(t.found[k] == u.found[k]);
                } else {
                    assert(g[b as int][i as int] == u.found[k].1);
                }
            }
        }
    }
}

/// Every back edge of a graph is an edge of it.
pub proof fn back_edges_in_range(g: Seq<Seq<usize>>, entry: usize)
    requires
        graph_wf(g),
        entry < g.len(),
    ensures
        forall|k: int|
            0 <= k < back_edges(g, entry).len() ==> (#[trigger] back_edges(g, entry)[k]).0
                < g.len() && back_edges(g, entry)[k].1 < g.len()
                && g[back_edges(g, entry)[k].0 as int].contains(back_edges(g, entry)[k].1),
{
    let n = choose|n: nat| over(g, entry, n);
    lemma_found_edges(g, search_from(g.len(), entry), n);
    let r = back_edges(g, entry);
    assert forall|k: int| 0 <= k < r.len() implies (#[trigger] r[k]).0 < g.len() && r[k].1
        < g.len() && g[r[k].0 as int].contains(r[k].1) by {
        let row = g[r[k].0 as int];
        let j = choose|j: int| 0 <= j < row.len() && row[j] == r[k].1;
        assert(g[r[k].0 as int][j] < g.len());
    }
}

// ---- what is left without them ----

/// A search, with when each block was left.
struct Timed {
    s: Search,
    left: Seq<nat>,
    time: nat,
}

spec fn timed_step(g: Seq<Seq<usize>>, t: Timed) -> Timed {
    let s = step(g, t.s);
    if t.s.stack.len() > 0 && t.s.stack.last().1 >= g[t.s.stack.last().0 as int].len() {
        Timed { s, left: t.left.update(t.s.stack.last().0 as int, t.time), time: t.time + 1 }
    } else {
        Timed { s, ..t }
    }
}

spec fn timed_steps(g: Seq<Seq<usize>>, entry: usize, n: nat) -> Timed
    decreases n,
{
    if n == 0 {
        Timed { s: search_from(g.len(), entry), left: Seq::new(g.len(), |i: int| 0), time: 0 }
    } else {
        timed_step(g, timed_steps(g, entry, (n - 1) as nat))
    }
}

/// An edge of a block that is done with: it goes back, or to a block that was left earlier.
spec fn settled(t: Timed, a: int, to: usize) -> bool {
    t.s.found.contains((a as usize, to)) || (t.s.done[to as int] && t.left[to as int] < t.left[a])
}

/// An edge that was looked at of a block on the path.
spec fn looked_at(t: Timed, p: int, to: usize) -> bool {
    ||| t.s.found.contains((t.s.stack[p].0, to))
    ||| t.s.done[to as int]
    ||| p + 1 < t.s.stack.len() && t.s.stack[p + 1].0 == to
}

spec fn timely(g: Seq<Seq<usize>>, entry: usize, t: Timed) -> bool {
    &&& search_wf(g, t.s)
    &&& t.left.len() == g.len()
    &&& forall|x: int| 0 <= x < g.len() && #[trigger] t.s.done[x] ==> t.left[x] < t.time
        && !t.s.on_path[x]
    &&& forall|a: int, j: int|
        0 <= a < g.len() && t.s.done[a] && 0 <= j < g[a].len() ==> settled(
            t,
            a,
            #[trigger] g[a][j],
        )
    &&& forall|p: int|
        0 <= p < t.s.stack.len() ==> t.s.on_path[(#[trigger] t.s.stack[p]).0 as int]
            && t.s.stack[p].1 <= g[t.s.stack[p].0 as int].len()
    &&& forall|p: int, q: int|
        0 <= p < q < t.s.stack.len() ==> (#[trigger] t.s.stack[p]).0 != (#[trigger] t.s.stack[q]).0
    &&& forall|x: int|
        0 <= x < g.len() && #[trigger] t.s.on_path[x] ==> exists|p: int|
            0 <= p < t.s.stack.len() && (#[trigger] t.s.stack[p]).0 == x
    &&& forall|p: int, j: int|
        0 <= p < t.s.stack.len() && 0 <= j < t.s.stack[p].1 ==> looked_at(
            t,
            p,
            #[trigger] g[t.s.stack[p].0 as int][j],
        )
    &&& forall|k: int|
        0 <= k < t.s.found.len() ==> (#[trigger] t.s.found[k]).1 < g.len() && (
        t.s.on_path[t.s.found[k].1 as int] || t.s.done[t.s.found[k].1 as int])
    &&& t.s.on_path[entry as int] || t.s.done[entry as int]
}

proof fn lemma_timely_look(g: Seq<Seq<usize>>, entry: usize, t: Timed)
    requires
        graph_wf(g),
        entry < g.len() <= usize::MAX,
        forall|a: int| 0 <= a < g.len() ==> (#[trigger] g[a]).len() <= usize::MAX,
        timely(g, entry, t),
        t.s.stack.len() > 0,
        t.s.stack.last().1 < g[t.s.stack.last().0 as int].len(),
    ensures
        timely(g, entry, timed_step(g, t)),
{
    let u = timed_step(g, t);
    let top = t.s.stack.len() - 1;
    let (b, i) = t.s.stack.last();
    assert(t.s.stack[top] == (b, i));
    assert(b < g.len());
    let to = g[b as int][i as int];
    assert(g[b as int][i as int] < g.len());
    lemma_step(g, t.s);
    let rest = t.s.stack.drop_last();
    let more = rest.push((b, (i + 1) as usize));
    assert(g[b as int].len() <= usize::MAX);
    assert forall|p: int| 0 <= p < top implies #[trigger] u.s.stack[p] == t.s.stack[p] by {}
    assert(u.s.stack[top] == (b, (i + 1) as usize));
    if t.s.on_path[to as int] {
        assert(u.s.found[u.s.found.len() - 1] == (b, to));
        assert(u.s.found.contains((b, to)));
    }
    assert forall|e: (usize, usize)| t.s.found.contains(e) implies u.s.found.contains(e) by {
        let k = choose|k: int| 0 <= k < t.s.found.len() && t.s.found[k] == e;
        assert(u.s.found[k] == e);
    }
    let pushed = !t.s.on_path[to as int] && !t.s.done[to as int];
    assert forall|a: int, j: int| 0 <= a < g.len() && u.s.done[a] && 0 <= j < g[a].len() implies
        settled(u, a, #[trigger] g[a][j]) by {
        assert(settled(t, a, g[a][j]));
    }
    assert forall|p: int| 0 <= p < u.s.stack.len() implies u.s.on_path[(
    #[trigger] u.s.stack[p]).0 as int] && u.s.stack[p].1 <= g[u.s.stack[p].0 as int].len() by {
        if p <= top {
            assert(t.s.on_path[t.s.stack[p].0 as int]);
            assert(t.s.stack[p].0 < g.len());
        }
    }
    assert forall|p: int, q: int| 0 <= p < q < u.s.stack.len() implies (
    #[trigger] u.s.stack[p]).0 != (#[trigger] u.s.stack[q]).0 by {
        assert(t.s.on_path[t.s.stack[p].0 as int]);
        if q <= top {
            assert(t.s.stack[p].0 != t.s.stack[q].0);
        }
    }
    assert forall|x: int| 0 <= x < g.len() && #[trigger] u.s.on_path[x] implies exists|p: int|
        0 <= p < u.s.stack.len() && (#[trigger] u.s.stack[p]).0 == x by {
        if t.s.on_path[x] {
            let p = choose|p: int| 0 <= p < t.s.stack.len() && (#[trigger] t.s.stack[p]).0 == x;
            assert(u.s.stack[p].0 == x);
        } else {
            assert(u.s.stack[top + 1].0 == x);
        }
    }
    assert forall|p: int, j: int| 0 <= p < u.s.stack.len() && 0 <= j < u.s.stack[p].1 implies
        looked_at(u, p, #[trigger] g[u.s.stack[p].0 as int][j]) by {
        if p < top {
            assert(looked_at(t, p, g[t.s.stack[p].0 as int][j]));
            assert(u.s.stack[p + 1].0 == t.s.stack[p + 1].0);
        } else if p == top {
            if j < i {
                assert(looked_at(t, top, g[b as int][j]));
            } else if pushed {
                assert(u.s.stack[top + 1].0 == to);
            }
        }
    }
    assert forall|k: int| 0 <= k < u.s.found.len() implies (#[trigger] u.s.found[k]).1 < g.len()
        && (u.s.on_path[u.s.found[k].1 as int] || u.s.done[u.s.found[k].1 as int]) by {
        if k < t.s.found.len() {
            assert(t.s.found[k] == u.s.found[k]);
        }
    }
    assert forall|x: int| 0 <= x < g.len() && #[trigger] u.s.done[x] implies u.left[x] < u.time
        && !u.s.on_path[x] by {
        assert(t.s.done[x]);
    }
}

proof fn lemma_timely_leave(g: Seq<Seq<usize>>, entry: usize, t: Timed)
    requires
        graph_wf(g),
        entry < g.len() <= usize::MAX,
        timely(g, entry, t),
        t.s.stack.len() > 0,
        t.s.stack.last().1 >= g[t.s.stack.last().0 as int].len(),
    ensures
        timely(g, entry, timed_step(g, t)),
{
    let u = timed_step(g, t);
    let top = t.s.stack.len() - 1;
    let (b, i) = t.s.stack.last();
    assert(t.s.stack[top] == (b, i));
    assert(b < g.len());
    lemma_step(g, t.s);
    assert(t.s.on_path[b as int]);
    assert forall|p: int| 0 <= p < top implies #[trigger] u.s.stack[p] == t.s.stack[p] by {}
    assert(u.s.done[b as int]);
    assert(!t.s.done[b as int]);
    assert forall|x: int| 0 <= x < g.len() && #[trigger] u.s.done[x] implies u.left[x] < u.time
        && !u.s.on_path[x] by {
        if x != b {
            assert(t.s.done[x]);
        }
    }
    assert forall|a: int, j: int| 0 <= a < g.len() && u.s.done[a] && 0 <= j < g[a].len() implies
        settled(u, a, #[trigger] g[a][j]) by {
        let to = g[a][j];
        assert(to < g.len());
        if a == b {
            assert(looked_at(t, top, g[t.s.stack[top].0 as int][j]));
            if t.s.done[to as int] {
                assert(t.left[to as int] < t.time);
                assert(to != b);
            }
        } else {
            assert(t.s.done[a]);
            assert(settled(t, a, g[a][j]));
            if t.s.done[to as int] {
                assert(to != b);
            }
        }
    }
    assert forall|p: int| 0 <= p < u.s.stack.len() implies u.s.on_path[(
    #[trigger] u.s.stack[p]).0 as int] && u.s.stack[p].1 <= g[u.s.stack[p].0 as int].len() by {
        assert(t.s.on_path[t.s.stack[p].0 as int]);
        assert(t.s.stack[p].0 != t.s.stack[top].0);
    }
    assert forall|p: int, q: int| 0 <= p < q < u.s.stack.len() implies (
    #[trigger] u.s.stack[p]).0 != (#[trigger] u.s.stack[q]).0 by {
        assert(t.s.stack[p].0 != t.s.stack[q].0);
    }
    assert forall|x: int| 0 <= x < g.len() && #[trigger] u.s.on_path[x] implies exists|p: int|
        0 <= p < u.s.stack.len() && (#[trigger] u.s.stack[p]).0 == x by {
        assert(t.s.on_path[x]);
        let p = choose|p: int| 0 <= p < t.s.stack.len() && (#[trigger] t.s.stack[p]).0 == x;
        assert(x != b);
        assert(u.s.stack[p].0 == x);
    }
    assert forall|p: int, j: int| 0 <= p < u.s.stack.len() && 0 <= j < u.s.stack[p].1 implies
        looked_at(u, p, #[trigger] g[u.s.stack[p].0 as int][j]) by {
        assert(looked_at(t, p, g[t.s.stack[p].0 as int][j]));
        if p + 1 < top {
            assert(u.s.stack[p + 1].0 == t.s.stack[p + 1].0);
        }
    }
    assert forall|k: int| 0 <= k < u.s.found.len() implies (#[trigger] u.s.found[k]).1 < g.len()
        && (u.s.on_path[u.s.found[k].1 as int] || u.s.done[u.s.found[k].1 as int]) by {
        assert(t.s.found[k] == u.s.found[k]);
    }
}

proof fn lemma_timely(g: Seq<Seq<usize>>, entry: usize, n: nat)
    requires
        graph_wf(g),
        entry < g.len() <= usize::MAX,
        forall|a: int| 0 <= a < g.len() ==> (#[trigger] g[a]).len() <= usize::MAX,
    ensures
        timely(g, entry, timed_steps(g, entry, n)),
        timed_steps(g, entry, n).s == steps(g, search_from(g.len(), entry), n),
    decreases n,
{
    if n > 0 {
        lemma_timely(g, entry, (n - 1) as nat);
        let t = timed_steps(g, entry, (n - 1) as nat);
        if t.s.stack.len() > 0 {
            if t.s.stack.last().1 < g[t.s.stack.last().0 as int].len() {
                lemma_timely_look(g, entry, t);
            } else {
                lemma_timely_leave(g, entry, t);
            }
        }
    } else {
        let t = timed_steps(g, entry, 0);
        assert(t.s.stack[0].0 == entry);
    }
}

/// Every search comes to an end.
proof fn lemma_ends(g: Seq<Seq<usize>>, s: Search) -> (n: nat)
    requires
        graph_wf(g),
        search_wf(g, s),
        forall|a: int| 0 <= a < g.len() ==> (#[trigger] g[a]).len() <= usize::MAX,
    ensures
        steps(g, s, n).stack.len() == 0,
    decreases fresh(s, g.len() as int), ahead(g, s.stack),
{
    if s.stack.len() == 0 {
        0
    } else {
        assert(s.stack[s.stack.len() - 1].0 < g.len());
        assert(g[s.stack.last().0 as int].len() <= usize::MAX);
        lemma_step(g, s);
        let m = lemma_ends(g, step(g, s));
        lemma_step_first(g, s, m);
        m + 1
    }
}

proof fn lemma_step_first(g: Seq<Seq<usize>>, s: Search, n: nat)
    ensures
        steps(g, step(g, s), n) == steps(g, s, n + 1),
    decreases n,
{
    if n > 0 {
        lemma_step_first(g, s, (n - 1) as nat);
    } else {
        assert(steps(g, s, 1) == step(g, steps(g, s, 0)));
    }
}

/// Without the back edges, nothing that can be got to lies on a cycle: there is an order of
/// the blocks in which every other edge from a block that can be got to leads down.
pub proof fn back_edges_break_every_cycle(g: Seq<Seq<usize>>, entry: usize) -> (order: Seq<nat>)
    requires
        graph_wf(g),
        entry < g.len() <= usize::MAX,
        forall|a: int| 0 <= a < g.len() ==> (#[trigger] g[a]).len() <= usize::MAX,
    ensures
        order.len() == g.len(),
        forall|a: int, b: int|
            #[trigger] edge(g, a, b) && walks(g, nowhere(g.len()), entry as int, a)
                && !back_edges(g, entry).contains((a as usize, b as usize)) ==> order[b]
                < order[a],
{
    let s0 = search_from(g.len(), entry);
    assert(s0.stack[0].0 == entry);
    let n = lemma_ends(g, s0);
    lemma_timely(g, entry, n);
    assert(over(g, entry, n));
    lemma_back_edges(g, entry, n);
    let t = timed_steps(g, entry, n);
    let none = nowhere(g.len());
    assert forall|x: int| 0 <= x < g.len() implies !t.s.on_path[x] by {
        if t.s.on_path[x] {
            let p = choose|p: int| 0 <= p < t.s.stack.len() && (#[trigger] t.s.stack[p]).0 == x;
        }
    }
    assert forall|a: int, b: int| #[trigger] edge(g, a, b) && t.s.done[a] && !none[b] implies
        t.s.done[b] by {
        let j = choose|j: int| 0 <= j < g[a].len() && g[a][j] == b as usize;
        assert(settled(t, a, g[a][j]));
        if t.s.found.contains((a as usize, b as usize)) {
            let k = choose|k: int|
                0 <= k < t.s.found.len() && t.s.found[k] == (a as usize, b as usize);
            assert(t.s.on_path[t.s.found[k].1 as int] || t.s.done[t.s.found[k].1 as int]);
        }
    }
    assert forall|a: int, b: int| #[trigger] edge(g, a, b) && walks(g, none, entry as int, a)
        && !back_edges(g, entry).contains((a as usize, b as usize)) implies t.left[b]
        < t.left[a] by {
        let p = choose|p: Seq<int>|
            #[trigger] is_walk(g, none, p) && p[0] == entry as int && p.last() == a;
        closed_under_walk(g, none, t.s.done, p);
        let j = choose|j: int| 0 <= j < g[a].len() && g[a][j] == b as usize;
        assert(settled(t, a, g[a][j]));
    }
    t.left
}

} // verus!
