//! Reachability in finite graphs.
//!
//! A graph is its adjacency lists: node `a` has an edge to every node in `g[a]`. What a
//! question about a graph means is said in terms of walks along its edges.

use vstd::prelude::*;

verus! {

/// The adjacency lists that a vector of vectors holds.
pub open spec fn adj(g: Seq<Vec<usize>>) -> Seq<Seq<usize>> {
    g.map_values(|v: Vec<usize>| v@)
}

/// A graph whose edges all lead to nodes it has.
pub open spec fn graph_wf(g: Seq<Seq<usize>>) -> bool {
    forall|a: int, k: int|
        0 <= a < g.len() && 0 <= k < g[a].len() ==> (#[trigger] g[a][k]) < g.len()
}

pub open spec fn edge(g: Seq<Seq<usize>>, a: int, b: int) -> bool {
    &&& 0 <= a < g.len()
    &&& 0 <= b < g.len()
    &&& g[a].contains(b as usize)
}

/// A walk: every node has an edge to the next, and no node but the first is blocked.
pub open spec fn is_walk(g: Seq<Seq<usize>>, blocked: Seq<bool>, p: Seq<int>) -> bool {
    &&& p.len() > 0
    &&& forall|k: int| 0 <= k < p.len() ==> 0 <= #[trigger] p[k] < g.len()
    &&& forall|k: int| 0 < k < p.len() ==> edge(g, p[k - 1], #[trigger] p[k]) && !blocked[p[k]]
}

/// Whether a walk leads from `a` to `b`.
pub open spec fn walks(g: Seq<Seq<usize>>, blocked: Seq<bool>, a: int, b: int) -> bool {
    exists|p: Seq<int>| #[trigger] is_walk(g, blocked, p) && p[0] == a && p.last() == b
}

/// Whether a walk leads from one of the starts to `b`.
pub open spec fn reached(g: Seq<Seq<usize>>, blocked: Seq<bool>, starts: Seq<bool>, b: int) -> bool {
    exists|a: int| 0 <= a < g.len() && #[trigger] starts[a] && walks(g, blocked, a, b)
}

/// Whether a walk of at least one edge leads from `a` back to `a`.
pub open spec fn on_cycle(g: Seq<Seq<usize>>, a: int) -> bool {
    exists|b: int| #[trigger] edge(g, a, b) && walks(g, nowhere(g.len()), b, a)
}

/// No node is blocked.
pub open spec fn nowhere(n: nat) -> Seq<bool> {
    Seq::new(n, |i: int| false)
}

/// Only one node.
pub open spec fn only(n: nat, a: int) -> Seq<bool> {
    Seq::new(n, |i: int| i == a)
}

pub proof fn walk_of_one(g: Seq<Seq<usize>>, blocked: Seq<bool>, a: int)
    requires
        0 <= a < g.len(),
    ensures
        walks(g, blocked, a, a),
{
    let p = seq![a];
    assert(is_walk(g, blocked, p) && p[0] == a && p.last() == a);
}

pub proof fn walk_extends(g: Seq<Seq<usize>>, blocked: Seq<bool>, a: int, b: int, c: int)
    requires
        walks(g, blocked, a, b),
        edge(g, b, c),
        !blocked[c],
    ensures
        walks(g, blocked, a, c),
{
    let p = choose|p: Seq<int>| #[trigger] is_walk(g, blocked, p) && p[0] == a && p.last() == b;
    let q = p.push(c);
    assert forall|k: int| 0 < k < q.len() implies edge(g, q[k - 1], #[trigger] q[k])
        && !blocked[q[k]] by {
        if k < p.len() {
            assert(q[k] == p[k] && q[k - 1] == p[k - 1]);
        } else {
            assert(q[k - 1] == p.last());
        }
    }
    assert(is_walk(g, blocked, q) && q[0] == a && q.last() == c);
}

/// A set that holds the first node of a walk and is closed under edges holds its last.
pub proof fn closed_under_walk(g: Seq<Seq<usize>>, blocked: Seq<bool>, seen: Seq<bool>, p: Seq<int>)
    requires
        is_walk(g, blocked, p),
        seen[p[0]],
        forall|a: int, b: int| #[trigger] edge(g, a, b) && seen[a] && !blocked[b] ==> seen[b],
    ensures
        seen[p.last()],
    decreases p.len(),
{
    if p.len() > 1 {
        let q = p.drop_last();
        assert forall|k: int| 0 < k < q.len() implies edge(g, q[k - 1], #[trigger] q[k])
            && !blocked[q[k]] by {
            assert(q[k] == p[k] && q[k - 1] == p[k - 1]);
        }
        closed_under_walk(g, blocked, seen, q);
        let k = p.len() - 1;
        assert(edge(g, p[k - 1], p[k]) && !blocked[p[k]]);
    }
}

/// How many nodes are not yet seen.
spec fn unseen(seen: Seq<bool>, n: int) -> nat
    decreases n,
{
    if n <= 0 {
        0
    } else {
        unseen(seen, n - 1) + if seen[n - 1] {
            0nat
        } else {
            1nat
        }
    }
}

proof fn unseen_shrinks(seen: Seq<bool>, n: int, a: int)
    requires
        0 <= n <= seen.len(),
        0 <= a < seen.len(),
        !seen[a],
    ensures
        unseen(seen.update(a, true), n) == unseen(seen, n) - if a < n {
            1int
        } else {
            0int
        },
    decreases n,
{
    if n > 0 {
        unseen_shrinks(seen, n - 1, a);
    }
}

/// The nodes that walks from the starts lead to.
pub fn reachable(g: &Vec<Vec<usize>>, starts: &Vec<bool>, blocked: &Vec<bool>) -> (r: Vec<bool>)
    requires
        graph_wf(adj(g@)),
        starts.len() == g.len(),
        blocked.len() == g.len(),
    ensures
        r.len() == g.len(),
        forall|b: int| 0 <= b < r.len() ==> #[trigger] r[b] == reached(adj(g@), blocked@, starts@, b),
{
    let ghost gg = adj(g@);
    let n: usize = g.len();
    let mut seen: Vec<bool> = Vec::new();
    let mut stack: Vec<usize> = Vec::new();
    let mut i: usize = 0;
    while i < n
        invariant
            i <= n == g.len(),
            starts.len() == n,
            seen.len() == i,
            forall|a: int| 0 <= a < i ==> #[trigger] seen[a] == starts[a],
            forall|a: int| 0 <= a < i && #[trigger] starts[a] ==> stack@.contains(a as usize),
            forall|k: int| 0 <= k < stack.len() ==> (#[trigger] stack[k]) < i && starts[stack[k] as int],
        decreases n - i,
    {
        let ghost before = stack@;
        seen.push(starts[i]);
        if starts[i] {
            stack.push(i);
            assert(stack@[stack.len() - 1] == i);
        }
        assert forall|a: int| 0 <= a < i + 1 && #[trigger] starts[a] implies stack@.contains(
            a as usize,
        ) by {
            if a < i {
                assert(before.contains(a as usize));
                let k = choose|k: int| 0 <= k < before.len() && before[k] == a as usize;
                assert(stack@[k] == a as usize);
            }
        }
        i += 1;
    }
    proof {
        assert forall|b: int| 0 <= b < n && #[trigger] seen[b] implies reached(
            gg,
            blocked@,
            starts@,
            b,
        ) by {
            walk_of_one(gg, blocked@, b);
            assert(starts@[b]);
        }
        assert forall|a: int, b: int|
            #[trigger] edge(gg, a, b) && seen@[a] && !blocked@[b] implies seen@[b]
            || stack@.contains(a as usize) by {
            assert(starts[a]);
        }
    }
    while stack.len() > 0
        invariant
            n == g.len(),
            gg == adj(g@),
            graph_wf(gg),
            starts.len() == n,
            blocked.len() == n,
            seen.len() == n,
            forall|a: int| 0 <= a < n && #[trigger] starts[a] ==> seen[a],
            forall|b: int|
                0 <= b < n && #[trigger] seen[b] ==> reached(gg, blocked@, starts@, b),
            forall|k: int| 0 <= k < stack.len() ==> (#[trigger] stack[k]) < n && seen[stack[k] as int],
            forall|a: int, b: int|
                #[trigger] edge(gg, a, b) && seen@[a] && !blocked@[b] ==> seen@[b]
                    || stack@.contains(a as usize),
        decreases unseen(seen@, n as int), stack.len(),
    {
        let ghost stack0 = stack@;
        let ghost seen0 = seen@;
        let a: usize = stack.pop().unwrap();
        assert(stack0[stack0.len() - 1] == a);
        assert(seen[a as int]);
        let mut k: usize = 0;
        assert forall|x: int, y: int|
            #[trigger] edge(gg, x, y) && seen@[x] && !blocked@[y] implies seen@[y]
            || stack@.contains(x as usize) || x == a by {
            if stack0.contains(x as usize) {
                let j = choose|j: int| 0 <= j < stack0.len() && stack0[j] == x as usize;
                if j < stack0.len() - 1 {
                    assert(stack@[j] == x as usize);
                }
            }
        }
        while k < g[a].len()
            invariant
                n == g.len(),
                gg == adj(g@),
            graph_wf(gg),
                a < n,
                seen[a as int],
                starts.len() == n,
                blocked.len() == n,
                seen.len() == n,
                k <= gg[a as int].len(),
                forall|x: int| 0 <= x < n && #[trigger] starts[x] ==> seen[x],
                forall|b: int|
                    0 <= b < n && #[trigger] seen[b] ==> reached(gg, blocked@, starts@, b),
                forall|j: int|
                    0 <= j < stack.len() ==> (#[trigger] stack[j]) < n && seen[stack[j] as int],
                forall|x: int, y: int|
                    #[trigger] edge(gg, x, y) && seen@[x] && !blocked@[y] ==> seen@[y]
                        || stack@.contains(x as usize) || x == a,
                forall|j: int|
                    0 <= j < k ==> seen[(#[trigger] gg[a as int][j]) as int]
                        || blocked[gg[a as int][j] as int],
                unseen(seen@, n as int) < unseen(seen0, n as int) || (seen@ == seen0
                    && stack.len() < stack0.len()),
            decreases gg[a as int].len() - k,
        {
            let b: usize = g[a][k];
            assert(gg[a as int][k as int] == b);
            assert(edge(gg, a as int, b as int));
            if !blocked[b] && !seen[b] {
                proof {
                    unseen_shrinks(seen@, n as int, b as int);
                    let s = choose|s: int|
                        0 <= s < gg.len() && #[trigger] starts@[s] && walks(
                            gg,
                            blocked@,
                            s,
                            a as int,
                        );
                    walk_extends(gg, blocked@, s, a as int, b as int);
                    assert(reached(gg, blocked@, starts@, b as int)) by {
                        assert(starts@[s]);
                    }
                }
                let ghost seen1 = seen@;
                let ghost stack1 = stack@;
                seen.set(b, true);
                stack.push(b);
                assert(stack@[stack.len() - 1] == b);
                assert forall|x: int, y: int|
                    #[trigger] edge(gg, x, y) && seen@[x] && !blocked@[y] implies seen@[y]
                    || stack@.contains(x as usize) || x == a by {
                    if x != b && stack1.contains(x as usize) {
                        let j = choose|j: int| 0 <= j < stack1.len() && stack1[j] == x as usize;
                        assert(stack@[j] == x as usize);
                    }
                }
            }
            k += 1;
        }
        assert forall|x: int, y: int|
            #[trigger] edge(gg, x, y) && seen@[x] && !blocked@[y] implies seen@[y]
            || stack@.contains(x as usize) by {
            if x == a {
                let j = choose|j: int| 0 <= j < gg[x].len() && gg[x][j] == y as usize;
                assert(gg[a as int][j] == y as usize);
            }
        }
    }
    proof {
        assert forall|b: int| 0 <= b < seen.len() && reached(
            gg,
            blocked@,
            starts@,
            b,
        ) implies #[trigger] seen[b] by {
            let s = choose|s: int|
                0 <= s < gg.len() && #[trigger] starts@[s] && walks(gg, blocked@, s, b);
            let p = choose|p: Seq<int>| #[trigger]
                is_walk(gg, blocked@, p) && p[0] == s && p.last() == b;
            assert(starts[s]);
            assert forall|x: int, y: int|
                #[trigger] edge(gg, x, y) && seen@[x] && !blocked@[y] implies seen@[y] by {
                if stack@.contains(x as usize) {
                    let j = choose|j: int| 0 <= j < stack@.len() && stack@[j] == x as usize;
                }
            }
            closed_under_walk(gg, blocked@, seen@, p);
        }
    }
    seen
}

/// A vector of `n` times `false`.
pub fn none_of(n: usize) -> (r: Vec<bool>)
    ensures
        r@ == nowhere(n as nat),
{
    let mut r: Vec<bool> = Vec::new();
    let mut i: usize = 0;
    while i < n
        invariant
            i <= n,
            r.len() == i,
            forall|j: int| 0 <= j < i ==> !#[trigger] r[j],
        decreases n - i,
    {
        r.push(false);
        i += 1;
    }
    assert(r@ =~= nowhere(n as nat));
    r
}

/// A vector that marks one of `n` nodes.
pub fn only_one(n: usize, a: usize) -> (r: Vec<bool>)
    requires
        a < n,
    ensures
        r@ == only(n as nat, a as int),
{
    let mut r = none_of(n);
    r.set(a, true);
    assert(r@ =~= only(n as nat, a as int));
    r
}

/// Whether a walk of at least one edge leads from `a` back to `a`.
pub fn is_on_cycle(g: &Vec<Vec<usize>>, a: usize) -> (r: bool)
    requires
        graph_wf(adj(g@)),
        a < g.len(),
    ensures
        r == on_cycle(adj(g@), a as int),
{
    let ghost gg = adj(g@);
    let mut starts = none_of(g.len());
    let mut k: usize = 0;
    while k < g[a].len()
        invariant
            gg == adj(g@),
            graph_wf(gg),
            a < g.len(),
            starts.len() == g.len(),
            k <= gg[a as int].len(),
            forall|b: int|
                0 <= b < g.len() ==> (#[trigger] starts[b] <==> exists|j: int|
                    0 <= j < k && #[trigger] gg[a as int][j] == b),
        decreases gg[a as int].len() - k,
    {
        let b: usize = g[a][k];
        assert(gg[a as int][k as int] == b);
        let ghost before = starts@;
        starts.set(b, true);
        assert forall|c: int| 0 <= c < g.len() implies (#[trigger] starts[c] <==> exists|j: int|
            0 <= j < k + 1 && #[trigger] gg[a as int][j] == c) by {
            if before[c] {
                let j = choose|j: int| 0 <= j < k && #[trigger] gg[a as int][j] == c;
                assert(gg[a as int][j] == c);
            }
            if c == b {
                assert(gg[a as int][k as int] == c);
            }
        }
        k += 1;
    }
    let blocked = none_of(g.len());
    let r = reachable(g, &starts, &blocked);
    proof {
        if r[a as int] {
            let b = choose|b: int|
                0 <= b < gg.len() && #[trigger] starts@[b] && walks(gg, blocked@, b, a as int);
            let j = choose|j: int| 0 <= j < k && #[trigger] gg[a as int][j] == b;
            assert(gg[a as int][j] == b as usize);
            assert(edge(gg, a as int, b));
        }
        if on_cycle(gg, a as int) {
            let b = choose|b: int| #[trigger]
                edge(gg, a as int, b) && walks(gg, nowhere(gg.len()), b, a as int);
            let j = choose|j: int| 0 <= j < gg[a as int].len() && gg[a as int][j] == b as usize;
            assert(gg[a as int][j] == b);
            assert(starts@[b]);
            assert(reached(gg, blocked@, starts@, a as int));
        }
    }
    r[a]
}

} // verus!
