//! What optimising brings in: no counts, and no calls.

use super::dead::{block_sweeps, left, stays, sweeping_keeps, sweeps, swept};
use super::fold::{branch_folding_keeps, branches_folded, folded, folding_keeps};
use super::merge::{
    fused, fuses, fusing_keeps, lemma_next_fuse, merged, mergers, next_fuse, spliced,
};
use super::prune::survivors;
use super::thread::{threaded, threading_keeps};
use super::weight::weight;
use super::{
    lemma_rounds_wf, optimized, round, round_changes, rounds, rounds_come_to_an_end,
};
use crate::ir::ssa::{blocks_wf, targets, values_wf, SFunc, SInst, SOp};
use vstd::prelude::*;

verus! {

/// A sort of operation.
pub enum Sort {
    /// A retain or a release.
    Count,
    /// A call of a function by its name.
    Call,
}

pub open spec fn of_sort(op: SOp, sort: Sort) -> bool {
    match sort {
        Sort::Count => op is Retain || op is Release,
        Sort::Call => op is Call,
    }
}

pub open spec fn insts_free(is: Seq<SInst>, sort: Sort) -> bool {
    forall|k: int| 0 <= k < is.len() ==> !of_sort((#[trigger] is[k]).op, sort)
}

/// A function without operations of a sort.
pub open spec fn free_of(f: SFunc, sort: Sort) -> bool {
    forall|b: int| 0 <= b < f.blocks.len() ==> insts_free((#[trigger] f.blocks[b]).insts, sort)
}

proof fn folding_is_free(f: SFunc, sort: Sort)
    requires
        free_of(f, sort),
    ensures
        free_of(folded(f), sort),
{
    let g = folded(f);
    assert forall|b: int| 0 <= b < g.blocks.len() implies insts_free(
        (#[trigger] g.blocks[b]).insts,
        sort,
    ) by {
        assert(insts_free(f.blocks[b].insts, sort));
        let is = g.blocks[b].insts;
        assert forall|k: int| 0 <= k < is.len() implies !of_sort((#[trigger] is[k]).op, sort) by {
            assert(!of_sort(f.blocks[b].insts[k].op, sort));
        }
    }
}

proof fn left_is_free(
    f: SFunc,
    pure: Map<Seq<char>, bool>,
    natives: Seq<Seq<char>>,
    is: Seq<SInst>,
    n: int,
    sort: Sort,
)
    requires
        insts_free(is, sort),
        n <= is.len(),
    ensures
        insts_free(left(f, pure, natives, is, n), sort),
    decreases n,
{
    if n > 0 {
        left_is_free(f, pure, natives, is, n - 1, sort);
        assert(!of_sort(is[n - 1].op, sort));
    }
}

proof fn sweeping_is_free(
    f: SFunc,
    pure: Map<Seq<char>, bool>,
    natives: Seq<Seq<char>>,
    sort: Sort,
)
    requires
        free_of(f, sort),
    ensures
        free_of(swept(f, pure, natives), sort),
{
    let g = swept(f, pure, natives);
    assert forall|b: int| 0 <= b < g.blocks.len() implies insts_free(
        (#[trigger] g.blocks[b]).insts,
        sort,
    ) by {
        let is = f.blocks[b].insts;
        assert(insts_free(is, sort));
        left_is_free(f, pure, natives, is, is.len() as int, sort);
    }
}

proof fn terms_are_free(f: SFunc, g: SFunc, sort: Sort)
    requires
        free_of(f, sort),
        g.blocks.len() == f.blocks.len(),
        forall|b: int|
            0 <= b < f.blocks.len() ==> (#[trigger] g.blocks[b]).insts == f.blocks[b].insts,
    ensures
        free_of(g, sort),
{
    assert forall|b: int| 0 <= b < g.blocks.len() implies insts_free(
        (#[trigger] g.blocks[b]).insts,
        sort,
    ) by {
        assert(insts_free(f.blocks[b].insts, sort));
    }
}

proof fn fusing_is_free(f: SFunc, a: int, sort: Sort)
    requires
        blocks_wf(f),
        0 <= a < f.blocks.len(),
        fuses(f, a),
        free_of(f, sort),
    ensures
        free_of(fused(f, a), sort),
{
    let t = f.blocks[a].term->Jump_0;
    let bs = spliced(f, a);
    assert(targets(f.blocks[a].term)[0] == t);
    assert(t.to.0 < f.blocks.len());
    let g = fused(f, a);
    assert forall|b: int| 0 <= b < g.blocks.len() implies insts_free(
        (#[trigger] g.blocks[b]).insts,
        sort,
    ) by {
        let x = bs[b].insts;
        let (p, q) = (f.blocks[a].insts, f.blocks[t.to.0 as int].insts);
        assert(insts_free(p, sort));
        assert(insts_free(q, sort));
        assert(insts_free(f.blocks[b].insts, sort));
        assert(insts_free(x, sort)) by {
            if b == a {
                assert(x == p + q);
                assert forall|k: int| 0 <= k < x.len() implies !of_sort(
                    (#[trigger] x[k]).op,
                    sort,
                ) by {
                    if k < p.len() {
                        assert(x[k] == p[k]);
                    } else {
                        assert(x[k] == q[k - p.len()]);
                    }
                }
            }
        }
        let is = g.blocks[b].insts;
        assert forall|k: int| 0 <= k < is.len() implies !of_sort((#[trigger] is[k]).op, sort) by {
            assert(!of_sort(x[k].op, sort));
        }
    }
}

proof fn mergers_are_free(f: SFunc, n: nat, sort: Sort)
    requires
        blocks_wf(f),
        values_wf(f),
        free_of(f, sort),
    ensures
        free_of(mergers(f, n), sort),
    decreases n,
{
    lemma_next_fuse(f, 0);
    if let Some(a) = next_fuse(f, 0) {
        if n > 0 {
            fusing_keeps(f, a);
            fusing_is_free(f, a, sort);
            mergers_are_free(fused(f, a), (n - 1) as nat, sort);
        }
    }
}

proof fn survivors_are_free(f: SFunc, n: int, sort: Sort)
    requires
        free_of(f, sort),
        n <= f.blocks.len(),
    ensures
        forall|b: int|
            0 <= b < survivors(f, n).len() ==> insts_free(
                (#[trigger] survivors(f, n)[b]).insts,
                sort,
            ),
    decreases n,
{
    if n > 0 {
        survivors_are_free(f, n - 1, sort);
        assert(insts_free(f.blocks[n - 1].insts, sort));
    }
}

proof fn round_is_free(
    f: SFunc,
    pure: Map<Seq<char>, bool>,
    natives: Seq<Seq<char>>,
    sort: Sort,
)
    requires
        blocks_wf(f),
        values_wf(f),
        free_of(f, sort),
    ensures
        free_of(round(f, pure, natives), sort),
{
    let f1 = folded(f);
    folding_keeps(f);
    folding_is_free(f, sort);
    let f2 = swept(f1, pure, natives);
    sweeping_keeps(f1, pure, natives);
    sweeping_is_free(f1, pure, natives, sort);
    let f3 = branches_folded(f2);
    branch_folding_keeps(f2);
    terms_are_free(f2, f3, sort);
    let f4 = threaded(f3);
    threading_keeps(f3);
    terms_are_free(f3, f4, sort);
    mergers_are_free(f4, f4.blocks.len(), sort);
    let f5 = merged(f4);
    survivors_are_free(f5, f5.blocks.len() as int, sort);
}

proof fn rounds_are_free(
    f: SFunc,
    pure: Map<Seq<char>, bool>,
    natives: Seq<Seq<char>>,
    n: nat,
    sort: Sort,
)
    requires
        blocks_wf(f),
        values_wf(f),
        free_of(f, sort),
    ensures
        free_of(rounds(f, pure, natives, n), sort),
    decreases n,
{
    if n > 0 {
        rounds_are_free(f, pure, natives, (n - 1) as nat, sort);
        lemma_rounds_wf(f, pure, natives, (n - 1) as nat);
        round_is_free(rounds(f, pure, natives, (n - 1) as nat), pure, natives, sort);
    }
}

/// Optimising brings in no counts and no calls.
pub proof fn optimizing_brings_in_none(
    f: SFunc,
    g: SFunc,
    pure: Map<Seq<char>, bool>,
    natives: Seq<Seq<char>>,
    sort: Sort,
)
    requires
        blocks_wf(f),
        values_wf(f),
        optimized(f, g, pure, natives),
        free_of(f, sort),
    ensures
        free_of(g, sort),
{
    let n = choose|n: nat| g == #[trigger] rounds(f, pure, natives, n);
    rounds_are_free(f, pure, natives, n, sort);
}

// ---- without calls, no table is asked ----

proof fn lemma_left_alike(
    f: SFunc,
    p: Map<Seq<char>, bool>,
    q: Map<Seq<char>, bool>,
    natives: Seq<Seq<char>>,
    is: Seq<SInst>,
    n: int,
)
    requires
        insts_free(is, Sort::Call),
        n <= is.len(),
    ensures
        left(f, p, natives, is, n) == left(f, q, natives, is, n),
    decreases n,
{
    if n > 0 {
        lemma_left_alike(f, p, q, natives, is, n - 1);
        assert(!of_sort(is[n - 1].op, Sort::Call));
    }
}

proof fn lemma_swept_alike(
    f: SFunc,
    p: Map<Seq<char>, bool>,
    q: Map<Seq<char>, bool>,
    natives: Seq<Seq<char>>,
)
    requires
        free_of(f, Sort::Call),
    ensures
        swept(f, p, natives) == swept(f, q, natives),
        sweeps(f, p, natives) == sweeps(f, q, natives),
{
    let (a, b) = (swept(f, p, natives), swept(f, q, natives));
    assert forall|x: int| 0 <= x < f.blocks.len() implies a.blocks[x] == b.blocks[x] by {
        let is = f.blocks[x].insts;
        assert(insts_free(is, Sort::Call));
        lemma_left_alike(f, p, q, natives, is, is.len() as int);
    }
    assert(a.blocks =~= b.blocks);
    assert forall|x: int, k: int|
        0 <= x < f.blocks.len() && 0 <= k < f.blocks[x].insts.len() implies stays(
        f,
        p,
        natives,
        #[trigger] f.blocks[x].insts[k],
    ) == stays(f, q, natives, f.blocks[x].insts[k]) by {
        assert(insts_free(f.blocks[x].insts, Sort::Call));
        assert(!of_sort(f.blocks[x].insts[k].op, Sort::Call));
    }
    if sweeps(f, p, natives) {
        let x = choose|x: int|
            0 <= x < f.blocks.len() && block_sweeps(
                f,
                p,
                natives,
                #[trigger] f.blocks[x],
            );
        let k = choose|k: int|
            0 <= k < f.blocks[x].insts.len() && !stays(
                f,
                p,
                natives,
                #[trigger] f.blocks[x].insts[k],
            );
        assert(!stays(f, q, natives, f.blocks[x].insts[k]));
        assert(block_sweeps(f, q, natives, f.blocks[x]));
    }
    if sweeps(f, q, natives) {
        let x = choose|x: int|
            0 <= x < f.blocks.len() && block_sweeps(
                f,
                q,
                natives,
                #[trigger] f.blocks[x],
            );
        let k = choose|k: int|
            0 <= k < f.blocks[x].insts.len() && !stays(
                f,
                q,
                natives,
                #[trigger] f.blocks[x].insts[k],
            );
        assert(!stays(f, p, natives, f.blocks[x].insts[k]));
        assert(block_sweeps(f, p, natives, f.blocks[x]));
    }
}

proof fn lemma_rounds_alike(
    f: SFunc,
    p: Map<Seq<char>, bool>,
    q: Map<Seq<char>, bool>,
    natives: Seq<Seq<char>>,
    n: nat,
)
    requires
        blocks_wf(f),
        values_wf(f),
        free_of(f, Sort::Call),
    ensures
        rounds(f, p, natives, n) == rounds(f, q, natives, n),
        round_changes(rounds(f, p, natives, n), p, natives) == round_changes(
            rounds(f, p, natives, n),
            q,
            natives,
        ),
    decreases n,
{
    let g = rounds(f, p, natives, n);
    rounds_are_free(f, p, natives, n, Sort::Call);
    folding_is_free(g, Sort::Call);
    lemma_swept_alike(folded(g), p, q, natives);
    if n > 0 {
        let m = (n - 1) as nat;
        lemma_rounds_alike(f, p, q, natives, m);
        let h = rounds(f, p, natives, m);
        rounds_are_free(f, p, natives, m, Sort::Call);
        folding_is_free(h, Sort::Call);
        lemma_swept_alike(folded(h), p, q, natives);
    }
}

/// A function without calls is optimised alike whichever functions are pure.
pub proof fn calls_alone_ask_for_purity(
    f: SFunc,
    g: SFunc,
    p: Map<Seq<char>, bool>,
    q: Map<Seq<char>, bool>,
    natives: Seq<Seq<char>>,
)
    requires
        blocks_wf(f),
        values_wf(f),
        free_of(f, Sort::Call),
        optimized(f, g, p, natives),
    ensures
        optimized(f, g, q, natives),
{
    let n = choose|n: nat| g == #[trigger] rounds(f, p, natives, n);
    lemma_rounds_alike(f, p, q, natives, n);
    assert(g == rounds(f, q, natives, n));
}

// ---- there is an optimised form ----

proof fn lemma_round_first(
    f: SFunc,
    pure: Map<Seq<char>, bool>,
    natives: Seq<Seq<char>>,
    n: nat,
)
    ensures
        rounds(round(f, pure, natives), pure, natives, n) == rounds(f, pure, natives, n + 1),
    decreases n,
{
    if n > 0 {
        lemma_round_first(f, pure, natives, (n - 1) as nat);
    } else {
        assert(rounds(f, pure, natives, 0) == f);
        assert(rounds(f, pure, natives, 1) == round(rounds(f, pure, natives, 0), pure, natives));
    }
}

/// Every function has an optimised form.
pub proof fn an_optimized_form_exists(
    f: SFunc,
    pure: Map<Seq<char>, bool>,
    natives: Seq<Seq<char>>,
) -> (g: SFunc)
    requires
        blocks_wf(f),
        values_wf(f),
    ensures
        optimized(f, g, pure, natives),
    decreases f.blocks.len(), weight(f),
{
    if round_changes(f, pure, natives) {
        rounds_come_to_an_end(f, pure, natives);
        let g = an_optimized_form_exists(round(f, pure, natives), pure, natives);
        let n = choose|n: nat| g == #[trigger] rounds(round(f, pure, natives), pure, natives, n);
        lemma_round_first(f, pure, natives, n);
        assert(g == rounds(f, pure, natives, n + 1));
        g
    } else {
        assert(f == rounds(f, pure, natives, 0));
        f
    }
}

} // verus!
