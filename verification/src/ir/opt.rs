//! The optimiser: passes over a function, run until none of them changes anything.
//!
//! The passes feed one another. Folding a condition leaves a branch on a constant, folding
//! that cuts off blocks, and taking those out leaves blocks to merge, which brings more
//! constants together.

use super::effects::{analyze_quiet, quiet, Purity};
use super::ssa::{blocks_wf, values_wf, Func, Program, SFunc};
use crate::syntax::{names_of, sems, Node};
use vstd::prelude::*;

pub mod dead;
pub mod fold;
pub mod fused;
pub mod laws;
pub mod meaning;
pub mod merge;
pub mod operands;
pub mod prune;
pub mod runs;
pub mod thread;
pub mod weight;

use dead::{dead_code, sweeping_keeps, sweeps, swept};
use fold::{
    branch_folding_keeps, branch_folds, branches_folded, const_fold, fold_const_branches, folded,
    folding_keeps, folds,
};
use merge::{merge_single_pred, merged, merges, merging_keeps};
use prune::{drop_unreachable_blocks, pruned, prunes, pruning_keeps};
use thread::{thread_empty_jumps, threaded, threading_keeps, threads};
use weight::weight;

verus! {

/// A function with its constant branches folded, its jumps threaded and its blocks merged.
pub open spec fn simplified(f: SFunc) -> SFunc {
    merged(threaded(branches_folded(f)))
}

/// Whether simplifying a function changes it.
pub open spec fn simplifies(f: SFunc) -> bool {
    ||| branch_folds(f)
    ||| threads(branches_folded(f))
    ||| merges(threaded(branches_folded(f)))
}

/// A function after one round of all passes.
pub open spec fn round(f: SFunc, pure: Map<Seq<char>, bool>, natives: Seq<Seq<char>>) -> SFunc {
    pruned(simplified(swept(folded(f), pure, natives)))
}

/// Whether any pass of a round changes a function.
pub open spec fn round_changes(
    f: SFunc,
    pure: Map<Seq<char>, bool>,
    natives: Seq<Seq<char>>,
) -> bool {
    ||| folds(f)
    ||| sweeps(folded(f), pure, natives)
    ||| simplifies(swept(folded(f), pure, natives))
    ||| prunes(simplified(swept(folded(f), pure, natives)))
}

/// A function after `n` rounds.
pub open spec fn rounds(
    f: SFunc,
    pure: Map<Seq<char>, bool>,
    natives: Seq<Seq<char>>,
    n: nat,
) -> SFunc
    decreases n,
{
    if n == 0 {
        f
    } else {
        round(rounds(f, pure, natives, (n - 1) as nat), pure, natives)
    }
}

/// Whether `g` is what `f` is optimised to: what some number of rounds makes of it, with
/// nothing left for another round to change.
pub open spec fn optimized(
    f: SFunc,
    g: SFunc,
    pure: Map<Seq<char>, bool>,
    natives: Seq<Seq<char>>,
) -> bool {
    &&& exists|n: nat| g == #[trigger] rounds(f, pure, natives, n)
    &&& !round_changes(g, pure, natives)
}

/// A round that changes nothing leaves a function as it is.
proof fn lemma_round_rests(f: SFunc, pure: Map<Seq<char>, bool>, natives: Seq<Seq<char>>)
    requires
        blocks_wf(f),
        values_wf(f),
        !round_changes(f, pure, natives),
    ensures
        round(f, pure, natives) == f,
{
    folding_keeps(f);
    sweeping_keeps(f, pure, natives);
    branch_folding_keeps(f);
    threading_keeps(f);
    merging_keeps(f);
}

/// A round keeps a function well-formed. One that changes it leaves fewer blocks, or as many
/// and a lighter function.
pub proof fn rounds_come_to_an_end(
    f: SFunc,
    pure: Map<Seq<char>, bool>,
    natives: Seq<Seq<char>>,
)
    requires
        blocks_wf(f),
        values_wf(f),
    ensures
        blocks_wf(round(f, pure, natives)),
        values_wf(round(f, pure, natives)),
        round_changes(f, pure, natives) ==> round(f, pure, natives).blocks.len() < f.blocks.len()
            || (round(f, pure, natives).blocks.len() == f.blocks.len() && weight(
            round(f, pure, natives),
        ) < weight(f)),
{
    let f1 = folded(f);
    folding_keeps(f);
    let f2 = swept(f1, pure, natives);
    sweeping_keeps(f1, pure, natives);
    let f3 = branches_folded(f2);
    branch_folding_keeps(f2);
    let f4 = threaded(f3);
    threading_keeps(f3);
    let f5 = merged(f4);
    merging_keeps(f4);
    pruning_keeps(f5);
    if threads(f3) {
        let b = choose|b: int| thread::orphan(f4, b);
        assert(thread::orphan(f5, b));
    }
}

/// A function has no more than one optimised form.
pub proof fn optimized_form_is_unique(
    f: SFunc,
    g: SFunc,
    h: SFunc,
    pure: Map<Seq<char>, bool>,
    natives: Seq<Seq<char>>,
)
    requires
        blocks_wf(f),
        values_wf(f),
        optimized(f, g, pure, natives),
        optimized(f, h, pure, natives),
    ensures
        g == h,
{
    let m = choose|n: nat| g == #[trigger] rounds(f, pure, natives, n);
    let n = choose|n: nat| h == #[trigger] rounds(f, pure, natives, n);
    if m <= n {
        lemma_rests_for_good(f, pure, natives, m, n);
    } else {
        lemma_rests_for_good(f, pure, natives, n, m);
    }
}

proof fn lemma_rounds_wf(
    f: SFunc,
    pure: Map<Seq<char>, bool>,
    natives: Seq<Seq<char>>,
    n: nat,
)
    requires
        blocks_wf(f),
        values_wf(f),
    ensures
        blocks_wf(rounds(f, pure, natives, n)),
        values_wf(rounds(f, pure, natives, n)),
    decreases n,
{
    if n > 0 {
        lemma_rounds_wf(f, pure, natives, (n - 1) as nat);
        rounds_come_to_an_end(rounds(f, pure, natives, (n - 1) as nat), pure, natives);
    }
}

proof fn lemma_rests_for_good(
    f: SFunc,
    pure: Map<Seq<char>, bool>,
    natives: Seq<Seq<char>>,
    m: nat,
    n: nat,
)
    requires
        blocks_wf(f),
        values_wf(f),
        m <= n,
        !round_changes(rounds(f, pure, natives, m), pure, natives),
    ensures
        rounds(f, pure, natives, n) == rounds(f, pure, natives, m),
    decreases n,
{
    if m < n {
        lemma_rests_for_good(f, pure, natives, m, (n - 1) as nat);
        lemma_rounds_wf(f, pure, natives, m);
        lemma_round_rests(rounds(f, pure, natives, m), pure, natives);
    }
}

/// Optimising what is optimised already changes nothing.
pub proof fn optimizing_twice_is_once(
    f: SFunc,
    g: SFunc,
    h: SFunc,
    pure: Map<Seq<char>, bool>,
    natives: Seq<Seq<char>>,
)
    requires
        blocks_wf(f),
        values_wf(f),
        optimized(f, g, pure, natives),
        optimized(g, h, pure, natives),
    ensures
        h == g,
{
    let m = choose|n: nat| g == #[trigger] rounds(f, pure, natives, n);
    lemma_rounds_wf(f, pure, natives, m);
    let n = choose|n: nat| h == #[trigger] rounds(g, pure, natives, n);
    lemma_rests_for_good(g, pure, natives, 0, n);
}

/// An optimised function is well-formed, and every block of it can be got to.
pub proof fn optimized_functions_are_clean(
    f: SFunc,
    g: SFunc,
    pure: Map<Seq<char>, bool>,
    natives: Seq<Seq<char>>,
)
    requires
        blocks_wf(f),
        values_wf(f),
        optimized(f, g, pure, natives),
    ensures
        blocks_wf(g),
        values_wf(g),
        !folds(g),
        !sweeps(g, pure, natives),
        !simplifies(g),
        !prunes(g),
{
    let m = choose|n: nat| g == #[trigger] rounds(f, pure, natives, n);
    lemma_rounds_wf(f, pure, natives, m);
    folding_keeps(g);
    sweeping_keeps(g, pure, natives);
    branch_folding_keeps(g);
    threading_keeps(g);
    merging_keeps(g);
}

/// Fold constant branches, thread jumps and merge blocks.
fn simplify_cfg(f: &mut Func) -> (changed: bool)
    requires
        blocks_wf(old(f).sem()),
        values_wf(old(f).sem()),
    ensures
        final(f).sem() == simplified(old(f).sem()),
        changed == simplifies(old(f).sem()),
{
    let ghost s = f.sem();
    proof {
        branch_folding_keeps(s);
        threading_keeps(branches_folded(s));
    }
    let a = fold_const_branches(f);
    let b = thread_empty_jumps(f);
    let c = merge_single_pred(f);
    a || b || c
}

/// Optimise one function.
pub fn optimize_fn(f: &mut Func, pure: &Purity, natives: &Vec<String>)
    requires
        blocks_wf(old(f).sem()),
        values_wf(old(f).sem()),
    ensures
        optimized(old(f).sem(), final(f).sem(), pure@, names_of(natives@)),
{
    let ghost s = f.sem();
    let ghost ns = names_of(natives@);
    let ghost mut n: nat = 0;
    let mut changed: bool = true;
    while changed
        invariant
            s == old(f).sem(),
            ns == names_of(natives@),
            blocks_wf(f.sem()),
            values_wf(f.sem()),
            f.sem() == rounds(s, pure@, ns, n),
            !changed ==> !round_changes(f.sem(), pure@, ns),
        decreases changed as int, f.sem().blocks.len(), weight(f.sem()),
    {
        let ghost before = f.sem();
        proof {
            rounds_come_to_an_end(before, pure@, ns);
            folding_keeps(before);
            sweeping_keeps(folded(before), pure@, ns);
            branch_folding_keeps(swept(folded(before), pure@, ns));
            threading_keeps(branches_folded(swept(folded(before), pure@, ns)));
            merging_keeps(threaded(branches_folded(swept(folded(before), pure@, ns))));
        }
        let a = const_fold(f);
        let b = dead_code(f, pure, natives);
        let c = simplify_cfg(f);
        let d = drop_unreachable_blocks(f);
        changed = a || b || c || d;
        proof {
            if !changed {
                lemma_round_rests(before, pure@, ns);
            }
            n = n + 1;
        }
    }
}

/// Optimise every function of a program.
///
/// Which functions are pure is asked once, of the program as it comes: the passes only take
/// work away, so the answer stays on the safe side.
pub fn optimize(program: &mut Program)
    requires
        forall|i: int|
            0 <= i < old(program).funcs.len() ==> blocks_wf(
                (#[trigger] old(program).funcs[i]).sem(),
            ) && values_wf(old(program).funcs[i].sem()),
    ensures
        final(program).funcs.len() == old(program).funcs.len(),
        forall|i: int|
            0 <= i < old(program).funcs.len() ==> optimized(
                old(program).funcs[i].sem(),
                (#[trigger] final(program).funcs[i]).sem(),
                quiet(sems(old(program).funcs@), names_of(old(program).pure_natives@)),
                names_of(old(program).pure_natives@),
            ),
        final(program).recursive == old(program).recursive,
        final(program).boxed == old(program).boxed,
        final(program).pure_natives == old(program).pure_natives,
        final(program).inlined == old(program).inlined,
{
    let pure = analyze_quiet(program);
    let mut i: usize = 0;
    while i < program.funcs.len()
        invariant
            i <= program.funcs.len() == old(program).funcs.len(),
            pure@ == quiet(sems(old(program).funcs@), names_of(old(program).pure_natives@)),
            forall|k: int|
                0 <= k < old(program).funcs.len() ==> blocks_wf(
                    (#[trigger] old(program).funcs[k]).sem(),
                ) && values_wf(old(program).funcs[k].sem()),
            forall|k: int|
                0 <= k < i ==> optimized(
                    old(program).funcs[k].sem(),
                    (#[trigger] program.funcs[k]).sem(),
                    pure@,
                    names_of(old(program).pure_natives@),
                ),
            forall|k: int|
                i <= k < program.funcs.len() ==> #[trigger] program.funcs[k]
                    == old(program).funcs[k],
            program.recursive == old(program).recursive,
            program.boxed == old(program).boxed,
            program.pure_natives == old(program).pure_natives,
            program.inlined == old(program).inlined,
        decreases program.funcs.len() - i,
    {
        assert(program.funcs[i as int] == old(program).funcs[i as int]);
        optimize_fn(&mut program.funcs[i], &pure, &program.pure_natives);
        i += 1;
    }
}

} // verus!
