//! What no pass changes of a function: what it is called, takes, gives and throws.

use super::opt::dead::swept;
use super::opt::fold::{branches_folded, folded};
use super::opt::laws::an_optimized_form_exists;
use super::opt::merge::{fused, mergers, next_fuse};
use super::opt::prune::pruned;
use super::opt::thread::threaded;
use super::opt::{optimized, rounds};
use super::pipeline::{at_stage, made_ready, optimised, optimum, Stage};
use super::ssa::{blocks_wf, same_frame, values_wf, SFunc, SProgram, SValueData};
use super::unique::chain::SSite;
use super::unique::establish::{gated, gated_block, Gate};
use super::unique::rewrite::{edited, in_place};
use super::{cover, effects, partial, refcount, unique};
use vstd::prelude::*;

verus! {

proof fn lemma_mergers_frame(f: SFunc, n: nat)
    ensures
        same_frame(f, mergers(f, n)),
    decreases n,
{
    if let Some(a) = next_fuse(f, 0) {
        if n > 0 {
            lemma_mergers_frame(fused(f, a), (n - 1) as nat);
        }
    }
}

proof fn lemma_rounds_frame(
    f: SFunc,
    pure: Map<Seq<char>, bool>,
    natives: Seq<Seq<char>>,
    n: nat,
)
    ensures
        same_frame(f, rounds(f, pure, natives, n)),
    decreases n,
{
    if n > 0 {
        lemma_rounds_frame(f, pure, natives, (n - 1) as nat);
        let g = rounds(f, pure, natives, (n - 1) as nat);
        let h = threaded(branches_folded(swept(folded(g), pure, natives)));
        assert(same_frame(g, h));
        lemma_mergers_frame(h, h.blocks.len());
        let k = mergers(h, h.blocks.len());
        assert(same_frame(k, pruned(k)));
    }
}

/// Optimising keeps what a function is to those who call it.
pub proof fn optimising_keeps_frames(p: SProgram, i: int)
    requires
        0 <= i < p.funcs.len(),
        blocks_wf(p.funcs[i]),
        values_wf(p.funcs[i]),
    ensures
        same_frame(p.funcs[i], optimised(p).funcs[i]),
{
    let f = p.funcs[i];
    let pure = effects::quiet(p.funcs, p.pure_natives);
    let w = an_optimized_form_exists(f, pure, p.pure_natives);
    let g = optimum(p, f);
    assert(optimized(f, g, pure, p.pure_natives));
    let n = choose|n: nat| g == #[trigger] rounds(f, pure, p.pure_natives, n);
    lemma_rounds_frame(f, pure, p.pure_natives, n);
}

proof fn lemma_edited_frame(f: SFunc, ss: Seq<SSite>, n: int)
    ensures
        same_frame(f, edited(f, ss, n).f),
    decreases n,
{
    if n > 0 {
        lemma_edited_frame(f, ss, n - 1);
    }
}

proof fn lemma_gated_frame(
    f: SFunc,
    g: Gate,
    d: SValueData,
    backs: Seq<(usize, usize)>,
    n: int,
)
    ensures
        same_frame(f, gated(f, g, d, backs, n)),
    decreases n,
{
    if n > 0 {
        lemma_gated_frame(f, g, d, backs, n - 1);
        let h = gated(f, g, d, backs, n - 1);
        assert(same_frame(h, gated_block(h, g, d, n - 1)));
    }
}

proof fn lemma_rewritten_frame(f: SFunc, p: unique::SPlan)
    ensures
        same_frame(f, unique::rewritten(f, p)),
{
    lemma_edited_frame(f, p.sites, p.sites.len() as int);
    let g = in_place(f, p.sites);
    assert(same_frame(f, g));
    if let Some(slot) = partial::position_from(g.blocks[p.header as int].params, p.param, 0) {
        lemma_gated_frame(
            g,
            Gate { header: p.header, slot: slot as usize },
            g.values[p.param.0 as int],
            unique::back::back_edges(super::cfg::cfg(g), g.entry.0 as usize),
            g.blocks.len() as int,
        );
    }
}

proof fn lemma_written_frame(f: SFunc, n: nat)
    ensures
        same_frame(f, unique::carried_out(f, n)),
    decreases n,
{
    if let Some(p) = unique::scalar_from(unique::all_plans(f), 0) {
        if n > 0 {
            lemma_rewritten_frame(f, p);
            lemma_written_frame(unique::rewritten(f, p), (n - 1) as nat);
        }
    }
}

proof fn lemma_narrow_block_frame(f: SFunc, g: SFunc, b: int, n: int)
    ensures
        same_frame(g, partial::narrow_block(f, g, b, n)),
    decreases n,
{
    if n > 0 {
        match partial::site_at(f, partial::SPlace { block: b, at: n - 1 }) {
            Some(s) => lemma_narrow_block_frame(f, partial::narrowed(g, s), b, n - 1),
            None => lemma_narrow_block_frame(f, g, b, n - 1),
        }
    }
}

proof fn lemma_narrow_blocks_frame(f: SFunc, n: int)
    ensures
        same_frame(f, partial::narrow_blocks(f, n)),
    decreases n,
{
    if n > 0 {
        lemma_narrow_blocks_frame(f, n - 1);
        lemma_narrow_block_frame(
            f,
            partial::narrow_blocks(f, n - 1),
            n - 1,
            f.blocks[n - 1].insts.len() as int,
        );
    }
}

proof fn lemma_covered_frame(f: SFunc, ps: Seq<cover::Plan>, n: int)
    ensures
        same_frame(f, cover::carried_out(f, ps, n).0),
    decreases n,
{
    if n > 0 {
        lemma_covered_frame(f, ps, n - 1);
    }
}

/// What comes before the counting of references keeps what a function is to those who call
/// it, step by step.
pub proof fn writing_keeps_frames(f: SFunc)
    ensures
        same_frame(f, unique::applied(f)),
        same_frame(f, partial::applied(unique::applied(f))),
        same_frame(f, cover::covered(partial::applied(unique::applied(f)))),
        same_frame(f, made_ready(f)),
{
    lemma_written_frame(f, 64);
    let g = unique::applied(f);
    lemma_narrow_blocks_frame(g, g.blocks.len() as int);
    let h = partial::applied(g);
    let ps = cover::plans(h, h.blocks.len() as int);
    lemma_covered_frame(h, ps, ps.len() as int);
    let k = cover::covered(h);
    assert(same_frame(k, refcount::inserted(k)));
}

/// At every stage a function is what it was to those who call it, in the place that it had.
pub proof fn stages_keep_frames(p: SProgram, stage: Stage, i: int)
    requires
        0 <= i < p.funcs.len(),
        blocks_wf(p.funcs[i]),
        values_wf(p.funcs[i]),
    ensures
        at_stage(p, stage).funcs.len() == p.funcs.len(),
        same_frame(p.funcs[i], at_stage(p, stage).funcs[i]),
{
    optimising_keeps_frames(p, i);
    writing_keeps_frames(optimised(p).funcs[i]);
}

} // verus!
