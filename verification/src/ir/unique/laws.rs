//! What is left to write in place, and what a candidate is.

use super::{
    all_plans, applied, carried_out, func_candidates, header_plans, is_loop_header, plan_of, plans,
    rewritten, scalar_from, SCandidate, SPlan,
};
use super::chain::{
    chain_unused_after, in_chain, nothing_comes_in, nothing_is_stale, set_at, site_of, sites,
    writes_of, SSite,
};
use super::back::back_edges;
use super::gate::{enters_unique, lemma_position, lists_stand_alone_where_a_loop_is_entered};
use super::rewrite::{edited, in_place, result_from, stored};
use crate::ir::cfg::cfg;
use crate::ir::partial::position_from;
use crate::ir::ssa::{targets, SFunc, SInst, SOp, STerm, Value};
use vstd::prelude::*;

verus! {

/// How many plans are carried out, of at most `n`.
pub open spec fn taken(f: SFunc, n: nat) -> nat
    decreases n,
{
    match scalar_from(all_plans(f), 0) {
        Some(p) => if n == 0 {
            0
        } else {
            1 + taken(rewritten(f, p), (n - 1) as nat)
        },
        None => 0,
    }
}

proof fn lemma_none_scalar(ps: Seq<SPlan>, k: int)
    requires
        0 <= k,
        scalar_from(ps, k) is None,
    ensures
        forall|i: int| k <= i < ps.len() ==> !(#[trigger] ps[i]).scalar,
    decreases ps.len() - k,
{
    if k < ps.len() {
        lemma_none_scalar(ps, k + 1);
    }
}

proof fn lemma_taken(f: SFunc, n: nat)
    requires
        taken(f, n) < n,
    ensures
        scalar_from(all_plans(carried_out(f, n)), 0) is None,
    decreases n,
{
    if let Some(p) = scalar_from(all_plans(f), 0) {
        lemma_taken(rewritten(f, p), (n - 1) as nat);
    }
}

/// Where fewer than sixty-four plans were carried out, no candidate is left whose writes
/// could be made in place.
pub proof fn nothing_is_left_to_write_in_place(f: SFunc, i: int)
    requires
        taken(f, 64) < 64,
        0 <= i < func_candidates(applied(f)).len(),
    ensures
        !func_candidates(applied(f))[i].scalar,
{
    lemma_taken(f, 64);
    let g = applied(f);
    lemma_none_scalar(all_plans(g), 0);
    assert(func_candidates(g)[i].scalar == all_plans(g)[i].scalar);
}

/// A plan whose writes nobody sees but by the list that they give.
pub open spec fn is_unseen(f: SFunc, p: SPlan) -> bool {
    &&& p.header < f.blocks.len()
    &&& nothing_comes_in(f, p.header as int, p.param)
    &&& forall|i: int| 0 <= i < p.sites.len() ==> write_is_unseen(f, p.param, #[trigger] p.sites[i])
}

/// Whether a site is that of a value on a chain, and nothing uses a value of the chain after
/// its write, before that value is bound anew.
pub open spec fn write_is_unseen(f: SFunc, param: Value, s: SSite) -> bool {
    exists|v: int| #[trigger] consumes(f, param, v, s) && chain_unused_after(
        f,
        param,
        writes_of(f, Value(v as u32))[0],
    )
}

/// Whether a value on a chain is the one that the write at a site uses up.
pub open spec fn consumes(f: SFunc, param: Value, v: int, s: SSite) -> bool {
    &&& 0 <= v < f.values.len()
    &&& in_chain(f, param, v)
    &&& site_of(f, Value(v as u32)) == Some(s)
    &&& writes_of(f, Value(v as u32)).len() == 1
    &&& writes_of(f, Value(v as u32))[0].0 == s.block
    &&& set_at(f, s.block as int, writes_of(f, Value(v as u32))[0].1 as int) == Some(s.tagged)
}

proof fn lemma_sites_unseen(f: SFunc, param: Value, n: int)
    requires
        n <= f.values.len(),
        nothing_is_stale(f, param),
    ensures
        forall|i: int|
            0 <= i < sites(f, param, n).len() ==> write_is_unseen(
                f,
                param,
                #[trigger] sites(f, param, n)[i],
            ),
    decreases n,
{
    if n > 0 {
        lemma_sites_unseen(f, param, n - 1);
        let before = sites(f, param, n - 1);
        let all = sites(f, param, n);
        assert forall|i: int| 0 <= i < all.len() implies write_is_unseen(
            f,
            param,
            #[trigger] all[i],
        ) by {
            if i < before.len() {
                assert(all[i] == before[i]);
            } else {
                assert(in_chain(f, param, n - 1));
                assert(consumes(f, param, n - 1, all[i]));
            }
        }
    }
}

proof fn lemma_header_plans_unseen(f: SFunc, h: int, n: int)
    requires
        0 <= h < f.blocks.len() <= usize::MAX,
        n <= f.blocks[h].params.len(),
    ensures
        forall|i: int|
            0 <= i < header_plans(f, h, n).len() ==> is_unseen(
                f,
                #[trigger] header_plans(f, h, n)[i],
            ),
    decreases n,
{
    if n > 0 {
        lemma_header_plans_unseen(f, h, n - 1);
        let v = f.blocks[h].params[n - 1];
        let before = header_plans(f, h, n - 1);
        let all = header_plans(f, h, n);
        if let Some(p) = plan_of(f, h, v) {
            lemma_sites_unseen(f, v, f.values.len() as int);
            assert(is_unseen(f, p));
            assert(all == before.push(p));
        }
        assert forall|i: int| 0 <= i < all.len() implies is_unseen(f, #[trigger] all[i]) by {
            if i < before.len() {
                assert(all[i] == before[i]);
            }
        }
    }
}

proof fn lemma_plans_unseen(f: SFunc, n: int)
    requires
        n <= f.blocks.len() <= usize::MAX,
    ensures
        forall|i: int| 0 <= i < plans(f, n).len() ==> is_unseen(f, #[trigger] plans(f, n)[i]),
    decreases n,
{
    if n > 0 {
        lemma_plans_unseen(f, n - 1);
        if is_loop_header(f, n - 1) {
            lemma_header_plans_unseen(f, n - 1, f.blocks[n - 1].params.len() as int);
        }
        let before = plans(f, n - 1);
        let more = header_plans(f, n - 1, f.blocks[n - 1].params.len() as int);
        let all = plans(f, n);
        assert forall|i: int| 0 <= i < all.len() implies is_unseen(f, #[trigger] all[i]) by {
            if i < before.len() {
                assert(all[i] == before[i]);
            } else {
                assert(all[i] == more[i - before.len()]);
            }
        }
    }
}

proof fn lemma_next_round(f: SFunc, n: nat)
    ensures
        carried_out(f, n + 1) == match scalar_from(all_plans(carried_out(f, n)), 0) {
            Some(p) => rewritten(carried_out(f, n), p),
            None => carried_out(f, n),
        },
    decreases n,
{
    if let Some(p) = scalar_from(all_plans(f), 0) {
        let g = rewritten(f, p);
        assert(carried_out(f, n + 1) == carried_out(g, n));
        if n > 0 {
            lemma_next_round(g, (n - 1) as nat);
        } else {
            assert(carried_out(f, 0) == f);
            assert(carried_out(g, 0) == g);
        }
    }
}

proof fn lemma_scalar_is_one(ps: Seq<SPlan>, k: int)
    requires
        0 <= k,
    ensures
        scalar_from(ps, k) matches Some(p) ==> p.scalar && ps.contains(p),
    decreases ps.len() - k,
{
    if k < ps.len() {
        if ps[k].scalar {
            assert(ps.contains(ps[k]));
        } else {
            lemma_scalar_is_one(ps, k + 1);
        }
    }
}

/// Of the plan that is carried out next after `n` others: nothing uses any value that the
/// list goes by after one of the writes, before that value is bound anew, and no list comes
/// to be written but by the edges on which it is made unique, or as a new one.
pub proof fn writes_in_place_are_unseen(f: SFunc, n: nat)
    requires
        carried_out(f, n).blocks.len() <= u32::MAX,
    ensures
        match scalar_from(all_plans(carried_out(f, n)), 0) {
            Some(p) => {
                &&& carried_out(f, n + 1) == rewritten(carried_out(f, n), p)
                &&& p.scalar
                &&& is_unseen(carried_out(f, n), p)
            },
            None => carried_out(f, n + 1) == carried_out(f, n),
        },
{
    let g = carried_out(f, n);
    lemma_next_round(f, n);
    lemma_scalar_is_one(all_plans(g), 0);
    lemma_plans_unseen(g, g.blocks.len() as int);
    if let Some(p) = scalar_from(all_plans(g), 0) {
        let i = choose|i: int| 0 <= i < all_plans(g).len() && all_plans(g)[i] == p;
        assert(is_unseen(g, all_plans(g)[i]));
    }
}

/// A plan for a parameter of a loop's header that holds a list.
pub open spec fn is_plan_for(f: SFunc, p: SPlan) -> bool {
    &&& p.header < f.blocks.len()
    &&& is_loop_header(f, p.header as int)
    &&& f.blocks[p.header as int].params.contains(p.param)
    &&& f.values[p.param.0 as int].repr is List
    &&& p.sites.len() > 0
}

proof fn lemma_header_plans(f: SFunc, h: int, n: int)
    requires
        0 <= h < f.blocks.len() <= usize::MAX,
        is_loop_header(f, h),
        n <= f.blocks[h].params.len(),
    ensures
        forall|i: int|
            0 <= i < header_plans(f, h, n).len() ==> is_plan_for(
                f,
                #[trigger] header_plans(f, h, n)[i],
            ),
    decreases n,
{
    if n > 0 {
        lemma_header_plans(f, h, n - 1);
        let v = f.blocks[h].params[n - 1];
        assert(f.blocks[h].params.contains(v));
        let before = header_plans(f, h, n - 1);
        let all = header_plans(f, h, n);
        if let Some(p) = plan_of(f, h, v) {
            assert(is_plan_for(f, p));
            assert(all == before.push(p));
        }
        assert forall|i: int| 0 <= i < all.len() implies is_plan_for(f, #[trigger] all[i]) by {
            if i < before.len() {
                assert(all[i] == before[i]);
            }
        }
    }
}

proof fn lemma_plans(f: SFunc, n: int)
    requires
        n <= f.blocks.len() <= usize::MAX,
    ensures
        forall|i: int| 0 <= i < plans(f, n).len() ==> is_plan_for(f, #[trigger] plans(f, n)[i]),
    decreases n,
{
    if n > 0 {
        lemma_plans(f, n - 1);
        if is_loop_header(f, n - 1) {
            lemma_header_plans(f, n - 1, f.blocks[n - 1].params.len() as int);
        }
        let before = plans(f, n - 1);
        let more = header_plans(f, n - 1, f.blocks[n - 1].params.len() as int);
        let all = plans(f, n);
        assert forall|i: int| 0 <= i < all.len() implies is_plan_for(f, #[trigger] all[i]) by {
            if i < before.len() {
                assert(all[i] == before[i]);
            } else {
                assert(all[i] == more[i - before.len()]);
            }
        }
    }
}

/// Every candidate is a list that a loop's header takes as a parameter, of the function that
/// it names, with at least one write.
pub proof fn candidates_are_lists_of_loops(f: SFunc, i: int)
    requires
        f.blocks.len() <= u32::MAX,
        0 <= i < func_candidates(f).len(),
    ensures
        ({
            let c: SCandidate = func_candidates(f)[i];
            &&& c.func == f.name
            &&& c.writes >= 1
            &&& c.header.0 < f.blocks.len()
            &&& is_loop_header(f, c.header.0 as int)
            &&& f.blocks[c.header.0 as int].params.contains(c.param)
            &&& f.values[c.param.0 as int].repr is List
        }),
{
    lemma_plans(f, f.blocks.len() as int);
    assert(is_plan_for(f, all_plans(f)[i]));
}

proof fn lemma_in_place_params(f: SFunc, ss: Seq<SSite>, n: int)
    ensures
        edited(f, ss, n).f.blocks.len() == f.blocks.len(),
        edited(f, ss, n).f.values == f.values,
        forall|b: int|
            0 <= b < f.blocks.len() ==> (#[trigger] edited(f, ss, n).f.blocks[b]).params
                == f.blocks[b].params,
    decreases n,
{
    if n > 0 {
        lemma_in_place_params(f, ss, n - 1);
    }
}

/// Of the plan that is carried out next after `n` others: once its writes are made in place,
/// every edge into the header of its loop that does not close the loop passes, in the slot of
/// the list, a new value that is the list which the edge passed before, made unique on the
/// way. So what is written in place is a list that stands alone, and not the caller's.
pub proof fn lists_are_made_unique_before_they_are_written(f: SFunc, n: nat, b: int, k: int)
    requires
        carried_out(f, n).blocks.len() <= u32::MAX,
        carried_out(f, n + 1).blocks.len() <= u32::MAX,
        carried_out(f, n + 1).values.len() <= u32::MAX,
        scalar_from(all_plans(carried_out(f, n)), 0) is Some,
        forall|c: int|
            0 <= c < carried_out(f, n).blocks.len() ==> (#[trigger] carried_out(
                f,
                n,
            ).blocks[c]).params.len() <= usize::MAX,
        ({
            let p = scalar_from(all_plans(carried_out(f, n)), 0)->0;
            let g = in_place(carried_out(f, n), p.sites);
            0 <= b < g.blocks.len() && 0 <= k < targets(g.blocks[b].term).len()
        }),
    ensures
        ({
            let p = scalar_from(all_plans(carried_out(f, n)), 0)->0;
            let g = in_place(carried_out(f, n), p.sites);
            let h = carried_out(f, n + 1);
            let (t, u) = (targets(g.blocks[b].term)[k], targets(h.blocks[b].term)[k]);
            let closes = back_edges(cfg(g), g.entry.0 as usize).contains((b as usize, p.header));
            &&& g.blocks[p.header as int].params.contains(p.param)
            &&& b < h.blocks.len() && k < targets(h.blocks[b].term).len()
            &&& forall|s: int|
                0 <= s < g.blocks[p.header as int].params.len()
                    && #[trigger] g.blocks[p.header as int].params[s] == p.param && (forall|j: int|
                    0 <= j < s ==> g.blocks[p.header as int].params[j] != p.param) && !closes
                    && t.to.0 == p.header && s < t.args.len() ==> enters_unique(g, h, b, t, u, s)
            &&& closes || t.to.0 != p.header ==> u == t
        }),
{
    let x = carried_out(f, n);
    let p = scalar_from(all_plans(x), 0)->0;
    let g = in_place(x, p.sites);
    lemma_next_round(f, n);
    lemma_scalar_is_one(all_plans(x), 0);
    lemma_plans(x, x.blocks.len() as int);
    let i = choose|i: int| 0 <= i < all_plans(x).len() && all_plans(x)[i] == p;
    assert(is_plan_for(x, all_plans(x)[i]));
    lemma_in_place_params(x, p.sites, p.sites.len() as int);
    assert(g.blocks[p.header as int].params == x.blocks[p.header as int].params);
    lists_stand_alone_where_a_loop_is_entered(g, p.header, p.param, b, k);
    let ps = g.blocks[p.header as int].params;
    let at = choose|j: int| 0 <= j < ps.len() && ps[j] == p.param;
    lemma_position(ps, p.param, 0, at);
    assert forall|s: int|
        0 <= s < ps.len() && #[trigger] ps[s] == p.param && (forall|j: int|
            0 <= j < s ==> ps[j] != p.param) implies position_from(ps, p.param, 0) == Some(s) by {
        lemma_position(ps, p.param, 0, s);
    }
}

proof fn lemma_first_result(is: Seq<SInst>, v: Value, k: int, j: int)
    requires
        0 <= j <= k < is.len(),
        is[k].result == Some(v),
        forall|i: int| 0 <= i < k ==> (#[trigger] is[i]).result != Some(v),
    ensures
        result_from(is, v, j) == Some(k),
    decreases k - j,
{
    if j < k {
        assert(is[j].result != Some(v));
        lemma_first_result(is, v, k, j + 1);
    }
}

/// A write that is made in place writes the element that the call was given, at the index and
/// into the list that it was given, where the call stood; it gives no result, and its block
/// goes on where the write has succeeded. Nothing else changes.
pub proof fn a_write_in_place_writes_what_the_call_was_given(f: SFunc, s: SSite, k: int)
    requires
        s.block < f.blocks.len(),
        0 <= k < f.blocks[s.block as int].insts.len(),
        f.blocks[s.block as int].insts[k].result == Some(s.tagged),
        forall|i: int|
            0 <= i < k ==> (#[trigger] f.blocks[s.block as int].insts[i]).result != Some(s.tagged),
        f.blocks[s.block as int].insts[k].op matches SOp::Call { args, .. } && args.len() == 3,
    ensures
        ({
            let g = stored(f, s);
            let (x, y) = (f.blocks[s.block as int], g.blocks[s.block as int]);
            let args = x.insts[k].op->Call_args;
            &&& y.insts.len() == x.insts.len()
            &&& y.insts[k].result is None
            &&& y.insts[k].op matches SOp::Native { symbol, args: given } && symbol
                == "neon_list_set_inplace"@ && given.len() == 3 && given[0] == args[0] && given[1]
                == args[1] && given[2] == args[2]
            &&& forall|j: int| 0 <= j < x.insts.len() && j != k ==> y.insts[j] == x.insts[j]
            &&& y.term == STerm::Jump(s.ok)
            &&& y.params == x.params
            &&& g.blocks.len() == f.blocks.len()
            &&& forall|b: int|
                0 <= b < f.blocks.len() && b != s.block ==> g.blocks[b] == f.blocks[b]
            &&& g.values == f.values
        }),
{
    lemma_first_result(f.blocks[s.block as int].insts, s.tagged, k, 0);
}

/// The site of a plan is where its block branches on whether the write failed: where it has
/// not, the block goes on by the edge that the site gives, and where it has, to a block that
/// panics.
pub proof fn a_site_goes_on_where_its_write_succeeds(f: SFunc, v: Value)
    requires
        site_of(f, v) is Some,
    ensures
        ({
            let s = site_of(f, v)->0;
            let w = writes_of(f, v)[0];
            &&& s.block == w.0
            &&& set_at(f, w.0 as int, w.1 as int) == Some(s.tagged)
            &&& f.blocks[s.block as int].term matches STerm::Branch { cond, then, els } && cond
                == s.is_err && els == s.ok && f.blocks[then.to.0 as int].term is Unreachable
        }),
{
}

} // verus!
