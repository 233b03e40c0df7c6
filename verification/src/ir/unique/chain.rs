//! The chain of values that a list flows through, and the rules it must keep.
//!
//! A list that goes round a loop flows from a header's parameter through edges, which pass
//! it on, and through writes, which use one list up and give the next. Every value on that
//! chain may be read; at most one write may use it up; and it may be returned or thrown.
//! Anything else is a second reference to the list.
//!
//! The values of a chain name one buffer. So nothing may use any of them after a write on
//! the chain, before it is bound anew; and no list may come onto the chain but by the edges
//! on which it is made unique, or as a new one.

use super::super::cfg::{cfg, graph_of, has};
use super::super::graph::{
    adj, edge, graph_wf, none_of, nowhere, only, only_one, reachable, reached,
};
use super::super::partial::{bound_in, is_bound_in, position_from};
use super::super::ssa::{
    block_in_range, blocks_wf, inst_in_range, targets, term_in_range, values_wf, Func, Op, SFunc,
    SInst, SOp, STarget, STerm, Target, Term, Value,
};
use super::back::{back_edges, find_back_edges};
use super::establish::{closes, position};
use super::uses::{
    all_uses, holdable, is_uses_table, use_in_range, uses, uses_stand_in_the_function, Use,
};
use crate::syntax::{sems, Node};
use crate::text::{has_prefix, starts_with, str_eq};
use vstd::prelude::*;

verus! {

/// Whether a function is the library's write, or an instance of it.
pub open spec fn names_set(func: Seq<char>) -> bool {
    func == "std__collections__list__set"@ || has_prefix(func, "std__collections__list__set$"@)
}

pub open spec fn read_only_native(symbol: Seq<char>) -> bool {
    symbol == "neon_list_at"@ || symbol == "neon_list_at_scalar"@ || symbol == "neon_list_len"@
}

/// The tagged result of the write that stands at a place, if one does.
pub open spec fn set_at(f: SFunc, b: int, k: int) -> Option<Value> {
    match f.blocks[b].insts[k].op {
        SOp::Call { func, args } => if names_set(func) && args.len() == 3 {
            f.blocks[b].insts[k].result
        } else {
            None
        },
        _ => None,
    }
}

/// Whether a use is that of the list that a write uses up.
pub open spec fn is_write(f: SFunc, v: Value, u: Use) -> bool {
    match u {
        Use::By { block, at } => f.blocks[block as int].insts[at as int].op matches SOp::Call {
            func,
            args,
        } && names_set(func) && args.len() > 0 && args[0] == v,
        _ => false,
    }
}

/// Whether a use of a value on a chain is one that it may have.
pub open spec fn use_allowed(f: SFunc, v: Value, u: Use) -> bool {
    match u {
        Use::By { block, at } => match f.blocks[block as int].insts[at as int].op {
            SOp::Index { .. } => true,
            SOp::Native { symbol, .. } => read_only_native(symbol),
            SOp::Call { .. } => is_write(f, v, u) && set_at(f, block as int, at as int) is Some,
            _ => false,
        },
        Use::Carried { to, slot, .. } => slot < f.blocks[to as int].params.len(),
        Use::Handoff { .. } => true,
        Use::Scrutinee { .. } => false,
    }
}

/// The writes among the first `n` uses of a value.
pub open spec fn writes(f: SFunc, v: Value, us: Seq<Use>, n: int) -> Seq<(usize, usize)>
    decreases n,
{
    if n <= 0 {
        seq![]
    } else if is_write(f, v, us[n - 1]) {
        writes(f, v, us, n - 1).push((us[n - 1]->By_block, us[n - 1]->By_at))
    } else {
        writes(f, v, us, n - 1)
    }
}

/// The writes that use a value up.
pub open spec fn writes_of(f: SFunc, v: Value) -> Seq<(usize, usize)> {
    writes(f, v, uses(f, v), uses(f, v).len() as int)
}

/// The first block from `b` on that binds a value.
pub open spec fn binder_from(f: SFunc, v: Value, b: int) -> Option<int>
    decreases f.blocks.len() - b,
{
    if b >= f.blocks.len() {
        None
    } else if bound_in(f.blocks[b], v) {
        Some(b)
    } else {
        binder_from(f, v, b + 1)
    }
}

// ---- the order rule ----

/// The blocks that an edge leads to from `b`, other than `d`.
pub open spec fn onward(f: SFunc, b: int, d: int) -> Seq<bool> {
    Seq::new(f.blocks.len(), |x: int| x != d && edge(cfg(f), b, x))
}

/// Whether a block runs after a write at `b`, before block `d` does, which binds a value anew.
pub open spec fn runs_after(f: SFunc, b: int, d: int, x: int) -> bool {
    reached(cfg(f), only(f.blocks.len(), d), onward(f, b, d), x)
}

/// Whether a use comes after a write. The write itself does where it runs once more before
/// the value is bound anew.
pub open spec fn comes_after(f: SFunc, d: int, w: (usize, usize), u: Use) -> bool {
    match u {
        Use::By { block, at } => runs_after(f, w.0 as int, d, block as int) || (block == w.0 && at
            > w.1),
        Use::Carried { from, .. } => runs_after(f, w.0 as int, d, from as int) || from == w.0,
        Use::Handoff { from } => runs_after(f, w.0 as int, d, from as int) || from == w.0,
        Use::Scrutinee { from } => runs_after(f, w.0 as int, d, from as int) || from == w.0,
    }
}

/// Whether nothing uses a value after a write, before block `d` binds it anew.
pub open spec fn write_is_last(f: SFunc, v: Value, d: int, w: (usize, usize)) -> bool {
    forall|i: int|
        0 <= i < uses(f, v).len() ==> !comes_after(f, d, w, #[trigger] uses(f, v)[i])
}

/// Whether nothing uses a value after a write, before the block that binds it does so anew.
pub open spec fn unused_after(f: SFunc, v: Value, w: (usize, usize)) -> bool {
    match binder_from(f, v, 0) {
        Some(d) => write_is_last(f, v, d, w),
        None => false,
    }
}

// ---- the shape of a write ----

/// How the tagged result of a write is opened.
pub struct Openings {
    pub is_err: Option<Value>,
    pub unwrap_ok: Option<(usize, Value)>,
    pub unwrap_err: Option<Value>,
}

/// One more use of a tagged result: each way of opening it may come once.
pub open spec fn one_more_opening(f: SFunc, o: Openings, u: Use) -> Option<Openings> {
    match u {
        Use::By { block, at } => {
            let i = f.blocks[block as int].insts[at as int];
            match (i.op, i.result) {
                (SOp::IsErr(_), Some(r)) => if o.is_err is None {
                    Some(Openings { is_err: Some(r), ..o })
                } else {
                    None
                },
                (SOp::UnwrapOk(_), Some(r)) => if o.unwrap_ok is None {
                    Some(Openings { unwrap_ok: Some((block, r)), ..o })
                } else {
                    None
                },
                (SOp::UnwrapErr(_), Some(r)) => if o.unwrap_err is None {
                    Some(Openings { unwrap_err: Some(r), ..o })
                } else {
                    None
                },
                _ => None,
            }
        },
        _ => None,
    }
}

/// How the first `n` uses of a tagged result open it, if they do nothing else.
pub open spec fn openings(f: SFunc, us: Seq<Use>, n: int) -> Option<Openings>
    decreases n,
{
    if n <= 0 {
        Some(Openings { is_err: None, unwrap_ok: None, unwrap_err: None })
    } else {
        match openings(f, us, n - 1) {
            Some(o) => one_more_opening(f, o, us[n - 1]),
            None => None,
        }
    }
}

pub open spec fn is_panic(i: SInst) -> bool {
    i.op matches SOp::Native { symbol, .. } && symbol == "neon_panic"@
}

/// Whether a block only panics.
pub open spec fn is_panic_block(f: SFunc, b: int) -> bool {
    &&& f.blocks[b].term is Unreachable
    &&& exists|k: int| 0 <= k < f.blocks[b].insts.len() && is_panic(#[trigger] f.blocks[b].insts[k])
}

/// Whether only the branch at the end of block `b` goes by a value.
pub open spec fn only_branches(f: SFunc, v: Value, b: usize) -> bool {
    forall|i: int|
        0 <= i < uses(f, v).len() ==> (#[trigger] uses(f, v)[i]) == (Use::Scrutinee { from: b })
}

pub open spec fn rides(u: Use, b: usize, to: usize) -> bool {
    u matches Use::Carried { from, to: t, .. } && from == b && t == to
}

/// Whether a value only goes along edges from block `b` to block `to`.
pub open spec fn only_rides(f: SFunc, v: Value, b: usize, to: usize) -> bool {
    forall|i: int| 0 <= i < uses(f, v).len() ==> rides(#[trigger] uses(f, v)[i], b, to)
}

/// A write that can be made in place, with all that goes with it.
pub struct SSite {
    /// The block that holds the write, and ends by branching on its outcome.
    pub block: usize,
    /// The write's tagged result.
    pub tagged: Value,
    pub is_err: Value,
    pub unwrap_err: Option<Value>,
    pub unwrap_ok: Option<Value>,
    /// The edge that is taken when the write succeeds.
    pub ok: STarget,
}

/// The write at a place, if what is around it has the shape of one whose failure panics:
/// the tagged result is tested once, its block branches on that, the error goes nowhere but
/// to a block that panics, and the new list is taken out where the other edge leads.
pub open spec fn try_shape(f: SFunc, w: (usize, usize)) -> Option<SSite> {
    match set_at(f, w.0 as int, w.1 as int) {
        Some(tagged) => match openings(f, uses(f, tagged), uses(f, tagged).len() as int) {
            Some(Openings { is_err: Some(e), unwrap_ok, unwrap_err }) => match f.blocks[w.0 as int].term {
                STerm::Branch { cond, then, els } => if {
                    &&& cond == e
                    &&& is_panic_block(f, then.to.0 as int)
                    &&& only_branches(f, e, w.0)
                    &&& (unwrap_err matches Some(x) ==> only_rides(f, x, w.0, then.to.0 as usize))
                    &&& (unwrap_ok matches Some(x) ==> x.0 == els.to.0)
                } {
                    Some(
                        SSite {
                            block: w.0,
                            tagged,
                            is_err: e,
                            unwrap_err,
                            unwrap_ok: match unwrap_ok {
                                Some(x) => Some(x.1),
                                None => None,
                            },
                            ok: els,
                        },
                    )
                } else {
                    None
                },
                _ => None,
            },
            _ => None,
        },
        None => None,
    }
}

// ---- the chain ----

/// The write that uses a value up, if it keeps the rules.
pub open spec fn site_of(f: SFunc, v: Value) -> Option<SSite> {
    if writes_of(f, v).len() == 1 {
        let w = writes_of(f, v)[0];
        if unused_after(f, v, w) {
            try_shape(f, w)
        } else {
            None
        }
    } else {
        None
    }
}

/// Whether a value keeps the rules.
pub open spec fn keeps_rules(f: SFunc, v: Value) -> bool {
    &&& forall|i: int|
        0 <= i < uses(f, v).len() ==> use_allowed(f, v, #[trigger] uses(f, v)[i])
    &&& writes_of(f, v).len() == 0 || site_of(f, v) is Some
}

/// The parameters that the first `n` uses of a value pass it on to.
pub open spec fn carries(f: SFunc, us: Seq<Use>, n: int) -> Seq<usize>
    decreases n,
{
    if n <= 0 {
        seq![]
    } else {
        match us[n - 1] {
            Use::Carried { to, slot, .. } => if slot < f.blocks[to as int].params.len() {
                carries(f, us, n - 1).push(f.blocks[to as int].params[slot as int].0 as usize)
            } else {
                carries(f, us, n - 1)
            },
            _ => carries(f, us, n - 1),
        }
    }
}

/// The values that a list goes on as.
pub open spec fn goes_on_as(f: SFunc, v: Value) -> Seq<usize> {
    let us = uses(f, v);
    match site_of(f, v) {
        Some(SSite { unwrap_ok: Some(ok), .. }) => carries(f, us, us.len() as int).push(
            ok.0 as usize,
        ),
        _ => carries(f, us, us.len() as int),
    }
}

/// The values of a function as a graph: from each to those that it goes on as.
pub open spec fn flow(f: SFunc) -> Seq<Seq<usize>> {
    Seq::new(f.values.len(), |v: int| goes_on_as(f, Value(v as u32)))
}

/// Whether a list flows from one value to another.
pub open spec fn in_chain(f: SFunc, param: Value, v: int) -> bool {
    reached(flow(f), nowhere(f.values.len()), only(f.values.len(), param.0 as int), v)
}

/// Whether every value on a chain keeps the rules.
pub open spec fn chain_holds(f: SFunc, param: Value) -> bool {
    forall|v: int|
        0 <= v < f.values.len() && #[trigger] in_chain(f, param, v) ==> keeps_rules(
            f,
            Value(v as u32),
        )
}

/// Whether nothing uses a value of a chain after a write, before it is bound anew.
pub open spec fn chain_unused_after(f: SFunc, param: Value, w: (usize, usize)) -> bool {
    forall|u: int|
        0 <= u < f.values.len() && #[trigger] in_chain(f, param, u) ==> unused_after(
            f,
            Value(u as u32),
            w,
        )
}

/// Whether nothing uses a value of a chain after any write on it.
pub open spec fn nothing_is_stale(f: SFunc, param: Value) -> bool {
    forall|v: int|
        0 <= v < f.values.len() && #[trigger] in_chain(f, param, v) && site_of(
            f,
            Value(v as u32),
        ) is Some ==> chain_unused_after(f, param, writes_of(f, Value(v as u32))[0])
}

pub open spec fn makes_list(i: SInst, v: Value) -> bool {
    i.result == Some(v) && i.op is MakeList
}

/// Whether a value is a new list that the block which makes it passes on, and that has no
/// other use.
pub open spec fn is_fresh(f: SFunc, v: Value, from: int) -> bool {
    &&& uses(f, v).len() == 1
    &&& exists|k: int|
        0 <= k < f.blocks[from].insts.len() && makes_list(#[trigger] f.blocks[from].insts[k], v)
}

/// Whether a use of a value that is not on the chain of a header's parameter leaves it off
/// that chain, or passes it on where the loop is entered, or passes a new list on.
pub open spec fn stays_out(f: SFunc, header: int, param: Value, v: Value, u: Use) -> bool {
    match u {
        Use::Carried { from, to, slot } => {
            let ps = f.blocks[to as int].params;
            slot < ps.len() && in_chain(f, param, ps[slot as int].0 as int) ==> is_fresh(
                f,
                v,
                from as int,
            ) || {
                &&& to == header
                &&& position_from(ps, param, 0) == Some(slot as int)
                &&& !back_edges(cfg(f), f.entry.0 as usize).contains((from, to))
            }
        },
        _ => true,
    }
}

/// Whether every list that comes onto a chain does so where the loop is entered, or is new.
pub open spec fn nothing_comes_in(f: SFunc, header: int, param: Value) -> bool {
    &&& forall|v: int, i: int|
        0 <= v < f.values.len() && !in_chain(f, param, v) && 0 <= i < uses(
            f,
            Value(v as u32),
        ).len() ==> stays_out(
            f,
            header,
            param,
            Value(v as u32),
            #[trigger] uses(f, Value(v as u32))[i],
        )
    &&& forall|k: int|
        0 <= k < f.params.len() ==> !in_chain(f, param, (#[trigger] f.params[k]).0 as int)
}

/// The writes on a chain, of the first `n` values.
pub open spec fn sites(f: SFunc, param: Value, n: int) -> Seq<SSite>
    decreases n,
{
    if n <= 0 {
        seq![]
    } else {
        match site_of(f, Value((n - 1) as u32)) {
            Some(s) => if in_chain(f, param, n - 1) {
                sites(f, param, n - 1).push(s)
            } else {
                sites(f, param, n - 1)
            },
            None => sites(f, param, n - 1),
        }
    }
}

/// The writes on the chain of a header's parameter, if it keeps the rules.
pub open spec fn chain(f: SFunc, header: int, param: Value) -> Option<Seq<SSite>> {
    if chain_holds(f, param) && nothing_is_stale(f, param) && nothing_comes_in(f, header, param) {
        Some(sites(f, param, f.values.len() as int))
    } else {
        None
    }
}

// ---- what is known of a site ----

/// A site that stands where it says, over values and blocks that the function has.
pub open spec fn site_in_range(f: SFunc, s: SSite) -> bool {
    &&& s.block < f.blocks.len()
    &&& s.ok.to.0 < f.blocks.len()
    &&& super::super::ssa::values_below(s.ok.args, f.values.len())
    &&& s.unwrap_ok matches Some(v) ==> v.0 < f.values.len()
}

proof fn lemma_writes_stand(f: SFunc, v: Value, us: Seq<Use>, n: int)
    requires
        0 <= n <= us.len(),
        forall|i: int| 0 <= i < us.len() ==> use_in_range(f, #[trigger] us[i]),
    ensures
        forall|i: int|
            0 <= i < writes(f, v, us, n).len() ==> (#[trigger] writes(f, v, us, n)[i]).0
                < f.blocks.len() && writes(f, v, us, n)[i].1
                < f.blocks[writes(f, v, us, n)[i].0 as int].insts.len(),
    decreases n,
{
    if n > 0 {
        lemma_writes_stand(f, v, us, n - 1);
        let before = writes(f, v, us, n - 1);
        let all = writes(f, v, us, n);
        assert(use_in_range(f, us[n - 1]));
        assert forall|i: int| 0 <= i < all.len() implies (#[trigger] all[i]).0 < f.blocks.len()
            && all[i].1 < f.blocks[all[i].0 as int].insts.len() by {
            if i < before.len() {
                assert(all[i] == before[i]);
            }
        }
    }
}

proof fn lemma_openings_below(f: SFunc, us: Seq<Use>, n: int)
    requires
        values_wf(f),
        0 <= n <= us.len(),
        forall|i: int| 0 <= i < us.len() ==> use_in_range(f, #[trigger] us[i]),
    ensures
        openings(f, us, n) matches Some(o) ==> {
            &&& o.is_err matches Some(v) ==> v.0 < f.values.len()
            &&& o.unwrap_ok matches Some(x) ==> x.1.0 < f.values.len()
            &&& o.unwrap_err matches Some(v) ==> v.0 < f.values.len()
        },
    decreases n,
{
    if n > 0 {
        lemma_openings_below(f, us, n - 1);
        assert(use_in_range(f, us[n - 1]));
        if let Use::By { block, at } = us[n - 1] {
            assert(block_in_range(f.blocks[block as int], f.values.len()));
            assert(inst_in_range(f.blocks[block as int].insts[at as int], f.values.len()));
        }
    }
}

/// The site of a write stands in the function.
pub proof fn lemma_site_in_range(f: SFunc, v: Value)
    requires
        blocks_wf(f),
        values_wf(f),
        holdable(f),
    ensures
        site_of(f, v) matches Some(s) ==> site_in_range(f, s),
{
    if let Some(s) = site_of(f, v) {
        uses_stand_in_the_function(f, v);
        lemma_writes_stand(f, v, uses(f, v), uses(f, v).len() as int);
        let w = writes_of(f, v)[0];
        assert(w.0 < f.blocks.len());
        let b = f.blocks[w.0 as int];
        assert(block_in_range(b, f.values.len()));
        assert(term_in_range(f.blocks[w.0 as int].term, f.blocks.len()));
        assert(targets(b.term)[1] == s.ok);
        super::uses::lemma_edge_args_below(b.term, 1, f.values.len());
        uses_stand_in_the_function(f, s.tagged);
        lemma_openings_below(f, uses(f, s.tagged), uses(f, s.tagged).len() as int);
    }
}

proof fn lemma_carries_below(f: SFunc, us: Seq<Use>, n: int)
    requires
        values_wf(f),
        0 <= n <= us.len(),
        forall|i: int| 0 <= i < us.len() ==> use_in_range(f, #[trigger] us[i]),
    ensures
        forall|i: int|
            0 <= i < carries(f, us, n).len() ==> (#[trigger] carries(f, us, n)[i])
                < f.values.len(),
    decreases n,
{
    if n > 0 {
        lemma_carries_below(f, us, n - 1);
        let before = carries(f, us, n - 1);
        let all = carries(f, us, n);
        assert(use_in_range(f, us[n - 1]));
        if let Use::Carried { to, slot, .. } = us[n - 1] {
            assert(block_in_range(f.blocks[to as int], f.values.len()));
        }
        assert forall|i: int| 0 <= i < all.len() implies (#[trigger] all[i]) < f.values.len() by {
            if i < before.len() {
                assert(all[i] == before[i]);
            }
        }
    }
}

proof fn lemma_flow_wf(f: SFunc)
    requires
        blocks_wf(f),
        values_wf(f),
        holdable(f),
    ensures
        graph_wf(flow(f)),
{
    assert forall|a: int, k: int|
        0 <= a < flow(f).len() && 0 <= k < flow(f)[a].len() implies (#[trigger] flow(f)[a][k])
        < flow(f).len() by {
        let v = Value(a as u32);
        let us = uses(f, v);
        uses_stand_in_the_function(f, v);
        lemma_carries_below(f, us, us.len() as int);
        lemma_site_in_range(f, v);
        let cs = carries(f, us, us.len() as int);
        if k < cs.len() {
            assert(flow(f)[a][k] == cs[k]);
        }
    }
}

// ---- computing it ----

/// A write that can be made in place.
pub struct Site {
    pub block: usize,
    pub tagged: Value,
    pub is_err: Value,
    pub unwrap_err: Option<Value>,
    pub unwrap_ok: Option<Value>,
    pub ok: Target,
}

impl Node for Site {
    type V = SSite;

    open spec fn sem(&self) -> SSite {
        SSite {
            block: self.block,
            tagged: self.tagged,
            is_err: self.is_err,
            unwrap_err: self.unwrap_err,
            unwrap_ok: self.unwrap_ok,
            ok: self.ok.sem(),
        }
    }
}

impl Clone for Site {
    fn clone(&self) -> (r: Site)
        ensures
            r.sem() == self.sem(),
    {
        Site {
            block: self.block,
            tagged: self.tagged,
            is_err: self.is_err,
            unwrap_err: self.unwrap_err,
            unwrap_ok: self.unwrap_ok,
            ok: self.ok.clone(),
        }
    }
}

/// Whether a call is one of the library's write.
pub fn is_set(func: &String) -> (r: bool)
    ensures
        r == names_set(func@),
{
    str_eq(func.as_str(), "std__collections__list__set") || starts_with(
        func.as_str(),
        "std__collections__list__set$",
    )
}

fn set_result(f: &Func, b: usize, k: usize) -> (r: Option<Value>)
    requires
        b < f.blocks.len(),
        k < f.blocks[b as int].insts.len(),
    ensures
        r == set_at(f.sem(), b as int, k as int),
{
    let i = &f.blocks[b].insts[k];
    assert(f.sem().blocks[b as int].insts[k as int] == i.sem());
    match &i.op {
        Op::Call { func, args } => if is_set(func) && args.len() == 3 {
            i.result
        } else {
            None
        },
        _ => None,
    }
}

fn reads_only(symbol: &String) -> (r: bool)
    ensures
        r == read_only_native(symbol@),
{
    str_eq(symbol.as_str(), "neon_list_at") || str_eq(symbol.as_str(), "neon_list_at_scalar")
        || str_eq(symbol.as_str(), "neon_list_len")
}

fn is_used_up(f: &Func, v: Value, u: Use) -> (r: bool)
    requires
        use_in_range(f.sem(), u),
    ensures
        r == is_write(f.sem(), v, u),
{
    match u {
        Use::By { block, at } => {
            assert(f.sem().blocks[block as int] == f.blocks[block as int].sem());
            let i = &f.blocks[block].insts[at];
            assert(f.sem().blocks[block as int].insts[at as int] == i.sem());
            match &i.op {
                Op::Call { func, args } => is_set(func) && args.len() > 0 && args[0] == v,
                _ => false,
            }
        },
        _ => false,
    }
}

fn is_allowed(f: &Func, v: Value, u: Use) -> (r: bool)
    requires
        use_in_range(f.sem(), u),
    ensures
        r == use_allowed(f.sem(), v, u),
{
    match u {
        Use::By { block, at } => {
            assert(f.sem().blocks[block as int] == f.blocks[block as int].sem());
            let i = &f.blocks[block].insts[at];
            assert(f.sem().blocks[block as int].insts[at as int] == i.sem());
            match &i.op {
                Op::Index { .. } => true,
                Op::Native { symbol, .. } => reads_only(symbol),
                Op::Call { .. } => is_used_up(f, v, u) && set_result(f, block, at).is_some(),
                _ => false,
            }
        },
        Use::Carried { to, slot, .. } => {
            assert(f.sem().blocks[to as int] == f.blocks[to as int].sem());
            slot < f.blocks[to].params.len()
        },
        Use::Handoff { .. } => true,
        Use::Scrutinee { .. } => false,
    }
}

fn first_binder(f: &Func, v: Value) -> (r: Option<usize>)
    ensures
        match r {
            Some(d) => binder_from(f.sem(), v, 0) == Some(d as int) && d < f.blocks.len(),
            None => binder_from(f.sem(), v, 0) is None,
        },
{
    let ghost s = f.sem();
    let mut b: usize = 0;
    while b < f.blocks.len()
        invariant
            b <= f.blocks.len(),
            s == f.sem(),
            binder_from(s, v, 0) == binder_from(s, v, b as int),
        decreases f.blocks.len() - b,
    {
        assert(s.blocks[b as int] == f.blocks[b as int].sem());
        if is_bound_in(&f.blocks[b], v) {
            return Some(b);
        }
        b += 1;
    }
    None
}

fn nothing_after(
    f: &Func,
    g: &Vec<Vec<usize>>,
    us: &Vec<Use>,
    v: Value,
    d: usize,
    w: (usize, usize),
) -> (r: bool)
    requires
        blocks_wf(f.sem()),
        holdable(f.sem()),
        adj(g@) == cfg(f.sem()),
        graph_wf(adj(g@)),
        us@ == uses(f.sem(), v),
        d < f.blocks.len(),
        w.0 < f.blocks.len(),
    ensures
        r == write_is_last(f.sem(), v, d as int, w),
{
    let ghost s = f.sem();
    let n: usize = f.blocks.len();
    proof {
        uses_stand_in_the_function(s, v);
    }
    assert(adj(g@).len() == g.len());
    assert(cfg(s)[w.0 as int] == g[w.0 as int]@);
    let mut starts: Vec<bool> = Vec::new();
    let mut x: usize = 0;
    while x < n
        invariant
            x <= n == s.blocks.len(),
            s == f.sem(),
            w.0 < n == g.len(),
            cfg(s)[w.0 as int] == g[w.0 as int]@,
            starts.len() == x,
            forall|k: int|
                0 <= k < x ==> #[trigger] starts[k] == onward(s, w.0 as int, d as int)[k],
        decreases n - x,
    {
        let goes = has(&g[w.0], x);
        starts.push(x != d && goes);
        x += 1;
    }
    assert(starts@ =~= onward(s, w.0 as int, d as int));
    let blocked = only_one(n, d);
    let hit = reachable(g, &starts, &blocked);
    assert(forall|x: int|
        0 <= x < n ==> #[trigger] hit[x] == runs_after(s, w.0 as int, d as int, x));
    let mut i: usize = 0;
    while i < us.len()
        invariant
            i <= us.len(),
            s == f.sem(),
            us@ == uses(s, v),
            n == s.blocks.len() == hit.len(),
            forall|x: int|
                0 <= x < n ==> #[trigger] hit[x] == runs_after(s, w.0 as int, d as int, x),
            forall|k: int| 0 <= k < us.len() ==> use_in_range(s, #[trigger] us@[k]),
            forall|k: int|
                0 <= k < i ==> !comes_after(s, d as int, w, #[trigger] uses(s, v)[k]),
        decreases us.len() - i,
    {
        let u = us[i];
        assert(use_in_range(s, us@[i as int]));
        let after = match u {
            Use::By { block, at } => hit[block] || (block == w.0 && at > w.1),
            Use::Carried { from, .. } => hit[from] || from == w.0,
            Use::Handoff { from } => hit[from] || from == w.0,
            Use::Scrutinee { from } => hit[from] || from == w.0,
        };
        assert(after == comes_after(s, d as int, w, uses(s, v)[i as int]));
        if after {
            return false;
        }
        i += 1;
    }
    true
}

fn openings_of(f: &Func, us: &Vec<Use>) -> (r: Option<Openings>)
    requires
        forall|k: int| 0 <= k < us.len() ==> use_in_range(f.sem(), #[trigger] us@[k]),
    ensures
        r == openings(f.sem(), us@, us.len() as int),
{
    let ghost s = f.sem();
    let mut o = Openings { is_err: None, unwrap_ok: None, unwrap_err: None };
    let mut i: usize = 0;
    while i < us.len()
        invariant
            i <= us.len(),
            s == f.sem(),
            forall|k: int| 0 <= k < us.len() ==> use_in_range(s, #[trigger] us@[k]),
            Some(o) == openings(s, us@, i as int),
        decreases us.len() - i,
    {
        assert(use_in_range(s, us@[i as int]));
        let next: Option<Openings> = match us[i] {
            Use::By { block, at } => {
                assert(s.blocks[block as int] == f.blocks[block as int].sem());
                let x = &f.blocks[block].insts[at];
                assert(s.blocks[block as int].insts[at as int] == x.sem());
                match (&x.op, x.result) {
                    (Op::IsErr(_), Some(r)) => if o.is_err.is_none() {
                        Some(Openings { is_err: Some(r), ..o })
                    } else {
                        None
                    },
                    (Op::UnwrapOk(_), Some(r)) => if o.unwrap_ok.is_none() {
                        Some(Openings { unwrap_ok: Some((block, r)), ..o })
                    } else {
                        None
                    },
                    (Op::UnwrapErr(_), Some(r)) => if o.unwrap_err.is_none() {
                        Some(Openings { unwrap_err: Some(r), ..o })
                    } else {
                        None
                    },
                    _ => None,
                }
            },
            _ => None,
        };
        assert(next == openings(s, us@, i + 1));
        match next {
            Some(n) => {
                o = n;
            },
            None => {
                proof {
                    lemma_no_openings(s, us@, i + 1, us.len() as int);
                }
                return None;
            },
        }
        i += 1;
    }
    Some(o)
}

proof fn lemma_no_openings(f: SFunc, us: Seq<Use>, m: int, n: int)
    requires
        0 <= m <= n,
        openings(f, us, m) is None,
    ensures
        openings(f, us, n) is None,
    decreases n,
{
    if m < n {
        lemma_no_openings(f, us, m, n - 1);
    }
}

fn only_panics(f: &Func, b: usize) -> (r: bool)
    requires
        b < f.blocks.len(),
    ensures
        r == is_panic_block(f.sem(), b as int),
{
    let ghost x = f.sem().blocks[b as int];
    assert(x == f.blocks[b as int].sem());
    match &f.blocks[b].term {
        Term::Unreachable => {},
        _ => {
            return false;
        },
    }
    let mut k: usize = 0;
    while k < f.blocks[b].insts.len()
        invariant
            b < f.blocks.len(),
            x == f.sem().blocks[b as int],
            x == f.blocks[b as int].sem(),
            x.term is Unreachable,
            k <= f.blocks[b as int].insts.len(),
            forall|j: int| 0 <= j < k ==> !is_panic(#[trigger] x.insts[j]),
        decreases f.blocks[b as int].insts.len() - k,
    {
        assert(x.insts[k as int] == f.blocks[b as int].insts[k as int].sem());
        let hit = match &f.blocks[b].insts[k].op {
            Op::Native { symbol, .. } => str_eq(symbol.as_str(), "neon_panic"),
            _ => false,
        };
        if hit {
            assert(is_panic(x.insts[k as int]));
            return true;
        }
        k += 1;
    }
    false
}

fn all_branch(us: &Vec<Use>, b: usize, Ghost(f): Ghost<SFunc>, Ghost(v): Ghost<Value>) -> (r: bool)
    requires
        us@ == uses(f, v),
    ensures
        r == only_branches(f, v, b),
{
    let mut i: usize = 0;
    while i < us.len()
        invariant
            i <= us.len(),
            us@ == uses(f, v),
            forall|k: int|
                0 <= k < i ==> (#[trigger] uses(f, v)[k]) == (Use::Scrutinee { from: b }),
        decreases us.len() - i,
    {
        let ghost u = uses(f, v)[i as int];
        let fits = match us[i] {
            Use::Scrutinee { from } => from == b,
            _ => false,
        };
        if !fits {
            assert(u != (Use::Scrutinee { from: b }));
            return false;
        }
        i += 1;
    }
    true
}

fn all_ride(
    us: &Vec<Use>,
    b: usize,
    dest: usize,
    Ghost(f): Ghost<SFunc>,
    Ghost(v): Ghost<Value>,
) -> (r: bool)
    requires
        us@ == uses(f, v),
    ensures
        r == only_rides(f, v, b, dest),
{
    let mut i: usize = 0;
    while i < us.len()
        invariant
            i <= us.len(),
            us@ == uses(f, v),
            forall|k: int| 0 <= k < i ==> rides(#[trigger] uses(f, v)[k], b, dest),
        decreases us.len() - i,
    {
        let ghost u = uses(f, v)[i as int];
        let fits = match us[i] {
            Use::Carried { from, to, .. } => from == b && to == dest,
            _ => false,
        };
        assert(fits == rides(u, b, dest));
        if !fits {
            return false;
        }
        i += 1;
    }
    true
}

/// Match what is around a write against the shape of one whose failure panics.
fn shape_of(f: &Func, table: &Vec<Vec<Use>>, w: (usize, usize)) -> (r: Option<Site>)
    requires
        blocks_wf(f.sem()),
        values_wf(f.sem()),
        holdable(f.sem()),
        is_uses_table(f.sem(), table@),
        w.0 < f.blocks.len(),
        w.1 < f.blocks[w.0 as int].insts.len(),
    ensures
        r.sem() == try_shape(f.sem(), w),
{
    let ghost s = f.sem();
    assert(s.blocks[w.0 as int] == f.blocks[w.0 as int].sem());
    assert(block_in_range(s.blocks[w.0 as int], s.values.len()));
    assert(inst_in_range(s.blocks[w.0 as int].insts[w.1 as int], s.values.len()));
    assert(term_in_range(s.blocks[w.0 as int].term, s.blocks.len()));
    let tagged = match set_result(f, w.0, w.1) {
        Some(t) => t,
        None => {
            return None;
        },
    };
    let us = &table[tagged.0 as usize];
    assert(us@ == uses(s, tagged));
    proof {
        uses_stand_in_the_function(s, tagged);
        lemma_openings_below(s, us@, us.len() as int);
    }
    let o = match openings_of(f, us) {
        Some(o) => o,
        None => {
            return None;
        },
    };
    let e = match o.is_err {
        Some(e) => e,
        None => {
            return None;
        },
    };
    match &f.blocks[w.0].term {
        Term::Branch { cond, then, els } => {
            let ghost t = s.blocks[w.0 as int].term;
            assert(targets(t)[0] == then.sem());
            assert(targets(t)[1] == els.sem());
            assert(table@[e.0 as int]@ == uses(s, e));
            if *cond != e || !only_panics(f, then.to.0 as usize) || !all_branch(
                &table[e.0 as usize],
                w.0,
                Ghost(s),
                Ghost(e),
            ) {
                return None;
            }
            if let Some(x) = o.unwrap_err {
                assert(table@[x.0 as int]@ == uses(s, x));
                if !all_ride(&table[x.0 as usize], w.0, then.to.0 as usize, Ghost(s), Ghost(x)) {
                    return None;
                }
            }
            let mut unwrap_ok: Option<Value> = None;
            if let Some((b, x)) = o.unwrap_ok {
                if b != els.to.0 as usize {
                    return None;
                }
                unwrap_ok = Some(x);
            }
            Some(
                Site {
                    block: w.0,
                    tagged,
                    is_err: e,
                    unwrap_err: o.unwrap_err,
                    unwrap_ok,
                    ok: els.clone(),
                },
            )
        },
        _ => None,
    }
}

/// What is known of one value as a member of chains.
pub struct Member {
    pub keeps: bool,
    /// The first block that binds it.
    pub binder: Option<usize>,
    pub site: Option<Site>,
    /// Where its write stands, if it has one.
    pub write: (usize, usize),
}

pub open spec fn is_member(f: SFunc, v: Value, m: Member) -> bool {
    &&& m.keeps == keeps_rules(f, v)
    &&& match m.binder {
        Some(d) => binder_from(f, v, 0) == Some(d as int) && d < f.blocks.len(),
        None => binder_from(f, v, 0) is None,
    }
    &&& m.site.sem() == site_of(f, v)
    &&& m.site is Some ==> m.write == writes_of(f, v)[0] && m.write.0 < f.blocks.len()
}

fn writes_in(f: &Func, us: &Vec<Use>, v: Value) -> (r: Vec<(usize, usize)>)
    requires
        forall|k: int| 0 <= k < us.len() ==> use_in_range(f.sem(), #[trigger] us@[k]),
    ensures
        r@ == writes(f.sem(), v, us@, us.len() as int),
{
    let mut r: Vec<(usize, usize)> = Vec::new();
    let mut i: usize = 0;
    while i < us.len()
        invariant
            i <= us.len(),
            forall|k: int| 0 <= k < us.len() ==> use_in_range(f.sem(), #[trigger] us@[k]),
            r@ == writes(f.sem(), v, us@, i as int),
        decreases us.len() - i,
    {
        assert(use_in_range(f.sem(), us@[i as int]));
        if is_used_up(f, v, us[i]) {
            if let Use::By { block, at } = us[i] {
                r.push((block, at));
            }
        }
        i += 1;
    }
    r
}

fn member(f: &Func, g: &Vec<Vec<usize>>, table: &Vec<Vec<Use>>, v: Value) -> (m: Member)
    requires
        blocks_wf(f.sem()),
        values_wf(f.sem()),
        holdable(f.sem()),
        adj(g@) == cfg(f.sem()),
        graph_wf(adj(g@)),
        is_uses_table(f.sem(), table@),
        v.0 < f.values.len(),
    ensures
        is_member(f.sem(), v, m),
{
    let ghost s = f.sem();
    assert(s.values.len() == f.values.len());
    let us = &table[v.0 as usize];
    assert(us@ == uses(s, v));
    proof {
        uses_stand_in_the_function(s, v);
        lemma_writes_stand(s, v, us@, us.len() as int);
    }
    let mut allowed: bool = true;
    let mut i: usize = 0;
    while i < us.len()
        invariant
            i <= us.len(),
            s == f.sem(),
            us@ == uses(s, v),
            forall|k: int| 0 <= k < us.len() ==> use_in_range(s, #[trigger] us@[k]),
            allowed == forall|k: int|
                0 <= k < i ==> use_allowed(s, v, #[trigger] uses(s, v)[k]),
        decreases us.len() - i,
    {
        assert(use_in_range(s, us@[i as int]));
        if !is_allowed(f, v, us[i]) {
            assert(!use_allowed(s, v, uses(s, v)[i as int]));
            allowed = false;
        }
        i += 1;
    }
    let binder = first_binder(f, v);
    let ws = writes_in(f, us, v);
    if ws.len() == 0 {
        return Member { keeps: allowed, binder, site: None, write: (0, 0) };
    }
    if ws.len() > 1 {
        return Member { keeps: false, binder, site: None, write: (0, 0) };
    }
    let w = ws[0];
    assert(writes(s, v, us@, us.len() as int)[0] == w);
    assert(s.blocks[w.0 as int] == f.blocks[w.0 as int].sem());
    let site = match binder {
        Some(d) => if nothing_after(f, g, us, v, d, w) {
            shape_of(f, table, w)
        } else {
            None
        },
        None => None,
    };
    Member { keeps: allowed && site.is_some(), binder, site, write: w }
}

/// What is known of all values of a function.
pub struct Members {
    pub members: Vec<Member>,
    pub flow: Vec<Vec<usize>>,
    pub uses: Vec<Vec<Use>>,
    /// The blocks of the function as a graph, and the edges of it that close a loop.
    pub graph: Vec<Vec<usize>>,
    pub backs: Vec<(usize, usize)>,
}

pub open spec fn members_wf(f: SFunc, m: Members) -> bool {
    &&& m.members.len() == f.values.len()
    &&& forall|v: int|
        0 <= v < m.members.len() ==> is_member(f, Value(v as u32), #[trigger] m.members[v])
    &&& is_uses_table(f, m.uses@)
    &&& adj(m.graph@) == cfg(f)
    &&& graph_wf(adj(m.graph@))
    &&& m.backs@ == back_edges(cfg(f), f.entry.0 as usize)
    &&& adj(m.flow@) == flow(f)
    &&& graph_wf(adj(m.flow@))
    &&& m.flow.len() == f.values.len()
}

fn row_of(f: &Func, us: &Vec<Use>, v: Value, m: &Member) -> (r: Vec<usize>)
    requires
        us@ == uses(f.sem(), v),
        forall|k: int| 0 <= k < us.len() ==> use_in_range(f.sem(), #[trigger] us@[k]),
        m.site.sem() == site_of(f.sem(), v),
    ensures
        r@ == goes_on_as(f.sem(), v),
{
    let ghost s = f.sem();
    let mut r: Vec<usize> = Vec::new();
    let mut i: usize = 0;
    while i < us.len()
        invariant
            i <= us.len(),
            s == f.sem(),
            forall|k: int| 0 <= k < us.len() ==> use_in_range(s, #[trigger] us@[k]),
            r@ == carries(s, us@, i as int),
        decreases us.len() - i,
    {
        assert(use_in_range(s, us@[i as int]));
        if let Use::Carried { to, slot, .. } = us[i] {
            assert(s.blocks[to as int] == f.blocks[to as int].sem());
            if slot < f.blocks[to].params.len() {
                r.push(f.blocks[to].params[slot].0 as usize);
            }
        }
        i += 1;
    }
    if let Some(x) = &m.site {
        assert(site_of(s, v) == Some(x.sem()));
        if let Some(ok) = x.unwrap_ok {
            r.push(ok.0 as usize);
        }
    }
    r
}

/// Look at every value of a function.
pub fn members_of(f: &Func) -> (r: Members)
    requires
        blocks_wf(f.sem()),
        values_wf(f.sem()),
        holdable(f.sem()),
    ensures
        members_wf(f.sem(), r),
{
    let ghost s = f.sem();
    let table = all_uses(f);
    let g = graph_of(f);
    assert(adj(g@).len() == g.len());
    let backs = find_back_edges(&g, f.entry.0 as usize);
    let n: usize = f.values.len();
    assert(s.values.len() == n);
    let mut members: Vec<Member> = Vec::new();
    let mut rows: Vec<Vec<usize>> = Vec::new();
    let mut v: usize = 0;
    while v < n
        invariant
            v <= n == f.values.len() == s.values.len(),
            n <= u32::MAX,
            s == f.sem(),
            blocks_wf(s),
            values_wf(s),
            holdable(s),
            adj(g@) == cfg(s),
            graph_wf(adj(g@)),
            is_uses_table(s, table@),
            members.len() == v,
            rows.len() == v,
            forall|w: int|
                0 <= w < v ==> is_member(s, Value(w as u32), #[trigger] members[w]),
            forall|w: int| 0 <= w < v ==> (#[trigger] rows[w])@ == goes_on_as(s, Value(w as u32)),
        decreases n - v,
    {
        let val = Value(v as u32);
        let m = member(f, &g, &table, val);
        assert(table@[v as int]@ == uses(s, val));
        proof {
            uses_stand_in_the_function(s, val);
        }
        let row = row_of(f, &table[v], val, &m);
        members.push(m);
        rows.push(row);
        v += 1;
    }
    assert(adj(rows@) =~= flow(s));
    proof {
        lemma_flow_wf(s);
    }
    Members { members, flow: rows, uses: table, graph: g, backs }
}

/// Whether nothing uses a value of a chain after a write, before it is bound anew.
fn none_after(
    f: &Func,
    m: &Members,
    hit: &Vec<bool>,
    w: (usize, usize),
    Ghost(param): Ghost<Value>,
) -> (r: bool)
    requires
        blocks_wf(f.sem()),
        holdable(f.sem()),
        members_wf(f.sem(), *m),
        f.sem().values.len() <= u32::MAX,
        hit.len() == f.sem().values.len(),
        forall|v: int| 0 <= v < hit.len() ==> #[trigger] hit[v] == in_chain(f.sem(), param, v),
        w.0 < f.blocks.len(),
    ensures
        r == chain_unused_after(f.sem(), param, w),
{
    let ghost s = f.sem();
    let n: usize = m.members.len();
    let mut u: usize = 0;
    while u < n
        invariant
            u <= n == m.members.len() == s.values.len() == hit.len(),
            n <= u32::MAX,
            s == f.sem(),
            blocks_wf(s),
            holdable(s),
            members_wf(s, *m),
            w.0 < f.blocks.len(),
            forall|v: int| 0 <= v < n ==> #[trigger] hit[v] == in_chain(s, param, v),
            forall|v: int|
                0 <= v < u && #[trigger] in_chain(s, param, v) ==> unused_after(
                    s,
                    Value(v as u32),
                    w,
                ),
        decreases n - u,
    {
        let val = Value(u as u32);
        assert(hit[u as int] == in_chain(s, param, u as int));
        assert(is_member(s, val, m.members[u as int]));
        assert(m.uses@[u as int]@ == uses(s, val));
        if hit[u] {
            match m.members[u].binder {
                Some(d) => if !nothing_after(f, &m.graph, &m.uses[u], val, d, w) {
                    assert(!unused_after(s, val, w));
                    return false;
                },
                None => {
                    assert(!unused_after(s, val, w));
                    return false;
                },
            }
        }
        u += 1;
    }
    true
}

fn is_made_in(f: &Func, v: Value, from: usize) -> (r: bool)
    requires
        from < f.blocks.len(),
    ensures
        r == exists|k: int|
            0 <= k < f.sem().blocks[from as int].insts.len() && makes_list(
                #[trigger] f.sem().blocks[from as int].insts[k],
                v,
            ),
{
    let ghost s = f.sem();
    assert(s.blocks[from as int] == f.blocks[from as int].sem());
    let is = &f.blocks[from].insts;
    let ghost x = s.blocks[from as int].insts;
    let mut k: usize = 0;
    while k < is.len()
        invariant
            k <= is.len() == x.len(),
            x == sems(is@),
            x == f.sem().blocks[from as int].insts,
            forall|j: int| 0 <= j < k ==> !makes_list(#[trigger] x[j], v),
        decreases is.len() - k,
    {
        assert(x[k as int] == is[k as int].sem());
        let is_list = match &is[k].op {
            Op::MakeList(_) => true,
            _ => false,
        };
        if is_list && is[k].result == Some(v) {
            assert(makes_list(x[k as int], v));
            return true;
        }
        k += 1;
    }
    false
}

/// Whether every list that comes onto a chain does so where the loop is entered, or is new.
fn only_at_the_gate(
    f: &Func,
    m: &Members,
    hit: &Vec<bool>,
    header: usize,
    param: Value,
) -> (r: bool)
    requires
        blocks_wf(f.sem()),
        values_wf(f.sem()),
        holdable(f.sem()),
        members_wf(f.sem(), *m),
        f.sem().values.len() <= u32::MAX,
        hit.len() == f.sem().values.len(),
        forall|v: int| 0 <= v < hit.len() ==> #[trigger] hit[v] == in_chain(f.sem(), param, v),
    ensures
        r == nothing_comes_in(f.sem(), header as int, param),
{
    let ghost s = f.sem();
    let n: usize = m.members.len();
    let mut v: usize = 0;
    while v < n
        invariant
            v <= n == m.members.len() == s.values.len() == hit.len(),
            n <= u32::MAX,
            s == f.sem(),
            blocks_wf(s),
            values_wf(s),
            holdable(s),
            members_wf(s, *m),
            forall|x: int| 0 <= x < n ==> #[trigger] hit[x] == in_chain(s, param, x),
            forall|x: int, i: int|
                0 <= x < v && !in_chain(s, param, x) && 0 <= i < uses(s, Value(x as u32)).len()
                    ==> stays_out(
                    s,
                    header as int,
                    param,
                    Value(x as u32),
                    #[trigger] uses(s, Value(x as u32))[i],
                ),
        decreases n - v,
    {
        let val = Value(v as u32);
        assert(hit[v as int] == in_chain(s, param, v as int));
        assert(m.uses@[v as int]@ == uses(s, val));
        if !hit[v] {
            let us = &m.uses[v];
            proof {
                uses_stand_in_the_function(s, val);
            }
            let mut i: usize = 0;
            while i < us.len()
                invariant
                    i <= us.len(),
                    v < n,
                    n == s.values.len() == hit.len(),
                    s == f.sem(),
                    values_wf(s),
                    members_wf(s, *m),
                    val == Value(v as u32),
                    us@ == uses(s, val),
                    !in_chain(s, param, v as int),
                    forall|k: int| 0 <= k < us.len() ==> use_in_range(s, #[trigger] us@[k]),
                    forall|x: int| 0 <= x < n ==> #[trigger] hit[x] == in_chain(s, param, x),
                    forall|k: int|
                        0 <= k < i ==> stays_out(
                            s,
                            header as int,
                            param,
                            val,
                            #[trigger] uses(s, val)[k],
                        ),
                decreases us.len() - i,
            {
                assert(use_in_range(s, us@[i as int]));
                if let Use::Carried { from, to, slot } = us[i] {
                    let ghost ps = s.blocks[to as int].params;
                    assert(s.blocks[to as int] == f.blocks[to as int].sem());
                    assert(block_in_range(s.blocks[to as int], s.values.len()));
                    if slot < f.blocks[to].params.len() {
                        let p = f.blocks[to].params[slot];
                        assert(ps[slot as int] == p);
                        assert(hit[p.0 as int] == in_chain(s, param, p.0 as int));
                        if hit[p.0 as usize] && (to != header || closes(&m.backs, from, to)
                            || position(&f.blocks[to].params, param) != Some(slot)) && !(us.len()
                            == 1 && is_made_in(f, val, from)) {
                            assert(!stays_out(
                                s,
                                header as int,
                                param,
                                val,
                                uses(s, val)[i as int],
                            ));
                            return false;
                        }
                    }
                }
                assert(stays_out(s, header as int, param, val, uses(s, val)[i as int]));
                i += 1;
            }
        }
        v += 1;
    }
    let mut k: usize = 0;
    while k < f.params.len()
        invariant
            k <= f.params.len(),
            n == s.values.len() == hit.len(),
            s == f.sem(),
            values_wf(s),
            forall|x: int| 0 <= x < n ==> #[trigger] hit[x] == in_chain(s, param, x),
            forall|j: int|
                0 <= j < k ==> !in_chain(s, param, (#[trigger] s.params[j]).0 as int),
        decreases f.params.len() - k,
    {
        let p = f.params[k];
        assert(s.params[k as int] == p);
        assert(hit[p.0 as int] == in_chain(s, param, p.0 as int));
        if hit[p.0 as usize] {
            return false;
        }
        k += 1;
    }
    true
}

/// Whether every value on a chain keeps the rules, and none is used after a write on it.
fn all_keep(f: &Func, m: &Members, hit: &Vec<bool>, Ghost(param): Ghost<Value>) -> (r: bool)
    requires
        blocks_wf(f.sem()),
        holdable(f.sem()),
        members_wf(f.sem(), *m),
        f.sem().values.len() <= u32::MAX,
        hit.len() == f.sem().values.len(),
        forall|v: int| 0 <= v < hit.len() ==> #[trigger] hit[v] == in_chain(f.sem(), param, v),
    ensures
        r == (chain_holds(f.sem(), param) && nothing_is_stale(f.sem(), param)),
{
    let ghost s = f.sem();
    let n: usize = m.members.len();
    let mut v: usize = 0;
    while v < n
        invariant
            v <= n == m.members.len() == s.values.len() == hit.len(),
            n <= u32::MAX,
            s == f.sem(),
            blocks_wf(s),
            holdable(s),
            members_wf(s, *m),
            forall|w: int| 0 <= w < n ==> #[trigger] hit[w] == in_chain(s, param, w),
            forall|w: int|
                0 <= w < v && #[trigger] in_chain(s, param, w) ==> keeps_rules(s, Value(w as u32)),
            forall|w: int|
                0 <= w < v && #[trigger] in_chain(s, param, w) && site_of(
                    s,
                    Value(w as u32),
                ) is Some ==> chain_unused_after(s, param, writes_of(s, Value(w as u32))[0]),
        decreases n - v,
    {
        assert(hit[v as int] == in_chain(s, param, v as int));
        assert(is_member(s, Value(v as u32), m.members[v as int]));
        if hit[v] {
            if !m.members[v].keeps {
                assert(!chain_holds(s, param));
                return false;
            }
            if m.members[v].site.is_some() && !none_after(
                f,
                m,
                hit,
                m.members[v].write,
                Ghost(param),
            ) {
                assert(!nothing_is_stale(s, param));
                return false;
            }
        }
        v += 1;
    }
    true
}

/// The writes on the chain of a header's parameter, if it keeps the rules.
pub fn chain_of(f: &Func, m: &Members, header: usize, param: Value) -> (r: Option<Vec<Site>>)
    requires
        blocks_wf(f.sem()),
        values_wf(f.sem()),
        holdable(f.sem()),
        members_wf(f.sem(), *m),
        param.0 < f.values.len(),
        f.sem().values.len() <= u32::MAX,
    ensures
        match r {
            Some(xs) => chain(f.sem(), header as int, param) == Some(sems(xs@)),
            None => chain(f.sem(), header as int, param) is None,
        },
{
    let ghost s = f.sem();
    let n: usize = m.members.len();
    let starts = only_one(n, param.0 as usize);
    let none = none_of(n);
    let hit = reachable(&m.flow, &starts, &none);
    if !all_keep(f, m, &hit, Ghost(param)) || !only_at_the_gate(f, m, &hit, header, param) {
        return None;
    }
    let mut xs: Vec<Site> = Vec::new();
    let mut v: usize = 0;
    assert(sems(xs@) =~= sites(s, param, 0));
    while v < n
        invariant
            v <= n == m.members.len() == s.values.len() == hit.len(),
            n <= u32::MAX,
            members_wf(s, *m),
            forall|w: int| 0 <= w < n ==> #[trigger] hit[w] == in_chain(s, param, w),
            sems(xs@) == sites(s, param, v as int),
        decreases n - v,
    {
        assert(hit[v as int] == in_chain(s, param, v as int));
        assert(is_member(s, Value(v as u32), m.members[v as int]));
        if hit[v] {
            if let Some(x) = &m.members[v].site {
                let y = x.clone();
                let ghost before = xs@;
                xs.push(y);
                assert(sems(xs@) =~= sems(before).push(y.sem()));
            }
        }
        v += 1;
    }
    Some(xs)
}

} // verus!
