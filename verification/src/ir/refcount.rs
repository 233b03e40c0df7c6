//! Reference-count insertion, driven by last uses.
//!
//! Every counted value is one of two kinds. An *owner* holds one reference from the moment
//! it is produced: a call's result, an aggregate, an element read out of a list, a block
//! parameter. A *view* holds nothing: a field, an element of a tuple, a cast or an opened
//! result is a look into what its operand owns, and its *root* is the owner at the bottom.
//!
//! Liveness is over roots: a use of a view is a use of its root. Placement, in full:
//!
//! 1. A consuming use of an owner that is live afterwards is preceded by a retain; at its
//!    last use the reference moves. A consuming use of a view is always preceded by a
//!    retain.
//! 2. An owner is released right after its last use, and a dead result at once.
//! 3. Terminators consume, and their bookkeeping sits on the edge: retain the views passed
//!    on, retain an owner once per use beyond the reference it moves, then release every
//!    owner that is neither moved along the edge nor live into the successor. An edge of a
//!    branch or a switch that needs code gets a block of its own.
//! 4. A block parameter that is never used is released at the top of its block.
//! 5. A lambda's environment is borrowed, and so is the callee of a closure call.

use super::cfg::{cfg, graph_of, predecessors, preds, successors};
use super::graph::{adj, graph_wf, reachable, reached};
use super::repr::is_counted;
use super::room::edges_of;
use super::ssa::{
    arms_sem, blocks_wf, copy_values, named_values_sem, operands, targets, term_operands,
    values_below, values_wf, Block, BlockId, Func, Inst, Op, Program, SBlock, SFunc, SInst, SOp,
    SSwitchKey, STarget, STerm, SwitchKey, Target, Term, Value,
};
use crate::syntax::{sems, Node};
use crate::text::str_eq;
use vstd::prelude::*;

pub mod balance;
pub mod laws;
pub mod order;
pub mod table;
pub mod views;

verus! {

// ---- owners and views ----

/// What the placement needs to know of every value, by its number.
pub struct SContext {
    /// Whether it is reference-counted.
    pub counted: Seq<bool>,
    /// What it is a view of, if it is one.
    pub base: Seq<Option<Value>>,
    /// The owner at the bottom: itself, unless it is a view.
    pub root: Seq<Value>,
    /// A lambda's environment.
    pub env: Option<Value>,
}

/// What the result of an instruction looks into, if it is a projection.
pub open spec fn projection(i: SInst) -> Option<(Value, Value)> {
    match i.result {
        Some(v) => match i.op {
            SOp::Field { base, .. } => Some((v, base)),
            SOp::Elem { base, .. } => Some((v, base)),
            SOp::Cast(base) => Some((v, base)),
            SOp::UnwrapOk(base) => Some((v, base)),
            SOp::UnwrapErr(base) => Some((v, base)),
            _ => None,
        },
        None => None,
    }
}

/// Whether each value is reference-counted.
pub open spec fn counted_values(f: SFunc) -> Seq<bool> {
    Seq::new(f.values.len(), |i: int| is_counted(f.values[i].repr))
}

/// The views that an instruction adds to those there are.
pub open spec fn with_view(
    counted: Seq<bool>,
    base: Seq<Option<Value>>,
    i: SInst,
) -> Seq<Option<Value>> {
    match projection(i) {
        Some((v, b)) => if counted[v.0 as int] && counted[b.0 as int] {
            base.update(v.0 as int, Some(b))
        } else {
            base
        },
        None => base,
    }
}

pub open spec fn views_of_insts(
    counted: Seq<bool>,
    base: Seq<Option<Value>>,
    is: Seq<SInst>,
) -> Seq<Option<Value>>
    decreases is.len(),
{
    if is.len() == 0 {
        base
    } else {
        with_view(counted, views_of_insts(counted, base, is.drop_last()), is.last())
    }
}

/// The views among the results of the first `n` blocks.
pub open spec fn views_of_blocks(f: SFunc, n: int) -> Seq<Option<Value>>
    decreases n,
{
    if n <= 0 {
        Seq::new(f.values.len(), |i: int| None::<Value>)
    } else {
        views_of_insts(counted_values(f), views_of_blocks(f, n - 1), f.blocks[n - 1].insts)
    }
}

/// `k` steps down from a value, or fewer if the bottom comes sooner.
pub open spec fn down(base: Seq<Option<Value>>, v: Value, k: nat) -> Value
    decreases k,
{
    if k == 0 {
        v
    } else {
        match base[v.0 as int] {
            Some(b) => down(base, b, (k - 1) as nat),
            None => v,
        }
    }
}

pub open spec fn base_of(f: SFunc) -> Seq<Option<Value>> {
    views_of_blocks(f, f.blocks.len() as int)
}

/// Every chain of views ends at an owner.
pub open spec fn views_end(f: SFunc) -> bool {
    forall|i: int|
        0 <= i < f.values.len() ==> base_of(f)[(#[trigger] down(
            base_of(f),
            Value(i as u32),
            f.values.len(),
        )).0 as int] is None
}

pub open spec fn context_of(f: SFunc) -> SContext {
    SContext {
        counted: counted_values(f),
        base: base_of(f),
        root: Seq::new(
            f.values.len(),
            |i: int| down(base_of(f), Value(i as u32), f.values.len()),
        ),
        env: if f.env is Some {
            Some(f.params[0])
        } else {
            None
        },
    }
}

// ---- uses ----

/// Whether a runtime symbol only borrows its arguments: the stores into a list in place.
pub open spec fn borrows(symbol: Seq<char>) -> bool {
    symbol == "neon_list_set_inplace"@ || symbol == "neon_list_set_field_inplace"@
}

/// The operands that an operation takes a reference of.
pub open spec fn consumed(op: SOp) -> Seq<Value> {
    match op {
        SOp::Call { args, .. } => args,
        SOp::Native { symbol, args } => if borrows(symbol) {
            seq![]
        } else {
            args
        },
        SOp::MakeTuple(vs) => vs,
        SOp::MakeList(vs) => vs,
        SOp::CallClosure { args, .. } => args,
        SOp::MakeClosure { captures, .. } => captures,
        SOp::MakeRecord { fields, .. } => fields.map_values(|f: (Seq<char>, Value)| f.1),
        _ => seq![],
    }
}

/// The operands that an operation only reads.
pub open spec fn borrowed(op: SOp) -> Seq<Value> {
    match op {
        SOp::CallClosure { callee, .. } => seq![callee],
        SOp::Native { symbol, args } => if borrows(symbol) {
            args
        } else {
            seq![]
        },
        SOp::Field { base, .. } => seq![base],
        SOp::Elem { base, .. } => seq![base],
        SOp::Index { base, index, .. } => seq![base, index],
        SOp::Cast(v) => seq![v],
        SOp::IsNull(v) => seq![v],
        SOp::IsErr(v) => seq![v],
        SOp::UnwrapOk(v) => seq![v],
        SOp::UnwrapErr(v) => seq![v],
        SOp::IsVariant { value, .. } => seq![value],
        SOp::Prim(_, vs) => vs,
        _ => seq![],
    }
}

/// The counted ones among some values, in order.
pub open spec fn counted_only(counted: Seq<bool>, vs: Seq<Value>) -> Seq<Value>
    decreases vs.len(),
{
    if vs.len() == 0 {
        seq![]
    } else if counted[vs.last().0 as int] {
        counted_only(counted, vs.drop_last()).push(vs.last())
    } else {
        counted_only(counted, vs.drop_last())
    }
}

/// Whether `v` is the root of a counted one among some values.
pub open spec fn roots_have(c: SContext, vs: Seq<Value>, v: Value) -> bool
    decreases vs.len(),
{
    if vs.len() == 0 {
        false
    } else {
        roots_have(c, vs.drop_last(), v) || (c.counted[vs.last().0 as int]
            && c.root[vs.last().0 as int] == v)
    }
}

// ---- liveness ----

/// Whether an owner is live before an instruction, given whether it is after it.
pub open spec fn live_before(c: SContext, i: SInst, v: Value, after: bool) -> bool {
    ||| roots_have(c, consumed(i.op), v)
    ||| roots_have(c, borrowed(i.op), v)
    ||| after && !(i.result == Some(v) && c.base[v.0 as int] is None)
}

/// Whether an owner is live before a run of instructions, given whether it is after it.
pub open spec fn live_before_all(c: SContext, is: Seq<SInst>, v: Value, after: bool) -> bool
    decreases is.len(),
{
    if is.len() == 0 {
        after
    } else {
        live_before_all(c, is.drop_last(), v, live_before(c, is.last(), v, after))
    }
}

/// Whether an owner is live into a block, given whether it is live into a successor. A
/// parameter is defined by the block, not live into it.
pub open spec fn live_into(c: SContext, b: SBlock, v: Value, out: bool) -> bool {
    !b.params.contains(v) && live_before_all(
        c,
        b.insts,
        v,
        out || roots_have(c, term_operands(b.term), v),
    )
}

/// The blocks into which `v` is live whatever comes after them.
pub open spec fn exposing(f: SFunc, v: Value) -> Seq<bool> {
    Seq::new(f.blocks.len(), |b: int| live_into(context_of(f), f.blocks[b], v, false))
}

/// The blocks into which `v` is not live even if it is live out of them.
pub open spec fn killing(f: SFunc, v: Value) -> Seq<bool> {
    Seq::new(f.blocks.len(), |b: int| !live_into(context_of(f), f.blocks[b], v, true))
}

/// Whether an owner is live into a block: some walk from there comes to a use of it, and
/// passes no block that defines it on the way.
pub open spec fn live_in(f: SFunc, b: int, v: Value) -> bool {
    reached(preds(cfg(f)), killing(f, v), exposing(f, v), b)
}

/// The owners live into a block, by number.
pub open spec fn live_in_set(f: SFunc, b: int) -> Seq<bool> {
    Seq::new(f.values.len(), |i: int| live_in(f, b, Value(i as u32)))
}

/// Whether an owner is live at a block's terminator: live into a successor, or read or
/// handed on by the terminator itself.
pub open spec fn live_at_end(f: SFunc, b: int, v: Value) -> bool {
    ||| exists|k: int|
        0 <= k < successors(f.blocks[b].term).len() && live_in(
            f,
            #[trigger] successors(f.blocks[b].term)[k] as int,
            v,
        )
    ||| roots_have(context_of(f), term_operands(f.blocks[b].term), v)
}

pub open spec fn live_at_end_set(f: SFunc, b: int) -> Seq<bool> {
    Seq::new(f.values.len(), |i: int| live_at_end(f, b, Value(i as u32)))
}

// ---- placement ----

pub open spec fn retain(v: Value) -> SInst {
    SInst { result: None, op: SOp::Retain(v) }
}

pub open spec fn release(v: Value) -> SInst {
    SInst { result: None, op: SOp::Release(v) }
}

/// A retain for every value, last first.
pub open spec fn retains_reversed(vs: Seq<Value>) -> Seq<SInst>
    decreases vs.len(),
{
    if vs.len() == 0 {
        seq![]
    } else {
        seq![retain(vs.last())] + retains_reversed(vs.drop_last())
    }
}

/// A release for every value, last first.
pub open spec fn releases_reversed(vs: Seq<Value>) -> Seq<SInst>
    decreases vs.len(),
{
    if vs.len() == 0 {
        seq![]
    } else {
        seq![release(vs.last())] + releases_reversed(vs.drop_last())
    }
}

/// What is placed around an instruction, and what is live before it.
pub struct SStep {
    pub retains: Seq<Value>,
    pub releases: Seq<Value>,
    pub live: Seq<bool>,
}

/// The root of a value is used: if it was dead after, it dies here.
pub open spec fn root_used(c: SContext, s: SStep, v: Value) -> SStep {
    let r = c.root[v.0 as int];
    if s.live[r.0 as int] {
        s
    } else {
        SStep {
            live: s.live.update(r.0 as int, true),
            releases: if Some(r) != c.env {
                s.releases.push(r)
            } else {
                s.releases
            },
            ..s
        }
    }
}

/// A consuming use. A view makes a reference of its own; an owner that is live afterwards
/// is retained, and moves otherwise.
pub open spec fn consume_one(c: SContext, s: SStep, v: Value) -> SStep {
    if c.base[v.0 as int] is Some {
        root_used(c, SStep { retains: s.retains.push(v), ..s }, v)
    } else if s.live[v.0 as int] {
        SStep { retains: s.retains.push(v), ..s }
    } else {
        SStep { live: s.live.update(v.0 as int, true), ..s }
    }
}

pub open spec fn consume_all(c: SContext, s: SStep, vs: Seq<Value>) -> SStep
    decreases vs.len(),
{
    if vs.len() == 0 {
        s
    } else {
        consume_one(c, consume_all(c, s, vs.drop_last()), vs.last())
    }
}

pub open spec fn borrow_all(c: SContext, s: SStep, vs: Seq<Value>) -> SStep
    decreases vs.len(),
{
    if vs.len() == 0 {
        s
    } else {
        root_used(c, borrow_all(c, s, vs.drop_last()), vs.last())
    }
}

/// A result: an owner that is dead afterwards is released at once. A view needs nothing.
pub open spec fn define(c: SContext, result: Option<Value>, live: Seq<bool>) -> SStep {
    match result {
        Some(v) => if c.counted[v.0 as int] && c.base[v.0 as int] is None {
            if live[v.0 as int] {
                SStep { retains: seq![], releases: seq![], live: live.update(v.0 as int, false) }
            } else {
                SStep { retains: seq![], releases: seq![v], live }
            }
        } else {
            SStep { retains: seq![], releases: seq![], live }
        },
        None => SStep { retains: seq![], releases: seq![], live },
    }
}

/// What is placed around an instruction after which `live` is live.
pub open spec fn step(c: SContext, i: SInst, live: Seq<bool>) -> SStep {
    borrow_all(
        c,
        consume_all(c, define(c, i.result, live), counted_only(c.counted, consumed(i.op))),
        counted_only(c.counted, borrowed(i.op)),
    )
}

/// An instruction with its retains before it and its releases after it.
pub open spec fn dressed(i: SInst, s: SStep) -> Seq<SInst> {
    retains_reversed(s.retains) + (seq![i] + releases_reversed(s.releases))
}

/// A run of instructions after which `live` is live, with what is placed around each; and
/// what is live before it.
pub open spec fn body_code(c: SContext, is: Seq<SInst>, live: Seq<bool>) -> (Seq<SInst>, Seq<bool>)
    decreases is.len(),
{
    if is.len() == 0 {
        (seq![], live)
    } else {
        let s = step(c, is.last(), live);
        let (before, top) = body_code(c, is.drop_last(), s.live);
        (before + dressed(is.last(), s), top)
    }
}

/// The releases of the parameters that are never used.
pub open spec fn param_code(c: SContext, params: Seq<Value>, top: Seq<bool>) -> Seq<SInst>
    decreases params.len(),
{
    if params.len() == 0 {
        seq![]
    } else {
        let p = params.last();
        let before = param_code(c, params.drop_last(), top);
        if c.counted[p.0 as int] && !top[p.0 as int] && Some(p) != c.env {
            before.push(release(p))
        } else {
            before
        }
    }
}

/// The retains of the views among some arguments.
pub open spec fn view_retains(c: SContext, args: Seq<Value>) -> Seq<SInst>
    decreases args.len(),
{
    if args.len() == 0 {
        seq![]
    } else {
        let a = args.last();
        let before = view_retains(c, args.drop_last());
        if c.counted[a.0 as int] && c.base[a.0 as int] is Some {
            before.push(retain(a))
        } else {
            before
        }
    }
}

/// How often an owner is passed among some arguments.
pub open spec fn owner_uses(c: SContext, args: Seq<Value>, v: Value) -> nat
    decreases args.len(),
{
    if args.len() == 0 {
        0
    } else {
        owner_uses(c, args.drop_last(), v) + if args.last() == v && c.counted[v.0 as int]
            && c.base[v.0 as int] is None {
            1nat
        } else {
            0nat
        }
    }
}

/// `k` retains of one value.
pub open spec fn copies(v: Value, k: int) -> Seq<SInst>
    decreases k,
{
    if k <= 0 {
        seq![]
    } else {
        copies(v, k - 1).push(retain(v))
    }
}

/// The retains of the owners below `n` among the arguments of an edge: one per use beyond
/// the reference that moves, and one more if the owner lives on.
pub open spec fn owner_retains(
    c: SContext,
    args: Seq<Value>,
    succ_live: Seq<bool>,
    n: int,
) -> Seq<SInst>
    decreases n,
{
    if n <= 0 {
        seq![]
    } else {
        let v = Value((n - 1) as u32);
        let uses = owner_uses(c, args, v);
        owner_retains(c, args, succ_live, n - 1) + if uses > 0 {
            copies(
                v,
                uses + (if succ_live[n - 1] {
                    1int
                } else {
                    0int
                }) - 1,
            )
        } else {
            seq![]
        }
    }
}

/// The releases of the owners below `n` that are live at the terminator, and neither moved
/// along the edge nor live into the successor.
pub open spec fn edge_releases(
    c: SContext,
    args: Seq<Value>,
    succ_live: Seq<bool>,
    end_live: Seq<bool>,
    n: int,
) -> Seq<SInst>
    decreases n,
{
    if n <= 0 {
        seq![]
    } else {
        let v = Value((n - 1) as u32);
        let before = edge_releases(c, args, succ_live, end_live, n - 1);
        if end_live[n - 1] && owner_uses(c, args, v) == 0 && !succ_live[n - 1] && Some(v) != c.env {
            before.push(release(v))
        } else {
            before
        }
    }
}

/// The code on an edge. Retains come before releases: a release may free the root of the
/// view that a retain just made a reference of.
pub open spec fn edge_code(
    c: SContext,
    args: Seq<Value>,
    succ_live: Seq<bool>,
    end_live: Seq<bool>,
) -> Seq<SInst> {
    view_retains(c, args) + owner_retains(c, args, succ_live, end_live.len() as int)
        + edge_releases(c, args, succ_live, end_live, end_live.len() as int)
}

/// The releases below `n` before a return, of all that is live but the value that moves out.
pub open spec fn exit_releases(
    c: SContext,
    moved: Option<Value>,
    end_live: Seq<bool>,
    n: int,
) -> Seq<SInst>
    decreases n,
{
    if n <= 0 {
        seq![]
    } else {
        let v = Value((n - 1) as u32);
        let before = exit_releases(c, moved, end_live, n - 1);
        if end_live[n - 1] && Some(v) != moved && Some(v) != c.env {
            before.push(release(v))
        } else {
            before
        }
    }
}

/// The code before a return or a throw of `v`: a view is retained, an owner moves out.
pub open spec fn exit_code(c: SContext, v: Option<Value>, end_live: Seq<bool>) -> Seq<SInst> {
    let n = end_live.len() as int;
    match v {
        Some(v) => if !c.counted[v.0 as int] {
            exit_releases(c, None, end_live, n)
        } else if c.base[v.0 as int] is Some {
            seq![retain(v)] + exit_releases(c, None, end_live, n)
        } else {
            exit_releases(c, Some(v), end_live, n)
        },
        None => exit_releases(c, None, end_live, n),
    }
}

/// The code on the edge of block `b` to a target.
pub open spec fn target_code(f: SFunc, b: int, t: STarget) -> Seq<SInst> {
    edge_code(context_of(f), t.args, live_in_set(f, t.to.0 as int), live_at_end_set(f, b))
}

/// An edge and the code it needs: if it needs some, it goes to a new block that holds the
/// code and jumps on.
pub open spec fn split(t: STarget, code: Seq<SInst>, next: int) -> (STarget, Seq<SBlock>) {
    if code.len() == 0 {
        (t, seq![])
    } else {
        (
            STarget { to: BlockId(next as u32), args: seq![] },
            seq![
                SBlock {
                    id: BlockId(next as u32),
                    params: seq![],
                    insts: code,
                    term: STerm::Jump(t),
                },
            ],
        )
    }
}

/// The arms of a switch of block `b`, each split; new blocks are numbered from `next`.
pub open spec fn split_arms(
    f: SFunc,
    b: int,
    arms: Seq<(SSwitchKey, STarget)>,
    next: int,
) -> (Seq<(SSwitchKey, STarget)>, Seq<SBlock>)
    decreases arms.len(),
{
    if arms.len() == 0 {
        (seq![], seq![])
    } else {
        let (done, new) = split_arms(f, b, arms.drop_last(), next);
        let (key, t) = arms.last();
        let (to, more) = split(t, target_code(f, b, t), next + new.len());
        (done.push((key, to)), new + more)
    }
}

/// The body of block `b` with its bookkeeping, up to its terminator.
pub open spec fn inner_code(f: SFunc, b: int) -> Seq<SInst> {
    let c = context_of(f);
    let (code, top) = body_code(c, f.blocks[b].insts, live_at_end_set(f, b));
    param_code(c, f.blocks[b].params, top) + code
}

/// Block `b` with its bookkeeping, and the new blocks its edges need, numbered from `next`.
pub open spec fn block_code(f: SFunc, b: int, next: int) -> (SBlock, Seq<SBlock>) {
    let blk = f.blocks[b];
    let inner = inner_code(f, b);
    let c = context_of(f);
    let end = live_at_end_set(f, b);
    match blk.term {
        STerm::Ret(v) => (SBlock { insts: inner + exit_code(c, v, end), ..blk }, seq![]),
        STerm::Throw(v) => (SBlock { insts: inner + exit_code(c, Some(v), end), ..blk }, seq![]),
        STerm::Jump(t) => (SBlock { insts: inner + target_code(f, b, t), ..blk }, seq![]),
        STerm::Branch { cond, then, els } => {
            let (t, new) = split(then, target_code(f, b, then), next);
            let (e, more) = split(els, target_code(f, b, els), next + new.len());
            (
                SBlock {
                    insts: inner,
                    term: STerm::Branch { cond, then: t, els: e },
                    ..blk
                },
                new + more,
            )
        },
        STerm::Switch { on, arms, default } => {
            let (a, new) = split_arms(f, b, arms, next);
            let (d, more) = split(default, target_code(f, b, default), next + new.len());
            (
                SBlock {
                    insts: inner,
                    term: STerm::Switch { on, arms: a, default: d },
                    ..blk
                },
                new + more,
            )
        },
        STerm::Unreachable => (SBlock { insts: inner, ..blk }, seq![]),
    }
}

/// The first `n` blocks with their bookkeeping, and the new blocks they need.
pub open spec fn blocks_code(f: SFunc, n: int) -> (Seq<SBlock>, Seq<SBlock>)
    decreases n,
{
    if n <= 0 {
        (seq![], seq![])
    } else {
        let (done, new) = blocks_code(f, n - 1);
        let (b, more) = block_code(f, n - 1, (f.blocks.len() + new.len()) as int);
        (done.push(b), new + more)
    }
}

/// A function with its reference counting.
pub open spec fn inserted(f: SFunc) -> SFunc {
    if exists|i: int| 0 <= i < f.values.len() && #[trigger] counted_values(f)[i] {
        let (done, new) = blocks_code(f, f.blocks.len() as int);
        SFunc { blocks: done + new, ..f }
    } else {
        f
    }
}

/// How many edges leave the first `n` blocks.
pub open spec fn edge_count(f: SFunc, n: int) -> nat
    decreases n,
{
    if n <= 0 {
        0
    } else {
        edge_count(f, n - 1) + targets(f.blocks[n - 1].term).len()
    }
}

/// What the insertion asks of a function: its blocks and values exist, a lambda has its
/// environment, and there are numbers for a new block on every edge.
pub open spec fn insertable(f: SFunc) -> bool {
    &&& blocks_wf(f)
    &&& values_wf(f)
    &&& f.env is Some ==> f.params.len() > 0
    &&& f.blocks.len() + edge_count(f, f.blocks.len() as int) <= u32::MAX
}

// ---- computing it ----

/// [`SContext`] as it is computed.
struct Context {
    counted: Vec<bool>,
    base: Vec<Option<Value>>,
    root: Vec<Value>,
    env: Option<Value>,
}

impl View for Context {
    type V = SContext;

    closed spec fn view(&self) -> SContext {
        SContext {
            counted: self.counted@,
            base: self.base@,
            root: self.root@,
            env: self.env,
        }
    }
}

/// The tables cover `n` values and stay among them.
spec fn context_wf(c: SContext, n: nat) -> bool {
    &&& n <= u32::MAX
    &&& c.counted.len() == n
    &&& c.base.len() == n
    &&& c.root.len() == n
    &&& forall|i: int| 0 <= i < n ==> (#[trigger] c.base[i] matches Some(b) ==> b.0 < n)
    &&& forall|i: int| 0 <= i < n ==> (#[trigger] c.root[i]).0 < n
}

spec fn base_wf(base: Seq<Option<Value>>, n: nat) -> bool {
    &&& base.len() == n
    &&& forall|i: int| 0 <= i < n ==> (#[trigger] base[i] matches Some(b) ==> b.0 < n)
}

proof fn lemma_projection_in_range(i: SInst, n: nat)
    requires
        super::ssa::inst_in_range(i, n),
    ensures
        match projection(i) {
            Some((v, b)) => v.0 < n && b.0 < n,
            None => true,
        },
{
    if let Some((v, b)) = projection(i) {
        assert(operands(i.op)[0] == b);
    }
}

proof fn lemma_views_of_insts(counted: Seq<bool>, base: Seq<Option<Value>>, is: Seq<SInst>, n: nat)
    requires
        base_wf(base, n),
        forall|k: int| 0 <= k < is.len() ==> super::ssa::inst_in_range(#[trigger] is[k], n),
    ensures
        base_wf(views_of_insts(counted, base, is), n),
    decreases is.len(),
{
    if is.len() > 0 {
        let shorter = is.drop_last();
        assert forall|k: int| 0 <= k < shorter.len() implies super::ssa::inst_in_range(
            #[trigger] shorter[k],
            n,
        ) by {
            assert(shorter[k] == is[k]);
        }
        lemma_views_of_insts(counted, base, shorter, n);
        assert(super::ssa::inst_in_range(is[is.len() - 1], n));
        lemma_projection_in_range(is.last(), n);
    }
}

proof fn lemma_views_of_blocks(f: SFunc, n: int)
    requires
        values_wf(f),
        0 <= n <= f.blocks.len(),
    ensures
        base_wf(views_of_blocks(f, n), f.values.len()),
    decreases n,
{
    if n > 0 {
        lemma_views_of_blocks(f, n - 1);
        assert(super::ssa::block_in_range(f.blocks[n - 1], f.values.len()));
        lemma_views_of_insts(
            counted_values(f),
            views_of_blocks(f, n - 1),
            f.blocks[n - 1].insts,
            f.values.len(),
        );
    }
}

proof fn lemma_down_in_range(base: Seq<Option<Value>>, v: Value, k: nat, n: nat)
    requires
        base_wf(base, n),
        v.0 < n,
    ensures
        down(base, v, k).0 < n,
    decreases k,
{
    if k > 0 {
        if let Some(b) = base[v.0 as int] {
            assert(base[v.0 as int] == Some(b));
            lemma_down_in_range(base, b, (k - 1) as nat, n);
        }
    }
}

/// A context computed from a function whose values exist covers just those values.
proof fn lemma_context_wf(f: SFunc)
    requires
        values_wf(f),
    ensures
        context_wf(context_of(f), f.values.len()),
{
    lemma_views_of_blocks(f, f.blocks.len() as int);
    let c = context_of(f);
    assert forall|i: int| 0 <= i < f.values.len() implies (#[trigger] c.root[i]).0
        < f.values.len() by {
        lemma_down_in_range(base_of(f), Value(i as u32), f.values.len(), f.values.len());
    }
}

fn counted_table(f: &Func) -> (r: Vec<bool>)
    ensures
        r@ == counted_values(f.sem()),
{
    let mut r: Vec<bool> = Vec::new();
    let mut i: usize = 0;
    while i < f.values.len()
        invariant
            i <= f.values.len(),
            r.len() == i,
            forall|k: int| 0 <= k < i ==> #[trigger] r[k] == counted_values(f.sem())[k],
        decreases f.values.len() - i,
    {
        assert(f.sem().values[i as int] == f.values[i as int].sem());
        r.push(f.values[i].repr.is_counted());
        i += 1;
    }
    assert(r@ =~= counted_values(f.sem()));
    r
}

fn projected(i: &Inst) -> (r: Option<(Value, Value)>)
    ensures
        r == projection(i.sem()),
{
    match i.result {
        Some(v) => match &i.op {
            Op::Field { base, .. } => Some((v, *base)),
            Op::Elem { base, .. } => Some((v, *base)),
            Op::Cast(base) => Some((v, *base)),
            Op::UnwrapOk(base) => Some((v, *base)),
            Op::UnwrapErr(base) => Some((v, *base)),
            _ => None,
        },
        None => None,
    }
}

/// What each value is a view of.
fn base_table(f: &Func, counted: &Vec<bool>) -> (r: Vec<Option<Value>>)
    requires
        values_wf(f.sem()),
        counted@ == counted_values(f.sem()),
    ensures
        r@ == base_of(f.sem()),
{
    let ghost s = f.sem();
    let n: usize = f.values.len();
    assert(s.values.len() == n);
    let mut base: Vec<Option<Value>> = Vec::new();
    let mut i: usize = 0;
    while i < n
        invariant
            i <= n,
            base.len() == i,
            forall|k: int| 0 <= k < i ==> (#[trigger] base[k]) is None,
        decreases n - i,
    {
        base.push(None);
        i += 1;
    }
    assert(base@ =~= views_of_blocks(s, 0));
    let mut b: usize = 0;
    while b < f.blocks.len()
        invariant
            b <= f.blocks.len(),
            s == f.sem(),
            n == f.values.len(),
            s.values.len() == n,
            values_wf(s),
            counted@ == counted_values(s),
            base@ == views_of_blocks(s, b as int),
            base.len() == n,
        decreases f.blocks.len() - b,
    {
        let ghost is = s.blocks[b as int].insts;
        assert(s.blocks[b as int] == f.blocks[b as int].sem());
        assert(super::ssa::block_in_range(s.blocks[b as int], n as nat));
        let insts = &f.blocks[b].insts;
        let mut k: usize = 0;
        assert(is.take(0).len() == 0);
        while k < insts.len()
            invariant
                k <= insts.len(),
                is == sems(insts@),
                n == f.values.len(),
                s.values.len() == n,
                counted@ == counted_values(s),
                forall|j: int| 0 <= j < is.len() ==> super::ssa::inst_in_range(
                    #[trigger] is[j],
                    n as nat,
                ),
                base@ == views_of_insts(
                    counted_values(s),
                    views_of_blocks(s, b as int),
                    is.take(k as int),
                ),
                base.len() == n,
            decreases insts.len() - k,
        {
            assert(is.take(k + 1).drop_last() =~= is.take(k as int));
            assert(is.take(k + 1).last() == insts[k as int].sem());
            assert(is[k as int] == insts[k as int].sem());
            proof {
                lemma_projection_in_range(is[k as int], n as nat);
            }
            if let Some((v, x)) = projected(&insts[k]) {
                if counted[v.0 as usize] && counted[x.0 as usize] {
                    base.set(v.0 as usize, Some(x));
                }
            }
            k += 1;
        }
        assert(is.take(k as int) =~= is);
        b += 1;
    }
    base
}

/// The owner at the bottom of a chain of views.
fn root_of(base: &Vec<Option<Value>>, v: Value) -> (r: Value)
    requires
        base_wf(base@, base.len() as nat),
        v.0 < base.len(),
    ensures
        r == down(base@, v, base.len() as nat),
{
    let n: usize = base.len();
    let mut cur = v;
    let mut left: usize = n;
    while left > 0
        invariant
            left <= n == base.len(),
            base_wf(base@, base.len() as nat),
            cur.0 < n,
            down(base@, v, n as nat) == down(base@, cur, left as nat),
        decreases left,
    {
        match base[cur.0 as usize] {
            Some(b) => {
                assert(base@[cur.0 as int] == Some(b));
                cur = b;
                left -= 1;
            },
            None => {
                return cur;
            },
        }
    }
    cur
}

fn context(f: &Func, counted: Vec<bool>) -> (c: Context)
    requires
        values_wf(f.sem()),
        f.env is Some ==> f.params.len() > 0,
        counted@ == counted_values(f.sem()),
    ensures
        c@ == context_of(f.sem()),
        context_wf(c@, f.values.len() as nat),
{
    let ghost s = f.sem();
    let base = base_table(f, &counted);
    proof {
        lemma_views_of_blocks(s, s.blocks.len() as int);
        lemma_context_wf(s);
    }
    let n: usize = f.values.len();
    assert(s.values.len() == n);
    let mut root: Vec<Value> = Vec::new();
    let mut i: usize = 0;
    while i < n
        invariant
            i <= n == base.len() <= u32::MAX,
            base_wf(base@, n as nat),
            root.len() == i,
            forall|k: int|
                0 <= k < i ==> #[trigger] root[k] == down(base@, Value(k as u32), n as nat),
        decreases n - i,
    {
        root.push(root_of(&base, Value(i as u32)));
        i += 1;
    }
    let env = match &f.env {
        Some(_) => Some(f.params[0]),
        None => None,
    };
    assert(root@ =~= context_of(s).root);
    Context { counted, base, root, env }
}

// ---- uses, computed ----

fn is_borrowing(symbol: &String) -> (r: bool)
    ensures
        r == borrows(symbol@),
{
    str_eq(symbol.as_str(), "neon_list_set_inplace") || str_eq(
        symbol.as_str(),
        "neon_list_set_field_inplace",
    )
}

fn field_values(fs: &Vec<(String, Value)>) -> (r: Vec<Value>)
    ensures
        r@ == named_values_sem(fs@).map_values(|f: (Seq<char>, Value)| f.1),
{
    let mut r: Vec<Value> = Vec::new();
    let mut i: usize = 0;
    while i < fs.len()
        invariant
            i <= fs.len(),
            r.len() == i,
            forall|k: int| 0 <= k < i ==> #[trigger] r[k] == fs[k].1,
        decreases fs.len() - i,
    {
        r.push(fs[i].1);
        i += 1;
    }
    assert(r@ =~= named_values_sem(fs@).map_values(|f: (Seq<char>, Value)| f.1));
    r
}

fn one(v: Value) -> (r: Vec<Value>)
    ensures
        r@ == seq![v],
{
    let mut r: Vec<Value> = Vec::new();
    r.push(v);
    assert(r@ =~= seq![v]);
    r
}

fn no_values() -> (r: Vec<Value>)
    ensures
        r@ == Seq::<Value>::empty(),
{
    Vec::new()
}

/// The operands that an operation takes a reference of.
fn consumed_by(op: &Op) -> (r: Vec<Value>)
    ensures
        r@ == consumed(op.sem()),
{
    match op {
        Op::Call { args, .. } => copy_values(args),
        Op::Native { symbol, args } => if is_borrowing(symbol) {
            no_values()
        } else {
            copy_values(args)
        },
        Op::MakeTuple(vs) => copy_values(vs),
        Op::MakeList(vs) => copy_values(vs),
        Op::CallClosure { args, .. } => copy_values(args),
        Op::MakeClosure { captures, .. } => copy_values(captures),
        Op::MakeRecord { fields, .. } => field_values(fields),
        _ => no_values(),
    }
}

/// The operands that an operation only reads.
fn borrowed_by(op: &Op) -> (r: Vec<Value>)
    ensures
        r@ == borrowed(op.sem()),
{
    match op {
        Op::CallClosure { callee, .. } => one(*callee),
        Op::Native { symbol, args } => if is_borrowing(symbol) {
            copy_values(args)
        } else {
            no_values()
        },
        Op::Field { base, .. } => one(*base),
        Op::Elem { base, .. } => one(*base),
        Op::Index { base, index, .. } => {
            let mut r = one(*base);
            r.push(*index);
            assert(r@ =~= seq![*base, *index]);
            r
        },
        Op::Cast(v) => one(*v),
        Op::IsNull(v) => one(*v),
        Op::IsErr(v) => one(*v),
        Op::UnwrapOk(v) => one(*v),
        Op::UnwrapErr(v) => one(*v),
        Op::IsVariant { value, .. } => one(*value),
        Op::Prim(_, vs) => copy_values(vs),
        _ => no_values(),
    }
}

/// The values that a terminator reads or hands on.
pub fn term_values(t: &Term) -> (r: Vec<Value>)
    ensures
        r@ == term_operands(t.sem()),
{
    match t {
        Term::Ret(Some(v)) => one(*v),
        Term::Throw(v) => one(*v),
        Term::Jump(t) => copy_values(&t.args),
        Term::Branch { cond, then, els } => {
            let mut r = one(*cond);
            let mut a = copy_values(&then.args);
            let mut b = copy_values(&els.args);
            r.append(&mut a);
            r.append(&mut b);
            assert(r@ =~= term_operands(t.sem()));
            r
        },
        Term::Switch { on, arms, default } => {
            let mut r = one(*on);
            let ghost s = arms_sem(arms@);
            let mut i: usize = 0;
            assert(r@ =~= seq![*on] + super::ssa::arm_args(s.take(0)));
            while i < arms.len()
                invariant
                    i <= arms.len(),
                    s == arms_sem(arms@),
                    s.len() == arms.len(),
                    r@ == seq![*on] + super::ssa::arm_args(s.take(i as int)),
                decreases arms.len() - i,
            {
                let mut a = copy_values(&arms[i].1.args);
                r.append(&mut a);
                assert(s.take(i + 1).drop_last() =~= s.take(i as int));
                assert(s.take(i + 1).last() == (arms[i as int].0.sem(), arms[i as int].1.sem()));
                assert(r@ =~= seq![*on] + super::ssa::arm_args(s.take(i + 1)));
                i += 1;
            }
            assert(s.take(i as int) =~= s);
            let mut d = copy_values(&default.args);
            r.append(&mut d);
            assert(r@ =~= term_operands(t.sem()));
            r
        },
        _ => no_values(),
    }
}

fn keep_counted(c: &Context, vs: &Vec<Value>) -> (r: Vec<Value>)
    requires
        context_wf(c@, c.counted.len() as nat),
        values_below(vs@, c.counted.len() as nat),
    ensures
        r@ == counted_only(c@.counted, vs@),
        values_below(r@, c.counted.len() as nat),
{
    let mut r: Vec<Value> = Vec::new();
    let mut i: usize = 0;
    assert(vs@.take(0).len() == 0);
    while i < vs.len()
        invariant
            i <= vs.len(),
            values_below(vs@, c.counted.len() as nat),
            r@ == counted_only(c@.counted, vs@.take(i as int)),
            values_below(r@, c.counted.len() as nat),
        decreases vs.len() - i,
    {
        assert(vs@.take(i + 1).drop_last() =~= vs@.take(i as int));
        assert(vs@.take(i + 1).last() == vs@[i as int]);
        assert(vs@[i as int].0 < c.counted.len());
        if c.counted[vs[i].0 as usize] {
            r.push(vs[i]);
        }
        i += 1;
    }
    assert(vs@.take(i as int) =~= vs@);
    r
}

fn has_root(c: &Context, vs: &Vec<Value>, v: Value) -> (r: bool)
    requires
        context_wf(c@, c.counted.len() as nat),
        values_below(vs@, c.counted.len() as nat),
    ensures
        r == roots_have(c@, vs@, v),
{
    let mut i: usize = 0;
    let mut r: bool = false;
    assert(vs@.take(0).len() == 0);
    while i < vs.len()
        invariant
            i <= vs.len(),
            context_wf(c@, c.counted.len() as nat),
            values_below(vs@, c.counted.len() as nat),
            r == roots_have(c@, vs@.take(i as int), v),
        decreases vs.len() - i,
    {
        assert(vs@.take(i + 1).drop_last() =~= vs@.take(i as int));
        assert(vs@.take(i + 1).last() == vs@[i as int]);
        let w: usize = vs[i].0 as usize;
        assert(vs@[i as int].0 < c.counted.len());
        r = r || (c.counted[w] && c.root[w] == v);
        i += 1;
    }
    assert(vs@.take(i as int) =~= vs@);
    r
}

/// What an operation consumes or borrows is among what it reads.
proof fn lemma_uses_in_range(op: SOp, n: nat)
    requires
        values_below(operands(op), n),
    ensures
        values_below(consumed(op), n),
        values_below(borrowed(op), n),
{
    match op {
        SOp::CallClosure { callee, args } => {
            let all = operands(op);
            assert(all[0] == callee);
            assert forall|i: int| 0 <= i < args.len() implies (#[trigger] args[i]).0 < n by {
                assert(all[i + 1] == args[i]);
            }
        },
        SOp::Index { base, index, .. } => {
            let all = operands(op);
            assert(all[0] == base && all[1] == index);
        },
        SOp::Field { base, .. } => {
            assert(operands(op)[0] == base);
        },
        SOp::Elem { base, .. } => {
            assert(operands(op)[0] == base);
        },
        SOp::Cast(v) => {
            assert(operands(op)[0] == v);
        },
        SOp::IsNull(v) => {
            assert(operands(op)[0] == v);
        },
        SOp::IsErr(v) => {
            assert(operands(op)[0] == v);
        },
        SOp::UnwrapOk(v) => {
            assert(operands(op)[0] == v);
        },
        SOp::UnwrapErr(v) => {
            assert(operands(op)[0] == v);
        },
        SOp::IsVariant { value, .. } => {
            assert(operands(op)[0] == value);
        },
        _ => {},
    }
}

// ---- liveness, computed ----

/// What the liveness of every block is computed from: the operands of its instructions and
/// its terminator.
struct Uses {
    consumed: Vec<Vec<Value>>,
    borrowed: Vec<Vec<Value>>,
    end: Vec<Value>,
}

spec fn uses_wf(u: Uses, b: SBlock, n: nat) -> bool {
    &&& u.consumed.len() == b.insts.len()
    &&& u.borrowed.len() == b.insts.len()
    &&& forall|k: int|
        0 <= k < b.insts.len() ==> (#[trigger] u.consumed[k])@ == consumed(b.insts[k].op)
            && values_below(u.consumed[k]@, n)
    &&& forall|k: int|
        0 <= k < b.insts.len() ==> (#[trigger] u.borrowed[k])@ == borrowed(b.insts[k].op)
            && values_below(u.borrowed[k]@, n)
    &&& u.end@ == term_operands(b.term)
    &&& values_below(u.end@, n)
}

fn uses_of(b: &Block, Ghost(n): Ghost<nat>) -> (u: Uses)
    requires
        super::ssa::block_in_range(b.sem(), n),
    ensures
        uses_wf(u, b.sem(), n),
{
    let ghost s = b.sem();
    let mut c: Vec<Vec<Value>> = Vec::new();
    let mut r: Vec<Vec<Value>> = Vec::new();
    let mut k: usize = 0;
    while k < b.insts.len()
        invariant
            k <= b.insts.len(),
            s == b.sem(),
            super::ssa::block_in_range(s, n),
            c.len() == k,
            r.len() == k,
            forall|j: int|
                0 <= j < k ==> (#[trigger] c[j])@ == consumed(s.insts[j].op) && values_below(
                    c[j]@,
                    n,
                ),
            forall|j: int|
                0 <= j < k ==> (#[trigger] r[j])@ == borrowed(s.insts[j].op) && values_below(
                    r[j]@,
                    n,
                ),
        decreases b.insts.len() - k,
    {
        assert(s.insts[k as int] == b.insts[k as int].sem());
        assert(super::ssa::inst_in_range(s.insts[k as int], n));
        proof {
            lemma_uses_in_range(s.insts[k as int].op, n);
        }
        c.push(consumed_by(&b.insts[k].op));
        r.push(borrowed_by(&b.insts[k].op));
        k += 1;
    }
    Uses { consumed: c, borrowed: r, end: term_values(&b.term) }
}

fn has_value(vs: &Vec<Value>, v: Value) -> (r: bool)
    ensures
        r == vs@.contains(v),
{
    let mut i: usize = 0;
    while i < vs.len()
        invariant
            i <= vs.len(),
            forall|k: int| 0 <= k < i ==> #[trigger] vs[k] != v,
        decreases vs.len() - i,
    {
        if vs[i] == v {
            assert(vs@[i as int] == v);
            return true;
        }
        i += 1;
    }
    false
}

/// Whether an owner is live into a block, given whether it is live into a successor.
fn is_live_into(c: &Context, b: &Block, u: &Uses, v: Value, out: bool) -> (r: bool)
    requires
        context_wf(c@, c.counted.len() as nat),
        super::ssa::block_in_range(b.sem(), c.counted.len() as nat),
        uses_wf(*u, b.sem(), c.counted.len() as nat),
        v.0 < c.counted.len(),
    ensures
        r == live_into(c@, b.sem(), v, out),
{
    let ghost s = b.sem();
    if has_value(&b.params, v) {
        return false;
    }
    let mut live: bool = out || has_root(c, &u.end, v);
    let ghost after = live;
    let mut k: usize = b.insts.len();
    assert(s.insts.take(k as int) =~= s.insts);
    while k > 0
        invariant
            k <= b.insts.len(),
            s == b.sem(),
            context_wf(c@, c.counted.len() as nat),
            super::ssa::block_in_range(s, c.counted.len() as nat),
            uses_wf(*u, s, c.counted.len() as nat),
            v.0 < c.counted.len(),
            live_before_all(c@, s.insts, v, after) == live_before_all(
                c@,
                s.insts.take(k as int),
                v,
                live,
            ),
        decreases k,
    {
        k -= 1;
        let i = &b.insts[k];
        assert(s.insts[k as int] == i.sem());
        assert(s.insts.take(k + 1).drop_last() =~= s.insts.take(k as int));
        assert(s.insts.take(k + 1).last() == i.sem());
        let owner = c.base[v.0 as usize].is_none();
        let defines = match i.result {
            Some(w) => w == v && owner,
            None => false,
        };
        live = has_root(c, &u.consumed[k], v) || has_root(c, &u.borrowed[k], v) || (live
            && !defines);
    }
    live
}

/// Whether each value is live into each block: `r[v][b]`.
fn liveness(f: &Func, c: &Context, back: &Vec<Vec<usize>>) -> (r: Vec<Vec<bool>>)
    requires
        blocks_wf(f.sem()),
        values_wf(f.sem()),
        c@ == context_of(f.sem()),
        context_wf(c@, f.values.len() as nat),
        adj(back@) == preds(cfg(f.sem())),
        graph_wf(adj(back@)),
    ensures
        r.len() == f.values.len(),
        forall|v: int| 0 <= v < r.len() ==> (#[trigger] r[v]).len() == f.blocks.len(),
        forall|v: int, b: int|
            0 <= v < r.len() && 0 <= b < f.blocks.len() ==> #[trigger] r[v]@[b] == live_in(
                f.sem(),
                b,
                Value(v as u32),
            ),
{
    let ghost s = f.sem();
    let ghost n = f.values.len() as nat;
    assert(s.values.len() == n);
    assert(adj(back@).len() == back.len());
    let mut uses: Vec<Uses> = Vec::new();
    let mut b: usize = 0;
    while b < f.blocks.len()
        invariant
            b <= f.blocks.len(),
            s == f.sem(),
            n == s.values.len(),
            values_wf(s),
            uses.len() == b,
            forall|k: int| 0 <= k < b ==> uses_wf(#[trigger] uses[k], s.blocks[k], n),
        decreases f.blocks.len() - b,
    {
        assert(s.blocks[b as int] == f.blocks[b as int].sem());
        assert(super::ssa::block_in_range(s.blocks[b as int], n));
        uses.push(uses_of(&f.blocks[b], Ghost(n)));
        b += 1;
    }
    let mut r: Vec<Vec<bool>> = Vec::new();
    let mut v: usize = 0;
    while v < f.values.len()
        invariant
            v <= f.values.len() == n,
            n <= u32::MAX,
            s == f.sem(),
            n == s.values.len(),
            values_wf(s),
            c@ == context_of(s),
            context_wf(c@, n),
            back.len() == f.blocks.len(),
            adj(back@) == preds(cfg(s)),
            graph_wf(adj(back@)),
            uses.len() == f.blocks.len(),
            forall|k: int| 0 <= k < uses.len() ==> uses_wf(#[trigger] uses[k], s.blocks[k], n),
            r.len() == v,
            forall|w: int| 0 <= w < v ==> (#[trigger] r[w]).len() == f.blocks.len(),
            forall|w: int, b: int|
                0 <= w < v && 0 <= b < f.blocks.len() ==> #[trigger] r[w]@[b] == live_in(
                    s,
                    b,
                    Value(w as u32),
                ),
        decreases f.values.len() - v,
    {
        let value = Value(v as u32);
        let mut starts: Vec<bool> = Vec::new();
        let mut blocked: Vec<bool> = Vec::new();
        let mut b: usize = 0;
        while b < f.blocks.len()
            invariant
                b <= f.blocks.len(),
                v < n,
                value == Value(v as u32),
                n <= u32::MAX,
                s == f.sem(),
                n == s.values.len(),
                values_wf(s),
                c@ == context_of(s),
                context_wf(c@, n),
                uses.len() == f.blocks.len(),
                forall|k: int|
                    0 <= k < uses.len() ==> uses_wf(#[trigger] uses[k], s.blocks[k], n),
                starts.len() == b,
                blocked.len() == b,
                forall|k: int| 0 <= k < b ==> #[trigger] starts[k] == exposing(s, value)[k],
                forall|k: int| 0 <= k < b ==> #[trigger] blocked[k] == killing(s, value)[k],
            decreases f.blocks.len() - b,
        {
            assert(s.blocks[b as int] == f.blocks[b as int].sem());
            assert(super::ssa::block_in_range(s.blocks[b as int], n));
            starts.push(is_live_into(c, &f.blocks[b], &uses[b], value, false));
            blocked.push(!is_live_into(c, &f.blocks[b], &uses[b], value, true));
            b += 1;
        }
        assert(starts@ =~= exposing(s, value));
        assert(blocked@ =~= killing(s, value));
        r.push(reachable(back, &starts, &blocked));
        v += 1;
    }
    r
}

/// The owners live into a block, by number.
fn live_in_block(f: &Func, live: &Vec<Vec<bool>>, b: usize) -> (r: Vec<bool>)
    requires
        b < f.blocks.len(),
        live.len() == f.values.len(),
        forall|v: int| 0 <= v < live.len() ==> (#[trigger] live[v]).len() == f.blocks.len(),
        forall|v: int, b: int|
            0 <= v < live.len() && 0 <= b < f.blocks.len() ==> #[trigger] live[v]@[b] == live_in(
                f.sem(),
                b,
                Value(v as u32),
            ),
    ensures
        r@ == live_in_set(f.sem(), b as int),
{
    let mut r: Vec<bool> = Vec::new();
    let mut v: usize = 0;
    while v < live.len()
        invariant
            v <= live.len(),
            b < f.blocks.len(),
            forall|v: int| 0 <= v < live.len() ==> (#[trigger] live[v]).len() == f.blocks.len(),
            r.len() == v,
            forall|k: int| 0 <= k < v ==> #[trigger] r[k] == live[k]@[b as int],
        decreases live.len() - v,
    {
        r.push(live[v][b]);
        v += 1;
    }
    assert(r@ =~= live_in_set(f.sem(), b as int));
    r
}

/// The owners live at a block's terminator, by number.
fn live_at_block_end(
    f: &Func,
    g: &Vec<Vec<usize>>,
    c: &Context,
    live: &Vec<Vec<bool>>,
    b: usize,
) -> (r: Vec<bool>)
    requires
        blocks_wf(f.sem()),
        values_wf(f.sem()),
        adj(g@) == cfg(f.sem()),
        graph_wf(adj(g@)),
        c@ == context_of(f.sem()),
        context_wf(c@, f.values.len() as nat),
        b < f.blocks.len(),
        live.len() == f.values.len(),
        forall|v: int| 0 <= v < live.len() ==> (#[trigger] live[v]).len() == f.blocks.len(),
        forall|v: int, b: int|
            0 <= v < live.len() && 0 <= b < f.blocks.len() ==> #[trigger] live[v]@[b] == live_in(
                f.sem(),
                b,
                Value(v as u32),
            ),
    ensures
        r@ == live_at_end_set(f.sem(), b as int),
{
    let ghost s = f.sem();
    let ghost n = f.values.len() as nat;
    assert(s.blocks[b as int] == f.blocks[b as int].sem());
    assert(super::ssa::block_in_range(s.blocks[b as int], n));
    assert(adj(g@).len() == g.len());
    let end = term_values(&f.blocks[b].term);
    let row = &g[b];
    let ghost succs = successors(s.blocks[b as int].term);
    assert(row@ == adj(g@)[b as int]);
    assert forall|k: int| 0 <= k < row.len() implies (#[trigger] row[k]) < f.blocks.len() by {
        assert(adj(g@)[b as int][k] < adj(g@).len());
    }
    let mut r: Vec<bool> = Vec::new();
    let mut v: usize = 0;
    while v < live.len()
        invariant
            v <= live.len() == n,
            n <= u32::MAX,
            s == f.sem(),
            c@ == context_of(s),
            context_wf(c@, n),
            values_below(end@, n),
            end@ == term_operands(s.blocks[b as int].term),
            succs == successors(s.blocks[b as int].term),
            row@ == succs,
            forall|k: int| 0 <= k < row.len() ==> (#[trigger] row[k]) < f.blocks.len(),
            forall|w: int| 0 <= w < live.len() ==> (#[trigger] live[w]).len() == f.blocks.len(),
            forall|w: int, b: int|
                0 <= w < live.len() && 0 <= b < f.blocks.len() ==> #[trigger] live[w]@[b]
                    == live_in(s, b, Value(w as u32)),
            r.len() == v,
            forall|k: int|
                0 <= k < v ==> #[trigger] r[k] == live_at_end(s, b as int, Value(k as u32)),
        decreases live.len() - v,
    {
        let value = Value(v as u32);
        let mut on: bool = false;
        let mut k: usize = 0;
        while k < row.len()
            invariant
                k <= row.len(),
                v < live.len() == n,
                value == Value(v as u32),
                row@ == succs,
                forall|j: int| 0 <= j < row.len() ==> (#[trigger] row[j]) < f.blocks.len(),
                forall|w: int|
                    0 <= w < live.len() ==> (#[trigger] live[w]).len() == f.blocks.len(),
                forall|w: int, b: int|
                    0 <= w < live.len() && 0 <= b < f.blocks.len() ==> #[trigger] live[w]@[b]
                        == live_in(s, b, Value(w as u32)),
                on == exists|j: int|
                    0 <= j < k && live_in(s, #[trigger] succs[j] as int, value),
            decreases row.len() - k,
        {
            let to: usize = row[k];
            assert(succs[k as int] == to);
            assert(live[v as int]@[to as int] == live_in(s, to as int, value));
            if live[v][to] {
                assert(live_in(s, succs[k as int] as int, value));
                on = true;
            }
            k += 1;
        }
        let used = has_root(c, &end, value);
        r.push(on || used);
        v += 1;
    }
    assert(r@ =~= live_at_end_set(s, b as int));
    r
}

// ---- placement, computed ----

/// [`SStep`] as it is computed.
struct Step {
    retains: Vec<Value>,
    releases: Vec<Value>,
    live: Vec<bool>,
}

impl View for Step {
    type V = SStep;

    closed spec fn view(&self) -> SStep {
        SStep { retains: self.retains@, releases: self.releases@, live: self.live@ }
    }
}

impl Step {
    fn root_used(&mut self, c: &Context, v: Value)
        requires
            context_wf(c@, c.counted.len() as nat),
            v.0 < c.counted.len(),
            old(self).live.len() == c.counted.len(),
        ensures
            final(self)@ == root_used(c@, old(self)@, v),
            final(self).live.len() == c.counted.len(),
    {
        let r: Value = c.root[v.0 as usize];
        assert(c@.root[v.0 as int].0 < c.counted.len());
        if !self.live[r.0 as usize] {
            self.live.set(r.0 as usize, true);
            let is_env = match c.env {
                Some(e) => e == r,
                None => false,
            };
            if !is_env {
                self.releases.push(r);
            }
        }
    }

    fn consume(&mut self, c: &Context, v: Value)
        requires
            context_wf(c@, c.counted.len() as nat),
            v.0 < c.counted.len(),
            old(self).live.len() == c.counted.len(),
        ensures
            final(self)@ == consume_one(c@, old(self)@, v),
            final(self).live.len() == c.counted.len(),
    {
        if c.base[v.0 as usize].is_some() {
            self.retains.push(v);
            self.root_used(c, v);
        } else if self.live[v.0 as usize] {
            self.retains.push(v);
        } else {
            self.live.set(v.0 as usize, true);
        }
    }
}

fn copy_marks(m: &Vec<bool>) -> (r: Vec<bool>)
    ensures
        r@ == m@,
{
    let mut r: Vec<bool> = Vec::new();
    let mut i: usize = 0;
    while i < m.len()
        invariant
            i <= m.len(),
            r@ == m@.take(i as int),
        decreases m.len() - i,
    {
        r.push(m[i]);
        i += 1;
        assert(r@ =~= m@.take(i as int));
    }
    assert(m@.take(i as int) =~= m@);
    r
}

/// What is placed around an instruction after which `live` is live.
fn step_at(c: &Context, i: &Inst, live: &Vec<bool>) -> (s: Step)
    requires
        context_wf(c@, c.counted.len() as nat),
        super::ssa::inst_in_range(i.sem(), c.counted.len() as nat),
        live.len() == c.counted.len(),
    ensures
        s@ == step(c@, i.sem(), live@),
        s.live.len() == c.counted.len(),
{
    let mut s = Step { retains: Vec::new(), releases: Vec::new(), live: copy_marks(live) };
    if let Some(v) = i.result {
        if c.counted[v.0 as usize] && c.base[v.0 as usize].is_none() {
            if s.live[v.0 as usize] {
                s.live.set(v.0 as usize, false);
            } else {
                s.releases.push(v);
            }
        }
    }
    assert(s@.retains =~= define(c@, i.sem().result, live@).retains);
    assert(s@.releases =~= define(c@, i.sem().result, live@).releases);
    assert(s@ == define(c@, i.sem().result, live@));
    let ghost s0 = s@;
    proof {
        lemma_uses_in_range(i.sem().op, c.counted.len() as nat);
    }
    let consuming = keep_counted(c, &consumed_by(&i.op));
    let borrowing = keep_counted(c, &borrowed_by(&i.op));
    let mut k: usize = 0;
    assert(consuming@.take(0).len() == 0);
    while k < consuming.len()
        invariant
            k <= consuming.len(),
            context_wf(c@, c.counted.len() as nat),
            values_below(consuming@, c.counted.len() as nat),
            s.live.len() == c.counted.len(),
            s@ == consume_all(c@, s0, consuming@.take(k as int)),
        decreases consuming.len() - k,
    {
        assert(consuming@.take(k + 1).drop_last() =~= consuming@.take(k as int));
        assert(consuming@.take(k + 1).last() == consuming@[k as int]);
        assert(consuming@[k as int].0 < c.counted.len());
        s.consume(c, consuming[k]);
        k += 1;
    }
    assert(consuming@.take(k as int) =~= consuming@);
    let ghost s1 = s@;
    let mut k: usize = 0;
    assert(borrowing@.take(0).len() == 0);
    while k < borrowing.len()
        invariant
            k <= borrowing.len(),
            context_wf(c@, c.counted.len() as nat),
            values_below(borrowing@, c.counted.len() as nat),
            s.live.len() == c.counted.len(),
            s@ == borrow_all(c@, s1, borrowing@.take(k as int)),
        decreases borrowing.len() - k,
    {
        assert(borrowing@.take(k + 1).drop_last() =~= borrowing@.take(k as int));
        assert(borrowing@.take(k + 1).last() == borrowing@[k as int]);
        assert(borrowing@[k as int].0 < c.counted.len());
        s.root_used(c, borrowing[k]);
        k += 1;
    }
    assert(borrowing@.take(k as int) =~= borrowing@);
    s
}

fn push_retain(out: &mut Vec<Inst>, v: Value)
    ensures
        sems(final(out)@) == sems(old(out)@).push(retain(v)),
{
    let i = Inst { result: None, op: Op::Retain(v) };
    assert(i.sem() == retain(v));
    out.push(i);
    assert(sems(out@) =~= sems(old(out)@).push(retain(v)));
}

fn push_release(out: &mut Vec<Inst>, v: Value)
    ensures
        sems(final(out)@) == sems(old(out)@).push(release(v)),
{
    let i = Inst { result: None, op: Op::Release(v) };
    assert(i.sem() == release(v));
    out.push(i);
    assert(sems(out@) =~= sems(old(out)@).push(release(v)));
}

fn push_dressed(out: &mut Vec<Inst>, i: &Inst, s: &Step)
    ensures
        sems(final(out)@) == sems(old(out)@) + dressed(i.sem(), s@),
{
    let ghost o0 = sems(out@);
    let mut k: usize = s.retains.len();
    assert(s.retains@.take(k as int) =~= s.retains@);
    assert(o0 + retains_reversed(s.retains@) =~= o0 + retains_reversed(s.retains@));
    while k > 0
        invariant
            k <= s.retains.len(),
            o0 + retains_reversed(s.retains@) == sems(out@) + retains_reversed(
                s.retains@.take(k as int),
            ),
        decreases k,
    {
        k -= 1;
        assert(s.retains@.take(k + 1).drop_last() =~= s.retains@.take(k as int));
        assert(s.retains@.take(k + 1).last() == s.retains@[k as int]);
        let ghost before = sems(out@);
        push_retain(out, s.retains[k]);
        assert(before + retains_reversed(s.retains@.take(k + 1)) =~= sems(out@)
            + retains_reversed(s.retains@.take(k as int)));
    }
    assert(sems(out@) =~= o0 + retains_reversed(s.retains@));
    let c = i.clone();
    let ghost before = out@;
    out.push(c);
    assert(sems(out@) =~= sems(before).push(i.sem()));
    let ghost o1 = sems(out@);
    let mut k: usize = s.releases.len();
    assert(s.releases@.take(k as int) =~= s.releases@);
    while k > 0
        invariant
            k <= s.releases.len(),
            o1 + releases_reversed(s.releases@) == sems(out@) + releases_reversed(
                s.releases@.take(k as int),
            ),
        decreases k,
    {
        k -= 1;
        assert(s.releases@.take(k + 1).drop_last() =~= s.releases@.take(k as int));
        assert(s.releases@.take(k + 1).last() == s.releases@[k as int]);
        let ghost before = sems(out@);
        push_release(out, s.releases[k]);
        assert(before + releases_reversed(s.releases@.take(k + 1)) =~= sems(out@)
            + releases_reversed(s.releases@.take(k as int)));
    }
    assert(sems(out@) =~= o0 + dressed(i.sem(), s@));
}

/// What is live before instruction `k` of a run after which `end` is live.
spec fn live_at(c: SContext, is: Seq<SInst>, end: Seq<bool>, k: int) -> Seq<bool>
    decreases is.len() - k,
{
    if k >= is.len() {
        end
    } else {
        step(c, is[k], live_at(c, is, end, k + 1)).live
    }
}

proof fn lemma_live_at_top(c: SContext, is: Seq<SInst>, end: Seq<bool>, k: int)
    requires
        0 <= k <= is.len(),
    ensures
        body_code(c, is.take(k), live_at(c, is, end, k)).1 == live_at(c, is, end, 0),
    decreases k,
{
    if k > 0 {
        lemma_live_at_top(c, is, end, k - 1);
        assert(is.take(k).drop_last() =~= is.take(k - 1));
        assert(is.take(k).last() == is[k - 1]);
    }
}

/// What is placed around each instruction of a block, last first.
fn steps_of(c: &Context, b: &Block, end: &Vec<bool>) -> (r: (Vec<Step>, Vec<bool>))
    requires
        context_wf(c@, c.counted.len() as nat),
        super::ssa::block_in_range(b.sem(), c.counted.len() as nat),
        end.len() == c.counted.len(),
    ensures
        r.0.len() == b.insts.len(),
        forall|j: int|
            0 <= j < r.0.len() ==> (#[trigger] r.0[j])@ == step(
                c@,
                b.sem().insts[r.0.len() - 1 - j],
                live_at(c@, b.sem().insts, end@, r.0.len() - j),
            ),
        r.1@ == live_at(c@, b.sem().insts, end@, 0),
        r.1.len() == c.counted.len(),
{
    let ghost is = b.sem().insts;
    let n: usize = b.insts.len();
    assert(is.len() == n);
    let mut steps: Vec<Step> = Vec::new();
    let mut live = copy_marks(end);
    let mut k: usize = n;
    while k > 0
        invariant
            k <= n == b.insts.len(),
            is == b.sem().insts,
            is.len() == n,
            context_wf(c@, c.counted.len() as nat),
            super::ssa::block_in_range(b.sem(), c.counted.len() as nat),
            live.len() == c.counted.len(),
            steps.len() == n - k,
            live@ == live_at(c@, is, end@, k as int),
            forall|j: int|
                0 <= j < n - k ==> (#[trigger] steps[j])@ == step(
                    c@,
                    is[n - 1 - j],
                    live_at(c@, is, end@, n - j),
                ),
        decreases k,
    {
        k -= 1;
        assert(is[k as int] == b.insts[k as int].sem());
        assert(super::ssa::inst_in_range(is[k as int], c.counted.len() as nat));
        let s = step_at(c, &b.insts[k], &live);
        live = copy_marks(&s.live);
        steps.push(s);
    }
    (steps, live)
}

/// The body of a block with its bookkeeping, up to its terminator.
fn inner(c: &Context, b: &Block, end: &Vec<bool>) -> (r: Vec<Inst>)
    requires
        context_wf(c@, c.counted.len() as nat),
        super::ssa::block_in_range(b.sem(), c.counted.len() as nat),
        end.len() == c.counted.len(),
    ensures
        ({
            let (code, top) = body_code(c@, b.sem().insts, end@);
            sems(r@) == param_code(c@, b.sem().params, top) + code
        }),
{
    let ghost is = b.sem().insts;
    let n: usize = b.insts.len();
    assert(is.len() == n);
    let (steps, live) = steps_of(c, b, end);
    let ghost top = body_code(c@, is, end@).1;
    proof {
        lemma_live_at_top(c@, is, end@, n as int);
        assert(is.take(n as int) =~= is);
    }
    let mut out: Vec<Inst> = Vec::new();
    let mut k: usize = 0;
    assert(sems(out@) =~= param_code(c@, b.sem().params.take(0), top));
    while k < b.params.len()
        invariant
            k <= b.params.len(),
            context_wf(c@, c.counted.len() as nat),
            super::ssa::block_in_range(b.sem(), c.counted.len() as nat),
            live@ == top,
            live.len() == c.counted.len(),
            sems(out@) == param_code(c@, b.sem().params.take(k as int), top),
        decreases b.params.len() - k,
    {
        let ps = &b.params;
        assert(b.sem().params[k as int].0 < c.counted.len());
        assert(b.sem().params.take(k + 1).drop_last() =~= b.sem().params.take(k as int));
        assert(b.sem().params.take(k + 1).last() == ps@[k as int]);
        let v: Value = ps[k];
        let is_env = match c.env {
            Some(e) => e == v,
            None => false,
        };
        if c.counted[v.0 as usize] && !live[v.0 as usize] && !is_env {
            push_release(&mut out, v);
        }
        k += 1;
    }
    assert(b.sem().params.take(k as int) =~= b.sem().params);
    let ghost head = sems(out@);
    let mut k: usize = 0;
    assert(is.take(0).len() == 0);
    assert(sems(out@) =~= head + body_code(c@, is.take(0), live_at(c@, is, end@, 0)).0);
    while k < n
        invariant
            k <= n == b.insts.len(),
            is == b.sem().insts,
            is.len() == n,
            steps.len() == n,
            forall|j: int|
                0 <= j < n ==> (#[trigger] steps[j])@ == step(
                    c@,
                    is[n - 1 - j],
                    live_at(c@, is, end@, n - j),
                ),
            sems(out@) == head + body_code(
                c@,
                is.take(k as int),
                live_at(c@, is, end@, k as int),
            ).0,
        decreases n - k,
    {
        assert(is[k as int] == b.insts[k as int].sem());
        assert(is.take(k + 1).drop_last() =~= is.take(k as int));
        assert(is.take(k + 1).last() == is[k as int]);
        let s = &steps[n - 1 - k];
        assert(s@ == step(c@, is[k as int], live_at(c@, is, end@, k + 1)));
        push_dressed(&mut out, &b.insts[k], s);
        assert(sems(out@) =~= head + body_code(
            c@,
            is.take(k + 1),
            live_at(c@, is, end@, k + 1),
        ).0);
        k += 1;
    }
    assert(is.take(k as int) =~= is);
    out
}

/// The code on an edge that passes `args`.
fn on_edge(c: &Context, args: &Vec<Value>, succ: &Vec<bool>, end: &Vec<bool>) -> (r: Vec<Inst>)
    requires
        context_wf(c@, c.counted.len() as nat),
        values_below(args@, c.counted.len() as nat),
        succ.len() == c.counted.len(),
        end.len() == c.counted.len(),
    ensures
        sems(r@) == edge_code(c@, args@, succ@, end@),
{
    let n: usize = c.counted.len();
    let mut out: Vec<Inst> = Vec::new();
    let mut k: usize = 0;
    assert(sems(out@) =~= view_retains(c@, args@.take(0)));
    while k < args.len()
        invariant
            k <= args.len(),
            n == c.counted.len(),
            context_wf(c@, n as nat),
            values_below(args@, n as nat),
            sems(out@) == view_retains(c@, args@.take(k as int)),
        decreases args.len() - k,
    {
        assert(args@[k as int].0 < n);
        assert(args@.take(k + 1).drop_last() =~= args@.take(k as int));
        assert(args@.take(k + 1).last() == args@[k as int]);
        let a: usize = args[k].0 as usize;
        if c.counted[a] && c.base[a].is_some() {
            push_retain(&mut out, args[k]);
        }
        k += 1;
    }
    assert(args@.take(k as int) =~= args@);
    let ghost head = sems(out@);
    let mut uses: Vec<usize> = Vec::new();
    let mut v: usize = 0;
    assert(sems(out@) =~= head + owner_retains(c@, args@, succ@, 0));
    while v < n
        invariant
            v <= n == c.counted.len(),
            context_wf(c@, n as nat),
            values_below(args@, n as nat),
            succ.len() == n,
            uses.len() == v,
            forall|w: int|
                0 <= w < v ==> #[trigger] uses[w] == owner_uses(c@, args@, Value(w as u32)),
            sems(out@) == head + owner_retains(c@, args@, succ@, v as int),
        decreases n - v,
    {
        let value = Value(v as u32);
        let m: usize = count_owner(c, args, value);
        uses.push(m);
        if m > 0 {
            let extra: usize = if succ[v] {
                m
            } else {
                m - 1
            };
            let ghost before = sems(out@);
            let mut k: usize = 0;
            assert(sems(out@) =~= before + copies(value, 0));
            while k < extra
                invariant
                    k <= extra,
                    sems(out@) == before + copies(value, k as int),
                decreases extra - k,
            {
                push_retain(&mut out, value);
                k += 1;
                assert(sems(out@) =~= before + copies(value, k as int));
            }
        }
        v += 1;
        assert(sems(out@) =~= head + owner_retains(c@, args@, succ@, v as int));
    }
    let ghost head = sems(out@);
    let mut v: usize = 0;
    assert(sems(out@) =~= head + edge_releases(c@, args@, succ@, end@, 0));
    while v < n
        invariant
            v <= n == c.counted.len(),
            context_wf(c@, n as nat),
            succ.len() == n,
            end.len() == n,
            uses.len() == n,
            forall|w: int|
                0 <= w < n ==> #[trigger] uses[w] == owner_uses(c@, args@, Value(w as u32)),
            sems(out@) == head + edge_releases(c@, args@, succ@, end@, v as int),
        decreases n - v,
    {
        let value = Value(v as u32);
        let is_env = match c.env {
            Some(e) => e == value,
            None => false,
        };
        if end[v] && uses[v] == 0 && !succ[v] && !is_env {
            push_release(&mut out, value);
        }
        v += 1;
        assert(sems(out@) =~= head + edge_releases(c@, args@, succ@, end@, v as int));
    }
    assert(sems(out@) =~= edge_code(c@, args@, succ@, end@));
    out
}

/// How often an owner is passed among some arguments.
fn count_owner(c: &Context, args: &Vec<Value>, v: Value) -> (r: usize)
    requires
        context_wf(c@, c.counted.len() as nat),
        v.0 < c.counted.len(),
    ensures
        r == owner_uses(c@, args@, v),
        r <= args.len(),
{
    let owner = c.counted[v.0 as usize] && c.base[v.0 as usize].is_none();
    let mut r: usize = 0;
    let mut k: usize = 0;
    assert(args@.take(0).len() == 0);
    while k < args.len()
        invariant
            k <= args.len(),
            r <= k,
            owner == (c@.counted[v.0 as int] && c@.base[v.0 as int] is None),
            r == owner_uses(c@, args@.take(k as int), v),
        decreases args.len() - k,
    {
        assert(args@.take(k + 1).drop_last() =~= args@.take(k as int));
        assert(args@.take(k + 1).last() == args@[k as int]);
        if args[k] == v && owner {
            r += 1;
        }
        k += 1;
    }
    assert(args@.take(k as int) =~= args@);
    r
}

/// The code before a return or a throw.
fn on_exit(c: &Context, v: Option<Value>, end: &Vec<bool>) -> (r: Vec<Inst>)
    requires
        context_wf(c@, c.counted.len() as nat),
        v matches Some(v) ==> v.0 < c.counted.len(),
        end.len() == c.counted.len(),
    ensures
        sems(r@) == exit_code(c@, v, end@),
{
    let n: usize = c.counted.len();
    let mut out: Vec<Inst> = Vec::new();
    let mut moved: Option<Value> = None;
    assert(sems(out@) =~= seq![]);
    if let Some(v) = v {
        if c.counted[v.0 as usize] {
            if c.base[v.0 as usize].is_some() {
                push_retain(&mut out, v);
            } else {
                moved = Some(v);
            }
        }
    }
    let ghost head = sems(out@);
    let mut w: usize = 0;
    assert(sems(out@) =~= head + exit_releases(c@, moved, end@, 0));
    while w < n
        invariant
            w <= n == c.counted.len(),
            context_wf(c@, n as nat),
            end.len() == n,
            sems(out@) == head + exit_releases(c@, moved, end@, w as int),
        decreases n - w,
    {
        let value = Value(w as u32);
        let is_env = match c.env {
            Some(e) => e == value,
            None => false,
        };
        let is_moved = match moved {
            Some(m) => m == value,
            None => false,
        };
        if end[w] && !is_moved && !is_env {
            push_release(&mut out, value);
        }
        w += 1;
        assert(sems(out@) =~= head + exit_releases(c@, moved, end@, w as int));
    }
    assert(sems(out@) =~= exit_code(c@, v, end@));
    out
}

// ---- whole blocks ----

proof fn lemma_arm_args(arms: Seq<(SSwitchKey, STarget)>, k: int, n: nat)
    requires
        values_below(super::ssa::arm_args(arms), n),
        0 <= k < arms.len(),
    ensures
        values_below(arms[k].1.args, n),
    decreases arms.len(),
{
    let before = super::ssa::arm_args(arms.drop_last());
    let all = super::ssa::arm_args(arms);
    if k < arms.len() - 1 {
        assert forall|i: int| 0 <= i < before.len() implies (#[trigger] before[i]).0 < n by {
            assert(all[i] == before[i]);
        }
        lemma_arm_args(arms.drop_last(), k, n);
    } else {
        let args = arms.last().1.args;
        assert forall|i: int| 0 <= i < args.len() implies (#[trigger] args[i]).0 < n by {
            assert(all[before.len() + i] == args[i]);
        }
    }
}

/// What an edge passes is among what its terminator hands on.
pub proof fn lemma_target_args(t: STerm, k: int, n: nat)
    requires
        values_below(term_operands(t), n),
        0 <= k < targets(t).len(),
    ensures
        values_below(targets(t)[k].args, n),
{
    let all = term_operands(t);
    match t {
        STerm::Branch { cond, then, els } => {
            assert forall|i: int| 0 <= i < then.args.len() implies (#[trigger] then.args[i]).0
                < n by {
                assert(all[1 + i] == then.args[i]);
            }
            assert forall|i: int| 0 <= i < els.args.len() implies (#[trigger] els.args[i]).0
                < n by {
                assert(all[1 + then.args.len() + i] == els.args[i]);
            }
        },
        STerm::Switch { on, arms, default } => {
            let mid = super::ssa::arm_args(arms);
            assert forall|i: int| 0 <= i < mid.len() implies (#[trigger] mid[i]).0 < n by {
                assert(all[1 + i] == mid[i]);
            }
            assert forall|i: int| 0 <= i < default.args.len() implies (
            #[trigger] default.args[i]).0 < n by {
                assert(all[1 + mid.len() + i] == default.args[i]);
            }
            if k < arms.len() {
                lemma_arm_args(arms, k, n);
            }
        },
        _ => {},
    }
}

/// What is known of a function when its blocks are rewritten.
struct Facts {
    g: Vec<Vec<usize>>,
    c: Context,
    live: Vec<Vec<bool>>,
}

spec fn facts_wf(x: Facts, f: Func) -> bool {
    &&& blocks_wf(f.sem())
    &&& values_wf(f.sem())
    &&& adj(x.g@) == cfg(f.sem())
    &&& graph_wf(adj(x.g@))
    &&& x.c@ == context_of(f.sem())
    &&& context_wf(x.c@, f.values.len() as nat)
    &&& x.live.len() == f.values.len()
    &&& forall|v: int| 0 <= v < x.live.len() ==> (#[trigger] x.live[v]).len() == f.blocks.len()
    &&& forall|v: int, b: int|
        0 <= v < x.live.len() && 0 <= b < f.blocks.len() ==> #[trigger] x.live[v]@[b] == live_in(
            f.sem(),
            b,
            Value(v as u32),
        )
}

/// The code on the edge of block `b` to a target.
fn code_for(f: &Func, x: &Facts, end: &Vec<bool>, Ghost(b): Ghost<int>, t: &Target) -> (r: Vec<Inst>)
    requires
        facts_wf(*x, *f),
        0 <= b < f.blocks.len(),
        end@ == live_at_end_set(f.sem(), b),
        t.to.0 < f.blocks.len(),
        values_below(t.args@, f.values.len() as nat),
    ensures
        sems(r@) == target_code(f.sem(), b, t.sem()),
{
    let succ = live_in_block(f, &x.live, t.to.0 as usize);
    on_edge(&x.c, &t.args, &succ, end)
}

/// An edge and the code it needs.
fn split_edge(t: &Target, code: Vec<Inst>, next: usize) -> (r: (Target, Vec<Block>))
    requires
        next < u32::MAX || code.len() == 0,
    ensures
        (r.0.sem(), sems(r.1@)) == split(t.sem(), sems(code@), next as int),
        r.1.len() <= 1,
{
    let mut new: Vec<Block> = Vec::new();
    assert(sems(new@) =~= seq![]);
    assert(sems(code@).len() == code.len());
    if code.len() == 0 {
        return (t.clone(), new);
    }
    let id = BlockId(next as u32);
    let jump = t.clone();
    let b = Block { id, params: Vec::new(), insts: code, term: Term::Jump(jump) };
    assert(b.sem() == SBlock {
        id,
        params: seq![],
        insts: sems(code@),
        term: STerm::Jump(t.sem()),
    });
    new.push(b);
    assert(sems(new@) =~= seq![b.sem()]);
    let to = Target { to: id, args: Vec::new() };
    assert(to.sem() == STarget { to: id, args: seq![] });
    (to, new)
}

/// The arms of a switch, each split.
fn split_all(
    f: &Func,
    x: &Facts,
    end: &Vec<bool>,
    Ghost(b): Ghost<int>,
    arms: &Vec<(SwitchKey, Target)>,
    next: usize,
) -> (r: (Vec<(SwitchKey, Target)>, Vec<Block>))
    requires
        facts_wf(*x, *f),
        0 <= b < f.blocks.len(),
        end@ == live_at_end_set(f.sem(), b),
        forall|k: int|
            0 <= k < arms.len() ==> (#[trigger] arms[k]).1.to.0 < f.blocks.len() && values_below(
                arms[k].1.args@,
                f.values.len() as nat,
            ),
        next + arms.len() <= u32::MAX,
    ensures
        (arms_sem(r.0@), sems(r.1@)) == split_arms(f.sem(), b, arms_sem(arms@), next as int),
        r.1.len() <= arms.len(),
{
    let ghost s = arms_sem(arms@);
    let mut done: Vec<(SwitchKey, Target)> = Vec::new();
    let mut new: Vec<Block> = Vec::new();
    let mut k: usize = 0;
    assert(arms_sem(done@) =~= seq![]);
    assert(sems(new@) =~= seq![]);
    assert(s.take(0).len() == 0);
    while k < arms.len()
        invariant
            k <= arms.len(),
            s == arms_sem(arms@),
            s.len() == arms.len(),
            facts_wf(*x, *f),
            0 <= b < f.blocks.len(),
            end@ == live_at_end_set(f.sem(), b),
            forall|k: int|
                0 <= k < arms.len() ==> (#[trigger] arms[k]).1.to.0 < f.blocks.len()
                    && values_below(arms[k].1.args@, f.values.len() as nat),
            next + arms.len() <= u32::MAX,
            new.len() <= k,
            (arms_sem(done@), sems(new@)) == split_arms(
                f.sem(),
                b,
                s.take(k as int),
                next as int,
            ),
        decreases arms.len() - k,
    {
        let arm = &arms[k];
        assert(s.take(k + 1).drop_last() =~= s.take(k as int));
        assert(s.take(k + 1).last() == (arm.0.sem(), arm.1.sem()));
        let code = code_for(f, x, end, Ghost(b), &arm.1);
        let (to, more) = split_edge(&arm.1, code, next + new.len());
        let ghost done0 = done@;
        let ghost new0 = new@;
        let ghost more0 = more@;
        let key = arm.0.clone();
        done.push((key, to));
        assert(arms_sem(done@) =~= arms_sem(done0).push((arm.0.sem(), to.sem())));
        let mut more = more;
        assert(sems(new0).len() == new.len());
        new.append(&mut more);
        assert(sems(new@) =~= sems(new0) + sems(more0));
        k += 1;
    }
    assert(s.take(k as int) =~= s);
    (done, new)
}

/// Block `b` with its bookkeeping, and the new blocks its edges need.
fn block_with_code(f: &Func, x: &Facts, b: usize, next: usize) -> (r: (Block, Vec<Block>))
    requires
        facts_wf(*x, *f),
        b < f.blocks.len(),
        next + targets(f.sem().blocks[b as int].term).len() <= u32::MAX,
    ensures
        (r.0.sem(), sems(r.1@)) == block_code(f.sem(), b as int, next as int),
        r.1.len() <= targets(f.sem().blocks[b as int].term).len(),
{
    let ghost s = f.sem();
    let ghost n = f.values.len() as nat;
    let blk = &f.blocks[b];
    assert(s.blocks[b as int] == blk.sem());
    assert(super::ssa::block_in_range(s.blocks[b as int], n));
    assert(super::ssa::term_in_range(s.blocks[b as int].term, s.blocks.len()));
    proof {
        assert forall|k: int| 0 <= k < targets(blk.sem().term).len() implies values_below(
            (#[trigger] targets(blk.sem().term)[k]).args,
            n,
        ) && targets(blk.sem().term)[k].to.0 < s.blocks.len() by {
            lemma_target_args(blk.sem().term, k, n);
        }
    }
    let end = live_at_block_end(f, &x.g, &x.c, &x.live, b);
    let mut insts = inner(&x.c, blk, &end);
    assert(sems(insts@) == inner_code(s, b as int));
    let ghost code0 = insts@;
    let mut new: Vec<Block> = Vec::new();
    assert(sems(new@) =~= seq![]);
    let term: Term = match &blk.term {
        Term::Ret(v) => {
            proof {
                if let Some(w) = v {
                    assert(term_operands(blk.sem().term)[0] == w);
                }
            }
            let mut code = on_exit(&x.c, *v, &end);
            let ghost more = code@;
            insts.append(&mut code);
            assert(sems(insts@) =~= sems(code0) + sems(more));
            Term::Ret(*v)
        },
        Term::Throw(v) => {
            assert(term_operands(blk.sem().term)[0] == v);
            let mut code = on_exit(&x.c, Some(*v), &end);
            let ghost more = code@;
            insts.append(&mut code);
            assert(sems(insts@) =~= sems(code0) + sems(more));
            Term::Throw(*v)
        },
        Term::Jump(t) => {
            assert(targets(blk.sem().term)[0] == t.sem());
            let mut code = code_for(f, x, &end, Ghost(b as int), t);
            let ghost more = code@;
            insts.append(&mut code);
            assert(sems(insts@) =~= sems(code0) + sems(more));
            Term::Jump(t.clone())
        },
        Term::Branch { cond, then, els } => {
            assert(targets(blk.sem().term)[0] == then.sem());
            assert(targets(blk.sem().term)[1] == els.sem());
            let code = code_for(f, x, &end, Ghost(b as int), then);
            let (t, mut more) = split_edge(then, code, next);
            let ghost m0 = more@;
            new.append(&mut more);
            assert(sems(new@) =~= sems(m0));
            assert(sems(m0).len() == new.len());
            let code = code_for(f, x, &end, Ghost(b as int), els);
            let (e, mut more) = split_edge(els, code, next + new.len());
            let ghost m1 = more@;
            new.append(&mut more);
            assert(sems(new@) =~= sems(m0) + sems(m1));
            Term::Branch { cond: *cond, then: t, els: e }
        },
        Term::Switch { on, arms, default } => {
            let ghost ts = targets(blk.sem().term);
            assert(ts.len() == arms.len() + 1);
            assert forall|k: int| 0 <= k < arms.len() implies (#[trigger] arms[k]).1.to.0
                < f.blocks.len() && values_below(arms[k].1.args@, n) by {
                assert(ts[k] == arms[k].1.sem());
            }
            assert(ts[arms.len() as int] == default.sem());
            let (a, mut more) = split_all(f, x, &end, Ghost(b as int), arms, next);
            let ghost m0 = more@;
            new.append(&mut more);
            assert(sems(new@) =~= sems(m0));
            assert(sems(m0).len() == new.len());
            let code = code_for(f, x, &end, Ghost(b as int), default);
            let (d, mut more) = split_edge(default, code, next + new.len());
            let ghost m1 = more@;
            new.append(&mut more);
            assert(sems(new@) =~= sems(m0) + sems(m1));
            Term::Switch { on: *on, arms: a, default: d }
        },
        Term::Unreachable => Term::Unreachable,
    };
    (Block { id: blk.id, params: copy_values(&blk.params), insts, term }, new)
}

proof fn lemma_edge_count_grows(f: SFunc, i: int, j: int)
    requires
        0 <= i <= j,
    ensures
        edge_count(f, i) <= edge_count(f, j),
    decreases j,
{
    if i < j {
        lemma_edge_count_grows(f, i, j - 1);
    }
}

/// The blocks of a function with their bookkeeping, new ones last.
fn all_blocks(f: &Func, x: &Facts) -> (r: Vec<Block>)
    requires
        facts_wf(*x, *f),
        insertable(f.sem()),
    ensures
        ({
            let (done, new) = blocks_code(f.sem(), f.blocks.len() as int);
            sems(r@) == done + new
        }),
{
    let ghost s = f.sem();
    let nb: usize = f.blocks.len();
    let mut done: Vec<Block> = Vec::new();
    let mut new: Vec<Block> = Vec::new();
    let mut b: usize = 0;
    assert(sems(done@) =~= seq![]);
    assert(sems(new@) =~= seq![]);
    while b < nb
        invariant
            b <= nb == f.blocks.len(),
            s == f.sem(),
            s.blocks.len() == nb,
            facts_wf(*x, *f),
            insertable(s),
            new.len() <= edge_count(s, b as int),
            (sems(done@), sems(new@)) == blocks_code(s, b as int),
        decreases nb - b,
    {
        proof {
            lemma_edge_count_grows(s, b + 1, nb as int);
        }
        assert(sems(new@).len() == new.len());
        let (blk, mut more) = block_with_code(f, x, b, nb + new.len());
        let ghost done0 = done@;
        let ghost new0 = new@;
        let ghost more0 = more@;
        done.push(blk);
        assert(sems(done@) =~= sems(done0).push(blk.sem()));
        new.append(&mut more);
        assert(sems(new@) =~= sems(new0) + sems(more0));
        b += 1;
    }
    let ghost d0 = done@;
    let ghost n0 = new@;
    done.append(&mut new);
    assert(sems(done@) =~= sems(d0) + sems(n0));
    done
}

/// Whether counts can be put into a function.
pub fn can_insert(f: &Func) -> (r: bool)
    requires
        blocks_wf(f.sem()),
        values_wf(f.sem()),
    ensures
        r == insertable(f.sem()),
{
    let ghost s = f.sem();
    assert(s.env is Some == f.env is Some);
    if f.env.is_some() && f.params.len() == 0 {
        return false;
    }
    match edges_of(f) {
        Some(e) => f.blocks.len() <= 0xffff_ffff - e,
        None => false,
    }
}

/// Insert the reference counting of one function.
pub fn insert_fn(f: &mut Func)
    requires
        insertable(old(f).sem()),
    ensures
        final(f).sem() == inserted(old(f).sem()),
{
    let ghost s = f.sem();
    let counted = counted_table(f);
    let mut any: bool = false;
    let mut i: usize = 0;
    while i < counted.len()
        invariant
            i <= counted.len(),
            counted@ == counted_values(s),
            any == exists|k: int| 0 <= k < i && #[trigger] counted_values(s)[k],
        decreases counted.len() - i,
    {
        if counted[i] {
            assert(counted_values(s)[i as int]);
            any = true;
        }
        i += 1;
    }
    if !any {
        return;
    }
    let c = context(f, counted);
    let g = graph_of(f);
    let back = predecessors(&g);
    let live = liveness(f, &c, &back);
    let x = Facts { g, c, live };
    let blocks = all_blocks(f, &x);
    f.blocks = blocks;
}

/// Insert the reference counting of a whole program.
pub fn insert(program: &mut Program)
    requires
        forall|i: int|
            0 <= i < old(program).funcs.len() ==> insertable((#[trigger] old(program).funcs[i]).sem()),
    ensures
        final(program).funcs.len() == old(program).funcs.len(),
        forall|i: int|
            0 <= i < old(program).funcs.len() ==> (#[trigger] final(program).funcs[i]).sem()
                == inserted(old(program).funcs[i].sem()),
        final(program).recursive == old(program).recursive,
        final(program).boxed == old(program).boxed,
        final(program).pure_natives == old(program).pure_natives,
        final(program).inlined == old(program).inlined,
{
    let mut i: usize = 0;
    while i < program.funcs.len()
        invariant
            i <= program.funcs.len() == old(program).funcs.len(),
            forall|k: int|
                0 <= k < old(program).funcs.len() ==> insertable(
                    (#[trigger] old(program).funcs[k]).sem(),
                ),
            forall|k: int|
                0 <= k < i ==> (#[trigger] program.funcs[k]).sem() == inserted(
                    old(program).funcs[k].sem(),
                ),
            forall|k: int|
                i <= k < program.funcs.len() ==> #[trigger] program.funcs[k]
                    == old(program).funcs[k],
            program.recursive == old(program).recursive,
            program.boxed == old(program).boxed,
            program.pure_natives == old(program).pure_natives,
            program.inlined == old(program).inlined,
        decreases program.funcs.len() - i,
    {
        assert(program.funcs[i as int] == old(program).funcs[i as int]);
        insert_fn(&mut program.funcs[i]);
        i += 1;
    }
}

} // verus!
