//! Writing back only the fields of a record that changed.
//!
//! A record is immutable, so updating one field of an element of a list means rebuilding
//! the record and storing it whole. Where the other fields are copied straight out of the
//! slot that the record goes back to, their stores can be dropped: the whole-record store
//! becomes one store per changed field.
//!
//! Dropping a field's store is sound only if the slot already holds that value. So no write
//! to the same list may lie between the read and the store, unless it provably lands on a
//! different slot.

use super::cfg::{cfg, dominators, graph_of, in_loop, loop_body, predecessors, preds, targets_of};
use super::graph::{adj, edge, graph_wf, only, only_one, reachable, reached};
use self::range::lemma_narrow_blocks_wf;
use super::repr::{Repr, SRepr};
use super::ssa::{
    blocks_wf, operands, targets, values_wf, Block, Func, Inst, Op, PrimOp, Program, SBlock, SFunc,
    SInst, SOp, STarget, STerm, SValueData, Term, Value,
};
use crate::syntax::{sems, Node};
use crate::text::{has_prefix, starts_with, str_eq};
use vstd::prelude::*;

pub mod laws;
pub mod range;

verus! {

// ---- finding instructions ----

/// Where an instruction stands: its block, and its place in it.
pub struct SPlace {
    pub block: int,
    pub at: int,
}

/// The last of the first `n` instructions that defines `v`.
pub open spec fn last_def_in(is: Seq<SInst>, v: Value, n: int) -> Option<int>
    decreases n,
{
    if n <= 0 {
        None
    } else if is[n - 1].result == Some(v) {
        Some(n - 1)
    } else {
        last_def_in(is, v, n - 1)
    }
}

/// The last instruction of the first `n` blocks that defines `v`.
pub open spec fn last_def(f: SFunc, v: Value, n: int) -> Option<SPlace>
    decreases n,
{
    if n <= 0 {
        None
    } else {
        match last_def_in(f.blocks[n - 1].insts, v, f.blocks[n - 1].insts.len() as int) {
            Some(at) => Some(SPlace { block: n - 1, at }),
            None => last_def(f, v, n - 1),
        }
    }
}

/// Where a value is defined.
pub open spec fn def_of(f: SFunc, v: Value) -> Option<SPlace> {
    last_def(f, v, f.blocks.len() as int)
}

pub open spec fn op_at(f: SFunc, p: SPlace) -> SOp {
    f.blocks[p.block].insts[p.at].op
}

/// The operation that defines a value.
pub open spec fn def_op(f: SFunc, v: Value) -> Option<SOp> {
    match def_of(f, v) {
        Some(p) => Some(op_at(f, p)),
        None => None,
    }
}

/// The first position from `k` on at which `v` is among some values.
pub open spec fn position_from(vs: Seq<Value>, v: Value, k: int) -> Option<int>
    decreases vs.len() - k,
{
    if k >= vs.len() {
        None
    } else if vs[k] == v {
        Some(k)
    } else {
        position_from(vs, v, k + 1)
    }
}

/// The first block from `b` on that has `v` as a parameter, and at which position.
pub open spec fn param_from(f: SFunc, v: Value, b: int) -> Option<SPlace>
    decreases f.blocks.len() - b,
{
    if b >= f.blocks.len() {
        None
    } else {
        match position_from(f.blocks[b].params, v, 0) {
            Some(at) => Some(SPlace { block: b, at }),
            None => param_from(f, v, b + 1),
        }
    }
}

/// The integer that a value is defined as, if it is a constant.
pub open spec fn const_of(f: SFunc, v: Value) -> Option<i64> {
    match def_op(f, v) {
        Some(SOp::ConstI64(n)) => Some(n),
        _ => None,
    }
}

/// What a value is one more than, if it is defined so. Exactly one: a wider stride could
/// wrap round.
pub open spec fn one_more(f: SFunc, v: Value) -> Option<Value> {
    match def_op(f, v) {
        Some(SOp::Prim(PrimOp::Add, args)) => if args.len() < 2 {
            None
        } else if const_of(f, args[1]) == Some(1i64) {
            Some(args[0])
        } else if const_of(f, args[0]) == Some(1i64) {
            Some(args[1])
        } else {
            None
        },
        _ => None,
    }
}

/// Whether an instruction computes `cond` as `v < _`.
pub open spec fn is_guard(i: SInst, cond: Value, v: Value) -> bool {
    &&& i.result == Some(cond)
    &&& i.op matches SOp::Prim(PrimOp::Lt, args)
    &&& args.len() >= 2
    &&& args[0] == v
}

pub open spec fn guard_from(is: Seq<SInst>, cond: Value, v: Value, k: int) -> Option<Value>
    decreases is.len() - k,
{
    if k >= is.len() {
        None
    } else if is_guard(is[k], cond, v) {
        Some(is[k].op->Prim_1[1])
    } else {
        guard_from(is, cond, v, k + 1)
    }
}

/// What bounds `v` in the loop of a header: the header branches on `v < L`.
pub open spec fn loop_guard(b: SBlock, v: Value) -> Option<Value> {
    match b.term {
        STerm::Branch { cond, .. } => guard_from(b.insts, cond, v, 0),
        _ => None,
    }
}

/// Whether a value is bound inside some blocks, as a parameter or as a result.
pub open spec fn bound_in(b: SBlock, v: Value) -> bool {
    b.params.contains(v) || exists|k: int|
        0 <= k < b.insts.len() && (#[trigger] b.insts[k]).result == Some(v)
}

// ---- different slots ----

/// Whether an edge explains the parameter at `pos` of a header: it enters at `q + 1` or goes
/// round at `p + 1`.
pub open spec fn edge_climbs(f: SFunc, t: STarget, pos: int, p: Value, q: Value) -> bool {
    &&& pos < t.args.len()
    &&& one_more(f, t.args[pos]) is Some
    &&& (one_more(f, t.args[pos])->0 == q || one_more(f, t.args[pos])->0 == p)
}

/// Whether every edge to the header explains the parameter.
pub open spec fn all_edges_climb(f: SFunc, header: int, pos: int, p: Value, q: Value) -> bool {
    forall|b: int, k: int|
        0 <= b < f.blocks.len() && 0 <= k < targets(f.blocks[b].term).len() && (#[trigger] targets(
            f.blocks[b].term,
        )[k]).to.0 == header ==> edge_climbs(f, targets(f.blocks[b].term)[k], pos, p, q)
}

/// Whether some edge to the header enters at `q + 1`.
pub open spec fn some_edge_enters(f: SFunc, header: int, pos: int, q: Value) -> bool {
    exists|b: int, k: int|
        0 <= b < f.blocks.len() && 0 <= k < targets(f.blocks[b].term).len() && (#[trigger] targets(
            f.blocks[b].term,
        )[k]).to.0 == header && pos < targets(f.blocks[b].term)[k].args.len() && one_more(
            f,
            targets(f.blocks[b].term)[k].args[pos],
        ) == Some(q)
}

/// Whether `p` is a loop counter that enters at `q + 1` and only ever climbs by one, while
/// `q` stays put, and both loops are bounded by the same value. Then neither wraps, and the
/// two differ wherever both are live.
pub open spec fn climbs_away(f: SFunc, p: Value, q: Value) -> bool {
    match (param_from(f, p, 0), param_from(f, q, 0)) {
        (Some(pp), Some(qp)) => {
            let guard = loop_guard(f.blocks[pp.block], p);
            &&& guard is Some
            &&& forall|b: int|
                0 <= b < f.blocks.len() && in_loop(cfg(f), f.entry.0 as int, pp.block, b)
                    ==> !bound_in(#[trigger] f.blocks[b], q)
            &&& loop_guard(f.blocks[qp.block], q) == guard
            &&& all_edges_climb(f, pp.block, pp.at, p, q)
            &&& some_edge_enters(f, pp.block, pp.at, q)
        },
        _ => false,
    }
}

pub open spec fn distinct_slots(f: SFunc, a: Value, b: Value) -> bool {
    climbs_away(f, a, b) || climbs_away(f, b, a)
}

// ---- writes in between ----

pub open spec fn set_inplace() -> Seq<char> {
    "neon_list_set_inplace"@
}

pub open spec fn set_field_inplace() -> Seq<char> {
    "neon_list_set_field_inplace"@
}

/// Whether an operation writes to a list, and at which index if it says so.
pub open spec fn write_to(op: SOp, list: Value) -> Option<Option<Value>> {
    match op {
        SOp::Native { symbol, args } => if args.len() == 0 || args[0] != list {
            None
        } else if has_prefix(symbol, "neon_list_set"@) {
            if args.len() > 1 {
                Some(Some(args[1]))
            } else {
                Some(None)
            }
        } else if symbol == "neon_list_push"@ || symbol == "neon_list_ensure_unique"@ {
            Some(None)
        } else {
            None
        },
        _ => None,
    }
}

/// The blocks that can be got to from `start` without coming back to it.
pub open spec fn beyond(f: SFunc, start: int) -> Seq<bool> {
    Seq::new(f.blocks.len(), |b: int| b != start && edge(cfg(f), start, b))
}

/// Whether an instruction can run between the one at `from` and the one at `to`.
///
/// In one block only what stands between them counts: leaving the block and coming back
/// runs the first again. Across blocks anything counts that the first can get to.
pub open spec fn between(f: SFunc, from: SPlace, to: SPlace, w: SPlace) -> bool {
    if from.block == to.block {
        w.block == from.block && from.at < w.at < to.at
    } else if w.block == from.block {
        w.at > from.at
    } else {
        reached(cfg(f), only(f.blocks.len(), from.block), beyond(f, from.block), w.block)
    }
}

/// Whether the slot at `index` still holds at `to` what was read from it at `from`: every
/// write to the list in between lands on a different slot.
pub open spec fn undisturbed(f: SFunc, from: SPlace, to: SPlace, list: Value, index: Value) -> bool {
    &&& !(from.block == to.block && from.at >= to.at)
    &&& forall|b: int, k: int|
        0 <= b < f.blocks.len() && 0 <= k < f.blocks[b].insts.len() && !(b == to.block && k
            == to.at) && write_to((#[trigger] f.blocks[b].insts[k]).op, list) is Some && between(
            f,
            from,
            to,
            SPlace { block: b, at: k },
        ) ==> match write_to(f.blocks[b].insts[k].op, list)->0 {
            Some(w) => distinct_slots(f, w, index),
            None => false,
        }
}

// ---- which stores to narrow ----

/// The record that a field of it is copied out of, if `v` is the field `name` of one.
pub open spec fn copied_from(f: SFunc, v: Value, name: Seq<char>) -> Option<Value> {
    match def_op(f, v) {
        Some(SOp::Field { base, field }) => if field == name {
            Some(base)
        } else {
            None
        },
        _ => None,
    }
}

/// What the first `n` fields of a record come to: those that change, with their positions,
/// and the one record that the others are copied out of.
pub open spec fn sort_fields(f: SFunc, fields: Seq<(Seq<char>, Value)>, n: int) -> (
    Seq<(int, Value)>,
    Option<Value>,
)
    decreases n,
{
    if n <= 0 {
        (seq![], None)
    } else {
        let (changed, source) = sort_fields(f, fields, n - 1);
        let (name, v) = fields[n - 1];
        match copied_from(f, v, name) {
            Some(s) => if source is None || source == Some(s) {
                (changed, Some(s))
            } else {
                (changed.push((n - 1, v)), source)
            },
            None => (changed.push((n - 1, v)), source),
        }
    }
}

/// A store to narrow, and what to narrow it to: the fields that change.
pub struct SSite {
    pub place: SPlace,
    pub list: Value,
    pub index: Value,
    pub changed: Seq<(int, Value)>,
}

/// The whole-record store at a place, if it can be narrowed.
///
/// Where every field changes, the whole store is the better code. Where none does, the
/// store still checks its index, so it stays.
pub open spec fn site_at(f: SFunc, p: SPlace) -> Option<SSite> {
    match op_at(f, p) {
        SOp::Native { symbol, args } => if symbol != set_inplace() || args.len() != 3 {
            None
        } else {
            match def_op(f, args[2]) {
                Some(SOp::MakeRecord { fields, .. }) => {
                    let (changed, source) = sort_fields(f, fields, fields.len() as int);
                    if changed.len() == 0 || changed.len() == fields.len() || source is None {
                        None
                    } else {
                        match def_of(f, source->0) {
                            Some(from) => match op_at(f, from) {
                                SOp::Index { base, index, .. } => if base == args[0] && index
                                    == args[1] && undisturbed(f, from, p, args[0], args[1]) {
                                    Some(
                                        SSite {
                                            place: p,
                                            list: args[0],
                                            index: args[1],
                                            changed,
                                        },
                                    )
                                } else {
                                    None
                                },
                                _ => None,
                            },
                            None => None,
                        }
                    }
                },
                _ => None,
            }
        },
        _ => None,
    }
}

// ---- narrowing ----

/// The stores of the first `n` changed fields, each after the constant that names its
/// position. Their values are numbered from `next`.
pub open spec fn field_stores(s: SSite, next: int, n: int) -> Seq<SInst>
    decreases n,
{
    if n <= 0 {
        seq![]
    } else {
        let (pos, v) = s.changed[n - 1];
        let posv = Value((next + n - 1) as u32);
        field_stores(s, next, n - 1) + seq![
            SInst { result: Some(posv), op: SOp::ConstI64(pos as i64) },
            SInst {
                result: None,
                op: SOp::Native {
                    symbol: set_field_inplace(),
                    args: seq![s.list, s.index, posv, v],
                },
            },
        ]
    }
}

/// `n` more integers of one type.
pub open spec fn more_ints(values: Seq<SValueData>, ty: crate::types::TyId, n: int) -> Seq<
    SValueData,
>
    decreases n,
{
    if n <= 0 {
        values
    } else {
        more_ints(values, ty, n - 1).push(SValueData { repr: SRepr::I64, ty })
    }
}

/// A function with one store narrowed.
pub open spec fn narrowed(f: SFunc, s: SSite) -> SFunc {
    let b = f.blocks[s.place.block];
    SFunc {
        values: more_ints(f.values, f.values[s.index.0 as int].ty, s.changed.len() as int),
        blocks: f.blocks.update(
            s.place.block,
            SBlock {
                insts: b.insts.take(s.place.at) + field_stores(
                    s,
                    f.values.len() as int,
                    s.changed.len() as int,
                ) + b.insts.skip(s.place.at + 1),
                ..b
            },
        ),
        ..f
    }
}

/// `g`, which is `f` with some later stores narrowed, with the first `n` instructions of
/// block `b` of `f` narrowed too, last first.
pub open spec fn narrow_block(f: SFunc, g: SFunc, b: int, n: int) -> SFunc
    decreases n,
{
    if n <= 0 {
        g
    } else {
        match site_at(f, SPlace { block: b, at: n - 1 }) {
            Some(s) => narrow_block(f, narrowed(g, s), b, n - 1),
            None => narrow_block(f, g, b, n - 1),
        }
    }
}

/// The first `n` blocks narrowed.
pub open spec fn narrow_blocks(f: SFunc, n: int) -> SFunc
    decreases n,
{
    if n <= 0 {
        f
    } else {
        narrow_block(f, narrow_blocks(f, n - 1), n - 1, f.blocks[n - 1].insts.len() as int)
    }
}

/// A function with every store narrowed that can be.
pub open spec fn applied(f: SFunc) -> SFunc {
    narrow_blocks(f, f.blocks.len() as int)
}

/// How many values narrowing mints at most in the first `n` instructions: as many as the
/// records stored there have fields.
pub open spec fn minted_in(f: SFunc, b: int, n: int) -> nat
    decreases n,
{
    if n <= 0 {
        0
    } else {
        minted_in(f, b, n - 1) + match site_at(f, SPlace { block: b, at: n - 1 }) {
            Some(s) => s.changed.len(),
            None => 0,
        }
    }
}

pub open spec fn minted(f: SFunc, n: int) -> nat
    decreases n,
{
    if n <= 0 {
        0
    } else {
        minted(f, n - 1) + minted_in(f, n - 1, f.blocks[n - 1].insts.len() as int)
    }
}

/// Whether the position of a field can be named: it is a number of the machine, and one of
/// the language.
pub open spec fn nameable(pos: int) -> bool {
    pos <= i64::MAX && pos <= usize::MAX
}

/// There are numbers for the positions of the fields that change, and for the new values.
pub open spec fn has_numbers(f: SFunc) -> bool {
    &&& forall|b: int, k: int, j: int|
        0 <= b < f.blocks.len() && 0 <= k < f.blocks[b].insts.len() && (site_at(
            f,
            SPlace { block: b, at: k },
        ) matches Some(s) && 0 <= j < s.changed.len()) ==> nameable(
            (#[trigger] site_at(f, SPlace { block: b, at: k })->0.changed[j]).0,
        )
    &&& f.values.len() + minted(f, f.blocks.len() as int) <= u32::MAX
}

/// What narrowing asks of a function: its blocks and values exist, and there are numbers
/// for what it adds.
pub open spec fn narrowable(f: SFunc) -> bool {
    &&& blocks_wf(f)
    &&& values_wf(f)
    &&& has_numbers(f)
}

// ---- finding instructions, computed ----

/// Where a value is defined.
pub fn def_place(f: &Func, v: Value) -> (r: Option<(usize, usize)>)
    ensures
        match r {
            Some((b, k)) => def_of(f.sem(), v) == Some(SPlace { block: b as int, at: k as int })
                && b < f.blocks.len() && k < f.blocks[b as int].insts.len(),
            None => def_of(f.sem(), v) is None,
        },
{
    let ghost s = f.sem();
    let mut b: usize = f.blocks.len();
    while b > 0
        invariant
            b <= f.blocks.len(),
            s == f.sem(),
            def_of(s, v) == last_def(s, v, b as int),
        decreases b,
    {
        b -= 1;
        let insts = &f.blocks[b].insts;
        let ghost is = s.blocks[b as int].insts;
        assert(s.blocks[b as int] == f.blocks[b as int].sem());
        let mut k: usize = insts.len();
        assert(is.len() == k);
        while k > 0
            invariant
                b < f.blocks.len(),
                s == f.sem(),
                *insts == f.blocks[b as int].insts,
                is == s.blocks[b as int].insts,
                is == sems(insts@),
                k <= insts.len(),
                last_def_in(is, v, is.len() as int) == last_def_in(is, v, k as int),
                def_of(s, v) == last_def(s, v, b + 1),
            decreases k,
        {
            k -= 1;
            assert(is[k as int] == insts[k as int].sem());
            let hit = match insts[k].result {
                Some(w) => w == v,
                None => false,
            };
            if hit {
                return Some((b, k));
            }
        }
    }
    None
}

/// The operation that defines a value.
fn def_operation(f: &Func, v: Value) -> (r: Option<&Op>)
    ensures
        match r {
            Some(op) => def_op(f.sem(), v) == Some(op.sem()),
            None => def_op(f.sem(), v) is None,
        },
{
    match def_place(f, v) {
        Some((b, k)) => {
            assert(f.sem().blocks[b as int] == f.blocks[b as int].sem());
            assert(f.sem().blocks[b as int].insts[k as int] == f.blocks[b as int].insts[k as int].sem());
            Some(&f.blocks[b].insts[k].op)
        },
        None => None,
    }
}

/// The first block that has `v` as a parameter, and at which position.
fn param_place(f: &Func, v: Value) -> (r: Option<(usize, usize)>)
    ensures
        match r {
            Some((b, k)) => param_from(f.sem(), v, 0) == Some(
                SPlace { block: b as int, at: k as int },
            ) && b < f.blocks.len(),
            None => param_from(f.sem(), v, 0) is None,
        },
{
    let ghost s = f.sem();
    let mut b: usize = 0;
    while b < f.blocks.len()
        invariant
            b <= f.blocks.len(),
            s == f.sem(),
            param_from(s, v, 0) == param_from(s, v, b as int),
        decreases f.blocks.len() - b,
    {
        let ps = &f.blocks[b].params;
        assert(s.blocks[b as int] == f.blocks[b as int].sem());
        let mut k: usize = 0;
        while k < ps.len()
            invariant
                b < f.blocks.len(),
                s == f.sem(),
                ps@ == s.blocks[b as int].params,
                k <= ps.len(),
                param_from(s, v, 0) == param_from(s, v, b as int),
                position_from(ps@, v, 0) == position_from(ps@, v, k as int),
            decreases ps.len() - k,
        {
            if ps[k] == v {
                return Some((b, k));
            }
            k += 1;
        }
        b += 1;
    }
    None
}

fn const_value(f: &Func, v: Value) -> (r: Option<i64>)
    ensures
        r == const_of(f.sem(), v),
{
    match def_operation(f, v) {
        Some(Op::ConstI64(n)) => Some(*n),
        _ => None,
    }
}

fn is_one(f: &Func, v: Value) -> (r: bool)
    ensures
        r == (const_of(f.sem(), v) == Some(1i64)),
{
    match const_value(f, v) {
        Some(n) => n == 1,
        None => false,
    }
}

/// What a value is one more than, if it is defined so.
fn add_of_one(f: &Func, v: Value) -> (r: Option<Value>)
    ensures
        r == one_more(f.sem(), v),
{
    match def_operation(f, v) {
        Some(Op::Prim(p, args)) => {
            if *p != PrimOp::Add || args.len() < 2 {
                return None;
            }
            if is_one(f, args[1]) {
                return Some(args[0]);
            }
            if is_one(f, args[0]) {
                return Some(args[1]);
            }
            None
        },
        _ => None,
    }
}

/// What bounds `v` in the loop of a header.
fn guard_of(b: &Block, v: Value) -> (r: Option<Value>)
    ensures
        r == loop_guard(b.sem(), v),
{
    let c: Value = match &b.term {
        Term::Branch { cond, .. } => *cond,
        _ => {
            return None;
        },
    };
    let ghost is = b.sem().insts;
    let mut k: usize = 0;
    while k < b.insts.len()
        invariant
            k <= b.insts.len(),
            is == sems(b.insts@),
            loop_guard(b.sem(), v) == guard_from(is, c, v, 0),
            guard_from(is, c, v, 0) == guard_from(is, c, v, k as int),
        decreases b.insts.len() - k,
    {
        let i = &b.insts[k];
        assert(is[k as int] == i.sem());
        let defines = match i.result {
            Some(w) => w == c,
            None => false,
        };
        if defines {
            if let Op::Prim(p, args) = &i.op {
                if *p == PrimOp::Lt && args.len() >= 2 && args[0] == v {
                    return Some(args[1]);
                }
            }
        }
        k += 1;
    }
    None
}

/// Whether a value is bound in a block.
pub fn is_bound_in(b: &Block, v: Value) -> (r: bool)
    ensures
        r == bound_in(b.sem(), v),
{
    let ghost s = b.sem();
    let mut k: usize = 0;
    while k < b.params.len()
        invariant
            k <= b.params.len(),
            s == b.sem(),
            forall|j: int| 0 <= j < k ==> #[trigger] s.params[j] != v,
        decreases b.params.len() - k,
    {
        if b.params[k] == v {
            assert(s.params[k as int] == v);
            return true;
        }
        k += 1;
    }
    let mut k: usize = 0;
    while k < b.insts.len()
        invariant
            k <= b.insts.len(),
            s == b.sem(),
            s.insts.len() == b.insts.len(),
            !s.params.contains(v),
            forall|j: int| 0 <= j < k ==> (#[trigger] s.insts[j]).result != Some(v),
        decreases b.insts.len() - k,
    {
        assert(s.insts[k as int] == b.insts[k as int].sem());
        let hit = match b.insts[k].result {
            Some(w) => w == v,
            None => false,
        };
        if hit {
            assert(s.insts[k as int].result == Some(v));
            return true;
        }
        k += 1;
    }
    false
}

// ---- different slots, computed ----

/// The control flow of a function, computed once.
pub struct Flow {
    pub g: Vec<Vec<usize>>,
    pub back: Vec<Vec<usize>>,
    pub dom: Vec<Vec<bool>>,
}

pub open spec fn flow_wf(x: Flow, f: SFunc) -> bool {
    &&& blocks_wf(f)
    &&& adj(x.g@) == cfg(f)
    &&& graph_wf(adj(x.g@))
    &&& adj(x.back@) == preds(adj(x.g@))
    &&& graph_wf(adj(x.back@))
    &&& x.g.len() == f.blocks.len()
    &&& x.back.len() == f.blocks.len()
    &&& x.dom.len() == x.g.len()
    &&& forall|d: int| 0 <= d < x.dom.len() ==> (#[trigger] x.dom[d]).len() == x.g.len()
    &&& forall|d: int, b: int|
        0 <= d < x.dom.len() && 0 <= b < x.dom.len() ==> #[trigger] x.dom[d]@[b]
            == super::cfg::dominates(adj(x.g@), f.entry.0 as int, d, b)
}

pub fn flow_of(f: &Func) -> (x: Flow)
    requires
        blocks_wf(f.sem()),
    ensures
        flow_wf(x, f.sem()),
{
    let g = graph_of(f);
    assert(adj(g@).len() == g.len());
    let back = predecessors(&g);
    assert(adj(back@).len() == back.len());
    let dom = dominators(&g, f.entry.0 as usize);
    Flow { g, back, dom }
}

/// Whether every edge to the header explains the parameter, and some edge enters there.
fn edges_climb(f: &Func, header: usize, pos: usize, p: Value, q: Value) -> (r: bool)
    requires
        blocks_wf(f.sem()),
    ensures
        r == (all_edges_climb(f.sem(), header as int, pos as int, p, q) && some_edge_enters(
            f.sem(),
            header as int,
            pos as int,
            q,
        )),
{
    let ghost s = f.sem();
    let mut entered: bool = false;
    let mut b: usize = 0;
    while b < f.blocks.len()
        invariant
            b <= f.blocks.len(),
            s == f.sem(),
            forall|c: int, k: int|
                0 <= c < b && 0 <= k < targets(s.blocks[c].term).len() && (#[trigger] targets(
                    s.blocks[c].term,
                )[k]).to.0 == header ==> edge_climbs(
                    s,
                    targets(s.blocks[c].term)[k],
                    pos as int,
                    p,
                    q,
                ),
            entered == exists|c: int, k: int|
                0 <= c < b && 0 <= k < targets(s.blocks[c].term).len() && (#[trigger] targets(
                    s.blocks[c].term,
                )[k]).to.0 == header && pos < targets(s.blocks[c].term)[k].args.len() && one_more(
                    s,
                    targets(s.blocks[c].term)[k].args[pos as int],
                ) == Some(q),
        decreases f.blocks.len() - b,
    {
        assert(s.blocks[b as int] == f.blocks[b as int].sem());
        let ts = targets_of(&f.blocks[b].term);
        let ghost tt = targets(s.blocks[b as int].term);
        let mut k: usize = 0;
        while k < ts.len()
            invariant
                b < f.blocks.len(),
                s == f.sem(),
                k <= ts.len() == tt.len(),
                tt == targets(s.blocks[b as int].term),
                forall|j: int| 0 <= j < ts.len() ==> (#[trigger] ts[j]).sem() == tt[j],
                forall|c: int, k: int|
                    0 <= c < b && 0 <= k < targets(s.blocks[c].term).len() && (#[trigger] targets(
                        s.blocks[c].term,
                    )[k]).to.0 == header ==> edge_climbs(
                        s,
                        targets(s.blocks[c].term)[k],
                        pos as int,
                        p,
                        q,
                    ),
                forall|j: int|
                    0 <= j < k && (#[trigger] tt[j]).to.0 == header ==> edge_climbs(
                        s,
                        tt[j],
                        pos as int,
                        p,
                        q,
                    ),
                entered == ((exists|c: int, k: int|
                    0 <= c < b && 0 <= k < targets(s.blocks[c].term).len() && (#[trigger] targets(
                        s.blocks[c].term,
                    )[k]).to.0 == header && pos < targets(s.blocks[c].term)[k].args.len()
                        && one_more(s, targets(s.blocks[c].term)[k].args[pos as int]) == Some(q))
                    || exists|j: int|
                    0 <= j < k && (#[trigger] tt[j]).to.0 == header && pos < tt[j].args.len()
                        && one_more(s, tt[j].args[pos as int]) == Some(q)),
            decreases ts.len() - k,
        {
            let t = ts[k];
            assert(t.sem() == tt[k as int]);
            if t.to.0 as usize == header {
                if pos >= t.args.len() {
                    assert(!edge_climbs(s, tt[k as int], pos as int, p, q));
                    return false;
                }
                match add_of_one(f, t.args[pos]) {
                    None => {
                        assert(!edge_climbs(s, tt[k as int], pos as int, p, q));
                        return false;
                    },
                    Some(base) => {
                        if base == q {
                            assert(one_more(s, tt[k as int].args[pos as int]) == Some(q));
                            entered = true;
                        } else if base != p {
                            assert(!edge_climbs(s, tt[k as int], pos as int, p, q));
                            return false;
                        }
                    },
                }
            }
            k += 1;
        }
        b += 1;
    }
    entered
}

fn climbs_away_from(f: &Func, x: &Flow, p: Value, q: Value) -> (r: bool)
    requires
        flow_wf(*x, f.sem()),
    ensures
        r == climbs_away(f.sem(), p, q),
{
    let ghost s = f.sem();
    let (header, pos) = match param_place(f, p) {
        None => {
            return false;
        },
        Some(x) => x,
    };
    let (q_header, _) = match param_place(f, q) {
        None => {
            return false;
        },
        Some(x) => x,
    };
    assert(s.blocks[header as int] == f.blocks[header as int].sem());
    assert(s.blocks[q_header as int] == f.blocks[q_header as int].sem());
    let guard = guard_of(&f.blocks[header], p);
    if guard.is_none() {
        return false;
    }
    let body = loop_body(&x.g, &x.back, &x.dom, f.entry.0 as usize, header);
    let mut b: usize = 0;
    while b < f.blocks.len()
        invariant
            b <= f.blocks.len(),
            s == f.sem(),
            s.blocks.len() == f.blocks.len(),
            body.len() == f.blocks.len(),
            param_from(s, p, 0) == Some(SPlace { block: header as int, at: pos as int }),
            param_from(s, q, 0) is Some,
            forall|c: int|
                0 <= c < body.len() ==> #[trigger] body[c] == in_loop(
                    cfg(s),
                    s.entry.0 as int,
                    header as int,
                    c,
                ),
            forall|c: int|
                0 <= c < b && in_loop(cfg(s), s.entry.0 as int, header as int, c) ==> !bound_in(
                    #[trigger] s.blocks[c],
                    q,
                ),
        decreases f.blocks.len() - b,
    {
        assert(s.blocks[b as int] == f.blocks[b as int].sem());
        assert(body[b as int] == in_loop(cfg(s), s.entry.0 as int, header as int, b as int));
        if body[b] && is_bound_in(&f.blocks[b], q) {
            return false;
        }
        b += 1;
    }
    let q_guard = guard_of(&f.blocks[q_header], q);
    let same = match (guard, q_guard) {
        (Some(a), Some(b)) => a == b,
        _ => false,
    };
    if !same {
        return false;
    }
    edges_climb(f, header, pos, p, q)
}

/// Whether two indices provably name different slots.
fn provably_distinct(f: &Func, x: &Flow, a: Value, b: Value) -> (r: bool)
    requires
        flow_wf(*x, f.sem()),
    ensures
        r == distinct_slots(f.sem(), a, b),
{
    climbs_away_from(f, x, a, b) || climbs_away_from(f, x, b, a)
}

// ---- writes in between, computed ----

/// Whether an operation writes to a list, and at which index if it says so.
fn writes_to(op: &Op, list: Value) -> (r: Option<Option<Value>>)
    ensures
        r == write_to(op.sem(), list),
{
    match op {
        Op::Native { symbol, args } => {
            if args.len() == 0 || args[0] != list {
                return None;
            }
            if starts_with(symbol.as_str(), "neon_list_set") {
                if args.len() > 1 {
                    Some(Some(args[1]))
                } else {
                    Some(None)
                }
            } else if str_eq(symbol.as_str(), "neon_list_push") || str_eq(
                symbol.as_str(),
                "neon_list_ensure_unique",
            ) {
                Some(None)
            } else {
                None
            }
        },
        _ => None,
    }
}

/// The blocks that can be got to from `start` without coming back to it.
fn reachable_without(f: &Func, x: &Flow, start: usize) -> (r: Vec<bool>)
    requires
        flow_wf(*x, f.sem()),
        start < f.blocks.len(),
    ensures
        r.len() == f.blocks.len(),
        forall|b: int|
            0 <= b < r.len() ==> #[trigger] r[b] == reached(
                cfg(f.sem()),
                only(f.blocks.len() as nat, start as int),
                beyond(f.sem(), start as int),
                b,
            ),
{
    let ghost s = f.sem();
    let n: usize = f.blocks.len();
    assert(s.blocks.len() == n);
    let mut starts: Vec<bool> = Vec::new();
    let mut b: usize = 0;
    while b < n
        invariant
            b <= n == f.blocks.len(),
            s == f.sem(),
            s.blocks.len() == n,
            flow_wf(*x, s),
            start < n,
            starts.len() == b,
            forall|c: int| 0 <= c < b ==> #[trigger] starts[c] == beyond(s, start as int)[c],
        decreases n - b,
    {
        assert(adj(x.g@)[start as int] == x.g[start as int]@);
        starts.push(b != start && super::cfg::has(&x.g[start], b));
        b += 1;
    }
    assert(starts@ =~= beyond(s, start as int));
    let blocked = only_one(n, start);
    reachable(&x.g, &starts, &blocked)
}

/// Whether the slot at `index` still holds at `to` what was read from it at `from`.
fn is_undisturbed(
    f: &Func,
    x: &Flow,
    from: (usize, usize),
    to: (usize, usize),
    list: Value,
    index: Value,
) -> (r: bool)
    requires
        flow_wf(*x, f.sem()),
        from.0 < f.blocks.len(),
        to.0 < f.blocks.len(),
    ensures
        r == undisturbed(
            f.sem(),
            SPlace { block: from.0 as int, at: from.1 as int },
            SPlace { block: to.0 as int, at: to.1 as int },
            list,
            index,
        ),
{
    let ghost s = f.sem();
    let ghost a = SPlace { block: from.0 as int, at: from.1 as int };
    let ghost z = SPlace { block: to.0 as int, at: to.1 as int };
    if from.0 == to.0 && from.1 >= to.1 {
        return false;
    }
    let reach = reachable_without(f, x, from.0);
    let mut b: usize = 0;
    while b < f.blocks.len()
        invariant
            b <= f.blocks.len(),
            s == f.sem(),
            s.blocks.len() == f.blocks.len(),
            flow_wf(*x, s),
            a == (SPlace { block: from.0 as int, at: from.1 as int }),
            z == (SPlace { block: to.0 as int, at: to.1 as int }),
            reach.len() == f.blocks.len(),
            forall|c: int|
                0 <= c < reach.len() ==> #[trigger] reach[c] == reached(
                    cfg(s),
                    only(s.blocks.len(), from.0 as int),
                    beyond(s, from.0 as int),
                    c,
                ),
            forall|c: int, k: int|
                0 <= c < b && 0 <= k < s.blocks[c].insts.len() && !(c == z.block && k == z.at)
                    && write_to((#[trigger] s.blocks[c].insts[k]).op, list) is Some && between(
                    s,
                    a,
                    z,
                    SPlace { block: c, at: k },
                ) ==> match write_to(s.blocks[c].insts[k].op, list)->0 {
                    Some(w) => distinct_slots(s, w, index),
                    None => false,
                },
        decreases f.blocks.len() - b,
    {
        let insts = &f.blocks[b].insts;
        assert(s.blocks[b as int] == f.blocks[b as int].sem());
        assert(reach[b as int] == reached(
            cfg(s),
            only(s.blocks.len(), from.0 as int),
            beyond(s, from.0 as int),
            b as int,
        ));
        let mut k: usize = 0;
        while k < insts.len()
            invariant
                b < f.blocks.len(),
                s == f.sem(),
                s.blocks.len() == f.blocks.len(),
                flow_wf(*x, s),
                a == (SPlace { block: from.0 as int, at: from.1 as int }),
                z == (SPlace { block: to.0 as int, at: to.1 as int }),
                s.blocks[b as int].insts == sems(insts@),
                reach.len() == f.blocks.len(),
                reach[b as int] == reached(
                    cfg(s),
                    only(s.blocks.len(), from.0 as int),
                    beyond(s, from.0 as int),
                    b as int,
                ),
                k <= insts.len(),
                forall|j: int|
                    0 <= j < k && !(b == z.block && j == z.at) && write_to(
                        (#[trigger] s.blocks[b as int].insts[j]).op,
                        list,
                    ) is Some && between(s, a, z, SPlace { block: b as int, at: j })
                        ==> match write_to(s.blocks[b as int].insts[j].op, list)->0 {
                        Some(w) => distinct_slots(s, w, index),
                        None => false,
                    },
            decreases insts.len() - k,
        {
            assert(s.blocks[b as int].insts[k as int] == insts[k as int].sem());
            if !(b == to.0 && k == to.1) {
                let w = writes_to(&insts[k].op, list);
                if let Some(w) = w {
                    let in_between = if from.0 == to.0 {
                        b == from.0 && k > from.1 && k < to.1
                    } else if b == from.0 {
                        k > from.1
                    } else {
                        reach[b]
                    };
                    assert(in_between == between(s, a, z, SPlace { block: b as int, at: k as int }));
                    if in_between {
                        let apart = match w {
                            Some(i) => provably_distinct(f, x, i, index),
                            None => false,
                        };
                        if !apart {
                            assert(write_to(s.blocks[b as int].insts[k as int].op, list) is Some);
                            return false;
                        }
                    }
                }
            }
            k += 1;
        }
        b += 1;
    }
    true
}

// ---- which stores to narrow, computed ----

/// The record that a field of it is copied out of, if `v` is the field `name` of one.
fn unchanged_from(f: &Func, v: Value, name: &String) -> (r: Option<Value>)
    ensures
        r == copied_from(f.sem(), v, name@),
{
    match def_operation(f, v) {
        Some(Op::Field { base, field }) => if *field == *name {
            Some(*base)
        } else {
            None
        },
        _ => None,
    }
}

/// [`SSite`] as it is computed.
struct Site {
    block: usize,
    at: usize,
    list: Value,
    index: Value,
    changed: Vec<(usize, Value)>,
}

spec fn changed_sem(c: Seq<(usize, Value)>) -> Seq<(int, Value)> {
    c.map_values(|p: (usize, Value)| (p.0 as int, p.1))
}

impl View for Site {
    type V = SSite;

    closed spec fn view(&self) -> SSite {
        SSite {
            place: SPlace { block: self.block as int, at: self.at as int },
            list: self.list,
            index: self.index,
            changed: changed_sem(self.changed@),
        }
    }
}

/// The fields that change, with their positions, and the record that the others are copied
/// out of.
fn sorted_fields(f: &Func, fields: &Vec<(String, Value)>) -> (r: (
    Vec<(usize, Value)>,
    Option<Value>,
))
    ensures
        (changed_sem(r.0@), r.1) == sort_fields(
            f.sem(),
            super::ssa::named_values_sem(fields@),
            fields.len() as int,
        ),
        forall|k: int| 0 <= k < r.0.len() ==> (#[trigger] r.0[k]).0 < fields.len(),
        r.0.len() <= fields.len(),
{
    let ghost s = f.sem();
    let ghost fs = super::ssa::named_values_sem(fields@);
    let mut changed: Vec<(usize, Value)> = Vec::new();
    let mut source: Option<Value> = None;
    let mut k: usize = 0;
    assert(changed_sem(changed@) =~= seq![]);
    while k < fields.len()
        invariant
            k <= fields.len(),
            s == f.sem(),
            fs == super::ssa::named_values_sem(fields@),
            (changed_sem(changed@), source) == sort_fields(s, fs, k as int),
            changed.len() <= k,
            forall|j: int| 0 <= j < changed.len() ==> (#[trigger] changed[j]).0 < k,
        decreases fields.len() - k,
    {
        assert(fs[k as int] == (fields[k as int].0@, fields[k as int].1));
        let v: Value = fields[k].1;
        let ghost before = changed@;
        match unchanged_from(f, v, &fields[k].0) {
            Some(from) => {
                let fits = match source {
                    None => true,
                    Some(prev) => prev == from,
                };
                if fits {
                    source = Some(from);
                } else {
                    changed.push((k, v));
                    assert(changed_sem(changed@) =~= changed_sem(before).push((k as int, v)));
                }
            },
            None => {
                changed.push((k, v));
                assert(changed_sem(changed@) =~= changed_sem(before).push((k as int, v)));
            },
        }
        k += 1;
    }
    (changed, source)
}

/// The whole-record store at a place, if it can be narrowed.
fn site(f: &Func, x: &Flow, b: usize, at: usize) -> (r: Option<Site>)
    requires
        flow_wf(*x, f.sem()),
        values_wf(f.sem()),
        b < f.blocks.len(),
        at < f.blocks[b as int].insts.len(),
    ensures
        match r {
            Some(s) => site_at(f.sem(), SPlace { block: b as int, at: at as int }) == Some(s@)
                && s.index.0 < f.values.len() && s.block == b && s.at == at,
            None => site_at(f.sem(), SPlace { block: b as int, at: at as int }) is None,
        },
{
    let ghost s = f.sem();
    let ghost p = SPlace { block: b as int, at: at as int };
    assert(s.blocks[b as int] == f.blocks[b as int].sem());
    assert(s.blocks[b as int].insts[at as int] == f.blocks[b as int].insts[at as int].sem());
    assert(super::ssa::block_in_range(s.blocks[b as int], s.values.len()));
    assert(super::ssa::inst_in_range(s.blocks[b as int].insts[at as int], s.values.len()));
    match &f.blocks[b].insts[at].op {
        Op::Native { symbol, args } => {
            if !str_eq(symbol.as_str(), "neon_list_set_inplace") || args.len() != 3 {
                return None;
            }
            let (list, index, rec) = (args[0], args[1], args[2]);
            assert(operands(op_at(s, p))[1] == index);
            match def_operation(f, rec) {
                Some(Op::MakeRecord { fields, .. }) => {
                    let (changed, source) = sorted_fields(f, fields);
                    assert(changed_sem(changed@).len() == changed.len());
                    if changed.len() == 0 || changed.len() == fields.len() {
                        return None;
                    }
                    let src: Value = match source {
                        None => {
                            return None;
                        },
                        Some(v) => v,
                    };
                    let (sb, sk) = match def_place(f, src) {
                        None => {
                            return None;
                        },
                        Some(x) => x,
                    };
                    assert(s.blocks[sb as int] == f.blocks[sb as int].sem());
                    assert(s.blocks[sb as int].insts[sk as int]
                        == f.blocks[sb as int].insts[sk as int].sem());
                    if let Op::Index { base, index: i, .. } = &f.blocks[sb].insts[sk].op {
                        if *base == list && *i == index && is_undisturbed(
                            f,
                            x,
                            (sb, sk),
                            (b, at),
                            list,
                            index,
                        ) {
                            return Some(Site { block: b, at, list, index, changed });
                        }
                    }
                    None
                },
                _ => None,
            }
        },
        _ => None,
    }
}

// ---- narrowing, computed ----

fn pair_of(a: Value, b: Value, c: Value, d: Value) -> (r: Vec<Value>)
    ensures
        r@ == seq![a, b, c, d],
{
    let mut r: Vec<Value> = Vec::new();
    r.push(a);
    r.push(b);
    r.push(c);
    r.push(d);
    assert(r@ =~= seq![a, b, c, d]);
    r
}

/// Replace one whole-record store with one store per changed field, each preceded by the
/// constant naming which field it writes.
fn narrow(f: &mut Func, s: &Site)
    requires
        s.block < old(f).blocks.len(),
        s.at < old(f).blocks[s.block as int].insts.len(),
        s.index.0 < old(f).values.len(),
        old(f).values.len() + s.changed.len() <= u32::MAX,
        forall|j: int| 0 <= j < s@.changed.len() ==> (#[trigger] s@.changed[j]).0 <= i64::MAX,
    ensures
        final(f).sem() == narrowed(old(f).sem(), s@),
        final(f).blocks.len() == old(f).blocks.len(),
        final(f).values.len() == old(f).values.len() + s.changed.len(),
        final(f).blocks[s.block as int].insts.len() >= s.at,
        forall|b: int|
            0 <= b < old(f).blocks.len() && b != s.block ==> #[trigger] final(f).blocks[b]
                == old(f).blocks[b],
{
    let ghost f0 = f.sem();
    let ghost next = f.values.len() as int;
    assert(f0.values.len() == next);
    let ty = f.value_ty(s.index);
    let ghost changed = s@.changed;
    let ghost blocks0 = f.blocks@;
    assert(changed.len() == s.changed.len());
    let mut stores: Vec<Inst> = Vec::new();
    let mut k: usize = 0;
    assert(sems(stores@) =~= field_stores(s@, next, 0));
    while k < s.changed.len()
        invariant
            k <= s.changed.len(),
            changed == s@.changed,
            changed.len() == s.changed.len(),
            next + s.changed.len() <= u32::MAX,
            forall|j: int| 0 <= j < changed.len() ==> (#[trigger] changed[j]).0 <= i64::MAX,
            f.values.len() == next + k,
            f.sem() == (SFunc { values: more_ints(f0.values, ty, k as int), ..f0 }),
            f.blocks@ == blocks0,
            sems(stores@) == field_stores(s@, next, k as int),
        decreases s.changed.len() - k,
    {
        let (pos, v) = s.changed[k];
        assert(changed[k as int] == (pos as int, v));
        assert(Repr::I64.sem() == SRepr::I64);
        let posv = f.new_value(Repr::I64, ty);
        let ghost before = stores@;
        let c = Inst { result: Some(posv), op: Op::ConstI64(pos as i64) };
        assert(c.sem() == SInst { result: Some(posv), op: SOp::ConstI64(pos as i64) });
        let op = Op::Native {
            symbol: "neon_list_set_field_inplace".to_owned(),
            args: pair_of(s.list, s.index, posv, v),
        };
        assert(op.sem() == SOp::Native {
            symbol: set_field_inplace(),
            args: seq![s.list, s.index, posv, v],
        });
        let w = Inst { result: None, op };
        assert(w.sem() == SInst { result: None, op: op.sem() });
        stores.push(c);
        stores.push(w);
        assert(sems(stores@) =~= sems(before) + seq![c.sem(), w.sem()]);
        k += 1;
    }
    let ghost b0 = f.blocks[s.block as int];
    let mut insts: Vec<Inst> = Vec::new();
    let mut k: usize = 0;
    assert(sems(insts@) =~= sems(b0.insts@).take(0));
    while k < s.at
        invariant
            k <= s.at < b0.insts.len(),
            s.block < f.blocks.len(),
            f.blocks[s.block as int] == b0,
            sems(insts@) == sems(b0.insts@).take(k as int),
        decreases s.at - k,
    {
        let i = f.blocks[s.block].insts[k].clone();
        let ghost before = insts@;
        insts.push(i);
        assert(sems(insts@) =~= sems(before).push(i.sem()));
        k += 1;
        assert(sems(insts@) =~= sems(b0.insts@).take(k as int));
    }
    let ghost head = insts@;
    let ghost mid = stores@;
    insts.append(&mut stores);
    assert(sems(insts@) =~= sems(head) + sems(mid));
    let ghost front = sems(insts@);
    let mut k: usize = s.at + 1;
    assert(sems(insts@) =~= front + sems(b0.insts@).subrange(s.at + 1, s.at + 1));
    while k < f.blocks[s.block].insts.len()
        invariant
            s.at + 1 <= k <= b0.insts.len(),
            s.block < f.blocks.len(),
            f.blocks[s.block as int] == b0,
            sems(insts@) == front + sems(b0.insts@).subrange(s.at + 1, k as int),
        decreases b0.insts.len() - k,
    {
        let i = f.blocks[s.block].insts[k].clone();
        let ghost before = insts@;
        insts.push(i);
        assert(sems(insts@) =~= sems(before).push(i.sem()));
        k += 1;
        assert(sems(insts@) =~= front + sems(b0.insts@).subrange(s.at + 1, k as int));
    }
    assert(sems(b0.insts@).subrange(s.at + 1, b0.insts.len() as int) =~= sems(b0.insts@).skip(
        s.at + 1,
    ));
    let ghost all = insts@;
    let ghost f1 = f.sem();
    assert(f0.blocks[s.block as int] == b0.sem());
    assert(sems(all).len() == all.len());
    f.blocks[s.block].insts = insts;
    assert(f.blocks@[s.block as int].sem() == SBlock { insts: sems(all), ..b0.sem() });
    assert(f.sem().blocks =~= f1.blocks.update(
        s.block as int,
        SBlock { insts: sems(all), ..b0.sem() },
    ));
}

proof fn lemma_minted_grows(f: SFunc, i: int, j: int)
    requires
        0 <= i <= j,
    ensures
        minted(f, i) <= minted(f, j),
    decreases j,
{
    if i < j {
        lemma_minted_grows(f, i, j - 1);
    }
}

/// Every store that can be narrowed, by block and place.
fn find(f: &Func) -> (r: Vec<Vec<Option<Site>>>)
    requires
        blocks_wf(f.sem()),
        values_wf(f.sem()),
    ensures
        r.len() == f.blocks.len(),
        forall|b: int|
            0 <= b < r.len() ==> (#[trigger] r[b]).len() == f.sem().blocks[b].insts.len(),
        forall|b: int, k: int|
            0 <= b < r.len() && 0 <= k < r[b].len() ==> match #[trigger] r[b]@[k] {
                Some(s) => site_at(f.sem(), SPlace { block: b, at: k }) == Some(s@) && s.index.0
                    < f.values.len() && s.block == b && s.at == k,
                None => site_at(f.sem(), SPlace { block: b, at: k }) is None,
            },
{
    let x = flow_of(f);
    let mut r: Vec<Vec<Option<Site>>> = Vec::new();
    let mut b: usize = 0;
    while b < f.blocks.len()
        invariant
            b <= f.blocks.len(),
            flow_wf(x, f.sem()),
            values_wf(f.sem()),
            r.len() == b,
            forall|c: int|
                0 <= c < b ==> (#[trigger] r[c]).len() == f.sem().blocks[c].insts.len(),
            forall|c: int, k: int|
                0 <= c < b && 0 <= k < r[c].len() ==> match #[trigger] r[c]@[k] {
                    Some(s) => site_at(f.sem(), SPlace { block: c, at: k }) == Some(s@)
                        && s.index.0 < f.values.len() && s.block == c && s.at == k,
                    None => site_at(f.sem(), SPlace { block: c, at: k }) is None,
                },
        decreases f.blocks.len() - b,
    {
        assert(f.sem().blocks[b as int] == f.blocks[b as int].sem());
        let mut row: Vec<Option<Site>> = Vec::new();
        let mut k: usize = 0;
        while k < f.blocks[b].insts.len()
            invariant
                b < f.blocks.len(),
                flow_wf(x, f.sem()),
                values_wf(f.sem()),
                k <= f.blocks[b as int].insts.len(),
                row.len() == k,
                forall|j: int|
                    0 <= j < k ==> match #[trigger] row@[j] {
                        Some(s) => site_at(f.sem(), SPlace { block: b as int, at: j }) == Some(s@)
                            && s.index.0 < f.values.len() && s.block == b && s.at == j,
                        None => site_at(f.sem(), SPlace { block: b as int, at: j }) is None,
                    },
            decreases f.blocks[b as int].insts.len() - k,
        {
            row.push(site(f, &x, b, k));
            k += 1;
        }
        r.push(row);
        b += 1;
    }
    r
}

/// Whether an instruction stores into a list in place, or defines a value that is not among
/// the first `n`.
pub open spec fn is_store(i: SInst, n: nat) -> bool {
    (i.op matches SOp::Native { symbol, .. } && (symbol == set_inplace() || symbol
        == set_field_inplace())) || (i.result matches Some(v) && v.0 >= n)
}

/// Instructions without stores in place and what comes with them.
pub open spec fn without_stores(is: Seq<SInst>, n: nat) -> Seq<SInst> {
    is.filter(|i: SInst| !is_store(i, n))
}

/// A function that is another but for how it stores into lists: everything else is done, and
/// goes, as before.
pub open spec fn only_narrows(f: SFunc, g: SFunc) -> bool {
    &&& g.blocks.len() == f.blocks.len()
    &&& g.params == f.params
    &&& f.values.len() <= g.values.len()
    &&& g.values.take(f.values.len() as int) == f.values
    &&& forall|b: int|
        0 <= b < f.blocks.len() ==> (#[trigger] g.blocks[b]).id == f.blocks[b].id
            && g.blocks[b].params == f.blocks[b].params && g.blocks[b].term == f.blocks[b].term
            && without_stores(g.blocks[b].insts, f.values.len()) == without_stores(
            f.blocks[b].insts,
            f.values.len(),
        )
}

proof fn lemma_stores_go(is: Seq<SInst>, n: nat)
    requires
        forall|k: int| 0 <= k < is.len() ==> is_store(#[trigger] is[k], n),
    ensures
        without_stores(is, n) == Seq::<SInst>::empty(),
    decreases is.len(),
{
    reveal(Seq::filter);
    if is.len() > 0 {
        assert(is_store(is[is.len() - 1], n));
        assert forall|k: int| 0 <= k < is.drop_last().len() implies is_store(
            #[trigger] is.drop_last()[k],
            n,
        ) by {
            assert(is_store(is[k], n));
        }
        lemma_stores_go(is.drop_last(), n);
    }
}

proof fn lemma_field_stores(s: SSite, next: int, k: int, n: nat)
    requires
        n <= next,
        next + k <= u32::MAX,
    ensures
        forall|j: int|
            0 <= j < field_stores(s, next, k).len() ==> is_store(
                #[trigger] field_stores(s, next, k)[j],
                n,
            ),
    decreases k,
{
    if k > 0 {
        lemma_field_stores(s, next, k - 1, n);
        let before = field_stores(s, next, k - 1);
        let all = field_stores(s, next, k);
        assert forall|j: int| 0 <= j < all.len() implies is_store(#[trigger] all[j], n) by {
            if j < before.len() {
                assert(all[j] == before[j]);
            } else if j == before.len() {
                assert(all[j].result == Some(Value((next + k - 1) as u32)));
            } else {
                assert(all[j].op is Native);
            }
        }
    }
}

proof fn lemma_more_ints(values: Seq<SValueData>, ty: crate::types::TyId, k: int)
    requires
        k >= 0,
    ensures
        more_ints(values, ty, k).len() == values.len() + k,
        more_ints(values, ty, k).take(values.len() as int) == values,
    decreases k,
{
    if k > 0 {
        lemma_more_ints(values, ty, k - 1);
        assert(more_ints(values, ty, k).take(values.len() as int) =~= more_ints(
            values,
            ty,
            k - 1,
        ).take(values.len() as int));
    } else {
        assert(values.take(values.len() as int) =~= values);
    }
}

/// Narrowing one store, where the instruction there is one.
proof fn lemma_narrowed(f: SFunc, g: SFunc, s: SSite)
    requires
        only_narrows(f, g),
        0 <= s.place.block < f.blocks.len(),
        0 <= s.place.at < g.blocks[s.place.block].insts.len(),
        is_store(g.blocks[s.place.block].insts[s.place.at], f.values.len()),
        g.values.len() + s.changed.len() <= u32::MAX,
    ensures
        only_narrows(f, narrowed(g, s)),
{
    let h = narrowed(g, s);
    let n = f.values.len();
    let pred = |i: SInst| !is_store(i, n);
    lemma_more_ints(g.values, g.values[s.index.0 as int].ty, s.changed.len() as int);
    assert(h.values.take(n as int) =~= h.values.take(g.values.len() as int).take(n as int));
    let at = s.place.at;
    let is = g.blocks[s.place.block].insts;
    let stores = field_stores(s, g.values.len() as int, s.changed.len() as int);
    let (a, c) = (is.take(at), is.skip(at + 1));
    lemma_field_stores(s, g.values.len() as int, s.changed.len() as int, n);
    lemma_stores_go(stores, n);
    lemma_stores_go(seq![is[at]], n);
    assert(is =~= a + seq![is[at]] + c);
    Seq::filter_distributes_over_add(a + seq![is[at]], c, pred);
    Seq::filter_distributes_over_add(a, seq![is[at]], pred);
    Seq::filter_distributes_over_add(a + stores, c, pred);
    Seq::filter_distributes_over_add(a, stores, pred);
    assert(without_stores(a + stores + c, n) =~= without_stores(is, n));
    assert forall|b: int| 0 <= b < f.blocks.len() implies (#[trigger] h.blocks[b]).id
        == f.blocks[b].id && h.blocks[b].params == f.blocks[b].params && h.blocks[b].term
        == f.blocks[b].term && without_stores(h.blocks[b].insts, n) == without_stores(
        f.blocks[b].insts,
        n,
    ) by {
        assert(g.blocks[b].id == f.blocks[b].id);
    }
}

proof fn lemma_site_is_store(f: SFunc, p: SPlace)
    requires
        site_at(f, p) is Some,
        0 <= p.block < f.blocks.len(),
        0 <= p.at < f.blocks[p.block].insts.len(),
    ensures
        is_store(f.blocks[p.block].insts[p.at], f.values.len()),
        site_at(f, p)->0.place == p,
{
}

proof fn lemma_narrow_block(f: SFunc, g: SFunc, b: int, n: int)
    requires
        only_narrows(f, g),
        0 <= b < f.blocks.len(),
        0 <= n <= f.blocks[b].insts.len(),
        n <= g.blocks[b].insts.len(),
        g.blocks[b].insts.take(n) == f.blocks[b].insts.take(n),
        g.values.len() + minted_in(f, b, n) <= u32::MAX,
    ensures
        only_narrows(f, narrow_block(f, g, b, n)),
        narrow_block(f, g, b, n).values.len() == g.values.len() + minted_in(f, b, n),
        forall|c: int|
            0 <= c < f.blocks.len() && c != b ==> #[trigger] narrow_block(f, g, b, n).blocks[c]
                == g.blocks[c],
    decreases n,
{
    if n > 0 {
        let p = SPlace { block: b, at: n - 1 };
        let (gi, fi) = (g.blocks[b].insts, f.blocks[b].insts);
        assert(gi.take(n)[n - 1] == gi[n - 1]);
        assert(fi.take(n)[n - 1] == fi[n - 1]);
        assert(gi[n - 1] == fi[n - 1]);
        assert(g.blocks[b].insts.take(n).take(n - 1) =~= g.blocks[b].insts.take(n - 1));
        assert(f.blocks[b].insts.take(n).take(n - 1) =~= f.blocks[b].insts.take(n - 1));
        match site_at(f, p) {
            Some(s) => {
                lemma_site_is_store(f, p);
                lemma_narrowed(f, g, s);
                lemma_more_ints(g.values, g.values[s.index.0 as int].ty, s.changed.len() as int);
                let h = narrowed(g, s);
                assert(h.blocks[b].insts.take(n - 1) =~= g.blocks[b].insts.take(n - 1));
                lemma_narrow_block(f, h, b, n - 1);
            },
            None => lemma_narrow_block(f, g, b, n - 1),
        }
    }
}

proof fn lemma_narrow_blocks(f: SFunc, n: int)
    requires
        narrowable(f),
        0 <= n <= f.blocks.len(),
    ensures
        only_narrows(f, narrow_blocks(f, n)),
        narrow_blocks(f, n).values.len() == f.values.len() + minted(f, n),
        forall|c: int|
            n <= c < f.blocks.len() ==> #[trigger] narrow_blocks(f, n).blocks[c] == f.blocks[c],
    decreases n,
{
    if n > 0 {
        lemma_narrow_blocks(f, n - 1);
        let g = narrow_blocks(f, n - 1);
        assert(g.blocks[n - 1] == f.blocks[n - 1]);
        lemma_minted_grows(f, n, f.blocks.len() as int);
        lemma_narrow_block(f, g, n - 1, f.blocks[n - 1].insts.len() as int);
    } else {
        assert(f.values.take(f.values.len() as int) =~= f.values);
    }
}

/// Narrowing changes how lists are stored into and nothing else.
pub proof fn stores_are_all_that_is_narrowed(f: SFunc)
    requires
        narrowable(f),
    ensures
        only_narrows(f, applied(f)),
        blocks_wf(applied(f)),
{
    lemma_narrow_blocks(f, f.blocks.len() as int);
    let g = applied(f);
    assert forall|i: int| 0 <= i < g.blocks.len() implies (#[trigger] g.blocks[i]).id.0 == i
        && crate::ir::ssa::term_in_range(g.blocks[i].term, g.blocks.len()) by {
        assert(g.blocks[i].id == f.blocks[i].id);
        assert(crate::ir::ssa::term_in_range(f.blocks[i].term, f.blocks.len()));
    }
    assert(g.entry == f.entry) by {
        lemma_entry_stays(f, f.blocks.len() as int);
    }
}

proof fn lemma_entry_stays_in(f: SFunc, g: SFunc, b: int, n: int)
    ensures
        narrow_block(f, g, b, n).entry == g.entry,
    decreases n,
{
    if n > 0 {
        match site_at(f, SPlace { block: b, at: n - 1 }) {
            Some(s) => lemma_entry_stays_in(f, narrowed(g, s), b, n - 1),
            None => lemma_entry_stays_in(f, g, b, n - 1),
        }
    }
}

proof fn lemma_entry_stays(f: SFunc, n: int)
    ensures
        narrow_blocks(f, n).entry == f.entry,
    decreases n,
{
    if n > 0 {
        lemma_entry_stays(f, n - 1);
        lemma_entry_stays_in(
            f,
            narrow_blocks(f, n - 1),
            n - 1,
            f.blocks[n - 1].insts.len() as int,
        );
    }
}

proof fn lemma_minted_in_grows(f: SFunc, b: int, i: int, j: int)
    requires
        0 <= i <= j,
    ensures
        minted_in(f, b, i) <= minted_in(f, b, j),
    decreases j,
{
    if i < j {
        lemma_minted_in_grows(f, b, i, j - 1);
    }
}

/// Whether the positions of the fields that change can be named.
spec fn positions_fit(c: Seq<(int, Value)>) -> bool {
    forall|j: int| 0 <= j < c.len() ==> nameable((#[trigger] c[j]).0)
}

fn fit_positions(s: &Site) -> (r: bool)
    ensures
        r == positions_fit(s@.changed),
{
    let ghost c = s@.changed;
    let mut j: usize = 0;
    while j < s.changed.len()
        invariant
            j <= s.changed.len() == c.len(),
            c == s@.changed,
            forall|k: int| 0 <= k < j ==> nameable((#[trigger] c[k]).0),
        decreases s.changed.len() - j,
    {
        assert(c[j as int].0 == s.changed[j as int].0);
        if s.changed[j].0 as u64 > 0x7fff_ffff_ffff_ffff {
            assert(!nameable(c[j as int].0));
            return false;
        }
        j += 1;
    }
    true
}

/// Whether the stores of a function can be narrowed.
pub fn can_narrow(f: &Func) -> (r: bool)
    requires
        blocks_wf(f.sem()),
        values_wf(f.sem()),
    ensures
        r == narrowable(f.sem()),
{
    let ghost s = f.sem();
    let sites = find(f);
    let n: usize = f.blocks.len();
    assert(s.blocks.len() == n);
    assert(s.values.len() == f.values.len());
    let mut used: usize = f.values.len();
    let mut b: usize = 0;
    while b < n
        invariant
            b <= n == sites.len(),
            s == f.sem(),
            s.blocks.len() == n,
            forall|c: int|
                0 <= c < n ==> (#[trigger] sites[c]).len() == s.blocks[c].insts.len(),
            forall|c: int, k: int|
                0 <= c < n && 0 <= k < sites[c].len() ==> match #[trigger] sites[c]@[k] {
                    Some(x) => site_at(s, SPlace { block: c, at: k }) == Some(x@),
                    None => site_at(s, SPlace { block: c, at: k }) is None,
                },
            used == s.values.len() + minted(s, b as int),
            used <= u32::MAX,
            forall|c: int, k: int|
                0 <= c < b && 0 <= k < s.blocks[c].insts.len() && (#[trigger] site_at(
                    s,
                    SPlace { block: c, at: k },
                ) is Some) ==> positions_fit(site_at(s, SPlace { block: c, at: k })->0.changed),
        decreases n - b,
    {
        let mut k: usize = 0;
        assert(sites[b as int].len() == s.blocks[b as int].insts.len());
        while k < sites[b].len()
            invariant
                b < n == sites.len(),
                s == f.sem(),
                s.blocks.len() == n,
                k <= sites[b as int].len() == s.blocks[b as int].insts.len(),
                forall|c: int, k: int|
                    0 <= c < n && 0 <= k < sites[c].len() ==> match #[trigger] sites[c]@[k] {
                        Some(x) => site_at(s, SPlace { block: c, at: k }) == Some(x@),
                        None => site_at(s, SPlace { block: c, at: k }) is None,
                    },
                used == s.values.len() + minted(s, b as int) + minted_in(s, b as int, k as int),
                used <= u32::MAX,
                forall|c: int, j: int|
                    (0 <= c < b && 0 <= j < s.blocks[c].insts.len() || c == b && 0 <= j < k) && (
                    #[trigger] site_at(s, SPlace { block: c, at: j }) is Some) ==> positions_fit(
                        site_at(s, SPlace { block: c, at: j })->0.changed,
                    ),
            decreases sites[b as int].len() - k,
        {
            let ghost entry = sites[b as int]@[k as int];
            match &sites[b][k] {
                Some(x) => {
                    assert(entry == Some(*x));
                    let ghost at = SPlace { block: b as int, at: k as int };
                    assert(site_at(s, at) == Some(x@));
                    assert(x@.changed.len() == x.changed.len());
                    proof {
                        lemma_minted_in_grows(s, b as int, k + 1, sites[b as int].len() as int);
                        lemma_minted_grows(s, b + 1, n as int);
                    }
                    if !fit_positions(x) {
                        proof {
                            let c = site_at(s, at)->0.changed;
                            let j = choose|j: int|
                                0 <= j < c.len() && !nameable((#[trigger] c[j]).0);
                            assert(!nameable(site_at(s, at)->0.changed[j].0));
                        }
                        return false;
                    }
                    if x.changed.len() > 0xffff_ffff - used {
                        return false;
                    }
                    used = used + x.changed.len();
                },
                None => {
                    assert(entry is None);
                },
            }
            k += 1;
        }
        b += 1;
    }
    assert forall|b: int, k: int, j: int|
        0 <= b < s.blocks.len() && 0 <= k < s.blocks[b].insts.len() && (site_at(
            s,
            SPlace { block: b, at: k },
        ) matches Some(x) && 0 <= j < x.changed.len()) implies nameable(
        (#[trigger] site_at(s, SPlace { block: b, at: k })->0.changed[j]).0,
    ) by {
        assert(positions_fit(site_at(s, SPlace { block: b, at: k })->0.changed));
    }
    true
}

/// Narrow every store of a function that can be.
pub fn apply_fn(f: &mut Func)
    requires
        narrowable(old(f).sem()),
    ensures
        final(f).sem() == applied(old(f).sem()),
        blocks_wf(final(f).sem()),
        values_wf(final(f).sem()),
{
    let ghost f0 = f.sem();
    proof {
        lemma_narrow_blocks_wf(f0, f0.blocks.len() as int);
    }
    let sites = find(f);
    let n: usize = f.blocks.len();
    assert(f0.blocks.len() == n);
    let mut b: usize = 0;
    assert forall|c: int| 0 <= c < n implies (#[trigger] f.blocks[c]).insts.len()
        == f0.blocks[c].insts.len() by {
        assert(f0.blocks[c] == f.blocks[c].sem());
    }
    while b < n
        invariant
            b <= n == f.blocks.len(),
            f0.blocks.len() == n,
            narrowable(f0),
            sites.len() == n,
            forall|c: int|
                0 <= c < n ==> (#[trigger] sites[c]).len() == f0.blocks[c].insts.len(),
            forall|c: int, k: int|
                0 <= c < n && 0 <= k < sites[c].len() ==> match #[trigger] sites[c]@[k] {
                    Some(s) => site_at(f0, SPlace { block: c, at: k }) == Some(s@) && s.index.0
                        < f0.values.len() && s.block == c && s.at == k,
                    None => site_at(f0, SPlace { block: c, at: k }) is None,
                },
            f.sem() == narrow_blocks(f0, b as int),
            f.values.len() == f0.values.len() + minted(f0, b as int),
            forall|c: int|
                b <= c < n ==> (#[trigger] f.blocks[c]).insts.len() == f0.blocks[c].insts.len(),
        decreases n - b,
    {
        let m: usize = sites[b].len();
        let mut k: usize = m;
        proof {
            lemma_minted_grows(f0, b + 1, n as int);
        }
        assert(sites[b as int].len() == f0.blocks[b as int].insts.len());
        while k > 0
            invariant
                b < n == f.blocks.len(),
                f0.blocks.len() == n,
                narrowable(f0),
                sites.len() == n,
                m == sites[b as int].len() == f0.blocks[b as int].insts.len(),
                k <= m,
                forall|c: int, k: int|
                    0 <= c < n && 0 <= k < sites[c].len() ==> match #[trigger] sites[c]@[k] {
                        Some(s) => site_at(f0, SPlace { block: c, at: k }) == Some(s@)
                            && s.index.0 < f0.values.len() && s.block == c && s.at == k,
                        None => site_at(f0, SPlace { block: c, at: k }) is None,
                    },
                narrow_blocks(f0, b + 1) == narrow_block(f0, f.sem(), b as int, k as int),
                f.values.len() + minted_in(f0, b as int, k as int) == f0.values.len() + minted(
                    f0,
                    b + 1,
                ),
                minted(f0, b + 1) <= minted(f0, n as int),
                f.values.len() >= f0.values.len(),
                f.blocks[b as int].insts.len() >= k,
                forall|c: int|
                    b < c < n ==> (#[trigger] f.blocks[c]).insts.len()
                        == f0.blocks[c].insts.len(),
            decreases k,
        {
            k -= 1;
            let ghost entry = sites[b as int]@[k as int];
            match &sites[b][k] {
                Some(s) => {
                    assert(entry == Some(*s));
                    let ghost found = site_at(f0, SPlace { block: b as int, at: k as int });
                    assert(found == Some(s@));
                    assert(s@.changed.len() == s.changed.len());
                    assert forall|j: int| 0 <= j < s@.changed.len() implies (
                    #[trigger] s@.changed[j]).0 <= i64::MAX by {
                        assert(nameable(found->0.changed[j].0));
                    }
                    narrow(f, s);
                },
                None => {
                    assert(entry is None);
                },
            }
        }
        b += 1;
    }
}

/// Narrow every whole-record store of a program whose record is mostly the slot's own
/// contents.
pub fn apply(program: &mut Program)
    requires
        forall|i: int|
            0 <= i < old(program).funcs.len() ==> narrowable((#[trigger] old(program).funcs[i]).sem()),
    ensures
        final(program).funcs.len() == old(program).funcs.len(),
        forall|i: int|
            0 <= i < old(program).funcs.len() ==> (#[trigger] final(program).funcs[i]).sem()
                == applied(old(program).funcs[i].sem()),
        final(program).recursive == old(program).recursive,
        final(program).boxed == old(program).boxed,
        final(program).pure_natives == old(program).pure_natives,
        final(program).inlined == old(program).inlined,
{
    let mut i: usize = 0;
    while i < program.funcs.len()
        invariant
            i <= program.funcs.len() == old(program).funcs.len(),
            forall|k: int|
                0 <= k < old(program).funcs.len() ==> narrowable(
                    (#[trigger] old(program).funcs[k]).sem(),
                ),
            forall|k: int|
                0 <= k < i ==> (#[trigger] program.funcs[k]).sem() == applied(
                    old(program).funcs[k].sem(),
                ),
            forall|k: int|
                i <= k < program.funcs.len() ==> #[trigger] program.funcs[k]
                    == old(program).funcs[k],
            program.recursive == old(program).recursive,
            program.boxed == old(program).boxed,
            program.pure_natives == old(program).pure_natives,
            program.inlined == old(program).inlined,
        decreases program.funcs.len() - i,
    {
        assert(program.funcs[i as int] == old(program).funcs[i as int]);
        apply_fn(&mut program.funcs[i]);
        i += 1;
    }
}

/// Which field a per-field store names: the constant that its third argument is defined as.
pub open spec fn named_position(f: SFunc, symbol: Seq<char>, args: Seq<Value>) -> Option<int> {
    if symbol != set_field_inplace() || args.len() != 4 {
        None
    } else {
        match const_of(f, args[2]) {
            Some(n) => if 0 <= n <= usize::MAX {
                Some(n as int)
            } else {
                None
            },
            None => None,
        }
    }
}

/// Which field position a per-field store names, if that is what the native is.
pub fn field_position(f: &Func, symbol: &str, args: &Vec<Value>) -> (r: Option<usize>)
    ensures
        match r {
            Some(n) => named_position(f.sem(), symbol@, args@) == Some(n as int),
            None => named_position(f.sem(), symbol@, args@) is None,
        },
{
    if !str_eq(symbol, "neon_list_set_field_inplace") || args.len() != 4 {
        return None;
    }
    match const_value(f, args[2]) {
        Some(n) => if n >= 0 && n as u64 <= usize::MAX as u64 {
            Some(n as usize)
        } else {
            None
        },
        None => None,
    }
}

} // verus!
