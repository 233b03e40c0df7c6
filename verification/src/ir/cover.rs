//! Bounds checks that an earlier check covers.
//!
//! Where a loop reads two lists at the same subscript, the check of the first read can
//! serve the second. Before the loop it is computed once whether the second list is at
//! least as long as the first. The second read then carries that flag: where it holds, the
//! check could not have failed, and where it does not, the read is checked as before. So
//! nothing about where a program traps changes.
//!
//! The covering read must come first on every path, at the very same index, and its own
//! check must be unconditional. Both lists must be bound before the loop, so that their
//! lengths stay put, and the loop must have one way in to put the test on.

use super::cfg::{cfg, dominates, has, in_loop, is_latch, loop_body, preds};
use super::graph::{adj, edge};
use super::partial::{bound_in, flow_of, flow_wf, is_bound_in, Flow};
use super::repr::{Repr, SRepr};
use super::ssa::{
    block_in_range, blocks_wf, inst_in_range, operands, term_in_range, values_wf, Func,
    Inst, Op, PrimOp, Program, SBlock, SFunc, SInst, SOp, SValueData, Value,
};
use crate::syntax::{sems, Node};
use vstd::prelude::*;

pub mod laws;

verus! {

/// A checked read of a list, and where it stands.
#[derive(Clone, Copy)]
pub struct Access {
    pub block: usize,
    pub at: usize,
    pub base: Value,
    pub index: Value,
}

/// A read to cover: by the fact, computed at the end of `preheader`, that `base` is at least
/// as long as `coverer`.
#[derive(Clone, Copy)]
pub struct Plan {
    pub block: usize,
    pub at: usize,
    pub base: Value,
    pub coverer: Value,
    /// Where the read stands whose check covers it.
    pub by: (usize, usize),
    pub preheader: usize,
    pub index: Value,
}

/// A test already put at the end of a block, and the flag that it defines.
#[derive(Clone, Copy)]
pub struct Test {
    pub preheader: usize,
    pub coverer: Value,
    pub base: Value,
    pub flag: Value,
}

// ---- what to cover ----

/// The read that an instruction is, if it is a checked read of a list.
pub open spec fn access_at(f: SFunc, b: int, k: int) -> Option<Access> {
    match f.blocks[b].insts[k].op {
        SOp::Index { base, index, covered: None } => if f.values[base.0 as int].repr is List {
            Some(Access { block: b as usize, at: k as usize, base, index })
        } else {
            None
        },
        _ => None,
    }
}

/// The checked reads among the first `n` instructions of a block.
pub open spec fn accesses_in(f: SFunc, b: int, n: int) -> Seq<Access>
    decreases n,
{
    if n <= 0 {
        seq![]
    } else {
        match access_at(f, b, n - 1) {
            Some(a) => accesses_in(f, b, n - 1).push(a),
            None => accesses_in(f, b, n - 1),
        }
    }
}

/// The checked reads in the loop of a header, among the first `n` blocks.
pub open spec fn accesses(f: SFunc, header: int, n: int) -> Seq<Access>
    decreases n,
{
    if n <= 0 {
        seq![]
    } else if in_loop(cfg(f), f.entry.0 as int, header, n - 1) {
        accesses(f, header, n - 1) + accesses_in(f, n - 1, f.blocks[n - 1].insts.len() as int)
    } else {
        accesses(f, header, n - 1)
    }
}

/// The last of the first `n` blocks that binds `v`, or else the entry for a parameter of the
/// function.
pub open spec fn binder(f: SFunc, v: Value, n: int) -> Option<int>
    decreases n,
{
    if n <= 0 {
        if f.params.contains(v) {
            Some(f.entry.0 as int)
        } else {
            None
        }
    } else if bound_in(f.blocks[n - 1], v) {
        Some(n - 1)
    } else {
        binder(f, v, n - 1)
    }
}

/// Whether a value is bound before a loop and stays as it is throughout.
pub open spec fn available(f: SFunc, header: int, preheader: int, v: Value) -> bool {
    &&& forall|b: int|
        0 <= b < f.blocks.len() && in_loop(cfg(f), f.entry.0 as int, header, b) ==> !bound_in(
            #[trigger] f.blocks[b],
            v,
        )
    &&& match binder(f, v, f.blocks.len() as int) {
        Some(d) => dominates(cfg(f), f.entry.0 as int, d, preheader),
        None => false,
    }
}

/// Whether one read has been made wherever another is.
pub open spec fn comes_first(f: SFunc, a: Access, b: Access) -> bool {
    if a.block == b.block {
        a.at < b.at
    } else {
        dominates(cfg(f), f.entry.0 as int, a.block as int, b.block as int)
    }
}

/// Whether a read is to be covered already.
pub open spec fn taken(plans: Seq<Plan>, a: Access) -> bool {
    exists|i: int|
        0 <= i < plans.len() && (#[trigger] plans[i]).block == a.block && plans[i].at == a.at
}

/// Whether the check of a read covers that of another already.
pub open spec fn serves(plans: Seq<Plan>, a: Access) -> bool {
    exists|i: int| 0 <= i < plans.len() && (#[trigger] plans[i]).by == (a.block, a.at)
}

/// Whether the check of read `a` covers that of read `b`. One that went conditional covers
/// nothing.
pub open spec fn covers(
    f: SFunc,
    header: int,
    preheader: int,
    plans: Seq<Plan>,
    a: Access,
    b: Access,
) -> bool {
    &&& a.base != b.base
    &&& a.index == b.index
    &&& !taken(plans, a)
    &&& comes_first(f, a, b)
    &&& available(f, header, preheader, a.base)
}

/// The first read from `k` on that covers `b`.
pub open spec fn coverer_from(
    f: SFunc,
    header: int,
    preheader: int,
    plans: Seq<Plan>,
    xs: Seq<Access>,
    b: Access,
    k: int,
) -> Option<int>
    decreases xs.len() - k,
{
    if k >= xs.len() {
        None
    } else if covers(f, header, preheader, plans, xs[k], b) {
        Some(k)
    } else {
        coverer_from(f, header, preheader, plans, xs, b, k + 1)
    }
}

/// The plans with the first `n` reads of a loop looked at.
pub open spec fn plans_in(
    f: SFunc,
    header: int,
    preheader: int,
    plans: Seq<Plan>,
    xs: Seq<Access>,
    n: int,
) -> Seq<Plan>
    decreases n,
{
    if n <= 0 {
        plans
    } else {
        let ps = plans_in(f, header, preheader, plans, xs, n - 1);
        let b = xs[n - 1];
        let found = coverer_from(f, header, preheader, ps, xs, b, 0);
        if !taken(ps, b) && !serves(ps, b) && available(f, header, preheader, b.base)
            && found is Some {
            ps.push(
                (Plan {
                    block: b.block,
                    at: b.at,
                    base: b.base,
                    coverer: xs[found->0].base,
                    by: (xs[found->0].block, xs[found->0].at),
                    preheader: preheader as usize,
                    index: b.index,
                }),
            )
        } else {
            ps
        }
    }
}

/// Whether a block is the header of a loop.
pub open spec fn is_header(f: SFunc, h: int) -> bool {
    exists|l: int| 0 <= l < f.blocks.len() && #[trigger] is_latch(cfg(f), f.entry.0 as int, h, l)
}

/// Of the first `n` edges to a header, the blocks that they come from outside its loop.
pub open spec fn entering(f: SFunc, header: int, n: int) -> Seq<usize>
    decreases n,
{
    if n <= 0 {
        seq![]
    } else {
        let p = preds(cfg(f))[header][n - 1];
        if in_loop(cfg(f), f.entry.0 as int, header, p as int) {
            entering(f, header, n - 1)
        } else {
            entering(f, header, n - 1).push(p)
        }
    }
}

/// The block that a loop is entered from, if there is one edge into it.
pub open spec fn preheader_of(f: SFunc, header: int) -> Option<usize> {
    let from = entering(f, header, preds(cfg(f))[header].len() as int);
    if from.len() == 1 {
        Some(from[0])
    } else {
        None
    }
}

/// The plans for the loops of the first `n` blocks.
pub open spec fn plans(f: SFunc, n: int) -> Seq<Plan>
    decreases n,
{
    if n <= 0 {
        seq![]
    } else {
        let ps = plans(f, n - 1);
        match preheader_of(f, n - 1) {
            Some(p) => if is_header(f, n - 1) {
                let xs = accesses(f, n - 1, f.blocks.len() as int);
                plans_in(f, n - 1, p as int, ps, xs, xs.len() as int)
            } else {
                ps
            },
            None => ps,
        }
    }
}

// ---- covering it ----

/// The flag of the first test from `k` on that serves a plan.
pub open spec fn flag_from(ts: Seq<Test>, p: Plan, k: int) -> Option<Value>
    decreases ts.len() - k,
{
    if k >= ts.len() {
        None
    } else if ts[k].preheader == p.preheader && ts[k].coverer == p.coverer && ts[k].base == p.base {
        Some(ts[k].flag)
    } else {
        flag_from(ts, p, k + 1)
    }
}

/// The test that a plan needs: both lengths, and whether the one is at least the other.
pub open spec fn test_of(p: Plan, next: int) -> Seq<SInst> {
    seq![
        SInst {
            result: Some(Value(next as u32)),
            op: SOp::Native { symbol: "neon_list_len"@, args: seq![p.coverer] },
        },
        SInst {
            result: Some(Value((next + 1) as u32)),
            op: SOp::Native { symbol: "neon_list_len"@, args: seq![p.base] },
        },
        SInst {
            result: Some(Value((next + 2) as u32)),
            op: SOp::Prim(PrimOp::Ge, seq![Value((next + 1) as u32), Value(next as u32)]),
        },
    ]
}

/// A function with the test of a plan put at the end of its preheader.
pub open spec fn with_test(f: SFunc, p: Plan) -> SFunc {
    let ty = f.values[p.index.0 as int].ty;
    let b = f.blocks[p.preheader as int];
    SFunc {
        blocks: f.blocks.update(
            p.preheader as int,
            SBlock { insts: b.insts + test_of(p, f.values.len() as int), ..b },
        ),
        values: f.values + seq![
            SValueData { repr: SRepr::I64, ty },
            SValueData { repr: SRepr::I64, ty },
            SValueData { repr: SRepr::Bool, ty },
        ],
        ..f
    }
}

/// An instruction that carries a flag, if it reads a list.
pub open spec fn flagged(i: SInst, flag: Value) -> SInst {
    match i.op {
        SOp::Index { base, index, .. } => SInst {
            op: SOp::Index { base, index, covered: Some(flag) },
            ..i
        },
        _ => i,
    }
}

/// A function with the read of a plan covered by a flag.
pub open spec fn with_flag(f: SFunc, p: Plan, flag: Value) -> SFunc {
    let b = f.blocks[p.block as int];
    SFunc {
        blocks: f.blocks.update(
            p.block as int,
            SBlock { insts: b.insts.update(p.at as int, flagged(b.insts[p.at as int], flag)), ..b },
        ),
        ..f
    }
}

/// A function with the first `n` plans carried out, and the tests that they took. One test
/// serves every read of the same list under the same cover.
pub open spec fn carried_out(f: SFunc, ps: Seq<Plan>, n: int) -> (SFunc, Seq<Test>)
    decreases n,
{
    if n <= 0 {
        (f, seq![])
    } else {
        let (g, ts) = carried_out(f, ps, n - 1);
        let p = ps[n - 1];
        match flag_from(ts, p, 0) {
            Some(flag) => (with_flag(g, p, flag), ts),
            None => {
                let flag = Value((g.values.len() + 2) as u32);
                let t = Test {
                    preheader: p.preheader,
                    coverer: p.coverer,
                    base: p.base,
                    flag,
                };
                (with_flag(with_test(g, p), p, flag), ts.push(t))
            },
        }
    }
}

/// A function with every check covered that can be.
pub open spec fn covered(f: SFunc) -> SFunc {
    let ps = plans(f, f.blocks.len() as int);
    carried_out(f, ps, ps.len() as int).0
}

/// What covering takes: a well-formed function, and numbers left for the values it mints.
pub open spec fn coverable(f: SFunc) -> bool {
    &&& blocks_wf(f)
    &&& values_wf(f)
    &&& covered(f).values.len() <= u32::MAX
}

// ---- finding it ----

fn accesses_of(f: &Func, body: &Vec<bool>, Ghost(header): Ghost<int>) -> (xs: Vec<Access>)
    requires
        blocks_wf(f.sem()),
        values_wf(f.sem()),
        body.len() == f.blocks.len(),
        forall|b: int|
            0 <= b < body.len() ==> #[trigger] body[b] == in_loop(
                cfg(f.sem()),
                f.entry.0 as int,
                header,
                b,
            ),
    ensures
        xs@ == accesses(f.sem(), header, f.blocks.len() as int),
        accesses_wf(f.sem(), xs@),
{
    let ghost s = f.sem();
    let mut xs: Vec<Access> = Vec::new();
    let mut b: usize = 0;
    while b < f.blocks.len()
        invariant
            b <= f.blocks.len(),
            s == f.sem(),
            blocks_wf(s),
            values_wf(s),
            body.len() == f.blocks.len(),
            forall|b: int|
                0 <= b < body.len() ==> #[trigger] body[b] == in_loop(
                    cfg(f.sem()),
                    f.entry.0 as int,
                    header,
                    b,
                ),
            xs@ == accesses(s, header, b as int),
            accesses_wf(s, xs@),
        decreases f.blocks.len() - b,
    {
        assert(s.blocks[b as int] == f.blocks[b as int].sem());
        if body[b] {
            let ghost before = xs@;
            let insts = &f.blocks[b].insts;
            assert(s.blocks[b as int].insts == sems(insts@));
            let mut k: usize = 0;
            assert(xs@ =~= before + accesses_in(s, b as int, 0));
            while k < insts.len()
                invariant
                    k <= insts.len(),
                    b < f.blocks.len(),
                    s == f.sem(),
                    values_wf(s),
                    s.blocks[b as int].insts == sems(insts@),
                    xs@ == before + accesses_in(s, b as int, k as int),
                    accesses_wf(s, xs@),
                decreases insts.len() - k,
            {
                assert(s.blocks[b as int].insts[k as int] == insts[k as int].sem());
                if let Op::Index { base, index, covered: None } = insts[k].op {
                    let ghost op = s.blocks[b as int].insts[k as int].op;
                    assert(op == SOp::Index { base, index, covered: None });
                    assert(inst_in_range(
                        s.blocks[b as int].insts[k as int],
                        s.values.len(),
                    ));
                    assert(operands(op)[0] == base);
                    assert(operands(op)[1] == index);
                    assert(f.sem().values[base.0 as int].repr
                        == f.values[base.0 as int].repr.sem());
                    let is_list = match &f.values[base.0 as usize].repr {
                        Repr::List(_) => true,
                        _ => false,
                    };
                    if is_list {
                        xs.push(Access { block: b, at: k, base, index });
                    }
                }
                k += 1;
                assert(xs@ =~= before + accesses_in(s, b as int, k as int));
            }
        }
        b += 1;
    }
    xs
}

/// Reads that stand where they say, of values that the function has.
spec fn accesses_wf(f: SFunc, xs: Seq<Access>) -> bool {
    forall|i: int|
        0 <= i < xs.len() ==> (#[trigger] xs[i]).block < f.blocks.len() && xs[i].at
            < f.blocks[xs[i].block as int].insts.len() && xs[i].index.0 < f.values.len()
            && xs[i].base.0 < f.values.len()
}

spec fn plans_wf(f: SFunc, ps: Seq<Plan>) -> bool {
    forall|i: int|
        0 <= i < ps.len() ==> (#[trigger] ps[i]).block < f.blocks.len() && ps[i].at
            < f.blocks[ps[i].block as int].insts.len() && ps[i].index.0 < f.values.len()
            && ps[i].preheader < f.blocks.len() && ps[i].base.0 < f.values.len() && ps[i].coverer.0
            < f.values.len()
}

fn binder_of(f: &Func, v: Value) -> (r: Option<usize>)
    requires
        blocks_wf(f.sem()),
    ensures
        match r {
            Some(d) => binder(f.sem(), v, f.blocks.len() as int) == Some(d as int) && d
                < f.blocks.len(),
            None => binder(f.sem(), v, f.blocks.len() as int) is None,
        },
{
    let ghost s = f.sem();
    let mut n: usize = f.blocks.len();
    while n > 0
        invariant
            n <= f.blocks.len(),
            s == f.sem(),
            binder(s, v, f.blocks.len() as int) == binder(s, v, n as int),
        decreases n,
    {
        assert(s.blocks[n - 1] == f.blocks[n - 1].sem());
        if is_bound_in(&f.blocks[n - 1], v) {
            return Some(n - 1);
        }
        n -= 1;
    }
    let mut k: usize = 0;
    while k < f.params.len()
        invariant
            k <= f.params.len(),
            s == f.sem(),
            blocks_wf(s),
            binder(s, v, f.blocks.len() as int) == binder(s, v, 0),
            forall|j: int| 0 <= j < k ==> #[trigger] f.params[j] != v,
        decreases f.params.len() - k,
    {
        if f.params[k] == v {
            assert(s.params[k as int] == v);
            return Some(f.entry.0 as usize);
        }
        k += 1;
    }
    None
}

fn is_available(
    f: &Func,
    x: &Flow,
    body: &Vec<bool>,
    Ghost(header): Ghost<int>,
    preheader: usize,
    v: Value,
) -> (r: bool)
    requires
        flow_wf(*x, f.sem()),
        preheader < f.blocks.len(),
        body.len() == f.blocks.len(),
        forall|b: int|
            0 <= b < body.len() ==> #[trigger] body[b] == in_loop(
                cfg(f.sem()),
                f.entry.0 as int,
                header,
                b,
            ),
    ensures
        r == available(f.sem(), header, preheader as int, v),
{
    let ghost s = f.sem();
    let mut b: usize = 0;
    while b < f.blocks.len()
        invariant
            b <= f.blocks.len(),
            s == f.sem(),
            body.len() == f.blocks.len(),
            forall|b: int|
                0 <= b < body.len() ==> #[trigger] body[b] == in_loop(
                    cfg(f.sem()),
                    f.entry.0 as int,
                    header,
                    b,
                ),
            forall|c: int|
                0 <= c < b && in_loop(cfg(s), s.entry.0 as int, header, c) ==> !bound_in(
                    #[trigger] s.blocks[c],
                    v,
                ),
        decreases f.blocks.len() - b,
    {
        assert(s.blocks[b as int] == f.blocks[b as int].sem());
        if body[b] && is_bound_in(&f.blocks[b], v) {
            assert(bound_in(s.blocks[b as int], v));
            return false;
        }
        b += 1;
    }
    match binder_of(f, v) {
        Some(d) => {
            assert(x.dom[d as int]@[preheader as int] == dominates(
                cfg(s),
                s.entry.0 as int,
                d as int,
                preheader as int,
            ));
            x.dom[d][preheader]
        },
        None => false,
    }
}

fn is_taken(plans: &Vec<Plan>, a: &Access) -> (r: bool)
    ensures
        r == taken(plans@, *a),
{
    let mut i: usize = 0;
    while i < plans.len()
        invariant
            i <= plans.len(),
            forall|k: int|
                0 <= k < i ==> !((#[trigger] plans[k]).block == a.block && plans[k].at == a.at),
        decreases plans.len() - i,
    {
        if plans[i].block == a.block && plans[i].at == a.at {
            assert(plans@[i as int].block == a.block);
            return true;
        }
        i += 1;
    }
    false
}

fn is_serving(plans: &Vec<Plan>, a: &Access) -> (r: bool)
    ensures
        r == serves(plans@, *a),
{
    let mut i: usize = 0;
    while i < plans.len()
        invariant
            i <= plans.len(),
            forall|k: int| 0 <= k < i ==> (#[trigger] plans[k]).by != (a.block, a.at),
        decreases plans.len() - i,
    {
        if plans[i].by.0 == a.block && plans[i].by.1 == a.at {
            assert(plans@[i as int].by == (a.block, a.at));
            return true;
        }
        i += 1;
    }
    false
}

fn coverer_of(
    f: &Func,
    x: &Flow,
    body: &Vec<bool>,
    Ghost(header): Ghost<int>,
    preheader: usize,
    plans: &Vec<Plan>,
    xs: &Vec<Access>,
    b: &Access,
) -> (r: Option<usize>)
    requires
        flow_wf(*x, f.sem()),
        preheader < f.blocks.len(),
        body.len() == f.blocks.len(),
        forall|b: int|
            0 <= b < body.len() ==> #[trigger] body[b] == in_loop(
                cfg(f.sem()),
                f.entry.0 as int,
                header,
                b,
            ),
        accesses_wf(f.sem(), xs@),
        b.block < f.blocks.len(),
    ensures
        match r {
            Some(k) => k < xs.len() && coverer_from(
                f.sem(),
                header,
                preheader as int,
                plans@,
                xs@,
                *b,
                0,
            ) == Some(k as int),
            None => coverer_from(f.sem(), header, preheader as int, plans@, xs@, *b, 0) is None,
        },
{
    let ghost s = f.sem();
    let mut k: usize = 0;
    while k < xs.len()
        invariant
            k <= xs.len(),
            s == f.sem(),
            flow_wf(*x, s),
            preheader < f.blocks.len(),
            body.len() == f.blocks.len(),
            forall|b: int|
                0 <= b < body.len() ==> #[trigger] body[b] == in_loop(
                    cfg(f.sem()),
                    f.entry.0 as int,
                    header,
                    b,
                ),
            accesses_wf(s, xs@),
            b.block < f.blocks.len(),
            coverer_from(s, header, preheader as int, plans@, xs@, *b, 0) == coverer_from(
                s,
                header,
                preheader as int,
                plans@,
                xs@,
                *b,
                k as int,
            ),
        decreases xs.len() - k,
    {
        let a = xs[k];
        assert(a == xs@[k as int]);
        if a.base != b.base && a.index == b.index && !is_taken(plans, &a) && (if a.block
            == b.block {
            a.at < b.at
        } else {
            assert(x.dom[a.block as int]@[b.block as int] == dominates(
                cfg(s),
                s.entry.0 as int,
                a.block as int,
                b.block as int,
            ));
            x.dom[a.block][b.block]
        }) && is_available(f, x, body, Ghost(header), preheader, a.base) {
            return Some(k);
        }
        k += 1;
    }
    None
}

/// Look at every read of one loop.
fn plan_loop(
    f: &Func,
    x: &Flow,
    body: &Vec<bool>,
    Ghost(header): Ghost<int>,
    preheader: usize,
    plans: &mut Vec<Plan>,
)
    requires
        flow_wf(*x, f.sem()),
        values_wf(f.sem()),
        preheader < f.blocks.len(),
        body.len() == f.blocks.len(),
        forall|b: int|
            0 <= b < body.len() ==> #[trigger] body[b] == in_loop(
                cfg(f.sem()),
                f.entry.0 as int,
                header,
                b,
            ),
        plans_wf(f.sem(), old(plans)@),
    ensures
        final(plans)@ == plans_in(
            f.sem(),
            header,
            preheader as int,
            old(plans)@,
            accesses(f.sem(), header, f.blocks.len() as int),
            accesses(f.sem(), header, f.blocks.len() as int).len() as int,
        ),
        plans_wf(f.sem(), final(plans)@),
{
    let ghost s = f.sem();
    let ghost ps0 = plans@;
    let xs = accesses_of(f, body, Ghost(header));
    let mut j: usize = 0;
    while j < xs.len()
        invariant
            j <= xs.len(),
            s == f.sem(),
            flow_wf(*x, s),
            preheader < f.blocks.len(),
            s.blocks.len() == f.blocks.len(),
            body.len() == f.blocks.len(),
            forall|b: int|
                0 <= b < body.len() ==> #[trigger] body[b] == in_loop(
                    cfg(f.sem()),
                    f.entry.0 as int,
                    header,
                    b,
                ),
            accesses_wf(s, xs@),
            plans_wf(s, plans@),
            plans@ == plans_in(s, header, preheader as int, ps0, xs@, j as int),
        decreases xs.len() - j,
    {
        let b = xs[j];
        assert(b == xs@[j as int]);
        if !is_taken(plans, &b) && !is_serving(plans, &b) && is_available(f, x, body, Ghost(header), preheader, b.base) {
            match coverer_of(f, x, body, Ghost(header), preheader, plans, &xs, &b) {
                Some(k) => {
                    plans.push(
                        Plan {
                            block: b.block,
                            at: b.at,
                            base: b.base,
                            coverer: xs[k].base,
                            by: (xs[k].block, xs[k].at),
                            preheader,
                            index: b.index,
                        },
                    );
                },
                None => {},
            }
        }
        j += 1;
    }
}

fn closes_loop(f: &Func, x: &Flow, h: usize) -> (r: bool)
    requires
        flow_wf(*x, f.sem()),
        h < f.blocks.len(),
    ensures
        r == is_header(f.sem(), h as int),
{
    let ghost s = f.sem();
    let mut l: usize = 0;
    while l < f.blocks.len()
        invariant
            l <= f.blocks.len(),
            s == f.sem(),
            s.blocks.len() == f.blocks.len(),
            flow_wf(*x, s),
            h < f.blocks.len(),
            forall|k: int|
                0 <= k < l ==> !(#[trigger] is_latch(cfg(s), s.entry.0 as int, h as int, k)),
        decreases f.blocks.len() - l,
    {
        assert(x.dom[h as int]@[l as int] == dominates(
            cfg(s),
            s.entry.0 as int,
            h as int,
            l as int,
        ));
        assert(cfg(s)[l as int] == x.g[l as int]@);
        if has(&x.g[l], h) && x.dom[h][l] {
            assert(edge(cfg(s), l as int, h as int));
            assert(is_latch(cfg(s), s.entry.0 as int, h as int, l as int));
            return true;
        }
        assert(!is_latch(cfg(s), s.entry.0 as int, h as int, l as int));
        l += 1;
    }
    false
}

fn single_entry(f: &Func, x: &Flow, body: &Vec<bool>, header: usize) -> (r: Option<usize>)
    requires
        flow_wf(*x, f.sem()),
        header < f.blocks.len(),
        body.len() == f.blocks.len(),
        forall|b: int|
            0 <= b < body.len() ==> #[trigger] body[b] == in_loop(
                cfg(f.sem()),
                f.entry.0 as int,
                header as int,
                b,
            ),
    ensures
        r == preheader_of(f.sem(), header as int),
        r matches Some(p) ==> p < f.blocks.len(),
{
    let ghost s = f.sem();
    let ps = &x.back[header];
    assert(adj(x.back@)[header as int] == ps@);
    let mut from: Vec<usize> = Vec::new();
    let mut k: usize = 0;
    while k < ps.len()
        invariant
            k <= ps.len(),
            s == f.sem(),
            flow_wf(*x, s),
            header < f.blocks.len(),
            s.blocks.len() == f.blocks.len(),
            body.len() == f.blocks.len(),
            forall|b: int|
                0 <= b < body.len() ==> #[trigger] body[b] == in_loop(
                    cfg(f.sem()),
                    f.entry.0 as int,
                    header as int,
                    b,
                ),
            adj(x.back@)[header as int] == ps@,
            from@ == entering(s, header as int, k as int),
            forall|i: int| 0 <= i < from.len() ==> (#[trigger] from[i]) < f.blocks.len(),
        decreases ps.len() - k,
    {
        let p: usize = ps[k];
        assert(adj(x.back@)[header as int][k as int] < adj(x.back@).len());
        assert(preds(cfg(s))[header as int][k as int] == p);
        if !body[p] {
            from.push(p);
        }
        k += 1;
    }
    if from.len() == 1 {
        Some(from[0])
    } else {
        None
    }
}

fn plans_of(f: &Func) -> (ps: Vec<Plan>)
    requires
        blocks_wf(f.sem()),
        values_wf(f.sem()),
    ensures
        ps@ == plans(f.sem(), f.blocks.len() as int),
        plans_wf(f.sem(), ps@),
{
    let ghost s = f.sem();
    let x = flow_of(f);
    let mut ps: Vec<Plan> = Vec::new();
    let mut h: usize = 0;
    while h < f.blocks.len()
        invariant
            h <= f.blocks.len(),
            s == f.sem(),
            s.blocks.len() == f.blocks.len(),
            flow_wf(x, s),
            values_wf(s),
            ps@ == plans(s, h as int),
            plans_wf(s, ps@),
        decreases f.blocks.len() - h,
    {
        if closes_loop(f, &x, h) {
            let body = loop_body(&x.g, &x.back, &x.dom, f.entry.0 as usize, h);
            match single_entry(f, &x, &body, h) {
                Some(p) => plan_loop(f, &x, &body, Ghost(h as int), p, &mut ps),
                None => {},
            }
        }
        h += 1;
    }
    ps
}

// ---- carrying it out ----

fn flag_for(ts: &Vec<Test>, p: &Plan) -> (r: Option<Value>)
    ensures
        r == flag_from(ts@, *p, 0),
{
    let mut k: usize = 0;
    while k < ts.len()
        invariant
            k <= ts.len(),
            flag_from(ts@, *p, 0) == flag_from(ts@, *p, k as int),
        decreases ts.len() - k,
    {
        let t = ts[k];
        assert(t == ts@[k as int]);
        if t.preheader == p.preheader && t.coverer == p.coverer && t.base == p.base {
            return Some(t.flag);
        }
        k += 1;
    }
    None
}

fn length_of(list: Value, result: Value) -> (i: Inst)
    ensures
        i.sem() == (SInst {
            result: Some(result),
            op: SOp::Native { symbol: "neon_list_len"@, args: seq![list] },
        }),
{
    let mut args: Vec<Value> = Vec::new();
    args.push(list);
    assert(args@ =~= seq![list]);
    let op = Op::Native { symbol: "neon_list_len".to_owned(), args };
    assert(op.sem() == SOp::Native { symbol: "neon_list_len"@, args: seq![list] });
    Inst { result: Some(result), op }
}

fn at_least(a: Value, b: Value, result: Value) -> (i: Inst)
    ensures
        i.sem() == (SInst { result: Some(result), op: SOp::Prim(PrimOp::Ge, seq![a, b]) }),
{
    let mut args: Vec<Value> = Vec::new();
    args.push(a);
    args.push(b);
    assert(args@ =~= seq![a, b]);
    let op = Op::Prim(PrimOp::Ge, args);
    assert(op.sem() == SOp::Prim(PrimOp::Ge, seq![a, b]));
    Inst { result: Some(result), op }
}

/// Put the test of a plan at the end of its preheader; gives the flag.
fn put_test(f: &mut Func, p: &Plan) -> (flag: Value)
    requires
        p.preheader < old(f).blocks.len(),
        p.index.0 < old(f).values.len(),
        old(f).values.len() + 3 <= u32::MAX,
    ensures
        final(f).sem() == with_test(old(f).sem(), *p),
        flag == Value((old(f).sem().values.len() + 2) as u32),
        final(f).blocks.len() == old(f).blocks.len(),
        final(f).values.len() == old(f).values.len() + 3,
{
    let ghost f0 = f.sem();
    assert(f0.values.len() == f.values.len());
    let ty = f.value_ty(p.index);
    let l1 = f.new_value(Repr::I64, ty);
    let l2 = f.new_value(Repr::I64, ty);
    let c = f.new_value(Repr::Bool, ty);
    assert(Repr::I64.sem() == SRepr::I64);
    assert(Repr::Bool.sem() == SRepr::Bool);
    let ghost f1 = f.sem();
    assert(f1.values =~= with_test(f0, *p).values);
    let ghost b0 = f.blocks[p.preheader as int];
    assert(f1.blocks[p.preheader as int] == b0.sem());
    let i1 = length_of(p.coverer, l1);
    let i2 = length_of(p.base, l2);
    let i3 = at_least(l2, l1, c);
    f.blocks[p.preheader].insts.push(i1);
    f.blocks[p.preheader].insts.push(i2);
    f.blocks[p.preheader].insts.push(i3);
    let ghost b1 = f.blocks[p.preheader as int];
    assert(sems(b1.insts@) =~= sems(b0.insts@) + test_of(*p, f0.values.len() as int));
    assert(b1.sem() == SBlock {
        insts: b0.sem().insts + test_of(*p, f0.values.len() as int),
        ..b0.sem()
    });
    assert(f.sem().blocks =~= with_test(f0, *p).blocks);
    c
}

/// Let the read of a plan carry a flag.
fn put_flag(f: &mut Func, p: &Plan, flag: Value)
    requires
        p.block < old(f).blocks.len(),
        p.at < old(f).blocks[p.block as int].insts.len(),
    ensures
        final(f).sem() == with_flag(old(f).sem(), *p, flag),
        final(f).blocks.len() == old(f).blocks.len(),
        final(f).values == old(f).values,
{
    let ghost f0 = f.sem();
    let ghost b0 = f.blocks[p.block as int];
    let ghost i0 = b0.insts[p.at as int];
    assert(f0.blocks[p.block as int] == b0.sem());
    assert(b0.sem().insts[p.at as int] == i0.sem());
    let result = f.blocks[p.block].insts[p.at].result;
    let found: Option<(Value, Value)> = match &f.blocks[p.block].insts[p.at].op {
        Op::Index { base, index, .. } => Some((*base, *index)),
        _ => None,
    };
    match found {
        Some((base, index)) => {
            let i = Inst { result, op: Op::Index { base, index, covered: Some(flag) } };
            assert(i.sem() == flagged(i0.sem(), flag));
            f.blocks[p.block].insts[p.at] = i;
            let ghost b1 = f.blocks[p.block as int];
            assert(sems(b1.insts@) =~= b0.sem().insts.update(p.at as int, flagged(i0.sem(), flag)));
            assert(b1.sem() == SBlock {
                insts: b0.sem().insts.update(p.at as int, flagged(i0.sem(), flag)),
                ..b0.sem()
            });
            assert(f.sem().blocks =~= with_flag(f0, *p, flag).blocks);
        },
        None => {
            assert(flagged(i0.sem(), flag) == i0.sem());
            assert(b0.sem().insts.update(p.at as int, i0.sem()) =~= b0.sem().insts);
            assert(f.sem().blocks =~= with_flag(f0, *p, flag).blocks);
        },
    }
}

/// The blocks keep their instructions' places, and values are only added.
proof fn lemma_room(f: SFunc, ps: Seq<Plan>, n: int)
    requires
        0 <= n <= ps.len(),
        plans_wf(f, ps),
    ensures
        carried_out(f, ps, n).0.blocks.len() == f.blocks.len(),
        forall|b: int|
            0 <= b < f.blocks.len() ==> (#[trigger] carried_out(f, ps, n).0.blocks[b]).insts.len()
                >= f.blocks[b].insts.len(),
        carried_out(f, ps, n).0.values.len() >= f.values.len(),
    decreases n,
{
    if n > 0 {
        lemma_room(f, ps, n - 1);
        let (g, ts) = carried_out(f, ps, n - 1);
        assert forall|b: int| 0 <= b < f.blocks.len() implies (#[trigger] carried_out(
            f,
            ps,
            n,
        ).0.blocks[b]).insts.len() >= f.blocks[b].insts.len() by {
            assert(g.blocks[b].insts.len() >= f.blocks[b].insts.len());
        }
    }
}

proof fn lemma_values_grow(f: SFunc, ps: Seq<Plan>, m: int, n: int)
    requires
        0 <= m <= n <= ps.len(),
    ensures
        carried_out(f, ps, m).0.values.len() <= carried_out(f, ps, n).0.values.len(),
    decreases n,
{
    if m < n {
        lemma_values_grow(f, ps, m, n - 1);
    }
}

/// The flags of tests are values that a function has.
spec fn flags_below(ts: Seq<Test>, n: nat) -> bool {
    forall|i: int| 0 <= i < ts.len() ==> (#[trigger] ts[i]).flag.0 < n
}

proof fn lemma_flag_below(ts: Seq<Test>, p: Plan, k: int, n: nat)
    requires
        0 <= k,
        flags_below(ts, n),
    ensures
        flag_from(ts, p, k) matches Some(v) ==> v.0 < n,
    decreases ts.len() - k,
{
    if k < ts.len() {
        lemma_flag_below(ts, p, k + 1, n);
    }
}

proof fn lemma_flag_wf(f: SFunc, p: Plan, flag: Value)
    requires
        blocks_wf(f),
        values_wf(f),
        p.block < f.blocks.len(),
        p.at < f.blocks[p.block as int].insts.len(),
        flag.0 < f.values.len(),
    ensures
        blocks_wf(with_flag(f, p, flag)),
        values_wf(with_flag(f, p, flag)),
{
    let g = with_flag(f, p, flag);
    let n = f.values.len();
    assert forall|b: int| 0 <= b < g.blocks.len() implies block_in_range(
        #[trigger] g.blocks[b],
        n,
    ) by {
        let (x, y) = (f.blocks[b], g.blocks[b]);
        assert(block_in_range(x, n));
        assert forall|k: int| 0 <= k < y.insts.len() implies inst_in_range(
            #[trigger] y.insts[k],
            n,
        ) by {
            assert(inst_in_range(x.insts[k], n));
            if b == p.block && k == p.at {
                if let SOp::Index { base, index, .. } = x.insts[k].op {
                    assert(operands(x.insts[k].op)[0] == base);
                    assert(operands(x.insts[k].op)[1] == index);
                }
            }
        }
    }
    assert forall|b: int| 0 <= b < g.blocks.len() implies (#[trigger] g.blocks[b]).id.0 == b
        && term_in_range(g.blocks[b].term, g.blocks.len()) by {
        assert(f.blocks[b].id.0 == b);
        assert(g.blocks[b].term == f.blocks[b].term);
    }
}

proof fn lemma_test_wf(f: SFunc, p: Plan)
    requires
        blocks_wf(f),
        values_wf(f),
        p.preheader < f.blocks.len(),
        p.base.0 < f.values.len(),
        p.coverer.0 < f.values.len(),
        f.values.len() + 3 <= u32::MAX,
    ensures
        blocks_wf(with_test(f, p)),
        values_wf(with_test(f, p)),
{
    let g = with_test(f, p);
    let (m, n) = (f.values.len(), g.values.len());
    let ts = test_of(p, m as int);
    assert(n == m + 3);
    assert forall|b: int| 0 <= b < g.blocks.len() implies block_in_range(
        #[trigger] g.blocks[b],
        n,
    ) by {
        let (x, y) = (f.blocks[b], g.blocks[b]);
        assert(block_in_range(x, m));
        assert forall|k: int| 0 <= k < y.insts.len() implies inst_in_range(
            #[trigger] y.insts[k],
            n,
        ) by {
            if k < x.insts.len() {
                assert(y.insts[k] == x.insts[k]);
                assert(inst_in_range(x.insts[k], m));
            } else {
                assert(y.insts[k] == ts[k - x.insts.len()]);
            }
        }
    }
    assert forall|b: int| 0 <= b < g.blocks.len() implies (#[trigger] g.blocks[b]).id.0 == b
        && term_in_range(g.blocks[b].term, g.blocks.len()) by {
        assert(f.blocks[b].id.0 == b);
        assert(g.blocks[b].term == f.blocks[b].term);
    }
}

/// What covering gives is well-formed.
proof fn lemma_stays_wf(f: SFunc, ps: Seq<Plan>, n: int)
    requires
        0 <= n <= ps.len(),
        blocks_wf(f),
        values_wf(f),
        plans_wf(f, ps),
        carried_out(f, ps, n).0.values.len() <= u32::MAX,
    ensures
        blocks_wf(carried_out(f, ps, n).0),
        values_wf(carried_out(f, ps, n).0),
        flags_below(carried_out(f, ps, n).1, carried_out(f, ps, n).0.values.len()),
    decreases n,
{
    if n > 0 {
        lemma_values_grow(f, ps, n - 1, n);
        lemma_stays_wf(f, ps, n - 1);
        lemma_room(f, ps, n - 1);
        let (g, ts) = carried_out(f, ps, n - 1);
        let p = ps[n - 1];
        assert(g.blocks[p.block as int].insts.len() >= f.blocks[p.block as int].insts.len());
        lemma_flag_below(ts, p, 0, g.values.len());
        match flag_from(ts, p, 0) {
            Some(flag) => lemma_flag_wf(g, p, flag),
            None => {
                let h = with_test(g, p);
                let flag = Value((g.values.len() + 2) as u32);
                assert(h.values.len() == g.values.len() + 3);
                assert(carried_out(f, ps, n).0 == with_flag(h, p, flag));
                lemma_test_wf(g, p);
                lemma_flag_wf(h, p, flag);
            },
        }
    }
}

/// An instruction without its flag.
pub open spec fn unflagged(i: SInst) -> SInst {
    match i.op {
        SOp::Index { base, index, .. } => SInst {
            op: SOp::Index { base, index, covered: None },
            ..i
        },
        _ => i,
    }
}

/// Whether an instruction asks for a length, or compares two.
pub open spec fn is_test(i: SInst) -> bool {
    (i.op matches SOp::Native { symbol, .. } && symbol == "neon_list_len"@) || (
    i.op matches SOp::Prim(op, _) && op == PrimOp::Ge)
}

/// A block that is another but for flags, with tests at its end.
pub open spec fn block_covers(x: SBlock, y: SBlock) -> bool {
    &&& y.id == x.id
    &&& y.params == x.params
    &&& y.term == x.term
    &&& y.insts.len() >= x.insts.len()
    &&& forall|k: int|
        0 <= k < x.insts.len() ==> unflagged(#[trigger] y.insts[k]) == unflagged(x.insts[k])
    &&& forall|k: int| x.insts.len() <= k < y.insts.len() ==> is_test(#[trigger] y.insts[k])
}

/// A function that is another but for flags and tests: what is read, and where it goes,
/// stays.
pub open spec fn only_covers(f: SFunc, g: SFunc) -> bool {
    &&& g.blocks.len() == f.blocks.len()
    &&& g.params == f.params
    &&& f.values.len() <= g.values.len()
    &&& g.values.take(f.values.len() as int) == f.values
    &&& forall|b: int|
        0 <= b < f.blocks.len() ==> block_covers(f.blocks[b], #[trigger] g.blocks[b])
}

proof fn lemma_flag_covers(f: SFunc, g: SFunc, p: Plan, flag: Value)
    requires
        only_covers(f, g),
        p.block < f.blocks.len(),
        p.at < f.blocks[p.block as int].insts.len(),
    ensures
        only_covers(f, with_flag(g, p, flag)),
{
    let h = with_flag(g, p, flag);
    assert forall|b: int| 0 <= b < f.blocks.len() implies block_covers(
        f.blocks[b],
        #[trigger] h.blocks[b],
    ) by {
        assert(block_covers(f.blocks[b], g.blocks[b]));
        if b == p.block {
            let x = f.blocks[b];
            assert forall|k: int| 0 <= k < x.insts.len() implies unflagged(
                #[trigger] h.blocks[b].insts[k],
            ) == unflagged(x.insts[k]) by {
                assert(unflagged(g.blocks[b].insts[k]) == unflagged(x.insts[k]));
            }
            assert forall|k: int| x.insts.len() <= k < h.blocks[b].insts.len() implies is_test(
                #[trigger] h.blocks[b].insts[k],
            ) by {
                assert(is_test(g.blocks[b].insts[k]));
            }
        }
    }
}

proof fn lemma_test_covers(f: SFunc, g: SFunc, p: Plan)
    requires
        only_covers(f, g),
        p.preheader < f.blocks.len(),
    ensures
        only_covers(f, with_test(g, p)),
{
    let h = with_test(g, p);
    assert(h.values.take(f.values.len() as int) =~= g.values.take(f.values.len() as int));
    assert forall|b: int| 0 <= b < f.blocks.len() implies block_covers(
        f.blocks[b],
        #[trigger] h.blocks[b],
    ) by {
        let (x, y, z) = (f.blocks[b], g.blocks[b], h.blocks[b]);
        assert(block_covers(x, y));
        if b == p.preheader {
            assert forall|k: int| 0 <= k < x.insts.len() implies unflagged(#[trigger] z.insts[k])
                == unflagged(x.insts[k]) by {
                assert(z.insts[k] == y.insts[k]);
            }
            assert forall|k: int| x.insts.len() <= k < z.insts.len() implies is_test(
                #[trigger] z.insts[k],
            ) by {
                if k < y.insts.len() {
                    assert(z.insts[k] == y.insts[k]);
                } else {
                    assert(z.insts[k] == test_of(p, g.values.len() as int)[k - y.insts.len()]);
                }
            }
        }
    }
}

proof fn lemma_only_covers(f: SFunc, ps: Seq<Plan>, n: int)
    requires
        0 <= n <= ps.len(),
        plans_wf(f, ps),
    ensures
        only_covers(f, carried_out(f, ps, n).0),
    decreases n,
{
    if n > 0 {
        lemma_only_covers(f, ps, n - 1);
        let (g, ts) = carried_out(f, ps, n - 1);
        let p = ps[n - 1];
        match flag_from(ts, p, 0) {
            Some(flag) => lemma_flag_covers(f, g, p, flag),
            None => {
                lemma_test_covers(f, g, p);
                lemma_flag_covers(f, with_test(g, p), p, Value((g.values.len() + 2) as u32));
            },
        }
    } else {
        assert(f.values.take(f.values.len() as int) =~= f.values);
    }
}

/// There are numbers for a test for every plan.
pub open spec fn has_room(f: SFunc) -> bool {
    f.values.len() + 3 * plans(f, f.blocks.len() as int).len() <= u32::MAX
}

proof fn lemma_tests_take(f: SFunc, ps: Seq<Plan>, n: int)
    requires
        0 <= n,
    ensures
        carried_out(f, ps, n).0.values.len() <= f.values.len() + 3 * n,
    decreases n,
{
    if n > 0 {
        lemma_tests_take(f, ps, n - 1);
    }
}

/// Whether there is room to cover the checks of a function.
pub fn can_cover(f: &Func) -> (r: bool)
    requires
        blocks_wf(f.sem()),
        values_wf(f.sem()),
    ensures
        r == has_room(f.sem()),
        r ==> coverable(f.sem()),
{
    let ps = plans_of(f);
    proof {
        lemma_tests_take(f.sem(), ps@, ps.len() as int);
    }
    assert(f.sem().values.len() == f.values.len());
    ps.len() <= (0xffff_ffff - f.values.len()) / 3
}

/// Cover every check of a function that can be. Flags and tests are all that comes in.
pub fn cover_func(f: &mut Func)
    requires
        coverable(old(f).sem()),
    ensures
        final(f).sem() == covered(old(f).sem()),
        only_covers(old(f).sem(), final(f).sem()),
        blocks_wf(final(f).sem()),
        values_wf(final(f).sem()),
{
    let ghost f0 = f.sem();
    let ps = plans_of(f);
    let mut ts: Vec<Test> = Vec::new();
    let mut i: usize = 0;
    while i < ps.len()
        invariant
            i <= ps.len(),
            ps@ == plans(f0, f0.blocks.len() as int),
            plans_wf(f0, ps@),
            coverable(f0),
            (f.sem(), ts@) == carried_out(f0, ps@, i as int),
        decreases ps.len() - i,
    {
        let p = ps[i];
        assert(p == ps@[i as int]);
        proof {
            lemma_room(f0, ps@, i as int);
            lemma_values_grow(f0, ps@, i + 1, ps.len() as int);
        }
        assert(f.sem().blocks.len() == f.blocks.len());
        assert(f.sem().values.len() == f.values.len());
        let ghost g = f.sem();
        assert(g.blocks[p.block as int].insts.len() >= f0.blocks[p.block as int].insts.len());
        assert(g.blocks[p.block as int] == f.blocks[p.block as int].sem());
        match flag_for(&ts, &p) {
            Some(flag) => put_flag(f, &p, flag),
            None => {
                let flag = put_test(f, &p);
                assert(f.sem().blocks[p.block as int] == f.blocks[p.block as int].sem());
                assert(with_test(g, p).blocks[p.block as int].insts.len()
                    >= g.blocks[p.block as int].insts.len());
                assert(f.blocks[p.block as int].sem().insts.len() == f.blocks[p.block as int].insts.len());
                put_flag(f, &p, flag);
                ts.push(
                    Test { preheader: p.preheader, coverer: p.coverer, base: p.base, flag },
                );
            },
        }
        i += 1;
    }
    proof {
        lemma_only_covers(f0, ps@, ps.len() as int);
        lemma_stays_wf(f0, ps@, ps.len() as int);
    }
}

/// Cover the checks of every function of a program.
pub fn apply(program: &mut Program)
    requires
        forall|i: int|
            0 <= i < old(program).funcs.len() ==> coverable((#[trigger] old(program).funcs[i]).sem()),
    ensures
        final(program).funcs.len() == old(program).funcs.len(),
        forall|i: int|
            0 <= i < old(program).funcs.len() ==> (#[trigger] final(program).funcs[i]).sem()
                == covered(old(program).funcs[i].sem()),
        final(program).recursive == old(program).recursive,
        final(program).boxed == old(program).boxed,
        final(program).pure_natives == old(program).pure_natives,
        final(program).inlined == old(program).inlined,
{
    let mut i: usize = 0;
    while i < program.funcs.len()
        invariant
            i <= program.funcs.len() == old(program).funcs.len(),
            forall|k: int|
                0 <= k < old(program).funcs.len() ==> coverable(
                    (#[trigger] old(program).funcs[k]).sem(),
                ),
            forall|k: int|
                0 <= k < i ==> (#[trigger] program.funcs[k]).sem() == covered(
                    old(program).funcs[k].sem(),
                ),
            forall|k: int|
                i <= k < program.funcs.len() ==> #[trigger] program.funcs[k]
                    == old(program).funcs[k],
            program.recursive == old(program).recursive,
            program.boxed == old(program).boxed,
            program.pure_natives == old(program).pure_natives,
            program.inlined == old(program).inlined,
        decreases program.funcs.len() - i,
    {
        assert(program.funcs[i as int] == old(program).funcs[i as int]);
        cover_func(&mut program.funcs[i]);
        i += 1;
    }
}

} // verus!
