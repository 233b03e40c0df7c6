//! Dropping instructions whose result nothing reads.
//!
//! An instruction with an effect stays, and so does one that may trap: a trap is as
//! observable as anything else that a program does.

use super::super::effects::{effectful, op_is_effectful, Purity};
use super::super::refcount::term_values;
use super::super::repr::Repr;
use super::super::ssa::{
    block_in_range, blocks_wf, inst_in_range, operands, term_operands, values_wf, Func, Inst, Op,
    PrimOp, SBlock, SFunc, SInst, SOp, Value,
};
use super::operands::operands_of;
use super::weight::{block_weight, insts_weight, lemma_blocks_lighter, weight};
use crate::syntax::{names_of, sems, Node};
use vstd::prelude::*;

verus! {

/// Whether an operation reads a value.
pub open spec fn reads(i: SInst, v: Value) -> bool {
    operands(i.op).contains(v)
}

/// Whether something in a block reads a value, or it is handed on at its end.
pub open spec fn block_reads(b: SBlock, v: Value) -> bool {
    (exists|k: int| 0 <= k < b.insts.len() && reads(#[trigger] b.insts[k], v)) || term_operands(
        b.term,
    ).contains(v)
}

/// Whether anything in a function reads a value.
pub open spec fn used(f: SFunc, v: Value) -> bool {
    exists|b: int| 0 <= b < f.blocks.len() && block_reads(#[trigger] f.blocks[b], v)
}

/// Whether an operation can trap: reading a list at an index that it does not have, taking a
/// value out of what has any type, and arithmetic on integers. Arithmetic on floats cannot.
pub open spec fn may_trap(f: SFunc, op: SOp) -> bool {
    match op {
        SOp::Index { .. } => true,
        SOp::Cast(x) => f.values[x.0 as int].repr is Any,
        SOp::Prim(p, args) => {
            &&& p is Add || p is Sub || p is Mul || p is Div || p is Rem
            &&& args.len() > 0
            &&& f.values[args[0].0 as int].repr is I64
        },
        _ => false,
    }
}

/// Whether an instruction stays: its result is read, or it has none, or it does more than
/// give a result.
pub open spec fn stays(
    f: SFunc,
    pure: Map<Seq<char>, bool>,
    natives: Seq<Seq<char>>,
    i: SInst,
) -> bool {
    match i.result {
        Some(v) => used(f, v) || effectful(i.op, pure, natives) || may_trap(f, i.op),
        None => true,
    }
}

/// The instructions among the first `n` that stay.
pub open spec fn left(
    f: SFunc,
    pure: Map<Seq<char>, bool>,
    natives: Seq<Seq<char>>,
    is: Seq<SInst>,
    n: int,
) -> Seq<SInst>
    decreases n,
{
    if n <= 0 {
        seq![]
    } else if stays(f, pure, natives, is[n - 1]) {
        left(f, pure, natives, is, n - 1).push(is[n - 1])
    } else {
        left(f, pure, natives, is, n - 1)
    }
}

pub open spec fn swept_block(
    f: SFunc,
    pure: Map<Seq<char>, bool>,
    natives: Seq<Seq<char>>,
    b: SBlock,
) -> SBlock {
    SBlock { insts: left(f, pure, natives, b.insts, b.insts.len() as int), ..b }
}

/// A function without its dead instructions.
pub open spec fn swept(f: SFunc, pure: Map<Seq<char>, bool>, natives: Seq<Seq<char>>) -> SFunc {
    SFunc {
        blocks: Seq::new(f.blocks.len(), |b: int| swept_block(f, pure, natives, f.blocks[b])),
        ..f
    }
}

pub open spec fn block_sweeps(
    f: SFunc,
    pure: Map<Seq<char>, bool>,
    natives: Seq<Seq<char>>,
    b: SBlock,
) -> bool {
    exists|k: int| 0 <= k < b.insts.len() && !stays(f, pure, natives, #[trigger] b.insts[k])
}

/// Whether a function has a dead instruction.
pub open spec fn sweeps(f: SFunc, pure: Map<Seq<char>, bool>, natives: Seq<Seq<char>>) -> bool {
    exists|b: int|
        0 <= b < f.blocks.len() && block_sweeps(f, pure, natives, #[trigger] f.blocks[b])
}

// ---- computing it ----

/// Mark values.
fn mark(r: &mut Vec<bool>, vs: &Vec<Value>)
    requires
        old(r).len() <= u32::MAX,
        forall|i: int| 0 <= i < vs.len() ==> (#[trigger] vs[i]).0 < old(r).len(),
    ensures
        final(r).len() == old(r).len(),
        forall|v: int|
            0 <= v < old(r).len() ==> (#[trigger] final(r)[v] <==> old(r)[v] || vs@.contains(
                Value(v as u32),
            )),
{
    let ghost before = r@;
    let mut i: usize = 0;
    while i < vs.len()
        invariant
            i <= vs.len(),
            r.len() == before.len() <= u32::MAX,
            forall|i: int| 0 <= i < vs.len() ==> (#[trigger] vs[i]).0 < before.len(),
            forall|v: int|
                0 <= v < before.len() ==> (#[trigger] r[v] <==> before[v] || vs@.take(
                    i as int,
                ).contains(Value(v as u32))),
        decreases vs.len() - i,
    {
        let ghost was = r@;
        let ghost t0 = vs@.take(i as int);
        let ghost t1 = vs@.take(i + 1);
        r.set(vs[i].0 as usize, true);
        assert(t1 =~= t0.push(vs@[i as int]));
        assert forall|v: int| 0 <= v < before.len() implies (#[trigger] r[v] <==> before[v]
            || t1.contains(Value(v as u32))) by {
            assert(was[v] <==> before[v] || t0.contains(Value(v as u32)));
            if t0.contains(Value(v as u32)) {
                let k = choose|k: int| 0 <= k < t0.len() && t0[k] == Value(v as u32);
                assert(t1[k] == Value(v as u32));
            }
            if v == vs@[i as int].0 {
                assert(t1[i as int] == Value(v as u32));
            } else if t1.contains(Value(v as u32)) {
                let k = choose|k: int| 0 <= k < t1.len() && t1[k] == Value(v as u32);
                assert(k < i);
                assert(t0[k] == Value(v as u32));
            }
        }
        i += 1;
    }
    assert(vs@.take(i as int) =~= vs@);
}

/// Which values anything in a function reads.
fn used_values(f: &Func) -> (r: Vec<bool>)
    requires
        values_wf(f.sem()),
    ensures
        r.len() == f.values.len(),
        forall|v: int| 0 <= v < r.len() ==> #[trigger] r[v] == used(f.sem(), Value(v as u32)),
{
    let ghost s = f.sem();
    let n: usize = f.values.len();
    assert(s.values.len() == n);
    let mut r: Vec<bool> = Vec::new();
    let mut i: usize = 0;
    while i < n
        invariant
            i <= n,
            r.len() == i,
            forall|v: int| 0 <= v < i ==> !#[trigger] r[v],
        decreases n - i,
    {
        r.push(false);
        i += 1;
    }
    let mut b: usize = 0;
    while b < f.blocks.len()
        invariant
            b <= f.blocks.len(),
            s == f.sem(),
            values_wf(s),
            s.values.len() == n,
            r.len() == n,
            forall|v: int|
                0 <= v < n ==> (#[trigger] r[v] <==> exists|c: int|
                    0 <= c < b && block_reads(#[trigger] s.blocks[c], Value(v as u32))),
        decreases f.blocks.len() - b,
    {
        let ghost before = r@;
        let ghost x = s.blocks[b as int];
        assert(x == f.blocks[b as int].sem());
        assert(block_in_range(x, n as nat));
        let mut k: usize = 0;
        while k < f.blocks[b].insts.len()
            invariant
                b < f.blocks.len(),
                x == f.blocks[b as int].sem(),
                block_in_range(x, n as nat),
                k <= f.blocks[b as int].insts.len(),
                r.len() == n == before.len(),
                n <= u32::MAX,
                forall|v: int|
                    0 <= v < n ==> (#[trigger] r[v] <==> before[v] || exists|j: int|
                        0 <= j < k && reads(#[trigger] x.insts[j], Value(v as u32))),
            decreases f.blocks[b as int].insts.len() - k,
        {
            assert(x.insts[k as int] == f.blocks[b as int].insts[k as int].sem());
            assert(inst_in_range(x.insts[k as int], n as nat));
            let vs = operands_of(&f.blocks[b].insts[k].op);
            assert forall|i: int| 0 <= i < vs.len() implies (#[trigger] vs[i]).0 < n by {
                assert(operands(x.insts[k as int].op)[i] == vs[i]);
            }
            let ghost was = r@;
            mark(&mut r, &vs);
            assert forall|v: int| 0 <= v < n implies (#[trigger] r[v] <==> before[v] || exists|
                j: int,
            |
                0 <= j < k + 1 && reads(#[trigger] x.insts[j], Value(v as u32))) by {
                assert(r[v] <==> was[v] || vs@.contains(Value(v as u32)));
                if vs@.contains(Value(v as u32)) {
                    assert(reads(x.insts[k as int], Value(v as u32)));
                }
                if was[v] && !before[v] {
                    let j = choose|j: int|
                        0 <= j < k && reads(#[trigger] x.insts[j], Value(v as u32));
                    assert(reads(x.insts[j], Value(v as u32)));
                }
            }
            k += 1;
        }
        let vs = term_values(&f.blocks[b].term);
        assert forall|i: int| 0 <= i < vs.len() implies (#[trigger] vs[i]).0 < n by {
            assert(term_operands(x.term)[i] == vs[i]);
        }
        let ghost was = r@;
        mark(&mut r, &vs);
        assert forall|v: int| 0 <= v < n implies (#[trigger] r[v] <==> exists|c: int|
            0 <= c < b + 1 && block_reads(#[trigger] s.blocks[c], Value(v as u32))) by {
            assert(was[v] <==> before[v] || exists|j: int|
                0 <= j < x.insts.len() && reads(#[trigger] x.insts[j], Value(v as u32)));
            assert(r[v] <==> was[v] || vs@.contains(Value(v as u32)));
            assert(r[v] <==> before[v] || block_reads(x, Value(v as u32)));
            if block_reads(x, Value(v as u32)) {
                assert(block_reads(s.blocks[b as int], Value(v as u32)));
            }
            if before[v] {
                let c = choose|c: int|
                    0 <= c < b && block_reads(#[trigger] s.blocks[c], Value(v as u32));
                assert(block_reads(s.blocks[c], Value(v as u32)));
            }
        }
        b += 1;
    }
    r
}

pub fn can_trap(f: &Func, op: &Op) -> (r: bool)
    requires
        forall|i: int|
            0 <= i < operands(op.sem()).len() ==> (#[trigger] operands(op.sem())[i]).0
                < f.values.len(),
    ensures
        r == may_trap(f.sem(), op.sem()),
{
    match op {
        Op::Index { .. } => true,
        Op::Cast(x) => {
            assert(operands(op.sem())[0] == *x);
            assert(f.sem().values[x.0 as int].repr == f.values[x.0 as int].repr.sem());
            match &f.values[x.0 as usize].repr {
                Repr::Any => true,
                _ => false,
            }
        },
        Op::Prim(p, args) => {
            let arithmetic = match p {
                PrimOp::Add | PrimOp::Sub | PrimOp::Mul | PrimOp::Div | PrimOp::Rem => true,
                _ => false,
            };
            if arithmetic && args.len() > 0 {
                assert(operands(op.sem())[0] == args[0]);
                assert(f.sem().values[args[0].0 as int].repr
                    == f.values[args[0].0 as int].repr.sem());
                match &f.values[args[0].0 as usize].repr {
                    Repr::I64 => true,
                    _ => false,
                }
            } else {
                false
            }
        },
        _ => false,
    }
}

proof fn lemma_left(
    f: SFunc,
    pure: Map<Seq<char>, bool>,
    natives: Seq<Seq<char>>,
    is: Seq<SInst>,
    n: int,
)
    requires
        0 <= n <= is.len(),
    ensures
        left(f, pure, natives, is, n).len() <= n,
        insts_weight(left(f, pure, natives, is, n), left(f, pure, natives, is, n).len() as int)
            <= insts_weight(is, n),
        (exists|k: int| 0 <= k < n && !stays(f, pure, natives, #[trigger] is[k])) ==> insts_weight(
            left(f, pure, natives, is, n),
            left(f, pure, natives, is, n).len() as int,
        ) < insts_weight(is, n),
        (forall|k: int| 0 <= k < n ==> stays(f, pure, natives, #[trigger] is[k])) ==> left(
            f,
            pure,
            natives,
            is,
            n,
        ) == is.take(n),
        forall|k: int|
            0 <= k < left(f, pure, natives, is, n).len() ==> is.contains(
                #[trigger] left(f, pure, natives, is, n)[k],
            ),
    decreases n,
{
    let all = left(f, pure, natives, is, n);
    if n > 0 {
        lemma_left(f, pure, natives, is, n - 1);
        let most = left(f, pure, natives, is, n - 1);
        if stays(f, pure, natives, is[n - 1]) {
            assert(all.drop_last() =~= most);
            lemma_weight_of_prefix(all, most, most.len() as int);
            assert(all[all.len() - 1] == is[n - 1]);
            assert forall|k: int| 0 <= k < all.len() implies is.contains(#[trigger] all[k]) by {
                if k < most.len() {
                    assert(all[k] == most[k]);
                } else {
                    assert(is[n - 1] == all[k]);
                }
            }
        }
        assert(is.take(n) =~= is.take(n - 1).push(is[n - 1]));
    } else {
        assert(is.take(0) =~= seq![]);
    }
}

proof fn lemma_weight_of_prefix(xs: Seq<SInst>, ys: Seq<SInst>, n: int)
    requires
        0 <= n <= xs.len(),
        n <= ys.len(),
        forall|k: int| 0 <= k < n ==> xs[k] == #[trigger] ys[k],
    ensures
        insts_weight(xs, n) == insts_weight(ys, n),
    decreases n,
{
    if n > 0 {
        lemma_weight_of_prefix(xs, ys, n - 1);
        assert(xs[n - 1] == ys[n - 1]);
    }
}

/// Sweeping keeps a function well-formed, and makes it lighter where it changes it.
pub proof fn sweeping_keeps(f: SFunc, pure: Map<Seq<char>, bool>, natives: Seq<Seq<char>>)
    requires
        blocks_wf(f),
        values_wf(f),
    ensures
        blocks_wf(swept(f, pure, natives)),
        values_wf(swept(f, pure, natives)),
        weight(swept(f, pure, natives)) <= weight(f),
        sweeps(f, pure, natives) ==> weight(swept(f, pure, natives)) < weight(f),
        !sweeps(f, pure, natives) ==> swept(f, pure, natives) == f,
        swept(f, pure, natives).blocks.len() == f.blocks.len(),
{
    let g = swept(f, pure, natives);
    assert forall|b: int| 0 <= b < f.blocks.len() implies {
        &&& block_in_range(#[trigger] g.blocks[b], f.values.len())
        &&& block_weight(g.blocks[b]) <= block_weight(f.blocks[b])
        &&& block_sweeps(f, pure, natives, f.blocks[b]) ==> block_weight(g.blocks[b])
            < block_weight(f.blocks[b])
        &&& !block_sweeps(f, pure, natives, f.blocks[b]) ==> g.blocks[b] == f.blocks[b]
        &&& g.blocks[b].id == f.blocks[b].id
        &&& g.blocks[b].term == f.blocks[b].term
    } by {
        let x = f.blocks[b];
        let y = g.blocks[b];
        assert(block_in_range(x, f.values.len()));
        lemma_left(f, pure, natives, x.insts, x.insts.len() as int);
        assert(x.insts.take(x.insts.len() as int) =~= x.insts);
        assert forall|k: int| 0 <= k < y.insts.len() implies inst_in_range(
            #[trigger] y.insts[k],
            f.values.len(),
        ) by {
            let j = choose|j: int| 0 <= j < x.insts.len() && x.insts[j] == y.insts[k];
            assert(inst_in_range(x.insts[j], f.values.len()));
        }
        if !block_sweeps(f, pure, natives, x) {
            assert(y.insts =~= x.insts);
        }
    }
    lemma_blocks_lighter(f.blocks, g.blocks, f.blocks.len() as int);
    if sweeps(f, pure, natives) {
        let b = choose|b: int|
            0 <= b < f.blocks.len() && block_sweeps(f, pure, natives, #[trigger] f.blocks[b]);
        assert(block_weight(g.blocks[b]) < block_weight(f.blocks[b]));
    } else {
        assert forall|b: int| 0 <= b < f.blocks.len() implies g.blocks[b] == f.blocks[b] by {
            assert(!block_sweeps(f, pure, natives, f.blocks[b]));
        }
        assert(g.blocks =~= f.blocks);
    }
}

/// Decide which instructions of a block stay.
fn keeps(f: &Func, used: &Vec<bool>, pure: &Purity, natives: &Vec<String>, b: usize) -> (r: Vec<
    bool,
>)
    requires
        values_wf(f.sem()),
        b < f.blocks.len(),
        used.len() == f.values.len(),
        forall|v: int|
            0 <= v < used.len() ==> #[trigger] used[v] == self::used(f.sem(), Value(v as u32)),
    ensures
        r.len() == f.blocks[b as int].insts.len(),
        forall|k: int|
            0 <= k < r.len() ==> #[trigger] r[k] == stays(
                f.sem(),
                pure@,
                names_of(natives@),
                f.sem().blocks[b as int].insts[k],
            ),
{
    let ghost s = f.sem();
    let ghost x = s.blocks[b as int];
    assert(x == f.blocks[b as int].sem());
    let mut r: Vec<bool> = Vec::new();
    let mut k: usize = 0;
    while k < f.blocks[b].insts.len()
        invariant
            b < f.blocks.len(),
            s == f.sem(),
            values_wf(s),
            s.values.len() == f.values.len(),
            x == s.blocks[b as int],
            x == f.blocks[b as int].sem(),
            used.len() == f.values.len(),
            forall|v: int|
                0 <= v < used.len() ==> #[trigger] used[v] == self::used(f.sem(), Value(v as u32)),
            k <= f.blocks[b as int].insts.len(),
            r.len() == k,
            forall|j: int|
                0 <= j < k ==> #[trigger] r[j] == stays(s, pure@, names_of(natives@), x.insts[j]),
        decreases f.blocks[b as int].insts.len() - k,
    {
        let i = &f.blocks[b].insts[k];
        assert(x.insts[k as int] == i.sem());
        assert(block_in_range(x, s.values.len()));
        assert(inst_in_range(x.insts[k as int], s.values.len()));
        let keep = match i.result {
            Some(v) => {
                assert(used[v.0 as int] == self::used(s, Value(v.0)));
                used[v.0 as usize] || op_is_effectful(&i.op, pure, natives) || can_trap(f, &i.op)
            },
            None => true,
        };
        r.push(keep);
        k += 1;
    }
    r
}

/// Drop instructions whose result nothing reads and that do nothing else.
pub fn dead_code(f: &mut Func, pure: &Purity, natives: &Vec<String>) -> (changed: bool)
    requires
        values_wf(old(f).sem()),
    ensures
        final(f).sem() == swept(old(f).sem(), pure@, names_of(natives@)),
        changed == sweeps(old(f).sem(), pure@, names_of(natives@)),
{
    let ghost s = f.sem();
    let ghost ns = names_of(natives@);
    let marks = used_values(f);
    let n: usize = f.blocks.len();
    let mut stay: Vec<Vec<bool>> = Vec::new();
    let mut b: usize = 0;
    while b < n
        invariant
            b <= n == f.blocks.len(),
            s == f.sem(),
            ns == names_of(natives@),
            values_wf(s),
            marks.len() == f.values.len(),
            forall|v: int| 0 <= v < marks.len() ==> #[trigger] marks[v] == used(s, Value(v as u32)),
            stay.len() == b,
            forall|c: int| 0 <= c < b ==> (#[trigger] stay[c]).len() == s.blocks[c].insts.len(),
            forall|c: int, k: int|
                0 <= c < b && 0 <= k < stay[c].len() ==> #[trigger] stay[c]@[k] == stays(
                    s,
                    pure@,
                    ns,
                    s.blocks[c].insts[k],
                ),
        decreases n - b,
    {
        assert(s.blocks[b as int] == f.blocks[b as int].sem());
        let row = keeps(f, &marks, pure, natives, b);
        stay.push(row);
        b += 1;
    }
    let mut changed: bool = false;
    let mut b: usize = 0;
    while b < n
        invariant
            b <= n == f.blocks.len() == s.blocks.len(),
            s == old(f).sem(),
            ns == names_of(natives@),
            stay.len() == n,
            forall|c: int| 0 <= c < n ==> (#[trigger] stay[c]).len() == s.blocks[c].insts.len(),
            forall|c: int, k: int|
                0 <= c < n && 0 <= k < stay[c].len() ==> #[trigger] stay[c]@[k] == stays(
                    s,
                    pure@,
                    ns,
                    s.blocks[c].insts[k],
                ),
            f.sem() == (SFunc { blocks: sems(f.blocks@), ..s }),
            forall|j: int|
                0 <= j < b ==> (#[trigger] f.blocks[j]).sem() == swept_block(
                    s,
                    pure@,
                    ns,
                    s.blocks[j],
                ),
            forall|j: int|
                b <= j < f.blocks.len() ==> (#[trigger] f.blocks[j]).sem() == s.blocks[j],
            changed == exists|j: int|
                0 <= j < b && block_sweeps(s, pure@, ns, #[trigger] s.blocks[j]),
        decreases n - b,
    {
        let ghost x = s.blocks[b as int];
        assert(f.blocks[b as int].sem() == x);
        assert(stay[b as int].len() == x.insts.len());
        let mut rest: Vec<Inst> = Vec::new();
        let mut dropped: bool = false;
        let mut k: usize = 0;
        while k < f.blocks[b].insts.len()
            invariant
                b < n == f.blocks.len() == stay.len(),
                f.blocks[b as int].sem() == x,
                x == s.blocks[b as int],
                stay[b as int].len() == x.insts.len(),
                k <= f.blocks[b as int].insts.len(),
                forall|c: int, k: int|
                    0 <= c < n && 0 <= k < stay[c].len() ==> #[trigger] stay[c]@[k] == stays(
                        s,
                        pure@,
                        ns,
                        s.blocks[c].insts[k],
                    ),
                sems(rest@) == left(s, pure@, ns, x.insts, k as int),
                dropped == exists|j: int|
                    0 <= j < k && !stays(s, pure@, ns, #[trigger] x.insts[j]),
            decreases f.blocks[b as int].insts.len() - k,
        {
            assert(x.insts[k as int] == f.blocks[b as int].insts[k as int].sem());
            assert(stay[b as int]@[k as int] == stays(s, pure@, ns, x.insts[k as int]));
            if stay[b][k] {
                let i = f.blocks[b].insts[k].clone();
                let ghost before = rest@;
                rest.push(i);
                assert(sems(rest@) =~= sems(before).push(i.sem()));
            } else {
                dropped = true;
            }
            k += 1;
        }
        f.blocks[b].insts = rest;
        assert(f.blocks[b as int].sem() == swept_block(s, pure@, ns, x));
        if dropped {
            assert(block_sweeps(s, pure@, ns, s.blocks[b as int]));
            changed = true;
        }
        b += 1;
    }
    assert(sems(f.blocks@) =~= swept(s, pure@, ns).blocks);
    changed
}

} // verus!
