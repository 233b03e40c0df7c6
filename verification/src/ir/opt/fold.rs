//! Constant folding: a primitive operation on constants becomes a constant, and a branch on
//! a constant becomes a jump.
//!
//! What would trap or overflow is left as it is, for the runtime.

use super::super::ssa::{
    blocks_wf, inst_in_range, operands, targets, term_in_range, term_operands, values_wf, Block,
    Func, Inst, Op, PrimOp, SBlock, SFunc, SInst, SOp, STerm, Target, Term, Value,
};
use super::weight::{block_weight, inst_weight, lemma_blocks_lighter, lemma_insts_lighter, weight};
use crate::syntax::{sems, Node};
use vstd::prelude::*;

verus! {

// ---- constants ----

/// The integer that the last of the first `n` instructions to define `v` as one gives it.
pub open spec fn int_in(is: Seq<SInst>, v: Value, n: int) -> Option<i64>
    decreases n,
{
    if n <= 0 {
        None
    } else {
        match is[n - 1].op {
            SOp::ConstI64(x) => if is[n - 1].result == Some(v) {
                Some(x)
            } else {
                int_in(is, v, n - 1)
            },
            _ => int_in(is, v, n - 1),
        }
    }
}

/// The integer that a value is defined as in the first `n` blocks.
pub open spec fn int_of(f: SFunc, v: Value, n: int) -> Option<i64>
    decreases n,
{
    if n <= 0 {
        None
    } else {
        match int_in(f.blocks[n - 1].insts, v, f.blocks[n - 1].insts.len() as int) {
            Some(x) => Some(x),
            None => int_of(f, v, n - 1),
        }
    }
}

/// The truth value that the last of the first `n` instructions to define `v` as one gives it.
pub open spec fn bool_in(is: Seq<SInst>, v: Value, n: int) -> Option<bool>
    decreases n,
{
    if n <= 0 {
        None
    } else {
        match is[n - 1].op {
            SOp::ConstBool(x) => if is[n - 1].result == Some(v) {
                Some(x)
            } else {
                bool_in(is, v, n - 1)
            },
            _ => bool_in(is, v, n - 1),
        }
    }
}

/// The truth value that a value is defined as in the first `n` blocks.
pub open spec fn bool_of(f: SFunc, v: Value, n: int) -> Option<bool>
    decreases n,
{
    if n <= 0 {
        None
    } else {
        match bool_in(f.blocks[n - 1].insts, v, f.blocks[n - 1].insts.len() as int) {
            Some(x) => Some(x),
            None => bool_of(f, v, n - 1),
        }
    }
}

/// Which values are constant integers.
pub open spec fn ints(f: SFunc) -> Seq<Option<i64>> {
    Seq::new(f.values.len(), |i: int| int_of(f, Value(i as u32), f.blocks.len() as int))
}

/// Which values are constant truth values.
pub open spec fn bools(f: SFunc) -> Seq<Option<bool>> {
    Seq::new(f.values.len(), |i: int| bool_of(f, Value(i as u32), f.blocks.len() as int))
}

pub open spec fn known<T>(t: Seq<Option<T>>, v: Value) -> Option<T> {
    if v.0 < t.len() {
        t[v.0 as int]
    } else {
        None
    }
}

// ---- folding an operation ----

pub open spec fn const_int(x: Option<i64>) -> Option<SOp> {
    match x {
        Some(n) => Some(SOp::ConstI64(n)),
        None => None,
    }
}

/// What an operation on two integers folds to. Arithmetic that overflows or divides by zero
/// does not fold.
pub open spec fn folded_int(op: PrimOp, x: i64, y: i64) -> Option<SOp> {
    match op {
        PrimOp::Add => const_int(x.checked_add(y)),
        PrimOp::Sub => const_int(x.checked_sub(y)),
        PrimOp::Mul => const_int(x.checked_mul(y)),
        PrimOp::Div => const_int(x.checked_div(y)),
        PrimOp::Rem => const_int(x.checked_rem(y)),
        PrimOp::Band => Some(SOp::ConstI64(x & y)),
        PrimOp::Bor => Some(SOp::ConstI64(x | y)),
        PrimOp::Bxor => Some(SOp::ConstI64(x ^ y)),
        PrimOp::Eq => Some(SOp::ConstBool(x == y)),
        PrimOp::Ne => Some(SOp::ConstBool(x != y)),
        PrimOp::Lt => Some(SOp::ConstBool(x < y)),
        PrimOp::Le => Some(SOp::ConstBool(x <= y)),
        PrimOp::Gt => Some(SOp::ConstBool(x > y)),
        PrimOp::Ge => Some(SOp::ConstBool(x >= y)),
        _ => None,
    }
}

/// What an operation on two truth values folds to.
pub open spec fn folded_bool(op: PrimOp, x: bool, y: bool) -> Option<SOp> {
    match op {
        PrimOp::And => Some(SOp::ConstBool(x && y)),
        PrimOp::Or => Some(SOp::ConstBool(x || y)),
        PrimOp::Eq => Some(SOp::ConstBool(x == y)),
        PrimOp::Ne => Some(SOp::ConstBool(x != y)),
        _ => None,
    }
}

/// The negative of an integer, which the smallest one has not: that one stays.
pub open spec fn negated(x: i64) -> i64 {
    if x == i64::MIN {
        x
    } else {
        (-x) as i64
    }
}

/// What a primitive operation folds to, if its operands are constants of one kind.
pub open spec fn folded_prim(
    op: PrimOp,
    args: Seq<Value>,
    ints: Seq<Option<i64>>,
    bools: Seq<Option<bool>>,
) -> Option<SOp> {
    if args.len() == 1 && op is Neg {
        match known(ints, args[0]) {
            Some(n) => Some(SOp::ConstI64(negated(n))),
            None => None,
        }
    } else if args.len() == 1 && op is Not {
        match known(bools, args[0]) {
            Some(x) => Some(SOp::ConstBool(!x)),
            None => None,
        }
    } else if args.len() == 2 {
        match (known(ints, args[0]), known(ints, args[1])) {
            (Some(x), Some(y)) => folded_int(op, x, y),
            _ => match (known(bools, args[0]), known(bools, args[1])) {
                (Some(x), Some(y)) => folded_bool(op, x, y),
                _ => None,
            },
        }
    } else {
        None
    }
}

/// What an instruction's operation folds to.
pub open spec fn folds_to(
    i: SInst,
    ints: Seq<Option<i64>>,
    bools: Seq<Option<bool>>,
) -> Option<SOp> {
    match i.op {
        SOp::Prim(op, args) => folded_prim(op, args, ints, bools),
        _ => None,
    }
}

pub open spec fn folded_inst(
    i: SInst,
    ints: Seq<Option<i64>>,
    bools: Seq<Option<bool>>,
) -> SInst {
    match folds_to(i, ints, bools) {
        Some(op) => SInst { op, ..i },
        None => i,
    }
}

pub open spec fn folded_block(
    b: SBlock,
    ints: Seq<Option<i64>>,
    bools: Seq<Option<bool>>,
) -> SBlock {
    SBlock { insts: Seq::new(b.insts.len(), |k: int| folded_inst(b.insts[k], ints, bools)), ..b }
}

pub open spec fn block_folds(
    b: SBlock,
    ints: Seq<Option<i64>>,
    bools: Seq<Option<bool>>,
) -> bool {
    exists|k: int| 0 <= k < b.insts.len() && folds_to(#[trigger] b.insts[k], ints, bools) is Some
}

/// A function with its constant operations folded.
pub open spec fn folded(f: SFunc) -> SFunc {
    SFunc {
        blocks: Seq::new(
            f.blocks.len(),
            |b: int| folded_block(f.blocks[b], ints(f), bools(f)),
        ),
        ..f
    }
}

/// Whether a function has a constant operation to fold.
pub open spec fn folds(f: SFunc) -> bool {
    exists|b: int|
        0 <= b < f.blocks.len() && block_folds(#[trigger] f.blocks[b], ints(f), bools(f))
}

// ---- folding a branch ----

/// Where a branch goes, if its condition is constant.
pub open spec fn folded_term(t: STerm, bools: Seq<Option<bool>>) -> STerm {
    match t {
        STerm::Branch { cond, then, els } => match known(bools, cond) {
            Some(x) => STerm::Jump(
                if x {
                    then
                } else {
                    els
                },
            ),
            None => t,
        },
        _ => t,
    }
}

pub open spec fn term_folds(t: STerm, bools: Seq<Option<bool>>) -> bool {
    t matches STerm::Branch { cond, .. } && known(bools, cond) is Some
}

/// A function with its constant branches turned into jumps.
pub open spec fn branches_folded(f: SFunc) -> SFunc {
    SFunc {
        blocks: Seq::new(
            f.blocks.len(),
            |b: int| SBlock { term: folded_term(f.blocks[b].term, bools(f)), ..f.blocks[b] },
        ),
        ..f
    }
}

/// Whether a function has a constant branch.
pub open spec fn branch_folds(f: SFunc) -> bool {
    exists|b: int| 0 <= b < f.blocks.len() && term_folds(#[trigger] f.blocks[b].term, bools(f))
}

// ---- computing it ----

fn ints_of(f: &Func) -> (r: Vec<Option<i64>>)
    requires
        values_wf(f.sem()),
    ensures
        r@ == ints(f.sem()),
{
    let ghost s = f.sem();
    let n: usize = f.values.len();
    assert(s.values.len() == n);
    let mut r: Vec<Option<i64>> = Vec::new();
    let mut i: usize = 0;
    while i < n
        invariant
            i <= n,
            r.len() == i,
            forall|v: int| 0 <= v < i ==> #[trigger] r[v] is None,
        decreases n - i,
    {
        r.push(None);
        i += 1;
    }
    let mut b: usize = 0;
    while b < f.blocks.len()
        invariant
            b <= f.blocks.len(),
            s == f.sem(),
            values_wf(s),
            s.values.len() == n,
            r.len() == n,
            forall|v: int|
                0 <= v < n ==> #[trigger] r[v] == int_of(s, Value(v as u32), b as int),
        decreases f.blocks.len() - b,
    {
        let ghost before = r@;
        let ghost is = s.blocks[b as int].insts;
        assert(s.blocks[b as int] == f.blocks[b as int].sem());
        let mut k: usize = 0;
        while k < f.blocks[b].insts.len()
            invariant
                b < f.blocks.len(),
                s == f.sem(),
                values_wf(s),
                s.values.len() == n,
                is == s.blocks[b as int].insts,
                s.blocks[b as int] == f.blocks[b as int].sem(),
                k <= f.blocks[b as int].insts.len(),
                r.len() == n,
                before.len() == n,
                forall|v: int|
                    0 <= v < n ==> #[trigger] r[v] == match int_in(
                        is,
                        Value(v as u32),
                        k as int,
                    ) {
                        Some(x) => Some(x),
                        None => before[v],
                    },
            decreases f.blocks[b as int].insts.len() - k,
        {
            assert(is[k as int] == f.blocks[b as int].insts[k as int].sem());
            assert(inst_in_range(s.blocks[b as int].insts[k as int], s.values.len()));
            let inst = &f.blocks[b].insts[k];
            if let Op::ConstI64(x) = inst.op {
                if let Some(v) = inst.result {
                    r.set(v.0 as usize, Some(x));
                }
            }
            k += 1;
        }
        assert forall|v: int| 0 <= v < n implies #[trigger] r[v] == int_of(
            s,
            Value(v as u32),
            b + 1,
        ) by {
            assert(before[v] == int_of(s, Value(v as u32), b as int));
        }
        b += 1;
    }
    assert(r@ =~= ints(s));
    r
}

pub fn bools_of(f: &Func) -> (r: Vec<Option<bool>>)
    requires
        values_wf(f.sem()),
    ensures
        r@ == bools(f.sem()),
{
    let ghost s = f.sem();
    let n: usize = f.values.len();
    assert(s.values.len() == n);
    let mut r: Vec<Option<bool>> = Vec::new();
    let mut i: usize = 0;
    while i < n
        invariant
            i <= n,
            r.len() == i,
            forall|v: int| 0 <= v < i ==> #[trigger] r[v] is None,
        decreases n - i,
    {
        r.push(None);
        i += 1;
    }
    let mut b: usize = 0;
    while b < f.blocks.len()
        invariant
            b <= f.blocks.len(),
            s == f.sem(),
            values_wf(s),
            s.values.len() == n,
            r.len() == n,
            forall|v: int|
                0 <= v < n ==> #[trigger] r[v] == bool_of(s, Value(v as u32), b as int),
        decreases f.blocks.len() - b,
    {
        let ghost before = r@;
        let ghost is = s.blocks[b as int].insts;
        assert(s.blocks[b as int] == f.blocks[b as int].sem());
        let mut k: usize = 0;
        while k < f.blocks[b].insts.len()
            invariant
                b < f.blocks.len(),
                s == f.sem(),
                values_wf(s),
                s.values.len() == n,
                is == s.blocks[b as int].insts,
                s.blocks[b as int] == f.blocks[b as int].sem(),
                k <= f.blocks[b as int].insts.len(),
                r.len() == n,
                before.len() == n,
                forall|v: int|
                    0 <= v < n ==> #[trigger] r[v] == match bool_in(
                        is,
                        Value(v as u32),
                        k as int,
                    ) {
                        Some(x) => Some(x),
                        None => before[v],
                    },
            decreases f.blocks[b as int].insts.len() - k,
        {
            assert(is[k as int] == f.blocks[b as int].insts[k as int].sem());
            assert(inst_in_range(s.blocks[b as int].insts[k as int], s.values.len()));
            let inst = &f.blocks[b].insts[k];
            if let Op::ConstBool(x) = inst.op {
                if let Some(v) = inst.result {
                    r.set(v.0 as usize, Some(x));
                }
            }
            k += 1;
        }
        assert forall|v: int| 0 <= v < n implies #[trigger] r[v] == bool_of(
            s,
            Value(v as u32),
            b + 1,
        ) by {
            assert(before[v] == bool_of(s, Value(v as u32), b as int));
        }
        b += 1;
    }
    assert(r@ =~= bools(s));
    r
}

fn known_int(t: &Vec<Option<i64>>, v: Value) -> (r: Option<i64>)
    ensures
        r == known(t@, v),
{
    if (v.0 as usize) < t.len() {
        t[v.0 as usize]
    } else {
        None
    }
}

fn known_bool(t: &Vec<Option<bool>>, v: Value) -> (r: Option<bool>)
    ensures
        r == known(t@, v),
{
    if (v.0 as usize) < t.len() {
        t[v.0 as usize]
    } else {
        None
    }
}

fn int_op(x: Option<i64>) -> (r: Option<Op>)
    ensures
        r.sem() == const_int(x),
{
    match x {
        Some(n) => Some(Op::ConstI64(n)),
        None => None,
    }
}

/// Fold an operation on two integers, or decline.
pub fn fold_int(op: PrimOp, x: i64, y: i64) -> (r: Option<Op>)
    ensures
        r.sem() == folded_int(op, x, y),
{
    match op {
        PrimOp::Add => int_op(x.checked_add(y)),
        PrimOp::Sub => int_op(x.checked_sub(y)),
        PrimOp::Mul => int_op(x.checked_mul(y)),
        PrimOp::Div => int_op(x.checked_div(y)),
        PrimOp::Rem => int_op(x.checked_rem(y)),
        PrimOp::Band => Some(Op::ConstI64(x & y)),
        PrimOp::Bor => Some(Op::ConstI64(x | y)),
        PrimOp::Bxor => Some(Op::ConstI64(x ^ y)),
        PrimOp::Eq => Some(Op::ConstBool(x == y)),
        PrimOp::Ne => Some(Op::ConstBool(x != y)),
        PrimOp::Lt => Some(Op::ConstBool(x < y)),
        PrimOp::Le => Some(Op::ConstBool(x <= y)),
        PrimOp::Gt => Some(Op::ConstBool(x > y)),
        PrimOp::Ge => Some(Op::ConstBool(x >= y)),
        _ => None,
    }
}

/// Fold an operation on two truth values, or decline.
pub fn fold_bool(op: PrimOp, x: bool, y: bool) -> (r: Option<Op>)
    ensures
        r.sem() == folded_bool(op, x, y),
{
    match op {
        PrimOp::And => Some(Op::ConstBool(x && y)),
        PrimOp::Or => Some(Op::ConstBool(x || y)),
        PrimOp::Eq => Some(Op::ConstBool(x == y)),
        PrimOp::Ne => Some(Op::ConstBool(x != y)),
        _ => None,
    }
}

fn fold_prim(
    op: PrimOp,
    args: &Vec<Value>,
    ints: &Vec<Option<i64>>,
    bools: &Vec<Option<bool>>,
) -> (r: Option<Op>)
    ensures
        r.sem() == folded_prim(op, args@, ints@, bools@),
{
    if args.len() == 1 {
        match op {
            PrimOp::Neg => match known_int(ints, args[0]) {
                Some(n) => Some(
                    Op::ConstI64(
                        if n == i64::MIN {
                            n
                        } else {
                            -n
                        },
                    ),
                ),
                None => None,
            },
            PrimOp::Not => match known_bool(bools, args[0]) {
                Some(x) => Some(Op::ConstBool(!x)),
                None => None,
            },
            _ => None,
        }
    } else if args.len() == 2 {
        match (known_int(ints, args[0]), known_int(ints, args[1])) {
            (Some(x), Some(y)) => fold_int(op, x, y),
            _ => match (known_bool(bools, args[0]), known_bool(bools, args[1])) {
                (Some(x), Some(y)) => fold_bool(op, x, y),
                _ => None,
            },
        }
    } else {
        None
    }
}

fn fold_block(b: &mut Block, ints: &Vec<Option<i64>>, bools: &Vec<Option<bool>>) -> (changed: bool)
    ensures
        final(b).sem() == folded_block(old(b).sem(), ints@, bools@),
        changed == block_folds(old(b).sem(), ints@, bools@),
{
    let ghost s = b.sem();
    let mut changed: bool = false;
    let mut k: usize = 0;
    while k < b.insts.len()
        invariant
            k <= b.insts.len() == s.insts.len(),
            b.id == old(b).id,
            b.params == old(b).params,
            b.term == old(b).term,
            s == old(b).sem(),
            forall|j: int|
                0 <= j < k ==> (#[trigger] b.insts[j]).sem() == folded_inst(
                    s.insts[j],
                    ints@,
                    bools@,
                ),
            forall|j: int|
                k <= j < b.insts.len() ==> (#[trigger] b.insts[j]).sem() == s.insts[j],
            changed == exists|j: int|
                0 <= j < k && folds_to(#[trigger] s.insts[j], ints@, bools@) is Some,
        decreases s.insts.len() - k,
    {
        assert(b.insts[k as int].sem() == s.insts[k as int]);
        let to = match &b.insts[k].op {
            Op::Prim(op, args) => fold_prim(*op, args, ints, bools),
            _ => None,
        };
        assert(to.sem() == folds_to(s.insts[k as int], ints@, bools@));
        if let Some(op) = to {
            let result = b.insts[k].result;
            let i = Inst { result, op };
            assert(i.sem() == folded_inst(s.insts[k as int], ints@, bools@));
            b.insts.set(k, i);
            changed = true;
        }
        k += 1;
    }
    assert(sems(b.insts@) =~= folded_block(s, ints@, bools@).insts);
    changed
}

/// Fold a function's operations on constants.
pub fn const_fold(f: &mut Func) -> (changed: bool)
    requires
        values_wf(old(f).sem()),
    ensures
        final(f).sem() == folded(old(f).sem()),
        changed == folds(old(f).sem()),
{
    let ghost s = f.sem();
    let ints = ints_of(f);
    let bools = bools_of(f);
    let mut changed: bool = false;
    let mut b: usize = 0;
    while b < f.blocks.len()
        invariant
            b <= f.blocks.len() == s.blocks.len(),
            s == old(f).sem(),
            ints@ == self::ints(s),
            bools@ == self::bools(s),
            f.sem() == (SFunc { blocks: sems(f.blocks@), ..s }),
            forall|j: int|
                0 <= j < b ==> (#[trigger] f.blocks[j]).sem() == folded_block(
                    s.blocks[j],
                    ints@,
                    bools@,
                ),
            forall|j: int|
                b <= j < f.blocks.len() ==> (#[trigger] f.blocks[j]).sem() == s.blocks[j],
            changed == exists|j: int|
                0 <= j < b && block_folds(#[trigger] s.blocks[j], ints@, bools@),
        decreases s.blocks.len() - b,
    {
        assert(f.blocks[b as int].sem() == s.blocks[b as int]);
        if fold_block(&mut f.blocks[b], &ints, &bools) {
            assert(block_folds(s.blocks[b as int], ints@, bools@));
            changed = true;
        }
        b += 1;
    }
    assert(sems(f.blocks@) =~= folded(s).blocks);
    changed
}

/// Turn a function's branches on constants into jumps.
pub fn fold_const_branches(f: &mut Func) -> (changed: bool)
    requires
        values_wf(old(f).sem()),
    ensures
        final(f).sem() == branches_folded(old(f).sem()),
        changed == branch_folds(old(f).sem()),
{
    let ghost s = f.sem();
    let bools = bools_of(f);
    let mut changed: bool = false;
    let mut b: usize = 0;
    while b < f.blocks.len()
        invariant
            b <= f.blocks.len() == s.blocks.len(),
            s == old(f).sem(),
            bools@ == self::bools(s),
            f.sem() == (SFunc { blocks: sems(f.blocks@), ..s }),
            forall|j: int|
                0 <= j < b ==> (#[trigger] f.blocks[j]).sem() == (SBlock {
                    term: folded_term(s.blocks[j].term, bools@),
                    ..s.blocks[j]
                }),
            forall|j: int|
                b <= j < f.blocks.len() ==> (#[trigger] f.blocks[j]).sem() == s.blocks[j],
            changed == exists|j: int|
                0 <= j < b && term_folds(#[trigger] s.blocks[j].term, bools@),
        decreases s.blocks.len() - b,
    {
        assert(f.blocks[b as int].sem() == s.blocks[b as int]);
        let taken: Option<Target> = match &f.blocks[b].term {
            Term::Branch { cond, then, els } => match known_bool(&bools, *cond) {
                Some(x) => Some(
                    if x {
                        then.clone()
                    } else {
                        els.clone()
                    },
                ),
                None => None,
            },
            _ => None,
        };
        if let Some(t) = taken {
            assert(term_folds(s.blocks[b as int].term, bools@));
            f.blocks[b].term = Term::Jump(t);
            changed = true;
        }
        b += 1;
    }
    assert(sems(f.blocks@) =~= branches_folded(s).blocks);
    changed
}

// ---- what folding keeps ----

/// Folding keeps a function well-formed, and makes it lighter where it changes it.
pub proof fn folding_keeps(f: SFunc)
    requires
        blocks_wf(f),
        values_wf(f),
    ensures
        blocks_wf(folded(f)),
        values_wf(folded(f)),
        weight(folded(f)) <= weight(f),
        folds(f) ==> weight(folded(f)) < weight(f),
        !folds(f) ==> folded(f) == f,
        folded(f).blocks.len() == f.blocks.len(),
{
    let g = folded(f);
    let (xs, ys) = (ints(f), bools(f));
    assert forall|b: int| 0 <= b < f.blocks.len() implies {
        &&& super::super::ssa::block_in_range(#[trigger] g.blocks[b], f.values.len())
        &&& block_weight(g.blocks[b]) <= block_weight(f.blocks[b])
        &&& block_folds(f.blocks[b], xs, ys) ==> block_weight(g.blocks[b]) < block_weight(
            f.blocks[b],
        )
        &&& !block_folds(f.blocks[b], xs, ys) ==> g.blocks[b] == f.blocks[b]
        &&& g.blocks[b].id == f.blocks[b].id
        &&& g.blocks[b].term == f.blocks[b].term
    } by {
        let x = f.blocks[b];
        let y = g.blocks[b];
        assert(super::super::ssa::block_in_range(x, f.values.len()));
        assert forall|k: int| 0 <= k < x.insts.len() implies inst_in_range(
            #[trigger] y.insts[k],
            f.values.len(),
        ) && inst_weight(y.insts[k]) <= inst_weight(x.insts[k]) && (folds_to(
            x.insts[k],
            xs,
            ys,
        ) is Some ==> inst_weight(y.insts[k]) < inst_weight(x.insts[k])) by {
            assert(inst_in_range(x.insts[k], f.values.len()));
            assert(y.insts[k] == folded_inst(x.insts[k], xs, ys));
            if folds_to(x.insts[k], xs, ys) is Some {
                assert(operands(y.insts[k].op) =~= seq![]);
            }
        }
        lemma_insts_lighter(x.insts, y.insts, x.insts.len() as int);
        if block_folds(x, xs, ys) {
            let k = choose|k: int|
                0 <= k < x.insts.len() && folds_to(#[trigger] x.insts[k], xs, ys) is Some;
            assert(inst_weight(y.insts[k]) < inst_weight(x.insts[k]));
        } else {
            assert(y.insts =~= x.insts);
        }
    }
    lemma_blocks_lighter(f.blocks, g.blocks, f.blocks.len() as int);
    if folds(f) {
        let b = choose|b: int| 0 <= b < f.blocks.len() && block_folds(#[trigger] f.blocks[b], xs, ys);
        assert(block_weight(g.blocks[b]) < block_weight(f.blocks[b]));
    } else {
        assert(g.blocks =~= f.blocks);
    }
}

/// Turning constant branches into jumps keeps a function well-formed, and makes it lighter
/// where it changes it.
pub proof fn branch_folding_keeps(f: SFunc)
    requires
        blocks_wf(f),
        values_wf(f),
    ensures
        blocks_wf(branches_folded(f)),
        values_wf(branches_folded(f)),
        weight(branches_folded(f)) <= weight(f),
        branch_folds(f) ==> weight(branches_folded(f)) < weight(f),
        !branch_folds(f) ==> branches_folded(f) == f,
        branches_folded(f).blocks.len() == f.blocks.len(),
{
    let g = branches_folded(f);
    let ys = bools(f);
    assert forall|b: int| 0 <= b < f.blocks.len() implies {
        &&& super::super::ssa::block_in_range(#[trigger] g.blocks[b], f.values.len())
        &&& block_weight(g.blocks[b]) <= block_weight(f.blocks[b])
        &&& term_folds(f.blocks[b].term, ys) ==> block_weight(g.blocks[b]) < block_weight(
            f.blocks[b],
        )
        &&& !term_folds(f.blocks[b].term, ys) ==> g.blocks[b] == f.blocks[b]
        &&& g.blocks[b].id == f.blocks[b].id
        &&& term_in_range(g.blocks[b].term, f.blocks.len())
    } by {
        let x = f.blocks[b];
        let y = g.blocks[b];
        assert(super::super::ssa::block_in_range(x, f.values.len()));
        assert(term_in_range(x.term, f.blocks.len()));
        if let STerm::Branch { cond, then, els } = x.term {
            let all = term_operands(x.term);
            assert(targets(x.term)[0] == then);
            assert(targets(x.term)[1] == els);
            assert forall|i: int| 0 <= i < then.args.len() implies (#[trigger] then.args[i]).0
                < f.values.len() by {
                assert(all[1 + i] == then.args[i]);
            }
            assert forall|i: int| 0 <= i < els.args.len() implies (#[trigger] els.args[i]).0
                < f.values.len() by {
                assert(all[1 + then.args.len() + i] == els.args[i]);
            }
        }
    }
    lemma_blocks_lighter(f.blocks, g.blocks, f.blocks.len() as int);
    if branch_folds(f) {
        let b = choose|b: int| 0 <= b < f.blocks.len() && term_folds(#[trigger] f.blocks[b].term, ys);
        assert(block_weight(g.blocks[b]) < block_weight(f.blocks[b]));
    } else {
        assert forall|b: int| 0 <= b < f.blocks.len() implies g.blocks[b] == f.blocks[b] by {
            assert(!term_folds(f.blocks[b].term, ys));
        }
        assert(g.blocks =~= f.blocks);
    }
}

} // verus!
