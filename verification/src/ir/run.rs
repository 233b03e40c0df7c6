//! What a function in SSA form does when it runs.
//!
//! Integers and truth values are what they are; everything else is a thing, about which a
//! world is asked.

use super::ssa::{operands, PrimOp, SBlock, SFunc, SInst, SOp, STarget, STerm, Value};
use vstd::prelude::*;

verus! {

/// What a value holds.
pub enum Val {
    Int(int),
    Bool(bool),
    Thing(int),
}

/// What every value holds.
pub type Held = spec_fn(Value) -> Val;

/// What comes of an operation that is not told here, on what its operands hold. The operation
/// is told by its shape.
pub type World = spec_fn(SOp, Seq<Val>) -> Val;

// ---- primitive operations ----

/// Whether a number is one of the machine.
pub open spec fn fits(n: int) -> bool {
    -0x8000_0000_0000_0000 <= n <= 0x7fff_ffff_ffff_ffff
}

pub open spec fn magnitude(n: int) -> int {
    if n < 0 {
        -n
    } else {
        n
    }
}

/// Whether `q` is `x` divided by `y`, and `r` what is left: the quotient is rounded towards
/// zero, so that what is left has the sign of `x`.
pub open spec fn divides(x: int, y: int, q: int, r: int) -> bool {
    &&& x == q * y + r
    &&& magnitude(r) < magnitude(y)
    &&& r < 0 ==> x < 0
    &&& r > 0 ==> x > 0
}

/// Whether `v` is what an operation on two integers comes to.
pub open spec fn comes_to(op: PrimOp, x: int, y: int, v: Val) -> bool {
    match op {
        PrimOp::Add => v == Val::Int(x + y) && fits(x + y),
        PrimOp::Sub => v == Val::Int(x - y) && fits(x - y),
        PrimOp::Mul => v == Val::Int(x * y) && fits(x * y),
        PrimOp::Div => v matches Val::Int(q) && fits(q) && exists|r: int| divides(x, y, q, r),
        PrimOp::Rem => v matches Val::Int(r) && exists|q: int| fits(q) && divides(x, y, q, r),
        PrimOp::Eq => v == Val::Bool(x == y),
        PrimOp::Ne => v == Val::Bool(x != y),
        PrimOp::Lt => v == Val::Bool(x < y),
        PrimOp::Le => v == Val::Bool(x <= y),
        PrimOp::Gt => v == Val::Bool(y < x),
        PrimOp::Ge => v == Val::Bool(y <= x),
        PrimOp::Band => v == Val::Int((x as i64 & y as i64) as int),
        PrimOp::Bor => v == Val::Int((x as i64 | y as i64) as int),
        PrimOp::Bxor => v == Val::Int((x as i64 ^ y as i64) as int),
        _ => false,
    }
}

/// Whether `v` is what an operation on two truth values comes to.
pub open spec fn decides(op: PrimOp, x: bool, y: bool, v: Val) -> bool {
    match op {
        PrimOp::And => v == Val::Bool(x && y),
        PrimOp::Or => v == Val::Bool(x || y),
        PrimOp::Eq => v == Val::Bool(x == y),
        PrimOp::Ne => v == Val::Bool(x != y),
        _ => false,
    }
}

/// Whether `v` is what a primitive operation comes to on what its operands hold.
pub open spec fn is_result(op: PrimOp, vs: Seq<Val>, v: Val) -> bool {
    if vs.len() == 1 {
        match (op, vs[0]) {
            (PrimOp::Neg, Val::Int(x)) => v == Val::Int(
                if fits(-x) {
                    -x
                } else {
                    x
                },
            ),
            (PrimOp::Not, Val::Bool(x)) => v == Val::Bool(!x),
            _ => false,
        }
    } else if vs.len() == 2 {
        match (vs[0], vs[1]) {
            (Val::Int(x), Val::Int(y)) => comes_to(op, x, y, v),
            (Val::Bool(x), Val::Bool(y)) => decides(op, x, y, v),
            _ => false,
        }
    } else {
        false
    }
}

pub proof fn lemma_one_quotient(x: int, y: int, q: int, r: int, p: int, s: int)
    requires
        divides(x, y, q, r),
        divides(x, y, p, s),
    ensures
        q == p,
        r == s,
{
    assert((q - p) * y == s - r) by (nonlinear_arith)
        requires
            q * y + r == p * y + s,
    ;
    assert(magnitude(s - r) < magnitude(y));
    assert(q == p) by (nonlinear_arith)
        requires
            (q - p) * y == s - r,
            magnitude(s - r) < magnitude(y),
    ;
}

/// A primitive operation comes to one thing.
pub proof fn results_are_unique(op: PrimOp, vs: Seq<Val>, a: Val, b: Val)
    requires
        is_result(op, vs, a),
        is_result(op, vs, b),
    ensures
        a == b,
{
    if vs.len() == 2 {
        if let (Val::Int(x), Val::Int(y)) = (vs[0], vs[1]) {
            if op is Div {
                let (q, p) = (a->Int_0, b->Int_0);
                let r = choose|r: int| divides(x, y, q, r);
                let s = choose|r: int| divides(x, y, p, r);
                lemma_one_quotient(x, y, q, r, p, s);
            }
            if op is Rem {
                let (r, s) = (a->Int_0, b->Int_0);
                let q = choose|q: int| fits(q) && divides(x, y, q, r);
                let p = choose|q: int| fits(q) && divides(x, y, q, s);
                lemma_one_quotient(x, y, q, r, p, s);
            }
        }
    }
}

// ---- a block ----

/// What values hold.
pub open spec fn held(vs: Seq<Value>, h: Held) -> Seq<Val> {
    Seq::new(vs.len(), |i: int| h(vs[i]))
}

/// An operation without its operands.
pub open spec fn shape(op: SOp) -> SOp {
    let none = Seq::<Value>::empty();
    let x = Value(0);
    match op {
        SOp::Prim(p, _) => SOp::Prim(p, none),
        SOp::Call { func, .. } => SOp::Call { func, args: none },
        SOp::Native { symbol, .. } => SOp::Native { symbol, args: none },
        SOp::CallClosure { .. } => SOp::CallClosure { callee: x, args: none },
        SOp::MakeClosure { func, .. } => SOp::MakeClosure { func, captures: none },
        SOp::MakeRecord { name, fields } => SOp::MakeRecord {
            name,
            fields: Seq::new(fields.len(), |i: int| (fields[i].0, x)),
        },
        SOp::Field { field, .. } => SOp::Field { base: x, field },
        SOp::MakeTuple(_) => SOp::MakeTuple(none),
        SOp::Elem { index, .. } => SOp::Elem { base: x, index },
        SOp::Cast(_) => SOp::Cast(x),
        SOp::IsErr(_) => SOp::IsErr(x),
        SOp::UnwrapOk(_) => SOp::UnwrapOk(x),
        SOp::UnwrapErr(_) => SOp::UnwrapErr(x),
        SOp::IsNull(_) => SOp::IsNull(x),
        SOp::IsVariant { variant, tested, .. } => SOp::IsVariant { value: x, variant, tested },
        SOp::MakeList(_) => SOp::MakeList(none),
        SOp::Index { covered, .. } => SOp::Index {
            base: x,
            index: x,
            covered: if covered is Some {
                Some(x)
            } else {
                None
            },
        },
        SOp::Retain(_) => SOp::Retain(x),
        SOp::Release(_) => SOp::Release(x),
        _ => op,
    }
}

/// What comes of an operation.
pub open spec fn outcome(op: SOp, h: Held, w: World) -> Val {
    match op {
        SOp::ConstI64(n) => Val::Int(n as int),
        SOp::ConstBool(b) => Val::Bool(b),
        SOp::Prim(p, args) => if exists|v: Val| is_result(p, held(args, h), v) {
            choose|v: Val| is_result(p, held(args, h), v)
        } else {
            w(shape(op), held(args, h))
        },
        _ => w(shape(op), held(operands(op), h)),
    }
}

/// One value made to hold something.
pub open spec fn with(h: Held, v: Value, x: Val) -> Held {
    |u: Value|
        if u == v {
            x
        } else {
            h(u)
        }
}

/// What values hold after an instruction.
pub open spec fn after_inst(i: SInst, h: Held, w: World) -> Held {
    match i.result {
        Some(v) => with(h, v, outcome(i.op, h, w)),
        None => h,
    }
}

/// What values hold after a run of instructions.
pub open spec fn after_insts(is: Seq<SInst>, h: Held, w: World) -> Held
    decreases is.len(),
{
    if is.len() == 0 {
        h
    } else {
        after_inst(is.last(), after_insts(is.drop_last(), h, w), w)
    }
}

/// What values hold once the parameters of a block hold what an edge passes, all at once.
pub open spec fn bound(ps: Seq<Value>, xs: Seq<Val>, h: Held) -> Held
    decreases ps.len(),
{
    if ps.len() == 0 || xs.len() < ps.len() {
        h
    } else {
        with(bound(ps.drop_last(), xs.take(ps.len() - 1), h), ps.last(), xs[ps.len() - 1])
    }
}

// ---- a run ----

/// What a run has come to.
pub enum Spot {
    /// The start of a block.
    At(int, Held),
    Returned(Option<Val>),
    Threw(Val),
    /// Something that is not told here.
    Beyond,
}

/// Where an edge leads.
pub open spec fn along(f: SFunc, t: STarget, h: Held) -> Spot {
    if t.to.0 < f.blocks.len() && t.args.len() == f.blocks[t.to.0 as int].params.len() {
        Spot::At(t.to.0 as int, bound(f.blocks[t.to.0 as int].params, held(t.args, h), h))
    } else {
        Spot::Beyond
    }
}

/// What comes after the end of a block.
pub open spec fn leaves(f: SFunc, t: STerm, h: Held) -> Spot {
    match t {
        STerm::Ret(Some(v)) => Spot::Returned(Some(h(v))),
        STerm::Ret(None) => Spot::Returned(None),
        STerm::Throw(v) => Spot::Threw(h(v)),
        STerm::Jump(t) => along(f, t, h),
        STerm::Branch { cond, then, els } => match h(cond) {
            Val::Bool(true) => along(f, then, h),
            Val::Bool(false) => along(f, els, h),
            _ => Spot::Beyond,
        },
        _ => Spot::Beyond,
    }
}

/// What comes after a block.
pub open spec fn through(f: SFunc, b: SBlock, h: Held, w: World) -> Spot {
    leaves(f, b.term, after_insts(b.insts, h, w))
}

/// What a run comes to after `n` blocks.
pub open spec fn runs(f: SFunc, s: Spot, w: World, n: nat) -> Spot
    decreases n,
{
    if n == 0 {
        s
    } else {
        match s {
            Spot::At(b, h) => if 0 <= b < f.blocks.len() {
                runs(f, through(f, f.blocks[b], h, w), w, (n - 1) as nat)
            } else {
                s
            },
            _ => s,
        }
    }
}

// ---- step by step ----

/// A place in a run: a block, how many of its instructions have run, and what values hold.
pub struct Place {
    pub block: int,
    pub at: int,
    pub holds: Held,
}

/// The next place, if there is one.
pub open spec fn next(f: SFunc, p: Place, w: World) -> Option<Place> {
    if !(0 <= p.block < f.blocks.len()) {
        None
    } else {
        let b = f.blocks[p.block];
        if 0 <= p.at < b.insts.len() {
            Some(Place { at: p.at + 1, holds: after_inst(b.insts[p.at], p.holds, w), ..p })
        } else {
            match leaves(f, b.term, p.holds) {
                Spot::At(c, h) => Some(Place { block: c, at: 0, holds: h }),
                _ => None,
            }
        }
    }
}

/// The place that a run comes to from another in `n` steps.
pub open spec fn comes_by(f: SFunc, p: Place, w: World, n: nat) -> Option<Place>
    decreases n,
{
    if n == 0 {
        Some(p)
    } else {
        match next(f, p, w) {
            Some(q) => comes_by(f, q, w, (n - 1) as nat),
            None => None,
        }
    }
}

/// Whether a run comes from one place to another.
pub open spec fn comes(f: SFunc, p: Place, q: Place, w: World) -> bool {
    exists|n: nat| comes_by(f, p, w, n) == Some(q)
}

proof fn lemma_comes_by_add(f: SFunc, p: Place, q: Place, w: World, m: nat, n: nat)
    requires
        comes_by(f, p, w, m) == Some(q),
    ensures
        comes_by(f, p, w, m + n) == comes_by(f, q, w, n),
    decreases m,
{
    if m > 0 {
        lemma_comes_by_add(f, next(f, p, w)->0, q, w, (m - 1) as nat, n);
    }
}

pub proof fn lemma_comes_on(f: SFunc, p: Place, q: Place, r: Place, w: World)
    requires
        comes(f, p, q, w),
        comes(f, q, r, w),
    ensures
        comes(f, p, r, w),
{
    let m = choose|m: nat| comes_by(f, p, w, m) == Some(q);
    let n = choose|n: nat| comes_by(f, q, w, n) == Some(r);
    lemma_comes_by_add(f, p, q, w, m, n);
}

pub proof fn lemma_comes_next(f: SFunc, p: Place, q: Place, w: World)
    requires
        next(f, p, w) == Some(q),
    ensures
        comes(f, p, q, w),
{
    assert(comes_by(f, q, w, 0) == Some(q));
    assert(comes_by(f, p, w, 1) == Some(q));
}

pub proof fn lemma_comes_nowhere(f: SFunc, p: Place, w: World)
    ensures
        comes(f, p, p, w),
{
    assert(comes_by(f, p, w, 0) == Some(p));
}

} // verus!
