//! What folding computes, and that a folded function runs as it did.

use super::fold::{
    bool_in, bool_of, bools, branches_folded, folded, folded_bool, folded_inst, folded_int,
    folds_to, int_in, int_of, ints, known,
};
use crate::ir::run::{
    after_inst, after_insts, along, bound, comes_to, decides, divides, fits, held, is_result,
    leaves, magnitude, outcome, results_are_unique, runs, with, Held, Spot, Val, World,
};
use crate::ir::ssa::{PrimOp, SFunc, SInst, SOp, STarget, STerm, Value};
use vstd::prelude::*;

verus! {

// ---- one operation ----

/// What a constant is.
pub open spec fn constant(op: SOp) -> Option<Val> {
    match op {
        SOp::ConstI64(n) => Some(Val::Int(n as int)),
        SOp::ConstBool(b) => Some(Val::Bool(b)),
        _ => None,
    }
}

proof fn lemma_division(x: int, y: int) -> (r: (int, int))
    requires
        y != 0,
    ensures
        divides(x, y, r.0, r.1),
        r.0 == if x == 0 {
            0
        } else if x > 0 && y > 0 {
            x / y
        } else if x < 0 && y < 0 {
            ((x * -1) / (y * -1))
        } else if x < 0 {
            ((x * -1) / y) * -1
        } else {
            (x / (y * -1)) * -1
        },
        r.1 == if x == 0 {
            0
        } else if x > 0 && y > 0 {
            x % y
        } else if x < 0 && y < 0 {
            ((x * -1) % (y * -1)) * -1
        } else if x < 0 {
            ((x * -1) % y) * -1
        } else {
            x % (y * -1)
        },
{
    let (a, d) = (magnitude(x), magnitude(y));
    vstd::arithmetic::div_mod::lemma_fundamental_div_mod(a, d);
    let (q, r) = (a / d, a % d);
    assert(0 <= r < d);
    assert(a == d * q + r);
    if x == 0 {
        assert(0 * y == 0);
        (0, 0)
    } else if x > 0 && y > 0 {
        assert(q * y == d * q) by (nonlinear_arith)
            requires
                y == d,
        ;
        (q, r)
    } else if x < 0 && y < 0 {
        assert(q * y == -(d * q)) by (nonlinear_arith)
            requires
                y == -d,
        ;
        (q, -r)
    } else if x < 0 {
        assert((-q) * y == -(d * q)) by (nonlinear_arith)
            requires
                y == d,
        ;
        (-q, -r)
    } else {
        assert((-q) * y == d * q) by (nonlinear_arith)
            requires
                y == -d,
        ;
        (-q, r)
    }
}

proof fn lemma_no_quotient_by_zero(x: int, q: int, r: int)
    ensures
        !divides(x, 0, q, r),
{
}

/// An operation on two integers folds to what it comes to, and folds exactly where it comes
/// to something: where it overflows or divides by zero, it stays.
pub proof fn folding_integers_computes(op: PrimOp, x: i64, y: i64)
    ensures
        folded_int(op, x, y) matches Some(c) ==> (constant(c) matches Some(v) && comes_to(
            op,
            x as int,
            y as int,
            v,
        )),
        folded_int(op, x, y) is Some <==> exists|v: Val| comes_to(op, x as int, y as int, v),
{
    let (a, b) = (x as int, y as int);
    if op is Div || op is Rem {
        if y == 0 {
            assert forall|q: int, r: int| !divides(a, b, q, r) by {
                lemma_no_quotient_by_zero(a, q, r);
            }
        } else {
            let (q, r) = lemma_division(a, b);
            assert(divides(a, b, q, r));
            if !fits(q) {
                assert forall|p: int, s: int| divides(a, b, p, s) implies p == q by {
                    crate::ir::run::lemma_one_quotient(a, b, p, s, q, r);
                }
            }
            assert(fits(q) ==> comes_to(PrimOp::Div, a, b, Val::Int(q)));
            assert(fits(q) ==> comes_to(PrimOp::Rem, a, b, Val::Int(r)));
            assert(fits(q) <==> !(a == -0x8000_0000_0000_0000 && b == -1)) by {
                lemma_quotient_fits(a, b, q, r);
            }
        }
    }
    if let Some(c) = folded_int(op, x, y) {
        assert(comes_to(op, a, b, constant(c)->0));
    } else if !(op is Div || op is Rem) {
        assert(forall|v: Val| !comes_to(op, a, b, v));
    }
}

proof fn lemma_quotient_fits(x: int, y: int, q: int, r: int)
    requires
        fits(x),
        fits(y),
        divides(x, y, q, r),
    ensures
        fits(q) <==> !(x == -0x8000_0000_0000_0000 && y == -1),
        magnitude(q) <= magnitude(x),
{
    assert(magnitude(q) <= magnitude(x)) by (nonlinear_arith)
        requires
            x == q * y + r,
            magnitude(r) < magnitude(y),
            r < 0 ==> x < 0,
            r > 0 ==> x > 0,
    ;
    if x == -0x8000_0000_0000_0000 && y == -1 {
        assert(r == 0);
        assert(q == -x) by (nonlinear_arith)
            requires
                x == q * y + r,
                y == -1,
                r == 0,
        ;
    } else if !fits(q) {
        assert(x == -0x8000_0000_0000_0000);
        assert(q == -x);
        assert(y == -1) by (nonlinear_arith)
            requires
                x == q * y + r,
                q == -x,
                x == -0x8000_0000_0000_0000,
                magnitude(r) < magnitude(y),
                r < 0 ==> x < 0,
                r > 0 ==> x > 0,
        ;
    }
}

/// An operation on two truth values folds to what it comes to, and folds exactly where it
/// comes to something.
pub proof fn folding_truth_values_computes(op: PrimOp, x: bool, y: bool)
    ensures
        folded_bool(op, x, y) matches Some(c) ==> (constant(c) matches Some(v) && decides(
            op,
            x,
            y,
            v,
        )),
        folded_bool(op, x, y) is Some <==> exists|v: Val| decides(op, x, y, v),
{
    if let Some(c) = folded_bool(op, x, y) {
        assert(decides(op, x, y, constant(c)->0));
    } else {
        assert(forall|v: Val| !decides(op, x, y, v));
    }
}

// ---- constants ----

/// A function in which what makes a constant is all that makes that value.
pub open spec fn steady(f: SFunc) -> bool {
    &&& forall|b: int, k: int, a: int, j: int|
        0 <= b < f.blocks.len() && 0 <= k < f.blocks[b].insts.len() && 0 <= a < f.blocks.len() && 0
            <= j < f.blocks[a].insts.len() && constant((#[trigger] f.blocks[b].insts[k]).op) is Some
            && f.blocks[b].insts[k].result is Some && (#[trigger] f.blocks[a].insts[j]).result
            == f.blocks[b].insts[k].result ==> f.blocks[a].insts[j].op == f.blocks[b].insts[k].op
    &&& forall|b: int, k: int, a: int, j: int|
        0 <= b < f.blocks.len() && 0 <= k < f.blocks[b].insts.len() && 0 <= a < f.blocks.len() && 0
            <= j < f.blocks[a].params.len() && constant((#[trigger] f.blocks[b].insts[k]).op) is Some
            ==> f.blocks[b].insts[k].result != Some(#[trigger] f.blocks[a].params[j])
}

/// Whether every constant is held where it is made.
pub open spec fn steadily_held(f: SFunc, h: Held) -> bool {
    forall|b: int, k: int|
        0 <= b < f.blocks.len() && 0 <= k < f.blocks[b].insts.len() && constant(
            (#[trigger] f.blocks[b].insts[k]).op,
        ) is Some && f.blocks[b].insts[k].result is Some ==> h(f.blocks[b].insts[k].result->0)
            == constant(f.blocks[b].insts[k].op)->0
}

proof fn lemma_int_in(is: Seq<SInst>, v: Value, n: int) -> (k: int)
    requires
        int_in(is, v, n) is Some,
        n <= is.len(),
    ensures
        0 <= k < n,
        is[k].result == Some(v),
        is[k].op == SOp::ConstI64(int_in(is, v, n)->0),
    decreases n,
{
    if is[n - 1].op is ConstI64 && is[n - 1].result == Some(v) {
        n - 1
    } else {
        lemma_int_in(is, v, n - 1)
    }
}

proof fn lemma_int_held(f: SFunc, v: Value, n: int, h: Held)
    requires
        int_of(f, v, n) is Some,
        n <= f.blocks.len(),
        steadily_held(f, h),
    ensures
        h(v) == Val::Int(int_of(f, v, n)->0 as int),
    decreases n,
{
    let is = f.blocks[n - 1].insts;
    if int_in(is, v, is.len() as int) is Some {
        let k = lemma_int_in(is, v, is.len() as int);
        assert(constant(f.blocks[n - 1].insts[k].op) is Some);
    } else {
        lemma_int_held(f, v, n - 1, h);
    }
}

proof fn lemma_bool_in(is: Seq<SInst>, v: Value, n: int) -> (k: int)
    requires
        bool_in(is, v, n) is Some,
        n <= is.len(),
    ensures
        0 <= k < n,
        is[k].result == Some(v),
        is[k].op == SOp::ConstBool(bool_in(is, v, n)->0),
    decreases n,
{
    if is[n - 1].op is ConstBool && is[n - 1].result == Some(v) {
        n - 1
    } else {
        lemma_bool_in(is, v, n - 1)
    }
}

proof fn lemma_bool_held(f: SFunc, v: Value, n: int, h: Held)
    requires
        bool_of(f, v, n) is Some,
        n <= f.blocks.len(),
        steadily_held(f, h),
    ensures
        h(v) == Val::Bool(bool_of(f, v, n)->0),
    decreases n,
{
    let is = f.blocks[n - 1].insts;
    if bool_in(is, v, is.len() as int) is Some {
        let k = lemma_bool_in(is, v, is.len() as int);
        assert(constant(f.blocks[n - 1].insts[k].op) is Some);
    } else {
        lemma_bool_held(f, v, n - 1, h);
    }
}

proof fn lemma_known_int(f: SFunc, v: Value, h: Held)
    requires
        steadily_held(f, h),
    ensures
        known(ints(f), v) matches Some(n) ==> h(v) == Val::Int(n as int),
{
    if known(ints(f), v) is Some {
        lemma_int_held(f, v, f.blocks.len() as int, h);
    }
}

proof fn lemma_known_bool(f: SFunc, v: Value, h: Held)
    requires
        steadily_held(f, h),
    ensures
        known(bools(f), v) matches Some(x) ==> h(v) == Val::Bool(x),
{
    if known(bools(f), v) is Some {
        lemma_bool_held(f, v, f.blocks.len() as int, h);
    }
}

// ---- a folded function runs as it did ----

proof fn lemma_outcome_is(op: PrimOp, args: Seq<Value>, h: Held, w: World, v: Val)
    requires
        is_result(op, held(args, h), v),
    ensures
        outcome(SOp::Prim(op, args), h, w) == v,
{
    let x = choose|x: Val| is_result(op, held(args, h), x);
    results_are_unique(op, held(args, h), v, x);
}

proof fn lemma_folded_outcome(f: SFunc, i: SInst, h: Held, w: World)
    requires
        steadily_held(f, h),
    ensures
        outcome(folded_inst(i, ints(f), bools(f)).op, h, w) == outcome(i.op, h, w),
{
    if let Some(c) = folds_to(i, ints(f), bools(f)) {
        let (op, args) = (i.op->Prim_0, i.op->Prim_1);
        let vs = held(args, h);
        if args.len() == 1 {
            lemma_known_int(f, args[0], h);
            lemma_known_bool(f, args[0], h);
            assert(vs[0] == h(args[0]));
            assert(is_result(op, vs, constant(c)->0));
        } else {
            lemma_known_int(f, args[0], h);
            lemma_known_int(f, args[1], h);
            lemma_known_bool(f, args[0], h);
            lemma_known_bool(f, args[1], h);
            assert(vs[0] == h(args[0]));
            assert(vs[1] == h(args[1]));
            if known(ints(f), args[0]) is Some && known(ints(f), args[1]) is Some {
                folding_integers_computes(
                    op,
                    known(ints(f), args[0])->0,
                    known(ints(f), args[1])->0,
                );
            } else {
                folding_truth_values_computes(
                    op,
                    known(bools(f), args[0])->0,
                    known(bools(f), args[1])->0,
                );
            }
            assert(is_result(op, vs, constant(c)->0));
        }
        lemma_outcome_is(op, args, h, w, constant(c)->0);
    }
}

proof fn lemma_stays_held(f: SFunc, b: int, k: int, h: Held, w: World)
    requires
        steady(f),
        steadily_held(f, h),
        0 <= b < f.blocks.len(),
        0 <= k < f.blocks[b].insts.len(),
    ensures
        steadily_held(f, after_inst(f.blocks[b].insts[k], h, w)),
{
    let i = f.blocks[b].insts[k];
    let g = after_inst(i, h, w);
    assert forall|a: int, j: int|
        0 <= a < f.blocks.len() && 0 <= j < f.blocks[a].insts.len() && constant(
            (#[trigger] f.blocks[a].insts[j]).op,
        ) is Some && f.blocks[a].insts[j].result is Some implies g(f.blocks[a].insts[j].result->0)
        == constant(f.blocks[a].insts[j].op)->0 by {
        let x = f.blocks[a].insts[j];
        assert(h(x.result->0) == constant(x.op)->0);
        if i.result == x.result {
            assert(i.op == x.op);
        }
    }
}

proof fn lemma_bound_elsewhere(ps: Seq<Value>, xs: Seq<Val>, h: Held, v: Value)
    requires
        !ps.contains(v),
    ensures
        bound(ps, xs, h)(v) == h(v),
    decreases ps.len(),
{
    if ps.len() > 0 && xs.len() >= ps.len() {
        assert(ps.last() != v) by {
            assert(ps[ps.len() - 1] == ps.last());
        }
        assert(!ps.drop_last().contains(v)) by {
            if ps.drop_last().contains(v) {
                let k = choose|k: int| 0 <= k < ps.len() - 1 && ps.drop_last()[k] == v;
                assert(ps[k] == v);
            }
        }
        lemma_bound_elsewhere(ps.drop_last(), xs.take(ps.len() - 1), h, v);
    }
}

proof fn lemma_edge_stays_held(f: SFunc, t: STarget, h: Held)
    requires
        steady(f),
        steadily_held(f, h),
    ensures
        along(f, t, h) matches Spot::At(_, g) ==> steadily_held(f, g),
{
    if let Spot::At(b, g) = along(f, t, h) {
        let ps = f.blocks[b].params;
        assert forall|a: int, j: int|
            0 <= a < f.blocks.len() && 0 <= j < f.blocks[a].insts.len() && constant(
                (#[trigger] f.blocks[a].insts[j]).op,
            ) is Some && f.blocks[a].insts[j].result is Some implies g(
            f.blocks[a].insts[j].result->0,
        ) == constant(f.blocks[a].insts[j].op)->0 by {
            let v = f.blocks[a].insts[j].result->0;
            assert(!ps.contains(v)) by {
                if ps.contains(v) {
                    let q = choose|q: int| 0 <= q < ps.len() && ps[q] == v;
                    assert(f.blocks[b].params[q] == v);
                }
            }
            lemma_bound_elsewhere(ps, held(t.args, h), h, v);
        }
    }
}

proof fn lemma_folded_insts(f: SFunc, b: int, n: int, h: Held, w: World)
    requires
        steady(f),
        steadily_held(f, h),
        0 <= b < f.blocks.len(),
        0 <= n <= f.blocks[b].insts.len(),
    ensures
        after_insts(folded(f).blocks[b].insts.take(n), h, w) == after_insts(
            f.blocks[b].insts.take(n),
            h,
            w,
        ),
        steadily_held(f, after_insts(f.blocks[b].insts.take(n), h, w)),
    decreases n,
{
    let (x, y) = (f.blocks[b].insts, folded(f).blocks[b].insts);
    if n > 0 {
        lemma_folded_insts(f, b, n - 1, h, w);
        assert(x.take(n).drop_last() =~= x.take(n - 1));
        assert(y.take(n).drop_last() =~= y.take(n - 1));
        assert(y.take(n).last() == folded_inst(x[n - 1], ints(f), bools(f)));
        assert(x.take(n).last() == x[n - 1]);
        let g = after_insts(x.take(n - 1), h, w);
        lemma_folded_outcome(f, x[n - 1], g, w);
        lemma_stays_held(f, b, n - 1, g, w);
    }
}

proof fn lemma_leaving_stays_held(f: SFunc, t: STerm, h: Held)
    requires
        steady(f),
        steadily_held(f, h),
    ensures
        leaves(f, t, h) matches Spot::At(_, g) ==> steadily_held(f, g),
{
    match t {
        STerm::Jump(e) => lemma_edge_stays_held(f, e, h),
        STerm::Branch { cond, then, els } => {
            lemma_edge_stays_held(f, then, h);
            lemma_edge_stays_held(f, els, h);
        },
        _ => {},
    }
}

/// Where constants are held, the folded function does what the function does, block for
/// block, and comes to the same.
pub proof fn folding_keeps_runs(f: SFunc, b: int, h: Held, w: World, n: nat)
    requires
        steady(f),
        steadily_held(f, h),
    ensures
        runs(folded(f), Spot::At(b, h), w, n) == runs(f, Spot::At(b, h), w, n),
    decreases n,
{
    let g = folded(f);
    if n > 0 && 0 <= b < f.blocks.len() {
        let (x, y) = (f.blocks[b], g.blocks[b]);
        lemma_folded_insts(f, b, x.insts.len() as int, h, w);
        assert(x.insts.take(x.insts.len() as int) =~= x.insts);
        assert(y.insts.take(x.insts.len() as int) =~= y.insts);
        let e = after_insts(x.insts, h, w);
        assert(leaves(g, y.term, e) == leaves(f, x.term, e));
        lemma_leaving_stays_held(f, x.term, e);
        match leaves(f, x.term, e) {
            Spot::At(c, k) => folding_keeps_runs(f, c, k, w, (n - 1) as nat),
            s => {
                lemma_over(f, g, s, w, (n - 1) as nat);
            },
        }
    }
}

proof fn lemma_over(f: SFunc, g: SFunc, s: Spot, w: World, n: nat)
    requires
        !(s is At),
    ensures
        runs(f, s, w, n) == s,
        runs(g, s, w, n) == s,
{
}

/// Where constants are held, a function whose constant branches are jumps does what it did
/// with the branches.
pub proof fn folding_branches_keeps_runs(f: SFunc, b: int, h: Held, w: World, n: nat)
    requires
        steady(f),
        steadily_held(f, h),
    ensures
        runs(branches_folded(f), Spot::At(b, h), w, n) == runs(f, Spot::At(b, h), w, n),
    decreases n,
{
    let g = branches_folded(f);
    if n > 0 && 0 <= b < f.blocks.len() {
        let (x, y) = (f.blocks[b], g.blocks[b]);
        lemma_folded_insts(f, b, x.insts.len() as int, h, w);
        assert(x.insts.take(x.insts.len() as int) =~= x.insts);
        let e = after_insts(x.insts, h, w);
        if let STerm::Branch { cond, .. } = x.term {
            lemma_known_bool(f, cond, e);
        }
        assert(leaves(g, y.term, e) == leaves(f, x.term, e));
        lemma_leaving_stays_held(f, x.term, e);
        match leaves(f, x.term, e) {
            Spot::At(c, k) => folding_branches_keeps_runs(f, c, k, w, (n - 1) as nat),
            s => {
                lemma_over(f, g, s, w, (n - 1) as nat);
            },
        }
    }
}

} // verus!
