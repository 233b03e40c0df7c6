//! The values that instructions and terminators name, and putting others in their place.

use super::super::ssa::{
    arm_args, arms_sem, copy_opt_repr, copy_values, named_values_sem, operands, targets,
    term_operands, values_below, Inst, Op, SInst, SOp, SSwitchKey, STarget, STerm, SwitchKey,
    Target, Term, Value,
};
use crate::syntax::{opt_name_of, Node};
use vstd::prelude::*;

verus! {

/// What stands for a value: the argument that goes to the last parameter it is.
pub open spec fn put_for(params: Seq<Value>, args: Seq<Value>, v: Value, n: int) -> Value
    decreases n,
{
    if n <= 0 {
        v
    } else if n <= args.len() && params[n - 1] == v {
        args[n - 1]
    } else {
        put_for(params, args, v, n - 1)
    }
}

/// What stands for a value once arguments are put for parameters.
pub open spec fn put(params: Seq<Value>, args: Seq<Value>, v: Value) -> Value {
    put_for(params, args, v, params.len() as int)
}

pub open spec fn put_all(params: Seq<Value>, args: Seq<Value>, vs: Seq<Value>) -> Seq<Value> {
    Seq::new(vs.len(), |i: int| put(params, args, vs[i]))
}

/// An operation with arguments put for parameters.
pub open spec fn put_op(p: Seq<Value>, a: Seq<Value>, op: SOp) -> SOp {
    match op {
        SOp::Prim(o, vs) => SOp::Prim(o, put_all(p, a, vs)),
        SOp::MakeTuple(vs) => SOp::MakeTuple(put_all(p, a, vs)),
        SOp::MakeList(vs) => SOp::MakeList(put_all(p, a, vs)),
        SOp::Call { func, args } => SOp::Call { func, args: put_all(p, a, args) },
        SOp::Native { symbol, args } => SOp::Native { symbol, args: put_all(p, a, args) },
        SOp::CallClosure { callee, args } => SOp::CallClosure {
            callee: put(p, a, callee),
            args: put_all(p, a, args),
        },
        SOp::MakeClosure { func, captures } => SOp::MakeClosure {
            func,
            captures: put_all(p, a, captures),
        },
        SOp::MakeRecord { name, fields } => SOp::MakeRecord {
            name,
            fields: Seq::new(fields.len(), |i: int| (fields[i].0, put(p, a, fields[i].1))),
        },
        SOp::Field { base, field } => SOp::Field { base: put(p, a, base), field },
        SOp::Elem { base, index } => SOp::Elem { base: put(p, a, base), index },
        SOp::Index { base, index, covered } => SOp::Index {
            base: put(p, a, base),
            index: put(p, a, index),
            covered: match covered {
                Some(c) => Some(put(p, a, c)),
                None => None,
            },
        },
        SOp::Cast(v) => SOp::Cast(put(p, a, v)),
        SOp::IsNull(v) => SOp::IsNull(put(p, a, v)),
        SOp::IsErr(v) => SOp::IsErr(put(p, a, v)),
        SOp::UnwrapOk(v) => SOp::UnwrapOk(put(p, a, v)),
        SOp::UnwrapErr(v) => SOp::UnwrapErr(put(p, a, v)),
        SOp::IsVariant { value, variant, tested } => SOp::IsVariant {
            value: put(p, a, value),
            variant,
            tested,
        },
        SOp::Retain(v) => SOp::Retain(put(p, a, v)),
        SOp::Release(v) => SOp::Release(put(p, a, v)),
        _ => op,
    }
}

pub open spec fn put_target(p: Seq<Value>, a: Seq<Value>, t: STarget) -> STarget {
    STarget { to: t.to, args: put_all(p, a, t.args) }
}

/// A terminator with arguments put for parameters.
pub open spec fn put_term(p: Seq<Value>, a: Seq<Value>, t: STerm) -> STerm {
    match t {
        STerm::Ret(Some(v)) => STerm::Ret(Some(put(p, a, v))),
        STerm::Throw(v) => STerm::Throw(put(p, a, v)),
        STerm::Jump(t) => STerm::Jump(put_target(p, a, t)),
        STerm::Branch { cond, then, els } => STerm::Branch {
            cond: put(p, a, cond),
            then: put_target(p, a, then),
            els: put_target(p, a, els),
        },
        STerm::Switch { on, arms, default } => STerm::Switch {
            on: put(p, a, on),
            arms: Seq::new(arms.len(), |i: int| (arms[i].0, put_target(p, a, arms[i].1))),
            default: put_target(p, a, default),
        },
        _ => t,
    }
}

pub open spec fn put_inst(p: Seq<Value>, a: Seq<Value>, i: SInst) -> SInst {
    SInst { op: put_op(p, a, i.op), ..i }
}

// ---- reading ----

fn one(v: Value) -> (r: Vec<Value>)
    ensures
        r@ == seq![v],
{
    let mut r: Vec<Value> = Vec::new();
    r.push(v);
    assert(r@ =~= seq![v]);
    r
}

/// The values that an operation reads, in order.
pub fn operands_of(op: &Op) -> (r: Vec<Value>)
    ensures
        r@ == operands(op.sem()),
{
    match op {
        Op::Prim(_, vs) | Op::MakeTuple(vs) | Op::MakeList(vs) => copy_values(vs),
        Op::Call { args, .. } | Op::Native { args, .. } => copy_values(args),
        Op::CallClosure { callee, args } => {
            let mut r = one(*callee);
            let mut rest = copy_values(args);
            r.append(&mut rest);
            assert(r@ =~= seq![*callee] + args@);
            r
        },
        Op::MakeClosure { captures, .. } => copy_values(captures),
        Op::MakeRecord { fields, .. } => {
            let ghost s = named_values_sem(fields@);
            let mut r: Vec<Value> = Vec::new();
            let mut i: usize = 0;
            while i < fields.len()
                invariant
                    i <= fields.len(),
                    s == named_values_sem(fields@),
                    r.len() == i,
                    forall|k: int| 0 <= k < i ==> #[trigger] r[k] == s[k].1,
                decreases fields.len() - i,
            {
                r.push(fields[i].1);
                i += 1;
            }
            assert(r@ =~= s.map_values(|f: (Seq<char>, Value)| f.1));
            assert(op.sem()->MakeRecord_fields == s);
            r
        },
        Op::Field { base, .. } | Op::Elem { base, .. } => one(*base),
        Op::Index { base, index, covered } => {
            let mut r = one(*base);
            r.push(*index);
            match covered {
                Some(c) => {
                    r.push(*c);
                    assert(r@ =~= seq![*base, *index, *c]);
                },
                None => {
                    assert(r@ =~= seq![*base, *index]);
                },
            }
            r
        },
        Op::Cast(v)
        | Op::IsNull(v)
        | Op::IsErr(v)
        | Op::UnwrapOk(v)
        | Op::UnwrapErr(v)
        | Op::IsVariant { value: v, .. }
        | Op::Retain(v)
        | Op::Release(v) => one(*v),
        Op::ConstI64(_)
        | Op::ConstF64(_)
        | Op::ConstBool(_)
        | Op::ConstStr(_)
        | Op::ConstNull
        | Op::ConstUnit
        | Op::ConstAtom(_) => Vec::new(),
    }
}

// ---- rewriting ----

/// What stands for a value once arguments are put for parameters.
pub fn put_value(params: &Vec<Value>, args: &Vec<Value>, v: Value) -> (r: Value)
    ensures
        r == put(params@, args@, v),
{
    let mut n: usize = params.len();
    while n > 0
        invariant
            n <= params.len(),
            put(params@, args@, v) == put_for(params@, args@, v, n as int),
        decreases n,
    {
        if n <= args.len() && params[n - 1] == v {
            return args[n - 1];
        }
        n -= 1;
    }
    v
}

fn put_values(p: &Vec<Value>, a: &Vec<Value>, vs: &Vec<Value>) -> (r: Vec<Value>)
    ensures
        r@ == put_all(p@, a@, vs@),
{
    let mut r: Vec<Value> = Vec::new();
    let mut i: usize = 0;
    while i < vs.len()
        invariant
            i <= vs.len(),
            r.len() == i,
            forall|k: int| 0 <= k < i ==> #[trigger] r[k] == put(p@, a@, vs[k]),
        decreases vs.len() - i,
    {
        r.push(put_value(p, a, vs[i]));
        i += 1;
    }
    assert(r@ =~= put_all(p@, a@, vs@));
    r
}

fn put_fields(p: &Vec<Value>, a: &Vec<Value>, fs: &Vec<(String, Value)>) -> (r: Vec<
    (String, Value),
>)
    ensures
        named_values_sem(r@) == Seq::new(
            fs@.len(),
            |i: int|
                (named_values_sem(fs@)[i].0, put(p@, a@, named_values_sem(fs@)[i].1)),
        ),
{
    let mut r: Vec<(String, Value)> = Vec::new();
    let mut i: usize = 0;
    while i < fs.len()
        invariant
            i <= fs.len(),
            r.len() == i,
            forall|k: int|
                0 <= k < i ==> (#[trigger] r[k]).0@ == fs[k].0@ && r[k].1 == put(p@, a@, fs[k].1),
        decreases fs.len() - i,
    {
        r.push((fs[i].0.clone(), put_value(p, a, fs[i].1)));
        i += 1;
    }
    assert(named_values_sem(r@) =~= Seq::new(
        fs@.len(),
        |i: int| (named_values_sem(fs@)[i].0, put(p@, a@, named_values_sem(fs@)[i].1)),
    ));
    r
}

/// An operation with arguments put for parameters.
pub fn rewrite_op(op: &Op, p: &Vec<Value>, a: &Vec<Value>) -> (r: Op)
    ensures
        r.sem() == put_op(p@, a@, op.sem()),
{
    match op {
        Op::Prim(o, vs) => Op::Prim(*o, put_values(p, a, vs)),
        Op::MakeTuple(vs) => Op::MakeTuple(put_values(p, a, vs)),
        Op::MakeList(vs) => Op::MakeList(put_values(p, a, vs)),
        Op::Call { func, args } => Op::Call { func: func.clone(), args: put_values(p, a, args) },
        Op::Native { symbol, args } => Op::Native {
            symbol: symbol.clone(),
            args: put_values(p, a, args),
        },
        Op::CallClosure { callee, args } => Op::CallClosure {
            callee: put_value(p, a, *callee),
            args: put_values(p, a, args),
        },
        Op::MakeClosure { func, captures } => Op::MakeClosure {
            func: func.clone(),
            captures: put_values(p, a, captures),
        },
        Op::MakeRecord { name, fields } => {
            let fs = put_fields(p, a, fields);
            let n = match name {
                Some(s) => Some(s.clone()),
                None => None,
            };
            assert(opt_name_of(n) == opt_name_of(*name));
            Op::MakeRecord { name: n, fields: fs }
        },
        Op::Field { base, field } => Op::Field {
            base: put_value(p, a, *base),
            field: field.clone(),
        },
        Op::Elem { base, index } => Op::Elem { base: put_value(p, a, *base), index: *index },
        Op::Index { base, index, covered } => Op::Index {
            base: put_value(p, a, *base),
            index: put_value(p, a, *index),
            covered: match covered {
                Some(c) => Some(put_value(p, a, *c)),
                None => None,
            },
        },
        Op::Cast(v) => Op::Cast(put_value(p, a, *v)),
        Op::IsNull(v) => Op::IsNull(put_value(p, a, *v)),
        Op::IsErr(v) => Op::IsErr(put_value(p, a, *v)),
        Op::UnwrapOk(v) => Op::UnwrapOk(put_value(p, a, *v)),
        Op::UnwrapErr(v) => Op::UnwrapErr(put_value(p, a, *v)),
        Op::IsVariant { value, variant, tested } => Op::IsVariant {
            value: put_value(p, a, *value),
            variant: variant.clone(),
            tested: copy_opt_repr(tested),
        },
        Op::Retain(v) => Op::Retain(put_value(p, a, *v)),
        Op::Release(v) => Op::Release(put_value(p, a, *v)),
        Op::ConstI64(_)
        | Op::ConstF64(_)
        | Op::ConstBool(_)
        | Op::ConstStr(_)
        | Op::ConstNull
        | Op::ConstUnit
        | Op::ConstAtom(_) => op.clone(),
    }
}

pub fn rewrite_inst(i: &Inst, p: &Vec<Value>, a: &Vec<Value>) -> (r: Inst)
    ensures
        r.sem() == put_inst(p@, a@, i.sem()),
{
    Inst { result: i.result, op: rewrite_op(&i.op, p, a) }
}

fn rewrite_target(t: &Target, p: &Vec<Value>, a: &Vec<Value>) -> (r: Target)
    ensures
        r.sem() == put_target(p@, a@, t.sem()),
{
    Target { to: t.to, args: put_values(p, a, &t.args) }
}

/// A terminator with arguments put for parameters.
pub fn rewrite_term(t: &Term, p: &Vec<Value>, a: &Vec<Value>) -> (r: Term)
    ensures
        r.sem() == put_term(p@, a@, t.sem()),
{
    match t {
        Term::Ret(Some(v)) => Term::Ret(Some(put_value(p, a, *v))),
        Term::Throw(v) => Term::Throw(put_value(p, a, *v)),
        Term::Jump(t) => Term::Jump(rewrite_target(t, p, a)),
        Term::Branch { cond, then, els } => Term::Branch {
            cond: put_value(p, a, *cond),
            then: rewrite_target(then, p, a),
            els: rewrite_target(els, p, a),
        },
        Term::Switch { on, arms, default } => {
            let mut rs: Vec<(SwitchKey, Target)> = Vec::new();
            let mut i: usize = 0;
            while i < arms.len()
                invariant
                    i <= arms.len(),
                    rs.len() == i,
                    forall|k: int|
                        0 <= k < i ==> (#[trigger] rs[k]).0.sem() == arms[k].0.sem()
                            && rs[k].1.sem() == put_target(p@, a@, arms[k].1.sem()),
                decreases arms.len() - i,
            {
                rs.push((arms[i].0.clone(), rewrite_target(&arms[i].1, p, a)));
                i += 1;
            }
            let ghost before = arms_sem(arms@);
            assert(arms_sem(rs@) =~= Seq::new(
                before.len(),
                |i: int| (before[i].0, put_target(p@, a@, before[i].1)),
            ));
            Term::Switch {
                on: put_value(p, a, *on),
                arms: rs,
                default: rewrite_target(default, p, a),
            }
        },
        Term::Ret(None) => Term::Ret(None),
        Term::Unreachable => Term::Unreachable,
    }
}

// ---- what rewriting keeps ----

proof fn lemma_put_below(p: Seq<Value>, a: Seq<Value>, v: Value, n: int, m: nat)
    requires
        values_below(a, m),
        v.0 < m,
        0 <= n <= p.len(),
    ensures
        put_for(p, a, v, n).0 < m,
    decreases n,
{
    if n > 0 {
        lemma_put_below(p, a, v, n - 1, m);
    }
}

proof fn lemma_put_all_below(p: Seq<Value>, a: Seq<Value>, vs: Seq<Value>, m: nat)
    requires
        values_below(a, m),
        values_below(vs, m),
    ensures
        values_below(put_all(p, a, vs), m),
{
    assert forall|i: int| 0 <= i < vs.len() implies (#[trigger] put_all(p, a, vs)[i]).0 < m by {
        lemma_put_below(p, a, vs[i], p.len() as int, m);
    }
}

/// What an operation reads once arguments are put for parameters.
pub proof fn operands_of_put(p: Seq<Value>, a: Seq<Value>, op: SOp)
    ensures
        operands(put_op(p, a, op)) == put_all(p, a, operands(op)),
{
    assert(operands(put_op(p, a, op)) =~= put_all(p, a, operands(op)));
}

proof fn lemma_arm_args(p: Seq<Value>, a: Seq<Value>, arms: Seq<(SSwitchKey, STarget)>)
    ensures
        arm_args(Seq::new(arms.len(), |i: int| (arms[i].0, put_target(p, a, arms[i].1))))
            == put_all(p, a, arm_args(arms)),
    decreases arms.len(),
{
    let all = Seq::new(arms.len(), |i: int| (arms[i].0, put_target(p, a, arms[i].1)));
    if arms.len() > 0 {
        let most = arms.drop_last();
        lemma_arm_args(p, a, most);
        assert(all.drop_last() =~= Seq::new(
            most.len(),
            |i: int| (most[i].0, put_target(p, a, most[i].1)),
        ));
    }
    assert(arm_args(all) =~= put_all(p, a, arm_args(arms)));
}

/// What a terminator reads and where it goes once arguments are put for parameters.
pub proof fn term_operands_of_put(p: Seq<Value>, a: Seq<Value>, t: STerm)
    ensures
        term_operands(put_term(p, a, t)) == put_all(p, a, term_operands(t)),
        targets(put_term(p, a, t)).len() == targets(t).len(),
        forall|i: int|
            0 <= i < targets(t).len() ==> (#[trigger] targets(put_term(p, a, t))[i]).to == targets(
                t,
            )[i].to,
{
    if let STerm::Switch { arms, .. } = t {
        lemma_arm_args(p, a, arms);
    }
    assert(term_operands(put_term(p, a, t)) =~= put_all(p, a, term_operands(t)));
}

pub proof fn put_op_below(p: Seq<Value>, a: Seq<Value>, op: SOp, m: nat)
    requires
        values_below(a, m),
        values_below(operands(op), m),
    ensures
        values_below(operands(put_op(p, a, op)), m),
{
    operands_of_put(p, a, op);
    lemma_put_all_below(p, a, operands(op), m);
}

pub proof fn put_term_below(p: Seq<Value>, a: Seq<Value>, t: STerm, m: nat)
    requires
        values_below(a, m),
        values_below(term_operands(t), m),
    ensures
        values_below(term_operands(put_term(p, a, t)), m),
{
    term_operands_of_put(p, a, t);
    lemma_put_all_below(p, a, term_operands(t), m);
}

} // verus!
