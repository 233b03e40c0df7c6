//! Calls: who is called, what an error of theirs does, and what types are tested for.

use super::super::repr::layout::{layout_of, repr_with};
use super::super::repr::{is_concrete, reprs_sem, Repr, SRepr};
use super::super::ssa::{
    copy_values, operands, targets, term_operands, values_below, BlockId, Op, PrimOp, SOp, STarget,
    STerm, Target, Term, Value,
};
use super::names::{
    head_of, is_made, key_of, mangle_impl, mangle_instance, mangled_impl, mangled_instance, repr_head,
    repr_key,
};
use super::state::{
    copy_names, l_block, l_branch, l_emit, l_end, l_enter, l_jump, l_note, l_param, l_retype,
    l_switch, l_void, layout_in, no_values, lower_inv, one, repr_at, steps_to, ty_at, two, Ctx,
    InstanceJob, Lower, SInstanceJob, SLower,
};
use super::subst::{
    last_name, last_of, match_repr, matched, substitute_repr, substituted, SSubst, Subst,
};
use crate::ast::{ExprId, TypeSpec, TypeSpecKind};
use crate::check::{
    choices_wf, env_wf, fact, impl_wf, resolution_wf, sig_wf, ty_fact, ty_in_range, Env, FnSig,
    ImplDef, NameUse, Resolution,
};
use crate::syntax::{names_of, sems, Node, STypeSpec, STypeSpecKind};
use crate::text::{cat, join, join_all, str_eq};
use crate::types::TyId;
use vstd::prelude::*;

verus! {

// ---- finding declarations ----

/// What a path stands for in a module, from entry `k` on.
pub open spec fn use_from(
    t: Seq<NameUse>,
    module: Seq<Seq<char>>,
    path: Seq<Seq<char>>,
    k: int,
) -> Option<usize>
    decreases t.len() - k,
{
    if k >= t.len() {
        None
    } else if names_of(t[k].module@) == module && names_of(t[k].path@) == path {
        Some(t[k].index)
    } else {
        use_from(t, module, path, k + 1)
    }
}

/// The first method from `k` on that has a name.
pub open spec fn method_from(ms: Seq<FnSig>, name: Seq<char>, k: int) -> Option<int>
    decreases ms.len() - k,
{
    if k >= ms.len() {
        None
    } else if ms[k].name@ == name {
        Some(k)
    } else {
        method_from(ms, name, k + 1)
    }
}

/// What something is implemented for, as a part of its methods' names: the name of the type,
/// or its whole layout where it has none.
pub open spec fn impl_head(env: Env, d: ImplDef) -> Seq<char> {
    match d.target_head {
        Some(h) => h@,
        None => match d.target {
            Some(ty) => match layout_of(env.types, ty) {
                SRepr::Record { name: Some(n), .. } => n,
                r => repr_key(r),
            },
            None => ""@,
        },
    }
}

/// The first implementation from `k` on of a protocol for a type.
pub open spec fn impl_from(env: Env, protocol: usize, head: Seq<char>, k: int) -> Option<int>
    decreases env.impls.len() - k,
{
    if k >= env.impls.len() {
        None
    } else if env.impls[k].protocol == protocol && impl_head(env, env.impls[k]) == head {
        Some(k)
    } else {
        impl_from(env, protocol, head, k + 1)
    }
}

/// The first method of a name, from implementation `k` on, of a protocol for a type.
pub open spec fn impl_method_from(
    env: Env,
    protocol: usize,
    head: Seq<char>,
    method: Seq<char>,
    k: int,
) -> Option<FnSig>
    decreases env.impls.len() - k,
{
    if k >= env.impls.len() {
        None
    } else {
        let ms = env.impls[k].methods@;
        let found = method_from(ms, method, 0);
        if env.impls[k].protocol == protocol && impl_head(env, env.impls[k]) == head && found is Some {
            Some(ms[found->0])
        } else {
            impl_method_from(env, protocol, head, method, k + 1)
        }
    }
}

// ---- errors ----

/// Take the value out of a tagged result, sending an error to the innermost handler.
pub open spec fn l_unwrap(
    s: SLower,
    result: Value,
    err: SRepr,
    err_ty: TyId,
    ok: SRepr,
    ty: TyId,
) -> (SLower, Value) {
    if err is Never {
        (s, result)
    } else {
        let s1 = l_retype(s, result, SRepr::Union(seq![ok, err]));
        let (s2, failed) = l_emit(s1, SOp::IsErr(result), SRepr::Bool, ty);
        let (s3, e) = l_emit(s2, SOp::UnwrapErr(result), err, err_ty);
        let (s4, ok_b) = l_block(s3);
        let s5 = if s4.handlers.len() > 0 {
            l_end(
                s4,
                STerm::Branch {
                    cond: failed,
                    then: STarget { to: s4.handlers.last(), args: seq![e] },
                    els: STarget { to: ok_b, args: seq![] },
                },
            )
        } else {
            l_branch(s4, failed, ok_b, ok_b)
        };
        l_emit(l_enter(s5, ok_b), SOp::UnwrapOk(result), ok, ty)
    }
}

/// Take the value out of a tagged result whose error is of a type.
pub open spec fn l_unwrap_ty(
    c: Ctx,
    s: SLower,
    result: Value,
    throws: TyId,
    ok: SRepr,
    ty: TyId,
) -> (SLower, Value) {
    l_unwrap(s, result, layout_in(c, s, throws), throws, ok, ty)
}

/// One variant of an error: test for it, and get its message.
pub open spec fn l_message_of(s: SLower, err: Value, r: SRepr, join: BlockId, ty: TyId) -> SLower {
    let head = repr_head(r)->0;
    let (s1, hit) = l_block(s);
    let (s2, next) = l_block(s1);
    let (s3, test) = l_emit(
        s2,
        SOp::IsVariant { value: err, variant: head, tested: Some(r) },
        SRepr::Bool,
        ty,
    );
    let s4 = l_enter(l_branch(s3, test, hit, next), hit);
    let (s5, narrowed) = l_emit(s4, SOp::Cast(err), r, ty);
    let (s6, msg) = l_emit(
        s5,
        SOp::Call { func: mangled_impl("Error"@, head, "message"@), args: seq![narrowed] },
        SRepr::Str,
        ty,
    );
    l_enter(l_jump(s6, join, seq![msg]), next)
}

pub open spec fn l_messages(
    s: SLower,
    err: Value,
    rs: Seq<SRepr>,
    k: int,
    join: BlockId,
    ty: TyId,
) -> SLower
    decreases k,
{
    if k <= 0 {
        s
    } else {
        l_message_of(l_messages(s, err, rs, k - 1, join, ty), err, rs[k - 1], join, ty)
    }
}

pub open spec fn all_have_heads(rs: Seq<SRepr>) -> bool {
    forall|i: int| 0 <= i < rs.len() ==> repr_head(#[trigger] rs[i]) is Some
}

/// The message of an error: that of its type's own `Error`, or, where it may be of several
/// types, that of the one it turns out to be of.
pub open spec fn l_error_message(s: SLower, err: Value, ty: TyId) -> (SLower, Value) {
    let r = repr_at(s, err);
    match repr_head(r) {
        Some(head) => l_emit(
            s,
            SOp::Call { func: mangled_impl("Error"@, head, "message"@), args: seq![err] },
            SRepr::Str,
            ty,
        ),
        None => if r is Union && r->Union_0.len() > 0 && all_have_heads(r->Union_0) {
            let (s1, join) = l_block(s);
            let (s2, msg) = l_param(s1, join, SRepr::Str, ty);
            let s3 = l_messages(s2, err, r->Union_0, r->Union_0.len() as int, join, ty);
            (l_enter(l_end(s3, STerm::Unreachable), join), msg)
        } else {
            l_emit(s, SOp::ConstStr("error"@), SRepr::Str, ty)
        },
    }
}

/// End with a panic that says a message.
pub open spec fn l_panic(s: SLower, msg: Value) -> SLower {
    l_end(
        l_void(s, SOp::Native { symbol: "neon_panic"@, args: seq![msg] }),
        STerm::Unreachable,
    )
}

/// Leave the function with an error: as the error of its result, or with a panic where it
/// declares none.
pub open spec fn l_escape(s: SLower, err: Value, ty: TyId) -> SLower {
    if s.b.throws is Some {
        l_end(s, STerm::Throw(err))
    } else {
        let (s1, msg) = l_error_message(s, err, ty);
        l_panic(s1, msg)
    }
}

// ---- resolved calls ----

/// What the variables of a signature stand for, by the layouts of the first `k` arguments.
pub open spec fn args_matched(
    env: Env,
    s: SLower,
    params: Seq<(String, TyId)>,
    args: Seq<Value>,
    k: int,
    sub: SSubst,
) -> SSubst
    decreases k,
{
    if k <= 0 {
        sub
    } else {
        let before = args_matched(env, s, params, args, k - 1, sub);
        if k <= params.len() {
            matched(layout_of(env.types, params[k - 1].1), repr_at(s, args[k - 1]), before)
        } else {
            before
        }
    }
}

/// What the variables of a signature stand for in a call: by its arguments, and then by its
/// result.
pub open spec fn call_subst(
    env: Env,
    s: SLower,
    m: FnSig,
    args: Seq<Value>,
    r: SRepr,
) -> SSubst {
    matched(
        layout_of(env.types, m.ret),
        r,
        args_matched(env, s, m.params@, args, args.len() as int, seq![]),
    )
}

/// Call a method of one implementation.
pub open spec fn l_direct(
    c: Ctx,
    s: SLower,
    i: usize,
    method: Seq<char>,
    args: Seq<Value>,
    r: SRepr,
    ty: TyId,
) -> (SLower, Value) {
    let d = c.env.impls[i as int];
    match method_from(d.methods@, method, 0) {
        None => l_note(s, "dispatch: no method"@, r, ty),
        Some(k) => {
            let m = d.methods[k];
            let key = mangled_impl(
                c.env.protocols[d.protocol as int]@,
                impl_head(c.env, d),
                method,
            );
            match m.native {
                Some(sym) => {
                    let (s1, v) = l_emit(s, SOp::Native { symbol: sym@, args }, r, ty);
                    l_unwrap_ty(c, s1, v, m.throws, r, ty)
                },
                None => if m.generics.len() == 0 {
                    let (s1, v) = l_emit(s, SOp::Call { func: key, args }, r, ty);
                    l_unwrap_ty(c, s1, v, m.throws, r, ty)
                } else {
                    let sub = call_subst(c.env, s, m, args, r);
                    let err = substituted(layout_in(c, s, m.throws), sub);
                    let job = SInstanceJob {
                        mangled: mangled_instance(key, sub),
                        module: names_of(d.module@),
                        fn_name: method,
                        subst: sub,
                        impl_key: Some(key),
                    };
                    let s1 = SLower { instances: s.instances.push(job), ..s };
                    let (s2, v) = l_emit(s1, SOp::Call { func: job.mangled, args }, r, ty);
                    l_unwrap(s2, v, err, m.throws, r, ty)
                },
            }
        },
    }
}

/// One arm of a call whose receiver may be of several types.
pub open spec fn l_arm(
    c: Ctx,
    s: SLower,
    arm: (SRepr, usize),
    method: Seq<char>,
    args: Seq<Value>,
    join: BlockId,
    bty: TyId,
) -> SLower {
    let (s1, proj) = l_emit(s, SOp::Cast(args[0]), arm.0, bty);
    let d = c.env.impls[arm.1 as int];
    let (ret_ty, ret) = match method_from(d.methods@, method, 0) {
        Some(k) => (d.methods[k].ret, layout_in(c, s1, d.methods[k].ret)),
        None => (bty, arm.0),
    };
    let (s2, out) = l_direct(c, s1, arm.1, method, args.update(0, proj), ret, ret_ty);
    l_jump(s2, join, seq![out])
}

/// The first `k` arms: each tests the receiver, but for the last.
pub open spec fn l_arms(
    c: Ctx,
    s: SLower,
    arms: Seq<(SRepr, usize)>,
    k: int,
    method: Seq<char>,
    args: Seq<Value>,
    join: BlockId,
    bty: TyId,
) -> SLower
    decreases k,
{
    if k <= 0 {
        s
    } else {
        let before = l_arms(c, s, arms, k - 1, method, args, join, bty);
        if k < arms.len() {
            let (s1, test) = l_emit(
                before,
                SOp::IsVariant { value: args[0], variant: ""@, tested: Some(arms[k - 1].0) },
                SRepr::Bool,
                bty,
            );
            let (s2, body_b) = l_block(s1);
            let (s3, next_b) = l_block(s2);
            let s4 = l_switch(l_branch(s3, test, body_b, next_b), body_b);
            l_switch(l_arm(c, s4, arms[k - 1], method, args, join, bty), next_b)
        } else {
            l_arm(c, before, arms[k - 1], method, args, join, bty)
        }
    }
}

/// Call the method of the type that the receiver is of at run time.
pub open spec fn l_switch_call(
    c: Ctx,
    s: SLower,
    arms: Seq<(SRepr, usize)>,
    method: Seq<char>,
    args: Seq<Value>,
    r: SRepr,
    ty: TyId,
) -> (SLower, Value) {
    if args.len() == 0 {
        l_note(s, "dispatch switch: no receiver"@, r, ty)
    } else if arms.len() == 0 {
        l_note(s, "dispatch switch: no arms"@, r, ty)
    } else {
        let (s1, join) = l_block(s);
        let (s2, v) = l_param(s1, join, r, ty);
        let bty = ty_at(s2, args[0]);
        (l_enter(l_arms(c, s2, arms, arms.len() as int, method, args, join, bty), join), v)
    }
}

/// Which implementation each of the first `k` variants has, if each has one.
pub open spec fn variant_impls(env: Env, protocol: usize, vs: Seq<SRepr>, k: int) -> Option<
    Seq<(SRepr, usize)>,
>
    decreases k,
{
    if k <= 0 {
        Some(seq![])
    } else {
        match (variant_impls(env, protocol, vs, k - 1), repr_head(vs[k - 1])) {
            (Some(before), Some(h)) => match impl_from(env, protocol, h, 0) {
                Some(i) => Some(before.push((vs[k - 1], i as usize))),
                None => None,
            },
            _ => None,
        }
    }
}

/// Call the method that a bound stands for, in an instance, where the receiver is of a known
/// type.
pub open spec fn l_bound(
    c: Ctx,
    s: SLower,
    protocol: usize,
    method: Seq<char>,
    args: Seq<Value>,
    r: SRepr,
    ty: TyId,
) -> (SLower, Value) {
    let recv = if args.len() > 0 {
        Some(repr_at(s, args[0]))
    } else {
        None
    };
    let head = match recv {
        Some(x) => repr_head(x),
        None => None,
    };
    match head {
        Some(h) => match impl_method_from(c.env, protocol, h, method, 0) {
            Some(m) => {
                let op = match m.native {
                    Some(sym) => SOp::Native { symbol: sym@, args },
                    None => SOp::Call {
                        func: mangled_impl(c.env.protocols[protocol as int]@, h, method),
                        args,
                    },
                };
                let (s1, v) = l_emit(s, op, r, ty);
                l_unwrap_ty(c, s1, v, m.throws, r, ty)
            },
            None => l_note(s, "bound: no impl"@, r, ty),
        },
        None => {
            let arms = match recv {
                Some(SRepr::Union(vs)) => variant_impls(c.env, protocol, vs, vs.len() as int),
                _ => None,
            };
            match arms {
                Some(xs) => if xs.len() > 0 {
                    l_switch_call(c, s, xs, method, args, r, ty)
                } else {
                    l_note(s, "bound: abstract receiver"@, r, ty)
                },
                None => l_note(s, "bound: abstract receiver"@, r, ty),
            }
        },
    }
}

pub open spec fn arm_layouts(c: Ctx, s: SLower, arms: Seq<(TyId, usize)>) -> Seq<(SRepr, usize)> {
    Seq::new(arms.len(), |i: int| (layout_in(c, s, arms[i].0), arms[i].1))
}

/// A call that was resolved through a protocol. There is no table of methods: every case ends
/// in direct calls.
pub open spec fn l_dispatch(
    c: Ctx,
    s: SLower,
    res: Resolution,
    method: Seq<char>,
    args: Seq<Value>,
    r: SRepr,
    ty: TyId,
) -> (SLower, Value) {
    match res {
        Resolution::Direct(i) => l_direct(c, s, i, method, args, r, ty),
        Resolution::Switch(arms) => l_switch_call(
            c,
            s,
            arm_layouts(c, s, arms@),
            method,
            args,
            r,
            ty,
        ),
        Resolution::Bound(p) => l_bound(c, s, p, method, args, r, ty),
    }
}

// ---- tests of types ----

/// The layout of the type that is asked for, where no variable of it is left.
pub open spec fn tested_repr(c: Ctx, s: SLower, id: ExprId) -> Option<SRepr> {
    match fact(c.facts.tested@, id) {
        Some(ty) => {
            let r = layout_in(c, s, ty);
            if is_concrete(r) {
                Some(r)
            } else {
                None
            }
        },
        None => None,
    }
}

/// Whether a value is of a type.
pub open spec fn l_type_test(c: Ctx, s: SLower, subj: Value, spec: STypeSpec, id: ExprId) -> (
    SLower,
    Value,
) {
    let bty = ty_at(s, subj);
    match spec.kind {
        STypeSpecKind::Null => l_emit(s, SOp::IsNull(subj), SRepr::Bool, bty),
        STypeSpecKind::Named { path, .. } => l_emit(
            s,
            SOp::IsVariant {
                value: subj,
                variant: last_name(path),
                tested: tested_repr(c, s, id),
            },
            SRepr::Bool,
            bty,
        ),
        STypeSpecKind::Atom(a) => {
            let (s1, lit) = l_emit(s, SOp::ConstAtom(a), SRepr::Tag, bty);
            l_emit(s1, SOp::Prim(PrimOp::Eq, seq![subj, lit]), SRepr::Bool, bty)
        },
        _ => l_emit(
            s,
            SOp::IsVariant { value: subj, variant: ""@, tested: tested_repr(c, s, id) },
            SRepr::Bool,
            bty,
        ),
    }
}

/// A type as it is named in a message.
pub open spec fn spec_text(spec: STypeSpec) -> Seq<char> {
    match spec.kind {
        STypeSpecKind::Named { path, .. } => join_all(path, "::"@),
        STypeSpecKind::Atom(a) => ":"@ + a,
        STypeSpecKind::Null => "null"@,
        _ => "the target type"@,
    }
}

/// `x as! T`: a value of another type panics. What is erased is tested as it is taken out.
pub open spec fn l_cast_assert(
    c: Ctx,
    s: SLower,
    id: ExprId,
    v: Value,
    spec: STypeSpec,
    r: SRepr,
    ty: TyId,
) -> (SLower, Value) {
    if repr_at(s, v) is Any {
        l_emit(s, SOp::Cast(v), r, ty)
    } else {
        let (s1, test) = l_type_test(c, s, v, spec, id);
        let (s2, ok_b) = l_block(s1);
        let (s3, bad_b) = l_block(s2);
        let s4 = l_switch(l_branch(s3, test, ok_b, bad_b), bad_b);
        let text = "`as! "@ + spec_text(spec) + "` failed: the value holds a different type"@;
        let (s5, msg) = l_emit(s4, SOp::ConstStr(text), SRepr::Str, ty);
        l_emit(l_enter(l_panic(s5, msg), ok_b), SOp::Cast(v), r, ty)
    }
}

/// `x as? T`: a value of another type gives null.
pub open spec fn l_cast_soften(
    c: Ctx,
    s: SLower,
    id: ExprId,
    v: Value,
    spec: STypeSpec,
    r: SRepr,
    ty: TyId,
) -> (SLower, Value) {
    let (s1, test) = l_type_test(c, s, v, spec, id);
    let (s2, ok_b) = l_block(s1);
    let (s3, null_b) = l_block(s2);
    let (s4, join) = l_block(s3);
    let (s5, out) = l_param(s4, join, r, ty);
    let s6 = l_switch(l_branch(s5, test, ok_b, null_b), ok_b);
    let (target, target_ty) = match fact(c.facts.tested@, id) {
        Some(t) => (layout_in(c, s6, t), t),
        None => (r, ty),
    };
    let (s7, cast) = l_emit(s6, SOp::Cast(v), target, target_ty);
    let s8 = l_switch(l_jump(s7, join, seq![cast]), null_b);
    let (s9, none) = l_emit(s8, SOp::ConstNull, SRepr::Null, ty);
    (l_enter(l_jump(s9, join, seq![none]), join), out)
}

// ---- doing it ----

pub fn same_names(a: &Vec<String>, b: &Vec<String>) -> (r: bool)
    ensures
        r == (names_of(a@) == names_of(b@)),
{
    let ghost (x, y) = (names_of(a@), names_of(b@));
    if a.len() != b.len() {
        assert(x.len() != y.len());
        return false;
    }
    let mut i: usize = 0;
    while i < a.len()
        invariant
            i <= a.len() == b.len(),
            x == names_of(a@),
            y == names_of(b@),
            forall|k: int| 0 <= k < i ==> #[trigger] x[k] == y[k],
        decreases a.len() - i,
    {
        assert(x[i as int] == a[i as int]@);
        assert(y[i as int] == b[i as int]@);
        if !str_eq(a[i].as_str(), b[i].as_str()) {
            return false;
        }
        i += 1;
    }
    assert(x =~= y);
    true
}

/// What a path stands for in a module.
pub fn find_use(t: &Vec<NameUse>, module: &Vec<String>, path: &Vec<String>) -> (r: Option<usize>)
    ensures
        r == use_from(t@, names_of(module@), names_of(path@), 0),
        r matches Some(i) ==> exists|k: int| 0 <= k < t.len() && (#[trigger] t[k]).index == i,
{
    let mut k: usize = 0;
    while k < t.len()
        invariant
            k <= t.len(),
            use_from(t@, names_of(module@), names_of(path@), 0) == use_from(
                t@,
                names_of(module@),
                names_of(path@),
                k as int,
            ),
        decreases t.len() - k,
    {
        if same_names(&t[k].module, module) && same_names(&t[k].path, path) {
            assert(t[k as int].index == t@[k as int].index);
            return Some(t[k].index);
        }
        k += 1;
    }
    None
}

pub fn find_method(ms: &Vec<FnSig>, name: &str) -> (r: Option<usize>)
    ensures
        match r {
            Some(k) => method_from(ms@, name@, 0) == Some(k as int) && k < ms.len(),
            None => method_from(ms@, name@, 0) is None,
        },
{
    let mut k: usize = 0;
    while k < ms.len()
        invariant
            k <= ms.len(),
            method_from(ms@, name@, 0) == method_from(ms@, name@, k as int),
        decreases ms.len() - k,
    {
        if str_eq(ms[k].name.as_str(), name) {
            return Some(k);
        }
        k += 1;
    }
    None
}

fn variants_named(rs: &Vec<Repr>) -> (r: bool)
    ensures
        r == all_have_heads(reprs_sem(rs@)),
{
    let ghost s = reprs_sem(rs@);
    let mut i: usize = 0;
    while i < rs.len()
        invariant
            i <= rs.len(),
            s == reprs_sem(rs@),
            forall|k: int| 0 <= k < i ==> repr_head(#[trigger] s[k]) is Some,
        decreases rs.len() - i,
    {
        assert(s[i as int] == rs[i as int].sem());
        if head_of(&rs[i]).is_none() {
            assert(repr_head(s[i as int]) is None);
            return false;
        }
        i += 1;
    }
    true
}

/// Arms with their layouts as mathematical values.
pub open spec fn arms_of(arms: Seq<(Repr, usize)>) -> Seq<(SRepr, usize)> {
    arms.map_values(|a: (Repr, usize)| (a.0.sem(), a.1))
}

pub open spec fn arms_wf(env: Env, arms: Seq<(Repr, usize)>) -> bool {
    forall|i: int| 0 <= i < arms.len() ==> (#[trigger] arms[i]).1 < env.impls.len()
}

/// Heads of implementations, worked out once.
pub fn head_of_impl(env: &Env, cuts: &super::super::repr::layout::Cuts, d: &ImplDef) -> (h: String)
    requires
        env_wf(*env),
        cuts@ == super::super::repr::layout::cut_of(env.types),
        impl_wf(*env, *d),
    ensures
        h@ == impl_head(*env, *d),
{
    match &d.target_head {
        Some(h) => h.clone(),
        None => match d.target {
            Some(ty) => {
                let r = repr_with(&env.types, cuts, ty);
                match &r {
                    Repr::Record { name: Some(n), .. } => n.clone(),
                    _ => key_of(&r),
                }
            },
            None => "".to_owned(),
        },
    }
}

impl<'a> Lower<'a> {
    pub fn wrap_throwing_repr(
        &mut self,
        result: Value,
        err: Repr,
        err_ty: TyId,
        ok: Repr,
        ty: TyId,
    ) -> (v: Value)
        requires
            old(self).inv(),
            result.0 < old(self).sem().b.values.len(),
        ensures
            (final(self).sem(), v) == l_unwrap(old(self).sem(), result, err.sem(), err_ty, ok.sem(), ty),
            final(self).keeps(old(self)),
            v.0 < final(self).sem().b.values.len(),
    {
        proof {
            self.inv_means_blocks();
        }
        if let Repr::Never = &err {
            return result;
        }
        let mut both: Vec<Repr> = Vec::new();
        both.push(ok.clone());
        both.push(err.clone());
        let u = Repr::Union(both);
        assert(reprs_sem(both@) =~= seq![ok.sem(), err.sem()]);
        assert(u.sem() == SRepr::Union(reprs_sem(both@)));
        self.retype(result, u);
        let failed = self.emit(Op::IsErr(result), Repr::Bool, ty);
        let e = self.emit(Op::UnwrapErr(result), err, err_ty);
        let ok_b = self.new_block();
        if self.handlers.len() > 0 {
            let h = self.handlers[self.handlers.len() - 1];
            assert(self.sem().handlers[self.handlers.len() - 1].0 < self.sem().b.blocks.len());
            let t = Term::Branch {
                cond: failed,
                then: Target { to: h, args: one(e) },
                els: Target { to: ok_b, args: no_values() },
            };
            assert(t.sem() == STerm::Branch {
                cond: failed,
                then: STarget { to: h, args: seq![e] },
                els: STarget { to: ok_b, args: seq![] },
            });
            assert(term_operands(t.sem()) =~= seq![failed, e]);
            self.terminate(t);
        } else {
            self.branch(failed, ok_b, ok_b);
        }
        self.enter(ok_b);
        self.emit(Op::UnwrapOk(result), ok, ty)
    }

    pub fn wrap_throwing(&mut self, result: Value, throws: TyId, ok: Repr, ty: TyId) -> (v: Value)
        requires
            old(self).inv(),
            result.0 < old(self).sem().b.values.len(),
            ty_in_range(*old(self).env, throws),
        ensures
            (final(self).sem(), v) == l_unwrap_ty(
                old(self).ctx(),
                old(self).sem(),
                result,
                throws,
                ok.sem(),
                ty,
            ),
            final(self).keeps(old(self)),
            v.0 < final(self).sem().b.values.len(),
    {
        proof {
            self.inv_means();
        }
        let err = self.repr_of_ty(throws);
        self.wrap_throwing_repr(result, err, throws, ok, ty)
    }

    fn message_of(&mut self, err: Value, r: &Repr, join: BlockId, ty: TyId)
        requires
            old(self).inv(),
            err.0 < old(self).sem().b.values.len(),
            join.0 < old(self).sem().b.blocks.len(),
            repr_head(r.sem()) is Some,
        ensures
            final(self).sem() == l_message_of(old(self).sem(), err, r.sem(), join, ty),
            final(self).keeps(old(self)),
    {
        if let Some(head) = head_of(r) {
            let hit = self.new_block();
            let next = self.new_block();
            let op = Op::IsVariant {
                value: err,
                variant: head.clone(),
                tested: Some(r.clone()),
            };
            let test = self.emit(op, Repr::Bool, ty);
            self.branch(test, hit, next);
            self.enter(hit);
            let narrowed = self.emit(Op::Cast(err), r.clone(), ty);
            let func = mangle_impl("Error", head.as_str(), "message");
            let msg = self.emit(Op::Call { func, args: one(narrowed) }, Repr::Str, ty);
            self.jump(join, one(msg));
            self.enter(next);
        }
    }

    /// The message of an error.
    pub fn error_message(&mut self, err: Value, ty: TyId) -> (v: Value)
        requires
            old(self).inv(),
            err.0 < old(self).sem().b.values.len(),
        ensures
            (final(self).sem(), v) == l_error_message(old(self).sem(), err, ty),
            final(self).keeps(old(self)),
            v.0 < final(self).sem().b.values.len(),
    {
        let ghost s = self.sem();
        let r = self.repr_of_value(err);
        if let Some(head) = head_of(&r) {
            let func = mangle_impl("Error", head.as_str(), "message");
            return self.emit(Op::Call { func, args: one(err) }, Repr::Str, ty);
        }
        if let Repr::Union(vs) = &r {
            let ghost rs = reprs_sem(vs@);
            assert(r.sem() == SRepr::Union(rs));
            if vs.len() > 0 && variants_named(vs) {
                let join = self.new_block();
                let msg = self.block_param(join, Repr::Str, ty);
                let ghost s2 = self.sem();
                let mut k: usize = 0;
                while k < vs.len()
                    invariant
                        k <= vs.len(),
                        rs == reprs_sem(vs@),
                        all_have_heads(rs),
                        self.keeps(old(self)),
                        steps_to(s2, self.sem()),
                        err.0 < old(self).sem().b.values.len(),
                        join.0 < s2.b.blocks.len(),
                        self.sem() == l_messages(s2, err, rs, k as int, join, ty),
                    decreases vs.len() - k,
                {
                    assert(rs[k as int] == vs[k as int].sem());
                    self.message_of(err, &vs[k], join, ty);
                    k += 1;
                }
                let t = Term::Unreachable;
                assert(targets(t.sem()) =~= seq![]);
                assert(term_operands(t.sem()) =~= seq![]);
                self.terminate(t);
                self.enter(join);
                return msg;
            }
        }
        let op = Op::ConstStr("error".to_owned());
        assert(operands(op.sem()) =~= seq![]);
        self.emit(op, Repr::Str, ty)
    }

    /// End with a panic that says a message.
    pub fn panic(&mut self, msg: Value)
        requires
            old(self).inv(),
            msg.0 < old(self).sem().b.values.len(),
        ensures
            final(self).sem() == l_panic(old(self).sem(), msg),
            final(self).keeps(old(self)),
    {
        self.emit_void(Op::Native { symbol: "neon_panic".to_owned(), args: one(msg) });
        let t = Term::Unreachable;
        assert(targets(t.sem()) =~= seq![]);
        assert(term_operands(t.sem()) =~= seq![]);
        self.terminate(t);
    }

    /// Leave the function with an error.
    pub fn throw_or_escape(&mut self, err: Value, ty: TyId)
        requires
            old(self).inv(),
            err.0 < old(self).sem().b.values.len(),
        ensures
            final(self).sem() == l_escape(old(self).sem(), err, ty),
            final(self).keeps(old(self)),
    {
        if self.b.throws().is_some() {
            let t = Term::Throw(err);
            assert(targets(t.sem()) =~= seq![]);
            self.terminate(t);
            return ;
        }
        let msg = self.error_message(err, ty);
        self.panic(msg);
    }

    /// What the variables of a signature stand for in a call.
    pub fn solve(&self, m: &FnSig, args: &Vec<Value>, r: &Repr) -> (sub: Subst)
        requires
            self.inv(),
            sig_wf(*self.env, *m),
            values_below(args@, self.sem().b.values.len()),
        ensures
            sub@ == call_subst(*self.env, self.sem(), *m, args@, r.sem()),
    {
        proof {
            self.inv_means();
        }
        let ghost s = self.sem();
        let mut sub = Subst::new();
        let mut i: usize = 0;
        while i < args.len()
            invariant
                i <= args.len(),
                s == self.sem(),
                self.inv(),
                env_wf(*self.env),
                self.cuts@ == super::super::repr::layout::cut_of(self.env.types),
                sig_wf(*self.env, *m),
                values_below(args@, s.b.values.len()),
                sub@ == args_matched(*self.env, s, m.params@, args@, i as int, seq![]),
            decreases args.len() - i,
        {
            if i < m.params.len() {
                assert(ty_in_range(*self.env, m.params[i as int].1));
                assert(args@[i as int].0 < s.b.values.len());
                let template = repr_with(&self.env.types, self.cuts, m.params[i].1);
                let concrete = self.repr_of_value(args[i]);
                match_repr(&template, &concrete, &mut sub);
            }
            i += 1;
        }
        let template = repr_with(&self.env.types, self.cuts, m.ret);
        match_repr(&template, r, &mut sub);
        sub
    }

    fn queue(&mut self, job: InstanceJob)
        requires
            old(self).inv(),
            is_made(job.mangled@),
        ensures
            final(self).sem() == (SLower {
                instances: old(self).sem().instances.push(job.sem()),
                ..old(self).sem()
            }),
            final(self).keeps(old(self)),
    {
        proof {
            reveal(lower_inv);
        }
        let ghost before = self.instances@;
        self.instances.push(job);
        assert(sems(self.instances@) =~= sems(before).push(job.sem()));
    }

    /// Queue an instance and call it.
    pub fn call_instance(
        &mut self,
        job: InstanceJob,
        args: Vec<Value>,
        err: Repr,
        throws: TyId,
        r: Repr,
        ty: TyId,
    ) -> (v: Value)
        requires
            old(self).inv(),
            is_made(job.mangled@),
            values_below(args@, old(self).sem().b.values.len()),
        ensures
            (final(self).sem(), v) == ({
                let s = old(self).sem();
                let s1 = SLower { instances: s.instances.push(job.sem()), ..s };
                let (s2, x) = l_emit(
                    s1,
                    SOp::Call { func: job.sem().mangled, args: args@ },
                    r.sem(),
                    ty,
                );
                l_unwrap(s2, x, err.sem(), throws, r.sem(), ty)
            }),
            final(self).keeps(old(self)),
            v.0 < final(self).sem().b.values.len(),
    {
        let func = job.mangled.clone();
        self.queue(job);
        let x = self.emit(Op::Call { func, args }, r.clone(), ty);
        self.wrap_throwing_repr(x, err, throws, r, ty)
    }

    /// Call a method of one implementation.
    pub fn direct(
        &mut self,
        i: usize,
        method: &str,
        args: Vec<Value>,
        r: Repr,
        ty: TyId,
    ) -> (v: Value)
        requires
            old(self).inv(),
            i < old(self).env.impls.len(),
            values_below(args@, old(self).sem().b.values.len()),
        ensures
            (final(self).sem(), v) == l_direct(
                old(self).ctx(),
                old(self).sem(),
                i,
                method@,
                args@,
                r.sem(),
                ty,
            ),
            final(self).keeps(old(self)),
            v.0 < final(self).sem().b.values.len(),
    {
        proof {
            self.inv_means();
        }
        let env = self.env;
        let d = &env.impls[i];
        assert(impl_wf(*env, env.impls[i as int]));
        match find_method(&d.methods, method) {
            None => self.note("dispatch: no method", r, ty),
            Some(k) => {
                let m = &d.methods[k];
                assert(sig_wf(*env, d.methods[k as int]));
                if let Some(sym) = &m.native {
                    let x = self.emit(
                        Op::Native { symbol: sym.clone(), args },
                        r.clone(),
                        ty,
                    );
                    return self.wrap_throwing(x, m.throws, r, ty);
                }
                let head = head_of_impl(env, self.cuts, d);
                let key = mangle_impl(env.protocols[d.protocol].as_str(), head.as_str(), method);
                if m.generics.len() == 0 {
                    let x = self.emit(Op::Call { func: key, args }, r.clone(), ty);
                    return self.wrap_throwing(x, m.throws, r, ty);
                }
                let sub = self.solve(m, &args, &r);
                let throws = self.repr_of_ty(m.throws);
                let err = substitute_repr(&throws, &sub);
                let mangled = mangle_instance(key.as_str(), &sub);
                let job = InstanceJob {
                    mangled,
                    module: copy_names(&d.module),
                    fn_name: method.to_owned(),
                    subst: sub,
                    impl_key: Some(key),
                };
                self.call_instance(job, args, err, m.throws, r, ty)
            },
        }
    }

    fn switch_arm(
        &mut self,
        arm: &(Repr, usize),
        method: &str,
        args: &Vec<Value>,
        join: BlockId,
        bty: TyId,
    )
        requires
            old(self).inv(),
            arm.1 < old(self).env.impls.len(),
            args.len() > 0,
            values_below(args@, old(self).sem().b.values.len()),
            join.0 < old(self).sem().b.blocks.len(),
        ensures
            final(self).sem() == l_arm(
                old(self).ctx(),
                old(self).sem(),
                (arm.0.sem(), arm.1),
                method@,
                args@,
                join,
                bty,
            ),
            final(self).keeps(old(self)),
    {
        proof {
            self.inv_means();
        }
        let env = self.env;
        assert(args@[0].0 < self.sem().b.values.len());
        let proj = self.emit(Op::Cast(args[0]), arm.0.clone(), bty);
        let mut arm_args = copy_values(args);
        arm_args.set(0, proj);
        let d = &env.impls[arm.1];
        assert(impl_wf(*env, env.impls[arm.1 as int]));
        let mut ret_ty = bty;
        let mut ret = arm.0.clone();
        if let Some(k) = find_method(&d.methods, method) {
            assert(sig_wf(*env, d.methods[k as int]));
            ret_ty = d.methods[k].ret;
            ret = self.repr_of_ty(ret_ty);
        }
        assert forall|i: int| 0 <= i < arm_args@.len() implies (#[trigger] arm_args@[i]).0
            < self.sem().b.values.len() by {
            if i > 0 {
                assert(args@[i].0 < old(self).sem().b.values.len());
            }
        }
        let out = self.direct(arm.1, method, arm_args, ret, ret_ty);
        self.jump(join, one(out));
    }

    /// Call the method of the type that the receiver is of at run time.
    pub fn dispatch_switch(
        &mut self,
        arms: &Vec<(Repr, usize)>,
        method: &str,
        args: Vec<Value>,
        r: Repr,
        ty: TyId,
    ) -> (v: Value)
        requires
            old(self).inv(),
            arms_wf(*old(self).env, arms@),
            values_below(args@, old(self).sem().b.values.len()),
        ensures
            (final(self).sem(), v) == l_switch_call(
                old(self).ctx(),
                old(self).sem(),
                arms_of(arms@),
                method@,
                args@,
                r.sem(),
                ty,
            ),
            final(self).keeps(old(self)),
            v.0 < final(self).sem().b.values.len(),
    {
        if args.len() == 0 {
            return self.note("dispatch switch: no receiver", r, ty);
        }
        if arms.len() == 0 {
            return self.note("dispatch switch: no arms", r, ty);
        }
        let ghost xs = arms_of(arms@);
        let join = self.new_block();
        let v = self.block_param(join, r, ty);
        assert(args@[0].0 < old(self).sem().b.values.len());
        let recv = args[0];
        let bty = self.ty_of_value(recv);
        let ghost s2 = self.sem();
        let ghost c = self.ctx();
        let mut k: usize = 0;
        while k < arms.len()
            invariant
                k <= arms.len(),
                xs == arms_of(arms@),
                c == self.ctx(),
                self.keeps(old(self)),
                steps_to(s2, self.sem()),
                arms_wf(*old(self).env, arms@),
                args.len() > 0,
                recv == args@[0],
                values_below(args@, old(self).sem().b.values.len()),
                join.0 < s2.b.blocks.len(),
                self.sem() == l_arms(c, s2, xs, k as int, method@, args@, join, bty),
            decreases arms.len() - k,
        {
            let ghost here = self.sem();
            assert(xs[k as int] == (arms[k as int].0.sem(), arms[k as int].1));
            assert forall|i: int| 0 <= i < args@.len() implies (#[trigger] args@[i]).0
                < here.b.values.len() by {
                assert(args@[i].0 < old(self).sem().b.values.len());
            }
            assert(recv.0 < here.b.values.len());
            if k + 1 < arms.len() {
                let op = Op::IsVariant {
                    value: recv,
                    variant: "".to_owned(),
                    tested: Some(arms[k].0.clone()),
                };
                let test = self.emit(op, Repr::Bool, bty);
                let body_b = self.new_block();
                let next_b = self.new_block();
                self.branch(test, body_b, next_b);
                self.switch_to(body_b);
                self.switch_arm(&arms[k], method, &args, join, bty);
                self.switch_to(next_b);
            } else {
                self.switch_arm(&arms[k], method, &args, join, bty);
            }
            k += 1;
        }
        self.enter(join);
        v
    }

    fn find_impl(&self, protocol: usize, head: &str) -> (r: Option<usize>)
        requires
            self.inv(),
        ensures
            match r {
                Some(i) => impl_from(*self.env, protocol, head@, 0) == Some(i as int) && i
                    < self.env.impls.len(),
                None => impl_from(*self.env, protocol, head@, 0) is None,
            },
    {
        proof {
            self.inv_means();
        }
        let mut k: usize = 0;
        while k < self.env.impls.len()
            invariant
                k <= self.env.impls.len(),
                env_wf(*self.env),
                self.cuts@ == super::super::repr::layout::cut_of(self.env.types),
                impl_from(*self.env, protocol, head@, 0) == impl_from(
                    *self.env,
                    protocol,
                    head@,
                    k as int,
                ),
            decreases self.env.impls.len() - k,
        {
            let d = &self.env.impls[k];
            assert(impl_wf(*self.env, self.env.impls[k as int]));
            let h = head_of_impl(self.env, self.cuts, d);
            if d.protocol == protocol && str_eq(h.as_str(), head) {
                return Some(k);
            }
            k += 1;
        }
        None
    }

    fn find_impl_method(&self, protocol: usize, head: &str, method: &str) -> (r: Option<&'a FnSig>)
        requires
            self.inv(),
        ensures
            match r {
                Some(m) => impl_method_from(*self.env, protocol, head@, method@, 0) == Some(*m)
                    && sig_wf(*self.env, *m),
                None => impl_method_from(*self.env, protocol, head@, method@, 0) is None,
            },
    {
        proof {
            self.inv_means();
        }
        let env = self.env;
        let mut k: usize = 0;
        while k < env.impls.len()
            invariant
                k <= env.impls.len(),
                env == self.env,
                env_wf(*env),
                self.cuts@ == super::super::repr::layout::cut_of(env.types),
                impl_method_from(*env, protocol, head@, method@, 0) == impl_method_from(
                    *env,
                    protocol,
                    head@,
                    method@,
                    k as int,
                ),
            decreases env.impls.len() - k,
        {
            let d = &env.impls[k];
            assert(impl_wf(*env, env.impls[k as int]));
            let h = head_of_impl(env, self.cuts, d);
            if d.protocol == protocol && str_eq(h.as_str(), head) {
                if let Some(i) = find_method(&d.methods, method) {
                    assert(sig_wf(*env, d.methods[i as int]));
                    return Some(&d.methods[i]);
                }
            }
            k += 1;
        }
        None
    }

    fn impls_of(&self, protocol: usize, vs: &Vec<Repr>) -> (r: Option<Vec<(Repr, usize)>>)
        requires
            self.inv(),
        ensures
            match r {
                Some(xs) => variant_impls(
                    *self.env,
                    protocol,
                    reprs_sem(vs@),
                    vs@.len() as int,
                ) == Some(arms_of(xs@)) && arms_wf(*self.env, xs@),
                None => variant_impls(*self.env, protocol, reprs_sem(vs@), vs@.len() as int) is None,
            },
    {
        let ghost rs = reprs_sem(vs@);
        let mut xs: Vec<(Repr, usize)> = Vec::new();
        let mut k: usize = 0;
        assert(arms_of(xs@) =~= seq![]);
        while k < vs.len()
            invariant
                k <= vs.len(),
                self.inv(),
                rs == reprs_sem(vs@),
                variant_impls(*self.env, protocol, rs, k as int) == Some(arms_of(xs@)),
                arms_wf(*self.env, xs@),
            decreases vs.len() - k,
        {
            assert(rs[k as int] == vs[k as int].sem());
            let found = match head_of(&vs[k]) {
                Some(h) => self.find_impl(protocol, h.as_str()),
                None => None,
            };
            match found {
                Some(i) => {
                    let ghost before = xs@;
                    xs.push((vs[k].clone(), i));
                    assert(arms_of(xs@) =~= arms_of(before).push((rs[k as int], i)));
                },
                None => {
                    proof {
                        lemma_no_impls(*self.env, protocol, rs, k + 1, rs.len() as int);
                    }
                    return None;
                },
            }
            k += 1;
        }
        Some(xs)
    }

    fn dispatch_bound(
        &mut self,
        protocol: usize,
        method: &str,
        args: Vec<Value>,
        r: Repr,
        ty: TyId,
    ) -> (v: Value)
        requires
            old(self).inv(),
            protocol < old(self).env.protocols.len(),
            values_below(args@, old(self).sem().b.values.len()),
        ensures
            (final(self).sem(), v) == l_bound(
                old(self).ctx(),
                old(self).sem(),
                protocol,
                method@,
                args@,
                r.sem(),
                ty,
            ),
            final(self).keeps(old(self)),
            v.0 < final(self).sem().b.values.len(),
    {
        proof {
            self.inv_means();
        }
        if args.len() == 0 {
            return self.note("bound: abstract receiver", r, ty);
        }
        assert(args@[0].0 < self.sem().b.values.len());
        let recv = self.repr_of_value(args[0]);
        if let Some(h) = head_of(&recv) {
            return match self.find_impl_method(protocol, h.as_str(), method) {
                Some(m) => {
                    let op = match &m.native {
                        Some(sym) => Op::Native { symbol: sym.clone(), args },
                        None => Op::Call {
                            func: mangle_impl(
                                self.env.protocols[protocol].as_str(),
                                h.as_str(),
                                method,
                            ),
                            args,
                        },
                    };
                    let x = self.emit(op, r.clone(), ty);
                    self.wrap_throwing(x, m.throws, r, ty)
                },
                None => self.note("bound: no impl", r, ty),
            };
        }
        if let Repr::Union(vs) = &recv {
            assert(recv.sem() == SRepr::Union(reprs_sem(vs@)));
            if let Some(xs) = self.impls_of(protocol, vs) {
                assert(arms_of(xs@).len() == xs.len());
                if xs.len() > 0 {
                    return self.dispatch_switch(&xs, method, args, r, ty);
                }
            }
        }
        self.note("bound: abstract receiver", r, ty)
    }

    /// A call that was resolved through a protocol.
    pub fn lower_dispatch(
        &mut self,
        res: &Resolution,
        method: &str,
        args: Vec<Value>,
        r: Repr,
        ty: TyId,
    ) -> (v: Value)
        requires
            old(self).inv(),
            resolution_wf(*old(self).env, *res),
            values_below(args@, old(self).sem().b.values.len()),
        ensures
            (final(self).sem(), v) == l_dispatch(
                old(self).ctx(),
                old(self).sem(),
                *res,
                method@,
                args@,
                r.sem(),
                ty,
            ),
            final(self).keeps(old(self)),
            v.0 < final(self).sem().b.values.len(),
    {
        proof {
            self.inv_means();
        }
        match res {
            Resolution::Direct(i) => self.direct(*i, method, args, r, ty),
            Resolution::Switch(arms) => {
                let ghost c = self.ctx();
                let ghost s = self.sem();
                let mut xs: Vec<(Repr, usize)> = Vec::new();
                let mut k: usize = 0;
                while k < arms.len()
                    invariant
                        k <= arms.len(),
                        self.inv(),
                        c == self.ctx(),
                        s == self.sem(),
                        choices_wf(*self.env, arms@),
                        xs.len() == k,
                        forall|j: int|
                            0 <= j < k ==> (#[trigger] xs[j]).0.sem() == layout_in(
                                c,
                                s,
                                arms[j].0,
                            ) && xs[j].1 == arms[j].1 && xs[j].1 < self.env.impls.len(),
                    decreases arms.len() - k,
                {
                    assert(ty_in_range(*self.env, arms@[k as int].0));
                    xs.push((self.repr_of_ty(arms[k].0), arms[k].1));
                    k += 1;
                }
                assert(arms_of(xs@) =~= arm_layouts(c, s, arms@));
                self.dispatch_switch(&xs, method, args, r, ty)
            },
            Resolution::Bound(p) => self.dispatch_bound(*p, method, args, r, ty),
        }
    }

    /// The layout of the type that is asked for.
    pub fn tested(&self, id: ExprId) -> (r: Option<Repr>)
        requires
            self.inv(),
        ensures
            r.sem() == tested_repr(self.ctx(), self.sem(), id),
    {
        proof {
            self.inv_means();
        }
        match ty_fact(&self.facts.tested, id) {
            Some(ty) => {
                assert(self.facts.tested@[id.0 as int] == Some(ty));
                let r = self.repr_of_ty(ty);
                if r.is_concrete() {
                    Some(r)
                } else {
                    None
                }
            },
            None => None,
        }
    }

    /// Whether a value is of a type.
    pub fn type_test(&mut self, subj: Value, spec: &TypeSpec, id: ExprId) -> (v: Value)
        requires
            old(self).inv(),
            subj.0 < old(self).sem().b.values.len(),
        ensures
            (final(self).sem(), v) == l_type_test(
                old(self).ctx(),
                old(self).sem(),
                subj,
                spec.sem(),
                id,
            ),
            final(self).keeps(old(self)),
            v.0 < final(self).sem().b.values.len(),
    {
        let bty = self.ty_of_value(subj);
        match &spec.kind {
            TypeSpecKind::Null => self.emit(Op::IsNull(subj), Repr::Bool, bty),
            TypeSpecKind::Named { path, .. } => {
                let tested = self.tested(id);
                let variant = last_of(path);
                let op = Op::IsVariant { value: subj, variant, tested };
                assert(op.sem() == SOp::IsVariant {
                    value: subj,
                    variant: variant@,
                    tested: tested.sem(),
                });
                self.emit(op, Repr::Bool, bty)
            },
            TypeSpecKind::Atom(a) => {
                let op = Op::ConstAtom(a.clone());
                assert(operands(op.sem()) =~= seq![]);
                let lit = self.emit(op, Repr::Tag, bty);
                self.emit(Op::Prim(PrimOp::Eq, two(subj, lit)), Repr::Bool, bty)
            },
            _ => {
                let tested = self.tested(id);
                let op = Op::IsVariant { value: subj, variant: "".to_owned(), tested };
                assert(op.sem() == SOp::IsVariant {
                    value: subj,
                    variant: ""@,
                    tested: tested.sem(),
                });
                self.emit(op, Repr::Bool, bty)
            },
        }
    }

    pub fn cast_assert(
        &mut self,
        id: ExprId,
        x: Value,
        spec: &TypeSpec,
        r: Repr,
        ty: TyId,
    ) -> (v: Value)
        requires
            old(self).inv(),
            x.0 < old(self).sem().b.values.len(),
        ensures
            (final(self).sem(), v) == l_cast_assert(
                old(self).ctx(),
                old(self).sem(),
                id,
                x,
                spec.sem(),
                r.sem(),
                ty,
            ),
            final(self).keeps(old(self)),
            v.0 < final(self).sem().b.values.len(),
    {
        let repr = self.repr_of_value(x);
        if let Repr::Any = &repr {
            return self.emit(Op::Cast(x), r, ty);
        }
        let test = self.type_test(x, spec, id);
        let ok_b = self.new_block();
        let bad_b = self.new_block();
        self.branch(test, ok_b, bad_b);
        self.switch_to(bad_b);
        let named = text_of_spec(spec);
        let mut text = cat("`as! ", named.as_str());
        text.append("` failed: the value holds a different type");
        let op = Op::ConstStr(text);
        assert(operands(op.sem()) =~= seq![]);
        let msg = self.emit(op, Repr::Str, ty);
        self.panic(msg);
        self.enter(ok_b);
        self.emit(Op::Cast(x), r, ty)
    }

    pub fn cast_soften(
        &mut self,
        id: ExprId,
        x: Value,
        spec: &TypeSpec,
        r: Repr,
        ty: TyId,
    ) -> (v: Value)
        requires
            old(self).inv(),
            x.0 < old(self).sem().b.values.len(),
        ensures
            (final(self).sem(), v) == l_cast_soften(
                old(self).ctx(),
                old(self).sem(),
                id,
                x,
                spec.sem(),
                r.sem(),
                ty,
            ),
            final(self).keeps(old(self)),
            v.0 < final(self).sem().b.values.len(),
    {
        proof {
            self.inv_means();
        }
        let test = self.type_test(x, spec, id);
        let ok_b = self.new_block();
        let null_b = self.new_block();
        let join = self.new_block();
        let out = self.block_param(join, r.clone(), ty);
        self.branch(test, ok_b, null_b);
        self.switch_to(ok_b);
        let mut target = r;
        let mut target_ty = ty;
        if let Some(t) = ty_fact(&self.facts.tested, id) {
            assert(self.facts.tested@[id.0 as int] == Some(t));
            target = self.repr_of_ty(t);
            target_ty = t;
        }
        let cast = self.emit(Op::Cast(x), target, target_ty);
        self.jump(join, one(cast));
        self.switch_to(null_b);
        assert(operands(SOp::ConstNull) =~= seq![]);
        let none = self.emit(Op::ConstNull, Repr::Null, ty);
        self.jump(join, one(none));
        self.enter(join);
        out
    }
}

fn text_of_spec(spec: &TypeSpec) -> (r: String)
    ensures
        r@ == spec_text(spec.sem()),
{
    match &spec.kind {
        TypeSpecKind::Named { path, .. } => join(path, "::"),
        TypeSpecKind::Atom(a) => cat(":", a.as_str()),
        TypeSpecKind::Null => "null".to_owned(),
        _ => "the target type".to_owned(),
    }
}

proof fn lemma_no_impls(env: Env, protocol: usize, vs: Seq<SRepr>, k: int, n: int)
    requires
        0 <= k <= n,
        variant_impls(env, protocol, vs, k) is None,
    ensures
        variant_impls(env, protocol, vs, n) is None,
    decreases n,
{
    if k < n {
        lemma_no_impls(env, protocol, vs, k, n - 1);
    }
}

} // verus!
