//! Asking whether the numbers in a program's tables all stand for something.

use super::{
    choices_wf, env_wf, facts_wf, generics_wf, impl_wf, resolution_wf, resolutions_wf, sig_wf,
    solved_wf, ty_in_range, tys_wf, Env, Facts, FnSig, Resolution,
};
use crate::types::{
    arrow_wf, data_wf, numbers_below, paths_below, rec_wf, types_below, types_wf, Path, TyData,
    TyId, Types,
};
use vstd::prelude::*;

verus! {

fn all_numbers_below(ns: &Vec<u32>, n: usize) -> (r: bool)
    ensures
        r == numbers_below(ns@, n as nat),
{
    let mut i: usize = 0;
    while i < ns.len()
        invariant
            i <= ns.len(),
            forall|k: int| 0 <= k < i ==> (#[trigger] ns@[k]) < n,
        decreases ns.len() - i,
    {
        if ns[i] as usize >= n {
            assert(!(ns@[i as int] < n));
            return false;
        }
        i += 1;
    }
    true
}

fn all_types_below(ts: &Vec<TyId>, n: usize) -> (r: bool)
    ensures
        r == types_below(ts@, n as nat),
{
    let mut i: usize = 0;
    while i < ts.len()
        invariant
            i <= ts.len(),
            forall|k: int| 0 <= k < i ==> (#[trigger] ts@[k]).0 < n,
        decreases ts.len() - i,
    {
        if ts[i].0 as usize >= n {
            assert(!(ts@[i as int].0 < n));
            return false;
        }
        i += 1;
    }
    true
}

fn all_paths_below(ps: &Vec<Path>, n: usize) -> (r: bool)
    ensures
        r == paths_below(ps@, n as nat),
{
    let mut i: usize = 0;
    while i < ps.len()
        invariant
            i <= ps.len(),
            forall|k: int| 0 <= k < i ==> numbers_below((#[trigger] ps@[k]).pos@, n as nat),
        decreases ps.len() - i,
    {
        if !all_numbers_below(&ps[i].pos, n) {
            assert(!numbers_below(ps@[i as int].pos@, n as nat));
            return false;
        }
        i += 1;
    }
    true
}

fn data_ok(t: &Types, d: &TyData) -> (r: bool)
    ensures
        r == data_wf(*t, *d),
{
    all_numbers_below(&d.atoms.names, t.names.len()) && all_numbers_below(
        &d.vars.names,
        t.names.len(),
    ) && all_paths_below(&d.records, t.rec_atoms.len()) && all_paths_below(
        &d.tuples,
        t.tup_atoms.len(),
    ) && all_paths_below(&d.arrows, t.arrow_atoms.len())
}

fn rec_ok(t: &Types, at: usize) -> (r: bool)
    requires
        at < t.rec_atoms.len(),
    ensures
        r == rec_wf(*t, t.rec_atoms[at as int]),
{
    let a = &t.rec_atoms[at];
    let mut i: usize = 0;
    while i < a.fields.len()
        invariant
            i <= a.fields.len(),
            at < t.rec_atoms.len(),
            *a == t.rec_atoms[at as int],
            forall|k: int|
                0 <= k < i ==> (#[trigger] a.fields[k]).0 < t.names.len() && a.fields[k].1.0
                    < t.data.len(),
        decreases a.fields.len() - i,
    {
        if a.fields[i].0 as usize >= t.names.len() || a.fields[i].1.0 as usize >= t.data.len() {
            assert(!(a.fields[i as int].0 < t.names.len()) || !(a.fields[i as int].1.0
                < t.data.len()));
            return false;
        }
        i += 1;
    }
    true
}

fn atoms_ok(t: &Types) -> (r: bool)
    ensures
        r == ((forall|i: int| 0 <= i < t.rec_atoms.len() ==> rec_wf(*t, #[trigger] t.rec_atoms[i]))
            && (forall|i: int|
            0 <= i < t.tup_atoms.len() ==> types_below(
                (#[trigger] t.tup_atoms[i]).elems@,
                t.data.len() as nat,
            )) && (forall|i: int|
            0 <= i < t.arrow_atoms.len() ==> arrow_wf(*t, #[trigger] t.arrow_atoms[i]))),
{
    let n: usize = t.data.len();
    let mut i: usize = 0;
    while i < t.rec_atoms.len()
        invariant
            i <= t.rec_atoms.len(),
            forall|k: int| 0 <= k < i ==> rec_wf(*t, #[trigger] t.rec_atoms[k]),
        decreases t.rec_atoms.len() - i,
    {
        if !rec_ok(t, i) {
            assert(!rec_wf(*t, t.rec_atoms[i as int]));
            return false;
        }
        i += 1;
    }
    let mut j: usize = 0;
    while j < t.tup_atoms.len()
        invariant
            n == t.data.len(),
            j <= t.tup_atoms.len(),
            forall|k: int|
                0 <= k < j ==> types_below((#[trigger] t.tup_atoms[k]).elems@, n as nat),
        decreases t.tup_atoms.len() - j,
    {
        if !all_types_below(&t.tup_atoms[j].elems, n) {
            assert(!types_below(t.tup_atoms[j as int].elems@, n as nat));
            return false;
        }
        j += 1;
    }
    let mut m: usize = 0;
    while m < t.arrow_atoms.len()
        invariant
            n == t.data.len(),
            m <= t.arrow_atoms.len(),
            forall|k: int| 0 <= k < m ==> arrow_wf(*t, #[trigger] t.arrow_atoms[k]),
        decreases t.arrow_atoms.len() - m,
    {
        let a = &t.arrow_atoms[m];
        if !all_types_below(&a.params, n) || a.throws.0 as usize >= n || a.ret.0 as usize >= n {
            assert(!arrow_wf(*t, t.arrow_atoms[m as int]));
            return false;
        }
        m += 1;
    }
    true
}

fn types_ok(t: &Types) -> (r: bool)
    ensures
        r == types_wf(*t),
{
    let n: usize = t.data.len();
    if n >= 0xffff_ffff || t.rec_atoms.len() >= 0xffff_ffff - n {
        return false;
    }
    let mut i: usize = 0;
    while i < n
        invariant
            i <= n == t.data.len(),
            forall|k: int| 0 <= k < i ==> data_wf(*t, #[trigger] t.data[k]),
        decreases n - i,
    {
        if !data_ok(t, &t.data[i]) {
            assert(!data_wf(*t, t.data[i as int]));
            return false;
        }
        i += 1;
    }
    atoms_ok(t)
}

fn sig_ok(env: &Env, s: &FnSig) -> (r: bool)
    ensures
        r == sig_wf(*env, *s),
{
    let n: usize = env.types.data.len();
    if s.throws.0 as usize >= n || s.ret.0 as usize >= n {
        return false;
    }
    let mut i: usize = 0;
    while i < s.params.len()
        invariant
            n == env.types.data.len(),
            i <= s.params.len(),
            forall|k: int| 0 <= k < i ==> (#[trigger] s.params[k]).1.0 < n,
        decreases s.params.len() - i,
    {
        if s.params[i].1.0 as usize >= n {
            assert(!ty_in_range(*env, s.params[i as int].1));
            return false;
        }
        i += 1;
    }
    true
}

fn sigs_ok(env: &Env, ss: &Vec<FnSig>) -> (r: bool)
    ensures
        r == forall|i: int| 0 <= i < ss.len() ==> sig_wf(*env, #[trigger] ss[i]),
{
    let mut i: usize = 0;
    while i < ss.len()
        invariant
            i <= ss.len(),
            forall|k: int| 0 <= k < i ==> sig_wf(*env, #[trigger] ss[k]),
        decreases ss.len() - i,
    {
        if !sig_ok(env, &ss[i]) {
            assert(!sig_wf(*env, ss[i as int]));
            return false;
        }
        i += 1;
    }
    true
}

fn impls_ok(env: &Env) -> (r: bool)
    ensures
        r == forall|i: int| 0 <= i < env.impls.len() ==> impl_wf(*env, #[trigger] env.impls[i]),
{
    let mut i: usize = 0;
    while i < env.impls.len()
        invariant
            i <= env.impls.len(),
            forall|k: int| 0 <= k < i ==> impl_wf(*env, #[trigger] env.impls[k]),
        decreases env.impls.len() - i,
    {
        let d = &env.impls[i];
        let target = match d.target {
            Some(ty) => (ty.0 as usize) < env.types.data.len(),
            None => true,
        };
        if d.protocol >= env.protocols.len() || !target || !sigs_ok(env, &d.methods) {
            assert(!impl_wf(*env, env.impls[i as int]));
            return false;
        }
        i += 1;
    }
    true
}

fn names_ok(env: &Env) -> (r: bool)
    ensures
        r == ((forall|i: int|
            0 <= i < env.fn_names.len() ==> (#[trigger] env.fn_names[i]).index < env.fns.len()) && (
        forall|i: int|
            0 <= i < env.const_names.len() ==> (#[trigger] env.const_names[i]).index
                < env.consts.len())),
{
    let mut i: usize = 0;
    while i < env.fn_names.len()
        invariant
            i <= env.fn_names.len(),
            forall|k: int| 0 <= k < i ==> (#[trigger] env.fn_names[k]).index < env.fns.len(),
        decreases env.fn_names.len() - i,
    {
        if env.fn_names[i].index >= env.fns.len() {
            assert(!(env.fn_names[i as int].index < env.fns.len()));
            return false;
        }
        i += 1;
    }
    let mut j: usize = 0;
    while j < env.const_names.len()
        invariant
            j <= env.const_names.len(),
            forall|k: int| 0 <= k < j ==> (#[trigger] env.const_names[k]).index < env.consts.len(),
        decreases env.const_names.len() - j,
    {
        if env.const_names[j].index >= env.consts.len() {
            assert(!(env.const_names[j as int].index < env.consts.len()));
            return false;
        }
        j += 1;
    }
    true
}

fn tys_ok(env: &Env, t: &Vec<Option<TyId>>) -> (r: bool)
    ensures
        r == tys_wf(*env, t@),
{
    let n: usize = env.types.data.len();
    let mut i: usize = 0;
    while i < t.len()
        invariant
            n == env.types.data.len(),
            i <= t.len(),
            forall|k: int|
                0 <= k < i ==> ((#[trigger] t@[k]) matches Some(ty) ==> ty_in_range(
                    *env,
                    ty,
                )),
        decreases t.len() - i,
    {
        if let Some(ty) = t[i] {
            if ty.0 as usize >= n {
                assert(t@[i as int] == Some(ty) && !ty_in_range(*env, ty));
                return false;
            }
        }
        i += 1;
    }
    true
}

fn choices_ok(env: &Env, arms: &Vec<(TyId, usize)>) -> (r: bool)
    ensures
        r == choices_wf(*env, arms@),
{
    let mut i: usize = 0;
    while i < arms.len()
        invariant
            i <= arms.len(),
            forall|k: int|
                0 <= k < i ==> ty_in_range(*env, (#[trigger] arms@[k]).0) && arms@[k].1
                    < env.impls.len(),
        decreases arms.len() - i,
    {
        if arms[i].0.0 as usize >= env.types.data.len() || arms[i].1 >= env.impls.len() {
            assert(!ty_in_range(*env, arms@[i as int].0) || !(arms@[i as int].1
                < env.impls.len()));
            return false;
        }
        i += 1;
    }
    true
}

fn resolution_ok(env: &Env, x: &Resolution) -> (r: bool)
    ensures
        r == resolution_wf(*env, *x),
{
    match x {
        Resolution::Direct(i) => *i < env.impls.len(),
        Resolution::Switch(arms) => choices_ok(env, arms),
        Resolution::Bound(p) => *p < env.protocols.len(),
    }
}

fn resolutions_ok(env: &Env, t: &Vec<Option<Resolution>>) -> (r: bool)
    ensures
        r == resolutions_wf(*env, t@),
{
    let mut i: usize = 0;
    while i < t.len()
        invariant
            i <= t.len(),
            forall|k: int|
                0 <= k < i ==> ((#[trigger] t@[k]) matches Some(x) ==> resolution_wf(*env, x)),
        decreases t.len() - i,
    {
        let ghost entry = t@[i as int];
        if let Some(x) = &t[i] {
            assert(entry == Some(*x));
            if !resolution_ok(env, x) {
                assert(t@[i as int] is Some && !resolution_wf(*env, t@[i as int]->0));
                return false;
            }
        }
        i += 1;
    }
    true
}

fn generics_ok(env: &Env, t: &Vec<Option<Vec<(String, TyId)>>>) -> (r: bool)
    ensures
        r == generics_wf(*env, t@),
{
    let mut i: usize = 0;
    while i < t.len()
        invariant
            i <= t.len(),
            forall|k: int|
                0 <= k < i ==> ((#[trigger] t@[k]) matches Some(x) ==> solved_wf(*env, x@)),
        decreases t.len() - i,
    {
        let ghost entry = t@[i as int];
        if let Some(x) = &t[i] {
            assert(entry == Some(*x));
            if !solved_ok(env, x) {
                assert(t@[i as int] is Some && !solved_wf(*env, t@[i as int]->0@));
                return false;
            }
        }
        i += 1;
    }
    true
}

fn solved_ok(env: &Env, xs: &Vec<(String, TyId)>) -> (r: bool)
    ensures
        r == solved_wf(*env, xs@),
{
    let mut i: usize = 0;
    while i < xs.len()
        invariant
            i <= xs.len(),
            forall|k: int| 0 <= k < i ==> ty_in_range(*env, (#[trigger] xs@[k]).1),
        decreases xs.len() - i,
    {
        if xs[i].1.0 as usize >= env.types.data.len() {
            assert(!ty_in_range(*env, xs@[i as int].1));
            return false;
        }
        i += 1;
    }
    true
}

/// Whether declarations and facts are what lowering asks for.
pub fn is_consistent(env: &Env, facts: &Facts) -> (r: bool)
    ensures
        r == (env_wf(*env) && facts_wf(*env, *facts)),
{
    let declared = types_ok(&env.types) && env.types.data.len() > 0 && sigs_ok(env, &env.fns)
        && names_ok(env) && impls_ok(env);
    assert(declared == env_wf(*env));
    declared && tys_ok(env, &facts.types) && tys_ok(env, &facts.declared) && resolutions_ok(
        env,
        &facts.calls,
    ) && resolutions_ok(env, &facts.interp_calls) && generics_ok(env, &facts.generics) && tys_ok(
        env,
        &facts.caught,
    ) && tys_ok(env, &facts.tested)
}

} // verus!
