//! What the type checker found out about a program.
//!
//! Expressions and patterns are known by their numbers: a table holds at place `i` what was
//! found out about number `i`.

use crate::ast::{Expr, ExprId};
use crate::types::{types_wf, TyId, Types};
use vstd::prelude::*;

pub mod consistent;

verus! {

/// The signature of a function or a method.
#[derive(Debug, PartialEq)]
pub struct FnSig {
    pub module: Vec<String>,
    pub name: String,
    pub generics: Vec<String>,
    pub params: Vec<(String, TyId)>,
    pub throws: TyId,
    pub ret: TyId,
    /// The runtime symbol of a native function.
    pub native: Option<String>,
    /// Whether a native function is declared to have no effects.
    pub pure: bool,
    pub inline: bool,
    pub has_body: bool,
}

/// What implements a protocol for a type.
#[derive(Debug, PartialEq)]
pub struct ImplDef {
    /// The protocol, by its place in [`Env::protocols`].
    pub protocol: usize,
    pub module: Vec<String>,
    /// The name of the type, where it has one.
    pub target_head: Option<String>,
    pub target: Option<TyId>,
    pub methods: Vec<FnSig>,
}

/// How a call of a protocol's method is resolved.
#[derive(Debug, PartialEq)]
pub enum Resolution {
    /// To the method of one implementation, by its place in [`Env::impls`].
    Direct(usize),
    /// To one of several, by the type that the receiver has at run time.
    Switch(Vec<(TyId, usize)>),
    /// To that of whatever type an instance has: a bound on a type variable, by its
    /// protocol.
    Bound(usize),
}

/// What a path stands for where it is written in a module, by its place in a table.
#[derive(Debug, PartialEq)]
pub struct NameUse {
    pub module: Vec<String>,
    pub path: Vec<String>,
    pub index: usize,
}

/// What a path that names a type stands for where it is written in a module.
#[derive(Debug, PartialEq)]
pub struct TypeUse {
    pub module: Vec<String>,
    pub path: Vec<String>,
    pub name: String,
}

/// The declarations of a program.
#[derive(Debug, PartialEq)]
pub struct Env {
    pub types: Types,
    pub fns: Vec<FnSig>,
    /// What paths to functions stand for.
    pub fn_names: Vec<NameUse>,
    /// The values of constants.
    pub consts: Vec<Expr>,
    /// What paths to constants stand for.
    pub const_names: Vec<NameUse>,
    /// What paths to types stand for.
    pub type_names: Vec<TypeUse>,
    pub protocols: Vec<String>,
    pub impls: Vec<ImplDef>,
}

impl Env {
    /// The path of the prelude. No source can write it, and it is looked in last.
    pub const PRELUDE: &'static str = "<prelude>";
}

/// What was found out about expressions and patterns.
#[derive(Debug, PartialEq)]
pub struct Facts {
    pub types: Vec<Option<TyId>>,
    /// The type that a `let` declares, by the number of its value.
    pub declared: Vec<Option<TyId>>,
    /// How calls are resolved.
    pub calls: Vec<Option<Resolution>>,
    /// How a part of a string is turned into text.
    pub interp_calls: Vec<Option<Resolution>>,
    /// What the type variables of a called function stand for.
    pub generics: Vec<Option<Vec<(String, TyId)>>>,
    /// What a `try` can catch.
    pub caught: Vec<Option<TyId>>,
    /// The type that an `is`, a cast or a pattern asks for.
    pub tested: Vec<Option<TyId>>,
    /// The bit patterns of float literals.
    pub floats: Vec<Option<u64>>,
}

/// What a table holds about a number.
pub open spec fn fact<T>(t: Seq<Option<T>>, id: ExprId) -> Option<T> {
    if id.0 < t.len() {
        t[id.0 as int]
    } else {
        None
    }
}

pub open spec fn ty_in_range(env: Env, ty: TyId) -> bool {
    ty.0 < env.types.data.len()
}

pub open spec fn sig_wf(env: Env, s: FnSig) -> bool {
    &&& ty_in_range(env, s.throws)
    &&& ty_in_range(env, s.ret)
    &&& forall|i: int| 0 <= i < s.params.len() ==> ty_in_range(env, (#[trigger] s.params[i]).1)
}

pub open spec fn impl_wf(env: Env, d: ImplDef) -> bool {
    &&& d.protocol < env.protocols.len()
    &&& d.target matches Some(ty) ==> ty_in_range(env, ty)
    &&& forall|i: int| 0 <= i < d.methods.len() ==> sig_wf(env, #[trigger] d.methods[i])
}

/// Declarations whose numbers all stand for something. There is at least one type, which
/// stands for the type of what has none.
pub open spec fn env_wf(env: Env) -> bool {
    &&& types_wf(env.types)
    &&& env.types.data.len() > 0
    &&& forall|i: int| 0 <= i < env.fns.len() ==> sig_wf(env, #[trigger] env.fns[i])
    &&& forall|i: int|
        0 <= i < env.fn_names.len() ==> (#[trigger] env.fn_names[i]).index < env.fns.len()
    &&& forall|i: int|
        0 <= i < env.const_names.len() ==> (#[trigger] env.const_names[i]).index
            < env.consts.len()
    &&& forall|i: int| 0 <= i < env.impls.len() ==> impl_wf(env, #[trigger] env.impls[i])
}

pub open spec fn tys_wf(env: Env, t: Seq<Option<TyId>>) -> bool {
    forall|i: int| 0 <= i < t.len() ==> ((#[trigger] t[i]) matches Some(ty) ==> ty_in_range(env, ty))
}

pub open spec fn choices_wf(env: Env, arms: Seq<(TyId, usize)>) -> bool {
    forall|k: int|
        0 <= k < arms.len() ==> ty_in_range(env, (#[trigger] arms[k]).0) && arms[k].1
            < env.impls.len()
}

pub open spec fn resolution_wf(env: Env, r: Resolution) -> bool {
    match r {
        Resolution::Direct(i) => i < env.impls.len(),
        Resolution::Switch(arms) => choices_wf(env, arms@),
        Resolution::Bound(p) => p < env.protocols.len(),
    }
}

pub open spec fn resolutions_wf(env: Env, t: Seq<Option<Resolution>>) -> bool {
    forall|i: int|
        0 <= i < t.len() ==> ((#[trigger] t[i]) matches Some(r) ==> resolution_wf(env, r))
}

pub open spec fn solved_wf(env: Env, s: Seq<(String, TyId)>) -> bool {
    forall|i: int| 0 <= i < s.len() ==> ty_in_range(env, (#[trigger] s[i]).1)
}

pub open spec fn generics_wf(env: Env, t: Seq<Option<Vec<(String, TyId)>>>) -> bool {
    forall|i: int| 0 <= i < t.len() ==> ((#[trigger] t[i]) matches Some(s) ==> solved_wf(env, s@))
}

/// Facts whose numbers all stand for something.
pub open spec fn facts_wf(env: Env, f: Facts) -> bool {
    &&& tys_wf(env, f.types@)
    &&& tys_wf(env, f.declared@)
    &&& resolutions_wf(env, f.calls@)
    &&& resolutions_wf(env, f.interp_calls@)
    &&& generics_wf(env, f.generics@)
    &&& tys_wf(env, f.caught@)
    &&& tys_wf(env, f.tested@)
}

/// What a table of types holds about a number.
pub fn ty_fact(t: &Vec<Option<TyId>>, id: ExprId) -> (r: Option<TyId>)
    ensures
        r == fact(t@, id),
{
    if (id.0 as usize) < t.len() {
        t[id.0 as usize]
    } else {
        None
    }
}

/// What a table of bit patterns holds about a number.
pub fn bits_fact(t: &Vec<Option<u64>>, id: ExprId) -> (r: Option<u64>)
    ensures
        r == fact(t@, id),
{
    if (id.0 as usize) < t.len() {
        t[id.0 as usize]
    } else {
        None
    }
}

/// What a table of resolutions holds about a number.
pub fn resolution_fact(t: &Vec<Option<Resolution>>, id: ExprId) -> (r: Option<&Resolution>)
    ensures
        match r {
            Some(x) => fact(t@, id) == Some(*x),
            None => fact(t@, id) is None,
        },
{
    if (id.0 as usize) < t.len() {
        t[id.0 as usize].as_ref()
    } else {
        None
    }
}

/// What a table of solved type variables holds about a number.
pub fn solved_fact(t: &Vec<Option<Vec<(String, TyId)>>>, id: ExprId) -> (r: Option<
    &Vec<(String, TyId)>,
>)
    ensures
        match r {
            Some(x) => fact(t@, id) == Some(*x),
            None => fact(t@, id) is None,
        },
{
    if (id.0 as usize) < t.len() {
        t[id.0 as usize].as_ref()
    } else {
        None
    }
}

} // verus!
