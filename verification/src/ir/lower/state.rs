//! The state of lowering one function, and the steps that everything else is made of.

use super::super::repr::layout::{cut_of, layout_of, repr_with, Cuts};
use super::super::repr::{Repr, SRepr};
use super::super::ssa::{
    appended, block_in_range, empty_block, inst_in_range, next_value, operands, targets,
    term_in_range, term_operands, values_below, with_value, BlockId, Builder, Op, SBlock, SBuilder,
    SInst, SOp, STarget, STerm, SValueData, Target, Term, Value,
};
use super::names::is_made;
use super::subst::{substitute_repr, substituted, SSubst, Subst};
use crate::ast::{Expr, ExprId};
use crate::check::{env_wf, fact, facts_wf, ty_fact, ty_in_range, Env, Facts};
use crate::syntax::{names_of, sems, Node, SExpr};
use crate::text::str_eq;
use crate::ir::opt::laws::{insts_free, of_sort, Sort};
use crate::ir::refcount::order::{block_in_order, inst_in_order};
use crate::types::TyId;
use vstd::prelude::*;

verus! {

/// What lowering goes by.
pub struct Ctx {
    pub env: Env,
    pub facts: Facts,
}

/// What `break` and `continue` need: where each goes, and the variables that the loop
/// carries.
pub struct SLoop {
    pub continue_target: BlockId,
    pub exit: BlockId,
    pub carried: Seq<Seq<char>>,
    /// Whether the loop has a value, which the exit then takes first.
    pub has_value: bool,
}

/// A lambda whose body is to be lowered as a function of its own.
pub struct SLambdaJob {
    pub name: Seq<char>,
    pub lambda: SExpr,
    /// What it captures: name, layout and type.
    pub captures: Seq<(Seq<char>, SRepr, TyId)>,
    pub module: Seq<Seq<char>>,
    pub subst: SSubst,
}

/// An instance of a generic function that is to be lowered.
pub struct SInstanceJob {
    pub mangled: Seq<char>,
    pub module: Seq<Seq<char>>,
    pub fn_name: Seq<char>,
    pub subst: SSubst,
    /// For a method, the name that finds its body.
    pub impl_key: Option<Seq<char>>,
}

/// The state of lowering one function.
pub struct SLower {
    pub b: SBuilder,
    /// Local bindings, innermost last. In each frame the latest binding of a name counts.
    pub scope: Seq<Seq<(Seq<char>, Value)>>,
    /// Whether the current block has ended, so that what follows is dead.
    pub terminated: bool,
    pub loops: Seq<SLoop>,
    /// Where errors go, innermost last.
    pub handlers: Seq<BlockId>,
    pub pending: Seq<SLambdaJob>,
    pub instances: Seq<SInstanceJob>,
    pub module: Seq<Seq<char>>,
    pub subst: SSubst,
}

// ---- steps ----

/// Mint a value.
#[verifier::opaque]
pub open spec fn l_value(s: SLower, r: SRepr, ty: TyId) -> (SLower, Value) {
    (SLower { b: with_value(s.b, r, ty), ..s }, next_value(s.b))
}

/// Append an instruction that defines a value.
#[verifier::opaque]
pub open spec fn l_emit(s: SLower, op: SOp, r: SRepr, ty: TyId) -> (SLower, Value) {
    let v = next_value(s.b);
    (SLower { b: appended(with_value(s.b, r, ty), SInst { result: Some(v), op }), ..s }, v)
}

/// Append an instruction that defines nothing.
#[verifier::opaque]
pub open spec fn l_void(s: SLower, op: SOp) -> SLower {
    SLower { b: appended(s.b, SInst { result: None, op }), ..s }
}

/// A fresh block.
#[verifier::opaque]
pub open spec fn l_block(s: SLower) -> (SLower, BlockId) {
    let id = BlockId(s.b.blocks.len() as u32);
    (SLower { b: SBuilder { blocks: s.b.blocks.push(empty_block(id)), ..s.b }, ..s }, id)
}

/// A parameter of a block.
#[verifier::opaque]
pub open spec fn l_param(s: SLower, block: BlockId, r: SRepr, ty: TyId) -> (SLower, Value) {
    let v = next_value(s.b);
    let at = block.0 as int;
    let b = SBuilder {
        blocks: s.b.blocks.update(
            at,
            SBlock { params: s.b.blocks[at].params.push(v), ..s.b.blocks[at] },
        ),
        ..with_value(s.b, r, ty)
    };
    (SLower { b, ..s }, v)
}

/// Go on in a block.
#[verifier::opaque]
pub open spec fn l_switch(s: SLower, block: BlockId) -> SLower {
    SLower { b: SBuilder { current: block, ..s.b }, ..s }
}

/// Go on in a block that has not ended.
#[verifier::opaque]
pub open spec fn l_enter(s: SLower, block: BlockId) -> SLower {
    SLower { b: SBuilder { current: block, ..s.b }, terminated: false, ..s }
}

/// End the current block.
#[verifier::opaque]
pub open spec fn l_end(s: SLower, term: STerm) -> SLower {
    let at = s.b.current.0 as int;
    let b = SBuilder {
        blocks: s.b.blocks.update(at, SBlock { term, ..s.b.blocks[at] }),
        ..s.b
    };
    SLower { b, ..s }
}

pub open spec fn l_jump(s: SLower, to: BlockId, args: Seq<Value>) -> SLower {
    l_end(s, STerm::Jump(STarget { to, args }))
}

/// End the current block with a branch that passes nothing.
pub open spec fn l_branch(s: SLower, cond: Value, then: BlockId, els: BlockId) -> SLower {
    l_end(
        s,
        STerm::Branch {
            cond,
            then: STarget { to: then, args: seq![] },
            els: STarget { to: els, args: seq![] },
        },
    )
}

/// Note that what follows is dead.
#[verifier::opaque]
pub open spec fn l_dead(s: SLower) -> SLower {
    SLower { terminated: true, ..s }
}

/// Change the layout of a value.
#[verifier::opaque]
pub open spec fn l_retype(s: SLower, v: Value, r: SRepr) -> SLower {
    let at = v.0 as int;
    let b = SBuilder {
        values: s.b.values.update(at, SValueData { repr: r, ..s.b.values[at] }),
        ..s.b
    };
    SLower { b, ..s }
}

#[verifier::opaque]
pub open spec fn l_push(s: SLower) -> SLower {
    SLower { scope: s.scope.push(seq![]), ..s }
}

#[verifier::opaque]
pub open spec fn l_pop(s: SLower) -> SLower {
    SLower { scope: s.scope.drop_last(), ..s }
}

/// Bind a name in the innermost frame.
#[verifier::opaque]
pub open spec fn l_bind(s: SLower, name: Seq<char>, v: Value) -> SLower {
    let last = s.scope.len() - 1;
    SLower { scope: s.scope.update(last, s.scope[last].push((name, v))), ..s }
}

/// What a name was last bound to among the first `k` entries of a frame.
pub open spec fn in_frame(f: Seq<(Seq<char>, Value)>, name: Seq<char>, k: int) -> Option<Value>
    decreases k,
{
    if k <= 0 {
        None
    } else if f[k - 1].0 == name {
        Some(f[k - 1].1)
    } else {
        in_frame(f, name, k - 1)
    }
}

/// What a name stands for in the first `k` frames.
pub open spec fn in_frames(
    scope: Seq<Seq<(Seq<char>, Value)>>,
    name: Seq<char>,
    k: int,
) -> Option<Value>
    decreases k,
{
    if k <= 0 {
        None
    } else {
        match in_frame(scope[k - 1], name, scope[k - 1].len() as int) {
            Some(v) => Some(v),
            None => in_frames(scope, name, k - 1),
        }
    }
}

/// What a name stands for.
pub open spec fn found(s: SLower, name: Seq<char>) -> Option<Value> {
    in_frames(s.scope, name, s.scope.len() as int)
}

/// What the first `k` names stand for.
pub open spec fn current(s: SLower, names: Seq<Seq<char>>, k: int) -> Seq<Value>
    decreases k,
{
    if k <= 0 {
        seq![]
    } else {
        match found(s, names[k - 1]) {
            Some(v) => current(s, names, k - 1).push(v),
            None => current(s, names, k - 1),
        }
    }
}

/// What names stand for.
pub open spec fn values_of(s: SLower, names: Seq<Seq<char>>) -> Seq<Value> {
    current(s, names, names.len() as int)
}

/// Those of the first `k` names that stand for something, each once: the variables that are
/// bound outside and have to be carried through.
pub open spec fn carried(s: SLower, names: Seq<Seq<char>>, k: int) -> Seq<Seq<char>>
    decreases k,
{
    if k <= 0 {
        seq![]
    } else {
        let before = carried(s, names, k - 1);
        if found(s, names[k - 1]) is Some && !before.contains(names[k - 1]) {
            before.push(names[k - 1])
        } else {
            before
        }
    }
}

/// Bind the first `k` names to values.
pub open spec fn l_bind_all(s: SLower, names: Seq<Seq<char>>, vs: Seq<Value>, k: int) -> SLower
    decreases k,
{
    if k <= 0 {
        s
    } else {
        let before = l_bind_all(s, names, vs, k - 1);
        if k <= vs.len() {
            l_bind(before, names[k - 1], vs[k - 1])
        } else {
            before
        }
    }
}

pub open spec fn repr_at(s: SLower, v: Value) -> SRepr {
    s.b.values[v.0 as int].repr
}

pub open spec fn ty_at(s: SLower, v: Value) -> TyId {
    s.b.values[v.0 as int].ty
}

/// The layout of a type in an instance.
pub open spec fn layout_in(c: Ctx, s: SLower, ty: TyId) -> SRepr {
    if s.subst.len() == 0 {
        layout_of(c.env.types, ty)
    } else {
        substituted(layout_of(c.env.types, ty), s.subst)
    }
}

/// The layout of an expression. One that the checker did not get to has none.
pub open spec fn expr_layout(c: Ctx, s: SLower, id: ExprId) -> SRepr {
    match fact(c.facts.types@, id) {
        Some(ty) => layout_in(c, s, ty),
        None => SRepr::Unit,
    }
}

pub open spec fn expr_ty(c: Ctx, id: ExprId) -> TyId {
    match fact(c.facts.types@, id) {
        Some(ty) => ty,
        None => TyId(0),
    }
}

pub open spec fn l_unit(s: SLower, ty: TyId) -> (SLower, Value) {
    l_emit(s, SOp::ConstUnit, SRepr::Unit, ty)
}

/// A form that is not lowered: a constant that says so.
pub open spec fn l_note(s: SLower, what: Seq<char>, r: SRepr, ty: TyId) -> (SLower, Value) {
    l_emit(s, SOp::ConstStr("<todo: "@ + what + ">"@), r, ty)
}

// ---- what holds throughout ----

pub open spec fn frame_ok(f: Seq<(Seq<char>, Value)>, n: nat) -> bool {
    forall|i: int| 0 <= i < f.len() ==> (#[trigger] f[i]).1.0 < n
}

/// Blocks that only go to blocks and only name values that there are, that do not count
/// references, and that number values in the order in which they are made.
pub open spec fn builder_ok(b: SBuilder) -> bool {
    &&& b.current.0 < b.blocks.len()
    &&& forall|i: int|
        0 <= i < b.blocks.len() ==> block_in_range(#[trigger] b.blocks[i], b.values.len())
    &&& forall|i: int|
        0 <= i < b.blocks.len() ==> term_in_range((#[trigger] b.blocks[i]).term, b.blocks.len())
    &&& forall|i: int|
        0 <= i < b.blocks.len() ==> (#[trigger] b.blocks[i]).id == BlockId(i as u32)
    &&& forall|i: int|
        0 <= i < b.blocks.len() ==> insts_free((#[trigger] b.blocks[i]).insts, Sort::Count)
    &&& b.values.len() <= u32::MAX ==> forall|i: int|
        0 <= i < b.blocks.len() ==> block_in_order(#[trigger] b.blocks[i])
}

pub open spec fn state_ok(s: SLower) -> bool {
    &&& builder_ok(s.b)
    &&& forall|i: int| 0 <= i < s.scope.len() ==> frame_ok(#[trigger] s.scope[i], s.b.values.len())
    &&& forall|i: int| 0 <= i < s.handlers.len() ==> (#[trigger] s.handlers[i]).0 < s.b.blocks.len()
    &&& forall|i: int|
        0 <= i < s.loops.len() ==> (#[trigger] s.loops[i]).continue_target.0 < s.b.blocks.len()
            && s.loops[i].exit.0 < s.b.blocks.len()
    &&& all_lambdas(s.pending)
    &&& all_instances(s.instances)
}

/// Jobs for lambdas, under names that lowering makes.
pub open spec fn all_lambdas(jobs: Seq<SLambdaJob>) -> bool {
    forall|i: int|
        0 <= i < jobs.len() ==> (#[trigger] jobs[i]).lambda.kind is Lambda && is_made(jobs[i].name)
}

/// Jobs under names that lowering makes.
pub open spec fn all_instances(jobs: Seq<SInstanceJob>) -> bool {
    forall|i: int| 0 <= i < jobs.len() ==> is_made((#[trigger] jobs[i]).mangled)
}

/// What every step keeps: blocks and values are only added, and scopes, loops, handlers, the
/// name, the result and the error are as they were.
pub open spec fn steps_to(a: SLower, b: SLower) -> bool {
    &&& a.b.blocks.len() <= b.b.blocks.len()
    &&& a.b.values.len() <= b.b.values.len()
    &&& a.scope.len() == b.scope.len()
    &&& a.loops == b.loops
    &&& a.handlers == b.handlers
    &&& a.b.name == b.b.name
    &&& a.b.ret == b.b.ret
    &&& a.b.throws == b.b.throws
}

// ---- doing it ----

pub struct LoopCtx {
    pub continue_target: BlockId,
    pub exit: BlockId,
    pub carried: Vec<String>,
    pub has_value: bool,
}

impl Node for LoopCtx {
    type V = SLoop;

    open spec fn sem(&self) -> SLoop {
        SLoop {
            continue_target: self.continue_target,
            exit: self.exit,
            carried: names_of(self.carried@),
            has_value: self.has_value,
        }
    }
}

pub struct LambdaJob<'a> {
    pub name: String,
    pub lambda: &'a Expr,
    pub captures: Vec<(String, Repr, TyId)>,
    pub module: Vec<String>,
    pub subst: Subst,
}

pub open spec fn captures_sem(cs: Seq<(String, Repr, TyId)>) -> Seq<(Seq<char>, SRepr, TyId)> {
    cs.map_values(|p: (String, Repr, TyId)| (p.0@, p.1.sem(), p.2))
}

impl<'a> Node for LambdaJob<'a> {
    type V = SLambdaJob;

    open spec fn sem(&self) -> SLambdaJob {
        SLambdaJob {
            name: self.name@,
            lambda: self.lambda.sem(),
            captures: captures_sem(self.captures@),
            module: names_of(self.module@),
            subst: self.subst@,
        }
    }
}

pub struct InstanceJob {
    pub mangled: String,
    pub module: Vec<String>,
    pub fn_name: String,
    pub subst: Subst,
    pub impl_key: Option<String>,
}

impl Node for InstanceJob {
    type V = SInstanceJob;

    open spec fn sem(&self) -> SInstanceJob {
        SInstanceJob {
            mangled: self.mangled@,
            module: names_of(self.module@),
            fn_name: self.fn_name@,
            subst: self.subst@,
            impl_key: self.impl_key.sem(),
        }
    }
}

/// The state of lowering one function.
pub struct Lower<'a> {
    pub env: &'a Env,
    pub facts: &'a Facts,
    pub cuts: &'a Cuts,
    pub module: Vec<String>,
    pub b: Builder,
    pub scope: Vec<Vec<(String, Value)>>,
    pub terminated: bool,
    pub loops: Vec<LoopCtx>,
    pub handlers: Vec<BlockId>,
    pub pending: Vec<LambdaJob<'a>>,
    pub subst: Subst,
    pub instances: Vec<InstanceJob>,
}

pub open spec fn frame_sem(f: Seq<(String, Value)>) -> Seq<(Seq<char>, Value)> {
    f.map_values(|p: (String, Value)| (p.0@, p.1))
}

pub open spec fn scope_sem(s: Seq<Vec<(String, Value)>>) -> Seq<Seq<(Seq<char>, Value)>> {
    s.map_values(|f: Vec<(String, Value)>| frame_sem(f@))
}

/// Names in a vector of their own.
pub fn copy_names(ns: &Vec<String>) -> (r: Vec<String>)
    ensures
        names_of(r@) == names_of(ns@),
{
    let mut r: Vec<String> = Vec::new();
    let mut i: usize = 0;
    while i < ns.len()
        invariant
            i <= ns.len(),
            r.len() == i,
            forall|k: int| 0 <= k < i ==> (#[trigger] r[k])@ == ns[k]@,
        decreases ns.len() - i,
    {
        r.push(ns[i].clone());
        i += 1;
    }
    assert(names_of(r@) =~= names_of(ns@));
    r
}

pub fn one(v: Value) -> (r: Vec<Value>)
    ensures
        r@ == seq![v],
{
    let mut r: Vec<Value> = Vec::new();
    r.push(v);
    assert(r@ =~= seq![v]);
    r
}

pub fn two(a: Value, b: Value) -> (r: Vec<Value>)
    ensures
        r@ == seq![a, b],
{
    let mut r: Vec<Value> = Vec::new();
    r.push(a);
    r.push(b);
    assert(r@ =~= seq![a, b]);
    r
}

pub fn no_values() -> (r: Vec<Value>)
    ensures
        r@ == Seq::<Value>::empty(),
{
    let r: Vec<Value> = Vec::new();
    assert(r@ =~= Seq::<Value>::empty());
    r
}

proof fn lemma_block_stays(b: SBlock, m: nat, n: nat)
    requires
        block_in_range(b, m),
        m <= n,
    ensures
        block_in_range(b, n),
{
    assert forall|i: int| 0 <= i < b.insts.len() implies inst_in_range(
        #[trigger] b.insts[i],
        n,
    ) by {
        assert(inst_in_range(b.insts[i], m));
    }
}

impl<'a> Node for Lower<'a> {
    type V = SLower;

    open spec fn sem(&self) -> SLower {
        SLower {
            b: self.b.sem(),
            scope: scope_sem(self.scope@),
            terminated: self.terminated,
            loops: sems(self.loops@),
            handlers: self.handlers@,
            pending: sems(self.pending@),
            instances: sems(self.instances@),
            module: names_of(self.module@),
            subst: self.subst@,
        }
    }
}

/// What holds of the state throughout.
#[verifier::opaque]
pub open spec fn lower_inv(l: Lower) -> bool {
    &&& env_wf(*l.env)
    &&& facts_wf(*l.env, *l.facts)
    &&& l.cuts@ == cut_of(l.env.types)
    &&& l.b.wf()
    &&& state_ok(l.sem())
}

impl<'a> Lower<'a> {
    pub open spec fn ctx(&self) -> Ctx {
        Ctx { env: *self.env, facts: *self.facts }
    }

    pub open spec fn inv(&self) -> bool {
        lower_inv(*self) && self.scope.len() > 0
    }

    /// What holds of what lowering goes by.
    pub proof fn inv_means(&self)
        requires
            self.inv(),
        ensures
            env_wf(*self.env),
            facts_wf(*self.env, *self.facts),
            self.cuts@ == cut_of(self.env.types),
    {
        reveal(lower_inv);
    }

    /// Where errors and the ends of loops go, there are blocks.
    pub proof fn inv_means_blocks(&self)
        requires
            self.inv(),
        ensures
            forall|i: int|
                0 <= i < self.sem().handlers.len() ==> (#[trigger] self.sem().handlers[i]).0
                    < self.sem().b.blocks.len(),
            forall|i: int|
                0 <= i < self.sem().loops.len() ==> (
                #[trigger] self.sem().loops[i]).continue_target.0 < self.sem().b.blocks.len()
                    && self.sem().loops[i].exit.0 < self.sem().b.blocks.len(),
    {
        reveal(lower_inv);
    }

    /// What every step keeps of the state as a whole.
    pub open spec fn keeps(&self, old: &Lower<'a>) -> bool {
        &&& self.inv()
        &&& self.env == old.env
        &&& self.facts == old.facts
        &&& self.cuts == old.cuts
        &&& steps_to(old.sem(), self.sem())
    }

    pub fn value(&mut self, r: Repr, ty: TyId) -> (v: Value)
        requires
            old(self).inv(),
        ensures
            (final(self).sem(), v) == l_value(old(self).sem(), r.sem(), ty),
            final(self).keeps(old(self)),
            v.0 < final(self).sem().b.values.len(),
    {
        proof {
            reveal(l_value);
            reveal(lower_inv);
        }
        let ghost s = self.sem();
        let v = self.b.value(r, ty);
        let ghost t = self.sem();
        assert(t == l_value(s, r.sem(), ty).0);
        proof {
            lemma_values_added(s, t);
        }
        v
    }

    pub fn emit(&mut self, op: Op, r: Repr, ty: TyId) -> (v: Value)
        requires
            old(self).inv(),
            values_below(operands(op.sem()), old(self).sem().b.values.len()),
            !of_sort(op.sem(), Sort::Count),
        ensures
            (final(self).sem(), v) == l_emit(old(self).sem(), op.sem(), r.sem(), ty),
            final(self).keeps(old(self)),
            v.0 < final(self).sem().b.values.len(),
    {
        proof {
            reveal(l_emit);
            reveal(lower_inv);
        }
        let ghost s = self.sem();
        let v = self.b.emit(op, r, ty);
        let ghost t = self.sem();
        assert(t == l_emit(s, op.sem(), r.sem(), ty).0);
        proof {
            lemma_appended(s, t, SInst { result: Some(v), op: op.sem() });
        }
        v
    }

    pub fn emit_void(&mut self, op: Op)
        requires
            old(self).inv(),
            values_below(operands(op.sem()), old(self).sem().b.values.len()),
            !of_sort(op.sem(), Sort::Count),
        ensures
            final(self).sem() == l_void(old(self).sem(), op.sem()),
            final(self).keeps(old(self)),
    {
        proof {
            reveal(l_void);
            reveal(lower_inv);
        }
        let ghost s = self.sem();
        self.b.emit_void(op);
        let ghost t = self.sem();
        assert(t == l_void(s, op.sem()));
        proof {
            lemma_appended(s, t, SInst { result: None, op: op.sem() });
        }
    }

    pub fn new_block(&mut self) -> (id: BlockId)
        requires
            old(self).inv(),
        ensures
            (final(self).sem(), id) == l_block(old(self).sem()),
            final(self).keeps(old(self)),
            id.0 < final(self).sem().b.blocks.len(),
    {
        proof {
            reveal(l_block);
            reveal(lower_inv);
        }
        let ghost s = self.sem();
        let id = self.b.new_block();
        let ghost t = self.sem();
        assert(t == l_block(s).0);
        proof {
            assert forall|i: int| 0 <= i < t.b.blocks.len() implies block_in_range(
                #[trigger] t.b.blocks[i],
                t.b.values.len(),
            ) && term_in_range(t.b.blocks[i].term, t.b.blocks.len()) && t.b.blocks[i].id == BlockId(
                i as u32,
            ) && insts_free(t.b.blocks[i].insts, Sort::Count) && (t.b.values.len() <= u32::MAX
                ==> block_in_order(t.b.blocks[i])) by {
                if i < s.b.blocks.len() {
                    assert(t.b.blocks[i] == s.b.blocks[i]);
                    assert(block_in_range(s.b.blocks[i], s.b.values.len()));
                    assert(term_in_range(s.b.blocks[i].term, s.b.blocks.len()));
                    assert(s.b.blocks[i].id == BlockId(i as u32));
                assert(insts_free(s.b.blocks[i].insts, Sort::Count));
                assert(s.b.values.len() <= u32::MAX ==> block_in_order(s.b.blocks[i]));
                } else {
                    assert(t.b.blocks[i] == empty_block(id));
                }
            }
        }
        id
    }

    pub fn block_param(&mut self, block: BlockId, r: Repr, ty: TyId) -> (v: Value)
        requires
            old(self).inv(),
            block.0 < old(self).sem().b.blocks.len(),
        ensures
            (final(self).sem(), v) == l_param(old(self).sem(), block, r.sem(), ty),
            final(self).keeps(old(self)),
            v.0 < final(self).sem().b.values.len(),
    {
        proof {
            reveal(l_param);
            reveal(lower_inv);
        }
        let ghost s = self.sem();
        let v = self.b.block_param(block, r, ty);
        let ghost t = self.sem();
        assert(t == l_param(s, block, r.sem(), ty).0);
        proof {
            assert forall|i: int| 0 <= i < t.b.blocks.len() implies block_in_range(
                #[trigger] t.b.blocks[i],
                t.b.values.len(),
            ) && term_in_range(t.b.blocks[i].term, t.b.blocks.len()) && t.b.blocks[i].id == BlockId(
                i as u32,
            ) && insts_free(t.b.blocks[i].insts, Sort::Count) && (t.b.values.len() <= u32::MAX
                ==> block_in_order(t.b.blocks[i])) by {
                assert(block_in_range(s.b.blocks[i], s.b.values.len()));
                assert(term_in_range(s.b.blocks[i].term, s.b.blocks.len()));
                assert(s.b.blocks[i].id == BlockId(i as u32));
                assert(insts_free(s.b.blocks[i].insts, Sort::Count));
                assert(s.b.values.len() <= u32::MAX ==> block_in_order(s.b.blocks[i]));
                lemma_block_stays(s.b.blocks[i], s.b.values.len(), t.b.values.len());
                if i == block.0 && t.b.values.len() <= u32::MAX {
                    lemma_params_differ(s.b.blocks[i].params, v, s.b.values.len());
                }
            }
            lemma_frames_stay(s, t);
        }
        v
    }

    pub fn switch_to(&mut self, block: BlockId)
        requires
            old(self).inv(),
            block.0 < old(self).sem().b.blocks.len(),
        ensures
            final(self).sem() == l_switch(old(self).sem(), block),
            final(self).keeps(old(self)),
    {
        proof {
            reveal(l_switch);
            reveal(lower_inv);
        }
        self.b.switch_to(block);
    }

    pub fn enter(&mut self, block: BlockId)
        requires
            old(self).inv(),
            block.0 < old(self).sem().b.blocks.len(),
        ensures
            final(self).sem() == l_enter(old(self).sem(), block),
            final(self).keeps(old(self)),
    {
        proof {
            reveal(l_enter);
            reveal(lower_inv);
        }
        self.b.switch_to(block);
        self.terminated = false;
    }

    pub fn terminate(&mut self, term: Term)
        requires
            old(self).inv(),
            term_in_range(term.sem(), old(self).sem().b.blocks.len()),
            values_below(term_operands(term.sem()), old(self).sem().b.values.len()),
        ensures
            final(self).sem() == l_end(old(self).sem(), term.sem()),
            final(self).keeps(old(self)),
    {
        proof {
            reveal(l_end);
            reveal(lower_inv);
        }
        let ghost s = self.sem();
        self.b.terminate(term);
        let ghost t = self.sem();
        assert(t == l_end(s, term.sem()));
        proof {
            assert forall|i: int| 0 <= i < t.b.blocks.len() implies block_in_range(
                #[trigger] t.b.blocks[i],
                t.b.values.len(),
            ) && term_in_range(t.b.blocks[i].term, t.b.blocks.len()) && t.b.blocks[i].id == BlockId(
                i as u32,
            ) && insts_free(t.b.blocks[i].insts, Sort::Count) && (t.b.values.len() <= u32::MAX
                ==> block_in_order(t.b.blocks[i])) by {
                assert(block_in_range(s.b.blocks[i], s.b.values.len()));
                assert(term_in_range(s.b.blocks[i].term, s.b.blocks.len()));
                assert(s.b.blocks[i].id == BlockId(i as u32));
                assert(insts_free(s.b.blocks[i].insts, Sort::Count));
                assert(s.b.values.len() <= u32::MAX ==> block_in_order(s.b.blocks[i]));
            }
        }
    }

    pub fn jump(&mut self, to: BlockId, args: Vec<Value>)
        requires
            old(self).inv(),
            to.0 < old(self).sem().b.blocks.len(),
            values_below(args@, old(self).sem().b.values.len()),
        ensures
            final(self).sem() == l_jump(old(self).sem(), to, args@),
            final(self).keeps(old(self)),
    {
        let t = Term::Jump(Target { to, args });
        assert(t.sem() == STerm::Jump(STarget { to, args: args@ }));
        assert(targets(t.sem()) =~= seq![STarget { to, args: args@ }]);
        self.terminate(t);
    }

    pub fn branch(&mut self, cond: Value, then: BlockId, els: BlockId)
        requires
            old(self).inv(),
            then.0 < old(self).sem().b.blocks.len(),
            els.0 < old(self).sem().b.blocks.len(),
            cond.0 < old(self).sem().b.values.len(),
        ensures
            final(self).sem() == l_branch(old(self).sem(), cond, then, els),
            final(self).keeps(old(self)),
    {
        let t = Term::Branch {
            cond,
            then: Target { to: then, args: no_values() },
            els: Target { to: els, args: no_values() },
        };
        assert(t.sem() == STerm::Branch {
            cond,
            then: STarget { to: then, args: seq![] },
            els: STarget { to: els, args: seq![] },
        });
        assert(term_operands(t.sem()) =~= seq![cond]);
        self.terminate(t);
    }

    pub fn dead(&mut self)
        requires
            old(self).inv(),
        ensures
            final(self).sem() == l_dead(old(self).sem()),
            final(self).keeps(old(self)),
    {
        proof {
            reveal(l_dead);
            reveal(lower_inv);
        }
        self.terminated = true;
    }

    pub fn retype(&mut self, v: Value, r: Repr)
        requires
            old(self).inv(),
            v.0 < old(self).sem().b.values.len(),
        ensures
            final(self).sem() == l_retype(old(self).sem(), v, r.sem()),
            final(self).keeps(old(self)),
    {
        proof {
            reveal(l_retype);
            reveal(lower_inv);
        }
        self.b.set_value_repr(v, r);
    }

    pub fn push_scope(&mut self)
        requires
            old(self).inv(),
        ensures
            final(self).sem() == l_push(old(self).sem()),
            final(self).inv(),
            final(self).env == old(self).env,
            final(self).facts == old(self).facts,
            final(self).cuts == old(self).cuts,
            final(self).sem().scope.len() == old(self).sem().scope.len() + 1,
            final(self).sem().loops == old(self).sem().loops,
            final(self).sem().handlers == old(self).sem().handlers,
            final(self).sem().b == old(self).sem().b,
    {
        proof {
            reveal(l_push);
            reveal(lower_inv);
        }
        let ghost s = self.sem();
        self.scope.push(Vec::new());
        let ghost t = self.sem();
        assert(frame_sem(Seq::<(String, Value)>::empty()) =~= seq![]);
        assert(t.scope =~= s.scope.push(seq![]));
        assert forall|i: int| 0 <= i < t.scope.len() implies frame_ok(
            #[trigger] t.scope[i],
            t.b.values.len(),
        ) by {
            if i < s.scope.len() {
                assert(t.scope[i] == s.scope[i]);
            }
        }
    }

    pub fn pop_scope(&mut self)
        requires
            old(self).inv(),
            old(self).sem().scope.len() > 1,
        ensures
            final(self).sem() == l_pop(old(self).sem()),
            final(self).inv(),
            final(self).env == old(self).env,
            final(self).facts == old(self).facts,
            final(self).cuts == old(self).cuts,
            final(self).sem().scope.len() == old(self).sem().scope.len() - 1,
            final(self).sem().loops == old(self).sem().loops,
            final(self).sem().handlers == old(self).sem().handlers,
            final(self).sem().b == old(self).sem().b,
    {
        proof {
            reveal(l_pop);
            reveal(lower_inv);
        }
        let ghost s = self.sem();
        self.scope.pop();
        let ghost t = self.sem();
        assert(t.scope =~= s.scope.drop_last());
        assert forall|i: int| 0 <= i < t.scope.len() implies frame_ok(
            #[trigger] t.scope[i],
            t.b.values.len(),
        ) by {
            assert(t.scope[i] == s.scope[i]);
        }
    }

    pub fn bind(&mut self, name: &str, v: Value)
        requires
            old(self).inv(),
            v.0 < old(self).sem().b.values.len(),
        ensures
            final(self).sem() == l_bind(old(self).sem(), name@, v),
            final(self).keeps(old(self)),
    {
        proof {
            reveal(l_bind);
            reveal(lower_inv);
        }
        let ghost s = self.sem();
        let last: usize = self.scope.len() - 1;
        let ghost f0 = self.scope[last as int]@;
        self.scope[last].push((name.to_owned(), v));
        let ghost t = self.sem();
        assert(frame_sem(self.scope[last as int]@) =~= frame_sem(f0).push((name@, v)));
        assert(t.scope =~= l_bind(s, name@, v).scope);
        assert forall|i: int| 0 <= i < t.scope.len() implies frame_ok(
            #[trigger] t.scope[i],
            t.b.values.len(),
        ) by {
            assert(frame_ok(s.scope[i], s.b.values.len()));
            if i == last {
                assert forall|k: int| 0 <= k < t.scope[i].len() implies (
                #[trigger] t.scope[i][k]).1.0 < t.b.values.len() by {
                    if k < s.scope[i].len() {
                        assert(t.scope[i][k] == s.scope[i][k]);
                    }
                }
            }
        }
    }

    /// What a name stands for: the innermost frame first, and in each the latest binding.
    pub fn lookup(&self, name: &str) -> (r: Option<Value>)
        requires
            self.inv(),
        ensures
            r == found(self.sem(), name@),
            r matches Some(v) ==> v.0 < self.sem().b.values.len(),
    {
        proof {
            reveal(lower_inv);
        }
        let ghost s = self.sem();
        let mut k: usize = self.scope.len();
        while k > 0
            invariant
                k <= self.scope.len(),
                s == self.sem(),
                state_ok(s),
                found(s, name@) == in_frames(s.scope, name@, k as int),
            decreases k,
        {
            let f = &self.scope[k - 1];
            let ghost sf = s.scope[k - 1];
            assert(sf == frame_sem(f@));
            assert(frame_ok(s.scope[k - 1], s.b.values.len()));
            let mut i: usize = f.len();
            while i > 0
                invariant
                    i <= f.len(),
                    sf == frame_sem(f@),
                    frame_ok(sf, s.b.values.len()),
                    in_frame(sf, name@, sf.len() as int) == in_frame(sf, name@, i as int),
                    found(s, name@) == in_frames(s.scope, name@, k as int),
                    s.scope[k - 1] == sf,
                    k > 0,
                    s == self.sem(),
                decreases i,
            {
                assert(sf[i - 1] == (f[i - 1].0@, f[i - 1].1));
                if str_eq(f[i - 1].0.as_str(), name) {
                    assert(sf[i - 1].1.0 < s.b.values.len());
                    return Some(f[i - 1].1);
                }
                i -= 1;
            }
            k -= 1;
        }
        None
    }

    /// What names stand for.
    pub fn lookup_all(&self, names: &Vec<String>) -> (r: Vec<Value>)
        requires
            self.inv(),
        ensures
            r@ == values_of(self.sem(), names_of(names@)),
            values_below(r@, self.sem().b.values.len()),
    {
        let ghost s = self.sem();
        let ghost ns = names_of(names@);
        let mut r: Vec<Value> = Vec::new();
        let mut k: usize = 0;
        while k < names.len()
            invariant
                k <= names.len(),
                s == self.sem(),
                self.inv(),
                ns == names_of(names@),
                r@ == current(s, ns, k as int),
                values_below(r@, s.b.values.len()),
            decreases names.len() - k,
        {
            if let Some(v) = self.lookup(names[k].as_str()) {
                r.push(v);
            }
            k += 1;
        }
        r
    }

    /// Those names that are bound, each once.
    pub fn carried(&self, names: &Vec<String>) -> (r: Vec<String>)
        requires
            self.inv(),
        ensures
            names_of(r@) == carried(self.sem(), names_of(names@), names@.len() as int),
    {
        let ghost s = self.sem();
        let ghost ns = names_of(names@);
        let mut r: Vec<String> = Vec::new();
        let mut k: usize = 0;
        assert(names_of(r@) =~= carried(s, ns, 0));
        while k < names.len()
            invariant
                k <= names.len(),
                s == self.sem(),
                self.inv(),
                ns == names_of(names@),
                names_of(r@) == carried(s, ns, k as int),
            decreases names.len() - k,
        {
            let known = self.lookup(names[k].as_str()).is_some();
            if known && !has_name(&r, names[k].as_str()) {
                let ghost before = names_of(r@);
                r.push(names[k].clone());
                assert(names_of(r@) =~= before.push(names[k as int]@));
            }
            k += 1;
        }
        r
    }

    /// Bind names to values.
    pub fn bind_all(&mut self, names: &Vec<String>, vs: &Vec<Value>)
        requires
            old(self).inv(),
            values_below(vs@, old(self).sem().b.values.len()),
        ensures
            final(self).sem() == l_bind_all(
                old(self).sem(),
                names_of(names@),
                vs@,
                names@.len() as int,
            ),
            final(self).keeps(old(self)),
    {
        let ghost s0 = self.sem();
        let ghost ns = names_of(names@);
        let mut k: usize = 0;
        while k < names.len()
            invariant
                k <= names.len(),
                ns == names_of(names@),
                s0 == old(self).sem(),
                self.keeps(old(self)),
                values_below(vs@, self.sem().b.values.len()),
                self.sem() == l_bind_all(s0, ns, vs@, k as int),
            decreases names.len() - k,
        {
            if k < vs.len() {
                assert(vs@[k as int].0 < self.sem().b.values.len());
                self.bind(names[k].as_str(), vs[k]);
            }
            k += 1;
        }
    }

    pub fn repr_of_value(&self, v: Value) -> (r: Repr)
        requires
            v.0 < self.sem().b.values.len(),
        ensures
            r.sem() == repr_at(self.sem(), v),
    {
        self.b.value_repr(v).clone()
    }

    pub fn ty_of_value(&self, v: Value) -> (ty: TyId)
        requires
            v.0 < self.sem().b.values.len(),
        ensures
            ty == ty_at(self.sem(), v),
    {
        self.b.value_ty(v)
    }

    /// The layout of a type in this instance.
    pub fn repr_of_ty(&self, ty: TyId) -> (r: Repr)
        requires
            self.inv(),
            ty_in_range(*self.env, ty),
        ensures
            r.sem() == layout_in(self.ctx(), self.sem(), ty),
    {
        proof {
            self.inv_means();
        }
        let r = repr_with(&self.env.types, self.cuts, ty);
        if self.subst.is_empty() {
            r
        } else {
            substitute_repr(&r, &self.subst)
        }
    }

    /// The layout of an expression.
    pub fn repr(&self, id: ExprId) -> (r: Repr)
        requires
            self.inv(),
        ensures
            r.sem() == expr_layout(self.ctx(), self.sem(), id),
    {
        proof {
            self.inv_means();
        }
        match ty_fact(&self.facts.types, id) {
            Some(ty) => {
                assert(self.facts.types@[id.0 as int] == Some(ty));
                self.repr_of_ty(ty)
            },
            None => Repr::Unit,
        }
    }

    pub fn ty(&self, id: ExprId) -> (ty: TyId)
        requires
            self.inv(),
        ensures
            ty == expr_ty(self.ctx(), id),
            ty_in_range(*self.env, ty),
    {
        proof {
            self.inv_means();
        }
        match ty_fact(&self.facts.types, id) {
            Some(ty) => {
                assert(self.facts.types@[id.0 as int] == Some(ty));
                ty
            },
            None => TyId(0),
        }
    }

    pub fn unit(&mut self, ty: TyId) -> (v: Value)
        requires
            old(self).inv(),
        ensures
            (final(self).sem(), v) == l_unit(old(self).sem(), ty),
            final(self).keeps(old(self)),
            v.0 < final(self).sem().b.values.len(),
    {
        assert(operands(SOp::ConstUnit) =~= seq![]);
        self.emit(Op::ConstUnit, Repr::Unit, ty)
    }

    /// Stand in for a form that is not lowered.
    pub fn note(&mut self, what: &str, r: Repr, ty: TyId) -> (v: Value)
        requires
            old(self).inv(),
        ensures
            (final(self).sem(), v) == l_note(old(self).sem(), what@, r.sem(), ty),
            final(self).keeps(old(self)),
            v.0 < final(self).sem().b.values.len(),
    {
        let mut text = "<todo: ".to_owned();
        text.append(what);
        text.append(">");
        let op = Op::ConstStr(text);
        assert(operands(op.sem()) =~= seq![]);
        self.emit(op, r, ty)
    }
}

fn has_name(ns: &Vec<String>, name: &str) -> (r: bool)
    ensures
        r == names_of(ns@).contains(name@),
{
    let ghost s = names_of(ns@);
    let mut i: usize = 0;
    while i < ns.len()
        invariant
            i <= ns.len(),
            s == names_of(ns@),
            forall|k: int| 0 <= k < i ==> #[trigger] s[k] != name@,
        decreases ns.len() - i,
    {
        if str_eq(ns[i].as_str(), name) {
            assert(s[i as int] == name@);
            return true;
        }
        i += 1;
    }
    false
}

proof fn lemma_frames_stay(s: SLower, t: SLower)
    requires
        state_ok(s),
        t.scope == s.scope,
        s.b.values.len() <= t.b.values.len(),
    ensures
        forall|i: int|
            0 <= i < t.scope.len() ==> frame_ok(#[trigger] t.scope[i], t.b.values.len()),
{

    assert forall|i: int| 0 <= i < t.scope.len() implies frame_ok(
        #[trigger] t.scope[i],
        t.b.values.len(),
    ) by {
        assert(frame_ok(s.scope[i], s.b.values.len()));
    }
}

proof fn lemma_params_differ(ps: Seq<Value>, v: Value, n: nat)
    requires
        ps.no_duplicates(),
        values_below(ps, n),
        v.0 == n,
    ensures
        ps.push(v).no_duplicates(),
{
}

/// More values are no harm.
proof fn lemma_values_added(s: SLower, t: SLower)
    requires
        state_ok(s),
        t.b.blocks == s.b.blocks,
        t.b.current == s.b.current,
        t.scope == s.scope,
        t.loops == s.loops,
        t.handlers == s.handlers,
        t.pending == s.pending,
        t.instances == s.instances,
        s.b.values.len() <= t.b.values.len(),
    ensures
        state_ok(t),
{

    assert forall|i: int| 0 <= i < t.b.blocks.len() implies block_in_range(
        #[trigger] t.b.blocks[i],
        t.b.values.len(),
    ) && insts_free(t.b.blocks[i].insts, Sort::Count) && (t.b.values.len() <= u32::MAX
        ==> block_in_order(t.b.blocks[i])) by {
        assert(block_in_range(s.b.blocks[i], s.b.values.len()));
        assert(insts_free(s.b.blocks[i].insts, Sort::Count));
        assert(s.b.values.len() <= u32::MAX ==> block_in_order(s.b.blocks[i]));
        lemma_block_stays(s.b.blocks[i], s.b.values.len(), t.b.values.len());
    }
    lemma_frames_stay(s, t);
}

/// One more instruction over values that there are is no harm.
proof fn lemma_appended(s: SLower, t: SLower, i: SInst)
    requires
        state_ok(s),
        s.b.values.len() <= t.b.values.len(),
        inst_in_range(i, t.b.values.len()),
        !of_sort(i.op, Sort::Count),
        t.b.values.len() <= u32::MAX ==> inst_in_order(i),
        t.b.current == s.b.current,
        t.b.blocks == s.b.blocks.update(
            s.b.current.0 as int,
            SBlock {
                insts: s.b.blocks[s.b.current.0 as int].insts.push(i),
                ..s.b.blocks[s.b.current.0 as int]
            },
        ),
        t.scope == s.scope,
        t.loops == s.loops,
        t.handlers == s.handlers,
        t.pending == s.pending,
        t.instances == s.instances,
    ensures
        state_ok(t),
{

    assert forall|k: int| 0 <= k < t.b.blocks.len() implies block_in_range(
        #[trigger] t.b.blocks[k],
        t.b.values.len(),
    ) && term_in_range(t.b.blocks[k].term, t.b.blocks.len()) && t.b.blocks[k].id == BlockId(
        k as u32,
    ) && insts_free(t.b.blocks[k].insts, Sort::Count) && (t.b.values.len() <= u32::MAX
        ==> block_in_order(t.b.blocks[k])) by {
        assert(block_in_range(s.b.blocks[k], s.b.values.len()));
        assert(term_in_range(s.b.blocks[k].term, s.b.blocks.len()));
        assert(s.b.blocks[k].id == BlockId(k as u32));
        assert(insts_free(s.b.blocks[k].insts, Sort::Count));
        assert(s.b.values.len() <= u32::MAX ==> block_in_order(s.b.blocks[k]));
        lemma_block_stays(s.b.blocks[k], s.b.values.len(), t.b.values.len());
        if k == s.b.current.0 {
            let y = t.b.blocks[k];
            assert forall|j: int| 0 <= j < y.insts.len() implies inst_in_range(
                #[trigger] y.insts[j],
                t.b.values.len(),
            ) by {
                if j < s.b.blocks[k].insts.len() {
                    assert(y.insts[j] == s.b.blocks[k].insts[j]);
                    assert(inst_in_range(s.b.blocks[k].insts[j], s.b.values.len()));
                }
            }
            assert forall|j: int| 0 <= j < y.insts.len() implies !of_sort(
                (#[trigger] y.insts[j]).op,
                Sort::Count,
            ) && (t.b.values.len() <= u32::MAX ==> inst_in_order(y.insts[j])) by {
                if j < s.b.blocks[k].insts.len() {
                    assert(y.insts[j] == s.b.blocks[k].insts[j]);
                }
            }
        }
    }
    lemma_frames_stay(s, t);
}

} // verus!
