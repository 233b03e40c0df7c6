//! Lowering of one function: of a declaration, of a lambda, of a test.

use super::scheme::{x_block, x_expr};
use super::state::{
    all_instances, all_lambdas, captures_sem, copy_names, l_bind, l_emit, l_end, l_param, l_switch,
    layout_in, lower_inv, Ctx, InstanceJob, LambdaJob, Lower,
    SInstanceJob, SLambdaJob, SLower,
};
use super::subst::{substitute_repr, substituted, SSubst, Subst};
use crate::ast::{Block, Expr, ExprKind, LambdaParam, Param, TestBlock};
use crate::check::{env_wf, fact, facts_wf, sig_wf, ty_fact, Env, Facts, FnSig};
use crate::ir::opt::laws::{free_of, Sort};
use crate::ir::refcount::order::in_order;
use crate::ir::repr::layout::{cut_of, layout_of, repr_with, Cuts};
use crate::ir::repr::{reprs_sem, Repr, SRepr};
use crate::ir::ssa::{
    blocks_wf, empty_block, finished, values_below, values_wf, BlockId, Builder, Func, Op, SBuilder,
    SFunc, SOp, STerm, Term, Value,
};
use crate::syntax::{
    lemma_lambda_params_of, names_of, sems, Node, SBlock, SLambdaParam, SParam, STestBlock,
};
use crate::types::TyId;
use vstd::prelude::*;

verus! {

/// A function, and what was found on the way that is to be lowered too.
pub struct SLowered {
    pub func: SFunc,
    pub pending: Seq<SLambdaJob>,
    pub instances: Seq<SInstanceJob>,
}

/// The state before anything is lowered.
pub open spec fn start(
    name: Seq<char>,
    module: Seq<Seq<char>>,
    subst: SSubst,
    ret: SRepr,
    throws: SRepr,
) -> SLower {
    SLower {
        b: SBuilder {
            name,
            ret,
            throws: if throws is Never {
                None
            } else {
                Some(throws)
            },
            values: seq![],
            blocks: seq![empty_block(BlockId(0))],
            current: BlockId(0),
        },
        scope: seq![seq![]],
        terminated: false,
        loops: seq![],
        handlers: seq![],
        pending: seq![],
        instances: seq![],
        module,
        subst,
    }
}

/// The layout of a type in an instance.
pub open spec fn instance_layout(c: Ctx, subst: SSubst, ty: TyId) -> SRepr {
    substituted(layout_of(c.env.types, ty), subst)
}

/// The type of a parameter. One without a signature has the first type.
pub open spec fn param_ty(sig: Option<FnSig>, i: int) -> TyId {
    match sig {
        Some(s) => if i < s.params.len() {
            s.params[i].1
        } else {
            TyId(0)
        },
        None => TyId(0),
    }
}

/// The first `k` parameters: each becomes a parameter of the entry block and is bound.
pub open spec fn x_params(
    c: Ctx,
    s: SLower,
    ps: Seq<SParam>,
    sig: Option<FnSig>,
    k: int,
) -> (SLower, Seq<Value>)
    decreases k,
{
    if k <= 0 {
        (s, seq![])
    } else {
        let (s1, vs) = x_params(c, s, ps, sig, k - 1);
        let ty = param_ty(sig, k - 1);
        let (s2, v) = l_param(s1, BlockId(0), layout_in(c, s1, ty), ty);
        (l_bind(s2, ps[k - 1].name, v), vs.push(v))
    }
}

/// End a function that falls off its end. One without a value returns nothing.
pub open spec fn x_end(s: SLower, ret: SRepr, tail: Option<Value>) -> SLower {
    if s.terminated {
        s
    } else {
        l_end(
            s,
            STerm::Ret(
                if ret is Unit {
                    None
                } else {
                    tail
                },
            ),
        )
    }
}

pub open spec fn taken(s: SLower, params: Seq<Value>, env: Option<SRepr>) -> SLowered {
    SLowered {
        func: finished(s.b, params, env),
        pending: s.pending,
        instances: s.instances,
    }
}

/// A declared function, in an instance: the types are those of the signature.
pub open spec fn x_fn(
    c: Ctx,
    name: Seq<char>,
    module: Seq<Seq<char>>,
    subst: SSubst,
    sig: Option<FnSig>,
    ps: Seq<SParam>,
    body: SBlock,
) -> SLowered {
    let ret = instance_layout(
        c,
        subst,
        match sig {
            Some(s) => s.ret,
            None => TyId(0),
        },
    );
    let throws = match sig {
        Some(s) => instance_layout(c, subst, s.throws),
        None => SRepr::Never,
    };
    let (s1, params) = x_params(
        c,
        start(name, module, subst, ret, throws),
        ps,
        sig,
        ps.len() as int,
    );
    let (s2, tail) = x_block(c, c.env.consts@.len(), l_switch(s1, BlockId(0)), body);
    taken(x_end(s2, ret, tail), params, None)
}

/// A test: a function without parameters and without a value.
pub open spec fn x_test(
    c: Ctx,
    symbol: Seq<char>,
    module: Seq<Seq<char>>,
    t: STestBlock,
) -> SLowered {
    let s = start(symbol, module, seq![], SRepr::Unit, SRepr::Never);
    let (s1, _) = x_block(c, c.env.consts@.len(), l_switch(s, BlockId(0)), t.body);
    taken(x_end(s1, SRepr::Unit, None), seq![], None)
}

/// The parameters, the error and the value of a lambda, by its type.
pub open spec fn arrow_of(c: Ctx, job: SLambdaJob) -> (Seq<SRepr>, SRepr, SRepr) {
    match fact(c.facts.types@, job.lambda.id) {
        Some(ty) => match layout_of(c.env.types, ty) {
            SRepr::Closure { params, throws, ret } => (params, *throws, *ret),
            _ => (seq![], SRepr::Never, SRepr::Unit),
        },
        None => (seq![], SRepr::Never, SRepr::Unit),
    }
}

/// The first `k` captures are taken out of the environment and bound.
pub open spec fn x_captures(
    s: SLower,
    env: Value,
    cs: Seq<(Seq<char>, SRepr, TyId)>,
    k: int,
) -> SLower
    decreases k,
{
    if k <= 0 {
        s
    } else {
        let s1 = x_captures(s, env, cs, k - 1);
        let (s2, v) = l_emit(
            s1,
            SOp::Elem { base: env, index: (k - 1) as usize },
            cs[k - 1].1,
            cs[k - 1].2,
        );
        l_bind(s2, cs[k - 1].0, v)
    }
}

/// The first `k` parameters of a lambda.
pub open spec fn x_lambda_params(
    s: SLower,
    names: Seq<Seq<char>>,
    rs: Seq<SRepr>,
    subst: SSubst,
    k: int,
) -> (SLower, Seq<Value>)
    decreases k,
{
    if k <= 0 {
        (s, seq![])
    } else {
        let (s1, vs) = x_lambda_params(s, names, rs, subst, k - 1);
        let r = if k - 1 < rs.len() {
            substituted(rs[k - 1], subst)
        } else {
            SRepr::Any
        };
        let (s2, v) = l_param(s1, BlockId(0), r, TyId(0));
        (l_bind(s2, names[k - 1], v), vs.push(v))
    }
}

pub open spec fn lambda_names(ps: Seq<SLambdaParam>) -> Seq<Seq<char>> {
    ps.map_values(|p: SLambdaParam| p.name)
}

pub open spec fn capture_reprs(cs: Seq<(Seq<char>, SRepr, TyId)>) -> Seq<SRepr> {
    cs.map_values(|p: (Seq<char>, SRepr, TyId)| p.1)
}

/// A lambda: a function whose first parameter holds what it captures.
pub open spec fn x_lambda_fn(c: Ctx, job: SLambdaJob) -> SLowered {
    let (rs, throws, ret) = arrow_of(c, job);
    let r = substituted(ret, job.subst);
    let s = start(job.name, job.module, job.subst, r, substituted(throws, job.subst));
    let env = SRepr::Tuple(capture_reprs(job.captures));
    let (s1, v) = l_param(s, BlockId(0), env, TyId(0));
    let s2 = x_captures(s1, v, job.captures, job.captures.len() as int);
    let ps = job.lambda.kind->Lambda_params;
    let (s3, vs) = x_lambda_params(
        s2,
        lambda_names(ps),
        rs,
        job.subst,
        ps.len() as int,
    );
    let (s4, tail) = x_expr(
        c,
        c.env.consts@.len(),
        l_switch(s3, BlockId(0)),
        *job.lambda.kind->Lambda_body,
    );
    taken(x_end(s4, r, Some(tail)), seq![v] + vs, Some(env))
}

// ---- doing it ----

pub struct Lowered<'a> {
    pub func: Func,
    pub pending: Vec<LambdaJob<'a>>,
    pub instances: Vec<InstanceJob>,
}

impl<'a> Node for Lowered<'a> {
    type V = SLowered;

    open spec fn sem(&self) -> SLowered {
        SLowered {
            func: self.func.sem(),
            pending: sems(self.pending@),
            instances: sems(self.instances@),
        }
    }
}

/// A function is well-formed unless it has more blocks or values than there are numbers.
pub open spec fn well_formed(f: SFunc) -> bool {
    f.blocks.len() <= u32::MAX && f.values.len() <= u32::MAX ==> blocks_wf(f) && values_wf(f)
}

/// What lowering gives: a well-formed function that does not count references, and that
/// numbers its values in the order in which they are made unless there are more than there
/// are numbers. A lambda has its environment.
pub open spec fn sound(f: SFunc) -> bool {
    &&& well_formed(f)
    &&& free_of(f, Sort::Count)
    &&& f.values.len() <= u32::MAX ==> in_order(f)
    &&& f.env is Some ==> f.params.len() > 0
}

pub open spec fn lowered_ok(r: SLowered) -> bool {
    sound(r.func) && all_lambdas(r.pending) && all_instances(r.instances)
}

/// A function of the shape of a test: no parameters, no value and no error.
pub open spec fn is_test_func(f: SFunc) -> bool {
    f.params.len() == 0 && f.ret is Unit && f.throws is None && f.env is None
}

impl<'a> Lower<'a> {
    fn start(
        env: &'a Env,
        facts: &'a Facts,
        cuts: &'a Cuts,
        name: &str,
        module: &Vec<String>,
        subst: &Subst,
        ret: Repr,
        throws: Repr,
    ) -> (r: Lower<'a>)
        requires
            env_wf(*env),
            facts_wf(*env, *facts),
            cuts@ == cut_of(env.types),
        ensures
            r.inv(),
            r.ctx() == (Ctx { env: *env, facts: *facts }),
            r.sem() == start(name@, names_of(module@), subst@, ret.sem(), throws.sem()),
    {
        let mut b = Builder::new(name, ret);
        match throws {
            Repr::Never => {},
            t => b.set_throws(t),
        }
        let frame: Vec<(String, Value)> = Vec::new();
        let mut scope: Vec<Vec<(String, Value)>> = Vec::new();
        scope.push(frame);
        let r = Lower {
            env,
            facts,
            cuts,
            module: copy_names(module),
            b,
            scope,
            terminated: false,
            loops: Vec::new(),
            handlers: Vec::new(),
            pending: Vec::new(),
            subst: subst.copy(),
            instances: Vec::new(),
        };
        let ghost s = start(name@, names_of(module@), subst@, ret.sem(), throws.sem());
        proof {
            reveal(lower_inv);
            assert(r.sem().scope[0] =~= seq![]);
            assert(r.sem().scope =~= s.scope);
            assert(r.sem().loops =~= s.loops);
            assert(r.sem().handlers =~= s.handlers);
            assert(r.sem().pending =~= s.pending);
            assert(r.sem().instances =~= s.instances);
            r.b.wf_means();
        }
        r
    }

    /// End a function that falls off its end.
    fn end(&mut self, unit: bool, tail: Option<Value>, Ghost(ret): Ghost<SRepr>)
        requires
            old(self).inv(),
            unit == ret is Unit,
            tail matches Some(v) ==> v.0 < old(self).sem().b.values.len(),
        ensures
            final(self).sem() == x_end(old(self).sem(), ret, tail),
            final(self).keeps(old(self)),
    {
        if !self.terminated {
            self.terminate(
                Term::Ret(
                    if unit {
                        None
                    } else {
                        tail
                    },
                ),
            );
        }
    }

    fn take(self, params: Vec<Value>, env: Option<Repr>) -> (r: Lowered<'a>)
        requires
            self.inv(),
            values_below(params@, self.sem().b.values.len()),
            env is Some ==> params.len() > 0,
        ensures
            r.sem() == taken(self.sem(), params@, env.sem()),
            lowered_ok(r.sem()),
    {
        proof {
            reveal(lower_inv);
        }
        let ghost s = self.sem();
        let func = match env {
            Some(e) => self.b.finish_lambda(params, e),
            None => self.b.finish(params),
        };
        proof {
            let f = func.sem();
            if f.blocks.len() <= u32::MAX && f.values.len() <= u32::MAX {
                assert forall|i: int| 0 <= i < f.blocks.len() implies (
                #[trigger] f.blocks[i]).id.0 == i by {
                    assert(s.b.blocks[i].id == BlockId(i as u32));
                }
                assert(blocks_wf(f));
                assert(values_wf(f));
            }
        }
        Lowered { func, pending: self.pending, instances: self.instances }
    }

    fn params(&mut self, ps: &Vec<Param>, sig: Option<&FnSig>) -> (vs: Vec<Value>)
        requires
            old(self).inv(),
            old(self).sem().b.blocks.len() > 0,
            sig matches Some(s) ==> sig_wf(*old(self).env, *s),
        ensures
            (final(self).sem(), vs@) == x_params(
                old(self).ctx(),
                old(self).sem(),
                sems(ps@),
                owned(sig),
                ps@.len() as int,
            ),
            final(self).keeps(old(self)),
            values_below(vs@, final(self).sem().b.values.len()),
    {
        let ghost c = self.ctx();
        let ghost s = self.sem();
        proof {
            self.inv_means();
        }
        let mut vs: Vec<Value> = Vec::new();
        let mut k: usize = 0;
        while k < ps.len()
            invariant
                k <= ps.len(),
                self.keeps(old(self)),
                c == self.ctx(),
                s == old(self).sem(),
                env_wf(*self.env),
                s.b.blocks.len() > 0,
                sig matches Some(g) ==> sig_wf(*self.env, *g),
                (self.sem(), vs@) == x_params(c, s, sems(ps@), owned(sig), k as int),
                values_below(vs@, self.sem().b.values.len()),
            decreases ps.len() - k,
        {
            let ty = match sig {
                Some(g) => if k < g.params.len() {
                    g.params[k].1
                } else {
                    TyId(0)
                },
                None => TyId(0),
            };
            assert(ty == param_ty(owned(sig), k as int));
            let r = self.repr_of_ty(ty);
            let v = self.block_param(BlockId(0), r, ty);
            self.bind(ps[k].name.as_str(), v);
            assert(sems(ps@)[k as int].name == ps[k as int].name@);
            vs.push(v);
            k += 1;
        }
        vs
    }

    fn captures(&mut self, env: Value, cs: &Vec<(String, Repr, TyId)>)
        requires
            old(self).inv(),
            env.0 < old(self).sem().b.values.len(),
        ensures
            final(self).sem() == x_captures(
                old(self).sem(),
                env,
                captures_sem(cs@),
                cs@.len() as int,
            ),
            final(self).keeps(old(self)),
    {
        let ghost s = self.sem();
        let mut k: usize = 0;
        while k < cs.len()
            invariant
                k <= cs.len(),
                self.keeps(old(self)),
                s == old(self).sem(),
                env.0 < s.b.values.len(),
                self.sem() == x_captures(s, env, captures_sem(cs@), k as int),
            decreases cs.len() - k,
        {
            let (name, r, ty) = &cs[k];
            assert(captures_sem(cs@)[k as int] == (name@, r.sem(), *ty));
            let v = self.emit(Op::Elem { base: env, index: k }, r.clone(), *ty);
            self.bind(name.as_str(), v);
            k += 1;
        }
    }

    fn lambda_params(&mut self, ps: &Vec<LambdaParam>, rs: &Vec<Repr>, subst: &Subst) -> (vs: Vec<Value>)
        requires
            old(self).inv(),
            old(self).sem().b.blocks.len() > 0,
        ensures
            (final(self).sem(), vs@) == x_lambda_params(
                old(self).sem(),
                lambda_names(sems(ps@)),
                reprs_sem(rs@),
                subst@,
                ps@.len() as int,
            ),
            final(self).keeps(old(self)),
            values_below(vs@, final(self).sem().b.values.len()),
    {
        let ghost s = self.sem();
        let ghost names = lambda_names(sems(ps@));
        let mut vs: Vec<Value> = Vec::new();
        let mut k: usize = 0;
        while k < ps.len()
            invariant
                k <= ps.len(),
                self.keeps(old(self)),
                s == old(self).sem(),
                s.b.blocks.len() > 0,
                names == lambda_names(sems(ps@)),
                (self.sem(), vs@) == x_lambda_params(
                    s,
                    names,
                    reprs_sem(rs@),
                    subst@,
                    k as int,
                ),
                values_below(vs@, self.sem().b.values.len()),
            decreases ps.len() - k,
        {
            assert(reprs_sem(rs@).len() == rs.len());
            let r = if k < rs.len() {
                assert(reprs_sem(rs@)[k as int] == rs[k as int].sem());
                substitute_repr(&rs[k], subst)
            } else {
                Repr::Any
            };
            let v = self.block_param(BlockId(0), r, TyId(0));
            assert(names[k as int] == ps[k as int].name@);
            self.bind(ps[k].name.as_str(), v);
            vs.push(v);
            k += 1;
        }
        vs
    }
}

pub open spec fn owned(sig: Option<&FnSig>) -> Option<FnSig> {
    match sig {
        Some(s) => Some(*s),
        None => None,
    }
}

/// Lower a declared function in an instance.
pub fn lower_with<'a>(
    env: &'a Env,
    facts: &'a Facts,
    cuts: &'a Cuts,
    name: &str,
    module: &Vec<String>,
    subst: &Subst,
    sig: Option<&FnSig>,
    ps: &Vec<Param>,
    body: &'a Block,
) -> (r: Lowered<'a>)
    requires
        env_wf(*env),
        facts_wf(*env, *facts),
        cuts@ == cut_of(env.types),
        sig matches Some(s) ==> sig_wf(*env, *s),
    ensures
        r.sem() == x_fn(
            Ctx { env: *env, facts: *facts },
            name@,
            names_of(module@),
            subst@,
            owned(sig),
            sems(ps@),
            body.sem(),
        ),
        lowered_ok(r.sem()),
        r.sem().func.name == name@,
{
    let ret_ty = match sig {
        Some(s) => s.ret,
        None => TyId(0),
    };
    let ret = substitute_repr(&repr_with(&env.types, cuts, ret_ty), subst);
    let ghost g = ret.sem();
    let unit = matches!(ret, Repr::Unit);
    let throws = match sig {
        Some(s) => substitute_repr(&repr_with(&env.types, cuts, s.throws), subst),
        None => Repr::Never,
    };
    let mut lo = Lower::start(env, facts, cuts, name, module, subst, ret, throws);
    let vs = lo.params(ps, sig);
    lo.switch_to(BlockId(0));
    let tail = lo.lower_block(env.consts.len(), body);
    lo.end(unit, tail, Ghost(g));
    lo.take(vs, None)
}

/// Lower a test.
pub fn lower_test_block<'a>(
    env: &'a Env,
    facts: &'a Facts,
    cuts: &'a Cuts,
    module: &Vec<String>,
    t: &'a TestBlock,
    symbol: &str,
) -> (r: Lowered<'a>)
    requires
        env_wf(*env),
        facts_wf(*env, *facts),
        cuts@ == cut_of(env.types),
    ensures
        r.sem() == x_test(
            Ctx { env: *env, facts: *facts },
            symbol@,
            names_of(module@),
            t.sem(),
        ),
        lowered_ok(r.sem()),
        r.sem().func.name == symbol@,
        is_test_func(r.sem().func),
{
    let none = Subst::new();
    let mut lo = Lower::start(env, facts, cuts, symbol, module, &none, Repr::Unit, Repr::Never);
    lo.switch_to(BlockId(0));
    assert(t.sem().body == t.body.sem());
    lo.lower_block(env.consts.len(), &t.body);
    lo.end(true, None, Ghost(SRepr::Unit));
    let vs: Vec<Value> = Vec::new();
    assert(vs@ =~= seq![]);
    lo.take(vs, None)
}

/// Lower a lambda as a function of its own.
pub fn lower_lambda_job<'a>(
    env: &'a Env,
    facts: &'a Facts,
    cuts: &'a Cuts,
    job: LambdaJob<'a>,
) -> (r: Lowered<'a>)
    requires
        env_wf(*env),
        facts_wf(*env, *facts),
        cuts@ == cut_of(env.types),
        job.lambda.kind is Lambda,
    ensures
        r.sem() == x_lambda_fn(Ctx { env: *env, facts: *facts }, job.sem()),
        lowered_ok(r.sem()),
        r.sem().func.name == job.name@,
{
    let ghost c = Ctx { env: *env, facts: *facts };
    let e: &'a Expr = job.lambda;
    let mut rs: Vec<Repr> = Vec::new();
    let mut throws = Repr::Never;
    let mut ret = Repr::Unit;
    assert(reprs_sem(rs@) =~= seq![]);
    assert(e.sem().id == e.id);
    if let Some(ty) = ty_fact(&facts.types, e.id) {
        assert(facts.types@[e.id.0 as int] == Some(ty));
        if let Repr::Closure { params, throws: t, ret: v } = repr_with(&env.types, cuts, ty) {
            rs = params;
            throws = *t;
            ret = *v;
        }
    }
    assert((reprs_sem(rs@), throws.sem(), ret.sem()) == arrow_of(c, job.sem()));
    let ret = substitute_repr(&ret, &job.subst);
    let throws = substitute_repr(&throws, &job.subst);
    let ghost g = ret.sem();
    let unit = matches!(ret, Repr::Unit);
    let mut lo = Lower::start(
        env,
        facts,
        cuts,
        job.name.as_str(),
        &job.module,
        &job.subst,
        ret,
        throws,
    );
    let env_repr = Repr::Tuple(reprs_of_captures(&job.captures));
    let again = Repr::Tuple(reprs_of_captures(&job.captures));
    let ghost e_repr = SRepr::Tuple(capture_reprs(job.sem().captures));
    assert(env_repr.sem() == e_repr);
    assert(again.sem() == e_repr);
    let v = lo.block_param(BlockId(0), env_repr, TyId(0));
    lo.captures(v, &job.captures);
    match &e.kind {
        ExprKind::Lambda { params, body } => {
            proof {
                lemma_lambda_params_of(params@);
                assert(e.sem().kind->Lambda_params == sems(params@));
                assert(*e.sem().kind->Lambda_body == body.sem());
            }
            let mut all: Vec<Value> = Vec::new();
            all.push(v);
            let mut vs = lo.lambda_params(params, &rs, &job.subst);
            let ghost more = vs@;
            all.append(&mut vs);
            assert(all@ =~= seq![v] + more);
            lo.switch_to(BlockId(0));
            let tail = lo.lower_expr(env.consts.len(), body);
            lo.end(unit, Some(tail), Ghost(g));
            assert(Some(again).sem() == Some(e_repr));
            let r = lo.take(all, Some(again));
            assert(r.sem() == x_lambda_fn(c, job.sem()));
            r
        },
        _ => lo.take(Vec::new(), None),
    }
}

/// The layouts of captures.
fn reprs_of_captures(cs: &Vec<(String, Repr, TyId)>) -> (r: Vec<Repr>)
    ensures
        reprs_sem(r@) == capture_reprs(captures_sem(cs@)),
{
    let mut r: Vec<Repr> = Vec::new();
    let mut k: usize = 0;
    while k < cs.len()
        invariant
            k <= cs.len(),
            r.len() == k,
            forall|i: int| 0 <= i < k ==> (#[trigger] r[i]).sem() == cs[i].1.sem(),
        decreases cs.len() - k,
    {
        r.push(cs[k].1.clone());
        k += 1;
    }
    assert(reprs_sem(r@) =~= capture_reprs(captures_sem(cs@)));
    r
}

} // verus!
