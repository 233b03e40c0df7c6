//! The parts of a function's lowering that do not look into expressions.

use super::super::repr::layout::only_arrow_throws;
use super::super::repr::{Repr, SRepr};
use super::super::ssa::{operands, values_below, BlockId, Op, SOp, Value};
use super::calls::{call_subst, l_panic, l_unwrap, l_unwrap_ty};
use super::names::{
    elem_of, elem_repr, field_of, find_field, mangle, mangle_instance, mangled, mangled_instance,
    symbol_to_string, to_string_symbol,
};
use super::scan::{collect_free_expr, free_expr, lambda_names, Found, Scan};
use super::state::{
    captures_sem, carried, copy_names, found, l_bind, l_block, l_branch, l_emit, l_enter, l_jump,
    l_param, l_unit, layout_in, no_values, one, lower_inv, repr_at, ty_at, two, values_of, Ctx,
    InstanceJob, LambdaJob, LoopCtx, Lower, SInstanceJob, SLambdaJob, SLower, SLoop,
};
use super::subst::{
    substitute_repr, substituted, with_set, SSubst, Subst,
};
use crate::ast::{Expr, ExprId, ExprKind, FieldPat, LambdaParam, Pattern, PatternKind};
use crate::check::{fact, sig_wf, solved_fact, solved_wf, ty_fact, ty_in_range, FnSig};
use crate::syntax::{
    lemma_field_pats_of, lemma_lambda_params_of, lemma_patterns_of, names_of, sems, Node, SExpr,
    SExprKind, SFieldPat, SPattern, SPatternKind,
};
use crate::text::{cat, dec, push_dec};
use crate::types::TyId;
use vstd::prelude::*;

verus! {

// ---- patterns ----

/// The layout of a field of a value.
pub open spec fn field_layout(s: SLower, v: Value, name: Seq<char>) -> SRepr {
    match field_of(repr_at(s, v), name) {
        Some(r) => r,
        None => SRepr::Unit,
    }
}

/// Take a field out of a value.
pub open spec fn l_field(s: SLower, v: Value, name: Seq<char>) -> (SLower, Value) {
    l_emit(s, SOp::Field { base: v, field: name }, field_layout(s, v, name), ty_at(s, v))
}

/// Take an element out of a tuple.
pub open spec fn l_elem(s: SLower, v: Value, i: int) -> (SLower, Value) {
    l_emit(
        s,
        SOp::Elem { base: v, index: i as usize },
        elem_of(repr_at(s, v), i),
        ty_at(s, v),
    )
}

/// Bind the names of a pattern to the parts of a value.
pub open spec fn l_bind_pattern(s: SLower, p: SPattern, v: Value) -> SLower
    decreases p, 0int,
{
    match p.kind {
        SPatternKind::Bind(n) => l_bind(s, n, v),
        SPatternKind::Tuple(ps) => l_bind_elems(s, ps, v, ps.len() as int),
        SPatternKind::Record { fields, .. } => l_bind_fields(s, fields, v, fields.len() as int),
        _ => s,
    }
}

pub open spec fn l_bind_elems(s: SLower, ps: Seq<SPattern>, v: Value, k: int) -> SLower
    decreases ps, k,
{
    if 0 < k <= ps.len() {
        let (s1, x) = l_elem(l_bind_elems(s, ps, v, k - 1), v, k - 1);
        l_bind_pattern(s1, ps[k - 1], x)
    } else {
        s
    }
}

pub open spec fn l_bind_field(s: SLower, f: SFieldPat, v: Value) -> SLower
    decreases f, 0int,
{
    let (s1, x) = l_field(s, v, f.name);
    match f.pat {
        Some(p) => l_bind_pattern(s1, p, x),
        None => l_bind(s1, f.name, x),
    }
}

pub open spec fn l_bind_fields(s: SLower, fs: Seq<SFieldPat>, v: Value, k: int) -> SLower
    decreases fs, k,
{
    if 0 < k <= fs.len() {
        l_bind_field(l_bind_fields(s, fs, v, k - 1), fs[k - 1], v)
    } else {
        s
    }
}

// ---- assertions ----

pub open spec fn l_concat(s: SLower, a: Value, b: Value, ty: TyId) -> (SLower, Value) {
    l_emit(s, SOp::Native { symbol: "neon_str_concat"@, args: seq![a, b] }, SRepr::Str, ty)
}

pub open spec fn l_text(s: SLower, text: Seq<char>, ty: TyId) -> (SLower, Value) {
    l_emit(s, SOp::ConstStr(text), SRepr::Str, ty)
}

/// A value as text for a report. Text stands in quotes; a value that has no text is said to
/// have none.
pub open spec fn l_shown(s: SLower, v: Value, ty: TyId) -> (SLower, Value) {
    let r = repr_at(s, v);
    if r is Str {
        let (s1, q) = l_text(s, "\""@, ty);
        let (s2, open) = l_concat(s1, q, v, ty);
        let (s3, q2) = l_text(s2, "\""@, ty);
        l_concat(s3, open, q2, ty)
    } else {
        match to_string_symbol(r) {
            Some(sym) => l_emit(s, SOp::Native { symbol: sym, args: seq![v] }, SRepr::Str, ty),
            None => l_text(s, "<not displayable>"@, ty),
        }
    }
}

/// A message with a label and a value added.
pub open spec fn l_append(s: SLower, acc: Value, label: Seq<char>, v: Value, ty: TyId) -> (
    SLower,
    Value,
) {
    let (s1, l) = l_text(s, label, ty);
    let (s2, a) = l_concat(s1, acc, l, ty);
    let (s3, x) = l_shown(s2, v, ty);
    l_concat(s3, a, x, ty)
}

/// Panic unless a condition holds, with a message that says what was asserted and, of a
/// comparison, what its two sides were.
pub open spec fn l_check(
    s: SLower,
    cond: Value,
    sides: Option<(Value, Value)>,
    text: Seq<char>,
    ty: TyId,
) -> (SLower, Value) {
    let (s1, ok) = l_block(s);
    let (s2, fail) = l_block(s1);
    let s3 = l_enter(l_branch(s2, cond, ok, fail), fail);
    let (s4, msg) = l_text(s3, "assertion failed: "@ + text, ty);
    let (s5, full) = match sides {
        Some((l, r)) => {
            let (a, m) = l_append(s4, msg, "\n  left:  "@, l, ty);
            l_append(a, m, "\n  right: "@, r, ty)
        },
        None => (s4, msg),
    };
    l_unit(l_enter(l_panic(s5, full), ok), ty)
}

// ---- loops ----

/// Go round the innermost loop.
pub open spec fn l_continue(s: SLower) -> SLower {
    if s.loops.len() > 0 {
        let l = s.loops.last();
        l_jump(s, l.continue_target, values_of(s, l.carried))
    } else {
        s
    }
}

/// Leave the innermost loop with a value.
pub open spec fn l_break(s: SLower, v: Value) -> SLower {
    if s.loops.len() > 0 {
        let l = s.loops.last();
        let args = (if l.has_value {
            seq![v]
        } else {
            seq![]
        }) + values_of(s, l.carried);
        l_jump(s, l.exit, args)
    } else {
        s
    }
}

/// A parameter of a block for each of the first `k` values, like it.
pub open spec fn l_params(s: SLower, block: BlockId, vs: Seq<Value>, k: int) -> (SLower, Seq<Value>)
    decreases k,
{
    if k <= 0 {
        (s, seq![])
    } else {
        let (s1, ps) = l_params(s, block, vs, k - 1);
        let (s2, p) = l_param(s1, block, repr_at(s1, vs[k - 1]), ty_at(s1, vs[k - 1]));
        (s2, ps.push(p))
    }
}

/// A parameter of each of two blocks for each of the first `k` values, like it.
pub open spec fn l_params2(s: SLower, a: BlockId, b: BlockId, vs: Seq<Value>, k: int) -> (
    SLower,
    Seq<Value>,
    Seq<Value>,
)
    decreases k,
{
    if k <= 0 {
        (s, seq![], seq![])
    } else {
        let (s1, ps, qs) = l_params2(s, a, b, vs, k - 1);
        let (s2, p) = l_param(s1, a, repr_at(s1, vs[k - 1]), ty_at(s1, vs[k - 1]));
        let (s3, q) = l_param(s2, b, repr_at(s1, vs[k - 1]), ty_at(s1, vs[k - 1]));
        (s3, ps.push(p), qs.push(q))
    }
}

#[verifier::opaque]
pub open spec fn l_push_loop(s: SLower, l: SLoop) -> SLower {
    SLower { loops: s.loops.push(l), ..s }
}

#[verifier::opaque]
pub open spec fn l_pop_loop(s: SLower) -> SLower {
    SLower { loops: s.loops.drop_last(), ..s }
}

#[verifier::opaque]
pub open spec fn l_push_handler(s: SLower, h: BlockId) -> SLower {
    SLower { handlers: s.handlers.push(h), ..s }
}

#[verifier::opaque]
pub open spec fn l_pop_handler(s: SLower) -> SLower {
    SLower { handlers: s.handlers.drop_last(), ..s }
}

// ---- closures and functions ----

/// The names that a lambda captures: those that its body uses and that are bound around it.
pub open spec fn captured(s: SLower, e: SExpr) -> Seq<Seq<char>> {
    match e.kind {
        SExprKind::Lambda { params, body } => {
            let used = free_expr(*body, Scan { bound: lambda_names(params), used: seq![] }).used;
            carried(s, used, used.len() as int)
        },
        _ => seq![],
    }
}

pub open spec fn capture_info(s: SLower, names: Seq<Seq<char>>, k: int) -> Seq<
    (Seq<char>, SRepr, TyId),
>
    decreases k,
{
    if k <= 0 {
        seq![]
    } else {
        match found(s, names[k - 1]) {
            Some(v) => capture_info(s, names, k - 1).push(
                (names[k - 1], repr_at(s, v), ty_at(s, v)),
            ),
            None => capture_info(s, names, k - 1),
        }
    }
}

/// A lambda: its body is to be lowered as a function, one for each instance of what it
/// stands in, and its value is a closure of that.
pub open spec fn l_lambda(s: SLower, e: SExpr, r: SRepr, ty: TyId) -> (SLower, Value) {
    let names = captured(s, e);
    let name = mangled_instance("lambda$"@ + dec(e.id.0 as nat), s.subst);
    let job = SLambdaJob {
        name,
        lambda: e,
        captures: capture_info(s, names, names.len() as int),
        module: s.module,
        subst: s.subst,
    };
    l_emit(
        SLower { pending: s.pending.push(job), ..s },
        SOp::MakeClosure { func: name, captures: values_of(s, names) },
        r,
        ty,
    )
}

/// Call through a closure.
pub open spec fn l_closure_call(
    c: Ctx,
    s: SLower,
    callee_id: ExprId,
    callee: Value,
    args: Seq<Value>,
    r: SRepr,
    ty: TyId,
) -> (SLower, Value) {
    let err = match repr_at(s, callee) {
        SRepr::Closure { throws, .. } => *throws,
        _ => SRepr::Never,
    };
    let err_ty = match fact(c.facts.types@, callee_id) {
        Some(t) => match only_arrow_throws(c.env.types, t) {
            Some(x) => x,
            None => ty,
        },
        None => ty,
    };
    let (s1, v) = l_emit(s, SOp::CallClosure { callee, args }, r, ty);
    l_unwrap(s1, v, err, err_ty, r, ty)
}

/// What the first `k` solved variables stand for.
pub open spec fn solved_subst(c: Ctx, s: SLower, xs: Seq<(String, TyId)>, k: int) -> SSubst
    decreases k,
{
    if k <= 0 {
        seq![]
    } else {
        with_set(solved_subst(c, s, xs, k - 1), xs[k - 1].0@, layout_in(c, s, xs[k - 1].1))
    }
}

/// What the variables of a function stand for in a call: as the checker solved them, which
/// goes for those that were written too, or as the arguments and the result show.
pub open spec fn fn_subst(
    c: Ctx,
    s: SLower,
    m: FnSig,
    id: ExprId,
    args: Seq<Value>,
    r: SRepr,
) -> SSubst {
    match fact(c.facts.generics@, id) {
        Some(xs) => solved_subst(c, s, xs@, xs@.len() as int),
        None => call_subst(c.env, s, m, args, r),
    }
}

/// Call a function by its name. A generic one is called as an instance.
pub open spec fn l_call_fn(
    c: Ctx,
    s: SLower,
    m: FnSig,
    id: ExprId,
    args: Seq<Value>,
    r: SRepr,
    ty: TyId,
) -> (SLower, Value) {
    let name = mangled(names_of(m.module@), m.name@);
    match m.native {
        Some(sym) => {
            let (s1, v) = l_emit(s, SOp::Native { symbol: sym@, args }, r, ty);
            l_unwrap_ty(c, s1, v, m.throws, r, ty)
        },
        None => if m.generics.len() == 0 {
            let (s1, v) = l_emit(s, SOp::Call { func: name, args }, r, ty);
            l_unwrap_ty(c, s1, v, m.throws, r, ty)
        } else {
            let sub = fn_subst(c, s, m, id, args, r);
            let err = substituted(layout_in(c, s, m.throws), sub);
            let job = SInstanceJob {
                mangled: mangled_instance(name, sub),
                module: names_of(m.module@),
                fn_name: m.name@,
                subst: sub,
                impl_key: None,
            };
            let s1 = SLower { instances: s.instances.push(job), ..s };
            let (s2, v) = l_emit(s1, SOp::Call { func: job.mangled, args }, r, ty);
            l_unwrap(s2, v, err, m.throws, r, ty)
        },
    }
}

// ---- doing it ----

impl<'a> Lower<'a> {
    /// Take a field out of a value.
    pub fn field(&mut self, x: Value, name: &str) -> (v: Value)
        requires
            old(self).inv(),
            x.0 < old(self).sem().b.values.len(),
        ensures
            (final(self).sem(), v) == l_field(old(self).sem(), x, name@),
            final(self).keeps(old(self)),
            v.0 < final(self).sem().b.values.len(),
    {
        let repr = self.repr_of_value(x);
        let r = match find_field(&repr, name) {
            Some(r) => r,
            None => Repr::Unit,
        };
        let ty = self.ty_of_value(x);
        self.emit(Op::Field { base: x, field: name.to_owned() }, r, ty)
    }

    /// Take an element out of a tuple.
    pub fn elem(&mut self, x: Value, i: usize) -> (v: Value)
        requires
            old(self).inv(),
            x.0 < old(self).sem().b.values.len(),
        ensures
            (final(self).sem(), v) == l_elem(old(self).sem(), x, i as int),
            final(self).keeps(old(self)),
            v.0 < final(self).sem().b.values.len(),
    {
        let repr = self.repr_of_value(x);
        let r = elem_repr(&repr, i);
        let ty = self.ty_of_value(x);
        self.emit(Op::Elem { base: x, index: i }, r, ty)
    }

    /// Bind the names of a pattern to the parts of a value.
    pub fn bind_pattern(&mut self, p: &Pattern, v: Value)
        requires
            old(self).inv(),
            v.0 < old(self).sem().b.values.len(),
        ensures
            final(self).sem() == l_bind_pattern(old(self).sem(), p.sem(), v),
            final(self).keeps(old(self)),
        decreases p, 1int,
    {
        match &p.kind {
            PatternKind::Bind(n) => self.bind(n.as_str(), v),
            PatternKind::Tuple(ps) => {
                proof {
                    lemma_patterns_of(ps@);
                }
                self.bind_elems(ps, v);
            },
            PatternKind::Record { fields, .. } => {
                proof {
                    lemma_field_pats_of(fields@);
                }
                self.bind_fields(fields, v);
            },
            _ => {},
        }
    }

    fn bind_elems(&mut self, ps: &Vec<Pattern>, v: Value)
        requires
            old(self).inv(),
            v.0 < old(self).sem().b.values.len(),
        ensures
            final(self).sem() == l_bind_elems(old(self).sem(), sems(ps@), v, ps@.len() as int),
            final(self).keeps(old(self)),
        decreases ps, 0int,
    {
        let ghost s0 = self.sem();
        let mut k: usize = 0;
        while k < ps.len()
            invariant
                k <= ps.len(),
                s0 == old(self).sem(),
                v.0 < s0.b.values.len(),
                self.keeps(old(self)),
                self.sem() == l_bind_elems(s0, sems(ps@), v, k as int),
            decreases ps.len() - k,
        {
            assert(sems(ps@)[k as int] == ps[k as int].sem());
            let x = self.elem(v, k);
            self.bind_pattern(&ps[k], x);
            k += 1;
        }
    }

    fn bind_field(&mut self, f: &FieldPat, v: Value)
        requires
            old(self).inv(),
            v.0 < old(self).sem().b.values.len(),
        ensures
            final(self).sem() == l_bind_field(old(self).sem(), f.sem(), v),
            final(self).keeps(old(self)),
        decreases f, 1int,
    {
        let x = self.field(v, f.name.as_str());
        match &f.pat {
            Some(p) => self.bind_pattern(p, x),
            None => self.bind(f.name.as_str(), x),
        }
    }

    fn bind_fields(&mut self, fs: &Vec<FieldPat>, v: Value)
        requires
            old(self).inv(),
            v.0 < old(self).sem().b.values.len(),
        ensures
            final(self).sem() == l_bind_fields(old(self).sem(), sems(fs@), v, fs@.len() as int),
            final(self).keeps(old(self)),
        decreases fs, 0int,
    {
        let ghost s0 = self.sem();
        let mut k: usize = 0;
        while k < fs.len()
            invariant
                k <= fs.len(),
                s0 == old(self).sem(),
                v.0 < s0.b.values.len(),
                self.keeps(old(self)),
                self.sem() == l_bind_fields(s0, sems(fs@), v, k as int),
            decreases fs.len() - k,
        {
            assert(sems(fs@)[k as int] == fs[k as int].sem());
            self.bind_field(&fs[k], v);
            k += 1;
        }
    }

    pub fn concat_str(&mut self, a: Value, b: Value, ty: TyId) -> (v: Value)
        requires
            old(self).inv(),
            a.0 < old(self).sem().b.values.len(),
            b.0 < old(self).sem().b.values.len(),
        ensures
            (final(self).sem(), v) == l_concat(old(self).sem(), a, b, ty),
            final(self).keeps(old(self)),
            v.0 < final(self).sem().b.values.len(),
    {
        self.emit(
            Op::Native { symbol: "neon_str_concat".to_owned(), args: two(a, b) },
            Repr::Str,
            ty,
        )
    }

    pub fn text(&mut self, text: &str, ty: TyId) -> (v: Value)
        requires
            old(self).inv(),
        ensures
            (final(self).sem(), v) == l_text(old(self).sem(), text@, ty),
            final(self).keeps(old(self)),
            v.0 < final(self).sem().b.values.len(),
    {
        let op = Op::ConstStr(text.to_owned());
        assert(operands(op.sem()) =~= seq![]);
        self.emit(op, Repr::Str, ty)
    }

    fn shown(&mut self, x: Value, ty: TyId) -> (v: Value)
        requires
            old(self).inv(),
            x.0 < old(self).sem().b.values.len(),
        ensures
            (final(self).sem(), v) == l_shown(old(self).sem(), x, ty),
            final(self).keeps(old(self)),
            v.0 < final(self).sem().b.values.len(),
    {
        let repr = self.repr_of_value(x);
        if let Repr::Str = &repr {
            let q = self.text("\"", ty);
            let open = self.concat_str(q, x, ty);
            let q2 = self.text("\"", ty);
            return self.concat_str(open, q2, ty);
        }
        match symbol_to_string(&repr) {
            Some(sym) => self.emit(Op::Native { symbol: sym, args: one(x) }, Repr::Str, ty),
            None => self.text("<not displayable>", ty),
        }
    }

    fn append_operand(&mut self, acc: Value, label: &str, x: Value, ty: TyId) -> (v: Value)
        requires
            old(self).inv(),
            acc.0 < old(self).sem().b.values.len(),
            x.0 < old(self).sem().b.values.len(),
        ensures
            (final(self).sem(), v) == l_append(old(self).sem(), acc, label@, x, ty),
            final(self).keeps(old(self)),
            v.0 < final(self).sem().b.values.len(),
    {
        let l = self.text(label, ty);
        let a = self.concat_str(acc, l, ty);
        let shown = self.shown(x, ty);
        self.concat_str(a, shown, ty)
    }

    /// Panic unless a condition holds.
    pub fn check(
        &mut self,
        cond: Value,
        sides: Option<(Value, Value)>,
        text: &str,
        ty: TyId,
    ) -> (v: Value)
        requires
            old(self).inv(),
            cond.0 < old(self).sem().b.values.len(),
            sides matches Some(p) ==> p.0.0 < old(self).sem().b.values.len() && p.1.0 < old(
                self,
            ).sem().b.values.len(),
        ensures
            (final(self).sem(), v) == l_check(old(self).sem(), cond, sides, text@, ty),
            final(self).keeps(old(self)),
            v.0 < final(self).sem().b.values.len(),
    {
        let ok = self.new_block();
        let fail = self.new_block();
        self.branch(cond, ok, fail);
        self.enter(fail);
        let whole = cat("assertion failed: ", text);
        let mut msg = self.text(whole.as_str(), ty);
        if let Some((l, r)) = sides {
            msg = self.append_operand(msg, "\n  left:  ", l, ty);
            msg = self.append_operand(msg, "\n  right: ", r, ty);
        }
        self.panic(msg);
        self.enter(ok);
        self.unit(ty)
    }

    /// Go round the innermost loop.
    pub fn jump_to_header(&mut self)
        requires
            old(self).inv(),
        ensures
            final(self).sem() == l_continue(old(self).sem()),
            final(self).keeps(old(self)),
    {
        proof {
            reveal(lower_inv);
        }
        if self.loops.len() > 0 {
            let last: usize = self.loops.len() - 1;
            let ghost l = self.sem().loops[last as int];
            assert(l == self.loops[last as int].sem());
            assert(l.continue_target.0 < self.sem().b.blocks.len());
            let target = self.loops[last].continue_target;
            let args = self.lookup_all(&self.loops[last].carried);
            self.jump(target, args);
        }
    }

    /// Leave the innermost loop with a value.
    pub fn jump_to_exit(&mut self, x: Value)
        requires
            old(self).inv(),
            x.0 < old(self).sem().b.values.len(),
        ensures
            final(self).sem() == l_break(old(self).sem(), x),
            final(self).keeps(old(self)),
    {
        proof {
            reveal(lower_inv);
        }
        if self.loops.len() > 0 {
            let last: usize = self.loops.len() - 1;
            let ghost l = self.sem().loops[last as int];
            assert(l == self.loops[last as int].sem());
            assert(l.exit.0 < self.sem().b.blocks.len());
            let exit = self.loops[last].exit;
            let mut rest = self.lookup_all(&self.loops[last].carried);
            let ghost vs = rest@;
            let mut args = if self.loops[last].has_value {
                one(x)
            } else {
                no_values()
            };
            let ghost first = args@;
            args.append(&mut rest);
            assert(args@ =~= first + vs);
            assert forall|i: int| 0 <= i < args@.len() implies (#[trigger] args@[i]).0
                < self.sem().b.values.len() by {
                if i >= first.len() {
                    assert(args@[i] == vs[i - first.len()]);
                }
            }
            self.jump(exit, args);
        }
    }

    /// A parameter of a block for each value, like it.
    pub fn params_like(&mut self, block: BlockId, vs: &Vec<Value>) -> (ps: Vec<Value>)
        requires
            old(self).inv(),
            block.0 < old(self).sem().b.blocks.len(),
            values_below(vs@, old(self).sem().b.values.len()),
        ensures
            (final(self).sem(), ps@) == l_params(
                old(self).sem(),
                block,
                vs@,
                vs@.len() as int,
            ),
            final(self).keeps(old(self)),
            values_below(ps@, final(self).sem().b.values.len()),
    {
        let ghost s0 = self.sem();
        let mut ps: Vec<Value> = Vec::new();
        let mut k: usize = 0;
        while k < vs.len()
            invariant
                k <= vs.len(),
                s0 == old(self).sem(),
                block.0 < s0.b.blocks.len(),
                values_below(vs@, s0.b.values.len()),
                self.keeps(old(self)),
                (self.sem(), ps@) == l_params(s0, block, vs@, k as int),
                values_below(ps@, self.sem().b.values.len()),
            decreases vs.len() - k,
        {
            assert(vs@[k as int].0 < s0.b.values.len());
            let r = self.repr_of_value(vs[k]);
            let ty = self.ty_of_value(vs[k]);
            let ghost before = ps@;
            let p = self.block_param(block, r, ty);
            ps.push(p);
            assert forall|i: int| 0 <= i < ps@.len() implies (#[trigger] ps@[i]).0
                < self.sem().b.values.len() by {
                if i < before.len() {
                    assert(before[i] == ps@[i]);
                }
            }
            k += 1;
        }
        ps
    }

    /// A parameter of each of two blocks for each value, like it.
    pub fn params_like2(&mut self, a: BlockId, b: BlockId, vs: &Vec<Value>) -> (r: (
        Vec<Value>,
        Vec<Value>,
    ))
        requires
            old(self).inv(),
            a.0 < old(self).sem().b.blocks.len(),
            b.0 < old(self).sem().b.blocks.len(),
            values_below(vs@, old(self).sem().b.values.len()),
        ensures
            (final(self).sem(), r.0@, r.1@) == l_params2(
                old(self).sem(),
                a,
                b,
                vs@,
                vs@.len() as int,
            ),
            final(self).keeps(old(self)),
            values_below(r.0@, final(self).sem().b.values.len()),
            values_below(r.1@, final(self).sem().b.values.len()),
    {
        let ghost s0 = self.sem();
        let mut ps: Vec<Value> = Vec::new();
        let mut qs: Vec<Value> = Vec::new();
        let mut k: usize = 0;
        while k < vs.len()
            invariant
                k <= vs.len(),
                s0 == old(self).sem(),
                a.0 < s0.b.blocks.len(),
                b.0 < s0.b.blocks.len(),
                values_below(vs@, s0.b.values.len()),
                self.keeps(old(self)),
                (self.sem(), ps@, qs@) == l_params2(s0, a, b, vs@, k as int),
                values_below(ps@, self.sem().b.values.len()),
                values_below(qs@, self.sem().b.values.len()),
            decreases vs.len() - k,
        {
            assert(vs@[k as int].0 < s0.b.values.len());
            let r = self.repr_of_value(vs[k]);
            let ty = self.ty_of_value(vs[k]);
            let ghost (x, y) = (ps@, qs@);
            let p = self.block_param(a, r.clone(), ty);
            let q = self.block_param(b, r, ty);
            ps.push(p);
            qs.push(q);
            assert forall|i: int| 0 <= i < ps@.len() implies (#[trigger] ps@[i]).0
                < self.sem().b.values.len() by {
                if i < x.len() {
                    assert(x[i] == ps@[i]);
                }
            }
            assert forall|i: int| 0 <= i < qs@.len() implies (#[trigger] qs@[i]).0
                < self.sem().b.values.len() by {
                if i < y.len() {
                    assert(y[i] == qs@[i]);
                }
            }
            k += 1;
        }
        (ps, qs)
    }

    pub fn push_loop(&mut self, l: LoopCtx)
        requires
            old(self).inv(),
            l.continue_target.0 < old(self).sem().b.blocks.len(),
            l.exit.0 < old(self).sem().b.blocks.len(),
        ensures
            final(self).sem() == l_push_loop(old(self).sem(), l.sem()),
            final(self).inv(),
            final(self).env == old(self).env,
            final(self).facts == old(self).facts,
            final(self).cuts == old(self).cuts,
            final(self).sem().loops == old(self).sem().loops.push(l.sem()),
            final(self).sem().scope == old(self).sem().scope,
            final(self).sem().handlers == old(self).sem().handlers,
            final(self).sem().b == old(self).sem().b,
    {
        proof {
            reveal(l_push_loop);
            reveal(lower_inv);
        }
        let ghost s = self.sem();
        let ghost before = self.loops@;
        self.loops.push(l);
        assert(sems(self.loops@) =~= sems(before).push(l.sem()));
        let ghost t = self.sem();
        assert forall|i: int| 0 <= i < t.loops.len() implies (
        #[trigger] t.loops[i]).continue_target.0 < t.b.blocks.len() && t.loops[i].exit.0
            < t.b.blocks.len() by {
            if i < s.loops.len() {
                assert(t.loops[i] == s.loops[i]);
            }
        }
    }

    pub fn pop_loop(&mut self)
        requires
            old(self).inv(),
            old(self).sem().loops.len() > 0,
        ensures
            final(self).sem() == l_pop_loop(old(self).sem()),
            final(self).inv(),
            final(self).env == old(self).env,
            final(self).facts == old(self).facts,
            final(self).cuts == old(self).cuts,
            final(self).sem().loops == old(self).sem().loops.drop_last(),
            final(self).sem().scope == old(self).sem().scope,
            final(self).sem().handlers == old(self).sem().handlers,
            final(self).sem().b == old(self).sem().b,
    {
        proof {
            reveal(l_pop_loop);
            reveal(lower_inv);
        }
        let ghost s = self.sem();
        let ghost before = self.loops@;
        self.loops.pop();
        assert(sems(self.loops@) =~= sems(before).drop_last());
        let ghost t = self.sem();
        assert forall|i: int| 0 <= i < t.loops.len() implies (
        #[trigger] t.loops[i]).continue_target.0 < t.b.blocks.len() && t.loops[i].exit.0
            < t.b.blocks.len() by {
            assert(t.loops[i] == s.loops[i]);
        }
    }

    pub fn push_handler(&mut self, h: BlockId)
        requires
            old(self).inv(),
            h.0 < old(self).sem().b.blocks.len(),
        ensures
            final(self).sem() == l_push_handler(old(self).sem(), h),
            final(self).inv(),
            final(self).env == old(self).env,
            final(self).facts == old(self).facts,
            final(self).cuts == old(self).cuts,
            final(self).sem().handlers == old(self).sem().handlers.push(h),
            final(self).sem().scope == old(self).sem().scope,
            final(self).sem().loops == old(self).sem().loops,
            final(self).sem().b == old(self).sem().b,
    {
        proof {
            reveal(l_push_handler);
            reveal(lower_inv);
        }
        let ghost s = self.sem();
        self.handlers.push(h);
        let ghost t = self.sem();
        assert forall|i: int| 0 <= i < t.handlers.len() implies (#[trigger] t.handlers[i]).0
            < t.b.blocks.len() by {
            if i < s.handlers.len() {
                assert(t.handlers[i] == s.handlers[i]);
            }
        }
    }

    pub fn pop_handler(&mut self)
        requires
            old(self).inv(),
            old(self).sem().handlers.len() > 0,
        ensures
            final(self).sem() == l_pop_handler(old(self).sem()),
            final(self).inv(),
            final(self).env == old(self).env,
            final(self).facts == old(self).facts,
            final(self).cuts == old(self).cuts,
            final(self).sem().handlers == old(self).sem().handlers.drop_last(),
            final(self).sem().scope == old(self).sem().scope,
            final(self).sem().loops == old(self).sem().loops,
            final(self).sem().b == old(self).sem().b,
    {
        proof {
            reveal(l_pop_handler);
            reveal(lower_inv);
        }
        let ghost s = self.sem();
        self.handlers.pop();
        let ghost t = self.sem();
        assert(t.handlers =~= s.handlers.drop_last());
        assert forall|i: int| 0 <= i < t.handlers.len() implies (#[trigger] t.handlers[i]).0
            < t.b.blocks.len() by {
            assert(t.handlers[i] == s.handlers[i]);
        }
    }

    /// The names that a lambda captures.
    fn free_vars(&self, e: &Expr) -> (r: Vec<String>)
        requires
            self.inv(),
        ensures
            names_of(r@) == captured(self.sem(), e.sem()),
    {
        match &e.kind {
            ExprKind::Lambda { params, body } => {
                proof {
                    lemma_lambda_params_of(params@);
                }
                let mut s = Found { bound: param_names(params), used: Vec::new() };
                assert(s@.used =~= seq![]);
                collect_free_expr(body, &mut s);
                self.carried(&s.used)
            },
            _ => {
                let r: Vec<String> = Vec::new();
                assert(names_of(r@) =~= seq![]);
                r
            },
        }
    }

    fn captures_of(&self, names: &Vec<String>) -> (r: Vec<(String, Repr, TyId)>)
        requires
            self.inv(),
        ensures
            captures_sem(r@) == capture_info(self.sem(), names_of(names@), names@.len() as int),
    {
        let ghost s = self.sem();
        let ghost ns = names_of(names@);
        let mut r: Vec<(String, Repr, TyId)> = Vec::new();
        let mut k: usize = 0;
        assert(captures_sem(r@) =~= capture_info(s, ns, 0));
        while k < names.len()
            invariant
                k <= names.len(),
                s == self.sem(),
                self.inv(),
                ns == names_of(names@),
                captures_sem(r@) == capture_info(s, ns, k as int),
            decreases names.len() - k,
        {
            assert(ns[k as int] == names[k as int]@);
            if let Some(v) = self.lookup(names[k].as_str()) {
                let ghost before = captures_sem(r@);
                let x = (names[k].clone(), self.repr_of_value(v), self.ty_of_value(v));
                r.push(x);
                assert(captures_sem(r@) =~= before.push((x.0@, x.1.sem(), x.2)));
            }
            k += 1;
        }
        r
    }

    /// A lambda.
    pub fn lower_lambda(&mut self, e: &'a Expr, r: Repr, ty: TyId) -> (v: Value)
        requires
            old(self).inv(),
            e.kind is Lambda,
        ensures
            (final(self).sem(), v) == l_lambda(old(self).sem(), e.sem(), r.sem(), ty),
            final(self).keeps(old(self)),
            v.0 < final(self).sem().b.values.len(),
    {
        let names = self.free_vars(e);
        let vals = self.lookup_all(&names);
        let captures = self.captures_of(&names);
        let mut base = "lambda$".to_owned();
        push_dec(&mut base, e.id.0 as u64);
        let name = mangle_instance(base.as_str(), &self.subst);
        let job = LambdaJob {
            name: name.clone(),
            lambda: e,
            captures,
            module: copy_names(&self.module),
            subst: self.subst.copy(),
        };
        proof {
            reveal(lower_inv);
        }
        let ghost before = self.pending@;
        let ghost s = self.sem();
        assert(e.sem().kind is Lambda);
        self.pending.push(job);
        assert(sems(self.pending@) =~= sems(before).push(job.sem()));
        assert(self.sem() == SLower { pending: s.pending.push(job.sem()), ..s });
        self.emit(Op::MakeClosure { func: name, captures: vals }, r, ty)
    }

    /// Call through a closure.
    pub fn closure_call(
        &mut self,
        callee_id: ExprId,
        callee: Value,
        args: Vec<Value>,
        r: Repr,
        ty: TyId,
    ) -> (v: Value)
        requires
            old(self).inv(),
            callee.0 < old(self).sem().b.values.len(),
            values_below(args@, old(self).sem().b.values.len()),
        ensures
            (final(self).sem(), v) == l_closure_call(
                old(self).ctx(),
                old(self).sem(),
                callee_id,
                callee,
                args@,
                r.sem(),
                ty,
            ),
            final(self).keeps(old(self)),
            v.0 < final(self).sem().b.values.len(),
    {
        proof {
            self.inv_means();
        }
        let repr = self.repr_of_value(callee);
        let err = match &repr {
            Repr::Closure { throws, .. } => (**throws).clone(),
            _ => Repr::Never,
        };
        let mut err_ty = ty;
        if let Some(t) = ty_fact(&self.facts.types, callee_id) {
            assert(self.facts.types@[callee_id.0 as int] == Some(t));
            if let Some(x) = super::super::repr::layout::arrow_throws(&self.env.types, t) {
                err_ty = x;
            }
        }
        let op = Op::CallClosure { callee, args };
        assert(op.sem() == SOp::CallClosure { callee, args: args@ });
        assert(values_below(operands(op.sem()), self.sem().b.values.len())) by {
            let os = operands(op.sem());
            assert forall|i: int| 0 <= i < os.len() implies (#[trigger] os[i]).0
                < self.sem().b.values.len() by {
                if i > 0 {
                    assert(os[i] == args@[i - 1]);
                }
            }
        }
        let x = self.emit(op, r.clone(), ty);
        self.wrap_throwing_repr(x, err, err_ty, r, ty)
    }

    /// What the variables of a function stand for in a call.
    fn solve_fn(
        &self,
        m: &FnSig,
        id: ExprId,
        args: &Vec<Value>,
        r: &Repr,
    ) -> (sub: Subst)
        requires
            self.inv(),
            sig_wf(*self.env, *m),
            values_below(args@, self.sem().b.values.len()),
        ensures
            sub@ == fn_subst(
                self.ctx(),
                self.sem(),
                *m,
                id,
                args@,
                r.sem(),
            ),
    {
        proof {
            self.inv_means();
        }
        let ghost c = self.ctx();
        let ghost s = self.sem();
        if let Some(xs) = solved_fact(&self.facts.generics, id) {
            assert(self.facts.generics@[id.0 as int] == Some(*xs));
            assert(solved_wf(*self.env, xs@));
            let mut sub = Subst::new();
            let mut k: usize = 0;
            while k < xs.len()
                invariant
                    k <= xs.len(),
                    self.inv(),
                    c == self.ctx(),
                    s == self.sem(),
                    solved_wf(*self.env, xs@),
                    sub@ == solved_subst(c, s, xs@, k as int),
                decreases xs.len() - k,
            {
                assert(ty_in_range(*self.env, xs@[k as int].1));
                let x = self.repr_of_ty(xs[k].1);
                sub.set(xs[k].0.as_str(), x);
                k += 1;
            }
            return sub;
        }
        self.solve(m, args, r)
    }

    /// Call a function by its name.
    pub fn call_fn(
        &mut self,
        m: &FnSig,
        id: ExprId,
        args: Vec<Value>,
        r: Repr,
        ty: TyId,
    ) -> (v: Value)
        requires
            old(self).inv(),
            sig_wf(*old(self).env, *m),
            values_below(args@, old(self).sem().b.values.len()),
        ensures
            (final(self).sem(), v) == l_call_fn(
                old(self).ctx(),
                old(self).sem(),
                *m,
                id,
                args@,
                r.sem(),
                ty,
            ),
            final(self).keeps(old(self)),
            v.0 < final(self).sem().b.values.len(),
    {
        proof {
            self.inv_means();
        }
        if let Some(sym) = &m.native {
            let x = self.emit(Op::Native { symbol: sym.clone(), args }, r.clone(), ty);
            return self.wrap_throwing(x, m.throws, r, ty);
        }
        let name = mangle(&m.module, m.name.as_str());
        if m.generics.len() == 0 {
            let x = self.emit(Op::Call { func: name, args }, r.clone(), ty);
            return self.wrap_throwing(x, m.throws, r, ty);
        }
        let sub = self.solve_fn(m, id, &args, &r);
        let throws = self.repr_of_ty(m.throws);
        let err = substitute_repr(&throws, &sub);
        let mangled = mangle_instance(name.as_str(), &sub);
        let job = InstanceJob {
            mangled,
            module: copy_names(&m.module),
            fn_name: m.name.clone(),
            subst: sub,
            impl_key: None,
        };
        self.call_instance(job, args, err, m.throws, r, ty)
    }
}

fn param_names(ps: &Vec<LambdaParam>) -> (r: Vec<String>)
    ensures
        names_of(r@) == lambda_names(sems(ps@)),
{
    let mut r: Vec<String> = Vec::new();
    let mut i: usize = 0;
    while i < ps.len()
        invariant
            i <= ps.len(),
            r.len() == i,
            forall|k: int| 0 <= k < i ==> (#[trigger] r[k])@ == ps[k].name@,
        decreases ps.len() - i,
    {
        r.push(ps[i].name.clone());
        i += 1;
    }
    assert forall|k: int| 0 <= k < r@.len() implies names_of(r@)[k] == lambda_names(
        sems(ps@),
    )[k] by {
        assert(sems(ps@)[k] == ps[k].sem());
        assert(ps[k].sem().name == ps[k].name@);
    }
    assert(names_of(r@) =~= lambda_names(sems(ps@)));
    r
}

} // verus!
