//! Lowering expressions, blocks and patterns.

use super::super::repr::{named_reprs_sem, normalize_union, reprs_sem, Repr};
use super::super::ssa::{
    copy_values, named_values_sem, operands, targets, term_operands, values_below, BlockId, Op,
    PrimOp, SOp, STarget, STerm, Target, Term, Value,
};
use super::calls::find_use;
use super::describe::{describe, described};
use super::names::{
    bin_prim, comparison_prim, mangle, scalar_of, symbol_to_string, un_prim,
};
use super::scan::{
    assigned_block, assigned_opt, assigned_round, collect_assigns_block, collect_assigns_expr,
    collect_assigns_round,
};
use super::scheme::{
    called_name, field_order, has_spread, init_from, l_both, l_for_header, l_latch, l_literal,
    l_raise, layouts_at, passed, rebound, record_name, x_and_or, x_arm, x_arms, x_assert,
    x_assert_one, x_binary, x_block, x_body, x_call, x_elem, x_elem_tests, x_elems, x_else, x_expr,
    x_exprs, x_field_test, x_field_tests, x_fields, x_flow, x_for, x_for_loop, x_for_round,
    x_handle, x_if, x_leave, x_list, x_literal_test, x_loop, x_match, x_operation, x_orelse, x_part,
    x_parts, x_path, x_pipe, x_record, x_round, x_stmt, x_stmts, x_str, x_test, x_then, x_try,
    x_value, x_while,
};
use super::state::{copy_names, l_end, no_values, one, repr_at, two, Ctx, LoopCtx, Lower, SLower};
use super::subst::last_of;
use crate::ast::{
    AssertKind, BinOp, Block, CastForm, CatchArm, Elem, Expr, ExprKind, FieldInit, FieldPat,
    MatchArm, Pattern, PatternKind, Stmt, StmtKind, StrPart, TryForm,
};
use crate::check::{bits_fact, resolution_fact, sig_wf, ty_fact, ty_in_range};
use crate::syntax::{
    lemma_elems_of, lemma_exprs_of, lemma_field_inits_of, lemma_field_pats_of, lemma_match_arms_of,
    lemma_patterns_of, lemma_stmts_of, lemma_str_parts_of, names_of,
    opt_names_of, sems, Node, SExprKind, SStmt,
};
use crate::text::str_eq;
use crate::types::TyId;
use vstd::prelude::*;

verus! {

pub open spec fn named_below(fs: Seq<(Seq<char>, Value)>, n: nat) -> bool {
    forall|i: int| 0 <= i < fs.len() ==> (#[trigger] fs[i]).1.0 < n
}

/// Once a statement does not come back, the rest is dead.
proof fn lemma_stmts_end(c: Ctx, n: nat, s: SLower, xs: Seq<SStmt>, k: int, m: int)
    requires
        0 <= k <= m <= xs.len(),
        x_stmts(c, n, s, xs, k).terminated,
    ensures
        x_stmts(c, n, s, xs, m) == x_stmts(c, n, s, xs, k),
    decreases m,
{
    if k < m {
        lemma_stmts_end(c, n, s, xs, k, m - 1);
    }
}

fn spreads(es: &Vec<Elem>) -> (r: bool)
    ensures
        r == has_spread(sems(es@)),
{
    let ghost ss = sems(es@);
    let mut i: usize = 0;
    while i < es.len()
        invariant
            i <= es.len(),
            ss == sems(es@),
            forall|k: int| 0 <= k < i ==> !((#[trigger] ss[k]) is Spread),
        decreases es.len() - i,
    {
        assert(ss[i as int] == es[i as int].sem());
        if let Elem::Spread(_) = &es[i] {
            assert(ss[i as int] is Spread);
            return true;
        }
        assert(!(ss[i as int] is Spread));
        i += 1;
    }
    false
}

fn find_init(fs: &Vec<FieldInit>, name: &str) -> (r: Option<usize>)
    ensures
        match r {
            Some(i) => init_from(sems(fs@), name@, 0) == Some(i as int) && i < fs.len(),
            None => init_from(sems(fs@), name@, 0) is None,
        },
{
    let ghost ss = sems(fs@);
    let mut k: usize = 0;
    while k < fs.len()
        invariant
            k <= fs.len(),
            ss == sems(fs@),
            init_from(ss, name@, 0) == init_from(ss, name@, k as int),
        decreases fs.len() - k,
    {
        assert(ss[k as int] == fs[k as int].sem());
        assert(fs[k as int].sem().name == fs[k as int].name@);
        if str_eq(fs[k].name.as_str(), name) {
            return Some(k);
        }
        k += 1;
    }
    None
}

/// The fields of a record in the order of its layout.
fn order_of(fs: &Vec<FieldInit>, r: &Repr) -> (order: Vec<String>)
    ensures
        names_of(order@) == field_order(sems(fs@), r.sem()),
{
    let mut order: Vec<String> = Vec::new();
    if let Repr::Record { fields, .. } = r {
        let ghost rs = named_reprs_sem(fields@);
        assert(r.sem()->Record_fields == rs);
        let mut i: usize = 0;
        while i < fields.len()
            invariant
                i <= fields.len(),
                order.len() == i,
                forall|k: int| 0 <= k < i ==> (#[trigger] order[k])@ == fields[k].0@,
            decreases fields.len() - i,
        {
            order.push(fields[i].0.clone());
            i += 1;
        }
        assert(names_of(order@) =~= field_order(sems(fs@), r.sem()));
    } else {
        let mut i: usize = 0;
        while i < fs.len()
            invariant
                i <= fs.len(),
                order.len() == i,
                forall|k: int| 0 <= k < i ==> (#[trigger] order[k])@ == fs[k].name@,
            decreases fs.len() - i,
        {
            order.push(fs[i].name.clone());
            i += 1;
        }
        assert forall|k: int| 0 <= k < order@.len() implies names_of(order@)[k] == field_order(
            sems(fs@),
            r.sem(),
        )[k] by {
            assert(sems(fs@)[k] == fs[k].sem());
            assert(fs[k].sem().name == fs[k].name@);
        }
        assert(names_of(order@) =~= field_order(sems(fs@), r.sem()));
    }
    order
}

fn last_of_opt(path: &Option<Vec<String>>) -> (r: Option<String>)
    ensures
        r.sem() == record_name(opt_names_of(*path)),
{
    match path {
        Some(p) => if p.len() > 0 {
            assert(names_of(p@).last() == p[p.len() - 1]@);
            Some(p[p.len() - 1].clone())
        } else {
            None
        },
        None => None,
    }
}

fn with_first(v: Value, rest: Vec<Value>) -> (r: Vec<Value>)
    ensures
        r@ == seq![v] + rest@,
{
    let mut r = one(v);
    let mut rest = rest;
    let ghost vs = rest@;
    r.append(&mut rest);
    assert(r@ =~= seq![v] + vs);
    r
}

fn describe_two(a: &Expr, op: &str, b: &Expr) -> (r: String)
    ensures
        r@ == described(a.sem()) + op@ + described(b.sem()),
{
    let mut r = describe(a);
    r.append(op);
    let x = describe(b);
    r.append(x.as_str());
    r
}

impl<'a> Lower<'a> {
    /// An expression.
    pub fn lower_expr(&mut self, n: usize, e: &'a Expr) -> (v: Value)
        requires
            old(self).inv(),
        ensures
            (final(self).sem(), v) == x_expr(old(self).ctx(), n as nat, old(self).sem(), e.sem()),
            final(self).keeps(old(self)),
            v.0 < final(self).sem().b.values.len(),
        decreases n, e, 9int,
    {
        let r = self.repr(e.id);
        let ty = self.ty(e.id);
        match &e.kind {
            ExprKind::Int(_)
            | ExprKind::Float(_)
            | ExprKind::Bool(_)
            | ExprKind::Null
            | ExprKind::Atom(_)
            | ExprKind::Rune(_) => self.lower_literal(e, r, ty),
            ExprKind::Lambda { .. } => self.lower_lambda(e, r, ty),
            ExprKind::Str(_)
            | ExprKind::Path(_)
            | ExprKind::Tuple(_)
            | ExprKind::List(_)
            | ExprKind::RecordLit { .. } => self.lower_value(n, e, r, ty),
            ExprKind::Unary { .. }
            | ExprKind::Binary { .. }
            | ExprKind::Call { .. }
            | ExprKind::Index { .. }
            | ExprKind::Field { .. }
            | ExprKind::Is { .. }
            | ExprKind::As { .. } => self.lower_operation(n, e, r, ty),
            ExprKind::Break(_) | ExprKind::Continue | ExprKind::Return(_) | ExprKind::Throw(_) =>
                self.lower_leave(n, e, ty),
            _ => self.lower_flow(n, e, r, ty),
        }
    }

    fn lower_flow(&mut self, n: usize, e: &'a Expr, r: Repr, ty: TyId) -> (v: Value)
        requires
            old(self).inv(),
            ty_in_range(*old(self).env, ty),
        ensures
            (final(self).sem(), v) == x_flow(old(self).ctx(), n as nat, old(self).sem(), e.sem(), r.sem(), ty),
            final(self).keeps(old(self)),
            v.0 < final(self).sem().b.values.len(),
        decreases n, e, 8int,
    {
        match &e.kind {
            ExprKind::If { .. } => self.lower_if(n, e, r, ty),
            ExprKind::Match { .. } => self.lower_match(n, e, r, ty),
            ExprKind::Loop { .. } => self.lower_loop(n, e, r, ty),
            ExprKind::While { .. } => self.lower_while(n, e, ty),
            ExprKind::For { .. } => self.lower_for(n, e, ty),
            ExprKind::Block(b) => match self.lower_block(n, b) {
                Some(v) => v,
                None => self.unit(ty),
            },
            ExprKind::Try { .. } => self.lower_try(n, e, r, ty),
            _ => self.lower_assert(n, e, ty),
        }
    }

    fn lower_literal(&mut self, e: &'a Expr, r: Repr, ty: TyId) -> (v: Value)
        requires
            old(self).inv(),
        ensures
            (final(self).sem(), v) == l_literal(
                old(self).ctx(),
                old(self).sem(),
                e.sem(),
                r.sem(),
                ty,
            ),
            final(self).keeps(old(self)),
            v.0 < final(self).sem().b.values.len(),
    {
        let op = match &e.kind {
            ExprKind::Int(x) => Op::ConstI64(
                #[verifier::truncate]
                (*x as i64),
            ),
            ExprKind::Float(_) => Op::ConstF64(
                match bits_fact(&self.facts.floats, e.id) {
                    Some(b) => b,
                    None => 0,
                },
            ),
            ExprKind::Bool(b) => Op::ConstBool(*b),
            ExprKind::Atom(a) => Op::ConstAtom(a.clone()),
            ExprKind::Null => Op::ConstNull,
            _ => {
                return self.note("expr", r, ty);
            },
        };
        assert(operands(op.sem()) =~= seq![]);
        self.emit(op, r, ty)
    }

    fn lower_exprs(&mut self, n: usize, es: &'a Vec<Expr>) -> (vs: Vec<Value>)
        requires
            old(self).inv(),
        ensures
            (final(self).sem(), vs@) == x_exprs(
                old(self).ctx(), n as nat, old(self).sem(),
                sems(es@),
                es@.len() as int,
            ),
            final(self).keeps(old(self)),
            values_below(vs@, final(self).sem().b.values.len()),
        decreases n, es, 0int,
    {
        let ghost s0 = self.sem();
        let ghost c = self.ctx();
        let ghost ss = sems(es@);
        let mut vs: Vec<Value> = Vec::new();
        let mut k: usize = 0;
        while k < es.len()
            invariant
                k <= es.len(),
                s0 == old(self).sem(),
                c == old(self).ctx(),
                ss == sems(es@),
                self.keeps(old(self)),
                (self.sem(), vs@) == x_exprs(c, n as nat, s0, ss, k as int),
                values_below(vs@, self.sem().b.values.len()),
            decreases es.len() - k,
        {
            assert(ss[k as int] == es[k as int].sem());
            let ghost before = vs@;
            let v = self.lower_expr(n, &es[k]);
            vs.push(v);
            assert forall|i: int| 0 <= i < vs@.len() implies (#[trigger] vs@[i]).0
                < self.sem().b.values.len() by {
                if i < before.len() {
                    assert(before[i] == vs@[i]);
                }
            }
            k += 1;
        }
        vs
    }

    fn lower_value(&mut self, n: usize, e: &'a Expr, r: Repr, ty: TyId) -> (v: Value)
        requires
            old(self).inv(),
        ensures
            (final(self).sem(), v) == x_value(old(self).ctx(), n as nat, old(self).sem(), e.sem(), r.sem(), ty),
            final(self).keeps(old(self)),
            v.0 < final(self).sem().b.values.len(),
        decreases n, e, 8int,
    {
        match &e.kind {
            ExprKind::Str(_) => self.lower_str(n, e, r, ty),
            ExprKind::Path(_) => self.lower_path(n, e, r, ty),
            ExprKind::Tuple(es) => {
                proof {
                    lemma_exprs_of(es@);
                }
                let vs = self.lower_exprs(n, es);
                self.emit(Op::MakeTuple(vs), r, ty)
            },
            ExprKind::List(_) => self.lower_list(n, e, r, ty),
            _ => self.lower_record(n, e, r, ty),
        }
    }

    /// A string.
    fn lower_str(&mut self, n: usize, e: &'a Expr, r: Repr, ty: TyId) -> (v: Value)
        requires
            old(self).inv(),
        ensures
            (final(self).sem(), v) == x_str(old(self).ctx(), n as nat, old(self).sem(), e.sem(), r.sem(), ty),
            final(self).keeps(old(self)),
            v.0 < final(self).sem().b.values.len(),
        decreases n, e, 5int,
    {
        if let ExprKind::Str(parts) = &e.kind {
            proof {
                lemma_str_parts_of(parts@);
            }
            assert(e.sem().kind == SExprKind::Str(sems(parts@)));
            if parts.len() == 0 {
                let op = Op::ConstStr("".to_owned());
                assert(operands(op.sem()) =~= seq![]);
                return self.emit(op, r, ty);
            }
            if parts.len() == 1 {
                assert(sems(parts@)[0] == parts[0].sem());
                if let StrPart::Text(t) = &parts[0] {
                    let op = Op::ConstStr(t.clone());
                    assert(operands(op.sem()) =~= seq![]);
                    return self.emit(op, r, ty);
                }
            }
            return self.lower_parts(n, parts, ty);
        }
        self.unit(ty)
    }

    fn lower_part(&mut self, n: usize, p: &'a StrPart, ty: TyId) -> (v: Value)
        requires
            old(self).inv(),
        ensures
            (final(self).sem(), v) == x_part(old(self).ctx(), n as nat, old(self).sem(), p.sem(), ty),
            final(self).keeps(old(self)),
            v.0 < final(self).sem().b.values.len(),
        decreases n, p, 1int,
    {
        proof {
            self.inv_means();
        }
        match p {
            StrPart::Text(t) => self.text(t.as_str(), ty),
            StrPart::Interp(e) => {
                let x = self.lower_expr(n, e);
                let facts = self.facts;
                if let Some(res) = resolution_fact(&facts.interp_calls, e.id) {
                    assert(facts.interp_calls@[e.id.0 as int] == Some(*res));
                    return self.lower_dispatch(res, "to_string", one(x), Repr::Str, ty);
                }
                let repr = self.repr_of_value(x);
                match symbol_to_string(&repr) {
                    Some(sym) => self.emit(
                        Op::Native { symbol: sym, args: one(x) },
                        Repr::Str,
                        ty,
                    ),
                    None => x,
                }
            },
        }
    }

    fn lower_parts(&mut self, n: usize, ps: &'a Vec<StrPart>, ty: TyId) -> (v: Value)
        requires
            old(self).inv(),
            ps.len() > 0,
        ensures
            (final(self).sem(), v) == x_parts(
                old(self).ctx(), n as nat, old(self).sem(),
                sems(ps@),
                ps@.len() as int,
                ty,
            ),
            final(self).keeps(old(self)),
            v.0 < final(self).sem().b.values.len(),
        decreases n, ps, 0int,
    {
        let ghost s0 = self.sem();
        let ghost c = self.ctx();
        let ghost ss = sems(ps@);
        assert(ss[0] == ps[0].sem());
        let mut acc = self.lower_part(n, &ps[0], ty);
        let mut k: usize = 1;
        while k < ps.len()
            invariant
                1 <= k <= ps.len(),
                s0 == old(self).sem(),
                c == old(self).ctx(),
                ss == sems(ps@),
                self.keeps(old(self)),
                (self.sem(), acc) == x_parts(c, n as nat, s0, ss, k as int, ty),
                acc.0 < self.sem().b.values.len(),
            decreases ps.len() - k,
        {
            assert(ss[k as int] == ps[k as int].sem());
            let v = self.lower_part(n, &ps[k], ty);
            acc = self.concat_str(acc, v, ty);
            k += 1;
        }
        acc
    }

    /// A name.
    fn lower_path(&mut self, n: usize, e: &'a Expr, r: Repr, ty: TyId) -> (v: Value)
        requires
            old(self).inv(),
        ensures
            (final(self).sem(), v) == x_path(old(self).ctx(), n as nat, old(self).sem(), e.sem(), r.sem(), ty),
            final(self).keeps(old(self)),
            v.0 < final(self).sem().b.values.len(),
        decreases n, e, 5int,
    {
        proof {
            self.inv_means();
        }
        if let ExprKind::Path(p) = &e.kind {
            let ghost ns = names_of(p@);
            assert(e.sem().kind == SExprKind::Path(ns));
            if p.len() == 1 {
                assert(ns[0] == p[0]@);
                if let Some(x) = self.lookup(p[0].as_str()) {
                    let repr = self.repr_of_value(x);
                    if repr.same(&r) {
                        return x;
                    }
                    return self.emit(Op::Cast(x), r, ty);
                }
            }
            let env = self.env;
            if let Some(i) = find_use(&env.const_names, &self.module, p) {
                assert(i < env.consts.len());
                if n > 0 {
                    return self.lower_expr(n - 1, &env.consts[i]);
                }
                return self.note("path-as-value", r, ty);
            }
            if let Some(i) = find_use(&env.fn_names, &self.module, p) {
                assert(i < env.fns.len());
                let m = &env.fns[i];
                let func = mangle(&m.module, m.name.as_str());
                let op = Op::MakeClosure { func, captures: no_values() };
                assert(op.sem() == SOp::MakeClosure { func: func@, captures: seq![] });
                assert(operands(op.sem()) =~= seq![]);
                return self.emit(op, r, ty);
            }
            return self.note("path-as-value", r, ty);
        }
        self.unit(ty)
    }

    fn lower_elem(&mut self, n: usize, e: &'a Elem) -> (v: Value)
        requires
            old(self).inv(),
        ensures
            (final(self).sem(), v) == x_elem(old(self).ctx(), n as nat, old(self).sem(), e.sem()),
            final(self).keeps(old(self)),
            v.0 < final(self).sem().b.values.len(),
        decreases n, e, 1int,
    {
        match e {
            Elem::Value(x) => self.lower_expr(n, x),
            Elem::Spread(x) => self.lower_expr(n, x),
        }
    }

    fn lower_elems(&mut self, n: usize, es: &'a Vec<Elem>) -> (vs: Vec<Value>)
        requires
            old(self).inv(),
        ensures
            (final(self).sem(), vs@) == x_elems(
                old(self).ctx(), n as nat, old(self).sem(),
                sems(es@),
                es@.len() as int,
            ),
            final(self).keeps(old(self)),
            values_below(vs@, final(self).sem().b.values.len()),
        decreases n, es, 0int,
    {
        let ghost s0 = self.sem();
        let ghost c = self.ctx();
        let ghost ss = sems(es@);
        let mut vs: Vec<Value> = Vec::new();
        let mut k: usize = 0;
        while k < es.len()
            invariant
                k <= es.len(),
                s0 == old(self).sem(),
                c == old(self).ctx(),
                ss == sems(es@),
                self.keeps(old(self)),
                (self.sem(), vs@) == x_elems(c, n as nat, s0, ss, k as int),
                values_below(vs@, self.sem().b.values.len()),
            decreases es.len() - k,
        {
            assert(ss[k as int] == es[k as int].sem());
            let ghost before = vs@;
            let v = self.lower_elem(n, &es[k]);
            vs.push(v);
            assert forall|i: int| 0 <= i < vs@.len() implies (#[trigger] vs@[i]).0
                < self.sem().b.values.len() by {
                if i < before.len() {
                    assert(before[i] == vs@[i]);
                }
            }
            k += 1;
        }
        vs
    }

    /// A list.
    fn lower_list(&mut self, n: usize, e: &'a Expr, r: Repr, ty: TyId) -> (v: Value)
        requires
            old(self).inv(),
        ensures
            (final(self).sem(), v) == x_list(old(self).ctx(), n as nat, old(self).sem(), e.sem(), r.sem(), ty),
            final(self).keeps(old(self)),
            v.0 < final(self).sem().b.values.len(),
        decreases n, e, 5int,
    {
        if let ExprKind::List(es) = &e.kind {
            proof {
                lemma_elems_of(es@);
            }
            if spreads(es) {
                return self.note("list spread", r, ty);
            }
            let vs = self.lower_elems(n, es);
            if let Repr::Any = &r {
                let ghost s1 = self.sem();
                let mut rs: Vec<Repr> = Vec::new();
                let mut i: usize = 0;
                while i < vs.len()
                    invariant
                        i <= vs.len(),
                        s1 == self.sem(),
                        values_below(vs@, s1.b.values.len()),
                        rs.len() == i,
                        forall|k: int|
                            0 <= k < i ==> (#[trigger] rs[k]).sem() == repr_at(s1, vs@[k]),
                    decreases vs.len() - i,
                {
                    assert(vs@[i as int].0 < s1.b.values.len());
                    rs.push(self.repr_of_value(vs[i]));
                    i += 1;
                }
                assert(reprs_sem(rs@) =~= layouts_at(s1, vs@));
                let elem = normalize_union(rs);
                let built = self.emit(Op::MakeList(vs), Repr::List(Box::new(elem)), ty);
                return self.emit(Op::Cast(built), r, ty);
            }
            return self.emit(Op::MakeList(vs), r, ty);
        }
        self.unit(ty)
    }

    fn lower_fields(&mut self, n: usize, fs: &'a Vec<FieldInit>, order: &Vec<String>, ty: TyId) -> (vs: Vec<(String, Value)>)
        requires
            old(self).inv(),
        ensures
            (final(self).sem(), named_values_sem(vs@)) == x_fields(
                old(self).ctx(), n as nat, old(self).sem(),
                sems(fs@),
                names_of(order@),
                order@.len() as int,
                ty,
            ),
            final(self).keeps(old(self)),
            named_below(named_values_sem(vs@), final(self).sem().b.values.len()),
        decreases n, fs, 0int,
    {
        let ghost s0 = self.sem();
        let ghost c = self.ctx();
        let ghost ss = sems(fs@);
        let ghost ns = names_of(order@);
        let mut vs: Vec<(String, Value)> = Vec::new();
        let mut k: usize = 0;
        assert(named_values_sem(vs@) =~= seq![]);
        while k < order.len()
            invariant
                k <= order.len(),
                s0 == old(self).sem(),
                c == old(self).ctx(),
                ss == sems(fs@),
                ns == names_of(order@),
                self.keeps(old(self)),
                (self.sem(), named_values_sem(vs@)) == x_fields(
                    c,
                    n as nat,
                    s0,
                    ss,
                    ns,
                    k as int,
                    ty,
                ),
                named_below(named_values_sem(vs@), self.sem().b.values.len()),
            decreases order.len() - k,
        {
            assert(ns[k as int] == order[k as int]@);
            let ghost before = named_values_sem(vs@);
            let v = match find_init(fs, order[k].as_str()) {
                Some(i) => {
                    assert(ss[i as int] == fs[i as int].sem());
                    assert(fs[i as int].sem().value == fs[i as int].value.sem());
                    self.lower_expr(n, &fs[i].value)
                },
                None => {
                    assert(operands(SOp::ConstNull) =~= seq![]);
                    self.emit(Op::ConstNull, Repr::Null, ty)
                },
            };
            vs.push((order[k].clone(), v));
            assert(named_values_sem(vs@) =~= before.push((ns[k as int], v)));
            k += 1;
        }
        vs
    }

    /// A record.
    fn lower_record(&mut self, n: usize, e: &'a Expr, r: Repr, ty: TyId) -> (v: Value)
        requires
            old(self).inv(),
        ensures
            (final(self).sem(), v) == x_record(old(self).ctx(), n as nat, old(self).sem(), e.sem(), r.sem(), ty),
            final(self).keeps(old(self)),
            v.0 < final(self).sem().b.values.len(),
        decreases n, e, 5int,
    {
        if let ExprKind::RecordLit { path, fields, spread } = &e.kind {
            proof {
                lemma_field_inits_of(fields@);
            }
            assert(e.sem().kind->RecordLit_fields == sems(fields@));
            assert(e.sem().kind->RecordLit_path == opt_names_of(*path));
            if spread.is_some() {
                return self.note("record spread", r, ty);
            }
            let order = order_of(fields, &r);
            let built = self.lower_fields(n, fields, &order, ty);
            let name = last_of_opt(path);
            let ghost bs = named_values_sem(built@);
            let op = Op::MakeRecord { name, fields: built };
            assert(op.sem() == SOp::MakeRecord { name: name.sem(), fields: bs });
            assert(values_below(operands(op.sem()), self.sem().b.values.len())) by {
                let os = operands(op.sem());
                assert forall|i: int| 0 <= i < os.len() implies (#[trigger] os[i]).0
                    < self.sem().b.values.len() by {
                    assert(os[i] == bs[i].1);
                }
            }
            return self.emit(op, r, ty);
        }
        self.unit(ty)
    }

    fn lower_operation(&mut self, n: usize, e: &'a Expr, r: Repr, ty: TyId) -> (v: Value)
        requires
            old(self).inv(),
        ensures
            (final(self).sem(), v) == x_operation(old(self).ctx(), n as nat, old(self).sem(), e.sem(), r.sem(), ty),
            final(self).keeps(old(self)),
            v.0 < final(self).sem().b.values.len(),
        decreases n, e, 8int,
    {
        match &e.kind {
            ExprKind::Unary { op, rhs } => {
                let x = self.lower_expr(n, rhs);
                self.emit(Op::Prim(un_prim(*op), one(x)), r, ty)
            },
            ExprKind::Binary { .. } => self.lower_binary(n, e, r, ty),
            ExprKind::Call { args, .. } => {
                proof {
                    lemma_exprs_of(args@);
                }
                let vs = self.lower_exprs(n, args);
                self.lower_call_vals(n, e, vs, r, ty)
            },
            ExprKind::Index { base, index } => {
                let b = self.lower_expr(n, base);
                let i = self.lower_expr(n, index);
                self.emit(Op::Index { base: b, index: i, covered: None }, r, ty)
            },
            ExprKind::Field { base, name } => {
                let b = self.lower_expr(n, base);
                self.emit(Op::Field { base: b, field: name.clone() }, r, ty)
            },
            ExprKind::Is { lhs, ty: spec } => {
                let x = self.lower_expr(n, lhs);
                self.type_test(x, spec, e.id)
            },
            ExprKind::As { form, lhs, ty: spec } => {
                let x = self.lower_expr(n, lhs);
                match form {
                    CastForm::Plain => self.emit(Op::Cast(x), r, ty),
                    CastForm::Assert => self.cast_assert(e.id, x, spec, r, ty),
                    CastForm::Soften => self.cast_soften(e.id, x, spec, r, ty),
                }
            },
            _ => self.unit(ty),
        }
    }

    /// A binary operator.
    fn lower_binary(&mut self, n: usize, e: &'a Expr, r: Repr, ty: TyId) -> (v: Value)
        requires
            old(self).inv(),
        ensures
            (final(self).sem(), v) == x_binary(old(self).ctx(), n as nat, old(self).sem(), e.sem(), r.sem(), ty),
            final(self).keeps(old(self)),
            v.0 < final(self).sem().b.values.len(),
        decreases n, e, 6int,
    {
        if let ExprKind::Binary { op, lhs, rhs } = &e.kind {
            if let Some(p) = bin_prim(*op) {
                let a = self.lower_expr(n, lhs);
                let b = self.lower_expr(n, rhs);
                return self.emit(Op::Prim(p, two(a, b)), r, ty);
            }
            return match op {
                BinOp::And | BinOp::Or => self.lower_and_or(n, e, ty),
                BinOp::Orelse => self.lower_orelse(n, e, r, ty),
                _ => self.lower_pipe(n, e, r, ty),
            };
        }
        self.unit(ty)
    }

    /// `and` and `or`.
    fn lower_and_or(&mut self, n: usize, e: &'a Expr, ty: TyId) -> (v: Value)
        requires
            old(self).inv(),
        ensures
            (final(self).sem(), v) == x_and_or(old(self).ctx(), n as nat, old(self).sem(), e.sem(), ty),
            final(self).keeps(old(self)),
            v.0 < final(self).sem().b.values.len(),
        decreases n, e, 5int,
    {
        if let ExprKind::Binary { op, lhs, rhs } = &e.kind {
            let is_and = match op {
                BinOp::And => true,
                _ => false,
            };
            let l = self.lower_expr(n, lhs);
            let rhs_b = self.new_block();
            let short_b = self.new_block();
            let join = self.new_block();
            let out = self.block_param(join, Repr::Bool, ty);
            if is_and {
                self.branch(l, rhs_b, short_b);
            } else {
                self.branch(l, short_b, rhs_b);
            }
            self.enter(rhs_b);
            let x = self.lower_expr(n, rhs);
            if !self.terminated {
                self.jump(join, one(x));
            }
            self.enter(short_b);
            let k = Op::ConstBool(!is_and);
            assert(operands(k.sem()) =~= seq![]);
            let short = self.emit(k, Repr::Bool, ty);
            self.jump(join, one(short));
            self.enter(join);
            return out;
        }
        self.unit(ty)
    }

    /// `orelse`.
    fn lower_orelse(&mut self, n: usize, e: &'a Expr, r: Repr, ty: TyId) -> (v: Value)
        requires
            old(self).inv(),
        ensures
            (final(self).sem(), v) == x_orelse(old(self).ctx(), n as nat, old(self).sem(), e.sem(), r.sem(), ty),
            final(self).keeps(old(self)),
            v.0 < final(self).sem().b.values.len(),
        decreases n, e, 5int,
    {
        if let ExprKind::Binary { op, lhs, rhs } = &e.kind {
            let l = self.lower_expr(n, lhs);
            let lty = self.ty_of_value(l);
            let none = self.emit(Op::IsNull(l), Repr::Bool, lty);
            let none_b = self.new_block();
            let some_b = self.new_block();
            let join = self.new_block();
            let out = self.block_param(join, r.clone(), ty);
            self.branch(none, none_b, some_b);
            self.enter(none_b);
            let x = self.lower_expr(n, rhs);
            if !self.terminated {
                self.jump(join, one(x));
            }
            self.enter(some_b);
            let unwrapped = self.emit(Op::Cast(l), r, ty);
            self.jump(join, one(unwrapped));
            self.enter(join);
            return out;
        }
        self.unit(ty)
    }

    /// A pipe.
    fn lower_pipe(&mut self, n: usize, e: &'a Expr, r: Repr, ty: TyId) -> (v: Value)
        requires
            old(self).inv(),
        ensures
            (final(self).sem(), v) == x_pipe(old(self).ctx(), n as nat, old(self).sem(), e.sem(), r.sem(), ty),
            final(self).keeps(old(self)),
            v.0 < final(self).sem().b.values.len(),
        decreases n, e, 5int,
    {
        if let ExprKind::Binary { op, lhs, rhs } = &e.kind {
            if let ExprKind::Call { args, .. } = &rhs.kind {
                proof {
                    lemma_exprs_of(args@);
                }
                assert((**rhs).sem().kind is Call);
                assert((**rhs).sem().kind->Call_args == sems(args@));
                let x = self.lower_expr(n, lhs);
                let mut rest = self.lower_exprs(n, args);
                let ghost vs = rest@;
                let mut all = one(x);
                all.append(&mut rest);
                assert(all@ =~= seq![x] + vs);
                assert forall|i: int| 0 <= i < all@.len() implies (#[trigger] all@[i]).0
                    < self.sem().b.values.len() by {
                    if i > 0 {
                        assert(all@[i] == vs[i - 1]);
                    }
                }
                return self.lower_call_vals(n, rhs, all, r, ty);
            }
            return self.note("pipe rhs", r, ty);
        }
        self.unit(ty)
    }

    /// A call, its arguments lowered already.
    fn lower_call_vals(&mut self, n: usize, call: &'a Expr, args: Vec<Value>, r: Repr, ty: TyId) -> (v: Value)
        requires
            old(self).inv(),
            values_below(args@, old(self).sem().b.values.len()),
        ensures
            (final(self).sem(), v) == x_call(old(self).ctx(), n as nat, old(self).sem(), call.sem(), args@, r.sem(), ty),
            final(self).keeps(old(self)),
            v.0 < final(self).sem().b.values.len(),
        decreases n, call, 7int,
    {
        proof {
            self.inv_means();
        }
        if let ExprKind::Call { callee, .. } = &call.kind {
            assert(*(call.sem().kind->Call_callee) == (**callee).sem());
            let facts = self.facts;
            if let Some(res) = resolution_fact(&facts.calls, call.id) {
                assert(facts.calls@[call.id.0 as int] == Some(*res));
                let method = match &callee.kind {
                    ExprKind::Path(p) => last_of(p),
                    _ => "".to_owned(),
                };
                assert(method@ == called_name((**callee).sem()));
                return self.lower_dispatch(res, method.as_str(), args, r, ty);
            }
            if let ExprKind::Path(p) = &callee.kind {
                let ghost ns = names_of(p@);
                assert((**callee).sem().kind == SExprKind::Path(ns));
                if p.len() == 1 {
                    assert(ns[0] == p[0]@);
                    if let Some(x) = self.lookup(p[0].as_str()) {
                        return self.closure_call(callee.id, x, args, r, ty);
                    }
                }
                let env = self.env;
                if let Some(i) = find_use(&env.fn_names, &self.module, p) {
                    assert(i < env.fns.len());
                    assert(sig_wf(*env, env.fns[i as int]));
                    return self.call_fn(&env.fns[i], call.id, args, r, ty);
                }
            }
            let x = self.lower_expr(n, callee);
            assert forall|i: int| 0 <= i < args@.len() implies (#[trigger] args@[i]).0
                < self.sem().b.values.len() by {
                assert(args@[i].0 < old(self).sem().b.values.len());
            }
            return self.closure_call(callee.id, x, args, r, ty);
        }
        self.unit(ty)
    }

    /// Send an error to the innermost handler, or out of the function.
    fn raise(&mut self, err: Value, ty: TyId)
        requires
            old(self).inv(),
            err.0 < old(self).sem().b.values.len(),
        ensures
            final(self).sem() == l_raise(old(self).sem(), err, ty),
            final(self).keeps(old(self)),
    {
        proof {
            self.inv_means_blocks();
        }
        if self.handlers.len() > 0 {
            let h = self.handlers[self.handlers.len() - 1];
            assert(self.sem().handlers[self.handlers.len() - 1].0 < self.sem().b.blocks.len());
            self.jump(h, one(err));
        } else {
            self.throw_or_escape(err, ty);
        }
    }

    fn lower_leave(&mut self, n: usize, e: &'a Expr, ty: TyId) -> (v: Value)
        requires
            old(self).inv(),
        ensures
            (final(self).sem(), v) == x_leave(old(self).ctx(), n as nat, old(self).sem(), e.sem(), ty),
            final(self).keeps(old(self)),
            v.0 < final(self).sem().b.values.len(),
        decreases n, e, 8int,
    {
        match &e.kind {
            ExprKind::Break(x) => {
                let y = match x {
                    Some(x) => self.lower_expr(n, x),
                    None => {
                        assert(operands(SOp::ConstNull) =~= seq![]);
                        self.emit(Op::ConstNull, Repr::Null, ty)
                    },
                };
                self.jump_to_exit(y);
            },
            ExprKind::Continue => self.jump_to_header(),
            ExprKind::Return(x) => {
                let y = match x {
                    Some(x) => Some(self.lower_expr(n, x)),
                    None => None,
                };
                let t = Term::Ret(y);
                assert(t.sem() == STerm::Ret(y));
                assert(targets(t.sem()) =~= seq![]);
                self.terminate(t);
            },
            ExprKind::Throw(x) => {
                let err = self.lower_expr(n, x);
                self.raise(err, ty);
            },
            _ => {},
        }
        self.dead();
        self.value(Repr::Never, ty)
    }

    /// A statement.
    fn lower_stmt(&mut self, n: usize, x: &'a Stmt)
        requires
            old(self).inv(),
        ensures
            final(self).sem() == x_stmt(old(self).ctx(), n as nat, old(self).sem(), x.sem()),
            final(self).keeps(old(self)),
        decreases n, x, 1int,
    {
        proof {
            self.inv_means();
        }
        match &x.kind {
            StmtKind::Let { pat, value, .. } => {
                let mut v = self.lower_expr(n, value);
                if let Some(ty) = ty_fact(&self.facts.declared, value.id) {
                    assert(self.facts.declared@[value.id.0 as int] == Some(ty));
                    let want = self.repr_of_ty(ty);
                    let have = self.repr_of_value(v);
                    if !want.same(&have) {
                        v = self.emit(Op::Cast(v), want, ty);
                    }
                }
                self.bind_pattern(pat, v);
            },
            StmtKind::Assign { name, value } => {
                let v = self.lower_expr(n, value);
                self.bind(name.as_str(), v);
            },
            StmtKind::Expr(e) => {
                self.lower_expr(n, e);
            },
            StmtKind::Error => {},
        }
    }

    fn lower_stmts(&mut self, n: usize, xs: &'a Vec<Stmt>)
        requires
            old(self).inv(),
        ensures
            final(self).sem() == x_stmts(
                old(self).ctx(), n as nat, old(self).sem(),
                sems(xs@),
                xs@.len() as int,
            ),
            final(self).keeps(old(self)),
        decreases n, xs, 0int,
    {
        let ghost s0 = self.sem();
        let ghost c = self.ctx();
        let ghost ss = sems(xs@);
        let mut k: usize = 0;
        while k < xs.len()
            invariant
                k <= xs.len(),
                s0 == old(self).sem(),
                c == old(self).ctx(),
                ss == sems(xs@),
                self.keeps(old(self)),
                self.sem() == x_stmts(c, n as nat, s0, ss, k as int),
            decreases xs.len() - k,
        {
            assert(ss[k as int] == xs[k as int].sem());
            if self.terminated {
                proof {
                    lemma_stmts_end(c, n as nat, s0, ss, k as int, ss.len() as int);
                }
                return ;
            }
            self.lower_stmt(n, &xs[k]);
            k += 1;
        }
    }

    /// The statements of a block and its last expression, in the scope that is there.
    fn lower_block_inline(&mut self, n: usize, b: &'a Block) -> (v: Option<Value>)
        requires
            old(self).inv(),
        ensures
            (final(self).sem(), v) == x_body(old(self).ctx(), n as nat, old(self).sem(), b.sem()),
            final(self).keeps(old(self)),
            v matches Some(x) ==> x.0 < final(self).sem().b.values.len(),
        decreases n, b, 4int,
    {
        proof {
            lemma_stmts_of(b.stmts@);
        }
        self.lower_stmts(n, &b.stmts);
        match &b.tail {
            Some(e) => if self.terminated {
                None
            } else {
                Some(self.lower_expr(n, e))
            },
            None => None,
        }
    }

    /// The variables that a block rebinds and that are bound around it.
    fn carried_vars(&self, b: &Block) -> (r: Vec<String>)
        requires
            self.inv(),
        ensures
            names_of(r@) == rebound(self.sem(), assigned_block(b.sem(), seq![])),
    {
        let names: Vec<String> = Vec::new();
        assert(names_of(names@) =~= seq![]);
        let names = collect_assigns_block(b, names);
        self.carried(&names)
    }

    /// The variables that a loop over a list rebinds and that are bound around it.
    fn carried_round(&self, pat: &Pattern, b: &Block) -> (r: Vec<String>)
        requires
            self.inv(),
        ensures
            names_of(r@) == rebound(self.sem(), assigned_round(pat.sem(), b.sem())),
    {
        let names = collect_assigns_round(pat, b);
        self.carried(&names)
    }

    /// A block, in a scope of its own.
    pub fn lower_block(&mut self, n: usize, b: &'a Block) -> (v: Option<Value>)
        requires
            old(self).inv(),
        ensures
            (final(self).sem(), v) == x_block(old(self).ctx(), n as nat, old(self).sem(), b.sem()),
            final(self).keeps(old(self)),
            v matches Some(x) ==> x.0 < final(self).sem().b.values.len(),
        decreases n, b, 5int,
    {
        let names = self.carried_vars(b);
        self.push_scope();
        let v = self.lower_block_inline(n, b);
        let vs = self.lookup_all(&names);
        self.pop_scope();
        self.bind_all(&names, &vs);
        v
    }

    /// What a way passes on.
    fn passes(&self, v: Option<Value>, names: &Vec<String>) -> (args: Vec<Value>)
        requires
            self.inv(),
            v matches Some(x) ==> x.0 < self.sem().b.values.len(),
        ensures
            args@ == passed(self.sem(), v, names_of(names@)),
            values_below(args@, self.sem().b.values.len()),
    {
        let mut args = match v {
            Some(x) => one(x),
            None => no_values(),
        };
        let mut rest = self.lookup_all(names);
        let ghost (a, b) = (args@, rest@);
        args.append(&mut rest);
        assert(args@ =~= a + b);
        assert forall|i: int| 0 <= i < args@.len() implies (#[trigger] args@[i]).0
            < self.sem().b.values.len() by {
            if i >= a.len() {
                assert(args@[i] == b[i - a.len()]);
            }
        }
        args
    }

    /// `if`.
    fn lower_if(&mut self, n: usize, e: &'a Expr, r: Repr, ty: TyId) -> (v: Value)
        requires
            old(self).inv(),
        ensures
            (final(self).sem(), v) == x_if(old(self).ctx(), n as nat, old(self).sem(), e.sem(), r.sem(), ty),
            final(self).keeps(old(self)),
            v.0 < final(self).sem().b.values.len(),
        decreases n, e, 5int,
    {
        if let ExprKind::If { cond, then, else_ } = &e.kind {
            let none: Vec<String> = Vec::new();
            assert(names_of(none@) =~= seq![]);
            let assigned = collect_assigns_expr(else_, collect_assigns_block(then, none));
            assert(names_of(assigned@) == assigned_opt(
                else_.sem(),
                assigned_block(then.sem(), seq![]),
            ));
            assert(e.sem().kind->If_else_ == else_.sem());
            let names = self.carried(&assigned);
            let cv = self.lower_expr(n, cond);
            let then_b = self.new_block();
            let else_b = self.new_block();
            let join = self.new_block();
            let is_unit = match &r {
                Repr::Unit => true,
                _ => false,
            };
            let produces = !is_unit && else_.is_some();
            let out = if produces {
                Some(self.block_param(join, r, ty))
            } else {
                None
            };
            let now = self.lookup_all(&names);
            let ps = self.params_like(join, &now);
            self.branch(cv, then_b, else_b);
            self.enter(then_b);
            self.lower_then(n, then, &names, join, produces, ty);
            self.enter(else_b);
            self.lower_else(n, else_, &names, join, produces);
            self.enter(join);
            assert forall|i: int| 0 <= i < ps@.len() implies (#[trigger] ps@[i]).0
                < self.sem().b.values.len() by {}
            self.bind_all(&names, &ps);
            return match out {
                Some(v) => v,
                None => self.unit(ty),
            };
        }
        self.unit(ty)
    }

    fn lower_then(&mut self, n: usize, b: &'a Block, names: &Vec<String>, join: BlockId, produces: bool, ty: TyId)
        requires
            old(self).inv(),
            join.0 < old(self).sem().b.blocks.len(),
        ensures
            final(self).sem() == x_then(old(self).ctx(), n as nat, old(self).sem(), b.sem(), names_of(names@), join, produces, ty),
            final(self).keeps(old(self)),
        decreases n, b, 6int,
    {
        self.push_scope();
        let t = self.lower_block_inline(n, b);
        if !self.terminated {
            if produces {
                let v = match t {
                    Some(v) => v,
                    None => self.unit(ty),
                };
                let args = self.passes(Some(v), names);
                self.jump(join, args);
            } else {
                let args = self.passes(None, names);
                self.jump(join, args);
            }
        }
        self.pop_scope();
    }

    fn lower_else(&mut self, n: usize, e: &'a Option<Box<Expr>>, names: &Vec<String>, join: BlockId, produces: bool)
        requires
            old(self).inv(),
            join.0 < old(self).sem().b.blocks.len(),
        ensures
            final(self).sem() == x_else(old(self).ctx(), n as nat, old(self).sem(), e.sem(), names_of(names@), join, produces),
            final(self).keeps(old(self)),
        decreases n, e, 6int,
    {
        match e {
            Some(x) => {
                self.push_scope();
                let v = self.lower_expr(n, x);
                if !self.terminated {
                    let given = if produces {
                        Some(v)
                    } else {
                        None
                    };
                    let args = self.passes(given, names);
                    self.jump(join, args);
                }
                self.pop_scope();
            },
            None => {
                let args = self.passes(None, names);
                self.jump(join, args);
            },
        }
    }

    /// `match`.
    fn lower_match(&mut self, n: usize, e: &'a Expr, r: Repr, ty: TyId) -> (v: Value)
        requires
            old(self).inv(),
        ensures
            (final(self).sem(), v) == x_match(old(self).ctx(), n as nat, old(self).sem(), e.sem(), r.sem(), ty),
            final(self).keeps(old(self)),
            v.0 < final(self).sem().b.values.len(),
        decreases n, e, 5int,
    {
        if let ExprKind::Match { scrutinee, arms } = &e.kind {
            proof {
                lemma_match_arms_of(arms@);
            }
            let subj = self.lower_expr(n, scrutinee);
            let join = self.new_block();
            let is_unit = match &r {
                Repr::Unit => true,
                _ => false,
            };
            let out = if is_unit {
                None
            } else {
                Some(self.block_param(join, r, ty))
            };
            self.lower_arms(n, arms, subj, join, out.is_some());
            let t = Term::Unreachable;
            assert(targets(t.sem()) =~= seq![]);
            assert(term_operands(t.sem()) =~= seq![]);
            self.terminate(t);
            self.enter(join);
            return match out {
                Some(v) => v,
                None => self.unit(ty),
            };
        }
        self.unit(ty)
    }

    fn lower_arms(&mut self, n: usize, xs: &'a Vec<MatchArm>, subj: Value, join: BlockId, produces: bool)
        requires
            old(self).inv(),
            subj.0 < old(self).sem().b.values.len(),
            join.0 < old(self).sem().b.blocks.len(),
        ensures
            final(self).sem() == x_arms(
                old(self).ctx(), n as nat, old(self).sem(),
                sems(xs@),
                xs@.len() as int,
                subj,
                join,
                produces,
            ),
            final(self).keeps(old(self)),
        decreases n, xs, 0int,
    {
        let ghost s0 = self.sem();
        let ghost c = self.ctx();
        let ghost ss = sems(xs@);
        let mut k: usize = 0;
        while k < xs.len()
            invariant
                k <= xs.len(),
                s0 == old(self).sem(),
                c == old(self).ctx(),
                ss == sems(xs@),
                subj.0 < s0.b.values.len(),
                join.0 < s0.b.blocks.len(),
                self.keeps(old(self)),
                self.sem() == x_arms(c, n as nat, s0, ss, k as int, subj, join, produces),
            decreases xs.len() - k,
        {
            assert(ss[k as int] == xs[k as int].sem());
            self.lower_arm(n, &xs[k], subj, join, produces);
            k += 1;
        }
    }

    fn lower_arm(&mut self, n: usize, a: &'a MatchArm, subj: Value, join: BlockId, produces: bool)
        requires
            old(self).inv(),
            subj.0 < old(self).sem().b.values.len(),
            join.0 < old(self).sem().b.blocks.len(),
        ensures
            final(self).sem() == x_arm(old(self).ctx(), n as nat, old(self).sem(), a.sem(), subj, join, produces),
            final(self).keeps(old(self)),
        decreases n, a, 1int,
    {
        let matched = self.new_block();
        let next = self.new_block();
        match self.pattern_test(n, subj, &a.pat) {
            Some(t) => self.branch(t, matched, next),
            None => self.jump(matched, no_values()),
        }
        self.enter(matched);
        self.push_scope();
        self.bind_pattern(&a.pat, subj);
        if let Some(g) = &a.guard {
            let gv = self.lower_expr(n, g);
            let body_b = self.new_block();
            self.branch(gv, body_b, next);
            self.enter(body_b);
        }
        let v = self.lower_expr(n, &a.body);
        if !self.terminated {
            if produces {
                self.jump(join, one(v));
            } else {
                self.jump(join, no_values());
            }
        }
        self.pop_scope();
        self.enter(next);
    }

    /// Both of two tests.
    fn both(&mut self, a: Option<Value>, b: Option<Value>) -> (v: Option<Value>)
        requires
            old(self).inv(),
            a matches Some(x) ==> x.0 < old(self).sem().b.values.len(),
            b matches Some(x) ==> x.0 < old(self).sem().b.values.len(),
        ensures
            (final(self).sem(), v) == l_both(old(self).sem(), a, b),
            final(self).keeps(old(self)),
            v matches Some(x) ==> x.0 < final(self).sem().b.values.len(),
    {
        match (a, b) {
            (Some(x), Some(y)) => {
                let ty = self.ty_of_value(y);
                Some(self.emit(Op::Prim(PrimOp::And, two(x, y)), Repr::Bool, ty))
            },
            (None, Some(y)) => Some(y),
            (_, None) => a,
        }
    }

    /// Whether a value fits a pattern.
    fn pattern_test(&mut self, n: usize, subj: Value, p: &'a Pattern) -> (v: Option<Value>)
        requires
            old(self).inv(),
            subj.0 < old(self).sem().b.values.len(),
        ensures
            (final(self).sem(), v) == x_test(old(self).ctx(), n as nat, old(self).sem(), subj, p.sem()),
            final(self).keeps(old(self)),
            v matches Some(x) ==> x.0 < final(self).sem().b.values.len(),
        decreases n, p, 4int,
    {
        match &p.kind {
            PatternKind::Is(spec) => Some(self.type_test(subj, spec, p.id)),
            PatternKind::Literal(lit) => Some(self.literal_test(n, subj, lit)),
            PatternKind::Record { path, fields, .. } => {
                proof {
                    lemma_field_pats_of(fields@);
                }
                assert(p.sem().kind->Record_fields == sems(fields@));
                assert(p.sem().kind->Record_path == opt_names_of(*path));
                let t = match last_of_opt(path) {
                    Some(name) => {
                        let tested = self.tested(p.id);
                        let ty = self.ty_of_value(subj);
                        let op = Op::IsVariant { value: subj, variant: name, tested };
                        assert(op.sem() == SOp::IsVariant {
                            value: subj,
                            variant: name@,
                            tested: tested.sem(),
                        });
                        Some(self.emit(op, Repr::Bool, ty))
                    },
                    None => None,
                };
                self.field_tests(n, subj, fields, t)
            },
            PatternKind::Tuple(ps) => {
                proof {
                    lemma_patterns_of(ps@);
                }
                self.elem_tests(n, subj, ps)
            },
            _ => None,
        }
    }

    fn field_test(&mut self, n: usize, subj: Value, f: &'a FieldPat, t: Option<Value>) -> (v: Option<Value>)
        requires
            old(self).inv(),
            subj.0 < old(self).sem().b.values.len(),
            t matches Some(x) ==> x.0 < old(self).sem().b.values.len(),
        ensures
            (final(self).sem(), v) == x_field_test(old(self).ctx(), n as nat, old(self).sem(), subj, f.sem(), t),
            final(self).keeps(old(self)),
            v matches Some(x) ==> x.0 < final(self).sem().b.values.len(),
        decreases n, f, 1int,
    {
        match &f.pat {
            Some(p) => {
                let v = self.field(subj, f.name.as_str());
                let u = self.pattern_test(n, v, p);
                self.both(t, u)
            },
            None => t,
        }
    }

    fn field_tests(&mut self, n: usize, subj: Value, fs: &'a Vec<FieldPat>, t: Option<Value>) -> (v: Option<Value>)
        requires
            old(self).inv(),
            subj.0 < old(self).sem().b.values.len(),
            t matches Some(x) ==> x.0 < old(self).sem().b.values.len(),
        ensures
            (final(self).sem(), v) == x_field_tests(
                old(self).ctx(), n as nat, old(self).sem(),
                subj,
                sems(fs@),
                fs@.len() as int,
                t,
            ),
            final(self).keeps(old(self)),
            v matches Some(x) ==> x.0 < final(self).sem().b.values.len(),
        decreases n, fs, 0int,
    {
        let ghost s0 = self.sem();
        let ghost c = self.ctx();
        let ghost ss = sems(fs@);
        let mut u = t;
        let mut k: usize = 0;
        while k < fs.len()
            invariant
                k <= fs.len(),
                s0 == old(self).sem(),
                c == old(self).ctx(),
                ss == sems(fs@),
                subj.0 < s0.b.values.len(),
                self.keeps(old(self)),
                (self.sem(), u) == x_field_tests(c, n as nat, s0, subj, ss, k as int, t),
                u matches Some(x) ==> x.0 < self.sem().b.values.len(),
            decreases fs.len() - k,
        {
            assert(ss[k as int] == fs[k as int].sem());
            u = self.field_test(n, subj, &fs[k], u);
            k += 1;
        }
        u
    }

    fn elem_tests(&mut self, n: usize, subj: Value, ps: &'a Vec<Pattern>) -> (v: Option<Value>)
        requires
            old(self).inv(),
            subj.0 < old(self).sem().b.values.len(),
        ensures
            (final(self).sem(), v) == x_elem_tests(
                old(self).ctx(), n as nat, old(self).sem(),
                subj,
                sems(ps@),
                ps@.len() as int,
            ),
            final(self).keeps(old(self)),
            v matches Some(x) ==> x.0 < final(self).sem().b.values.len(),
        decreases n, ps, 0int,
    {
        let ghost s0 = self.sem();
        let ghost c = self.ctx();
        let ghost ss = sems(ps@);
        let mut u: Option<Value> = None;
        let mut k: usize = 0;
        while k < ps.len()
            invariant
                k <= ps.len(),
                s0 == old(self).sem(),
                c == old(self).ctx(),
                ss == sems(ps@),
                subj.0 < s0.b.values.len(),
                self.keeps(old(self)),
                (self.sem(), u) == x_elem_tests(c, n as nat, s0, subj, ss, k as int),
                u matches Some(x) ==> x.0 < self.sem().b.values.len(),
            decreases ps.len() - k,
        {
            assert(ss[k as int] == ps[k as int].sem());
            let v = self.elem(subj, k);
            let w = self.pattern_test(n, v, &ps[k]);
            u = self.both(u, w);
            k += 1;
        }
        u
    }

    /// Whether a value is a literal.
    fn literal_test(&mut self, n: usize, subj: Value, lit: &'a Expr) -> (v: Value)
        requires
            old(self).inv(),
            subj.0 < old(self).sem().b.values.len(),
        ensures
            (final(self).sem(), v) == x_literal_test(old(self).ctx(), n as nat, old(self).sem(), subj, lit.sem()),
            final(self).keeps(old(self)),
            v.0 < final(self).sem().b.values.len(),
        decreases n, lit, 10int,
    {
        let bty = self.ty_of_value(subj);
        if let ExprKind::Null = &lit.kind {
            return self.emit(Op::IsNull(subj), Repr::Bool, bty);
        }
        let repr = self.repr_of_value(subj);
        let scalar = scalar_of(&repr);
        let x = match &lit.kind {
            ExprKind::Int(i) => {
                let op = Op::ConstI64(
                    #[verifier::truncate]
                    (*i as i64),
                );
                assert(operands(op.sem()) =~= seq![]);
                self.emit(op, scalar, bty)
            },
            ExprKind::Bool(b) => {
                let op = Op::ConstBool(*b);
                assert(operands(op.sem()) =~= seq![]);
                self.emit(op, scalar, bty)
            },
            ExprKind::Atom(a) => {
                let op = Op::ConstAtom(a.clone());
                assert(operands(op.sem()) =~= seq![]);
                self.emit(op, Repr::Tag, bty)
            },
            _ => self.lower_expr(n, lit),
        };
        self.emit(Op::Prim(PrimOp::Eq, two(subj, x)), Repr::Bool, bty)
    }

    /// The body of a loop, and round again.
    fn round(&mut self, n: usize, b: &'a Block)
        requires
            old(self).inv(),
        ensures
            final(self).sem() == x_round(old(self).ctx(), n as nat, old(self).sem(), b.sem()),
            final(self).keeps(old(self)),
        decreases n, b, 6int,
    {
        self.lower_block_inline(n, b);
        if !self.terminated {
            self.jump_to_header();
        }
    }

    /// `loop`.
    fn lower_loop(&mut self, n: usize, e: &'a Expr, r: Repr, ty: TyId) -> (v: Value)
        requires
            old(self).inv(),
        ensures
            (final(self).sem(), v) == x_loop(old(self).ctx(), n as nat, old(self).sem(), e.sem(), r.sem(), ty),
            final(self).keeps(old(self)),
            v.0 < final(self).sem().b.values.len(),
        decreases n, e, 5int,
    {
        if let ExprKind::Loop { body } = &e.kind {
            let names = self.carried_vars(body);
            let inits = self.lookup_all(&names);
            let header = self.new_block();
            let exit = self.new_block();
            let is_unit = match &r {
                Repr::Unit => true,
                _ => false,
            };
            let out = if is_unit {
                None
            } else {
                Some(self.block_param(exit, r, ty))
            };
            let (hs, xs) = self.params_like2(header, exit, &inits);
            self.jump(header, inits);
            self.enter(header);
            self.push_scope();
            self.bind_all(&names, &hs);
            let l = LoopCtx {
                continue_target: header,
                exit,
                carried: copy_names(&names),
                has_value: out.is_some(),
            };
            let ghost ls0 = self.sem().loops;
            self.push_loop(l);
            self.round(n, body);
            assert(self.sem().loops.drop_last() =~= ls0);
            self.pop_loop();
            self.pop_scope();
            assert forall|i: int| 0 <= i < xs@.len() implies (#[trigger] xs@[i]).0
                < self.sem().b.values.len() by {}
            self.bind_all(&names, &xs);
            self.enter(exit);
            return match out {
                Some(v) => v,
                None => self.unit(ty),
            };
        }
        self.unit(ty)
    }

    /// `while`.
    fn lower_while(&mut self, n: usize, e: &'a Expr, ty: TyId) -> (v: Value)
        requires
            old(self).inv(),
        ensures
            (final(self).sem(), v) == x_while(old(self).ctx(), n as nat, old(self).sem(), e.sem(), ty),
            final(self).keeps(old(self)),
            v.0 < final(self).sem().b.values.len(),
        decreases n, e, 5int,
    {
        if let ExprKind::While { cond, body } = &e.kind {
            let names = self.carried_vars(body);
            let inits = self.lookup_all(&names);
            let header = self.new_block();
            let body_b = self.new_block();
            let exit = self.new_block();
            let (hs, xs) = self.params_like2(header, exit, &inits);
            self.jump(header, inits);
            self.enter(header);
            self.push_scope();
            self.bind_all(&names, &hs);
            let cv = self.lower_expr(n, cond);
            self.branch_with(cv, body_b, exit, &hs);
            self.enter(body_b);
            let l = LoopCtx {
                continue_target: header,
                exit,
                carried: copy_names(&names),
                has_value: false,
            };
            let ghost ls0 = self.sem().loops;
            self.push_loop(l);
            self.round(n, body);
            assert(self.sem().loops.drop_last() =~= ls0);
            self.pop_loop();
            self.pop_scope();
            assert forall|i: int| 0 <= i < xs@.len() implies (#[trigger] xs@[i]).0
                < self.sem().b.values.len() by {}
            self.bind_all(&names, &xs);
            self.enter(exit);
            return self.unit(ty);
        }
        self.unit(ty)
    }

    /// Branch into a loop's body, or out of it with the variables that it carries.
    fn branch_with(&mut self, cond: Value, then: BlockId, els: BlockId, args: &Vec<Value>)
        requires
            old(self).inv(),
            cond.0 < old(self).sem().b.values.len(),
            then.0 < old(self).sem().b.blocks.len(),
            els.0 < old(self).sem().b.blocks.len(),
            values_below(args@, old(self).sem().b.values.len()),
        ensures
            final(self).sem() == l_end(
                old(self).sem(),
                STerm::Branch {
                    cond,
                    then: STarget { to: then, args: seq![] },
                    els: STarget { to: els, args: args@ },
                },
            ),
            final(self).keeps(old(self)),
    {
        let t = Term::Branch {
            cond,
            then: Target { to: then, args: no_values() },
            els: Target { to: els, args: copy_values(args) },
        };
        assert(t.sem() == STerm::Branch {
            cond,
            then: STarget { to: then, args: seq![] },
            els: STarget { to: els, args: args@ },
        });
        assert(term_operands(t.sem()) =~= seq![cond] + args@);
        assert forall|i: int| 0 <= i < term_operands(t.sem()).len() implies (
        #[trigger] term_operands(t.sem())[i]).0 < self.sem().b.values.len() by {
            if i > 0 {
                assert(term_operands(t.sem())[i] == args@[i - 1]);
            }
        }
        self.terminate(t);
    }

    /// `for`.
    fn lower_for(&mut self, n: usize, e: &'a Expr, ty: TyId) -> (v: Value)
        requires
            old(self).inv(),
        ensures
            (final(self).sem(), v) == x_for(old(self).ctx(), n as nat, old(self).sem(), e.sem(), ty),
            final(self).keeps(old(self)),
            v.0 < final(self).sem().b.values.len(),
        decreases n, e, 5int,
    {
        if let ExprKind::For { pat, iter, body } = &e.kind {
            let list = self.lower_expr(n, iter);
            let repr = self.repr_of_value(list);
            let elem = match &repr {
                Repr::List(x) => (**x).clone(),
                _ => Repr::Any,
            };
            let len = self.emit(
                Op::Native { symbol: "neon_list_len".to_owned(), args: one(list) },
                Repr::I64,
                ty,
            );
            assert(operands(SOp::ConstI64(0)) =~= seq![]);
            let zero = self.emit(Op::ConstI64(0), Repr::I64, ty);
            return self.for_loop(n, e, list, elem, len, zero, ty);
        }
        self.unit(ty)
    }

    /// Add one to the index of a `for`, and go round.
    fn latch(&mut self, header: BlockId, index: Value, ls: Vec<Value>, ty: TyId)
        requires
            old(self).inv(),
            header.0 < old(self).sem().b.blocks.len(),
            index.0 < old(self).sem().b.values.len(),
            values_below(ls@, old(self).sem().b.values.len()),
        ensures
            final(self).sem() == l_latch(old(self).sem(), header, index, ls@, ty),
            final(self).keeps(old(self)),
    {
        assert(operands(SOp::ConstI64(1)) =~= seq![]);
        let step = self.emit(Op::ConstI64(1), Repr::I64, ty);
        let next = self.emit(Op::Prim(PrimOp::Add, two(index, step)), Repr::I64, ty);
        let back = with_first(next, ls);
        assert forall|i: int| 0 <= i < back@.len() implies (#[trigger] back@[i]).0
            < self.sem().b.values.len() by {
            if i > 0 {
                assert(back@[i] == ls@[i - 1]);
            }
        }
        self.jump(header, back);
    }

    /// The header of a `for`.
    fn for_header(
        &mut self,
        names: &Vec<String>,
        hs: &Vec<Value>,
        index: Value,
        len: Value,
        body_b: BlockId,
        exit: BlockId,
        ty: TyId,
    )
        requires
            old(self).inv(),
            values_below(hs@, old(self).sem().b.values.len()),
            index.0 < old(self).sem().b.values.len(),
            len.0 < old(self).sem().b.values.len(),
            body_b.0 < old(self).sem().b.blocks.len(),
            exit.0 < old(self).sem().b.blocks.len(),
        ensures
            final(self).sem() == l_for_header(
                old(self).sem(),
                names_of(names@),
                hs@,
                index,
                len,
                body_b,
                exit,
                ty,
            ),
            final(self).keeps(old(self)),
    {
        self.bind_all(names, hs);
        let cv = self.emit(Op::Prim(PrimOp::Lt, two(index, len)), Repr::Bool, ty);
        assert forall|i: int| 0 <= i < hs@.len() implies (#[trigger] hs@[i]).0
            < self.sem().b.values.len() by {}
        self.branch_with(cv, body_b, exit, hs);
    }

    /// One round of a `for`.
    fn for_round(&mut self, n: usize, e: &'a Expr, list: Value, index: Value, elem: Repr, l: LoopCtx, ty: TyId)
        requires
            old(self).inv(),
            list.0 < old(self).sem().b.values.len(),
            index.0 < old(self).sem().b.values.len(),
            l.continue_target.0 < old(self).sem().b.blocks.len(),
            l.exit.0 < old(self).sem().b.blocks.len(),
        ensures
            final(self).sem() == x_for_round(old(self).ctx(), n as nat, old(self).sem(), e.sem(), list, index, elem.sem(), l.sem(), ty),
            final(self).keeps(old(self)),
        decreases n, e, 3int,
    {
        if let ExprKind::For { pat, body, .. } = &e.kind {
            self.push_scope();
            let x = self.emit(Op::Index { base: list, index, covered: None }, elem, ty);
            self.bind_pattern(pat, x);
            let ghost ls0 = self.sem().loops;
            self.push_loop(l);
            self.round(n, body);
            assert(self.sem().loops.drop_last() =~= ls0);
            self.pop_loop();
            self.pop_scope();
        }
    }

    fn for_loop(&mut self, n: usize, e: &'a Expr, list: Value, elem: Repr, len: Value, zero: Value, ty: TyId) -> (v: Value)
        requires
            old(self).inv(),
            list.0 < old(self).sem().b.values.len(),
            len.0 < old(self).sem().b.values.len(),
            zero.0 < old(self).sem().b.values.len(),
        ensures
            (final(self).sem(), v) == x_for_loop(old(self).ctx(), n as nat, old(self).sem(), e.sem(), list, elem.sem(), len, zero, ty),
            final(self).keeps(old(self)),
            v.0 < final(self).sem().b.values.len(),
        decreases n, e, 4int,
    {
        if let ExprKind::For { pat, iter, body } = &e.kind {
            let names = self.carried_round(pat, body);
            let inits = self.lookup_all(&names);
            let header = self.new_block();
            let body_b = self.new_block();
            let latch = self.new_block();
            let exit = self.new_block();
            let index = self.block_param(header, Repr::I64, ty);
            let (hs, xs) = self.params_like2(header, exit, &inits);
            let ls = self.params_like(latch, &inits);
            let ghost n0 = self.sem().b.values.len();
            let first = with_first(zero, inits);
            assert forall|i: int| 0 <= i < first@.len() implies (#[trigger] first@[i]).0 < n0 by {
                if i > 0 {
                    assert(first@[i] == inits@[i - 1]);
                }
            }
            self.jump(header, first);
            self.enter(header);
            self.push_scope();
            self.for_header(&names, &hs, index, len, body_b, exit, ty);
            self.enter(body_b);
            let l = LoopCtx {
                continue_target: latch,
                exit,
                carried: copy_names(&names),
                has_value: false,
            };
            self.for_round(n, e, list, index, elem, l, ty);
            self.enter(latch);
            assert forall|i: int| 0 <= i < ls@.len() implies (#[trigger] ls@[i]).0
                < self.sem().b.values.len() by {}
            self.latch(header, index, ls, ty);
            self.pop_scope();
            assert forall|i: int| 0 <= i < xs@.len() implies (#[trigger] xs@[i]).0
                < self.sem().b.values.len() by {}
            self.bind_all(&names, &xs);
            self.enter(exit);
            return self.unit(ty);
        }
        self.unit(ty)
    }

    /// `try`.
    fn lower_try(&mut self, n: usize, e: &'a Expr, r: Repr, ty: TyId) -> (v: Value)
        requires
            old(self).inv(),
            ty_in_range(*old(self).env, ty),
        ensures
            (final(self).sem(), v) == x_try(old(self).ctx(), n as nat, old(self).sem(), e.sem(), r.sem(), ty),
            final(self).keeps(old(self)),
            v.0 < final(self).sem().b.values.len(),
        decreases n, e, 5int,
    {
        proof {
            self.inv_means();
        }
        if let ExprKind::Try { form, body, catch } = &e.kind {
            let join = self.new_block();
            let out = self.block_param(join, r, ty);
            let handler = self.new_block();
            let err_ty = match ty_fact(&self.facts.caught, e.id) {
                Some(t) => {
                    assert(self.facts.caught@[e.id.0 as int] == Some(t));
                    t
                },
                None => ty,
            };
            let err_repr = self.repr_of_ty(err_ty);
            let err = self.block_param(handler, err_repr, err_ty);
            let ghost hs0 = self.sem().handlers;
            self.push_handler(handler);
            let v = self.lower_expr(n, body);
            if !self.terminated {
                self.jump(join, one(v));
            }
            assert(self.sem().handlers.drop_last() =~= hs0);
            self.pop_handler();
            self.enter(handler);
            self.handle(n, *form, catch, err, join, ty);
            self.enter(join);
            return out;
        }
        self.unit(ty)
    }

    /// What becomes of an error that a `try` catches.
    fn handle(&mut self, n: usize, form: TryForm, catch: &'a Option<CatchArm>, err: Value, join: BlockId, ty: TyId)
        requires
            old(self).inv(),
            err.0 < old(self).sem().b.values.len(),
            join.0 < old(self).sem().b.blocks.len(),
        ensures
            final(self).sem() == x_handle(old(self).ctx(), n as nat, old(self).sem(), form, catch.sem(), err, join, ty),
            final(self).keeps(old(self)),
        decreases n, catch, 6int,
    {
        match catch {
            Some(arm) => {
                self.push_scope();
                self.bind(arm.binding.as_str(), err);
                let w = match self.lower_block(n, &arm.body) {
                    Some(w) => w,
                    None => self.unit(ty),
                };
                if !self.terminated {
                    self.jump(join, one(w));
                }
                self.pop_scope();
            },
            None => match form {
                TryForm::Propagate => self.raise(err, ty),
                TryForm::Soften => {
                    assert(operands(SOp::ConstNull) =~= seq![]);
                    let none = self.emit(Op::ConstNull, Repr::Null, ty);
                    self.jump(join, one(none));
                },
                TryForm::Assert => {
                    let msg = self.error_message(err, ty);
                    self.panic(msg);
                },
            },
        }
    }

    /// Assertions.
    fn lower_assert(&mut self, n: usize, e: &'a Expr, ty: TyId) -> (v: Value)
        requires
            old(self).inv(),
        ensures
            (final(self).sem(), v) == x_assert(old(self).ctx(), n as nat, old(self).sem(), e.sem(), ty),
            final(self).keeps(old(self)),
            v.0 < final(self).sem().b.values.len(),
        decreases n, e, 5int,
    {
        if let ExprKind::Assert { kind, args } = &e.kind {
            proof {
                lemma_exprs_of(args@);
            }
            let ghost ss = sems(args@);
            assert(e.sem().kind->Assert_args == ss);
            return match kind {
                AssertKind::Throws => self.note("assert_throws", Repr::Unit, ty),
                AssertKind::Assert => {
                    if args.len() == 0 {
                        return self.unit(ty);
                    }
                    assert(ss[0] == args[0].sem());
                    self.lower_assert_one(n, &args[0], ty)
                },
                AssertKind::Eq => {
                    if args.len() < 2 {
                        return self.unit(ty);
                    }
                    assert(ss[0] == args[0].sem());
                    assert(ss[1] == args[1].sem());
                    let l = self.lower_expr(n, &args[0]);
                    let r = self.lower_expr(n, &args[1]);
                    let cv = self.emit(Op::Prim(PrimOp::Eq, two(l, r)), Repr::Bool, ty);
                    let text = describe_two(&args[0], " == ", &args[1]);
                    self.check(cv, Some((l, r)), text.as_str(), ty)
                },
                AssertKind::Ne => {
                    if args.len() < 2 {
                        return self.unit(ty);
                    }
                    assert(ss[0] == args[0].sem());
                    assert(ss[1] == args[1].sem());
                    let l = self.lower_expr(n, &args[0]);
                    let r = self.lower_expr(n, &args[1]);
                    let cv = self.emit(Op::Prim(PrimOp::Ne, two(l, r)), Repr::Bool, ty);
                    let text = describe_two(&args[0], " != ", &args[1]);
                    self.check(cv, Some((l, r)), text.as_str(), ty)
                },
            };
        }
        self.unit(ty)
    }

    fn lower_assert_one(&mut self, n: usize, e: &'a Expr, ty: TyId) -> (v: Value)
        requires
            old(self).inv(),
        ensures
            (final(self).sem(), v) == x_assert_one(old(self).ctx(), n as nat, old(self).sem(), e.sem(), ty),
            final(self).keeps(old(self)),
            v.0 < final(self).sem().b.values.len(),
        decreases n, e, 10int,
    {
        let text = describe(e);
        if let ExprKind::Binary { op, lhs, rhs } = &e.kind {
            if let Some(p) = comparison_prim(*op) {
                let l = self.lower_expr(n, lhs);
                let r = self.lower_expr(n, rhs);
                let cv = self.emit(Op::Prim(p, two(l, r)), Repr::Bool, ty);
                return self.check(cv, Some((l, r)), text.as_str(), ty);
            }
        }
        let cv = self.lower_expr(n, e);
        self.check(cv, None, text.as_str(), ty)
    }
}

} // verus!
