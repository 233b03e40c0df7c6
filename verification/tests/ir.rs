use neon::ast::{
    Annotation, BinOp, Block, Decl, DeclKind, Elem, Expr, ExprId, ExprKind, FnDecl, Module,
    PatternKind, StmtKind, StrPart, TestKind, TryForm, TypeSpec, TypeSpecKind, UnOp,
};
use neon::check::consistent::is_consistent;
use neon::check::{Env, Facts, FnSig, ImplDef, NameUse, Resolution};
use neon::ir::effects::{analyze, Purity};
use neon::ir::lower::describe::describe;
use neon::ir::lower::names::{key_of, mangle, mangle_impl, mangle_instance};
use neon::ir::lower::scan::{collect_free_expr, Found};
use neon::ir::lower::subst::{match_repr, substitute_repr, Subst};
use neon::ir::lower::{lower_module, lower_module_with, test_entries};
use neon::ir::opt::fold::{fold_bool, fold_int};
use neon::ir::opt::optimize;
use neon::ir::refcount::insert;
use neon::ir::repr::Repr;
use neon::ir::room::{edges_of, is_well_formed};
use neon::ir::ssa::{print, Block as IrBlock, BlockId, Inst, Op, PrimOp, Program, Term, Value};
use neon::ir::{compile, compile_benches, compile_checked, compile_tests, cover, partial, unique, Stage};
use neon::types::{ArrowAtom, AtomSet, Path, RecAtom, TupAtom, TyData, TyId, Types};
use neon::{lexer, parser};

/// A table of types that is filled as types are asked for.
struct Table {
    t: Types,
}

fn no_atoms() -> AtomSet {
    AtomSet { neg: false, names: vec![] }
}

fn nothing() -> TyData {
    TyData {
        integer: false,
        float: false,
        string: false,
        boolean: false,
        null: false,
        atoms: no_atoms(),
        vars: no_atoms(),
        records: vec![],
        tuples: vec![],
        arrows: vec![],
    }
}

fn merged(a: &[u32], b: &[u32]) -> Vec<u32> {
    let mut r = a.to_vec();
    for x in b {
        if !r.contains(x) {
            r.push(*x);
        }
    }
    r
}

fn copied_paths(ps: &[Path]) -> Vec<Path> {
    ps.iter().map(|p| Path { pos: p.pos.clone(), neg: p.neg.clone() }).collect()
}

fn joined_paths(a: &[Path], b: &[Path]) -> Vec<Path> {
    let mut r = copied_paths(a);
    for p in copied_paths(b) {
        if !r.contains(&p) {
            r.push(p);
        }
    }
    r
}

fn joined(a: &TyData, b: &TyData) -> TyData {
    TyData {
        integer: a.integer || b.integer,
        float: a.float || b.float,
        string: a.string || b.string,
        boolean: a.boolean || b.boolean,
        null: a.null || b.null,
        atoms: AtomSet { neg: a.atoms.neg || b.atoms.neg, names: merged(&a.atoms.names, &b.atoms.names) },
        vars: AtomSet { neg: a.vars.neg || b.vars.neg, names: merged(&a.vars.names, &b.vars.names) },
        records: joined_paths(&a.records, &b.records),
        tuples: joined_paths(&a.tuples, &b.tuples),
        arrows: joined_paths(&a.arrows, &b.arrows),
    }
}

impl Table {
    fn new() -> Table {
        let mut t = Table {
            t: Types {
                names: vec!["#nominal".to_string()],
                data: vec![],
                rec_atoms: vec![],
                tup_atoms: vec![],
                arrow_atoms: vec![],
                nominal_label: 0,
                runtime_types: vec![],
            },
        };
        t.never();
        t
    }

    fn intern(&mut self, d: TyData) -> TyId {
        let at = self.t.data.iter().position(|x| *x == d).unwrap_or_else(|| {
            self.t.data.push(d);
            self.t.data.len() - 1
        });
        TyId(at as u32)
    }

    fn never(&mut self) -> TyId {
        self.intern(nothing())
    }

    fn i64(&mut self) -> TyId {
        self.intern(TyData { integer: true, ..nothing() })
    }

    fn f64(&mut self) -> TyId {
        self.intern(TyData { float: true, ..nothing() })
    }

    fn str(&mut self) -> TyId {
        self.intern(TyData { string: true, ..nothing() })
    }

    fn bool(&mut self) -> TyId {
        self.intern(TyData { boolean: true, ..nothing() })
    }

    fn null(&mut self) -> TyId {
        self.intern(TyData { null: true, ..nothing() })
    }

    fn name(&mut self, n: &str) -> u32 {
        let at = self.t.names.iter().position(|x| x == n).unwrap_or_else(|| {
            self.t.names.push(n.to_string());
            self.t.names.len() - 1
        });
        at as u32
    }

    fn atom(&mut self, n: u32) -> TyId {
        self.intern(TyData { atoms: AtomSet { neg: false, names: vec![n] }, ..nothing() })
    }

    fn var(&mut self, n: u32) -> TyId {
        self.intern(TyData { vars: AtomSet { neg: false, names: vec![n] }, ..nothing() })
    }

    fn union(&mut self, a: TyId, b: TyId) -> TyId {
        let d = joined(&self.t.data[a.0 as usize], &self.t.data[b.0 as usize]);
        self.intern(d)
    }

    fn record(&mut self, fields: Vec<(u32, TyId)>) -> TyId {
        let atom = RecAtom { fields };
        let at = self.t.rec_atoms.iter().position(|x| *x == atom).unwrap_or_else(|| {
            self.t.rec_atoms.push(atom);
            self.t.rec_atoms.len() - 1
        });
        self.intern(TyData { records: vec![Path { pos: vec![at as u32], neg: vec![] }], ..nothing() })
    }

    fn nominal(&mut self, n: u32, args: Vec<TyId>, fields: Vec<(u32, TyId)>) -> TyId {
        let tag = self.atom(n);
        let mut all = vec![(self.t.nominal_label, tag)];
        for (i, a) in args.into_iter().enumerate() {
            let label = self.name(&format!("#{i}"));
            all.push((label, a));
        }
        all.extend(fields);
        self.record(all)
    }

    fn tuple(&mut self, elems: Vec<TyId>) -> TyId {
        let atom = TupAtom { elems };
        let at = self.t.tup_atoms.iter().position(|x| *x == atom).unwrap_or_else(|| {
            self.t.tup_atoms.push(atom);
            self.t.tup_atoms.len() - 1
        });
        self.intern(TyData { tuples: vec![Path { pos: vec![at as u32], neg: vec![] }], ..nothing() })
    }

    fn arrow(&mut self, params: Vec<TyId>, throws: TyId, ret: TyId) -> TyId {
        let atom = ArrowAtom { params, throws, ret };
        let at = self.t.arrow_atoms.iter().position(|x| *x == atom).unwrap_or_else(|| {
            self.t.arrow_atoms.push(atom);
            self.t.arrow_atoms.len() - 1
        });
        self.intern(TyData { arrows: vec![Path { pos: vec![at as u32], neg: vec![] }], ..nothing() })
    }
}

/// Checks small programs: no modules, no inference beyond what is written or plain to see.
struct Checker<'a> {
    t: Table,
    decls: &'a [Decl],
    env_fns: Vec<FnSig>,
    protocols: Vec<String>,
    /// The protocol that a method belongs to, and what the method returns.
    methods: Vec<(String, usize, Option<&'a TypeSpec>)>,
    impls: Vec<ImplDef>,
    facts: Facts,
    scope: Vec<(String, TyId)>,
    generics: Vec<String>,
    ret: TyId,
    breaks: Vec<Option<TyId>>,
}

fn at<T>(table: &mut Vec<Option<T>>, id: ExprId, value: T) {
    let i = id.0 as usize;
    while table.len() <= i {
        table.push(None);
    }
    table[i] = Some(value);
}

fn annotated<'a>(f: &'a FnDecl, name: &str) -> Option<&'a Annotation> {
    f.annotations.iter().find(|a| a.name == name)
}

impl<'a> Checker<'a> {
    fn new(decls: &'a [Decl]) -> Checker<'a> {
        let mut t = Table::new();
        let ret = t.never();
        Checker {
            t,
            decls,
            env_fns: vec![],
            protocols: vec![],
            methods: vec![],
            impls: vec![],
            facts: Facts {
                types: vec![],
                declared: vec![],
                calls: vec![],
                interp_calls: vec![],
                generics: vec![],
                caught: vec![],
                tested: vec![],
                floats: vec![],
            },
            scope: vec![],
            generics: vec![],
            ret,
            breaks: vec![],
        }
    }

    fn unit(&mut self) -> TyId {
        self.t.tuple(vec![])
    }

    fn list(&mut self, elem: TyId) -> TyId {
        let n = self.t.name("List");
        self.t.nominal(n, vec![elem], vec![])
    }

    fn named(&mut self, name: &str, args: &'a [TypeSpec]) -> TyId {
        match name {
            "i64" => return self.t.i64(),
            "f64" => return self.t.f64(),
            "str" => return self.t.str(),
            "bool" => return self.t.bool(),
            _ => {}
        }
        let n = self.t.name(name);
        if self.generics.iter().any(|g| g == name) {
            return self.t.var(n);
        }
        let args: Vec<TyId> = args.iter().map(|a| self.ty(a)).collect();
        for d in self.decls {
            match &d.kind {
                DeclKind::Record(r) if r.name == name => {
                    let fields: Vec<(u32, TyId)> = r
                        .fields
                        .iter()
                        .map(|f| {
                            let ty = self.ty(&f.ty);
                            (self.t.name(&f.name), ty)
                        })
                        .collect();
                    return self.t.nominal(n, args, fields);
                }
                DeclKind::TypeAlias(a) if a.name == name => return self.ty(&a.value),
                DeclKind::Newtype(a) if a.name == name => {
                    let inner = self.ty(&a.value);
                    let label = self.t.name("#inner");
                    return self.t.nominal(n, args, vec![(label, inner)]);
                }
                _ => {}
            }
        }
        panic!("no type {name}")
    }

    fn ty(&mut self, s: &'a TypeSpec) -> TyId {
        match &s.kind {
            TypeSpecKind::Named { path, args } => self.named(path.last().expect("a name"), args),
            TypeSpecKind::Null => self.t.null(),
            TypeSpecKind::Atom(a) => {
                let n = self.t.name(a);
                self.t.atom(n)
            }
            TypeSpecKind::Tuple(ts) => {
                let ts: Vec<TyId> = ts.iter().map(|x| self.ty(x)).collect();
                self.t.tuple(ts)
            }
            TypeSpecKind::Union(ts) => {
                let mut u = self.t.never();
                for x in ts {
                    let y = self.ty(x);
                    u = self.t.union(u, y);
                }
                u
            }
            TypeSpecKind::Fn { params, throws, ret } => {
                let ps: Vec<TyId> = params.iter().map(|x| self.ty(x)).collect();
                let th = match throws {
                    Some(x) => self.ty(x),
                    None => self.t.never(),
                };
                let r = self.ty(ret);
                self.t.arrow(ps, th, r)
            }
            other => panic!("type {other:?}"),
        }
    }

    fn sig(&mut self, f: &'a FnDecl) -> FnSig {
        let outer = std::mem::replace(&mut self.generics, f.generics.clone());
        let params: Vec<(String, TyId)> =
            f.params.iter().map(|p| (p.name.clone(), self.ty(&p.ty))).collect();
        let throws = match &f.throws {
            Some(x) => self.ty(x),
            None => self.t.never(),
        };
        let ret = match &f.ret {
            Some(x) => self.ty(x),
            None => self.unit(),
        };
        self.generics = outer;
        FnSig {
            module: vec![],
            name: f.name.clone(),
            generics: f.generics.clone(),
            params,
            throws,
            ret,
            native: annotated(f, "native").and_then(|a| a.arg.clone()),
            pure: annotated(f, "pure").is_some(),
            inline: annotated(f, "inline").is_some(),
            has_body: f.body.is_some(),
        }
    }

    fn declare(&mut self) {
        for d in self.decls {
            match &d.kind {
                DeclKind::Fn(f) => {
                    let s = self.sig(f);
                    self.env_fns.push(s);
                }
                DeclKind::Protocol(p) => {
                    for m in &p.methods {
                        self.methods.push((m.name.clone(), self.protocols.len(), m.ret.as_ref()));
                    }
                    self.protocols.push(p.name.clone());
                }
                _ => {}
            }
        }
        for d in self.decls {
            if let DeclKind::Impl(i) = &d.kind {
                let name = i.protocol.last().expect("a protocol");
                let protocol = self.protocols.iter().position(|p| p == name).expect("declared");
                let target = self.ty(&i.target);
                let methods: Vec<FnSig> = i.methods.iter().map(|m| self.sig(m)).collect();
                let TypeSpecKind::Named { path, .. } = &i.target.kind else { panic!("a name") };
                self.impls.push(ImplDef {
                    protocol,
                    module: vec![],
                    target_head: path.last().cloned(),
                    target: Some(target),
                    methods,
                });
            }
        }
    }

    fn bodies(&mut self) {
        for d in self.decls {
            match &d.kind {
                DeclKind::Fn(f) => self.body(f),
                DeclKind::Impl(i) => {
                    for m in &i.methods {
                        self.body(m);
                    }
                }
                DeclKind::TestBlock(t) => {
                    self.scope = vec![];
                    self.block(&t.body, None);
                }
                _ => {}
            }
        }
    }

    fn body(&mut self, f: &'a FnDecl) {
        let Some(body) = &f.body else { return };
        self.generics = f.generics.clone();
        let sig = self.sig(f);
        self.scope = sig.params.clone();
        self.ret = sig.ret;
        self.block(body, Some(sig.ret));
        self.generics = vec![];
    }

    fn block(&mut self, b: &'a Block, want: Option<TyId>) -> TyId {
        let depth = self.scope.len();
        let mut gone = false;
        let never = self.t.never();
        for s in &b.stmts {
            match &s.kind {
                StmtKind::Let { pat, ty, value } => {
                    let declared = ty.as_ref().map(|x| self.ty(x));
                    let mut v = self.expr(value, declared);
                    if let Some(d) = declared {
                        at(&mut self.facts.declared, value.id, d);
                        v = d;
                    }
                    if let PatternKind::Bind(n) = &pat.kind {
                        self.scope.push((n.clone(), v));
                    }
                }
                StmtKind::Assign { value, .. } => {
                    self.expr(value, None);
                }
                StmtKind::Expr(e) => gone |= self.expr(e, None) == never,
                StmtKind::Error => panic!("a bad statement"),
            }
        }
        let r = match &b.tail {
            Some(e) => self.expr(e, want),
            None => self.unit(),
        };
        self.scope.truncate(depth);
        if gone {
            never
        } else {
            r
        }
    }

    fn local(&self, n: &str) -> Option<TyId> {
        self.scope.iter().rev().find(|(m, _)| m == n).map(|(_, t)| *t)
    }

    fn without_null(&mut self, ty: TyId) -> TyId {
        let mut d = joined(&nothing(), &self.t.t.data[ty.0 as usize]);
        d.null = false;
        self.t.intern(d)
    }

    /// What a type variable stands for, where a parameter of that type gets an argument.
    fn solve(&self, param: TyId, arg: TyId, out: &mut Vec<(String, TyId)>) {
        let p = &self.t.t.data[param.0 as usize];
        if let [v] = p.vars.names.as_slice() {
            out.push((self.t.t.names[*v as usize].clone(), arg));
        }
        let a = &self.t.t.data[arg.0 as usize];
        if let ([x], [y]) = (p.records.as_slice(), a.records.as_slice()) {
            let (x, y) =
                (&self.t.t.rec_atoms[x.pos[0] as usize], &self.t.t.rec_atoms[y.pos[0] as usize]);
            for (f, g) in x.fields.iter().zip(&y.fields) {
                self.solve(f.1, g.1, out);
            }
        }
    }

    fn impl_of(&self, protocol: usize, ty: TyId) -> Option<usize> {
        self.impls.iter().position(|i| i.protocol == protocol && i.target == Some(ty))
    }

    fn is_var(&self, ty: TyId) -> bool {
        !self.t.t.data[ty.0 as usize].vars.names.is_empty()
    }

    fn call(&mut self, e: &'a Expr, first: Option<TyId>) -> TyId {
        let ExprKind::Call { callee, args, .. } = &e.kind else { panic!("a call") };
        let ExprKind::Path(p) = &callee.kind else { panic!("a name is called") };
        let mut tys: Vec<TyId> = first.into_iter().collect();
        for a in args {
            tys.push(self.expr(a, None));
        }
        let name = p.last().expect("a name");
        let fun = self.env_fns.iter().position(|f| f.name == *name);
        if let Some(ty) = self.local(name) {
            at(&mut self.facts.types, callee.id, ty);
            let path = &self.t.t.data[ty.0 as usize].arrows[0];
            return self.t.t.arrow_atoms[path.pos[0] as usize].ret;
        }
        if let Some(i) = fun {
            let mut solved = vec![];
            for (p, a) in self.env_fns[i].params.iter().zip(&tys) {
                self.solve(p.1, *a, &mut solved);
            }
            let ret = self.env_fns[i].ret;
            if self.env_fns[i].params.first().map(|p| p.1) == Some(ret) {
                return tys[0];
            }
            let vars = &self.t.t.data[ret.0 as usize].vars.names;
            if let [v] = vars.as_slice() {
                let n = &self.t.t.names[*v as usize];
                return solved.iter().find(|(m, _)| m == n).expect("solved").1;
            }
            return ret;
        }
        let (protocol, ret) =
            self.methods.iter().find(|(m, _, _)| m == name).map(|(_, p, r)| (*p, *r)).expect("declared");
        let res = if self.is_var(tys[0]) {
            Resolution::Bound(protocol)
        } else {
            Resolution::Direct(self.impl_of(protocol, tys[0]).expect("implemented"))
        };
        at(&mut self.facts.calls, e.id, res);
        match ret {
            Some(r) => self.ty(r),
            None => self.unit(),
        }
    }

    fn throws_of(&self, e: &'a Expr) -> Option<TyId> {
        let ExprKind::Call { callee, .. } = &e.kind else { return None };
        let ExprKind::Path(p) = &callee.kind else { return None };
        self.env_fns.iter().find(|f| Some(&f.name) == p.last()).map(|f| f.throws)
    }

    fn field(&mut self, ty: TyId, name: &str) -> TyId {
        let n = self.t.name(name);
        let path = &self.t.t.data[ty.0 as usize].records[0];
        self.t.t.rec_atoms[path.pos[0] as usize].fields.iter().find(|f| f.0 == n).expect("a field").1
    }

    fn expr(&mut self, e: &'a Expr, want: Option<TyId>) -> TyId {
        let ty = self.typed(e, want);
        at(&mut self.facts.types, e.id, ty);
        ty
    }

    fn typed(&mut self, e: &'a Expr, want: Option<TyId>) -> TyId {
        let never = self.t.never();
        match &e.kind {
            ExprKind::Int(_) => self.t.i64(),
            ExprKind::Float(s) => {
                let bits = s.parse::<f64>().expect("a float").to_bits();
                at(&mut self.facts.floats, e.id, bits);
                self.t.f64()
            }
            ExprKind::Bool(_) => self.t.bool(),
            ExprKind::Null => self.t.null(),
            ExprKind::Str(parts) => {
                for p in parts {
                    if let StrPart::Interp(x) = p {
                        let ty = self.expr(x, None);
                        let display = self.protocols.iter().position(|p| p == "Display");
                        if let Some(i) = display.and_then(|p| self.impl_of(p, ty)) {
                            at(&mut self.facts.interp_calls, x.id, Resolution::Direct(i));
                        }
                    }
                }
                self.t.str()
            }
            ExprKind::Path(p) => self.local(p.last().expect("a name")).expect("bound"),
            ExprKind::Tuple(xs) => {
                let ts: Vec<TyId> = xs.iter().map(|x| self.expr(x, None)).collect();
                self.t.tuple(ts)
            }
            ExprKind::List(xs) => {
                let mut elem = never;
                for x in xs {
                    if let Elem::Value(v) = x {
                        elem = self.expr(v, None);
                    }
                }
                self.list(elem)
            }
            ExprKind::Index { base, index } => {
                let list = self.expr(base, None);
                self.expr(index, None);
                self.field(list, "#0")
            }
            ExprKind::RecordLit { path, fields, spread } => {
                for f in fields {
                    self.expr(&f.value, None);
                }
                if let Some(x) = spread {
                    self.expr(x, None);
                }
                let n = path.as_ref().and_then(|p| p.last()).expect("a name");
                self.named(n, &[])
            }
            ExprKind::Lambda { params, body } => {
                let arrow = want.expect("the type of a lambda is known");
                let path = self.t.t.data[arrow.0 as usize].arrows[0].pos[0] as usize;
                let depth = self.scope.len();
                for (i, p) in params.iter().enumerate() {
                    let ty = self.t.t.arrow_atoms[path].params[i];
                    self.scope.push((p.name.clone(), ty));
                }
                self.expr(body, None);
                self.scope.truncate(depth);
                arrow
            }
            ExprKind::Unary { op, rhs } => {
                let ty = self.expr(rhs, None);
                match op {
                    UnOp::Neg => ty,
                    _ => self.t.bool(),
                }
            }
            ExprKind::Binary { op, lhs, rhs } => match op {
                BinOp::Pipe => {
                    let first = self.expr(lhs, None);
                    let ty = self.call(rhs, Some(first));
                    at(&mut self.facts.types, rhs.id, ty);
                    ty
                }
                BinOp::Orelse => {
                    let l = self.expr(lhs, None);
                    let r = self.expr(rhs, None);
                    let l = self.without_null(l);
                    self.t.union(l, r)
                }
                BinOp::Add | BinOp::Sub | BinOp::Mul | BinOp::Div | BinOp::Rem => {
                    let ty = self.expr(lhs, None);
                    self.expr(rhs, None);
                    ty
                }
                _ => {
                    self.expr(lhs, None);
                    self.expr(rhs, None);
                    self.t.bool()
                }
            },
            ExprKind::Call { .. } => self.call(e, None),
            ExprKind::Field { base, name } => {
                let ty = self.expr(base, None);
                self.field(ty, name)
            }
            ExprKind::As { lhs, ty, .. } => {
                self.expr(lhs, None);
                let ty = self.ty(ty);
                at(&mut self.facts.tested, e.id, ty);
                ty
            }
            ExprKind::If { cond, then, else_ } => {
                self.expr(cond, None);
                let a = self.block(then, want);
                let b = match else_ {
                    Some(x) => self.expr(x, want),
                    None => self.unit(),
                };
                match else_ {
                    Some(_) => self.t.union(a, b),
                    None => b,
                }
            }
            ExprKind::Match { scrutinee, arms } => {
                let mut left = self.expr(scrutinee, None);
                let mut all = never;
                for arm in arms {
                    let depth = self.scope.len();
                    match &arm.pat.kind {
                        PatternKind::Is(spec) => {
                            let ty = self.ty(spec);
                            at(&mut self.facts.tested, arm.pat.id, ty);
                            if let ExprKind::Path(p) = &scrutinee.kind {
                                self.scope.push((p[0].clone(), ty));
                            }
                            if matches!(spec.kind, TypeSpecKind::Null) {
                                left = self.without_null(left);
                            }
                        }
                        PatternKind::Bind(n) => self.scope.push((n.clone(), left)),
                        PatternKind::Literal(x) => {
                            self.expr(x, None);
                        }
                        _ => {}
                    }
                    let ty = self.expr(&arm.body, want);
                    all = self.t.union(all, ty);
                    self.scope.truncate(depth);
                }
                all
            }
            ExprKind::Loop { body } => {
                self.breaks.push(None);
                self.block(body, None);
                match self.breaks.pop() {
                    Some(Some(ty)) => ty,
                    _ => never,
                }
            }
            ExprKind::While { cond, body } => {
                self.breaks.push(None);
                self.expr(cond, None);
                self.block(body, None);
                self.breaks.pop();
                self.unit()
            }
            ExprKind::For { pat, iter, body } => {
                let list = self.expr(iter, None);
                let elem = self.field(list, "#0");
                let depth = self.scope.len();
                if let PatternKind::Bind(n) = &pat.kind {
                    self.scope.push((n.clone(), elem));
                }
                self.breaks.push(None);
                self.block(body, None);
                self.breaks.pop();
                self.scope.truncate(depth);
                self.unit()
            }
            ExprKind::Block(b) => self.block(b, want),
            ExprKind::Break(v) => {
                if let Some(v) = v {
                    let ty = self.expr(v, None);
                    *self.breaks.last_mut().expect("in a loop") = Some(ty);
                }
                never
            }
            ExprKind::Continue => never,
            ExprKind::Return(v) => {
                if let Some(v) = v {
                    let ret = self.ret;
                    self.expr(v, Some(ret));
                }
                never
            }
            ExprKind::Throw(x) => {
                self.expr(x, None);
                never
            }
            ExprKind::Try { form, body, catch } => {
                let ty = self.expr(body, None);
                let err = self.throws_of(body).unwrap_or(never);
                at(&mut self.facts.caught, e.id, err);
                if let Some(c) = catch {
                    self.scope.push((c.binding.clone(), err));
                    self.block(&c.body, want);
                    self.scope.pop();
                }
                match form {
                    TryForm::Soften => {
                        let n = self.t.null();
                        self.t.union(ty, n)
                    }
                    _ => ty,
                }
            }
            ExprKind::Assert { args, .. } => {
                for a in args {
                    self.expr(a, None);
                }
                self.unit()
            }
            other => panic!("expression {other:?}"),
        }
    }
}

fn checked(src: &str) -> (Module, Env, Facts) {
    let tokens = lexer::lex(src).expect("lexes");
    let (module, errors) = parser::parse(&tokens, src.len());
    assert!(errors.is_empty(), "parse errors: {errors:?}");
    let module = module.expect("parses");
    let mut c = Checker::new(&module.decls);
    c.declare();
    c.bodies();
    let fn_names: Vec<NameUse> = c
        .env_fns
        .iter()
        .enumerate()
        .map(|(index, f)| NameUse { module: vec![], path: vec![f.name.clone()], index })
        .collect();
    let env = Env {
        types: c.t.t,
        fns: c.env_fns,
        fn_names,
        consts: vec![],
        const_names: vec![],
        type_names: vec![],
        protocols: c.protocols,
        impls: c.impls,
    };
    let facts = c.facts;
    (module, env, facts)
}

fn lowered(src: &str) -> Program {
    let (module, env, facts) = checked(src);
    lower_module(&env, &facts, &module, &vec![])
}

/// The printed form of a lowered program.
fn lower(src: &str) -> String {
    print::program(&lowered(src))
}

fn optimized(src: &str) -> String {
    let mut program = lowered(src);
    optimize(&mut program);
    print::program(&program)
}

fn refcounted(src: &str) -> String {
    let mut program = lowered(src);
    insert(&mut program);
    print::program(&program)
}

fn analyze_src(src: &str) -> Purity {
    analyze(&lowered(src))
}

// ---- lowering ----

#[test]
fn arithmetic_and_a_direct_call() {
    let ir = lower("fn add(x: i64, y: i64) -> i64 { x + y }\nfn use_it() -> i64 { add(2, 3) }");
    assert_eq!(
        ir,
        "\
fn @add(%0 i64, %1 i64) -> i64 {
  block0:
    %2 = prim.add %0, %1
    ret %2
}

fn @use_it() -> i64 {
  block0:
    %0 = const.i64 2
    %1 = const.i64 3
    %2 = call @add(%0, %1)
    ret %2
}
"
    );
}

#[test]
fn an_if_becomes_blocks_with_a_join_argument() {
    let ir = lower("fn pick(c: bool) -> i64 { if c { 1 } else { 2 } }");
    assert_eq!(
        ir,
        "\
fn @pick(%0 bool) -> i64 {
  block0:
    branch %0, block1, block2
  block1:
    %2 = const.i64 1
    jump block3(%2)
  block2:
    %3 = const.i64 2
    jump block3(%3)
  block3(%1 i64):
    ret %1
}
"
    );
}

#[test]
fn a_let_binds_a_value_and_a_return_terminates() {
    let ir = lower("fn f(x: i64) -> i64 { let y = x + 1; return y; }");
    assert_eq!(
        ir,
        "\
fn @f(%0 i64) -> i64 {
  block0:
    %1 = const.i64 1
    %2 = prim.add %0, %1
    ret %2
}
"
    );
}

#[test]
fn a_void_function_returns_nothing() {
    let ir = lower("fn effectless(x: i64) { let y = x + 1; }");
    assert_eq!(
        ir,
        "\
fn @effectless(%0 i64) -> () {
  block0:
    %1 = const.i64 1
    %2 = prim.add %0, %1
    ret
}
"
    );
}

#[test]
fn native_calls_and_native_impl_dispatch() {
    let ir = lower(
        "protocol Display for T { fn to_string(v: T) -> str }
         impl Display for i64 { @native(\"neon_i64_to_string\") fn to_string(v: i64) -> str }
         @native(\"neon_io_println\") fn println(s: str)
         fn main() { println(to_string(42)); }",
    );
    // main lowers to two native calls, the inner dispatched to the i64 impl.
    assert!(ir.contains("native \"neon_i64_to_string\"(%0)"), "{ir}");
    assert!(ir.contains("native \"neon_io_println\"(%1)"), "{ir}");
}

#[test]
fn records_fields_and_tuples() {
    let ir = lower(
        "record Point { x: i64, y: i64 }
         fn mk() -> Point { Point { x: 1, y: 2 } }
         fn getx(p: Point) -> i64 { p.x }
         fn pair() -> (i64, i64) { (3, 4) }",
    );
    assert!(ir.contains("record Point{x: %0, y: %1}"), "{ir}");
    assert!(ir.contains("field %0.x"), "{ir}");
    assert!(ir.contains("tuple (%0, %1)"), "{ir}");
}

#[test]
fn a_list_literal_builds_a_list() {
    let ir = lower("opaque record List[T] {}\nfn nums() -> List[i64] { [5, 6] }");
    assert!(ir.contains("list [%0, %1]"), "{ir}");
}

#[test]
fn a_sum_type_match_becomes_a_decision_list() {
    let ir = lower(
        "record Circle { r: i64 }
         record Rect { w: i64, h: i64 }
         type Shape = Circle | Rect
         fn area(s: Shape) -> i64 {
             match s { is Circle => s.r, is Rect => 1 }
         }",
    );
    assert!(ir.contains("is_variant %0 Circle"), "{ir}");
    assert!(ir.contains("is_variant"), "{ir}");
    assert!(ir.contains("branch"), "{ir}");
}

#[test]
fn a_nullable_match_tests_null() {
    let ir = lower(
        "fn add_one(v: i64 | null) -> i64 { match v { is null => -1, n => n + 1 } }",
    );
    assert!(ir.contains("is_null %0"), "{ir}");
}

#[test]
fn a_literal_match_compares_equality() {
    let ir = lower("fn n(x: i64) -> i64 { match x { 1 => 10, _ => 0 } }");
    assert!(ir.contains("const.i64 1"), "{ir}");
    assert!(ir.contains("prim.eq"), "{ir}");
}

#[test]
fn a_loop_carries_reassigned_variables_as_block_args() {
    let ir = lower(
        "fn count() -> i64 {
             let i = 0;
             loop {
                 if i >= 10 { break i; }
                 i = i + 1;
             }
         }",
    );
    // The header takes the carried `i`, the back-edge and break pass it.
    assert!(ir.contains("jump block"), "{ir}");
    assert!(ir.contains("i64):"), "block param for carried i: {ir}");
}

#[test]
fn a_while_loop_tests_its_condition_in_the_header() {
    let ir = lower(
        "fn f() { let i = 0; while i < 3 { i = i + 1; } }",
    );
    assert!(ir.contains("prim.lt"), "{ir}");
    assert!(ir.contains("branch"), "{ir}");
}

#[test]
fn short_circuit_and_orelse_and_pipe() {
    let ir = lower(
        "fn both(a: bool, b: bool) -> bool { a and b }
         fn def(v: i64 | null) -> i64 { v orelse 0 }
         fn dbl(x: i64) -> i64 { x + x }
         fn piped(x: i64) -> i64 { x |> dbl() }",
    );
    // `and` short-circuits through blocks; `orelse` null-tests; pipe becomes a call.
    assert!(ir.contains("branch"), "and short-circuit: {ir}");
    assert!(ir.contains("is_null"), "orelse: {ir}");
    assert!(ir.contains("call @dbl(%0)"), "pipe: {ir}");
}

#[test]
fn a_cast_reinterprets() {
    let ir = lower("newtype Meter = f64\nfn m(x: f64) -> Meter { x as Meter }");
    assert!(ir.contains("cast %0"), "{ir}");
}

#[test]
fn try_and_throw_lower_to_tagged_result_control_flow() {
    let ir = lower(
        "record Bad { msg: str }
         fn risky(n: i64) throws Bad -> i64 { if n < 0 { throw Bad { msg: \"neg\" } } else { n } }
         fn use_propagate(n: i64) throws Bad -> i64 { try risky(n) }
         fn use_soften(n: i64) -> i64 { (try? risky(n)) orelse 0 }
         fn use_catch(n: i64) -> i64 { try risky(n) catch (e) { -1 } }",
    );
    // A throwing call is checked and, on error, jumps to a handler; throw terminates.
    assert!(ir.contains("is_err"), "{ir}");
    assert!(ir.contains("unwrap_ok"), "{ir}");
    assert!(ir.contains("throw %"), "propagate re-throws: {ir}");
}

#[test]
fn string_interpolation_builds_via_to_string_and_concat() {
    let ir = lower(
        "protocol Display for T { fn to_string(v: T) -> str }
         impl Display for i64 { @native(\"neon_i64_to_string\") fn to_string(v: i64) -> str }
         fn show(n: i64) -> str { \"n = #{n}\" }",
    );
    assert!(ir.contains("neon_i64_to_string"), "{ir}");
    assert!(ir.contains("neon_str_concat"), "{ir}");
}

#[test]
fn a_for_loop_indexes_the_list_with_a_carried_accumulator() {
    let ir = lower(
        "opaque record List[T] {}
         @native(\"neon_list_len\") fn len[T](xs: List[T]) -> i64
         fn total(xs: List[i64]) -> i64 {
             let sum = 0;
             for x in xs { sum = sum + x; }
             sum
         }",
    );
    assert!(ir.contains("neon_list_len"), "{ir}");
    assert!(ir.contains("index %"), "element read: {ir}");
    assert!(ir.contains("prim.lt"), "bound check: {ir}");
    assert!(ir.contains("prim.add"), "increment + accumulate: {ir}");
}

#[test]
fn a_lambda_captures_and_lowers_as_its_own_function() {
    let ir = lower(
        "fn adder(n: i64) -> (i64) -> i64 { (x) => x + n }",
    );
    // The lambda becomes its own function that unpacks `n` from the env; the parent
    // builds a closure capturing `n`.
    assert!(ir.contains("closure @lambda$"), "make closure: {ir}");
    assert!(ir.contains("fn @lambda$"), "lambda function: {ir}");
    assert!(ir.contains("elem %0.0"), "unpack capture from env: {ir}");
}

#[test]
fn user_impl_dispatch_calls_the_lowered_method() {
    let ir = lower(
        "protocol Area for T { fn area(s: T) -> i64 }
         record Sq { side: i64 }
         impl Area for Sq { fn area(s: Sq) -> i64 { s.side * s.side } }
         fn use_it(s: Sq) -> i64 { area(s) }",
    );
    // The impl method is lowered as its own function, and dispatch calls it by name.
    assert!(ir.contains("fn @Area$Sq$area"), "impl method lowered: {ir}");
    assert!(ir.contains("call @Area$Sq$area"), "dispatch calls it: {ir}");
}

#[test]
fn a_generic_function_is_specialised_per_instance() {
    let ir = lower(
        "fn identity[T](x: T) -> T { x }
         fn use_i(n: i64) -> i64 { identity(n) }
         fn use_s(s: str) -> str { identity(s) }",
    );
    // Two instances: identity$i64 and identity$str, each called by name.
    assert!(ir.contains("fn @identity$i64"), "i64 instance: {ir}");
    assert!(ir.contains("fn @identity$str"), "str instance: {ir}");
    assert!(ir.contains("call @identity$i64"), "{ir}");
    assert!(ir.contains("call @identity$str"), "{ir}");
    assert!(!ir.contains("'T"), "no type variable left after mono: {ir}");
}

#[test]
fn a_where_bound_is_discharged_to_the_concrete_impl() {
    let ir = lower(
        "protocol Display for T { fn to_string(v: T) -> str }
         impl Display for i64 { @native(\"neon_i64_to_string\") fn to_string(v: i64) -> str }
         fn show[T](v: T) -> str where T: Display { to_string(v) }
         fn use_it(n: i64) -> str { show(n) }",
    );
    // Inside show$i64, the bound `to_string` resolves to the i64 impl's native symbol.
    assert!(ir.contains("fn @show$i64"), "instance: {ir}");
    assert!(ir.contains("neon_i64_to_string"), "bound discharged to i64 impl: {ir}");
}

// ---- optimising ----

#[test]
fn constant_arithmetic_folds_to_a_single_constant() {
    let ir = optimized("fn f() -> i64 { 2 + 3 * 4 }");
    // 2 + 3*4 folds to 14, and the dead intermediate constants are removed.
    assert!(ir.contains("const.i64 14"), "{ir}");
    assert!(!ir.contains("prim.add"), "the add is folded away: {ir}");
    assert!(!ir.contains("prim.mul"), "the mul is folded away: {ir}");
}

#[test]
fn a_dead_pure_computation_is_removed() {
    let ir = optimized("fn f(x: f64) -> f64 { let unused = x * x; x }");
    // `unused` is pure and never read, so its multiply is dropped. `f64` because IEEE
    // arithmetic cannot trap; see the i64 companion below.
    assert!(!ir.contains("prim.mul"), "dead multiply removed: {ir}");
}

/// The i64 companion: an unread multiply is *kept*, because `i64` arithmetic traps on
/// overflow and deleting it would delete the trap.
///
/// This is the same rule `overflowing_constant_arithmetic_is_left_for_the_runtime` applies
/// to constant folding.
#[test]
fn a_dead_i64_computation_is_kept_because_it_can_trap() {
    let ir = optimized("fn f(x: i64) -> i64 { let unused = x * x; x }");
    assert!(ir.contains("prim.mul"), "trapping multiply kept: {ir}");
}

#[test]
fn an_effectful_call_is_kept_even_if_its_result_is_unused() {
    let ir = optimized(
        "@native(\"neon_io_println\") fn println(s: str) -> i64
         fn f() { let ignored = println(\"hi\"); }",
    );
    // println does I/O; its result is unused but the call must remain.
    assert!(ir.contains("neon_io_println"), "{ir}");
}

#[test]
fn overflowing_constant_arithmetic_is_left_for_the_runtime() {
    let ir = optimized("fn f() -> i64 { 9223372036854775807 + 1 }");
    // Folding would change behaviour if the runtime traps, so it is not folded.
    assert!(ir.contains("prim.add"), "overflow left unfolded: {ir}");
}

#[test]
fn simplify_cfg_collapses_a_folded_if_to_one_block() {
    // `if true { 1 } else { 2 }`: the branch folds, the dead arm and the join marshalling
    // blocks fall away, and single-predecessor merging fuses the rest into one block.
    let ir = optimized("fn f() -> i64 { if true { 1 } else { 2 } }");
    assert_eq!(ir.matches("block").count(), 1, "should collapse to a single block:\n{ir}");
    assert!(!ir.contains("jump"), "no residual forwarding:\n{ir}");
}

#[test]
fn a_constant_branch_folds_to_a_jump() {
    let ir = optimized("fn f() -> i64 { if true { 1 } else { 2 } }");
    // The condition is constant, so there is no branch and the dead arm is gone.
    assert!(!ir.contains("branch"), "constant branch folded: {ir}");
    assert!(ir.contains("const.i64 1"), "{ir}");
    assert!(!ir.contains("const.i64 2"), "dead arm removed: {ir}");
}

/// A call to a function that never returns survives DCE even though its result is unused.
///
/// `spin` is pure by every other measure the analysis has: f64 arithmetic and a comparison,
/// no natives, no indirect calls. It also never returns - `x * 0.0` is `0.0` forever, so
/// `x < 100.0` never goes false. Non-termination is observable, as a trap is.
#[test]
fn a_call_that_never_returns_is_not_deleted() {
    let ir = optimized(
        "fn spin(n: f64) -> f64 { let x = n; while x < 100.0 { x = x * 0.0; } x }
         fn main() { let unused = spin(1.0); }",
    );
    assert!(ir.contains("call @spin"), "the diverging call was deleted:\n{ir}");
}

// ---- reference counts ----

#[test]
fn scalars_get_no_refcounting() {
    let ir = refcounted("fn add(x: i64, y: i64) -> i64 { x + y }");
    assert!(!ir.contains("retain"), "no pointers, no retain: {ir}");
    assert!(!ir.contains("release"), "no pointers, no release: {ir}");
}

#[test]
fn an_unused_pointer_parameter_is_released() {
    // `s` (a str, pointer-backed) is never used, so its owned reference is released.
    let ir = refcounted("fn ignore(s: str) -> i64 { 0 }");
    assert!(ir.contains("release %0"), "the unused string is released: {ir}");
}

#[test]
fn a_returned_pointer_is_moved_not_released() {
    // The string is returned (moved out), so it must not be released.
    let ir = refcounted("fn id(s: str) -> str { s }");
    assert!(!ir.contains("release"), "a moved-out value is not released: {ir}");
}

#[test]
fn a_returned_view_retains_itself_and_releases_its_base() {
    // `w.s` is a view into what `w` owns: returning it must materialise a reference of
    // its own (retain), and `w`, kept alive until then only by the view, dies before
    // the return.
    let ir = refcounted(
        "record Wrap { s: str }
         fn get(w: Wrap) -> str { w.s }",
    );
    assert!(ir.contains("retain %1"), "the returned view is retained: {ir}");
    assert!(ir.contains("release %0"), "the view's base is released before the ret: {ir}");
    let retain = ir.find("retain %1").unwrap();
    let release = ir.find("release %0").unwrap();
    assert!(retain < release, "retain the view before releasing what it looks into: {ir}");
}

#[test]
fn a_view_passed_on_a_conditional_edge_is_retained_on_that_edge_only() {
    // `unwrap_err %2` flows into the handler on one edge of a branch. Its retain (and
    // the release of the tagged result it looks into) must sit on that edge - in a
    // block appended after the branch - not above the branch, where the other path
    // would run it too.
    let ir = refcounted(
        "record E { msg: str }
         fn f() throws E -> i64 { throw E { msg: \"x\" } }
         fn g() -> i64 { try f() catch (e) { 0 } }",
    );
    let branch = ir.find("branch").expect("g branches on is_err");
    let retain = ir.find("retain").expect("the handed-on view is retained");
    assert!(
        retain > branch,
        "the retain sits in an edge block after the branch, not above it: {ir}"
    );
}

#[test]
fn a_pointer_used_twice_is_retained_once() {
    // `s` flows into two consuming positions (both native args), so one extra owned
    // reference is needed: a single retain.
    let ir = refcounted(
        "@native(\"neon_str_concat\") fn concat(a: str, b: str) -> str
         fn twice(s: str) -> str { concat(s, s) }",
    );
    assert_eq!(ir.matches("retain").count(), 1, "one duplicate consume -> one retain: {ir}");
}

// ---- effects ----

#[test]
fn arithmetic_is_pure_io_is_not() {
    let e = analyze_src(
        "@native(\"neon_io_println\") fn println(s: str)
         fn double(x: i64) -> i64 { x + x }
         fn shout(s: str) { println(s); }
         fn calls_io(s: str) { shout(s); }",
    );
    assert_eq!(e.get("double"), Some(true), "arithmetic is pure");
    assert_eq!(e.get("shout"), Some(false), "calls io -> effectful");
    assert_eq!(e.get("calls_io"), Some(false), "reaches io transitively");
}

#[test]
fn a_pure_native_stays_pure() {
    let e = analyze_src(
        "@pure @native(\"neon_str_concat\") fn concat(a: str, b: str) -> str
         fn greet(n: str) -> str { concat(\"hi \", n) }",
    );
    assert_eq!(e.get("greet"), Some(true), "string concat is declared pure");
}

/// The polarity that matters: an unannotated native is effectful, so a caller of one
/// is effectful too and its calls survive.
#[test]
fn an_unannotated_native_is_effectful() {
    let e = analyze_src(
        "@native(\"neon_str_concat\") fn concat(a: str, b: str) -> str
         fn greet(n: str) -> str { concat(\"hi \", n) }",
    );
    assert_eq!(e.get("greet"), Some(false), "no `@pure` means effectful");
}

// ---- tests and stages ----

const TESTED: &str = "fn f() -> i64 { 1 }
     test \"first\" { let a = f(); }
     bench \"speed\" { let b = f(); }
     mod inner { test \"second\" { let c = 1; } }";

#[test]
fn tests_are_listed_in_order_and_through_modules() {
    let (module, _, _) = checked(TESTED);
    let entries = test_entries(&module);
    let shown: Vec<(&str, &str)> =
        entries.iter().map(|e| (e.name.as_str(), e.symbol.as_str())).collect();
    assert_eq!(shown, vec![("first", "__neon_test_0"), ("second", "__neon_test_1")]);
}

#[test]
fn tests_become_functions_only_when_asked_for() {
    let (module, env, facts) = checked(TESTED);
    let names = |p: &Program| p.funcs.iter().map(|f| f.name.clone()).collect::<Vec<String>>();
    assert_eq!(names(&compile(&env, &facts, &module, &vec![], Stage::Final)), vec!["f"]);
    assert_eq!(
        names(&compile_tests(&env, &facts, &module, &vec![])),
        vec!["f", "__neon_test_0", "__neon_test_1"]
    );
    assert_eq!(
        names(&compile_benches(&env, &facts, &module, &vec![])),
        vec!["f", "__neon_bench_0"]
    );
}

#[test]
fn a_test_has_one_function_and_its_name_is_no_others() {
    let (module, env, facts) = checked(
        "fn id[T](x: T) -> T { x }
         protocol Area for T { fn area(s: T) -> i64 }
         record Sq { side: i64 }
         impl Area for Sq { fn area(s: Sq) -> i64 { s.side } }
         fn adder(n: i64) -> (i64) -> i64 { (x) => x + n }
         test \"first\" { let a = id(1); }
         test \"second\" { let b = id(\"x\"); }",
    );
    let p = compile_tests(&env, &facts, &module, &vec![]);
    assert!(p.funcs.len() > 4, "{}", print::program(&p));
    let mut names: Vec<&str> = vec![];
    for t in p.funcs.iter().filter(|f| f.name.starts_with("__neon_test_")) {
        names.push(&t.name);
        assert!(t.params.is_empty() && t.env.is_none() && t.throws.is_none());
        assert_eq!(t.ret, Repr::Unit);
    }
    assert_eq!(names, vec!["__neon_test_0", "__neon_test_1"]);
    for stage in [Stage::Lowered, Stage::Optimised, Stage::Final] {
        let p = compile(&env, &facts, &module, &vec![], stage);
        assert!(!p.funcs.iter().any(|f| f.name.starts_with("__neon_test_")));
    }
}

#[test]
fn each_stage_goes_on_from_the_one_before() {
    let (module, env, facts) = checked("fn f(s: str) -> i64 { 2 + 3 }");
    let at = |stage| print::program(&compile(&env, &facts, &module, &vec![], stage));
    assert!(at(Stage::Lowered).contains("prim.add"));
    assert!(!at(Stage::Optimised).contains("prim.add"));
    assert!(at(Stage::Optimised).contains("const.i64 5"));
    assert!(!at(Stage::Optimised).contains("release"));
    assert!(at(Stage::Final).contains("release %0"));
}

#[test]
fn checked_compiling_gives_the_same_program() {
    let (module, env, facts) = checked(FILL);
    for stage in [Stage::Lowered, Stage::Optimised, Stage::Final] {
        let plain = compile(&env, &facts, &module, &vec![], stage);
        let asked = compile_checked(&env, &facts, &module, &vec![], stage, None);
        assert_eq!(asked, Some(plain));
    }
}

#[test]
fn tables_that_name_what_is_not_there_are_refused() {
    let (module, mut env, mut facts) = checked("fn f() -> i64 { 1 }");
    assert!(is_consistent(&env, &facts));
    let none = TyId(env.types.data.len() as u32);
    facts.types[0] = Some(none);
    assert!(!is_consistent(&env, &facts));
    assert_eq!(compile_checked(&env, &facts, &module, &vec![], Stage::Lowered, None), None);
    facts.types[0] = None;
    assert!(is_consistent(&env, &facts));
    env.fns[0].ret = none;
    assert!(!is_consistent(&env, &facts));
}

#[test]
fn a_function_that_names_what_is_not_there_is_not_well_formed() {
    let mut p = lowered("fn f(c: bool) -> i64 { if c { 1 } else { 2 } }");
    assert!(is_well_formed(&p.funcs[0]));
    assert_eq!(edges_of(&p.funcs[0]), Some(4));
    p.funcs[0].blocks[0].id = BlockId(7);
    assert!(!is_well_formed(&p.funcs[0]));
    p.funcs[0].blocks[0].id = BlockId(0);
    p.funcs[0].values.pop();
    assert!(!is_well_formed(&p.funcs[0]));
}

#[test]
fn a_library_is_lowered_under_its_path() {
    let (module, env, facts) = checked("fn f() -> i64 { 1 }");
    let (lib, _, _) = checked("fn g() { }");
    let path = vec!["std".to_string(), "io".to_string()];
    let p = lower_module(&env, &facts, &module, &vec![(path, lib)]);
    let names: Vec<&str> = p.funcs.iter().map(|f| f.name.as_str()).collect();
    assert_eq!(names, vec!["f", "std__io__g"]);
}

#[test]
fn inline_and_pure_are_handed_on() {
    let p = lowered(
        "@inline fn twice[T](x: T) -> T { x }
         @pure @native(\"neon_abs\") fn abs(x: i64) -> i64
         @native(\"neon_now\") fn now() -> i64
         fn f() -> i64 { twice(1) }",
    );
    assert_eq!(p.inlined, vec!["twice$i64"]);
    assert_eq!(p.pure_natives, vec!["neon_abs"]);
}

#[test]
fn optimising_again_changes_nothing() {
    let mut p = lowered(
        "fn f(c: bool) -> i64 { if c { 1 + 2 } else { if true { 3 } else { 4 } } }",
    );
    optimize(&mut p);
    let once = print::program(&p);
    optimize(&mut p);
    assert_eq!(print::program(&p), once);
}

#[test]
fn folding_is_exact() {
    assert_eq!(fold_int(PrimOp::Add, 2, 3), Some(Op::ConstI64(5)));
    assert_eq!(fold_int(PrimOp::Rem, -7, 2), Some(Op::ConstI64(-1)));
    assert_eq!(fold_int(PrimOp::Div, -7, 2), Some(Op::ConstI64(-3)));
    assert_eq!(fold_int(PrimOp::Div, 1, 0), None);
    assert_eq!(fold_int(PrimOp::Div, i64::MIN, -1), None);
    assert_eq!(fold_int(PrimOp::Mul, i64::MAX, 2), None);
    assert_eq!(fold_int(PrimOp::Lt, 1, 2), Some(Op::ConstBool(true)));
    assert_eq!(fold_bool(PrimOp::And, true, false), Some(Op::ConstBool(false)));
    assert_eq!(fold_bool(PrimOp::Ne, true, false), Some(Op::ConstBool(true)));
    assert_eq!(fold_bool(PrimOp::Add, true, false), None);
}

// ---- writes in place ----

const FILL: &str = "opaque record List[T] {}
     record Bad { message: str }
     fn std__collections__list__set[T](xs: List[T], i: i64, v: T) throws Bad -> List[T] { xs }
     fn fill(n: i64) -> List[i64] {
         let ys = [1, 2, 3];
         let i = 0;
         while i < n { ys = try! std__collections__list__set(ys, i, 0); i = i + 1; }
         ys
     }";

#[test]
fn a_list_written_round_a_loop_is_written_in_place() {
    let mut p = lowered(FILL);
    optimize(&mut p);
    let found = unique::candidates(&p);
    assert_eq!(found.len(), 1, "{}", print::program(&p));
    assert_eq!(found[0].func, "fill");
    assert_eq!(found[0].writes, 1);
    assert!(found[0].scalar);
    let fill = p.funcs.iter().position(|f| f.name == "fill").expect("there");
    assert_eq!(unique::debug_sets(&p.funcs[fill]).len(), 1);
    assert_eq!(unique::debug_back_edges(&p.funcs[fill]).len(), 1);
    unique::apply(&mut p);
    let ir = print::func(&p.funcs[fill]);
    assert!(ir.contains("neon_list_set_inplace"), "{ir}");
    assert!(ir.contains("neon_list_ensure_unique"), "{ir}");
    assert!(!ir.contains("call @std__collections__list__set"), "{ir}");
    // Nothing is left that could be written in place.
    assert!(unique::candidates(&p).iter().all(|c| !c.scalar));
}

#[test]
fn a_list_that_is_read_later_is_not_written_in_place() {
    let keep = "@native(\"neon_keep\") fn keep(xs: List[i64])\n".to_string();
    let mut p = lowered(&(keep + FILL).replace("ys = try!", "let zs = ys; ys = try!").replace(
        "i = i + 1;",
        "i = i + 1; keep(zs);",
    ));
    optimize(&mut p);
    let before = print::program(&p);
    unique::apply(&mut p);
    assert_eq!(print::program(&p), before);
}

/// `FILL` with another function in place of `fill`, optimised.
fn filling(function: &str) -> Program {
    let at = FILL.find("fn fill").expect("there");
    let mut p = lowered(&(FILL[..at].to_string() + function));
    optimize(&mut p);
    p
}

fn stays_as_it_is(function: &str) {
    let mut p = filling(function);
    let before = print::program(&p);
    assert!(before.contains("call @std__collections__list__set"), "{before}");
    assert!(unique::candidates(&p).is_empty(), "{before}");
    unique::apply(&mut p);
    assert_eq!(print::program(&p), before);
}

#[test]
fn a_function_of_a_longer_name_is_not_the_write() {
    let mut p = lowered(&FILL.replace("list__set", "list__set_all"));
    optimize(&mut p);
    assert!(unique::candidates(&p).is_empty());
    let before = print::program(&p);
    unique::apply(&mut p);
    assert_eq!(print::program(&p), before);
}

#[test]
fn a_list_kept_over_an_inner_loop_is_not_written_in_place() {
    stays_as_it_is(
        "fn fill(n: i64, m: i64) -> i64 {
             let acc = [1, 2, 3];
             let s = 0;
             let i = 0;
             while i < n {
                 let keep = acc;
                 let j = 0;
                 while j < m {
                     acc = try! std__collections__list__set(acc, j, 0);
                     j = j + 1;
                 }
                 s = s + keep[0];
                 i = i + 1;
             }
             s
         }",
    );
}

#[test]
fn a_list_kept_from_the_round_before_is_not_written_in_place() {
    stays_as_it_is(
        "fn fill(n: i64) -> i64 {
             let acc = [1, 2, 3];
             let old = [4, 5, 6];
             let s = 0;
             let i = 0;
             while i < n {
                 acc = try! std__collections__list__set(acc, 0, i);
                 s = s + old[0];
                 old = acc;
                 i = i + 1;
             }
             s
         }",
    );
}

#[test]
fn a_list_that_comes_in_by_the_way_is_not_written_in_place() {
    stays_as_it_is(
        "fn fill(n: i64, c: bool, other: List[i64]) -> i64 {
             let acc = [1, 2, 3];
             let i = 0;
             while i < n {
                 if c { acc = other; }
                 acc = try! std__collections__list__set(acc, 0, i);
                 i = i + 1;
             }
             other[0]
         }",
    );
}

#[test]
fn a_new_list_that_comes_in_by_the_way_is_written_in_place() {
    let mut p = filling(
        "fn fill(n: i64, c: bool) -> List[i64] {
             let acc = [1, 2, 3];
             let i = 0;
             while i < n {
                 if c { acc = [4, 5, 6]; }
                 acc = try! std__collections__list__set(acc, 0, i);
                 i = i + 1;
             }
             acc
         }",
    );
    assert_eq!(unique::candidates(&p).len(), 1, "{}", print::program(&p));
    unique::apply(&mut p);
    assert!(!print::program(&p).contains("call @std__collections__list__set"));
    // One that is made once and comes in often is not new each time.
    stays_as_it_is(
        "fn fill(n: i64, c: bool) -> List[i64] {
             let acc = [1, 2, 3];
             let fresh = [4, 5, 6];
             let i = 0;
             while i < n {
                 if c { acc = fresh; }
                 acc = try! std__collections__list__set(acc, 0, i);
                 i = i + 1;
             }
             acc
         }",
    );
}

#[test]
fn a_list_that_is_written_anew_in_each_round_is_not_written_in_place() {
    stays_as_it_is(
        "fn fill(n: i64, m: i64) -> List[i64] {
             let acc = [1, 2, 3];
             let last = acc;
             let i = 0;
             while i < n {
                 let j = 0;
                 while j < m {
                     last = try! std__collections__list__set(acc, j, 0);
                     j = j + 1;
                 }
                 acc = last;
                 i = i + 1;
             }
             acc
         }",
    );
}

#[test]
fn a_list_written_in_an_inner_loop_is_written_in_place() {
    let mut p = filling(
        "fn fill(n: i64, m: i64) -> List[i64] {
             let acc = [1, 2, 3];
             let s = 0;
             let i = 0;
             while i < n {
                 s = s + acc[0];
                 let j = 0;
                 while j < m {
                     acc = try! std__collections__list__set(acc, j, s);
                     acc = try! std__collections__list__set(acc, j, acc[j]);
                     j = j + 1;
                 }
                 i = i + 1;
             }
             acc
         }",
    );
    // Both loops carry the list.
    let found = unique::candidates(&p);
    assert_eq!(found.len(), 2, "{}", print::program(&p));
    assert!(found.iter().all(|c| c.writes == 2));
    unique::apply(&mut p);
    let ir = print::program(&p);
    assert_eq!(ir.matches("neon_list_set_inplace").count(), 2, "{ir}");
    assert_eq!(ir.matches("neon_list_ensure_unique").count(), 1, "{ir}");
    assert!(!ir.contains("call @std__collections__list__set"), "{ir}");
}

#[test]
fn what_has_nothing_to_narrow_or_cover_stays_as_it_is() {
    let mut p = lowered("fn f(c: bool) -> i64 { if c { 1 } else { 2 } }");
    let before = print::program(&p);
    partial::apply(&mut p);
    cover::apply(&mut p);
    unique::apply(&mut p);
    assert_eq!(print::program(&p), before);
}

#[test]
fn a_store_of_a_record_is_narrowed_to_the_field_that_changes() {
    let mut p = lowered(
        "opaque record List[T] {}
         record Bad { message: str }
         record P { x: i64, y: i64 }
         fn std__collections__list__set[T](xs: List[T], i: i64, v: T) throws Bad -> List[T] { xs }
         fn shift(ps: List[P], n: i64) -> List[P] {
             let ys = ps;
             let i = 0;
             while i < n {
                 let p = ys[i];
                 ys = try! std__collections__list__set(ys, i, P { x: 7, y: p.y });
                 i = i + 1;
             }
             ys
         }",
    );
    optimize(&mut p);
    unique::apply(&mut p);
    let before = print::program(&p);
    assert!(before.contains("neon_list_set_inplace"), "{before}");
    assert!(!before.contains("neon_list_set_field_inplace"), "{before}");
    partial::apply(&mut p);
    let after = print::program(&p);
    assert!(!after.contains("neon_list_set_inplace"), "{after}");
    // Only `x`, the field at position 0, is stored.
    assert_eq!(after.matches("neon_list_set_field_inplace").count(), 1, "{after}");
    assert!(after.contains("const.i64 0\n    native \"neon_list_set_field_inplace\""), "{after}");
    let shift = p.funcs.iter().find(|f| f.name == "shift").expect("there");
    let mut named = 0;
    for i in shift.blocks.iter().flat_map(|b| &b.insts) {
        if let Op::Native { symbol, args } = &i.op {
            if symbol == "neon_list_set_field_inplace" {
                assert_eq!(partial::field_position(shift, symbol, args), Some(0));
                assert_eq!(partial::field_position(shift, "neon_list_len", args), None);
                assert_eq!(partial::field_position(shift, symbol, &args[..3].to_vec()), None);
                named += 1;
            }
        }
    }
    assert_eq!(named, 1);
}

#[test]
fn a_second_read_at_the_same_index_is_covered() {
    let mut p = lowered(
        "opaque record List[T] {}
         fn dot(a: List[f64], b: List[f64], n: i64) -> f64 {
             let s = 0.0;
             let i = 0;
             while i < n { s = s + a[i] * b[i]; i = i + 1; }
             s
         }",
    );
    optimize(&mut p);
    let plain = p.funcs[0].blocks.iter().flat_map(|b| &b.insts);
    assert_eq!(plain.filter(|i| matches!(i.op, Op::Index { covered: None, .. })).count(), 2);
    let values = p.funcs[0].values.len();
    cover::apply(&mut p);
    let insts: Vec<&Inst> = p.funcs[0].blocks.iter().flat_map(|b| &b.insts).collect();
    let flags: Vec<Option<Value>> = insts
        .iter()
        .filter_map(|i| match &i.op {
            Op::Index { covered, .. } => Some(*covered),
            _ => None,
        })
        .collect();
    // One read is checked as before, the other goes by the flag of the one test.
    assert_eq!(flags.len(), 2);
    assert_eq!(flags[0], None);
    assert_eq!(flags[1], Some(Value((values + 2) as u32)));
    assert_eq!(p.funcs[0].values.len(), values + 3);
    let lengths = insts
        .iter()
        .filter(|i| matches!(&i.op, Op::Native { symbol, .. } if symbol == "neon_list_len"))
        .count();
    assert_eq!(lengths, 2);
}

#[test]
fn counts_are_put_in_and_nothing_is_taken_away() {
    let src = "record Wrap { s: str }
         fn get(w: Wrap, c: bool) -> str { if c { w.s } else { \"none\" } }";
    let plain = lowered(src);
    let mut counted = lowered(src);
    insert(&mut counted);
    let (f, g) = (&plain.funcs[0], &counted.funcs[0]);
    assert!(g.blocks.len() >= f.blocks.len());
    for (i, b) in g.blocks.iter().enumerate() {
        let kept: Vec<&Inst> = b
            .insts
            .iter()
            .filter(|x| !matches!(x.op, Op::Retain(_) | Op::Release(_)))
            .collect();
        if i < f.blocks.len() {
            assert_eq!(kept, f.blocks[i].insts.iter().collect::<Vec<&Inst>>());
            assert_eq!(b.params, f.blocks[i].params);
        } else {
            assert!(kept.is_empty());
        }
    }
}

/// What a block adds to the references of a value: retains, less releases and consuming uses.
fn added(b: &IrBlock, v: Value) -> i64 {
    let among = |vs: &[Value]| vs.iter().filter(|x| **x == v).count() as i64;
    let mut n = 0;
    for i in &b.insts {
        n += match &i.op {
            Op::Retain(x) => (*x == v) as i64,
            Op::Release(x) => -((*x == v) as i64),
            Op::Call { args, .. } | Op::Native { args, .. } => -among(args),
            Op::MakeTuple(vs) | Op::MakeList(vs) => -among(vs),
            _ => 0,
        };
    }
    match &b.term {
        Term::Ret(Some(x)) => n - (*x == v) as i64,
        _ => n,
    }
}

#[test]
fn references_come_to_nothing() {
    let src = "@native(\"neon_str_concat\") fn concat(a: str, b: str) -> str
         fn twice(s: str) -> (str, str) { let t = concat(s, s); (t, s) }
         fn drop_it(s: str) -> i64 { 0 }
         fn keep(s: str) -> str { s }";
    let mut p = lowered(src);
    insert(&mut p);
    for f in &p.funcs {
        assert_eq!(f.blocks.len(), 1);
        // Each value here is bound once, with one reference.
        for v in 0..f.values.len() {
            let v = Value(v as u32);
            if f.values[v.0 as usize].repr.is_counted() {
                assert_eq!(1 + added(&f.blocks[0], v), 0, "{} in {}", v.0, print::func(f));
            }
        }
    }
}

#[test]
fn a_view_is_retained_where_it_is_consumed_and_never_released() {
    let mut p = lowered("record Wrap { s: str }\nfn get(w: Wrap) -> (str, str) { (w.s, w.s) }");
    insert(&mut p);
    let f = &p.funcs[0];
    for i in &f.blocks[0].insts {
        if let (Op::Field { .. }, Some(v)) = (&i.op, i.result) {
            assert_eq!(added(&f.blocks[0], v), 0);
            assert!(f.blocks[0].insts.iter().all(|i| i.op != Op::Release(v)));
        }
    }
}

#[test]
fn the_environment_of_a_lambda_is_never_released() {
    let mut p = lowered("fn f(s: str) -> () -> str { () => s }");
    insert(&mut p);
    let f = p.funcs.iter().find(|f| f.name.starts_with("lambda$")).expect("a lambda");
    let env = f.params[0];
    for b in &f.blocks {
        assert!(b.insts.iter().all(|i| i.op != Op::Release(env)));
    }
}

#[test]
fn lowered_and_optimised_programs_do_not_count() {
    let counts = |p: &Program| {
        p.funcs
            .iter()
            .flat_map(|f| &f.blocks)
            .flat_map(|b| &b.insts)
            .any(|i| matches!(i.op, Op::Retain(_) | Op::Release(_)))
    };
    let mut p = lowered(FILL);
    assert!(!counts(&p));
    optimize(&mut p);
    assert!(!counts(&p));
    insert(&mut p);
    assert!(counts(&p));
}

// ---- assertions, names, descriptions ----

#[test]
fn a_failed_assertion_says_what_it_compared() {
    let (module, env, facts) = checked("test \"sum\" { assert(1 + 2 == 4); }");
    let ir = print::program(&lower_module_with(&env, &facts, &module, &vec![], Some(TestKind::Test)));
    assert!(ir.contains("fn @__neon_test_0() -> ()"), "{ir}");
    assert!(ir.contains("1 + 2 == 4"), "{ir}");
    assert!(ir.contains("neon_panic"), "{ir}");
}

#[test]
fn layouts_and_functions_are_named_apart() {
    assert_eq!(mangle(&vec![], "f"), "f");
    assert_eq!(mangle(&vec!["a".to_string(), "b".to_string()], "f"), "a__b__f");
    assert_eq!(mangle_impl("Area", "Sq", "area"), "Area$Sq$area");
    let mut s = Subst::new();
    s.set("T", Repr::I64);
    assert_eq!(mangle_instance("id", &s), "id$i64");
    assert_ne!(
        key_of(&Repr::List(Box::new(Repr::I64))),
        key_of(&Repr::List(Box::new(Repr::Str)))
    );
}

#[test]
fn matching_finds_what_substituting_puts_back() {
    let template = Repr::List(Box::new(Repr::Var("T".to_string())));
    let concrete = Repr::List(Box::new(Repr::Str));
    let mut s = Subst::new();
    match_repr(&template, &concrete, &mut s);
    assert_eq!(s.get("T"), Some(Repr::Str));
    // Nothing else is bound.
    assert_eq!(s.get("U"), None);
    assert_eq!(s.binds.len(), 1);
    assert_eq!(substitute_repr(&template, &s), concrete);
    assert_eq!(
        substitute_repr(&Repr::Var("U".to_string()), &s),
        Repr::Var("U".to_string())
    );
}

#[test]
fn a_record_is_keyed_by_its_field_names_too() {
    let rec = |n: &str, fields| Repr::Record { name: Some(n.to_string()), fields };
    let split = rec("A", vec![("b".to_string(), rec("B", vec![]))]);
    assert_eq!(key_of(&split), "1:A{1:b=1:B{},}");
    assert_ne!(key_of(&rec("A_B", vec![])), key_of(&split));
}

#[test]
fn keys_tell_layouts_apart() {
    let tup = |rs: Vec<Repr>| Repr::Tuple(rs);
    let split = tup(vec![tup(vec![Repr::I64]), Repr::Str]);
    let whole = tup(vec![tup(vec![Repr::I64, Repr::Str])]);
    assert_eq!(key_of(&split), "tup[tup[i64,],str,]");
    assert_eq!(key_of(&whole), "tup[tup[i64,str,],]");
    let union = |rs: Vec<Repr>| Repr::Union(rs);
    assert_ne!(
        key_of(&union(vec![Repr::I64, union(vec![Repr::Str]), Repr::Bool])),
        key_of(&union(vec![Repr::I64, union(vec![Repr::Str, Repr::Bool])]))
    );
    let closure = |params: Vec<Repr>| Repr::Closure {
        params,
        throws: Box::new(Repr::Never),
        ret: Box::new(Repr::Unit),
    };
    assert_eq!(key_of(&closure(vec![])), "fn[[]never,unit]");
    assert_eq!(key_of(&closure(vec![Repr::I64])), "fn[[i64,]never,unit]");
    let list = Repr::List(Box::new(Repr::Nullable(Box::new(Repr::F64))));
    assert_eq!(key_of(&list), "list[opt[f64]]");
    let map = Repr::Mapping(Box::new(Repr::Str), Box::new(Repr::Recursive(TyId(12))));
    assert_eq!(key_of(&map), "map[str,mu[12]]");
    let runtime = |n: &str| Repr::Runtime {
        nominal: n.to_string(),
        c_type: "T".to_string(),
        args: vec![Repr::BoxedRec(3)],
    };
    assert_eq!(key_of(&runtime("Cell")), "rt[4:Cell1:Tbox[3],]");
    let record = |n: &str| Repr::Record { name: Some(n.to_string()), fields: vec![] };
    assert_ne!(key_of(&record("i64")), key_of(&Repr::I64));
    assert_ne!(key_of(&Repr::Var("i64".to_string())), key_of(&Repr::I64));
    assert_ne!(key_of(&record("a{}")), key_of(&record("a")));
}

#[test]
fn names_tell_instances_apart() {
    let mut one = Subst::new();
    one.set("A", Repr::Tuple(vec![Repr::I64]));
    one.set("B", Repr::Str);
    let mut other = Subst::new();
    other.set("A", Repr::I64);
    other.set("B", Repr::Tuple(vec![Repr::Str]));
    assert_eq!(mangle_instance("f", &one), "f$tup[i64,]$str");
    assert_eq!(mangle_instance("f", &other), "f$i64$tup[str,]");
}

fn described(body: &str) -> String {
    let (module, _, _) = checked(&format!("fn f(a: i64, b: i64) -> i64 {{ {body} }}"));
    let DeclKind::Fn(f) = &module.decls[0].kind else { panic!("a fn") };
    describe(f.body.as_ref().and_then(|b| b.tail.as_ref()).expect("a tail"))
}

#[test]
fn a_description_reads_back_as_it_was_written() {
    for text in ["1 - (2 - 3)", "1 - 2 - 3", "(a + 2) * b", "a + 2 * b", "-(1 + 2)", "-a + 2"] {
        assert_eq!(described(text), text);
    }
}

#[test]
fn a_let_binds_to_the_end_of_its_block_only() {
    let src = "fn f(c: bool, n: i64) -> i64 { if c { let n = 1; n } else { n } }";
    let (module, _, _) = checked(src);
    let DeclKind::Fn(f) = &module.decls[0].kind else { panic!("a fn") };
    let e = f.body.as_ref().and_then(|b| b.tail.as_ref()).expect("a tail");
    let mut found = Found { bound: vec![], used: vec![] };
    collect_free_expr(e, &mut found);
    assert_eq!(found.used, vec!["c", "n"]);
    assert!(found.bound.is_empty());
}

#[test]
fn what_a_block_binds_does_not_escape_it() {
    let ir = lower("fn f() -> i64 { let x = 0; { let x = 1; x = 2; } x }");
    assert!(ir.contains("%0 = const.i64 0"), "{ir}");
    assert!(ir.contains("ret %0"), "{ir}");
    let ir = lower("fn f() -> i64 { let x = 0; { x = 2; } x }");
    assert!(!ir.contains("ret %0"), "{ir}");
}

#[test]
fn a_call_of_what_may_not_return_or_may_trap_is_kept() {
    let ir = optimized("fn spin(x: f64) -> f64 { spin(x) }\nfn g() { let a = spin(1.0); }");
    assert!(ir.contains("call @spin"), "{ir}");
    let ir = optimized("fn half(x: i64) -> i64 { x / 2 }\nfn g() { let a = half(1); }");
    assert!(ir.contains("call @half"), "{ir}");
    let ir = optimized("fn neg(x: f64) -> f64 { -x }\nfn g() { let a = neg(1.0); }");
    assert!(!ir.contains("call @neg"), "{ir}");
    let e = analyze_src("fn spin(x: f64) -> f64 { spin(x) }");
    assert_eq!(e.get("spin"), Some(false));
}

#[test]
fn expressions_are_described_with_the_brackets_that_they_need() {
    let (module, _, _) = checked("fn f(a: i64, b: i64) -> i64 { (a + 2) * b }");
    let DeclKind::Fn(f) = &module.decls[0].kind else { panic!("a fn") };
    let tail = f.body.as_ref().and_then(|b| b.tail.as_ref()).expect("a tail");
    assert_eq!(describe(tail), "(a + 2) * b");
}
