//! The declarations that are lowered: functions, methods and tests.

use super::names::{mangle_impl, mangled_impl};
use super::state::copy_names;
use super::subst::{last_name, last_of};
use crate::ast::{
    Decl, DeclKind, FnDecl, ImplDecl, Module, TestBlock, TestKind, TypeSpec, TypeSpecKind,
};
use crate::check::{Env, TypeUse};
use crate::syntax::{
    lemma_decls_of, lemma_fn_decls_of, names_of, sems, Node, SDecl, SDeclKind, SFnDecl, SImplDecl,
    SModule, STestBlock, STypeSpec, STypeSpecKind,
};
use crate::text::{dec, push_dec};
use vstd::prelude::*;

verus! {

/// A function and the path of the module that it stands in.
pub type SItem = (Seq<Seq<char>>, SFnDecl);

/// Functions with bodies, with those of the first `k` declarations added in order.
pub open spec fn fns_in(path: Seq<Seq<char>>, ds: Seq<SDecl>, k: int, o: Seq<SItem>) -> Seq<SItem>
    decreases ds, k,
{
    if 0 < k <= ds.len() {
        fns_of(path, ds[k - 1], fns_in(path, ds, k - 1, o))
    } else {
        o
    }
}

pub open spec fn fns_of(path: Seq<Seq<char>>, d: SDecl, o: Seq<SItem>) -> Seq<SItem>
    decreases d, 0int,
{
    match d.kind {
        SDeclKind::Fn(f) => if f.body is Some {
            o.push((path, f))
        } else {
            o
        },
        SDeclKind::Mod(m) => fns_in(path.push(m.name), m.decls, m.decls.len() as int, o),
        _ => o,
    }
}

/// The last of the first `k` functions of a module that has a name.
pub open spec fn fn_from(fs: Seq<SItem>, module: Seq<Seq<char>>, name: Seq<char>, k: int) -> Option<
    SFnDecl,
>
    decreases k,
{
    if k <= 0 {
        None
    } else if fs[k - 1].0 == module && fs[k - 1].1.name == name {
        Some(fs[k - 1].1)
    } else {
        fn_from(fs, module, name, k - 1)
    }
}

/// What a path that names a type stands for in a module, from entry `k` on.
pub open spec fn type_use_from(
    t: Seq<TypeUse>,
    module: Seq<Seq<char>>,
    path: Seq<Seq<char>>,
    k: int,
) -> Option<Seq<char>>
    decreases t.len() - k,
{
    if k >= t.len() {
        None
    } else if names_of(t[k].module@) == module && names_of(t[k].path@) == path {
        Some(t[k].name@)
    } else {
        type_use_from(t, module, path, k + 1)
    }
}

/// What an implementation is for, as it is written.
pub open spec fn ast_head(env: Env, module: Seq<Seq<char>>, t: STypeSpec) -> Seq<char> {
    match t.kind {
        STypeSpecKind::Named { path, .. } => match type_use_from(
            env.type_names@,
            module,
            path,
            0,
        ) {
            Some(n) => n,
            None => last_name(path),
        },
        _ => ""@,
    }
}

/// A method with a body, by the name that calls of it use.
pub type SMethod = (Seq<char>, SFnDecl);

pub open spec fn methods_of(
    env: Env,
    path: Seq<Seq<char>>,
    i: SImplDecl,
    k: int,
    o: Seq<SMethod>,
) -> Seq<SMethod>
    decreases k,
{
    if k <= 0 {
        o
    } else {
        let before = methods_of(env, path, i, k - 1, o);
        let m = i.methods[k - 1];
        if m.body is Some {
            before.push(
                (
                    mangled_impl(last_name(i.protocol), ast_head(env, path, i.target), m.name),
                    m,
                ),
            )
        } else {
            before
        }
    }
}

/// Methods with bodies, with those of the first `k` declarations added in order.
pub open spec fn methods_in(
    env: Env,
    path: Seq<Seq<char>>,
    ds: Seq<SDecl>,
    k: int,
    o: Seq<SMethod>,
) -> Seq<SMethod>
    decreases ds, k,
{
    if 0 < k <= ds.len() {
        methods_from(env, path, ds[k - 1], methods_in(env, path, ds, k - 1, o))
    } else {
        o
    }
}

pub open spec fn methods_from(
    env: Env,
    path: Seq<Seq<char>>,
    d: SDecl,
    o: Seq<SMethod>,
) -> Seq<SMethod>
    decreases d, 0int,
{
    match d.kind {
        SDeclKind::Impl(i) => methods_of(env, path, i, i.methods.len() as int, o),
        SDeclKind::Mod(m) => methods_in(
            env,
            path.push(m.name),
            m.decls,
            m.decls.len() as int,
            o,
        ),
        _ => o,
    }
}

/// The last of the first `k` methods of a name.
pub open spec fn method_named(ms: Seq<SMethod>, key: Seq<char>, k: int) -> Option<SFnDecl>
    decreases k,
{
    if k <= 0 {
        None
    } else if ms[k - 1].0 == key {
        Some(ms[k - 1].1)
    } else {
        method_named(ms, key, k - 1)
    }
}

/// A test and the path of the module that it stands in.
pub type STest = (Seq<Seq<char>>, STestBlock);

/// Tests of a kind, with those of the first `k` declarations added in order.
pub open spec fn tests_in(
    path: Seq<Seq<char>>,
    kind: TestKind,
    ds: Seq<SDecl>,
    k: int,
    o: Seq<STest>,
) -> Seq<STest>
    decreases ds, k,
{
    if 0 < k <= ds.len() {
        tests_of(path, kind, ds[k - 1], tests_in(path, kind, ds, k - 1, o))
    } else {
        o
    }
}

pub open spec fn tests_of(path: Seq<Seq<char>>, kind: TestKind, d: SDecl, o: Seq<STest>) -> Seq<
    STest,
>
    decreases d, 0int,
{
    match d.kind {
        SDeclKind::TestBlock(t) => if t.kind == kind {
            o.push((path, t))
        } else {
            o
        },
        SDeclKind::Mod(m) => tests_in(path.push(m.name), kind, m.decls, m.decls.len() as int, o),
        _ => o,
    }
}

/// The tests of a module, in order.
pub open spec fn all_tests(m: SModule, kind: TestKind) -> Seq<STest> {
    tests_in(seq![], kind, m.decls, m.decls.len() as int, seq![])
}

/// The name of the function that a test becomes.
pub open spec fn test_symbol(kind: TestKind, i: int) -> Seq<char> {
    match kind {
        TestKind::Test => "__neon_test_"@ + dec(i as nat),
        TestKind::Bench => "__neon_bench_"@ + dec(i as nat),
    }
}

// ---- bodies ----

pub open spec fn all_bodied(fs: Seq<SItem>) -> bool {
    forall|i: int| 0 <= i < fs.len() ==> (#[trigger] fs[i]).1.body is Some
}

pub open spec fn all_methods_bodied(ms: Seq<SMethod>) -> bool {
    forall|i: int| 0 <= i < ms.len() ==> (#[trigger] ms[i]).1.body is Some
}

/// Only functions with bodies are collected.
pub proof fn lemma_fns_have_bodies(
    path: Seq<Seq<char>>,
    ds: Seq<SDecl>,
    k: int,
    o: Seq<SItem>,
)
    requires
        all_bodied(o),
    ensures
        all_bodied(fns_in(path, ds, k, o)),
    decreases ds, k,
{
    if 0 < k <= ds.len() {
        lemma_fns_have_bodies(path, ds, k - 1, o);
        let d = ds[k - 1];
        let before = fns_in(path, ds, k - 1, o);
        assert(fns_in(path, ds, k, o) == fns_of(path, d, before));
        if let SDeclKind::Mod(m) = d.kind {
            lemma_fns_have_bodies(path.push(m.name), m.decls, m.decls.len() as int, before);
        }
        reveal_with_fuel(fns_of, 2);
    }
}

proof fn lemma_methods_of_have_bodies(
    env: Env,
    path: Seq<Seq<char>>,
    i: SImplDecl,
    k: int,
    o: Seq<SMethod>,
)
    requires
        all_methods_bodied(o),
    ensures
        all_methods_bodied(methods_of(env, path, i, k, o)),
    decreases k,
{
    if k > 0 {
        lemma_methods_of_have_bodies(env, path, i, k - 1, o);
    }
}

/// Only methods with bodies are collected.
pub proof fn lemma_methods_have_bodies(
    env: Env,
    path: Seq<Seq<char>>,
    ds: Seq<SDecl>,
    k: int,
    o: Seq<SMethod>,
)
    requires
        all_methods_bodied(o),
    ensures
        all_methods_bodied(methods_in(env, path, ds, k, o)),
    decreases ds, k,
{
    if 0 < k <= ds.len() {
        lemma_methods_have_bodies(env, path, ds, k - 1, o);
        let d = ds[k - 1];
        let before = methods_in(env, path, ds, k - 1, o);
        assert(methods_in(env, path, ds, k, o) == methods_from(env, path, d, before));
        reveal_with_fuel(methods_from, 2);
        if let SDeclKind::Mod(m) = d.kind {
            lemma_methods_have_bodies(
                env,
                path.push(m.name),
                m.decls,
                m.decls.len() as int,
                before,
            );
        }
        if let SDeclKind::Impl(i) = d.kind {
            lemma_methods_of_have_bodies(env, path, i, i.methods.len() as int, before);
        }
    }
}

// ---- computing it ----

/// A test, and the name of the function that it becomes.
#[derive(Debug, PartialEq, Eq)]
pub struct TestEntry {
    pub name: String,
    pub symbol: String,
}

pub open spec fn items_sem(fs: Seq<(Vec<String>, &FnDecl)>) -> Seq<SItem> {
    fs.map_values(|p: (Vec<String>, &FnDecl)| (names_of(p.0@), p.1.sem()))
}

pub open spec fn methods_sem(ms: Seq<(String, &FnDecl)>) -> Seq<SMethod> {
    ms.map_values(|p: (String, &FnDecl)| (p.0@, p.1.sem()))
}

pub open spec fn tests_sem(ts: Seq<(Vec<String>, &TestBlock)>) -> Seq<STest> {
    ts.map_values(|p: (Vec<String>, &TestBlock)| (names_of(p.0@), p.1.sem()))
}

fn inner_path(path: &Vec<String>, name: &String) -> (r: Vec<String>)
    ensures
        names_of(r@) == names_of(path@).push(name@),
{
    let mut r = copy_names(path);
    let ghost before = names_of(r@);
    r.push(name.clone());
    assert(names_of(r@) =~= before.push(name@));
    r
}

/// Collect the functions with bodies.
pub fn collect_fns<'a>(
    path: &Vec<String>,
    ds: &'a Vec<Decl>,
    out: &mut Vec<(Vec<String>, &'a FnDecl)>,
)
    ensures
        items_sem(final(out)@) == fns_in(
            names_of(path@),
            sems(ds@),
            ds@.len() as int,
            items_sem(old(out)@),
        ),
    decreases ds, 1int,
{
    let ghost o = items_sem(out@);
    let mut k: usize = 0;
    while k < ds.len()
        invariant
            k <= ds.len(),
            items_sem(out@) == fns_in(names_of(path@), sems(ds@), k as int, o),
        decreases ds.len() - k,
    {
        assert(sems(ds@)[k as int] == ds[k as int].sem());
        collect_fns_of(path, &ds[k], out);
        k += 1;
    }
}

fn collect_fns_of<'a>(
    path: &Vec<String>,
    d: &'a Decl,
    out: &mut Vec<(Vec<String>, &'a FnDecl)>,
)
    ensures
        items_sem(final(out)@) == fns_of(names_of(path@), d.sem(), items_sem(old(out)@)),
    decreases d, 2int,
{
    let ghost o = items_sem(out@);
    match &d.kind {
        DeclKind::Fn(f) => {
            assert(d.sem().kind == SDeclKind::Fn(f.sem()));
            assert(f.sem().body is Some == f.body is Some);
            if f.body.is_some() {
                let p = copy_names(path);
                out.push((p, f));
                assert(items_sem(out@) =~= o.push((names_of(path@), f.sem())));
            }
        },
        DeclKind::Mod(m) => {
            proof {
                lemma_decls_of(m.decls@);
            }
            let p = inner_path(path, &m.name);
            collect_fns(&p, &m.decls, out);
        },
        _ => {},
    }
}

/// The last function of a module that has a name.
pub fn find_fn<'a>(fs: &Vec<(Vec<String>, &'a FnDecl)>, module: &Vec<String>, name: &str) -> (r:
    Option<&'a FnDecl>)
    ensures
        match r {
            Some(f) => fn_from(items_sem(fs@), names_of(module@), name@, fs@.len() as int) == Some(
                f.sem(),
            ),
            None => fn_from(items_sem(fs@), names_of(module@), name@, fs@.len() as int) is None,
        },
        r matches Some(f) ==> exists|i: int| 0 <= i < fs.len() && (#[trigger] fs[i]).1 == f,
{
    let ghost s = items_sem(fs@);
    let mut k: usize = fs.len();
    while k > 0
        invariant
            k <= fs.len(),
            s == items_sem(fs@),
            fn_from(s, names_of(module@), name@, fs@.len() as int) == fn_from(
                s,
                names_of(module@),
                name@,
                k as int,
            ),
        decreases k,
    {
        assert(s[k - 1] == (names_of(fs[k - 1].0@), fs[k - 1].1.sem()));
        assert(fs[k - 1].1.sem().name == fs[k - 1].1.name@);
        if super::calls::same_names(&fs[k - 1].0, module) && crate::text::str_eq(
            fs[k - 1].1.name.as_str(),
            name,
        ) {
            return Some(fs[k - 1].1);
        }
        k -= 1;
    }
    None
}

fn head_as_written(env: &Env, module: &Vec<String>, t: &TypeSpec) -> (r: String)
    ensures
        r@ == ast_head(*env, names_of(module@), t.sem()),
{
    match &t.kind {
        TypeSpecKind::Named { path, .. } => {
            let ghost ns = names_of(path@);
            assert(t.sem().kind->Named_path == ns);
            let mut k: usize = 0;
            while k < env.type_names.len()
                invariant
                    k <= env.type_names.len(),
                    ns == names_of(path@),
                    t.sem().kind is Named,
                    t.sem().kind->Named_path == ns,
                    type_use_from(env.type_names@, names_of(module@), ns, 0) == type_use_from(
                        env.type_names@,
                        names_of(module@),
                        ns,
                        k as int,
                    ),
                decreases env.type_names.len() - k,
            {
                let u = &env.type_names[k];
                if super::calls::same_names(&u.module, module) && super::calls::same_names(
                    &u.path,
                    path,
                ) {
                    return u.name.clone();
                }
                k += 1;
            }
            last_of(path)
        },
        _ => "".to_owned(),
    }
}

fn collect_methods_of<'a>(
    env: &Env,
    path: &Vec<String>,
    i: &'a ImplDecl,
    out: &mut Vec<(String, &'a FnDecl)>,
)
    ensures
        methods_sem(final(out)@) == methods_of(
            *env,
            names_of(path@),
            i.sem(),
            i.sem().methods.len() as int,
            methods_sem(old(out)@),
        ),
{
    let ghost o = methods_sem(out@);
    let ghost s = i.sem();
    proof {
        lemma_fn_decls_of(i.methods@);
    }
    assert(s.methods == sems(i.methods@));
    assert(s.protocol == names_of(i.protocol@));
    assert(s.target == i.target.sem());
    let proto = last_of(&i.protocol);
    let head = head_as_written(env, path, &i.target);
    let mut k: usize = 0;
    while k < i.methods.len()
        invariant
            k <= i.methods.len(),
            s.methods == sems(i.methods@),
            proto@ == last_name(s.protocol),
            head@ == ast_head(*env, names_of(path@), s.target),
            methods_sem(out@) == methods_of(*env, names_of(path@), s, k as int, o),
        decreases i.methods.len() - k,
    {
        let m = &i.methods[k];
        assert(s.methods[k as int] == m.sem());
        assert(m.sem().body is Some == m.body is Some);
        assert(m.sem().name == m.name@);
        if m.body.is_some() {
            let key = mangle_impl(proto.as_str(), head.as_str(), m.name.as_str());
            let ghost before = methods_sem(out@);
            out.push((key, m));
            assert(methods_sem(out@) =~= before.push((key@, m.sem())));
        }
        k += 1;
    }
}

/// Collect the methods with bodies.
pub fn collect_methods<'a>(
    env: &Env,
    path: &Vec<String>,
    ds: &'a Vec<Decl>,
    out: &mut Vec<(String, &'a FnDecl)>,
)
    ensures
        methods_sem(final(out)@) == methods_in(
            *env,
            names_of(path@),
            sems(ds@),
            ds@.len() as int,
            methods_sem(old(out)@),
        ),
    decreases ds, 1int,
{
    let ghost o = methods_sem(out@);
    let mut k: usize = 0;
    while k < ds.len()
        invariant
            k <= ds.len(),
            methods_sem(out@) == methods_in(*env, names_of(path@), sems(ds@), k as int, o),
        decreases ds.len() - k,
    {
        assert(sems(ds@)[k as int] == ds[k as int].sem());
        collect_methods_from(env, path, &ds[k], out);
        k += 1;
    }
}

fn collect_methods_from<'a>(
    env: &Env,
    path: &Vec<String>,
    d: &'a Decl,
    out: &mut Vec<(String, &'a FnDecl)>,
)
    ensures
        methods_sem(final(out)@) == methods_from(
            *env,
            names_of(path@),
            d.sem(),
            methods_sem(old(out)@),
        ),
    decreases d, 2int,
{
    match &d.kind {
        DeclKind::Impl(i) => {
            assert(d.sem().kind == SDeclKind::Impl(i.sem()));
            collect_methods_of(env, path, i, out);
        },
        DeclKind::Mod(m) => {
            proof {
                lemma_decls_of(m.decls@);
            }
            let p = inner_path(path, &m.name);
            collect_methods(env, &p, &m.decls, out);
        },
        _ => {},
    }
}

/// The last method of a name.
pub fn find_method_body<'a>(ms: &Vec<(String, &'a FnDecl)>, key: &str) -> (r: Option<&'a FnDecl>)
    ensures
        match r {
            Some(f) => method_named(methods_sem(ms@), key@, ms@.len() as int) == Some(f.sem()),
            None => method_named(methods_sem(ms@), key@, ms@.len() as int) is None,
        },
        r matches Some(f) ==> exists|i: int| 0 <= i < ms.len() && (#[trigger] ms[i]).1 == f,
{
    let ghost s = methods_sem(ms@);
    let mut k: usize = ms.len();
    while k > 0
        invariant
            k <= ms.len(),
            s == methods_sem(ms@),
            method_named(s, key@, ms@.len() as int) == method_named(s, key@, k as int),
        decreases k,
    {
        assert(s[k - 1] == (ms[k - 1].0@, ms[k - 1].1.sem()));
        if crate::text::str_eq(ms[k - 1].0.as_str(), key) {
            return Some(ms[k - 1].1);
        }
        k -= 1;
    }
    None
}

/// Collect the tests of a kind.
pub fn collect_tests<'a>(
    path: &Vec<String>,
    kind: TestKind,
    ds: &'a Vec<Decl>,
    out: &mut Vec<(Vec<String>, &'a TestBlock)>,
)
    ensures
        tests_sem(final(out)@) == tests_in(
            names_of(path@),
            kind,
            sems(ds@),
            ds@.len() as int,
            tests_sem(old(out)@),
        ),
    decreases ds, 1int,
{
    let ghost o = tests_sem(out@);
    let mut k: usize = 0;
    while k < ds.len()
        invariant
            k <= ds.len(),
            tests_sem(out@) == tests_in(names_of(path@), kind, sems(ds@), k as int, o),
        decreases ds.len() - k,
    {
        assert(sems(ds@)[k as int] == ds[k as int].sem());
        collect_tests_of(path, kind, &ds[k], out);
        k += 1;
    }
}

fn collect_tests_of<'a>(
    path: &Vec<String>,
    kind: TestKind,
    d: &'a Decl,
    out: &mut Vec<(Vec<String>, &'a TestBlock)>,
)
    ensures
        tests_sem(final(out)@) == tests_of(names_of(path@), kind, d.sem(), tests_sem(old(out)@)),
    decreases d, 2int,
{
    let ghost o = tests_sem(out@);
    match &d.kind {
        DeclKind::TestBlock(t) => {
            assert(d.sem().kind == SDeclKind::TestBlock(t.sem()));
            assert(t.sem().kind == t.kind);
            if t.kind == kind {
                let p = copy_names(path);
                out.push((p, t));
                assert(tests_sem(out@) =~= o.push((names_of(path@), t.sem())));
            }
        },
        DeclKind::Mod(m) => {
            proof {
                lemma_decls_of(m.decls@);
            }
            let p = inner_path(path, &m.name);
            collect_tests(&p, kind, &m.decls, out);
        },
        _ => {},
    }
}

/// The tests of a kind in a module, in order.
pub fn tests_of_module<'a>(module: &'a Module, kind: TestKind) -> (r: Vec<
    (Vec<String>, &'a TestBlock),
>)
    ensures
        tests_sem(r@) == all_tests(module.sem(), kind),
{
    proof {
        lemma_decls_of(module.decls@);
    }
    let mut r: Vec<(Vec<String>, &'a TestBlock)> = Vec::new();
    let path: Vec<String> = Vec::new();
    assert(tests_sem(r@) =~= seq![]);
    assert(names_of(path@) =~= seq![]);
    collect_tests(&path, kind, &module.decls, &mut r);
    r
}

pub fn symbol_of_test(kind: TestKind, i: usize) -> (r: String)
    ensures
        r@ == test_symbol(kind, i as int),
{
    let mut r = match kind {
        TestKind::Test => "__neon_test_".to_owned(),
        TestKind::Bench => "__neon_bench_".to_owned(),
    };
    push_dec(&mut r, i as u64);
    r
}

/// The tests of a module, in source order, each with the name of the function that it
/// becomes.
pub fn test_entries(module: &Module) -> (r: Vec<TestEntry>)
    ensures
        r.len() == all_tests(module.sem(), TestKind::Test).len(),
        forall|i: int|
            0 <= i < r.len() ==> (#[trigger] r[i]).name@ == all_tests(
                module.sem(),
                TestKind::Test,
            )[i].1.name && r[i].symbol@ == test_symbol(TestKind::Test, i),
{
    let ts = tests_of_module(module, TestKind::Test);
    let ghost s = tests_sem(ts@);
    let mut r: Vec<TestEntry> = Vec::new();
    let mut i: usize = 0;
    while i < ts.len()
        invariant
            i <= ts.len(),
            s == tests_sem(ts@),
            r.len() == i,
            forall|k: int|
                0 <= k < i ==> (#[trigger] r[k]).name@ == s[k].1.name && r[k].symbol@
                    == test_symbol(TestKind::Test, k),
        decreases ts.len() - i,
    {
        assert(s[i as int].1 == ts[i as int].1.sem());
        assert(ts[i as int].1.sem().name == ts[i as int].1.name@);
        r.push(
            TestEntry { name: ts[i].1.name.clone(), symbol: symbol_of_test(TestKind::Test, i) },
        );
        i += 1;
    }
    r
}

} // verus!
