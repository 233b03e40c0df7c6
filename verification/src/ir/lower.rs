//! Lowering: from a checked module to functions in SSA form.
//!
//! Functions that are not generic are lowered as they stand, and so are the methods of
//! implementations. Lambdas become functions of their own, and a generic function becomes one
//! function for each layout that it is called with. Both are found on the way, wait in lists,
//! and are lowered once for each name.

use self::calls::{find_use, head_of_impl, impl_head, use_from};
use self::funcs::{
    is_test_func, lower_lambda_job, lower_test_block, lower_with, lowered_ok, owned, sound, x_fn,
    x_lambda_fn, x_test, Lowered, SLowered,
};
use self::items::{
    all_bodied, all_methods_bodied, all_tests, collect_fns, collect_methods, find_fn,
    find_method_body, fn_from, fns_in, items_sem, lemma_fns_have_bodies, lemma_methods_have_bodies,
    method_named, methods_in, methods_sem, symbol_of_test, test_symbol, tests_of_module, tests_sem,
    SItem, SMethod, STest,
};
use self::keys::{lemma_dec_apart, lemma_dec_digits};
use self::names::{is_made, mangle, mangle_impl, mangled, mangled_impl};
use self::state::{all_instances, all_lambdas, Ctx, InstanceJob, LambdaJob, SInstanceJob, SLambdaJob};
use self::subst::Subst;
use crate::ast::{FnDecl, Module, TestBlock, TestKind};
use crate::check::{env_wf, facts_wf, impl_wf, sig_wf, Env, Facts, FnSig, ImplDef};
use crate::ir::repr::layout::{
    boxed_shapes, cut_of, cuts, recursive_unfoldings, shapes_sem, unfoldings_sem, with_shapes,
    with_unfoldings, Cuts,
};
use crate::ir::repr::{Repr, SRepr};
use crate::ir::ssa::{Func, Program, SFunc, SProgram};
use crate::syntax::{lemma_decls_of, lemma_params_of, names_of, sems, Node, SModule};
use crate::text::{dec, has_prefix, starts_with, str_eq};
use crate::types::{TyId, Types};
use vstd::prelude::*;

pub use self::items::{test_entries, TestEntry};

pub mod called;
pub mod calls;
pub mod describe;
pub mod expr;
pub mod forms;
pub mod funcs;
pub mod items;
pub mod keys;
pub mod meaning;
pub mod looped;
pub mod names;
pub mod parts;
pub mod scan;
pub mod scheme;
pub mod state;
pub mod subst;

verus! {

/// What has been lowered, and what is still to be.
pub struct SWork {
    pub funcs: Seq<SFunc>,
    pub lambdas: Seq<SLambdaJob>,
    pub instances: Seq<SInstanceJob>,
    /// The names that are done.
    pub done: Seq<Seq<char>>,
}

/// Mark a name as done.
pub open spec fn marked(w: SWork, name: Seq<char>) -> SWork {
    SWork { done: w.done.push(name), ..w }
}

/// Add a function and what was found in it.
pub open spec fn added(w: SWork, name: Seq<char>, r: SLowered) -> SWork {
    SWork {
        funcs: w.funcs.push(r.func),
        lambdas: w.lambdas + r.pending,
        instances: w.instances + r.instances,
        done: w.done.push(name),
    }
}

/// A library: where its declarations stand, and what they are.
pub type SLib = (Seq<Seq<char>>, SModule);

/// The functions of a module and of the first `k` libraries.
pub open spec fn program_fns(m: SModule, libs: Seq<SLib>, k: int) -> Seq<SItem>
    decreases k,
{
    if k <= 0 {
        fns_in(seq![], m.decls, m.decls.len() as int, seq![])
    } else {
        let d = libs[k - 1].1.decls;
        fns_in(libs[k - 1].0, d, d.len() as int, program_fns(m, libs, k - 1))
    }
}

/// The methods of a module and of the first `k` libraries.
pub open spec fn program_methods(env: Env, m: SModule, libs: Seq<SLib>, k: int) -> Seq<SMethod>
    decreases k,
{
    if k <= 0 {
        methods_in(env, seq![], m.decls, m.decls.len() as int, seq![])
    } else {
        let d = libs[k - 1].1.decls;
        methods_in(env, libs[k - 1].0, d, d.len() as int, program_methods(env, m, libs, k - 1))
    }
}

/// The signature of a function of a module.
pub open spec fn sig_named(env: Env, module: Seq<Seq<char>>, name: Seq<char>) -> Option<FnSig> {
    match use_from(env.fn_names@, module, seq![name], 0) {
        Some(i) => Some(env.fns@[i as int]),
        None => None,
    }
}

/// Lower the first `k` functions that are not generic.
pub open spec fn x_fns(c: Ctx, w: SWork, fs: Seq<SItem>, k: int) -> SWork
    decreases k,
{
    if k <= 0 {
        w
    } else {
        let before = x_fns(c, w, fs, k - 1);
        let (module, f) = fs[k - 1];
        if f.generics.len() > 0 {
            before
        } else {
            let name = mangled(module, f.name);
            added(
                before,
                name,
                x_fn(
                    c,
                    name,
                    module,
                    seq![],
                    sig_named(c.env, module, f.name),
                    f.params,
                    f.body->0,
                ),
            )
        }
    }
}

/// Lower the first `k` tests.
pub open spec fn x_tests(c: Ctx, w: SWork, ts: Seq<STest>, kind: TestKind, k: int) -> SWork
    decreases k,
{
    if k <= 0 {
        w
    } else {
        let name = test_symbol(kind, k - 1);
        added(
            x_tests(c, w, ts, kind, k - 1),
            name,
            x_test(c, name, ts[k - 1].0, ts[k - 1].1),
        )
    }
}

/// The name of a method of an implementation.
pub open spec fn method_key(env: Env, d: ImplDef, sig: FnSig) -> Seq<char> {
    mangled_impl(env.protocols@[d.protocol as int]@, impl_head(env, d), sig.name@)
}

/// Lower the first `k` methods of an implementation, those that are not generic.
pub open spec fn x_impl(c: Ctx, w: SWork, ms: Seq<SMethod>, d: ImplDef, k: int) -> SWork
    decreases k,
{
    if k <= 0 {
        w
    } else {
        let before = x_impl(c, w, ms, d, k - 1);
        let sig = d.methods@[k - 1];
        let name = method_key(c.env, d, sig);
        if !sig.has_body || sig.generics.len() > 0 {
            before
        } else {
            match method_named(ms, name, ms.len() as int) {
                Some(f) => added(
                    before,
                    name,
                    x_fn(
                        c,
                        name,
                        names_of(d.module@),
                        seq![],
                        Some(sig),
                        f.params,
                        f.body->0,
                    ),
                ),
                None => before,
            }
        }
    }
}

/// Lower the methods of the first `k` implementations.
pub open spec fn x_impls(c: Ctx, w: SWork, ms: Seq<SMethod>, k: int) -> SWork
    decreases k,
{
    if k <= 0 {
        w
    } else {
        let d = c.env.impls@[k - 1];
        x_impl(c, x_impls(c, w, ms, k - 1), ms, d, d.methods.len() as int)
    }
}

/// The signature of the method of an implementation that has a name, from method `j` on.
pub open spec fn key_in_impl(env: Env, d: ImplDef, key: Seq<char>, j: int) -> Option<FnSig>
    decreases d.methods.len() - j,
{
    if j >= d.methods.len() {
        None
    } else if method_key(env, d, d.methods@[j]) == key {
        Some(d.methods@[j])
    } else {
        key_in_impl(env, d, key, j + 1)
    }
}

/// The signature of the method that has a name, from implementation `k` on.
pub open spec fn impl_method_sig(env: Env, key: Seq<char>, k: int) -> Option<FnSig>
    decreases env.impls.len() - k,
{
    if k >= env.impls.len() {
        None
    } else {
        match key_in_impl(env, env.impls@[k], key, 0) {
            Some(s) => Some(s),
            None => impl_method_sig(env, key, k + 1),
        }
    }
}

/// Lower an instance, if its body and its signature are there.
pub open spec fn x_instance(
    c: Ctx,
    fs: Seq<SItem>,
    ms: Seq<SMethod>,
    job: SInstanceJob,
) -> Option<SLowered> {
    let (body, sig) = match job.impl_key {
        Some(key) => (
            method_named(ms, key, ms.len() as int),
            impl_method_sig(c.env, key, 0),
        ),
        None => (
            fn_from(fs, job.module, job.fn_name, fs.len() as int),
            sig_named(c.env, job.module, job.fn_name),
        ),
    };
    match (body, sig) {
        (Some(f), Some(s)) => Some(
            x_fn(c, job.mangled, job.module, job.subst, Some(s), f.params, f.body->0),
        ),
        _ => None,
    }
}

/// One job: the last lambda, or else the last instance. One whose name is done is dropped.
pub open spec fn x_job(c: Ctx, fs: Seq<SItem>, ms: Seq<SMethod>, w: SWork) -> SWork {
    if w.lambdas.len() > 0 {
        let job = w.lambdas.last();
        let rest = SWork { lambdas: w.lambdas.drop_last(), ..w };
        if w.done.contains(job.name) {
            rest
        } else {
            added(rest, job.name, x_lambda_fn(c, job))
        }
    } else {
        let job = w.instances.last();
        let rest = SWork { instances: w.instances.drop_last(), ..w };
        if w.done.contains(job.mangled) {
            rest
        } else {
            match x_instance(c, fs, ms, job) {
                Some(r) => added(rest, job.mangled, r),
                None => marked(rest, job.mangled),
            }
        }
    }
}

/// Jobs until there are none. What calls itself at ever new layouts has no end of them: no
/// more than `n` are done.
pub open spec fn x_jobs(c: Ctx, fs: Seq<SItem>, ms: Seq<SMethod>, w: SWork, n: nat) -> SWork
    decreases n,
{
    if n == 0 || w.lambdas.len() == 0 && w.instances.len() == 0 {
        w
    } else {
        x_jobs(c, fs, ms, x_job(c, fs, ms, w), (n - 1) as nat)
    }
}

/// The functions of a program.
pub open spec fn x_funcs(
    c: Ctx,
    m: SModule,
    libs: Seq<SLib>,
    tests: Option<TestKind>,
    n: nat,
) -> Seq<SFunc> {
    let fs = program_fns(m, libs, libs.len() as int);
    let ms = program_methods(c.env, m, libs, libs.len() as int);
    let w0 = SWork { funcs: seq![], lambdas: seq![], instances: seq![], done: seq![] };
    let w1 = x_fns(c, w0, fs, fs.len() as int);
    let w2 = match tests {
        Some(kind) => x_tests(
            c,
            w1,
            all_tests(m, kind),
            kind,
            all_tests(m, kind).len() as int,
        ),
        None => w1,
    };
    let w3 = x_impls(c, w2, ms, c.env.impls.len() as int);
    x_jobs(c, fs, ms, w3, n).funcs
}

/// Whether something has a type.
pub open spec fn is_used(facts: Facts, ty: int) -> bool {
    exists|i: int|
        0 <= i < facts.types.len() && ((#[trigger] facts.types@[i]) matches Some(t) && t.0 == ty)
}

/// The recursive types that the first `n` types are made of, where they are used.
pub open spec fn unfoldings_used(t: Types, facts: Facts, n: int) -> Seq<(TyId, SRepr)>
    decreases n,
{
    if n <= 0 {
        seq![]
    } else {
        let before = unfoldings_used(t, facts, n - 1);
        if is_used(facts, n - 1) {
            with_unfoldings(t, TyId((n - 1) as u32), before, t.data.len() as int)
        } else {
            before
        }
    }
}

/// The boxed records that the first `n` types mention, where they are used.
pub open spec fn shapes_used(t: Types, facts: Facts, n: int) -> Seq<(u32, SRepr)>
    decreases n,
{
    if n <= 0 {
        seq![]
    } else {
        let before = shapes_used(t, facts, n - 1);
        if is_used(facts, n - 1) {
            with_shapes(t, TyId((n - 1) as u32), before, t.rec_atoms.len() as int)
        } else {
            before
        }
    }
}

/// The symbols of the native functions, among the first `k`, that are declared pure.
pub open spec fn pure_symbols(fns: Seq<FnSig>, k: int) -> Seq<Seq<char>>
    decreases k,
{
    if k <= 0 {
        seq![]
    } else {
        let before = pure_symbols(fns, k - 1);
        match fns[k - 1].native {
            Some(s) => if fns[k - 1].pure {
                before.push(s@)
            } else {
                before
            },
            None => before,
        }
    }
}

/// Whether a function is, or is an instance of, one that is asked to be inlined.
pub open spec fn is_inlined(fns: Seq<FnSig>, name: Seq<char>) -> bool {
    exists|i: int| 0 <= i < fns.len() && inlines(#[trigger] fns[i], name)
}

pub open spec fn inlines(sig: FnSig, name: Seq<char>) -> bool {
    let base = mangled(names_of(sig.module@), sig.name@);
    sig.inline && (name == base || has_prefix(name, base + "$"@))
}

pub open spec fn inlined_names(fns: Seq<FnSig>, fs: Seq<SFunc>, k: int) -> Seq<Seq<char>>
    decreases k,
{
    if k <= 0 {
        seq![]
    } else {
        let before = inlined_names(fns, fs, k - 1);
        if is_inlined(fns, fs[k - 1].name) {
            before.push(fs[k - 1].name)
        } else {
            before
        }
    }
}

/// The program that a module becomes, with at most `n` lambdas and instances.
pub open spec fn x_program(
    c: Ctx,
    m: SModule,
    libs: Seq<SLib>,
    tests: Option<TestKind>,
    n: nat,
) -> SProgram {
    let funcs = x_funcs(c, m, libs, tests, n);
    SProgram {
        funcs,
        recursive: unfoldings_used(c.env.types, c.facts, c.env.types.data.len() as int),
        boxed: shapes_used(c.env.types, c.facts, c.env.types.data.len() as int),
        pure_natives: pure_symbols(c.env.fns@, c.env.fns.len() as int),
        inlined: inlined_names(c.env.fns@, funcs, funcs.len() as int),
    }
}

// ---- laws ----

proof fn lemma_jobs_grow(c: Ctx, fs: Seq<SItem>, ms: Seq<SMethod>, w: SWork, n: nat)
    ensures
        w.funcs.len() <= x_jobs(c, fs, ms, w, n).funcs.len(),
        x_jobs(c, fs, ms, w, n).funcs.take(w.funcs.len() as int) == w.funcs,
    decreases n,
{
    if n == 0 || w.lambdas.len() == 0 && w.instances.len() == 0 {
        assert(w.funcs.take(w.funcs.len() as int) =~= w.funcs);
    } else {
        let v = x_job(c, fs, ms, w);
        lemma_jobs_grow(c, fs, ms, v, (n - 1) as nat);
        let end = x_jobs(c, fs, ms, v, (n - 1) as nat).funcs;
        assert(end.take(w.funcs.len() as int) =~= end.take(v.funcs.len() as int).take(
            w.funcs.len() as int,
        ));
        assert(v.funcs.take(w.funcs.len() as int) =~= w.funcs);
    }
}

proof fn lemma_impl_grows(c: Ctx, w: SWork, ms: Seq<SMethod>, d: ImplDef, k: int)
    ensures
        w.funcs.len() <= x_impl(c, w, ms, d, k).funcs.len(),
        x_impl(c, w, ms, d, k).funcs.take(w.funcs.len() as int) == w.funcs,
    decreases k,
{
    if k > 0 {
        lemma_impl_grows(c, w, ms, d, k - 1);
        let before = x_impl(c, w, ms, d, k - 1).funcs;
        assert(x_impl(c, w, ms, d, k).funcs.take(w.funcs.len() as int) =~= before.take(
            w.funcs.len() as int,
        ));
    } else {
        assert(w.funcs.take(w.funcs.len() as int) =~= w.funcs);
    }
}

proof fn lemma_impls_grow(c: Ctx, w: SWork, ms: Seq<SMethod>, k: int)
    ensures
        w.funcs.len() <= x_impls(c, w, ms, k).funcs.len(),
        x_impls(c, w, ms, k).funcs.take(w.funcs.len() as int) == w.funcs,
    decreases k,
{
    if k > 0 {
        lemma_impls_grow(c, w, ms, k - 1);
        let before = x_impls(c, w, ms, k - 1);
        let d = c.env.impls@[k - 1];
        lemma_impl_grows(c, before, ms, d, d.methods.len() as int);
        let after = x_impls(c, w, ms, k).funcs;
        assert(after.take(w.funcs.len() as int) =~= after.take(before.funcs.len() as int).take(
            w.funcs.len() as int,
        ));
    } else {
        assert(w.funcs.take(w.funcs.len() as int) =~= w.funcs);
    }
}

proof fn lemma_tests_keep(c: Ctx, w: SWork, ts: Seq<STest>, kind: TestKind, k: int)
    requires
        k >= 0,
    ensures
        w.funcs.len() <= x_tests(c, w, ts, kind, k).funcs.len(),
        x_tests(c, w, ts, kind, k).funcs.take(w.funcs.len() as int) == w.funcs,
    decreases k,
{
    if k > 0 {
        lemma_tests_keep(c, w, ts, kind, k - 1);
        let before = x_tests(c, w, ts, kind, k - 1).funcs;
        assert(x_tests(c, w, ts, kind, k).funcs.take(w.funcs.len() as int) =~= before.take(
            w.funcs.len() as int,
        ));
    } else {
        assert(w.funcs.take(w.funcs.len() as int) =~= w.funcs);
    }
}

proof fn lemma_tests_in_order(c: Ctx, w: SWork, ts: Seq<STest>, kind: TestKind, k: int)
    requires
        k >= 0,
    ensures
        x_tests(c, w, ts, kind, k).funcs.len() == w.funcs.len() + k,
        forall|i: int|
            0 <= i < k ==> #[trigger] x_tests(c, w, ts, kind, k).funcs[w.funcs.len() + i]
                == x_test(c, test_symbol(kind, i), ts[i].0, ts[i].1).func,
    decreases k,
{
    if k > 0 {
        lemma_tests_in_order(c, w, ts, kind, k - 1);
        let before = x_tests(c, w, ts, kind, k - 1).funcs;
        assert forall|i: int| 0 <= i < k implies #[trigger] x_tests(
            c,
            w,
            ts,
            kind,
            k,
        ).funcs[w.funcs.len() + i] == x_test(c, test_symbol(kind, i), ts[i].0, ts[i].1).func by {
            if i < k - 1 {
                assert(x_tests(c, w, ts, kind, k).funcs[w.funcs.len() + i]
                    == before[w.funcs.len() + i]);
            }
        }
    }
}

proof fn lemma_kind_shows(kind: TestKind, i: int)
    ensures
        test_symbol(kind, i)[7] == if kind == TestKind::Test {
            't'
        } else {
            'b'
        },
{
    reveal_strlit("__neon_test_");
    reveal_strlit("__neon_bench_");
    match kind {
        TestKind::Test => {
            assert(test_symbol(kind, i)[7] == "__neon_test_"@[7]);
        },
        TestKind::Bench => {
            assert(test_symbol(kind, i)[7] == "__neon_bench_"@[7]);
        },
    }
}

/// No two tests become functions of one name.
pub proof fn tests_have_names_of_their_own(a: TestKind, b: TestKind, i: int, j: int)
    requires
        0 <= i,
        0 <= j,
        test_symbol(a, i) == test_symbol(b, j),
    ensures
        a == b,
        i == j,
{
    reveal_strlit("__neon_test_");
    reveal_strlit("__neon_bench_");
    lemma_kind_shows(a, i);
    lemma_kind_shows(b, j);
    let head = match a {
        TestKind::Test => "__neon_test_"@,
        TestKind::Bench => "__neon_bench_"@,
    };
    assert(a == b);
    assert(test_symbol(a, i).skip(head.len() as int) =~= dec(i as nat));
    assert(test_symbol(b, j).skip(head.len() as int) =~= dec(j as nat));
    lemma_dec_apart(i as nat, j as nat);
}

proof fn lemma_test_is_not_made(kind: TestKind, i: int)
    requires
        0 <= i,
    ensures
        !is_made(test_symbol(kind, i)),
{
    reveal_strlit("__neon_test_");
    reveal_strlit("__neon_bench_");
    lemma_dec_digits(i as nat);
    let head = match kind {
        TestKind::Test => "__neon_test_"@,
        TestKind::Bench => "__neon_bench_"@,
    };
    let s = test_symbol(kind, i);
    assert forall|k: int| 0 <= k < s.len() implies s[k] != '$' by {
        if k >= head.len() {
            assert(s[k] == dec(i as nat)[k - head.len()]);
        }
    }
}

/// From place `at` on stand the tests of a module, under the names that they are listed by,
/// without parameters, values and errors.
pub open spec fn tests_named(
    fs: Seq<SFunc>,
    at: nat,
    m: SModule,
    tests: Option<TestKind>,
) -> bool {
    tests matches Some(kind) ==> forall|i: int|
        0 <= i < all_tests(m, kind).len() ==> at + i < fs.len() && (#[trigger] fs[at + i]).name
            == test_symbol(kind, i) && is_test_func(fs[at + i])
}

/// Whether a function of the source has a name.
pub open spec fn is_declared(fs: Seq<SItem>, name: Seq<char>) -> bool {
    exists|k: int| 0 <= k < fs.len() && mangled((#[trigger] fs[k]).0, fs[k].1.name) == name
}

/// Whether no function of a module or a library has the name of a test.
pub open spec fn declares_no_test(m: SModule, libs: Seq<SLib>) -> bool {
    no_test_declared(program_fns(m, libs, libs.len() as int))
}

/// Whether no function of the source has the name of a test.
pub open spec fn no_test_declared(fs: Seq<SItem>) -> bool {
    forall|kind: TestKind, i: int| 0 <= i ==> !is_declared(fs, #[trigger] test_symbol(kind, i))
}

/// Functions among which those of the names of tests are the tests of a module, each once,
/// from place `at` on; and none where tests are left out.
pub open spec fn just_the_tests(
    fs: Seq<SFunc>,
    at: nat,
    m: SModule,
    tests: Option<TestKind>,
) -> bool {
    forall|j: int, kind: TestKind, i: int|
        0 <= j < fs.len() && 0 <= i && (#[trigger] fs[j]).name == #[trigger] test_symbol(kind, i)
            ==> tests == Some(kind) && i < all_tests(m, kind).len() && j == at + i
}

/// The functions of a module that are not generic, lowered.
pub open spec fn plain_funcs(c: Ctx, m: SModule, libs: Seq<SLib>) -> Seq<SFunc> {
    let fs = program_fns(m, libs, libs.len() as int);
    let w0 = SWork { funcs: seq![], lambdas: seq![], instances: seq![], done: seq![] };
    x_fns(c, w0, fs, fs.len() as int).funcs
}

/// The tests of a module stand in its program one after the other, in source order, behind
/// the functions that are not generic: test `i` is the block that the list of tests gives
/// that place, lowered under the name that the list gives it.
pub proof fn tests_stand_in_order(
    c: Ctx,
    m: SModule,
    libs: Seq<SLib>,
    kind: TestKind,
    n: nat,
    i: int,
)
    requires
        0 <= i < all_tests(m, kind).len(),
    ensures
        plain_funcs(c, m, libs).len() + i < x_funcs(c, m, libs, Some(kind), n).len(),
        x_funcs(c, m, libs, Some(kind), n)[plain_funcs(c, m, libs).len() + i] == x_test(
            c,
            test_symbol(kind, i),
            all_tests(m, kind)[i].0,
            all_tests(m, kind)[i].1,
        ).func,
{
    let fs = program_fns(m, libs, libs.len() as int);
    let ms = program_methods(c.env, m, libs, libs.len() as int);
    let w0 = SWork { funcs: seq![], lambdas: seq![], instances: seq![], done: seq![] };
    let w1 = x_fns(c, w0, fs, fs.len() as int);
    let ts = all_tests(m, kind);
    lemma_tests_in_order(c, w1, ts, kind, ts.len() as int);
    let w2 = x_tests(c, w1, ts, kind, ts.len() as int);
    lemma_impls_grow(c, w2, ms, c.env.impls.len() as int);
    let w3 = x_impls(c, w2, ms, c.env.impls.len() as int);
    lemma_jobs_grow(c, fs, ms, w3, n);
    let end = x_jobs(c, fs, ms, w3, n).funcs;
    let at = w1.funcs.len() + i;
    assert(w2.funcs[at] == w3.funcs.take(w2.funcs.len() as int)[at]);
    assert(w3.funcs[at] == end.take(w3.funcs.len() as int)[at]);
}

/// No lambda and no instance is lowered twice: jobs leave a run of names without duplicates
/// without duplicates.
pub proof fn no_name_is_lowered_twice(
    c: Ctx,
    fs: Seq<SItem>,
    ms: Seq<SMethod>,
    w: SWork,
    n: nat,
)
    requires
        w.done.no_duplicates(),
    ensures
        x_jobs(c, fs, ms, w, n).done.no_duplicates(),
    decreases n,
{
    if n > 0 && (w.lambdas.len() > 0 || w.instances.len() > 0) {
        no_name_is_lowered_twice(c, fs, ms, x_job(c, fs, ms, w), (n - 1) as nat);
    }
}

pub open spec fn libs_sem(libs: Seq<(Vec<String>, Module)>) -> Seq<SLib> {
    libs.map_values(|p: (Vec<String>, Module)| (names_of(p.0@), p.1.sem()))
}

proof fn lemma_tests_still_named(
    at: nat,
    fs: Seq<SFunc>,
    end: Seq<SFunc>,
    m: SModule,
    tests: Option<TestKind>,
)
    requires
        fs.len() <= end.len(),
        end.take(fs.len() as int) == fs,
        tests_named(fs, at, m, tests),
    ensures
        tests_named(end, at, m, tests),
{
    if let Some(kind) = tests {
        assert forall|i: int| 0 <= i < all_tests(m, kind).len() implies at + i < end.len() && (
        #[trigger] end[at + i]).name == test_symbol(kind, i) && is_test_func(end[at + i]) by {
            assert(fs[at + i].name == test_symbol(kind, i));
            assert(end.take(fs.len() as int)[at + i] == end[at + i]);
        }
    }
}

/// Plain functions, then tests, then functions of names that lowering makes.
proof fn lemma_just_the_tests(
    fs: Seq<SItem>,
    plain: Seq<SFunc>,
    more: Seq<SFunc>,
    end: Seq<SFunc>,
    m: SModule,
    tests: Option<TestKind>,
)
    requires
        no_test_declared(fs),
        all_declared(fs, plain),
        plain.len() <= more.len() <= end.len(),
        more.take(plain.len() as int) == plain,
        end.take(more.len() as int) == more,
        more.len() == plain.len() + match tests {
            Some(kind) => all_tests(m, kind).len(),
            None => 0,
        },
        tests_named(more, plain.len(), m, tests),
        made_from(end, more.len() as int),
    ensures
        just_the_tests(end, plain.len(), m, tests),
{
    reveal(made_from);
    reveal(all_declared);
    let at = plain.len();
    assert forall|j: int, kind: TestKind, i: int|
        0 <= j < end.len() && 0 <= i && (#[trigger] end[j]).name == #[trigger] test_symbol(
            kind,
            i,
        ) implies tests == Some(kind) && i < all_tests(m, kind).len() && j == at + i by {
        lemma_test_is_not_made(kind, i);
        assert(j < more.len());
        assert(end.take(more.len() as int)[j] == more[j]);
        if j < at {
            assert(more.take(at as int)[j] == plain[j]);
            assert(is_declared(fs, plain[j].name));
        } else {
            let (k, x) = (tests->0, j - at);
            assert(more[at + x].name == test_symbol(k, x));
            tests_have_names_of_their_own(k, kind, x, i);
        }
    }
}

// ---- doing it ----

struct Work<'a> {
    funcs: Vec<Func>,
    lambdas: Vec<LambdaJob<'a>>,
    instances: Vec<InstanceJob>,
    done: Vec<String>,
}

impl<'a> Node for Work<'a> {
    type V = SWork;

    closed spec fn sem(&self) -> SWork {
        SWork {
            funcs: sems(self.funcs@),
            lambdas: sems(self.lambdas@),
            instances: sems(self.instances@),
            done: names_of(self.done@),
        }
    }
}

impl<'a> Work<'a> {
    closed spec fn wf(&self) -> bool {
        &&& all_lambdas(self.sem().lambdas)
        &&& all_instances(self.sem().instances)
        &&& forall|i: int| 0 <= i < self.funcs.len() ==> sound((#[trigger] self.funcs[i]).sem())
    }

    fn add_func(&mut self, name: String, r: Lowered<'a>)
        requires
            old(self).wf(),
            lowered_ok(r.sem()),
            r.sem().func.name == name@,
        ensures
            final(self).wf(),
            final(self).sem() == added(old(self).sem(), name@, r.sem()),
            is_made(name@) ==> forall|at: int| #[trigger]
                made_from(old(self).sem().funcs, at) ==> made_from(final(self).sem().funcs, at),
            forall|fs: Seq<SItem>|
                #![trigger all_declared(fs, old(self).sem().funcs)]
                all_declared(fs, old(self).sem().funcs) && is_declared(fs, name@) ==> all_declared(
                    fs,
                    final(self).sem().funcs,
                ),
    {
        let ghost b = *self;
        let ghost x = r.sem();
        let ghost want = added(b.sem(), name@, x);
        let mut pending = r.pending;
        let mut instances = r.instances;
        let ghost (p, q) = (pending@, instances@);
        self.funcs.push(r.func);
        self.lambdas.append(&mut pending);
        self.instances.append(&mut instances);
        self.done.push(name);
        assert(sems(self.funcs@) =~= want.funcs);
        assert(self.lambdas@ == b.lambdas@ + p);
        assert(sems(self.lambdas@) =~= sems(b.lambdas@) + sems(p));
        assert(sems(self.instances@) =~= sems(b.instances@) + sems(q));
        assert(names_of(self.done@) =~= want.done);
        assert(self.sem() == want);
        assert forall|i: int| 0 <= i < want.instances.len() implies is_made(
            (#[trigger] want.instances[i]).mangled,
        ) by {
            if i < b.sem().instances.len() {
                assert(want.instances[i] == b.sem().instances[i]);
            } else {
                assert(want.instances[i] == r.sem().instances[i - b.sem().instances.len()]);
            }
        }
        assert forall|i: int| 0 <= i < want.lambdas.len() implies (
        #[trigger] want.lambdas[i]).lambda.kind is Lambda && is_made(want.lambdas[i].name) by {
            if i < b.sem().lambdas.len() {
                assert(want.lambdas[i] == b.sem().lambdas[i]);
            } else {
                assert(want.lambdas[i] == r.sem().pending[i - b.sem().lambdas.len()]);
            }
        }
        assert forall|i: int| 0 <= i < self.funcs.len() implies sound(
            (#[trigger] self.funcs[i]).sem(),
        ) by {
            if i < b.funcs.len() {
                assert(self.funcs[i] == b.funcs[i]);
            }
        }
        assert forall|at: int| is_made(name@) && #[trigger] made_from(
            b.sem().funcs,
            at,
        ) implies made_from(self.sem().funcs, at) by {
            lemma_one_more_made(b.sem().funcs, x.func, at);
        }
        assert forall|fs: Seq<SItem>|
            #![trigger all_declared(fs, b.sem().funcs)]
            all_declared(fs, b.sem().funcs) && is_declared(fs, name@) implies all_declared(
            fs,
            self.sem().funcs,
        ) by {
            lemma_one_more_declared(fs, b.sem().funcs, x.func);
        }
    }

    fn is_done(&self, name: &str) -> (r: bool)
        ensures
            r == self.sem().done.contains(name@),
    {
        let ghost s = self.sem().done;
        let mut k: usize = 0;
        while k < self.done.len()
            invariant
                k <= self.done.len(),
                s == names_of(self.done@),
                forall|i: int| 0 <= i < k ==> (#[trigger] s[i]) != name@,
            decreases self.done.len() - k,
        {
            assert(s[k as int] == self.done[k as int]@);
            if str_eq(self.done[k].as_str(), name) {
                return true;
            }
            k += 1;
        }
        false
    }
}

/// Functions of names that the source gives.
#[verifier::opaque]
spec fn all_declared(fs: Seq<SItem>, funcs: Seq<SFunc>) -> bool {
    forall|j: int| 0 <= j < funcs.len() ==> is_declared(fs, (#[trigger] funcs[j]).name)
}

/// From place `at` on, functions of names that lowering makes.
#[verifier::opaque]
spec fn made_from(funcs: Seq<SFunc>, at: int) -> bool {
    forall|j: int| 0 <= j < funcs.len() && at <= j ==> is_made((#[trigger] funcs[j]).name)
}

proof fn lemma_one_more_declared(fs: Seq<SItem>, funcs: Seq<SFunc>, f: SFunc)
    requires
        all_declared(fs, funcs),
        is_declared(fs, f.name),
    ensures
        all_declared(fs, funcs.push(f)),
{
    reveal(all_declared);
}

proof fn lemma_one_more_made(funcs: Seq<SFunc>, f: SFunc, at: int)
    requires
        made_from(funcs, at),
        is_made(f.name),
    ensures
        made_from(funcs.push(f), at),
{
    reveal(made_from);
}

/// What lowering goes by, with the bodies that it finds.
struct Source<'a> {
    env: &'a Env,
    facts: &'a Facts,
    cuts: &'a Cuts,
    fns: Vec<(Vec<String>, &'a FnDecl)>,
    methods: Vec<(String, &'a FnDecl)>,
}

impl<'a> Source<'a> {
    closed spec fn ctx(&self) -> Ctx {
        Ctx { env: *self.env, facts: *self.facts }
    }

    closed spec fn wf(&self) -> bool {
        &&& env_wf(*self.env)
        &&& facts_wf(*self.env, *self.facts)
        &&& self.cuts@ == cut_of(self.env.types)
        &&& forall|i: int| 0 <= i < self.fns.len() ==> (#[trigger] self.fns[i]).1.body is Some
        &&& forall|i: int|
            0 <= i < self.methods.len() ==> (#[trigger] self.methods[i]).1.body is Some
    }
}

/// The signature of a function of a module.
fn find_sig<'a>(env: &'a Env, module: &Vec<String>, name: &String) -> (r: Option<&'a FnSig>)
    requires
        env_wf(*env),
    ensures
        owned(r) == sig_named(*env, names_of(module@), name@),
        r matches Some(s) ==> sig_wf(*env, *s),
{
    let mut path: Vec<String> = Vec::new();
    path.push(name.clone());
    assert(names_of(path@) =~= seq![name@]);
    match find_use(&env.fn_names, module, &path) {
        Some(i) => Some(&env.fns[i]),
        None => None,
    }
}

impl<'a> Source<'a> {
    /// Lower a body in an instance.
    fn lower(
        &self,
        name: &str,
        module: &Vec<String>,
        subst: &Subst,
        sig: Option<&FnSig>,
        f: &'a FnDecl,
    ) -> (r: Lowered<'a>)
        requires
            self.wf(),
            f.body is Some,
            sig matches Some(s) ==> sig_wf(*self.env, *s),
        ensures
            r.sem() == x_fn(
                self.ctx(),
                name@,
                names_of(module@),
                subst@,
                owned(sig),
                f.sem().params,
                f.sem().body->0,
            ),
            lowered_ok(r.sem()),
            r.sem().func.name == name@,
    {
        proof {
            lemma_params_of(f.params@);
            assert(f.sem().params == sems(f.params@));
        }
        let b = f.body.as_ref().unwrap();
        assert(f.sem().body == Some(b.sem()));
        lower_with(self.env, self.facts, self.cuts, name, module, subst, sig, &f.params, b)
    }

    fn lower_fns(&self, w: &mut Work<'a>)
        requires
            self.wf(),
            old(w).wf(),
        ensures
            final(w).wf(),
            final(w).sem() == x_fns(
                self.ctx(),
                old(w).sem(),
                items_sem(self.fns@),
                self.fns.len() as int,
            ),
            old(w).sem().funcs.len() == 0 ==> all_declared(
                items_sem(self.fns@),
                final(w).sem().funcs,
            ),
    {
        let ghost s = w.sem();
        let ghost fs = items_sem(self.fns@);
        proof {
            reveal(all_declared);
        }
        let none = Subst::new();
        let mut k: usize = 0;
        while k < self.fns.len()
            invariant
                k <= self.fns.len(),
                self.wf(),
                w.wf(),
                none@ == Seq::<(Seq<char>, SRepr)>::empty(),
                fs == items_sem(self.fns@),
                w.sem() == x_fns(self.ctx(), s, fs, k as int),
                s.funcs.len() == 0 ==> all_declared(fs, w.sem().funcs),
            decreases self.fns.len() - k,
        {
            let (module, f) = &self.fns[k];
            assert(fs[k as int] == (names_of(module@), f.sem()));
            assert(f.sem().generics.len() == f.generics.len());
            assert(f.sem().name == f.name@);
            if f.generics.len() == 0 {
                let name = mangle(module, f.name.as_str());
                let sig = find_sig(self.env, module, &f.name);
                let r = self.lower(name.as_str(), module, &none, sig, f);
                assert(is_declared(fs, r.sem().func.name)) by {
                    assert(mangled(fs[k as int].0, fs[k as int].1.name) == name@);
                }
                w.add_func(name, r);
            }
            k += 1;
        }
    }

    fn lower_tests(&self, w: &mut Work<'a>, ts: &Vec<(Vec<String>, &'a TestBlock)>, kind: TestKind)
        requires
            self.wf(),
            old(w).wf(),
        ensures
            final(w).wf(),
            final(w).sem() == x_tests(
                self.ctx(),
                old(w).sem(),
                tests_sem(ts@),
                kind,
                ts.len() as int,
            ),
            forall|i: int|
                0 <= i < ts.len() ==> (#[trigger] final(w).sem().funcs[old(w).sem().funcs.len()
                    + i]).name == test_symbol(kind, i) && is_test_func(
                    final(w).sem().funcs[old(w).sem().funcs.len() + i],
                ),
    {
        let ghost s = w.sem();
        let mut k: usize = 0;
        while k < ts.len()
            invariant
                k <= ts.len(),
                self.wf(),
                w.wf(),
                w.sem() == x_tests(self.ctx(), s, tests_sem(ts@), kind, k as int),
                w.sem().funcs.len() == s.funcs.len() + k,
                forall|i: int|
                    0 <= i < k ==> (#[trigger] w.sem().funcs[s.funcs.len() + i]).name
                        == test_symbol(kind, i) && is_test_func(
                        w.sem().funcs[s.funcs.len() + i],
                    ),
            decreases ts.len() - k,
        {
            let ghost before = w.sem();
            let (module, t) = &ts[k];
            assert(tests_sem(ts@)[k as int] == (names_of(module@), t.sem()));
            let name = symbol_of_test(kind, k);
            let r = lower_test_block(self.env, self.facts, self.cuts, module, t, name.as_str());
            w.add_func(name, r);
            assert forall|i: int| 0 <= i < k + 1 implies (#[trigger] w.sem().funcs[s.funcs.len()
                + i]).name == test_symbol(kind, i) && is_test_func(
                w.sem().funcs[s.funcs.len() + i],
            ) by {
                if i < k {
                    assert(w.sem().funcs[s.funcs.len() + i] == before.funcs[s.funcs.len() + i]);
                }
            }
            k += 1;
        }
    }

    /// The name of a method of an implementation.
    fn key_of(&self, d: &ImplDef, sig: &FnSig) -> (r: String)
        requires
            self.wf(),
            impl_wf(*self.env, *d),
        ensures
            r@ == method_key(*self.env, *d, *sig),
            is_made(r@),
    {
        let head = head_of_impl(self.env, self.cuts, d);
        mangle_impl(self.env.protocols[d.protocol].as_str(), head.as_str(), sig.name.as_str())
    }

    /// A method's body.
    fn body_of(&self, key: &str) -> (r: Option<&'a FnDecl>)
        requires
            self.wf(),
        ensures
            match r {
                Some(f) => method_named(
                    methods_sem(self.methods@),
                    key@,
                    self.methods.len() as int,
                ) == Some(f.sem()) && f.body is Some,
                None => method_named(
                    methods_sem(self.methods@),
                    key@,
                    self.methods.len() as int,
                ) is None,
            },
    {
        find_method_body(&self.methods, key)
    }

    fn lower_impl(&self, w: &mut Work<'a>, d: &'a ImplDef)
        requires
            self.wf(),
            old(w).wf(),
            impl_wf(*self.env, *d),
        ensures
            final(w).wf(),
            final(w).sem() == x_impl(
                self.ctx(),
                old(w).sem(),
                methods_sem(self.methods@),
                *d,
                d.methods.len() as int,
            ),
            forall|at: int| #[trigger]
                made_from(old(w).sem().funcs, at) ==> made_from(final(w).sem().funcs, at),
    {
        let ghost s = w.sem();
        let ghost ms = methods_sem(self.methods@);
        let none = Subst::new();
        let mut k: usize = 0;
        while k < d.methods.len()
            invariant
                k <= d.methods.len(),
                self.wf(),
                w.wf(),
                impl_wf(*self.env, *d),
                none@ == Seq::<(Seq<char>, SRepr)>::empty(),
                ms == methods_sem(self.methods@),
                ms.len() == self.methods.len(),
                w.sem() == x_impl(self.ctx(), s, ms, *d, k as int),
                forall|at: int| #[trigger]
                    made_from(s.funcs, at) ==> made_from(w.sem().funcs, at),
            decreases d.methods.len() - k,
        {
            let sig = &d.methods[k];
            if sig.has_body && sig.generics.len() == 0 {
                let name = self.key_of(d, sig);
                if let Some(f) = self.body_of(name.as_str()) {
                    let r = self.lower(name.as_str(), &d.module, &none, Some(sig), f);
                    w.add_func(name, r);
                }
            }
            k += 1;
        }
    }

    fn lower_impls(&self, w: &mut Work<'a>)
        requires
            self.wf(),
            old(w).wf(),
        ensures
            final(w).wf(),
            final(w).sem() == x_impls(
                self.ctx(),
                old(w).sem(),
                methods_sem(self.methods@),
                self.env.impls.len() as int,
            ),
            forall|at: int| #[trigger]
                made_from(old(w).sem().funcs, at) ==> made_from(final(w).sem().funcs, at),
    {
        let ghost s = w.sem();
        let mut k: usize = 0;
        while k < self.env.impls.len()
            invariant
                k <= self.env.impls.len(),
                self.wf(),
                w.wf(),
                w.sem() == x_impls(self.ctx(), s, methods_sem(self.methods@), k as int),
                forall|at: int| #[trigger]
                    made_from(s.funcs, at) ==> made_from(w.sem().funcs, at),
            decreases self.env.impls.len() - k,
        {
            self.lower_impl(w, &self.env.impls[k]);
            k += 1;
        }
    }

    /// The signature of the method that has a name.
    fn sig_of_method(&self, key: &str) -> (r: Option<&'a FnSig>)
        requires
            self.wf(),
        ensures
            owned(r) == impl_method_sig(*self.env, key@, 0),
            r matches Some(s) ==> sig_wf(*self.env, *s),
    {
        let env = self.env;
        let mut k: usize = 0;
        while k < env.impls.len()
            invariant
                k <= env.impls.len(),
                self.wf(),
                env == self.env,
                impl_method_sig(*env, key@, 0) == impl_method_sig(*env, key@, k as int),
            decreases env.impls.len() - k,
        {
            let d = &env.impls[k];
            let mut j: usize = 0;
            while j < d.methods.len()
                invariant
                    j <= d.methods.len(),
                    k < env.impls.len(),
                    self.wf(),
                    env == self.env,
                    *d == env.impls@[k as int],
                    impl_wf(*env, *d),
                    impl_method_sig(*env, key@, 0) == impl_method_sig(*env, key@, k as int),
                    key_in_impl(*env, *d, key@, 0) == key_in_impl(*env, *d, key@, j as int),
                decreases d.methods.len() - j,
            {
                let name = self.key_of(d, &d.methods[j]);
                if str_eq(name.as_str(), key) {
                    return Some(&d.methods[j]);
                }
                j += 1;
            }
            k += 1;
        }
        None
    }

    fn lower_instance(&self, job: &InstanceJob) -> (r: Option<Lowered<'a>>)
        requires
            self.wf(),
        ensures
            match r {
                Some(x) => x_instance(
                    self.ctx(),
                    items_sem(self.fns@),
                    methods_sem(self.methods@),
                    job.sem(),
                ) == Some(x.sem()) && lowered_ok(x.sem()) && x.sem().func.name == job.mangled@,
                None => x_instance(
                    self.ctx(),
                    items_sem(self.fns@),
                    methods_sem(self.methods@),
                    job.sem(),
                ) is None,
            },
    {
        let (body, sig) = match &job.impl_key {
            Some(key) => (self.body_of(key.as_str()), self.sig_of_method(key.as_str())),
            None => (
                find_fn(&self.fns, &job.module, job.fn_name.as_str()),
                find_sig(self.env, &job.module, &job.fn_name),
            ),
        };
        match (body, sig) {
            (Some(f), Some(s)) => Some(
                self.lower(job.mangled.as_str(), &job.module, &job.subst, Some(s), f),
            ),
            _ => None,
        }
    }

    fn lower_jobs(&self, w: &mut Work<'a>)
        requires
            self.wf(),
            old(w).wf(),
        ensures
            final(w).wf(),
            final(w).sem() == x_jobs(
                self.ctx(),
                items_sem(self.fns@),
                methods_sem(self.methods@),
                old(w).sem(),
                usize::MAX as nat,
            ),
            forall|at: int| #[trigger]
                made_from(old(w).sem().funcs, at) ==> made_from(final(w).sem().funcs, at),
    {
        let ghost s = w.sem();
        let ghost c = self.ctx();
        let ghost fs = items_sem(self.fns@);
        let ghost ms = methods_sem(self.methods@);
        let mut n: usize = usize::MAX;
        while n > 0 && (w.lambdas.len() > 0 || w.instances.len() > 0)
            invariant
                self.wf(),
                w.wf(),
                c == self.ctx(),
                fs == items_sem(self.fns@),
                ms == methods_sem(self.methods@),
                x_jobs(c, fs, ms, s, usize::MAX as nat) == x_jobs(c, fs, ms, w.sem(), n as nat),
                forall|at: int| #[trigger]
                    made_from(s.funcs, at) ==> made_from(w.sem().funcs, at),
            decreases n,
        {
            let ghost before = w.sem();
            assert(before.lambdas.len() == w.lambdas.len());
            assert(before.instances.len() == w.instances.len());
            self.lower_job(w);
            n -= 1;
            assert(x_jobs(c, fs, ms, before, (n + 1) as nat) == x_jobs(
                c,
                fs,
                ms,
                w.sem(),
                n as nat,
            ));
        }
        assert(w.sem().lambdas.len() == w.lambdas.len());
        assert(w.sem().instances.len() == w.instances.len());
    }

    fn lower_job(&self, w: &mut Work<'a>)
        requires
            self.wf(),
            old(w).wf(),
            old(w).lambdas.len() > 0 || old(w).instances.len() > 0,
        ensures
            final(w).wf(),
            final(w).sem() == x_job(
                self.ctx(),
                items_sem(self.fns@),
                methods_sem(self.methods@),
                old(w).sem(),
            ),
            forall|at: int| #[trigger]
                made_from(old(w).sem().funcs, at) ==> made_from(final(w).sem().funcs, at),
    {
        let ghost s = w.sem();
        let ghost b = *w;
        assert(s.lambdas.len() == w.lambdas.len());
        assert(s.instances.len() == w.instances.len());
        if let Some(job) = w.lambdas.pop() {
            assert(job.sem() == s.lambdas.last());
            assert(sems(w.lambdas@) =~= s.lambdas.drop_last());
            assert(w.sem() == SWork { lambdas: s.lambdas.drop_last(), ..s });
            assert(job.lambda.sem().kind is Lambda == job.lambda.kind is Lambda);
            if !w.is_done(job.name.as_str()) {
                let name = job.name.clone();
                let r = lower_lambda_job(self.env, self.facts, self.cuts, job);
                w.add_func(name, r);
            }
        } else if let Some(job) = w.instances.pop() {
            assert(job.sem() == s.instances.last());
            assert(sems(w.instances@) =~= s.instances.drop_last());
            assert(sems(w.lambdas@) =~= s.lambdas);
            assert(w.sem() == SWork { instances: s.instances.drop_last(), ..s });
            if !w.is_done(job.mangled.as_str()) {
                match self.lower_instance(&job) {
                    Some(r) => w.add_func(job.mangled, r),
                    None => {
                        let ghost a = w.sem();
                        w.done.push(job.mangled);
                        assert(names_of(w.done@) =~= a.done.push(job.mangled@));
                    },
                }
            }
        }
    }
}

/// Collect the functions of a module and its libraries.
fn fns_of_program<'a>(module: &'a Module, libs: &'a Vec<(Vec<String>, Module)>) -> (r: Vec<
    (Vec<String>, &'a FnDecl),
>)
    ensures
        items_sem(r@) == program_fns(module.sem(), libs_sem(libs@), libs.len() as int),
        forall|i: int| 0 <= i < r.len() ==> (#[trigger] r[i]).1.body is Some,
{
    let ghost m = module.sem();
    let ghost ls = libs_sem(libs@);
    let mut r: Vec<(Vec<String>, &'a FnDecl)> = Vec::new();
    let path: Vec<String> = Vec::new();
    proof {
        lemma_decls_of(module.decls@);
        assert(items_sem(r@) =~= seq![]);
        assert(names_of(path@) =~= seq![]);
        lemma_fns_have_bodies(seq![], m.decls, m.decls.len() as int, seq![]);
    }
    collect_fns(&path, &module.decls, &mut r);
    let mut k: usize = 0;
    while k < libs.len()
        invariant
            k <= libs.len(),
            ls == libs_sem(libs@),
            items_sem(r@) == program_fns(m, ls, k as int),
            all_bodied(items_sem(r@)),
        decreases libs.len() - k,
    {
        let (path, lib) = &libs[k];
        proof {
            lemma_decls_of(lib.decls@);
            assert(ls[k as int] == (names_of(path@), lib.sem()));
            lemma_fns_have_bodies(
                names_of(path@),
                lib.sem().decls,
                lib.sem().decls.len() as int,
                items_sem(r@),
            );
        }
        collect_fns(path, &lib.decls, &mut r);
        k += 1;
    }
    assert forall|i: int| 0 <= i < r.len() implies (#[trigger] r[i]).1.body is Some by {
        assert(items_sem(r@)[i].1 == r[i].1.sem());
    }
    r
}

/// Collect the methods of a module and its libraries.
fn methods_of_program<'a>(
    env: &Env,
    module: &'a Module,
    libs: &'a Vec<(Vec<String>, Module)>,
) -> (r: Vec<(String, &'a FnDecl)>)
    ensures
        methods_sem(r@) == program_methods(
            *env,
            module.sem(),
            libs_sem(libs@),
            libs.len() as int,
        ),
        forall|i: int| 0 <= i < r.len() ==> (#[trigger] r[i]).1.body is Some,
{
    let ghost m = module.sem();
    let ghost ls = libs_sem(libs@);
    let mut r: Vec<(String, &'a FnDecl)> = Vec::new();
    let path: Vec<String> = Vec::new();
    proof {
        lemma_decls_of(module.decls@);
        assert(methods_sem(r@) =~= seq![]);
        assert(names_of(path@) =~= seq![]);
        lemma_methods_have_bodies(*env, seq![], m.decls, m.decls.len() as int, seq![]);
    }
    collect_methods(env, &path, &module.decls, &mut r);
    let mut k: usize = 0;
    while k < libs.len()
        invariant
            k <= libs.len(),
            ls == libs_sem(libs@),
            methods_sem(r@) == program_methods(*env, m, ls, k as int),
            all_methods_bodied(methods_sem(r@)),
        decreases libs.len() - k,
    {
        let (path, lib) = &libs[k];
        proof {
            lemma_decls_of(lib.decls@);
            assert(ls[k as int] == (names_of(path@), lib.sem()));
            lemma_methods_have_bodies(
                *env,
                names_of(path@),
                lib.sem().decls,
                lib.sem().decls.len() as int,
                methods_sem(r@),
            );
        }
        collect_methods(env, path, &lib.decls, &mut r);
        k += 1;
    }
    assert forall|i: int| 0 <= i < r.len() implies (#[trigger] r[i]).1.body is Some by {
        assert(methods_sem(r@)[i].1 == r[i].1.sem());
    }
    r
}

/// Which types something has.
fn used_types(env: &Env, facts: &Facts) -> (r: Vec<bool>)
    requires
        facts_wf(*env, *facts),
    ensures
        r.len() == env.types.data.len(),
        forall|u: int| 0 <= u < r.len() ==> (#[trigger] r[u]) == is_used(*facts, u),
{
    let mut r: Vec<bool> = Vec::new();
    let mut k: usize = 0;
    while k < env.types.data.len()
        invariant
            k <= env.types.data.len(),
            r.len() == k,
            forall|u: int| 0 <= u < r.len() ==> !(#[trigger] r[u]),
        decreases env.types.data.len() - k,
    {
        r.push(false);
        k += 1;
    }
    let mut i: usize = 0;
    while i < facts.types.len()
        invariant
            i <= facts.types.len(),
            facts_wf(*env, *facts),
            r.len() == env.types.data.len(),
            forall|u: int|
                0 <= u < r.len() ==> ((#[trigger] r[u]) <==> used_before(*facts, u, i as int)),
        decreases facts.types.len() - i,
    {
        let ghost before = r@;
        if let Some(ty) = facts.types[i] {
            assert(facts.types@[i as int] == Some(ty));
            r[ty.0 as usize] = true;
        }
        assert forall|u: int| 0 <= u < r.len() implies ((#[trigger] r[u]) <==> used_before(
            *facts,
            u,
            i + 1,
        )) by {
            if before[u] {
                let w = choose|w: int|
                    0 <= w < i && ((#[trigger] facts.types@[w]) matches Some(t) && t.0 == u);
                assert(facts.types@[w] is Some);
            }
            if r[u] && !before[u] {
                assert(facts.types@[i as int] matches Some(t) && t.0 == u);
            }
        }
        i += 1;
    }
    r
}

spec fn used_before(facts: Facts, ty: int, n: int) -> bool {
    exists|i: int| 0 <= i < n && ((#[trigger] facts.types@[i]) matches Some(t) && t.0 == ty)
}

/// The tables of recursive types and of boxed records.
fn tables(env: &Env, facts: &Facts) -> (r: (Vec<(TyId, Repr)>, Vec<(u32, Repr)>))
    requires
        env_wf(*env),
        facts_wf(*env, *facts),
    ensures
        unfoldings_sem(r.0@) == unfoldings_used(
            env.types,
            *facts,
            env.types.data.len() as int,
        ),
        shapes_sem(r.1@) == shapes_used(env.types, *facts, env.types.data.len() as int),
{
    let used = used_types(env, facts);
    let mut recursive: Vec<(TyId, Repr)> = Vec::new();
    let mut boxed: Vec<(u32, Repr)> = Vec::new();
    assert(unfoldings_sem(recursive@) =~= seq![]);
    assert(shapes_sem(boxed@) =~= seq![]);
    let mut k: usize = 0;
    while k < used.len()
        invariant
            k <= used.len() == env.types.data.len(),
            env_wf(*env),
            forall|u: int| 0 <= u < used.len() ==> (#[trigger] used[u]) == is_used(*facts, u),
            unfoldings_sem(recursive@) == unfoldings_used(env.types, *facts, k as int),
            shapes_sem(boxed@) == shapes_used(env.types, *facts, k as int),
        decreases used.len() - k,
    {
        if used[k] {
            let ty = TyId(k as u32);
            recursive_unfoldings(&env.types, ty, &mut recursive);
            boxed_shapes(&env.types, ty, &mut boxed);
        }
        k += 1;
    }
    (recursive, boxed)
}

fn pure_natives(fns: &Vec<FnSig>) -> (r: Vec<String>)
    ensures
        names_of(r@) == pure_symbols(fns@, fns.len() as int),
{
    let mut r: Vec<String> = Vec::new();
    assert(names_of(r@) =~= seq![]);
    let mut k: usize = 0;
    while k < fns.len()
        invariant
            k <= fns.len(),
            names_of(r@) == pure_symbols(fns@, k as int),
        decreases fns.len() - k,
    {
        let ghost before = names_of(r@);
        if let Some(s) = &fns[k].native {
            if fns[k].pure {
                r.push(s.clone());
                assert(names_of(r@) =~= before.push(s@));
            }
        }
        k += 1;
    }
    r
}

fn inlined(fns: &Vec<FnSig>, fs: &Vec<Func>) -> (r: Vec<String>)
    ensures
        names_of(r@) == inlined_names(fns@, sems(fs@), fs.len() as int),
{
    let ghost s = sems(fs@);
    let mut r: Vec<String> = Vec::new();
    assert(names_of(r@) =~= seq![]);
    let mut k: usize = 0;
    while k < fs.len()
        invariant
            k <= fs.len(),
            s == sems(fs@),
            names_of(r@) == inlined_names(fns@, s, k as int),
        decreases fs.len() - k,
    {
        let ghost before = names_of(r@);
        let name = &fs[k].name;
        assert(s[k as int].name == name@);
        if asks_inline(fns, name.as_str()) {
            r.push(name.clone());
            assert(names_of(r@) =~= before.push(name@));
        }
        k += 1;
    }
    r
}

fn asks_inline(fns: &Vec<FnSig>, name: &str) -> (r: bool)
    ensures
        r == is_inlined(fns@, name@),
{
    let mut i: usize = 0;
    while i < fns.len()
        invariant
            i <= fns.len(),
            forall|k: int| 0 <= k < i ==> !inlines(#[trigger] fns@[k], name@),
        decreases fns.len() - i,
    {
        if fns[i].inline {
            let mut base = mangle(&fns[i].module, fns[i].name.as_str());
            let same = str_eq(name, base.as_str());
            base.append("$");
            if same || starts_with(name, base.as_str()) {
                assert(inlines(fns@[i as int], name@));
                return true;
            }
        }
        i += 1;
    }
    false
}

/// Lower a module with its libraries. `tests` says which tests become functions, if any.
pub fn lower_module_with<'a>(
    env: &'a Env,
    facts: &'a Facts,
    module: &'a Module,
    libs: &'a Vec<(Vec<String>, Module)>,
    tests: Option<TestKind>,
) -> (r: Program)
    requires
        env_wf(*env),
        facts_wf(*env, *facts),
    ensures
        r.sem() == x_program(
            Ctx { env: *env, facts: *facts },
            module.sem(),
            libs_sem(libs@),
            tests,
            usize::MAX as nat,
        ),
        forall|i: int| 0 <= i < r.funcs.len() ==> sound((#[trigger] r.funcs[i]).sem()),
        tests_named(
            r.sem().funcs,
            plain_funcs(
                Ctx { env: *env, facts: *facts },
                module.sem(),
                libs_sem(libs@),
            ).len(),
            module.sem(),
            tests,
        ),
        declares_no_test(module.sem(), libs_sem(libs@)) ==> just_the_tests(
            r.sem().funcs,
            plain_funcs(
                Ctx { env: *env, facts: *facts },
                module.sem(),
                libs_sem(libs@),
            ).len(),
            module.sem(),
            tests,
        ),
{
    let c = cuts(&env.types);
    let fns = fns_of_program(module, libs);
    let methods = methods_of_program(env, module, libs);
    let funcs = lower_all(env, facts, &c, fns, methods, module, tests);
    let (recursive, boxed) = tables(env, facts);
    let pure_natives = pure_natives(&env.fns);
    let inlined = inlined(&env.fns, &funcs);
    Program { funcs, recursive, boxed, pure_natives, inlined }
}

fn lower_all<'a>(
    env: &'a Env,
    facts: &'a Facts,
    cuts: &'a Cuts,
    fns: Vec<(Vec<String>, &'a FnDecl)>,
    methods: Vec<(String, &'a FnDecl)>,
    module: &'a Module,
    tests: Option<TestKind>,
) -> (r: Vec<Func>)
    requires
        env_wf(*env),
        facts_wf(*env, *facts),
        cuts@ == cut_of(env.types),
        forall|i: int| 0 <= i < fns.len() ==> (#[trigger] fns[i]).1.body is Some,
        forall|i: int| 0 <= i < methods.len() ==> (#[trigger] methods[i]).1.body is Some,
    ensures
        sems(r@) == ({
            let c = Ctx { env: *env, facts: *facts };
            let fs = items_sem(fns@);
            let ms = methods_sem(methods@);
            let m = module.sem();
            let w0 = SWork { funcs: seq![], lambdas: seq![], instances: seq![], done: seq![] };
            let w1 = x_fns(c, w0, fs, fs.len() as int);
            let w2 = match tests {
                Some(kind) => x_tests(
                    c,
                    w1,
                    all_tests(m, kind),
                    kind,
                    all_tests(m, kind).len() as int,
                ),
                None => w1,
            };
            let w3 = x_impls(c, w2, ms, c.env.impls.len() as int);
            x_jobs(c, fs, ms, w3, usize::MAX as nat).funcs
        }),
        forall|i: int| 0 <= i < r.len() ==> sound((#[trigger] r[i]).sem()),
        tests_named(
            sems(r@),
            x_fns(
                Ctx { env: *env, facts: *facts },
                SWork { funcs: seq![], lambdas: seq![], instances: seq![], done: seq![] },
                items_sem(fns@),
                fns@.len() as int,
            ).funcs.len(),
            module.sem(),
            tests,
        ),
        no_test_declared(items_sem(fns@)) ==> just_the_tests(
            sems(r@),
            x_fns(
                Ctx { env: *env, facts: *facts },
                SWork { funcs: seq![], lambdas: seq![], instances: seq![], done: seq![] },
                items_sem(fns@),
                fns@.len() as int,
            ).funcs.len(),
            module.sem(),
            tests,
        ),
{
    let mut w = Work {
        funcs: Vec::new(),
        lambdas: Vec::new(),
        instances: Vec::new(),
        done: Vec::new(),
    };
    proof {
        assert(w.sem().funcs =~= seq![]);
        assert(w.sem().lambdas =~= seq![]);
        assert(w.sem().instances =~= seq![]);
        assert(w.sem().done =~= seq![]);
    }
    let ghost fs = items_sem(fns@);
    let ghost ms = methods_sem(methods@);
    let s = Source { env, facts, cuts, fns, methods };
    s.lower_fns(&mut w);
    let ghost w1 = w.sem();
    match tests {
        Some(kind) => {
            let ts = tests_of_module(module, kind);
            assert(tests_sem(ts@).len() == ts.len());
            s.lower_tests(&mut w, &ts, kind);
        },
        None => {},
    }
    let ghost w2 = w.sem();
    s.lower_impls(&mut w);
    let ghost w3 = w.sem();
    s.lower_jobs(&mut w);
    proof {
        let c = s.ctx();
        lemma_impls_grow(c, w2, ms, env.impls.len() as int);
        lemma_jobs_grow(c, fs, ms, w3, usize::MAX as nat);
        let end = w.sem().funcs;
        assert(end.take(w2.funcs.len() as int) =~= end.take(w3.funcs.len() as int).take(
            w2.funcs.len() as int,
        ));
        if let Some(kind) = tests {
            let ts = all_tests(module.sem(), kind);
            lemma_tests_in_order(c, w1, ts, kind, ts.len() as int);
            lemma_tests_keep(c, w1, ts, kind, ts.len() as int);
        } else {
            assert(w2.funcs.take(w1.funcs.len() as int) =~= w1.funcs);
        }
        assert(tests_named(w2.funcs, w1.funcs.len(), module.sem(), tests));
        lemma_tests_still_named(w1.funcs.len(), w2.funcs, end, module.sem(), tests);
        assert(made_from(w2.funcs, w2.funcs.len() as int)) by {
            reveal(made_from);
        }
        if no_test_declared(fs) {
            lemma_just_the_tests(fs, w1.funcs, w2.funcs, w.sem().funcs, module.sem(), tests);
        }
    }
    w.funcs
}

/// Lower a module with its libraries. Tests are left out.
pub fn lower_module<'a>(
    env: &'a Env,
    facts: &'a Facts,
    module: &'a Module,
    libs: &'a Vec<(Vec<String>, Module)>,
) -> (r: Program)
    requires
        env_wf(*env),
        facts_wf(*env, *facts),
    ensures
        r.sem() == x_program(
            Ctx { env: *env, facts: *facts },
            module.sem(),
            libs_sem(libs@),
            None,
            usize::MAX as nat,
        ),
        forall|i: int| 0 <= i < r.funcs.len() ==> sound((#[trigger] r.funcs[i]).sem()),
{
    lower_module_with(env, facts, module, libs, None)
}

} // verus!
