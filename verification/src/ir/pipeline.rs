//! The passes, one after the other.

use super::frame::{optimising_keeps_frames, stages_keep_frames, writing_keeps_frames};
use super::lower::funcs::{is_test_func, sound};
use super::lower::items::{all_tests, test_symbol};
use super::lower::state::Ctx;
use super::lower::{
    declares_no_test, just_the_tests, libs_sem, lower_module_with, plain_funcs, tests_named, x_program,
    SLib,
};
use super::opt::laws::{
    an_optimized_form_exists, calls_alone_ask_for_purity, free_of, optimizing_brings_in_none, Sort,
};
use super::opt::prune::prunes;
use super::opt::{
    optimized, optimized_form_is_unique, optimized_functions_are_clean, optimizing_twice_is_once,
};
use super::ssa::{blocks_wf, same_frame, values_wf, Func, Program, SFunc, SProgram};
use super::{cover, effects, opt, partial, refcount, unique};
use crate::ast::{Module, TestKind};
use crate::check::consistent::is_consistent;
use crate::check::{env_wf, facts_wf, Env, Facts};
use crate::syntax::{Node, SModule};
use vstd::prelude::*;


verus! {

/// How far a program is taken.
#[derive(Debug, Clone, Copy, PartialEq, Eq, Structural)]
pub enum Stage {
    /// As it is lowered.
    Lowered,
    /// After the optimiser.
    Optimised,
    /// With its reference counts: what is emitted.
    Final,
}

/// The one optimised form of a function of a program.
pub open spec fn optimum(p: SProgram, f: SFunc) -> SFunc {
    choose|g: SFunc| optimized(f, g, effects::quiet(p.funcs, p.pure_natives), p.pure_natives)
}

/// A program with every function optimised.
pub open spec fn optimised(p: SProgram) -> SProgram {
    SProgram { funcs: p.funcs.map_values(|f: SFunc| optimum(p, f)), ..p }
}

/// What an optimised function becomes in the end.
pub open spec fn made_ready(f: SFunc) -> SFunc {
    refcount::inserted(cover::covered(partial::applied(unique::applied(f))))
}

pub open spec fn readied(p: SProgram) -> SProgram {
    SProgram { funcs: p.funcs.map_values(|f: SFunc| made_ready(f)), ..p }
}

/// A program at a stage.
pub open spec fn at_stage(p: SProgram, stage: Stage) -> SProgram {
    match stage {
        Stage::Lowered => p,
        Stage::Optimised => optimised(p),
        Stage::Final => readied(optimised(p)),
    }
}

/// There are numbers for the blocks and values of every function.
pub open spec fn numbered(p: SProgram) -> bool {
    forall|i: int|
        0 <= i < p.funcs.len() ==> (#[trigger] p.funcs[i]).blocks.len() <= u32::MAX
            && p.funcs[i].values.len() <= u32::MAX
}

/// There are numbers for what every pass adds to a function.
pub open spec fn can_be_readied(f: SFunc) -> bool {
    let g = unique::applied(f);
    let h = partial::applied(g);
    let k = cover::covered(h);
    &&& g.blocks.len() <= u32::MAX
    &&& g.values.len() <= u32::MAX
    &&& partial::has_numbers(g)
    &&& k.values.len() <= u32::MAX
    &&& k.blocks.len() + refcount::edge_count(k, k.blocks.len() as int) <= u32::MAX
}

/// A function that is well-formed; a lambda has its environment.
pub open spec fn is_whole(f: SFunc) -> bool {
    &&& blocks_wf(f)
    &&& values_wf(f)
    &&& f.env is Some ==> f.params.len() > 0
}

/// Whether a program fits the machine at every step up to a stage.
pub open spec fn fits(p: SProgram, stage: Stage) -> bool {
    &&& stage != Stage::Lowered ==> numbered(p)
    &&& stage == Stage::Final ==> forall|i: int|
        0 <= i < p.funcs.len() ==> can_be_readied(#[trigger] optimised(p).funcs[i])
}

/// Optimising a program without calls twice is optimising it once; its functions are then
/// well-formed, and every block of them can be got to. (With calls, what the
/// first time takes away can leave a function without effects, so that the second time
/// finds more.)
pub proof fn optimising_twice_is_once(p: SProgram)
    requires
        forall|i: int|
            0 <= i < p.funcs.len() ==> blocks_wf(#[trigger] p.funcs[i]) && values_wf(p.funcs[i])
                && free_of(p.funcs[i], Sort::Call),
    ensures
        optimised(optimised(p)) == optimised(p),
        forall|i: int|
            0 <= i < p.funcs.len() ==> blocks_wf(#[trigger] optimised(p).funcs[i])
                && values_wf(optimised(p).funcs[i]) && !prunes(optimised(p).funcs[i]),
{
    let q = optimised(p);
    let (a, b) = (
        effects::quiet(p.funcs, p.pure_natives),
        effects::quiet(q.funcs, q.pure_natives),
    );
    let ns = p.pure_natives;
    assert forall|i: int| 0 <= i < p.funcs.len() implies blocks_wf(#[trigger] q.funcs[i])
        && values_wf(q.funcs[i]) && !prunes(q.funcs[i]) && optimised(q).funcs[i]
        == q.funcs[i] by {
        let f = p.funcs[i];
        let w = an_optimized_form_exists(f, a, ns);
        let g = q.funcs[i];
        assert(g == optimum(p, f));
        assert(optimized(f, g, a, ns));
        optimized_functions_are_clean(f, g, a, ns);
        optimizing_brings_in_none(f, g, a, ns, Sort::Call);
        let h = an_optimized_form_exists(g, b, ns);
        calls_alone_ask_for_purity(g, h, b, a, ns);
        optimizing_twice_is_once(f, g, h, a, ns);
        optimized_form_is_unique(g, h, optimum(q, g), b, ns);
    }
    assert(optimised(q).funcs =~= q.funcs);
}

/// Optimising a program whose functions hold no counts leaves none with any.
pub proof fn optimised_functions_are_uncounted(p: SProgram, i: int)
    requires
        0 <= i < p.funcs.len(),
        blocks_wf(p.funcs[i]),
        values_wf(p.funcs[i]),
        free_of(p.funcs[i], Sort::Count),
    ensures
        free_of(optimised(p).funcs[i], Sort::Count),
{
    let f = p.funcs[i];
    let a = effects::quiet(p.funcs, p.pure_natives);
    let w = an_optimized_form_exists(f, a, p.pure_natives);
    optimizing_brings_in_none(f, optimum(p, f), a, p.pure_natives, Sort::Count);
}

fn optimise(p: &mut Program)
    requires
        forall|i: int|
            0 <= i < old(p).funcs.len() ==> is_whole((#[trigger] old(p).funcs[i]).sem()),
    ensures
        final(p).sem() == optimised(old(p).sem()),
        forall|i: int|
            0 <= i < final(p).funcs.len() ==> is_whole((#[trigger] final(p).funcs[i]).sem()),
{
    let ghost a = p.sem();
    let ghost b = *p;
    opt::optimize(p);
    proof {
        let want = optimised(a);
        assert forall|i: int| 0 <= i < a.funcs.len() implies #[trigger] p.sem().funcs[i]
            == want.funcs[i] by {
            let f = b.funcs[i].sem();
            let g = p.funcs[i].sem();
            assert(a.funcs[i] == f);
            let pure = effects::quiet(a.funcs, a.pure_natives);
            assert(optimized(f, g, pure, a.pure_natives));
            optimized_form_is_unique(f, g, optimum(a, f), pure, a.pure_natives);
        }
        assert(p.sem().funcs =~= want.funcs);
        assert forall|i: int| 0 <= i < p.funcs.len() implies is_whole(
            (#[trigger] p.funcs[i]).sem(),
        ) by {
            let pure = effects::quiet(a.funcs, a.pure_natives);
            assert(b.funcs[i].sem() == a.funcs[i]);
            optimized_functions_are_clean(
                b.funcs[i].sem(),
                p.funcs[i].sem(),
                pure,
                a.pure_natives,
            );
            optimising_keeps_frames(a, i);
            assert(p.sem().funcs[i] == p.funcs[i].sem());
        }
    }
}

fn make_ready_fn(f: &mut Func)
    requires
        is_whole(old(f).sem()),
        can_be_readied(old(f).sem()),
    ensures
        final(f).sem() == made_ready(old(f).sem()),
{
    proof {
        writing_keeps_frames(f.sem());
    }
    unique::apply_fn(f);
    partial::apply_fn(f);
    cover::cover_func(f);
    refcount::insert_fn(f);
}

fn make_ready(p: &mut Program)
    requires
        forall|i: int|
            0 <= i < old(p).funcs.len() ==> is_whole((#[trigger] old(p).funcs[i]).sem())
                && can_be_readied(old(p).funcs[i].sem()),
    ensures
        final(p).sem() == readied(old(p).sem()),
{
    let ghost a = *p;
    let mut i: usize = 0;
    while i < p.funcs.len()
        invariant
            i <= p.funcs.len() == a.funcs.len(),
            forall|k: int|
                0 <= k < a.funcs.len() ==> is_whole((#[trigger] a.funcs[k]).sem())
                    && can_be_readied(a.funcs[k].sem()),
            forall|k: int|
                0 <= k < i ==> (#[trigger] p.funcs[k]).sem() == made_ready(a.funcs[k].sem()),
            forall|k: int| i <= k < p.funcs.len() ==> #[trigger] p.funcs[k] == a.funcs[k],
            p.recursive == a.recursive,
            p.boxed == a.boxed,
            p.pure_natives == a.pure_natives,
            p.inlined == a.inlined,
        decreases p.funcs.len() - i,
    {
        assert(p.funcs[i as int] == a.funcs[i as int]);
        make_ready_fn(&mut p.funcs[i]);
        i += 1;
    }
    assert(p.sem().funcs =~= readied(a.sem()).funcs);
}

/// Take a program to a stage.
pub fn take_to(program: Program, stage: Stage) -> (r: Program)
    requires
        forall|i: int|
            0 <= i < program.funcs.len() ==> sound((#[trigger] program.funcs[i]).sem()),
        fits(program.sem(), stage),
    ensures
        r.sem() == at_stage(program.sem(), stage),
{
    let mut p = program;
    if stage == Stage::Lowered {
        return p;
    }
    let ghost a = p.sem();
    assert forall|i: int| 0 <= i < p.funcs.len() implies is_whole(
        (#[trigger] p.funcs[i]).sem(),
    ) by {
        assert(a.funcs[i] == p.funcs[i].sem());
        assert(sound(p.funcs[i].sem()));
    }
    optimise(&mut p);
    if stage == Stage::Optimised {
        return p;
    }
    assert forall|i: int| 0 <= i < p.funcs.len() implies can_be_readied(
        (#[trigger] p.funcs[i]).sem(),
    ) by {
        assert(p.sem().funcs[i] == p.funcs[i].sem());
        assert(optimised(a).funcs.len() == a.funcs.len());
        assert(can_be_readied(optimised(a).funcs[i]));
    }
    make_ready(&mut p);
    p
}

/// At every stage, the tests of a module have their functions, each one and no other.
proof fn lemma_tests_at_stage(p: SProgram, stage: Stage, at: nat, m: SModule, tests: Option<TestKind>)
    requires
        stage != Stage::Lowered ==> forall|i: int|
            0 <= i < p.funcs.len() ==> blocks_wf(#[trigger] p.funcs[i]) && values_wf(p.funcs[i]),
        tests_named(p.funcs, at, m, tests),
    ensures
        tests_named(at_stage(p, stage).funcs, at, m, tests),
        just_the_tests(p.funcs, at, m, tests) ==> just_the_tests(
            at_stage(p, stage).funcs,
            at,
            m,
            tests,
        ),
{
    let (a, b) = (p.funcs, at_stage(p, stage).funcs);
    assert(a.len() == b.len());
    assert forall|i: int| 0 <= i < a.len() implies same_frame(#[trigger] a[i], b[i]) by {
        if stage != Stage::Lowered {
            stages_keep_frames(p, stage, i);
        }
    }
    if let Some(kind) = tests {
        assert forall|i: int| 0 <= i < all_tests(m, kind).len() implies at + i < b.len() && (
        #[trigger] b[at + i]).name == test_symbol(kind, i) && is_test_func(b[at + i]) by {
            assert(a[at + i].name == test_symbol(kind, i));
            assert(same_frame(a[at + i], b[at + i]));
        }
    }
    if just_the_tests(a, at, m, tests) {
        assert forall|j: int, kind: TestKind, i: int|
            0 <= j < b.len() && 0 <= i && (#[trigger] b[j]).name == #[trigger] test_symbol(kind, i)
                implies tests == Some(kind) && i < all_tests(m, kind).len() && j == at + i by {
            assert(same_frame(a[j], b[j]));
            assert(a[j].name == test_symbol(kind, i));
        }
    }
}

/// What a program has of the tests of a module: a function for each that is asked for, in
/// order, without parameters, a value or an error; and, unless a function of the source has
/// such a name, no other function of the name of a test.
pub open spec fn tests_are_in(
    fs: Seq<SFunc>,
    c: Ctx,
    m: SModule,
    libs: Seq<SLib>,
    tests: Option<TestKind>,
) -> bool {
    let at = plain_funcs(c, m, libs).len();
    &&& tests_named(fs, at, m, tests)
    &&& declares_no_test(m, libs) ==> just_the_tests(fs, at, m, tests)
}

fn compile_with(
    env: &Env,
    facts: &Facts,
    module: &Module,
    libs: &Vec<(Vec<String>, Module)>,
    stage: Stage,
    tests: Option<TestKind>,
) -> (r: Program)
    requires
        env_wf(*env),
        facts_wf(*env, *facts),
        fits(
            x_program(
                Ctx { env: *env, facts: *facts },
                module.sem(),
                libs_sem(libs@),
                tests,
                usize::MAX as nat,
            ),
            stage,
        ),
    ensures
        r.sem() == at_stage(
            x_program(
                Ctx { env: *env, facts: *facts },
                module.sem(),
                libs_sem(libs@),
                tests,
                usize::MAX as nat,
            ),
            stage,
        ),
        tests_are_in(
            r.sem().funcs,
            Ctx { env: *env, facts: *facts },
            module.sem(),
            libs_sem(libs@),
            tests,
        ),
{
    let p = lower_module_with(env, facts, module, libs, tests);
    proof {
        let c = Ctx { env: *env, facts: *facts };
        let at = plain_funcs(c, module.sem(), libs_sem(libs@)).len();
        assert forall|i: int|
            stage != Stage::Lowered && 0 <= i < p.sem().funcs.len() implies blocks_wf(
            #[trigger] p.sem().funcs[i],
        ) && values_wf(p.sem().funcs[i]) by {
            assert(p.sem().funcs[i] == p.funcs[i].sem());
            assert(sound(p.funcs[i].sem()));
        }
        lemma_tests_at_stage(p.sem(), stage, at, module.sem(), tests);
    }
    take_to(p, stage)
}

/// Take a module to a stage. Tests are left out.
pub fn compile(
    env: &Env,
    facts: &Facts,
    module: &Module,
    libs: &Vec<(Vec<String>, Module)>,
    stage: Stage,
) -> (r: Program)
    requires
        env_wf(*env),
        facts_wf(*env, *facts),
        fits(
            x_program(
                Ctx { env: *env, facts: *facts },
                module.sem(),
                libs_sem(libs@),
                None,
                usize::MAX as nat,
            ),
            stage,
        ),
    ensures
        r.sem() == at_stage(
            x_program(
                Ctx { env: *env, facts: *facts },
                module.sem(),
                libs_sem(libs@),
                None,
                usize::MAX as nat,
            ),
            stage,
        ),
        tests_are_in(
            r.sem().funcs,
            Ctx { env: *env, facts: *facts },
            module.sem(),
            libs_sem(libs@),
            None,
        ),
{
    compile_with(env, facts, module, libs, stage, None)
}

/// Take a module to the end, with its tests as functions.
pub fn compile_tests(
    env: &Env,
    facts: &Facts,
    module: &Module,
    libs: &Vec<(Vec<String>, Module)>,
) -> (r: Program)
    requires
        env_wf(*env),
        facts_wf(*env, *facts),
        fits(
            x_program(
                Ctx { env: *env, facts: *facts },
                module.sem(),
                libs_sem(libs@),
                Some(TestKind::Test),
                usize::MAX as nat,
            ),
            Stage::Final,
        ),
    ensures
        r.sem() == at_stage(
            x_program(
                Ctx { env: *env, facts: *facts },
                module.sem(),
                libs_sem(libs@),
                Some(TestKind::Test),
                usize::MAX as nat,
            ),
            Stage::Final,
        ),
        tests_are_in(
            r.sem().funcs,
            Ctx { env: *env, facts: *facts },
            module.sem(),
            libs_sem(libs@),
            Some(TestKind::Test),
        ),
{
    compile_with(env, facts, module, libs, Stage::Final, Some(TestKind::Test))
}

/// Take a module to the end, with its benchmarks as functions.
pub fn compile_benches(
    env: &Env,
    facts: &Facts,
    module: &Module,
    libs: &Vec<(Vec<String>, Module)>,
) -> (r: Program)
    requires
        env_wf(*env),
        facts_wf(*env, *facts),
        fits(
            x_program(
                Ctx { env: *env, facts: *facts },
                module.sem(),
                libs_sem(libs@),
                Some(TestKind::Bench),
                usize::MAX as nat,
            ),
            Stage::Final,
        ),
    ensures
        r.sem() == at_stage(
            x_program(
                Ctx { env: *env, facts: *facts },
                module.sem(),
                libs_sem(libs@),
                Some(TestKind::Bench),
                usize::MAX as nat,
            ),
            Stage::Final,
        ),
        tests_are_in(
            r.sem().funcs,
            Ctx { env: *env, facts: *facts },
            module.sem(),
            libs_sem(libs@),
            Some(TestKind::Bench),
        ),
{
    compile_with(env, facts, module, libs, Stage::Final, Some(TestKind::Bench))
}

// ---- asking for room on the way ----

/// Whether there is room for what every pass adds to an optimised function: as
/// [`can_be_readied`], with room for a block and a value on every edge in each round of
/// writing in place, and for three values for every read that is covered.
pub open spec fn has_room(f: SFunc) -> bool {
    let g = unique::applied(f);
    let h = partial::applied(g);
    let k = cover::covered(h);
    &&& unique::has_room(f, 64)
    &&& partial::has_numbers(g)
    &&& cover::has_room(h)
    &&& k.blocks.len() + refcount::edge_count(k, k.blocks.len() as int) <= u32::MAX
}

/// Whether there is room for a program at every step up to a stage.
pub open spec fn roomy(p: SProgram, stage: Stage) -> bool {
    &&& stage != Stage::Lowered ==> numbered(p)
    &&& stage == Stage::Final ==> forall|i: int|
        0 <= i < p.funcs.len() ==> has_room(#[trigger] optimised(p).funcs[i])
}

/// Make a function ready if there is room for it; says whether there is.
fn try_ready(f: &mut Func) -> (r: bool)
    requires
        is_whole(old(f).sem()),
    ensures
        r == has_room(old(f).sem()),
        r ==> can_be_readied(old(f).sem()) && final(f).sem() == made_ready(old(f).sem()),
{
    proof {
        writing_keeps_frames(f.sem());
    }
    if !unique::try_apply_fn(f) {
        return false;
    }
    if !partial::can_narrow(f) {
        return false;
    }
    partial::apply_fn(f);
    if !cover::can_cover(f) {
        return false;
    }
    cover::cover_func(f);
    if !refcount::can_insert(f) {
        return false;
    }
    refcount::insert_fn(f);
    true
}

/// Whether there are numbers for the blocks and values of every function.
fn is_numbered(p: &Program) -> (r: bool)
    ensures
        r == numbered(p.sem()),
{
    let ghost s = p.sem();
    let mut i: usize = 0;
    while i < p.funcs.len()
        invariant
            i <= p.funcs.len(),
            s == p.sem(),
            forall|k: int|
                0 <= k < i ==> (#[trigger] s.funcs[k]).blocks.len() <= u32::MAX
                    && s.funcs[k].values.len() <= u32::MAX,
        decreases p.funcs.len() - i,
    {
        assert(s.funcs[i as int] == p.funcs[i as int].sem());
        if p.funcs[i].blocks.len() > 0xffff_ffff || p.funcs[i].values.len() > 0xffff_ffff {
            assert(!(s.funcs[i as int].blocks.len() <= u32::MAX) || !(
            s.funcs[i as int].values.len() <= u32::MAX));
            return false;
        }
        i += 1;
    }
    true
}

/// Make a program ready if there is room for every function of it; says whether there is.
fn try_ready_all(p: &mut Program) -> (r: bool)
    requires
        forall|i: int|
            0 <= i < old(p).funcs.len() ==> is_whole((#[trigger] old(p).funcs[i]).sem()),
    ensures
        r == forall|i: int|
            0 <= i < old(p).sem().funcs.len() ==> has_room(#[trigger] old(p).sem().funcs[i]),
        r ==> final(p).sem() == readied(old(p).sem()) && forall|i: int|
            0 <= i < old(p).sem().funcs.len() ==> can_be_readied(
                #[trigger] old(p).sem().funcs[i],
            ),
{
    let ghost a = *p;
    let ghost s = p.sem();
    let mut i: usize = 0;
    while i < p.funcs.len()
        invariant
            i <= p.funcs.len() == a.funcs.len(),
            a == *old(p),
            s == a.sem(),
            forall|k: int|
                0 <= k < a.funcs.len() ==> is_whole((#[trigger] a.funcs[k]).sem()),
            forall|k: int|
                0 <= k < i ==> (#[trigger] p.funcs[k]).sem() == made_ready(a.funcs[k].sem()),
            forall|k: int|
                0 <= k < i ==> has_room(#[trigger] s.funcs[k]) && can_be_readied(s.funcs[k]),
            forall|k: int| i <= k < p.funcs.len() ==> #[trigger] p.funcs[k] == a.funcs[k],
            p.recursive == a.recursive,
            p.boxed == a.boxed,
            p.pure_natives == a.pure_natives,
            p.inlined == a.inlined,
        decreases p.funcs.len() - i,
    {
        assert(p.funcs[i as int] == a.funcs[i as int]);
        assert(s.funcs[i as int] == a.funcs[i as int].sem());
        if !try_ready(&mut p.funcs[i]) {
            assert(!has_room(s.funcs[i as int]));
            return false;
        }
        i += 1;
    }
    assert(p.sem().funcs =~= readied(s).funcs);
    true
}

/// Take a program to a stage if there is room for it.
pub fn try_take_to(program: Program, stage: Stage) -> (r: Option<Program>)
    requires
        forall|i: int|
            0 <= i < program.funcs.len() ==> sound((#[trigger] program.funcs[i]).sem()),
    ensures
        match r {
            Some(x) => roomy(program.sem(), stage) && fits(program.sem(), stage) && x.sem()
                == at_stage(program.sem(), stage),
            None => !roomy(program.sem(), stage),
        },
{
    let mut p = program;
    if stage == Stage::Lowered {
        return Some(p);
    }
    if !is_numbered(&p) {
        return None;
    }
    let ghost a = p.sem();
    assert forall|i: int| 0 <= i < p.funcs.len() implies is_whole(
        (#[trigger] p.funcs[i]).sem(),
    ) by {
        assert(a.funcs[i] == p.funcs[i].sem());
        assert(sound(p.funcs[i].sem()));
    }
    optimise(&mut p);
    assert(optimised(a).funcs.len() == a.funcs.len());
    if stage == Stage::Optimised {
        return Some(p);
    }
    if try_ready_all(&mut p) {
        Some(p)
    } else {
        None
    }
}

/// As [`compile`], [`compile_tests`] and [`compile_benches`], for any program and any tables:
/// asks whether the tables are consistent, and for room on the way, and gives nothing where
/// they are not or there is none.
pub fn compile_checked(
    env: &Env,
    facts: &Facts,
    module: &Module,
    libs: &Vec<(Vec<String>, Module)>,
    stage: Stage,
    tests: Option<TestKind>,
) -> (r: Option<Program>)
    ensures
        ({
            let p = x_program(
                Ctx { env: *env, facts: *facts },
                module.sem(),
                libs_sem(libs@),
                tests,
                usize::MAX as nat,
            );
            let consistent = env_wf(*env) && facts_wf(*env, *facts);
            match r {
                Some(x) => {
                    &&& consistent
                    &&& roomy(p, stage)
                    &&& fits(p, stage)
                    &&& x.sem() == at_stage(p, stage)
                    &&& tests_are_in(
                        x.sem().funcs,
                        Ctx { env: *env, facts: *facts },
                        module.sem(),
                        libs_sem(libs@),
                        tests,
                    )
                },
                None => !consistent || !roomy(p, stage),
            }
        }),
{
    if !is_consistent(env, facts) {
        return None;
    }
    let p = lower_module_with(env, facts, module, libs, tests);
    let ghost lowered = p;
    let r = try_take_to(p, stage);
    proof {
        if r is Some {
            let s = lowered.sem();
            let c = Ctx { env: *env, facts: *facts };
            let at = plain_funcs(c, module.sem(), libs_sem(libs@)).len();
            assert forall|i: int|
                stage != Stage::Lowered && 0 <= i < s.funcs.len() implies blocks_wf(
                #[trigger] s.funcs[i],
            ) && values_wf(s.funcs[i]) by {
                assert(s.funcs[i] == lowered.funcs[i].sem());
                assert(sound(lowered.funcs[i].sem()));
            }
            lemma_tests_at_stage(s, stage, at, module.sem(), tests);
        }
    }
    r
}

} // verus!
