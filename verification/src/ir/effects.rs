//! Which functions have effects, for the optimiser.
//!
//! The answer is pessimistic: a function has effects unless it can cheaply be shown to have
//! none, since a mistake that way only costs an optimisation. The language has no mutable
//! memory to read or write, so there are two states only. A function is pure if it runs no
//! instruction with an effect, calls pure functions only, and neither has a loop nor comes
//! to call itself, either of which might never end. A call can be left out if the function
//! cannot trap either.

use super::cfg::{cfg, graph_of};
use super::graph::{
    adj, edge, graph_wf, is_on_cycle, none_of, nowhere, on_cycle, reachable, reached, walk_extends,
    walk_of_one, walks,
};
use super::opt::dead::{can_trap, may_trap};
use super::ssa::{
    block_in_range, blocks_wf, inst_in_range, values_wf, Func, Op, Program, SFunc, SOp,
};
use crate::syntax::{names_of, sems, Node};
use crate::text::str_eq;
use vstd::prelude::*;

verus! {

/// Whether each function is pure, by name.
#[derive(Debug)]
pub struct Purity {
    /// A name may occur more than once: it is pure if every entry says so.
    pub entries: Vec<(String, bool)>,
}

impl View for Purity {
    type V = Map<Seq<char>, bool>;

    open spec fn view(&self) -> Map<Seq<char>, bool> {
        Map::new(
            |n: Seq<char>|
                exists|i: int| 0 <= i < self.entries.len() && (#[trigger] self.entries[i]).0@ == n,
            |n: Seq<char>|
                forall|i: int|
                    0 <= i < self.entries.len() && (#[trigger] self.entries[i]).0@ == n
                        ==> self.entries[i].1,
        )
    }
}

impl Purity {
    /// Whether the function of a name is pure, if there is one.
    pub fn get(&self, name: &str) -> (r: Option<bool>)
        ensures
            r == if self@.contains_key(name@) {
                Some(self@[name@])
            } else {
                None
            },
    {
        let mut found: bool = false;
        let mut pure: bool = true;
        let mut i: usize = 0;
        while i < self.entries.len()
            invariant
                i <= self.entries.len(),
                found == exists|k: int| 0 <= k < i && (#[trigger] self.entries[k]).0@ == name@,
                pure == forall|k: int|
                    0 <= k < i && (#[trigger] self.entries[k]).0@ == name@ ==> self.entries[k].1,
            decreases self.entries.len() - i,
        {
            let ghost e = self.entries[i as int];
            if str_eq(self.entries[i].0.as_str(), name) {
                assert(self.entries[i as int].0@ == name@);
                found = true;
                if !self.entries[i].1 {
                    pure = false;
                }
            }
            i += 1;
        }
        if found {
            assert(self@.contains_key(name@));
            Some(pure)
        } else {
            assert(!self@.contains_key(name@));
            None
        }
    }
}

/// Whether an operation has an effect that must be kept: a native that is not declared pure,
/// a call to a function that is not known to be pure, or a call through a value.
pub open spec fn effectful(op: SOp, pure: Map<Seq<char>, bool>, natives: Seq<Seq<char>>) -> bool {
    match op {
        SOp::Native { symbol, .. } => !natives.contains(symbol),
        SOp::Call { func, .. } => !(pure.contains_key(func) && pure[func]),
        SOp::CallClosure { .. } => true,
        _ => false,
    }
}

/// Whether an operation has an effect whatever the functions of a program do: a native that
/// is not declared pure, a call to a function that the program does not have, or a call
/// through a value.
pub open spec fn effectful_itself(
    op: SOp,
    funcs: Seq<SFunc>,
    natives: Seq<Seq<char>>,
) -> bool {
    match op {
        SOp::Native { symbol, .. } => !natives.contains(symbol),
        SOp::Call { func, .. } => !named(funcs, func),
        SOp::CallClosure { .. } => true,
        _ => false,
    }
}

/// Whether some function has a name.
pub open spec fn named(funcs: Seq<SFunc>, name: Seq<char>) -> bool {
    exists|i: int| 0 <= i < funcs.len() && (#[trigger] funcs[i]).name == name
}

/// Whether a function does something with an effect itself, or has a loop, which may not
/// come to an end; with `strict`, also whether it does something that can trap.
pub open spec fn acts(
    f: SFunc,
    funcs: Seq<SFunc>,
    natives: Seq<Seq<char>>,
    strict: bool,
) -> bool {
    ||| strict && traps(f)
    ||| exists|b: int, k: int|
        0 <= b < f.blocks.len() && 0 <= k < f.blocks[b].insts.len() && effectful_itself(
            (#[trigger] f.blocks[b].insts[k]).op,
            funcs,
            natives,
        )
    ||| exists|b: int| 0 <= b < f.blocks.len() && #[trigger] on_cycle(cfg(f), b)
}

/// Whether a function does something that can trap.
pub open spec fn traps(f: SFunc) -> bool {
    exists|b: int, k: int|
        0 <= b < f.blocks.len() && 0 <= k < f.blocks[b].insts.len() && may_trap(
            f,
            (#[trigger] f.blocks[b].insts[k]).op,
        )
}

pub open spec fn is_call_to(op: SOp, name: Seq<char>) -> bool {
    op matches SOp::Call { func, .. } && func == name
}

/// Whether a function calls one of a name.
pub open spec fn calls(f: SFunc, name: Seq<char>) -> bool {
    exists|b: int, k: int|
        0 <= b < f.blocks.len() && 0 <= k < f.blocks[b].insts.len() && is_call_to(
            (#[trigger] f.blocks[b].insts[k]).op,
            name,
        )
}

/// Which of the first `n` functions call one of a name.
pub open spec fn callers(funcs: Seq<SFunc>, name: Seq<char>, n: int) -> Seq<usize>
    decreases n,
{
    if n <= 0 {
        seq![]
    } else if calls(funcs[n - 1], name) {
        callers(funcs, name, n - 1).push((n - 1) as usize)
    } else {
        callers(funcs, name, n - 1)
    }
}

/// The functions of a program as a graph: from each to those that call it.
pub open spec fn call_graph(funcs: Seq<SFunc>) -> Seq<Seq<usize>> {
    Seq::new(funcs.len(), |i: int| callers(funcs, funcs[i].name, funcs.len() as int))
}

/// Which functions do something themselves: what acts, and what comes to call itself, which
/// may not come to an end.
pub open spec fn actors(funcs: Seq<SFunc>, natives: Seq<Seq<char>>, strict: bool) -> Seq<bool> {
    Seq::new(
        funcs.len(),
        |i: int| acts(funcs[i], funcs, natives, strict) || on_cycle(call_graph(funcs), i),
    )
}

/// Whether a function has an effect: calls lead from it to one that does something itself.
pub open spec fn impure(
    funcs: Seq<SFunc>,
    natives: Seq<Seq<char>>,
    strict: bool,
    i: int,
) -> bool {
    reached(call_graph(funcs), nowhere(funcs.len()), actors(funcs, natives, strict), i)
}

/// For each name of a function, whether no function of that name has an effect.
pub open spec fn table(
    funcs: Seq<SFunc>,
    natives: Seq<Seq<char>>,
    strict: bool,
) -> Map<Seq<char>, bool> {
    Map::new(
        |n: Seq<char>| named(funcs, n),
        |n: Seq<char>|
            forall|i: int|
                0 <= i < funcs.len() && (#[trigger] funcs[i]).name == n ==> !impure(
                    funcs,
                    natives,
                    strict,
                    i,
                ),
    )
}

/// Whether each function of a program is pure, by name.
pub open spec fn purity(funcs: Seq<SFunc>, natives: Seq<Seq<char>>) -> Map<Seq<char>, bool> {
    table(funcs, natives, false)
}

/// Whether each function of a program is pure and cannot trap, by name: whether a call of it
/// whose result is not read can be left out.
pub open spec fn quiet(funcs: Seq<SFunc>, natives: Seq<Seq<char>>) -> Map<Seq<char>, bool> {
    table(funcs, natives, true)
}

// ---- computing it ----

fn is_among(names: &Vec<String>, name: &str) -> (r: bool)
    ensures
        r == names_of(names@).contains(name@),
{
    let ghost s = names_of(names@);
    let mut i: usize = 0;
    while i < names.len()
        invariant
            i <= names.len(),
            s == names_of(names@),
            forall|k: int| 0 <= k < i ==> #[trigger] s[k] != name@,
        decreases names.len() - i,
    {
        if str_eq(names[i].as_str(), name) {
            assert(s[i as int] == name@);
            return true;
        }
        i += 1;
    }
    false
}

/// Whether a native has an effect. A native is opaque, so this goes by what was declared of
/// it.
pub fn native_is_effectful(symbol: &str, pure_natives: &Vec<String>) -> (r: bool)
    ensures
        r == !names_of(pure_natives@).contains(symbol@),
{
    !is_among(pure_natives, symbol)
}

/// Whether an operation has an effect that must be kept, so that it may not be dropped even
/// if its result is not used.
pub fn op_is_effectful(op: &Op, pure: &Purity, pure_natives: &Vec<String>) -> (r: bool)
    ensures
        r == effectful(op.sem(), pure@, names_of(pure_natives@)),
{
    match op {
        Op::Native { symbol, .. } => native_is_effectful(symbol.as_str(), pure_natives),
        Op::Call { func, .. } => match pure.get(func.as_str()) {
            Some(p) => !p,
            None => true,
        },
        Op::CallClosure { .. } => true,
        _ => false,
    }
}

fn is_named(funcs: &Vec<Func>, name: &str) -> (r: bool)
    ensures
        r == named(sems(funcs@), name@),
{
    let ghost s = sems(funcs@);
    let mut i: usize = 0;
    while i < funcs.len()
        invariant
            i <= funcs.len(),
            s == sems(funcs@),
            forall|k: int| 0 <= k < i ==> (#[trigger] s[k]).name != name@,
        decreases funcs.len() - i,
    {
        assert(s[i as int] == funcs[i as int].sem());
        if str_eq(funcs[i].name.as_str(), name) {
            assert(s[i as int].name == name@);
            return true;
        }
        i += 1;
    }
    false
}

fn has_effect(op: &Op, funcs: &Vec<Func>, natives: &Vec<String>) -> (r: bool)
    ensures
        r == effectful_itself(op.sem(), sems(funcs@), names_of(natives@)),
{
    match op {
        Op::Native { symbol, .. } => native_is_effectful(symbol.as_str(), natives),
        Op::Call { func, .. } => !is_named(funcs, func.as_str()),
        Op::CallClosure { .. } => true,
        _ => false,
    }
}

fn does_act(f: &Func, funcs: &Vec<Func>, natives: &Vec<String>, strict: bool) -> (r: bool)
    requires
        blocks_wf(f.sem()),
        strict ==> values_wf(f.sem()),
    ensures
        r == acts(f.sem(), sems(funcs@), names_of(natives@), strict),
{
    if strict && does_trap(f) {
        return true;
    }
    let ghost s = f.sem();
    let ghost fs = sems(funcs@);
    let ghost ns = names_of(natives@);
    let mut b: usize = 0;
    while b < f.blocks.len()
        invariant
            b <= f.blocks.len(),
            s == f.sem(),
            fs == sems(funcs@),
            ns == names_of(natives@),
            forall|c: int, k: int|
                0 <= c < b && 0 <= k < s.blocks[c].insts.len() ==> !effectful_itself(
                    (#[trigger] s.blocks[c].insts[k]).op,
                    fs,
                    ns,
                ),
        decreases f.blocks.len() - b,
    {
        assert(s.blocks[b as int] == f.blocks[b as int].sem());
        let mut k: usize = 0;
        while k < f.blocks[b].insts.len()
            invariant
                b < f.blocks.len(),
                k <= f.blocks[b as int].insts.len(),
                s == f.sem(),
                s.blocks[b as int] == f.blocks[b as int].sem(),
                fs == sems(funcs@),
                ns == names_of(natives@),
                forall|j: int|
                    0 <= j < k ==> !effectful_itself(
                        (#[trigger] s.blocks[b as int].insts[j]).op,
                        fs,
                        ns,
                    ),
            decreases f.blocks[b as int].insts.len() - k,
        {
            assert(s.blocks[b as int].insts[k as int] == f.blocks[b as int].insts[k as int].sem());
            if has_effect(&f.blocks[b].insts[k].op, funcs, natives) {
                assert(effectful_itself(s.blocks[b as int].insts[k as int].op, fs, ns));
                return true;
            }
            k += 1;
        }
        b += 1;
    }
    let g = graph_of(f);
    assert(adj(g@).len() == g.len());
    let mut b: usize = 0;
    while b < g.len()
        invariant
            b <= g.len() == s.blocks.len(),
            s == f.sem(),
            fs == sems(funcs@),
            ns == names_of(natives@),
            adj(g@) == cfg(s),
            graph_wf(adj(g@)),
            forall|c: int| 0 <= c < b ==> !(#[trigger] on_cycle(cfg(s), c)),
        decreases g.len() - b,
    {
        if is_on_cycle(&g, b) {
            return true;
        }
        b += 1;
    }
    assert(!exists|b: int| 0 <= b < s.blocks.len() && #[trigger] on_cycle(cfg(s), b));
    false
}

fn does_trap(f: &Func) -> (r: bool)
    requires
        values_wf(f.sem()),
    ensures
        r == traps(f.sem()),
{
    let ghost s = f.sem();
    let mut b: usize = 0;
    while b < f.blocks.len()
        invariant
            b <= f.blocks.len(),
            s == f.sem(),
            values_wf(s),
            forall|c: int, k: int|
                0 <= c < b && 0 <= k < s.blocks[c].insts.len() ==> !may_trap(
                    s,
                    (#[trigger] s.blocks[c].insts[k]).op,
                ),
        decreases f.blocks.len() - b,
    {
        assert(s.blocks[b as int] == f.blocks[b as int].sem());
        assert(block_in_range(s.blocks[b as int], s.values.len()));
        let mut k: usize = 0;
        while k < f.blocks[b].insts.len()
            invariant
                b < f.blocks.len(),
                k <= f.blocks[b as int].insts.len(),
                s == f.sem(),
                s.blocks[b as int] == f.blocks[b as int].sem(),
                block_in_range(s.blocks[b as int], s.values.len()),
                s.values.len() == f.values.len(),
                forall|j: int|
                    0 <= j < k ==> !may_trap(s, (#[trigger] s.blocks[b as int].insts[j]).op),
            decreases f.blocks[b as int].insts.len() - k,
        {
            let i = &f.blocks[b].insts[k];
            assert(s.blocks[b as int].insts[k as int] == i.sem());
            assert(inst_in_range(s.blocks[b as int].insts[k as int], s.values.len()));
            if can_trap(f, &i.op) {
                assert(may_trap(s, s.blocks[b as int].insts[k as int].op));
                return true;
            }
            k += 1;
        }
        b += 1;
    }
    false
}

fn does_call(f: &Func, name: &str) -> (r: bool)
    ensures
        r == calls(f.sem(), name@),
{
    let ghost s = f.sem();
    let mut b: usize = 0;
    while b < f.blocks.len()
        invariant
            b <= f.blocks.len(),
            s == f.sem(),
            forall|c: int, k: int|
                0 <= c < b && 0 <= k < s.blocks[c].insts.len() ==> !is_call_to(
                    (#[trigger] s.blocks[c].insts[k]).op,
                    name@,
                ),
        decreases f.blocks.len() - b,
    {
        assert(s.blocks[b as int] == f.blocks[b as int].sem());
        let mut k: usize = 0;
        while k < f.blocks[b].insts.len()
            invariant
                b < f.blocks.len(),
                k <= f.blocks[b as int].insts.len(),
                s == f.sem(),
                s.blocks[b as int] == f.blocks[b as int].sem(),
                forall|j: int|
                    0 <= j < k ==> !is_call_to(
                        (#[trigger] s.blocks[b as int].insts[j]).op,
                        name@,
                    ),
            decreases f.blocks[b as int].insts.len() - k,
        {
            assert(s.blocks[b as int].insts[k as int] == f.blocks[b as int].insts[k as int].sem());
            let hit = match &f.blocks[b].insts[k].op {
                Op::Call { func, .. } => str_eq(func.as_str(), name),
                _ => false,
            };
            if hit {
                assert(is_call_to(s.blocks[b as int].insts[k as int].op, name@));
                return true;
            }
            k += 1;
        }
        b += 1;
    }
    false
}

proof fn lemma_callers_in_range(funcs: Seq<SFunc>, name: Seq<char>, n: int)
    requires
        0 <= n <= funcs.len() <= usize::MAX,
    ensures
        forall|k: int|
            0 <= k < callers(funcs, name, n).len() ==> (#[trigger] callers(funcs, name, n)[k]) < n,
    decreases n,
{
    if n > 0 {
        lemma_callers_in_range(funcs, name, n - 1);
        let before = callers(funcs, name, n - 1);
        assert forall|k: int| 0 <= k < callers(funcs, name, n).len() implies (#[trigger] callers(
            funcs,
            name,
            n,
        )[k]) < n by {
            if k < before.len() {
                assert(before[k] < n - 1);
            }
        }
    }
}

proof fn lemma_callers_has(funcs: Seq<SFunc>, name: Seq<char>, n: int, i: int)
    requires
        0 <= i < n <= funcs.len() <= usize::MAX,
        calls(funcs[i], name),
    ensures
        callers(funcs, name, n).contains(i as usize),
    decreases n,
{
    let all = callers(funcs, name, n);
    if i == n - 1 {
        assert(all[all.len() - 1] == i as usize);
    } else {
        lemma_callers_has(funcs, name, n - 1, i);
        let before = callers(funcs, name, n - 1);
        let k = choose|k: int| 0 <= k < before.len() && before[k] == i as usize;
        assert(all[k] == i as usize);
    }
}

/// A pure function runs nothing that has an effect: neither itself, nor through the functions
/// that it calls.
pub proof fn pure_functions_have_no_effects(
    funcs: Seq<SFunc>,
    natives: Seq<Seq<char>>,
    strict: bool,
    i: int,
    b: int,
    k: int,
)
    requires
        funcs.len() <= usize::MAX,
        0 <= i < funcs.len(),
        table(funcs, natives, strict)[funcs[i].name],
        0 <= b < funcs[i].blocks.len(),
        0 <= k < funcs[i].blocks[b].insts.len(),
    ensures
        !effectful(funcs[i].blocks[b].insts[k].op, table(funcs, natives, strict), natives),
{
    let f = funcs[i];
    let op = f.blocks[b].insts[k].op;
    let g = call_graph(funcs);
    let none = nowhere(funcs.len());
    let starts = actors(funcs, natives, strict);
    let m = table(funcs, natives, strict);
    assert(m.contains_key(f.name));
    assert(!impure(funcs, natives, strict, i));
    if effectful_itself(op, funcs, natives) {
        assert(effectful_itself(f.blocks[b].insts[k].op, funcs, natives));
        assert(acts(f, funcs, natives, strict));
        walk_of_one(g, none, i);
        assert(starts[i]);
    }
    if let SOp::Call { func, .. } = op {
        assert(is_call_to(f.blocks[b].insts[k].op, func));
        assert(m.contains_key(func));
        assert forall|j: int| 0 <= j < funcs.len() && (#[trigger] funcs[j]).name == func implies
            !impure(funcs, natives, strict, j) by {
            lemma_callers_has(funcs, func, funcs.len() as int, i);
            assert(edge(g, j, i));
            if impure(funcs, natives, strict, j) {
                let a = choose|a: int|
                    0 <= a < g.len() && #[trigger] starts[a] && walks(g, none, a, j);
                walk_extends(g, none, a, j, i);
                assert(starts[a] && walks(g, none, a, i));
            }
        }
    }
}

fn call_graph_of(funcs: &Vec<Func>) -> (g: Vec<Vec<usize>>)
    ensures
        adj(g@) == call_graph(sems(funcs@)),
        graph_wf(adj(g@)),
        g.len() == funcs.len(),
{
    let ghost s = sems(funcs@);
    let mut g: Vec<Vec<usize>> = Vec::new();
    let mut i: usize = 0;
    while i < funcs.len()
        invariant
            i <= funcs.len(),
            s == sems(funcs@),
            g.len() == i,
            forall|k: int|
                0 <= k < i ==> (#[trigger] g[k])@ == callers(s, s[k].name, s.len() as int),
        decreases funcs.len() - i,
    {
        assert(s[i as int] == funcs[i as int].sem());
        let mut row: Vec<usize> = Vec::new();
        let mut j: usize = 0;
        while j < funcs.len()
            invariant
                i < funcs.len(),
                j <= funcs.len(),
                s == sems(funcs@),
                s[i as int] == funcs[i as int].sem(),
                row@ == callers(s, s[i as int].name, j as int),
            decreases funcs.len() - j,
        {
            assert(s[j as int] == funcs[j as int].sem());
            if does_call(&funcs[j], funcs[i].name.as_str()) {
                row.push(j);
            }
            j += 1;
        }
        g.push(row);
        i += 1;
    }
    assert(adj(g@) =~= call_graph(s));
    proof {
        assert forall|a: int, k: int|
            0 <= a < adj(g@).len() && 0 <= k < adj(g@)[a].len() implies (#[trigger] adj(g@)[a][k])
            < adj(g@).len() by {
            lemma_callers_in_range(s, s[a].name, s.len() as int);
        }
    }
    g
}

/// Which functions of a program are pure.
pub fn analyze(program: &Program) -> (r: Purity)
    requires
        forall|i: int|
            0 <= i < program.funcs.len() ==> blocks_wf((#[trigger] program.funcs[i]).sem()),
    ensures
        r@ == purity(sems(program.funcs@), names_of(program.pure_natives@)),
{
    table_of(program, false)
}

/// Which functions of a program are pure and cannot trap.
pub fn analyze_quiet(program: &Program) -> (r: Purity)
    requires
        forall|i: int|
            0 <= i < program.funcs.len() ==> blocks_wf((#[trigger] program.funcs[i]).sem())
                && values_wf(program.funcs[i].sem()),
    ensures
        r@ == quiet(sems(program.funcs@), names_of(program.pure_natives@)),
{
    table_of(program, true)
}

fn table_of(program: &Program, strict: bool) -> (r: Purity)
    requires
        forall|i: int|
            0 <= i < program.funcs.len() ==> blocks_wf((#[trigger] program.funcs[i]).sem()) && (
            strict ==> values_wf(program.funcs[i].sem())),
    ensures
        r@ == table(sems(program.funcs@), names_of(program.pure_natives@), strict),
{
    let ghost s = sems(program.funcs@);
    let ghost ns = names_of(program.pure_natives@);
    let g = call_graph_of(&program.funcs);
    let n: usize = program.funcs.len();
    let mut starts: Vec<bool> = Vec::new();
    let mut i: usize = 0;
    while i < n
        invariant
            i <= n == program.funcs.len(),
            s == sems(program.funcs@),
            ns == names_of(program.pure_natives@),
            forall|i: int|
                0 <= i < program.funcs.len() ==> blocks_wf((#[trigger] program.funcs[i]).sem())
                    && (strict ==> values_wf(program.funcs[i].sem())),
            g.len() == n,
            adj(g@) == call_graph(s),
            graph_wf(adj(g@)),
            starts.len() == i,
            forall|k: int|
                0 <= k < i ==> #[trigger] starts[k] == (acts(s[k], s, ns, strict) || on_cycle(
                    call_graph(s),
                    k,
                )),
        decreases n - i,
    {
        assert(s[i as int] == program.funcs[i as int].sem());
        let act = does_act(&program.funcs[i], &program.funcs, &program.pure_natives, strict);
        starts.push(act || is_on_cycle(&g, i));
        i += 1;
    }
    assert(starts@ =~= actors(s, ns, strict));
    let none = none_of(n);
    let hit = reachable(&g, &starts, &none);
    let mut entries: Vec<(String, bool)> = Vec::new();
    let mut i: usize = 0;
    while i < n
        invariant
            i <= n == program.funcs.len(),
            s == sems(program.funcs@),
            hit.len() == n,
            entries.len() == i,
            forall|k: int|
                0 <= k < i ==> (#[trigger] entries[k]).0@ == s[k].name && entries[k].1 == !hit[k],
        decreases n - i,
    {
        assert(s[i as int] == program.funcs[i as int].sem());
        entries.push((program.funcs[i].name.clone(), !hit[i]));
        i += 1;
    }
    let r = Purity { entries };
    proof {
        let m = table(s, ns, strict);
        assert forall|k: int| 0 <= k < n implies (#[trigger] r.entries[k]).0@ == s[k].name
            && r.entries[k].1 == !impure(s, ns, strict, k) by {
            assert(hit[k] == reached(adj(g@), none@, starts@, k));
        }
        assert forall|name: Seq<char>| #[trigger] r@.contains_key(name) == m.contains_key(name) by {
            if m.contains_key(name) {
                let k = choose|k: int| 0 <= k < s.len() && (#[trigger] s[k]).name == name;
                assert(r.entries[k].0@ == name);
            }
            if r@.contains_key(name) {
                let k = choose|k: int|
                    0 <= k < r.entries.len() && (#[trigger] r.entries[k]).0@ == name;
                assert(s[k].name == name);
            }
        }
        assert forall|name: Seq<char>| #[trigger] r@.contains_key(name) implies r@[name]
            == m[name] by {
            assert(m.contains_key(name));
            if r@[name] {
                assert forall|k: int| 0 <= k < s.len() && (#[trigger] s[k]).name == name implies
                    !impure(s, ns, strict, k) by {
                    assert(r.entries[k].0@ == name);
                }
            }
            if m[name] {
                assert forall|k: int|
                    0 <= k < r.entries.len() && (#[trigger] r.entries[k]).0@
                        == name implies r.entries[k].1 by {
                    assert(s[k].name == name);
                }
            }
        }
        assert(r@ =~= m);
    }
    r
}

} // verus!
