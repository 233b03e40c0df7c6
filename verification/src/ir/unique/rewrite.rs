//! Making the writes of a chain in place.
//!
//! A write becomes a store with no result, and the branch on its outcome a jump along the
//! edge that it succeeds on. What opened its tagged result goes, and the list itself stands
//! for the list that it gave.

use super::super::opt::operands::{
    put, put_inst, put_op_below, put_term, put_term_below, put_value, rewrite_inst, rewrite_term,
    term_operands_of_put,
};
use super::super::partial::set_inplace;
use super::super::ssa::{
    block_in_range, blocks_wf, copy_values, inst_in_range, operands, targets, term_in_range,
    values_below, values_wf, Block, Func, Inst, Op, SBlock, SFunc, SInst, SOp, STerm, Term, Value,
};
use super::chain::{site_in_range, SSite, Site};
use crate::syntax::{sems, Node};
use vstd::prelude::*;

verus! {

/// The first instruction from `k` on that defines a value.
pub open spec fn result_from(is: Seq<SInst>, v: Value, k: int) -> Option<int>
    decreases is.len() - k,
{
    if k >= is.len() {
        None
    } else if is[k].result == Some(v) {
        Some(k)
    } else {
        result_from(is, v, k + 1)
    }
}

/// What the write of a site is called with, and where it stands.
pub open spec fn call_of(f: SFunc, s: SSite) -> Option<(int, Seq<Value>)> {
    if s.block < f.blocks.len() {
        match result_from(f.blocks[s.block as int].insts, s.tagged, 0) {
            Some(k) => match f.blocks[s.block as int].insts[k].op {
                SOp::Call { args, .. } => if args.len() == 3 {
                    Some((k, args))
                } else {
                    None
                },
                _ => None,
            },
            None => None,
        }
    } else {
        None
    }
}

/// A function being rewritten.
pub struct Edit {
    pub f: SFunc,
    /// The lists that writes gave, and the lists that they were given.
    pub results: Seq<Value>,
    pub lists: Seq<Value>,
    /// The values whose definitions go.
    pub dead: Seq<Value>,
}

/// A function with one write made in place.
pub open spec fn stored(f: SFunc, s: SSite) -> SFunc {
    match call_of(f, s) {
        Some((k, args)) => {
            let b = f.blocks[s.block as int];
            let store = SInst { result: None, op: SOp::Native { symbol: set_inplace(), args } };
            SFunc {
                blocks: f.blocks.update(
                    s.block as int,
                    SBlock { insts: b.insts.update(k, store), term: STerm::Jump(s.ok), ..b },
                ),
                ..f
            }
        },
        None => f,
    }
}

pub open spec fn with_opt(s: Seq<Value>, v: Option<Value>) -> Seq<Value> {
    match v {
        Some(v) => s.push(v),
        None => s,
    }
}

/// One more write made in place.
pub open spec fn one_more_store(e: Edit, s: SSite) -> Edit {
    match call_of(e.f, s) {
        Some((_, args)) => Edit {
            f: stored(e.f, s),
            results: with_opt(e.results, s.unwrap_ok),
            lists: if s.unwrap_ok is Some {
                e.lists.push(args[0])
            } else {
                e.lists
            },
            dead: with_opt(with_opt(e.dead.push(s.is_err), s.unwrap_err), s.unwrap_ok),
        },
        None => e,
    }
}

/// A function with the writes of the first `n` sites made in place.
pub open spec fn edited(f: SFunc, ss: Seq<SSite>, n: int) -> Edit
    decreases n,
{
    if n <= 0 {
        Edit { f, results: seq![], lists: seq![], dead: seq![] }
    } else {
        one_more_store(edited(f, ss, n - 1), ss[n - 1])
    }
}

/// The list that a list comes from, through at most `n` writes.
pub open spec fn traced(results: Seq<Value>, lists: Seq<Value>, v: Value, n: nat) -> Value
    decreases n,
{
    if n == 0 || put(results, lists, v) == v {
        v
    } else {
        traced(results, lists, put(results, lists, v), (n - 1) as nat)
    }
}

/// The list that stands for each that a write gave.
pub open spec fn origins(e: Edit) -> Seq<Value> {
    Seq::new(
        e.results.len(),
        |i: int| traced(e.results, e.lists, e.results[i], e.results.len()),
    )
}

pub open spec fn is_dead(i: SInst, dead: Seq<Value>) -> bool {
    i.result matches Some(v) && dead.contains(v)
}

/// The instructions among the first `n` that stay, over the lists that stand for others.
pub open spec fn cleaned(
    is: Seq<SInst>,
    dead: Seq<Value>,
    p: Seq<Value>,
    a: Seq<Value>,
    n: int,
) -> Seq<SInst>
    decreases n,
{
    if n <= 0 {
        seq![]
    } else if is_dead(is[n - 1], dead) {
        cleaned(is, dead, p, a, n - 1)
    } else {
        cleaned(is, dead, p, a, n - 1).push(put_inst(p, a, is[n - 1]))
    }
}

pub open spec fn cleaned_block(b: SBlock, dead: Seq<Value>, p: Seq<Value>, a: Seq<Value>) -> SBlock {
    SBlock {
        insts: cleaned(b.insts, dead, p, a, b.insts.len() as int),
        term: put_term(p, a, b.term),
        ..b
    }
}

/// A function with all writes of a chain made in place.
pub open spec fn in_place(f: SFunc, ss: Seq<SSite>) -> SFunc {
    let e = edited(f, ss, ss.len() as int);
    SFunc {
        blocks: Seq::new(
            e.f.blocks.len(),
            |b: int| cleaned_block(e.f.blocks[b], e.dead, e.results, origins(e)),
        ),
        ..e.f
    }
}

// ---- what rewriting keeps ----

proof fn lemma_result_from(is: Seq<SInst>, v: Value, k: int)
    requires
        0 <= k,
    ensures
        result_from(is, v, k) matches Some(j) ==> k <= j < is.len(),
    decreases is.len() - k,
{
    if k < is.len() && is[k].result != Some(v) {
        lemma_result_from(is, v, k + 1);
    }
}

spec fn edit_wf(f: SFunc, e: Edit) -> bool {
    &&& blocks_wf(e.f)
    &&& values_wf(e.f)
    &&& e.f.blocks.len() == f.blocks.len()
    &&& e.f.values == f.values
    &&& e.f.entry == f.entry
    &&& e.results.len() == e.lists.len()
    &&& values_below(e.results, f.values.len())
    &&& values_below(e.lists, f.values.len())
    &&& forall|b: int|
        0 <= b < f.blocks.len() ==> (#[trigger] e.f.blocks[b]).params == f.blocks[b].params
}

/// Making writes in place adds no blocks and no values.
pub proof fn in_place_sizes(f: SFunc, ss: Seq<SSite>, n: int)
    ensures
        edited(f, ss, n).f.blocks.len() == f.blocks.len(),
        edited(f, ss, n).f.values == f.values,
        n == ss.len() ==> in_place(f, ss).blocks.len() == f.blocks.len(),
        n == ss.len() ==> in_place(f, ss).values == f.values,
    decreases n,
{
    if n > 0 {
        in_place_sizes(f, ss, n - 1);
    }
}

proof fn lemma_edited(f: SFunc, ss: Seq<SSite>, n: int)
    requires
        blocks_wf(f),
        values_wf(f),
        0 <= n <= ss.len(),
        forall|i: int| 0 <= i < ss.len() ==> site_in_range(f, #[trigger] ss[i]),
    ensures
        edit_wf(f, edited(f, ss, n)),
    decreases n,
{
    if n > 0 {
        lemma_edited(f, ss, n - 1);
        let e = edited(f, ss, n - 1);
        let s = ss[n - 1];
        assert(site_in_range(f, s));
        let x = e.f.blocks[s.block as int];
        lemma_result_from(x.insts, s.tagged, 0);
        if let Some((k, args)) = call_of(e.f, s) {
            assert(block_in_range(x, f.values.len()));
            assert(inst_in_range(x.insts[k], f.values.len()));
            assert(operands(x.insts[k].op) == args);
            let g = stored(e.f, s);
            assert forall|b: int| 0 <= b < g.blocks.len() implies block_in_range(
                #[trigger] g.blocks[b],
                f.values.len(),
            ) && g.blocks[b].id == e.f.blocks[b].id && term_in_range(
                g.blocks[b].term,
                g.blocks.len(),
            ) && g.blocks[b].params == f.blocks[b].params by {
                assert(e.f.blocks[b].params == f.blocks[b].params);
                assert(block_in_range(e.f.blocks[b], f.values.len()));
                assert(term_in_range(e.f.blocks[b].term, f.blocks.len()));
                if b == s.block {
                    let y = g.blocks[b];
                    assert forall|j: int| 0 <= j < y.insts.len() implies inst_in_range(
                        #[trigger] y.insts[j],
                        f.values.len(),
                    ) by {
                        assert(inst_in_range(x.insts[j], f.values.len()));
                    }
                }
            }
        }
    }
}

proof fn lemma_traced_below(
    results: Seq<Value>,
    lists: Seq<Value>,
    v: Value,
    n: nat,
    m: nat,
)
    requires
        v.0 < m,
        values_below(lists, m),
    ensures
        traced(results, lists, v, n).0 < m,
    decreases n,
{
    if n > 0 && put(results, lists, v) != v {
        lemma_put_value_below(results, lists, v, results.len() as int, m);
        lemma_traced_below(results, lists, put(results, lists, v), (n - 1) as nat, m);
    }
}

proof fn lemma_put_value_below(p: Seq<Value>, a: Seq<Value>, v: Value, n: int, m: nat)
    requires
        values_below(a, m),
        v.0 < m,
        0 <= n <= p.len(),
    ensures
        super::super::opt::operands::put_for(p, a, v, n).0 < m,
    decreases n,
{
    if n > 0 {
        lemma_put_value_below(p, a, v, n - 1, m);
    }
}

proof fn lemma_cleaned(
    is: Seq<SInst>,
    dead: Seq<Value>,
    p: Seq<Value>,
    a: Seq<Value>,
    n: int,
    m: nat,
)
    requires
        0 <= n <= is.len(),
        values_below(a, m),
        forall|i: int| 0 <= i < is.len() ==> inst_in_range(#[trigger] is[i], m),
    ensures
        forall|i: int|
            0 <= i < cleaned(is, dead, p, a, n).len() ==> inst_in_range(
                #[trigger] cleaned(is, dead, p, a, n)[i],
                m,
            ),
    decreases n,
{
    if n > 0 {
        lemma_cleaned(is, dead, p, a, n - 1, m);
        let before = cleaned(is, dead, p, a, n - 1);
        let all = cleaned(is, dead, p, a, n);
        assert(inst_in_range(is[n - 1], m));
        put_op_below(p, a, is[n - 1].op, m);
        assert forall|i: int| 0 <= i < all.len() implies inst_in_range(#[trigger] all[i], m) by {
            if i < before.len() {
                assert(all[i] == before[i]);
            }
        }
    }
}

/// Making writes in place keeps a function well-formed, its values and its blocks'
/// parameters.
pub proof fn in_place_keeps(f: SFunc, ss: Seq<SSite>)
    requires
        blocks_wf(f),
        values_wf(f),
        forall|i: int| 0 <= i < ss.len() ==> site_in_range(f, #[trigger] ss[i]),
    ensures
        blocks_wf(in_place(f, ss)),
        values_wf(in_place(f, ss)),
        in_place(f, ss).values == f.values,
        in_place(f, ss).entry == f.entry,
        in_place(f, ss).blocks.len() == f.blocks.len(),
        forall|b: int|
            0 <= b < f.blocks.len() ==> (#[trigger] in_place(f, ss).blocks[b]).params
                == f.blocks[b].params,
{
    let e = edited(f, ss, ss.len() as int);
    let a = origins(e);
    let m = f.values.len();
    lemma_edited(f, ss, ss.len() as int);
    assert forall|i: int| 0 <= i < a.len() implies (#[trigger] a[i]).0 < m by {
        assert(e.results[i].0 < m);
        lemma_traced_below(e.results, e.lists, e.results[i], e.results.len(), m);
    }
    let g = in_place(f, ss);
    assert forall|b: int| 0 <= b < g.blocks.len() implies block_in_range(
        #[trigger] g.blocks[b],
        m,
    ) && g.blocks[b].id == e.f.blocks[b].id && term_in_range(g.blocks[b].term, g.blocks.len())
        && g.blocks[b].params == f.blocks[b].params by {
        let x = e.f.blocks[b];
        assert(x.params == f.blocks[b].params);
        assert(block_in_range(x, m));
        assert(term_in_range(e.f.blocks[b].term, e.f.blocks.len()));
        lemma_cleaned(x.insts, e.dead, e.results, a, x.insts.len() as int, m);
        put_term_below(e.results, a, x.term, m);
        term_operands_of_put(e.results, a, x.term);
        assert forall|k: int| 0 <= k < targets(g.blocks[b].term).len() implies (
        #[trigger] targets(g.blocks[b].term)[k]).to.0 < g.blocks.len() by {
            assert(targets(x.term)[k].to.0 < e.f.blocks.len());
        }
    }
}

// ---- doing it ----

fn find_call(f: &Func, s: &Site) -> (r: Option<(usize, Vec<Value>)>)
    requires
        s.block < f.blocks.len(),
    ensures
        match r {
            Some((k, args)) => call_of(f.sem(), s.sem()) == Some((k as int, args@)) && k
                < f.blocks[s.block as int].insts.len() && args.len() == 3,
            None => call_of(f.sem(), s.sem()) is None,
        },
{
    let ghost x = f.sem().blocks[s.block as int];
    assert(x == f.blocks[s.block as int].sem());
    let mut k: usize = 0;
    while k < f.blocks[s.block].insts.len()
        invariant
            s.block < f.blocks.len(),
            x == f.sem().blocks[s.block as int],
            x == f.blocks[s.block as int].sem(),
            k <= f.blocks[s.block as int].insts.len(),
            result_from(x.insts, s.tagged, 0) == result_from(x.insts, s.tagged, k as int),
        decreases f.blocks[s.block as int].insts.len() - k,
    {
        let i = &f.blocks[s.block].insts[k];
        assert(x.insts[k as int] == i.sem());
        let hit = match i.result {
            Some(v) => v == s.tagged,
            None => false,
        };
        if hit {
            return match &i.op {
                Op::Call { args, .. } => if args.len() == 3 {
                    Some((k, copy_values(args)))
                } else {
                    None
                },
                _ => None,
            };
        }
        k += 1;
    }
    None
}

fn is_in(vs: &Vec<Value>, v: Value) -> (r: bool)
    ensures
        r == vs@.contains(v),
{
    let mut i: usize = 0;
    while i < vs.len()
        invariant
            i <= vs.len(),
            forall|k: int| 0 <= k < i ==> #[trigger] vs@[k] != v,
        decreases vs.len() - i,
    {
        if vs[i] == v {
            assert(vs@[i as int] == v);
            return true;
        }
        i += 1;
    }
    false
}

fn trace(results: &Vec<Value>, lists: &Vec<Value>, v: Value) -> (r: Value)
    ensures
        r == traced(results@, lists@, v, results@.len()),
{
    let mut at = v;
    let mut n: usize = results.len();
    while n > 0
        invariant
            traced(results@, lists@, v, results@.len()) == traced(results@, lists@, at, n as nat),
        decreases n,
    {
        let next = put_value(results, lists, at);
        if next == at {
            return at;
        }
        at = next;
        n -= 1;
    }
    at
}

fn clean_block(b: &Block, dead: &Vec<Value>, p: &Vec<Value>, a: &Vec<Value>) -> (r: Block)
    ensures
        r.sem() == cleaned_block(b.sem(), dead@, p@, a@),
{
    let ghost x = b.sem();
    let mut insts: Vec<Inst> = Vec::new();
    let mut k: usize = 0;
    assert(sems(insts@) =~= cleaned(x.insts, dead@, p@, a@, 0));
    while k < b.insts.len()
        invariant
            k <= b.insts.len(),
            x == b.sem(),
            sems(insts@) == cleaned(x.insts, dead@, p@, a@, k as int),
        decreases b.insts.len() - k,
    {
        assert(x.insts[k as int] == b.insts[k as int].sem());
        let gone = match b.insts[k].result {
            Some(v) => is_in(dead, v),
            None => false,
        };
        if !gone {
            let i = rewrite_inst(&b.insts[k], p, a);
            let ghost before = insts@;
            insts.push(i);
            assert(sems(insts@) =~= sems(before).push(i.sem()));
        }
        k += 1;
    }
    Block { id: b.id, params: copy_values(&b.params), insts, term: rewrite_term(&b.term, p, a) }
}

/// Make the write of one site in place.
fn store(f: &mut Func, s: &Site, k: usize, args: Vec<Value>)
    requires
        s.block < old(f).blocks.len(),
        k < old(f).blocks[s.block as int].insts.len(),
        call_of(old(f).sem(), s.sem()) == Some((k as int, args@)),
    ensures
        final(f).sem() == stored(old(f).sem(), s.sem()),
        final(f).blocks.len() == old(f).blocks.len(),
{
    let ghost f0 = f.sem();
    let ghost b0 = f.blocks[s.block as int];
    assert(f0.blocks[s.block as int] == b0.sem());
    let op = Op::Native { symbol: "neon_list_set_inplace".to_owned(), args };
    assert(op.sem() == SOp::Native { symbol: set_inplace(), args: args@ });
    let i = Inst { result: None, op };
    assert(i.sem() == SInst { result: None, op: op.sem() });
    f.blocks[s.block].insts[k] = i;
    f.blocks[s.block].term = Term::Jump(s.ok.clone());
    let ghost b1 = f.blocks[s.block as int];
    assert(sems(b1.insts@) =~= sems(b0.insts@).update(k as int, i.sem()));
    assert(b1.sem() == SBlock {
        insts: sems(b0.insts@).update(k as int, i.sem()),
        term: STerm::Jump(s.ok.sem()),
        ..b0.sem()
    });
    assert(f.sem().blocks =~= stored(f0, s.sem()).blocks);
}

/// Make all writes of a chain in place.
pub fn write_in_place(f: &mut Func, ss: &Vec<Site>)
    requires
        blocks_wf(old(f).sem()),
        values_wf(old(f).sem()),
        forall|i: int| 0 <= i < ss.len() ==> site_in_range(old(f).sem(), (#[trigger] ss[i]).sem()),
    ensures
        final(f).sem() == in_place(old(f).sem(), sems(ss@)),
{
    let ghost f0 = f.sem();
    let ghost xs = sems(ss@);
    assert forall|i: int| 0 <= i < xs.len() implies site_in_range(f0, #[trigger] xs[i]) by {
        assert(xs[i] == ss[i].sem());
    }
    let mut results: Vec<Value> = Vec::new();
    let mut lists: Vec<Value> = Vec::new();
    let mut dead: Vec<Value> = Vec::new();
    let mut i: usize = 0;
    assert(edited(f0, xs, 0) == Edit {
        f: f0,
        results: results@,
        lists: lists@,
        dead: dead@,
    });
    while i < ss.len()
        invariant
            i <= ss.len(),
            xs == sems(ss@),
            blocks_wf(f0),
            values_wf(f0),
            forall|k: int| 0 <= k < xs.len() ==> site_in_range(f0, #[trigger] xs[k]),
            edited(f0, xs, i as int) == (Edit {
                f: f.sem(),
                results: results@,
                lists: lists@,
                dead: dead@,
            }),
        decreases ss.len() - i,
    {
        let s = &ss[i];
        assert(xs[i as int] == s.sem());
        proof {
            lemma_edited(f0, xs, i as int);
        }
        assert(f.sem().blocks.len() == f.blocks.len());
        match find_call(f, s) {
            Some((k, args)) => {
                let list = args[0];
                store(f, s, k, args);
                dead.push(s.is_err);
                if let Some(v) = s.unwrap_err {
                    dead.push(v);
                }
                if let Some(v) = s.unwrap_ok {
                    dead.push(v);
                    results.push(v);
                    lists.push(list);
                }
            },
            None => {},
        }
        i += 1;
    }
    let ghost e = edited(f0, xs, xs.len() as int);
    let mut from: Vec<Value> = Vec::new();
    let mut i: usize = 0;
    while i < results.len()
        invariant
            i <= results.len(),
            from.len() == i,
            forall|k: int|
                0 <= k < i ==> #[trigger] from[k] == traced(
                    results@,
                    lists@,
                    results[k],
                    results@.len(),
                ),
        decreases results.len() - i,
    {
        from.push(trace(&results, &lists, results[i]));
        i += 1;
    }
    assert(from@ =~= origins(e));
    let mut blocks: Vec<Block> = Vec::new();
    let mut b: usize = 0;
    while b < f.blocks.len()
        invariant
            b <= f.blocks.len(),
            e.f == f.sem(),
            e.dead == dead@,
            e.results == results@,
            from@ == origins(e),
            blocks.len() == b,
            forall|k: int|
                0 <= k < b ==> (#[trigger] blocks[k]).sem() == cleaned_block(
                    e.f.blocks[k],
                    e.dead,
                    e.results,
                    origins(e),
                ),
        decreases f.blocks.len() - b,
    {
        assert(e.f.blocks[b as int] == f.blocks[b as int].sem());
        blocks.push(clean_block(&f.blocks[b], &dead, &results, &from));
        b += 1;
    }
    assert(sems(blocks@) =~= in_place(f0, xs).blocks);
    f.blocks = blocks;
}

} // verus!
