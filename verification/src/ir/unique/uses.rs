//! How each value of a function is used, and where.

use super::super::cfg::targets_of;
use super::super::opt::operands::operands_of;
use super::super::ssa::{
    arm_args, block_in_range, blocks_wf, inst_in_range, operands, targets, term_in_range,
    term_operands, values_below, values_wf, Func, SFunc, SInst, SSwitchKey, STarget, STerm, Term,
    Value,
};
use crate::syntax::Node;
use vstd::prelude::*;

verus! {

/// A use of a value.
#[derive(Clone, Copy)]
pub enum Use {
    /// An instruction reads it, as one of its operands.
    By { block: usize, at: usize },
    /// An edge passes it to a parameter. That is no new reference: it goes on as the
    /// parameter.
    Carried { from: usize, to: usize, slot: usize },
    /// It is returned or thrown.
    Handoff { from: usize },
    /// A branch or a switch goes by it.
    Scrutinee { from: usize },
}

/// The uses of `v` among the first `m` operands of an instruction.
pub open spec fn operand_uses(vs: Seq<Value>, v: Value, b: int, k: int, m: int) -> Seq<Use>
    decreases m,
{
    if m <= 0 {
        seq![]
    } else if vs[m - 1] == v {
        operand_uses(vs, v, b, k, m - 1).push(Use::By { block: b as usize, at: k as usize })
    } else {
        operand_uses(vs, v, b, k, m - 1)
    }
}

/// The uses of `v` by the first `n` instructions of a block.
pub open spec fn inst_uses(is: Seq<SInst>, v: Value, b: int, n: int) -> Seq<Use>
    decreases n,
{
    if n <= 0 {
        seq![]
    } else {
        let vs = operands(is[n - 1].op);
        inst_uses(is, v, b, n - 1) + operand_uses(vs, v, b, n - 1, vs.len() as int)
    }
}

/// What the end of a block itself reads.
pub open spec fn end_read(t: STerm, b: int) -> Option<(Value, Use)> {
    match t {
        STerm::Ret(Some(v)) => Some((v, Use::Handoff { from: b as usize })),
        STerm::Throw(v) => Some((v, Use::Handoff { from: b as usize })),
        STerm::Branch { cond, .. } => Some((cond, Use::Scrutinee { from: b as usize })),
        STerm::Switch { on, .. } => Some((on, Use::Scrutinee { from: b as usize })),
        _ => None,
    }
}

pub open spec fn end_uses(t: STerm, v: Value, b: int) -> Seq<Use> {
    match end_read(t, b) {
        Some((w, u)) => if w == v {
            seq![u]
        } else {
            seq![]
        },
        None => seq![],
    }
}

/// The uses of `v` among the first `m` arguments of an edge.
pub open spec fn arg_uses(t: STarget, v: Value, b: int, m: int) -> Seq<Use>
    decreases m,
{
    if m <= 0 {
        seq![]
    } else if t.args[m - 1] == v {
        arg_uses(t, v, b, m - 1).push(
            Use::Carried { from: b as usize, to: t.to.0 as usize, slot: (m - 1) as usize },
        )
    } else {
        arg_uses(t, v, b, m - 1)
    }
}

/// The uses of `v` by the first `n` edges out of a block.
pub open spec fn edge_uses(ts: Seq<STarget>, v: Value, b: int, n: int) -> Seq<Use>
    decreases n,
{
    if n <= 0 {
        seq![]
    } else {
        edge_uses(ts, v, b, n - 1) + arg_uses(ts[n - 1], v, b, ts[n - 1].args.len() as int)
    }
}

/// The uses of `v` in the first `n` blocks.
pub open spec fn uses_in(f: SFunc, v: Value, n: int) -> Seq<Use>
    decreases n,
{
    if n <= 0 {
        seq![]
    } else {
        let b = f.blocks[n - 1];
        let ts = targets(b.term);
        uses_in(f, v, n - 1) + inst_uses(b.insts, v, n - 1, b.insts.len() as int) + end_uses(
            b.term,
            v,
            n - 1,
        ) + edge_uses(ts, v, n - 1, ts.len() as int)
    }
}

/// Every use of a value, in order.
pub open spec fn uses(f: SFunc, v: Value) -> Seq<Use> {
    uses_in(f, v, f.blocks.len() as int)
}

/// Whether a use stands where it says.
pub open spec fn use_in_range(f: SFunc, u: Use) -> bool {
    match u {
        Use::By { block, at } => block < f.blocks.len() && at < f.blocks[block as int].insts.len(),
        Use::Carried { from, to, .. } => from < f.blocks.len() && to < f.blocks.len(),
        Use::Handoff { from } => from < f.blocks.len(),
        Use::Scrutinee { from } => from < f.blocks.len(),
    }
}

/// The uses of all values, by their number.
pub open spec fn is_uses_table(f: SFunc, t: Seq<Vec<Use>>) -> bool {
    &&& t.len() == f.values.len()
    &&& forall|v: int| 0 <= v < t.len() ==> (#[trigger] t[v])@ == uses(f, Value(v as u32))
}

// ---- where uses are ----

proof fn lemma_operand_uses_in_range(f: SFunc, vs: Seq<Value>, v: Value, b: int, k: int, m: int)
    requires
        0 <= b < f.blocks.len() <= usize::MAX,
        0 <= k < f.blocks[b].insts.len() <= usize::MAX,
        m <= vs.len(),
    ensures
        forall|i: int|
            0 <= i < operand_uses(vs, v, b, k, m).len() ==> use_in_range(
                f,
                #[trigger] operand_uses(vs, v, b, k, m)[i],
            ),
    decreases m,
{
    if m > 0 {
        lemma_operand_uses_in_range(f, vs, v, b, k, m - 1);
        let before = operand_uses(vs, v, b, k, m - 1);
        let all = operand_uses(vs, v, b, k, m);
        assert forall|i: int| 0 <= i < all.len() implies use_in_range(f, #[trigger] all[i]) by {
            if i < before.len() {
                assert(all[i] == before[i]);
            }
        }
    }
}

proof fn lemma_inst_uses_in_range(f: SFunc, v: Value, b: int, n: int)
    requires
        0 <= b < f.blocks.len() <= usize::MAX,
        0 <= n <= f.blocks[b].insts.len() <= usize::MAX,
    ensures
        forall|i: int|
            0 <= i < inst_uses(f.blocks[b].insts, v, b, n).len() ==> use_in_range(
                f,
                #[trigger] inst_uses(f.blocks[b].insts, v, b, n)[i],
            ),
    decreases n,
{
    if n > 0 {
        lemma_inst_uses_in_range(f, v, b, n - 1);
        let is = f.blocks[b].insts;
        let vs = operands(is[n - 1].op);
        lemma_operand_uses_in_range(f, vs, v, b, n - 1, vs.len() as int);
        let before = inst_uses(is, v, b, n - 1);
        let more = operand_uses(vs, v, b, n - 1, vs.len() as int);
        let all = inst_uses(is, v, b, n);
        assert forall|i: int| 0 <= i < all.len() implies use_in_range(f, #[trigger] all[i]) by {
            if i < before.len() {
                assert(all[i] == before[i]);
            } else {
                assert(all[i] == more[i - before.len()]);
            }
        }
    }
}

proof fn lemma_arg_uses_in_range(f: SFunc, t: STarget, v: Value, b: int, m: int)
    requires
        0 <= b < f.blocks.len() <= usize::MAX,
        t.to.0 < f.blocks.len(),
        m <= t.args.len(),
    ensures
        forall|i: int|
            0 <= i < arg_uses(t, v, b, m).len() ==> use_in_range(
                f,
                #[trigger] arg_uses(t, v, b, m)[i],
            ),
    decreases m,
{
    if m > 0 {
        lemma_arg_uses_in_range(f, t, v, b, m - 1);
        let before = arg_uses(t, v, b, m - 1);
        let all = arg_uses(t, v, b, m);
        assert forall|i: int| 0 <= i < all.len() implies use_in_range(f, #[trigger] all[i]) by {
            if i < before.len() {
                assert(all[i] == before[i]);
            }
        }
    }
}

proof fn lemma_edge_uses_in_range(f: SFunc, ts: Seq<STarget>, v: Value, b: int, n: int)
    requires
        0 <= b < f.blocks.len() <= usize::MAX,
        forall|i: int| 0 <= i < ts.len() ==> (#[trigger] ts[i]).to.0 < f.blocks.len(),
        n <= ts.len(),
    ensures
        forall|i: int|
            0 <= i < edge_uses(ts, v, b, n).len() ==> use_in_range(
                f,
                #[trigger] edge_uses(ts, v, b, n)[i],
            ),
    decreases n,
{
    if n > 0 {
        lemma_edge_uses_in_range(f, ts, v, b, n - 1);
        let t = ts[n - 1];
        lemma_arg_uses_in_range(f, t, v, b, t.args.len() as int);
        let before = edge_uses(ts, v, b, n - 1);
        let more = arg_uses(t, v, b, t.args.len() as int);
        let all = edge_uses(ts, v, b, n);
        assert forall|i: int| 0 <= i < all.len() implies use_in_range(f, #[trigger] all[i]) by {
            if i < before.len() {
                assert(all[i] == before[i]);
            } else {
                assert(all[i] == more[i - before.len()]);
            }
        }
    }
}

/// Whether the blocks of a function have lengths that a machine can hold.
pub open spec fn holdable(f: SFunc) -> bool {
    forall|b: int|
        0 <= b < f.blocks.len() ==> (#[trigger] f.blocks[b]).insts.len() <= usize::MAX
}

proof fn lemma_uses_in_range(f: SFunc, v: Value, n: int)
    requires
        blocks_wf(f),
        holdable(f),
        0 <= n <= f.blocks.len(),
    ensures
        forall|i: int|
            0 <= i < uses_in(f, v, n).len() ==> use_in_range(f, #[trigger] uses_in(f, v, n)[i]),
    decreases n,
{
    if n > 0 {
        lemma_uses_in_range(f, v, n - 1);
        let b = f.blocks[n - 1];
        let ts = targets(b.term);
        assert(term_in_range(f.blocks[n - 1].term, f.blocks.len()));
        lemma_inst_uses_in_range(f, v, n - 1, b.insts.len() as int);
        lemma_edge_uses_in_range(f, ts, v, n - 1, ts.len() as int);
        let x = uses_in(f, v, n - 1);
        let y = inst_uses(b.insts, v, n - 1, b.insts.len() as int);
        let z = end_uses(b.term, v, n - 1);
        let w = edge_uses(ts, v, n - 1, ts.len() as int);
        let all = uses_in(f, v, n);
        assert(all =~= x + y + z + w);
        assert forall|i: int| 0 <= i < all.len() implies use_in_range(f, #[trigger] all[i]) by {
            if i < x.len() {
                assert(all[i] == x[i]);
            } else if i < x.len() + y.len() {
                assert(all[i] == y[i - x.len()]);
            } else if i < x.len() + y.len() + z.len() {
                assert(all[i] == z[i - x.len() - y.len()]);
            } else {
                assert(all[i] == w[i - x.len() - y.len() - z.len()]);
            }
        }
    }
}

/// The uses of a value stand where they say.
pub proof fn uses_stand_in_the_function(f: SFunc, v: Value)
    requires
        blocks_wf(f),
        holdable(f),
    ensures
        forall|i: int| 0 <= i < uses(f, v).len() ==> use_in_range(f, #[trigger] uses(f, v)[i]),
{
    lemma_uses_in_range(f, v, f.blocks.len() as int);
}

// ---- computing it ----

spec fn rows(t: Seq<Vec<Use>>) -> Seq<Seq<Use>> {
    t.map_values(|r: Vec<Use>| r@)
}

fn note(t: &mut Vec<Vec<Use>>, v: Value, u: Use)
    requires
        v.0 < old(t).len(),
    ensures
        final(t).len() == old(t).len(),
        rows(final(t)@) == rows(old(t)@).update(v.0 as int, rows(old(t)@)[v.0 as int].push(u)),
{
    t[v.0 as usize].push(u);
    assert(rows(t@) =~= rows(old(t)@).update(
        v.0 as int,
        rows(old(t)@)[v.0 as int].push(u),
    ));
}

fn note_insts(t: &mut Vec<Vec<Use>>, f: &Func, b: usize)
    requires
        values_wf(f.sem()),
        old(t).len() == f.values.len(),
        b < f.blocks.len(),
    ensures
        final(t).len() == old(t).len(),
        forall|v: int|
            0 <= v < final(t).len() ==> (#[trigger] rows(final(t)@)[v]) == rows(old(t)@)[v]
                + inst_uses(
                f.sem().blocks[b as int].insts,
                Value(v as u32),
                b as int,
                f.sem().blocks[b as int].insts.len() as int,
            ),
{
    let ghost s = f.sem();
    let ghost x = s.blocks[b as int];
    let ghost before = rows(t@);
    let n: usize = f.values.len();
    assert(s.values.len() == n);
    assert(x == f.blocks[b as int].sem());
    assert(block_in_range(x, n as nat));
    let mut k: usize = 0;
    assert forall|v: int| 0 <= v < n implies #[trigger] rows(t@)[v] == before[v] + inst_uses(
        x.insts,
        Value(v as u32),
        b as int,
        0,
    ) by {
        assert(before[v] + inst_uses(x.insts, Value(v as u32), b as int, 0) =~= before[v]);
    }
    while k < f.blocks[b].insts.len()
        invariant
            b < f.blocks.len(),
            x == f.blocks[b as int].sem(),
            block_in_range(x, n as nat),
            k <= f.blocks[b as int].insts.len(),
            t.len() == n == before.len(),
            n <= u32::MAX,
            forall|v: int|
                0 <= v < n ==> #[trigger] rows(t@)[v] == before[v] + inst_uses(
                    x.insts,
                    Value(v as u32),
                    b as int,
                    k as int,
                ),
        decreases f.blocks[b as int].insts.len() - k,
    {
        assert(x.insts[k as int] == f.blocks[b as int].insts[k as int].sem());
        assert(inst_in_range(x.insts[k as int], n as nat));
        let vs = operands_of(&f.blocks[b].insts[k].op);
        let ghost was = rows(t@);
        let mut m: usize = 0;
        assert forall|v: int| 0 <= v < n implies #[trigger] rows(t@)[v] == was[v] + operand_uses(
            vs@,
            Value(v as u32),
            b as int,
            k as int,
            0,
        ) by {
            assert(was[v] + operand_uses(vs@, Value(v as u32), b as int, k as int, 0) =~= was[v]);
        }
        while m < vs.len()
            invariant
                m <= vs.len(),
                vs@ == operands(x.insts[k as int].op),
                inst_in_range(x.insts[k as int], n as nat),
                t.len() == n == was.len(),
                n <= u32::MAX,
                forall|v: int|
                    0 <= v < n ==> #[trigger] rows(t@)[v] == was[v] + operand_uses(
                        vs@,
                        Value(v as u32),
                        b as int,
                        k as int,
                        m as int,
                    ),
            decreases vs.len() - m,
        {
            assert(operands(x.insts[k as int].op)[m as int] == vs[m as int]);
            let ghost prev = rows(t@);
            note(t, vs[m], Use::By { block: b, at: k });
            assert forall|v: int| 0 <= v < n implies #[trigger] rows(t@)[v] == was[v]
                + operand_uses(vs@, Value(v as u32), b as int, k as int, m + 1) by {
                assert(prev[v] == was[v] + operand_uses(
                    vs@,
                    Value(v as u32),
                    b as int,
                    k as int,
                    m as int,
                ));
                assert(rows(t@)[v] =~= was[v] + operand_uses(
                    vs@,
                    Value(v as u32),
                    b as int,
                    k as int,
                    m + 1,
                ));
            }
            m += 1;
        }
        assert forall|v: int| 0 <= v < n implies #[trigger] rows(t@)[v] == before[v] + inst_uses(
            x.insts,
            Value(v as u32),
            b as int,
            k + 1,
        ) by {
            assert(was[v] == before[v] + inst_uses(
                x.insts,
                Value(v as u32),
                b as int,
                k as int,
            ));
            assert(rows(t@)[v] =~= before[v] + inst_uses(
                x.insts,
                Value(v as u32),
                b as int,
                k + 1,
            ));
        }
        k += 1;
    }
}

fn note_edges(t: &mut Vec<Vec<Use>>, f: &Func, b: usize)
    requires
        values_wf(f.sem()),
        old(t).len() == f.values.len(),
        b < f.blocks.len(),
    ensures
        final(t).len() == old(t).len(),
        forall|v: int|
            0 <= v < final(t).len() ==> (#[trigger] rows(final(t)@)[v]) == rows(old(t)@)[v]
                + edge_uses(
                targets(f.sem().blocks[b as int].term),
                Value(v as u32),
                b as int,
                targets(f.sem().blocks[b as int].term).len() as int,
            ),
{
    let ghost s = f.sem();
    let ghost x = s.blocks[b as int];
    let ghost before = rows(t@);
    let n: usize = f.values.len();
    assert(s.values.len() == n);
    assert(x == f.blocks[b as int].sem());
    assert(block_in_range(x, n as nat));
    let ts = targets_of(&f.blocks[b].term);
    let ghost st = targets(x.term);
    let mut k: usize = 0;
    assert forall|v: int| 0 <= v < n implies #[trigger] rows(t@)[v] == before[v] + edge_uses(
        st,
        Value(v as u32),
        b as int,
        0,
    ) by {
        assert(before[v] + edge_uses(st, Value(v as u32), b as int, 0) =~= before[v]);
    }
    while k < ts.len()
        invariant
            k <= ts.len() == st.len(),
            st == targets(x.term),
            block_in_range(x, n as nat),
            forall|k: int| 0 <= k < ts.len() ==> (#[trigger] ts[k]).sem() == st[k],
            t.len() == n == before.len(),
            n <= u32::MAX,
            forall|v: int|
                0 <= v < n ==> #[trigger] rows(t@)[v] == before[v] + edge_uses(
                    st,
                    Value(v as u32),
                    b as int,
                    k as int,
                ),
        decreases ts.len() - k,
    {
        let e = ts[k];
        assert(ts[k as int].sem() == st[k as int]);
        proof {
            lemma_edge_args_below(x.term, k as int, n as nat);
        }
        let ghost was = rows(t@);
        let ghost se = st[k as int];
        let mut m: usize = 0;
        assert forall|v: int| 0 <= v < n implies #[trigger] rows(t@)[v] == was[v] + arg_uses(
            se,
            Value(v as u32),
            b as int,
            0,
        ) by {
            assert(was[v] + arg_uses(se, Value(v as u32), b as int, 0) =~= was[v]);
        }
        while m < e.args.len()
            invariant
                m <= e.args.len(),
                se == e.sem(),
                forall|i: int| 0 <= i < se.args.len() ==> (#[trigger] se.args[i]).0 < n,
                t.len() == n == was.len(),
                n <= u32::MAX,
                forall|v: int|
                    0 <= v < n ==> #[trigger] rows(t@)[v] == was[v] + arg_uses(
                        se,
                        Value(v as u32),
                        b as int,
                        m as int,
                    ),
            decreases e.args.len() - m,
        {
            assert(se.args[m as int] == e.args[m as int]);
            let ghost prev = rows(t@);
            note(t, e.args[m], Use::Carried { from: b, to: e.to.0 as usize, slot: m });
            assert forall|v: int| 0 <= v < n implies #[trigger] rows(t@)[v] == was[v] + arg_uses(
                se,
                Value(v as u32),
                b as int,
                m + 1,
            ) by {
                assert(prev[v] == was[v] + arg_uses(se, Value(v as u32), b as int, m as int));
                assert(rows(t@)[v] =~= was[v] + arg_uses(se, Value(v as u32), b as int, m + 1));
            }
            m += 1;
        }
        assert forall|v: int| 0 <= v < n implies #[trigger] rows(t@)[v] == before[v] + edge_uses(
            st,
            Value(v as u32),
            b as int,
            k + 1,
        ) by {
            assert(was[v] == before[v] + edge_uses(st, Value(v as u32), b as int, k as int));
            assert(rows(t@)[v] =~= before[v] + edge_uses(st, Value(v as u32), b as int, k + 1));
        }
        k += 1;
    }
}

proof fn lemma_arm_args_below(
    arms: Seq<(SSwitchKey, STarget)>,
    k: int,
    n: nat,
)
    requires
        0 <= k < arms.len(),
        values_below(arm_args(arms), n),
    ensures
        values_below(arms[k].1.args, n),
    decreases arms.len(),
{
    let most = arms.drop_last();
    let all = arm_args(arms);
    let x = arm_args(most);
    let y = arms.last().1.args;
    assert(all =~= x + y);
    if k == arms.len() - 1 {
        assert forall|i: int| 0 <= i < y.len() implies (#[trigger] y[i]).0 < n by {
            assert(all[x.len() + i] == y[i]);
        }
    } else {
        assert forall|i: int| 0 <= i < x.len() implies (#[trigger] x[i]).0 < n by {
            assert(all[i] == x[i]);
        }
        lemma_arm_args_below(most, k, n);
        assert(most[k] == arms[k]);
    }
}

/// What an edge passes is among what the terminator reads.
pub proof fn lemma_edge_args_below(t: STerm, k: int, n: nat)
    requires
        0 <= k < targets(t).len(),
        values_below(term_operands(t), n),
    ensures
        values_below(targets(t)[k].args, n),
{
    let all = term_operands(t);
    match t {
        STerm::Jump(x) => {},
        STerm::Branch { cond, then, els } => {
            assert forall|i: int| 0 <= i < then.args.len() implies (#[trigger] then.args[i]).0
                < n by {
                assert(all[1 + i] == then.args[i]);
            }
            assert forall|i: int| 0 <= i < els.args.len() implies (#[trigger] els.args[i]).0
                < n by {
                assert(all[1 + then.args.len() + i] == els.args[i]);
            }
        },
        STerm::Switch { on, arms, default } => {
            let xs = arm_args(arms);
            assert forall|i: int| 0 <= i < xs.len() implies (#[trigger] xs[i]).0 < n by {
                assert(all[1 + i] == xs[i]);
            }
            assert forall|i: int| 0 <= i < default.args.len() implies (
            #[trigger] default.args[i]).0 < n by {
                assert(all[1 + xs.len() + i] == default.args[i]);
            }
            if k < arms.len() {
                lemma_arm_args_below(arms, k, n);
            }
        },
        _ => {},
    }
}

fn end_of(t: &Term, b: usize) -> (r: Option<(Value, Use)>)
    ensures
        r == end_read(t.sem(), b as int),
{
    match t {
        Term::Ret(Some(v)) => Some((*v, Use::Handoff { from: b })),
        Term::Throw(v) => Some((*v, Use::Handoff { from: b })),
        Term::Branch { cond, .. } => Some((*cond, Use::Scrutinee { from: b })),
        Term::Switch { on, .. } => Some((*on, Use::Scrutinee { from: b })),
        _ => None,
    }
}

/// Find every use of every value.
pub fn all_uses(f: &Func) -> (t: Vec<Vec<Use>>)
    requires
        values_wf(f.sem()),
    ensures
        is_uses_table(f.sem(), t@),
{
    let ghost s = f.sem();
    let n: usize = f.values.len();
    assert(s.values.len() == n);
    let mut t: Vec<Vec<Use>> = Vec::new();
    let mut i: usize = 0;
    while i < n
        invariant
            i <= n,
            t.len() == i,
            forall|v: int| 0 <= v < i ==> (#[trigger] rows(t@)[v]) == Seq::<Use>::empty(),
        decreases n - i,
    {
        let ghost prev = t@;
        t.push(Vec::new());
        assert forall|v: int| 0 <= v < i + 1 implies (#[trigger] rows(t@)[v]) == Seq::<Use>::empty() by {
            if v < i {
                assert(rows(prev)[v] == rows(t@)[v]);
            } else {
                assert(rows(t@)[v] =~= Seq::<Use>::empty());
            }
        }
        i += 1;
    }
    let mut b: usize = 0;
    while b < f.blocks.len()
        invariant
            b <= f.blocks.len(),
            s == f.sem(),
            values_wf(s),
            s.values.len() == n == f.values.len(),
            t.len() == n,
            forall|v: int|
                0 <= v < n ==> (#[trigger] rows(t@)[v]) == uses_in(s, Value(v as u32), b as int),
        decreases f.blocks.len() - b,
    {
        let ghost x = s.blocks[b as int];
        assert(x == f.blocks[b as int].sem());
        assert(block_in_range(x, n as nat));
        let ghost r0 = rows(t@);
        note_insts(&mut t, f, b);
        let ghost r1 = rows(t@);
        match end_of(&f.blocks[b].term, b) {
            Some((v, u)) => {
                assert(term_operands(x.term)[0] == v);
                note(&mut t, v, u);
            },
            None => {},
        }
        let ghost r2 = rows(t@);
        assert forall|v: int| 0 <= v < n implies (#[trigger] r2[v]) == r1[v] + end_uses(
            x.term,
            Value(v as u32),
            b as int,
        ) by {
            assert(r2[v] =~= r1[v] + end_uses(x.term, Value(v as u32), b as int));
        }
        note_edges(&mut t, f, b);
        assert forall|v: int| 0 <= v < n implies (#[trigger] rows(t@)[v]) == uses_in(
            s,
            Value(v as u32),
            b + 1,
        ) by {
            assert(r0[v] == uses_in(s, Value(v as u32), b as int));
            assert(r2[v] == r1[v] + end_uses(x.term, Value(v as u32), b as int));
        }
        b += 1;
    }
    assert forall|v: int| 0 <= v < t.len() implies (#[trigger] t[v])@ == uses(
        s,
        Value(v as u32),
    ) by {
        assert(rows(t@)[v] == uses_in(s, Value(v as u32), s.blocks.len() as int));
    }
    t
}

} // verus!
