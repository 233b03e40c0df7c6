//! What putting counts in leaves as it was.

use super::{
    block_code, blocks_code, body_code, copies, dressed, edge_count, edge_releases,
    exit_code, exit_releases, inner_code, insertable, inserted, owner_retains, owner_uses,
    param_code, releases_reversed, retain, retains_reversed, split, split_arms, step,
    target_code, view_retains, SContext,
};
use crate::ir::ssa::{
    blocks_wf, targets, SBlock, SFunc, SInst, SSwitchKey, STarget,
    STerm, Value,
};
use vstd::prelude::*;

verus! {

pub open spec fn is_count(i: SInst) -> bool {
    i.op is Retain || i.op is Release
}

pub open spec fn only_counts(is: Seq<SInst>) -> bool {
    forall|k: int| 0 <= k < is.len() ==> is_count(#[trigger] is[k]) && is[k].result is None
}

/// Instructions without those that count.
pub open spec fn stripped(is: Seq<SInst>) -> Seq<SInst>
    decreases is.len(),
{
    if is.len() == 0 {
        seq![]
    } else if is_count(is.last()) {
        stripped(is.drop_last())
    } else {
        stripped(is.drop_last()).push(is.last())
    }
}

/// An edge that goes where another goes: at once, or by way of one of the blocks `new`,
/// numbered from `base` on, that does nothing but count.
pub open spec fn leads(base: nat, new: Seq<SBlock>, a: STarget, t: STarget) -> bool {
    a == t || (base <= a.to.0 < base + new.len() && a.args.len() == 0 && new[a.to.0 - base].term
        == STerm::Jump(t))
}

/// A block that does what another does, but for counts.
pub open spec fn same_work(base: nat, new: Seq<SBlock>, a: SBlock, b: SBlock) -> bool {
    &&& a.id == b.id
    &&& a.params == b.params
    &&& stripped(a.insts) == stripped(b.insts)
    &&& targets(a.term).len() == targets(b.term).len()
    &&& forall|k: int|
        0 <= k < targets(b.term).len() ==> leads(
            base,
            new,
            #[trigger] targets(a.term)[k],
            targets(b.term)[k],
        )
}

/// Blocks, numbered from `base` on, that count and go on.
pub open spec fn counting_blocks(base: nat, new: Seq<SBlock>, n: nat) -> bool {
    forall|i: int|
        0 <= i < new.len() ==> (#[trigger] new[i]).id.0 == base + i && new[i].params.len() == 0
            && only_counts(new[i].insts) && (new[i].term matches STerm::Jump(t) && t.to.0 < n)
}

proof fn lemma_stripped_add(a: Seq<SInst>, b: Seq<SInst>)
    ensures
        stripped(a + b) == stripped(a) + stripped(b),
    decreases b.len(),
{
    if b.len() == 0 {
        assert(a + b =~= a);
        assert(stripped(a) + stripped(b) =~= stripped(a));
    } else {
        assert((a + b).drop_last() =~= a + b.drop_last());
        assert((a + b).last() == b.last());
        lemma_stripped_add(a, b.drop_last());
        if !is_count(b.last()) {
            assert(stripped(a) + stripped(b.drop_last()).push(b.last()) =~= (stripped(a)
                + stripped(b.drop_last())).push(b.last()));
        }
    }
}

proof fn lemma_counts_strip(is: Seq<SInst>)
    requires
        only_counts(is),
    ensures
        stripped(is) == Seq::<SInst>::empty(),
    decreases is.len(),
{
    if is.len() > 0 {
        assert(is_count(is[is.len() - 1]));
        assert forall|k: int| 0 <= k < is.drop_last().len() implies is_count(
            #[trigger] is.drop_last()[k],
        ) && is.drop_last()[k].result is None by {
            assert(is_count(is[k]));
        }
        lemma_counts_strip(is.drop_last());
    }
}

proof fn lemma_reversed(vs: Seq<Value>)
    ensures
        only_counts(retains_reversed(vs)),
        only_counts(releases_reversed(vs)),
    decreases vs.len(),
{
    if vs.len() > 0 {
        lemma_reversed(vs.drop_last());
    }
}

proof fn lemma_copies(v: Value, k: int)
    ensures
        only_counts(copies(v, k)),
    decreases k,
{
    if k > 0 {
        lemma_copies(v, k - 1);
    }
}

proof fn lemma_view_retains(c: SContext, args: Seq<Value>)
    ensures
        only_counts(view_retains(c, args)),
    decreases args.len(),
{
    if args.len() > 0 {
        lemma_view_retains(c, args.drop_last());
    }
}

proof fn lemma_owner_retains(c: SContext, args: Seq<Value>, succ: Seq<bool>, n: int)
    ensures
        only_counts(owner_retains(c, args, succ, n)),
    decreases n,
{
    if n > 0 {
        lemma_owner_retains(c, args, succ, n - 1);
        let v = Value((n - 1) as u32);
        lemma_copies(
            v,
            owner_uses(c, args, v) + (if succ[n - 1] {
                1int
            } else {
                0int
            }) - 1,
        );
    }
}

proof fn lemma_edge_releases(
    c: SContext,
    args: Seq<Value>,
    succ: Seq<bool>,
    end: Seq<bool>,
    n: int,
)
    ensures
        only_counts(edge_releases(c, args, succ, end, n)),
    decreases n,
{
    if n > 0 {
        lemma_edge_releases(c, args, succ, end, n - 1);
    }
}

proof fn lemma_exit_releases(c: SContext, moved: Option<Value>, end: Seq<bool>, n: int)
    ensures
        only_counts(exit_releases(c, moved, end, n)),
    decreases n,
{
    if n > 0 {
        lemma_exit_releases(c, moved, end, n - 1);
    }
}

proof fn lemma_param_code(c: SContext, params: Seq<Value>, top: Seq<bool>)
    ensures
        only_counts(param_code(c, params, top)),
    decreases params.len(),
{
    if params.len() > 0 {
        lemma_param_code(c, params.drop_last(), top);
    }
}

pub(super) proof fn lemma_edge_code(f: SFunc, b: int, t: STarget)
    ensures
        only_counts(target_code(f, b, t)),
{
    let c = super::context_of(f);
    let succ = super::live_in_set(f, t.to.0 as int);
    let end = super::live_at_end_set(f, b);
    lemma_view_retains(c, t.args);
    lemma_owner_retains(c, t.args, succ, end.len() as int);
    lemma_edge_releases(c, t.args, succ, end, end.len() as int);
}

pub(super) proof fn lemma_exit_code(c: SContext, v: Option<Value>, end: Seq<bool>)
    ensures
        only_counts(exit_code(c, v, end)),
{
    let n = end.len() as int;
    lemma_exit_releases(c, None, end, n);
    lemma_exit_releases(c, v, end, n);
    if let Some(x) = v {
        assert(is_count(retain(x)));
    }
}

proof fn lemma_body_code(c: SContext, is: Seq<SInst>, live: Seq<bool>)
    ensures
        stripped(body_code(c, is, live).0) == stripped(is),
    decreases is.len(),
{
    if is.len() > 0 {
        let i = is.last();
        let s = step(c, i, live);
        let before = body_code(c, is.drop_last(), s.live).0;
        lemma_body_code(c, is.drop_last(), s.live);
        lemma_stripped_add(before, dressed(i, s));
        let rest = seq![i] + releases_reversed(s.releases);
        lemma_reversed(s.retains);
        lemma_reversed(s.releases);
        lemma_counts_strip(retains_reversed(s.retains));
        lemma_counts_strip(releases_reversed(s.releases));
        lemma_stripped_add(retains_reversed(s.retains), rest);
        lemma_stripped_add(seq![i], releases_reversed(s.releases));
        assert(seq![i].drop_last() =~= seq![]);
        assert(seq![i].last() == i);
        assert(stripped(seq![i].drop_last()) == Seq::<SInst>::empty());
        assert(stripped(dressed(i, s)) =~= stripped(seq![i]));
        if is_count(i) {
            assert(stripped(before) + stripped(seq![i]) =~= stripped(before));
        } else {
            assert(stripped(seq![i]) =~= seq![i]);
            assert(stripped(before) + seq![i] =~= stripped(before).push(i));
        }
    }
}

proof fn lemma_inner_code(f: SFunc, b: int, more: Seq<SInst>)
    requires
        only_counts(more),
    ensures
        stripped(inner_code(f, b)) == stripped(f.blocks[b].insts),
        stripped(inner_code(f, b) + more) == stripped(f.blocks[b].insts),
{
    let c = super::context_of(f);
    let live = super::live_at_end_set(f, b);
    let (code, top) = body_code(c, f.blocks[b].insts, live);
    let ps = param_code(c, f.blocks[b].params, top);
    lemma_body_code(c, f.blocks[b].insts, live);
    lemma_param_code(c, f.blocks[b].params, top);
    lemma_counts_strip(ps);
    lemma_stripped_add(ps, code);
    assert(stripped(ps) + stripped(code) =~= stripped(code));
    lemma_counts_strip(more);
    lemma_stripped_add(inner_code(f, b), more);
    assert(stripped(inner_code(f, b)) + stripped(more) =~= stripped(inner_code(f, b)));
}

proof fn lemma_split(f: SFunc, b: int, t: STarget, base: nat, new: Seq<SBlock>)
    requires
        base + new.len() <= u32::MAX,
        t.to.0 < f.blocks.len(),
        counting_blocks(base, new, f.blocks.len()),
    ensures
        split(t, target_code(f, b, t), (base + new.len()) as int).1.len() <= 1,
        counting_blocks(
            base,
            new + split(t, target_code(f, b, t), (base + new.len()) as int).1,
            f.blocks.len(),
        ),
        leads(
            base,
            new + split(t, target_code(f, b, t), (base + new.len()) as int).1,
            split(t, target_code(f, b, t), (base + new.len()) as int).0,
            t,
        ),
{
    lemma_edge_code(f, b, t);
    let (to, more) = split(t, target_code(f, b, t), (base + new.len()) as int);
    let all = new + more;
    assert forall|i: int| 0 <= i < all.len() implies (#[trigger] all[i]).id.0 == base + i
        && all[i].params.len() == 0 && only_counts(all[i].insts) && (all[i].term matches STerm::Jump(
        x,
    ) && x.to.0 < f.blocks.len()) by {
        if i < new.len() {
            assert(all[i] == new[i]);
        }
    }
}

proof fn lemma_split_arms(
    f: SFunc,
    b: int,
    arms: Seq<(SSwitchKey, STarget)>,
    base: nat,
    new: Seq<SBlock>,
)
    requires
        base + new.len() + arms.len() <= u32::MAX,
        forall|k: int| 0 <= k < arms.len() ==> (#[trigger] arms[k]).1.to.0 < f.blocks.len(),
        counting_blocks(base, new, f.blocks.len()),
    ensures
        ({
            let (done, more) = split_arms(f, b, arms, (base + new.len()) as int);
            &&& more.len() <= arms.len()
            &&& done.len() == arms.len()
            &&& counting_blocks(base, new + more, f.blocks.len())
            &&& forall|k: int|
                0 <= k < arms.len() ==> leads(base, new + more, (#[trigger] done[k]).1, arms[k].1)
        }),
    decreases arms.len(),
{
    let next = (base + new.len()) as int;
    let (done, more) = split_arms(f, b, arms, next);
    if arms.len() == 0 {
        assert(new + more =~= new);
    } else {
        let (d1, m1) = split_arms(f, b, arms.drop_last(), next);
        assert forall|k: int| 0 <= k < arms.drop_last().len() implies (
        #[trigger] arms.drop_last()[k]).1.to.0 < f.blocks.len() by {
            assert(arms.drop_last()[k] == arms[k]);
        }
        lemma_split_arms(f, b, arms.drop_last(), base, new);
        let t = arms.last().1;
        assert(arms[arms.len() - 1].1.to.0 < f.blocks.len());
        lemma_split(f, b, t, base, new + m1);
        let (to, m2) = split(t, target_code(f, b, t), next + m1.len());
        assert(new + more =~= (new + m1) + m2);
        assert forall|k: int| 0 <= k < arms.len() implies leads(
            base,
            new + more,
            (#[trigger] done[k]).1,
            arms[k].1,
        ) by {
            if k < d1.len() {
                assert(done[k] == d1[k]);
                assert(leads(base, new + m1, d1[k].1, arms.drop_last()[k].1));
            }
        }
    }
}

proof fn lemma_block_code(f: SFunc, b: int, base: nat, new: Seq<SBlock>)
    requires
        blocks_wf(f),
        0 <= b < f.blocks.len(),
        base + new.len() + targets(f.blocks[b].term).len() <= u32::MAX,
        counting_blocks(base, new, f.blocks.len()),
    ensures
        ({
            let (x, more) = block_code(f, b, (base + new.len()) as int);
            &&& more.len() <= targets(f.blocks[b].term).len()
            &&& counting_blocks(base, new + more, f.blocks.len())
            &&& same_work(base, new + more, x, f.blocks[b])
        }),
{
    let blk = f.blocks[b];
    let next = (base + new.len()) as int;
    let (x, more) = block_code(f, b, next);
    let none = Seq::<SInst>::empty();
    lemma_inner_code(f, b, none);
    let ts = targets(blk.term);
    assert forall|k: int| 0 <= k < ts.len() implies (#[trigger] ts[k]).to.0 < f.blocks.len() by {}
    match blk.term {
        STerm::Ret(v) => {
            lemma_exit_code(super::context_of(f), v, super::live_at_end_set(f, b));
            lemma_inner_code(
                f,
                b,
                exit_code(super::context_of(f), v, super::live_at_end_set(f, b)),
            );
            assert(new + more =~= new);
        },
        STerm::Throw(v) => {
            lemma_exit_code(super::context_of(f), Some(v), super::live_at_end_set(f, b));
            lemma_inner_code(
                f,
                b,
                exit_code(super::context_of(f), Some(v), super::live_at_end_set(f, b)),
            );
            assert(new + more =~= new);
        },
        STerm::Jump(t) => {
            lemma_edge_code(f, b, t);
            lemma_inner_code(f, b, target_code(f, b, t));
            assert(new + more =~= new);
        },
        STerm::Branch { cond, then, els } => {
            assert(ts[0] == then && ts[1] == els);
            lemma_split(f, b, then, base, new);
            let (t, m1) = split(then, target_code(f, b, then), next);
            lemma_split(f, b, els, base, new + m1);
            let (e, m2) = split(els, target_code(f, b, els), next + m1.len());
            assert(new + more =~= (new + m1) + m2);
            let xs = targets(x.term);
            assert(xs =~= seq![t, e]);
            assert(leads(base, new + more, t, then));
            assert(leads(base, new + more, e, els));
        },
        STerm::Switch { on, arms, default } => {
            assert forall|k: int| 0 <= k < arms.len() implies (#[trigger] arms[k]).1.to.0
                < f.blocks.len() by {
                assert(ts[k] == arms[k].1);
            }
            assert(ts[arms.len() as int] == default);
            lemma_split_arms(f, b, arms, base, new);
            let (a, m1) = split_arms(f, b, arms, next);
            lemma_split(f, b, default, base, new + m1);
            let (d, m2) = split(default, target_code(f, b, default), next + m1.len());
            assert(new + more =~= (new + m1) + m2);
            let xs = targets(x.term);
            assert forall|k: int| 0 <= k < ts.len() implies leads(
                base,
                new + more,
                #[trigger] xs[k],
                ts[k],
            ) by {
                if k < arms.len() {
                    assert(xs[k] == a[k].1);
                    assert(leads(base, new + m1, a[k].1, arms[k].1));
                } else {
                    assert(xs[k] == d);
                }
            }
        },
        STerm::Unreachable => {
            assert(new + more =~= new);
        },
    }
}

proof fn lemma_blocks_code(f: SFunc, n: int)
    requires
        blocks_wf(f),
        0 <= n <= f.blocks.len(),
        f.blocks.len() + edge_count(f, n) <= u32::MAX,
    ensures
        ({
            let (done, new) = blocks_code(f, n);
            &&& done.len() == n
            &&& new.len() <= edge_count(f, n)
            &&& counting_blocks(f.blocks.len(), new, f.blocks.len())
            &&& forall|b: int|
                0 <= b < n ==> same_work(f.blocks.len(), new, #[trigger] done[b], f.blocks[b])
        }),
    decreases n,
{
    if n > 0 {
        lemma_blocks_code(f, n - 1);
        let (d1, m1) = blocks_code(f, n - 1);
        let base = f.blocks.len();
        lemma_block_code(f, n - 1, base, m1);
        let (x, more) = block_code(f, n - 1, (base + m1.len()) as int);
        let (done, new) = blocks_code(f, n);
        assert(new == m1 + more);
        assert forall|b: int| 0 <= b < n implies same_work(
            base,
            new,
            #[trigger] done[b],
            f.blocks[b],
        ) by {
            if b < n - 1 {
                assert(done[b] == d1[b]);
                assert(same_work(base, m1, d1[b], f.blocks[b]));
                assert forall|k: int| 0 <= k < targets(f.blocks[b].term).len() implies leads(
                    base,
                    new,
                    #[trigger] targets(done[b].term)[k],
                    targets(f.blocks[b].term)[k],
                ) by {
                    assert(leads(
                        base,
                        m1,
                        targets(d1[b].term)[k],
                        targets(f.blocks[b].term)[k],
                    ));
                }
            }
        }
    }
}

/// Putting counts in adds counts and nothing else. Every block keeps its other instructions,
/// in order, and its parameters; every edge leads where it led, at once or by way of a new
/// block that only counts; and the function is still well-formed.
pub proof fn counts_are_all_that_is_added(f: SFunc)
    requires
        insertable(f),
    ensures
        blocks_wf(inserted(f)),
        inserted(f).params == f.params,
        inserted(f).values == f.values,
        inserted(f).blocks.len() >= f.blocks.len(),
        ({
            let new = inserted(f).blocks.skip(f.blocks.len() as int);
            &&& counting_blocks(f.blocks.len(), new, f.blocks.len())
            &&& forall|b: int|
                0 <= b < f.blocks.len() ==> same_work(
                    f.blocks.len(),
                    new,
                    #[trigger] inserted(f).blocks[b],
                    f.blocks[b],
                )
        }),
{
    let n = f.blocks.len();
    let g = inserted(f);
    let new = g.blocks.skip(n as int);
    if g == f {
        assert(new =~= seq![]);
        assert forall|b: int| 0 <= b < n implies same_work(
            n,
            new,
            #[trigger] g.blocks[b],
            f.blocks[b],
        ) by {}
    } else {
        lemma_blocks_code(f, n as int);
        let (done, more) = blocks_code(f, n as int);
        assert(new =~= more);
        assert forall|b: int| 0 <= b < n implies same_work(
            n,
            new,
            #[trigger] g.blocks[b],
            f.blocks[b],
        ) by {
            assert(g.blocks[b] == done[b]);
        }
        assert forall|i: int| 0 <= i < g.blocks.len() implies (#[trigger] g.blocks[i]).id.0 == i
            && crate::ir::ssa::term_in_range(g.blocks[i].term, g.blocks.len()) by {
            if i < n {
                assert(g.blocks[i] == done[i]);
                assert(same_work(n, new, done[i], f.blocks[i]));
                let xs = targets(g.blocks[i].term);
                assert forall|k: int| 0 <= k < xs.len() implies (#[trigger] xs[k]).to.0
                    < g.blocks.len() by {
                    assert(leads(n, new, xs[k], targets(f.blocks[i].term)[k]));
                    assert(targets(f.blocks[i].term)[k].to.0 < n);
                }
            } else {
                assert(g.blocks[i] == new[i - n]);
            }
        }
    }
}

} // verus!
