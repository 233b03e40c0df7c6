//! Threading jumps: an edge to a block that does nothing but jump on goes straight to where
//! that block leads.

use super::super::cfg::{has, targets_of};
use super::super::ssa::{
    arm_args, arms_sem, blocks_wf, targets, term_in_range, term_operands, values_wf, BlockId, Func,
    SBlock, SFunc, SSwitchKey, STarget, STerm, SwitchKey, Target, Term,
};
use super::weight::{block_weight, lemma_blocks_lighter, weight};
use crate::syntax::{sems, Node};
use vstd::prelude::*;

verus! {

/// Where a block forwards to, if all it does is to jump somewhere else without arguments.
/// The entry is no such block, nor is one that takes parameters.
pub open spec fn forwards_to(f: SFunc, b: int) -> Option<usize> {
    let x = f.blocks[b];
    if b != f.entry.0 && x.params.len() == 0 && x.insts.len() == 0 {
        match x.term {
            STerm::Jump(t) => if t.args.len() == 0 && t.to.0 != b {
                Some(t.to.0 as usize)
            } else {
                None
            },
            _ => None,
        }
    } else {
        None
    }
}

/// Where each block of a function forwards to.
pub open spec fn forwards(f: SFunc) -> Seq<Option<usize>> {
    Seq::new(f.blocks.len(), |b: int| forwards_to(f, b))
}

/// The end of a chain of forwarders that has come to `b` along `path`: the first block that
/// does not forward, or that the chain has passed before.
pub open spec fn chase(fwd: Seq<Option<usize>>, path: Seq<usize>, b: usize) -> usize
    decreases fwd.len() - path.len(),
{
    if path.len() >= fwd.len() || path.contains(b) {
        b
    } else {
        match fwd[b as int] {
            Some(next) => chase(fwd, path.push(b), next),
            None => b,
        }
    }
}

/// Where an edge to a block ends up.
pub open spec fn resolved(fwd: Seq<Option<usize>>, b: usize) -> usize {
    chase(fwd, seq![], b)
}

pub open spec fn moved(t: STarget, to: spec_fn(usize) -> usize) -> STarget {
    STarget { to: BlockId(to(t.to.0 as usize) as u32), ..t }
}

/// A terminator with its edges moved.
pub open spec fn retargeted(t: STerm, to: spec_fn(usize) -> usize) -> STerm {
    match t {
        STerm::Jump(t) => STerm::Jump(moved(t, to)),
        STerm::Branch { cond, then, els } => STerm::Branch {
            cond,
            then: moved(then, to),
            els: moved(els, to),
        },
        STerm::Switch { on, arms, default } => STerm::Switch {
            on,
            arms: Seq::new(arms.len(), |i: int| (arms[i].0, moved(arms[i].1, to))),
            default: moved(default, to),
        },
        _ => t,
    }
}

/// A function with its edges past forwarding blocks.
pub open spec fn threaded(f: SFunc) -> SFunc {
    let to = |b: usize| resolved(forwards(f), b);
    SFunc {
        blocks: Seq::new(
            f.blocks.len(),
            |b: int| SBlock { term: retargeted(f.blocks[b].term, to), ..f.blocks[b] },
        ),
        ..f
    }
}

/// Whether an edge of a terminator leads to a forwarding block.
pub open spec fn term_threads(fwd: Seq<Option<usize>>, t: STerm) -> bool {
    exists|k: int|
        0 <= k < targets(t).len() && resolved(fwd, (#[trigger] targets(t)[k]).to.0 as usize)
            != targets(t)[k].to.0
}

/// Whether an edge of a function leads to a forwarding block.
pub open spec fn threads(f: SFunc) -> bool {
    exists|b: int|
        0 <= b < f.blocks.len() && term_threads(forwards(f), #[trigger] f.blocks[b].term)
}

/// Whether a block is not the entry and no edge leads to it.
pub open spec fn orphan(f: SFunc, b: int) -> bool {
    &&& 0 <= b < f.blocks.len()
    &&& b != f.entry.0
    &&& forall|x: int, k: int|
        0 <= x < f.blocks.len() && 0 <= k < targets(f.blocks[x].term).len() ==> (
        #[trigger] targets(f.blocks[x].term)[k]).to.0 != b
}

// ---- chains ----

spec fn forwards_wf(fwd: Seq<Option<usize>>) -> bool {
    forall|b: int| 0 <= b < fwd.len() ==> ((#[trigger] fwd[b]) matches Some(n) ==> n < fwd.len())
}

proof fn lemma_chase_in_range(fwd: Seq<Option<usize>>, path: Seq<usize>, b: usize)
    requires
        forwards_wf(fwd),
        b < fwd.len(),
    ensures
        chase(fwd, path, b) < fwd.len(),
    decreases fwd.len() - path.len(),
{
    if !(path.len() >= fwd.len() || path.contains(b)) {
        if let Some(next) = fwd[b as int] {
            assert(fwd[b as int] is Some);
            lemma_chase_in_range(fwd, path.push(b), next);
        }
    }
}

/// A chain along blocks: each forwards to the next, and none comes twice.
spec fn is_chain(fwd: Seq<Option<usize>>, path: Seq<usize>) -> bool {
    &&& path.no_duplicates()
    &&& forall|i: int| 0 <= i < path.len() ==> (#[trigger] path[i]) < fwd.len()
    &&& forall|i: int| 0 < i < path.len() ==> fwd[path[i - 1] as int] == Some(#[trigger] path[i])
}

/// Distinct blocks are no more than there are.
proof fn lemma_chain_len(fwd: Seq<Option<usize>>, path: Seq<usize>)
    requires
        is_chain(fwd, path),
    ensures
        path.len() <= fwd.len(),
{
    let p = path.map_values(|b: usize| b as int);
    assert(p.no_duplicates()) by {
        assert forall|i: int, j: int| 0 <= i < p.len() && 0 <= j < p.len() && i != j implies p[i]
            != p[j] by {
            assert(path[i] != path[j]);
        }
    }
    p.unique_seq_to_set();
    let all = vstd::set_lib::set_int_range(0, fwd.len() as int);
    vstd::set_lib::lemma_int_range(0, fwd.len() as int);
    assert(p.to_set().subset_of(all)) by {
        assert forall|x: int| p.to_set().contains(x) implies all.contains(x) by {
            let i = choose|i: int| 0 <= i < p.len() && p[i] == x;
            assert(path[i] < fwd.len());
        }
    }
    vstd::set_lib::lemma_len_subset(p.to_set(), all);
}

/// Every block that a chain comes back to resolves to itself.
proof fn lemma_round_the_cycle(fwd: Seq<Option<usize>>, path: Seq<usize>, j: int, k: int)
    requires
        is_chain(fwd, path),
        0 <= j <= k <= path.len(),
        j < path.len(),
        fwd[path.last() as int] == Some(path[j]),
    ensures
        chase(
            fwd,
            path.subrange(j, k),
            if k < path.len() {
                path[k]
            } else {
                path[j]
            },
        ) == path[j],
    decreases path.len() - k,
{
    let p = path.subrange(j, k);
    if k == path.len() {
        assert(p[0] == path[j]);
        assert(p.contains(path[j]));
    } else {
        lemma_round_the_cycle(fwd, path, j, k + 1);
        lemma_chain_len(fwd, path);
        assert(!p.contains(path[k])) by {
            if p.contains(path[k]) {
                let i = choose|i: int| 0 <= i < p.len() && p[i] == path[k];
                assert(path[j + i] == path[k]);
            }
        }
        assert(p.push(path[k]) =~= path.subrange(j, k + 1));
        if k + 1 < path.len() {
            assert(fwd[path[k + 1 - 1] as int] == Some(path[k + 1]));
        } else {
            assert(path.last() == path[k]);
        }
    }
}

/// The end of a chain resolves to itself.
proof fn lemma_chase_ends(fwd: Seq<Option<usize>>, path: Seq<usize>, b: usize)
    requires
        forwards_wf(fwd),
        is_chain(fwd, path),
        b < fwd.len(),
        path.len() > 0 ==> fwd[path.last() as int] == Some(b),
    ensures
        resolved(fwd, chase(fwd, path, b)) == chase(fwd, path, b),
    decreases fwd.len() - path.len(),
{
    lemma_chain_len(fwd, path);
    if path.contains(b) {
        let j = choose|j: int| 0 <= j < path.len() && path[j] == b;
        lemma_round_the_cycle(fwd, path, j, j);
        assert(path.subrange(j, j) =~= seq![]);
    } else {
        let longer = path.push(b);
        assert(longer.no_duplicates());
        assert forall|i: int| 0 < i < longer.len() implies fwd[longer[i - 1] as int] == Some(
            #[trigger] longer[i],
        ) by {
            if i < path.len() {
                assert(path[i] == longer[i]);
            }
        }
        assert(is_chain(fwd, longer));
        lemma_chain_len(fwd, longer);
        if let Some(next) = fwd[b as int] {
            assert(fwd[b as int] is Some);
            lemma_chase_ends(fwd, longer, next);
        }
    }
}

proof fn lemma_forwards_wf(f: SFunc)
    requires
        blocks_wf(f),
    ensures
        forwards_wf(forwards(f)),
{
    assert forall|b: int| 0 <= b < f.blocks.len() implies ((#[trigger] forwards(f)[b]) matches Some(
        n,
    ) ==> n < f.blocks.len()) by {
        let x = f.blocks[b];
        assert(term_in_range(x.term, f.blocks.len()));
        if let STerm::Jump(t) = x.term {
            assert(targets(x.term)[0] == t);
        }
    }
}

proof fn lemma_arm_args_same(
    arms: Seq<(SSwitchKey, STarget)>,
    others: Seq<(SSwitchKey, STarget)>,
)
    requires
        arms.len() == others.len(),
        forall|i: int| 0 <= i < arms.len() ==> arms[i].1.args == (#[trigger] others[i]).1.args,
    ensures
        arm_args(arms) == arm_args(others),
    decreases arms.len(),
{
    if arms.len() > 0 {
        assert forall|i: int| 0 <= i < arms.drop_last().len() implies arms.drop_last()[i].1.args
            == (#[trigger] others.drop_last()[i]).1.args by {
            assert(arms[i].1.args == others[i].1.args);
        }
        lemma_arm_args_same(arms.drop_last(), others.drop_last());
        assert(arms.last().1.args == others.last().1.args);
    }
}

/// Moving edges changes where they go and nothing else.
pub proof fn retargeting_keeps(t: STerm, to: spec_fn(usize) -> usize)
    ensures
        term_operands(retargeted(t, to)) == term_operands(t),
        targets(retargeted(t, to)).len() == targets(t).len(),
        forall|k: int|
            0 <= k < targets(t).len() ==> #[trigger] targets(retargeted(t, to))[k] == moved(
                targets(t)[k],
                to,
            ),
        retargeted(t, to) is Branch == t is Branch,
{
    if let STerm::Switch { arms, .. } = t {
        lemma_arm_args_same(
            Seq::new(arms.len(), |i: int| (arms[i].0, moved(arms[i].1, to))),
            arms,
        );
    }
}

/// Edges that stay where they are make the same terminator.
pub proof fn retargeting_to_itself(t: STerm, to: spec_fn(usize) -> usize)
    requires
        forall|k: int|
            0 <= k < targets(t).len() ==> to((#[trigger] targets(t)[k]).to.0 as usize) == targets(
                t,
            )[k].to.0,
    ensures
        retargeted(t, to) == t,
{
    match t {
        STerm::Jump(x) => {
            assert(targets(t)[0] == x);
        },
        STerm::Branch { then, els, .. } => {
            assert(targets(t)[0] == then);
            assert(targets(t)[1] == els);
        },
        STerm::Switch { on, arms, default } => {
            assert(targets(t)[arms.len() as int] == default);
            let moved_arms = Seq::new(arms.len(), |i: int| (arms[i].0, moved(arms[i].1, to)));
            assert forall|i: int| 0 <= i < arms.len() implies moved_arms[i] == arms[i] by {
                assert(targets(t)[i] == arms[i].1);
            }
            assert(moved_arms =~= arms);
        },
        _ => {},
    }
}

/// Threading keeps a function well-formed. Where it changes a function, it leaves a block
/// that no edge leads to.
pub proof fn threading_keeps(f: SFunc)
    requires
        blocks_wf(f),
        values_wf(f),
    ensures
        blocks_wf(threaded(f)),
        values_wf(threaded(f)),
        weight(threaded(f)) <= weight(f),
        threads(f) ==> exists|b: int| orphan(threaded(f), b),
        !threads(f) ==> threaded(f) == f,
        threaded(f).blocks.len() == f.blocks.len(),
{
    let g = threaded(f);
    let fwd = forwards(f);
    let to = |b: usize| resolved(forwards(f), b);
    lemma_forwards_wf(f);
    assert forall|b: int| 0 <= b < f.blocks.len() implies {
        &&& super::super::ssa::block_in_range(#[trigger] g.blocks[b], f.values.len())
        &&& block_weight(g.blocks[b]) <= block_weight(f.blocks[b])
        &&& !term_threads(fwd, f.blocks[b].term) ==> g.blocks[b] == f.blocks[b]
        &&& g.blocks[b].id == f.blocks[b].id
        &&& term_in_range(g.blocks[b].term, f.blocks.len())
    } by {
        let x = f.blocks[b];
        let y = g.blocks[b];
        assert(super::super::ssa::block_in_range(x, f.values.len()));
        retargeting_keeps(x.term, to);
        assert(term_in_range(x.term, f.blocks.len()));
        assert forall|k: int| 0 <= k < targets(y.term).len() implies (#[trigger] targets(
            y.term,
        )[k]).to.0 < f.blocks.len() by {
            let t = targets(x.term)[k];
            assert(t.to.0 < f.blocks.len());
            lemma_chase_in_range(fwd, seq![], t.to.0 as usize);
            assert(targets(y.term)[k] == moved(t, to));
        }
        if !term_threads(fwd, x.term) {
            retargeting_to_itself(x.term, to);
        }
    }
    lemma_blocks_lighter(f.blocks, g.blocks, f.blocks.len() as int);
    if threads(f) {
        let x = choose|x: int|
            0 <= x < f.blocks.len() && term_threads(fwd, #[trigger] f.blocks[x].term);
        let tx = f.blocks[x].term;
        assert(term_in_range(f.blocks[x].term, f.blocks.len()));
        let k = choose|k: int|
            0 <= k < targets(tx).len() && resolved(fwd, (#[trigger] targets(tx)[k]).to.0 as usize)
                != targets(tx)[k].to.0;
        let b = targets(tx)[k].to.0;
        assert(b < f.blocks.len());
        assert forall|y: int, j: int|
            0 <= y < g.blocks.len() && 0 <= j < targets(g.blocks[y].term).len() implies (
        #[trigger] targets(g.blocks[y].term)[j]).to.0 != b by {
            let ty = f.blocks[y].term;
            retargeting_keeps(ty, to);
            assert(term_in_range(f.blocks[y].term, f.blocks.len()));
            let t = targets(ty)[j];
            assert(t.to.0 < f.blocks.len());
            assert(targets(g.blocks[y].term)[j] == moved(t, to));
            lemma_chase_ends(fwd, seq![], t.to.0 as usize);
            lemma_chase_in_range(fwd, seq![], t.to.0 as usize);
        }
        assert(fwd[b as int] is Some);
        assert(orphan(g, b as int));
    } else {
        assert forall|b: int| 0 <= b < f.blocks.len() implies g.blocks[b] == f.blocks[b] by {
            assert(!term_threads(fwd, f.blocks[b].term));
        }
        assert(g.blocks =~= f.blocks);
    }
}

// ---- computing it ----

fn forwarder(f: &Func, b: usize) -> (r: Option<usize>)
    requires
        b < f.blocks.len(),
    ensures
        r == forwards_to(f.sem(), b as int),
{
    let x = &f.blocks[b];
    assert(f.sem().blocks[b as int] == x.sem());
    if b != f.entry.0 as usize && x.params.len() == 0 && x.insts.len() == 0 {
        match &x.term {
            Term::Jump(t) => if t.args.len() == 0 && t.to.0 as usize != b {
                Some(t.to.0 as usize)
            } else {
                None
            },
            _ => None,
        }
    } else {
        None
    }
}

/// Follow a chain of forwarders to its end, stopping on a cycle.
fn resolve_forward(fwd: &Vec<Option<usize>>, b: usize) -> (r: usize)
    requires
        forwards_wf(fwd@),
        b < fwd.len(),
    ensures
        r == resolved(fwd@, b),
        r < fwd.len(),
{
    let mut path: Vec<usize> = Vec::new();
    let mut at: usize = b;
    while path.len() < fwd.len()
        invariant
            forwards_wf(fwd@),
            at < fwd.len(),
            path.len() <= fwd.len(),
            resolved(fwd@, b) == chase(fwd@, path@, at),
        decreases fwd.len() - path.len(),
    {
        if has(&path, at) {
            return at;
        }
        match fwd[at] {
            Some(next) => {
                assert(fwd@[at as int] is Some);
                path.push(at);
                at = next;
            },
            None => {
                return at;
            },
        }
    }
    at
}

/// A terminator with its edges moved to other blocks.
pub fn retarget(t: &Term, to: &Vec<usize>) -> (r: Term)
    requires
        to.len() <= u32::MAX,
        forall|k: int|
            0 <= k < targets(t.sem()).len() ==> (#[trigger] targets(t.sem())[k]).to.0 < to.len(),
        forall|k: int| 0 <= k < to.len() ==> (#[trigger] to[k]) < to.len(),
    ensures
        r.sem() == retargeted(t.sem(), |b: usize| to@[b as int]),
{
    let ghost go = |b: usize| to@[b as int];
    match t {
        Term::Jump(x) => {
            assert(targets(t.sem())[0] == x.sem());
            Term::Jump(move_target(x, to))
        },
        Term::Branch { cond, then, els } => {
            assert(targets(t.sem())[0] == then.sem());
            assert(targets(t.sem())[1] == els.sem());
            Term::Branch { cond: *cond, then: move_target(then, to), els: move_target(els, to) }
        },
        Term::Switch { on, arms, default } => {
            let ghost before = arms_sem(arms@);
            let mut rs: Vec<(SwitchKey, Target)> = Vec::new();
            let mut i: usize = 0;
            while i < arms.len()
                invariant
                    i <= arms.len(),
                    to.len() <= u32::MAX,
                    t.sem() is Switch,
                    t.sem()->Switch_arms == arms_sem(arms@),
                    forall|k: int|
                        0 <= k < targets(t.sem()).len() ==> (#[trigger] targets(t.sem())[k]).to.0
                            < to.len(),
                    forall|k: int| 0 <= k < to.len() ==> (#[trigger] to[k]) < to.len(),
                    go == |b: usize| to@[b as int],
                    rs.len() == i,
                    forall|k: int|
                        0 <= k < i ==> (#[trigger] rs[k]).0.sem() == arms[k].0.sem()
                            && rs[k].1.sem() == moved(arms[k].1.sem(), go),
                decreases arms.len() - i,
            {
                assert(targets(t.sem())[i as int] == arms[i as int].1.sem());
                rs.push((arms[i].0.clone(), move_target(&arms[i].1, to)));
                i += 1;
            }
            assert(arms_sem(rs@) =~= Seq::new(
                before.len(),
                |i: int| (before[i].0, moved(before[i].1, go)),
            ));
            assert(targets(t.sem())[arms.len() as int] == default.sem());
            Term::Switch { on: *on, arms: rs, default: move_target(default, to) }
        },
        _ => t.clone(),
    }
}

fn move_target(t: &Target, to: &Vec<usize>) -> (r: Target)
    requires
        to.len() <= u32::MAX,
        t.to.0 < to.len(),
        forall|k: int| 0 <= k < to.len() ==> (#[trigger] to[k]) < to.len(),
    ensures
        r.sem() == moved(t.sem(), |b: usize| to@[b as int]),
{
    let b: usize = to[t.to.0 as usize];
    Target { to: BlockId(b as u32), args: super::super::ssa::copy_values(&t.args) }
}

/// Moving edges the same way gives the same terminator.
pub proof fn retargeting_agrees(t: STerm, a: spec_fn(usize) -> usize, b: spec_fn(usize) -> usize)
    requires
        forall|k: int|
            0 <= k < targets(t).len() ==> a((#[trigger] targets(t)[k]).to.0 as usize) == b(
                targets(t)[k].to.0 as usize,
            ),
    ensures
        retargeted(t, a) == retargeted(t, b),
{
    match t {
        STerm::Jump(x) => {
            assert(targets(t)[0] == x);
        },
        STerm::Branch { then, els, .. } => {
            assert(targets(t)[0] == then);
            assert(targets(t)[1] == els);
        },
        STerm::Switch { on, arms, default } => {
            assert(targets(t)[arms.len() as int] == default);
            let xs = Seq::new(arms.len(), |i: int| (arms[i].0, moved(arms[i].1, a)));
            let ys = Seq::new(arms.len(), |i: int| (arms[i].0, moved(arms[i].1, b)));
            assert forall|i: int| 0 <= i < arms.len() implies xs[i] == ys[i] by {
                assert(targets(t)[i] == arms[i].1);
            }
            assert(xs =~= ys);
        },
        _ => {},
    }
}

fn goes_past(t: &Term, to: &Vec<usize>) -> (r: bool)
    requires
        forall|k: int|
            0 <= k < targets(t.sem()).len() ==> (#[trigger] targets(t.sem())[k]).to.0 < to.len(),
    ensures
        r == exists|k: int|
            0 <= k < targets(t.sem()).len() && to@[(#[trigger] targets(t.sem())[k]).to.0 as int]
                != targets(t.sem())[k].to.0,
{
    let ts = targets_of(t);
    let mut k: usize = 0;
    while k < ts.len()
        invariant
            k <= ts.len() == targets(t.sem()).len(),
            forall|k: int| 0 <= k < ts.len() ==> (#[trigger] ts[k]).sem() == targets(t.sem())[k],
            forall|k: int|
                0 <= k < targets(t.sem()).len() ==> (#[trigger] targets(t.sem())[k]).to.0
                    < to.len(),
            forall|j: int|
                0 <= j < k ==> to@[(#[trigger] targets(t.sem())[j]).to.0 as int] == targets(
                    t.sem(),
                )[j].to.0,
        decreases ts.len() - k,
    {
        assert(ts[k as int].sem() == targets(t.sem())[k as int]);
        let b: usize = ts[k].to.0 as usize;
        if to[b] != b {
            return true;
        }
        k += 1;
    }
    false
}

/// Redirect edges to forwarding blocks straight to where those lead.
pub fn thread_empty_jumps(f: &mut Func) -> (changed: bool)
    requires
        blocks_wf(old(f).sem()),
    ensures
        final(f).sem() == threaded(old(f).sem()),
        changed == threads(old(f).sem()),
{
    let ghost s = f.sem();
    let ghost fw = forwards(s);
    let n: usize = f.blocks.len();
    let mut fwd: Vec<Option<usize>> = Vec::new();
    let mut b: usize = 0;
    while b < n
        invariant
            b <= n == f.blocks.len(),
            s == f.sem(),
            fwd.len() == b,
            forall|k: int| 0 <= k < b ==> #[trigger] fwd[k] == forwards_to(s, k),
        decreases n - b,
    {
        fwd.push(forwarder(f, b));
        b += 1;
    }
    assert(fwd@ =~= fw);
    proof {
        lemma_forwards_wf(s);
    }
    let mut to: Vec<usize> = Vec::new();
    let mut b: usize = 0;
    while b < n
        invariant
            b <= n == fwd.len(),
            forwards_wf(fwd@),
            fwd@ == fw,
            to.len() == b,
            forall|k: int|
                0 <= k < b ==> #[trigger] to[k] == resolved(fw, k as usize) && to[k] < n,
        decreases n - b,
    {
        to.push(resolve_forward(&fwd, b));
        b += 1;
    }
    let ghost go = |b: usize| resolved(forwards(s), b);
    let mut changed: bool = false;
    let mut b: usize = 0;
    while b < n
        invariant
            b <= n == f.blocks.len() == s.blocks.len() == to.len(),
            s == old(f).sem(),
            blocks_wf(s),
            fw == forwards(s),
            go == |b: usize| resolved(forwards(s), b),
            forall|k: int|
                0 <= k < n ==> #[trigger] to[k] == resolved(fw, k as usize) && to[k] < n,
            f.sem() == (SFunc { blocks: sems(f.blocks@), ..s }),
            forall|j: int|
                0 <= j < b ==> (#[trigger] f.blocks[j]).sem() == (SBlock {
                    term: retargeted(s.blocks[j].term, go),
                    ..s.blocks[j]
                }),
            forall|j: int|
                b <= j < f.blocks.len() ==> (#[trigger] f.blocks[j]).sem() == s.blocks[j],
            changed == exists|j: int|
                0 <= j < b && term_threads(fw, #[trigger] s.blocks[j].term),
        decreases n - b,
    {
        let ghost t = s.blocks[b as int].term;
        assert(f.blocks[b as int].sem() == s.blocks[b as int]);
        assert(term_in_range(s.blocks[b as int].term, s.blocks.len()));
        assert(f.blocks[b as int].term.sem() == t);
        let past = goes_past(&f.blocks[b].term, &to);
        assert(past == term_threads(fw, t)) by {
            if past {
                let k = choose|k: int|
                    0 <= k < targets(t).len() && to@[(#[trigger] targets(t)[k]).to.0 as int]
                        != targets(t)[k].to.0;
                assert(to[targets(t)[k].to.0 as int] == resolved(fw, targets(t)[k].to.0 as usize));
            }
            if term_threads(fw, t) {
                let k = choose|k: int|
                    0 <= k < targets(t).len() && resolved(
                        fw,
                        (#[trigger] targets(t)[k]).to.0 as usize,
                    ) != targets(t)[k].to.0;
                assert(to[targets(t)[k].to.0 as int] == resolved(fw, targets(t)[k].to.0 as usize));
            }
        }
        let term = retarget(&f.blocks[b].term, &to);
        proof {
            let other = |b: usize| to@[b as int];
            assert forall|k: int| 0 <= k < targets(t).len() implies other(
                (#[trigger] targets(t)[k]).to.0 as usize,
            ) == go(targets(t)[k].to.0 as usize) by {
                assert(to[targets(t)[k].to.0 as int] == resolved(fw, targets(t)[k].to.0 as usize));
            }
            retargeting_agrees(t, other, go);
        }
        f.blocks[b].term = term;
        if past {
            changed = true;
        }
        b += 1;
    }
    assert(sems(f.blocks@) =~= threaded(s).blocks);
    changed
}

} // verus!
