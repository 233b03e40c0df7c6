//! Which lists stand alone round a loop, and making their writes in place.
//!
//! A write takes a list and gives a list, so across every write nothing is known of the new
//! one. A list that no other live reference leads to may as well be written in place. For a
//! list that comes in as a parameter nothing in the function can show that, so it is
//! brought about instead: on every edge into the loop the list is made unique, and between
//! there and each write the function itself must make no second reference and read no stale
//! copy ([`chain`] says how).
//!
//! Only writes whose failure panics are made in place, since the store traps on a bad index,
//! and only where the elements own nothing that is counted, since what the store displaces
//! is not given back.

use super::cfg::{cfg, graph_of};
use super::graph::adj;
use super::refcount::edge_count;
use super::repr::{is_counted, Repr, SRepr};
use super::room::edges_of;
use super::ssa::{
    block_in_range, blocks_wf, values_wf, BlockId, Func, Op, Program, SFunc, SInst, SOp, Value,
};
use crate::syntax::{sems, Node};
use vstd::prelude::*;

pub mod back;
pub mod chain;
pub mod establish;
pub mod gate;
pub mod laws;
pub mod rewrite;
pub mod uses;

use back::{back_edges, back_edges_in_range, find_back_edges};
use chain::{
    chain_of, is_set, lemma_site_in_range, members_of, members_wf, names_set, site_in_range,
    sites, Members, SSite, Site,
};
use establish::{
    establish, established, establishing_adds_for_edges, establishing_grows, establishing_keeps,
};
use rewrite::{in_place, in_place_keeps, in_place_sizes, write_in_place};
use uses::holdable;

verus! {

/// A list value whose writes could be made in place.
#[derive(Debug)]
pub struct Candidate {
    pub func: String,
    /// The block whose parameter carries the list round the loop.
    pub header: BlockId,
    pub param: Value,
    /// How many writes are on the chain.
    pub writes: usize,
    /// Whether the elements own nothing that is counted, which writing in place takes.
    pub scalar: bool,
}

/// [`Candidate`] as a mathematical value.
pub struct SCandidate {
    pub func: Seq<char>,
    pub header: BlockId,
    pub param: Value,
    pub writes: nat,
    pub scalar: bool,
}

impl Node for Candidate {
    type V = SCandidate;

    open spec fn sem(&self) -> SCandidate {
        SCandidate {
            func: self.func@,
            header: self.header,
            param: self.param,
            writes: self.writes as nat,
            scalar: self.scalar,
        }
    }
}

/// A chain that keeps the rules, and the writes on it.
pub struct SPlan {
    pub header: usize,
    pub param: Value,
    pub scalar: bool,
    pub sites: Seq<SSite>,
}

/// Whether a back edge leads to a block.
pub open spec fn is_loop_header(f: SFunc, h: int) -> bool {
    exists|k: int|
        0 <= k < back_edges(cfg(f), f.entry.0 as usize).len() && (#[trigger] back_edges(
            cfg(f),
            f.entry.0 as usize,
        )[k]).1 == h
}

/// The plan of one parameter of a header, if it is a list whose chain has a write and keeps
/// the rules.
pub open spec fn plan_of(f: SFunc, header: int, param: Value) -> Option<SPlan> {
    match f.values[param.0 as int].repr {
        SRepr::List(elem) => match chain::chain(f, header, param) {
            Some(ss) => if ss.len() > 0 {
                Some(
                    SPlan {
                        header: header as usize,
                        param,
                        scalar: !is_counted(*elem),
                        sites: ss,
                    },
                )
            } else {
                None
            },
            None => None,
        },
        _ => None,
    }
}

/// The plans of the first `n` parameters of a header.
pub open spec fn header_plans(f: SFunc, header: int, n: int) -> Seq<SPlan>
    decreases n,
{
    if n <= 0 {
        seq![]
    } else {
        match plan_of(f, header, f.blocks[header].params[n - 1]) {
            Some(p) => header_plans(f, header, n - 1).push(p),
            None => header_plans(f, header, n - 1),
        }
    }
}

/// The plans of the loops among the first `n` blocks.
pub open spec fn plans(f: SFunc, n: int) -> Seq<SPlan>
    decreases n,
{
    if n <= 0 {
        seq![]
    } else if is_loop_header(f, n - 1) {
        plans(f, n - 1) + header_plans(f, n - 1, f.blocks[n - 1].params.len() as int)
    } else {
        plans(f, n - 1)
    }
}

/// The plans of a function.
pub open spec fn all_plans(f: SFunc) -> Seq<SPlan> {
    plans(f, f.blocks.len() as int)
}

/// The first plan from `k` on whose writes can be made in place.
pub open spec fn scalar_from(ps: Seq<SPlan>, k: int) -> Option<SPlan>
    decreases ps.len() - k,
{
    if k >= ps.len() {
        None
    } else if ps[k].scalar {
        Some(ps[k])
    } else {
        scalar_from(ps, k + 1)
    }
}

/// A function with one plan carried out.
pub open spec fn rewritten(f: SFunc, p: SPlan) -> SFunc {
    established(in_place(f, p.sites), p.header, p.param)
}

/// A function after at most `n` plans, each the first that there is then.
pub open spec fn carried_out(f: SFunc, n: nat) -> SFunc
    decreases n,
{
    match scalar_from(all_plans(f), 0) {
        Some(p) => if n == 0 {
            f
        } else {
            carried_out(rewritten(f, p), (n - 1) as nat)
        },
        None => f,
    }
}

/// A function with its writes made in place, one plan at a time. Every plan takes at least
/// one write away; sixty-four are the most that are looked for.
pub open spec fn applied(f: SFunc) -> SFunc {
    carried_out(f, 64)
}

/// What writing in place takes: a well-formed function, and numbers left for the blocks and
/// values that it adds.
pub open spec fn writable(f: SFunc) -> bool {
    &&& blocks_wf(f)
    &&& values_wf(f)
    &&& applied(f).blocks.len() <= u32::MAX
    &&& applied(f).values.len() <= u32::MAX
}

/// The candidates of one function.
pub open spec fn func_candidates(f: SFunc) -> Seq<SCandidate> {
    all_plans(f).map_values(
        |p: SPlan|
            SCandidate {
                func: f.name,
                header: BlockId(p.header as u32),
                param: p.param,
                writes: p.sites.len(),
                scalar: p.scalar,
            },
    )
}

/// The candidates of the first `n` functions.
pub open spec fn candidates_in(fs: Seq<SFunc>, n: int) -> Seq<SCandidate>
    decreases n,
{
    if n <= 0 {
        seq![]
    } else {
        candidates_in(fs, n - 1) + func_candidates(fs[n - 1])
    }
}

// ---- what it keeps ----

spec fn plan_in_range(f: SFunc, p: SPlan) -> bool {
    &&& p.header < f.blocks.len()
    &&& p.param.0 < f.values.len()
    &&& forall|i: int| 0 <= i < p.sites.len() ==> site_in_range(f, #[trigger] p.sites[i])
}

proof fn lemma_sites_in_range(f: SFunc, param: Value, n: int)
    requires
        blocks_wf(f),
        values_wf(f),
        holdable(f),
    ensures
        forall|i: int|
            0 <= i < sites(f, param, n).len() ==> site_in_range(f, #[trigger] sites(f, param, n)[i]),
    decreases n,
{
    if n > 0 {
        lemma_sites_in_range(f, param, n - 1);
        lemma_site_in_range(f, Value((n - 1) as u32));
        let before = sites(f, param, n - 1);
        let all = sites(f, param, n);
        assert forall|i: int| 0 <= i < all.len() implies site_in_range(f, #[trigger] all[i]) by {
            if i < before.len() {
                assert(all[i] == before[i]);
            }
        }
    }
}

/// Carrying out a plan only adds blocks and values.
proof fn rewriting_grows(f: SFunc, p: SPlan)
    ensures
        rewritten(f, p).blocks.len() >= f.blocks.len(),
        rewritten(f, p).values.len() >= f.values.len(),
{
    in_place_sizes(f, p.sites, p.sites.len() as int);
    establishing_grows(in_place(f, p.sites), p.header, p.param);
}

proof fn carrying_out_grows(f: SFunc, n: nat)
    ensures
        carried_out(f, n).blocks.len() >= f.blocks.len(),
        carried_out(f, n).values.len() >= f.values.len(),
    decreases n,
{
    if let Some(p) = scalar_from(all_plans(f), 0) {
        if n > 0 {
            rewriting_grows(f, p);
            carrying_out_grows(rewritten(f, p), (n - 1) as nat);
        }
    }
}

/// Carrying out a plan keeps a function well-formed as long as there are numbers for what it
/// adds.
proof fn rewriting_keeps(f: SFunc, p: SPlan)
    requires
        blocks_wf(f),
        values_wf(f),
        plan_in_range(f, p),
        rewritten(f, p).blocks.len() <= u32::MAX,
        rewritten(f, p).values.len() <= u32::MAX,
    ensures
        blocks_wf(rewritten(f, p)),
        values_wf(rewritten(f, p)),
{
    in_place_keeps(f, p.sites);
    establishing_keeps(in_place(f, p.sites), p.header, p.param);
}

// ---- doing it ----

struct Plan {
    header: usize,
    param: Value,
    scalar: bool,
    sites: Vec<Site>,
}

impl Node for Plan {
    type V = SPlan;

    closed spec fn sem(&self) -> SPlan {
        SPlan {
            header: self.header,
            param: self.param,
            scalar: self.scalar,
            sites: sems(self.sites@),
        }
    }
}

proof fn func_is_holdable(f: Func)
    ensures
        holdable(f.sem()),
{
    assert forall|b: int| 0 <= b < f.sem().blocks.len() implies (
    #[trigger] f.sem().blocks[b]).insts.len() <= usize::MAX by {
        assert(f.sem().blocks[b] == f.blocks[b].sem());
        assert(f.blocks[b].sem().insts.len() == f.blocks[b].insts.len());
    }
}

/// Add the plans of one header.
fn plan_header(f: &Func, m: &Members, h: usize, ps: &mut Vec<Plan>)
    requires
        blocks_wf(f.sem()),
        values_wf(f.sem()),
        members_wf(f.sem(), *m),
        h < f.blocks.len(),
        forall|i: int| 0 <= i < old(ps).len() ==> plan_in_range(f.sem(), (#[trigger] old(ps)[i]).sem()),
    ensures
        sems(final(ps)@) == sems(old(ps)@) + header_plans(
            f.sem(),
            h as int,
            f.sem().blocks[h as int].params.len() as int,
        ),
        forall|i: int|
            0 <= i < final(ps).len() ==> plan_in_range(f.sem(), (#[trigger] final(ps)[i]).sem()),
{
    let ghost s = f.sem();
    let ghost before = sems(ps@);
    let ghost x = s.blocks[h as int];
    assert(x == f.blocks[h as int].sem());
    assert(block_in_range(x, s.values.len()));
    assert(s.values.len() == f.values.len());
    proof {
        func_is_holdable(*f);
    }
    let mut k: usize = 0;
    assert(sems(ps@) =~= before + header_plans(s, h as int, 0));
    while k < f.blocks[h].params.len()
        invariant
            h < f.blocks.len(),
            s == f.sem(),
            blocks_wf(s),
            values_wf(s),
            holdable(s),
            s.values.len() == f.values.len(),
            s.blocks.len() == f.blocks.len(),
            members_wf(s, *m),
            x == s.blocks[h as int],
            x == f.blocks[h as int].sem(),
            block_in_range(x, s.values.len()),
            k <= f.blocks[h as int].params.len(),
            sems(ps@) == before + header_plans(s, h as int, k as int),
            forall|i: int| 0 <= i < ps.len() ==> plan_in_range(s, (#[trigger] ps[i]).sem()),
        decreases f.blocks[h as int].params.len() - k,
    {
        let param = f.blocks[h].params[k];
        assert(x.params[k as int] == param);
        assert(s.values[param.0 as int] == f.values[param.0 as int].sem());
        if let Repr::List(elem) = &f.values[param.0 as usize].repr {
            let scalar = !elem.is_counted();
            match chain_of(f, m, h, param) {
                Some(xs) => if xs.len() > 0 {
                    let p = Plan { header: h, param, scalar, sites: xs };
                    proof {
                        lemma_sites_in_range(s, param, s.values.len() as int);
                        assert(plan_of(s, h as int, param) == Some(p.sem()));
                        assert(plan_in_range(s, p.sem()));
                    }
                    let ghost was = ps@;
                    ps.push(p);
                    assert(sems(ps@) =~= sems(was).push(p.sem()));
                    assert forall|i: int| 0 <= i < ps.len() implies plan_in_range(
                        s,
                        (#[trigger] ps[i]).sem(),
                    ) by {
                        if i < was.len() {
                            assert(was[i] == ps[i]);
                        }
                    }
                },
                None => {},
            }
        }
        k += 1;
        assert(sems(ps@) =~= before + header_plans(s, h as int, k as int));
    }
}

fn leads_to(backs: &Vec<(usize, usize)>, h: usize) -> (r: bool)
    ensures
        r == exists|k: int| 0 <= k < backs@.len() && (#[trigger] backs@[k]).1 == h,
{
    let mut i: usize = 0;
    while i < backs.len()
        invariant
            i <= backs.len(),
            forall|k: int| 0 <= k < i ==> (#[trigger] backs@[k]).1 != h,
        decreases backs.len() - i,
    {
        let e = backs[i];
        if e.1 == h {
            assert(backs@[i as int].1 == h);
            return true;
        }
        i += 1;
    }
    false
}

fn plans_of(f: &Func) -> (ps: Vec<Plan>)
    requires
        blocks_wf(f.sem()),
        values_wf(f.sem()),
    ensures
        sems(ps@) == all_plans(f.sem()),
        forall|i: int| 0 <= i < ps.len() ==> plan_in_range(f.sem(), (#[trigger] ps[i]).sem()),
{
    let ghost s = f.sem();
    proof {
        func_is_holdable(*f);
    }
    let m = members_of(f);
    let mut ps: Vec<Plan> = Vec::new();
    let mut h: usize = 0;
    assert(sems(ps@) =~= plans(s, 0));
    while h < f.blocks.len()
        invariant
            h <= f.blocks.len(),
            s == f.sem(),
            blocks_wf(s),
            values_wf(s),
            members_wf(s, m),
            sems(ps@) == plans(s, h as int),
            forall|i: int| 0 <= i < ps.len() ==> plan_in_range(s, (#[trigger] ps[i]).sem()),
        decreases f.blocks.len() - h,
    {
        if leads_to(&m.backs, h) {
            plan_header(f, &m, h, &mut ps);
        }
        h += 1;
    }
    ps
}

fn first_scalar(ps: &Vec<Plan>) -> (r: Option<usize>)
    ensures
        match r {
            Some(k) => k < ps.len() && scalar_from(sems(ps@), 0) == Some(ps[k as int].sem()),
            None => scalar_from(sems(ps@), 0) is None,
        },
{
    let ghost s = sems(ps@);
    let mut k: usize = 0;
    while k < ps.len()
        invariant
            k <= ps.len(),
            s == sems(ps@),
            scalar_from(s, 0) == scalar_from(s, k as int),
        decreases ps.len() - k,
    {
        assert(s[k as int] == ps[k as int].sem());
        if ps[k].scalar {
            return Some(k);
        }
        k += 1;
    }
    None
}

/// Carry out one plan.
fn rewrite(f: &mut Func, p: &Plan)
    requires
        blocks_wf(old(f).sem()),
        values_wf(old(f).sem()),
        plan_in_range(old(f).sem(), p.sem()),
        rewritten(old(f).sem(), p.sem()).blocks.len() <= u32::MAX,
        rewritten(old(f).sem(), p.sem()).values.len() <= u32::MAX,
    ensures
        final(f).sem() == rewritten(old(f).sem(), p.sem()),
{
    let ghost f0 = f.sem();
    assert forall|i: int| 0 <= i < p.sites.len() implies site_in_range(
        f0,
        (#[trigger] p.sites[i]).sem(),
    ) by {
        assert(p.sem().sites[i] == p.sites[i].sem());
    }
    proof {
        in_place_keeps(f0, p.sem().sites);
    }
    write_in_place(f, &p.sites);
    assert(f.sem().blocks.len() == f.blocks.len());
    assert(f.sem().values.len() == f.values.len());
    establish(f, p.header, p.param);
}

/// Make the writes of one function in place where they can be.
pub fn apply_fn(f: &mut Func)
    requires
        writable(old(f).sem()),
    ensures
        final(f).sem() == applied(old(f).sem()),
        blocks_wf(final(f).sem()),
        values_wf(final(f).sem()),
{
    let ghost f0 = f.sem();
    let mut left: usize = 64;
    while left > 0
        invariant
            f0 == old(f).sem(),
            writable(f0),
            blocks_wf(f.sem()),
            values_wf(f.sem()),
            applied(f0) == carried_out(f.sem(), left as nat),
        decreases left,
    {
        let ps = plans_of(f);
        match first_scalar(&ps) {
            Some(k) => {
                let ghost p = ps[k as int].sem();
                proof {
                    carrying_out_grows(rewritten(f.sem(), p), (left - 1) as nat);
                    rewriting_keeps(f.sem(), p);
                }
                rewrite(f, &ps[k]);
            },
            None => {
                return ;
            },
        }
        left -= 1;
    }
    assert(carried_out(f.sem(), 0) == f.sem());
}

/// Whether there are numbers for a block and a value on every edge, in every round.
pub open spec fn has_room(f: SFunc, n: nat) -> bool
    decreases n,
{
    match scalar_from(all_plans(f), 0) {
        Some(p) => n == 0 || {
            let g = in_place(f, p.sites);
            let e = edge_count(g, g.blocks.len() as int);
            &&& g.blocks.len() + e <= u32::MAX
            &&& g.values.len() + e <= u32::MAX
            &&& has_room(rewritten(f, p), (n - 1) as nat)
        },
        None => true,
    }
}

/// As [`apply_fn`], where there is room for it; says whether there is. Without room the
/// function is left in between and is of no use.
pub fn try_apply_fn(f: &mut Func) -> (r: bool)
    requires
        blocks_wf(old(f).sem()),
        values_wf(old(f).sem()),
    ensures
        r == has_room(old(f).sem(), 64),
        r ==> writable(old(f).sem()) && final(f).sem() == applied(old(f).sem()) && blocks_wf(
            final(f).sem(),
        ) && values_wf(final(f).sem()),
{
    let ghost f0 = f.sem();
    let mut left: usize = 64;
    while left > 0
        invariant
            f0 == old(f).sem(),
            left <= 64,
            blocks_wf(f0),
            values_wf(f0),
            blocks_wf(f.sem()),
            values_wf(f.sem()),
            has_room(f0, 64) == has_room(f.sem(), left as nat),
            applied(f0) == carried_out(f.sem(), left as nat),
        decreases left,
    {
        let ps = plans_of(f);
        match first_scalar(&ps) {
            Some(k) => {
                let ghost f1 = f.sem();
                let p = &ps[k];
                let ghost q = p.sem();
                assert forall|i: int| 0 <= i < p.sites.len() implies site_in_range(
                    f1,
                    (#[trigger] p.sites[i]).sem(),
                ) by {
                    assert(q.sites[i] == p.sites[i].sem());
                }
                proof {
                    in_place_sizes(f1, q.sites, q.sites.len() as int);
                    in_place_keeps(f1, q.sites);
                }
                write_in_place(f, &p.sites);
                let ghost g = f.sem();
                assert(g == in_place(f1, q.sites));
                assert(g.blocks.len() == f.blocks.len());
                assert(g.values.len() == f.values.len());
                match edges_of(f) {
                    Some(e) => {
                        if f.blocks.len() > 0xffff_ffff - e || f.values.len() > 0xffff_ffff - e {
                            return false;
                        }
                    },
                    None => {
                        return false;
                    },
                }
                proof {
                    establishing_adds_for_edges(g, q.header, q.param);
                    establishing_keeps(g, q.header, q.param);
                }
                establish(f, p.header, p.param);
            },
            None => {
                return true;
            },
        }
        left -= 1;
    }
    assert(carried_out(f.sem(), 0) == f.sem());
    true
}

/// Make the writes of every function of a program in place where they can be.
pub fn apply(program: &mut Program)
    requires
        forall|i: int|
            0 <= i < old(program).funcs.len() ==> writable((#[trigger] old(program).funcs[i]).sem()),
    ensures
        final(program).funcs.len() == old(program).funcs.len(),
        forall|i: int|
            0 <= i < old(program).funcs.len() ==> (#[trigger] final(program).funcs[i]).sem()
                == applied(old(program).funcs[i].sem()),
        final(program).recursive == old(program).recursive,
        final(program).boxed == old(program).boxed,
        final(program).pure_natives == old(program).pure_natives,
        final(program).inlined == old(program).inlined,
{
    let mut i: usize = 0;
    while i < program.funcs.len()
        invariant
            i <= program.funcs.len() == old(program).funcs.len(),
            forall|k: int|
                0 <= k < old(program).funcs.len() ==> writable(
                    (#[trigger] old(program).funcs[k]).sem(),
                ),
            forall|k: int|
                0 <= k < i ==> (#[trigger] program.funcs[k]).sem() == applied(
                    old(program).funcs[k].sem(),
                ),
            forall|k: int|
                i <= k < program.funcs.len() ==> #[trigger] program.funcs[k]
                    == old(program).funcs[k],
            program.recursive == old(program).recursive,
            program.boxed == old(program).boxed,
            program.pure_natives == old(program).pure_natives,
            program.inlined == old(program).inlined,
        decreases program.funcs.len() - i,
    {
        assert(program.funcs[i as int] == old(program).funcs[i as int]);
        apply_fn(&mut program.funcs[i]);
        i += 1;
    }
}

/// Every list of a program whose writes could be made in place.
pub fn candidates(program: &Program) -> (r: Vec<Candidate>)
    requires
        forall|i: int|
            0 <= i < program.funcs.len() ==> blocks_wf((#[trigger] program.funcs[i]).sem())
                && values_wf(program.funcs[i].sem()),
    ensures
        sems(r@) == candidates_in(sems(program.funcs@), program.funcs.len() as int),
{
    let ghost fs = sems(program.funcs@);
    let mut r: Vec<Candidate> = Vec::new();
    let mut i: usize = 0;
    assert(sems(r@) =~= candidates_in(fs, 0));
    while i < program.funcs.len()
        invariant
            i <= program.funcs.len(),
            fs == sems(program.funcs@),
            forall|i: int|
                0 <= i < program.funcs.len() ==> blocks_wf((#[trigger] program.funcs[i]).sem())
                    && values_wf(program.funcs[i].sem()),
            sems(r@) == candidates_in(fs, i as int),
        decreases program.funcs.len() - i,
    {
        let f = &program.funcs[i];
        assert(fs[i as int] == f.sem());
        let ps = plans_of(f);
        let ghost before = sems(r@);
        let ghost more = func_candidates(f.sem());
        let mut k: usize = 0;
        assert(sems(r@) =~= before + more.take(0));
        while k < ps.len()
            invariant
                k <= ps.len() == more.len(),
                sems(ps@) == all_plans(f.sem()),
                more == func_candidates(f.sem()),
                blocks_wf(f.sem()),
                forall|i: int|
                    0 <= i < ps.len() ==> plan_in_range(f.sem(), (#[trigger] ps[i]).sem()),
                sems(r@) == before + more.take(k as int),
            decreases ps.len() - k,
        {
            let p = &ps[k];
            assert(plan_in_range(f.sem(), ps[k as int].sem()));
            assert(all_plans(f.sem())[k as int] == p.sem());
            let c = Candidate {
                func: f.name.clone(),
                header: BlockId(p.header as u32),
                param: p.param,
                writes: p.sites.len(),
                scalar: p.scalar,
            };
            assert(c.sem() == more[k as int]);
            let ghost was = r@;
            r.push(c);
            assert(sems(r@) =~= sems(was).push(c.sem()));
            k += 1;
            assert(sems(r@) =~= before + more.take(k as int));
        }
        assert(more.take(k as int) =~= more);
        i += 1;
    }
    r
}

// ---- for reports ----

/// The write that an instruction is: its result, and the list that it is given.
pub open spec fn set_of(i: SInst) -> Option<(Value, Value)> {
    match (i.op, i.result) {
        (SOp::Call { func, args }, Some(r)) => if names_set(func) && args.len() == 3 {
            Some((r, args[0]))
        } else {
            None
        },
        _ => None,
    }
}

/// The writes among the first `n` instructions.
pub open spec fn sets_in(is: Seq<SInst>, n: int) -> Seq<(Value, Value)>
    decreases n,
{
    if n <= 0 {
        seq![]
    } else {
        match set_of(is[n - 1]) {
            Some(w) => sets_in(is, n - 1).push(w),
            None => sets_in(is, n - 1),
        }
    }
}

/// The writes in the first `n` blocks.
pub open spec fn sets(f: SFunc, n: int) -> Seq<(Value, Value)>
    decreases n,
{
    if n <= 0 {
        seq![]
    } else {
        sets(f, n - 1) + sets_in(f.blocks[n - 1].insts, f.blocks[n - 1].insts.len() as int)
    }
}

/// The writes of a function: the result of each, and the list that it is given.
pub fn debug_sets(f: &Func) -> (r: Vec<(Value, Value)>)
    ensures
        r@ == sets(f.sem(), f.blocks.len() as int),
{
    let ghost s = f.sem();
    let mut r: Vec<(Value, Value)> = Vec::new();
    let mut b: usize = 0;
    while b < f.blocks.len()
        invariant
            b <= f.blocks.len(),
            s == f.sem(),
            r@ == sets(s, b as int),
        decreases f.blocks.len() - b,
    {
        let ghost x = s.blocks[b as int];
        assert(x == f.blocks[b as int].sem());
        let ghost before = r@;
        let mut k: usize = 0;
        assert(r@ =~= before + sets_in(x.insts, 0));
        while k < f.blocks[b].insts.len()
            invariant
                b < f.blocks.len(),
                x == f.blocks[b as int].sem(),
                k <= f.blocks[b as int].insts.len(),
                r@ == before + sets_in(x.insts, k as int),
            decreases f.blocks[b as int].insts.len() - k,
        {
            let i = &f.blocks[b].insts[k];
            assert(x.insts[k as int] == i.sem());
            match (&i.op, i.result) {
                (Op::Call { func, args }, Some(v)) => if is_set(func) && args.len() == 3 {
                    r.push((v, args[0]));
                },
                _ => {},
            }
            k += 1;
            assert(r@ =~= before + sets_in(x.insts, k as int));
        }
        b += 1;
    }
    r
}

/// The back edges of a function, in the order in which they are found.
pub fn debug_back_edges(f: &Func) -> (r: Vec<(BlockId, BlockId)>)
    requires
        blocks_wf(f.sem()),
    ensures
        r.len() == back_edges(cfg(f.sem()), f.entry.0 as usize).len(),
        forall|k: int|
            0 <= k < r.len() ==> (#[trigger] r[k]).0.0 == back_edges(
                cfg(f.sem()),
                f.entry.0 as usize,
            )[k].0 && r[k].1.0 == back_edges(cfg(f.sem()), f.entry.0 as usize)[k].1,
{
    let ghost s = f.sem();
    let g = graph_of(f);
    assert(adj(g@).len() == g.len());
    let backs = find_back_edges(&g, f.entry.0 as usize);
    proof {
        back_edges_in_range(cfg(s), s.entry.0 as usize);
    }
    let mut r: Vec<(BlockId, BlockId)> = Vec::new();
    let mut i: usize = 0;
    while i < backs.len()
        invariant
            i <= backs.len(),
            blocks_wf(s),
            cfg(s).len() == s.blocks.len(),
            backs@ == back_edges(cfg(s), s.entry.0 as usize),
            forall|k: int|
                0 <= k < backs@.len() ==> (#[trigger] back_edges(cfg(s), s.entry.0 as usize)[k]).0
                    < cfg(s).len() && back_edges(cfg(s), s.entry.0 as usize)[k].1 < cfg(s).len(),
            r.len() == i,
            forall|k: int|
                0 <= k < i ==> (#[trigger] r[k]).0.0 == backs@[k].0 && r[k].1.0 == backs@[k].1,
        decreases backs.len() - i,
    {
        let e = backs[i];
        assert(back_edges(cfg(s), s.entry.0 as usize)[i as int].0 < cfg(s).len());
        r.push((BlockId(e.0 as u32), BlockId(e.1 as u32)));
        i += 1;
    }
    r
}

} // verus!
