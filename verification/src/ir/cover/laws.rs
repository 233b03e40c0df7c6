//! Why a check that is covered could not have fired.

use super::{
    access_at, accesses, accesses_in, available, carried_out, comes_first, covered, entering,
    flag_from, test_of, with_flag, with_test, Test, coverer_from, covers, is_header, plans,
    plans_in, preheader_of, serves, taken, Access, Plan,
};
use crate::ir::cfg::{cfg, in_loop, preds, preds_wf};
use crate::ir::ssa::{SFunc, SInst, SOp, Value};
use vstd::prelude::*;

verus! {

/// Whether a read is a checked read of a list that stands in the loop of a header.
pub open spec fn stands(f: SFunc, header: int, a: Access) -> bool {
    &&& a.block < f.blocks.len()
    &&& a.at < f.blocks[a.block as int].insts.len()
    &&& access_at(f, a.block as int, a.at as int) == Some(a)
    &&& in_loop(cfg(f), f.entry.0 as int, header, a.block as int)
}

pub open spec fn covered_read(p: Plan) -> Access {
    Access { block: p.block, at: p.at, base: p.base, index: p.index }
}

pub open spec fn covering_read(p: Plan) -> Access {
    Access { block: p.by.0, at: p.by.1, base: p.coverer, index: p.index }
}

/// Whether a plan covers a read in the loop of a header by one that has been made before it
/// with the same index, over lists that are there before the loop is entered, at its one
/// entry, and stay throughout.
pub open spec fn is_backed(f: SFunc, header: int, p: Plan) -> bool {
    &&& 0 <= header < f.blocks.len()
    &&& is_header(f, header)
    &&& preheader_of(f, header) == Some(p.preheader)
    &&& stands(f, header, covered_read(p))
    &&& stands(f, header, covering_read(p))
    &&& p.coverer != p.base
    &&& comes_first(f, covering_read(p), covered_read(p))
    &&& available(f, header, p.preheader as int, p.base)
    &&& available(f, header, p.preheader as int, p.coverer)
}

spec fn backed(f: SFunc, p: Plan) -> bool {
    exists|h: int| is_backed(f, h, p)
}

/// Plans each of which is backed, by a read that no plan covers.
spec fn all_backed(f: SFunc, ps: Seq<Plan>) -> bool {
    &&& forall|i: int| 0 <= i < ps.len() ==> backed(f, #[trigger] ps[i])
    &&& forall|i: int, j: int|
        0 <= i < ps.len() && 0 <= j < ps.len() ==> (#[trigger] ps[i]).by != (
            (#[trigger] ps[j]).block,
            ps[j].at,
        )
}

spec fn all_stand(f: SFunc, header: int, xs: Seq<Access>) -> bool {
    forall|i: int| 0 <= i < xs.len() ==> stands(f, header, #[trigger] xs[i])
}

proof fn lemma_accesses_in(f: SFunc, header: int, b: int, n: int)
    requires
        0 <= b < f.blocks.len() <= usize::MAX,
        n <= f.blocks[b].insts.len() <= usize::MAX,
        in_loop(cfg(f), f.entry.0 as int, header, b),
    ensures
        all_stand(f, header, accesses_in(f, b, n)),
    decreases n,
{
    if n > 0 {
        lemma_accesses_in(f, header, b, n - 1);
    }
}

proof fn lemma_accesses(f: SFunc, header: int, n: int)
    requires
        n <= f.blocks.len() <= usize::MAX,
        forall|b: int|
            0 <= b < f.blocks.len() ==> (#[trigger] f.blocks[b]).insts.len() <= usize::MAX,
    ensures
        all_stand(f, header, accesses(f, header, n)),
    decreases n,
{
    if n > 0 {
        lemma_accesses(f, header, n - 1);
        if in_loop(cfg(f), f.entry.0 as int, header, n - 1) {
            let m = f.blocks[n - 1].insts.len() as int;
            lemma_accesses_in(f, header, n - 1, m);
            let (a, b) = (accesses(f, header, n - 1), accesses_in(f, n - 1, m));
            let all = accesses(f, header, n);
            assert forall|i: int| 0 <= i < all.len() implies stands(
                f,
                header,
                #[trigger] all[i],
            ) by {
                if i < a.len() {
                    assert(all[i] == a[i]);
                } else {
                    assert(all[i] == b[i - a.len()]);
                }
            }
        }
    }
}

proof fn lemma_coverer(
    f: SFunc,
    header: int,
    preheader: int,
    ps: Seq<Plan>,
    xs: Seq<Access>,
    b: Access,
    k: int,
)
    requires
        0 <= k,
    ensures
        coverer_from(f, header, preheader, ps, xs, b, k) matches Some(j) ==> 0 <= j < xs.len()
            && covers(f, header, preheader, ps, xs[j], b),
    decreases xs.len() - k,
{
    if k < xs.len() {
        lemma_coverer(f, header, preheader, ps, xs, b, k + 1);
    }
}

proof fn lemma_plans_in(
    f: SFunc,
    header: int,
    preheader: usize,
    ps: Seq<Plan>,
    xs: Seq<Access>,
    n: int,
)
    requires
        0 <= header < f.blocks.len(),
        is_header(f, header),
        preheader_of(f, header) == Some(preheader),
        all_stand(f, header, xs),
        n <= xs.len(),
        all_backed(f, ps),
    ensures
        all_backed(f, plans_in(f, header, preheader as int, ps, xs, n)),
    decreases n,
{
    if n > 0 {
        lemma_plans_in(f, header, preheader, ps, xs, n - 1);
        let before = plans_in(f, header, preheader as int, ps, xs, n - 1);
        let all = plans_in(f, header, preheader as int, ps, xs, n);
        let b = xs[n - 1];
        lemma_coverer(f, header, preheader as int, before, xs, b, 0);
        if all != before {
            let a = xs[coverer_from(f, header, preheader as int, before, xs, b, 0)->0];
            let p = all.last();
            assert(all == before.push(p));
            assert(stands(f, header, a) && stands(f, header, b));
            assert(covered_read(p) == b);
            assert(covering_read(p) == a);
            assert(is_backed(f, header, p));
            assert(backed(f, p));
            assert forall|i: int| 0 <= i < all.len() implies backed(f, #[trigger] all[i]) by {
                if i < before.len() {
                    assert(all[i] == before[i]);
                }
            }
            assert forall|i: int, j: int| 0 <= i < all.len() && 0 <= j < all.len() implies (
            #[trigger] all[i]).by != ((#[trigger] all[j]).block, all[j].at) by {
                if i < before.len() && j < before.len() {
                    assert(all[i] == before[i] && all[j] == before[j]);
                } else if i < before.len() {
                    assert(all[i] == before[i]);
                    assert(!serves(before, b));
                } else if j < before.len() {
                    assert(all[j] == before[j]);
                    assert(!taken(before, a));
                } else {
                    assert(a.base != b.base);
                    assert(a.block == b.block && a.at == b.at ==> a == b);
                }
            }
        }
    }
}

proof fn lemma_plans(f: SFunc, n: int)
    requires
        n <= f.blocks.len() <= usize::MAX,
        forall|b: int|
            0 <= b < f.blocks.len() ==> (#[trigger] f.blocks[b]).insts.len() <= usize::MAX,
    ensures
        all_backed(f, plans(f, n)),
    decreases n,
{
    if n > 0 {
        lemma_plans(f, n - 1);
        if let Some(p) = preheader_of(f, n - 1) {
            if is_header(f, n - 1) {
                let xs = accesses(f, n - 1, f.blocks.len() as int);
                lemma_accesses(f, n - 1, f.blocks.len() as int);
                lemma_plans_in(f, n - 1, p, plans(f, n - 1), xs, xs.len() as int);
            }
        }
    }
}

/// A read is covered only by one that has been made wherever it is made, in the same loop and
/// with the same index, whose own check stays. Both lists are there where the loop is entered,
/// at one place, and stay throughout. So where the list that is read is at least as long as
/// the other, its check could not have fired.
pub proof fn covered_checks_could_not_fire(f: SFunc, i: int) -> (header: int)
    requires
        f.blocks.len() <= usize::MAX,
        forall|b: int|
            0 <= b < f.blocks.len() ==> (#[trigger] f.blocks[b]).insts.len() <= usize::MAX,
        0 <= i < plans(f, f.blocks.len() as int).len(),
    ensures
        is_backed(f, header, plans(f, f.blocks.len() as int)[i]),
        !taken(
            plans(f, f.blocks.len() as int),
            covering_read(plans(f, f.blocks.len() as int)[i]),
        ),
{
    let ps = plans(f, f.blocks.len() as int);
    lemma_plans(f, f.blocks.len() as int);
    assert(backed(f, ps[i]));
    assert(!taken(ps, covering_read(ps[i])));
    choose|h: int| is_backed(f, h, ps[i])
}

// ---- what a flag says ----

/// Whether an instruction makes `v` the length of a list.
pub open spec fn measures(i: SInst, list: Value, v: Value) -> bool {
    &&& i.result == Some(v)
    &&& i.op matches SOp::Native { symbol, args }
    &&& symbol == "neon_list_len"@
    &&& args.len() == 1
    &&& args[0] == list
}

/// Whether an instruction makes `v` say that what `a` holds is at least what `b` holds.
pub open spec fn weighs(i: SInst, a: Value, b: Value, v: Value) -> bool {
    &&& i.result == Some(v)
    &&& i.op matches SOp::Prim(op, args)
    &&& op is Ge
    &&& args.len() == 2
    &&& args[0] == a
    &&& args[1] == b
}

/// Whether the instructions from `j` on make `flag` say that a list is at least as long as
/// another.
pub open spec fn tests_at(is: Seq<SInst>, j: int, long: Value, short: Value, flag: Value) -> bool {
    &&& 0 <= j && j + 2 < is.len()
    &&& is[j].result matches Some(x) && is[j + 1].result matches Some(y) && measures(is[j], short, x)
        && measures(is[j + 1], long, y) && weighs(is[j + 2], y, x, flag)
}

/// Whether a block makes a flag say that a list is at least as long as another.
pub open spec fn tests(is: Seq<SInst>, long: Value, short: Value, flag: Value) -> bool {
    exists|j: int| #[trigger] tests_at(is, j, long, short, flag)
}

proof fn lemma_tests_stay(is: Seq<SInst>, js: Seq<SInst>, long: Value, short: Value, flag: Value)
    requires
        tests(is, long, short, flag),
        is.len() <= js.len(),
        forall|k: int| 0 <= k < is.len() && !(is[k].op is Index) ==> #[trigger] js[k] == is[k],
    ensures
        tests(js, long, short, flag),
{
    let j = choose|j: int| #[trigger] tests_at(is, j, long, short, flag);
    assert(js[j] == is[j] && js[j + 1] == is[j + 1] && js[j + 2] == is[j + 2]);
    assert(tests_at(js, j, long, short, flag));
}

/// Blocks that only grew at their ends, but for the flags of reads.
spec fn grew(f: SFunc, g: SFunc) -> bool {
    &&& g.blocks.len() == f.blocks.len()
    &&& forall|b: int|
        0 <= b < f.blocks.len() ==> f.blocks[b].insts.len() <= (#[trigger] g.blocks[b]).insts.len()
    &&& forall|b: int, k: int|
        0 <= b < f.blocks.len() && 0 <= k < f.blocks[b].insts.len() && !(
        f.blocks[b].insts[k].op is Index) ==> #[trigger] g.blocks[b].insts[k] == f.blocks[b].insts[k]
}

proof fn lemma_flag_grew(f: SFunc, p: Plan, flag: Value)
    requires
        p.block < f.blocks.len(),
        p.at < f.blocks[p.block as int].insts.len(),
    ensures
        grew(f, with_flag(f, p, flag)),
{
}

proof fn lemma_test_grew(f: SFunc, p: Plan)
    requires
        p.preheader < f.blocks.len(),
        f.values.len() + 3 <= u32::MAX,
    ensures
        grew(f, with_test(f, p)),
        tests(
            with_test(f, p).blocks[p.preheader as int].insts,
            p.base,
            p.coverer,
            Value((f.values.len() + 2) as u32),
        ),
{
    let g = with_test(f, p);
    let (a, b) = (f.blocks[p.preheader as int].insts, g.blocks[p.preheader as int].insts);
    let t = test_of(p, f.values.len() as int);
    let j = a.len() as int;
    assert(b[j] == t[0] && b[j + 1] == t[1] && b[j + 2] == t[2]);
    assert(tests_at(b, j, p.base, p.coverer, Value((f.values.len() + 2) as u32)));
}

spec fn served(g: SFunc, ts: Seq<Test>) -> bool {
    forall|i: int|
        0 <= i < ts.len() ==> (#[trigger] ts[i]).preheader < g.blocks.len() && tests(
            g.blocks[ts[i].preheader as int].insts,
            ts[i].base,
            ts[i].coverer,
            ts[i].flag,
        )
}

proof fn lemma_served_grew(f: SFunc, g: SFunc, ts: Seq<Test>)
    requires
        served(f, ts),
        grew(f, g),
    ensures
        served(g, ts),
{
    assert forall|i: int| 0 <= i < ts.len() implies (#[trigger] ts[i]).preheader < g.blocks.len()
        && tests(
        g.blocks[ts[i].preheader as int].insts,
        ts[i].base,
        ts[i].coverer,
        ts[i].flag,
    ) by {
        let b = ts[i].preheader as int;
        lemma_tests_stay(
            f.blocks[b].insts,
            g.blocks[b].insts,
            ts[i].base,
            ts[i].coverer,
            ts[i].flag,
        );
    }
}

proof fn lemma_flag_serves(g: SFunc, ts: Seq<Test>, p: Plan, k: int)
    requires
        0 <= k,
        served(g, ts),
    ensures
        flag_from(ts, p, k) matches Some(flag) ==> p.preheader < g.blocks.len() && tests(
            g.blocks[p.preheader as int].insts,
            p.base,
            p.coverer,
            flag,
        ),
    decreases ts.len() - k,
{
    if k < ts.len() {
        assert(ts[k].preheader < g.blocks.len());
        lemma_flag_serves(g, ts, p, k + 1);
    }
}

/// Whether a read is flagged by what one of the first `n` plans asks for.
spec fn flagged_by(g: SFunc, ps: Seq<Plan>, n: int, b: int, k: int) -> bool {
    g.blocks[b].insts[k].op matches SOp::Index { base, index, covered: Some(flag) } ==> exists|i: int|
        #![trigger ps[i]]
        0 <= i < n && ps[i].block == b && ps[i].at == k && ps[i].preheader < g.blocks.len() && tests(
            g.blocks[ps[i].preheader as int].insts,
            ps[i].base,
            ps[i].coverer,
            flag,
        )
}

/// The reads of `f` that had no flag are flagged by plans.
spec fn all_flagged(f: SFunc, g: SFunc, ps: Seq<Plan>, n: int) -> bool {
    forall|b: int, k: int|
        0 <= b < f.blocks.len() && 0 <= k < f.blocks[b].insts.len() && (
        f.blocks[b].insts[k].op matches SOp::Index { covered, .. } && covered is None)
            ==> #[trigger] flagged_by(g, ps, n, b, k)
}

proof fn lemma_flagged_grew(f: SFunc, g: SFunc, h: SFunc, ps: Seq<Plan>, n: int, b: int, k: int)
    requires
        grew(g, h),
        flagged_by(g, ps, n, b, k),
        h.blocks[b].insts[k] == g.blocks[b].insts[k],
    ensures
        flagged_by(h, ps, n + 1, b, k),
{
    if let SOp::Index { base, index, covered: Some(flag) } = g.blocks[b].insts[k].op {
        let i = choose|i: int|
            #![trigger ps[i]]
            0 <= i < n && ps[i].block == b && ps[i].at == k && ps[i].preheader < g.blocks.len()
                && tests(
                g.blocks[ps[i].preheader as int].insts,
                ps[i].base,
                ps[i].coverer,
                flag,
            );
        let p = ps[i].preheader as int;
        lemma_tests_stay(
            g.blocks[p].insts,
            h.blocks[p].insts,
            ps[i].base,
            ps[i].coverer,
            flag,
        );
    }
}

proof fn lemma_all_flagged(f: SFunc, ps: Seq<Plan>, n: int)
    requires
        0 <= n <= ps.len(),
        carried_out(f, ps, n).0.values.len() <= u32::MAX,
        forall|i: int|
            0 <= i < ps.len() ==> (#[trigger] ps[i]).preheader < f.blocks.len() && ps[i].block
                < f.blocks.len() && ps[i].at < f.blocks[ps[i].block as int].insts.len(),
    ensures
        grew(f, carried_out(f, ps, n).0),
        served(carried_out(f, ps, n).0, carried_out(f, ps, n).1),
        all_flagged(f, carried_out(f, ps, n).0, ps, n),
    decreases n,
{
    if n > 0 {
        lemma_fewer_values(f, ps, n);
        lemma_all_flagged(f, ps, n - 1);
        let (g, ts) = carried_out(f, ps, n - 1);
        let (h, us) = carried_out(f, ps, n);
        let p = ps[n - 1];
        let (m, flag) = match flag_from(ts, p, 0) {
            Some(flag) => (g, flag),
            None => (with_test(g, p), Value((g.values.len() + 2) as u32)),
        };
        if flag_from(ts, p, 0) is None {
            lemma_test_grew(g, p);
        }
        lemma_served_grew(g, m, ts);
        lemma_flag_serves(g, ts, p, 0);
        assert(grew(g, m));
        assert(p.at < g.blocks[p.block as int].insts.len());
        assert(p.at < m.blocks[p.block as int].insts.len());
        lemma_flag_grew(m, p, flag);
        assert(h == with_flag(m, p, flag));
        assert(tests(m.blocks[p.preheader as int].insts, p.base, p.coverer, flag));
        lemma_served_grew(m, h, ts);
        lemma_tests_stay(
            m.blocks[p.preheader as int].insts,
            h.blocks[p.preheader as int].insts,
            p.base,
            p.coverer,
            flag,
        );
        assert(grew(g, h));
        assert(grew(f, h));
        assert forall|b: int, k: int|
            0 <= b < f.blocks.len() && 0 <= k < f.blocks[b].insts.len() && (
            f.blocks[b].insts[k].op matches SOp::Index { covered, .. } && covered is None)
            implies #[trigger] flagged_by(h, ps, n, b, k) by {
            assert(flagged_by(g, ps, n - 1, b, k));
            if b == p.block && k == p.at {
                if let SOp::Index { base, index, covered: Some(x) } = h.blocks[b].insts[k].op {
                    assert(x == flag);
                    assert(ps[n - 1] == p);
                }
            } else {
                assert(k < g.blocks[b].insts.len());
                assert(h.blocks[b].insts[k] == g.blocks[b].insts[k]);
                lemma_flagged_grew(f, g, h, ps, n - 1, b, k);
            }
        }
    } else {
        assert forall|b: int, k: int|
            0 <= b < f.blocks.len() && 0 <= k < f.blocks[b].insts.len() && (
            f.blocks[b].insts[k].op matches SOp::Index { covered, .. } && covered is None)
            implies #[trigger] flagged_by(f, ps, 0, b, k) by {}
    }
}

proof fn lemma_fewer_values(f: SFunc, ps: Seq<Plan>, n: int)
    requires
        n > 0,
    ensures
        carried_out(f, ps, n - 1).0.values.len() <= carried_out(f, ps, n).0.values.len(),
        flag_from(carried_out(f, ps, n - 1).1, ps[n - 1], 0) is None ==> carried_out(
            f,
            ps,
            n - 1,
        ).0.values.len() + 3 == carried_out(f, ps, n).0.values.len(),
{
}

proof fn lemma_entering_below(f: SFunc, h: int, n: int)
    requires
        f.blocks.len() <= usize::MAX,
        0 <= h < f.blocks.len(),
        n <= preds(cfg(f))[h].len(),
    ensures
        forall|k: int|
            0 <= k < entering(f, h, n).len() ==> (#[trigger] entering(f, h, n)[k]) < f.blocks.len(),
    decreases n,
{
    if n > 0 {
        lemma_entering_below(f, h, n - 1);
        preds_wf(cfg(f));
        assert(preds(cfg(f)).len() == f.blocks.len());
        assert(preds(cfg(f))[h][n - 1] < preds(cfg(f)).len());
        let before = entering(f, h, n - 1);
        let all = entering(f, h, n);
        assert forall|k: int| 0 <= k < all.len() implies (#[trigger] all[k]) < f.blocks.len() by {
            if k < before.len() {
                assert(all[k] == before[k]);
            }
        }
    }
}

/// The flag of a covered read says that its list is at least as long as that of the read that
/// covers it: both are measured where the loop is entered, and compared there.
pub proof fn flags_compare_lengths(f: SFunc, b: int, k: int) -> (i: int)
    requires
        f.blocks.len() <= usize::MAX,
        covered(f).values.len() <= u32::MAX,
        forall|c: int|
            0 <= c < f.blocks.len() ==> (#[trigger] f.blocks[c]).insts.len() <= usize::MAX,
        0 <= b < f.blocks.len(),
        0 <= k < f.blocks[b].insts.len(),
        f.blocks[b].insts[k].op matches SOp::Index { covered, .. } && covered is None,
        covered(f).blocks[b].insts[k].op matches SOp::Index { covered, .. } && covered is Some,
    ensures
        ({
            let ps = plans(f, f.blocks.len() as int);
            let g = covered(f);
            &&& 0 <= i < ps.len()
            &&& ps[i].block == b
            &&& ps[i].at == k
            &&& tests(
                g.blocks[ps[i].preheader as int].insts,
                ps[i].base,
                ps[i].coverer,
                g.blocks[b].insts[k].op->Index_covered->0,
            )
        }),
{
    let ps = plans(f, f.blocks.len() as int);
    let g = covered(f);
    lemma_plans(f, f.blocks.len() as int);
    assert forall|j: int| 0 <= j < ps.len() implies (#[trigger] ps[j]).preheader < f.blocks.len()
        && ps[j].block < f.blocks.len() && ps[j].at < f.blocks[ps[j].block as int].insts.len() by {
        assert(backed(f, ps[j]));
        let h = choose|h: int| is_backed(f, h, ps[j]);
        lemma_entering_below(f, h, preds(cfg(f))[h].len() as int);
    }
    lemma_all_flagged(f, ps, ps.len() as int);
    assert(flagged_by(g, ps, ps.len() as int, b, k));
    let flag = g.blocks[b].insts[k].op->Index_covered->0;
    choose|i: int|
        #![trigger ps[i]]
        0 <= i < ps.len() && ps[i].block == b && ps[i].at == k && ps[i].preheader < g.blocks.len()
            && tests(g.blocks[ps[i].preheader as int].insts, ps[i].base, ps[i].coverer, flag)
}

} // verus!
