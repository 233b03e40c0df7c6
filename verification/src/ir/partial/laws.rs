//! The stores that narrowing puts in name the fields that they write.

use super::{
    const_of, def_of, def_op, field_stores, last_def, last_def_in, lemma_minted_grows,
    lemma_more_ints, lemma_site_is_store, minted, minted_in, named_position, narrow_block,
    narrow_blocks, narrowable, narrowed, op_at, set_field_inplace, site_at, sort_fields, SPlace,
    SSite,
};
use crate::ir::refcount::balance::{lemma_made_counts, lemma_net_add, lemma_net_one, made, makes};
use crate::ir::ssa::{block_in_range, inst_in_range, SBlock, SFunc, SInst, SOp, Value};
use vstd::prelude::*;

verus! {

/// Whether an instruction stores one field of a record in a list.
pub open spec fn stores_field(i: SInst) -> bool {
    i.op matches SOp::Native { symbol, .. } && symbol == set_field_inplace()
}

/// A function that stores no single fields.
pub open spec fn stores_no_fields(f: SFunc) -> bool {
    forall|b: int, k: int|
        0 <= b < f.blocks.len() && 0 <= k < f.blocks[b].insts.len() ==> !stores_field(
            #[trigger] f.blocks[b].insts[k],
        )
}

/// The store of the `j`th field that changes at a place, whose position a value names.
pub open spec fn store_of(s: SSite, j: int, posv: Value) -> SInst {
    SInst {
        result: None,
        op: SOp::Native {
            symbol: set_field_inplace(),
            args: seq![s.list, s.index, posv, s.changed[j].1],
        },
    }
}

/// Whether an instruction is the store of the `j`th field that changes at a place.
pub open spec fn writes(f: SFunc, b: int, at: int, j: int, i: SInst) -> bool {
    &&& 0 <= at < f.blocks[b].insts.len()
    &&& site_at(f, SPlace { block: b, at }) is Some
    &&& 0 <= j < site_at(f, SPlace { block: b, at })->0.changed.len()
    &&& i.op matches SOp::Native { args, .. } && args.len() == 4 && i == store_of(
        site_at(f, SPlace { block: b, at })->0,
        j,
        args[2],
    )
}

/// Whether a constant and a store belong together.
spec fn pair(f: SFunc, b: int, p: SInst, i: SInst) -> bool {
    exists|at: int, j: int| #[trigger]
        writes(f, b, at, j, i) && p == (SInst {
            result: Some(i.op->Native_args[2]),
            op: SOp::ConstI64(site_at(f, SPlace { block: b, at })->0.changed[j].0 as i64),
        }) && i.op->Native_args[2].0 >= f.values.len()
}

spec fn paired(f: SFunc, b: int, is: Seq<SInst>) -> bool {
    forall|k: int|
        0 <= k < is.len() && stores_field(#[trigger] is[k]) ==> k > 0 && pair(
            f,
            b,
            is[k - 1],
            is[k],
        )
}

/// How often the first `n` blocks make a value.
spec fn total(bs: Seq<SBlock>, v: Value, n: int) -> int
    decreases n,
{
    if n <= 0 {
        0
    } else {
        total(bs, v, n - 1) + made(bs[n - 1].insts, v)
    }
}

proof fn lemma_total_update(bs: Seq<SBlock>, b: int, x: SBlock, v: Value, n: int)
    requires
        0 <= b < bs.len(),
        0 <= n <= bs.len(),
    ensures
        total(bs.update(b, x), v, n) == total(bs, v, n) + if b < n {
            made(x.insts, v) - made(bs[b].insts, v)
        } else {
            0
        },
    decreases n,
{
    if n > 0 {
        lemma_total_update(bs, b, x, v, n - 1);
    }
}

proof fn lemma_total_not_negative(bs: Seq<SBlock>, v: Value, n: int)
    ensures
        total(bs, v, n) >= 0,
    decreases n,
{
    if n > 0 {
        lemma_total_not_negative(bs, v, n - 1);
        lemma_made_counts(bs[n - 1].insts, v);
    }
}

proof fn lemma_total_none(bs: Seq<SBlock>, v: Value, n: int)
    requires
        n <= bs.len(),
        forall|b: int| 0 <= b < n ==> !makes((#[trigger] bs[b]).insts, v),
    ensures
        total(bs, v, n) == 0,
    decreases n,
{
    if n > 0 {
        lemma_total_none(bs, v, n - 1);
        lemma_made_counts(bs[n - 1].insts, v);
    }
}

proof fn lemma_last_def_in(is: Seq<SInst>, v: Value, k: int, n: int)
    requires
        0 <= k < n <= is.len(),
        is[k].result == Some(v),
        made(is.take(n), v) <= 1,
    ensures
        last_def_in(is, v, n) == Some(k),
    decreases n,
{
    assert(is.take(n).drop_last() =~= is.take(n - 1));
    assert(is.take(n).last() == is[n - 1]);
    if k < n - 1 {
        if is[n - 1].result == Some(v) {
            lemma_made_counts(is.take(n - 1), v);
            assert(is.take(n - 1)[k].result == Some(v));
        }
        lemma_last_def_in(is, v, k, n - 1);
    }
}

proof fn lemma_last_def(f: SFunc, v: Value, b: int, k: int, n: int)
    requires
        0 <= b < n <= f.blocks.len(),
        0 <= k < f.blocks[b].insts.len(),
        f.blocks[b].insts[k].result == Some(v),
        total(f.blocks, v, n) <= 1,
    ensures
        last_def(f, v, n) == Some(SPlace { block: b, at: k }),
    decreases n,
{
    let is = f.blocks[n - 1].insts;
    lemma_made_counts(is, v);
    lemma_total_not_negative(f.blocks, v, n - 1);
    assert(is.take(is.len() as int) =~= is);
    if b == n - 1 {
        lemma_last_def_in(is, v, k, is.len() as int);
    } else {
        lemma_made_at(f.blocks, v, b, k, n - 1);
        assert(!makes(is, v));
        lemma_no_last_def(is, v, is.len() as int);
        lemma_last_def(f, v, b, k, n - 1);
    }
}

proof fn lemma_made_at(bs: Seq<SBlock>, v: Value, b: int, k: int, n: int)
    requires
        0 <= b < n <= bs.len(),
        0 <= k < bs[b].insts.len(),
        bs[b].insts[k].result == Some(v),
    ensures
        total(bs, v, n) >= 1,
    decreases n,
{
    lemma_made_counts(bs[n - 1].insts, v);
    if b < n - 1 {
        lemma_made_at(bs, v, b, k, n - 1);
    } else {
        lemma_total_not_negative(bs, v, n - 1);
        assert(makes(bs[b].insts, v));
    }
}

proof fn lemma_no_last_def(is: Seq<SInst>, v: Value, n: int)
    requires
        n <= is.len(),
        !makes(is, v),
    ensures
        last_def_in(is, v, n) is None,
    decreases n,
{
    if n > 0 {
        lemma_no_last_def(is, v, n - 1);
        assert(is[n - 1].result != Some(v));
    }
}

/// What holds while stores are narrowed.
spec fn tidy(f: SFunc, g: SFunc) -> bool {
    &&& g.blocks.len() == f.blocks.len()
    &&& f.values.len() <= g.values.len()
    &&& forall|b: int| 0 <= b < f.blocks.len() ==> paired(f, b, (#[trigger] g.blocks[b]).insts)
    &&& forall|v: Value|
        v.0 >= f.values.len() ==> 0 <= #[trigger] total(g.blocks, v, g.blocks.len() as int) <= 1
    &&& forall|v: Value|
        v.0 >= g.values.len() ==> #[trigger] total(g.blocks, v, g.blocks.len() as int) == 0
}

proof fn lemma_stores(f: SFunc, b: int, at: int, next: int, k: int, v: Value)
    requires
        0 <= at < f.blocks[b].insts.len(),
        site_at(f, SPlace { block: b, at }) is Some,
        0 <= k <= site_at(f, SPlace { block: b, at })->0.changed.len(),
        f.values.len() <= next,
        next + k <= u32::MAX,
    ensures
        ({
            let is = field_stores(site_at(f, SPlace { block: b, at })->0, next, k);
            paired(f, b, is) && made(is, v) == if next <= v.0 < next + k {
                1int
            } else {
                0int
            }
        }),
    decreases k,
{
    let s = site_at(f, SPlace { block: b, at })->0;
    let is = field_stores(s, next, k);
    if k > 0 {
        lemma_stores(f, b, at, next, k - 1, v);
        let before = field_stores(s, next, k - 1);
        let posv = Value((next + k - 1) as u32);
        let p = SInst { result: Some(posv), op: SOp::ConstI64(s.changed[k - 1].0 as i64) };
        let i = store_of(s, k - 1, posv);
        assert(is =~= before + (seq![p] + seq![i]));
        lemma_net_add(before, seq![p] + seq![i], v);
        lemma_net_add(seq![p], seq![i], v);
        lemma_net_one(p, v);
        lemma_net_one(i, v);
        assert(writes(f, b, at, k - 1, i));
        assert(pair(f, b, p, i));
        assert forall|m: int| 0 <= m < is.len() && stores_field(#[trigger] is[m]) implies m > 0
            && pair(f, b, is[m - 1], is[m]) by {
            if m < before.len() {
                assert(is[m] == before[m]);
                assert(is[m - 1] == before[m - 1]);
            } else if m == before.len() {
                assert(is[m] == p);
            } else {
                assert(is[m] == i && is[m - 1] == p);
            }
        }
    }
}

proof fn lemma_narrowed_tidy(f: SFunc, g: SFunc, b: int, at: int)
    requires
        tidy(f, g),
        narrowable(f),
        0 <= b < f.blocks.len(),
        0 <= at < f.blocks[b].insts.len(),
        at < g.blocks[b].insts.len(),
        g.blocks[b].insts[at] == f.blocks[b].insts[at],
        site_at(f, SPlace { block: b, at }) is Some,
        g.values.len() + site_at(f, SPlace { block: b, at })->0.changed.len() <= u32::MAX,
    ensures
        tidy(f, narrowed(g, site_at(f, SPlace { block: b, at })->0)),
{
    let s = site_at(f, SPlace { block: b, at })->0;
    let h = narrowed(g, s);
    let next = g.values.len() as int;
    let k = s.changed.len() as int;
    lemma_site_is_store(f, SPlace { block: b, at });
    lemma_more_ints(g.values, g.values[s.index.0 as int].ty, k);
    let is = g.blocks[b].insts;
    let stores = field_stores(s, next, k);
    let (a, c) = (is.take(at), is.skip(at + 1));
    let new = a + stores + c;
    let old = is[at];
    assert(block_in_range(f.blocks[b], f.values.len()));
    assert(inst_in_range(f.blocks[b].insts[at], f.values.len()));
    assert(is =~= a + seq![old] + c);
    lemma_stores(f, b, at, next, k, Value(0));
    assert(paired(f, b, new)) by {
        assert(paired(f, b, is));
        assert forall|m: int| 0 <= m < new.len() && stores_field(#[trigger] new[m]) implies m > 0
            && pair(f, b, new[m - 1], new[m]) by {
            if m < a.len() {
                assert(new[m] == is[m]);
                assert(new[m - 1] == is[m - 1]);
            } else if m < a.len() + stores.len() {
                let j = m - a.len();
                assert(new[m] == stores[j]);
                assert(new[m - 1] == stores[j - 1]);
            } else {
                let j = m - a.len() - stores.len();
                assert(new[m] == is[at + 1 + j]);
                assert(pair(f, b, is[at + j], is[at + 1 + j]));
                if j > 0 {
                    assert(new[m - 1] == is[at + j]);
                }
            }
        }
    }
    assert forall|x: int| 0 <= x < f.blocks.len() implies paired(
        f,
        x,
        (#[trigger] h.blocks[x]).insts,
    ) by {
        if x != b {
            assert(paired(f, x, g.blocks[x].insts));
        }
    }
    let n = g.blocks.len() as int;
    assert forall|v: Value| v.0 >= f.values.len() implies (#[trigger] total(
        h.blocks,
        v,
        n,
    )) == total(g.blocks, v, n) + if next <= v.0 < next + k {
        1int
    } else {
        0int
    } by {
        lemma_stores(f, b, at, next, k, v);
        lemma_net_add(a + stores, c, v);
        lemma_net_add(a, stores, v);
        lemma_net_add(a + seq![old], c, v);
        lemma_net_add(a, seq![old], v);
        lemma_net_one(old, v);
        lemma_total_update(g.blocks, b, SBlock { insts: new, ..g.blocks[b] }, v, n);
    }
}

proof fn lemma_block_tidy(f: SFunc, g: SFunc, b: int, n: int)
    requires
        tidy(f, g),
        narrowable(f),
        0 <= b < f.blocks.len(),
        0 <= n <= f.blocks[b].insts.len(),
        n <= g.blocks[b].insts.len(),
        g.blocks[b].insts.take(n) == f.blocks[b].insts.take(n),
        g.values.len() + minted_in(f, b, n) <= u32::MAX,
    ensures
        tidy(f, narrow_block(f, g, b, n)),
        narrow_block(f, g, b, n).values.len() == g.values.len() + minted_in(f, b, n),
        forall|c: int|
            0 <= c < f.blocks.len() && c != b ==> #[trigger] narrow_block(f, g, b, n).blocks[c]
                == g.blocks[c],
    decreases n,
{
    if n > 0 {
        let p = SPlace { block: b, at: n - 1 };
        let (gi, fi) = (g.blocks[b].insts, f.blocks[b].insts);
        assert(gi.take(n)[n - 1] == gi[n - 1]);
        assert(fi.take(n)[n - 1] == fi[n - 1]);
        assert(gi.take(n).take(n - 1) =~= gi.take(n - 1));
        assert(fi.take(n).take(n - 1) =~= fi.take(n - 1));
        match site_at(f, p) {
            Some(s) => {
                lemma_site_is_store(f, p);
                lemma_narrowed_tidy(f, g, b, n - 1);
                lemma_more_ints(g.values, g.values[s.index.0 as int].ty, s.changed.len() as int);
                let h = narrowed(g, s);
                assert(h.blocks[b].insts.take(n - 1) =~= gi.take(n - 1));
                lemma_block_tidy(f, h, b, n - 1);
            },
            None => lemma_block_tidy(f, g, b, n - 1),
        }
    }
}

proof fn lemma_blocks_tidy(f: SFunc, n: int)
    requires
        narrowable(f),
        stores_no_fields(f),
        0 <= n <= f.blocks.len(),
    ensures
        tidy(f, narrow_blocks(f, n)),
        narrow_blocks(f, n).values.len() == f.values.len() + minted(f, n),
        forall|c: int|
            n <= c < f.blocks.len() ==> #[trigger] narrow_blocks(f, n).blocks[c] == f.blocks[c],
    decreases n,
{
    if n > 0 {
        lemma_blocks_tidy(f, n - 1);
        let g = narrow_blocks(f, n - 1);
        assert(g.blocks[n - 1] == f.blocks[n - 1]);
        lemma_minted_grows(f, n, f.blocks.len() as int);
        lemma_block_tidy(f, g, n - 1, f.blocks[n - 1].insts.len() as int);
    } else {
        assert forall|b: int| 0 <= b < f.blocks.len() implies paired(
            f,
            b,
            (#[trigger] f.blocks[b]).insts,
        ) by {
            assert forall|k: int| 0 <= k < f.blocks[b].insts.len() implies !stores_field(
                #[trigger] f.blocks[b].insts[k],
            ) by {}
        }
        assert forall|v: Value| v.0 >= f.values.len() implies (#[trigger] total(
            f.blocks,
            v,
            f.blocks.len() as int,
        )) == 0 by {
            assert forall|b: int| 0 <= b < f.blocks.len() implies !makes(
                (#[trigger] f.blocks[b]).insts,
                v,
            ) by {
                assert(block_in_range(f.blocks[b], f.values.len()));
                assert forall|k: int| 0 <= k < f.blocks[b].insts.len() implies (
                #[trigger] f.blocks[b].insts[k]).result != Some(v) by {
                    assert(inst_in_range(f.blocks[b].insts[k], f.values.len()));
                }
            }
            lemma_total_none(f.blocks, v, f.blocks.len() as int);
        }
    }
}

proof fn lemma_positions(f: SFunc, fields: Seq<(Seq<char>, Value)>, n: int)
    ensures
        forall|j: int|
            0 <= j < sort_fields(f, fields, n).0.len() ==> 0 <= (#[trigger] sort_fields(
                f,
                fields,
                n,
            ).0[j]).0 < n,
    decreases n,
{
    if n > 0 {
        lemma_positions(f, fields, n - 1);
        let before = sort_fields(f, fields, n - 1).0;
        let all = sort_fields(f, fields, n).0;
        assert forall|j: int| 0 <= j < all.len() implies 0 <= (#[trigger] all[j]).0 < n by {
            if j < before.len() {
                assert(all[j] == before[j]);
            }
        }
    }
}

proof fn lemma_site_positions(f: SFunc, p: SPlace, j: int)
    requires
        site_at(f, p) is Some,
        0 <= j < site_at(f, p)->0.changed.len(),
    ensures
        site_at(f, p)->0.changed[j].0 >= 0,
{
    let args = op_at(f, p)->Native_args;
    let fields = def_op(f, args[2])->0->MakeRecord_fields;
    lemma_positions(f, fields, fields.len() as int);
}

/// Every store of a single field that narrowing puts in has four operands, and names the
/// position of the field that it writes: it is the store of a field that changes at a place
/// where a whole record was stored, and that field's position is what is read back.
pub proof fn stores_name_the_fields_they_write(f: SFunc, b: int, k: int) -> (r: (int, int))
    requires
        narrowable(f),
        stores_no_fields(f),
        0 <= b < f.blocks.len(),
        0 <= k < super::applied(f).blocks[b].insts.len(),
        stores_field(super::applied(f).blocks[b].insts[k]),
    ensures
        ({
            let i = super::applied(f).blocks[b].insts[k];
            let (at, j) = r;
            &&& writes(f, b, at, j, i)
            &&& named_position(
                super::applied(f),
                set_field_inplace(),
                i.op->Native_args,
            ) == Some(site_at(f, SPlace { block: b, at })->0.changed[j].0)
        }),
{
    let g = super::applied(f);
    let n = f.blocks.len() as int;
    lemma_blocks_tidy(f, n);
    let is = g.blocks[b].insts;
    assert(paired(f, b, is));
    let (p, i) = (is[k - 1], is[k]);
    assert(pair(f, b, p, i));
    let (at, j) = choose|at: int, j: int| #[trigger]
        writes(f, b, at, j, i) && p == (SInst {
            result: Some(i.op->Native_args[2]),
            op: SOp::ConstI64(site_at(f, SPlace { block: b, at })->0.changed[j].0 as i64),
        }) && i.op->Native_args[2].0 >= f.values.len();
    let v = i.op->Native_args[2];
    assert(total(g.blocks, v, g.blocks.len() as int) <= 1);
    lemma_last_def(g, v, b, k - 1, g.blocks.len() as int);
    assert(def_of(g, v) == Some(SPlace { block: b, at: k - 1 }));
    let pos = site_at(f, SPlace { block: b, at })->0.changed[j].0;
    lemma_site_positions(f, SPlace { block: b, at }, j);
    assert(super::nameable(pos));
    assert(const_of(g, v) == Some(pos as i64));
    (at, j)
}

} // verus!
