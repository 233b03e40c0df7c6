//! What narrowing gives is well-formed.

use super::{
    def_of, field_stores, last_def, last_def_in, minted, minted_in, more_ints, narrow_block,
    narrow_blocks, narrowed, op_at, site_at, sort_fields, SPlace, SSite,
};
use crate::ir::ssa::{
    block_in_range, blocks_wf, inst_in_range, operands, term_in_range, values_wf, SFunc, SInst,
    SValueData, Value,
};
use crate::types::TyId;
use vstd::prelude::*;

verus! {

proof fn lemma_def_stands_in(is: Seq<SInst>, v: Value, n: int)
    requires
        n <= is.len(),
    ensures
        last_def_in(is, v, n) matches Some(k) ==> 0 <= k < n,
    decreases n,
{
    if n > 0 {
        lemma_def_stands_in(is, v, n - 1);
    }
}

proof fn lemma_def_stands(f: SFunc, v: Value, n: int)
    requires
        n <= f.blocks.len(),
    ensures
        last_def(f, v, n) matches Some(p) ==> 0 <= p.block < n && 0 <= p.at
            < f.blocks[p.block].insts.len(),
    decreases n,
{
    if n > 0 {
        let is = f.blocks[n - 1].insts;
        lemma_def_stands_in(is, v, is.len() as int);
        lemma_def_stands(f, v, n - 1);
    }
}

/// A store whose list, index and fields are values that a function has.
spec fn site_below(s: SSite, n: nat) -> bool {
    &&& s.list.0 < n
    &&& s.index.0 < n
    &&& forall|j: int| 0 <= j < s.changed.len() ==> (#[trigger] s.changed[j]).1.0 < n
}

proof fn lemma_changed_below(f: SFunc, fields: Seq<(Seq<char>, Value)>, n: int, m: nat)
    requires
        n <= fields.len(),
        forall|j: int| 0 <= j < fields.len() ==> (#[trigger] fields[j]).1.0 < m,
    ensures
        forall|j: int|
            0 <= j < sort_fields(f, fields, n).0.len() ==> (#[trigger] sort_fields(
                f,
                fields,
                n,
            ).0[j]).1.0 < m,
    decreases n,
{
    if n > 0 {
        lemma_changed_below(f, fields, n - 1, m);
        let before = sort_fields(f, fields, n - 1).0;
        let all = sort_fields(f, fields, n).0;
        assert(fields[n - 1].1.0 < m);
        assert forall|j: int| 0 <= j < all.len() implies (#[trigger] all[j]).1.0 < m by {
            if j < before.len() {
                assert(all[j] == before[j]);
            }
        }
    }
}

proof fn lemma_site_below(f: SFunc, b: int, k: int)
    requires
        values_wf(f),
        0 <= b < f.blocks.len(),
        0 <= k < f.blocks[b].insts.len(),
    ensures
        site_at(f, SPlace { block: b, at: k }) matches Some(s) ==> site_below(s, f.values.len())
            && s.place == (SPlace { block: b, at: k }),
{
    let n = f.values.len();
    if let Some(s) = site_at(f, SPlace { block: b, at: k }) {
        assert(block_in_range(f.blocks[b], n));
        assert(inst_in_range(f.blocks[b].insts[k], n));
        let args = op_at(f, s.place)->Native_args;
        assert(operands(f.blocks[b].insts[k].op) == args);
        assert(args[0].0 < n && args[1].0 < n);
        lemma_def_stands(f, args[2], f.blocks.len() as int);
        let p = def_of(f, args[2])->0;
        assert(block_in_range(f.blocks[p.block], n));
        assert(inst_in_range(f.blocks[p.block].insts[p.at], n));
        let op = op_at(f, p);
        let fields = op->MakeRecord_fields;
        assert forall|j: int| 0 <= j < fields.len() implies (#[trigger] fields[j]).1.0 < n by {
            assert(operands(op)[j] == fields[j].1);
        }
        lemma_changed_below(f, fields, fields.len() as int, n);
    }
}

proof fn lemma_stores_below(s: SSite, next: int, n: int, m: nat)
    requires
        0 <= n <= s.changed.len(),
        site_below(s, m),
        0 <= next,
        next + n <= m <= u32::MAX,
    ensures
        field_stores(s, next, n).len() == 2 * n,
        forall|k: int|
            0 <= k < field_stores(s, next, n).len() ==> inst_in_range(
                #[trigger] field_stores(s, next, n)[k],
                m,
            ),
    decreases n,
{
    if n > 0 {
        lemma_stores_below(s, next, n - 1, m);
        let before = field_stores(s, next, n - 1);
        let all = field_stores(s, next, n);
        assert(s.changed[n - 1].1.0 < m);
        assert forall|k: int| 0 <= k < all.len() implies inst_in_range(#[trigger] all[k], m) by {
            if k < before.len() {
                assert(all[k] == before[k]);
            } else if k == before.len() {
                assert(all[k].op is ConstI64);
            } else {
                assert(all[k].op is Native);
            }
        }
    }
}

proof fn lemma_more_ints(values: Seq<SValueData>, ty: TyId, n: int)
    requires
        0 <= n,
    ensures
        more_ints(values, ty, n).len() == values.len() + n,
    decreases n,
{
    if n > 0 {
        lemma_more_ints(values, ty, n - 1);
    }
}

proof fn lemma_narrowed_wf(g: SFunc, s: SSite)
    requires
        blocks_wf(g),
        values_wf(g),
        0 <= s.place.block < g.blocks.len(),
        0 <= s.place.at < g.blocks[s.place.block].insts.len(),
        site_below(s, g.values.len()),
        g.values.len() + s.changed.len() <= u32::MAX,
    ensures
        blocks_wf(narrowed(g, s)),
        values_wf(narrowed(g, s)),
        narrowed(g, s).blocks.len() == g.blocks.len(),
        narrowed(g, s).values.len() == g.values.len() + s.changed.len(),
        narrowed(g, s).blocks[s.place.block].insts.len() >= s.place.at,
        forall|c: int|
            0 <= c < g.blocks.len() && c != s.place.block ==> #[trigger] narrowed(g, s).blocks[c]
                == g.blocks[c],
{
    let h = narrowed(g, s);
    let (m, n) = (g.values.len(), h.values.len());
    let count = s.changed.len() as int;
    lemma_more_ints(g.values, g.values[s.index.0 as int].ty, count);
    let more = field_stores(s, m as int, count);
    assert(site_below(s, n));
    lemma_stores_below(s, m as int, count, n);
    assert forall|b: int| 0 <= b < h.blocks.len() implies block_in_range(
        #[trigger] h.blocks[b],
        n,
    ) by {
        let (x, y) = (g.blocks[b], h.blocks[b]);
        assert(block_in_range(x, m));
        assert forall|k: int| 0 <= k < y.insts.len() implies inst_in_range(
            #[trigger] y.insts[k],
            n,
        ) by {
            if b != s.place.block || k < s.place.at {
                assert(y.insts[k] == x.insts[k]);
                assert(inst_in_range(x.insts[k], m));
            } else if k < s.place.at + more.len() {
                assert(y.insts[k] == more[k - s.place.at]);
            } else {
                let j = k - more.len() + 1;
                assert(y.insts[k] == x.insts[j]);
                assert(inst_in_range(x.insts[j], m));
            }
        }
    }
    assert forall|b: int| 0 <= b < h.blocks.len() implies (#[trigger] h.blocks[b]).id.0 == b
        && term_in_range(h.blocks[b].term, h.blocks.len()) by {
        assert(g.blocks[b].id.0 == b);
        assert(h.blocks[b].term == g.blocks[b].term);
    }
}

proof fn lemma_narrow_block_wf(f: SFunc, g: SFunc, b: int, n: int)
    requires
        values_wf(f),
        blocks_wf(g),
        values_wf(g),
        0 <= b < f.blocks.len(),
        n <= f.blocks[b].insts.len(),
        g.blocks.len() == f.blocks.len(),
        g.blocks[b].insts.len() >= n,
        g.values.len() >= f.values.len(),
        g.values.len() + minted_in(f, b, n) <= u32::MAX,
    ensures
        ({
            let h = narrow_block(f, g, b, n);
            &&& blocks_wf(h)
            &&& values_wf(h)
            &&& h.blocks.len() == f.blocks.len()
            &&& h.values.len() == g.values.len() + minted_in(f, b, n)
            &&& forall|c: int|
                0 <= c < f.blocks.len() && c != b ==> #[trigger] h.blocks[c] == g.blocks[c]
        }),
    decreases n,
{
    if n > 0 {
        match site_at(f, SPlace { block: b, at: n - 1 }) {
            Some(s) => {
                lemma_site_below(f, b, n - 1);
                let x = narrowed(g, s);
                lemma_narrowed_wf(g, s);
                lemma_narrow_block_wf(f, x, b, n - 1);
                let h = narrow_block(f, x, b, n - 1);
                assert forall|c: int| 0 <= c < f.blocks.len() && c != b implies
                    #[trigger] h.blocks[c] == g.blocks[c] by {
                    assert(x.blocks[c] == g.blocks[c]);
                }
            },
            None => lemma_narrow_block_wf(f, g, b, n - 1),
        }
    }
}

/// The first blocks of a function narrowed are well-formed.
pub proof fn lemma_narrow_blocks_wf(f: SFunc, n: int)
    requires
        blocks_wf(f),
        values_wf(f),
        0 <= n <= f.blocks.len(),
        f.values.len() + minted(f, n) <= u32::MAX,
    ensures
        blocks_wf(narrow_blocks(f, n)),
        values_wf(narrow_blocks(f, n)),
        narrow_blocks(f, n).blocks.len() == f.blocks.len(),
        narrow_blocks(f, n).values.len() == f.values.len() + minted(f, n),
        forall|c: int| n <= c < f.blocks.len() ==> narrow_blocks(f, n).blocks[c] == f.blocks[c],
    decreases n,
{
    if n > 0 {
        lemma_narrow_blocks_wf(f, n - 1);
        let g = narrow_blocks(f, n - 1);
        assert(g.blocks[n - 1] == f.blocks[n - 1]);
        lemma_narrow_block_wf(f, g, n - 1, f.blocks[n - 1].insts.len() as int);
    }
}

} // verus!
