//! What is counted, and what only looks into something that is.

use super::balance::is_view;
use super::{base_of, context_of, counted_values, views_of_blocks, views_of_insts, with_view};
use crate::ir::repr::{is_counted, some_counted, some_field_counted, SRepr};
use crate::ir::ssa::{block_in_range, inst_in_range, operands, values_wf, SFunc, SInst, SOp, Value};
use vstd::prelude::*;

verus! {

/// What the result of an operation is a part of, or the same as, if it is: a field, an
/// element, what a cast is of, and what was wrapped as a value or an error. Such a result
/// comes without a reference of its own.
pub open spec fn part_of(op: SOp) -> Option<Value> {
    match op {
        SOp::Field { base, .. } => Some(base),
        SOp::Elem { base, .. } => Some(base),
        SOp::Cast(whole) => Some(whole),
        SOp::UnwrapOk(whole) => Some(whole),
        SOp::UnwrapErr(whole) => Some(whole),
        _ => None,
    }
}

pub open spec fn is_counted_value(f: SFunc, v: Value) -> bool {
    v.0 < f.values.len() && is_counted(f.values[v.0 as int].repr)
}

/// Whether an instruction makes a counted value as a part of another.
pub open spec fn makes_part(f: SFunc, i: SInst, v: Value) -> bool {
    i.result == Some(v) && is_counted_value(f, v) && (part_of(i.op) matches Some(x)
        && is_counted_value(f, x))
}

proof fn lemma_insts_views(f: SFunc, base: Seq<Option<Value>>, is: Seq<SInst>, v: Value)
    requires
        base.len() == f.values.len(),
        v.0 < f.values.len(),
        forall|k: int| 0 <= k < is.len() ==> inst_in_range(#[trigger] is[k], f.values.len()),
    ensures
        views_of_insts(counted_values(f), base, is).len() == base.len(),
        views_of_insts(counted_values(f), base, is)[v.0 as int] is Some <==> base[v.0 as int] is Some
            || exists|k: int| 0 <= k < is.len() && makes_part(f, #[trigger] is[k], v),
    decreases is.len(),
{
    if is.len() > 0 {
        let before = is.drop_last();
        assert forall|k: int| 0 <= k < before.len() implies inst_in_range(
            #[trigger] before[k],
            f.values.len(),
        ) by {
            assert(before[k] == is[k]);
        }
        lemma_insts_views(f, base, before, v);
        let i = is[is.len() - 1];
        assert(inst_in_range(i, f.values.len()));
        let a = views_of_insts(counted_values(f), base, before);
        let b = views_of_insts(counted_values(f), base, is);
        if let Some(x) = part_of(i.op) {
            assert(operands(i.op)[0] == x);
        }
        assert(b == with_view(counted_values(f), a, i));
        if exists|k: int| 0 <= k < before.len() && makes_part(f, #[trigger] before[k], v) {
            let k = choose|k: int| 0 <= k < before.len() && makes_part(f, #[trigger] before[k], v);
            assert(makes_part(f, is[k], v));
        }
        if exists|k: int| 0 <= k < is.len() && makes_part(f, #[trigger] is[k], v) {
            let k = choose|k: int| 0 <= k < is.len() && makes_part(f, #[trigger] is[k], v);
            if k < before.len() {
                assert(makes_part(f, before[k], v));
            }
        }
        assert(b[v.0 as int] is Some <==> a[v.0 as int] is Some || makes_part(f, i, v));
    }
}

proof fn lemma_blocks_views(f: SFunc, n: int, v: Value)
    requires
        values_wf(f),
        n <= f.blocks.len(),
        v.0 < f.values.len(),
    ensures
        views_of_blocks(f, n).len() == f.values.len(),
        views_of_blocks(f, n)[v.0 as int] is Some <==> exists|b: int, k: int|
            0 <= b < n && 0 <= k < f.blocks[b].insts.len() && makes_part(
                f,
                #[trigger] f.blocks[b].insts[k],
                v,
            ),
    decreases n,
{
    if n > 0 {
        lemma_blocks_views(f, n - 1, v);
        assert(block_in_range(f.blocks[n - 1], f.values.len()));
        lemma_insts_views(f, views_of_blocks(f, n - 1), f.blocks[n - 1].insts, v);
    }
}

/// The views are the counted values that some instruction makes as parts of others; all other
/// counted values come with a reference of their own.
pub proof fn views_are_parts(f: SFunc, v: Value)
    requires
        values_wf(f),
        v.0 < f.values.len(),
    ensures
        is_view(context_of(f), v) <==> exists|b: int, k: int|
            0 <= b < f.blocks.len() && 0 <= k < f.blocks[b].insts.len() && makes_part(
                f,
                #[trigger] f.blocks[b].insts[k],
                v,
            ),
        context_of(f).counted[v.0 as int] == is_counted_value(f, v),
{
    lemma_blocks_views(f, f.blocks.len() as int, v);
    assert(context_of(f).base == base_of(f));
}

/// Whether a value of a layout is a pointer to something on the heap.
pub open spec fn is_heap(r: SRepr) -> bool {
    r is Str || r is List || r is Mapping || r is Runtime || r is Closure || r is BoxedRec || r is Any
        || r is Recursive
}

/// What a value of a layout is made of, side by side.
pub open spec fn made_of(r: SRepr, x: SRepr) -> bool {
    match r {
        SRepr::Union(rs) => rs.contains(x),
        SRepr::Tuple(rs) => rs.contains(x),
        SRepr::Record { fields, .. } => exists|i: int|
            0 <= i < fields.len() && (#[trigger] fields[i]).1 == x,
        SRepr::Nullable(inner) => *inner == x,
        _ => false,
    }
}

proof fn lemma_some_counted(rs: Seq<SRepr>, n: int)
    requires
        0 <= n <= rs.len(),
    ensures
        some_counted(rs, n) <==> exists|i: int| 0 <= i < n && is_counted(#[trigger] rs[i]),
    decreases n,
{
    if n > 0 {
        lemma_some_counted(rs, n - 1);
    }
}

proof fn lemma_some_field_counted(fs: Seq<(Seq<char>, SRepr)>, n: int)
    requires
        0 <= n <= fs.len(),
    ensures
        some_field_counted(fs, n) <==> exists|i: int| 0 <= i < n && is_counted((#[trigger] fs[i]).1),
    decreases n,
{
    if n > 0 {
        lemma_some_field_counted(fs, n - 1);
    }
}

/// A layout is counted just where a value of it is a pointer, or one of the parts that it is
/// made of is counted.
pub proof fn counted_is_what_holds_a_pointer(r: SRepr)
    ensures
        is_counted(r) <==> is_heap(r) || exists|x: SRepr| made_of(r, x) && is_counted(x),
{
    match r {
        SRepr::Union(rs) | SRepr::Tuple(rs) => {
            lemma_some_counted(rs, rs.len() as int);
            if some_counted(rs, rs.len() as int) {
                let i = choose|i: int| 0 <= i < rs.len() && is_counted(#[trigger] rs[i]);
                assert(made_of(r, rs[i]));
            }
            if exists|x: SRepr| made_of(r, x) && is_counted(x) {
                let x = choose|x: SRepr| made_of(r, x) && is_counted(x);
                let i = choose|i: int| 0 <= i < rs.len() && rs[i] == x;
                assert(is_counted(rs[i]));
            }
        },
        SRepr::Record { fields, .. } => {
            lemma_some_field_counted(fields, fields.len() as int);
            if some_field_counted(fields, fields.len() as int) {
                let i = choose|i: int| 0 <= i < fields.len() && is_counted((#[trigger] fields[i]).1);
                assert(made_of(r, fields[i].1));
            }
            if exists|x: SRepr| made_of(r, x) && is_counted(x) {
                let x = choose|x: SRepr| made_of(r, x) && is_counted(x);
                let i = choose|i: int| 0 <= i < fields.len() && (#[trigger] fields[i]).1 == x;
                assert(is_counted(fields[i].1));
            }
        },
        SRepr::Nullable(inner) => {
            if is_counted(*inner) {
                assert(made_of(r, *inner));
            }
        },
        _ => {},
    }
}

} // verus!
