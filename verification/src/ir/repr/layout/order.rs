//! The order of what a type admits.

use super::super::{
    by_rank, canonical, combine, distinct, lemma_distinct, lemma_distinct_of_distinct, of_rank,
    variant_rank, SRepr,
};
use super::{
    add_if, admitted, arrow_atoms_of, arrow_layout, arrow_layouts, base_scalars, components, is_top,
    layout, layouts, path_layout,
    records, scalars, tup_atoms_of, tuple_layout, tuple_layouts, Cut,
};
use crate::types::{Path, TyData, TyId, Types};
use vstd::prelude::*;

verus! {

/// Layouts in the order of their ranks, all of which are below `m`.
spec fn ranked(rs: Seq<SRepr>, m: int) -> bool {
    &&& forall|i: int, j: int|
        0 <= i < j < rs.len() ==> variant_rank(#[trigger] rs[i]) <= variant_rank(#[trigger] rs[j])
    &&& forall|i: int| 0 <= i < rs.len() ==> variant_rank(#[trigger] rs[i]) < m
}

/// Layouts in the order of their ranks, below `m`, none of which comes twice.
spec fn ranked_once(rs: Seq<SRepr>, m: int) -> bool {
    ranked(rs, m) && rs.no_duplicates()
}

/// Layouts of one rank.
spec fn all_of_rank(rs: Seq<SRepr>, m: int) -> bool {
    forall|i: int| 0 <= i < rs.len() ==> variant_rank(#[trigger] rs[i]) == m
}

proof fn lemma_ranked_add(a: Seq<SRepr>, b: Seq<SRepr>, m: int)
    requires
        ranked(a, m),
        all_of_rank(b, m),
    ensures
        ranked(a + b, m + 1),
        a.no_duplicates() && b.no_duplicates() ==> (a + b).no_duplicates(),
{
    let c = a + b;
    if a.no_duplicates() && b.no_duplicates() {
        assert forall|i: int, j: int| 0 <= i < j < c.len() implies c[i] != c[j] by {
            if j < a.len() {
                assert(c[i] == a[i] && c[j] == a[j]);
            } else {
                assert(variant_rank(b[j - a.len()]) == m);
                if i < a.len() {
                    assert(variant_rank(a[i]) < m);
                } else {
                    assert(c[i] == b[i - a.len()] && c[j] == b[j - a.len()]);
                }
            }
        }
    }
    assert forall|i: int| 0 <= i < c.len() implies variant_rank(#[trigger] c[i]) < m + 1 by {
        if i < a.len() {
            assert(c[i] == a[i]);
        } else {
            assert(c[i] == b[i - a.len()]);
        }
    }
    assert forall|i: int, j: int| 0 <= i < j < c.len() implies variant_rank(#[trigger] c[i])
        <= variant_rank(#[trigger] c[j]) by {
        if j < a.len() {
            assert(c[i] == a[i] && c[j] == a[j]);
        } else {
            assert(c[j] == b[j - a.len()]);
            if i >= a.len() {
                assert(c[i] == b[i - a.len()]);
            } else {
                assert(c[i] == a[i]);
            }
        }
    }
}

proof fn lemma_ranked_add_if(a: Seq<SRepr>, b: bool, r: SRepr, m: int)
    requires
        ranked_once(a, m),
        variant_rank(r) == m,
    ensures
        ranked_once(add_if(a, b, r), m + 1),
{
    if b {
        lemma_ranked_add(a, seq![r], m);
        assert(a.push(r) =~= a + seq![r]);
    }
}

proof fn lemma_scalars_ranked(t: Types, d: TyData)
    ensures
        ranked_once(scalars(t, d), 7),
{
    let e: Seq<SRepr> = seq![];
    assert(ranked_once(e, 0));
    lemma_ranked_add_if(e, d.integer, SRepr::I64, 0);
    let a = add_if(e, d.integer, SRepr::I64);
    lemma_ranked_add_if(a, d.float, SRepr::F64, 1);
    let b = add_if(a, d.float, SRepr::F64);
    lemma_ranked_add_if(b, d.string, SRepr::Str, 2);
    let c = add_if(b, d.string, SRepr::Str);
    lemma_ranked_add_if(c, d.boolean, SRepr::Bool, 3);
    let g = add_if(c, d.boolean, SRepr::Bool);
    lemma_ranked_add_if(g, d.null, SRepr::Null, 4);
    let h = base_scalars(d);
    let atoms = d.atoms.neg || d.atoms.names@.len() > 0;
    lemma_ranked_add_if(h, atoms, SRepr::Tag, 5);
    let vars = !d.vars.neg && d.vars.names@.len() > 0;
    let v = SRepr::Var(super::name_of(t, d.vars.names@[0]));
    lemma_ranked_add_if(add_if(h, atoms, SRepr::Tag), vars, v, 6);
}

proof fn lemma_records_ranked(t: Types, c: Cut, ps: Seq<Path>, k: int, n: nat)
    ensures
        all_of_rank(records(t, c, ps, k, n), 7),
        records(t, c, ps, k, n).no_duplicates(),
    decreases k,
{
    if k > 0 {
        lemma_records_ranked(t, c, ps, k - 1, n);
        let r = path_layout(t, c, ps[k - 1].pos@, n);
        assert(variant_rank(r) == 7);
    }
}

proof fn lemma_admitted_ranked(t: Types, c: Cut, d: TyData, n: nat)
    ensures
        ranked(admitted(t, c, d, n), 10),
        tuple_layouts(t, c, tup_atoms_of(d), n).no_duplicates() && arrow_layouts(
            t,
            c,
            arrow_atoms_of(d),
            n,
        ).no_duplicates() ==> admitted(t, c, d, n).no_duplicates(),
{
    let rs = records(t, c, d.records@, d.records@.len() as int, n);
    lemma_scalars_ranked(t, d);
    lemma_records_ranked(t, c, d.records@, d.records@.len() as int, n);
    lemma_ranked_add(scalars(t, d), rs, 7);
    let ts = tuple_layouts(t, c, tup_atoms_of(d), n);
    assert(all_of_rank(ts, 8));
    lemma_ranked_add(scalars(t, d) + rs, ts, 8);
    let fs = arrow_layouts(t, c, arrow_atoms_of(d), n);
    assert(all_of_rank(fs, 9));
    lemma_ranked_add(scalars(t, d) + rs + ts, fs, 9);
}

proof fn lemma_none_of_rank(rs: Seq<SRepr>, k: int)
    requires
        forall|i: int| 0 <= i < rs.len() ==> variant_rank(#[trigger] rs[i]) < k,
    ensures
        of_rank(rs, k) == Seq::<SRepr>::empty(),
    decreases rs.len(),
{
    if rs.len() > 0 {
        assert(variant_rank(rs[rs.len() - 1]) < k);
        lemma_none_of_rank(rs.drop_last(), k);
    }
}

proof fn lemma_by_rank_push(rs: Seq<SRepr>, r: SRepr, k: int)
    requires
        forall|i: int| 0 <= i < rs.len() ==> variant_rank(#[trigger] rs[i]) <= variant_rank(r),
    ensures
        by_rank(rs.push(r), k) == if k > variant_rank(r) {
            by_rank(rs, k).push(r)
        } else {
            by_rank(rs, k)
        },
    decreases k,
{
    if k > 0 {
        lemma_by_rank_push(rs, r, k - 1);
        let more = rs.push(r);
        assert(more.drop_last() =~= rs);
        if k - 1 > variant_rank(r) {
            lemma_none_of_rank(rs, k - 1);
            assert(of_rank(more, k - 1) =~= seq![]);
        }
        assert(by_rank(more, k) =~= if k > variant_rank(r) {
            by_rank(rs, k).push(r)
        } else {
            by_rank(rs, k)
        });
    } else {
        assert(variant_rank(r) >= 0);
    }
}

proof fn lemma_by_rank_of_ranked(rs: Seq<SRepr>)
    requires
        ranked(rs, 11),
    ensures
        by_rank(rs, 11) == rs,
    decreases rs.len(),
{
    if rs.len() == 0 {
        lemma_empty_by_rank(11);
        assert(rs =~= seq![]);
    } else {
        let before = rs.drop_last();
        assert forall|i: int, j: int| 0 <= i < j < before.len() implies variant_rank(
            #[trigger] before[i],
        ) <= variant_rank(#[trigger] before[j]) by {
            assert(before[i] == rs[i] && before[j] == rs[j]);
        }
        assert forall|i: int| 0 <= i < before.len() implies variant_rank(#[trigger] before[i]) < 11
            && variant_rank(before[i]) <= variant_rank(rs.last()) by {
            assert(before[i] == rs[i]);
        }
        lemma_by_rank_of_ranked(before);
        lemma_by_rank_push(before, rs.last(), 11);
        assert(before.push(rs.last()) =~= rs);
        assert(variant_rank(rs[rs.len() - 1]) < 11);
    }
}

proof fn lemma_empty_by_rank(k: int)
    ensures
        by_rank(Seq::<SRepr>::empty(), k) == Seq::<SRepr>::empty(),
    decreases k,
{
    if k > 0 {
        lemma_empty_by_rank(k - 1);
        assert(by_rank(Seq::<SRepr>::empty(), k) =~= Seq::<SRepr>::empty());
    }
}

proof fn lemma_distinct_ranked(rs: Seq<SRepr>, m: int)
    requires
        ranked(rs, m),
    ensures
        ranked(distinct(rs), m),
    decreases rs.len(),
{
    if rs.len() > 0 {
        let before = rs.drop_last();
        assert forall|i: int, j: int| 0 <= i < j < before.len() implies variant_rank(
            #[trigger] before[i],
        ) <= variant_rank(#[trigger] before[j]) by {
            assert(before[i] == rs[i] && before[j] == rs[j]);
        }
        assert forall|i: int| 0 <= i < before.len() implies variant_rank(#[trigger] before[i])
            < m by {
            assert(before[i] == rs[i]);
        }
        lemma_distinct_ranked(before, m);
        lemma_distinct(before);
        let d = distinct(before);
        let e = distinct(rs);
        let last = rs[rs.len() - 1];
        assert(variant_rank(last) < m);
        if e != d {
            assert(e == d.push(last));
            assert forall|i: int| 0 <= i < d.len() implies variant_rank(#[trigger] d[i])
                <= variant_rank(last) by {
                assert(d.contains(d[i]));
                assert(before.contains(d[i]));
                let j = choose|j: int| 0 <= j < before.len() && before[j] == d[i];
                assert(rs[j] == d[i]);
            }
            assert forall|i: int| 0 <= i < e.len() implies variant_rank(#[trigger] e[i]) < m by {
                if i < d.len() {
                    assert(e[i] == d[i]);
                }
            }
            assert forall|i: int, j: int| 0 <= i < j < e.len() implies variant_rank(
                #[trigger] e[i],
            ) <= variant_rank(#[trigger] e[j]) by {
                assert(e[i] == d[i]);
                if j < d.len() {
                    assert(e[j] == d[j]);
                }
            }
        }
    }
}

/// What a type admits comes in the canonical order already: putting it in that order only
/// leaves out what comes twice.
pub proof fn what_is_admitted_is_in_order(t: Types, c: Cut, d: TyData, n: nat)
    ensures
        canonical(admitted(t, c, d, n)) == distinct(admitted(t, c, d, n)),
{
    let rs = admitted(t, c, d, n);
    lemma_admitted_ranked(t, c, d, n);
    lemma_distinct_ranked(rs, 10);
    let e = distinct(rs);
    assert(ranked(e, 11));
    lemma_by_rank_of_ranked(e);
}

/// Where no two tuples or functions that a type admits are laid out alike, its layout is
/// what normalising its variants gives: a type is laid out alike whether it is named or
/// comes of putting types for variables.
pub proof fn layouts_are_normalised(t: Types, c: Cut, ty: TyId, n: nat)
    requires
        !is_top(t.data@[ty.0 as int]),
        tuple_layouts(t, c, tup_atoms_of(t.data@[ty.0 as int]), n).no_duplicates(),
        arrow_layouts(t, c, arrow_atoms_of(t.data@[ty.0 as int]), n).no_duplicates(),
    ensures
        canonical(admitted(t, c, t.data@[ty.0 as int], n)) == admitted(
            t,
            c,
            t.data@[ty.0 as int],
            n,
        ),
        components(t, c, ty, n) == combine(canonical(admitted(t, c, t.data@[ty.0 as int], n))),
{
    let d = t.data@[ty.0 as int];
    what_is_admitted_is_in_order(t, c, d, n);
    lemma_admitted_ranked(t, c, d, n);
    lemma_distinct_of_distinct(admitted(t, c, d, n));
}

/// Whether a type admits nothing but what its base types say.
pub open spec fn is_base(d: TyData) -> bool {
    &&& !d.atoms.neg && d.atoms.names@.len() == 0
    &&& d.vars.names@.len() == 0
    &&& d.records@.len() == 0
    &&& d.tuples@.len() == 0
    &&& d.arrows@.len() == 0
}

/// A base type is laid out as itself; a string or null is a pointer that may be null, and no
/// other base type with null is; a type that nothing belongs to is laid out as nothing.
pub proof fn base_types_are_laid_out_as_themselves(t: Types, c: Cut, ty: TyId, n: nat)
    requires
        is_base(t.data@[ty.0 as int]),
    ensures
        ({
            let d = t.data@[ty.0 as int];
            let r = components(t, c, ty, n);
            let others = |i: bool, f: bool, s: bool, b: bool, n: bool|
                d.integer == i && d.float == f && d.string == s && d.boolean == b && d.null == n;
            &&& others(true, false, false, false, false) ==> r == SRepr::I64
            &&& others(false, true, false, false, false) ==> r == SRepr::F64
            &&& others(false, false, true, false, false) ==> r == SRepr::Str
            &&& others(false, false, false, true, false) ==> r == SRepr::Bool
            &&& others(false, false, false, false, true) ==> r == SRepr::Null
            &&& others(false, false, false, false, false) ==> r == SRepr::Never
            &&& others(false, false, true, false, true) ==> r == SRepr::Nullable(
                Box::new(SRepr::Str),
            )
            &&& others(true, false, false, false, true) ==> r == SRepr::Union(
                seq![SRepr::I64, SRepr::Null],
            )
            &&& others(true, false, true, false, false) ==> r == SRepr::Union(
                seq![SRepr::I64, SRepr::Str],
            )
        }),
{
    let d = t.data@[ty.0 as int];
    let e = Seq::<SRepr>::empty();
    assert(records(t, c, d.records@, d.records@.len() as int, n) =~= e);
    assert(tup_atoms_of(d) =~= seq![]);
    assert(arrow_atoms_of(d) =~= seq![]);
    assert(tuple_layouts(t, c, tup_atoms_of(d), n) =~= e);
    assert(arrow_layouts(t, c, arrow_atoms_of(d), n) =~= e);
    assert(admitted(t, c, d, n) =~= base_scalars(d));
    assert(!is_top(d));
    if d.integer && !d.float && !d.string && !d.boolean && d.null {
        assert(base_scalars(d) =~= seq![SRepr::I64, SRepr::Null]);
    }
    if d.integer && !d.float && d.string && !d.boolean && !d.null {
        assert(base_scalars(d) =~= seq![SRepr::I64, SRepr::Str]);
    }
    if !d.integer && !d.float && d.string && !d.boolean && d.null {
        assert(base_scalars(d) =~= seq![SRepr::Str, SRepr::Null]);
    }
}

/// A type that admits nothing but tuples of one kind is laid out as a tuple of the layouts of
/// its elements, in order, or as nothing to hold where it has none; one that admits nothing
/// but functions of one kind, as a closure with the layouts of what it takes, throws and gives.
pub proof fn constructors_are_laid_out_part_by_part(t: Types, c: Cut, a: u32, n: nat, i: int)
    ensures
        tuple_layout(t, c, a, n) == if t.tup_atoms@[a as int].elems@.len() == 0 {
            SRepr::Unit
        } else {
            SRepr::Tuple(
                Seq::new(
                    t.tup_atoms@[a as int].elems@.len(),
                    |j: int| layout(t, c, t.tup_atoms@[a as int].elems@[j], false, n),
                ),
            )
        },
        arrow_layout(t, c, a, n) matches SRepr::Closure { params, throws, ret } && *throws == layout(
            t,
            c,
            t.arrow_atoms@[a as int].throws,
            false,
            n,
        ) && *ret == layout(t, c, t.arrow_atoms@[a as int].ret, false, n) && params.len()
            == t.arrow_atoms@[a as int].params@.len() && (0 <= i < params.len() ==> params[i]
            == layout(t, c, t.arrow_atoms@[a as int].params@[i], false, n)),
{
    let es = t.tup_atoms@[a as int].elems@;
    assert(layouts(t, c, es, n) =~= Seq::new(es.len(), |j: int| layout(t, c, es[j], false, n)));
}

} // verus!
