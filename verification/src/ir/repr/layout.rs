//! The layouts of types.
//!
//! The types of a program form a graph that may have cycles, and a layout is a finite tree.
//! So a type that lies on a cycle is cut where it is come back to, and a record that would
//! hold itself by value is a pointer. Both are properties of the graph, and not of the way
//! that a type is come to, so that a type has one layout.

use super::super::graph::{
    adj, graph_wf, is_on_cycle, none_of, nowhere, on_cycle, only, only_one, reachable, reached,
};
use super::{combine, combine_reprs, named_reprs_sem, reprs_sem, Repr, SRepr};
use crate::syntax::{opt_name_of, Node};
use crate::text::{dec, has_prefix, push_dec, starts_with, str_eq};
use crate::types::{
    arrow_wf, data_wf, numbers_below, paths_below, rec_wf, types_below, types_wf, Path, TyData,
    TyId, Types,
};
use vstd::prelude::*;

pub mod boxed;
pub mod order;

verus! {

// ---- constructors of a type ----

/// A number added to an ascending list, unless it is there.
pub open spec fn add_number(s: Seq<u32>, a: u32) -> Seq<u32>
    decreases s.len(),
{
    if s.len() == 0 {
        seq![a]
    } else if s.last() == a {
        s
    } else if s.last() < a {
        s.push(a)
    } else {
        add_number(s.drop_last(), a).push(s.last())
    }
}

pub open spec fn add_numbers(s: Seq<u32>, xs: Seq<u32>, n: int) -> Seq<u32>
    decreases n,
{
    if n <= 0 {
        s
    } else {
        add_number(add_numbers(s, xs, n - 1), xs[n - 1])
    }
}

/// The constructors that the first `n` paths are built with, in ascending order.
pub open spec fn positive(ps: Seq<Path>, n: int) -> Seq<u32>
    decreases n,
{
    if n <= 0 {
        seq![]
    } else {
        add_numbers(positive(ps, n - 1), ps[n - 1].pos@, ps[n - 1].pos@.len() as int)
    }
}

pub open spec fn rec_atoms_of(d: TyData) -> Seq<u32> {
    positive(d.records@, d.records@.len() as int)
}

pub open spec fn tup_atoms_of(d: TyData) -> Seq<u32> {
    positive(d.tuples@, d.tuples@.len() as int)
}

pub open spec fn arrow_atoms_of(d: TyData) -> Seq<u32> {
    positive(d.arrows@, d.arrows@.len() as int)
}

/// Whether a kind is full: one path that asks for nothing.
pub open spec fn admits_all(ps: Seq<Path>) -> bool {
    ps.len() == 1 && ps[0].pos@.len() == 0 && ps[0].neg@.len() == 0
}

/// Whether a type is `any`: every kind is full.
pub open spec fn is_top(d: TyData) -> bool {
    &&& d.integer && d.float && d.string && d.boolean && d.null
    &&& d.atoms.neg && d.atoms.names@.len() == 0
    &&& admits_all(d.records@)
    &&& admits_all(d.tuples@)
    &&& admits_all(d.arrows@)
}

pub open spec fn name_of(t: Types, n: u32) -> Seq<char> {
    t.names@[n as int]@
}

/// The type of the first field from `k` on that has a name.
pub open spec fn field_from(t: Types, fs: Seq<(u32, TyId)>, name: Seq<char>, k: int) -> Option<TyId>
    decreases fs.len() - k,
{
    if k >= fs.len() {
        None
    } else if name_of(t, fs[k].0) == name {
        Some(fs[k].1)
    } else {
        field_from(t, fs, name, k + 1)
    }
}

pub open spec fn field_ty(t: Types, a: u32, name: Seq<char>) -> Option<TyId> {
    field_from(t, t.rec_atoms@[a as int].fields@, name, 0)
}

/// The type of the first field from `k` on whose name has a number.
pub open spec fn labelled_from(fs: Seq<(u32, TyId)>, label: u32, k: int) -> Option<TyId>
    decreases fs.len() - k,
{
    if k >= fs.len() {
        None
    } else if fs[k].0 == label {
        Some(fs[k].1)
    } else {
        labelled_from(fs, label, k + 1)
    }
}

/// The name of a record, if it has one: the one atom that its `#nominal` field admits.
pub open spec fn nominal_name(t: Types, a: u32) -> Option<Seq<char>> {
    match labelled_from(t.rec_atoms@[a as int].fields@, t.nominal_label, 0) {
        Some(ty) => {
            let s = t.data@[ty.0 as int].atoms;
            if !s.neg && s.names@.len() == 1 {
                Some(name_of(t, s.names@[0]))
            } else {
                None
            }
        },
        None => None,
    }
}

/// The C type of a record that the runtime owns, from entry `k` on.
pub open spec fn runtime_from(t: Types, name: Seq<char>, k: int) -> Option<Seq<char>>
    decreases t.runtime_types.len() - k,
{
    if k >= t.runtime_types.len() {
        None
    } else if t.runtime_types@[k].0@ == name {
        Some(t.runtime_types@[k].1@)
    } else {
        runtime_from(t, name, k + 1)
    }
}

/// What kind of layout a record has.
pub enum SKind {
    /// The runtime owns it: its name, and the C type of its pointee.
    Runtime(Seq<char>, Seq<char>),
    List,
    Mapping,
    /// Laid out by its fields.
    Plain,
}

pub open spec fn is_list_name(n: Seq<char>) -> bool {
    n == "List"@ || n == "std::collections::list::List"@
}

pub open spec fn is_map_name(n: Seq<char>) -> bool {
    n == "Map"@ || n == "std::collections::map::Map"@
}

pub open spec fn kind_of(t: Types, a: u32) -> SKind {
    match nominal_name(t, a) {
        Some(n) => match runtime_from(t, n, 0) {
            Some(c) => SKind::Runtime(n, c),
            None => if is_list_name(n) {
                SKind::List
            } else if is_map_name(n) {
                SKind::Mapping
            } else {
                SKind::Plain
            },
        },
        None => SKind::Plain,
    }
}

/// The name of a type argument's field.
pub open spec fn slot(i: int) -> Seq<char> {
    seq!['#'] + dec(i as nat)
}

/// The type arguments of a record from number `i` on, up to the first that is not there.
pub open spec fn args_from(t: Types, a: u32, i: int) -> Seq<TyId>
    decreases t.rec_atoms@[a as int].fields@.len() - i,
{
    if i >= t.rec_atoms@[a as int].fields@.len() {
        seq![]
    } else {
        match field_ty(t, a, slot(i)) {
            Some(ty) => seq![ty] + args_from(t, a, i + 1),
            None => seq![],
        }
    }
}

/// Whether a field holds a value of the program: its name is not one of the compiler's own,
/// or it is the payload of a newtype.
pub open spec fn holds_value(name: Seq<char>) -> bool {
    !has_prefix(name, seq!['#']) || name == "#inner"@
}

// ---- layouts ----

/// Where layouts are cut: the types that are a back-edge where they are come back to, and
/// the records that are a pointer.
pub struct Cut {
    pub types: Seq<bool>,
    pub atoms: Seq<bool>,
}

/// A list, with one more layout if it belongs there.
pub open spec fn add_if(rs: Seq<SRepr>, b: bool, r: SRepr) -> Seq<SRepr> {
    if b {
        rs.push(r)
    } else {
        rs
    }
}

/// The components of a type that are base types, in order.
pub open spec fn base_scalars(d: TyData) -> Seq<SRepr> {
    let a = add_if(seq![], d.integer, SRepr::I64);
    let b = add_if(a, d.float, SRepr::F64);
    let c = add_if(b, d.string, SRepr::Str);
    let e = add_if(c, d.boolean, SRepr::Bool);
    add_if(e, d.null, SRepr::Null)
}

/// The components of a type that are no aggregates, in order. All atoms are one tag, and
/// the first of several type variables stands for all.
pub open spec fn scalars(t: Types, d: TyData) -> Seq<SRepr> {
    let a = add_if(base_scalars(d), d.atoms.neg || d.atoms.names@.len() > 0, SRepr::Tag);
    add_if(
        a,
        !d.vars.neg && d.vars.names@.len() > 0,
        SRepr::Var(name_of(t, d.vars.names@[0])),
    )
}

/// The layout of a type, cut after `n` types in a row: a chain that no cut stops is never
/// that long, since it passes no type twice.
pub open spec fn layout(t: Types, c: Cut, ty: TyId, root: bool, n: nat) -> SRepr
    decreases n, 0int, 0int,
{
    if n == 0 || (!root && c.types[ty.0 as int]) {
        SRepr::Recursive(ty)
    } else {
        components(t, c, ty, (n - 1) as nat)
    }
}

pub open spec fn layouts(t: Types, c: Cut, tys: Seq<TyId>, n: nat) -> Seq<SRepr>
    decreases n, 1int, 0int,
{
    Seq::new(tys.len(), |i: int| layout(t, c, tys[i], false, n))
}

pub open spec fn opt_layout(t: Types, c: Cut, ty: Option<TyId>, n: nat) -> SRepr
    decreases n, 1int, 0int,
{
    match ty {
        Some(ty) => layout(t, c, ty, false, n),
        None => SRepr::Never,
    }
}

/// The fields of a record that hold values, of the first `k`.
pub open spec fn value_fields(t: Types, c: Cut, fs: Seq<(u32, TyId)>, k: int, n: nat) -> Seq<
    (Seq<char>, SRepr),
>
    decreases n, 1int, k,
{
    if k <= 0 {
        seq![]
    } else if holds_value(name_of(t, fs[k - 1].0)) {
        value_fields(t, c, fs, k - 1, n).push(
            (name_of(t, fs[k - 1].0), layout(t, c, fs[k - 1].1, false, n)),
        )
    } else {
        value_fields(t, c, fs, k - 1, n)
    }
}

/// The layout of a record, as it is where it is not a pointer.
pub open spec fn record_layout(t: Types, c: Cut, a: u32, n: nat) -> SRepr
    decreases n, 2int, 0int,
{
    match kind_of(t, a) {
        SKind::Runtime(nominal, c_type) => SRepr::Runtime {
            nominal,
            c_type,
            args: layouts(t, c, args_from(t, a, 0), n),
        },
        SKind::List => SRepr::List(Box::new(opt_layout(t, c, field_ty(t, a, slot(0)), n))),
        SKind::Mapping => SRepr::Mapping(
            Box::new(opt_layout(t, c, field_ty(t, a, slot(0)), n)),
            Box::new(opt_layout(t, c, field_ty(t, a, slot(1)), n)),
        ),
        SKind::Plain => {
            let fs = t.rec_atoms@[a as int].fields@;
            SRepr::Record {
                name: nominal_name(t, a),
                fields: value_fields(t, c, fs, fs.len() as int, n),
            }
        },
    }
}

pub open spec fn has_field(fs: Seq<(Seq<char>, SRepr)>, name: Seq<char>) -> bool {
    exists|i: int| 0 <= i < fs.len() && (#[trigger] fs[i]).0 == name
}

/// Fields, with those of the first `k` others added whose names are new.
pub open spec fn with_fields(
    fs: Seq<(Seq<char>, SRepr)>,
    more: Seq<(Seq<char>, SRepr)>,
    k: int,
) -> Seq<(Seq<char>, SRepr)>
    decreases k,
{
    if k <= 0 {
        fs
    } else {
        let before = with_fields(fs, more, k - 1);
        if has_field(before, more[k - 1].0) {
            before
        } else {
            before.push(more[k - 1])
        }
    }
}

/// The fields of all of the first `k` records together.
pub open spec fn joint_fields(t: Types, c: Cut, atoms: Seq<u32>, k: int, n: nat) -> Seq<
    (Seq<char>, SRepr),
>
    decreases n, 3int, k,
{
    if k <= 0 {
        seq![]
    } else {
        let before = joint_fields(t, c, atoms, k - 1, n);
        match record_layout(t, c, atoms[k - 1], n) {
            SRepr::Record { fields, .. } => with_fields(before, fields, fields.len() as int),
            _ => before,
        }
    }
}

/// The first name that one of the records from `k` on has.
pub open spec fn joint_name(t: Types, atoms: Seq<u32>, k: int) -> Option<Seq<char>>
    decreases atoms.len() - k,
{
    if k >= atoms.len() {
        None
    } else {
        match nominal_name(t, atoms[k]) {
            Some(n) => Some(n),
            None => joint_name(t, atoms, k + 1),
        }
    }
}

/// The layout of a path: a pointer where it is one boxed record, and otherwise one record
/// with the fields of all.
pub open spec fn path_layout(t: Types, c: Cut, atoms: Seq<u32>, n: nat) -> SRepr
    decreases n, 4int, 0int,
{
    if atoms.len() == 1 {
        if c.atoms[atoms[0] as int] {
            SRepr::BoxedRec(atoms[0])
        } else {
            record_layout(t, c, atoms[0], n)
        }
    } else {
        SRepr::Record {
            name: joint_name(t, atoms, 0),
            fields: joint_fields(t, c, atoms, atoms.len() as int, n),
        }
    }
}

/// The layouts of the first `k` paths, without repetition.
pub open spec fn records(t: Types, c: Cut, ps: Seq<Path>, k: int, n: nat) -> Seq<SRepr>
    decreases n, 5int, k,
{
    if k <= 0 {
        seq![]
    } else {
        let before = records(t, c, ps, k - 1, n);
        if ps[k - 1].pos@.len() == 0 {
            before
        } else {
            let r = path_layout(t, c, ps[k - 1].pos@, n);
            if before.contains(r) {
                before
            } else {
                before.push(r)
            }
        }
    }
}

pub open spec fn tuple_layout(t: Types, c: Cut, a: u32, n: nat) -> SRepr
    decreases n, 2int, 0int,
{
    let es = t.tup_atoms@[a as int].elems@;
    if es.len() == 0 {
        SRepr::Unit
    } else {
        SRepr::Tuple(layouts(t, c, es, n))
    }
}

pub open spec fn arrow_layout(t: Types, c: Cut, a: u32, n: nat) -> SRepr
    decreases n, 2int, 0int,
{
    let x = t.arrow_atoms@[a as int];
    SRepr::Closure {
        params: layouts(t, c, x.params@, n),
        throws: Box::new(layout(t, c, x.throws, false, n)),
        ret: Box::new(layout(t, c, x.ret, false, n)),
    }
}

pub open spec fn tuple_layouts(t: Types, c: Cut, atoms: Seq<u32>, n: nat) -> Seq<SRepr>
    decreases n, 3int, 0int,
{
    Seq::new(atoms.len(), |i: int| tuple_layout(t, c, atoms[i], n))
}

pub open spec fn arrow_layouts(t: Types, c: Cut, atoms: Seq<u32>, n: nat) -> Seq<SRepr>
    decreases n, 3int, 0int,
{
    Seq::new(atoms.len(), |i: int| arrow_layout(t, c, atoms[i], n))
}

/// The layouts that a type admits.
///
/// Their order is the order of a union's variants: scalars, atoms, a type variable, records,
/// tuples, arrows.
pub open spec fn admitted(t: Types, c: Cut, d: TyData, n: nat) -> Seq<SRepr>
    decreases n, 6int, 0int,
{
    scalars(t, d) + records(t, c, d.records@, d.records@.len() as int, n) + tuple_layouts(
        t,
        c,
        tup_atoms_of(d),
        n,
    ) + arrow_layouts(t, c, arrow_atoms_of(d), n)
}

/// The layout of what a type admits.
pub open spec fn components(t: Types, c: Cut, ty: TyId, n: nat) -> SRepr
    decreases n, 7int, 0int,
{
    let d = t.data@[ty.0 as int];
    if is_top(d) {
        SRepr::Any
    } else {
        combine(admitted(t, c, d, n))
    }
}

// ---- the graph of types ----

/// Whether a field's type is part of what a type is made of.
pub open spec fn is_part(name: Seq<char>) -> bool {
    holds_value(name) || name == slot(0) || name == slot(1)
}

/// The types of those of the first `k` fields that are parts.
pub open spec fn part_fields(t: Types, fs: Seq<(u32, TyId)>, k: int) -> Seq<usize>
    decreases k,
{
    if k <= 0 {
        seq![]
    } else if is_part(name_of(t, fs[k - 1].0)) {
        part_fields(t, fs, k - 1).push(fs[k - 1].1.0 as usize)
    } else {
        part_fields(t, fs, k - 1)
    }
}

pub open spec fn ids(tys: Seq<TyId>) -> Seq<usize> {
    Seq::new(tys.len(), |i: int| tys[i].0 as usize)
}

pub open spec fn record_parts(t: Types, atoms: Seq<u32>, k: int) -> Seq<usize>
    decreases k,
{
    if k <= 0 {
        seq![]
    } else {
        let fs = t.rec_atoms@[atoms[k - 1] as int].fields@;
        record_parts(t, atoms, k - 1) + part_fields(t, fs, fs.len() as int)
    }
}

pub open spec fn tuple_parts(t: Types, atoms: Seq<u32>, k: int) -> Seq<usize>
    decreases k,
{
    if k <= 0 {
        seq![]
    } else {
        tuple_parts(t, atoms, k - 1) + ids(t.tup_atoms@[atoms[k - 1] as int].elems@)
    }
}

pub open spec fn arrow_parts(t: Types, atoms: Seq<u32>, k: int) -> Seq<usize>
    decreases k,
{
    if k <= 0 {
        seq![]
    } else {
        let a = t.arrow_atoms@[atoms[k - 1] as int];
        arrow_parts(t, atoms, k - 1) + ids(a.params@) + seq![a.throws.0 as usize, a.ret.0 as usize]
    }
}

/// The types that a type is made of: the fields, elements, parameters, errors and results of
/// its constructors.
pub open spec fn parts(t: Types, ty: int) -> Seq<usize> {
    let d = t.data@[ty];
    record_parts(t, rec_atoms_of(d), rec_atoms_of(d).len() as int) + tuple_parts(
        t,
        tup_atoms_of(d),
        tup_atoms_of(d).len() as int,
    ) + arrow_parts(t, arrow_atoms_of(d), arrow_atoms_of(d).len() as int)
}

/// The types of a program as a graph: from each to those that it is made of.
pub open spec fn type_graph(t: Types) -> Seq<Seq<usize>> {
    Seq::new(t.data@.len(), |i: int| parts(t, i))
}

/// Whether a type lies on a cycle.
pub open spec fn is_cyclic(t: Types, ty: int) -> bool {
    on_cycle(type_graph(t), ty)
}

// ---- records that would hold themselves ----

/// The types of those of the first `k` fields that a record holds by value.
pub open spec fn held_fields(t: Types, fs: Seq<(u32, TyId)>, k: int) -> Seq<usize>
    decreases k,
{
    if k <= 0 {
        seq![]
    } else if holds_value(name_of(t, fs[k - 1].0)) {
        held_fields(t, fs, k - 1).push(fs[k - 1].1.0 as usize)
    } else {
        held_fields(t, fs, k - 1)
    }
}

/// Whether a record is one of the containers, whose contents stand behind a pointer.
pub open spec fn is_container(t: Types, a: u32) -> bool {
    nominal_name(t, a) matches Some(n) && (is_list_name(n) || is_map_name(n))
}

/// Those of the first `k` records that are no containers, as nodes behind the types.
pub open spec fn held_records(t: Types, atoms: Seq<u32>, k: int) -> Seq<usize>
    decreases k,
{
    if k <= 0 {
        seq![]
    } else if is_container(t, atoms[k - 1]) {
        held_records(t, atoms, k - 1)
    } else {
        held_records(t, atoms, k - 1).push((t.data@.len() + atoms[k - 1]) as usize)
    }
}

/// What a type holds by value: the records that it may be, and the elements of the tuples.
pub open spec fn held_by(t: Types, ty: int) -> Seq<usize> {
    let d = t.data@[ty];
    held_records(t, rec_atoms_of(d), rec_atoms_of(d).len() as int) + tuple_parts(
        t,
        tup_atoms_of(d),
        tup_atoms_of(d).len() as int,
    )
}

/// Types and records as a graph, the records behind the types: from each to what it holds by
/// value.
pub open spec fn value_graph(t: Types) -> Seq<Seq<usize>> {
    Seq::new(
        t.data@.len() + t.rec_atoms@.len(),
        |i: int|
            if i < t.data@.len() {
                held_by(t, i)
            } else {
                let fs = t.rec_atoms@[i - t.data@.len()].fields@;
                held_fields(t, fs, fs.len() as int)
            },
    )
}

/// Whether a record would hold itself by value, and so has to be a pointer. Only records
/// are: once they are pointers, a union of them is finite.
pub open spec fn is_boxed(t: Types, a: int) -> bool {
    on_cycle(value_graph(t), t.data@.len() + a)
}

/// Where the layouts of a program's types are cut.
pub open spec fn cut_of(t: Types) -> Cut {
    Cut {
        types: Seq::new(t.data@.len(), |i: int| is_cyclic(t, i)),
        atoms: Seq::new(t.rec_atoms@.len(), |i: int| is_boxed(t, i)),
    }
}

/// The layout of a type.
pub open spec fn layout_of(t: Types, ty: TyId) -> SRepr {
    layout(t, cut_of(t), ty, true, t.data@.len() + 1)
}

// ---- reading the table ----

proof fn lemma_add_number_below(s: Seq<u32>, a: u32, n: nat)
    requires
        numbers_below(s, n),
        a < n,
    ensures
        numbers_below(add_number(s, a), n),
    decreases s.len(),
{
    if s.len() > 0 && s.last() > a {
        assert forall|i: int| 0 <= i < s.drop_last().len() implies (#[trigger] s.drop_last()[i])
            < n by {
            assert(s[i] < n);
        }
        lemma_add_number_below(s.drop_last(), a, n);
        let r = add_number(s.drop_last(), a);
        assert forall|i: int| 0 <= i < add_number(s, a).len() implies (#[trigger] add_number(
            s,
            a,
        )[i]) < n by {
            if i < r.len() {
                assert(r[i] < n);
            } else {
                assert(s[s.len() - 1] < n);
            }
        }
    }
}

proof fn lemma_add_numbers_below(s: Seq<u32>, xs: Seq<u32>, k: int, n: nat)
    requires
        numbers_below(s, n),
        numbers_below(xs, n),
        0 <= k <= xs.len(),
    ensures
        numbers_below(add_numbers(s, xs, k), n),
    decreases k,
{
    if k > 0 {
        lemma_add_numbers_below(s, xs, k - 1, n);
        lemma_add_number_below(add_numbers(s, xs, k - 1), xs[k - 1], n);
    }
}

proof fn lemma_positive_below(ps: Seq<Path>, k: int, n: nat)
    requires
        paths_below(ps, n),
        0 <= k <= ps.len(),
    ensures
        numbers_below(positive(ps, k), n),
    decreases k,
{
    if k > 0 {
        lemma_positive_below(ps, k - 1, n);
        assert(numbers_below(ps[k - 1].pos@, n));
        lemma_add_numbers_below(positive(ps, k - 1), ps[k - 1].pos@, ps[k - 1].pos@.len() as int, n);
    }
}

/// Where a number is inserted into an ascending list.
spec fn insert_at(s: Seq<u32>, a: u32, k: int) -> Seq<u32> {
    s.take(k).push(a) + s.skip(k)
}

/// Inserting before the numbers from `k` on, all of them greater.
proof fn lemma_add_number(s: Seq<u32>, a: u32, k: int)
    requires
        0 <= k <= s.len(),
        forall|i: int| k <= i < s.len() ==> (#[trigger] s[i]) > a,
        k == 0 || s[k - 1] < a || s[k - 1] == a,
    ensures
        add_number(s, a) == if k > 0 && s[k - 1] == a {
            s
        } else {
            insert_at(s, a, k)
        },
    decreases s.len(),
{
    if k == s.len() {
        if k > 0 && s[k - 1] != a {
            assert(insert_at(s, a, k) =~= s.push(a));
        }
        if k == 0 {
            assert(insert_at(s, a, k) =~= seq![a]);
        }
    } else {
        let d = s.drop_last();
        assert(s[s.len() - 1] > a);
        lemma_add_number(d, a, k);
        if k > 0 && s[k - 1] == a {
            assert(d.push(s.last()) =~= s);
        } else {
            assert(insert_at(d, a, k).push(s.last()) =~= insert_at(s, a, k));
        }
    }
}

fn insert_number(s: &mut Vec<u32>, a: u32)
    ensures
        final(s)@ == add_number(old(s)@, a),
{
    let ghost s0 = s@;
    let mut k: usize = s.len();
    while k > 0 && s[k - 1] > a
        invariant
            k <= s.len(),
            s@ == s0,
            forall|i: int| k <= i < s.len() ==> (#[trigger] s[i]) > a,
        decreases k,
    {
        k -= 1;
    }
    proof {
        lemma_add_number(s0, a, k as int);
    }
    if k > 0 && s[k - 1] == a {
        return ;
    }
    s.insert(k, a);
    assert(s@ =~= insert_at(s0, a, k as int));
}

fn positive_atoms(ps: &Vec<Path>) -> (r: Vec<u32>)
    ensures
        r@ == positive(ps@, ps@.len() as int),
{
    let mut r: Vec<u32> = Vec::new();
    let mut i: usize = 0;
    while i < ps.len()
        invariant
            i <= ps.len(),
            r@ == positive(ps@, i as int),
        decreases ps.len() - i,
    {
        let ghost before = r@;
        let xs = &ps[i].pos;
        let mut k: usize = 0;
        while k < xs.len()
            invariant
                k <= xs.len(),
                r@ == add_numbers(before, xs@, k as int),
            decreases xs.len() - k,
        {
            insert_number(&mut r, xs[k]);
            k += 1;
        }
        i += 1;
    }
    r
}

fn is_full(ps: &Vec<Path>) -> (r: bool)
    ensures
        r == admits_all(ps@),
{
    ps.len() == 1 && ps[0].pos.len() == 0 && ps[0].neg.len() == 0
}

fn is_any(d: &TyData) -> (r: bool)
    ensures
        r == is_top(*d),
{
    d.integer && d.float && d.string && d.boolean && d.null && d.atoms.neg && d.atoms.names.len()
        == 0 && is_full(&d.records) && is_full(&d.tuples) && is_full(&d.arrows)
}

fn find_field(t: &Types, a: u32, name: &str) -> (r: Option<TyId>)
    requires
        types_wf(*t),
        a < t.rec_atoms.len(),
    ensures
        r == field_ty(*t, a, name@),
        r matches Some(ty) ==> ty.0 < t.data.len(),
{
    let fs = &t.rec_atoms[a as usize].fields;
    assert(rec_wf(*t, t.rec_atoms[a as int]));
    let mut k: usize = 0;
    while k < fs.len()
        invariant
            k <= fs.len(),
            rec_wf(*t, t.rec_atoms[a as int]),
            fs@ == t.rec_atoms[a as int].fields@,
            field_ty(*t, a, name@) == field_from(*t, fs@, name@, k as int),
        decreases fs.len() - k,
    {
        assert(t.rec_atoms[a as int].fields[k as int].0 < t.names.len());
        if str_eq(t.names[fs[k].0 as usize].as_str(), name) {
            return Some(fs[k].1);
        }
        k += 1;
    }
    None
}

/// The name of a record, if it has one.
fn name_of_record(t: &Types, a: u32) -> (r: Option<String>)
    requires
        types_wf(*t),
        a < t.rec_atoms.len(),
    ensures
        opt_name_of(r) == nominal_name(*t, a),
{
    let fs = &t.rec_atoms[a as usize].fields;
    assert(rec_wf(*t, t.rec_atoms[a as int]));
    let mut k: usize = 0;
    while k < fs.len()
        invariant
            k <= fs.len(),
            a < t.rec_atoms.len(),
            types_wf(*t),
            rec_wf(*t, t.rec_atoms[a as int]),
            fs@ == t.rec_atoms[a as int].fields@,
            labelled_from(fs@, t.nominal_label, 0) == labelled_from(
                fs@,
                t.nominal_label,
                k as int,
            ),
        decreases fs.len() - k,
    {
        if fs[k].0 == t.nominal_label {
            let ty = fs[k].1;
            assert(t.rec_atoms[a as int].fields[k as int].1.0 < t.data.len());
            let d = &t.data[ty.0 as usize];
            assert(data_wf(*t, t.data[ty.0 as int]));
            if !d.atoms.neg && d.atoms.names.len() == 1 {
                assert(d.atoms.names@[0] < t.names.len());
                let n: usize = d.atoms.names[0] as usize;
                return Some(t.names[n].clone());
            }
            return None;
        }
        k += 1;
    }
    None
}

fn runtime_of(t: &Types, name: &str) -> (r: Option<String>)
    ensures
        opt_name_of(r) == runtime_from(*t, name@, 0),
{
    let mut k: usize = 0;
    while k < t.runtime_types.len()
        invariant
            k <= t.runtime_types.len(),
            runtime_from(*t, name@, 0) == runtime_from(*t, name@, k as int),
        decreases t.runtime_types.len() - k,
    {
        if str_eq(t.runtime_types[k].0.as_str(), name) {
            return Some(t.runtime_types[k].1.clone());
        }
        k += 1;
    }
    None
}

enum Kind {
    Runtime(String, String),
    List,
    Mapping,
    Plain,
}

spec fn kind_sem(k: Kind) -> SKind {
    match k {
        Kind::Runtime(n, c) => SKind::Runtime(n@, c@),
        Kind::List => SKind::List,
        Kind::Mapping => SKind::Mapping,
        Kind::Plain => SKind::Plain,
    }
}

fn names_list(n: &str) -> (r: bool)
    ensures
        r == is_list_name(n@),
{
    str_eq(n, "List") || str_eq(n, "std::collections::list::List")
}

fn names_map(n: &str) -> (r: bool)
    ensures
        r == is_map_name(n@),
{
    str_eq(n, "Map") || str_eq(n, "std::collections::map::Map")
}

fn kind(t: &Types, a: u32) -> (r: Kind)
    requires
        types_wf(*t),
        a < t.rec_atoms.len(),
    ensures
        kind_sem(r) == kind_of(*t, a),
{
    match name_of_record(t, a) {
        Some(n) => match runtime_of(t, n.as_str()) {
            Some(c) => Kind::Runtime(n, c),
            None => if names_list(n.as_str()) {
                Kind::List
            } else if names_map(n.as_str()) {
                Kind::Mapping
            } else {
                Kind::Plain
            },
        },
        None => Kind::Plain,
    }
}

fn slot_name(i: usize) -> (r: String)
    ensures
        r@ == slot(i as int),
{
    let mut s = String::new();
    s.push('#');
    push_dec(&mut s, i as u64);
    assert(s@ =~= slot(i as int));
    s
}

/// The type arguments of a record.
fn args_of(t: &Types, a: u32) -> (r: Vec<TyId>)
    requires
        types_wf(*t),
        a < t.rec_atoms.len(),
    ensures
        r@ == args_from(*t, a, 0),
        types_below(r@, t.data.len() as nat),
{
    let n: usize = t.rec_atoms[a as usize].fields.len();
    let mut r: Vec<TyId> = Vec::new();
    let mut i: usize = 0;
    assert(r@ + args_from(*t, a, 0) =~= args_from(*t, a, 0));
    while i < n
        invariant
            i <= n,
            a < t.rec_atoms.len(),
            n == t.rec_atoms@[a as int].fields@.len(),
            types_wf(*t),
            types_below(r@, t.data.len() as nat),
            r@ + args_from(*t, a, i as int) == args_from(*t, a, 0),
        decreases n - i,
    {
        let name = slot_name(i);
        match find_field(t, a, name.as_str()) {
            Some(ty) => {
                let ghost before = r@;
                r.push(ty);
                assert(before + args_from(*t, a, i as int) =~= r@ + args_from(*t, a, i + 1));
            },
            None => {
                assert(r@ + args_from(*t, a, i as int) =~= r@);
                return r;
            },
        }
        i += 1;
    }
    assert(r@ + args_from(*t, a, i as int) =~= r@);
    r
}

fn is_value_name(name: &str) -> (r: bool)
    ensures
        r == holds_value(name@),
{
    proof {
        reveal_strlit("#");
    }
    assert("#"@ =~= seq!['#']);
    !starts_with(name, "#") || str_eq(name, "#inner")
}

// ---- deriving layouts ----

/// Where layouts are cut.
pub struct Cuts {
    /// For each type, whether it is a back-edge where it is come back to.
    pub types: Vec<bool>,
    /// For each record, whether it is a pointer.
    pub atoms: Vec<bool>,
}

impl View for Cuts {
    type V = Cut;

    open spec fn view(&self) -> Cut {
        Cut { types: self.types@, atoms: self.atoms@ }
    }
}

pub open spec fn cuts_wf(t: Types, c: Cuts) -> bool {
    c.types.len() == t.data.len() && c.atoms.len() == t.rec_atoms.len()
}

fn push_if(rs: &mut Vec<Repr>, b: bool, r: Repr)
    ensures
        reprs_sem(final(rs)@) == add_if(reprs_sem(old(rs)@), b, r.sem()),
{
    if b {
        rs.push(r);
        assert(reprs_sem(rs@) =~= reprs_sem(old(rs)@).push(r.sem()));
    }
}

fn scalars_of(t: &Types, d: &TyData) -> (r: Vec<Repr>)
    requires
        data_wf(*t, *d),
    ensures
        reprs_sem(r@) == scalars(*t, *d),
{
    let mut r: Vec<Repr> = Vec::new();
    assert(reprs_sem(r@) =~= seq![]);
    push_if(&mut r, d.integer, Repr::I64);
    push_if(&mut r, d.float, Repr::F64);
    push_if(&mut r, d.string, Repr::Str);
    push_if(&mut r, d.boolean, Repr::Bool);
    push_if(&mut r, d.null, Repr::Null);
    assert(reprs_sem(r@) == base_scalars(*d));
    push_if(&mut r, d.atoms.neg || d.atoms.names.len() > 0, Repr::Tag);
    if !d.vars.neg && d.vars.names.len() > 0 {
        assert(d.vars.names@[0] < t.names.len());
        let n: usize = d.vars.names[0] as usize;
        push_if(&mut r, true, Repr::Var(t.names[n].clone()));
    }
    r
}

fn derive(t: &Types, c: &Cuts, ty: TyId, root: bool, n: usize) -> (r: Repr)
    requires
        types_wf(*t),
        cuts_wf(*t, *c),
        ty.0 < t.data.len(),
    ensures
        r.sem() == layout(*t, c@, ty, root, n as nat),
    decreases n, 0int,
{
    if n == 0 || (!root && c.types[ty.0 as usize]) {
        Repr::Recursive(ty)
    } else {
        derive_components(t, c, ty, n - 1)
    }
}

fn derive_all(t: &Types, c: &Cuts, tys: &Vec<TyId>, n: usize) -> (r: Vec<Repr>)
    requires
        types_wf(*t),
        cuts_wf(*t, *c),
        types_below(tys@, t.data.len() as nat),
    ensures
        reprs_sem(r@) == layouts(*t, c@, tys@, n as nat),
    decreases n, 1int,
{
    let mut r: Vec<Repr> = Vec::new();
    let mut i: usize = 0;
    while i < tys.len()
        invariant
            i <= tys.len(),
            types_wf(*t),
            cuts_wf(*t, *c),
            types_below(tys@, t.data.len() as nat),
            r.len() == i,
            forall|k: int|
                0 <= k < i ==> (#[trigger] r[k]).sem() == layout(
                    *t,
                    c@,
                    tys@[k],
                    false,
                    n as nat,
                ),
        decreases tys.len() - i,
    {
        assert(tys@[i as int].0 < t.data.len());
        r.push(derive(t, c, tys[i], false, n));
        i += 1;
    }
    assert(reprs_sem(r@) =~= layouts(*t, c@, tys@, n as nat));
    r
}

fn derive_slot(t: &Types, c: &Cuts, a: u32, i: usize, n: usize) -> (r: Repr)
    requires
        types_wf(*t),
        cuts_wf(*t, *c),
        a < t.rec_atoms.len(),
    ensures
        r.sem() == opt_layout(*t, c@, field_ty(*t, a, slot(i as int)), n as nat),
    decreases n, 1int,
{
    let name = slot_name(i);
    match find_field(t, a, name.as_str()) {
        Some(ty) => derive(t, c, ty, false, n),
        None => Repr::Never,
    }
}

fn derive_fields(t: &Types, c: &Cuts, a: u32, n: usize) -> (r: Vec<(String, Repr)>)
    requires
        types_wf(*t),
        cuts_wf(*t, *c),
        a < t.rec_atoms.len(),
    ensures
        named_reprs_sem(r@) == value_fields(
            *t,
            c@,
            t.rec_atoms@[a as int].fields@,
            t.rec_atoms@[a as int].fields@.len() as int,
            n as nat,
        ),
    decreases n, 1int,
{
    let fs = &t.rec_atoms[a as usize].fields;
    assert(rec_wf(*t, t.rec_atoms[a as int]));
    let mut r: Vec<(String, Repr)> = Vec::new();
    let mut k: usize = 0;
    assert(named_reprs_sem(r@) =~= value_fields(*t, c@, fs@, 0, n as nat));
    while k < fs.len()
        invariant
            k <= fs.len(),
            types_wf(*t),
            cuts_wf(*t, *c),
            rec_wf(*t, t.rec_atoms[a as int]),
            fs@ == t.rec_atoms[a as int].fields@,
            named_reprs_sem(r@) == value_fields(*t, c@, fs@, k as int, n as nat),
        decreases fs.len() - k,
    {
        assert(t.rec_atoms[a as int].fields[k as int].0 < t.names.len());
        let (label, ty) = fs[k];
        let name = &t.names[label as usize];
        if is_value_name(name.as_str()) {
            let x = derive(t, c, ty, false, n);
            let ghost before = r@;
            r.push((name.clone(), x));
            assert(named_reprs_sem(r@) =~= named_reprs_sem(before).push((name@, x.sem())));
        }
        k += 1;
    }
    r
}

fn derive_record(t: &Types, c: &Cuts, a: u32, n: usize) -> (r: Repr)
    requires
        types_wf(*t),
        cuts_wf(*t, *c),
        a < t.rec_atoms.len(),
    ensures
        r.sem() == record_layout(*t, c@, a, n as nat),
    decreases n, 2int,
{
    match kind(t, a) {
        Kind::Runtime(nominal, c_type) => {
            let tys = args_of(t, a);
            let args = derive_all(t, c, &tys, n);
            Repr::Runtime { nominal, c_type, args }
        },
        Kind::List => Repr::List(Box::new(derive_slot(t, c, a, 0, n))),
        Kind::Mapping => Repr::Mapping(
            Box::new(derive_slot(t, c, a, 0, n)),
            Box::new(derive_slot(t, c, a, 1, n)),
        ),
        Kind::Plain => {
            let name = name_of_record(t, a);
            let fields = derive_fields(t, c, a, n);
            let r = Repr::Record { name, fields };
            assert(r.sem() == SRepr::Record {
                name: opt_name_of(name),
                fields: named_reprs_sem(fields@),
            });
            r
        },
    }
}

fn field_is_there(fs: &Vec<(String, Repr)>, name: &str) -> (r: bool)
    ensures
        r == has_field(named_reprs_sem(fs@), name@),
{
    let ghost s = named_reprs_sem(fs@);
    let mut i: usize = 0;
    while i < fs.len()
        invariant
            i <= fs.len(),
            s == named_reprs_sem(fs@),
            forall|k: int| 0 <= k < i ==> (#[trigger] s[k]).0 != name@,
        decreases fs.len() - i,
    {
        assert(s[i as int].0 == fs[i as int].0@);
        if str_eq(fs[i].0.as_str(), name) {
            assert(s[i as int].0 == name@);
            return true;
        }
        i += 1;
    }
    false
}

fn add_fields(fs: &mut Vec<(String, Repr)>, more: &Vec<(String, Repr)>)
    ensures
        named_reprs_sem(final(fs)@) == with_fields(
            named_reprs_sem(old(fs)@),
            named_reprs_sem(more@),
            more@.len() as int,
        ),
{
    let ghost f0 = named_reprs_sem(fs@);
    let ghost ms = named_reprs_sem(more@);
    let mut k: usize = 0;
    while k < more.len()
        invariant
            k <= more.len(),
            ms == named_reprs_sem(more@),
            named_reprs_sem(fs@) == with_fields(f0, ms, k as int),
        decreases more.len() - k,
    {
        assert(ms[k as int] == (more[k as int].0@, more[k as int].1.sem()));
        if !field_is_there(fs, more[k].0.as_str()) {
            let x = (more[k].0.clone(), more[k].1.clone());
            let ghost before = fs@;
            fs.push(x);
            assert(named_reprs_sem(fs@) =~= named_reprs_sem(before).push(ms[k as int]));
        }
        k += 1;
    }
}

fn derive_path(t: &Types, c: &Cuts, atoms: &Vec<u32>, n: usize) -> (r: Repr)
    requires
        types_wf(*t),
        cuts_wf(*t, *c),
        numbers_below(atoms@, t.rec_atoms.len() as nat),
    ensures
        r.sem() == path_layout(*t, c@, atoms@, n as nat),
    decreases n, 3int,
{
    if atoms.len() == 1 {
        assert(atoms@[0] < t.rec_atoms.len());
        let a: u32 = atoms[0];
        if c.atoms[a as usize] {
            return Repr::BoxedRec(a);
        }
        return derive_record(t, c, a, n);
    }
    let mut name: Option<String> = None;
    let mut k: usize = 0;
    while k < atoms.len() && name.is_none()
        invariant
            k <= atoms.len(),
            types_wf(*t),
            numbers_below(atoms@, t.rec_atoms.len() as nat),
            name is None ==> joint_name(*t, atoms@, 0) == joint_name(*t, atoms@, k as int),
            name matches Some(x) ==> joint_name(*t, atoms@, 0) == Some(x@),
        decreases atoms.len() - k,
    {
        assert(atoms@[k as int] < t.rec_atoms.len());
        name = name_of_record(t, atoms[k]);
        k += 1;
    }
    assert(opt_name_of(name) == joint_name(*t, atoms@, 0));
    let mut fields: Vec<(String, Repr)> = Vec::new();
    let mut k: usize = 0;
    assert(named_reprs_sem(fields@) =~= joint_fields(*t, c@, atoms@, 0, n as nat));
    while k < atoms.len()
        invariant
            k <= atoms.len(),
            types_wf(*t),
            cuts_wf(*t, *c),
            numbers_below(atoms@, t.rec_atoms.len() as nat),
            named_reprs_sem(fields@) == joint_fields(*t, c@, atoms@, k as int, n as nat),
        decreases atoms.len() - k,
    {
        assert(atoms@[k as int] < t.rec_atoms.len());
        let x = derive_record(t, c, atoms[k], n);
        if let Repr::Record { fields: fs, .. } = &x {
            add_fields(&mut fields, fs);
        }
        k += 1;
    }
    let r = Repr::Record { name, fields };
    assert(r.sem() == SRepr::Record {
        name: opt_name_of(name),
        fields: named_reprs_sem(fields@),
    });
    r
}

fn repr_is_there(rs: &Vec<Repr>, r: &Repr) -> (b: bool)
    ensures
        b == reprs_sem(rs@).contains(r.sem()),
{
    let ghost s = reprs_sem(rs@);
    let mut i: usize = 0;
    while i < rs.len()
        invariant
            i <= rs.len(),
            s == reprs_sem(rs@),
            forall|k: int| 0 <= k < i ==> #[trigger] s[k] != r.sem(),
        decreases rs.len() - i,
    {
        assert(s[i as int] == rs[i as int].sem());
        if rs[i].same(r) {
            assert(s[i as int] == r.sem());
            return true;
        }
        i += 1;
    }
    false
}

fn derive_records(t: &Types, c: &Cuts, ps: &Vec<Path>, n: usize) -> (r: Vec<Repr>)
    requires
        types_wf(*t),
        cuts_wf(*t, *c),
        paths_below(ps@, t.rec_atoms.len() as nat),
    ensures
        reprs_sem(r@) == records(*t, c@, ps@, ps@.len() as int, n as nat),
    decreases n, 4int,
{
    let mut r: Vec<Repr> = Vec::new();
    let mut k: usize = 0;
    assert(reprs_sem(r@) =~= records(*t, c@, ps@, 0, n as nat));
    while k < ps.len()
        invariant
            k <= ps.len(),
            types_wf(*t),
            cuts_wf(*t, *c),
            paths_below(ps@, t.rec_atoms.len() as nat),
            reprs_sem(r@) == records(*t, c@, ps@, k as int, n as nat),
        decreases ps.len() - k,
    {
        assert(numbers_below(ps@[k as int].pos@, t.rec_atoms.len() as nat));
        if ps[k].pos.len() > 0 {
            let x = derive_path(t, c, &ps[k].pos, n);
            if !repr_is_there(&r, &x) {
                let ghost before = r@;
                r.push(x);
                assert(reprs_sem(r@) =~= reprs_sem(before).push(x.sem()));
            }
        }
        k += 1;
    }
    r
}

fn derive_components(t: &Types, c: &Cuts, ty: TyId, n: usize) -> (r: Repr)
    requires
        types_wf(*t),
        cuts_wf(*t, *c),
        ty.0 < t.data.len(),
    ensures
        r.sem() == components(*t, c@, ty, n as nat),
    decreases n, 5int,
{
    let d = &t.data[ty.0 as usize];
    assert(data_wf(*t, t.data[ty.0 as int]));
    if is_any(d) {
        return Repr::Any;
    }
    let mut r = scalars_of(t, d);
    let ghost r0 = reprs_sem(r@);
    let mut rs = derive_records(t, c, &d.records, n);
    let ghost (x, y) = (r@, rs@);
    r.append(&mut rs);
    assert(reprs_sem(r@) =~= reprs_sem(x) + reprs_sem(y));
    let ghost r1 = reprs_sem(r@);
    let ts = positive_atoms(&d.tuples);
    proof {
        lemma_positive_below(d.tuples@, d.tuples@.len() as int, t.tup_atoms.len() as nat);
        lemma_positive_below(d.arrows@, d.arrows@.len() as int, t.arrow_atoms.len() as nat);
    }
    let ghost tl = tuple_layouts(*t, c@, ts@, n as nat);
    let mut k: usize = 0;
    assert(reprs_sem(r@) =~= r1 + tl.take(0));
    while k < ts.len()
        invariant
            k <= ts.len(),
            types_wf(*t),
            cuts_wf(*t, *c),
            numbers_below(ts@, t.tup_atoms.len() as nat),
            tl == tuple_layouts(*t, c@, ts@, n as nat),
            reprs_sem(r@) == r1 + tl.take(k as int),
        decreases ts.len() - k,
    {
        assert(ts@[k as int] < t.tup_atoms.len());
        let es = &t.tup_atoms[ts[k] as usize].elems;
        assert(types_below(t.tup_atoms[ts@[k as int] as int].elems@, t.data.len() as nat));
        let x = if es.len() == 0 {
            Repr::Unit
        } else {
            Repr::Tuple(derive_all(t, c, es, n))
        };
        assert(x.sem() == tl[k as int]);
        let ghost before = r@;
        r.push(x);
        assert(reprs_sem(r@) =~= reprs_sem(before).push(x.sem()));
        k += 1;
        assert(reprs_sem(r@) =~= r1 + tl.take(k as int));
    }
    assert(tl.take(k as int) =~= tl);
    let ghost r2 = reprs_sem(r@);
    let xs = positive_atoms(&d.arrows);
    let ghost al = arrow_layouts(*t, c@, xs@, n as nat);
    let mut k: usize = 0;
    assert(reprs_sem(r@) =~= r2 + al.take(0));
    while k < xs.len()
        invariant
            k <= xs.len(),
            types_wf(*t),
            cuts_wf(*t, *c),
            numbers_below(xs@, t.arrow_atoms.len() as nat),
            al == arrow_layouts(*t, c@, xs@, n as nat),
            reprs_sem(r@) == r2 + al.take(k as int),
        decreases xs.len() - k,
    {
        assert(xs@[k as int] < t.arrow_atoms.len());
        let a = &t.arrow_atoms[xs[k] as usize];
        assert(arrow_wf(*t, t.arrow_atoms[xs@[k as int] as int]));
        let x = Repr::Closure {
            params: derive_all(t, c, &a.params, n),
            throws: Box::new(derive(t, c, a.throws, false, n)),
            ret: Box::new(derive(t, c, a.ret, false, n)),
        };
        assert(x.sem() == al[k as int]);
        let ghost before = r@;
        r.push(x);
        assert(reprs_sem(r@) =~= reprs_sem(before).push(x.sem()));
        k += 1;
        assert(reprs_sem(r@) =~= r2 + al.take(k as int));
    }
    assert(al.take(k as int) =~= al);
    combine_reprs(r)
}

// ---- what a pointer points at ----

pub open spec fn opt_id(ty: Option<TyId>) -> Seq<usize> {
    match ty {
        Some(ty) => seq![ty.0 as usize],
        None => seq![],
    }
}

/// The types that the layout of a record goes on to.
pub open spec fn record_steps(t: Types, a: u32) -> Seq<usize> {
    match kind_of(t, a) {
        SKind::Runtime(_, _) => ids(args_from(t, a, 0)),
        SKind::List => opt_id(field_ty(t, a, slot(0))),
        SKind::Mapping => opt_id(field_ty(t, a, slot(0))) + opt_id(field_ty(t, a, slot(1))),
        SKind::Plain => {
            let fs = t.rec_atoms@[a as int].fields@;
            held_fields(t, fs, fs.len() as int)
        },
    }
}

pub open spec fn records_steps(t: Types, atoms: Seq<u32>, k: int) -> Seq<usize>
    decreases k,
{
    if k <= 0 {
        seq![]
    } else {
        records_steps(t, atoms, k - 1) + record_steps(t, atoms[k - 1])
    }
}

/// The types that the layouts of the first `k` paths go on to. A path that is one pointer
/// goes nowhere.
pub open spec fn path_steps(t: Types, boxed: Seq<bool>, ps: Seq<Path>, k: int) -> Seq<usize>
    decreases k,
{
    if k <= 0 {
        seq![]
    } else {
        let before = path_steps(t, boxed, ps, k - 1);
        let atoms = ps[k - 1].pos@;
        if atoms.len() == 1 && boxed[atoms[0] as int] {
            before
        } else {
            before + records_steps(t, atoms, atoms.len() as int)
        }
    }
}

/// The types that the layout of a type goes on to.
pub open spec fn steps(t: Types, boxed: Seq<bool>, ty: int) -> Seq<usize> {
    let d = t.data@[ty];
    if is_top(d) {
        seq![]
    } else {
        path_steps(t, boxed, d.records@, d.records@.len() as int) + tuple_parts(
            t,
            tup_atoms_of(d),
            tup_atoms_of(d).len() as int,
        ) + arrow_parts(t, arrow_atoms_of(d), arrow_atoms_of(d).len() as int)
    }
}

pub open spec fn layout_graph(t: Types, boxed: Seq<bool>) -> Seq<Seq<usize>> {
    Seq::new(t.data@.len(), |i: int| steps(t, boxed, i))
}

/// Where the layout of what a pointer points at is cut.
///
/// Pointers cut every cycle that closes through records, so that only the cycles which the
/// layout itself goes round are cut here.
pub open spec fn shape_cut(t: Types, boxed: Seq<bool>) -> Cut {
    Cut {
        types: Seq::new(t.data@.len(), |i: int| on_cycle(layout_graph(t, boxed), i)),
        atoms: boxed,
    }
}

/// The layout of what a pointer to a record points at.
pub open spec fn shape_of(t: Types, a: u32, boxed: Seq<bool>) -> SRepr {
    record_layout(t, shape_cut(t, boxed), a, t.data@.len() + 1)
}

/// All field types.
pub open spec fn all_fields(fs: Seq<(u32, TyId)>) -> Seq<usize> {
    Seq::new(fs.len(), |i: int| fs[i].1.0 as usize)
}

/// The records of a type, as nodes behind the types.
pub open spec fn record_nodes(t: Types, atoms: Seq<u32>) -> Seq<usize> {
    Seq::new(atoms.len(), |i: int| (t.data@.len() + atoms[i]) as usize)
}

/// Types and records as a graph, the records behind the types: from each to all that it
/// mentions.
pub open spec fn whole_graph(t: Types) -> Seq<Seq<usize>> {
    Seq::new(
        t.data@.len() + t.rec_atoms@.len(),
        |i: int|
            if i < t.data@.len() {
                let d = t.data@[i];
                record_nodes(t, rec_atoms_of(d)) + tuple_parts(
                    t,
                    tup_atoms_of(d),
                    tup_atoms_of(d).len() as int,
                ) + arrow_parts(t, arrow_atoms_of(d), arrow_atoms_of(d).len() as int)
            } else {
                all_fields(t.rec_atoms@[i - t.data@.len()].fields@)
            },
    )
}

/// Whether a type mentions a record, itself or through others.
pub open spec fn mentions(t: Types, ty: TyId, a: int) -> bool {
    let n = t.data@.len() + t.rec_atoms@.len();
    reached(whole_graph(t), nowhere(n), only(n, ty.0 as int), t.data@.len() + a)
}

/// Whether a type is made of another, itself or through others.
pub open spec fn contains_type(t: Types, ty: TyId, u: int) -> bool {
    reached(type_graph(t), nowhere(t.data@.len()), only(t.data@.len(), ty.0 as int), u)
}

pub open spec fn has_atom(out: Seq<(u32, SRepr)>, a: int) -> bool {
    exists|i: int| 0 <= i < out.len() && (#[trigger] out[i]).0 == a
}

/// A table of shapes, with those of the first `n` records added that a type mentions and
/// that are pointers.
pub open spec fn with_shapes(t: Types, ty: TyId, out: Seq<(u32, SRepr)>, n: int) -> Seq<(u32, SRepr)>
    decreases n,
{
    if n <= 0 {
        out
    } else {
        let before = with_shapes(t, ty, out, n - 1);
        if is_boxed(t, n - 1) && mentions(t, ty, n - 1) && !has_atom(before, n - 1) {
            before.push(((n - 1) as u32, shape_of(t, (n - 1) as u32, cut_of(t).atoms)))
        } else {
            before
        }
    }
}

pub open spec fn has_type(out: Seq<(TyId, SRepr)>, u: int) -> bool {
    exists|i: int| 0 <= i < out.len() && (#[trigger] out[i]).0.0 == u
}

/// A table of layouts, with those of the first `n` types added that a type is made of and
/// that lie on cycles.
pub open spec fn with_unfoldings(t: Types, ty: TyId, out: Seq<(TyId, SRepr)>, n: int) -> Seq<
    (TyId, SRepr),
>
    decreases n,
{
    if n <= 0 {
        out
    } else {
        let before = with_unfoldings(t, ty, out, n - 1);
        if is_cyclic(t, n - 1) && contains_type(t, ty, n - 1) && !has_type(before, n - 1) {
            before.push((TyId((n - 1) as u32), layout_of(t, TyId((n - 1) as u32))))
        } else {
            before
        }
    }
}

// ---- building the graphs ----

spec fn all_below(s: Seq<usize>, n: nat) -> bool {
    forall|i: int| 0 <= i < s.len() ==> (#[trigger] s[i]) < n
}

fn add_ids(row: &mut Vec<usize>, tys: &Vec<TyId>, Ghost(n): Ghost<nat>)
    requires
        types_below(tys@, n),
        all_below(old(row)@, n),
    ensures
        final(row)@ == old(row)@ + ids(tys@),
        all_below(final(row)@, n),
{
    let ghost r0 = row@;
    let mut i: usize = 0;
    assert(row@ =~= r0 + ids(tys@).take(0));
    while i < tys.len()
        invariant
            i <= tys.len(),
            types_below(tys@, n),
            all_below(row@, n),
            row@ == r0 + ids(tys@).take(i as int),
        decreases tys.len() - i,
    {
        assert(tys@[i as int].0 < n);
        row.push(tys[i].0 as usize);
        i += 1;
        assert(row@ =~= r0 + ids(tys@).take(i as int));
    }
    assert(ids(tys@).take(i as int) =~= ids(tys@));
}

/// Which fields of a record to follow.
enum Follow {
    Parts,
    Values,
    All,
}

spec fn followed(t: Types, w: Follow, fs: Seq<(u32, TyId)>, k: int) -> Seq<usize> {
    match w {
        Follow::Parts => part_fields(t, fs, k),
        Follow::Values => held_fields(t, fs, k),
        Follow::All => all_fields(fs).take(k),
    }
}

fn add_fields_of(row: &mut Vec<usize>, t: &Types, a: u32, w: &Follow, Ghost(n): Ghost<nat>)
    requires
        types_wf(*t),
        a < t.rec_atoms.len(),
        t.data.len() <= n,
        all_below(old(row)@, n),
    ensures
        final(row)@ == old(row)@ + followed(
            *t,
            *w,
            t.rec_atoms@[a as int].fields@,
            t.rec_atoms@[a as int].fields@.len() as int,
        ),
        all_below(final(row)@, n),
{
    let fs = &t.rec_atoms[a as usize].fields;
    assert(rec_wf(*t, t.rec_atoms[a as int]));
    let ghost r0 = row@;
    let s0 = slot_name(0);
    let s1 = slot_name(1);
    let mut k: usize = 0;
    assert(row@ =~= r0 + followed(*t, *w, fs@, 0));
    while k < fs.len()
        invariant
            k <= fs.len(),
            types_wf(*t),
            t.data.len() <= n,
            rec_wf(*t, t.rec_atoms[a as int]),
            fs@ == t.rec_atoms[a as int].fields@,
            s0@ == slot(0),
            s1@ == slot(1),
            all_below(row@, n),
            row@ == r0 + followed(*t, *w, fs@, k as int),
        decreases fs.len() - k,
    {
        assert(t.rec_atoms[a as int].fields[k as int].0 < t.names.len());
        let (label, ty) = fs[k];
        let name = &t.names[label as usize];
        let take = match w {
            Follow::Parts => is_value_name(name.as_str()) || str_eq(name.as_str(), s0.as_str())
                || str_eq(name.as_str(), s1.as_str()),
            Follow::Values => is_value_name(name.as_str()),
            Follow::All => true,
        };
        if take {
            row.push(ty.0 as usize);
        }
        k += 1;
        assert(row@ =~= r0 + followed(*t, *w, fs@, k as int));
    }
    assert(all_fields(fs@).take(k as int) =~= all_fields(fs@));
}

fn add_tuples(row: &mut Vec<usize>, t: &Types, d: &TyData, Ghost(n): Ghost<nat>)
    requires
        types_wf(*t),
        data_wf(*t, *d),
        t.data.len() <= n,
        all_below(old(row)@, n),
    ensures
        final(row)@ == old(row)@ + tuple_parts(
            *t,
            tup_atoms_of(*d),
            tup_atoms_of(*d).len() as int,
        ),
        all_below(final(row)@, n),
{
    let ghost r0 = row@;
    let ts = positive_atoms(&d.tuples);
    proof {
        lemma_positive_below(d.tuples@, d.tuples@.len() as int, t.tup_atoms.len() as nat);
    }
    let mut k: usize = 0;
    assert(row@ =~= r0 + tuple_parts(*t, ts@, 0));
    while k < ts.len()
        invariant
            k <= ts.len(),
            types_wf(*t),
            t.data.len() <= n,
            numbers_below(ts@, t.tup_atoms.len() as nat),
            all_below(row@, n),
            row@ == r0 + tuple_parts(*t, ts@, k as int),
        decreases ts.len() - k,
    {
        assert(ts@[k as int] < t.tup_atoms.len());
        let es = &t.tup_atoms[ts[k] as usize].elems;
        assert(types_below(t.tup_atoms[ts@[k as int] as int].elems@, t.data.len() as nat));
        assert(types_below(es@, n)) by {
            assert forall|i: int| 0 <= i < es@.len() implies (#[trigger] es@[i]).0 < n by {}
        }
        add_ids(row, es, Ghost(n));
        k += 1;
        assert(row@ =~= r0 + tuple_parts(*t, ts@, k as int));
    }
}

fn add_arrows(row: &mut Vec<usize>, t: &Types, d: &TyData, Ghost(n): Ghost<nat>)
    requires
        types_wf(*t),
        data_wf(*t, *d),
        t.data.len() <= n,
        all_below(old(row)@, n),
    ensures
        final(row)@ == old(row)@ + arrow_parts(
            *t,
            arrow_atoms_of(*d),
            arrow_atoms_of(*d).len() as int,
        ),
        all_below(final(row)@, n),
{
    let ghost r0 = row@;
    let xs = positive_atoms(&d.arrows);
    proof {
        lemma_positive_below(d.arrows@, d.arrows@.len() as int, t.arrow_atoms.len() as nat);
    }
    let mut k: usize = 0;
    assert(row@ =~= r0 + arrow_parts(*t, xs@, 0));
    while k < xs.len()
        invariant
            k <= xs.len(),
            types_wf(*t),
            t.data.len() <= n,
            numbers_below(xs@, t.arrow_atoms.len() as nat),
            all_below(row@, n),
            row@ == r0 + arrow_parts(*t, xs@, k as int),
        decreases xs.len() - k,
    {
        assert(xs@[k as int] < t.arrow_atoms.len());
        let a = &t.arrow_atoms[xs[k] as usize];
        assert(arrow_wf(*t, t.arrow_atoms[xs@[k as int] as int]));
        let ps = &a.params;
        assert(types_below(ps@, n)) by {
            assert forall|i: int| 0 <= i < ps@.len() implies (#[trigger] ps@[i]).0 < n by {}
        }
        add_ids(row, ps, Ghost(n));
        row.push(a.throws.0 as usize);
        row.push(a.ret.0 as usize);
        k += 1;
        assert(row@ =~= r0 + arrow_parts(*t, xs@, k as int));
    }
}

fn graph_of_types(t: &Types) -> (g: Vec<Vec<usize>>)
    requires
        types_wf(*t),
    ensures
        adj(g@) == type_graph(*t),
        graph_wf(adj(g@)),
{
    let n: usize = t.data.len();
    let mut g: Vec<Vec<usize>> = Vec::new();
    let mut i: usize = 0;
    while i < n
        invariant
            i <= n == t.data.len(),
            types_wf(*t),
            g.len() == i,
            forall|k: int|
                0 <= k < i ==> (#[trigger] g[k])@ == parts(*t, k) && all_below(g[k]@, n as nat),
        decreases n - i,
    {
        let d = &t.data[i];
        assert(data_wf(*t, t.data[i as int]));
        let mut row: Vec<usize> = Vec::new();
        let xs = positive_atoms(&d.records);
        proof {
            lemma_positive_below(d.records@, d.records@.len() as int, t.rec_atoms.len() as nat);
        }
        let mut k: usize = 0;
        assert(row@ =~= record_parts(*t, xs@, 0));
        while k < xs.len()
            invariant
                k <= xs.len(),
                n == t.data.len(),
                types_wf(*t),
                numbers_below(xs@, t.rec_atoms.len() as nat),
                all_below(row@, n as nat),
                row@ == record_parts(*t, xs@, k as int),
            decreases xs.len() - k,
        {
            assert(xs@[k as int] < t.rec_atoms.len());
            add_fields_of(&mut row, t, xs[k], &Follow::Parts, Ghost(n as nat));
            k += 1;
        }
        add_tuples(&mut row, t, d, Ghost(n as nat));
        add_arrows(&mut row, t, d, Ghost(n as nat));
        assert(row@ =~= parts(*t, i as int));
        g.push(row);
        i += 1;
    }
    assert(adj(g@) =~= type_graph(*t));
    assert(graph_wf(adj(g@))) by {
        assert forall|a: int, k: int|
            0 <= a < adj(g@).len() && 0 <= k < adj(g@)[a].len() implies (#[trigger] adj(g@)[a][k])
            < adj(g@).len() by {
            assert(all_below(g[a]@, n as nat));
            assert(g[a]@[k] < n);
        }
    }
    g
}

fn graph_of_values(t: &Types) -> (g: Vec<Vec<usize>>)
    requires
        types_wf(*t),
    ensures
        adj(g@) == value_graph(*t),
        graph_wf(adj(g@)),
{
    let n: usize = t.data.len();
    let m: usize = n + t.rec_atoms.len();
    let mut g: Vec<Vec<usize>> = Vec::new();
    let mut i: usize = 0;
    while i < m
        invariant
            i <= m,
            n == t.data.len(),
            m == n + t.rec_atoms.len(),
            types_wf(*t),
            g.len() == i,
            forall|k: int|
                0 <= k < i ==> (#[trigger] g[k])@ == value_graph(*t)[k] && all_below(
                    g[k]@,
                    m as nat,
                ),
        decreases m - i,
    {
        let mut row: Vec<usize> = Vec::new();
        if i < n {
            let d = &t.data[i];
            assert(data_wf(*t, t.data[i as int]));
            let xs = positive_atoms(&d.records);
            proof {
                lemma_positive_below(d.records@, d.records@.len() as int, t.rec_atoms.len() as nat);
            }
            let mut k: usize = 0;
            assert(row@ =~= held_records(*t, xs@, 0));
            while k < xs.len()
                invariant
                    k <= xs.len(),
                    n == t.data.len(),
                    m == n + t.rec_atoms.len(),
                    types_wf(*t),
                    numbers_below(xs@, t.rec_atoms.len() as nat),
                    all_below(row@, m as nat),
                    row@ == held_records(*t, xs@, k as int),
                decreases xs.len() - k,
            {
                assert(xs@[k as int] < t.rec_atoms.len());
                let container = match name_of_record(t, xs[k]) {
                    Some(x) => names_list(x.as_str()) || names_map(x.as_str()),
                    None => false,
                };
                if !container {
                    row.push(n + xs[k] as usize);
                }
                k += 1;
            }
            add_tuples(&mut row, t, d, Ghost(m as nat));
            assert(row@ =~= held_by(*t, i as int));
        } else {
            add_fields_of(&mut row, t, (i - n) as u32, &Follow::Values, Ghost(m as nat));
            assert(row@ =~= value_graph(*t)[i as int]);
        }
        g.push(row);
        i += 1;
    }
    assert(adj(g@) =~= value_graph(*t));
    assert(graph_wf(adj(g@))) by {
        assert forall|a: int, k: int|
            0 <= a < adj(g@).len() && 0 <= k < adj(g@)[a].len() implies (#[trigger] adj(g@)[a][k])
            < adj(g@).len() by {
            assert(all_below(g[a]@, m as nat));
            assert(g[a]@[k] < m);
        }
    }
    g
}

fn graph_of_all(t: &Types) -> (g: Vec<Vec<usize>>)
    requires
        types_wf(*t),
    ensures
        adj(g@) == whole_graph(*t),
        graph_wf(adj(g@)),
{
    let n: usize = t.data.len();
    let m: usize = n + t.rec_atoms.len();
    let mut g: Vec<Vec<usize>> = Vec::new();
    let mut i: usize = 0;
    while i < m
        invariant
            i <= m,
            n == t.data.len(),
            m == n + t.rec_atoms.len(),
            types_wf(*t),
            g.len() == i,
            forall|k: int|
                0 <= k < i ==> (#[trigger] g[k])@ == whole_graph(*t)[k] && all_below(
                    g[k]@,
                    m as nat,
                ),
        decreases m - i,
    {
        let mut row: Vec<usize> = Vec::new();
        if i < n {
            let d = &t.data[i];
            assert(data_wf(*t, t.data[i as int]));
            let xs = positive_atoms(&d.records);
            proof {
                lemma_positive_below(d.records@, d.records@.len() as int, t.rec_atoms.len() as nat);
            }
            let mut k: usize = 0;
            while k < xs.len()
                invariant
                    k <= xs.len(),
                    n == t.data.len(),
                    m == n + t.rec_atoms.len(),
                    m < u32::MAX,
                    numbers_below(xs@, t.rec_atoms.len() as nat),
                    all_below(row@, m as nat),
                    row.len() == k,
                    forall|j: int| 0 <= j < k ==> #[trigger] row[j] == n + xs@[j],
                decreases xs.len() - k,
            {
                assert(xs@[k as int] < t.rec_atoms.len());
                row.push(n + xs[k] as usize);
                k += 1;
            }
            assert(row@ =~= record_nodes(*t, xs@));
            add_tuples(&mut row, t, d, Ghost(m as nat));
            add_arrows(&mut row, t, d, Ghost(m as nat));
            assert(row@ =~= whole_graph(*t)[i as int]);
        } else {
            add_fields_of(&mut row, t, (i - n) as u32, &Follow::All, Ghost(m as nat));
            assert(all_fields(t.rec_atoms@[i - n].fields@).take(
                t.rec_atoms@[i - n].fields@.len() as int,
            ) =~= all_fields(t.rec_atoms@[i - n].fields@));
            assert(row@ =~= whole_graph(*t)[i as int]);
        }
        g.push(row);
        i += 1;
    }
    assert(adj(g@) =~= whole_graph(*t));
    assert(graph_wf(adj(g@))) by {
        assert forall|a: int, k: int|
            0 <= a < adj(g@).len() && 0 <= k < adj(g@)[a].len() implies (#[trigger] adj(g@)[a][k])
            < adj(g@).len() by {
            assert(all_below(g[a]@, m as nat));
            assert(g[a]@[k] < m);
        }
    }
    g
}

fn add_opt(row: &mut Vec<usize>, ty: Option<TyId>, Ghost(n): Ghost<nat>)
    requires
        ty matches Some(x) ==> x.0 < n,
        all_below(old(row)@, n),
    ensures
        final(row)@ == old(row)@ + opt_id(ty),
        all_below(final(row)@, n),
{
    match ty {
        Some(x) => row.push(x.0 as usize),
        None => {},
    }
    assert(row@ =~= old(row)@ + opt_id(ty));
}

fn add_steps(row: &mut Vec<usize>, t: &Types, a: u32)
    requires
        types_wf(*t),
        a < t.rec_atoms.len(),
        all_below(old(row)@, t.data.len() as nat),
    ensures
        final(row)@ == old(row)@ + record_steps(*t, a),
        all_below(final(row)@, t.data.len() as nat),
{
    let ghost n = t.data.len() as nat;
    let ghost r0 = row@;
    match kind(t, a) {
        Kind::Runtime(_, _) => {
            let tys = args_of(t, a);
            add_ids(row, &tys, Ghost(n));
        },
        Kind::List => {
            let s = slot_name(0);
            add_opt(row, find_field(t, a, s.as_str()), Ghost(n));
        },
        Kind::Mapping => {
            let s = slot_name(0);
            add_opt(row, find_field(t, a, s.as_str()), Ghost(n));
            let s = slot_name(1);
            add_opt(row, find_field(t, a, s.as_str()), Ghost(n));
            assert(row@ =~= r0 + record_steps(*t, a));
        },
        Kind::Plain => {
            add_fields_of(row, t, a, &Follow::Values, Ghost(n));
        },
    }
}

fn graph_of_layouts(t: &Types, boxed: &Vec<bool>) -> (g: Vec<Vec<usize>>)
    requires
        types_wf(*t),
        boxed.len() == t.rec_atoms.len(),
    ensures
        adj(g@) == layout_graph(*t, boxed@),
        graph_wf(adj(g@)),
{
    let n: usize = t.data.len();
    let mut g: Vec<Vec<usize>> = Vec::new();
    let mut i: usize = 0;
    while i < n
        invariant
            i <= n == t.data.len(),
            types_wf(*t),
            boxed.len() == t.rec_atoms.len(),
            g.len() == i,
            forall|k: int|
                0 <= k < i ==> (#[trigger] g[k])@ == steps(*t, boxed@, k) && all_below(
                    g[k]@,
                    n as nat,
                ),
        decreases n - i,
    {
        let d = &t.data[i];
        assert(data_wf(*t, t.data[i as int]));
        let mut row: Vec<usize> = Vec::new();
        if !is_any(d) {
            add_path_steps(&mut row, t, boxed, &d.records);
            add_tuples(&mut row, t, d, Ghost(n as nat));
            add_arrows(&mut row, t, d, Ghost(n as nat));
        }
        assert(row@ =~= steps(*t, boxed@, i as int));
        g.push(row);
        i += 1;
    }
    assert(adj(g@) =~= layout_graph(*t, boxed@));
    assert(graph_wf(adj(g@))) by {
        assert forall|a: int, k: int|
            0 <= a < adj(g@).len() && 0 <= k < adj(g@)[a].len() implies (#[trigger] adj(g@)[a][k])
            < adj(g@).len() by {
            assert(all_below(g[a]@, n as nat));
            assert(g[a]@[k] < n);
        }
    }
    g
}

fn add_path_steps(row: &mut Vec<usize>, t: &Types, boxed: &Vec<bool>, ps: &Vec<Path>)
    requires
        types_wf(*t),
        boxed.len() == t.rec_atoms.len(),
        paths_below(ps@, t.rec_atoms.len() as nat),
        old(row)@.len() == 0,
    ensures
        final(row)@ == path_steps(*t, boxed@, ps@, ps@.len() as int),
        all_below(final(row)@, t.data.len() as nat),
{
    let mut k: usize = 0;
    assert(row@ =~= path_steps(*t, boxed@, ps@, 0));
    while k < ps.len()
        invariant
            k <= ps.len(),
            types_wf(*t),
            boxed.len() == t.rec_atoms.len(),
            paths_below(ps@, t.rec_atoms.len() as nat),
            all_below(row@, t.data.len() as nat),
            row@ == path_steps(*t, boxed@, ps@, k as int),
        decreases ps.len() - k,
    {
        let atoms = &ps[k].pos;
        assert(numbers_below(ps@[k as int].pos@, t.rec_atoms.len() as nat));
        assert(atoms@.len() > 0 ==> atoms@[0] < t.rec_atoms.len());
        let ghost before = row@;
        if !(atoms.len() == 1 && boxed[atoms[0] as usize]) {
            let mut j: usize = 0;
            assert(row@ =~= before + records_steps(*t, atoms@, 0));
            while j < atoms.len()
                invariant
                    j <= atoms.len(),
                    types_wf(*t),
                    numbers_below(atoms@, t.rec_atoms.len() as nat),
                    all_below(row@, t.data.len() as nat),
                    row@ == before + records_steps(*t, atoms@, j as int),
                decreases atoms.len() - j,
            {
                assert(atoms@[j as int] < t.rec_atoms.len());
                add_steps(row, t, atoms[j]);
                j += 1;
                assert(row@ =~= before + records_steps(*t, atoms@, j as int));
            }
        }
        k += 1;
    }
}

// ---- the layouts of a program ----

/// Where the layouts of a program's types are cut.
pub fn cuts(t: &Types) -> (c: Cuts)
    requires
        types_wf(*t),
    ensures
        c@ == cut_of(*t),
        cuts_wf(*t, c),
{
    let n: usize = t.data.len();
    let g = graph_of_types(t);
    assert(adj(g@).len() == g.len());
    let mut types: Vec<bool> = Vec::new();
    let mut i: usize = 0;
    while i < n
        invariant
            i <= n == g.len(),
            adj(g@) == type_graph(*t),
            graph_wf(adj(g@)),
            types.len() == i,
            forall|k: int| 0 <= k < i ==> #[trigger] types[k] == is_cyclic(*t, k),
        decreases n - i,
    {
        types.push(is_on_cycle(&g, i));
        i += 1;
    }
    assert(types@ =~= cut_of(*t).types);
    let h = graph_of_values(t);
    assert(adj(h@).len() == h.len());
    let mut atoms: Vec<bool> = Vec::new();
    let mut i: usize = 0;
    while i < t.rec_atoms.len()
        invariant
            i <= t.rec_atoms.len(),
            n == t.data.len(),
            h.len() == n + t.rec_atoms.len(),
            adj(h@) == value_graph(*t),
            graph_wf(adj(h@)),
            atoms.len() == i,
            forall|k: int| 0 <= k < i ==> #[trigger] atoms[k] == is_boxed(*t, k),
        decreases t.rec_atoms.len() - i,
    {
        atoms.push(is_on_cycle(&h, n + i));
        i += 1;
    }
    assert(atoms@ =~= cut_of(*t).atoms);
    Cuts { types, atoms }
}

/// The layout of a type, with the cuts of its table at hand.
pub fn repr_with(t: &Types, c: &Cuts, ty: TyId) -> (r: Repr)
    requires
        types_wf(*t),
        c@ == cut_of(*t),
        ty.0 < t.data.len(),
    ensures
        r.sem() == layout_of(*t, ty),
{
    assert(c@.types.len() == t.data.len());
    assert(c@.atoms.len() == t.rec_atoms.len());
    derive(t, c, ty, true, t.data.len() + 1)
}

/// The layout of a type. Every type has one; what admits nothing is `Never`.
pub fn repr_of(t: &Types, ty: TyId) -> (r: Repr)
    requires
        types_wf(*t),
        ty.0 < t.data.len(),
    ensures
        r.sem() == layout_of(*t, ty),
{
    let c = cuts(t);
    repr_with(t, &c, ty)
}

/// The layout of what a pointer to a record points at. `boxed` says of each record whether
/// it is a pointer.
pub fn repr_shape(t: &Types, atom: u32, boxed: &Vec<bool>) -> (r: Repr)
    requires
        types_wf(*t),
        atom < t.rec_atoms.len(),
        boxed.len() == t.rec_atoms.len(),
    ensures
        r.sem() == shape_of(*t, atom, boxed@),
{
    let n: usize = t.data.len();
    let g = graph_of_layouts(t, boxed);
    assert(adj(g@).len() == g.len());
    let mut types: Vec<bool> = Vec::new();
    let mut i: usize = 0;
    while i < n
        invariant
            i <= n == g.len(),
            adj(g@) == layout_graph(*t, boxed@),
            graph_wf(adj(g@)),
            types.len() == i,
            forall|k: int|
                0 <= k < i ==> #[trigger] types[k] == on_cycle(layout_graph(*t, boxed@), k),
        decreases n - i,
    {
        types.push(is_on_cycle(&g, i));
        i += 1;
    }
    let mut atoms: Vec<bool> = Vec::new();
    let mut i: usize = 0;
    while i < boxed.len()
        invariant
            i <= boxed.len(),
            atoms.len() == i,
            forall|k: int| 0 <= k < i ==> #[trigger] atoms[k] == boxed[k],
        decreases boxed.len() - i,
    {
        atoms.push(boxed[i]);
        i += 1;
    }
    let c = Cuts { types, atoms };
    assert(c@.types =~= shape_cut(*t, boxed@).types);
    assert(c@.atoms =~= boxed@);
    derive_record(t, &c, atom, n + 1)
}

/// A table of shapes as a mathematical value.
pub open spec fn shapes_sem(s: Seq<(u32, Repr)>) -> Seq<(u32, SRepr)> {
    s.map_values(|p: (u32, Repr)| (p.0, p.1.sem()))
}

/// A table of layouts as a mathematical value.
pub open spec fn unfoldings_sem(s: Seq<(TyId, Repr)>) -> Seq<(TyId, SRepr)> {
    s.map_values(|p: (TyId, Repr)| (p.0, p.1.sem()))
}

/// Add to a table the records that a type mentions and that are pointers, each with what it
/// points at.
pub fn boxed_shapes(t: &Types, ty: TyId, out: &mut Vec<(u32, Repr)>)
    requires
        types_wf(*t),
        ty.0 < t.data.len(),
    ensures
        shapes_sem(final(out)@) == with_shapes(
            *t,
            ty,
            shapes_sem(old(out)@),
            t.rec_atoms.len() as int,
        ),
{
    let ghost o0 = shapes_sem(out@);
    let c = cuts(t);
    let n: usize = t.data.len();
    let m: usize = n + t.rec_atoms.len();
    let g = graph_of_all(t);
    assert(adj(g@).len() == g.len());
    let starts = only_one(m, ty.0 as usize);
    let none = none_of(m);
    let hit = reachable(&g, &starts, &none);
    assert(c@.atoms.len() == t.rec_atoms.len());
    let mut a: usize = 0;
    while a < t.rec_atoms.len()
        invariant
            a <= t.rec_atoms.len(),
            types_wf(*t),
            n == t.data.len(),
            m == n + t.rec_atoms.len() == hit.len(),
            c@ == cut_of(*t),
            c.atoms.len() == t.rec_atoms.len(),
            forall|k: int|
                0 <= k < m ==> #[trigger] hit[k] == reached(
                    whole_graph(*t),
                    nowhere(m as nat),
                    only(m as nat, ty.0 as int),
                    k,
                ),
            shapes_sem(out@) == with_shapes(*t, ty, o0, a as int),
        decreases t.rec_atoms.len() - a,
    {
        let ghost before = shapes_sem(out@);
        let mut known: bool = false;
        let mut i: usize = 0;
        while i < out.len()
            invariant
                i <= out.len(),
                before == shapes_sem(out@),
                known == exists|k: int| 0 <= k < i && (#[trigger] before[k]).0 == a,
            decreases out.len() - i,
        {
            assert(before[i as int].0 == out[i as int].0);
            if out[i].0 as usize == a {
                known = true;
            }
            i += 1;
        }
        assert(known == has_atom(before, a as int));
        assert(c@.atoms[a as int] == is_boxed(*t, a as int));
        assert(hit[n + a] == mentions(*t, ty, a as int));
        if c.atoms[a] && hit[n + a] && !known {
            let r = repr_shape(t, a as u32, &c.atoms);
            let ghost was = out@;
            out.push((a as u32, r));
            assert(shapes_sem(out@) =~= shapes_sem(was).push((a as u32, r.sem())));
        }
        a += 1;
    }
}

/// Add to a table the types that a type is made of and that lie on cycles, each with its
/// layout.
pub fn recursive_unfoldings(t: &Types, ty: TyId, out: &mut Vec<(TyId, Repr)>)
    requires
        types_wf(*t),
        ty.0 < t.data.len(),
    ensures
        unfoldings_sem(final(out)@) == with_unfoldings(
            *t,
            ty,
            unfoldings_sem(old(out)@),
            t.data.len() as int,
        ),
{
    let ghost o0 = unfoldings_sem(out@);
    let c = cuts(t);
    let n: usize = t.data.len();
    let g = graph_of_types(t);
    assert(adj(g@).len() == g.len());
    let starts = only_one(n, ty.0 as usize);
    let none = none_of(n);
    let hit = reachable(&g, &starts, &none);
    assert(c@.types.len() == t.data.len());
    let mut u: usize = 0;
    while u < n
        invariant
            u <= n == t.data.len() == hit.len(),
            types_wf(*t),
            c@ == cut_of(*t),
            c.types.len() == n,
            forall|k: int| 0 <= k < n ==> #[trigger] hit[k] == contains_type(*t, ty, k),
            unfoldings_sem(out@) == with_unfoldings(*t, ty, o0, u as int),
        decreases n - u,
    {
        let ghost before = unfoldings_sem(out@);
        let mut known: bool = false;
        let mut i: usize = 0;
        while i < out.len()
            invariant
                i <= out.len(),
                before == unfoldings_sem(out@),
                known == exists|k: int| 0 <= k < i && (#[trigger] before[k]).0.0 == u,
            decreases out.len() - i,
        {
            assert(before[i as int].0 == out[i as int].0);
            if out[i].0.0 as usize == u {
                known = true;
            }
            i += 1;
        }
        assert(known == has_type(before, u as int));
        assert(c@.types[u as int] == is_cyclic(*t, u as int));
        assert(hit[u as int] == contains_type(*t, ty, u as int));
        if c.types[u] && hit[u] && !known {
            let r = repr_with(t, &c, TyId(u as u32));
            let ghost was = out@;
            out.push((TyId(u as u32), r));
            assert(unfoldings_sem(out@) =~= unfoldings_sem(was).push((TyId(u as u32), r.sem())));
        }
        u += 1;
    }
}

/// The error of a type that is one arrow.
pub open spec fn only_arrow_throws(t: Types, ty: TyId) -> Option<TyId> {
    let xs = arrow_atoms_of(t.data@[ty.0 as int]);
    if xs.len() == 1 {
        Some(t.arrow_atoms@[xs[0] as int].throws)
    } else {
        None
    }
}

/// The error of a type that is one arrow.
pub fn arrow_throws(t: &Types, ty: TyId) -> (r: Option<TyId>)
    requires
        types_wf(*t),
        ty.0 < t.data.len(),
    ensures
        r == only_arrow_throws(*t, ty),
        r matches Some(x) ==> x.0 < t.data.len(),
{
    let d = &t.data[ty.0 as usize];
    assert(data_wf(*t, t.data[ty.0 as int]));
    let xs = positive_atoms(&d.arrows);
    proof {
        lemma_positive_below(d.arrows@, d.arrows@.len() as int, t.arrow_atoms.len() as nat);
    }
    if xs.len() == 1 {
        assert(xs@[0] < t.arrow_atoms.len());
        assert(arrow_wf(*t, t.arrow_atoms[xs@[0] as int]));
        Some(t.arrow_atoms[xs[0] as usize].throws)
    } else {
        None
    }
}

} // verus!
