//! The table of boxed records holds every pointer that a layout meets.

use super::{
    add_number, add_numbers, all_fields, args_from, arrow_atoms_of, arrow_layout, arrow_layouts,
    arrow_parts, cut_of, field_from, field_ty, has_atom, ids, is_boxed, joint_fields, kind_of,
    layout, layout_of, layouts, mentions, nominal_name, opt_layout, path_layout, positive,
    rec_atoms_of, record_layout, record_nodes, records, scalars, shape_cut, shape_of, slot,
    tup_atoms_of, tuple_layout, tuple_layouts, tuple_parts, value_fields, whole_graph, with_fields,
    with_shapes, Cut, SKind,
};
use crate::ir::graph::{edge, is_walk, nowhere, only, walk_of_one, walks};
use crate::ir::repr::{combine, SRepr};
use crate::types::{arrow_wf, data_wf, rec_wf, types_below, types_wf, Path, TyData, TyId, Types};
use vstd::prelude::*;

verus! {

/// Whether a pointer to a record occurs in a layout.
pub open spec fn holds(r: SRepr, a: u32) -> bool
    decreases r, 0int,
{
    match r {
        SRepr::BoxedRec(x) => x == a,
        SRepr::Record { fields, .. } => field_holds(fields, a),
        SRepr::Tuple(rs) => any_holds(rs, a),
        SRepr::Union(rs) => any_holds(rs, a),
        SRepr::List(e) => holds(*e, a),
        SRepr::Nullable(e) => holds(*e, a),
        SRepr::Mapping(k, v) => holds(*k, a) || holds(*v, a),
        SRepr::Runtime { args, .. } => any_holds(args, a),
        SRepr::Closure { params, throws, ret } => any_holds(params, a) || holds(*throws, a)
            || holds(*ret, a),
        _ => false,
    }
}

pub open spec fn any_holds(rs: Seq<SRepr>, a: u32) -> bool
    decreases rs, 0int,
{
    exists|i: int| 0 <= i < rs.len() && holds(#[trigger] rs[i], a)
}

pub open spec fn field_holds(fs: Seq<(Seq<char>, SRepr)>, a: u32) -> bool
    decreases fs, 0int,
{
    exists|i: int| 0 <= i < fs.len() && holds((#[trigger] fs[i]).1, a)
}

spec fn nodes(t: Types) -> nat {
    (t.data@.len() + t.rec_atoms@.len()) as nat
}

/// Whether a node of the graph of all types and records leads to another.
spec fn leads(t: Types, x: int, y: int) -> bool {
    walks(whole_graph(t), nowhere(nodes(t)), x, y)
}

/// Whether a pointer to a record is one, and can be got to from a node.
spec fn met(t: Types, c: Cut, x: int, a: u32) -> bool {
    a < t.rec_atoms@.len() && c.atoms[a as int] && leads(t, x, t.data@.len() + a)
}

proof fn lemma_step(t: Types, x: int, y: int, z: int)
    requires
        edge(whole_graph(t), x, y),
        leads(t, y, z),
    ensures
        leads(t, x, z),
{
    let g = whole_graph(t);
    let none = nowhere(nodes(t));
    let p = choose|p: Seq<int>| #[trigger] is_walk(g, none, p) && p[0] == y && p.last() == z;
    let q = seq![x] + p;
    assert forall|k: int| 0 < k < q.len() implies edge(g, q[k - 1], #[trigger] q[k])
        && !none[q[k]] by {
        assert(q[k] == p[k - 1]);
        if k > 1 {
            assert(q[k - 1] == p[k - 2]);
            assert(edge(g, p[k - 2], p[k - 1]));
        }
    }
    assert forall|k: int| 0 <= k < q.len() implies 0 <= #[trigger] q[k] < g.len() by {
        if k > 0 {
            assert(q[k] == p[k - 1]);
        }
    }
    assert(is_walk(g, none, q) && q[0] == x && q.last() == z);
}

// ---- the edges there are ----

proof fn lemma_add_number_has(s: Seq<u32>, a: u32, x: u32)
    ensures
        add_number(s, a).contains(a),
        s.contains(x) ==> add_number(s, a).contains(x),
    decreases s.len(),
{
    let r = add_number(s, a);
    if s.len() == 0 {
        assert(r[0] == a);
    } else if s.last() == a {
        assert(s[s.len() - 1] == a);
    } else if s.last() < a {
        assert(r[r.len() - 1] == a);
        if s.contains(x) {
            let k = choose|k: int| 0 <= k < s.len() && s[k] == x;
            assert(r[k] == x);
        }
    } else {
        lemma_add_number_has(s.drop_last(), a, x);
        let q = add_number(s.drop_last(), a);
        let k = choose|k: int| 0 <= k < q.len() && q[k] == a;
        assert(r[k] == a);
        if s.contains(x) {
            let j = choose|j: int| 0 <= j < s.len() && s[j] == x;
            if j < s.len() - 1 {
                assert(s.drop_last()[j] == x);
                let i = choose|i: int| 0 <= i < q.len() && q[i] == x;
                assert(r[i] == x);
            } else {
                assert(r[r.len() - 1] == x);
            }
        }
    }
}

proof fn lemma_add_numbers_has(s: Seq<u32>, xs: Seq<u32>, n: int, x: u32)
    requires
        n <= xs.len(),
    ensures
        s.contains(x) ==> add_numbers(s, xs, n).contains(x),
        forall|k: int| 0 <= k < n && #[trigger] xs[k] == x ==> add_numbers(s, xs, n).contains(x),
    decreases n,
{
    if n > 0 {
        lemma_add_numbers_has(s, xs, n - 1, x);
        lemma_add_number_has(add_numbers(s, xs, n - 1), xs[n - 1], x);
    }
}

proof fn lemma_positive_has(ps: Seq<Path>, n: int, j: int, k: int)
    requires
        0 <= j < n <= ps.len(),
        0 <= k < ps[j].pos@.len(),
    ensures
        positive(ps, n).contains(ps[j].pos@[k]),
    decreases n,
{
    let x = ps[j].pos@[k];
    if j < n - 1 {
        lemma_positive_has(ps, n - 1, j, k);
    }
    lemma_add_numbers_has(
        positive(ps, n - 1),
        ps[n - 1].pos@,
        ps[n - 1].pos@.len() as int,
        x,
    );
}

proof fn lemma_tuple_parts(t: Types, atoms: Seq<u32>, n: int, j: int, k: int)
    requires
        0 <= j < n <= atoms.len(),
        0 <= k < t.tup_atoms@[atoms[j] as int].elems@.len(),
    ensures
        tuple_parts(t, atoms, n).contains(t.tup_atoms@[atoms[j] as int].elems@[k].0 as usize),
    decreases n,
{
    let u = t.tup_atoms@[atoms[j] as int].elems@[k].0 as usize;
    let before = tuple_parts(t, atoms, n - 1);
    let more = ids(t.tup_atoms@[atoms[n - 1] as int].elems@);
    let all = tuple_parts(t, atoms, n);
    if j < n - 1 {
        lemma_tuple_parts(t, atoms, n - 1, j, k);
        let i = choose|i: int| 0 <= i < before.len() && before[i] == u;
        assert(all[i] == u);
    } else {
        assert(all[before.len() + k] == more[k]);
    }
}

proof fn lemma_arrow_parts(t: Types, atoms: Seq<u32>, n: int, j: int, u: usize)
    requires
        0 <= j < n <= atoms.len(),
        ({
            let x = t.arrow_atoms@[atoms[j] as int];
            ids(x.params@).contains(u) || u == x.throws.0 || u == x.ret.0
        }),
    ensures
        arrow_parts(t, atoms, n).contains(u),
    decreases n,
{
    let before = arrow_parts(t, atoms, n - 1);
    let a = t.arrow_atoms@[atoms[n - 1] as int];
    let mid = ids(a.params@);
    let all = arrow_parts(t, atoms, n);
    let two = seq![a.throws.0 as usize, a.ret.0 as usize];
    assert(all == before + mid + two);
    if j < n - 1 {
        lemma_arrow_parts(t, atoms, n - 1, j, u);
        let i = choose|i: int| 0 <= i < before.len() && before[i] == u;
        assert(all[i] == u);
    } else if mid.contains(u) {
        let i = choose|i: int| 0 <= i < mid.len() && mid[i] == u;
        assert(all[before.len() + i] == u);
    } else if u == a.throws.0 {
        assert(all[(before.len() + mid.len()) as int] == u);
    } else {
        assert(all[before.len() + mid.len() + 1int] == u);
    }
}

proof fn lemma_edge_to_record(t: Types, ty: TyId, j: int, k: int)
    requires
        types_wf(t),
        ty.0 < t.data@.len(),
        0 <= j < t.data@[ty.0 as int].records@.len(),
        0 <= k < t.data@[ty.0 as int].records@[j].pos@.len(),
    ensures
        ({
            let x = t.data@[ty.0 as int].records@[j].pos@[k];
            x < t.rec_atoms@.len() && edge(whole_graph(t), ty.0 as int, t.data@.len() + x)
        }),
{
    let d = t.data@[ty.0 as int];
    assert(data_wf(t, t.data[ty.0 as int]));
    let x = d.records@[j].pos@[k];
    assert(crate::types::numbers_below(d.records@[j].pos@, t.rec_atoms.len() as nat));
    lemma_positive_has(d.records@, d.records@.len() as int, j, k);
    let atoms = rec_atoms_of(d);
    let i = choose|i: int| 0 <= i < atoms.len() && atoms[i] == x;
    let row = whole_graph(t)[ty.0 as int];
    assert(row[i] == record_nodes(t, atoms)[i]);
    assert(row.contains((t.data@.len() + x) as usize));
}

proof fn lemma_edge_to_part(t: Types, ty: TyId, u: usize)
    requires
        types_wf(t),
        ty.0 < t.data@.len(),
        u < t.data@.len(),
        ({
            let d = t.data@[ty.0 as int];
            ||| tuple_parts(t, tup_atoms_of(d), tup_atoms_of(d).len() as int).contains(u)
            ||| arrow_parts(t, arrow_atoms_of(d), arrow_atoms_of(d).len() as int).contains(u)
        }),
    ensures
        edge(whole_graph(t), ty.0 as int, u as int),
{
    let d = t.data@[ty.0 as int];
    let a = record_nodes(t, rec_atoms_of(d));
    let b = tuple_parts(t, tup_atoms_of(d), tup_atoms_of(d).len() as int);
    let c = arrow_parts(t, arrow_atoms_of(d), arrow_atoms_of(d).len() as int);
    let row = whole_graph(t)[ty.0 as int];
    assert(row == a + b + c);
    if b.contains(u) {
        let i = choose|i: int| 0 <= i < b.len() && b[i] == u;
        assert(row[a.len() + i] == u);
    } else {
        let i = choose|i: int| 0 <= i < c.len() && c[i] == u;
        assert(row[a.len() + b.len() + i] == u);
    }
}

proof fn lemma_edge_to_field(t: Types, x: u32, k: int)
    requires
        types_wf(t),
        x < t.rec_atoms@.len(),
        0 <= k < t.rec_atoms@[x as int].fields@.len(),
    ensures
        t.rec_atoms@[x as int].fields@[k].1.0 < t.data@.len(),
        edge(
            whole_graph(t),
            t.data@.len() + x,
            t.rec_atoms@[x as int].fields@[k].1.0 as int,
        ),
{
    assert(rec_wf(t, t.rec_atoms[x as int]));
    let fs = t.rec_atoms@[x as int].fields@;
    assert(t.rec_atoms[x as int].fields[k].1.0 < t.data.len());
    let row = whole_graph(t)[t.data@.len() + x];
    assert(row == all_fields(fs));
    assert(row[k] == fs[k].1.0 as usize);
}

// ---- what a layout holds ----

proof fn lemma_combine(rs: Seq<SRepr>, a: u32)
    requires
        holds(combine(rs), a),
    ensures
        any_holds(rs, a),
{
    let r = combine(rs);
    if rs.len() == 1 {
        assert(holds(rs[0], a));
    } else if rs.len() == 2 && rs[0] is Null && crate::ir::repr::is_pointer(rs[1]) {
        assert(holds(rs[1], a));
    } else if rs.len() == 2 && !(rs[0] is Null) && rs[1] is Null && crate::ir::repr::is_pointer(
        rs[0],
    ) {
        assert(holds(rs[0], a));
    } else if rs.len() > 0 {
        assert(r == SRepr::Union(rs));
    }
}

proof fn lemma_field_from(t: Types, fs: Seq<(u32, TyId)>, name: Seq<char>, k: int)
    requires
        0 <= k,
    ensures
        field_from(t, fs, name, k) matches Some(ty) ==> exists|i: int|
            0 <= i < fs.len() && (#[trigger] fs[i]).1 == ty,
    decreases fs.len() - k,
{
    if k < fs.len() {
        lemma_field_from(t, fs, name, k + 1);
        assert(fs[k].1 == fs[k].1);
    }
}

proof fn lemma_field_is_met(t: Types, c: Cut, x: u32, u: TyId, n: nat, a: u32)
    requires
        types_wf(t),
        x < t.rec_atoms@.len(),
        exists|i: int|
            0 <= i < t.rec_atoms@[x as int].fields@.len() && (
            #[trigger] t.rec_atoms@[x as int].fields@[i]).1 == u,
        holds(layout(t, c, u, false, n), a),
    ensures
        met(t, c, t.data@.len() + x, a),
    decreases n, 1int, 0int,
{
    let fs = t.rec_atoms@[x as int].fields@;
    let i = choose|i: int| 0 <= i < fs.len() && (#[trigger] fs[i]).1 == u;
    lemma_edge_to_field(t, x, i);
    lemma_layout(t, c, u, false, n, a);
    lemma_step(t, t.data@.len() + x, u.0 as int, t.data@.len() + a);
}

proof fn lemma_value_fields(t: Types, c: Cut, x: u32, k: int, n: nat, i: int, a: u32)
    requires
        types_wf(t),
        x < t.rec_atoms@.len(),
        k <= t.rec_atoms@[x as int].fields@.len(),
        ({
            let fs = value_fields(t, c, t.rec_atoms@[x as int].fields@, k, n);
            0 <= i < fs.len() && holds(fs[i].1, a)
        }),
    ensures
        met(t, c, t.data@.len() + x, a),
    decreases n, 2int, k,
{
    let fs = t.rec_atoms@[x as int].fields@;
    if k > 0 {
        let before = value_fields(t, c, fs, k - 1, n);
        if i < before.len() {
            assert(value_fields(t, c, fs, k, n)[i] == before[i]);
            lemma_value_fields(t, c, x, k - 1, n, i, a);
        } else {
            assert(fs[k - 1].1 == fs[k - 1].1);
            lemma_field_is_met(t, c, x, fs[k - 1].1, n, a);
        }
    }
}

proof fn lemma_args(t: Types, x: u32, i: int, j: int)
    requires
        0 <= i,
        0 <= j < args_from(t, x, i).len(),
    ensures
        exists|k: int|
            0 <= k < t.rec_atoms@[x as int].fields@.len() && (
            #[trigger] t.rec_atoms@[x as int].fields@[k]).1 == args_from(t, x, i)[j],
    decreases t.rec_atoms@[x as int].fields@.len() - i,
{
    let fs = t.rec_atoms@[x as int].fields@;
    if i < fs.len() {
        if let Some(ty) = field_ty(t, x, slot(i)) {
            lemma_field_from(t, fs, slot(i), 0);
            if j > 0 {
                lemma_args(t, x, i + 1, j - 1);
            }
        }
    }
}

proof fn lemma_opt_field(t: Types, c: Cut, x: u32, name: Seq<char>, n: nat, a: u32)
    requires
        types_wf(t),
        x < t.rec_atoms@.len(),
        holds(opt_layout(t, c, field_ty(t, x, name), n), a),
    ensures
        met(t, c, t.data@.len() + x, a),
    decreases n, 2int, 0int,
{
    let fs = t.rec_atoms@[x as int].fields@;
    lemma_field_from(t, fs, name, 0);
    if let Some(u) = field_ty(t, x, name) {
        lemma_field_is_met(t, c, x, u, n, a);
    }
}

proof fn lemma_record(t: Types, c: Cut, x: u32, n: nat, a: u32)
    requires
        types_wf(t),
        x < t.rec_atoms@.len(),
        holds(record_layout(t, c, x, n), a),
    ensures
        met(t, c, t.data@.len() + x, a),
    decreases n, 3int, 0int,
{
    let fs = t.rec_atoms@[x as int].fields@;
    let r = record_layout(t, c, x, n);
    match kind_of(t, x) {
        SKind::Runtime(nominal, c_type) => {
            let tys = args_from(t, x, 0);
            let args = layouts(t, c, tys, n);
            assert(r == SRepr::Runtime { nominal, c_type, args });
            assert(any_holds(args, a));
            let i = choose|i: int| 0 <= i < args.len() && holds(#[trigger] args[i], a);
            assert(args[i] == layout(t, c, tys[i], false, n));
            lemma_args(t, x, 0, i);
            lemma_field_is_met(t, c, x, tys[i], n, a);
        },
        SKind::List => {
            let e = opt_layout(t, c, field_ty(t, x, slot(0)), n);
            assert(r == SRepr::List(Box::new(e)));
            assert(holds(e, a));
            lemma_opt_field(t, c, x, slot(0), n, a);
        },
        SKind::Mapping => {
            let k = opt_layout(t, c, field_ty(t, x, slot(0)), n);
            let v = opt_layout(t, c, field_ty(t, x, slot(1)), n);
            assert(r == SRepr::Mapping(Box::new(k), Box::new(v)));
            if holds(k, a) {
                lemma_opt_field(t, c, x, slot(0), n, a);
            } else {
                assert(holds(v, a));
                lemma_opt_field(t, c, x, slot(1), n, a);
            }
        },
        SKind::Plain => {
            let fields = value_fields(t, c, fs, fs.len() as int, n);
            assert(r == SRepr::Record { name: nominal_name(t, x), fields });
            assert(field_holds(fields, a));
            let i = choose|i: int| 0 <= i < fields.len() && holds((#[trigger] fields[i]).1, a);
            lemma_value_fields(t, c, x, fs.len() as int, n, i, a);
        },
    }
}

proof fn lemma_with_fields(
    fs: Seq<(Seq<char>, SRepr)>,
    more: Seq<(Seq<char>, SRepr)>,
    k: int,
    a: u32,
)
    requires
        k <= more.len(),
        field_holds(with_fields(fs, more, k), a),
    ensures
        field_holds(fs, a) || field_holds(more, a),
    decreases k,
{
    if k > 0 {
        let before = with_fields(fs, more, k - 1);
        let all = with_fields(fs, more, k);
        let i = choose|i: int| 0 <= i < all.len() && holds((#[trigger] all[i]).1, a);
        if i < before.len() {
            assert(all[i] == before[i]);
            assert(field_holds(before, a));
            lemma_with_fields(fs, more, k - 1, a);
        } else {
            assert(all[i] == more[k - 1]);
        }
    }
}

proof fn lemma_joint(t: Types, c: Cut, ty: TyId, j: int, k: int, n: nat, a: u32)
    requires
        types_wf(t),
        ty.0 < t.data@.len(),
        0 <= j < t.data@[ty.0 as int].records@.len(),
        k <= t.data@[ty.0 as int].records@[j].pos@.len(),
        field_holds(joint_fields(t, c, t.data@[ty.0 as int].records@[j].pos@, k, n), a),
    ensures
        met(t, c, ty.0 as int, a),
    decreases n, 4int, k,
{
    let atoms = t.data@[ty.0 as int].records@[j].pos@;
    if k > 0 {
        let before = joint_fields(t, c, atoms, k - 1, n);
        let r = record_layout(t, c, atoms[k - 1], n);
        match r {
            SRepr::Record { fields, .. } => {
                lemma_with_fields(before, fields, fields.len() as int, a);
                if field_holds(before, a) {
                    lemma_joint(t, c, ty, j, k - 1, n, a);
                } else {
                    lemma_edge_to_record(t, ty, j, k - 1);
                    lemma_record(t, c, atoms[k - 1], n, a);
                    lemma_step(
                        t,
                        ty.0 as int,
                        t.data@.len() + atoms[k - 1],
                        t.data@.len() + a,
                    );
                }
            },
            _ => lemma_joint(t, c, ty, j, k - 1, n, a),
        }
    }
}

proof fn lemma_path(t: Types, c: Cut, ty: TyId, j: int, n: nat, a: u32)
    requires
        types_wf(t),
        ty.0 < t.data@.len(),
        0 <= j < t.data@[ty.0 as int].records@.len(),
        t.data@[ty.0 as int].records@[j].pos@.len() > 0,
        holds(path_layout(t, c, t.data@[ty.0 as int].records@[j].pos@, n), a),
    ensures
        met(t, c, ty.0 as int, a),
    decreases n, 5int, 0int,
{
    let atoms = t.data@[ty.0 as int].records@[j].pos@;
    if atoms.len() == 1 {
        let x = atoms[0];
        lemma_edge_to_record(t, ty, j, 0);
        if c.atoms[x as int] {
            assert(x == a);
            walk_of_one(whole_graph(t), nowhere(nodes(t)), t.data@.len() + a);
        } else {
            lemma_record(t, c, x, n, a);
        }
        lemma_step(t, ty.0 as int, t.data@.len() + x, t.data@.len() + a);
    } else {
        lemma_joint(t, c, ty, j, atoms.len() as int, n, a);
    }
}

proof fn lemma_records(t: Types, c: Cut, ty: TyId, k: int, n: nat, i: int, a: u32)
    requires
        types_wf(t),
        ty.0 < t.data@.len(),
        k <= t.data@[ty.0 as int].records@.len(),
        ({
            let rs = records(t, c, t.data@[ty.0 as int].records@, k, n);
            0 <= i < rs.len() && holds(rs[i], a)
        }),
    ensures
        met(t, c, ty.0 as int, a),
    decreases n, 6int, k,
{
    let ps = t.data@[ty.0 as int].records@;
    if k > 0 {
        let before = records(t, c, ps, k - 1, n);
        let all = records(t, c, ps, k, n);
        if i < before.len() {
            assert(all[i] == before[i]);
            lemma_records(t, c, ty, k - 1, n, i, a);
        } else {
            lemma_path(t, c, ty, k - 1, n, a);
        }
    }
}

proof fn lemma_part_is_met(t: Types, c: Cut, ty: TyId, u: TyId, n: nat, a: u32)
    requires
        types_wf(t),
        ty.0 < t.data@.len(),
        u.0 < t.data@.len(),
        edge(whole_graph(t), ty.0 as int, u.0 as int),
        holds(layout(t, c, u, false, n), a),
    ensures
        met(t, c, ty.0 as int, a),
    decreases n, 1int, 0int,
{
    lemma_layout(t, c, u, false, n, a);
    lemma_step(t, ty.0 as int, u.0 as int, t.data@.len() + a);
}

proof fn lemma_tuple(t: Types, c: Cut, ty: TyId, j: int, n: nat, a: u32)
    requires
        types_wf(t),
        ty.0 < t.data@.len(),
        0 <= j < tup_atoms_of(t.data@[ty.0 as int]).len(),
        tup_atoms_of(t.data@[ty.0 as int])[j] < t.tup_atoms@.len(),
        holds(tuple_layout(t, c, tup_atoms_of(t.data@[ty.0 as int])[j], n), a),
    ensures
        met(t, c, ty.0 as int, a),
    decreases n, 2int, 0int,
{
    let atoms = tup_atoms_of(t.data@[ty.0 as int]);
    let es = t.tup_atoms@[atoms[j] as int].elems@;
    let rs = layouts(t, c, es, n);
    assert(tuple_layout(t, c, atoms[j], n) == SRepr::Tuple(rs));
    assert(any_holds(rs, a));
    let i = choose|i: int| 0 <= i < rs.len() && holds(#[trigger] rs[i], a);
    lemma_tuple_parts(t, atoms, atoms.len() as int, j, i);
    assert(types_below(t.tup_atoms[atoms[j] as int].elems@, t.data.len() as nat));
    lemma_edge_to_part(t, ty, es[i].0 as usize);
    lemma_part_is_met(t, c, ty, es[i], n, a);
}

proof fn lemma_arrow(t: Types, c: Cut, ty: TyId, j: int, n: nat, a: u32)
    requires
        types_wf(t),
        ty.0 < t.data@.len(),
        0 <= j < arrow_atoms_of(t.data@[ty.0 as int]).len(),
        arrow_atoms_of(t.data@[ty.0 as int])[j] < t.arrow_atoms@.len(),
        holds(arrow_layout(t, c, arrow_atoms_of(t.data@[ty.0 as int])[j], n), a),
    ensures
        met(t, c, ty.0 as int, a),
    decreases n, 2int, 0int,
{
    let atoms = arrow_atoms_of(t.data@[ty.0 as int]);
    let x = t.arrow_atoms@[atoms[j] as int];
    assert(arrow_wf(t, t.arrow_atoms[atoms[j] as int]));
    let rs = layouts(t, c, x.params@, n);
    let u = if any_holds(rs, a) {
        let i = choose|i: int| 0 <= i < rs.len() && holds(#[trigger] rs[i], a);
        assert(ids(x.params@)[i] == x.params@[i].0 as usize);
        x.params@[i]
    } else if holds(layout(t, c, x.throws, false, n), a) {
        x.throws
    } else {
        x.ret
    };
    lemma_arrow_parts(t, atoms, atoms.len() as int, j, u.0 as usize);
    lemma_edge_to_part(t, ty, u.0 as usize);
    lemma_part_is_met(t, c, ty, u, n, a);
}

proof fn lemma_layout(t: Types, c: Cut, ty: TyId, root: bool, n: nat, a: u32)
    requires
        types_wf(t),
        ty.0 < t.data@.len(),
        holds(layout(t, c, ty, root, n), a),
    ensures
        met(t, c, ty.0 as int, a),
    decreases n, 0int, 0int,
{
    if n > 0 && (root || !c.types[ty.0 as int]) {
        let m = (n - 1) as nat;
        let d = t.data@[ty.0 as int];
        let s = scalars(t, d);
        let r = records(t, c, d.records@, d.records@.len() as int, m);
        let u = tuple_layouts(t, c, tup_atoms_of(d), m);
        let w = arrow_layouts(t, c, arrow_atoms_of(d), m);
        let all = s + r + u + w;
        assert(data_wf(t, t.data[ty.0 as int]));
        super::lemma_positive_below(d.tuples@, d.tuples@.len() as int, t.tup_atoms@.len());
        super::lemma_positive_below(d.arrows@, d.arrows@.len() as int, t.arrow_atoms@.len());
        lemma_combine(all, a);
        let i = choose|i: int| 0 <= i < all.len() && holds(#[trigger] all[i], a);
        if i < s.len() {
            assert(all[i] == s[i]);
            lemma_scalars(t, d, i, a);
        } else if i < s.len() + r.len() {
            assert(all[i] == r[i - s.len()]);
            lemma_records(t, c, ty, d.records@.len() as int, m, i - s.len(), a);
        } else if i < s.len() + r.len() + u.len() {
            let j = i - s.len() - r.len();
            assert(all[i] == u[j]);
            lemma_tuple(t, c, ty, j, m, a);
        } else {
            let j = i - s.len() - r.len() - u.len();
            assert(all[i] == w[j]);
            lemma_arrow(t, c, ty, j, m, a);
        }
    }
}

proof fn lemma_scalars(t: Types, d: TyData, i: int, a: u32)
    requires
        0 <= i < scalars(t, d).len(),
    ensures
        !holds(scalars(t, d)[i], a),
{
}

// ---- the table ----

proof fn lemma_with_shapes(t: Types, ty: TyId, out: Seq<(u32, SRepr)>, n: int)
    requires
        0 <= n <= t.rec_atoms@.len() <= u32::MAX,
    ensures
        ({
            let r = with_shapes(t, ty, out, n);
            &&& out.len() <= r.len()
            &&& r.take(out.len() as int) == out
            &&& forall|i: int|
                out.len() <= i < r.len() ==> (#[trigger] r[i]).0 < n && is_boxed(t, r[i].0 as int)
                    && mentions(t, ty, r[i].0 as int) && r[i].1 == shape_of(
                    t,
                    r[i].0,
                    cut_of(t).atoms,
                )
            &&& forall|a: int|
                0 <= a < n && is_boxed(t, a) && mentions(t, ty, a) ==> #[trigger] has_atom(r, a)
        }),
    decreases n,
{
    let r = with_shapes(t, ty, out, n);
    if n > 0 {
        lemma_with_shapes(t, ty, out, n - 1);
        let before = with_shapes(t, ty, out, n - 1);
        assert(r.take(out.len() as int) =~= before.take(out.len() as int));
        assert forall|a: int| 0 <= a < n && is_boxed(t, a) && mentions(t, ty, a) implies
            #[trigger] has_atom(r, a) by {
            if has_atom(before, a) {
                let i = choose|i: int| 0 <= i < before.len() && (#[trigger] before[i]).0 == a;
                assert(r[i].0 == a);
            } else {
                assert(a == n - 1);
                assert(r[r.len() - 1].0 == a);
            }
        }
    } else {
        assert(out.take(out.len() as int) =~= out);
    }
}

/// What is there in the table of boxed records stays, and what is added is what pointers
/// point at, never a pointer itself. If nothing that the type mentions would hold itself by
/// value, nothing is added.
pub proof fn shapes_are_added(t: Types, ty: TyId, out: Seq<(u32, SRepr)>)
    requires
        types_wf(t),
    ensures
        ({
            let r = with_shapes(t, ty, out, t.rec_atoms@.len() as int);
            &&& out.len() <= r.len()
            &&& r.take(out.len() as int) == out
            &&& forall|i: int| out.len() <= i < r.len() ==> !((#[trigger] r[i]).1 is BoxedRec)
            &&& (forall|a: int|
                0 <= a < t.rec_atoms@.len() && #[trigger] mentions(t, ty, a) ==> !is_boxed(t, a))
                ==> r == out
        }),
{
    lemma_with_shapes(t, ty, out, t.rec_atoms@.len() as int);
    let r = with_shapes(t, ty, out, t.rec_atoms@.len() as int);
    if forall|a: int|
        0 <= a < t.rec_atoms@.len() && #[trigger] mentions(t, ty, a) ==> !is_boxed(t, a) {
        if r.len() > out.len() {
            assert(is_boxed(t, r[out.len() as int].0 as int));
            assert(mentions(t, ty, r[out.len() as int].0 as int));
        }
        assert(r =~= out);
    }
}

/// Every pointer to a record that occurs in the layout of a type, or in what is added to the
/// table for it, is in the table.
pub proof fn every_pointer_is_in_the_table(t: Types, ty: TyId, out: Seq<(u32, SRepr)>, a: u32)
    requires
        types_wf(t),
        ty.0 < t.data@.len(),
        holds(layout_of(t, ty), a) || exists|i: int|
            out.len() <= i < with_shapes(t, ty, out, t.rec_atoms@.len() as int).len() && holds(
                (#[trigger] with_shapes(t, ty, out, t.rec_atoms@.len() as int)[i]).1,
                a,
            ),
    ensures
        has_atom(with_shapes(t, ty, out, t.rec_atoms@.len() as int), a as int),
{
    let n = t.rec_atoms@.len() as int;
    let r = with_shapes(t, ty, out, n);
    let c = cut_of(t);
    let none = nowhere(nodes(t));
    let g = whole_graph(t);
    lemma_with_shapes(t, ty, out, n);
    if holds(layout_of(t, ty), a) {
        lemma_layout(t, c, ty, true, t.data@.len() + 1, a);
    } else {
        let i = choose|i: int| out.len() <= i < r.len() && holds((#[trigger] r[i]).1, a);
        let x = r[i].0;
        lemma_record(t, shape_cut(t, c.atoms), x, t.data@.len() + 1, a);
        assert(mentions(t, ty, x as int));
        let s = choose|s: int|
            0 <= s < g.len() && #[trigger] only(nodes(t), ty.0 as int)[s] && walks(
                g,
                none,
                s,
                t.data@.len() + x,
            );
        lemma_join(t, ty.0 as int, t.data@.len() + x, t.data@.len() + a);
    }
    assert(leads(t, ty.0 as int, t.data@.len() + a));
    assert(only(nodes(t), ty.0 as int)[ty.0 as int]);
    assert(mentions(t, ty, a as int));
    assert(is_boxed(t, a as int));
}

proof fn lemma_join(t: Types, x: int, y: int, z: int)
    requires
        leads(t, x, y),
        leads(t, y, z),
    ensures
        leads(t, x, z),
{
    let g = whole_graph(t);
    let none = nowhere(nodes(t));
    let p = choose|p: Seq<int>| #[trigger] is_walk(g, none, p) && p[0] == x && p.last() == y;
    lemma_join_walk(t, p, z);
}

proof fn lemma_join_walk(t: Types, p: Seq<int>, z: int)
    requires
        is_walk(whole_graph(t), nowhere(nodes(t)), p),
        leads(t, p.last(), z),
    ensures
        leads(t, p[0], z),
    decreases p.len(),
{
    if p.len() > 1 {
        let g = whole_graph(t);
        let none = nowhere(nodes(t));
        let k = p.len() - 1;
        assert(edge(g, p[k - 1], p[k]));
        lemma_step(t, p[k - 1], p[k], z);
        let q = p.drop_last();
        assert forall|k: int| 0 < k < q.len() implies edge(g, q[k - 1], #[trigger] q[k])
            && !none[q[k]] by {
            assert(q[k] == p[k] && q[k - 1] == p[k - 1]);
        }
        assert forall|k: int| 0 <= k < q.len() implies 0 <= #[trigger] q[k] < g.len() by {
            assert(q[k] == p[k]);
        }
        assert(q.last() == p[k - 1]);
        lemma_join_walk(t, q, z);
    }
}

} // verus!
