use neon::ir::repr::layout::{boxed_shapes, recursive_unfoldings, repr_of, repr_shape};
use neon::ir::repr::{normalize_union, Repr};
use neon::types::{ArrowAtom, AtomSet, Path, RecAtom, TupAtom, TyData, TyId, Types};

/// A table of types that is filled as types are asked for.
struct Table {
    t: Types,
}

fn no_atoms() -> AtomSet {
    AtomSet { neg: false, names: vec![] }
}

fn nothing() -> TyData {
    TyData {
        integer: false,
        float: false,
        string: false,
        boolean: false,
        null: false,
        atoms: no_atoms(),
        vars: no_atoms(),
        records: vec![],
        tuples: vec![],
        arrows: vec![],
    }
}

fn merged(a: &[u32], b: &[u32]) -> Vec<u32> {
    let mut r = a.to_vec();
    for x in b {
        if !r.contains(x) {
            r.push(*x);
        }
    }
    r
}

fn copied_paths(ps: &[Path]) -> Vec<Path> {
    ps.iter().map(|p| Path { pos: p.pos.clone(), neg: p.neg.clone() }).collect()
}

fn joined_paths(a: &[Path], b: &[Path]) -> Vec<Path> {
    let mut r = copied_paths(a);
    for p in copied_paths(b) {
        if !r.contains(&p) {
            r.push(p);
        }
    }
    r
}

fn joined(a: &TyData, b: &TyData) -> TyData {
    TyData {
        integer: a.integer || b.integer,
        float: a.float || b.float,
        string: a.string || b.string,
        boolean: a.boolean || b.boolean,
        null: a.null || b.null,
        atoms: AtomSet { neg: a.atoms.neg || b.atoms.neg, names: merged(&a.atoms.names, &b.atoms.names) },
        vars: AtomSet { neg: a.vars.neg || b.vars.neg, names: merged(&a.vars.names, &b.vars.names) },
        records: joined_paths(&a.records, &b.records),
        tuples: joined_paths(&a.tuples, &b.tuples),
        arrows: joined_paths(&a.arrows, &b.arrows),
    }
}

impl Table {
    fn new() -> Table {
        let mut t = Table {
            t: Types {
                names: vec!["#nominal".to_string()],
                data: vec![],
                rec_atoms: vec![],
                tup_atoms: vec![],
                arrow_atoms: vec![],
                nominal_label: 0,
                runtime_types: vec![],
            },
        };
        t.never();
        t
    }

    fn intern(&mut self, d: TyData) -> TyId {
        let at = self.t.data.iter().position(|x| *x == d).unwrap_or_else(|| {
            self.t.data.push(d);
            self.t.data.len() - 1
        });
        TyId(at as u32)
    }

    fn never(&mut self) -> TyId {
        self.intern(nothing())
    }

    fn i64(&mut self) -> TyId {
        self.intern(TyData { integer: true, ..nothing() })
    }

    fn f64(&mut self) -> TyId {
        self.intern(TyData { float: true, ..nothing() })
    }

    fn str(&mut self) -> TyId {
        self.intern(TyData { string: true, ..nothing() })
    }

    fn bool(&mut self) -> TyId {
        self.intern(TyData { boolean: true, ..nothing() })
    }

    fn null(&mut self) -> TyId {
        self.intern(TyData { null: true, ..nothing() })
    }

    fn name(&mut self, n: &str) -> u32 {
        let at = self.t.names.iter().position(|x| x == n).unwrap_or_else(|| {
            self.t.names.push(n.to_string());
            self.t.names.len() - 1
        });
        at as u32
    }

    fn atom(&mut self, n: u32) -> TyId {
        self.intern(TyData { atoms: AtomSet { neg: false, names: vec![n] }, ..nothing() })
    }

    fn var(&mut self, n: u32) -> TyId {
        self.intern(TyData { vars: AtomSet { neg: false, names: vec![n] }, ..nothing() })
    }

    fn union(&mut self, a: TyId, b: TyId) -> TyId {
        let d = joined(&self.t.data[a.0 as usize], &self.t.data[b.0 as usize]);
        self.intern(d)
    }

    fn record(&mut self, fields: Vec<(u32, TyId)>) -> TyId {
        let atom = RecAtom { fields };
        let at = self.t.rec_atoms.iter().position(|x| *x == atom).unwrap_or_else(|| {
            self.t.rec_atoms.push(atom);
            self.t.rec_atoms.len() - 1
        });
        self.intern(TyData { records: vec![Path { pos: vec![at as u32], neg: vec![] }], ..nothing() })
    }

    fn struct_ty(&mut self, fields: Vec<(u32, TyId)>) -> TyId {
        let any_name =
            self.intern(TyData { atoms: AtomSet { neg: true, names: vec![] }, ..nothing() });
        let mut all = vec![(self.t.nominal_label, any_name)];
        all.extend(fields);
        self.record(all)
    }

    fn nominal(&mut self, n: u32, args: Vec<TyId>, fields: Vec<(u32, TyId)>) -> TyId {
        let tag = self.atom(n);
        let mut all = vec![(self.t.nominal_label, tag)];
        for (i, a) in args.into_iter().enumerate() {
            let label = self.name(&format!("#{i}"));
            all.push((label, a));
        }
        all.extend(fields);
        self.record(all)
    }

    fn tuple(&mut self, elems: Vec<TyId>) -> TyId {
        let atom = TupAtom { elems };
        let at = self.t.tup_atoms.iter().position(|x| *x == atom).unwrap_or_else(|| {
            self.t.tup_atoms.push(atom);
            self.t.tup_atoms.len() - 1
        });
        self.intern(TyData { tuples: vec![Path { pos: vec![at as u32], neg: vec![] }], ..nothing() })
    }

    fn arrow(&mut self, params: Vec<TyId>, throws: TyId, ret: TyId) -> TyId {
        let atom = ArrowAtom { params, throws, ret };
        let at = self.t.arrow_atoms.iter().position(|x| *x == atom).unwrap_or_else(|| {
            self.t.arrow_atoms.push(atom);
            self.t.arrow_atoms.len() - 1
        });
        self.intern(TyData { arrows: vec![Path { pos: vec![at as u32], neg: vec![] }], ..nothing() })
    }

    /// A type that is given a meaning later.
    fn reserve(&mut self) -> TyId {
        self.t.data.push(nothing());
        TyId((self.t.data.len() - 1) as u32)
    }

    fn define(&mut self, at: TyId, as_ty: TyId) {
        let d = joined(&nothing(), &self.t.data[as_ty.0 as usize]);
        self.t.data[at.0 as usize] = d;
    }
}

#[test]
fn scalars_map_to_themselves() {
    let mut ty = Table::new();
    let i = ty.i64();
    let f = ty.f64();
    let s = ty.str();
    let b = ty.bool();
    let n = ty.null();
    assert_eq!(repr_of(&ty.t, i), Repr::I64);
    assert_eq!(repr_of(&ty.t, f), Repr::F64);
    assert_eq!(repr_of(&ty.t, s), Repr::Str);
    assert_eq!(repr_of(&ty.t, b), Repr::Bool);
    assert_eq!(repr_of(&ty.t, n), Repr::Null);
}

#[test]
fn an_atom_and_a_union_of_atoms_are_one_tag() {
    let mut ty = Table::new();
    let ok = ty.name("ok");
    let err = ty.name("err");
    let a = ty.atom(ok);
    let b = ty.atom(err);
    let u = ty.union(a, b);
    assert_eq!(repr_of(&ty.t, a), Repr::Tag);
    assert_eq!(repr_of(&ty.t, u), Repr::Tag, "a union of atoms is still one discriminant");
}

#[test]
fn the_empty_tuple_is_unit() {
    let mut ty = Table::new();
    let unit = ty.tuple(vec![]);
    assert_eq!(repr_of(&ty.t, unit), Repr::Unit);
}

#[test]
fn a_tuple_is_its_elements_in_order() {
    let mut ty = Table::new();
    let i = ty.i64();
    let s = ty.str();
    let tup = ty.tuple(vec![i, s]);
    assert_eq!(repr_of(&ty.t, tup), Repr::Tuple(vec![Repr::I64, Repr::Str]));
}

#[test]
fn a_struct_keeps_its_fields_and_drops_the_metadata() {
    let mut ty = Table::new();
    let i = ty.i64();
    let s = ty.str();
    let a = ty.name("a");
    let b = ty.name("b");
    // An anonymous record `{ a: i64, b: str }` - struct_ty adds the `#nominal` tag.
    let rec = ty.struct_ty(vec![(a, i), (b, s)]);
    match repr_of(&ty.t, rec) {
        Repr::Record { name, fields } => {
            assert!(name.is_none(), "anonymous record has no nominal name");
            assert_eq!(
                fields,
                vec![("a".to_string(), Repr::I64), ("b".to_string(), Repr::Str)],
                "metadata labels (#nominal) are not fields"
            );
        }
        other => panic!("expected a record, got {other:?}"),
    }
}

#[test]
fn a_nominal_record_keeps_its_name() {
    let mut ty = Table::new();
    let i = ty.i64();
    let r = ty.name("r");
    let circle = ty.name("Circle");
    let nom = ty.nominal(circle, vec![], vec![(r, i)]);
    match repr_of(&ty.t, nom) {
        Repr::Record { name, fields } => {
            assert_eq!(name.as_deref(), Some("Circle"));
            assert_eq!(fields, vec![("r".to_string(), Repr::I64)]);
        }
        other => panic!("expected a record, got {other:?}"),
    }
}

#[test]
fn list_and_map_are_runtime_containers() {
    let mut ty = Table::new();
    let i = ty.i64();
    let s = ty.str();
    let list_name = ty.name("List");
    let list = ty.nominal(list_name, vec![i], vec![]);
    assert_eq!(repr_of(&ty.t, list), Repr::List(Box::new(Repr::I64)));

    let map_name = ty.name("Map");
    let map = ty.nominal(map_name, vec![s, i], vec![]);
    assert_eq!(repr_of(&ty.t, map), Repr::Mapping(Box::new(Repr::Str), Box::new(Repr::I64)));
}

#[test]
fn nullable_of_a_pointer_is_a_nullable_pointer() {
    let mut ty = Table::new();
    let s = ty.str();
    let n = ty.null();
    let s_or_null = ty.union(s, n);
    assert_eq!(repr_of(&ty.t, s_or_null), Repr::Nullable(Box::new(Repr::Str)));
}

#[test]
fn nullable_of_a_scalar_is_a_union() {
    let mut ty = Table::new();
    let i = ty.i64();
    let n = ty.null();
    let i_or_null = ty.union(i, n);
    // `i64` is not pointer-backed, so it needs a discriminant, not a null pointer.
    match repr_of(&ty.t, i_or_null) {
        Repr::Union(vs) => assert!(vs.contains(&Repr::I64) && vs.contains(&Repr::Null)),
        other => panic!("expected a union, got {other:?}"),
    }
}

#[test]
fn a_sum_of_records_is_a_union() {
    let mut ty = Table::new();
    let i = ty.i64();
    let circle = ty.name("Circle");
    let rect = ty.name("Rect");
    let r_field = ty.name("r");
    let w_field = ty.name("w");
    let c = ty.nominal(circle, vec![], vec![(r_field, i)]);
    let r = ty.nominal(rect, vec![], vec![(w_field, i)]);
    let shape = ty.union(c, r);
    match repr_of(&ty.t, shape) {
        Repr::Union(vs) => assert_eq!(vs.len(), 2, "Circle | Rect has two variants"),
        other => panic!("expected a union, got {other:?}"),
    }
}

#[test]
fn an_arrow_is_a_closure() {
    let mut ty = Table::new();
    let i = ty.i64();
    let s = ty.str();
    let never = ty.never();
    let arrow = ty.arrow(vec![i], never, s);
    assert_eq!(
        repr_of(&ty.t, arrow),
        Repr::Closure {
            params: vec![Repr::I64],
            throws: Box::new(Repr::Never),
            ret: Box::new(Repr::Str),
        }
    );
}

#[test]
fn a_throwing_arrow_carries_its_throws() {
    let mut ty = Table::new();
    let i = ty.i64();
    let s = ty.str();
    let err = ty.name("err");
    let err = ty.atom(err);
    let arrow = ty.arrow(vec![i], err, s);
    assert_eq!(
        repr_of(&ty.t, arrow),
        Repr::Closure {
            params: vec![Repr::I64],
            throws: Box::new(Repr::Tag),
            ret: Box::new(Repr::Str),
        }
    );
}

#[test]
fn a_rigid_variable_is_abstract() {
    let mut ty = Table::new();
    let tn = ty.name("T");
    let var = ty.var(tn);
    assert_eq!(repr_of(&ty.t, var), Repr::Var("T".to_string()));
    assert!(!repr_of(&ty.t, var).is_concrete());
}

#[test]
fn never_maps_to_never() {
    let mut ty = Table::new();
    let n = ty.never();
    assert_eq!(repr_of(&ty.t, n), Repr::Never);
}

/// One representative of every `Repr` variant. Adding a variant breaks this match, which
/// is the point: the three predicates below decide whether the refcount pass tracks a
/// value, and a variant that slips in through a `_` arm silently answers "no".
fn one_of_each() -> Vec<(&'static str, Repr)> {
    let all = vec![
        ("I64", Repr::I64),
        ("F64", Repr::F64),
        ("Bool", Repr::Bool),
        ("Str", Repr::Str),
        ("Null", Repr::Null),
        ("Unit", Repr::Unit),
        ("Tag", Repr::Tag),
        ("Record", Repr::Record { name: None, fields: vec![("a".into(), Repr::I64)] }),
        ("Tuple", Repr::Tuple(vec![Repr::I64])),
        ("List", Repr::List(Box::new(Repr::I64))),
        ("Map", Repr::Mapping(Box::new(Repr::Str), Box::new(Repr::I64))),
        (
            "Runtime",
            Repr::Runtime { nominal: "R".into(), c_type: "neon_r".into(), args: vec![Repr::I64] },
        ),
        (
            "Closure",
            Repr::Closure {
                params: vec![Repr::I64],
                throws: Box::new(Repr::Never),
                ret: Box::new(Repr::I64),
            },
        ),
        ("Union", Repr::Union(vec![Repr::I64, Repr::Bool])),
        ("Nullable", Repr::Nullable(Box::new(Repr::Str))),
        ("Var", Repr::Var("T".into())),
        ("BoxedRec", Repr::BoxedRec(0)),
        ("Recursive", Repr::Recursive(TyId(0))),
        ("Any", Repr::Any),
        ("Never", Repr::Never),
    ];
    // Exhaustiveness: every name above is a distinct variant, and the compiler forces the
    // list to be revisited when one is added.
    for (_, r) in &all {
        match r {
            Repr::I64
            | Repr::F64
            | Repr::Bool
            | Repr::Str
            | Repr::Null
            | Repr::Unit
            | Repr::Tag
            | Repr::Record { .. }
            | Repr::Tuple(_)
            | Repr::List(_)
            | Repr::Mapping(_, _)
            | Repr::Runtime { .. }
            | Repr::Closure { .. }
            | Repr::Union(_)
            | Repr::Nullable(_)
            | Repr::Var(_)
            | Repr::BoxedRec(_)
            | Repr::Recursive(_)
            | Repr::Any
            | Repr::Never => {}
        }
    }
    all
}

/// The exact set of reprs that live behind a pointer, so `T | null` may use a null pointer
/// rather than a discriminant. `Recursive` is deliberately absent - it names a type without
/// describing it, and the type it names may be an inline union.
#[test]
fn is_pointer_is_pinned_per_variant() {
    let expected = ["Str", "List", "Map", "Runtime", "Closure", "BoxedRec"];
    for (name, r) in one_of_each() {
        assert_eq!(
            r.is_pointer(),
            expected.contains(&name),
            "is_pointer disagrees for {name}: {r:?}"
        );
    }
}

/// The predicate the refcount pass gates on. Getting it wrong in one direction leaks and
/// in the other frees something live, so it is pinned variant by variant rather than
/// spot-checked. `Any` counts without being a pointer (it is a box with a header);
/// aggregates count when anything inside them does.
#[test]
fn is_counted_is_pinned_per_variant() {
    let expected =
        ["Str", "List", "Map", "Runtime", "Closure", "BoxedRec", "Any", "Recursive", "Nullable"];
    for (name, r) in one_of_each() {
        assert_eq!(r.is_counted(), expected.contains(&name), "is_counted disagrees for {name}");
    }
    // Aggregates are counted exactly when a part is.
    assert!(!Repr::Tuple(vec![Repr::I64, Repr::Bool]).is_counted());
    assert!(Repr::Tuple(vec![Repr::I64, Repr::Str]).is_counted());
    assert!(!Repr::Record { name: None, fields: vec![("a".into(), Repr::I64)] }.is_counted());
    assert!(Repr::Record { name: None, fields: vec![("a".into(), Repr::List(Box::new(Repr::I64)))] }
        .is_counted());
    assert!(!Repr::Union(vec![Repr::I64, Repr::Null]).is_counted());
    assert!(Repr::Union(vec![Repr::I64, Repr::Str]).is_counted());
    assert!(!Repr::Nullable(Box::new(Repr::Unit)).is_counted());
}

/// `Var` is the only thing that is not concrete. `Recursive` is concrete - a resolved
/// back-edge, not an unknown - and every aggregate is concrete exactly when its parts are.
#[test]
fn is_concrete_is_pinned_per_variant() {
    for (name, r) in one_of_each() {
        assert_eq!(r.is_concrete(), name != "Var", "is_concrete disagrees for {name}");
    }
    let v = Repr::Var("T".into());
    assert!(!Repr::List(Box::new(v.clone())).is_concrete());
    assert!(!Repr::Mapping(Box::new(Repr::I64), Box::new(v.clone())).is_concrete());
    assert!(!Repr::Nullable(Box::new(v.clone())).is_concrete());
    assert!(!Repr::Tuple(vec![Repr::I64, v.clone()]).is_concrete());
    assert!(!Repr::Union(vec![Repr::I64, v.clone()]).is_concrete());
    assert!(!Repr::Record { name: None, fields: vec![("a".into(), v.clone())] }.is_concrete());
    assert!(!Repr::Runtime {
        nominal: "R".into(),
        c_type: "neon_r".into(),
        args: vec![v.clone()],
    }
    .is_concrete());
    assert!(!Repr::Closure {
        params: vec![],
        throws: Box::new(v.clone()),
        ret: Box::new(Repr::I64),
    }
    .is_concrete());
    assert!(!Repr::Closure { params: vec![], throws: Box::new(Repr::Never), ret: Box::new(v) }
        .is_concrete());
}

/// Lists, maps, runtime objects and boxed records all come with the records, before tuples
/// and arrows, whichever way a union is put together.
#[test]
fn normalize_union_reproduces_the_order_repr_of_derives() {
    let mut ty = Table::new();
    let i = ty.i64();
    let s = ty.str();
    let ln = ty.name("List");
    let list = ty.nominal(ln, vec![i], vec![]);
    let tup = ty.tuple(vec![i, s]);
    let u = ty.union(list, tup);

    let direct = repr_of(&ty.t, u);
    assert_eq!(
        direct,
        Repr::Union(vec![
            Repr::List(Box::new(Repr::I64)),
            Repr::Tuple(vec![Repr::I64, Repr::Str]),
        ]),
        "the records phase runs before the tuples phase"
    );
    // Whatever order an instance's variants arrive in, re-normalising must land back on the
    // one `repr_of` derives for the same type.
    for start in [
        vec![Repr::List(Box::new(Repr::I64)), Repr::Tuple(vec![Repr::I64, Repr::Str])],
        vec![Repr::Tuple(vec![Repr::I64, Repr::Str]), Repr::List(Box::new(Repr::I64))],
    ] {
        assert_eq!(normalize_union(start.clone()), direct, "normalize_union({start:?})");
    }
}

/// An arrow's `throws` is an edge of the type graph, exactly as its params and return are.
#[test]
fn a_cycle_through_an_arrows_throws_clause_is_cut() {
    // `mu F = null | (i64) throws F -> i64` - the back-edge is the error clause.
    let mut ty = Table::new();
    let i = ty.i64();
    let f = ty.reserve();
    let arrow = ty.arrow(vec![i], f, i);
    let n = ty.null();
    let body = ty.union(n, arrow);
    ty.define(f, body);
    // The whole assertion is that this returns at all.
    let r = repr_of(&ty.t, f);
    assert!(r.is_concrete(), "a recursive arrow type is concrete, got {r:?}");
}


/// `record Node { next: Node | null }` goes back to itself: it is a pointer, and what it
/// points at is in the table of boxed records.
#[test]
fn a_record_that_holds_itself_is_a_pointer() {
    let mut ty = Table::new();
    let node = ty.name("Node");
    let next = ty.name("next");
    let link = ty.reserve();
    let rec = ty.nominal(node, vec![], vec![(next, link)]);
    let n = ty.null();
    let both = ty.union(rec, n);
    ty.define(link, both);
    assert_eq!(repr_of(&ty.t, rec), Repr::BoxedRec(0));
    let mut boxed = vec![];
    boxed_shapes(&ty.t, rec, &mut boxed);
    assert_eq!(boxed.len(), 1);
    assert_eq!(boxed[0].0, 0);
    assert_eq!(
        boxed[0].1,
        Repr::Record {
            name: Some("Node".to_string()),
            fields: vec![("next".to_string(), Repr::Nullable(Box::new(Repr::BoxedRec(0))))],
        }
    );
    assert_eq!(repr_shape(&ty.t, 0, &vec![true]), boxed[0].1);
    // Once in the table, it is not added again.
    boxed_shapes(&ty.t, rec, &mut boxed);
    assert_eq!(boxed.len(), 1);
}

/// A recursive type that is no record is named by a back-edge, and its unfolding is kept.
#[test]
fn a_recursive_arrow_is_unfolded_once() {
    let mut ty = Table::new();
    let i = ty.i64();
    let f = ty.reserve();
    let arrow = ty.arrow(vec![i], f, i);
    let n = ty.null();
    let body = ty.union(n, arrow);
    ty.define(f, body);
    let mut out = vec![];
    recursive_unfoldings(&ty.t, f, &mut out);
    assert!(out.iter().any(|(id, _)| *id == f));
    let had = out.len();
    recursive_unfoldings(&ty.t, f, &mut out);
    assert_eq!(out.len(), had);
}

#[test]
fn a_runtime_record_is_an_object_of_the_runtime() {
    let mut ty = Table::new();
    ty.t.runtime_types.push(("Bytes".to_string(), "NeonBytes*".to_string()));
    let n = ty.name("Bytes");
    let b = ty.nominal(n, vec![], vec![]);
    assert_eq!(
        repr_of(&ty.t, b),
        Repr::Runtime { nominal: "Bytes".to_string(), c_type: "NeonBytes*".to_string(), args: vec![] }
    );
}
