//! How values are laid out.
//!
//! A [`Repr`] is fully structural: an aggregate carries its fields' layouts and a list its
//! element's, so whatever a generic container needs to know of its contents is a function
//! of the layout alone.

use crate::syntax::{opt_name_of, Node};
use crate::types::TyId;
use vstd::prelude::*;

pub use self::layout::{boxed_shapes, recursive_unfoldings, repr_of, repr_shape};

pub mod layout;

verus! {

/// How a value of some type is laid out.
#[derive(Debug, PartialEq)]
pub enum Repr {
    /// 64-bit integer.
    I64,
    /// 64-bit float.
    F64,
    /// One byte.
    Bool,
    /// The runtime `str`: a flat refcounted byte buffer, or an immortal literal.
    Str,
    /// The `null` value: a zero-payload tag.
    Null,
    /// `()`: the empty tuple, zero size.
    Unit,
    /// An atom or a union of atoms: a 64-bit hashed discriminant.
    Tag,
    /// A record stored inline. `name` is the nominal identity; `None` for an anonymous record.
    Record { name: Option<String>, fields: Vec<(String, Repr)> },
    /// A tuple, stored inline in order.
    Tuple(Vec<Repr>),
    /// A `List[T]`: a runtime container holding `T` inline.
    List(Box<Repr>),
    /// A `Map[K, V]`: an open-addressed table, copied on write when shared.
    Mapping(Box<Repr>, Box<Repr>),
    /// A refcounted object that the runtime owns. `nominal` is the type's own name and
    /// `c_type` the spelling of the pointee in C.
    Runtime { nominal: String, c_type: String, args: Vec<Repr> },
    /// A function pointer plus a boxed environment. `throws` is part of the calling
    /// convention: a throwing closure returns a tagged result.
    Closure { params: Vec<Repr>, throws: Box<Repr>, ret: Box<Repr> },
    /// A tagged union of two or more distinct variants.
    Union(Vec<Repr>),
    /// `T | null` where `T` is pointer-backed: `null` is the null pointer.
    Nullable(Box<Repr>),
    /// A rigid type variable, abstract until monomorphisation.
    Var(String),
    /// A pointer to a heap-allocated recursive record, by its record atom.
    BoxedRec(u32),
    /// A back-edge of a recursive type, by the type it goes back to.
    Recursive(TyId),
    /// The one erasure boundary: a boxed value with a header and a type tag.
    Any,
    /// Uninhabited: the type of an expression that does not return.
    Never,
}
/// [`Repr`] as a mathematical value.
pub enum SRepr {
    I64,
    F64,
    Bool,
    Str,
    Null,
    Unit,
    Tag,
    Record { name: Option<Seq<char>>, fields: Seq<(Seq<char>, SRepr)> },
    Tuple(Seq<SRepr>),
    List(Box<SRepr>),
    Mapping(Box<SRepr>, Box<SRepr>),
    Runtime { nominal: Seq<char>, c_type: Seq<char>, args: Seq<SRepr> },
    Closure { params: Seq<SRepr>, throws: Box<SRepr>, ret: Box<SRepr> },
    Union(Seq<SRepr>),
    Nullable(Box<SRepr>),
    Var(Seq<char>),
    BoxedRec(u32),
    Recursive(TyId),
    Any,
    Never,
}

pub open spec fn repr_sem(x: Repr) -> SRepr
    decreases x,
{
    match x {
        Repr::I64 => SRepr::I64,
        Repr::F64 => SRepr::F64,
        Repr::Bool => SRepr::Bool,
        Repr::Str => SRepr::Str,
        Repr::Null => SRepr::Null,
        Repr::Unit => SRepr::Unit,
        Repr::Tag => SRepr::Tag,
        Repr::Record { name, fields } => SRepr::Record { name: opt_name_of(name), fields: named_reprs_sem(fields@) },
        Repr::Tuple(a) => SRepr::Tuple(reprs_sem(a@)),
        Repr::List(a) => SRepr::List(Box::new(repr_sem(*a))),
        Repr::Mapping(a, b) => SRepr::Mapping(Box::new(repr_sem(*a)), Box::new(repr_sem(*b))),
        Repr::Runtime { nominal, c_type, args } => SRepr::Runtime { nominal: nominal@, c_type: c_type@, args: reprs_sem(args@) },
        Repr::Closure { params, throws, ret } => SRepr::Closure { params: reprs_sem(params@), throws: Box::new(repr_sem(*throws)), ret: Box::new(repr_sem(*ret)) },
        Repr::Union(a) => SRepr::Union(reprs_sem(a@)),
        Repr::Nullable(a) => SRepr::Nullable(Box::new(repr_sem(*a))),
        Repr::Var(a) => SRepr::Var(a@),
        Repr::BoxedRec(a) => SRepr::BoxedRec(a),
        Repr::Recursive(a) => SRepr::Recursive(a),
        Repr::Any => SRepr::Any,
        Repr::Never => SRepr::Never,
    }
}

impl Node for Repr {
    type V = SRepr;

    open spec fn sem(&self) -> SRepr {
        repr_sem(*self)
    }
}

pub open spec fn reprs_sem(s: Seq<Repr>) -> Seq<SRepr>
    decreases s,
{
    Seq::new(
        s.len(),
        |i: int|
            if 0 <= i < s.len() {
                repr_sem(s[i])
            } else {
                arbitrary()
            },
    )
}

pub open spec fn named_reprs_sem(s: Seq<(String, Repr)>) -> Seq<(Seq<char>, SRepr)>
    decreases s,
{
    Seq::new(
        s.len(),
        |i: int|
            if 0 <= i < s.len() {
                (s[i].0@, repr_sem(s[i].1))
            } else {
                arbitrary()
            },
    )
}

// ---- what layouts mean ----

/// Whether a value of this layout lives behind a pointer.
///
/// A back-edge does not: it names a type without describing it, and the type it names may
/// be an inline union.
pub open spec fn is_pointer(r: SRepr) -> bool {
    match r {
        SRepr::Str
        | SRepr::List(_)
        | SRepr::Mapping(_, _)
        | SRepr::Runtime { .. }
        | SRepr::Closure { .. }
        | SRepr::BoxedRec(_) => true,
        _ => false,
    }
}

/// Whether a value of this layout owns anything reference-counted: it is a counted pointer
/// itself, or an aggregate with one somewhere inside.
pub open spec fn is_counted(r: SRepr) -> bool
    decreases r, 0int,
{
    match r {
        SRepr::Str
        | SRepr::List(_)
        | SRepr::Mapping(_, _)
        | SRepr::Runtime { .. }
        | SRepr::Closure { .. }
        | SRepr::BoxedRec(_)
        | SRepr::Any
        | SRepr::Recursive(_) => true,
        SRepr::Union(rs) => some_counted(rs, rs.len() as int),
        SRepr::Tuple(rs) => some_counted(rs, rs.len() as int),
        SRepr::Record { fields, .. } => some_field_counted(fields, fields.len() as int),
        SRepr::Nullable(inner) => is_counted(*inner),
        _ => false,
    }
}

/// Whether one of the first `n` layouts is counted.
pub open spec fn some_counted(rs: Seq<SRepr>, n: int) -> bool
    decreases rs, n,
{
    if 0 < n <= rs.len() {
        is_counted(rs[n - 1]) || some_counted(rs, n - 1)
    } else {
        false
    }
}

/// Whether one of the first `n` fields is counted.
pub open spec fn some_field_counted(fs: Seq<(Seq<char>, SRepr)>, n: int) -> bool
    decreases fs, n,
{
    if 0 < n <= fs.len() {
        is_counted(fs[n - 1].1) || some_field_counted(fs, n - 1)
    } else {
        false
    }
}

/// Whether no type variable is left anywhere in a layout. A back-edge is resolved, not
/// unknown.
pub open spec fn is_concrete(r: SRepr) -> bool
    decreases r, 0int,
{
    match r {
        SRepr::Var(_) => false,
        SRepr::Record { fields, .. } => fields_concrete(fields, fields.len() as int),
        SRepr::Tuple(rs) => all_concrete(rs, rs.len() as int),
        SRepr::Union(rs) => all_concrete(rs, rs.len() as int),
        SRepr::List(r) => is_concrete(*r),
        SRepr::Nullable(r) => is_concrete(*r),
        SRepr::Mapping(k, v) => is_concrete(*k) && is_concrete(*v),
        SRepr::Runtime { args, .. } => all_concrete(args, args.len() as int),
        SRepr::Closure { params, throws, ret } => all_concrete(params, params.len() as int)
            && is_concrete(*throws) && is_concrete(*ret),
        _ => true,
    }
}

/// Whether the first `n` layouts are concrete.
pub open spec fn all_concrete(rs: Seq<SRepr>, n: int) -> bool
    decreases rs, n,
{
    if 0 < n <= rs.len() {
        is_concrete(rs[n - 1]) && all_concrete(rs, n - 1)
    } else {
        true
    }
}

/// Whether the first `n` fields are concrete.
pub open spec fn fields_concrete(fs: Seq<(Seq<char>, SRepr)>, n: int) -> bool
    decreases fs, n,
{
    if 0 < n <= fs.len() {
        is_concrete(fs[n - 1].1) && fields_concrete(fs, n - 1)
    } else {
        true
    }
}

/// The layout of the first field with a name, if there is one.
pub open spec fn field_named(fields: Seq<(Seq<char>, SRepr)>, name: Seq<char>) -> Option<SRepr>
    decreases fields.len(),
{
    if fields.len() == 0 {
        None
    } else if fields[0].0 == name {
        Some(fields[0].1)
    } else {
        field_named(fields.drop_first(), name)
    }
}

/// Whether a block may pass an argument of layout `a` to a parameter of layout `b`.
///
/// Flows widen: the same layout, `never` into anything, anything into `any`, a member or an
/// overlapping union into a union, `null` or the payload into a nullable, and covariant
/// width on records and tuples, where an absent field must be optional. A union whose other
/// members are all `never` is its one inhabited member.
pub open spec fn assignable(a: SRepr, b: SRepr) -> bool
    decreases b,
{
    ||| a == b
    ||| a is Never
    ||| b is Any
    ||| match (a, b) {
        (_, SRepr::Union(vs)) => vs.contains(a) || match a {
            SRepr::Union(from) => exists|i: int|
                0 <= i < from.len() && vs.contains(#[trigger] from[i]),
            _ => false,
        },
        (SRepr::Union(from), _) => from.contains(b) && forall|i: int|
            0 <= i < from.len() ==> (#[trigger] from[i]) is Never || from[i] == b,
        (SRepr::Null, SRepr::Nullable(_)) => true,
        (_, SRepr::Nullable(inner)) => a == *inner,
        (SRepr::Record { fields: sf, .. }, SRepr::Record { fields: tf, .. }) => forall|i: int|
            0 <= i < tf.len() ==> match field_named(sf, (#[trigger] tf[i]).0) {
                Some(s) => assignable(s, tf[i].1),
                None => assignable(SRepr::Null, tf[i].1),
            },
        (SRepr::Tuple(se), SRepr::Tuple(te)) => te.len() <= se.len() && forall|i: int|
            0 <= i < te.len() ==> assignable(se[i], #[trigger] te[i]),
        _ => false,
    }
}

/// Where a variant stands in the canonical order of a union: scalars, tag, variable, what
/// records become, tuples, arrows, and whatever else.
pub open spec fn variant_rank(r: SRepr) -> int {
    match r {
        SRepr::I64 => 0,
        SRepr::F64 => 1,
        SRepr::Str => 2,
        SRepr::Bool => 3,
        SRepr::Null => 4,
        SRepr::Tag => 5,
        SRepr::Var(_) => 6,
        SRepr::Record { .. }
        | SRepr::List(_)
        | SRepr::Mapping(_, _)
        | SRepr::Runtime { .. }
        | SRepr::BoxedRec(_) => 7,
        SRepr::Unit | SRepr::Tuple(_) => 8,
        SRepr::Closure { .. } => 9,
        SRepr::Union(_) | SRepr::Nullable(_) | SRepr::Recursive(_) | SRepr::Any | SRepr::Never => 10,
    }
}

/// The layouts without repetitions, each where it first stands.
pub open spec fn distinct(rs: Seq<SRepr>) -> Seq<SRepr>
    decreases rs.len(),
{
    if rs.len() == 0 {
        seq![]
    } else {
        let d = distinct(rs.drop_last());
        if d.contains(rs.last()) {
            d
        } else {
            d.push(rs.last())
        }
    }
}

/// The layouts of one rank, in order.
pub open spec fn of_rank(rs: Seq<SRepr>, k: int) -> Seq<SRepr>
    decreases rs.len(),
{
    if rs.len() == 0 {
        seq![]
    } else if variant_rank(rs.last()) == k {
        of_rank(rs.drop_last(), k).push(rs.last())
    } else {
        of_rank(rs.drop_last(), k)
    }
}

/// The layouts of ranks below `k`, rank by rank, each rank in the order it came in.
pub open spec fn by_rank(rs: Seq<SRepr>, k: int) -> Seq<SRepr>
    decreases k,
{
    if k <= 0 {
        seq![]
    } else {
        by_rank(rs, k - 1) + of_rank(rs, k - 1)
    }
}

/// The canonical order of a union's variants.
pub open spec fn canonical(rs: Seq<SRepr>) -> Seq<SRepr> {
    by_rank(distinct(rs), 11)
}

/// One layout out of the components of a type. One is itself and several make a union; a
/// pointer or `null` is a nullable pointer.
pub open spec fn combine(rs: Seq<SRepr>) -> SRepr {
    if rs.len() == 0 {
        SRepr::Never
    } else if rs.len() == 1 {
        rs[0]
    } else if rs.len() == 2 && rs[0] is Null && is_pointer(rs[1]) {
        SRepr::Nullable(Box::new(rs[1]))
    } else if rs.len() == 2 && !(rs[0] is Null) && rs[1] is Null && is_pointer(rs[0]) {
        SRepr::Nullable(Box::new(rs[0]))
    } else {
        SRepr::Union(rs)
    }
}

// ---- computing with layouts ----

impl Clone for Repr {
    fn clone(&self) -> (r: Repr)
        ensures
            r.sem() == self.sem(),
        decreases self,
    {
        match self {
            Repr::I64 => Repr::I64,
            Repr::F64 => Repr::F64,
            Repr::Bool => Repr::Bool,
            Repr::Str => Repr::Str,
            Repr::Null => Repr::Null,
            Repr::Unit => Repr::Unit,
            Repr::Tag => Repr::Tag,
            Repr::Record { name, fields } => {
                let r = Repr::Record { name: copy_name(name), fields: copy_fields(fields) };
                assert(r.sem() == self.sem());
                r
            },
            Repr::Tuple(rs) => Repr::Tuple(copy_reprs(rs)),
            Repr::List(r) => Repr::List(Box::new((**r).clone())),
            Repr::Mapping(k, v) => Repr::Mapping(Box::new((**k).clone()), Box::new((**v).clone())),
            Repr::Runtime { nominal, c_type, args } => Repr::Runtime {
                nominal: nominal.clone(),
                c_type: c_type.clone(),
                args: copy_reprs(args),
            },
            Repr::Closure { params, throws, ret } => Repr::Closure {
                params: copy_reprs(params),
                throws: Box::new((**throws).clone()),
                ret: Box::new((**ret).clone()),
            },
            Repr::Union(rs) => Repr::Union(copy_reprs(rs)),
            Repr::Nullable(r) => Repr::Nullable(Box::new((**r).clone())),
            Repr::Var(s) => Repr::Var(s.clone()),
            Repr::BoxedRec(a) => Repr::BoxedRec(*a),
            Repr::Recursive(t) => Repr::Recursive(*t),
            Repr::Any => Repr::Any,
            Repr::Never => Repr::Never,
        }
    }
}

pub fn copy_name(name: &Option<String>) -> (r: Option<String>)
    ensures
        r == *name,
{
    match name {
        Some(s) => Some(s.clone()),
        None => None,
    }
}

pub fn copy_reprs(rs: &Vec<Repr>) -> (r: Vec<Repr>)
    ensures
        reprs_sem(r@) == reprs_sem(rs@),
    decreases rs,
{
    let mut r: Vec<Repr> = Vec::new();
    let mut i: usize = 0;
    while i < rs.len()
        invariant
            i <= rs.len(),
            r.len() == i,
            forall|j: int| 0 <= j < i ==> (#[trigger] r[j]).sem() == rs[j].sem(),
        decreases rs.len() - i,
    {
        r.push(rs[i].clone());
        i += 1;
    }
    assert(reprs_sem(r@) =~= reprs_sem(rs@));
    r
}

fn copy_fields(fs: &Vec<(String, Repr)>) -> (r: Vec<(String, Repr)>)
    ensures
        named_reprs_sem(r@) == named_reprs_sem(fs@),
    decreases fs,
{
    let mut r: Vec<(String, Repr)> = Vec::new();
    let mut i: usize = 0;
    while i < fs.len()
        invariant
            i <= fs.len(),
            r.len() == i,
            forall|j: int|
                0 <= j < i ==> (#[trigger] r[j]).0 == fs[j].0 && r[j].1.sem() == fs[j].1.sem(),
        decreases fs.len() - i,
    {
        r.push((fs[i].0.clone(), fs[i].1.clone()));
        i += 1;
    }
    assert(named_reprs_sem(r@) =~= named_reprs_sem(fs@));
    r
}

fn same_name(a: &Option<String>, b: &Option<String>) -> (r: bool)
    ensures
        r == (opt_name_of(*a) == opt_name_of(*b)),
{
    match (a, b) {
        (Some(x), Some(y)) => *x == *y,
        (None, None) => true,
        _ => false,
    }
}

fn same_reprs(a: &Vec<Repr>, b: &Vec<Repr>) -> (r: bool)
    ensures
        r == (reprs_sem(a@) == reprs_sem(b@)),
    decreases a,
{
    assert(reprs_sem(a@).len() == a.len() && reprs_sem(b@).len() == b.len());
    if a.len() != b.len() {
        return false;
    }
    let mut i: usize = 0;
    while i < a.len()
        invariant
            i <= a.len(),
            a.len() == b.len(),
            forall|j: int| 0 <= j < i ==> (#[trigger] a[j]).sem() == b[j].sem(),
        decreases a.len() - i,
    {
        if !a[i].same(&b[i]) {
            assert(reprs_sem(a@)[i as int] != reprs_sem(b@)[i as int]);
            return false;
        }
        i += 1;
    }
    assert(reprs_sem(a@) =~= reprs_sem(b@));
    true
}

fn same_fields(a: &Vec<(String, Repr)>, b: &Vec<(String, Repr)>) -> (r: bool)
    ensures
        r == (named_reprs_sem(a@) == named_reprs_sem(b@)),
    decreases a,
{
    assert(named_reprs_sem(a@).len() == a.len() && named_reprs_sem(b@).len() == b.len());
    if a.len() != b.len() {
        return false;
    }
    let mut i: usize = 0;
    while i < a.len()
        invariant
            i <= a.len(),
            a.len() == b.len(),
            forall|j: int|
                0 <= j < i ==> (#[trigger] a[j]).0@ == b[j].0@ && a[j].1.sem() == b[j].1.sem(),
        decreases a.len() - i,
    {
        if a[i].0 != b[i].0 || !a[i].1.same(&b[i].1) {
            assert(named_reprs_sem(a@)[i as int] != named_reprs_sem(b@)[i as int]);
            return false;
        }
        i += 1;
    }
    assert(named_reprs_sem(a@) =~= named_reprs_sem(b@));
    true
}

/// Whether a layout is among others.
fn among(r: &Repr, rs: &Vec<Repr>) -> (b: bool)
    ensures
        b == reprs_sem(rs@).contains(r.sem()),
    decreases rs,
{
    let mut i: usize = 0;
    while i < rs.len()
        invariant
            i <= rs.len(),
            forall|j: int| 0 <= j < i ==> (#[trigger] rs[j]).sem() != r.sem(),
        decreases rs.len() - i,
    {
        if rs[i].same(r) {
            assert(reprs_sem(rs@)[i as int] == r.sem());
            return true;
        }
        i += 1;
    }
    assert forall|j: int| 0 <= j < reprs_sem(rs@).len() implies reprs_sem(rs@)[j] != r.sem() by {
        assert(reprs_sem(rs@)[j] == rs[j].sem());
    }
    false
}

impl Repr {
    /// Whether two layouts are the same.
    pub fn same(&self, other: &Repr) -> (r: bool)
        ensures
            r == (self.sem() == other.sem()),
        decreases self,
    {
        match (self, other) {
            (Repr::I64, Repr::I64) => true,
            (Repr::F64, Repr::F64) => true,
            (Repr::Bool, Repr::Bool) => true,
            (Repr::Str, Repr::Str) => true,
            (Repr::Null, Repr::Null) => true,
            (Repr::Unit, Repr::Unit) => true,
            (Repr::Tag, Repr::Tag) => true,
            (Repr::Record { name: n, fields: f }, Repr::Record { name: m, fields: g }) => {
                same_name(n, m) && same_fields(f, g)
            },
            (Repr::Tuple(a), Repr::Tuple(b)) => same_reprs(a, b),
            (Repr::List(a), Repr::List(b)) => (**a).same(&**b),
            (Repr::Mapping(a, b), Repr::Mapping(c, d)) => (**a).same(&**c) && (**b).same(&**d),
            (
                Repr::Runtime { nominal: n, c_type: c, args: a },
                Repr::Runtime { nominal: m, c_type: d, args: b },
            ) => *n == *m && *c == *d && same_reprs(a, b),
            (
                Repr::Closure { params: p, throws: t, ret: r },
                Repr::Closure { params: q, throws: u, ret: s },
            ) => same_reprs(p, q) && (**t).same(&**u) && (**r).same(&**s),
            (Repr::Union(a), Repr::Union(b)) => same_reprs(a, b),
            (Repr::Nullable(a), Repr::Nullable(b)) => (**a).same(&**b),
            (Repr::Var(a), Repr::Var(b)) => *a == *b,
            (Repr::BoxedRec(a), Repr::BoxedRec(b)) => *a == *b,
            (Repr::Recursive(a), Repr::Recursive(b)) => a.0 == b.0,
            (Repr::Any, Repr::Any) => true,
            (Repr::Never, Repr::Never) => true,
            _ => false,
        }
    }

    /// Whether a block may pass an argument of this layout to a parameter of layout
    /// `target`.
    pub fn assignable(&self, target: &Repr) -> (r: bool)
        ensures
            r == assignable(self.sem(), target.sem()),
        decreases target,
    {
        if self.same(target) {
            return true;
        }
        if let Repr::Never = self {
            return true;
        }
        if let Repr::Any = target {
            return true;
        }
        match (self, target) {
            (_, Repr::Union(vs)) => among(self, vs) || match self {
                Repr::Union(from) => overlap(from, vs),
                _ => false,
            },
            (Repr::Union(from), _) => among(target, from) && only_or_never(from, target),
            (Repr::Null, Repr::Nullable(_)) => true,
            (_, Repr::Nullable(inner)) => self.same(&**inner),
            (Repr::Record { fields: sf, .. }, Repr::Record { fields: tf, .. }) => {
                record_fits(sf, tf)
            },
            (Repr::Tuple(se), Repr::Tuple(te)) => tuple_fits(se, te),
            _ => false,
        }
    }

    /// Whether a value of this layout lives behind a pointer, so that `T | null` can use a
    /// null pointer rather than a discriminant.
    pub fn is_pointer(&self) -> (r: bool)
        ensures
            r == is_pointer(self.sem()),
    {
        match self {
            Repr::Str
            | Repr::List(_)
            | Repr::Mapping(_, _)
            | Repr::Runtime { .. }
            | Repr::Closure { .. }
            | Repr::BoxedRec(_) => true,
            _ => false,
        }
    }

    /// Whether a value of this layout owns anything reference-counted.
    pub fn is_counted(&self) -> (r: bool)
        ensures
            r == is_counted(self.sem()),
        decreases self,
    {
        match self {
            Repr::Str
            | Repr::List(_)
            | Repr::Mapping(_, _)
            | Repr::Runtime { .. }
            | Repr::Closure { .. }
            | Repr::BoxedRec(_)
            | Repr::Any
            | Repr::Recursive(_) => true,
            Repr::Union(rs) => any_counted(rs),
            Repr::Tuple(rs) => any_counted(rs),
            Repr::Record { fields, .. } => any_field_counted(fields),
            Repr::Nullable(inner) => (**inner).is_counted(),
            _ => false,
        }
    }

    /// Whether no type variable is left anywhere in this layout.
    pub fn is_concrete(&self) -> (r: bool)
        ensures
            r == is_concrete(self.sem()),
        decreases self,
    {
        match self {
            Repr::Var(_) => false,
            Repr::Record { fields, .. } => are_fields_concrete(fields),
            Repr::Tuple(rs) => are_concrete(rs),
            Repr::Union(rs) => are_concrete(rs),
            Repr::List(r) => (**r).is_concrete(),
            Repr::Nullable(r) => (**r).is_concrete(),
            Repr::Mapping(k, v) => (**k).is_concrete() && (**v).is_concrete(),
            Repr::Runtime { args, .. } => are_concrete(args),
            Repr::Closure { params, throws, ret } => are_concrete(params) && (
            **throws).is_concrete() && (**ret).is_concrete(),
            _ => true,
        }
    }

    /// Where this variant stands in the canonical order of a union.
    fn variant_rank(&self) -> (r: u8)
        ensures
            r == variant_rank(self.sem()),
            r < 11,
    {
        match self {
            Repr::I64 => 0,
            Repr::F64 => 1,
            Repr::Str => 2,
            Repr::Bool => 3,
            Repr::Null => 4,
            Repr::Tag => 5,
            Repr::Var(_) => 6,
            Repr::Record { .. }
            | Repr::List(_)
            | Repr::Mapping(_, _)
            | Repr::Runtime { .. }
            | Repr::BoxedRec(_) => 7,
            Repr::Unit | Repr::Tuple(_) => 8,
            Repr::Closure { .. } => 9,
            Repr::Union(_) | Repr::Nullable(_) | Repr::Recursive(_) | Repr::Any | Repr::Never => 10,
        }
    }
}

fn overlap(from: &Vec<Repr>, vs: &Vec<Repr>) -> (r: bool)
    ensures
        r == exists|i: int|
            0 <= i < reprs_sem(from@).len() && reprs_sem(vs@).contains(
                #[trigger] reprs_sem(from@)[i],
            ),
{
    let mut i: usize = 0;
    while i < from.len()
        invariant
            i <= from.len(),
            forall|j: int| 0 <= j < i ==> !reprs_sem(vs@).contains((#[trigger] from[j]).sem()),
        decreases from.len() - i,
    {
        if among(&from[i], vs) {
            assert(reprs_sem(vs@).contains(reprs_sem(from@)[i as int]));
            return true;
        }
        i += 1;
    }
    assert forall|j: int| 0 <= j < reprs_sem(from@).len() implies !reprs_sem(vs@).contains(
        #[trigger] reprs_sem(from@)[j],
    ) by {
        assert(reprs_sem(from@)[j] == from[j].sem());
    }
    false
}

fn only_or_never(from: &Vec<Repr>, t: &Repr) -> (r: bool)
    ensures
        r == forall|i: int|
            0 <= i < reprs_sem(from@).len() ==> (#[trigger] reprs_sem(from@)[i]) is Never
                || reprs_sem(from@)[i] == t.sem(),
{
    let mut i: usize = 0;
    while i < from.len()
        invariant
            i <= from.len(),
            forall|j: int|
                0 <= j < i ==> (#[trigger] from[j]).sem() is Never || from[j].sem() == t.sem(),
        decreases from.len() - i,
    {
        let never = match &from[i] {
            Repr::Never => true,
            _ => false,
        };
        if !never && !from[i].same(t) {
            assert(!(reprs_sem(from@)[i as int] is Never) && reprs_sem(from@)[i as int] != t.sem());
            return false;
        }
        i += 1;
    }
    assert forall|j: int| 0 <= j < reprs_sem(from@).len() implies (
    #[trigger] reprs_sem(from@)[j]) is Never || reprs_sem(from@)[j] == t.sem() by {
        assert(reprs_sem(from@)[j] == from[j].sem());
    }
    true
}

/// Where the field with a name stands, if there is one.
pub fn field_index(fields: &Vec<(String, Repr)>, name: &String) -> (r: Option<usize>)
    ensures
        match r {
            Some(i) => i < fields.len() && field_named(named_reprs_sem(fields@), name@) == Some(
                fields[i as int].1.sem(),
            ) && fields[i as int].0@ == name@,
            None => field_named(named_reprs_sem(fields@), name@) is None,
        },
{
    let ghost fs = named_reprs_sem(fields@);
    let mut i: usize = 0;
    assert(fs.subrange(0, fs.len() as int) =~= fs);
    while i < fields.len()
        invariant
            i <= fields.len(),
            fs == named_reprs_sem(fields@),
            fs.len() == fields.len(),
            field_named(fs, name@) == field_named(fs.subrange(i as int, fs.len() as int), name@),
        decreases fields.len() - i,
    {
        let ghost rest = fs.subrange(i as int, fs.len() as int);
        assert(rest[0] == fs[i as int]);
        assert(fs[i as int] == (fields[i as int].0@, fields[i as int].1.sem()));
        if fields[i].0 == *name {
            return Some(i);
        }
        assert(rest.drop_first() =~= fs.subrange(i + 1, fs.len() as int));
        i += 1;
    }
    None
}

fn record_fits(sf: &Vec<(String, Repr)>, tf: &Vec<(String, Repr)>) -> (r: bool)
    ensures
        r == forall|i: int|
            0 <= i < named_reprs_sem(tf@).len() ==> match field_named(
                named_reprs_sem(sf@),
                (#[trigger] named_reprs_sem(tf@)[i]).0,
            ) {
                Some(s) => assignable(s, named_reprs_sem(tf@)[i].1),
                None => assignable(SRepr::Null, named_reprs_sem(tf@)[i].1),
            },
    decreases tf,
{
    let ghost ss = named_reprs_sem(sf@);
    let ghost tt = named_reprs_sem(tf@);
    let mut i: usize = 0;
    while i < tf.len()
        invariant
            i <= tf.len(),
            ss == named_reprs_sem(sf@),
            tt == named_reprs_sem(tf@),
            forall|j: int|
                0 <= j < i ==> match field_named(ss, (#[trigger] tt[j]).0) {
                    Some(s) => assignable(s, tt[j].1),
                    None => assignable(SRepr::Null, tt[j].1),
                },
        decreases tf.len() - i,
    {
        assert(tt[i as int] == (tf[i as int].0@, tf[i as int].1.sem()));
        let fits = match field_index(sf, &tf[i].0) {
            Some(k) => sf[k].1.assignable(&tf[i].1),
            None => {
                assert(Repr::Null.sem() == SRepr::Null);
                Repr::Null.assignable(&tf[i].1)
            },
        };
        if !fits {
            return false;
        }
        i += 1;
    }
    true
}

fn tuple_fits(se: &Vec<Repr>, te: &Vec<Repr>) -> (r: bool)
    ensures
        r == (reprs_sem(te@).len() <= reprs_sem(se@).len() && forall|i: int|
            0 <= i < reprs_sem(te@).len() ==> assignable(
                reprs_sem(se@)[i],
                #[trigger] reprs_sem(te@)[i],
            )),
    decreases te,
{
    assert(reprs_sem(te@).len() == te.len() && reprs_sem(se@).len() == se.len());
    if te.len() > se.len() {
        return false;
    }
    let mut i: usize = 0;
    while i < te.len()
        invariant
            i <= te.len() <= se.len(),
            forall|j: int| 0 <= j < i ==> assignable(se[j].sem(), (#[trigger] te[j]).sem()),
        decreases te.len() - i,
    {
        if !se[i].assignable(&te[i]) {
            assert(!assignable(reprs_sem(se@)[i as int], reprs_sem(te@)[i as int]));
            return false;
        }
        i += 1;
    }
    assert forall|j: int| 0 <= j < reprs_sem(te@).len() implies assignable(
        reprs_sem(se@)[j],
        #[trigger] reprs_sem(te@)[j],
    ) by {
        assert(assignable(se[j].sem(), te[j].sem()));
    }
    true
}

fn any_counted(rs: &Vec<Repr>) -> (r: bool)
    ensures
        r == some_counted(reprs_sem(rs@), rs.len() as int),
        reprs_sem(rs@).len() == rs.len(),
    decreases rs,
{
    let ghost s = reprs_sem(rs@);
    let mut i: usize = 0;
    let mut r: bool = false;
    while i < rs.len()
        invariant
            i <= rs.len(),
            s == reprs_sem(rs@),
            s.len() == rs.len(),
            r == some_counted(s, i as int),
        decreases rs.len() - i,
    {
        assert(s[i as int] == rs[i as int].sem());
        r = rs[i].is_counted() || r;
        i += 1;
    }
    r
}

fn any_field_counted(rs: &Vec<(String, Repr)>) -> (r: bool)
    ensures
        r == some_field_counted(named_reprs_sem(rs@), rs.len() as int),
        named_reprs_sem(rs@).len() == rs.len(),
    decreases rs,
{
    let ghost s = named_reprs_sem(rs@);
    let mut i: usize = 0;
    let mut r: bool = false;
    while i < rs.len()
        invariant
            i <= rs.len(),
            s == named_reprs_sem(rs@),
            s.len() == rs.len(),
            r == some_field_counted(s, i as int),
        decreases rs.len() - i,
    {
        assert(s[i as int] == (rs[i as int].0@, rs[i as int].1.sem()));
        r = rs[i].1.is_counted() || r;
        i += 1;
    }
    r
}

fn are_concrete(rs: &Vec<Repr>) -> (r: bool)
    ensures
        r == all_concrete(reprs_sem(rs@), rs.len() as int),
        reprs_sem(rs@).len() == rs.len(),
    decreases rs,
{
    let ghost s = reprs_sem(rs@);
    let mut i: usize = 0;
    let mut r: bool = true;
    while i < rs.len()
        invariant
            i <= rs.len(),
            s == reprs_sem(rs@),
            s.len() == rs.len(),
            r == all_concrete(s, i as int),
        decreases rs.len() - i,
    {
        assert(s[i as int] == rs[i as int].sem());
        r = rs[i].is_concrete() && r;
        i += 1;
    }
    r
}

fn are_fields_concrete(rs: &Vec<(String, Repr)>) -> (r: bool)
    ensures
        r == fields_concrete(named_reprs_sem(rs@), rs.len() as int),
        named_reprs_sem(rs@).len() == rs.len(),
    decreases rs,
{
    let ghost s = named_reprs_sem(rs@);
    let mut i: usize = 0;
    let mut r: bool = true;
    while i < rs.len()
        invariant
            i <= rs.len(),
            s == named_reprs_sem(rs@),
            s.len() == rs.len(),
            r == fields_concrete(s, i as int),
        decreases rs.len() - i,
    {
        assert(s[i as int] == (rs[i as int].0@, rs[i as int].1.sem()));
        r = rs[i].1.is_concrete() && r;
        i += 1;
    }
    r
}

/// Fold substituted variants back into a normal layout.
///
/// Substituting into a union can change what it is: `T | null` at `str` is a nullable
/// pointer, not a union of two. So repetitions go, the rest takes the canonical order, and
/// the components are combined as those of any type.
pub fn normalize_union(variants: Vec<Repr>) -> (r: Repr)
    ensures
        r.sem() == combine(canonical(reprs_sem(variants@))),
{
    let ghost all = reprs_sem(variants@);
    let mut seen: Vec<Repr> = Vec::new();
    let mut i: usize = 0;
    assert(reprs_sem(seen@) =~= distinct(all.take(0)));
    while i < variants.len()
        invariant
            i <= variants.len(),
            all == reprs_sem(variants@),
            all.len() == variants.len(),
            reprs_sem(seen@) == distinct(all.take(i as int)),
        decreases variants.len() - i,
    {
        assert(all.take(i + 1).drop_last() =~= all.take(i as int));
        assert(all.take(i + 1).last() == variants[i as int].sem());
        if !among(&variants[i], &seen) {
            let ghost before = seen@;
            let c = variants[i].clone();
            seen.push(c);
            assert(reprs_sem(seen@) =~= reprs_sem(before).push(c.sem()));
        }
        i += 1;
    }
    assert(all.take(i as int) =~= all);
    combine_reprs(sort_by_rank(&seen))
}

/// The layouts rank by rank, each rank in the order it came in.
fn sort_by_rank(rs: &Vec<Repr>) -> (r: Vec<Repr>)
    ensures
        reprs_sem(r@) == by_rank(reprs_sem(rs@), 11),
{
    let ghost all = reprs_sem(rs@);
    let mut out: Vec<Repr> = Vec::new();
    let mut k: u8 = 0;
    assert(reprs_sem(out@) =~= by_rank(all, 0));
    while k < 11
        invariant
            k <= 11,
            all == reprs_sem(rs@),
            all.len() == rs.len(),
            reprs_sem(out@) == by_rank(all, k as int),
        decreases 11 - k,
    {
        let mut i: usize = 0;
        assert(reprs_sem(out@) =~= by_rank(all, k as int) + of_rank(all.take(0), k as int));
        while i < rs.len()
            invariant
                k < 11,
                i <= rs.len(),
                all == reprs_sem(rs@),
                all.len() == rs.len(),
                reprs_sem(out@) == by_rank(all, k as int) + of_rank(all.take(i as int), k as int),
            decreases rs.len() - i,
        {
            assert(all.take(i + 1).drop_last() =~= all.take(i as int));
            assert(all.take(i + 1).last() == rs[i as int].sem());
            if rs[i].variant_rank() == k {
                let ghost before = out@;
                let c = rs[i].clone();
                out.push(c);
                assert(reprs_sem(out@) =~= reprs_sem(before).push(c.sem()));
                assert(reprs_sem(out@) =~= by_rank(all, k as int) + of_rank(
                    all.take(i + 1),
                    k as int,
                ));
            }
            i += 1;
        }
        assert(all.take(i as int) =~= all);
        k += 1;
    }
    out
}

/// One layout out of the components of a type.
pub fn combine_reprs(comps: Vec<Repr>) -> (r: Repr)
    ensures
        r.sem() == combine(reprs_sem(comps@)),
{
    let ghost all = reprs_sem(comps@);
    let mut comps = comps;
    let n: usize = comps.len();
    assert(all.len() == n);
    if n == 0 {
        return Repr::Never;
    }
    assert(all[0] == comps@[0].sem());
    if n == 1 {
        return comps.pop().unwrap();
    }
    if n == 2 {
        assert(all[1] == comps@[1].sem());
        let first_null = match &comps[0] {
            Repr::Null => true,
            _ => false,
        };
        let second_null = match &comps[1] {
            Repr::Null => true,
            _ => false,
        };
        if first_null && comps[1].is_pointer() {
            let other = comps.pop().unwrap();
            return Repr::Nullable(Box::new(other));
        }
        if !first_null && second_null && comps[0].is_pointer() {
            let _ = comps.pop();
            let other = comps.pop().unwrap();
            return Repr::Nullable(Box::new(other));
        }
    }
    Repr::Union(comps)
}

// ---- laws ----

proof fn lemma_distinct(rs: Seq<SRepr>)
    ensures
        distinct(rs).no_duplicates(),
        forall|r: SRepr| #[trigger] distinct(rs).contains(r) ==> rs.contains(r),
        forall|r: SRepr| #[trigger] rs.contains(r) ==> distinct(rs).contains(r),
    decreases rs.len(),
{
    if rs.len() > 0 {
        let shorter = rs.drop_last();
        let d = distinct(shorter);
        lemma_distinct(shorter);
        assert forall|r: SRepr| #[trigger] rs.contains(r) implies distinct(rs).contains(r) by {
            let i = choose|i: int| 0 <= i < rs.len() && rs[i] == r;
            if i < rs.len() - 1 {
                assert(shorter[i] == r);
                assert(shorter.contains(r));
            }
            if d.contains(r) {
                let j = choose|j: int| 0 <= j < d.len() && d[j] == r;
                assert(distinct(rs)[j] == r);
            } else {
                assert(distinct(rs)[d.len() as int] == r);
            }
        }
        assert forall|r: SRepr| #[trigger] distinct(rs).contains(r) implies rs.contains(r) by {
            let i = choose|i: int| 0 <= i < distinct(rs).len() && distinct(rs)[i] == r;
            if i < d.len() {
                assert(d[i] == r);
                assert(d.contains(r));
                let j = choose|j: int| 0 <= j < shorter.len() && shorter[j] == r;
                assert(rs[j] == r);
            } else {
                assert(rs[rs.len() - 1] == r);
            }
        }
    }
}

proof fn lemma_distinct_of_distinct(rs: Seq<SRepr>)
    requires
        rs.no_duplicates(),
    ensures
        distinct(rs) == rs,
    decreases rs.len(),
{
    if rs.len() > 0 {
        lemma_distinct_of_distinct(rs.drop_last());
        assert(!rs.drop_last().contains(rs.last()));
        assert(rs.drop_last().push(rs.last()) =~= rs);
    } else {
        assert(distinct(rs) =~= rs);
    }
}

/// The variants of one rank: which they are, and that they keep their order.
proof fn lemma_of_rank(rs: Seq<SRepr>, k: int)
    ensures
        forall|r: SRepr| #[trigger]
            of_rank(rs, k).contains(r) <==> rs.contains(r) && variant_rank(r) == k,
        rs.no_duplicates() ==> of_rank(rs, k).no_duplicates(),
    decreases rs.len(),
{
    if rs.len() > 0 {
        let shorter = rs.drop_last();
        lemma_of_rank(shorter, k);
        assert forall|r: SRepr| #[trigger] of_rank(rs, k).contains(r) <==> rs.contains(r)
            && variant_rank(r) == k by {
            if rs.contains(r) && variant_rank(r) == k {
                let i = choose|i: int| 0 <= i < rs.len() && rs[i] == r;
                if i < rs.len() - 1 {
                    assert(shorter[i] == r);
                    assert(of_rank(shorter, k).contains(r));
                    let j = choose|j: int|
                        0 <= j < of_rank(shorter, k).len() && of_rank(shorter, k)[j] == r;
                    assert(of_rank(rs, k)[j] == r);
                } else {
                    assert(of_rank(rs, k).last() == r);
                }
            }
            if of_rank(rs, k).contains(r) {
                let i = choose|i: int| 0 <= i < of_rank(rs, k).len() && of_rank(rs, k)[i] == r;
                if i < of_rank(shorter, k).len() {
                    assert(of_rank(shorter, k)[i] == r);
                    assert(of_rank(shorter, k).contains(r));
                    let j = choose|j: int| 0 <= j < shorter.len() && shorter[j] == r;
                    assert(rs[j] == r);
                } else {
                    assert(rs[rs.len() - 1] == r);
                }
            }
        }
        if rs.no_duplicates() {
            assert(shorter.no_duplicates());
            assert(!shorter.contains(rs.last()));
            assert(!of_rank(shorter, k).contains(rs.last()));
        }
    }
}

/// What the ranks below `k` hold.
proof fn lemma_by_rank(rs: Seq<SRepr>, k: int)
    requires
        0 <= k,
    ensures
        forall|r: SRepr| #[trigger]
            by_rank(rs, k).contains(r) <==> rs.contains(r) && 0 <= variant_rank(r) < k,
        rs.no_duplicates() ==> by_rank(rs, k).no_duplicates(),
    decreases k,
{
    if k > 0 {
        let a = by_rank(rs, k - 1);
        let b = of_rank(rs, k - 1);
        lemma_by_rank(rs, k - 1);
        lemma_of_rank(rs, k - 1);
        assert forall|r: SRepr| #[trigger] by_rank(rs, k).contains(r) <==> rs.contains(r) && 0
            <= variant_rank(r) < k by {
            if by_rank(rs, k).contains(r) {
                let i = choose|i: int| 0 <= i < (a + b).len() && (a + b)[i] == r;
                if i < a.len() {
                    assert(a[i] == r);
                    assert(a.contains(r));
                } else {
                    assert(b[i - a.len()] == r);
                    assert(b.contains(r));
                }
            }
            if rs.contains(r) && 0 <= variant_rank(r) < k {
                if variant_rank(r) < k - 1 {
                    assert(a.contains(r));
                    let j = choose|j: int| 0 <= j < a.len() && a[j] == r;
                    assert((a + b)[j] == r);
                } else {
                    assert(b.contains(r));
                    let j = choose|j: int| 0 <= j < b.len() && b[j] == r;
                    assert((a + b)[a.len() + j] == r);
                }
            }
        }
        if rs.no_duplicates() {
            assert forall|i: int, j: int|
                0 <= i < (a + b).len() && 0 <= j < (a + b).len() && i != j implies (a + b)[i] != (a
                + b)[j] by {
                if i < a.len() && j >= a.len() {
                    assert(a.contains(a[i]) && b.contains(b[j - a.len()]));
                } else if j < a.len() && i >= a.len() {
                    assert(a.contains(a[j]) && b.contains(b[i - a.len()]));
                }
            }
        }
    }
}

/// Picking one rank out of a run that is already ordered gives that rank's stretch.
proof fn lemma_of_rank_add(a: Seq<SRepr>, b: Seq<SRepr>, k: int)
    ensures
        of_rank(a + b, k) == of_rank(a, k) + of_rank(b, k),
    decreases b.len(),
{
    if b.len() == 0 {
        assert(a + b =~= a);
        assert(of_rank(a, k) + of_rank(b, k) =~= of_rank(a, k));
    } else {
        lemma_of_rank_add(a, b.drop_last(), k);
        assert((a + b).drop_last() =~= a + b.drop_last());
        assert(of_rank(a + b, k) =~= of_rank(a, k) + of_rank(b, k));
    }
}

proof fn lemma_of_rank_uniform(rs: Seq<SRepr>, j: int, k: int)
    requires
        forall|i: int| 0 <= i < rs.len() ==> variant_rank(#[trigger] rs[i]) == j,
    ensures
        j == k ==> of_rank(rs, k) == rs,
        j != k ==> of_rank(rs, k) == Seq::<SRepr>::empty(),
    decreases rs.len(),
{
    if rs.len() > 0 {
        let shorter = rs.drop_last();
        assert forall|i: int| 0 <= i < shorter.len() implies variant_rank(#[trigger] shorter[i])
            == j by {
            assert(shorter[i] == rs[i]);
        }
        lemma_of_rank_uniform(shorter, j, k);
        assert(rs[rs.len() - 1] == rs.last());
        assert(shorter.push(rs.last()) =~= rs);
    } else {
        assert(of_rank(rs, k) =~= rs);
    }
}

proof fn lemma_of_rank_by_rank(rs: Seq<SRepr>, n: int, k: int)
    requires
        0 <= n,
    ensures
        of_rank(by_rank(rs, n), k) == if 0 <= k < n {
            of_rank(rs, k)
        } else {
            Seq::<SRepr>::empty()
        },
    decreases n,
{
    if n > 0 {
        let a = by_rank(rs, n - 1);
        let b = of_rank(rs, n - 1);
        lemma_of_rank_by_rank(rs, n - 1, k);
        lemma_of_rank_add(a, b, k);
        lemma_of_rank(rs, n - 1);
        assert forall|i: int| 0 <= i < b.len() implies variant_rank(#[trigger] b[i]) == n - 1 by {
            assert(b.contains(b[i]));
        }
        lemma_of_rank_uniform(b, n - 1, k);
        assert(of_rank(a + b, k) =~= if 0 <= k < n {
            of_rank(rs, k)
        } else {
            Seq::<SRepr>::empty()
        });
    }
}

proof fn lemma_by_rank_by_rank(rs: Seq<SRepr>, n: int, k: int)
    requires
        0 <= k <= n,
    ensures
        by_rank(by_rank(rs, n), k) == by_rank(rs, k),
    decreases k,
{
    if k > 0 {
        lemma_by_rank_by_rank(rs, n, k - 1);
        lemma_of_rank_by_rank(rs, n, k - 1);
    }
}

/// The canonical order is a fixed point: putting variants in it that are in it already
/// changes nothing.
pub proof fn canonical_order_is_stable(rs: Seq<SRepr>)
    ensures
        canonical(canonical(rs)) == canonical(rs),
{
    lemma_distinct(rs);
    lemma_by_rank(distinct(rs), 11);
    lemma_distinct_of_distinct(canonical(rs));
    lemma_by_rank_by_rank(distinct(rs), 11, 11);
}

/// Normalising keeps every variant, once.
pub proof fn canonical_order_keeps_variants(rs: Seq<SRepr>)
    ensures
        canonical(rs).no_duplicates(),
        forall|r: SRepr| canonical(rs).contains(r) <==> rs.contains(r),
{
    lemma_distinct(rs);
    lemma_by_rank(distinct(rs), 11);
    assert forall|r: SRepr| canonical(rs).contains(r) <==> rs.contains(r) by {
        assert(0 <= variant_rank(r) < 11);
    }
}

/// Two runs with the same variants, no two of them of one rank, normalise alike: the order
/// in which variants arrive does not matter.
pub proof fn canonical_order_ignores_arrival(a: Seq<SRepr>, b: Seq<SRepr>)
    requires
        forall|r: SRepr| #[trigger] a.contains(r) ==> b.contains(r),
        forall|r: SRepr| #[trigger] b.contains(r) ==> a.contains(r),
        forall|r: SRepr, s: SRepr| #[trigger]
            a.contains(r) && #[trigger] a.contains(s) && variant_rank(r) == variant_rank(s) ==> r
                == s,
    ensures
        canonical(a) == canonical(b),
{
    lemma_distinct(a);
    lemma_distinct(b);
    lemma_same_ranks(distinct(a), distinct(b), 11);
}

proof fn lemma_same_ranks(a: Seq<SRepr>, b: Seq<SRepr>, k: int)
    requires
        a.no_duplicates(),
        b.no_duplicates(),
        forall|r: SRepr| #[trigger] a.contains(r) ==> b.contains(r),
        forall|r: SRepr| #[trigger] b.contains(r) ==> a.contains(r),
        forall|r: SRepr, s: SRepr| #[trigger]
            a.contains(r) && #[trigger] a.contains(s) && variant_rank(r) == variant_rank(s) ==> r
                == s,
    ensures
        by_rank(a, k) == by_rank(b, k),
    decreases k,
{
    if k > 0 {
        lemma_same_ranks(a, b, k - 1);
        let x = of_rank(a, k - 1);
        let y = of_rank(b, k - 1);
        lemma_of_rank(a, k - 1);
        lemma_of_rank(b, k - 1);
        assert(x.len() <= 1) by {
            if x.len() > 1 {
                assert(x.contains(x[0]) && x.contains(x[1]));
            }
        }
        assert(y.len() <= 1) by {
            if y.len() > 1 {
                assert(y.contains(y[0]) && y.contains(y[1]));
                assert(a.contains(y[0]) && a.contains(y[1]));
            }
        }
        if x.len() == 1 {
            assert(x.contains(x[0]));
            assert(y.contains(x[0]));
        }
        if y.len() == 1 {
            assert(y.contains(y[0]));
            assert(x.contains(y[0]));
        }
        assert(x =~= y);
    }
}

/// A layout that is behind a pointer is reference-counted.
pub proof fn pointers_are_counted(r: SRepr)
    requires
        is_pointer(r),
    ensures
        is_counted(r),
{
}

/// Every layout may be passed where it is expected itself, and where anything is.
pub proof fn assignable_to_itself_and_any(r: SRepr)
    ensures
        assignable(r, r),
        assignable(r, SRepr::Any),
        assignable(SRepr::Never, r),
{
}

} // verus!
