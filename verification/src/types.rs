//! The table of types that layouts are derived from.
//!
//! A type is a union of what its kinds admit: the base types, a set of atoms, a type
//! variable, and records, tuples and arrows. Each of the last three is a disjunction of
//! paths, and a path a conjunction of constructors, some of them negated.

use vstd::prelude::*;

verus! {

/// A type, by its number in a [`Types`] table.
#[derive(Debug, Clone, Copy, PartialEq, Eq, Structural, Hash, PartialOrd, Ord)]
pub struct TyId(pub u32);

/// A set of names, by their numbers, or all names but those.
#[derive(Debug, PartialEq, Eq)]
pub struct AtomSet {
    pub neg: bool,
    pub names: Vec<u32>,
}

/// A conjunction of constructors, by their numbers: those that a value is built with, and
/// those that it is not.
#[derive(Debug, PartialEq, Eq)]
pub struct Path {
    pub pos: Vec<u32>,
    pub neg: Vec<u32>,
}

/// What a type admits.
#[derive(Debug, PartialEq, Eq)]
pub struct TyData {
    pub integer: bool,
    pub float: bool,
    pub string: bool,
    pub boolean: bool,
    pub null: bool,
    pub atoms: AtomSet,
    /// Type variables.
    pub vars: AtomSet,
    pub records: Vec<Path>,
    pub tuples: Vec<Path>,
    pub arrows: Vec<Path>,
}

/// A record constructor: its fields, by the numbers of their names. Fields whose names begin
/// with `#` are the compiler's own: `#nominal` holds the record's name as an atom, `#0` and
/// up its type arguments, and `#inner` the payload of a newtype.
#[derive(Debug, PartialEq, Eq)]
pub struct RecAtom {
    pub fields: Vec<(u32, TyId)>,
}

/// A tuple constructor.
#[derive(Debug, PartialEq, Eq)]
pub struct TupAtom {
    pub elems: Vec<TyId>,
}

/// An arrow constructor.
#[derive(Debug, PartialEq, Eq)]
pub struct ArrowAtom {
    pub params: Vec<TyId>,
    pub throws: TyId,
    pub ret: TyId,
}

/// All types of a program.
#[derive(Debug, PartialEq, Eq)]
pub struct Types {
    pub names: Vec<String>,
    pub data: Vec<TyData>,
    pub rec_atoms: Vec<RecAtom>,
    pub tup_atoms: Vec<TupAtom>,
    pub arrow_atoms: Vec<ArrowAtom>,
    /// The number of the name `#nominal`.
    pub nominal_label: u32,
    /// The records that the runtime owns: the type's name, and the C type of its pointee.
    pub runtime_types: Vec<(String, String)>,
}

/// Whether all numbers are below `n`.
pub open spec fn numbers_below(ns: Seq<u32>, n: nat) -> bool {
    forall|i: int| 0 <= i < ns.len() ==> (#[trigger] ns[i]) < n
}

pub open spec fn types_below(ts: Seq<TyId>, n: nat) -> bool {
    forall|i: int| 0 <= i < ts.len() ==> (#[trigger] ts[i]).0 < n
}

/// Whether all paths name constructors below `n`.
pub open spec fn paths_below(ps: Seq<Path>, n: nat) -> bool {
    forall|i: int| 0 <= i < ps.len() ==> numbers_below((#[trigger] ps[i]).pos@, n)
}

pub open spec fn data_wf(t: Types, d: TyData) -> bool {
    &&& numbers_below(d.atoms.names@, t.names.len() as nat)
    &&& numbers_below(d.vars.names@, t.names.len() as nat)
    &&& paths_below(d.records@, t.rec_atoms.len() as nat)
    &&& paths_below(d.tuples@, t.tup_atoms.len() as nat)
    &&& paths_below(d.arrows@, t.arrow_atoms.len() as nat)
}

pub open spec fn rec_wf(t: Types, a: RecAtom) -> bool {
    forall|i: int|
        0 <= i < a.fields.len() ==> (#[trigger] a.fields[i]).0 < t.names.len() && a.fields[i].1.0
            < t.data.len()
}

pub open spec fn arrow_wf(t: Types, a: ArrowAtom) -> bool {
    &&& types_below(a.params@, t.data.len() as nat)
    &&& a.throws.0 < t.data.len()
    &&& a.ret.0 < t.data.len()
}

/// A table whose numbers all stand for something in it.
pub open spec fn types_wf(t: Types) -> bool {
    &&& t.data.len() + t.rec_atoms.len() < u32::MAX
    &&& forall|i: int| 0 <= i < t.data.len() ==> data_wf(t, #[trigger] t.data[i])
    &&& forall|i: int| 0 <= i < t.rec_atoms.len() ==> rec_wf(t, #[trigger] t.rec_atoms[i])
    &&& forall|i: int|
        0 <= i < t.tup_atoms.len() ==> types_below(
            (#[trigger] t.tup_atoms[i]).elems@,
            t.data.len() as nat,
        )
    &&& forall|i: int| 0 <= i < t.arrow_atoms.len() ==> arrow_wf(t, #[trigger] t.arrow_atoms[i])
}

} // verus!
