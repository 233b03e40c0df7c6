//! The names of functions, and other small tables.

use super::super::repr::{named_reprs_sem, reprs_sem, Repr, SRepr};
use super::super::ssa::PrimOp;
use super::subst::{SSubst, Subst};
use crate::ast::{BinOp, UnOp};
use crate::syntax::{names_of, Node};
use crate::text::{cat, dec, join, join_all, push_dec};
use vstd::prelude::*;

verus! {

// ---- function names ----

/// The name of a function: its module's path and its own name.
pub open spec fn mangled(module: Seq<Seq<char>>, name: Seq<char>) -> Seq<char> {
    if module.len() == 0 {
        name
    } else {
        join_all(module, "__"@) + "__"@ + name
    }
}

/// The name of a method: its protocol, what it is implemented for, and its own name.
pub open spec fn mangled_impl(protocol: Seq<char>, head: Seq<char>, method: Seq<char>) -> Seq<char> {
    protocol + "$"@ + head + "$"@ + method
}

/// A name inside a key: how long it is, and the name itself.
pub open spec fn name_key(n: Seq<char>) -> Seq<char> {
    dec(n.len()) + ":"@ + n
}

/// A layout as a part of a name, to tell instances of a function apart. It spells out the
/// whole layout, with brackets around what a layout is made of, so that no two layouts have
/// the same key.
pub open spec fn repr_key(r: SRepr) -> Seq<char>
    decreases r, 0int,
{
    match r {
        SRepr::I64 => "i64"@,
        SRepr::F64 => "f64"@,
        SRepr::Bool => "bool"@,
        SRepr::Str => "str"@,
        SRepr::Null => "null"@,
        SRepr::Unit => "unit"@,
        SRepr::Tag => "tag"@,
        SRepr::Runtime { nominal, c_type, args } => "rt["@ + (name_key(nominal) + (name_key(c_type)
            + keys(args, 0))),
        SRepr::Record { name: Some(n), fields } => name_key(n) + ("{"@ + field_keys(fields, 0)),
        SRepr::Record { name: None, fields } => "rec{"@ + field_keys(fields, 0),
        SRepr::List(e) => "list["@ + (repr_key(*e) + "]"@),
        SRepr::Mapping(k, v) => "map["@ + (repr_key(*k) + (","@ + (repr_key(*v) + "]"@))),
        SRepr::Tuple(rs) => "tup["@ + keys(rs, 0),
        SRepr::Nullable(e) => "opt["@ + (repr_key(*e) + "]"@),
        SRepr::Closure { params, throws, ret } => "fn[["@ + (keys(params, 0) + (repr_key(*throws) + (
        ","@ + (repr_key(*ret) + "]"@)))),
        SRepr::Union(rs) => "union["@ + keys(rs, 0),
        SRepr::Var(n) => "var["@ + (name_key(n) + "]"@),
        SRepr::Recursive(t) => "mu["@ + (dec(t.0 as nat) + "]"@),
        SRepr::BoxedRec(a) => "box["@ + (dec(a as nat) + "]"@),
        SRepr::Any => "any"@,
        SRepr::Never => "never"@,
    }
}

/// The keys of the layouts from `k` on, and the bracket that closes them.
pub open spec fn keys(rs: Seq<SRepr>, k: int) -> Seq<char>
    decreases rs, rs.len() - k,
{
    if 0 <= k < rs.len() {
        repr_key(rs[k]) + (","@ + keys(rs, k + 1))
    } else {
        "]"@
    }
}

/// A field as a part of a name: its own name, and its layout.
pub open spec fn field_key(f: (Seq<char>, SRepr)) -> Seq<char>
    decreases f, 0int,
{
    name_key(f.0) + ("="@ + repr_key(f.1))
}

/// The keys of the fields from `k` on, and the bracket that closes them.
pub open spec fn field_keys(fs: Seq<(Seq<char>, SRepr)>, k: int) -> Seq<char>
    decreases fs, fs.len() - k,
{
    if 0 <= k < fs.len() {
        field_key(fs[k]) + (","@ + field_keys(fs, k + 1))
    } else {
        "}"@
    }
}

/// The keys of what the variables from `k` on stand for.
pub open spec fn bind_keys(s: SSubst, k: int) -> Seq<char>
    decreases s.len() - k,
{
    if k >= s.len() {
        ""@
    } else if k == s.len() - 1 {
        repr_key(s[k].1)
    } else {
        repr_key(s[k].1) + ("$"@ + bind_keys(s, k + 1))
    }
}

/// The name of an instance: the name of the function, and what its variables stand for.
pub open spec fn mangled_instance(base: Seq<char>, s: SSubst) -> Seq<char> {
    base + "$"@ + bind_keys(s, 0)
}

/// Whether a name is one that lowering makes: no name of the source holds a `$`.
pub open spec fn is_made(name: Seq<char>) -> bool {
    name.contains('$')
}

proof fn lemma_holds_dollar(a: Seq<char>, b: Seq<char>)
    ensures
        is_made(a + "$"@ + b),
{
    reveal_strlit("$");
    assert((a + "$"@ + b)[a.len() as int] == '$');
}

/// What a layout is implemented for as, if it has a name of its own.
pub open spec fn repr_head(r: SRepr) -> Option<Seq<char>> {
    match r {
        SRepr::Record { name: Some(n), .. } => Some(n),
        SRepr::I64 => Some("i64"@),
        SRepr::F64 => Some("f64"@),
        SRepr::Str => Some("str"@),
        SRepr::Bool => Some("bool"@),
        SRepr::List(_) => Some("std::collections::list::List"@),
        SRepr::Mapping(_, _) => Some("std::collections::map::Map"@),
        _ => None,
    }
}

/// The runtime function that turns a value of a base type into text.
pub open spec fn to_string_symbol(r: SRepr) -> Option<Seq<char>> {
    match r {
        SRepr::I64 => Some("neon_i64_to_string"@),
        SRepr::F64 => Some("neon_f64_to_string"@),
        SRepr::Bool => Some("neon_bool_to_string"@),
        _ => None,
    }
}

/// The layout of a value once `null` is left out: that of its first other variant.
pub open spec fn variant_scalar(r: SRepr) -> SRepr {
    match r {
        SRepr::Union(vs) => first_value(vs, 0),
        _ => r,
    }
}

pub open spec fn first_value(vs: Seq<SRepr>, k: int) -> SRepr
    decreases vs.len() - k,
{
    if k >= vs.len() {
        SRepr::I64
    } else if vs[k] is Null {
        first_value(vs, k + 1)
    } else {
        vs[k]
    }
}

/// The layout of a field of a value, looked for in the variants of a union too; the first
/// that has it counts.
pub open spec fn field_of(r: SRepr, name: Seq<char>) -> Option<SRepr>
    decreases r, 0int,
{
    match r {
        SRepr::Record { fields, .. } => named_field(fields, name, 0),
        SRepr::Union(vs) => field_of_variants(vs, name, vs.len() as int),
        SRepr::Nullable(inner) => field_of(*inner, name),
        _ => None,
    }
}

pub open spec fn named_field(fs: Seq<(Seq<char>, SRepr)>, name: Seq<char>, k: int) -> Option<SRepr>
    decreases fs.len() - k,
{
    if k >= fs.len() {
        None
    } else if fs[k].0 == name {
        Some(fs[k].1)
    } else {
        named_field(fs, name, k + 1)
    }
}

/// The layout of a field in the first of `k` variants that has it.
pub open spec fn field_of_variants(vs: Seq<SRepr>, name: Seq<char>, k: int) -> Option<SRepr>
    decreases vs, k,
{
    if 0 < k <= vs.len() {
        match field_of_variants(vs, name, k - 1) {
            Some(r) => Some(r),
            None => field_of(vs[k - 1], name),
        }
    } else {
        None
    }
}

/// The layout of an element of a tuple.
pub open spec fn elem_of(r: SRepr, i: int) -> SRepr {
    match r {
        SRepr::Tuple(rs) => if i < rs.len() {
            rs[i]
        } else {
            SRepr::Unit
        },
        _ => SRepr::Unit,
    }
}

// ---- operators ----

pub open spec fn unary_prim(op: UnOp) -> PrimOp {
    match op {
        UnOp::Neg => PrimOp::Neg,
        UnOp::Not => PrimOp::Not,
        UnOp::Bnot => PrimOp::Bnot,
    }
}

/// The instruction that an operator is, if it is one: those that skip an operand or move it
/// are not.
pub open spec fn binary_prim(op: BinOp) -> Option<PrimOp> {
    match op {
        BinOp::Add => Some(PrimOp::Add),
        BinOp::Sub => Some(PrimOp::Sub),
        BinOp::Mul => Some(PrimOp::Mul),
        BinOp::Div => Some(PrimOp::Div),
        BinOp::Rem => Some(PrimOp::Rem),
        BinOp::Eq => Some(PrimOp::Eq),
        BinOp::Ne => Some(PrimOp::Ne),
        BinOp::Lt => Some(PrimOp::Lt),
        BinOp::Le => Some(PrimOp::Le),
        BinOp::Gt => Some(PrimOp::Gt),
        BinOp::Ge => Some(PrimOp::Ge),
        BinOp::Band => Some(PrimOp::Band),
        BinOp::Bor => Some(PrimOp::Bor),
        BinOp::Bxor => Some(PrimOp::Bxor),
        BinOp::Bsl => Some(PrimOp::Bsl),
        BinOp::Bsr => Some(PrimOp::Bsr),
        BinOp::And | BinOp::Or | BinOp::Orelse | BinOp::Pipe => None,
    }
}

/// The instruction that a comparison is.
pub open spec fn comparing_prim(op: BinOp) -> Option<PrimOp> {
    match op {
        BinOp::Eq => Some(PrimOp::Eq),
        BinOp::Ne => Some(PrimOp::Ne),
        BinOp::Lt => Some(PrimOp::Lt),
        BinOp::Le => Some(PrimOp::Le),
        BinOp::Gt => Some(PrimOp::Gt),
        BinOp::Ge => Some(PrimOp::Ge),
        _ => None,
    }
}

// ---- computing them ----

pub fn mangle(module: &Vec<String>, name: &str) -> (r: String)
    ensures
        r@ == mangled(names_of(module@), name@),
{
    if module.len() == 0 {
        name.to_owned()
    } else {
        let mut r = join(module, "__");
        r.append("__");
        r.append(name);
        r
    }
}

pub fn mangle_impl(protocol: &str, head: &str, method: &str) -> (r: String)
    ensures
        r@ == mangled_impl(protocol@, head@, method@),
        is_made(r@),
{
    proof {
        lemma_holds_dollar(protocol@ + "$"@ + head@, method@);
    }
    let mut r = protocol.to_owned();
    r.append("$");
    r.append(head);
    r.append("$");
    r.append(method);
    r
}

/// Append a name, as it stands inside a key.
fn push_name(out: &mut String, n: &str)
    ensures
        final(out)@ == old(out)@ + name_key(n@),
{
    push_dec(out, n.unicode_len() as u64);
    out.append(":");
    out.append(n);
    assert(out@ =~= old(out)@ + name_key(n@));
}

/// A layout as a part of a name.
pub fn key_of(r: &Repr) -> (k: String)
    ensures
        k@ == repr_key(r.sem()),
    decreases r, 2int,
{
    let mut k = "".to_owned();
    proof {
        reveal_strlit("");
    }
    push_key(&mut k, r);
    assert(k@ =~= repr_key(r.sem()));
    k
}

/// Append the key of a layout.
fn push_key(out: &mut String, r: &Repr)
    ensures
        final(out)@ == old(out)@ + repr_key(r.sem()),
    decreases r, 1int,
{
    let ghost was = out@;
    match r {
        Repr::I64 => out.append("i64"),
        Repr::F64 => out.append("f64"),
        Repr::Bool => out.append("bool"),
        Repr::Str => out.append("str"),
        Repr::Null => out.append("null"),
        Repr::Unit => out.append("unit"),
        Repr::Tag => out.append("tag"),
        Repr::Runtime { nominal, c_type, args } => {
            assert(r.sem() == SRepr::Runtime {
                nominal: nominal@,
                c_type: c_type@,
                args: reprs_sem(args@),
            });
            out.append("rt[");
            push_name(out, nominal.as_str());
            push_name(out, c_type.as_str());
            push_keys(out, args);
        },
        Repr::Record { name: Some(n), fields } => {
            assert(r.sem() == SRepr::Record {
                name: Some(n@),
                fields: named_reprs_sem(fields@),
            });
            push_name(out, n.as_str());
            out.append("{");
            push_field_keys(out, fields);
        },
        Repr::Record { name: None, fields } => {
            assert(r.sem() == SRepr::Record { name: None, fields: named_reprs_sem(fields@) });
            out.append("rec{");
            push_field_keys(out, fields);
        },
        Repr::List(e) => {
            out.append("list[");
            push_key(out, e);
            out.append("]");
        },
        Repr::Mapping(a, b) => {
            out.append("map[");
            push_key(out, a);
            out.append(",");
            push_key(out, b);
            out.append("]");
        },
        Repr::Tuple(rs) => {
            out.append("tup[");
            push_keys(out, rs);
        },
        Repr::Nullable(e) => {
            out.append("opt[");
            push_key(out, e);
            out.append("]");
        },
        Repr::Closure { params, throws, ret } => {
            out.append("fn[[");
            push_keys(out, params);
            push_key(out, throws);
            out.append(",");
            push_key(out, ret);
            out.append("]");
        },
        Repr::Union(rs) => {
            out.append("union[");
            push_keys(out, rs);
        },
        Repr::Var(n) => {
            out.append("var[");
            push_name(out, n.as_str());
            out.append("]");
        },
        Repr::Recursive(t) => {
            out.append("mu[");
            push_dec(out, t.0 as u64);
            out.append("]");
        },
        Repr::BoxedRec(a) => {
            out.append("box[");
            push_dec(out, *a as u64);
            out.append("]");
        },
        Repr::Any => out.append("any"),
        Repr::Never => out.append("never"),
    }
    assert(out@ =~= was + repr_key(r.sem()));
}

fn push_keys(out: &mut String, rs: &Vec<Repr>)
    ensures
        final(out)@ == old(out)@ + keys(reprs_sem(rs@), 0),
    decreases rs, 0int,
{
    let ghost s = reprs_sem(rs@);
    let ghost was = out@;
    let mut i: usize = 0;
    while i < rs.len()
        invariant
            i <= rs.len(),
            s == reprs_sem(rs@),
            out@ + keys(s, i as int) == was + keys(s, 0),
        decreases rs.len() - i,
    {
        assert(s[i as int] == rs[i as int].sem());
        let ghost before = out@;
        push_key(out, &rs[i]);
        out.append(",");
        assert(out@ + keys(s, i + 1) =~= before + keys(s, i as int));
        i += 1;
    }
    out.append("]");
    assert(keys(s, i as int) == "]"@);
}

fn push_field_keys(out: &mut String, fs: &Vec<(String, Repr)>)
    ensures
        final(out)@ == old(out)@ + field_keys(named_reprs_sem(fs@), 0),
    decreases fs, 0int,
{
    let ghost s = named_reprs_sem(fs@);
    let ghost was = out@;
    let mut i: usize = 0;
    while i < fs.len()
        invariant
            i <= fs.len(),
            s == named_reprs_sem(fs@),
            out@ + field_keys(s, i as int) == was + field_keys(s, 0),
        decreases fs.len() - i,
    {
        assert(s[i as int] == (fs[i as int].0@, fs[i as int].1.sem()));
        let ghost before = out@;
        push_name(out, fs[i].0.as_str());
        out.append("=");
        push_key(out, &fs[i].1);
        out.append(",");
        assert(field_key(s[i as int]) =~= name_key(s[i as int].0) + ("="@ + repr_key(
            s[i as int].1,
        )));
        assert(out@ + field_keys(s, i + 1) =~= before + field_keys(s, i as int));
        i += 1;
    }
    out.append("}");
    assert(field_keys(s, i as int) == "}"@);
}

/// The name of an instance.
pub fn mangle_instance(base: &str, s: &Subst) -> (r: String)
    ensures
        r@ == mangled_instance(base@, s@),
        is_made(r@),
{
    proof {
        lemma_holds_dollar(base@, bind_keys(s@, 0));
    }
    let mut r = cat(base, "$");
    let ghost ss = s@;
    let ghost head = r@;
    proof {
        reveal_strlit("");
    }
    let mut i: usize = 0;
    while i < s.binds.len()
        invariant
            i <= s.binds.len(),
            ss == s@,
            ss.len() == s.binds.len(),
            ""@.len() == 0,
            r@ + bind_keys(ss, i as int) == head + bind_keys(ss, 0),
        decreases s.binds.len() - i,
    {
        assert(ss[i as int] == (s.binds[i as int].0@, s.binds[i as int].1.sem()));
        let ghost before = r@;
        push_key(&mut r, &s.binds[i].1);
        if i + 1 < s.binds.len() {
            r.append("$");
        }
        assert(r@ + bind_keys(ss, i + 1) =~= before + bind_keys(ss, i as int));
        i += 1;
    }
    assert(r@ =~= head + bind_keys(ss, 0));
    r
}

/// What a layout is implemented for as.
pub fn head_of(r: &Repr) -> (h: Option<String>)
    ensures
        h.sem() == repr_head(r.sem()),
{
    match r {
        Repr::Record { name: Some(n), .. } => Some(n.clone()),
        Repr::I64 => Some("i64".to_owned()),
        Repr::F64 => Some("f64".to_owned()),
        Repr::Str => Some("str".to_owned()),
        Repr::Bool => Some("bool".to_owned()),
        Repr::List(_) => Some("std::collections::list::List".to_owned()),
        Repr::Mapping(_, _) => Some("std::collections::map::Map".to_owned()),
        _ => None,
    }
}

pub fn symbol_to_string(r: &Repr) -> (s: Option<String>)
    ensures
        s.sem() == to_string_symbol(r.sem()),
{
    match r {
        Repr::I64 => Some("neon_i64_to_string".to_owned()),
        Repr::F64 => Some("neon_f64_to_string".to_owned()),
        Repr::Bool => Some("neon_bool_to_string".to_owned()),
        _ => None,
    }
}

pub fn scalar_of(r: &Repr) -> (s: Repr)
    ensures
        s.sem() == variant_scalar(r.sem()),
{
    match r {
        Repr::Union(vs) => {
            let ghost x = reprs_sem(vs@);
            let mut k: usize = 0;
            while k < vs.len()
                invariant
                    k <= vs.len(),
                    x == reprs_sem(vs@),
                    r.sem() == SRepr::Union(x),
                    first_value(x, 0) == first_value(x, k as int),
                decreases vs.len() - k,
            {
                assert(x[k as int] == vs[k as int].sem());
                match &vs[k] {
                    Repr::Null => {},
                    _ => {
                        assert(!(x[k as int] is Null));
                        return vs[k].clone();
                    },
                }
                k += 1;
            }
            Repr::I64
        },
        _ => r.clone(),
    }
}

fn find_named(fs: &Vec<(String, Repr)>, name: &str) -> (r: Option<Repr>)
    ensures
        r.sem() == named_field(named_reprs_sem(fs@), name@, 0),
{
    let ghost s = named_reprs_sem(fs@);
    let mut k: usize = 0;
    while k < fs.len()
        invariant
            k <= fs.len(),
            s == named_reprs_sem(fs@),
            named_field(s, name@, 0) == named_field(s, name@, k as int),
        decreases fs.len() - k,
    {
        assert(s[k as int] == (fs[k as int].0@, fs[k as int].1.sem()));
        if crate::text::str_eq(fs[k].0.as_str(), name) {
            return Some(fs[k].1.clone());
        }
        k += 1;
    }
    None
}

/// The layout of a field of a value.
pub fn find_field(r: &Repr, name: &str) -> (x: Option<Repr>)
    ensures
        x.sem() == field_of(r.sem(), name@),
    decreases r, 1int,
{
    match r {
        Repr::Record { fields, .. } => find_named(fields, name),
        Repr::Union(vs) => find_in_variants(vs, name),
        Repr::Nullable(inner) => find_field(inner, name),
        _ => None,
    }
}

proof fn lemma_found_stays(vs: Seq<SRepr>, name: Seq<char>, k: int, n: int)
    requires
        0 <= k <= n <= vs.len(),
        field_of_variants(vs, name, k) is Some,
    ensures
        field_of_variants(vs, name, n) == field_of_variants(vs, name, k),
    decreases n,
{
    if k < n {
        lemma_found_stays(vs, name, k, n - 1);
    }
}

fn find_in_variants(vs: &Vec<Repr>, name: &str) -> (x: Option<Repr>)
    ensures
        x.sem() == field_of_variants(reprs_sem(vs@), name@, vs@.len() as int),
    decreases vs, 0int,
{
    let ghost s = reprs_sem(vs@);
    let mut k: usize = 0;
    while k < vs.len()
        invariant
            k <= vs.len(),
            s == reprs_sem(vs@),
            field_of_variants(s, name@, k as int) is None,
        decreases vs.len() - k,
    {
        assert(s[k as int] == vs[k as int].sem());
        let x = find_field(&vs[k], name);
        if x.is_some() {
            proof {
                lemma_found_stays(s, name@, k + 1, s.len() as int);
            }
            return x;
        }
        k += 1;
    }
    None
}

pub fn elem_repr(r: &Repr, i: usize) -> (x: Repr)
    ensures
        x.sem() == elem_of(r.sem(), i as int),
{
    match r {
        Repr::Tuple(rs) => {
            assert(r.sem() == SRepr::Tuple(reprs_sem(rs@)));
            if i < rs.len() {
                assert(reprs_sem(rs@)[i as int] == rs[i as int].sem());
                rs[i].clone()
            } else {
                Repr::Unit
            }
        },
        _ => Repr::Unit,
    }
}

pub fn un_prim(op: UnOp) -> (p: PrimOp)
    ensures
        p == unary_prim(op),
{
    match op {
        UnOp::Neg => PrimOp::Neg,
        UnOp::Not => PrimOp::Not,
        UnOp::Bnot => PrimOp::Bnot,
    }
}

pub fn bin_prim(op: BinOp) -> (p: Option<PrimOp>)
    ensures
        p == binary_prim(op),
{
    match op {
        BinOp::Add => Some(PrimOp::Add),
        BinOp::Sub => Some(PrimOp::Sub),
        BinOp::Mul => Some(PrimOp::Mul),
        BinOp::Div => Some(PrimOp::Div),
        BinOp::Rem => Some(PrimOp::Rem),
        BinOp::Eq => Some(PrimOp::Eq),
        BinOp::Ne => Some(PrimOp::Ne),
        BinOp::Lt => Some(PrimOp::Lt),
        BinOp::Le => Some(PrimOp::Le),
        BinOp::Gt => Some(PrimOp::Gt),
        BinOp::Ge => Some(PrimOp::Ge),
        BinOp::Band => Some(PrimOp::Band),
        BinOp::Bor => Some(PrimOp::Bor),
        BinOp::Bxor => Some(PrimOp::Bxor),
        BinOp::Bsl => Some(PrimOp::Bsl),
        BinOp::Bsr => Some(PrimOp::Bsr),
        BinOp::And | BinOp::Or | BinOp::Orelse | BinOp::Pipe => None,
    }
}

pub fn comparison_prim(op: BinOp) -> (p: Option<PrimOp>)
    ensures
        p == comparing_prim(op),
{
    match op {
        BinOp::Eq => Some(PrimOp::Eq),
        BinOp::Ne => Some(PrimOp::Ne),
        BinOp::Lt => Some(PrimOp::Lt),
        BinOp::Le => Some(PrimOp::Le),
        BinOp::Gt => Some(PrimOp::Gt),
        BinOp::Ge => Some(PrimOp::Ge),
        _ => None,
    }
}

} // verus!
