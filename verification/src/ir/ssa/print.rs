//! The IR's textual form, for reading a lowering or a pass. There is no parser for it.

use super::{
    arms_sem, named_values_sem, Block, Func, Inst, Op, PrimOp, Program, SBlock, SFunc, SInst, SOp,
    SSwitchKey, STarget, STerm, SValueData, SwitchKey, Target, Term, Value,
};
use crate::ir::repr::{named_reprs_sem, reprs_sem, Repr, SRepr};
use crate::syntax::{sems, Node};
use crate::text::{dec, dec_int, push_dec, push_dec_int};
use vstd::prelude::*;
use vstd::string::*;

verus! {

// ---- what each thing prints as ----

/// What std's `Debug` for `str` prints: the text in quotes, with escapes.
pub uninterp spec fn quoted(text: Seq<char>) -> Seq<char>;

/// `{:?}` of std's `str`. The contract claims that the result depends on the text alone.
#[verifier::external_body]
fn quote(text: &str) -> (r: String)
    ensures
        r@ == quoted(text@),
{
    format!("{:?}", text)
}

pub open spec fn hex_digit(d: int) -> char {
    if d < 10 {
        (48 + d) as char
    } else {
        (87 + d) as char
    }
}

/// The last `n` hexadecimal digits of a number.
pub open spec fn hex(v: int, n: nat) -> Seq<char>
    decreases n,
{
    if n == 0 {
        seq![]
    } else {
        hex(v / 16, (n - 1) as nat).push(hex_digit(v % 16))
    }
}

pub open spec fn bool_text(b: bool) -> Seq<char> {
    if b {
        "true"@
    } else {
        "false"@
    }
}

pub open spec fn val_text(v: Value) -> Seq<char> {
    "%"@ + dec(v.0 as nat)
}

/// Values with commas between them.
pub open spec fn vals_text(vs: Seq<Value>) -> Seq<char>
    decreases vs.len(),
{
    if vs.len() == 0 {
        seq![]
    } else if vs.len() == 1 {
        val_text(vs[0])
    } else {
        vals_text(vs.drop_last()) + ", "@ + val_text(vs.last())
    }
}

/// The first `n` fields of a record being built, with commas between them.
pub open spec fn field_values_text(fs: Seq<(Seq<char>, Value)>) -> Seq<char>
    decreases fs.len(),
{
    if fs.len() == 0 {
        seq![]
    } else {
        (if fs.len() == 1 {
            seq![]
        } else {
            field_values_text(fs.drop_last()) + ", "@
        }) + (fs.last().0 + ": "@ + val_text(fs.last().1))
    }
}

pub open spec fn opt_text(name: Option<Seq<char>>) -> Seq<char> {
    match name {
        Some(s) => s,
        None => seq![],
    }
}

pub open spec fn prim_text(p: PrimOp) -> Seq<char> {
    match p {
        PrimOp::Add => "add"@,
        PrimOp::Sub => "sub"@,
        PrimOp::Mul => "mul"@,
        PrimOp::Div => "div"@,
        PrimOp::Rem => "rem"@,
        PrimOp::Neg => "neg"@,
        PrimOp::Eq => "eq"@,
        PrimOp::Ne => "ne"@,
        PrimOp::Lt => "lt"@,
        PrimOp::Le => "le"@,
        PrimOp::Gt => "gt"@,
        PrimOp::Ge => "ge"@,
        PrimOp::And => "and"@,
        PrimOp::Or => "or"@,
        PrimOp::Not => "not"@,
        PrimOp::Band => "band"@,
        PrimOp::Bor => "bor"@,
        PrimOp::Bxor => "bxor"@,
        PrimOp::Bsl => "bsl"@,
        PrimOp::Bsr => "bsr"@,
        PrimOp::Bnot => "bnot"@,
    }
}

pub open spec fn op_text(op: SOp) -> Seq<char> {
    match op {
        SOp::ConstI64(n) => "const.i64 "@ + dec_int(n as int),
        SOp::ConstF64(bits) => "const.f64 0x"@ + hex(bits as int, 16),
        SOp::ConstBool(b) => "const.bool "@ + bool_text(b),
        SOp::ConstStr(s) => "const.str "@ + quoted(s),
        SOp::ConstNull => "const.null"@,
        SOp::ConstUnit => "const.unit"@,
        SOp::ConstAtom(a) => "const.atom :"@ + a,
        SOp::Prim(p, args) => "prim."@ + prim_text(p) + " "@ + vals_text(args),
        SOp::Call { func, args } => "call @"@ + func + "("@ + vals_text(args) + ")"@,
        SOp::Native { symbol, args } => "native "@ + quoted(symbol) + "("@ + vals_text(args) + ")"@,
        SOp::CallClosure { callee, args } => "call.closure "@ + val_text(callee) + "("@ + vals_text(
            args,
        ) + ")"@,
        SOp::MakeClosure { func, captures } => "closure @"@ + func + "["@ + vals_text(captures)
            + "]"@,
        SOp::MakeRecord { name, fields } => "record "@ + opt_text(name) + "{"@ + field_values_text(
            fields,
        ) + "}"@,
        SOp::Field { base, field } => "field "@ + val_text(base) + "."@ + field,
        SOp::MakeTuple(vs) => "tuple ("@ + vals_text(vs) + ")"@,
        SOp::Elem { base, index } => "elem "@ + val_text(base) + "."@ + dec(index as nat),
        SOp::Cast(v) => "cast "@ + val_text(v),
        SOp::IsErr(v) => "is_err "@ + val_text(v),
        SOp::UnwrapOk(v) => "unwrap_ok "@ + val_text(v),
        SOp::UnwrapErr(v) => "unwrap_err "@ + val_text(v),
        SOp::IsNull(v) => "is_null "@ + val_text(v),
        SOp::IsVariant { value, variant, .. } => "is_variant "@ + val_text(value) + " "@ + variant,
        SOp::MakeList(vs) => "list ["@ + vals_text(vs) + "]"@,
        SOp::Index { base, index, covered } => "index "@ + val_text(base) + "["@ + val_text(index)
            + "]"@ + match covered {
            Some(c) => " covered "@ + val_text(c),
            None => seq![],
        },
        SOp::Retain(v) => "retain "@ + val_text(v),
        SOp::Release(v) => "release "@ + val_text(v),
    }
}

pub open spec fn target_text(t: STarget) -> Seq<char> {
    "block"@ + dec(t.to.0 as nat) + if t.args.len() == 0 {
        seq![]
    } else {
        "("@ + vals_text(t.args) + ")"@
    }
}

pub open spec fn key_text(k: SSwitchKey) -> Seq<char> {
    match k {
        SSwitchKey::Int(n) => dec_int(n as int),
        SSwitchKey::Bool(b) => bool_text(b),
        SSwitchKey::Atom(a) => ":"@ + a,
        SSwitchKey::Nominal(n) => n,
    }
}

pub open spec fn arms_text(arms: Seq<(SSwitchKey, STarget)>) -> Seq<char>
    decreases arms.len(),
{
    if arms.len() == 0 {
        seq![]
    } else {
        (if arms.len() == 1 {
            seq![]
        } else {
            arms_text(arms.drop_last()) + ", "@
        }) + (key_text(arms.last().0) + " => "@ + target_text(arms.last().1))
    }
}

pub open spec fn term_text(t: STerm) -> Seq<char> {
    match t {
        STerm::Ret(Some(v)) => "ret "@ + val_text(v),
        STerm::Ret(None) => "ret"@,
        STerm::Throw(v) => "throw "@ + val_text(v),
        STerm::Jump(t) => "jump "@ + target_text(t),
        STerm::Branch { cond, then, els } => "branch "@ + val_text(cond) + ", "@ + target_text(then)
            + ", "@ + target_text(els),
        STerm::Switch { on, arms, default } => "switch "@ + val_text(on) + " ["@ + arms_text(arms)
            + "] default "@ + target_text(default),
        STerm::Unreachable => "unreachable"@,
    }
}

/// A layout in its own syntax.
pub open spec fn repr_text(r: SRepr) -> Seq<char>
    decreases r, 0int,
{
    match r {
        SRepr::I64 => "i64"@,
        SRepr::F64 => "f64"@,
        SRepr::Bool => "bool"@,
        SRepr::Str => "str"@,
        SRepr::Null => "null"@,
        SRepr::Unit => "()"@,
        SRepr::Tag => "tag"@,
        SRepr::BoxedRec(a) => "box#"@ + dec(a as nat),
        SRepr::Record { name, fields } => opt_text(name) + "{"@ + fields_text(
            fields,
            fields.len() as int,
        ) + "}"@,
        SRepr::Tuple(rs) => "("@ + reprs_text(rs, rs.len() as int, ", "@) + ")"@,
        SRepr::List(e) => "list["@ + repr_text(*e) + "]"@,
        SRepr::Mapping(k, v) => "map["@ + repr_text(*k) + ", "@ + repr_text(*v) + "]"@,
        SRepr::Runtime { nominal, args, .. } => nominal + if args.len() == 0 {
            seq![]
        } else {
            "["@ + reprs_text(args, args.len() as int, ", "@) + "]"@
        },
        SRepr::Closure { params, throws, ret } => "fn("@ + reprs_text(
            params,
            params.len() as int,
            ", "@,
        ) + ")"@ + if *throws is Never {
            seq![]
        } else {
            " throws "@ + repr_text(*throws)
        } + " -> "@ + repr_text(*ret),
        SRepr::Union(rs) => reprs_text(rs, rs.len() as int, " | "@),
        SRepr::Nullable(r) => repr_text(*r) + "?"@,
        SRepr::Var(n) => "'"@ + n,
        SRepr::Recursive(t) => "rec#"@ + dec(t.0 as nat),
        SRepr::Any => "any"@,
        SRepr::Never => "never"@,
    }
}

/// The first `n` layouts with `sep` between them.
pub open spec fn reprs_text(rs: Seq<SRepr>, n: int, sep: Seq<char>) -> Seq<char>
    decreases rs, n,
{
    if 0 < n <= rs.len() {
        (if n == 1 {
            seq![]
        } else {
            reprs_text(rs, n - 1, sep) + sep
        }) + repr_text(rs[n - 1])
    } else {
        seq![]
    }
}

/// The first `n` fields with commas between them.
pub open spec fn fields_text(fs: Seq<(Seq<char>, SRepr)>, n: int) -> Seq<char>
    decreases fs, n,
{
    if 0 < n <= fs.len() {
        (if n == 1 {
            seq![]
        } else {
            fields_text(fs, n - 1) + ", "@
        }) + (fs[n - 1].0 + ": "@ + repr_text(fs[n - 1].1))
    } else {
        seq![]
    }
}

/// Parameters with their layouts, with commas between them.
pub open spec fn params_text(values: Seq<SValueData>, ps: Seq<Value>) -> Seq<char>
    decreases ps.len(),
{
    if ps.len() == 0 {
        seq![]
    } else {
        (if ps.len() == 1 {
            seq![]
        } else {
            params_text(values, ps.drop_last()) + ", "@
        }) + (val_text(ps.last()) + " "@ + repr_text(values[ps.last().0 as int].repr))
    }
}

pub open spec fn inst_text(i: SInst) -> Seq<char> {
    "    "@ + (match i.result {
        Some(v) => val_text(v) + " = "@,
        None => seq![],
    }) + op_text(i.op) + "\n"@
}

pub open spec fn insts_text(is: Seq<SInst>) -> Seq<char>
    decreases is.len(),
{
    if is.len() == 0 {
        seq![]
    } else {
        insts_text(is.drop_last()) + inst_text(is.last())
    }
}

/// A block. The entry's parameters are the function's, so only another block shows its own.
pub open spec fn block_text(f: SFunc, b: SBlock) -> Seq<char> {
    "  block"@ + dec(b.id.0 as nat) + (if b.id == f.entry || b.params.len() == 0 {
        seq![]
    } else {
        "("@ + params_text(f.values, b.params) + ")"@
    }) + ":\n"@ + insts_text(b.insts) + ("    "@ + term_text(b.term) + "\n"@)
}

/// The first `n` blocks of a function.
pub open spec fn blocks_text(f: SFunc, n: int) -> Seq<char>
    decreases n,
{
    if n <= 0 {
        seq![]
    } else {
        blocks_text(f, n - 1) + block_text(f, f.blocks[n - 1])
    }
}

pub open spec fn func_text(f: SFunc) -> Seq<char> {
    "fn @"@ + f.name + "("@ + params_text(f.values, f.params) + ") -> "@ + repr_text(f.ret) + " {\n"@
        + blocks_text(f, f.blocks.len() as int) + "}\n"@
}

pub open spec fn funcs_text(fs: Seq<SFunc>) -> Seq<char>
    decreases fs.len(),
{
    if fs.len() == 0 {
        seq![]
    } else {
        (if fs.len() == 1 {
            seq![]
        } else {
            funcs_text(fs.drop_last()) + "\n"@
        }) + func_text(fs.last())
    }
}

/// Whether every parameter that a function's text shows is in its value table.
pub open spec fn printable(f: SFunc) -> bool {
    &&& super::values_below(f.params, f.values.len())
    &&& forall|i: int|
        0 <= i < f.blocks.len() ==> super::values_below(
            (#[trigger] f.blocks[i]).params,
            f.values.len(),
        )
}

// ---- printing ----

fn push_hex(out: &mut String, v: u64, n: usize)
    ensures
        final(out)@ == old(out)@ + hex(v as int, n as nat),
    decreases n,
{
    if n > 0 {
        push_hex(out, v / 16, n - 1);
        let d: u8 = (v % 16) as u8;
        if d < 10 {
            out.push((48 + d) as char);
        } else {
            out.push((87 + d) as char);
        }
    }
    assert(out@ =~= old(out)@ + hex(v as int, n as nat));
}

fn push_bool(out: &mut String, b: bool)
    ensures
        final(out)@ == old(out)@ + bool_text(b),
{
    if b {
        out.append("true");
    } else {
        out.append("false");
    }
}

fn push_val(out: &mut String, v: Value)
    ensures
        final(out)@ == old(out)@ + val_text(v),
{
    out.append("%");
    push_dec(out, v.0 as u64);
    assert(out@ =~= old(out)@ + val_text(v));
}

fn push_vals(out: &mut String, vs: &Vec<Value>)
    ensures
        final(out)@ == old(out)@ + vals_text(vs@),
{
    let mut i: usize = 0;
    assert(out@ =~= old(out)@ + vals_text(vs@.take(0)));
    while i < vs.len()
        invariant
            i <= vs.len(),
            out@ == old(out)@ + vals_text(vs@.take(i as int)),
        decreases vs.len() - i,
    {
        if i > 0 {
            out.append(", ");
        }
        push_val(out, vs[i]);
        let ghost next = vs@.take(i + 1);
        assert(next.drop_last() =~= vs@.take(i as int));
        assert(next.last() == vs@[i as int]);
        assert(out@ =~= old(out)@ + vals_text(next));
        i += 1;
    }
    assert(vs@.take(i as int) =~= vs@);
}

fn push_field_values(out: &mut String, fs: &Vec<(String, Value)>)
    ensures
        final(out)@ == old(out)@ + field_values_text(named_values_sem(fs@)),
{
    let ghost s = named_values_sem(fs@);
    let mut i: usize = 0;
    assert(out@ =~= old(out)@ + field_values_text(s.take(0)));
    while i < fs.len()
        invariant
            i <= fs.len(),
            s == named_values_sem(fs@),
            s.len() == fs.len(),
            out@ == old(out)@ + field_values_text(s.take(i as int)),
        decreases fs.len() - i,
    {
        if i > 0 {
            out.append(", ");
        }
        out.append(fs[i].0.as_str());
        out.append(": ");
        push_val(out, fs[i].1);
        let ghost next = s.take(i + 1);
        assert(next.drop_last() =~= s.take(i as int));
        assert(next.last() == (fs@[i as int].0@, fs@[i as int].1));
        assert(out@ =~= old(out)@ + field_values_text(next));
        i += 1;
    }
    assert(s.take(i as int) =~= s);
}

fn prim(p: PrimOp) -> (r: &'static str)
    ensures
        r@ == prim_text(p),
{
    match p {
        PrimOp::Add => "add",
        PrimOp::Sub => "sub",
        PrimOp::Mul => "mul",
        PrimOp::Div => "div",
        PrimOp::Rem => "rem",
        PrimOp::Neg => "neg",
        PrimOp::Eq => "eq",
        PrimOp::Ne => "ne",
        PrimOp::Lt => "lt",
        PrimOp::Le => "le",
        PrimOp::Gt => "gt",
        PrimOp::Ge => "ge",
        PrimOp::And => "and",
        PrimOp::Or => "or",
        PrimOp::Not => "not",
        PrimOp::Band => "band",
        PrimOp::Bor => "bor",
        PrimOp::Bxor => "bxor",
        PrimOp::Bsl => "bsl",
        PrimOp::Bsr => "bsr",
        PrimOp::Bnot => "bnot",
    }
}

fn push_unary(out: &mut String, word: &str, v: Value)
    ensures
        final(out)@ == old(out)@ + (word@ + val_text(v)),
{
    out.append(word);
    push_val(out, v);
    assert(out@ =~= old(out)@ + (word@ + val_text(v)));
}

fn push_op(out: &mut String, op: &Op)
    ensures
        final(out)@ == old(out)@ + op_text(op.sem()),
{
    match op {
        Op::ConstI64(n) => {
            out.append("const.i64 ");
            push_dec_int(out, *n);
        },
        Op::ConstF64(bits) => {
            out.append("const.f64 0x");
            push_hex(out, *bits, 16);
        },
        Op::ConstBool(b) => {
            out.append("const.bool ");
            push_bool(out, *b);
        },
        Op::ConstStr(s) => {
            out.append("const.str ");
            out.append(quote(s.as_str()).as_str());
        },
        Op::ConstNull => out.append("const.null"),
        Op::ConstUnit => out.append("const.unit"),
        Op::ConstAtom(a) => {
            out.append("const.atom :");
            out.append(a.as_str());
        },
        Op::Prim(p, args) => {
            out.append("prim.");
            out.append(prim(*p));
            out.append(" ");
            push_vals(out, args);
        },
        Op::Call { func, args } => {
            out.append("call @");
            out.append(func.as_str());
            out.append("(");
            push_vals(out, args);
            out.append(")");
        },
        Op::Native { symbol, args } => {
            out.append("native ");
            out.append(quote(symbol.as_str()).as_str());
            out.append("(");
            push_vals(out, args);
            out.append(")");
        },
        Op::CallClosure { callee, args } => {
            out.append("call.closure ");
            push_val(out, *callee);
            out.append("(");
            push_vals(out, args);
            out.append(")");
        },
        Op::MakeClosure { func, captures } => {
            out.append("closure @");
            out.append(func.as_str());
            out.append("[");
            push_vals(out, captures);
            out.append("]");
        },
        Op::MakeRecord { name, fields } => {
            out.append("record ");
            if let Some(n) = name {
                out.append(n.as_str());
            }
            out.append("{");
            push_field_values(out, fields);
            out.append("}");
        },
        Op::Field { base, field } => {
            out.append("field ");
            push_val(out, *base);
            out.append(".");
            out.append(field.as_str());
        },
        Op::MakeTuple(vs) => {
            out.append("tuple (");
            push_vals(out, vs);
            out.append(")");
        },
        Op::Elem { base, index } => {
            out.append("elem ");
            push_val(out, *base);
            out.append(".");
            push_dec(out, *index as u64);
        },
        Op::Cast(v) => push_unary(out, "cast ", *v),
        Op::IsErr(v) => push_unary(out, "is_err ", *v),
        Op::UnwrapOk(v) => push_unary(out, "unwrap_ok ", *v),
        Op::UnwrapErr(v) => push_unary(out, "unwrap_err ", *v),
        Op::IsNull(v) => push_unary(out, "is_null ", *v),
        Op::IsVariant { value, variant, .. } => {
            out.append("is_variant ");
            push_val(out, *value);
            out.append(" ");
            out.append(variant.as_str());
        },
        Op::MakeList(vs) => {
            out.append("list [");
            push_vals(out, vs);
            out.append("]");
        },
        Op::Index { base, index, covered } => {
            out.append("index ");
            push_val(out, *base);
            out.append("[");
            push_val(out, *index);
            out.append("]");
            if let Some(c) = covered {
                out.append(" covered ");
                push_val(out, *c);
            }
        },
        Op::Retain(v) => push_unary(out, "retain ", *v),
        Op::Release(v) => push_unary(out, "release ", *v),
    }
    assert(out@ =~= old(out)@ + op_text(op.sem()));
}

fn push_target(out: &mut String, t: &Target)
    ensures
        final(out)@ == old(out)@ + target_text(t.sem()),
{
    out.append("block");
    push_dec(out, t.to.0 as u64);
    if t.args.len() > 0 {
        out.append("(");
        push_vals(out, &t.args);
        out.append(")");
    }
    assert(out@ =~= old(out)@ + target_text(t.sem()));
}

fn push_key(out: &mut String, k: &SwitchKey)
    ensures
        final(out)@ == old(out)@ + key_text(k.sem()),
{
    match k {
        SwitchKey::Int(n) => push_dec_int(out, *n),
        SwitchKey::Bool(b) => push_bool(out, *b),
        SwitchKey::Atom(a) => {
            out.append(":");
            out.append(a.as_str());
        },
        SwitchKey::Nominal(n) => out.append(n.as_str()),
    }
    assert(out@ =~= old(out)@ + key_text(k.sem()));
}

fn push_arms(out: &mut String, arms: &Vec<(SwitchKey, Target)>)
    ensures
        final(out)@ == old(out)@ + arms_text(arms_sem(arms@)),
{
    let ghost s = arms_sem(arms@);
    let mut i: usize = 0;
    assert(out@ =~= old(out)@ + arms_text(s.take(0)));
    while i < arms.len()
        invariant
            i <= arms.len(),
            s == arms_sem(arms@),
            s.len() == arms.len(),
            out@ == old(out)@ + arms_text(s.take(i as int)),
        decreases arms.len() - i,
    {
        if i > 0 {
            out.append(", ");
        }
        push_key(out, &arms[i].0);
        out.append(" => ");
        push_target(out, &arms[i].1);
        let ghost next = s.take(i + 1);
        assert(next.drop_last() =~= s.take(i as int));
        assert(next.last() == (arms@[i as int].0.sem(), arms@[i as int].1.sem()));
        assert(out@ =~= old(out)@ + arms_text(next));
        i += 1;
    }
    assert(s.take(i as int) =~= s);
}

fn push_term(out: &mut String, t: &Term)
    ensures
        final(out)@ == old(out)@ + term_text(t.sem()),
{
    match t {
        Term::Ret(Some(v)) => push_unary(out, "ret ", *v),
        Term::Ret(None) => out.append("ret"),
        Term::Throw(v) => push_unary(out, "throw ", *v),
        Term::Jump(tgt) => {
            out.append("jump ");
            push_target(out, tgt);
        },
        Term::Branch { cond, then, els } => {
            out.append("branch ");
            push_val(out, *cond);
            out.append(", ");
            push_target(out, then);
            out.append(", ");
            push_target(out, els);
        },
        Term::Switch { on, arms, default } => {
            out.append("switch ");
            push_val(out, *on);
            out.append(" [");
            push_arms(out, arms);
            out.append("] default ");
            push_target(out, default);
        },
        Term::Unreachable => out.append("unreachable"),
    }
    assert(out@ =~= old(out)@ + term_text(t.sem()));
}

fn push_reprs(out: &mut String, rs: &Vec<Repr>, sep: &str)
    ensures
        final(out)@ == old(out)@ + reprs_text(reprs_sem(rs@), rs.len() as int, sep@),
        reprs_sem(rs@).len() == rs.len(),
    decreases rs,
{
    let ghost s = reprs_sem(rs@);
    let mut i: usize = 0;
    assert(out@ =~= old(out)@ + reprs_text(s, 0, sep@));
    while i < rs.len()
        invariant
            i <= rs.len(),
            s == reprs_sem(rs@),
            s.len() == rs.len(),
            out@ == old(out)@ + reprs_text(s, i as int, sep@),
        decreases rs.len() - i,
    {
        assert(s[i as int] == rs@[i as int].sem());
        if i > 0 {
            out.append(sep);
        }
        push_repr(out, &rs[i]);
        assert(out@ =~= old(out)@ + reprs_text(s, i + 1, sep@));
        i += 1;
    }
}

fn push_fields(out: &mut String, fs: &Vec<(String, Repr)>)
    ensures
        final(out)@ == old(out)@ + fields_text(named_reprs_sem(fs@), fs.len() as int),
        named_reprs_sem(fs@).len() == fs.len(),
    decreases fs,
{
    let ghost s = named_reprs_sem(fs@);
    let mut i: usize = 0;
    assert(out@ =~= old(out)@ + fields_text(s, 0));
    while i < fs.len()
        invariant
            i <= fs.len(),
            s == named_reprs_sem(fs@),
            s.len() == fs.len(),
            out@ == old(out)@ + fields_text(s, i as int),
        decreases fs.len() - i,
    {
        assert(s[i as int] == (fs@[i as int].0@, fs@[i as int].1.sem()));
        if i > 0 {
            out.append(", ");
        }
        out.append(fs[i].0.as_str());
        out.append(": ");
        push_repr(out, &fs[i].1);
        assert(out@ =~= old(out)@ + fields_text(s, i + 1));
        i += 1;
    }
}

fn push_repr(out: &mut String, r: &Repr)
    ensures
        final(out)@ == old(out)@ + repr_text(r.sem()),
    decreases r,
{
    match r {
        Repr::I64 => out.append("i64"),
        Repr::F64 => out.append("f64"),
        Repr::Bool => out.append("bool"),
        Repr::Str => out.append("str"),
        Repr::Null => out.append("null"),
        Repr::Unit => out.append("()"),
        Repr::Tag => out.append("tag"),
        Repr::BoxedRec(a) => {
            out.append("box#");
            push_dec(out, *a as u64);
        },
        Repr::Record { name, fields } => {
            if let Some(n) = name {
                out.append(n.as_str());
            }
            out.append("{");
            push_fields(out, fields);
            out.append("}");
        },
        Repr::Tuple(rs) => {
            out.append("(");
            push_reprs(out, rs, ", ");
            out.append(")");
        },
        Repr::List(e) => {
            out.append("list[");
            push_repr(out, &**e);
            out.append("]");
        },
        Repr::Mapping(k, v) => {
            out.append("map[");
            push_repr(out, &**k);
            out.append(", ");
            push_repr(out, &**v);
            out.append("]");
        },
        Repr::Runtime { nominal, args, .. } => {
            out.append(nominal.as_str());
            if args.len() > 0 {
                out.append("[");
                push_reprs(out, args, ", ");
                out.append("]");
            }
            assert(reprs_sem(args@).len() == args.len());
        },
        Repr::Closure { params, throws, ret } => {
            out.append("fn(");
            push_reprs(out, params, ", ");
            out.append(")");
            let never = match **throws {
                Repr::Never => true,
                _ => false,
            };
            assert(never == ((**throws).sem() is Never));
            if !never {
                out.append(" throws ");
                push_repr(out, &**throws);
            }
            out.append(" -> ");
            push_repr(out, &**ret);
        },
        Repr::Union(rs) => push_reprs(out, rs, " | "),
        Repr::Nullable(r) => {
            push_repr(out, &**r);
            out.append("?");
        },
        Repr::Var(n) => {
            out.append("'");
            out.append(n.as_str());
        },
        Repr::Recursive(t) => {
            out.append("rec#");
            push_dec(out, t.0 as u64);
        },
        Repr::Any => out.append("any"),
        Repr::Never => out.append("never"),
    }
    assert(out@ =~= old(out)@ + repr_text(r.sem()));
}

/// A layout in its own syntax.
pub fn repr(r: &Repr) -> (s: String)
    ensures
        s@ == repr_text(r.sem()),
{
    let mut out = String::new();
    push_repr(&mut out, r);
    assert(out@ =~= repr_text(r.sem()));
    out
}

fn push_params(out: &mut String, f: &Func, ps: &Vec<Value>)
    requires
        super::values_below(ps@, f.sem().values.len()),
    ensures
        final(out)@ == old(out)@ + params_text(f.sem().values, ps@),
{
    let ghost values = f.sem().values;
    let mut i: usize = 0;
    assert(out@ =~= old(out)@ + params_text(values, ps@.take(0)));
    while i < ps.len()
        invariant
            i <= ps.len(),
            values == f.sem().values,
            super::values_below(ps@, values.len()),
            out@ == old(out)@ + params_text(values, ps@.take(i as int)),
        decreases ps.len() - i,
    {
        if i > 0 {
            out.append(", ");
        }
        assert(ps@[i as int].0 < values.len());
        push_val(out, ps[i]);
        out.append(" ");
        push_repr(out, f.value_repr(ps[i]));
        let ghost next = ps@.take(i + 1);
        assert(next.drop_last() =~= ps@.take(i as int));
        assert(next.last() == ps@[i as int]);
        assert(out@ =~= old(out)@ + params_text(values, next));
        i += 1;
    }
    assert(ps@.take(i as int) =~= ps@);
}

fn push_inst(out: &mut String, inst: &Inst)
    ensures
        final(out)@ == old(out)@ + inst_text(inst.sem()),
{
    let ghost before = out@;
    out.append("    ");
    if let Some(v) = inst.result {
        push_val(out, v);
        out.append(" = ");
    }
    push_op(out, &inst.op);
    out.append("\n");
    assert(out@ =~= before + inst_text(inst.sem()));
}

fn push_insts(out: &mut String, insts: &Vec<Inst>)
    ensures
        final(out)@ == old(out)@ + insts_text(sems(insts@)),
{
    let ghost head = out@;
    let ghost is = sems(insts@);
    let mut i: usize = 0;
    assert(out@ =~= head + insts_text(is.take(0)));
    while i < insts.len()
        invariant
            i <= insts.len(),
            is == sems(insts@),
            out@ == head + insts_text(is.take(i as int)),
        decreases insts.len() - i,
    {
        let ghost before = out@;
        push_inst(out, &insts[i]);
        let ghost next = is.take(i + 1);
        assert(next.drop_last() =~= is.take(i as int));
        assert(next.last() == insts@[i as int].sem());
        assert(out@ =~= head + insts_text(next));
        i += 1;
    }
    assert(is.take(i as int) =~= is);
}

fn push_block(out: &mut String, f: &Func, b: &Block)
    requires
        super::values_below(b.params@, f.sem().values.len()),
    ensures
        final(out)@ == old(out)@ + block_text(f.sem(), b.sem()),
{
    let ghost o0 = out@;
    out.append("  block");
    push_dec(out, b.id.0 as u64);
    if !(b.id == f.entry || b.params.len() == 0) {
        out.append("(");
        push_params(out, f, &b.params);
        out.append(")");
    }
    out.append(":\n");
    push_insts(out, &b.insts);
    out.append("    ");
    push_term(out, &b.term);
    out.append("\n");
    assert(out@ =~= o0 + block_text(f.sem(), b.sem()));
}

/// A function as text.
pub fn func(f: &Func) -> (s: String)
    requires
        printable(f.sem()),
    ensures
        s@ == func_text(f.sem()),
{
    let mut out = String::new();
    out.append("fn @");
    out.append(f.name.as_str());
    out.append("(");
    push_params(&mut out, f, &f.params);
    out.append(") -> ");
    push_repr(&mut out, &f.ret);
    out.append(" {\n");
    let ghost head = out@;
    let mut i: usize = 0;
    assert(out@ =~= head + blocks_text(f.sem(), 0));
    while i < f.blocks.len()
        invariant
            i <= f.blocks.len(),
            printable(f.sem()),
            out@ == head + blocks_text(f.sem(), i as int),
        decreases f.blocks.len() - i,
    {
        assert(f.sem().blocks[i as int] == f.blocks@[i as int].sem());
        push_block(&mut out, f, &f.blocks[i]);
        assert(out@ =~= head + blocks_text(f.sem(), i + 1));
        i += 1;
    }
    out.append("}\n");
    assert(out@ =~= func_text(f.sem()));
    out
}

/// A program as text: its functions, with a blank line between them.
pub fn program(p: &Program) -> (s: String)
    requires
        forall|i: int| 0 <= i < p.funcs.len() ==> printable((#[trigger] p.funcs[i]).sem()),
    ensures
        s@ == funcs_text(sems(p.funcs@)),
{
    let ghost fs = sems(p.funcs@);
    let mut out = String::new();
    let mut i: usize = 0;
    assert(out@ =~= funcs_text(fs.take(0)));
    while i < p.funcs.len()
        invariant
            i <= p.funcs.len(),
            fs == sems(p.funcs@),
            forall|j: int| 0 <= j < p.funcs.len() ==> printable((#[trigger] p.funcs[j]).sem()),
            out@ == funcs_text(fs.take(i as int)),
        decreases p.funcs.len() - i,
    {
        if i > 0 {
            out.append("\n");
        }
        out.append(func(&p.funcs[i]).as_str());
        let ghost next = fs.take(i + 1);
        assert(next.drop_last() =~= fs.take(i as int));
        assert(next.last() == p.funcs@[i as int].sem());
        assert(out@ =~= funcs_text(next));
        i += 1;
    }
    assert(fs.take(i as int) =~= fs);
    out
}

} // verus!
