//! The IR in single-assignment form: functions of basic blocks, every value defined once,
//! and joins expressed as block arguments.
//!
//! A value carries both its layout, for code generation, and its type. A block takes
//! parameters and every predecessor passes them when it branches: a loop's carried state is
//! its header's parameters, and a join is a block that takes the merged value.

use super::repr::{repr_sem, Repr, SRepr};
use crate::syntax::{names_of, opt_name_of, sems, Node};
use crate::types::TyId;
use vstd::prelude::*;

pub mod print;

verus! {

/// A temporary, by its number in its function.
#[derive(Debug, Clone, Copy, PartialEq, Eq, Structural, Hash, PartialOrd, Ord)]
pub struct Value(pub u32);

/// A basic block, by its number in its function.
#[derive(Debug, Clone, Copy, PartialEq, Eq, Structural, Hash, PartialOrd, Ord)]
pub struct BlockId(pub u32);

/// A primitive machine operation. The operands' layout tells integers from floats.
#[derive(Debug, Clone, Copy, PartialEq, Eq, Structural)]
pub enum PrimOp {
    Add,
    Sub,
    Mul,
    Div,
    Rem,
    Neg,
    Eq,
    Ne,
    Lt,
    Le,
    Gt,
    Ge,
    And,
    Or,
    Not,
    Band,
    Bor,
    Bxor,
    Bsl,
    Bsr,
    Bnot,
}

/// A whole program: the monomorphic functions that make it up.
#[derive(Debug, PartialEq)]
pub struct Program {
    pub funcs: Vec<Func>,
    /// Every recursive type in the program, with its unfolding.
    pub recursive: Vec<(TyId, Repr)>,
    /// The record atoms whose values are all pointers, with what they point at.
    pub boxed: Vec<(u32, Repr)>,
    /// The runtime symbols of natives declared pure. A native is opaque, so its purity has
    /// to be declared, and one that is not here has effects.
    pub pure_natives: Vec<String>,
    /// The functions that are asked to be inlined.
    pub inlined: Vec<String>,
}

/// One instruction: an operation and the value it defines, if any.
#[derive(Debug, PartialEq)]
pub struct Inst {
    pub result: Option<Value>,
    pub op: Op,
}

/// An operation.
#[derive(Debug, PartialEq)]
pub enum Op {
    ConstI64(i64),
    /// The bit pattern.
    ConstF64(u64),
    ConstBool(bool),
    ConstStr(String),
    ConstNull,
    ConstUnit,
    /// An atom, by name.
    ConstAtom(String),
    /// A primitive operation on scalars.
    Prim(PrimOp, Vec<Value>),
    /// A direct call to a monomorphic function by its mangled name.
    Call { func: String, args: Vec<Value> },
    /// A call to a runtime symbol.
    Native { symbol: String, args: Vec<Value> },
    /// A call through a closure value.
    CallClosure { callee: Value, args: Vec<Value> },
    /// A function plus its captured environment.
    MakeClosure { func: String, captures: Vec<Value> },
    /// A record, its fields in declared order.
    MakeRecord { name: Option<String>, fields: Vec<(String, Value)> },
    Field { base: Value, field: String },
    MakeTuple(Vec<Value>),
    /// An element of a tuple.
    Elem { base: Value, index: usize },
    /// A reinterpretation to a narrower or wrapping type.
    Cast(Value),
    /// Whether the tagged result of a throwing call is the error.
    IsErr(Value),
    UnwrapOk(Value),
    UnwrapErr(Value),
    IsNull(Value),
    /// Whether a value is the named variant of a union. `tested` is the layout of the type
    /// that was asked for, where that is known: an erased value is tested against it.
    IsVariant { value: Value, variant: String, tested: Option<Repr> },
    MakeList(Vec<Value>),
    /// An element of a list, which traps on a bad index. `covered` is a flag that, when
    /// it holds, makes the check redundant.
    Index { base: Value, index: Value, covered: Option<Value> },
    Retain(Value),
    Release(Value),
}

/// Where a branch goes, and the block arguments it passes.
#[derive(Debug, PartialEq)]
pub struct Target {
    pub to: BlockId,
    pub args: Vec<Value>,
}

/// How a block ends.
#[derive(Debug, PartialEq)]
pub enum Term {
    Ret(Option<Value>),
    /// Return the error case of a throwing function's tagged result.
    Throw(Value),
    Jump(Target),
    Branch { cond: Value, then: Target, els: Target },
    Switch { on: Value, arms: Vec<(SwitchKey, Target)>, default: Target },
    /// After a call that never returns, or an exhausted match.
    Unreachable,
}

/// The discriminant of an arm of a switch.
#[derive(Debug, PartialEq)]
pub enum SwitchKey {
    Int(i64),
    Bool(bool),
    Atom(String),
    /// A nominal variant of a sum type, by name.
    Nominal(String),
}

/// A basic block. Its parameters are what every predecessor passes.
#[derive(Debug, PartialEq)]
pub struct Block {
    pub id: BlockId,
    pub params: Vec<Value>,
    pub insts: Vec<Inst>,
    pub term: Term,
}

/// What a value is: its layout and its type.
#[derive(Debug, PartialEq)]
pub struct ValueData {
    pub repr: Repr,
    pub ty: TyId,
}

/// A function. `params` are the entry block's parameters.
#[derive(Debug, PartialEq)]
pub struct Func {
    pub name: String,
    pub params: Vec<Value>,
    pub ret: Repr,
    pub entry: BlockId,
    pub blocks: Vec<Block>,
    /// For a lifted lambda, the layout of its environment, which is its first parameter.
    pub env: Option<Repr>,
    /// The error layout of a throwing function.
    pub throws: Option<Repr>,
    /// The layout and the type of every value, by its number.
    pub values: Vec<ValueData>,
}
/// [`Inst`] as a mathematical value.
pub struct SInst {
    pub result: Option<Value>,
    pub op: SOp,
}

/// [`Op`] as a mathematical value.
pub enum SOp {
    ConstI64(i64),
    ConstF64(u64),
    ConstBool(bool),
    ConstStr(Seq<char>),
    ConstNull,
    ConstUnit,
    ConstAtom(Seq<char>),
    Prim(PrimOp, Seq<Value>),
    Call { func: Seq<char>, args: Seq<Value> },
    Native { symbol: Seq<char>, args: Seq<Value> },
    CallClosure { callee: Value, args: Seq<Value> },
    MakeClosure { func: Seq<char>, captures: Seq<Value> },
    MakeRecord { name: Option<Seq<char>>, fields: Seq<(Seq<char>, Value)> },
    Field { base: Value, field: Seq<char> },
    MakeTuple(Seq<Value>),
    Elem { base: Value, index: usize },
    Cast(Value),
    IsErr(Value),
    UnwrapOk(Value),
    UnwrapErr(Value),
    IsNull(Value),
    IsVariant { value: Value, variant: Seq<char>, tested: Option<SRepr> },
    MakeList(Seq<Value>),
    Index { base: Value, index: Value, covered: Option<Value> },
    Retain(Value),
    Release(Value),
}

/// [`Target`] as a mathematical value.
pub struct STarget {
    pub to: BlockId,
    pub args: Seq<Value>,
}

/// [`Term`] as a mathematical value.
pub enum STerm {
    Ret(Option<Value>),
    Throw(Value),
    Jump(STarget),
    Branch { cond: Value, then: STarget, els: STarget },
    Switch { on: Value, arms: Seq<(SSwitchKey, STarget)>, default: STarget },
    Unreachable,
}

/// [`SwitchKey`] as a mathematical value.
pub enum SSwitchKey {
    Int(i64),
    Bool(bool),
    Atom(Seq<char>),
    Nominal(Seq<char>),
}

/// [`Block`] as a mathematical value.
pub struct SBlock {
    pub id: BlockId,
    pub params: Seq<Value>,
    pub insts: Seq<SInst>,
    pub term: STerm,
}

/// [`ValueData`] as a mathematical value.
pub struct SValueData {
    pub repr: SRepr,
    pub ty: TyId,
}

pub struct SProgram {
    pub funcs: Seq<SFunc>,
    pub recursive: Seq<(TyId, SRepr)>,
    pub boxed: Seq<(u32, SRepr)>,
    pub pure_natives: Seq<Seq<char>>,
    pub inlined: Seq<Seq<char>>,
}

/// [`Func`] as a mathematical value.
pub struct SFunc {
    pub name: Seq<char>,
    pub params: Seq<Value>,
    pub ret: SRepr,
    pub entry: BlockId,
    pub blocks: Seq<SBlock>,
    pub env: Option<SRepr>,
    pub throws: Option<SRepr>,
    pub values: Seq<SValueData>,
}

pub open spec fn inst_sem(x: Inst) -> SInst
{
    SInst {
        result: x.result,
        op: op_sem(x.op),
    }
}

impl Node for Inst {
    type V = SInst;

    open spec fn sem(&self) -> SInst {
        inst_sem(*self)
    }
}

pub open spec fn op_sem(x: Op) -> SOp
    decreases x,
{
    match x {
        Op::ConstI64(a) => SOp::ConstI64(a),
        Op::ConstF64(a) => SOp::ConstF64(a),
        Op::ConstBool(a) => SOp::ConstBool(a),
        Op::ConstStr(a) => SOp::ConstStr(a@),
        Op::ConstNull => SOp::ConstNull,
        Op::ConstUnit => SOp::ConstUnit,
        Op::ConstAtom(a) => SOp::ConstAtom(a@),
        Op::Prim(a, b) => SOp::Prim(a, b@),
        Op::Call { func, args } => SOp::Call { func: func@, args: args@ },
        Op::Native { symbol, args } => SOp::Native { symbol: symbol@, args: args@ },
        Op::CallClosure { callee, args } => SOp::CallClosure { callee: callee, args: args@ },
        Op::MakeClosure { func, captures } => SOp::MakeClosure { func: func@, captures: captures@ },
        Op::MakeRecord { name, fields } => SOp::MakeRecord { name: opt_name_of(name), fields: named_values_sem(fields@) },
        Op::Field { base, field } => SOp::Field { base: base, field: field@ },
        Op::MakeTuple(a) => SOp::MakeTuple(a@),
        Op::Elem { base, index } => SOp::Elem { base: base, index: index },
        Op::Cast(a) => SOp::Cast(a),
        Op::IsErr(a) => SOp::IsErr(a),
        Op::UnwrapOk(a) => SOp::UnwrapOk(a),
        Op::UnwrapErr(a) => SOp::UnwrapErr(a),
        Op::IsNull(a) => SOp::IsNull(a),
        Op::IsVariant { value, variant, tested } => SOp::IsVariant { value: value, variant: variant@, tested: match tested { Some(x) => Some(repr_sem(x)), None => None } },
        Op::MakeList(a) => SOp::MakeList(a@),
        Op::Index { base, index, covered } => SOp::Index { base: base, index: index, covered: covered },
        Op::Retain(a) => SOp::Retain(a),
        Op::Release(a) => SOp::Release(a),
    }
}

impl Node for Op {
    type V = SOp;

    open spec fn sem(&self) -> SOp {
        op_sem(*self)
    }
}

pub open spec fn target_sem(x: Target) -> STarget
{
    STarget {
        to: x.to,
        args: x.args@,
    }
}

impl Node for Target {
    type V = STarget;

    open spec fn sem(&self) -> STarget {
        target_sem(*self)
    }
}

pub open spec fn term_sem(x: Term) -> STerm
{
    match x {
        Term::Ret(a) => STerm::Ret(a),
        Term::Throw(a) => STerm::Throw(a),
        Term::Jump(a) => STerm::Jump(target_sem(a)),
        Term::Branch { cond, then, els } => STerm::Branch { cond: cond, then: target_sem(then), els: target_sem(els) },
        Term::Switch { on, arms, default } => STerm::Switch { on: on, arms: arms_sem(arms@), default: target_sem(default) },
        Term::Unreachable => STerm::Unreachable,
    }
}

impl Node for Term {
    type V = STerm;

    open spec fn sem(&self) -> STerm {
        term_sem(*self)
    }
}

pub open spec fn switch_key_sem(x: SwitchKey) -> SSwitchKey
{
    match x {
        SwitchKey::Int(a) => SSwitchKey::Int(a),
        SwitchKey::Bool(a) => SSwitchKey::Bool(a),
        SwitchKey::Atom(a) => SSwitchKey::Atom(a@),
        SwitchKey::Nominal(a) => SSwitchKey::Nominal(a@),
    }
}

impl Node for SwitchKey {
    type V = SSwitchKey;

    open spec fn sem(&self) -> SSwitchKey {
        switch_key_sem(*self)
    }
}

pub open spec fn block_sem(x: Block) -> SBlock
    decreases x,
{
    SBlock {
        id: x.id,
        params: x.params@,
        insts: insts_sem(x.insts@),
        term: term_sem(x.term),
    }
}

impl Node for Block {
    type V = SBlock;

    open spec fn sem(&self) -> SBlock {
        block_sem(*self)
    }
}

pub open spec fn value_data_sem(x: ValueData) -> SValueData
{
    SValueData {
        repr: repr_sem(x.repr),
        ty: x.ty,
    }
}

impl Node for ValueData {
    type V = SValueData;

    open spec fn sem(&self) -> SValueData {
        value_data_sem(*self)
    }
}

pub open spec fn func_sem(x: Func) -> SFunc
{
    SFunc {
        name: x.name@,
        params: x.params@,
        ret: repr_sem(x.ret),
        entry: x.entry,
        blocks: blocks_sem(x.blocks@),
        env: match x.env { Some(x) => Some(repr_sem(x)), None => None },
        throws: match x.throws { Some(x) => Some(repr_sem(x)), None => None },
        values: value_datas_sem(x.values@),
    }
}

impl Node for Func {
    type V = SFunc;

    open spec fn sem(&self) -> SFunc {
        func_sem(*self)
    }
}

impl Node for Program {
    type V = SProgram;

    open spec fn sem(&self) -> SProgram {
        SProgram {
            funcs: sems(self.funcs@),
            recursive: self.recursive@.map_values(|p: (TyId, Repr)| (p.0, p.1.sem())),
            boxed: self.boxed@.map_values(|p: (u32, Repr)| (p.0, p.1.sem())),
            pure_natives: names_of(self.pure_natives@),
            inlined: names_of(self.inlined@),
        }
    }
}

pub open spec fn named_values_sem(s: Seq<(String, Value)>) -> Seq<(Seq<char>, Value)> {
    s.map_values(|p: (String, Value)| (p.0@, p.1))
}

pub open spec fn arms_sem(s: Seq<(SwitchKey, Target)>) -> Seq<(SSwitchKey, STarget)> {
    s.map_values(|p: (SwitchKey, Target)| (p.0.sem(), p.1.sem()))
}

pub open spec fn insts_sem(s: Seq<Inst>) -> Seq<SInst> {
    sems(s)
}

pub open spec fn blocks_sem(s: Seq<Block>) -> Seq<SBlock> {
    sems(s)
}

pub open spec fn value_datas_sem(s: Seq<ValueData>) -> Seq<SValueData> {
    sems(s)
}

// ---- copies ----

/// The same values in a vector of their own.
pub fn copy_values(vs: &Vec<Value>) -> (r: Vec<Value>)
    ensures
        r@ == vs@,
{
    let mut r: Vec<Value> = Vec::new();
    let mut i: usize = 0;
    while i < vs.len()
        invariant
            i <= vs.len(),
            r@ == vs@.take(i as int),
        decreases vs.len() - i,
    {
        r.push(vs[i]);
        i += 1;
        assert(r@ =~= vs@.take(i as int));
    }
    assert(vs@.take(i as int) =~= vs@);
    r
}

fn copy_fields(fs: &Vec<(String, Value)>) -> (r: Vec<(String, Value)>)
    ensures
        named_values_sem(r@) == named_values_sem(fs@),
{
    let mut r: Vec<(String, Value)> = Vec::new();
    let mut i: usize = 0;
    while i < fs.len()
        invariant
            i <= fs.len(),
            r.len() == i,
            forall|j: int| 0 <= j < i ==> #[trigger] r[j] == fs[j],
        decreases fs.len() - i,
    {
        r.push((fs[i].0.clone(), fs[i].1));
        i += 1;
    }
    assert(named_values_sem(r@) =~= named_values_sem(fs@));
    r
}

fn copy_opt_name(name: &Option<String>) -> (r: Option<String>)
    ensures
        r == *name,
{
    match name {
        Some(s) => Some(s.clone()),
        None => None,
    }
}

/// The same layout, if there is one.
pub fn copy_opt_repr(r: &Option<Repr>) -> (c: Option<Repr>)
    ensures
        c.sem() == r.sem(),
{
    match r {
        Some(x) => Some(x.clone()),
        None => None,
    }
}

impl Clone for Op {
    fn clone(&self) -> (r: Op)
        ensures
            r.sem() == self.sem(),
    {
        match self {
            Op::ConstI64(n) => Op::ConstI64(*n),
            Op::ConstF64(n) => Op::ConstF64(*n),
            Op::ConstBool(b) => Op::ConstBool(*b),
            Op::ConstStr(s) => Op::ConstStr(s.clone()),
            Op::ConstNull => Op::ConstNull,
            Op::ConstUnit => Op::ConstUnit,
            Op::ConstAtom(s) => Op::ConstAtom(s.clone()),
            Op::Prim(p, vs) => Op::Prim(*p, copy_values(vs)),
            Op::Call { func, args } => Op::Call { func: func.clone(), args: copy_values(args) },
            Op::Native { symbol, args } => Op::Native {
                symbol: symbol.clone(),
                args: copy_values(args),
            },
            Op::CallClosure { callee, args } => Op::CallClosure {
                callee: *callee,
                args: copy_values(args),
            },
            Op::MakeClosure { func, captures } => Op::MakeClosure {
                func: func.clone(),
                captures: copy_values(captures),
            },
            Op::MakeRecord { name, fields } => Op::MakeRecord {
                name: copy_opt_name(name),
                fields: copy_fields(fields),
            },
            Op::Field { base, field } => Op::Field { base: *base, field: field.clone() },
            Op::MakeTuple(vs) => Op::MakeTuple(copy_values(vs)),
            Op::Elem { base, index } => Op::Elem { base: *base, index: *index },
            Op::Cast(v) => Op::Cast(*v),
            Op::IsErr(v) => Op::IsErr(*v),
            Op::UnwrapOk(v) => Op::UnwrapOk(*v),
            Op::UnwrapErr(v) => Op::UnwrapErr(*v),
            Op::IsNull(v) => Op::IsNull(*v),
            Op::IsVariant { value, variant, tested } => Op::IsVariant {
                value: *value,
                variant: variant.clone(),
                tested: copy_opt_repr(tested),
            },
            Op::MakeList(vs) => Op::MakeList(copy_values(vs)),
            Op::Index { base, index, covered } => Op::Index {
                base: *base,
                index: *index,
                covered: *covered,
            },
            Op::Retain(v) => Op::Retain(*v),
            Op::Release(v) => Op::Release(*v),
        }
    }
}

impl Clone for Inst {
    fn clone(&self) -> (r: Inst)
        ensures
            r.sem() == self.sem(),
    {
        Inst { result: self.result, op: self.op.clone() }
    }
}

impl Clone for Target {
    fn clone(&self) -> (r: Target)
        ensures
            r.sem() == self.sem(),
    {
        Target { to: self.to, args: copy_values(&self.args) }
    }
}

impl Clone for SwitchKey {
    fn clone(&self) -> (r: SwitchKey)
        ensures
            r == *self,
    {
        match self {
            SwitchKey::Int(n) => SwitchKey::Int(*n),
            SwitchKey::Bool(b) => SwitchKey::Bool(*b),
            SwitchKey::Atom(s) => SwitchKey::Atom(s.clone()),
            SwitchKey::Nominal(s) => SwitchKey::Nominal(s.clone()),
        }
    }
}

fn copy_arms(arms: &Vec<(SwitchKey, Target)>) -> (r: Vec<(SwitchKey, Target)>)
    ensures
        arms_sem(r@) == arms_sem(arms@),
{
    let mut r: Vec<(SwitchKey, Target)> = Vec::new();
    let mut i: usize = 0;
    while i < arms.len()
        invariant
            i <= arms.len(),
            r.len() == i,
            forall|j: int|
                0 <= j < i ==> (#[trigger] r[j]).0.sem() == arms[j].0.sem() && r[j].1.sem()
                    == arms[j].1.sem(),
        decreases arms.len() - i,
    {
        r.push((arms[i].0.clone(), arms[i].1.clone()));
        i += 1;
    }
    assert(arms_sem(r@) =~= arms_sem(arms@));
    r
}

impl Clone for Term {
    fn clone(&self) -> (r: Term)
        ensures
            r.sem() == self.sem(),
    {
        match self {
            Term::Ret(v) => Term::Ret(*v),
            Term::Throw(v) => Term::Throw(*v),
            Term::Jump(t) => Term::Jump(t.clone()),
            Term::Branch { cond, then, els } => Term::Branch {
                cond: *cond,
                then: then.clone(),
                els: els.clone(),
            },
            Term::Switch { on, arms, default } => Term::Switch {
                on: *on,
                arms: copy_arms(arms),
                default: default.clone(),
            },
            Term::Unreachable => Term::Unreachable,
        }
    }
}

/// The same instructions in a vector of their own.
pub fn copy_insts(insts: &Vec<Inst>) -> (r: Vec<Inst>)
    ensures
        sems(r@) == sems(insts@),
{
    let mut r: Vec<Inst> = Vec::new();
    let mut i: usize = 0;
    while i < insts.len()
        invariant
            i <= insts.len(),
            r.len() == i,
            forall|j: int| 0 <= j < i ==> (#[trigger] r[j]).sem() == insts[j].sem(),
        decreases insts.len() - i,
    {
        r.push(insts[i].clone());
        i += 1;
    }
    assert(sems(r@) =~= sems(insts@));
    r
}

impl Clone for Block {
    fn clone(&self) -> (r: Block)
        ensures
            r.sem() == self.sem(),
    {
        Block {
            id: self.id,
            params: copy_values(&self.params),
            insts: copy_insts(&self.insts),
            term: self.term.clone(),
        }
    }
}

// ---- well-formed functions ----

/// The edges out of a block, in order: the block each goes to, and what it passes.
pub open spec fn targets(t: STerm) -> Seq<STarget> {
    match t {
        STerm::Jump(t) => seq![t],
        STerm::Branch { then, els, .. } => seq![then, els],
        STerm::Switch { arms, default, .. } => arms.map_values(
            |a: (SSwitchKey, STarget)| a.1,
        ).push(default),
        _ => seq![],
    }
}

/// The values that an operation reads, in order.
pub open spec fn operands(op: SOp) -> Seq<Value> {
    match op {
        SOp::Prim(_, vs) => vs,
        SOp::MakeTuple(vs) => vs,
        SOp::MakeList(vs) => vs,
        SOp::Call { args, .. } => args,
        SOp::Native { args, .. } => args,
        SOp::CallClosure { callee, args } => seq![callee] + args,
        SOp::MakeClosure { captures, .. } => captures,
        SOp::MakeRecord { fields, .. } => fields.map_values(|f: (Seq<char>, Value)| f.1),
        SOp::Field { base, .. } => seq![base],
        SOp::Elem { base, .. } => seq![base],
        SOp::Index { base, index, covered } => match covered {
            Some(c) => seq![base, index, c],
            None => seq![base, index],
        },
        SOp::Cast(v) => seq![v],
        SOp::IsNull(v) => seq![v],
        SOp::IsErr(v) => seq![v],
        SOp::UnwrapOk(v) => seq![v],
        SOp::UnwrapErr(v) => seq![v],
        SOp::IsVariant { value, .. } => seq![value],
        SOp::Retain(v) => seq![v],
        SOp::Release(v) => seq![v],
        _ => seq![],
    }
}

/// Whether a terminator only goes to the first `n` blocks.
pub open spec fn term_in_range(t: STerm, n: nat) -> bool {
    forall|i: int| 0 <= i < targets(t).len() ==> (#[trigger] targets(t)[i]).to.0 < n
}

/// A function whose blocks are numbered by their place and whose edges go to blocks that
/// exist.
pub open spec fn blocks_wf(f: SFunc) -> bool {
    &&& f.blocks.len() <= u32::MAX
    &&& f.entry.0 < f.blocks.len()
    &&& forall|i: int| 0 <= i < f.blocks.len() ==> (#[trigger] f.blocks[i]).id.0 == i
    &&& forall|i: int|
        0 <= i < f.blocks.len() ==> term_in_range((#[trigger] f.blocks[i]).term, f.blocks.len())
}

/// Whether all values are among the first `n`.
pub open spec fn values_below(vs: Seq<Value>, n: nat) -> bool {
    forall|i: int| 0 <= i < vs.len() ==> (#[trigger] vs[i]).0 < n
}

/// The values that a terminator reads or hands on, in order.
pub open spec fn term_operands(t: STerm) -> Seq<Value> {
    match t {
        STerm::Ret(Some(v)) => seq![v],
        STerm::Throw(v) => seq![v],
        STerm::Jump(t) => t.args,
        STerm::Branch { cond, then, els } => seq![cond] + then.args + els.args,
        STerm::Switch { on, arms, default } => seq![on] + arm_args(arms) + default.args,
        _ => seq![],
    }
}

/// The arguments of all arms of a switch, in order.
pub open spec fn arm_args(arms: Seq<(SSwitchKey, STarget)>) -> Seq<Value>
    decreases arms.len(),
{
    if arms.len() == 0 {
        seq![]
    } else {
        arm_args(arms.drop_last()) + arms.last().1.args
    }
}

/// Whether an instruction only names the first `n` values.
pub open spec fn inst_in_range(i: SInst, n: nat) -> bool {
    values_below(operands(i.op), n) && (i.result matches Some(v) ==> v.0 < n)
}

pub open spec fn block_in_range(b: SBlock, n: nat) -> bool {
    &&& values_below(b.params, n)
    &&& forall|i: int| 0 <= i < b.insts.len() ==> inst_in_range(#[trigger] b.insts[i], n)
    &&& values_below(term_operands(b.term), n)
}

/// A function that only names values of its own table.
pub open spec fn values_wf(f: SFunc) -> bool {
    &&& f.values.len() <= u32::MAX
    &&& values_below(f.params, f.values.len())
    &&& forall|i: int|
        0 <= i < f.blocks.len() ==> block_in_range(#[trigger] f.blocks[i], f.values.len())
}

/// Whether two functions are the same to those who call them: what they are called, take,
/// give and throw, and what they close over.
pub open spec fn same_frame(f: SFunc, g: SFunc) -> bool {
    &&& g.name == f.name
    &&& g.params == f.params
    &&& g.ret == f.ret
    &&& g.throws == f.throws
    &&& g.env == f.env
}

impl Func {
    /// The tagged result that a throwing function returns: a union of the value and the
    /// error.
    pub fn result_repr(&self) -> (r: Option<Repr>)
        ensures
            r.sem() == match self.throws.sem() {
                Some(e) => Some(SRepr::Union(seq![self.ret.sem(), e])),
                None => None,
            },
    {
        match &self.throws {
            Some(e) => {
                let mut rs: Vec<Repr> = Vec::new();
                rs.push(self.ret.clone());
                rs.push(e.clone());
                let r = Repr::Union(rs);
                assert(super::repr::reprs_sem(rs@) =~= seq![self.ret.sem(), e.sem()]);
                assert(r.sem() == SRepr::Union(super::repr::reprs_sem(rs@)));
                Some(r)
            },
            None => None,
        }
    }

    pub fn value_repr(&self, v: Value) -> (r: &Repr)
        requires
            v.0 < self.values.len(),
        ensures
            *r == self.values[v.0 as int].repr,
            r.sem() == self.sem().values[v.0 as int].repr,
    {
        assert(self.sem().values[v.0 as int] == self.values[v.0 as int].sem());
        &self.values[v.0 as usize].repr
    }

    pub fn value_ty(&self, v: Value) -> (r: TyId)
        requires
            v.0 < self.values.len(),
        ensures
            r == self.values[v.0 as int].ty,
            r == self.sem().values[v.0 as int].ty,
    {
        assert(self.sem().values[v.0 as int] == self.values[v.0 as int].sem());
        self.values[v.0 as usize].ty
    }

    pub fn block(&self, id: BlockId) -> (r: &Block)
        requires
            id.0 < self.blocks.len(),
        ensures
            *r == self.blocks[id.0 as int],
            r.sem() == self.sem().blocks[id.0 as int],
    {
        assert(self.sem().blocks[id.0 as int] == self.blocks[id.0 as int].sem());
        &self.blocks[id.0 as usize]
    }

    /// Every value of the function, in order.
    pub fn values(&self) -> (r: Vec<Value>)
        requires
            self.values.len() <= u32::MAX,
        ensures
            r.len() == self.values.len(),
            forall|i: int| 0 <= i < r.len() ==> (#[trigger] r[i]).0 == i,
    {
        let mut r: Vec<Value> = Vec::new();
        let mut i: usize = 0;
        while i < self.values.len()
            invariant
                i <= self.values.len() <= u32::MAX,
                r.len() == i,
                forall|j: int| 0 <= j < i ==> (#[trigger] r[j]).0 == j,
            decreases self.values.len() - i,
        {
            r.push(Value(i as u32));
            i += 1;
        }
        r
    }

    /// A fresh value.
    pub fn new_value(&mut self, repr: Repr, ty: TyId) -> (v: Value)
        requires
            old(self).values.len() < u32::MAX,
        ensures
            v.0 == old(self).values.len(),
            final(self).sem() == (SFunc {
                values: old(self).sem().values.push(SValueData { repr: repr.sem(), ty }),
                ..old(self).sem()
            }),
            final(self).blocks == old(self).blocks,
            final(self).values.len() == old(self).values.len() + 1,
    {
        let v = Value(self.values.len() as u32);
        let d = ValueData { repr, ty };
        self.values.push(d);
        assert(d.sem() == SValueData { repr: repr.sem(), ty });
        assert(self.sem().values =~= old(self).sem().values.push(d.sem()));
        v
    }
}

// ---- building functions ----

/// A function as it is built.
pub struct SBuilder {
    pub name: Seq<char>,
    pub ret: SRepr,
    pub throws: Option<SRepr>,
    pub values: Seq<SValueData>,
    pub blocks: Seq<SBlock>,
    pub current: BlockId,
}

pub open spec fn empty_block(id: BlockId) -> SBlock {
    SBlock { id, params: seq![], insts: seq![], term: STerm::Unreachable }
}

/// The function with an instruction appended to its current block.
pub open spec fn appended(b: SBuilder, i: SInst) -> SBuilder {
    let at = b.current.0 as int;
    SBuilder {
        blocks: b.blocks.update(
            at,
            SBlock { insts: b.blocks[at].insts.push(i), ..b.blocks[at] },
        ),
        ..b
    }
}

pub open spec fn with_value(b: SBuilder, repr: SRepr, ty: TyId) -> SBuilder {
    SBuilder { values: b.values.push(SValueData { repr, ty }), ..b }
}

/// The value that is minted next.
pub open spec fn next_value(b: SBuilder) -> Value {
    Value(b.values.len() as u32)
}

/// What a builder gives when it is done.
pub open spec fn finished(b: SBuilder, params: Seq<Value>, env: Option<SRepr>) -> SFunc {
    SFunc {
        name: b.name,
        params,
        ret: b.ret,
        entry: BlockId(0),
        blocks: b.blocks,
        env,
        throws: b.throws,
        values: b.values,
    }
}

/// Builds one function: mints values and blocks, appends instructions to the current block,
/// and finishes blocks with a terminator.
pub struct Builder {
    name: String,
    ret: Repr,
    /// Set when the function declares `throws`, which makes its result a tagged union.
    throws: Option<Repr>,
    values: Vec<ValueData>,
    blocks: Vec<Block>,
    current: BlockId,
}

impl Node for Builder {
    type V = SBuilder;

    closed spec fn sem(&self) -> SBuilder {
        SBuilder {
            name: self.name@,
            ret: self.ret.sem(),
            throws: self.throws.sem(),
            values: sems(self.values@),
            blocks: sems(self.blocks@),
            current: self.current,
        }
    }
}

impl Builder {
    /// The function has an entry block, its blocks are numbered by their place, and the
    /// current block is one of them.
    pub closed spec fn wf(&self) -> bool {
        &&& 0 < self.blocks.len()
        &&& self.current.0 < self.blocks.len()
        &&& forall|i: int|
            0 <= i < self.blocks.len() ==> (#[trigger] self.blocks[i]).id == BlockId(i as u32)
    }

    /// What a well-formed builder looks like from outside.
    pub proof fn wf_means(&self)
        requires
            self.wf(),
        ensures
            0 < self.sem().blocks.len(),
            self.sem().current.0 < self.sem().blocks.len(),
            forall|i: int|
                0 <= i < self.sem().blocks.len() ==> (#[trigger] self.sem().blocks[i]).id
                    == BlockId(i as u32),
    {
        assert forall|i: int| 0 <= i < self.sem().blocks.len() implies (
        #[trigger] self.sem().blocks[i]).id == BlockId(i as u32) by {
            assert(self.sem().blocks[i] == self.blocks[i].sem());
        }
    }

    pub fn new(name: &str, ret: Repr) -> (r: Builder)
        ensures
            r.wf(),
            r.sem() == (SBuilder {
                name: name@,
                ret: ret.sem(),
                throws: None,
                values: seq![],
                blocks: seq![empty_block(BlockId(0))],
                current: BlockId(0),
            }),
    {
        let entry = Block {
            id: BlockId(0),
            params: Vec::new(),
            insts: Vec::new(),
            term: Term::Unreachable,
        };
        assert(entry.sem().insts =~= seq![]);
        assert(entry.sem() == empty_block(BlockId(0)));
        let mut blocks: Vec<Block> = Vec::new();
        blocks.push(entry);
        let r = Builder {
            name: name.to_owned(),
            ret,
            throws: None,
            values: Vec::new(),
            blocks,
            current: BlockId(0),
        };
        assert(r.sem().values =~= seq![]);
        assert(r.sem().blocks =~= seq![empty_block(BlockId(0))]);
        r
    }

    /// Mint a fresh value.
    pub fn value(&mut self, repr: Repr, ty: TyId) -> (v: Value)
        requires
            old(self).wf(),
        ensures
            final(self).wf(),
            v == next_value(old(self).sem()),
            v.0 < final(self).sem().values.len(),
            final(self).sem() == with_value(old(self).sem(), repr.sem(), ty),
    {
        let v = Value(
            #[verifier::truncate]
            (self.values.len() as u32),
        );
        let d = ValueData { repr, ty };
        self.values.push(d);
        assert(d.sem() == SValueData { repr: repr.sem(), ty });
        assert(self.sem().values =~= old(self).sem().values.push(d.sem()));
        v
    }

    pub fn value_repr(&self, v: Value) -> (r: &Repr)
        requires
            v.0 < self.sem().values.len(),
        ensures
            r.sem() == self.sem().values[v.0 as int].repr,
    {
        assert(self.sem().values[v.0 as int] == self.values[v.0 as int].sem());
        &self.values[v.0 as usize].repr
    }

    pub fn value_ty(&self, v: Value) -> (r: TyId)
        requires
            v.0 < self.sem().values.len(),
        ensures
            r == self.sem().values[v.0 as int].ty,
    {
        assert(self.sem().values[v.0 as int] == self.values[v.0 as int].sem());
        self.values[v.0 as usize].ty
    }

    /// A fresh empty block.
    pub fn new_block(&mut self) -> (id: BlockId)
        requires
            old(self).wf(),
        ensures
            final(self).wf(),
            id == BlockId(old(self).sem().blocks.len() as u32),
            id.0 < final(self).sem().blocks.len(),
            final(self).sem() == (SBuilder {
                blocks: old(self).sem().blocks.push(empty_block(id)),
                ..old(self).sem()
            }),
    {
        let id = BlockId(
            #[verifier::truncate]
            (self.blocks.len() as u32),
        );
        let b = Block { id, params: Vec::new(), insts: Vec::new(), term: Term::Unreachable };
        assert(b.sem().insts =~= seq![]);
        assert(b.sem() == empty_block(id));
        self.blocks.push(b);
        assert(self.sem().blocks =~= old(self).sem().blocks.push(b.sem()));
        id
    }

    /// Add a parameter to a block.
    pub fn block_param(&mut self, block: BlockId, repr: Repr, ty: TyId) -> (v: Value)
        requires
            old(self).wf(),
            block.0 < old(self).sem().blocks.len(),
        ensures
            final(self).wf(),
            v == next_value(old(self).sem()),
            v.0 < final(self).sem().values.len(),
            final(self).sem() == ({
                let b = old(self).sem();
                let at = block.0 as int;
                SBuilder {
                    blocks: b.blocks.update(
                        at,
                        SBlock { params: b.blocks[at].params.push(v), ..b.blocks[at] },
                    ),
                    ..with_value(b, repr.sem(), ty)
                }
            }),
    {
        let v = self.value(repr, ty);
        let ghost before = self.blocks@;
        let at: usize = block.0 as usize;
        self.blocks[at].params.push(v);
        assert(self.blocks@[at as int].sem() == SBlock {
            params: before[at as int].sem().params.push(v),
            ..before[at as int].sem()
        });
        assert(sems(self.blocks@) =~= sems(before).update(at as int, self.blocks@[at as int].sem()));
        v
    }

    /// Choose the block that instructions are appended to.
    pub fn switch_to(&mut self, block: BlockId)
        requires
            old(self).wf(),
            block.0 < old(self).sem().blocks.len(),
        ensures
            final(self).wf(),
            final(self).sem() == (SBuilder { current: block, ..old(self).sem() }),
    {
        self.current = block;
    }

    pub fn current(&self) -> (r: BlockId)
        ensures
            r == self.sem().current,
    {
        self.current
    }

    /// Append an instruction that defines a value.
    pub fn emit(&mut self, op: Op, repr: Repr, ty: TyId) -> (v: Value)
        requires
            old(self).wf(),
        ensures
            final(self).wf(),
            v == next_value(old(self).sem()),
            v.0 < final(self).sem().values.len(),
            final(self).sem() == appended(
                with_value(old(self).sem(), repr.sem(), ty),
                SInst { result: Some(v), op: op.sem() },
            ),
    {
        let v = self.value(repr, ty);
        self.append(Inst { result: Some(v), op });
        v
    }

    /// Append an instruction that defines nothing.
    pub fn emit_void(&mut self, op: Op)
        requires
            old(self).wf(),
        ensures
            final(self).wf(),
            final(self).sem() == appended(
                old(self).sem(),
                SInst { result: None, op: op.sem() },
            ),
    {
        self.append(Inst { result: None, op });
    }

    fn append(&mut self, i: Inst)
        requires
            old(self).wf(),
        ensures
            final(self).wf(),
            final(self).sem() == appended(old(self).sem(), i.sem()),
    {
        let ghost before = self.blocks@;
        let at: usize = self.current.0 as usize;
        self.blocks[at].insts.push(i);
        assert(sems(self.blocks@[at as int].insts@) =~= sems(before[at as int].insts@).push(
            i.sem(),
        ));
        assert(self.blocks@[at as int].sem() == SBlock {
            insts: before[at as int].sem().insts.push(i.sem()),
            ..before[at as int].sem()
        });
        assert(sems(self.blocks@) =~= sems(before).update(at as int, self.blocks@[at as int].sem()));
    }

    /// Finish the current block.
    pub fn terminate(&mut self, term: Term)
        requires
            old(self).wf(),
        ensures
            final(self).wf(),
            final(self).sem() == ({
                let b = old(self).sem();
                let at = b.current.0 as int;
                SBuilder {
                    blocks: b.blocks.update(at, SBlock { term: term.sem(), ..b.blocks[at] }),
                    ..b
                }
            }),
    {
        let ghost before = self.blocks@;
        let at: usize = self.current.0 as usize;
        self.blocks[at].term = term;
        assert(self.blocks@[at as int].sem() == SBlock {
            term: term.sem(),
            ..before[at as int].sem()
        });
        assert(sems(self.blocks@) =~= sems(before).update(at as int, self.blocks@[at as int].sem()));
    }

    /// Finish, declaring the entry block's parameters as the function's.
    pub fn finish(self, params: Vec<Value>) -> (f: Func)
        ensures
            f.sem() == finished(self.sem(), params@, None),
    {
        self.finish_impl(params, None)
    }

    /// Finish a lifted lambda, whose first parameter is a boxed environment.
    pub fn finish_lambda(self, params: Vec<Value>, env: Repr) -> (f: Func)
        ensures
            f.sem() == finished(self.sem(), params@, Some(env.sem())),
    {
        self.finish_impl(params, Some(env))
    }

    fn finish_impl(self, params: Vec<Value>, env: Option<Repr>) -> (f: Func)
        ensures
            f.sem() == finished(self.sem(), params@, env.sem()),
    {
        Func {
            name: self.name,
            params,
            ret: self.ret,
            entry: BlockId(0),
            blocks: self.blocks,
            env,
            throws: self.throws,
            values: self.values,
        }
    }

    /// Record that this function throws, so that its result becomes a tagged union.
    pub fn set_throws(&mut self, err: Repr)
        requires
            old(self).wf(),
        ensures
            final(self).wf(),
            final(self).sem() == (SBuilder { throws: Some(err.sem()), ..old(self).sem() }),
    {
        self.throws = Some(err);
    }

    /// The declared error layout, if this function throws.
    pub fn throws(&self) -> (r: Option<&Repr>)
        ensures
            match r {
                Some(e) => self.sem().throws == Some(e.sem()),
                None => self.sem().throws is None,
            },
    {
        self.throws.as_ref()
    }

    /// Change the layout of a value.
    pub fn set_value_repr(&mut self, v: Value, repr: Repr)
        requires
            old(self).wf(),
            v.0 < old(self).sem().values.len(),
        ensures
            final(self).wf(),
            final(self).sem() == ({
                let b = old(self).sem();
                let at = v.0 as int;
                SBuilder {
                    values: b.values.update(
                        at,
                        SValueData { repr: repr.sem(), ..b.values[at] },
                    ),
                    ..b
                }
            }),
    {
        let ghost before = self.values@;
        let at: usize = v.0 as usize;
        self.values[at].repr = repr;
        assert(self.values@[at as int].sem() == SValueData {
            repr: repr.sem(),
            ..before[at as int].sem()
        });
        assert(sems(self.values@) =~= sems(before).update(at as int, self.values@[at as int].sem()));
    }
}

} // verus!
