//! The syntax tree.

use crate::lexer::Span;
use vstd::prelude::*;

verus! {

/// A prefix operator.
#[derive(Debug, Clone, Copy, PartialEq, Eq, Structural)]
pub enum UnOp {
    Neg,
    Not,
    Bnot,
}

/// A binary operator. How each binds is in [`crate::ops`].
#[derive(Debug, Clone, Copy, PartialEq, Eq, Structural)]
pub enum BinOp {
    Add,
    Sub,
    Mul,
    Div,
    Rem,
    Eq,
    Ne,
    Lt,
    Le,
    Gt,
    Ge,
    And,
    Or,
    Band,
    Bor,
    Bxor,
    Bsl,
    Bsr,
    Orelse,
    Pipe,
}

/// `try`, `try?` or `try!`.
#[derive(Debug, Clone, Copy, PartialEq, Eq, Structural)]
pub enum TryForm {
    Propagate,
    Soften,
    Assert,
}

/// How a cast takes a value that is not of its type: it cannot be, it traps, or it gives
/// null.
#[derive(Debug, Clone, Copy, PartialEq, Eq, Structural)]
pub enum CastForm {
    Plain,
    Assert,
    Soften,
}

/// Which of the assertion words.
#[derive(Debug, Clone, Copy, PartialEq, Eq, Structural)]
pub enum AssertKind {
    Assert,
    Eq,
    Ne,
    Throws,
}

/// `test` or `bench`.
#[derive(Debug, Clone, Copy, PartialEq, Eq, Structural)]
pub enum TestKind {
    Test,
    Bench,
}

/// A type as written.
#[derive(Debug, PartialEq)]
pub struct TypeSpec {
    pub kind: TypeSpecKind,
    pub span: Span,
}

/// What a type says.
#[derive(Debug, PartialEq)]
pub enum TypeSpecKind {
    /// `List[i64]`, `a::b::T`
    Named { path: Vec<String>, args: Vec<TypeSpec> },
    /// `{ name: str }`
    Struct(Vec<Field>),
    /// `(A, B) throws E -> C`
    Fn { params: Vec<TypeSpec>, throws: Option<Box<TypeSpec>>, ret: Box<TypeSpec> },
    /// `(A, B)` and `()`
    Tuple(Vec<TypeSpec>),
    /// `:ok`
    Atom(String),
    Null,
    Any,
    /// `!T`
    Negate(Box<TypeSpec>),
    /// `A & B`
    Intersect(Vec<TypeSpec>),
    /// `A | B`
    Union(Vec<TypeSpec>),
}

/// A field of a record or of a structural type.
#[derive(Debug, PartialEq)]
pub struct Field {
    pub name: String,
    pub ty: TypeSpec,
    pub span: Span,
}

/// The number of an expression or a pattern, by which facts about it are found.
#[derive(Debug, Clone, Copy, PartialEq, Eq, Structural, Hash, PartialOrd, Ord)]
pub struct ExprId(pub u32);

/// The number of what has not been numbered.
pub const UNSET: u32 = 4294967295;

/// An expression.
#[derive(Debug, PartialEq)]
pub struct Expr {
    pub kind: ExprKind,
    pub span: Span,
    pub id: ExprId,
}

/// What an expression says.
#[derive(Debug, PartialEq)]
pub enum ExprKind {
    /// The magnitude; a sign is a unary minus around it.
    Int(u64),
    /// The spelling.
    Float(String),
    Rune(char),
    Atom(String),
    Bool(bool),
    Null,
    /// A string literal: text and interpolations in turn.
    Str(Vec<StrPart>),
    /// `a::b::c`
    Path(Vec<String>),
    /// `(a, b)` and `()`
    Tuple(Vec<Expr>),
    /// `[a, ..b]`
    List(Vec<Elem>),
    /// `Point { x: 1, ..base }`; no path for an anonymous record
    RecordLit { path: Option<Vec<String>>, fields: Vec<FieldInit>, spread: Option<Box<Expr>> },
    /// `(x: i64) => x + 1`
    Lambda { params: Vec<LambdaParam>, body: Box<Expr> },
    Unary { op: UnOp, rhs: Box<Expr> },
    Binary { op: BinOp, lhs: Box<Expr>, rhs: Box<Expr> },
    /// `f[i64](x)`
    Call { callee: Box<Expr>, generics: Vec<TypeSpec>, args: Vec<Expr> },
    /// `xs[i]`
    Index { base: Box<Expr>, index: Box<Expr> },
    /// `p.x`
    Field { base: Box<Expr>, name: String },
    /// `x is T`
    Is { lhs: Box<Expr>, ty: TypeSpec },
    /// `x as T`
    As { form: CastForm, lhs: Box<Expr>, ty: TypeSpec },
    /// A missing `else` is recorded, not filled in.
    If { cond: Box<Expr>, then: Block, else_: Option<Box<Expr>> },
    Match { scrutinee: Box<Expr>, arms: Vec<MatchArm> },
    Loop { body: Block },
    While { cond: Box<Expr>, body: Block },
    For { pat: Pattern, iter: Box<Expr>, body: Block },
    Block(Block),
    Break(Option<Box<Expr>>),
    Continue,
    Return(Option<Box<Expr>>),
    Throw(Box<Expr>),
    /// `try e`, `try? e`, `try! e`, each with or without a `catch`
    Try { form: TryForm, body: Box<Expr>, catch: Option<CatchArm> },
    Assert { kind: AssertKind, args: Vec<Expr> },
}

/// A part of a string literal.
#[derive(Debug, PartialEq)]
pub enum StrPart {
    Text(String),
    Interp(Expr),
}

/// An element of a list literal.
#[derive(Debug, PartialEq)]
pub enum Elem {
    Value(Expr),
    Spread(Expr),
}

/// `x: 1` in a record literal.
#[derive(Debug, PartialEq)]
pub struct FieldInit {
    pub name: String,
    pub value: Expr,
    pub span: Span,
}

/// A parameter of a lambda, with or without a type.
#[derive(Debug, PartialEq)]
pub struct LambdaParam {
    pub name: String,
    pub ty: Option<TypeSpec>,
}

/// `pat if guard => body`
#[derive(Debug, PartialEq)]
pub struct MatchArm {
    pub pat: Pattern,
    pub guard: Option<Expr>,
    pub body: Expr,
    pub span: Span,
}

/// `catch (e) { .. }`
#[derive(Debug, PartialEq)]
pub struct CatchArm {
    pub binding: String,
    pub body: Block,
    pub span: Span,
}

/// `{ .. }`: statements, and the value of the last expression if it has no semicolon.
#[derive(Debug, PartialEq)]
pub struct Block {
    pub stmts: Vec<Stmt>,
    pub tail: Option<Box<Expr>>,
    pub span: Span,
}

/// A statement.
#[derive(Debug, PartialEq)]
pub struct Stmt {
    pub kind: StmtKind,
    pub span: Span,
}

/// What a statement says.
#[derive(Debug, PartialEq)]
pub enum StmtKind {
    /// `let p: T = e;`
    Let { pat: Pattern, ty: Option<TypeSpec>, value: Expr },
    /// `x = e;` rebinds `x`.
    Assign { name: String, value: Expr },
    Expr(Expr),
    /// An assignment to something that is not a binding.
    Error,
}

/// A pattern.
#[derive(Debug, PartialEq)]
pub struct Pattern {
    pub kind: PatternKind,
    pub span: Span,
    pub id: ExprId,
}

/// What a pattern says.
#[derive(Debug, PartialEq)]
pub enum PatternKind {
    Wildcard,
    /// `is T`
    Is(TypeSpec),
    /// `Point { x, y: p, .. }`
    Record { path: Option<Vec<String>>, fields: Vec<FieldPat>, rest: bool },
    Tuple(Vec<Pattern>),
    Literal(Box<Expr>),
    Bind(String),
}

/// `x` binds the field to its own name; `x: p` matches it against `p`.
#[derive(Debug, PartialEq)]
pub struct FieldPat {
    pub name: String,
    pub pat: Option<Pattern>,
    pub span: Span,
}

/// A file, or the inside of a `mod`.
#[derive(Debug, PartialEq)]
pub struct Module {
    pub decls: Vec<Decl>,
}

/// A declaration.
#[derive(Debug, PartialEq)]
pub struct Decl {
    pub kind: DeclKind,
    pub span: Span,
}

/// What a declaration declares.
#[derive(Debug, PartialEq)]
pub enum DeclKind {
    Fn(FnDecl),
    Record(RecordDecl),
    Protocol(ProtocolDecl),
    Impl(ImplDecl),
    TypeAlias(AliasDecl),
    MuType(AliasDecl),
    Newtype(AliasDecl),
    Use(UseDecl),
    Mod(ModDecl),
    Const(ConstDecl),
    TestBlock(TestBlock),
    /// A declaration that could not be read.
    Error,
}

/// `@name` or `@name("..")`
#[derive(Debug, PartialEq)]
pub struct Annotation {
    pub name: String,
    /// The text, where that is what is written.
    pub arg: Option<String>,
    /// All arguments. Source text writes one text at most; items come from elsewhere.
    pub args: Vec<AnnArg>,
    pub span: Span,
}

/// An argument of an annotation.
#[derive(Debug, PartialEq)]
pub enum AnnArg {
    Text(String),
    /// `a::b` or `a::b(..)`
    Item { path: Vec<String>, args: Vec<AnnArg> },
}

/// A parameter of a function.
#[derive(Debug, PartialEq)]
pub struct Param {
    pub name: String,
    pub ty: TypeSpec,
    pub span: Span,
}

/// `T: Bound`
#[derive(Debug, PartialEq)]
pub struct WhereClause {
    pub param: String,
    pub bound: TypeSpec,
}

/// A function. A native one, or a method of a protocol, may have no body.
#[derive(Debug, PartialEq)]
pub struct FnDecl {
    pub name: String,
    pub generics: Vec<String>,
    pub params: Vec<Param>,
    pub throws: Option<TypeSpec>,
    pub ret: Option<TypeSpec>,
    pub wheres: Vec<WhereClause>,
    pub body: Option<Block>,
    pub annotations: Vec<Annotation>,
}

#[derive(Debug, PartialEq)]
pub struct RecordDecl {
    pub name: String,
    pub generics: Vec<String>,
    pub opaque: bool,
    pub fields: Vec<Field>,
    pub annotations: Vec<Annotation>,
}

/// `protocol P for T`, or `for C[_]` with the number of holes.
#[derive(Debug, PartialEq)]
pub struct ProtocolDecl {
    pub name: String,
    pub subject: String,
    pub subject_arity: usize,
    pub wheres: Vec<WhereClause>,
    pub methods: Vec<FnDecl>,
}

#[derive(Debug, PartialEq)]
pub struct ImplDecl {
    pub protocol: Vec<String>,
    pub generics: Vec<String>,
    pub target: TypeSpec,
    pub methods: Vec<FnDecl>,
}

/// The shape that `type`, `mu type` and `newtype` share.
#[derive(Debug, PartialEq)]
pub struct AliasDecl {
    pub name: String,
    pub generics: Vec<String>,
    pub value: TypeSpec,
}

#[derive(Debug, PartialEq)]
pub struct UseDecl {
    pub tree: UseTree,
    pub span: Span,
}

/// What a `use` brings in.
#[derive(Debug, PartialEq)]
pub enum UseTree {
    /// `a::b` and `a::b as c`
    Leaf { path: Vec<String>, alias: Option<String> },
    /// `a::*`
    Glob { prefix: Vec<String> },
    /// `a::{ .. }`, its children relative to the prefix
    Group { prefix: Vec<String>, children: Vec<UseTree> },
}

#[derive(Debug, PartialEq)]
pub struct ModDecl {
    pub name: String,
    pub internal: bool,
    pub decls: Vec<Decl>,
}

#[derive(Debug, PartialEq)]
pub struct ConstDecl {
    pub name: String,
    pub ty: Option<TypeSpec>,
    pub value: Expr,
}

#[derive(Debug, PartialEq)]
pub struct TestBlock {
    pub kind: TestKind,
    pub name: String,
    pub body: Block,
}

} // verus!
