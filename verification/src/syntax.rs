//! Syntax trees as mathematical values: the types of [`crate::ast`] with sequences in
//! place of vectors and strings.
//!
//! Each type `T` there has its counterpart `ST` here, and a function from one to the other.

use crate::ast::{
    AssertKind, BinOp, CastForm, TestKind, TryForm, UnOp, AliasDecl, AnnArg, Annotation, Block,
    CatchArm, ConstDecl, Decl, DeclKind, Elem, Expr, ExprId, ExprKind, Field, FieldInit, FieldPat,
    FnDecl, ImplDecl, LambdaParam, MatchArm, ModDecl, Module, Param, Pattern, PatternKind,
    ProtocolDecl, RecordDecl, Stmt, StmtKind, StrPart, TestBlock, TypeSpec, TypeSpecKind, UseDecl,
    UseTree, WhereClause,
};
use crate::lexer::Span;
use vstd::prelude::*;

verus! {

/// A tree with a mathematical counterpart.
pub trait Node {
    type V;

    spec fn sem(&self) -> Self::V;
}

impl Node for String {
    type V = Seq<char>;

    open spec fn sem(&self) -> Seq<char> {
        self@
    }
}

impl Node for usize {
    type V = usize;

    open spec fn sem(&self) -> usize {
        *self
    }
}

impl<T: Node> Node for Option<T> {
    type V = Option<T::V>;

    open spec fn sem(&self) -> Option<T::V> {
        match *self {
            Some(x) => Some(x.sem()),
            None => None,
        }
    }
}

impl<T: Node> Node for Box<T> {
    type V = Box<T::V>;

    open spec fn sem(&self) -> Box<T::V> {
        Box::new((**self).sem())
    }
}

impl<T: Node> Node for Vec<T> {
    type V = Seq<T::V>;

    open spec fn sem(&self) -> Seq<T::V> {
        sems(self@)
    }
}

/// The counterparts of a run of trees.
pub open spec fn sems<T: Node>(s: Seq<T>) -> Seq<T::V> {
    Seq::new(s.len(), |i: int| s[i].sem())
}

/// The characters of a run of names.
pub open spec fn names_of(s: Seq<String>) -> Seq<Seq<char>> {
    s.map_values(|x: String| x@)
}

pub open spec fn opt_name_of(x: Option<String>) -> Option<Seq<char>> {
    match x {
        Some(s) => Some(s@),
        None => None,
    }
}

pub open spec fn opt_names_of(x: Option<Vec<String>>) -> Option<Seq<Seq<char>>> {
    match x {
        Some(v) => Some(names_of(v@)),
        None => None,
    }
}

pub struct STypeSpec {
    pub kind: STypeSpecKind,
    pub span: Span,
}

pub enum STypeSpecKind {
    Named { path: Seq<Seq<char>>, args: Seq<STypeSpec> },
    Struct(Seq<SField>),
    Fn { params: Seq<STypeSpec>, throws: Option<Box<STypeSpec>>, ret: Box<STypeSpec> },
    Tuple(Seq<STypeSpec>),
    Atom(Seq<char>),
    Null,
    Any,
    Negate(Box<STypeSpec>),
    Intersect(Seq<STypeSpec>),
    Union(Seq<STypeSpec>),
}

pub struct SField {
    pub name: Seq<char>,
    pub ty: STypeSpec,
    pub span: Span,
}

pub struct SExpr {
    pub kind: SExprKind,
    pub span: Span,
    pub id: ExprId,
}

pub enum SExprKind {
    Int(u64),
    Float(Seq<char>),
    Rune(char),
    Atom(Seq<char>),
    Bool(bool),
    Null,
    Str(Seq<SStrPart>),
    Path(Seq<Seq<char>>),
    Tuple(Seq<SExpr>),
    List(Seq<SElem>),
    RecordLit { path: Option<Seq<Seq<char>>>, fields: Seq<SFieldInit>, spread: Option<Box<SExpr>> },
    Lambda { params: Seq<SLambdaParam>, body: Box<SExpr> },
    Unary { op: UnOp, rhs: Box<SExpr> },
    Binary { op: BinOp, lhs: Box<SExpr>, rhs: Box<SExpr> },
    Call { callee: Box<SExpr>, generics: Seq<STypeSpec>, args: Seq<SExpr> },
    Index { base: Box<SExpr>, index: Box<SExpr> },
    Field { base: Box<SExpr>, name: Seq<char> },
    Is { lhs: Box<SExpr>, ty: STypeSpec },
    As { form: CastForm, lhs: Box<SExpr>, ty: STypeSpec },
    If { cond: Box<SExpr>, then: SBlock, else_: Option<Box<SExpr>> },
    Match { scrutinee: Box<SExpr>, arms: Seq<SMatchArm> },
    Loop { body: SBlock },
    While { cond: Box<SExpr>, body: SBlock },
    For { pat: SPattern, iter: Box<SExpr>, body: SBlock },
    Block(SBlock),
    Break(Option<Box<SExpr>>),
    Continue,
    Return(Option<Box<SExpr>>),
    Throw(Box<SExpr>),
    Try { form: TryForm, body: Box<SExpr>, catch: Option<SCatchArm> },
    Assert { kind: AssertKind, args: Seq<SExpr> },
}

pub enum SStrPart {
    Text(Seq<char>),
    Interp(SExpr),
}

pub enum SElem {
    Value(SExpr),
    Spread(SExpr),
}

pub struct SFieldInit {
    pub name: Seq<char>,
    pub value: SExpr,
    pub span: Span,
}

pub struct SLambdaParam {
    pub name: Seq<char>,
    pub ty: Option<STypeSpec>,
}

pub struct SMatchArm {
    pub pat: SPattern,
    pub guard: Option<SExpr>,
    pub body: SExpr,
    pub span: Span,
}

pub struct SCatchArm {
    pub binding: Seq<char>,
    pub body: SBlock,
    pub span: Span,
}

pub struct SBlock {
    pub stmts: Seq<SStmt>,
    pub tail: Option<Box<SExpr>>,
    pub span: Span,
}

pub struct SStmt {
    pub kind: SStmtKind,
    pub span: Span,
}

pub enum SStmtKind {
    Let { pat: SPattern, ty: Option<STypeSpec>, value: SExpr },
    Assign { name: Seq<char>, value: SExpr },
    Expr(SExpr),
    Error,
}

pub struct SPattern {
    pub kind: SPatternKind,
    pub span: Span,
    pub id: ExprId,
}

pub enum SPatternKind {
    Wildcard,
    Is(STypeSpec),
    Record { path: Option<Seq<Seq<char>>>, fields: Seq<SFieldPat>, rest: bool },
    Tuple(Seq<SPattern>),
    Literal(Box<SExpr>),
    Bind(Seq<char>),
}

pub struct SFieldPat {
    pub name: Seq<char>,
    pub pat: Option<SPattern>,
    pub span: Span,
}

pub struct SModule {
    pub decls: Seq<SDecl>,
}

pub struct SDecl {
    pub kind: SDeclKind,
    pub span: Span,
}

pub enum SDeclKind {
    Fn(SFnDecl),
    Record(SRecordDecl),
    Protocol(SProtocolDecl),
    Impl(SImplDecl),
    TypeAlias(SAliasDecl),
    MuType(SAliasDecl),
    Newtype(SAliasDecl),
    Use(SUseDecl),
    Mod(SModDecl),
    Const(SConstDecl),
    TestBlock(STestBlock),
    Error,
}

pub struct SAnnotation {
    pub name: Seq<char>,
    pub arg: Option<Seq<char>>,
    pub args: Seq<SAnnArg>,
    pub span: Span,
}

pub enum SAnnArg {
    Text(Seq<char>),
    Item { path: Seq<Seq<char>>, args: Seq<SAnnArg> },
}

pub struct SParam {
    pub name: Seq<char>,
    pub ty: STypeSpec,
    pub span: Span,
}

pub struct SWhereClause {
    pub param: Seq<char>,
    pub bound: STypeSpec,
}

pub struct SFnDecl {
    pub name: Seq<char>,
    pub generics: Seq<Seq<char>>,
    pub params: Seq<SParam>,
    pub throws: Option<STypeSpec>,
    pub ret: Option<STypeSpec>,
    pub wheres: Seq<SWhereClause>,
    pub body: Option<SBlock>,
    pub annotations: Seq<SAnnotation>,
}

pub struct SRecordDecl {
    pub name: Seq<char>,
    pub generics: Seq<Seq<char>>,
    pub opaque: bool,
    pub fields: Seq<SField>,
    pub annotations: Seq<SAnnotation>,
}

pub struct SProtocolDecl {
    pub name: Seq<char>,
    pub subject: Seq<char>,
    pub subject_arity: usize,
    pub wheres: Seq<SWhereClause>,
    pub methods: Seq<SFnDecl>,
}

pub struct SImplDecl {
    pub protocol: Seq<Seq<char>>,
    pub generics: Seq<Seq<char>>,
    pub target: STypeSpec,
    pub methods: Seq<SFnDecl>,
}

pub struct SAliasDecl {
    pub name: Seq<char>,
    pub generics: Seq<Seq<char>>,
    pub value: STypeSpec,
}

pub struct SUseDecl {
    pub tree: SUseTree,
    pub span: Span,
}

pub enum SUseTree {
    Leaf { path: Seq<Seq<char>>, alias: Option<Seq<char>> },
    Glob { prefix: Seq<Seq<char>> },
    Group { prefix: Seq<Seq<char>>, children: Seq<SUseTree> },
}

pub struct SModDecl {
    pub name: Seq<char>,
    pub internal: bool,
    pub decls: Seq<SDecl>,
}

pub struct SConstDecl {
    pub name: Seq<char>,
    pub ty: Option<STypeSpec>,
    pub value: SExpr,
}

pub struct STestBlock {
    pub kind: TestKind,
    pub name: Seq<char>,
    pub body: SBlock,
}

pub open spec fn type_spec_of(x: TypeSpec) -> STypeSpec
    decreases x,
{
    STypeSpec {
        kind: type_spec_kind_of(x.kind),
        span: x.span,
    }
}

pub open spec fn type_spec_kind_of(x: TypeSpecKind) -> STypeSpecKind
    decreases x,
{
    match x {
        TypeSpecKind::Named { path, args } => STypeSpecKind::Named { path: names_of(path@), args: type_specs_of(args@) },
        TypeSpecKind::Struct(a) => STypeSpecKind::Struct(fields_of(a@)),
        TypeSpecKind::Fn { params, throws, ret } => STypeSpecKind::Fn { params: type_specs_of(params@), throws: match throws { Some(x) => Some(Box::new(type_spec_of(*x))), None => None }, ret: Box::new(type_spec_of(*ret)) },
        TypeSpecKind::Tuple(a) => STypeSpecKind::Tuple(type_specs_of(a@)),
        TypeSpecKind::Atom(a) => STypeSpecKind::Atom(a@),
        TypeSpecKind::Null => STypeSpecKind::Null,
        TypeSpecKind::Any => STypeSpecKind::Any,
        TypeSpecKind::Negate(a) => STypeSpecKind::Negate(Box::new(type_spec_of(*a))),
        TypeSpecKind::Intersect(a) => STypeSpecKind::Intersect(type_specs_of(a@)),
        TypeSpecKind::Union(a) => STypeSpecKind::Union(type_specs_of(a@)),
    }
}

pub open spec fn field_of(x: Field) -> SField
    decreases x,
{
    SField {
        name: x.name@,
        ty: type_spec_of(x.ty),
        span: x.span,
    }
}

pub open spec fn expr_of(x: Expr) -> SExpr
    decreases x,
{
    SExpr {
        kind: expr_kind_of(x.kind),
        span: x.span,
        id: x.id,
    }
}

pub open spec fn expr_kind_of(x: ExprKind) -> SExprKind
    decreases x,
{
    match x {
        ExprKind::Int(a) => SExprKind::Int(a),
        ExprKind::Float(a) => SExprKind::Float(a@),
        ExprKind::Rune(a) => SExprKind::Rune(a),
        ExprKind::Atom(a) => SExprKind::Atom(a@),
        ExprKind::Bool(a) => SExprKind::Bool(a),
        ExprKind::Null => SExprKind::Null,
        ExprKind::Str(a) => SExprKind::Str(str_parts_of(a@)),
        ExprKind::Path(a) => SExprKind::Path(names_of(a@)),
        ExprKind::Tuple(a) => SExprKind::Tuple(exprs_of(a@)),
        ExprKind::List(a) => SExprKind::List(elems_of(a@)),
        ExprKind::RecordLit { path, fields, spread } => SExprKind::RecordLit { path: opt_names_of(path), fields: field_inits_of(fields@), spread: match spread { Some(x) => Some(Box::new(expr_of(*x))), None => None } },
        ExprKind::Lambda { params, body } => SExprKind::Lambda { params: lambda_params_of(params@), body: Box::new(expr_of(*body)) },
        ExprKind::Unary { op, rhs } => SExprKind::Unary { op: op, rhs: Box::new(expr_of(*rhs)) },
        ExprKind::Binary { op, lhs, rhs } => SExprKind::Binary { op: op, lhs: Box::new(expr_of(*lhs)), rhs: Box::new(expr_of(*rhs)) },
        ExprKind::Call { callee, generics, args } => SExprKind::Call { callee: Box::new(expr_of(*callee)), generics: type_specs_of(generics@), args: exprs_of(args@) },
        ExprKind::Index { base, index } => SExprKind::Index { base: Box::new(expr_of(*base)), index: Box::new(expr_of(*index)) },
        ExprKind::Field { base, name } => SExprKind::Field { base: Box::new(expr_of(*base)), name: name@ },
        ExprKind::Is { lhs, ty } => SExprKind::Is { lhs: Box::new(expr_of(*lhs)), ty: type_spec_of(ty) },
        ExprKind::As { form, lhs, ty } => SExprKind::As { form: form, lhs: Box::new(expr_of(*lhs)), ty: type_spec_of(ty) },
        ExprKind::If { cond, then, else_ } => SExprKind::If { cond: Box::new(expr_of(*cond)), then: block_of(then), else_: match else_ { Some(x) => Some(Box::new(expr_of(*x))), None => None } },
        ExprKind::Match { scrutinee, arms } => SExprKind::Match { scrutinee: Box::new(expr_of(*scrutinee)), arms: match_arms_of(arms@) },
        ExprKind::Loop { body } => SExprKind::Loop { body: block_of(body) },
        ExprKind::While { cond, body } => SExprKind::While { cond: Box::new(expr_of(*cond)), body: block_of(body) },
        ExprKind::For { pat, iter, body } => SExprKind::For { pat: pattern_of(pat), iter: Box::new(expr_of(*iter)), body: block_of(body) },
        ExprKind::Block(a) => SExprKind::Block(block_of(a)),
        ExprKind::Break(a) => SExprKind::Break(match a { Some(x) => Some(Box::new(expr_of(*x))), None => None }),
        ExprKind::Continue => SExprKind::Continue,
        ExprKind::Return(a) => SExprKind::Return(match a { Some(x) => Some(Box::new(expr_of(*x))), None => None }),
        ExprKind::Throw(a) => SExprKind::Throw(Box::new(expr_of(*a))),
        ExprKind::Try { form, body, catch } => SExprKind::Try { form: form, body: Box::new(expr_of(*body)), catch: match catch { Some(x) => Some(catch_arm_of(x)), None => None } },
        ExprKind::Assert { kind, args } => SExprKind::Assert { kind: kind, args: exprs_of(args@) },
    }
}

pub open spec fn str_part_of(x: StrPart) -> SStrPart
    decreases x,
{
    match x {
        StrPart::Text(a) => SStrPart::Text(a@),
        StrPart::Interp(a) => SStrPart::Interp(expr_of(a)),
    }
}

pub open spec fn elem_of(x: Elem) -> SElem
    decreases x,
{
    match x {
        Elem::Value(a) => SElem::Value(expr_of(a)),
        Elem::Spread(a) => SElem::Spread(expr_of(a)),
    }
}

pub open spec fn field_init_of(x: FieldInit) -> SFieldInit
    decreases x,
{
    SFieldInit {
        name: x.name@,
        value: expr_of(x.value),
        span: x.span,
    }
}

pub open spec fn lambda_param_of(x: LambdaParam) -> SLambdaParam
    decreases x,
{
    SLambdaParam {
        name: x.name@,
        ty: match x.ty { Some(x) => Some(type_spec_of(x)), None => None },
    }
}

pub open spec fn match_arm_of(x: MatchArm) -> SMatchArm
    decreases x,
{
    SMatchArm {
        pat: pattern_of(x.pat),
        guard: match x.guard { Some(x) => Some(expr_of(x)), None => None },
        body: expr_of(x.body),
        span: x.span,
    }
}

pub open spec fn catch_arm_of(x: CatchArm) -> SCatchArm
    decreases x,
{
    SCatchArm {
        binding: x.binding@,
        body: block_of(x.body),
        span: x.span,
    }
}

pub open spec fn block_of(x: Block) -> SBlock
    decreases x,
{
    SBlock {
        stmts: stmts_of(x.stmts@),
        tail: match x.tail { Some(x) => Some(Box::new(expr_of(*x))), None => None },
        span: x.span,
    }
}

pub open spec fn stmt_of(x: Stmt) -> SStmt
    decreases x,
{
    SStmt {
        kind: stmt_kind_of(x.kind),
        span: x.span,
    }
}

pub open spec fn stmt_kind_of(x: StmtKind) -> SStmtKind
    decreases x,
{
    match x {
        StmtKind::Let { pat, ty, value } => SStmtKind::Let { pat: pattern_of(pat), ty: match ty { Some(x) => Some(type_spec_of(x)), None => None }, value: expr_of(value) },
        StmtKind::Assign { name, value } => SStmtKind::Assign { name: name@, value: expr_of(value) },
        StmtKind::Expr(a) => SStmtKind::Expr(expr_of(a)),
        StmtKind::Error => SStmtKind::Error,
    }
}

pub open spec fn pattern_of(x: Pattern) -> SPattern
    decreases x,
{
    SPattern {
        kind: pattern_kind_of(x.kind),
        span: x.span,
        id: x.id,
    }
}

pub open spec fn pattern_kind_of(x: PatternKind) -> SPatternKind
    decreases x,
{
    match x {
        PatternKind::Wildcard => SPatternKind::Wildcard,
        PatternKind::Is(a) => SPatternKind::Is(type_spec_of(a)),
        PatternKind::Record { path, fields, rest } => SPatternKind::Record { path: opt_names_of(path), fields: field_pats_of(fields@), rest: rest },
        PatternKind::Tuple(a) => SPatternKind::Tuple(patterns_of(a@)),
        PatternKind::Literal(a) => SPatternKind::Literal(Box::new(expr_of(*a))),
        PatternKind::Bind(a) => SPatternKind::Bind(a@),
    }
}

pub open spec fn field_pat_of(x: FieldPat) -> SFieldPat
    decreases x,
{
    SFieldPat {
        name: x.name@,
        pat: match x.pat { Some(x) => Some(pattern_of(x)), None => None },
        span: x.span,
    }
}

pub open spec fn module_of(x: Module) -> SModule
    decreases x,
{
    SModule {
        decls: decls_of(x.decls@),
    }
}

pub open spec fn decl_of(x: Decl) -> SDecl
    decreases x,
{
    SDecl {
        kind: decl_kind_of(x.kind),
        span: x.span,
    }
}

pub open spec fn decl_kind_of(x: DeclKind) -> SDeclKind
    decreases x,
{
    match x {
        DeclKind::Fn(a) => SDeclKind::Fn(fn_decl_of(a)),
        DeclKind::Record(a) => SDeclKind::Record(record_decl_of(a)),
        DeclKind::Protocol(a) => SDeclKind::Protocol(protocol_decl_of(a)),
        DeclKind::Impl(a) => SDeclKind::Impl(impl_decl_of(a)),
        DeclKind::TypeAlias(a) => SDeclKind::TypeAlias(alias_decl_of(a)),
        DeclKind::MuType(a) => SDeclKind::MuType(alias_decl_of(a)),
        DeclKind::Newtype(a) => SDeclKind::Newtype(alias_decl_of(a)),
        DeclKind::Use(a) => SDeclKind::Use(use_decl_of(a)),
        DeclKind::Mod(a) => SDeclKind::Mod(mod_decl_of(a)),
        DeclKind::Const(a) => SDeclKind::Const(const_decl_of(a)),
        DeclKind::TestBlock(a) => SDeclKind::TestBlock(test_block_of(a)),
        DeclKind::Error => SDeclKind::Error,
    }
}

pub open spec fn annotation_of(x: Annotation) -> SAnnotation
    decreases x,
{
    SAnnotation {
        name: x.name@,
        arg: opt_name_of(x.arg),
        args: ann_args_of(x.args@),
        span: x.span,
    }
}

pub open spec fn ann_arg_of(x: AnnArg) -> SAnnArg
    decreases x,
{
    match x {
        AnnArg::Text(t) => SAnnArg::Text(t@),
        AnnArg::Item { path, args } => SAnnArg::Item {
            path: names_of(path@),
            args: ann_args_of(args@),
        },
    }
}

pub open spec fn ann_args_of(s: Seq<AnnArg>) -> Seq<SAnnArg>
    decreases s,
{
    Seq::new(
        s.len(),
        |i: int|
            if 0 <= i < s.len() {
                ann_arg_of(s[i])
            } else {
                arbitrary()
            },
    )
}

pub open spec fn param_of(x: Param) -> SParam
    decreases x,
{
    SParam {
        name: x.name@,
        ty: type_spec_of(x.ty),
        span: x.span,
    }
}

pub open spec fn where_clause_of(x: WhereClause) -> SWhereClause
    decreases x,
{
    SWhereClause {
        param: x.param@,
        bound: type_spec_of(x.bound),
    }
}

pub open spec fn fn_decl_of(x: FnDecl) -> SFnDecl
    decreases x,
{
    SFnDecl {
        name: x.name@,
        generics: names_of(x.generics@),
        params: params_of(x.params@),
        throws: match x.throws { Some(x) => Some(type_spec_of(x)), None => None },
        ret: match x.ret { Some(x) => Some(type_spec_of(x)), None => None },
        wheres: where_clauses_of(x.wheres@),
        body: match x.body { Some(x) => Some(block_of(x)), None => None },
        annotations: annotations_of(x.annotations@),
    }
}

pub open spec fn record_decl_of(x: RecordDecl) -> SRecordDecl
    decreases x,
{
    SRecordDecl {
        name: x.name@,
        generics: names_of(x.generics@),
        opaque: x.opaque,
        fields: fields_of(x.fields@),
        annotations: annotations_of(x.annotations@),
    }
}

pub open spec fn protocol_decl_of(x: ProtocolDecl) -> SProtocolDecl
    decreases x,
{
    SProtocolDecl {
        name: x.name@,
        subject: x.subject@,
        subject_arity: x.subject_arity,
        wheres: where_clauses_of(x.wheres@),
        methods: fn_decls_of(x.methods@),
    }
}

pub open spec fn impl_decl_of(x: ImplDecl) -> SImplDecl
    decreases x,
{
    SImplDecl {
        protocol: names_of(x.protocol@),
        generics: names_of(x.generics@),
        target: type_spec_of(x.target),
        methods: fn_decls_of(x.methods@),
    }
}

pub open spec fn alias_decl_of(x: AliasDecl) -> SAliasDecl
    decreases x,
{
    SAliasDecl {
        name: x.name@,
        generics: names_of(x.generics@),
        value: type_spec_of(x.value),
    }
}

pub open spec fn use_decl_of(x: UseDecl) -> SUseDecl
    decreases x,
{
    SUseDecl {
        tree: use_tree_of(x.tree),
        span: x.span,
    }
}

pub open spec fn use_tree_of(x: UseTree) -> SUseTree
    decreases x,
{
    match x {
        UseTree::Leaf { path, alias } => SUseTree::Leaf { path: names_of(path@), alias: opt_name_of(alias) },
        UseTree::Glob { prefix } => SUseTree::Glob { prefix: names_of(prefix@) },
        UseTree::Group { prefix, children } => SUseTree::Group { prefix: names_of(prefix@), children: use_trees_of(children@) },
    }
}

pub open spec fn mod_decl_of(x: ModDecl) -> SModDecl
    decreases x,
{
    SModDecl {
        name: x.name@,
        internal: x.internal,
        decls: decls_of(x.decls@),
    }
}

pub open spec fn const_decl_of(x: ConstDecl) -> SConstDecl
    decreases x,
{
    SConstDecl {
        name: x.name@,
        ty: match x.ty { Some(x) => Some(type_spec_of(x)), None => None },
        value: expr_of(x.value),
    }
}

pub open spec fn test_block_of(x: TestBlock) -> STestBlock
    decreases x,
{
    STestBlock {
        kind: x.kind,
        name: x.name@,
        body: block_of(x.body),
    }
}

pub open spec fn type_specs_of(s: Seq<TypeSpec>) -> Seq<STypeSpec>
    decreases s,
{
    Seq::new(
        s.len(),
        |i: int|
            if 0 <= i < s.len() {
                type_spec_of(s[i])
            } else {
                arbitrary()
            },
    )
}

pub open spec fn fields_of(s: Seq<Field>) -> Seq<SField>
    decreases s,
{
    Seq::new(
        s.len(),
        |i: int|
            if 0 <= i < s.len() {
                field_of(s[i])
            } else {
                arbitrary()
            },
    )
}

pub open spec fn exprs_of(s: Seq<Expr>) -> Seq<SExpr>
    decreases s,
{
    Seq::new(
        s.len(),
        |i: int|
            if 0 <= i < s.len() {
                expr_of(s[i])
            } else {
                arbitrary()
            },
    )
}

pub open spec fn str_parts_of(s: Seq<StrPart>) -> Seq<SStrPart>
    decreases s,
{
    Seq::new(
        s.len(),
        |i: int|
            if 0 <= i < s.len() {
                str_part_of(s[i])
            } else {
                arbitrary()
            },
    )
}

pub open spec fn elems_of(s: Seq<Elem>) -> Seq<SElem>
    decreases s,
{
    Seq::new(
        s.len(),
        |i: int|
            if 0 <= i < s.len() {
                elem_of(s[i])
            } else {
                arbitrary()
            },
    )
}

pub open spec fn field_inits_of(s: Seq<FieldInit>) -> Seq<SFieldInit>
    decreases s,
{
    Seq::new(
        s.len(),
        |i: int|
            if 0 <= i < s.len() {
                field_init_of(s[i])
            } else {
                arbitrary()
            },
    )
}

pub open spec fn lambda_params_of(s: Seq<LambdaParam>) -> Seq<SLambdaParam>
    decreases s,
{
    Seq::new(
        s.len(),
        |i: int|
            if 0 <= i < s.len() {
                lambda_param_of(s[i])
            } else {
                arbitrary()
            },
    )
}

pub open spec fn match_arms_of(s: Seq<MatchArm>) -> Seq<SMatchArm>
    decreases s,
{
    Seq::new(
        s.len(),
        |i: int|
            if 0 <= i < s.len() {
                match_arm_of(s[i])
            } else {
                arbitrary()
            },
    )
}

pub open spec fn stmts_of(s: Seq<Stmt>) -> Seq<SStmt>
    decreases s,
{
    Seq::new(
        s.len(),
        |i: int|
            if 0 <= i < s.len() {
                stmt_of(s[i])
            } else {
                arbitrary()
            },
    )
}

pub open spec fn patterns_of(s: Seq<Pattern>) -> Seq<SPattern>
    decreases s,
{
    Seq::new(
        s.len(),
        |i: int|
            if 0 <= i < s.len() {
                pattern_of(s[i])
            } else {
                arbitrary()
            },
    )
}

pub open spec fn field_pats_of(s: Seq<FieldPat>) -> Seq<SFieldPat>
    decreases s,
{
    Seq::new(
        s.len(),
        |i: int|
            if 0 <= i < s.len() {
                field_pat_of(s[i])
            } else {
                arbitrary()
            },
    )
}

pub open spec fn decls_of(s: Seq<Decl>) -> Seq<SDecl>
    decreases s,
{
    Seq::new(
        s.len(),
        |i: int|
            if 0 <= i < s.len() {
                decl_of(s[i])
            } else {
                arbitrary()
            },
    )
}

pub open spec fn annotations_of(s: Seq<Annotation>) -> Seq<SAnnotation>
    decreases s,
{
    Seq::new(
        s.len(),
        |i: int|
            if 0 <= i < s.len() {
                annotation_of(s[i])
            } else {
                arbitrary()
            },
    )
}

pub open spec fn params_of(s: Seq<Param>) -> Seq<SParam>
    decreases s,
{
    Seq::new(
        s.len(),
        |i: int|
            if 0 <= i < s.len() {
                param_of(s[i])
            } else {
                arbitrary()
            },
    )
}

pub open spec fn where_clauses_of(s: Seq<WhereClause>) -> Seq<SWhereClause>
    decreases s,
{
    Seq::new(
        s.len(),
        |i: int|
            if 0 <= i < s.len() {
                where_clause_of(s[i])
            } else {
                arbitrary()
            },
    )
}

pub open spec fn fn_decls_of(s: Seq<FnDecl>) -> Seq<SFnDecl>
    decreases s,
{
    Seq::new(
        s.len(),
        |i: int|
            if 0 <= i < s.len() {
                fn_decl_of(s[i])
            } else {
                arbitrary()
            },
    )
}

pub open spec fn use_trees_of(s: Seq<UseTree>) -> Seq<SUseTree>
    decreases s,
{
    Seq::new(
        s.len(),
        |i: int|
            if 0 <= i < s.len() {
                use_tree_of(s[i])
            } else {
                arbitrary()
            },
    )
}

impl Node for TypeSpec {
    type V = STypeSpec;

    open spec fn sem(&self) -> STypeSpec {
        type_spec_of(*self)
    }
}

impl Node for TypeSpecKind {
    type V = STypeSpecKind;

    open spec fn sem(&self) -> STypeSpecKind {
        type_spec_kind_of(*self)
    }
}

impl Node for Field {
    type V = SField;

    open spec fn sem(&self) -> SField {
        field_of(*self)
    }
}

impl Node for Expr {
    type V = SExpr;

    open spec fn sem(&self) -> SExpr {
        expr_of(*self)
    }
}

impl Node for ExprKind {
    type V = SExprKind;

    open spec fn sem(&self) -> SExprKind {
        expr_kind_of(*self)
    }
}

impl Node for StrPart {
    type V = SStrPart;

    open spec fn sem(&self) -> SStrPart {
        str_part_of(*self)
    }
}

impl Node for Elem {
    type V = SElem;

    open spec fn sem(&self) -> SElem {
        elem_of(*self)
    }
}

impl Node for FieldInit {
    type V = SFieldInit;

    open spec fn sem(&self) -> SFieldInit {
        field_init_of(*self)
    }
}

impl Node for LambdaParam {
    type V = SLambdaParam;

    open spec fn sem(&self) -> SLambdaParam {
        lambda_param_of(*self)
    }
}

impl Node for MatchArm {
    type V = SMatchArm;

    open spec fn sem(&self) -> SMatchArm {
        match_arm_of(*self)
    }
}

impl Node for CatchArm {
    type V = SCatchArm;

    open spec fn sem(&self) -> SCatchArm {
        catch_arm_of(*self)
    }
}

impl Node for Block {
    type V = SBlock;

    open spec fn sem(&self) -> SBlock {
        block_of(*self)
    }
}

impl Node for Stmt {
    type V = SStmt;

    open spec fn sem(&self) -> SStmt {
        stmt_of(*self)
    }
}

impl Node for StmtKind {
    type V = SStmtKind;

    open spec fn sem(&self) -> SStmtKind {
        stmt_kind_of(*self)
    }
}

impl Node for Pattern {
    type V = SPattern;

    open spec fn sem(&self) -> SPattern {
        pattern_of(*self)
    }
}

impl Node for PatternKind {
    type V = SPatternKind;

    open spec fn sem(&self) -> SPatternKind {
        pattern_kind_of(*self)
    }
}

impl Node for FieldPat {
    type V = SFieldPat;

    open spec fn sem(&self) -> SFieldPat {
        field_pat_of(*self)
    }
}

impl Node for Module {
    type V = SModule;

    open spec fn sem(&self) -> SModule {
        module_of(*self)
    }
}

impl Node for Decl {
    type V = SDecl;

    open spec fn sem(&self) -> SDecl {
        decl_of(*self)
    }
}

impl Node for DeclKind {
    type V = SDeclKind;

    open spec fn sem(&self) -> SDeclKind {
        decl_kind_of(*self)
    }
}

impl Node for Annotation {
    type V = SAnnotation;

    open spec fn sem(&self) -> SAnnotation {
        annotation_of(*self)
    }
}

impl Node for Param {
    type V = SParam;

    open spec fn sem(&self) -> SParam {
        param_of(*self)
    }
}

impl Node for WhereClause {
    type V = SWhereClause;

    open spec fn sem(&self) -> SWhereClause {
        where_clause_of(*self)
    }
}

impl Node for FnDecl {
    type V = SFnDecl;

    open spec fn sem(&self) -> SFnDecl {
        fn_decl_of(*self)
    }
}

impl Node for RecordDecl {
    type V = SRecordDecl;

    open spec fn sem(&self) -> SRecordDecl {
        record_decl_of(*self)
    }
}

impl Node for ProtocolDecl {
    type V = SProtocolDecl;

    open spec fn sem(&self) -> SProtocolDecl {
        protocol_decl_of(*self)
    }
}

impl Node for ImplDecl {
    type V = SImplDecl;

    open spec fn sem(&self) -> SImplDecl {
        impl_decl_of(*self)
    }
}

impl Node for AliasDecl {
    type V = SAliasDecl;

    open spec fn sem(&self) -> SAliasDecl {
        alias_decl_of(*self)
    }
}

impl Node for UseDecl {
    type V = SUseDecl;

    open spec fn sem(&self) -> SUseDecl {
        use_decl_of(*self)
    }
}

impl Node for UseTree {
    type V = SUseTree;

    open spec fn sem(&self) -> SUseTree {
        use_tree_of(*self)
    }
}

impl Node for ModDecl {
    type V = SModDecl;

    open spec fn sem(&self) -> SModDecl {
        mod_decl_of(*self)
    }
}

impl Node for ConstDecl {
    type V = SConstDecl;

    open spec fn sem(&self) -> SConstDecl {
        const_decl_of(*self)
    }
}

impl Node for TestBlock {
    type V = STestBlock;

    open spec fn sem(&self) -> STestBlock {
        test_block_of(*self)
    }
}

pub broadcast proof fn lemma_type_specs_of(s: Seq<TypeSpec>)
    ensures
        #[trigger] type_specs_of(s) == sems(s),
{
    assert(type_specs_of(s) =~= sems(s));
}

pub broadcast proof fn lemma_fields_of(s: Seq<Field>)
    ensures
        #[trigger] fields_of(s) == sems(s),
{
    assert(fields_of(s) =~= sems(s));
}

pub broadcast proof fn lemma_exprs_of(s: Seq<Expr>)
    ensures
        #[trigger] exprs_of(s) == sems(s),
{
    assert(exprs_of(s) =~= sems(s));
}

pub broadcast proof fn lemma_str_parts_of(s: Seq<StrPart>)
    ensures
        #[trigger] str_parts_of(s) == sems(s),
{
    assert(str_parts_of(s) =~= sems(s));
}

pub broadcast proof fn lemma_elems_of(s: Seq<Elem>)
    ensures
        #[trigger] elems_of(s) == sems(s),
{
    assert(elems_of(s) =~= sems(s));
}

pub broadcast proof fn lemma_field_inits_of(s: Seq<FieldInit>)
    ensures
        #[trigger] field_inits_of(s) == sems(s),
{
    assert(field_inits_of(s) =~= sems(s));
}

pub broadcast proof fn lemma_lambda_params_of(s: Seq<LambdaParam>)
    ensures
        #[trigger] lambda_params_of(s) == sems(s),
{
    assert(lambda_params_of(s) =~= sems(s));
}

pub broadcast proof fn lemma_match_arms_of(s: Seq<MatchArm>)
    ensures
        #[trigger] match_arms_of(s) == sems(s),
{
    assert(match_arms_of(s) =~= sems(s));
}

pub broadcast proof fn lemma_stmts_of(s: Seq<Stmt>)
    ensures
        #[trigger] stmts_of(s) == sems(s),
{
    assert(stmts_of(s) =~= sems(s));
}

pub broadcast proof fn lemma_patterns_of(s: Seq<Pattern>)
    ensures
        #[trigger] patterns_of(s) == sems(s),
{
    assert(patterns_of(s) =~= sems(s));
}

pub broadcast proof fn lemma_field_pats_of(s: Seq<FieldPat>)
    ensures
        #[trigger] field_pats_of(s) == sems(s),
{
    assert(field_pats_of(s) =~= sems(s));
}

pub broadcast proof fn lemma_decls_of(s: Seq<Decl>)
    ensures
        #[trigger] decls_of(s) == sems(s),
{
    assert(decls_of(s) =~= sems(s));
}

pub broadcast proof fn lemma_annotations_of(s: Seq<Annotation>)
    ensures
        #[trigger] annotations_of(s) == sems(s),
{
    assert(annotations_of(s) =~= sems(s));
}

pub broadcast proof fn lemma_params_of(s: Seq<Param>)
    ensures
        #[trigger] params_of(s) == sems(s),
{
    assert(params_of(s) =~= sems(s));
}

pub broadcast proof fn lemma_where_clauses_of(s: Seq<WhereClause>)
    ensures
        #[trigger] where_clauses_of(s) == sems(s),
{
    assert(where_clauses_of(s) =~= sems(s));
}

pub broadcast proof fn lemma_fn_decls_of(s: Seq<FnDecl>)
    ensures
        #[trigger] fn_decls_of(s) == sems(s),
{
    assert(fn_decls_of(s) =~= sems(s));
}

pub broadcast proof fn lemma_use_trees_of(s: Seq<UseTree>)
    ensures
        #[trigger] use_trees_of(s) == sems(s),
{
    assert(use_trees_of(s) =~= sems(s));
}

pub broadcast group group_lists {
    lemma_type_specs_of,
    lemma_fields_of,
    lemma_exprs_of,
    lemma_str_parts_of,
    lemma_elems_of,
    lemma_field_inits_of,
    lemma_lambda_params_of,
    lemma_match_arms_of,
    lemma_stmts_of,
    lemma_patterns_of,
    lemma_field_pats_of,
    lemma_decls_of,
    lemma_annotations_of,
    lemma_params_of,
    lemma_where_clauses_of,
    lemma_fn_decls_of,
    lemma_use_trees_of,
}

} // verus!
