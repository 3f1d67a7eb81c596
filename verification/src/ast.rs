//! Syntax tree pieces shared by the tools: source spans, declarations and
//! type annotations.
use vstd::prelude::*;
use crate::text::{chars_eq_lit, chars_of, owned};

verus! {

/// A source span, 1-based, as the lexer counts lines and columns.
#[derive(Debug, Clone, Copy, Default, PartialEq, Eq, Structural)]
pub struct Span {
    pub line: usize,
    pub col: usize,
    pub end_line: usize,
    pub end_col: usize,
}

impl Span {
    /// A span of one point: it ends where it starts.
    pub fn at(line: usize, col: usize) -> (r: Self)
        ensures
            r == (Span { line, col, end_line: line, end_col: col }),
    {
        Span { line, col, end_line: line, end_col: col }
    }
}

/// `from <module> import { <items> }`; the module is a dotted path.
#[derive(Debug, Clone)]
pub struct ImportDecl {
    pub module: String,
    pub items: Vec<ImportItem>,
}

/// One imported name and the local name it is bound to (the same when no
/// `as` is given).
#[derive(Debug, Clone)]
pub struct ImportItem {
    pub name: String,
    pub alias: String,
}

/// A function parameter `name: type`.
#[derive(Debug)]
pub struct Param {
    pub name: String,
    pub ty: Type,
}

/// `enum Name<T, E> = Variant1(T) | Variant2(E) | Variant3`.
#[derive(Debug)]
pub struct EnumDecl {
    pub name: String,
    pub type_params: Vec<String>,
    pub variants: Vec<EnumVariantDecl>,
    pub span: Span,
}

/// An enum variant: a name and its field types.
#[derive(Debug)]
pub struct EnumVariantDecl {
    pub name: String,
    pub fields: Vec<Type>,
}

/// A type annotation.
#[derive(Debug, PartialEq)]
pub enum Type {
    Int,
    Float,
    Bool,
    String,
    Unit,
    Named(String),
    Option(Box<Type>),
    Result(Box<Type>, Box<Type>),
    Generic(String, Vec<Type>),
    Record(Vec<(String, Type)>),
    Tuple(Vec<Type>),
}

/// The names of the built-in types.
pub open spec fn is_builtin_type_name(n: Seq<char>) -> bool {
    n == "Int"@ || n == "Float"@ || n == "Bool"@ || n == "String"@ || n == "Unit"@
}

impl Type {
    /// The type a bare name denotes: a built-in type or a user type name.
    pub fn from_name(name: &str) -> (r: Type)
        ensures
            name@ == "Int"@ ==> r == Type::Int,
            name@ == "Float"@ ==> r == Type::Float,
            name@ == "Bool"@ ==> r == Type::Bool,
            name@ == "String"@ ==> r == Type::String,
            name@ == "Unit"@ ==> r == Type::Unit,
            !is_builtin_type_name(name@) ==> (r matches Type::Named(n) && n@ == name@),
            tyv(r) == type_named(name@),
    {
        let cs = chars_of(name);
        proof {
            reveal_strlit("Int");
            reveal_strlit("Float");
            reveal_strlit("Bool");
            reveal_strlit("String");
            reveal_strlit("Unit");
            assert("Float"@.len() != "Int"@.len());
            assert("Bool"@.len() != "Int"@.len() && "Bool"@.len() != "Float"@.len());
            assert("String"@.len() != "Int"@.len() && "String"@.len() != "Float"@.len() && "String"@.len() != "Bool"@.len());
            assert("Unit"@[0] != "Bool"@[0]);
        }
        if chars_eq_lit(&cs, "Int") {
            Type::Int
        } else if chars_eq_lit(&cs, "Float") {
            Type::Float
        } else if chars_eq_lit(&cs, "Bool") {
            Type::Bool
        } else if chars_eq_lit(&cs, "String") {
            Type::String
        } else if chars_eq_lit(&cs, "Unit") {
            Type::Unit
        } else {
            Type::Named(owned(name))
        }
    }
}

/// Binary operators.
#[derive(Debug, Clone, PartialEq, Eq, Structural)]
pub enum BinOp {
    Add,
    Sub,
    Mul,
    Div,
    Mod,
    Eq,
    NotEq,
    Lt,
    Gt,
    LtEq,
    GtEq,
}

/// Unary operators.
#[derive(Debug, Clone, PartialEq, Eq, Structural)]
pub enum UnaryOp {
    Neg,
    Not,
}

/// Short-circuit logical operators.
#[derive(Debug, Clone, PartialEq, Eq, Structural)]
pub enum LogicalOp {
    And,
    Or,
}


/// A whole program: its top-level declarations in order.
#[derive(Debug)]
pub struct Program {
    pub items: Vec<Item>,
}

/// A top-level declaration.
#[derive(Debug)]
pub enum Item {
    Fn(FnDecl),
    Enum(EnumDecl),
    Import(ImportDecl),
}

/// `fn name(params) -> ret ! [effects]` with its body.
#[derive(Debug)]
pub struct FnDecl {
    pub name: String,
    pub params: Vec<Param>,
    pub ret_type: Option<Type>,
    pub effects: Vec<String>,
    pub body: Block,
    pub span: Span,
}

/// Statements and an optional tail expression, the value of the block.
#[derive(Debug)]
pub struct Block {
    pub stmts: Vec<Stmt>,
    pub tail: Option<Box<Expr>>,
}

/// A statement.
#[derive(Debug)]
pub enum Stmt {
    Let { mutable: bool, name: String, ty: Option<Type>, value: Expr },
    LetDestruct { names: Vec<String>, value: Expr },
    Assign { target: String, value: Expr },
    If(IfStmt),
    While { cond: Expr, body: Block },
    For { var: String, iter: Expr, body: Block },
    Return(Option<Expr>),
    Expr(Expr),
    /// Where a statement failed to parse: the error's position.
    Hole { line: usize, col: usize },
}

/// `if` / `elif` branches and an optional `else`.
#[derive(Debug)]
pub struct IfStmt {
    pub branches: Vec<(Expr, Block)>,
    pub else_branch: Option<Block>,
}

/// An expression. A float literal keeps the text it was written with.
#[derive(Debug)]
pub enum Expr {
    Int(i64),
    Float(String),
    Bool(bool),
    Str(String),
    Unit,
    Ident(String),
    Binary { op: BinOp, left: Box<Expr>, right: Box<Expr> },
    Unary { op: UnaryOp, expr: Box<Expr> },
    Logical { op: LogicalOp, left: Box<Expr>, right: Box<Expr> },
    Call { callee: Box<Expr>, args: Vec<Expr> },
    Index { expr: Box<Expr>, index: Box<Expr> },
    Field { expr: Box<Expr>, name: String },
    Group(Box<Expr>),
    If(Box<IfStmt>),
    Closure { params: Vec<Param>, ret_type: Option<Type>, body: Box<Block> },
    Match(Box<MatchExpr>),
    Try(Box<Expr>),
    Pipe { left: Box<Expr>, right: Box<Expr> },
    Record { fields: Vec<(String, Expr)> },
    Tuple { elems: Vec<Expr> },
}

/// `match scrutinee` with its arms; `end_line` is the line of the closing
/// `end` (0 when it is missing).
#[derive(Debug)]
pub struct MatchExpr {
    pub scrutinee: Box<Expr>,
    pub arms: Vec<MatchArm>,
    pub end_line: usize,
}

/// `pattern => body`.
#[derive(Debug)]
pub struct MatchArm {
    pub pattern: Pattern,
    pub body: MatchArmBody,
}

/// An arm's body: one expression on the arrow's line, or a block.
#[derive(Debug)]
pub enum MatchArmBody {
    Expr(Expr),
    Block(Block),
}

/// A pattern.
#[derive(Debug)]
pub enum Pattern {
    Lit(Expr),
    Binder(String),
    Wildcard,
    Variant { name: String, sub: Vec<Pattern> },
}

// ===== the mathematical value of a syntax tree =====

/// A type as a value.
pub enum TypeV {
    Int,
    Float,
    Bool,
    String,
    Unit,
    Named(Seq<char>),
    Option(Box<TypeV>),
    Result(Box<TypeV>, Box<TypeV>),
    Generic(Seq<char>, Seq<TypeV>),
    Record(Seq<(Seq<char>, TypeV)>),
    Tuple(Seq<TypeV>),
}

pub open spec fn tyv(t: Type) -> TypeV
    decreases t, 0int,
{
    match t {
        Type::Int => TypeV::Int,
        Type::Float => TypeV::Float,
        Type::Bool => TypeV::Bool,
        Type::String => TypeV::String,
        Type::Unit => TypeV::Unit,
        Type::Named(n) => TypeV::Named(n@),
        Type::Option(a) => TypeV::Option(Box::new(tyv(*a))),
        Type::Result(a, b) => TypeV::Result(Box::new(tyv(*a)), Box::new(tyv(*b))),
        Type::Generic(n, xs) => TypeV::Generic(n@, tysv(xs@)),
        Type::Record(fs) => TypeV::Record(tfieldsv(fs@)),
        Type::Tuple(xs) => TypeV::Tuple(tysv(xs@)),
    }
}

pub open spec fn tysv(s: Seq<Type>) -> Seq<TypeV>
    decreases s, 1int,
{
    if s.len() == 0 {
        Seq::empty()
    } else {
        tysv(s.subrange(0, s.len() - 1)).push(tyv(s[s.len() - 1]))
    }
}

pub open spec fn tfieldsv(s: Seq<(String, Type)>) -> Seq<(Seq<char>, TypeV)>
    decreases s, 1int,
{
    if s.len() == 0 {
        Seq::empty()
    } else {
        tfieldsv(s.subrange(0, s.len() - 1)).push((s[s.len() - 1].0@, tyv(s[s.len() - 1].1)))
    }
}

/// The type a bare name denotes.
pub open spec fn type_named(n: Seq<char>) -> TypeV {
    if n == "Int"@ {
        TypeV::Int
    } else if n == "Float"@ {
        TypeV::Float
    } else if n == "Bool"@ {
        TypeV::Bool
    } else if n == "String"@ {
        TypeV::String
    } else if n == "Unit"@ {
        TypeV::Unit
    } else {
        TypeV::Named(n)
    }
}

impl View for Type {
    type V = TypeV;

    open spec fn view(&self) -> TypeV {
        tyv(*self)
    }
}


/// A parameter as a value: its name and type.
pub open spec fn paramsv(s: Seq<Param>) -> Seq<(Seq<char>, TypeV)>
    decreases s.len(),
{
    if s.len() == 0 {
        Seq::empty()
    } else {
        paramsv(s.subrange(0, s.len() - 1)).push((s[s.len() - 1].name@, tyv(s[s.len() - 1].ty)))
    }
}

pub open spec fn optyv(t: Option<Type>) -> Option<TypeV> {
    match t {
        Some(x) => Some(tyv(x)),
        None => None,
    }
}

pub open spec fn namesv(s: Seq<String>) -> Seq<Seq<char>>
    decreases s.len(),
{
    if s.len() == 0 {
        Seq::empty()
    } else {
        namesv(s.subrange(0, s.len() - 1)).push(s[s.len() - 1]@)
    }
}

/// An expression as a value.
pub enum ExprV {
    Int(i64),
    Float(Seq<char>),
    Bool(bool),
    Str(Seq<char>),
    Unit,
    Ident(Seq<char>),
    Binary(BinOp, Box<ExprV>, Box<ExprV>),
    Unary(UnaryOp, Box<ExprV>),
    Logical(LogicalOp, Box<ExprV>, Box<ExprV>),
    Call(Box<ExprV>, Seq<ExprV>),
    Index(Box<ExprV>, Box<ExprV>),
    Field(Box<ExprV>, Seq<char>),
    Group(Box<ExprV>),
    If(Box<IfV>),
    Closure(Seq<(Seq<char>, TypeV)>, Option<TypeV>, Box<BlockV>),
    Match(Box<MatchV>),
    Try(Box<ExprV>),
    Pipe(Box<ExprV>, Box<ExprV>),
    Record(Seq<(Seq<char>, ExprV)>),
    Tuple(Seq<ExprV>),
}

/// A block as a value.
pub struct BlockV {
    pub stmts: Seq<StmtV>,
    pub tail: Option<ExprV>,
}

/// A statement as a value.
pub enum StmtV {
    Let(bool, Seq<char>, Option<TypeV>, ExprV),
    LetDestruct(Seq<Seq<char>>, ExprV),
    Assign(Seq<char>, ExprV),
    If(IfV),
    While(ExprV, BlockV),
    For(Seq<char>, ExprV, BlockV),
    Return(Option<ExprV>),
    Expr(ExprV),
    Hole(int, int),
}

/// An `if` as a value.
pub struct IfV {
    pub branches: Seq<(ExprV, BlockV)>,
    pub else_branch: Option<BlockV>,
}

/// A `match` as a value.
pub struct MatchV {
    pub scrutinee: ExprV,
    pub arms: Seq<ArmV>,
    pub end_line: int,
}

/// A match arm as a value.
pub struct ArmV {
    pub pattern: PatV,
    pub body: ArmBodyV,
}

pub enum ArmBodyV {
    Expr(ExprV),
    Block(BlockV),
}

/// A pattern as a value.
pub enum PatV {
    Lit(ExprV),
    Binder(Seq<char>),
    Wildcard,
    Variant(Seq<char>, Seq<PatV>),
}

pub open spec fn patv(p: Pattern) -> PatV
    decreases p, 0int,
{
    match p {
        Pattern::Lit(e) => PatV::Lit(ev(e)),
        Pattern::Binder(n) => PatV::Binder(n@),
        Pattern::Wildcard => PatV::Wildcard,
        Pattern::Variant { name, sub } => PatV::Variant(name@, patsv(sub@)),
    }
}

pub open spec fn patsv(s: Seq<Pattern>) -> Seq<PatV>
    decreases s, 1int,
{
    if s.len() == 0 {
        Seq::empty()
    } else {
        patsv(s.subrange(0, s.len() - 1)).push(patv(s[s.len() - 1]))
    }
}

pub open spec fn ev(e: Expr) -> ExprV
    decreases e, 0int,
{
    match e {
        Expr::Int(n) => ExprV::Int(n),
        Expr::Float(t) => ExprV::Float(t@),
        Expr::Bool(b) => ExprV::Bool(b),
        Expr::Str(t) => ExprV::Str(t@),
        Expr::Unit => ExprV::Unit,
        Expr::Ident(n) => ExprV::Ident(n@),
        Expr::Binary { op, left, right } => ExprV::Binary(op, Box::new(ev(*left)), Box::new(ev(*right))),
        Expr::Unary { op, expr } => ExprV::Unary(op, Box::new(ev(*expr))),
        Expr::Logical { op, left, right } => ExprV::Logical(op, Box::new(ev(*left)), Box::new(ev(*right))),
        Expr::Call { callee, args } => ExprV::Call(Box::new(ev(*callee)), exprsv(args@)),
        Expr::Index { expr, index } => ExprV::Index(Box::new(ev(*expr)), Box::new(ev(*index))),
        Expr::Field { expr, name } => ExprV::Field(Box::new(ev(*expr)), name@),
        Expr::Group(x) => ExprV::Group(Box::new(ev(*x))),
        Expr::If(x) => ExprV::If(Box::new(ifv(*x))),
        Expr::Closure { params, ret_type, body } => ExprV::Closure(paramsv(params@), optyv(ret_type), Box::new(blockv(*body))),
        Expr::Match(m) => ExprV::Match(Box::new(matchv(*m))),
        Expr::Try(x) => ExprV::Try(Box::new(ev(*x))),
        Expr::Pipe { left, right } => ExprV::Pipe(Box::new(ev(*left)), Box::new(ev(*right))),
        Expr::Record { fields } => ExprV::Record(efieldsv(fields@)),
        Expr::Tuple { elems } => ExprV::Tuple(exprsv(elems@)),
    }
}

pub open spec fn exprsv(s: Seq<Expr>) -> Seq<ExprV>
    decreases s, 1int,
{
    if s.len() == 0 {
        Seq::empty()
    } else {
        exprsv(s.subrange(0, s.len() - 1)).push(ev(s[s.len() - 1]))
    }
}

pub open spec fn efieldsv(s: Seq<(String, Expr)>) -> Seq<(Seq<char>, ExprV)>
    decreases s, 1int,
{
    if s.len() == 0 {
        Seq::empty()
    } else {
        efieldsv(s.subrange(0, s.len() - 1)).push((s[s.len() - 1].0@, ev(s[s.len() - 1].1)))
    }
}

pub open spec fn optev(e: Option<Box<Expr>>) -> Option<ExprV>
    decreases e, 0int,
{
    match e {
        Some(x) => Some(ev(*x)),
        None => None,
    }
}

pub open spec fn blockv(b: Block) -> BlockV
    decreases b, 0int,
{
    BlockV { stmts: stmtsv(b.stmts@), tail: optev(b.tail) }
}

pub open spec fn stmtsv(s: Seq<Stmt>) -> Seq<StmtV>
    decreases s, 1int,
{
    if s.len() == 0 {
        Seq::empty()
    } else {
        stmtsv(s.subrange(0, s.len() - 1)).push(stmtv(s[s.len() - 1]))
    }
}

pub open spec fn stmtv(s: Stmt) -> StmtV
    decreases s, 0int,
{
    match s {
        Stmt::Let { mutable, name, ty, value } => StmtV::Let(mutable, name@, optyv(ty), ev(value)),
        Stmt::LetDestruct { names, value } => StmtV::LetDestruct(namesv(names@), ev(value)),
        Stmt::Assign { target, value } => StmtV::Assign(target@, ev(value)),
        Stmt::If(i) => StmtV::If(ifv(i)),
        Stmt::While { cond, body } => StmtV::While(ev(cond), blockv(body)),
        Stmt::For { var, iter, body } => StmtV::For(var@, ev(iter), blockv(body)),
        Stmt::Return(x) => StmtV::Return(
            match x {
                Some(e) => Some(ev(e)),
                None => None,
            },
        ),
        Stmt::Expr(e) => StmtV::Expr(ev(e)),
        Stmt::Hole { line, col } => StmtV::Hole(line as int, col as int),
    }
}

pub open spec fn ifv(i: IfStmt) -> IfV
    decreases i, 0int,
{
    IfV {
        branches: branchesv(i.branches@),
        else_branch: match i.else_branch {
            Some(b) => Some(blockv(b)),
            None => None,
        },
    }
}

pub open spec fn branchesv(s: Seq<(Expr, Block)>) -> Seq<(ExprV, BlockV)>
    decreases s, 1int,
{
    if s.len() == 0 {
        Seq::empty()
    } else {
        branchesv(s.subrange(0, s.len() - 1)).push((ev(s[s.len() - 1].0), blockv(s[s.len() - 1].1)))
    }
}

pub open spec fn matchv(m: MatchExpr) -> MatchV
    decreases m, 0int,
{
    MatchV { scrutinee: ev(*m.scrutinee), arms: armsv(m.arms@), end_line: m.end_line as int }
}

pub open spec fn armsv(s: Seq<MatchArm>) -> Seq<ArmV>
    decreases s, 1int,
{
    if s.len() == 0 {
        Seq::empty()
    } else {
        armsv(s.subrange(0, s.len() - 1)).push(armv(s[s.len() - 1]))
    }
}

pub open spec fn armv(a: MatchArm) -> ArmV
    decreases a, 0int,
{
    ArmV {
        pattern: patv(a.pattern),
        body: match a.body {
            MatchArmBody::Expr(e) => ArmBodyV::Expr(ev(e)),
            MatchArmBody::Block(b) => ArmBodyV::Block(blockv(b)),
        },
    }
}


/// A function declaration as a value.
pub struct FnV {
    pub name: Seq<char>,
    pub params: Seq<(Seq<char>, TypeV)>,
    pub ret_type: Option<TypeV>,
    pub effects: Seq<Seq<char>>,
    pub body: BlockV,
    pub span: Span,
}

/// An enum declaration as a value: name, type parameters, variants with
/// their field types, and span.
pub struct EnumV {
    pub name: Seq<char>,
    pub type_params: Seq<Seq<char>>,
    pub variants: Seq<(Seq<char>, Seq<TypeV>)>,
    pub span: Span,
}

/// An import as a value: the module path and (name, alias) pairs.
pub struct ImportV {
    pub module: Seq<char>,
    pub items: Seq<(Seq<char>, Seq<char>)>,
}

pub enum ItemV {
    Fn(FnV),
    Enum(EnumV),
    Import(ImportV),
}

pub open spec fn variantsv(s: Seq<EnumVariantDecl>) -> Seq<(Seq<char>, Seq<TypeV>)>
    decreases s.len(),
{
    if s.len() == 0 {
        Seq::empty()
    } else {
        variantsv(s.subrange(0, s.len() - 1)).push((s[s.len() - 1].name@, tysv(s[s.len() - 1].fields@)))
    }
}

pub open spec fn importsv(s: Seq<ImportItem>) -> Seq<(Seq<char>, Seq<char>)>
    decreases s.len(),
{
    if s.len() == 0 {
        Seq::empty()
    } else {
        importsv(s.subrange(0, s.len() - 1)).push((s[s.len() - 1].name@, s[s.len() - 1].alias@))
    }
}

pub open spec fn fnv(f: FnDecl) -> FnV {
    FnV {
        name: f.name@,
        params: paramsv(f.params@),
        ret_type: optyv(f.ret_type),
        effects: namesv(f.effects@),
        body: blockv(f.body),
        span: f.span,
    }
}

pub open spec fn enumv(d: EnumDecl) -> EnumV {
    EnumV { name: d.name@, type_params: namesv(d.type_params@), variants: variantsv(d.variants@), span: d.span }
}

pub open spec fn importv(d: ImportDecl) -> ImportV {
    ImportV { module: d.module@, items: importsv(d.items@) }
}

pub open spec fn itemv(i: Item) -> ItemV {
    match i {
        Item::Fn(f) => ItemV::Fn(fnv(f)),
        Item::Enum(d) => ItemV::Enum(enumv(d)),
        Item::Import(d) => ItemV::Import(importv(d)),
    }
}

pub open spec fn itemsv(s: Seq<Item>) -> Seq<ItemV>
    decreases s.len(),
{
    if s.len() == 0 {
        Seq::empty()
    } else {
        itemsv(s.subrange(0, s.len() - 1)).push(itemv(s[s.len() - 1]))
    }
}

impl View for Expr {
    type V = ExprV;

    open spec fn view(&self) -> ExprV {
        ev(*self)
    }
}

impl View for Block {
    type V = BlockV;

    open spec fn view(&self) -> BlockV {
        blockv(*self)
    }
}

impl View for Program {
    type V = Seq<ItemV>;

    open spec fn view(&self) -> Seq<ItemV> {
        itemsv(self.items@)
    }
}


// ===== holes left by a tolerant parse =====

/// The expression holds a hole somewhere (inside a block it contains).
pub open spec fn expr_has_hole(e: Expr) -> bool
    decreases e,
{
    match e {
        Expr::Binary { left, right, .. } => expr_has_hole(*left) || expr_has_hole(*right),
        Expr::Unary { expr, .. } => expr_has_hole(*expr),
        Expr::Logical { left, right, .. } => expr_has_hole(*left) || expr_has_hole(*right),
        Expr::Call { callee, args } => expr_has_hole(*callee) || exprs_have_hole(args@),
        Expr::Index { expr, index } => expr_has_hole(*expr) || expr_has_hole(*index),
        Expr::Field { expr, .. } => expr_has_hole(*expr),
        Expr::Group(inner) => expr_has_hole(*inner),
        Expr::If(i) => if_has_hole(*i),
        Expr::Closure { body, .. } => block_has_hole(*body),
        Expr::Match(m) => expr_has_hole(*m.scrutinee) || arms_have_hole(m.arms@),
        Expr::Try(inner) => expr_has_hole(*inner),
        Expr::Pipe { left, right } => expr_has_hole(*left) || expr_has_hole(*right),
        Expr::Record { fields } => fields_have_hole(fields@),
        Expr::Tuple { elems } => exprs_have_hole(elems@),
        _ => false,
    }
}

pub open spec fn exprs_have_hole(es: Seq<Expr>) -> bool
    decreases es,
{
    es.len() > 0 && (exprs_have_hole(es.drop_last()) || expr_has_hole(es.last()))
}

pub open spec fn fields_have_hole(fs: Seq<(String, Expr)>) -> bool
    decreases fs,
{
    fs.len() > 0 && (fields_have_hole(fs.drop_last()) || expr_has_hole(fs.last().1))
}

pub open spec fn pattern_has_hole(p: Pattern) -> bool
    decreases p,
{
    match p {
        Pattern::Lit(e) => expr_has_hole(e),
        Pattern::Variant { sub, .. } => patterns_have_hole(sub@),
        _ => false,
    }
}

pub open spec fn patterns_have_hole(ps: Seq<Pattern>) -> bool
    decreases ps,
{
    ps.len() > 0 && (patterns_have_hole(ps.drop_last()) || pattern_has_hole(ps.last()))
}

pub open spec fn arms_have_hole(arms: Seq<MatchArm>) -> bool
    decreases arms,
{
    arms.len() > 0 && (arms_have_hole(arms.drop_last()) || pattern_has_hole(arms.last().pattern) || match arms.last().body {
        MatchArmBody::Expr(e) => expr_has_hole(e),
        MatchArmBody::Block(b) => block_has_hole(b),
    })
}

/// The block holds a hole: a statement that is one, or one inside a
/// statement or the tail.
pub open spec fn block_has_hole(b: Block) -> bool
    decreases b,
{
    stmts_have_hole(b.stmts@) || match b.tail {
        Some(t) => expr_has_hole(*t),
        None => false,
    }
}

pub open spec fn stmts_have_hole(ss: Seq<Stmt>) -> bool
    decreases ss,
{
    ss.len() > 0 && (stmts_have_hole(ss.drop_last()) || stmt_has_hole(ss.last()))
}

pub open spec fn if_has_hole(i: IfStmt) -> bool
    decreases i,
{
    branches_have_hole(i.branches@) || match i.else_branch {
        Some(b) => block_has_hole(b),
        None => false,
    }
}

pub open spec fn branches_have_hole(bs: Seq<(Expr, Block)>) -> bool
    decreases bs,
{
    bs.len() > 0 && (branches_have_hole(bs.drop_last()) || expr_has_hole(bs.last().0) || block_has_hole(bs.last().1))
}

pub open spec fn stmt_has_hole(s: Stmt) -> bool
    decreases s,
{
    match s {
        Stmt::Hole { .. } => true,
        Stmt::Let { value, .. } => expr_has_hole(value),
        Stmt::LetDestruct { value, .. } => expr_has_hole(value),
        Stmt::Assign { value, .. } => expr_has_hole(value),
        Stmt::If(i) => if_has_hole(i),
        Stmt::While { cond, body } => expr_has_hole(cond) || block_has_hole(body),
        Stmt::For { iter, body, .. } => expr_has_hole(iter) || block_has_hole(body),
        Stmt::Return(Some(e)) => expr_has_hole(e),
        Stmt::Return(None) => false,
        Stmt::Expr(e) => expr_has_hole(e),
    }
}

/// The declarations hold a hole: the tree of a parse that met errors.
pub open spec fn items_have_hole(items: Seq<Item>) -> bool
    decreases items.len(),
{
    items.len() > 0 && (items_have_hole(items.drop_last()) || match items.last() {
        Item::Fn(f) => block_has_hole(f.body),
        _ => false,
    })
}

fn expr_hole(e: &Expr) -> (r: bool)
    ensures
        r == expr_has_hole(*e),
    decreases e,
{
    match e {
        Expr::Binary { left, right, .. } => expr_hole(left) || expr_hole(right),
        Expr::Unary { expr, .. } => expr_hole(expr),
        Expr::Logical { left, right, .. } => expr_hole(left) || expr_hole(right),
        Expr::Call { callee, args } => expr_hole(callee) || exprs_hole(args),
        Expr::Index { expr, index } => expr_hole(expr) || expr_hole(index),
        Expr::Field { expr, .. } => expr_hole(expr),
        Expr::Group(inner) => expr_hole(inner),
        Expr::If(i) => if_hole(i),
        Expr::Closure { body, .. } => block_hole(body),
        Expr::Match(m) => expr_hole(&m.scrutinee) || arms_hole(&m.arms),
        Expr::Try(inner) => expr_hole(inner),
        Expr::Pipe { left, right } => expr_hole(left) || expr_hole(right),
        Expr::Record { fields } => fields_hole(fields),
        Expr::Tuple { elems } => exprs_hole(elems),
        _ => false,
    }
}

fn exprs_hole(es: &Vec<Expr>) -> (r: bool)
    ensures
        r == exprs_have_hole(es@),
    decreases es@,
{
    let mut i: usize = 0;
    while i < es.len()
        invariant
            i <= es@.len(),
            !exprs_have_hole(es@.take(i as int)),
        decreases es@.len() - i,
    {
        assert(es@.take(i + 1).drop_last() == es@.take(i as int));
        proof {
            assert(decreases_to!(es@ => es@[i as int]));
        }
        if expr_hole(&es[i]) {
            proof {
                lemma_exprs_hole_prefix(es@, i + 1);
            }
            return true;
        }
        i += 1;
    }
    assert(es@.take(es@.len() as int) == es@);
    false
}

proof fn lemma_exprs_hole_prefix(es: Seq<Expr>, k: int)
    requires
        0 <= k <= es.len(),
        exprs_have_hole(es.take(k)),
    ensures
        exprs_have_hole(es),
    decreases es.len() - k,
{
    if k < es.len() {
        assert(es.take(k + 1).drop_last() == es.take(k));
        lemma_exprs_hole_prefix(es, k + 1);
    } else {
        assert(es.take(k) == es);
    }
}

fn fields_hole(fs: &Vec<(String, Expr)>) -> (r: bool)
    ensures
        r == fields_have_hole(fs@),
    decreases fs@,
{
    let mut i: usize = 0;
    while i < fs.len()
        invariant
            i <= fs@.len(),
            !fields_have_hole(fs@.take(i as int)),
        decreases fs@.len() - i,
    {
        assert(fs@.take(i + 1).drop_last() == fs@.take(i as int));
        proof {
            assert(decreases_to!(fs@ => fs@[i as int]));
            assert(decreases_to!(fs@[i as int] => fs@[i as int].1));
        }
        if expr_hole(&fs[i].1) {
            proof {
                lemma_fields_hole_prefix(fs@, i + 1);
            }
            return true;
        }
        i += 1;
    }
    assert(fs@.take(fs@.len() as int) == fs@);
    false
}

proof fn lemma_fields_hole_prefix(fs: Seq<(String, Expr)>, k: int)
    requires
        0 <= k <= fs.len(),
        fields_have_hole(fs.take(k)),
    ensures
        fields_have_hole(fs),
    decreases fs.len() - k,
{
    if k < fs.len() {
        assert(fs.take(k + 1).drop_last() == fs.take(k));
        lemma_fields_hole_prefix(fs, k + 1);
    } else {
        assert(fs.take(k) == fs);
    }
}

fn pattern_hole(p: &Pattern) -> (r: bool)
    ensures
        r == pattern_has_hole(*p),
    decreases p,
{
    match p {
        Pattern::Lit(e) => expr_hole(e),
        Pattern::Variant { sub, .. } => patterns_hole(sub),
        _ => false,
    }
}

fn patterns_hole(ps: &Vec<Pattern>) -> (r: bool)
    ensures
        r == patterns_have_hole(ps@),
    decreases ps@,
{
    let mut i: usize = 0;
    while i < ps.len()
        invariant
            i <= ps@.len(),
            !patterns_have_hole(ps@.take(i as int)),
        decreases ps@.len() - i,
    {
        assert(ps@.take(i + 1).drop_last() == ps@.take(i as int));
        proof {
            assert(decreases_to!(ps@ => ps@[i as int]));
        }
        if pattern_hole(&ps[i]) {
            proof {
                lemma_patterns_hole_prefix(ps@, i + 1);
            }
            return true;
        }
        i += 1;
    }
    assert(ps@.take(ps@.len() as int) == ps@);
    false
}

proof fn lemma_patterns_hole_prefix(ps: Seq<Pattern>, k: int)
    requires
        0 <= k <= ps.len(),
        patterns_have_hole(ps.take(k)),
    ensures
        patterns_have_hole(ps),
    decreases ps.len() - k,
{
    if k < ps.len() {
        assert(ps.take(k + 1).drop_last() == ps.take(k));
        lemma_patterns_hole_prefix(ps, k + 1);
    } else {
        assert(ps.take(k) == ps);
    }
}

fn arms_hole(arms: &Vec<MatchArm>) -> (r: bool)
    ensures
        r == arms_have_hole(arms@),
    decreases arms@,
{
    let mut i: usize = 0;
    while i < arms.len()
        invariant
            i <= arms@.len(),
            !arms_have_hole(arms@.take(i as int)),
        decreases arms@.len() - i,
    {
        assert(arms@.take(i + 1).drop_last() == arms@.take(i as int));
        proof {
            assert(decreases_to!(arms@ => arms@[i as int]));
        }
        let here = pattern_hole(&arms[i].pattern) || match &arms[i].body {
            MatchArmBody::Expr(e) => expr_hole(e),
            MatchArmBody::Block(b) => block_hole(b),
        };
        if here {
            proof {
                lemma_arms_hole_prefix(arms@, i + 1);
            }
            return true;
        }
        i += 1;
    }
    assert(arms@.take(arms@.len() as int) == arms@);
    false
}

proof fn lemma_arms_hole_prefix(arms: Seq<MatchArm>, k: int)
    requires
        0 <= k <= arms.len(),
        arms_have_hole(arms.take(k)),
    ensures
        arms_have_hole(arms),
    decreases arms.len() - k,
{
    if k < arms.len() {
        assert(arms.take(k + 1).drop_last() == arms.take(k));
        lemma_arms_hole_prefix(arms, k + 1);
    } else {
        assert(arms.take(k) == arms);
    }
}

fn block_hole(b: &Block) -> (r: bool)
    ensures
        r == block_has_hole(*b),
    decreases b,
{
    if stmts_hole(&b.stmts) {
        return true;
    }
    match &b.tail {
        Some(t) => expr_hole(t),
        None => false,
    }
}

fn stmts_hole(ss: &Vec<Stmt>) -> (r: bool)
    ensures
        r == stmts_have_hole(ss@),
    decreases ss@,
{
    let mut i: usize = 0;
    while i < ss.len()
        invariant
            i <= ss@.len(),
            !stmts_have_hole(ss@.take(i as int)),
        decreases ss@.len() - i,
    {
        assert(ss@.take(i + 1).drop_last() == ss@.take(i as int));
        proof {
            assert(decreases_to!(ss@ => ss@[i as int]));
        }
        if stmt_hole(&ss[i]) {
            proof {
                lemma_stmts_hole_prefix(ss@, i + 1);
            }
            return true;
        }
        i += 1;
    }
    assert(ss@.take(ss@.len() as int) == ss@);
    false
}

proof fn lemma_stmts_hole_prefix(ss: Seq<Stmt>, k: int)
    requires
        0 <= k <= ss.len(),
        stmts_have_hole(ss.take(k)),
    ensures
        stmts_have_hole(ss),
    decreases ss.len() - k,
{
    if k < ss.len() {
        assert(ss.take(k + 1).drop_last() == ss.take(k));
        lemma_stmts_hole_prefix(ss, k + 1);
    } else {
        assert(ss.take(k) == ss);
    }
}

fn if_hole(i: &IfStmt) -> (r: bool)
    ensures
        r == if_has_hole(*i),
    decreases i,
{
    if branches_hole(&i.branches) {
        return true;
    }
    match &i.else_branch {
        Some(b) => block_hole(b),
        None => false,
    }
}

fn branches_hole(bs: &Vec<(Expr, Block)>) -> (r: bool)
    ensures
        r == branches_have_hole(bs@),
    decreases bs@,
{
    let mut i: usize = 0;
    while i < bs.len()
        invariant
            i <= bs@.len(),
            !branches_have_hole(bs@.take(i as int)),
        decreases bs@.len() - i,
    {
        assert(bs@.take(i + 1).drop_last() == bs@.take(i as int));
        proof {
            assert(decreases_to!(bs@ => bs@[i as int]));
            assert(decreases_to!(bs@[i as int] => bs@[i as int].0));
            assert(decreases_to!(bs@[i as int] => bs@[i as int].1));
        }
        if expr_hole(&bs[i].0) || block_hole(&bs[i].1) {
            proof {
                lemma_branches_hole_prefix(bs@, i + 1);
            }
            return true;
        }
        i += 1;
    }
    assert(bs@.take(bs@.len() as int) == bs@);
    false
}

proof fn lemma_branches_hole_prefix(bs: Seq<(Expr, Block)>, k: int)
    requires
        0 <= k <= bs.len(),
        branches_have_hole(bs.take(k)),
    ensures
        branches_have_hole(bs),
    decreases bs.len() - k,
{
    if k < bs.len() {
        assert(bs.take(k + 1).drop_last() == bs.take(k));
        lemma_branches_hole_prefix(bs, k + 1);
    } else {
        assert(bs.take(k) == bs);
    }
}

fn stmt_hole(s: &Stmt) -> (r: bool)
    ensures
        r == stmt_has_hole(*s),
    decreases s,
{
    match s {
        Stmt::Hole { .. } => true,
        Stmt::Let { value, .. } => expr_hole(value),
        Stmt::LetDestruct { value, .. } => expr_hole(value),
        Stmt::Assign { value, .. } => expr_hole(value),
        Stmt::If(i) => if_hole(i),
        Stmt::While { cond, body } => expr_hole(cond) || block_hole(body),
        Stmt::For { iter, body, .. } => expr_hole(iter) || block_hole(body),
        Stmt::Return(Some(e)) => expr_hole(e),
        Stmt::Return(None) => false,
        Stmt::Expr(e) => expr_hole(e),
    }
}

proof fn lemma_items_hole_prefix(items: Seq<Item>, k: int)
    requires
        0 <= k <= items.len(),
        items_have_hole(items.take(k)),
    ensures
        items_have_hole(items),
    decreases items.len() - k,
{
    if k < items.len() {
        assert(items.take(k + 1).drop_last() == items.take(k));
        lemma_items_hole_prefix(items, k + 1);
    } else {
        assert(items.take(k) == items);
    }
}

impl Program {
    /// Whether the tree holds a hole, as a tolerant parse leaves where it met
    /// an error.
    pub fn has_hole(&self) -> (r: bool)
        ensures
            r == items_have_hole(self.items@),
    {
        let mut i: usize = 0;
        while i < self.items.len()
            invariant
                i <= self.items@.len(),
                !items_have_hole(self.items@.take(i as int)),
            decreases self.items@.len() - i,
        {
            assert(self.items@.take(i + 1).drop_last() == self.items@.take(i as int));
            let here = match &self.items[i] {
                Item::Fn(f) => block_hole(&f.body),
                _ => false,
            };
            if here {
                proof {
                    lemma_items_hole_prefix(self.items@, i + 1);
                }
                return true;
            }
            i += 1;
        }
        assert(self.items@.take(self.items@.len() as int) == self.items@);
        false
    }
}

} // verus!
