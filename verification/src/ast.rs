//! The syntax tree of the script language, and its view as plain values
//! (sequences in place of vectors and strings) that the parser's
//! specification is written over.
use vstd::prelude::*;

use crate::lexer::{Span, Spanned};

verus! {

pub type Expr = Spanned<RawExpr>;

pub type Stmt = Spanned<RawStmt>;

// ---- Expressions ----
#[derive(Debug, PartialEq)]
pub enum RawExpr {
    Number(String),
    StringLit(String),
    Bool(bool),
    Null,
    Ident(String),
    /// `!x`, `-x`, `++x`, `--x`
    Prefix { op: PrefixOp, expr: Box<Expr> },
    /// `x++`, `x--`
    Postfix { op: PostfixOp, expr: Box<Expr> },
    Binary { op: BinOp, left: Box<Expr>, right: Box<Expr> },
    Assign { op: AssignOp, target: Box<Expr>, value: Box<Expr> },
    /// `cond ? then : otherwise`
    Ternary { cond: Box<Expr>, then: Box<Expr>, otherwise: Box<Expr> },
    /// `a.b`
    Member { object: Box<Expr>, property: String },
    /// `a[b]`
    Index { object: Box<Expr>, index: Box<Expr> },
    /// `f(a, b)`
    Call { callee: Box<Expr>, args: Vec<Expr> },
    /// `[a, b, c]`
    Array(Vec<Expr>),
    /// `{ a: 1, b: "x" }`
    Object(Vec<(String, Expr)>),
    /// `(a, b) => expr` or `(a, b) => { stmts }`
    Arrow { params: Vec<String>, body: ArrowBody },
    /// `<html> ... </html>` inside a script
    HtmlBlock(Vec<Stmt>),
}

#[derive(Debug, PartialEq)]
pub enum ArrowBody {
    Expr(Box<Expr>),
    Block(Vec<Stmt>),
}

#[derive(Debug, Clone, Copy, PartialEq, Eq, Structural)]
pub enum PrefixOp {
    Neg,
    Not,
    PlusPlus,
    MinusMinus,
}

#[derive(Debug, Clone, Copy, PartialEq, Eq, Structural)]
pub enum PostfixOp {
    PlusPlus,
    MinusMinus,
}

#[derive(Debug, Clone, Copy, PartialEq, Eq, Structural)]
pub enum BinOp {
    Add,
    Sub,
    Mul,
    Div,
    Mod,
    Eq,
    Neq,
    StrictEq,
    StrictNeq,
    Lt,
    Lte,
    Gt,
    Gte,
    And,
    Or,
}

#[derive(Debug, Clone, Copy, PartialEq, Eq, Structural)]
pub enum AssignOp {
    Assign,
    Add,
    Sub,
    Mul,
    Div,
}

// ---- Statements ----
#[derive(Debug, PartialEq)]
pub enum RawStmt {
    /// `let/const/var x = expr;`
    VarDecl { kind: VarKind, name: String, init: Option<Expr> },
    /// `function f(a, b) { ... }`
    FunctionDecl { name: String, params: Vec<String>, body: Vec<Stmt> },
    /// `if (cond) { ... } else { ... }`
    If { cond: Expr, then: Vec<Stmt>, otherwise: Option<Vec<Stmt>> },
    /// `while (cond) { ... }`
    While { cond: Expr, body: Vec<Stmt> },
    /// `for (init; cond; update) { ... }`
    For {
        init: Option<Box<Stmt>>,
        cond: Option<Expr>,
        update: Option<Expr>,
        body: Vec<Stmt>,
    },
    /// `for (x in y) { ... }`
    ForIn { var: String, iterable: Expr, body: Vec<Stmt> },
    Return(Option<Expr>),
    Try(Expr),
    Break,
    Continue,
    /// An expression used as a statement: `f()`, `x++`, ...
    Expr(Expr),
    /// Stands where a statement failed to parse.
    Error,
}

#[derive(Debug, Clone, Copy, PartialEq, Eq, Structural)]
pub enum VarKind {
    Let,
    Const,
    Var,
}

// ---- The tree as plain values ----
pub struct SExpr {
    pub node: ExprV,
    pub span: Span,
}

pub enum ExprV {
    Number(Seq<char>),
    StringLit(Seq<char>),
    Bool(bool),
    Null,
    Ident(Seq<char>),
    Prefix(PrefixOp, Box<SExpr>),
    Postfix(PostfixOp, Box<SExpr>),
    Binary(BinOp, Box<SExpr>, Box<SExpr>),
    Assign(AssignOp, Box<SExpr>, Box<SExpr>),
    Ternary(Box<SExpr>, Box<SExpr>, Box<SExpr>),
    Member(Box<SExpr>, Seq<char>),
    Index(Box<SExpr>, Box<SExpr>),
    Call(Box<SExpr>, Seq<SExpr>),
    Array(Seq<SExpr>),
    Object(Seq<(Seq<char>, SExpr)>),
    Arrow(Seq<Seq<char>>, BodyV),
    HtmlBlock(Seq<SStmt>),
}

pub enum BodyV {
    Expr(Box<SExpr>),
    Block(Seq<SStmt>),
}

pub struct SStmt {
    pub node: StmtV,
    pub span: Span,
}

pub enum StmtV {
    VarDecl(VarKind, Seq<char>, Option<SExpr>),
    FunctionDecl(Seq<char>, Seq<Seq<char>>, Seq<SStmt>),
    If(SExpr, Seq<SStmt>, Option<Seq<SStmt>>),
    While(SExpr, Seq<SStmt>),
    For(Option<Box<SStmt>>, Option<SExpr>, Option<SExpr>, Seq<SStmt>),
    ForIn(Seq<char>, SExpr, Seq<SStmt>),
    Return(Option<SExpr>),
    Try(SExpr),
    Break,
    Continue,
    Expr(SExpr),
    Error,
}

pub open spec fn names_v(v: Seq<String>) -> Seq<Seq<char>> {
    v.map_values(|s: String| s@)
}

pub open spec fn expr_v(e: Expr) -> SExpr
    decreases e, 1nat,
{
    SExpr { node: raw_expr_v(e.node), span: e.span }
}

pub open spec fn opt_expr_v(e: Option<Expr>) -> Option<SExpr>
    decreases e, 2nat,
{
    match e {
        Some(x) => Some(expr_v(x)),
        None => None,
    }
}

pub open spec fn exprs_v(v: Seq<Expr>) -> Seq<SExpr>
    decreases v, 0nat,
{
    if v.len() == 0 {
        seq![]
    } else {
        exprs_v(v.drop_last()).push(expr_v(v.last()))
    }
}

pub open spec fn pairs_v(v: Seq<(String, Expr)>) -> Seq<(Seq<char>, SExpr)>
    decreases v, 0nat,
{
    if v.len() == 0 {
        seq![]
    } else {
        pairs_v(v.drop_last()).push((v.last().0@, expr_v(v.last().1)))
    }
}

pub open spec fn raw_expr_v(r: RawExpr) -> ExprV
    decreases r, 0nat,
{
    match r {
        RawExpr::Number(s) => ExprV::Number(s@),
        RawExpr::StringLit(s) => ExprV::StringLit(s@),
        RawExpr::Bool(b) => ExprV::Bool(b),
        RawExpr::Null => ExprV::Null,
        RawExpr::Ident(s) => ExprV::Ident(s@),
        RawExpr::Prefix { op, expr } => ExprV::Prefix(op, Box::new(expr_v(*expr))),
        RawExpr::Postfix { op, expr } => ExprV::Postfix(op, Box::new(expr_v(*expr))),
        RawExpr::Binary { op, left, right } => ExprV::Binary(
            op,
            Box::new(expr_v(*left)),
            Box::new(expr_v(*right)),
        ),
        RawExpr::Assign { op, target, value } => ExprV::Assign(
            op,
            Box::new(expr_v(*target)),
            Box::new(expr_v(*value)),
        ),
        RawExpr::Ternary { cond, then, otherwise } => ExprV::Ternary(
            Box::new(expr_v(*cond)),
            Box::new(expr_v(*then)),
            Box::new(expr_v(*otherwise)),
        ),
        RawExpr::Member { object, property } => ExprV::Member(
            Box::new(expr_v(*object)),
            property@,
        ),
        RawExpr::Index { object, index } => ExprV::Index(
            Box::new(expr_v(*object)),
            Box::new(expr_v(*index)),
        ),
        RawExpr::Call { callee, args } => ExprV::Call(Box::new(expr_v(*callee)), exprs_v(args@)),
        RawExpr::Array(items) => ExprV::Array(exprs_v(items@)),
        RawExpr::Object(pairs) => ExprV::Object(pairs_v(pairs@)),
        RawExpr::Arrow { params, body } => ExprV::Arrow(names_v(params@), body_v(body)),
        RawExpr::HtmlBlock(stmts) => ExprV::HtmlBlock(stmts_v(stmts@)),
    }
}

pub open spec fn body_v(b: ArrowBody) -> BodyV
    decreases b, 0nat,
{
    match b {
        ArrowBody::Expr(e) => BodyV::Expr(Box::new(expr_v(*e))),
        ArrowBody::Block(stmts) => BodyV::Block(stmts_v(stmts@)),
    }
}

pub open spec fn stmt_v(s: Stmt) -> SStmt
    decreases s, 1nat,
{
    SStmt { node: raw_stmt_v(s.node), span: s.span }
}

pub open spec fn stmts_v(v: Seq<Stmt>) -> Seq<SStmt>
    decreases v, 0nat,
{
    if v.len() == 0 {
        seq![]
    } else {
        stmts_v(v.drop_last()).push(stmt_v(v.last()))
    }
}

pub open spec fn opt_stmts_v(v: Option<Vec<Stmt>>) -> Option<Seq<SStmt>>
    decreases v, 0nat,
{
    match v {
        Some(x) => Some(stmts_v(x@)),
        None => None,
    }
}

pub open spec fn raw_stmt_v(r: RawStmt) -> StmtV
    decreases r, 0nat,
{
    match r {
        RawStmt::VarDecl { kind, name, init } => StmtV::VarDecl(kind, name@, opt_expr_v(init)),
        RawStmt::FunctionDecl { name, params, body } => StmtV::FunctionDecl(
            name@,
            names_v(params@),
            stmts_v(body@),
        ),
        RawStmt::If { cond, then, otherwise } => StmtV::If(
            expr_v(cond),
            stmts_v(then@),
            opt_stmts_v(otherwise),
        ),
        RawStmt::While { cond, body } => StmtV::While(expr_v(cond), stmts_v(body@)),
        RawStmt::For { init, cond, update, body } => StmtV::For(
            match init {
                Some(b) => Some(Box::new(stmt_v(*b))),
                None => None,
            },
            opt_expr_v(cond),
            opt_expr_v(update),
            stmts_v(body@),
        ),
        RawStmt::ForIn { var, iterable, body } => StmtV::ForIn(
            var@,
            expr_v(iterable),
            stmts_v(body@),
        ),
        RawStmt::Return(e) => StmtV::Return(opt_expr_v(e)),
        RawStmt::Try(e) => StmtV::Try(expr_v(e)),
        RawStmt::Break => StmtV::Break,
        RawStmt::Continue => StmtV::Continue,
        RawStmt::Expr(e) => StmtV::Expr(expr_v(e)),
        RawStmt::Error => StmtV::Error,
    }
}

/// An error raised while running a script, with the span of the code it
/// concerns.
#[derive(Debug, Clone)]
pub struct EvalError {
    pub message: String,
    pub span: Span,
}

impl EvalError {
    pub fn new(message: String, span: Span) -> (e: Self)
        ensures
            e.message == message,
            e.span == span,
    {
        EvalError { message, span }
    }
}

/// The view of a statement list has one entry per statement.
pub proof fn lemma_stmts_v_len(v: Seq<Stmt>)
    ensures
        stmts_v(v).len() == v.len(),
    decreases v.len(),
{
    if v.len() > 0 {
        lemma_stmts_v_len(v.drop_last());
    }
}

} // verus!
