//! The script syntax tree: expressions, statements and their operators.
use vstd::prelude::*;

verus! {

#[derive(Debug, Clone, Copy, PartialEq, Eq, Structural)]
pub enum BinaryOp {
    Add,
    Sub,
    Mul,
    Div,
    Mod,
    Equal,
    NotEqual,
    StrictEqual,
    StrictNotEqual,
    Less,
    LessEqual,
    Greater,
    GreaterEqual,
    And,
    Or,
    InstanceOf,
    In,
}

#[derive(Debug, Clone, Copy, PartialEq, Eq, Structural)]
pub enum UnaryOp {
    Not,
    Negate,
    TypeOf,
}

/// An expression; a number keeps the text of its literal.
#[derive(Debug, PartialEq)]
pub enum Expr {
    Number(String),
    String(String),
    Boolean(bool),
    Null,
    Undefined,
    Identifier(String),
    This,
    Binary { op: BinaryOp, left: Box<Expr>, right: Box<Expr> },
    Conditional { condition: Box<Expr>, then_expr: Box<Expr>, else_expr: Box<Expr> },
    Unary { op: UnaryOp, expr: Box<Expr> },
    Assign { target: String, value: Box<Expr> },
    AssignProp { object: Box<Expr>, property: String, value: Box<Expr> },
    AssignIndex { object: Box<Expr>, index: Box<Expr>, value: Box<Expr> },
    Call { callee: Box<Expr>, args: Vec<Expr> },
    Member { object: Box<Expr>, property: String },
    Index { object: Box<Expr>, index: Box<Expr> },
    Array(Vec<Expr>),
    Object(Vec<(String, Expr)>),
    New { callee: Box<Expr>, args: Vec<Expr> },
    FunctionExpr { name: Option<String>, params: Vec<String>, body: Vec<Stmt>, is_async: bool },
    Await(Box<Expr>),
}

#[derive(Debug, PartialEq)]
pub struct ClassMethod {
    pub name: String,
    pub params: Vec<String>,
    pub body: Vec<Stmt>,
}

#[derive(Debug, PartialEq)]
pub enum Stmt {
    VarDecl { name: String, initializer: Option<Expr> },
    Expr(Expr),
    Block(Vec<Stmt>),
    If { condition: Expr, then_branch: Box<Stmt>, else_branch: Option<Box<Stmt>> },
    While { condition: Expr, body: Box<Stmt> },
    For { init: Option<Box<Stmt>>, condition: Option<Expr>, update: Option<Expr>, body: Box<Stmt> },
    FunctionDecl { name: String, params: Vec<String>, body: Vec<Stmt>, is_async: bool },
    ClassDecl { name: String, methods: Vec<ClassMethod> },
    Return(Option<Expr>),
    TryCatch {
        try_block: Box<Stmt>,
        catch_param: Option<String>,
        catch_block: Option<Box<Stmt>>,
        finally_block: Option<Box<Stmt>>,
    },
    Throw(Expr),
}

} // verus!
