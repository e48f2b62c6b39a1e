//! The script parser: tokens to statements by recursive descent, with the
//! usual precedence of assignment, `?:`, `||`, `&&`, equality, comparison,
//! sums, products, prefix operators, calls and member access.
use vstd::prelude::*;
use crate::js::ast::{BinaryOp, ClassMethod, Expr, Stmt, UnaryOp};
use crate::js::bytecode::names_view;
use crate::js::lexer::{law_tokens_end_with_eof, lex, token_view, TokView, Token, TokenKind};
use crate::text::{decimal, push_decimal, push_str};

verus! {

/// An expression as mathematical values: texts are sequences of characters.
pub enum ExprV {
    Number(Seq<char>),
    Str(Seq<char>),
    Boolean(bool),
    Null,
    Undefined,
    Identifier(Seq<char>),
    This,
    Binary { op: BinaryOp, left: Box<ExprV>, right: Box<ExprV> },
    Conditional { condition: Box<ExprV>, then_expr: Box<ExprV>, else_expr: Box<ExprV> },
    Unary { op: UnaryOp, expr: Box<ExprV> },
    Assign { target: Seq<char>, value: Box<ExprV> },
    AssignProp { object: Box<ExprV>, property: Seq<char>, value: Box<ExprV> },
    AssignIndex { object: Box<ExprV>, index: Box<ExprV>, value: Box<ExprV> },
    Call { callee: Box<ExprV>, args: Seq<ExprV> },
    Member { object: Box<ExprV>, property: Seq<char> },
    Index { object: Box<ExprV>, index: Box<ExprV> },
    Array(Seq<ExprV>),
    Object(Seq<(Seq<char>, ExprV)>),
    New { callee: Box<ExprV>, args: Seq<ExprV> },
    FunctionExpr { name: Option<Seq<char>>, params: Seq<Seq<char>>, body: Seq<StmtV>, is_async: bool },
    Await(Box<ExprV>),
}

/// A class method as mathematical values.
pub struct MethodV {
    pub name: Seq<char>,
    pub params: Seq<Seq<char>>,
    pub body: Seq<StmtV>,
}

/// A statement as mathematical values.
pub enum StmtV {
    VarDecl { name: Seq<char>, initializer: Option<ExprV> },
    Expr(ExprV),
    Block(Seq<StmtV>),
    If { condition: ExprV, then_branch: Box<StmtV>, else_branch: Option<Box<StmtV>> },
    While { condition: ExprV, body: Box<StmtV> },
    For { init: Option<Box<StmtV>>, condition: Option<ExprV>, update: Option<ExprV>, body: Box<StmtV> },
    FunctionDecl { name: Seq<char>, params: Seq<Seq<char>>, body: Seq<StmtV>, is_async: bool },
    ClassDecl { name: Seq<char>, methods: Seq<MethodV> },
    Return(Option<ExprV>),
    TryCatch {
        try_block: Box<StmtV>,
        catch_param: Option<Seq<char>>,
        catch_block: Option<Box<StmtV>>,
        finally_block: Option<Box<StmtV>>,
    },
    Throw(ExprV),
}

pub open spec fn opt_text(o: Option<String>) -> Option<Seq<char>> {
    match o {
        Some(s) => Some(s@),
        None => None,
    }
}

/// The mathematical value of an expression.
pub open spec fn ev(e: Expr) -> ExprV
    decreases e, 1int,
{
    match e {
        Expr::Number(s) => ExprV::Number(s@),
        Expr::String(s) => ExprV::Str(s@),
        Expr::Boolean(b) => ExprV::Boolean(b),
        Expr::Null => ExprV::Null,
        Expr::Undefined => ExprV::Undefined,
        Expr::Identifier(s) => ExprV::Identifier(s@),
        Expr::This => ExprV::This,
        Expr::Binary { op, left, right } => ExprV::Binary { op, left: Box::new(ev(*left)), right: Box::new(ev(*right)) },
        Expr::Conditional { condition, then_expr, else_expr } => ExprV::Conditional {
            condition: Box::new(ev(*condition)),
            then_expr: Box::new(ev(*then_expr)),
            else_expr: Box::new(ev(*else_expr)),
        },
        Expr::Unary { op, expr } => ExprV::Unary { op, expr: Box::new(ev(*expr)) },
        Expr::Assign { target, value } => ExprV::Assign { target: target@, value: Box::new(ev(*value)) },
        Expr::AssignProp { object, property, value } => ExprV::AssignProp {
            object: Box::new(ev(*object)),
            property: property@,
            value: Box::new(ev(*value)),
        },
        Expr::AssignIndex { object, index, value } => ExprV::AssignIndex {
            object: Box::new(ev(*object)),
            index: Box::new(ev(*index)),
            value: Box::new(ev(*value)),
        },
        Expr::Call { callee, args } => ExprV::Call { callee: Box::new(ev(*callee)), args: evs(args@) },
        Expr::Member { object, property } => ExprV::Member { object: Box::new(ev(*object)), property: property@ },
        Expr::Index { object, index } => ExprV::Index { object: Box::new(ev(*object)), index: Box::new(ev(*index)) },
        Expr::Array(items) => ExprV::Array(evs(items@)),
        Expr::Object(entries) => ExprV::Object(entries_v(entries@)),
        Expr::New { callee, args } => ExprV::New { callee: Box::new(ev(*callee)), args: evs(args@) },
        Expr::FunctionExpr { name, params, body, is_async } => ExprV::FunctionExpr {
            name: opt_text(name),
            params: names_view(params),
            body: svs(body@),
            is_async,
        },
        Expr::Await(x) => ExprV::Await(Box::new(ev(*x))),
    }
}

pub open spec fn evs(es: Seq<Expr>) -> Seq<ExprV>
    decreases es, 0int,
{
    if es.len() == 0 {
        Seq::empty()
    } else {
        evs(es.subrange(0, es.len() - 1)).push(ev(es[es.len() - 1]))
    }
}

pub open spec fn entries_v(es: Seq<(String, Expr)>) -> Seq<(Seq<char>, ExprV)>
    decreases es, 0int,
{
    if es.len() == 0 {
        Seq::empty()
    } else {
        entries_v(es.subrange(0, es.len() - 1)).push((es[es.len() - 1].0@, ev(es[es.len() - 1].1)))
    }
}

/// The mathematical value of a statement.
pub open spec fn sv(s: Stmt) -> StmtV
    decreases s, 1int,
{
    match s {
        Stmt::VarDecl { name, initializer } => StmtV::VarDecl {
            name: name@,
            initializer: match initializer {
                Some(e) => Some(ev(e)),
                None => None,
            },
        },
        Stmt::Expr(e) => StmtV::Expr(ev(e)),
        Stmt::Block(b) => StmtV::Block(svs(b@)),
        Stmt::If { condition, then_branch, else_branch } => StmtV::If {
            condition: ev(condition),
            then_branch: Box::new(sv(*then_branch)),
            else_branch: match else_branch {
                Some(b) => Some(Box::new(sv(*b))),
                None => None,
            },
        },
        Stmt::While { condition, body } => StmtV::While { condition: ev(condition), body: Box::new(sv(*body)) },
        Stmt::For { init, condition, update, body } => StmtV::For {
            init: match init {
                Some(b) => Some(Box::new(sv(*b))),
                None => None,
            },
            condition: match condition {
                Some(e) => Some(ev(e)),
                None => None,
            },
            update: match update {
                Some(e) => Some(ev(e)),
                None => None,
            },
            body: Box::new(sv(*body)),
        },
        Stmt::FunctionDecl { name, params, body, is_async } => StmtV::FunctionDecl {
            name: name@,
            params: names_view(params),
            body: svs(body@),
            is_async,
        },
        Stmt::ClassDecl { name, methods } => StmtV::ClassDecl { name: name@, methods: mvs(methods@) },
        Stmt::Return(v) => StmtV::Return(
            match v {
                Some(e) => Some(ev(e)),
                None => None,
            },
        ),
        Stmt::TryCatch { try_block, catch_param, catch_block, finally_block } => StmtV::TryCatch {
            try_block: Box::new(sv(*try_block)),
            catch_param: opt_text(catch_param),
            catch_block: match catch_block {
                Some(b) => Some(Box::new(sv(*b))),
                None => None,
            },
            finally_block: match finally_block {
                Some(b) => Some(Box::new(sv(*b))),
                None => None,
            },
        },
        Stmt::Throw(e) => StmtV::Throw(ev(e)),
    }
}

pub open spec fn svs(ss: Seq<Stmt>) -> Seq<StmtV>
    decreases ss, 0int,
{
    if ss.len() == 0 {
        Seq::empty()
    } else {
        svs(ss.subrange(0, ss.len() - 1)).push(sv(ss[ss.len() - 1]))
    }
}

pub open spec fn mvs(ms: Seq<ClassMethod>) -> Seq<MethodV>
    decreases ms, 0int,
{
    if ms.len() == 0 {
        Seq::empty()
    } else {
        let m = ms[ms.len() - 1];
        mvs(ms.subrange(0, ms.len() - 1)).push(MethodV { name: m.name@, params: names_view(m.params), body: svs(m.body@) })
    }
}

/// The variant of a token kind as a number: kinds are compared by variant.
#[verifier::opaque]
pub open spec fn kind_code(k: TokenKind) -> u8 {
    match k {
        TokenKind::Number(_) => 0u8,
        TokenKind::String(_) => 1u8,
        TokenKind::Identifier(_) => 2u8,
        TokenKind::Let => 3u8,
        TokenKind::Const => 4u8,
        TokenKind::Var => 5u8,
        TokenKind::Function => 6u8,
        TokenKind::Async => 7u8,
        TokenKind::Await => 8u8,
        TokenKind::Class => 9u8,
        TokenKind::Return => 10u8,
        TokenKind::If => 11u8,
        TokenKind::Else => 12u8,
        TokenKind::While => 13u8,
        TokenKind::For => 14u8,
        TokenKind::True => 15u8,
        TokenKind::False => 16u8,
        TokenKind::Null => 17u8,
        TokenKind::Undefined => 18u8,
        TokenKind::Try => 19u8,
        TokenKind::Catch => 20u8,
        TokenKind::Finally => 21u8,
        TokenKind::Throw => 22u8,
        TokenKind::New => 23u8,
        TokenKind::TypeOf => 24u8,
        TokenKind::InstanceOf => 25u8,
        TokenKind::This => 26u8,
        TokenKind::In => 27u8,
        TokenKind::Plus => 28u8,
        TokenKind::PlusEqual => 29u8,
        TokenKind::Minus => 30u8,
        TokenKind::MinusEqual => 31u8,
        TokenKind::Star => 32u8,
        TokenKind::StarEqual => 33u8,
        TokenKind::Slash => 34u8,
        TokenKind::SlashEqual => 35u8,
        TokenKind::Percent => 36u8,
        TokenKind::Equal => 37u8,
        TokenKind::EqualEqual => 38u8,
        TokenKind::EqualEqualEqual => 39u8,
        TokenKind::NotEqual => 40u8,
        TokenKind::NotEqualEqual => 41u8,
        TokenKind::Less => 42u8,
        TokenKind::LessEqual => 43u8,
        TokenKind::Greater => 44u8,
        TokenKind::GreaterEqual => 45u8,
        TokenKind::AndAnd => 46u8,
        TokenKind::OrOr => 47u8,
        TokenKind::Bang => 48u8,
        TokenKind::Dot => 49u8,
        TokenKind::Comma => 50u8,
        TokenKind::Semicolon => 51u8,
        TokenKind::Colon => 52u8,
        TokenKind::Question => 53u8,
        TokenKind::LeftParen => 54u8,
        TokenKind::RightParen => 55u8,
        TokenKind::LeftBrace => 56u8,
        TokenKind::RightBrace => 57u8,
        TokenKind::LeftBracket => 58u8,
        TokenKind::RightBracket => 59u8,
        TokenKind::Eof => 60u8,
    }
}

/// The name of a kind's variant, as its `Debug` form writes a kind without text.
pub open spec fn kind_name(k: TokenKind) -> Seq<char> {
    match k {
        TokenKind::Number(_) => "Number"@,
        TokenKind::String(_) => "String"@,
        TokenKind::Identifier(_) => "Identifier"@,
        TokenKind::Let => "Let"@,
        TokenKind::Const => "Const"@,
        TokenKind::Var => "Var"@,
        TokenKind::Function => "Function"@,
        TokenKind::Async => "Async"@,
        TokenKind::Await => "Await"@,
        TokenKind::Class => "Class"@,
        TokenKind::Return => "Return"@,
        TokenKind::If => "If"@,
        TokenKind::Else => "Else"@,
        TokenKind::While => "While"@,
        TokenKind::For => "For"@,
        TokenKind::True => "True"@,
        TokenKind::False => "False"@,
        TokenKind::Null => "Null"@,
        TokenKind::Undefined => "Undefined"@,
        TokenKind::Try => "Try"@,
        TokenKind::Catch => "Catch"@,
        TokenKind::Finally => "Finally"@,
        TokenKind::Throw => "Throw"@,
        TokenKind::New => "New"@,
        TokenKind::TypeOf => "TypeOf"@,
        TokenKind::InstanceOf => "InstanceOf"@,
        TokenKind::This => "This"@,
        TokenKind::In => "In"@,
        TokenKind::Plus => "Plus"@,
        TokenKind::PlusEqual => "PlusEqual"@,
        TokenKind::Minus => "Minus"@,
        TokenKind::MinusEqual => "MinusEqual"@,
        TokenKind::Star => "Star"@,
        TokenKind::StarEqual => "StarEqual"@,
        TokenKind::Slash => "Slash"@,
        TokenKind::SlashEqual => "SlashEqual"@,
        TokenKind::Percent => "Percent"@,
        TokenKind::Equal => "Equal"@,
        TokenKind::EqualEqual => "EqualEqual"@,
        TokenKind::EqualEqualEqual => "EqualEqualEqual"@,
        TokenKind::NotEqual => "NotEqual"@,
        TokenKind::NotEqualEqual => "NotEqualEqual"@,
        TokenKind::Less => "Less"@,
        TokenKind::LessEqual => "LessEqual"@,
        TokenKind::Greater => "Greater"@,
        TokenKind::GreaterEqual => "GreaterEqual"@,
        TokenKind::AndAnd => "AndAnd"@,
        TokenKind::OrOr => "OrOr"@,
        TokenKind::Bang => "Bang"@,
        TokenKind::Dot => "Dot"@,
        TokenKind::Comma => "Comma"@,
        TokenKind::Semicolon => "Semicolon"@,
        TokenKind::Colon => "Colon"@,
        TokenKind::Question => "Question"@,
        TokenKind::LeftParen => "LeftParen"@,
        TokenKind::RightParen => "RightParen"@,
        TokenKind::LeftBrace => "LeftBrace"@,
        TokenKind::RightBrace => "RightBrace"@,
        TokenKind::LeftBracket => "LeftBracket"@,
        TokenKind::RightBracket => "RightBracket"@,
        TokenKind::Eof => "Eof"@,
    }
}

fn code_of(k: &TokenKind) -> (c: u8)
    ensures
        c == kind_code(*k),
{
    reveal(kind_code);
    match k {
        TokenKind::Number(_) => 0,
        TokenKind::String(_) => 1,
        TokenKind::Identifier(_) => 2,
        TokenKind::Let => 3,
        TokenKind::Const => 4,
        TokenKind::Var => 5,
        TokenKind::Function => 6,
        TokenKind::Async => 7,
        TokenKind::Await => 8,
        TokenKind::Class => 9,
        TokenKind::Return => 10,
        TokenKind::If => 11,
        TokenKind::Else => 12,
        TokenKind::While => 13,
        TokenKind::For => 14,
        TokenKind::True => 15,
        TokenKind::False => 16,
        TokenKind::Null => 17,
        TokenKind::Undefined => 18,
        TokenKind::Try => 19,
        TokenKind::Catch => 20,
        TokenKind::Finally => 21,
        TokenKind::Throw => 22,
        TokenKind::New => 23,
        TokenKind::TypeOf => 24,
        TokenKind::InstanceOf => 25,
        TokenKind::This => 26,
        TokenKind::In => 27,
        TokenKind::Plus => 28,
        TokenKind::PlusEqual => 29,
        TokenKind::Minus => 30,
        TokenKind::MinusEqual => 31,
        TokenKind::Star => 32,
        TokenKind::StarEqual => 33,
        TokenKind::Slash => 34,
        TokenKind::SlashEqual => 35,
        TokenKind::Percent => 36,
        TokenKind::Equal => 37,
        TokenKind::EqualEqual => 38,
        TokenKind::EqualEqualEqual => 39,
        TokenKind::NotEqual => 40,
        TokenKind::NotEqualEqual => 41,
        TokenKind::Less => 42,
        TokenKind::LessEqual => 43,
        TokenKind::Greater => 44,
        TokenKind::GreaterEqual => 45,
        TokenKind::AndAnd => 46,
        TokenKind::OrOr => 47,
        TokenKind::Bang => 48,
        TokenKind::Dot => 49,
        TokenKind::Comma => 50,
        TokenKind::Semicolon => 51,
        TokenKind::Colon => 52,
        TokenKind::Question => 53,
        TokenKind::LeftParen => 54,
        TokenKind::RightParen => 55,
        TokenKind::LeftBrace => 56,
        TokenKind::RightBrace => 57,
        TokenKind::LeftBracket => 58,
        TokenKind::RightBracket => 59,
        TokenKind::Eof => 60,
    }
}

fn name_of(k: &TokenKind) -> (s: String)
    ensures
        s@ == kind_name(*k),
{
    match k {
        TokenKind::Number(_) => "Number".to_owned(),
        TokenKind::String(_) => "String".to_owned(),
        TokenKind::Identifier(_) => "Identifier".to_owned(),
        TokenKind::Let => "Let".to_owned(),
        TokenKind::Const => "Const".to_owned(),
        TokenKind::Var => "Var".to_owned(),
        TokenKind::Function => "Function".to_owned(),
        TokenKind::Async => "Async".to_owned(),
        TokenKind::Await => "Await".to_owned(),
        TokenKind::Class => "Class".to_owned(),
        TokenKind::Return => "Return".to_owned(),
        TokenKind::If => "If".to_owned(),
        TokenKind::Else => "Else".to_owned(),
        TokenKind::While => "While".to_owned(),
        TokenKind::For => "For".to_owned(),
        TokenKind::True => "True".to_owned(),
        TokenKind::False => "False".to_owned(),
        TokenKind::Null => "Null".to_owned(),
        TokenKind::Undefined => "Undefined".to_owned(),
        TokenKind::Try => "Try".to_owned(),
        TokenKind::Catch => "Catch".to_owned(),
        TokenKind::Finally => "Finally".to_owned(),
        TokenKind::Throw => "Throw".to_owned(),
        TokenKind::New => "New".to_owned(),
        TokenKind::TypeOf => "TypeOf".to_owned(),
        TokenKind::InstanceOf => "InstanceOf".to_owned(),
        TokenKind::This => "This".to_owned(),
        TokenKind::In => "In".to_owned(),
        TokenKind::Plus => "Plus".to_owned(),
        TokenKind::PlusEqual => "PlusEqual".to_owned(),
        TokenKind::Minus => "Minus".to_owned(),
        TokenKind::MinusEqual => "MinusEqual".to_owned(),
        TokenKind::Star => "Star".to_owned(),
        TokenKind::StarEqual => "StarEqual".to_owned(),
        TokenKind::Slash => "Slash".to_owned(),
        TokenKind::SlashEqual => "SlashEqual".to_owned(),
        TokenKind::Percent => "Percent".to_owned(),
        TokenKind::Equal => "Equal".to_owned(),
        TokenKind::EqualEqual => "EqualEqual".to_owned(),
        TokenKind::EqualEqualEqual => "EqualEqualEqual".to_owned(),
        TokenKind::NotEqual => "NotEqual".to_owned(),
        TokenKind::NotEqualEqual => "NotEqualEqual".to_owned(),
        TokenKind::Less => "Less".to_owned(),
        TokenKind::LessEqual => "LessEqual".to_owned(),
        TokenKind::Greater => "Greater".to_owned(),
        TokenKind::GreaterEqual => "GreaterEqual".to_owned(),
        TokenKind::AndAnd => "AndAnd".to_owned(),
        TokenKind::OrOr => "OrOr".to_owned(),
        TokenKind::Bang => "Bang".to_owned(),
        TokenKind::Dot => "Dot".to_owned(),
        TokenKind::Comma => "Comma".to_owned(),
        TokenKind::Semicolon => "Semicolon".to_owned(),
        TokenKind::Colon => "Colon".to_owned(),
        TokenKind::Question => "Question".to_owned(),
        TokenKind::LeftParen => "LeftParen".to_owned(),
        TokenKind::RightParen => "RightParen".to_owned(),
        TokenKind::LeftBrace => "LeftBrace".to_owned(),
        TokenKind::RightBrace => "RightBrace".to_owned(),
        TokenKind::LeftBracket => "LeftBracket".to_owned(),
        TokenKind::RightBracket => "RightBracket".to_owned(),
        TokenKind::Eof => "Eof".to_owned(),
    }
}

/// The outcome of parsing from a position: a value and the position after
/// it, an error message, or no outcome at all (the parse would recurse
/// without end, or read a token before the first one).
pub enum Step<T> {
    Done(T, int),
    Fail(Seq<char>),
    Stuck,
}

/// Why parsing stopped without a value: a syntax error with its message, or
/// an input on which the parse has no outcome (see `Step`).
pub enum Halt {
    Error(String),
    Endless,
}

/// The tokens left from `p`.
pub open spec fn rem(t: Seq<Token>, p: int) -> nat {
    if p < t.len() {
        (t.len() - p) as nat
    } else {
        0
    }
}

/// `p` is at the end: at an end-of-input token (or past the tokens).
pub open spec fn at_end(t: Seq<Token>, p: int) -> bool {
    !(0 <= p < t.len()) || t[p].kind is Eof
}

/// The token at `p` is of kind `k`, and not the end.
pub open spec fn check(t: Seq<Token>, p: int, k: TokenKind) -> bool {
    !at_end(t, p) && kind_code(t[p].kind) == kind_code(k)
}

/// Where taking a token from `p` leaves the cursor: it does not move at the end.
pub open spec fn adv(t: Seq<Token>, p: int) -> int {
    if at_end(t, p) {
        p
    } else {
        p + 1
    }
}

pub open spec fn at_line(t: Seq<Token>, p: int) -> Seq<char> {
    " at line "@ + decimal(t[p].line as nat)
}

/// A required token: taken when it is there, else the message and the line of the token found.
pub open spec fn expect(t: Seq<Token>, p: int, k: TokenKind, msg: Seq<char>) -> Step<()> {
    if check(t, p, k) {
        Step::Done((), p + 1)
    } else {
        Step::Fail(msg + at_line(t, p))
    }
}

/// Takes a token that must be a name; at the end the token before the end is read again.
pub open spec fn take_name(t: Seq<Token>, p: int, msg: Seq<char>) -> Step<Seq<char>> {
    let q = adv(t, p);
    if q < 1 {
        Step::Stuck
    } else {
        match t[q - 1].kind {
            TokenKind::Identifier(n) => Step::Done(n@, q),
            _ => Step::Fail(msg + at_line(t, q - 1)),
        }
    }
}

/// An optional `;`.
pub open spec fn skip_semi(t: Seq<Token>, p: int) -> int {
    if check(t, p, TokenKind::Semicolon) {
        p + 1
    } else {
        p
    }
}

/// The names of a parameter list from `p` (after its `(`) up to its `)`.
#[verifier::opaque]
pub open spec fn parse_params(t: Seq<Token>, p: int) -> Step<Seq<Seq<char>>> {
    if check(t, p, TokenKind::RightParen) {
        Step::Done(Seq::empty(), p)
    } else {
        parse_param_items(t, p, Seq::empty())
    }
}

pub open spec fn parse_param_items(t: Seq<Token>, p: int, acc: Seq<Seq<char>>) -> Step<Seq<Seq<char>>>
    decreases rem(t, p),
{
    match take_name(t, p, "Expected parameter name"@) {
        Step::Done(n, q) => if check(t, q, TokenKind::Comma) {
            parse_param_items(t, q + 1, acc.push(n))
        } else {
            Step::Done(acc.push(n), q)
        },
        Step::Fail(m) => Step::Fail(m),
        Step::Stuck => Step::Stuck,
    }
}

/// The precedence level and operator of a binary operator token: 0 `||`,
/// 1 `&&`, 2 equality, 3 comparison, 4 sums, 5 products.
pub open spec fn binary_of(k: TokenKind) -> Option<(int, BinaryOp)> {
    match k {
        TokenKind::OrOr => Some((0, BinaryOp::Or)),
        TokenKind::AndAnd => Some((1, BinaryOp::And)),
        TokenKind::EqualEqual => Some((2, BinaryOp::Equal)),
        TokenKind::EqualEqualEqual => Some((2, BinaryOp::StrictEqual)),
        TokenKind::NotEqual => Some((2, BinaryOp::NotEqual)),
        TokenKind::NotEqualEqual => Some((2, BinaryOp::StrictNotEqual)),
        TokenKind::Greater => Some((3, BinaryOp::Greater)),
        TokenKind::GreaterEqual => Some((3, BinaryOp::GreaterEqual)),
        TokenKind::Less => Some((3, BinaryOp::Less)),
        TokenKind::LessEqual => Some((3, BinaryOp::LessEqual)),
        TokenKind::InstanceOf => Some((3, BinaryOp::InstanceOf)),
        TokenKind::In => Some((3, BinaryOp::In)),
        TokenKind::Plus => Some((4, BinaryOp::Add)),
        TokenKind::Minus => Some((4, BinaryOp::Sub)),
        TokenKind::Star => Some((5, BinaryOp::Mul)),
        TokenKind::Slash => Some((5, BinaryOp::Div)),
        TokenKind::Percent => Some((5, BinaryOp::Mod)),
        _ => None,
    }
}

/// The operator of level `l` at `p`, if there is one.
pub open spec fn level_op(t: Seq<Token>, p: int, l: int) -> Option<BinaryOp> {
    if at_end(t, p) {
        None
    } else {
        match binary_of(t[p].kind) {
            Some((lv, op)) => if lv == l {
                Some(op)
            } else {
                None
            },
            None => None,
        }
    }
}

/// `target op= value` written out as `target = target op value`.
pub open spec fn compound(target: ExprV, op: BinaryOp, value: ExprV) -> Option<ExprV> {
    match target {
        ExprV::Identifier(n) => Some(ExprV::Assign {
            target: n,
            value: Box::new(ExprV::Binary { op, left: Box::new(ExprV::Identifier(n)), right: Box::new(value) }),
        }),
        ExprV::Member { object, property } => Some(ExprV::AssignProp {
            object,
            property,
            value: Box::new(ExprV::Binary { op, left: Box::new(ExprV::Member { object, property }), right: Box::new(value) }),
        }),
        ExprV::Index { object, index } => Some(ExprV::AssignIndex {
            object,
            index,
            value: Box::new(ExprV::Binary { op, left: Box::new(ExprV::Index { object, index }), right: Box::new(value) }),
        }),
        _ => None,
    }
}

/// The compound assignment operator at `p`, with its arithmetic.
pub open spec fn compound_op(t: Seq<Token>, p: int) -> Option<BinaryOp> {
    if check(t, p, TokenKind::PlusEqual) {
        Some(BinaryOp::Add)
    } else if check(t, p, TokenKind::MinusEqual) {
        Some(BinaryOp::Sub)
    } else if check(t, p, TokenKind::StarEqual) {
        Some(BinaryOp::Mul)
    } else if check(t, p, TokenKind::SlashEqual) {
        Some(BinaryOp::Div)
    } else {
        None
    }
}

/// An assignment expression (the whole expression grammar) from `p`.
#[verifier::opaque]
pub open spec fn parse_assignment(t: Seq<Token>, p: int) -> Step<ExprV>
    decreases rem(t, p), 24int,
{
    match parse_conditional(t, p) {
        Step::Done(e, q) => if q < p {
            Step::Stuck
        } else if check(t, q, TokenKind::Equal) {
            match parse_assignment(t, q + 1) {
                Step::Done(v, q1) => match e {
                    ExprV::Identifier(n) => Step::Done(ExprV::Assign { target: n, value: Box::new(v) }, q1),
                    ExprV::Member { object, property } => Step::Done(
                        ExprV::AssignProp { object, property, value: Box::new(v) },
                        q1,
                    ),
                    ExprV::Index { object, index } => Step::Done(ExprV::AssignIndex { object, index, value: Box::new(v) }, q1),
                    _ => Step::Fail("Invalid assignment target"@ + at_line(t, q1 - 1)),
                },
                Step::Fail(m) => Step::Fail(m),
                Step::Stuck => Step::Stuck,
            }
        } else {
            match compound_op(t, q) {
                Some(op) => match parse_assignment(t, q + 1) {
                    Step::Done(v, q1) => match compound(e, op, v) {
                        Some(x) => Step::Done(x, q1),
                        None => Step::Fail("Invalid compound assignment target"@),
                    },
                    Step::Fail(m) => Step::Fail(m),
                    Step::Stuck => Step::Stuck,
                },
                None => Step::Done(e, q),
            }
        },
        Step::Fail(m) => Step::Fail(m),
        Step::Stuck => Step::Stuck,
    }
}

/// `c ? a : b`, or just `c`.
#[verifier::opaque]
pub open spec fn parse_conditional(t: Seq<Token>, p: int) -> Step<ExprV>
    decreases rem(t, p), 23int,
{
    match parse_binary(t, p, 0) {
        Step::Done(c, q) => if q < p {
            Step::Stuck
        } else if check(t, q, TokenKind::Question) {
            match parse_assignment(t, q + 1) {
                Step::Done(a, q1) => if q1 < q + 1 {
                    Step::Stuck
                } else {
                    match expect(t, q1, TokenKind::Colon, "Expected ':' in conditional expression"@) {
                        Step::Done(_, q2) => match parse_assignment(t, q2) {
                            Step::Done(b, q3) => Step::Done(
                                ExprV::Conditional { condition: Box::new(c), then_expr: Box::new(a), else_expr: Box::new(b) },
                                q3,
                            ),
                            Step::Fail(m) => Step::Fail(m),
                            Step::Stuck => Step::Stuck,
                        },
                        Step::Fail(m) => Step::Fail(m),
                        Step::Stuck => Step::Stuck,
                    }
                },
                Step::Fail(m) => Step::Fail(m),
                Step::Stuck => Step::Stuck,
            }
        } else {
            Step::Done(c, q)
        },
        Step::Fail(m) => Step::Fail(m),
        Step::Stuck => Step::Stuck,
    }
}

/// A left-associative chain of operators of level `l` (see `level_op`).
#[verifier::opaque]
pub open spec fn parse_binary(t: Seq<Token>, p: int, l: int) -> Step<ExprV>
    decreases rem(t, p), 22 - 2 * l,
{
    if !(0 <= l <= 5) {
        Step::Stuck
    } else {
        let first = if l == 5 {
            parse_unary(t, p)
        } else {
            parse_binary(t, p, l + 1)
        };
        match first {
            Step::Done(e, q) => if q < p {
                Step::Stuck
            } else {
                parse_binary_rest(t, q, l, e)
            },
            Step::Fail(m) => Step::Fail(m),
            Step::Stuck => Step::Stuck,
        }
    }
}

pub open spec fn parse_binary_rest(t: Seq<Token>, p: int, l: int, left: ExprV) -> Step<ExprV>
    decreases rem(t, p), 21 - 2 * l,
{
    if !(0 <= l <= 5) {
        Step::Stuck
    } else {
        match level_op(t, p, l) {
            Some(op) => {
                let right = if l == 5 {
                    parse_unary(t, p + 1)
                } else {
                    parse_binary(t, p + 1, l + 1)
                };
                match right {
                    Step::Done(r, q) => if q < p + 1 {
                        Step::Stuck
                    } else {
                        parse_binary_rest(t, q, l, ExprV::Binary { op, left: Box::new(left), right: Box::new(r) })
                    },
                    Step::Fail(m) => Step::Fail(m),
                    Step::Stuck => Step::Stuck,
                }
            },
            None => Step::Done(left, p),
        }
    }
}

/// Prefix operators `!`, `-`, `typeof`, `await` and `new`.
#[verifier::opaque]
pub open spec fn parse_unary(t: Seq<Token>, p: int) -> Step<ExprV>
    decreases rem(t, p), 10int,
{
    if check(t, p, TokenKind::Bang) || check(t, p, TokenKind::Minus) || check(t, p, TokenKind::TypeOf) {
        let op = if check(t, p, TokenKind::Bang) {
            UnaryOp::Not
        } else if check(t, p, TokenKind::Minus) {
            UnaryOp::Negate
        } else {
            UnaryOp::TypeOf
        };
        match parse_unary(t, p + 1) {
            Step::Done(x, q) => Step::Done(ExprV::Unary { op, expr: Box::new(x) }, q),
            Step::Fail(m) => Step::Fail(m),
            Step::Stuck => Step::Stuck,
        }
    } else if check(t, p, TokenKind::Await) {
        match parse_unary(t, p + 1) {
            Step::Done(x, q) => Step::Done(ExprV::Await(Box::new(x)), q),
            Step::Fail(m) => Step::Fail(m),
            Step::Stuck => Step::Stuck,
        }
    } else if check(t, p, TokenKind::New) {
        match parse_call(t, p + 1) {
            Step::Done(c, q) => Step::Done(
                match c {
                    ExprV::Call { callee, args } => ExprV::New { callee, args },
                    other => ExprV::New { callee: Box::new(other), args: Seq::empty() },
                },
                q,
            ),
            Step::Fail(m) => Step::Fail(m),
            Step::Stuck => Step::Stuck,
        }
    } else {
        parse_call(t, p)
    }
}

/// A primary expression followed by calls, `.name` and `[index]`.
#[verifier::opaque]
pub open spec fn parse_call(t: Seq<Token>, p: int) -> Step<ExprV>
    decreases rem(t, p), 9int,
{
    match parse_primary(t, p) {
        Step::Done(e, q) => if q < p {
            Step::Stuck
        } else {
            parse_call_rest(t, q, e)
        },
        Step::Fail(m) => Step::Fail(m),
        Step::Stuck => Step::Stuck,
    }
}

pub open spec fn parse_call_rest(t: Seq<Token>, p: int, e: ExprV) -> Step<ExprV>
    decreases rem(t, p), 8int,
{
    if check(t, p, TokenKind::LeftParen) {
        let args = if check(t, p + 1, TokenKind::RightParen) {
            Step::Done(Seq::empty(), p + 1)
        } else {
            parse_args(t, p + 1, Seq::empty())
        };
        match args {
            Step::Done(a, q) => if q < p + 1 {
                Step::Stuck
            } else {
                match expect(t, q, TokenKind::RightParen, "Expected ')' after arguments"@) {
                    Step::Done(_, q1) => parse_call_rest(t, q1, ExprV::Call { callee: Box::new(e), args: a }),
                    Step::Fail(m) => Step::Fail(m),
                    Step::Stuck => Step::Stuck,
                }
            },
            Step::Fail(m) => Step::Fail(m),
            Step::Stuck => Step::Stuck,
        }
    } else if check(t, p, TokenKind::Dot) {
        match take_name(t, p + 1, "Expected property name after '.'"@) {
            Step::Done(n, q) => parse_call_rest(t, q, ExprV::Member { object: Box::new(e), property: n }),
            Step::Fail(m) => Step::Fail(m),
            Step::Stuck => Step::Stuck,
        }
    } else if check(t, p, TokenKind::LeftBracket) {
        match parse_assignment(t, p + 1) {
            Step::Done(i, q) => if q < p + 1 {
                Step::Stuck
            } else {
                match expect(t, q, TokenKind::RightBracket, "Expected ']' after index"@) {
                    Step::Done(_, q1) => parse_call_rest(t, q1, ExprV::Index { object: Box::new(e), index: Box::new(i) }),
                    Step::Fail(m) => Step::Fail(m),
                    Step::Stuck => Step::Stuck,
                }
            },
            Step::Fail(m) => Step::Fail(m),
            Step::Stuck => Step::Stuck,
        }
    } else {
        Step::Done(e, p)
    }
}

/// Comma-separated expressions: call arguments and array elements.
pub open spec fn parse_args(t: Seq<Token>, p: int, acc: Seq<ExprV>) -> Step<Seq<ExprV>>
    decreases rem(t, p), 26int,
{
    match parse_assignment(t, p) {
        Step::Done(a, q) => if q < p {
            Step::Stuck
        } else if check(t, q, TokenKind::Comma) {
            parse_args(t, q + 1, acc.push(a))
        } else {
            Step::Done(acc.push(a), q)
        },
        Step::Fail(m) => Step::Fail(m),
        Step::Stuck => Step::Stuck,
    }
}

/// `key: value` entries of an object literal.
pub open spec fn parse_entries(t: Seq<Token>, p: int, acc: Seq<(Seq<char>, ExprV)>) -> Step<Seq<(Seq<char>, ExprV)>>
    decreases rem(t, p), 0int,
{
    let q = adv(t, p);
    if q < 1 {
        Step::Stuck
    } else {
        let key = match t[q - 1].kind {
            TokenKind::Identifier(k) => Some(k@),
            TokenKind::String(s) => Some(s@),
            _ => None,
        };
        match key {
            None => Step::Fail("Expected property key in object literal"@ + at_line(t, q - 1)),
            Some(k) => match expect(t, q, TokenKind::Colon, "Expected ':' after property key"@) {
                Step::Done(_, q1) => match parse_assignment(t, q1) {
                    Step::Done(v, q2) => if q2 < q1 {
                        Step::Stuck
                    } else if check(t, q2, TokenKind::Comma) {
                        parse_entries(t, q2 + 1, acc.push((k, v)))
                    } else {
                        Step::Done(acc.push((k, v)), q2)
                    },
                    Step::Fail(m) => Step::Fail(m),
                    Step::Stuck => Step::Stuck,
                },
                Step::Fail(m) => Step::Fail(m),
                Step::Stuck => Step::Stuck,
            },
        }
    }
}

/// The parameters in brackets and the body in braces of a function or
/// method, with the messages for a missing `(`, `)` and `{`.
#[verifier::opaque]
pub open spec fn parse_signature(t: Seq<Token>, p: int, open: Seq<char>, close: Seq<char>, body: Seq<char>) -> Step<
    (Seq<Seq<char>>, Seq<StmtV>),
>
    decreases rem(t, p), 0int,
{
    match expect(t, p, TokenKind::LeftParen, open) {
        Step::Done(_, q1) => match parse_params(t, q1) {
            Step::Done(ps, q2) => if q2 < q1 {
                Step::Stuck
            } else {
                match expect(t, q2, TokenKind::RightParen, close) {
                    Step::Done(_, q3) => match expect(t, q3, TokenKind::LeftBrace, body) {
                        Step::Done(_, q4) => match parse_block(t, q4) {
                            Step::Done(b, q5) => Step::Done((ps, b), q5),
                            Step::Fail(m) => Step::Fail(m),
                            Step::Stuck => Step::Stuck,
                        },
                        Step::Fail(m) => Step::Fail(m),
                        Step::Stuck => Step::Stuck,
                    },
                    Step::Fail(m) => Step::Fail(m),
                    Step::Stuck => Step::Stuck,
                }
            },
            Step::Fail(m) => Step::Fail(m),
            Step::Stuck => Step::Stuck,
        },
        Step::Fail(m) => Step::Fail(m),
        Step::Stuck => Step::Stuck,
    }
}

/// A function expression after `function`: an optional name, the parameters and the body.
#[verifier::opaque]
pub open spec fn parse_function_expr(t: Seq<Token>, p: int, is_async: bool) -> Step<ExprV>
    decreases rem(t, p), 1int,
{
    let name: Option<Seq<char>> = if 0 <= p < t.len() {
        match t[p].kind {
            TokenKind::Identifier(n) => Some(n@),
            _ => None,
        }
    } else {
        None
    };
    let q = if name is Some {
        p + 1
    } else {
        p
    };
    match parse_signature(
        t,
        q,
        "Expected '(' after function"@,
        "Expected ')' after parameters"@,
        "Expected '{' before function body"@,
    ) {
        Step::Done((params, body), q1) => Step::Done(ExprV::FunctionExpr { name, params, body, is_async }, q1),
        Step::Fail(m) => Step::Fail(m),
        Step::Stuck => Step::Stuck,
    }
}


/// The elements of an array literal after its `[`, and the `]`.
#[verifier::opaque]
pub open spec fn parse_array(t: Seq<Token>, p: int) -> Step<ExprV>
    decreases rem(t, p), 27int,
{
    let items = if check(t, p, TokenKind::RightBracket) {
        Step::Done(Seq::empty(), p)
    } else {
        parse_args(t, p, Seq::empty())
    };
    match items {
        Step::Done(v, q) => match expect(t, q, TokenKind::RightBracket, "Expected ']' after array elements"@) {
            Step::Done(_, q1) => Step::Done(ExprV::Array(v), q1),
            Step::Fail(m) => Step::Fail(m),
            Step::Stuck => Step::Stuck,
        },
        Step::Fail(m) => Step::Fail(m),
        Step::Stuck => Step::Stuck,
    }
}

/// The entries of an object literal after its `{`, and the `}`.
#[verifier::opaque]
pub open spec fn parse_object(t: Seq<Token>, p: int) -> Step<ExprV>
    decreases rem(t, p), 1int,
{
    let entries = if check(t, p, TokenKind::RightBrace) {
        Step::Done(Seq::empty(), p)
    } else {
        parse_entries(t, p, Seq::empty())
    };
    match entries {
        Step::Done(v, q) => match expect(t, q, TokenKind::RightBrace, "Expected '}' after object properties"@) {
            Step::Done(_, q1) => Step::Done(ExprV::Object(v), q1),
            Step::Fail(m) => Step::Fail(m),
            Step::Stuck => Step::Stuck,
        },
        Step::Fail(m) => Step::Fail(m),
        Step::Stuck => Step::Stuck,
    }
}

/// A number, string, name or parenthesised expression. At the end the token
/// before the end is read again; when that is a `(`, the parse never returns.
#[verifier::opaque]
pub open spec fn parse_operand(t: Seq<Token>, p: int) -> Step<ExprV>
    decreases rem(t, p), 6int,
{
    let q = adv(t, p);
    if q < 1 {
        Step::Stuck
    } else {
        match t[q - 1].kind {
            TokenKind::Number(n) => Step::Done(ExprV::Number(n@), q),
            TokenKind::String(s) => Step::Done(ExprV::Str(s@), q),
            TokenKind::Identifier(n) => Step::Done(ExprV::Identifier(n@), q),
            TokenKind::LeftParen => if q == p {
                Step::Stuck
            } else {
                match parse_assignment(t, q) {
                    Step::Done(e, q1) => match expect(t, q1, TokenKind::RightParen, "Expected ')' after expression"@) {
                        Step::Done(_, q2) => Step::Done(e, q2),
                        Step::Fail(m) => Step::Fail(m),
                        Step::Stuck => Step::Stuck,
                    },
                    Step::Fail(m) => Step::Fail(m),
                    Step::Stuck => Step::Stuck,
                }
            },
            k => Step::Fail("Unexpected token "@ + kind_name(k) + at_line(t, q - 1)),
        }
    }
}

/// Literals, names, `this`, array and object literals, function expressions
/// and parenthesised expressions.
#[verifier::opaque]
pub open spec fn parse_primary(t: Seq<Token>, p: int) -> Step<ExprV>
    decreases rem(t, p), 7int,
{
    if check(t, p, TokenKind::False) {
        Step::Done(ExprV::Boolean(false), p + 1)
    } else if check(t, p, TokenKind::True) {
        Step::Done(ExprV::Boolean(true), p + 1)
    } else if check(t, p, TokenKind::Null) {
        Step::Done(ExprV::Null, p + 1)
    } else if check(t, p, TokenKind::Undefined) {
        Step::Done(ExprV::Undefined, p + 1)
    } else if check(t, p, TokenKind::This) {
        Step::Done(ExprV::This, p + 1)
    } else if check(t, p, TokenKind::LeftBracket) {
        parse_array(t, p + 1)
    } else if check(t, p, TokenKind::LeftBrace) {
        parse_object(t, p + 1)
    } else if check(t, p, TokenKind::Async) {
        match expect(t, p + 1, TokenKind::Function, "Expected 'function' after 'async'"@) {
            Step::Done(_, q) => parse_function_expr(t, q, true),
            Step::Fail(m) => Step::Fail(m),
            Step::Stuck => Step::Stuck,
        }
    } else if check(t, p, TokenKind::Function) {
        parse_function_expr(t, p + 1, false)
    } else {
        parse_operand(t, p)
    }
}

/// The statements of a block up to its `}`, and the `}`.
#[verifier::opaque]
pub open spec fn parse_block(t: Seq<Token>, p: int) -> Step<Seq<StmtV>>
    decreases rem(t, p), 30int,
{
    match parse_block_items(t, p, Seq::empty()) {
        Step::Done(ss, q) => match expect(t, q, TokenKind::RightBrace, "Expected '}' after block"@) {
            Step::Done(_, q1) => Step::Done(ss, q1),
            Step::Fail(m) => Step::Fail(m),
            Step::Stuck => Step::Stuck,
        },
        Step::Fail(m) => Step::Fail(m),
        Step::Stuck => Step::Stuck,
    }
}

pub open spec fn parse_block_items(t: Seq<Token>, p: int, acc: Seq<StmtV>) -> Step<Seq<StmtV>>
    decreases rem(t, p), 29int,
{
    if check(t, p, TokenKind::RightBrace) || at_end(t, p) {
        Step::Done(acc, p)
    } else {
        match parse_declaration(t, p) {
            Step::Done(s, q) => if q <= p {
                Step::Stuck
            } else {
                parse_block_items(t, q, acc.push(s))
            },
            Step::Fail(m) => Step::Fail(m),
            Step::Stuck => Step::Stuck,
        }
    }
}

/// A declaration (`let`, `const`, `var`, `function`, `async function`, `class`) or a statement.
#[verifier::opaque]
pub open spec fn parse_declaration(t: Seq<Token>, p: int) -> Step<StmtV>
    decreases rem(t, p), 28int,
{
    if check(t, p, TokenKind::Let) || check(t, p, TokenKind::Const) || check(t, p, TokenKind::Var) {
        parse_var_decl(t, p + 1)
    } else if check(t, p, TokenKind::Async) {
        match expect(t, p + 1, TokenKind::Function, "Expected 'function' after 'async'"@) {
            Step::Done(_, q) => parse_function_decl(t, q, true),
            Step::Fail(m) => Step::Fail(m),
            Step::Stuck => Step::Stuck,
        }
    } else if check(t, p, TokenKind::Function) {
        parse_function_decl(t, p + 1, false)
    } else if check(t, p, TokenKind::Class) {
        parse_class_decl(t, p + 1)
    } else {
        parse_statement(t, p)
    }
}

/// A variable after its keyword: the name, an optional `= value` and an optional `;`.
#[verifier::opaque]
pub open spec fn parse_var_decl(t: Seq<Token>, p: int) -> Step<StmtV>
    decreases rem(t, p), 0int,
{
    match take_name(t, p, "Expected variable name"@) {
        Step::Done(n, q) => if check(t, q, TokenKind::Equal) {
            match parse_assignment(t, q + 1) {
                Step::Done(v, q1) => Step::Done(StmtV::VarDecl { name: n, initializer: Some(v) }, skip_semi(t, q1)),
                Step::Fail(m) => Step::Fail(m),
                Step::Stuck => Step::Stuck,
            }
        } else {
            Step::Done(StmtV::VarDecl { name: n, initializer: None }, skip_semi(t, q))
        },
        Step::Fail(m) => Step::Fail(m),
        Step::Stuck => Step::Stuck,
    }
}

/// A function declaration after `function`: the name, the parameters and the body.
#[verifier::opaque]
pub open spec fn parse_function_decl(t: Seq<Token>, p: int, is_async: bool) -> Step<StmtV>
    decreases rem(t, p), 1int,
{
    match take_name(t, p, "Expected function name"@) {
        Step::Done(name, q) => match parse_signature(
            t,
            q,
            "Expected '(' after function name"@,
            "Expected ')' after parameters"@,
            "Expected '{' before function body"@,
        ) {
            Step::Done((params, body), q1) => Step::Done(StmtV::FunctionDecl { name, params, body, is_async }, q1),
            Step::Fail(m) => Step::Fail(m),
            Step::Stuck => Step::Stuck,
        },
        Step::Fail(m) => Step::Fail(m),
        Step::Stuck => Step::Stuck,
    }
}

/// A class after `class`: the name and `{ method(params) { body } ... }`.
#[verifier::opaque]
pub open spec fn parse_class_decl(t: Seq<Token>, p: int) -> Step<StmtV>
    decreases rem(t, p), 0int,
{
    match take_name(t, p, "Expected class name"@) {
        Step::Done(name, q) => match expect(t, q, TokenKind::LeftBrace, "Expected '{' after class name"@) {
            Step::Done(_, q1) => match parse_methods(t, q1, name, Seq::empty()) {
                Step::Done(methods, q2) => match expect(t, q2, TokenKind::RightBrace, "Expected '}' after class body"@) {
                    Step::Done(_, q3) => Step::Done(StmtV::ClassDecl { name, methods }, q3),
                    Step::Fail(m) => Step::Fail(m),
                    Step::Stuck => Step::Stuck,
                },
                Step::Fail(m) => Step::Fail(m),
                Step::Stuck => Step::Stuck,
            },
            Step::Fail(m) => Step::Fail(m),
            Step::Stuck => Step::Stuck,
        },
        Step::Fail(m) => Step::Fail(m),
        Step::Stuck => Step::Stuck,
    }
}

pub open spec fn parse_methods(t: Seq<Token>, p: int, class: Seq<char>, acc: Seq<MethodV>) -> Step<Seq<MethodV>>
    decreases rem(t, p), 0int,
{
    if check(t, p, TokenKind::RightBrace) || at_end(t, p) {
        Step::Done(acc, p)
    } else {
        match take_name(t, p, "Expected method name in class '"@ + class + "'"@) {
            Step::Done(name, q) => match parse_signature(
                t,
                q,
                "Expected '(' after method name"@,
                "Expected ')' after method parameters"@,
                "Expected '{' before method body"@,
            ) {
                Step::Done((params, body), q1) => if q1 <= p {
                    Step::Stuck
                } else {
                    parse_methods(t, q1, class, acc.push(MethodV { name, params, body }))
                },
                Step::Fail(m) => Step::Fail(m),
                Step::Stuck => Step::Stuck,
            },
            Step::Fail(m) => Step::Fail(m),
            Step::Stuck => Step::Stuck,
        }
    }
}

/// A statement: `if`, `while`, `for`, `return`, `try`, `throw`, a block or an expression.
#[verifier::opaque]
pub open spec fn parse_statement(t: Seq<Token>, p: int) -> Step<StmtV>
    decreases rem(t, p), 27int,
{
    if check(t, p, TokenKind::If) {
        parse_if(t, p + 1)
    } else if check(t, p, TokenKind::While) {
        parse_while(t, p + 1)
    } else if check(t, p, TokenKind::For) {
        parse_for(t, p + 1)
    } else if check(t, p, TokenKind::Return) {
        parse_return(t, p + 1)
    } else if check(t, p, TokenKind::Try) {
        parse_try(t, p + 1)
    } else if check(t, p, TokenKind::Throw) {
        parse_throw(t, p + 1)
    } else if check(t, p, TokenKind::LeftBrace) {
        match parse_block(t, p + 1) {
            Step::Done(b, q) => Step::Done(StmtV::Block(b), q),
            Step::Fail(m) => Step::Fail(m),
            Step::Stuck => Step::Stuck,
        }
    } else {
        parse_expr_stmt(t, p)
    }
}

/// `throw` and a value, with an optional `;`.
#[verifier::opaque]
pub open spec fn parse_throw(t: Seq<Token>, p: int) -> Step<StmtV>
    decreases rem(t, p), 26int,
{
    match parse_assignment(t, p) {
        Step::Done(e, q) => Step::Done(StmtV::Throw(e), skip_semi(t, q)),
        Step::Fail(m) => Step::Fail(m),
        Step::Stuck => Step::Stuck,
    }
}

/// An expression used as a statement, with an optional `;`.
#[verifier::opaque]
pub open spec fn parse_expr_stmt(t: Seq<Token>, p: int) -> Step<StmtV>
    decreases rem(t, p), 26int,
{
    match parse_assignment(t, p) {
        Step::Done(e, q) => Step::Done(StmtV::Expr(e), skip_semi(t, q)),
        Step::Fail(m) => Step::Fail(m),
        Step::Stuck => Step::Stuck,
    }
}

/// `return` with a value unless a `;` or `}` follows.
#[verifier::opaque]
pub open spec fn parse_return(t: Seq<Token>, p: int) -> Step<StmtV>
    decreases rem(t, p), 26int,
{
    if !check(t, p, TokenKind::Semicolon) && !check(t, p, TokenKind::RightBrace) {
        match parse_assignment(t, p) {
            Step::Done(v, q) => Step::Done(StmtV::Return(Some(v)), skip_semi(t, q)),
            Step::Fail(m) => Step::Fail(m),
            Step::Stuck => Step::Stuck,
        }
    } else {
        Step::Done(StmtV::Return(None), skip_semi(t, p))
    }
}

/// `( condition )` and a statement, with an optional `else` statement.
#[verifier::opaque]
pub open spec fn parse_if(t: Seq<Token>, p: int) -> Step<StmtV>
    decreases rem(t, p), 0int,
{
    match expect(t, p, TokenKind::LeftParen, "Expected '(' after 'if'"@) {
        Step::Done(_, q) => match parse_assignment(t, q) {
            Step::Done(c, q1) => if q1 < q {
                Step::Stuck
            } else {
                match expect(t, q1, TokenKind::RightParen, "Expected ')' after condition"@) {
                    Step::Done(_, q2) => match parse_statement(t, q2) {
                        Step::Done(th, q3) => if q3 < q2 {
                            Step::Stuck
                        } else if check(t, q3, TokenKind::Else) {
                            match parse_statement(t, q3 + 1) {
                                Step::Done(el, q4) => Step::Done(
                                    StmtV::If { condition: c, then_branch: Box::new(th), else_branch: Some(Box::new(el)) },
                                    q4,
                                ),
                                Step::Fail(m) => Step::Fail(m),
                                Step::Stuck => Step::Stuck,
                            }
                        } else {
                            Step::Done(StmtV::If { condition: c, then_branch: Box::new(th), else_branch: None }, q3)
                        },
                        Step::Fail(m) => Step::Fail(m),
                        Step::Stuck => Step::Stuck,
                    },
                    Step::Fail(m) => Step::Fail(m),
                    Step::Stuck => Step::Stuck,
                }
            },
            Step::Fail(m) => Step::Fail(m),
            Step::Stuck => Step::Stuck,
        },
        Step::Fail(m) => Step::Fail(m),
        Step::Stuck => Step::Stuck,
    }
}

/// `( condition )` and the loop body.
#[verifier::opaque]
pub open spec fn parse_while(t: Seq<Token>, p: int) -> Step<StmtV>
    decreases rem(t, p), 0int,
{
    match expect(t, p, TokenKind::LeftParen, "Expected '(' after 'while'"@) {
        Step::Done(_, q) => match parse_assignment(t, q) {
            Step::Done(c, q1) => if q1 < q {
                Step::Stuck
            } else {
                match expect(t, q1, TokenKind::RightParen, "Expected ')' after condition"@) {
                    Step::Done(_, q2) => match parse_statement(t, q2) {
                        Step::Done(b, q3) => Step::Done(StmtV::While { condition: c, body: Box::new(b) }, q3),
                        Step::Fail(m) => Step::Fail(m),
                        Step::Stuck => Step::Stuck,
                    },
                    Step::Fail(m) => Step::Fail(m),
                    Step::Stuck => Step::Stuck,
                }
            },
            Step::Fail(m) => Step::Fail(m),
            Step::Stuck => Step::Stuck,
        },
        Step::Fail(m) => Step::Fail(m),
        Step::Stuck => Step::Stuck,
    }
}

/// An expression initialiser of a `for` and its `;`.
#[verifier::opaque]
pub open spec fn parse_for_expr_init(t: Seq<Token>, p: int) -> Step<Option<StmtV>>
    decreases rem(t, p), 26int,
{
    match parse_assignment(t, p) {
        Step::Done(e, q) => match expect(t, q, TokenKind::Semicolon, "Expected ';' after for init"@) {
            Step::Done(_, q1) => Step::Done(Some(StmtV::Expr(e)), q1),
            Step::Fail(m) => Step::Fail(m),
            Step::Stuck => Step::Stuck,
        },
        Step::Fail(m) => Step::Fail(m),
        Step::Stuck => Step::Stuck,
    }
}

/// The initialiser of a `for`: nothing and `;`, a variable, or an expression and `;`.
#[verifier::opaque]
pub open spec fn parse_for_init(t: Seq<Token>, p: int) -> Step<Option<StmtV>>
    decreases rem(t, p), 27int,
{
    if check(t, p, TokenKind::Semicolon) {
        Step::Done(None, p + 1)
    } else if check(t, p, TokenKind::Let) || check(t, p, TokenKind::Var) || check(t, p, TokenKind::Const) {
        match parse_var_decl(t, p + 1) {
            Step::Done(s, q) => Step::Done(Some(s), q),
            Step::Fail(m) => Step::Fail(m),
            Step::Stuck => Step::Stuck,
        }
    } else {
        parse_for_expr_init(t, p)
    }
}

/// An optional expression, absent when the token at `p` is `stop`.
#[verifier::opaque]
pub open spec fn parse_optional(t: Seq<Token>, p: int, stop: TokenKind) -> Step<Option<ExprV>>
    decreases rem(t, p), 25int,
{
    if check(t, p, stop) {
        Step::Done(None, p)
    } else {
        match parse_assignment(t, p) {
            Step::Done(e, q) => Step::Done(Some(e), q),
            Step::Fail(m) => Step::Fail(m),
            Step::Stuck => Step::Stuck,
        }
    }
}

/// The update and the body of a `for`, after its condition and `;`.
#[verifier::opaque]
pub open spec fn parse_for_tail(t: Seq<Token>, p: int, init: Option<StmtV>, condition: Option<ExprV>) -> Step<StmtV>
    decreases rem(t, p), 26int,
{
    match parse_optional(t, p, TokenKind::RightParen) {
        Step::Done(update, q) => if q < p {
            Step::Stuck
        } else {
            match expect(t, q, TokenKind::RightParen, "Expected ')' after for clauses"@) {
                Step::Done(_, q1) => match parse_statement(t, q1) {
                    Step::Done(body, q2) => Step::Done(
                        StmtV::For {
                            init: match init {
                                Some(s) => Some(Box::new(s)),
                                None => None,
                            },
                            condition,
                            update,
                            body: Box::new(body),
                        },
                        q2,
                    ),
                    Step::Fail(m) => Step::Fail(m),
                    Step::Stuck => Step::Stuck,
                },
                Step::Fail(m) => Step::Fail(m),
                Step::Stuck => Step::Stuck,
            }
        },
        Step::Fail(m) => Step::Fail(m),
        Step::Stuck => Step::Stuck,
    }
}

/// The condition, update and body of a `for`, after its initialiser.
#[verifier::opaque]
pub open spec fn parse_for_rest(t: Seq<Token>, p: int, init: Option<StmtV>) -> Step<StmtV>
    decreases rem(t, p), 26int,
{
    match parse_optional(t, p, TokenKind::Semicolon) {
        Step::Done(condition, q) => if q < p {
            Step::Stuck
        } else {
            match expect(t, q, TokenKind::Semicolon, "Expected ';' after for condition"@) {
                Step::Done(_, q1) => parse_for_tail(t, q1, init, condition),
                Step::Fail(m) => Step::Fail(m),
                Step::Stuck => Step::Stuck,
            }
        },
        Step::Fail(m) => Step::Fail(m),
        Step::Stuck => Step::Stuck,
    }
}

/// `( init; condition; update )` and the loop body.
#[verifier::opaque]
pub open spec fn parse_for(t: Seq<Token>, p: int) -> Step<StmtV>
    decreases rem(t, p), 0int,
{
    match expect(t, p, TokenKind::LeftParen, "Expected '(' after 'for'"@) {
        Step::Done(_, q) => match parse_for_init(t, q) {
            Step::Done(init, q1) => if q1 < q {
                Step::Stuck
            } else {
                parse_for_rest(t, q1, init)
            },
            Step::Fail(m) => Step::Fail(m),
            Step::Stuck => Step::Stuck,
        },
        Step::Fail(m) => Step::Fail(m),
        Step::Stuck => Step::Stuck,
    }
}

/// The `catch` part of a `try`: an optional `(name)` and a block, or nothing.
#[verifier::opaque]
pub open spec fn parse_catch(t: Seq<Token>, p: int) -> Step<(Option<Seq<char>>, Option<Seq<StmtV>>)>
    decreases rem(t, p), 0int,
{
    if check(t, p, TokenKind::Catch) {
        let param: Step<Option<Seq<char>>> = if check(t, p + 1, TokenKind::LeftParen) {
            match take_name(t, p + 2, "Expected catch parameter name"@) {
                Step::Done(n, q) => match expect(t, q, TokenKind::RightParen, "Expected ')' after catch parameter"@) {
                    Step::Done(_, q1) => Step::Done(Some(n), q1),
                    Step::Fail(m) => Step::Fail(m),
                    Step::Stuck => Step::Stuck,
                },
                Step::Fail(m) => Step::Fail(m),
                Step::Stuck => Step::Stuck,
            }
        } else {
            Step::Done(None, p + 1)
        };
        match param {
            Step::Done(cp, q) => match expect(t, q, TokenKind::LeftBrace, "Expected '{' before catch block"@) {
                Step::Done(_, q1) => match parse_block(t, q1) {
                    Step::Done(cb, q2) => Step::Done((cp, Some(cb)), q2),
                    Step::Fail(m) => Step::Fail(m),
                    Step::Stuck => Step::Stuck,
                },
                Step::Fail(m) => Step::Fail(m),
                Step::Stuck => Step::Stuck,
            },
            Step::Fail(m) => Step::Fail(m),
            Step::Stuck => Step::Stuck,
        }
    } else {
        Step::Done((None, None), p)
    }
}

/// The `finally` part of a `try`, or nothing.
#[verifier::opaque]
pub open spec fn parse_finally(t: Seq<Token>, p: int) -> Step<Option<Seq<StmtV>>>
    decreases rem(t, p), 0int,
{
    if check(t, p, TokenKind::Finally) {
        match expect(t, p + 1, TokenKind::LeftBrace, "Expected '{' before finally block"@) {
            Step::Done(_, q) => match parse_block(t, q) {
                Step::Done(fb, q1) => Step::Done(Some(fb), q1),
                Step::Fail(m) => Step::Fail(m),
                Step::Stuck => Step::Stuck,
            },
            Step::Fail(m) => Step::Fail(m),
            Step::Stuck => Step::Stuck,
        }
    } else {
        Step::Done(None, p)
    }
}

pub open spec fn block_box(b: Option<Seq<StmtV>>) -> Option<Box<StmtV>> {
    match b {
        Some(ss) => Some(Box::new(StmtV::Block(ss))),
        None => None,
    }
}

/// The `catch` and `finally` parts of a `try` with the block `tb`; at least one must be there.
#[verifier::opaque]
pub open spec fn parse_try_rest(t: Seq<Token>, p: int, tb: Seq<StmtV>) -> Step<StmtV>
    decreases rem(t, p), 1int,
{
    match parse_catch(t, p) {
        Step::Done((cp, cb), q) => if q < p {
            Step::Stuck
        } else {
            match parse_finally(t, q) {
                Step::Done(fb, q1) => if cb is None && fb is None {
                    Step::Fail("Missing catch or finally clause after try"@)
                } else {
                    Step::Done(
                        StmtV::TryCatch {
                            try_block: Box::new(StmtV::Block(tb)),
                            catch_param: cp,
                            catch_block: block_box(cb),
                            finally_block: block_box(fb),
                        },
                        q1,
                    )
                },
                Step::Fail(m) => Step::Fail(m),
                Step::Stuck => Step::Stuck,
            }
        },
        Step::Fail(m) => Step::Fail(m),
        Step::Stuck => Step::Stuck,
    }
}

/// A `try` block with a `catch` part, a `finally` part or both.
#[verifier::opaque]
pub open spec fn parse_try(t: Seq<Token>, p: int) -> Step<StmtV>
    decreases rem(t, p), 0int,
{
    match expect(t, p, TokenKind::LeftBrace, "Expected '{' after 'try'"@) {
        Step::Done(_, q) => match parse_block(t, q) {
            Step::Done(tb, q1) => if q1 < q {
                Step::Stuck
            } else {
                parse_try_rest(t, q1, tb)
            },
            Step::Fail(m) => Step::Fail(m),
            Step::Stuck => Step::Stuck,
        },
        Step::Fail(m) => Step::Fail(m),
        Step::Stuck => Step::Stuck,
    }
}

/// The declarations of a whole program from `p` to the end.
pub open spec fn parse_program(t: Seq<Token>, p: int, acc: Seq<StmtV>) -> Step<Seq<StmtV>>
    decreases rem(t, p),
{
    if at_end(t, p) {
        Step::Done(acc, p)
    } else {
        match parse_declaration(t, p) {
            Step::Done(s, q) => if q <= p {
                Step::Stuck
            } else {
                parse_program(t, q, acc.push(s))
            },
            Step::Fail(m) => Step::Fail(m),
            Step::Stuck => Step::Stuck,
        }
    }
}

proof fn lemma_evs_push(s: Seq<Expr>, x: Expr)
    ensures
        evs(s.push(x)) == evs(s).push(ev(x)),
{
    assert(s.push(x).subrange(0, s.len() as int) =~= s);
}

proof fn lemma_entries_push(s: Seq<(String, Expr)>, x: (String, Expr))
    ensures
        entries_v(s.push(x)) == entries_v(s).push((x.0@, ev(x.1))),
{
    assert(s.push(x).subrange(0, s.len() as int) =~= s);
}

proof fn lemma_svs_push(s: Seq<Stmt>, x: Stmt)
    ensures
        svs(s.push(x)) == svs(s).push(sv(x)),
{
    assert(s.push(x).subrange(0, s.len() as int) =~= s);
}

proof fn lemma_mvs_push(s: Seq<ClassMethod>, x: ClassMethod)
    ensures
        mvs(s.push(x)) == mvs(s).push(MethodV { name: x.name@, params: names_view(x.params), body: svs(x.body@) }),
{
    assert(s.push(x).subrange(0, s.len() as int) =~= s);
}

fn dup_text(s: &String) -> (r: String)
    ensures
        r@ == s@,
{
    s.clone()
}

fn dup_names(v: &Vec<String>) -> (r: Vec<String>)
    ensures
        names_view(r) == names_view(*v),
{
    let mut r: Vec<String> = Vec::new();
    let mut i: usize = 0;
    while i < v.len()
        invariant
            i <= v.len(),
            r@.len() == i,
            forall|j: int| 0 <= j < i ==> (#[trigger] r@[j])@ == v@[j]@,
        decreases v.len() - i,
    {
        r.push(dup_text(&v[i]));
        i = i + 1;
    }
    assert(names_view(r) =~= names_view(*v));
    r
}

fn dup_box(b: &Box<Expr>) -> (r: Box<Expr>)
    ensures
        ev(*r) == ev(**b),
    decreases b, 2int,
{
    Box::new(dup_expr(&**b))
}

/// A deep copy of an expression.
#[verifier::rlimit(60)]
#[verifier::spinoff_prover]
fn dup_expr(e: &Expr) -> (r: Expr)
    ensures
        ev(r) == ev(*e),
    decreases e, 1int,
{
    match e {
        Expr::Number(s) => Expr::Number(dup_text(s)),
        Expr::String(s) => Expr::String(dup_text(s)),
        Expr::Boolean(b) => Expr::Boolean(*b),
        Expr::Null => Expr::Null,
        Expr::Undefined => Expr::Undefined,
        Expr::Identifier(s) => Expr::Identifier(dup_text(s)),
        Expr::This => Expr::This,
        Expr::Binary { op, left, right } => Expr::Binary { op: *op, left: dup_box(left), right: dup_box(right) },
        Expr::Conditional { condition, then_expr, else_expr } => Expr::Conditional {
            condition: dup_box(condition),
            then_expr: dup_box(then_expr),
            else_expr: dup_box(else_expr),
        },
        Expr::Unary { op, expr } => Expr::Unary { op: *op, expr: dup_box(expr) },
        Expr::Assign { target, value } => Expr::Assign { target: dup_text(target), value: dup_box(value) },
        Expr::AssignProp { object, property, value } => Expr::AssignProp {
            object: dup_box(object),
            property: dup_text(property),
            value: dup_box(value),
        },
        Expr::AssignIndex { object, index, value } => Expr::AssignIndex {
            object: dup_box(object),
            index: dup_box(index),
            value: dup_box(value),
        },
        Expr::Call { callee, args } => Expr::Call { callee: dup_box(callee), args: dup_exprs(args) },
        Expr::Member { object, property } => Expr::Member { object: dup_box(object), property: dup_text(property) },
        Expr::Index { object, index } => Expr::Index { object: dup_box(object), index: dup_box(index) },
        Expr::Array(items) => Expr::Array(dup_exprs(items)),
        Expr::Object(entries) => Expr::Object(dup_entries(entries)),
        Expr::New { callee, args } => Expr::New { callee: dup_box(callee), args: dup_exprs(args) },
        Expr::FunctionExpr { name, params, body, is_async } => Expr::FunctionExpr {
            name: match name {
                Some(n) => Some(dup_text(n)),
                None => None,
            },
            params: dup_names(params),
            body: dup_stmts(body),
            is_async: *is_async,
        },
        Expr::Await(x) => Expr::Await(dup_box(x)),
    }
}

fn dup_exprs(es: &Vec<Expr>) -> (r: Vec<Expr>)
    ensures
        evs(r@) == evs(es@),
    decreases es, 0int,
{
    let mut r: Vec<Expr> = Vec::new();
    let mut i: usize = 0;
    proof {
        assert(es@.subrange(0, 0) =~= Seq::<Expr>::empty());
    }
    while i < es.len()
        invariant
            i <= es.len(),
            evs(r@) == evs(es@.subrange(0, i as int)),
        decreases es.len() - i,
    {
        let d = dup_expr(&es[i]);
        proof {
            lemma_evs_push(r@, d);
            lemma_evs_push(es@.subrange(0, i as int), es@[i as int]);
            assert(es@.subrange(0, i + 1) =~= es@.subrange(0, i as int).push(es@[i as int]));
        }
        r.push(d);
        i = i + 1;
    }
    assert(es@.subrange(0, es@.len() as int) =~= es@);
    r
}

fn dup_entries(es: &Vec<(String, Expr)>) -> (r: Vec<(String, Expr)>)
    ensures
        entries_v(r@) == entries_v(es@),
    decreases es, 0int,
{
    let mut r: Vec<(String, Expr)> = Vec::new();
    let mut i: usize = 0;
    proof {
        assert(es@.subrange(0, 0) =~= Seq::<(String, Expr)>::empty());
    }
    while i < es.len()
        invariant
            i <= es.len(),
            entries_v(r@) == entries_v(es@.subrange(0, i as int)),
        decreases es.len() - i,
    {
        let k = dup_text(&es[i].0);
        let d = dup_expr(&es[i].1);
        proof {
            lemma_entries_push(r@, (k, d));
            lemma_entries_push(es@.subrange(0, i as int), es@[i as int]);
            assert(es@.subrange(0, i + 1) =~= es@.subrange(0, i as int).push(es@[i as int]));
        }
        r.push((k, d));
        i = i + 1;
    }
    assert(es@.subrange(0, es@.len() as int) =~= es@);
    r
}

fn dup_stmt_box(b: &Box<Stmt>) -> (r: Box<Stmt>)
    ensures
        sv(*r) == sv(**b),
    decreases b, 2int,
{
    Box::new(dup_stmt(&**b))
}

fn dup_opt_stmt(o: &Option<Box<Stmt>>) -> (r: Option<Box<Stmt>>)
    ensures
        match (r, *o) {
            (Some(x), Some(y)) => sv(*x) == sv(*y),
            (None, None) => true,
            _ => false,
        },
    decreases o, 3int,
{
    match o {
        Some(b) => Some(dup_stmt_box(b)),
        None => None,
    }
}

fn dup_opt_expr(o: &Option<Expr>) -> (r: Option<Expr>)
    ensures
        match (r, *o) {
            (Some(x), Some(y)) => ev(x) == ev(y),
            (None, None) => true,
            _ => false,
        },
    decreases o, 3int,
{
    match o {
        Some(e) => Some(dup_expr(e)),
        None => None,
    }
}

/// A deep copy of a statement.
fn dup_stmt(s: &Stmt) -> (r: Stmt)
    ensures
        sv(r) == sv(*s),
    decreases s, 1int,
{
    match s {
        Stmt::VarDecl { name, initializer } => Stmt::VarDecl { name: dup_text(name), initializer: dup_opt_expr(initializer) },
        Stmt::Expr(e) => Stmt::Expr(dup_expr(e)),
        Stmt::Block(b) => Stmt::Block(dup_stmts(b)),
        Stmt::If { condition, then_branch, else_branch } => Stmt::If {
            condition: dup_expr(condition),
            then_branch: dup_stmt_box(then_branch),
            else_branch: dup_opt_stmt(else_branch),
        },
        Stmt::While { condition, body } => Stmt::While { condition: dup_expr(condition), body: dup_stmt_box(body) },
        Stmt::For { init, condition, update, body } => Stmt::For {
            init: dup_opt_stmt(init),
            condition: dup_opt_expr(condition),
            update: dup_opt_expr(update),
            body: dup_stmt_box(body),
        },
        Stmt::FunctionDecl { name, params, body, is_async } => Stmt::FunctionDecl {
            name: dup_text(name),
            params: dup_names(params),
            body: dup_stmts(body),
            is_async: *is_async,
        },
        Stmt::ClassDecl { name, methods } => Stmt::ClassDecl { name: dup_text(name), methods: dup_methods(methods) },
        Stmt::Return(v) => Stmt::Return(dup_opt_expr(v)),
        Stmt::TryCatch { try_block, catch_param, catch_block, finally_block } => Stmt::TryCatch {
            try_block: dup_stmt_box(try_block),
            catch_param: match catch_param {
                Some(n) => Some(dup_text(n)),
                None => None,
            },
            catch_block: dup_opt_stmt(catch_block),
            finally_block: dup_opt_stmt(finally_block),
        },
        Stmt::Throw(e) => Stmt::Throw(dup_expr(e)),
    }
}

fn dup_stmts(ss: &Vec<Stmt>) -> (r: Vec<Stmt>)
    ensures
        svs(r@) == svs(ss@),
    decreases ss, 0int,
{
    let mut r: Vec<Stmt> = Vec::new();
    let mut i: usize = 0;
    proof {
        assert(ss@.subrange(0, 0) =~= Seq::<Stmt>::empty());
    }
    while i < ss.len()
        invariant
            i <= ss.len(),
            svs(r@) == svs(ss@.subrange(0, i as int)),
        decreases ss.len() - i,
    {
        let d = dup_stmt(&ss[i]);
        proof {
            lemma_svs_push(r@, d);
            lemma_svs_push(ss@.subrange(0, i as int), ss@[i as int]);
            assert(ss@.subrange(0, i + 1) =~= ss@.subrange(0, i as int).push(ss@[i as int]));
        }
        r.push(d);
        i = i + 1;
    }
    assert(ss@.subrange(0, ss@.len() as int) =~= ss@);
    r
}

fn dup_methods(ms: &Vec<ClassMethod>) -> (r: Vec<ClassMethod>)
    ensures
        mvs(r@) == mvs(ms@),
    decreases ms, 0int,
{
    let mut r: Vec<ClassMethod> = Vec::new();
    let mut i: usize = 0;
    proof {
        assert(ms@.subrange(0, 0) =~= Seq::<ClassMethod>::empty());
    }
    while i < ms.len()
        invariant
            i <= ms.len(),
            mvs(r@) == mvs(ms@.subrange(0, i as int)),
        decreases ms.len() - i,
    {
        let m = &ms[i];
        let d = ClassMethod { name: dup_text(&m.name), params: dup_names(&m.params), body: dup_stmts(&m.body) };
        proof {
            lemma_mvs_push(r@, d);
            lemma_mvs_push(ms@.subrange(0, i as int), ms@[i as int]);
            assert(ms@.subrange(0, i + 1) =~= ms@.subrange(0, i as int).push(ms@[i as int]));
        }
        r.push(d);
        i = i + 1;
    }
    assert(ms@.subrange(0, ms@.len() as int) =~= ms@);
    r
}

/// Some token at or after `p` ends the input.
pub open spec fn eof_from(t: Seq<Token>, p: int) -> bool {
    exists|i: int| p <= i < t.len() && (#[trigger] t[i]).kind is Eof
}


/// `r` is the expression, and `pos` the position, that `s` describes, or its error message.
pub open spec fn fits_expr(r: Result<Expr, Halt>, s: Step<ExprV>, pos: int) -> bool {
    match (r, s) {
        (Ok(a), Step::Done(v, q)) => ev(a) == v && pos == q,
        (Err(Halt::Error(e)), Step::Fail(m)) => e@ == m,
        (Err(Halt::Endless), Step::Stuck) => true,
        _ => false,
    }
}

pub open spec fn opt_block(o: Option<Vec<Stmt>>) -> Option<Seq<StmtV>> {
    match o {
        Some(b) => Some(svs(b@)),
        None => None,
    }
}

pub open spec fn opt_stmt(o: Option<Stmt>) -> Option<StmtV> {
    match o {
        Some(s) => Some(sv(s)),
        None => None,
    }
}

pub open spec fn opt_expr(o: Option<Expr>) -> Option<ExprV> {
    match o {
        Some(e) => Some(ev(e)),
        None => None,
    }
}

pub open spec fn fits_unit(r: Result<(), Halt>, s: Step<()>, pos: int) -> bool {
    match (r, s) {
        (Ok(a), Step::Done(v, q)) => a == v && pos == q,
        (Err(Halt::Error(e)), Step::Fail(m)) => e@ == m,
        (Err(Halt::Endless), Step::Stuck) => true,
        _ => false,
    }
}

pub open spec fn fits_text(r: Result<String, Halt>, s: Step<Seq<char>>, pos: int) -> bool {
    match (r, s) {
        (Ok(a), Step::Done(v, q)) => a@ == v && pos == q,
        (Err(Halt::Error(e)), Step::Fail(m)) => e@ == m,
        (Err(Halt::Endless), Step::Stuck) => true,
        _ => false,
    }
}

pub open spec fn fits_names(r: Result<Vec<String>, Halt>, s: Step<Seq<Seq<char>>>, pos: int) -> bool {
    match (r, s) {
        (Ok(a), Step::Done(v, q)) => names_view(a) == v && pos == q,
        (Err(Halt::Error(e)), Step::Fail(m)) => e@ == m,
        (Err(Halt::Endless), Step::Stuck) => true,
        _ => false,
    }
}

pub open spec fn fits_exprs(r: Result<Vec<Expr>, Halt>, s: Step<Seq<ExprV>>, pos: int) -> bool {
    match (r, s) {
        (Ok(a), Step::Done(v, q)) => evs(a@) == v && pos == q,
        (Err(Halt::Error(e)), Step::Fail(m)) => e@ == m,
        (Err(Halt::Endless), Step::Stuck) => true,
        _ => false,
    }
}

pub open spec fn fits_entries(r: Result<Vec<(String, Expr)>, Halt>, s: Step<Seq<(Seq<char>, ExprV)>>, pos: int) -> bool {
    match (r, s) {
        (Ok(a), Step::Done(v, q)) => entries_v(a@) == v && pos == q,
        (Err(Halt::Error(e)), Step::Fail(m)) => e@ == m,
        (Err(Halt::Endless), Step::Stuck) => true,
        _ => false,
    }
}

pub open spec fn fits_stmts(r: Result<Vec<Stmt>, Halt>, s: Step<Seq<StmtV>>, pos: int) -> bool {
    match (r, s) {
        (Ok(a), Step::Done(v, q)) => svs(a@) == v && pos == q,
        (Err(Halt::Error(e)), Step::Fail(m)) => e@ == m,
        (Err(Halt::Endless), Step::Stuck) => true,
        _ => false,
    }
}

pub open spec fn fits_stmt(r: Result<Stmt, Halt>, s: Step<StmtV>, pos: int) -> bool {
    match (r, s) {
        (Ok(a), Step::Done(v, q)) => sv(a) == v && pos == q,
        (Err(Halt::Error(e)), Step::Fail(m)) => e@ == m,
        (Err(Halt::Endless), Step::Stuck) => true,
        _ => false,
    }
}

pub open spec fn fits_methods(r: Result<Vec<ClassMethod>, Halt>, s: Step<Seq<MethodV>>, pos: int) -> bool {
    match (r, s) {
        (Ok(a), Step::Done(v, q)) => mvs(a@) == v && pos == q,
        (Err(Halt::Error(e)), Step::Fail(m)) => e@ == m,
        (Err(Halt::Endless), Step::Stuck) => true,
        _ => false,
    }
}

pub open spec fn fits_catch(r: Result<(Option<String>, Option<Vec<Stmt>>), Halt>, s: Step<(Option<Seq<char>>, Option<Seq<StmtV>>)>, pos: int) -> bool {
    match (r, s) {
        (Ok(a), Step::Done(v, q)) => (opt_text(a.0), opt_block(a.1)) == v && pos == q,
        (Err(Halt::Error(e)), Step::Fail(m)) => e@ == m,
        (Err(Halt::Endless), Step::Stuck) => true,
        _ => false,
    }
}

pub open spec fn fits_sig(r: Result<(Vec<String>, Vec<Stmt>), Halt>, s: Step<(Seq<Seq<char>>, Seq<StmtV>)>, pos: int) -> bool {
    match (r, s) {
        (Ok(a), Step::Done(v, q)) => (names_view(a.0), svs(a.1@)) == v && pos == q,
        (Err(Halt::Error(e)), Step::Fail(m)) => e@ == m,
        (Err(Halt::Endless), Step::Stuck) => true,
        _ => false,
    }
}

pub open spec fn fits_opt_block(r: Result<Option<Vec<Stmt>>, Halt>, s: Step<Option<Seq<StmtV>>>, pos: int) -> bool {
    match (r, s) {
        (Ok(a), Step::Done(v, q)) => opt_block(a) == v && pos == q,
        (Err(Halt::Error(e)), Step::Fail(m)) => e@ == m,
        (Err(Halt::Endless), Step::Stuck) => true,
        _ => false,
    }
}

pub open spec fn fits_opt_stmt(r: Result<Option<Stmt>, Halt>, s: Step<Option<StmtV>>, pos: int) -> bool {
    match (r, s) {
        (Ok(a), Step::Done(v, q)) => opt_stmt(a) == v && pos == q,
        (Err(Halt::Error(e)), Step::Fail(m)) => e@ == m,
        (Err(Halt::Endless), Step::Stuck) => true,
        _ => false,
    }
}

pub open spec fn fits_opt_expr(r: Result<Option<Expr>, Halt>, s: Step<Option<ExprV>>, pos: int) -> bool {
    match (r, s) {
        (Ok(a), Step::Done(v, q)) => opt_expr(a) == v && pos == q,
        (Err(Halt::Error(e)), Step::Fail(m)) => e@ == m,
        (Err(Halt::Endless), Step::Stuck) => true,
        _ => false,
    }
}

/// The message of an error at a line: `msg at line n`.
fn line_error(msg: &str, line: usize) -> (s: String)
    ensures
        s@ == msg@ + (" at line "@ + decimal(line as nat)),
{
    let mut s = String::new();
    push_str(&mut s, msg);
    push_str(&mut s, " at line ");
    push_decimal(&mut s, line as u64);
    assert(s@ =~= msg@ + (" at line "@ + decimal(line as nat)));
    s
}

/// A recursive-descent parser over tokens that end with an end-of-input token.
pub struct Parser {
    tokens: Vec<Token>,
    current: usize,
}

impl Parser {
    pub closed spec fn toks(&self) -> Seq<Token> {
        self.tokens@
    }

    pub closed spec fn pos(&self) -> int {
        self.current as int
    }

    /// The cursor is on a token, and an end-of-input token is at or after it.
    #[verifier::opaque]
    pub open spec fn wf(&self) -> bool {
        0 <= self.pos() < self.toks().len() && eof_from(self.toks(), self.pos())
    }

    #[verifier::spinoff_prover]
    pub fn new(tokens: Vec<Token>) -> (p: Parser)
        ensures
            p.toks() == tokens@,
            p.pos() == 0,
    {
        Parser { tokens, current: 0 }
    }

    #[verifier::spinoff_prover]
    fn is_at_end(&self) -> (b: bool)
        requires
            self.wf(),
        ensures
            b == at_end(self.toks(), self.pos()),
    {
        reveal(Parser::wf);
        match self.tokens[self.current].kind {
            TokenKind::Eof => true,
            _ => false,
        }
    }

    #[verifier::spinoff_prover]
    fn check(&self, kind: &TokenKind) -> (b: bool)
        requires
            self.wf(),
        ensures
            b == check(self.toks(), self.pos(), *kind),
    {
        if self.is_at_end() {
            false
        } else {
            code_of(&self.peek().kind) == code_of(kind)
        }
    }

    #[verifier::spinoff_prover]
    fn advance(&mut self)
        requires
            old(self).wf(),
        ensures
            final(self).wf(),
            final(self).toks() == old(self).toks(),
            final(self).pos() == adv(old(self).toks(), old(self).pos()),
    {
        reveal(Parser::wf);
        let n = self.tokens.len();
        if !self.is_at_end() {
            proof {
                let t = self.toks();
                let p = self.pos();
                let i = choose|i: int| p <= i < t.len() && (#[trigger] t[i]).kind is Eof;
                assert(i != p);
                assert(p + 1 <= i < t.len() && t[i].kind is Eof);
                assert(self.current + 1 < n);
            }
            self.current = self.current + 1;
        }
    }

    #[verifier::spinoff_prover]
    fn previous(&self) -> (tok: &Token)
        requires
            self.wf(),
            self.pos() >= 1,
        ensures
            *tok == self.toks()[self.pos() - 1],
    {
        reveal(Parser::wf);
        &self.tokens[self.current - 1]
    }

    #[verifier::spinoff_prover]
    fn peek(&self) -> (tok: &Token)
        requires
            self.wf(),
        ensures
            *tok == self.toks()[self.pos()],
            0 <= self.pos() < self.toks().len(),
    {
        reveal(Parser::wf);
        &self.tokens[self.current]
    }

    #[verifier::spinoff_prover]
    fn match_token(&mut self, kind: &TokenKind) -> (b: bool)
        requires
            old(self).wf(),
        ensures
            final(self).wf(),
            final(self).toks() == old(self).toks(),
            b == check(old(self).toks(), old(self).pos(), *kind),
            final(self).pos() == (if b { old(self).pos() + 1 } else { old(self).pos() }),
    {
        if self.check(kind) {
            self.advance();
            true
        } else {
            false
        }
    }

    #[verifier::spinoff_prover]
    fn consume(&mut self, kind: &TokenKind, message: &str) -> (r: Result<(), Halt>)
        requires
            old(self).wf(),
        ensures
            final(self).wf(),
            final(self).toks() == old(self).toks(),
            final(self).pos() >= old(self).pos(),
            fits_unit(r, expect(old(self).toks(), old(self).pos(), *kind, message@), final(self).pos()),
    {
        if self.check(kind) {
            self.advance();
            Ok(())
        } else {
            Err(Halt::Error(line_error(message, self.peek().line)))
        }
    }

    /// Takes a token that must be a name.
    #[verifier::spinoff_prover]
    fn take_name(&mut self, message: &str) -> (r: Result<String, Halt>)
        requires
            old(self).wf(),
        ensures
            final(self).wf(),
            final(self).toks() == old(self).toks(),
            final(self).pos() >= old(self).pos(),
            fits_text(r, take_name(old(self).toks(), old(self).pos(), message@), final(self).pos()),
    {
        self.advance();
        if self.current == 0 {
            return Err(Halt::Endless);
        }
        let tok = self.previous();
        match &tok.kind {
            TokenKind::Identifier(n) => Ok(dup_text(n)),
            _ => Err(Halt::Error(line_error(message, tok.line))),
        }
    }

    /// The names of a parameter list, after its `(` and before its `)`.
    #[verifier::spinoff_prover]
    fn parameters(&mut self) -> (r: Result<Vec<String>, Halt>)
        requires
            old(self).wf(),
        ensures
            final(self).wf(),
            final(self).toks() == old(self).toks(),
            final(self).pos() >= old(self).pos(),
            fits_names(r, parse_params(old(self).toks(), old(self).pos()), final(self).pos()),
    {
        reveal(parse_params);
        let ghost t = self.toks();
        let ghost p = self.pos();
        let mut params: Vec<String> = Vec::new();
        proof {
            assert(names_view(params) =~= Seq::<Seq<char>>::empty());
        }
        if !self.check(&TokenKind::RightParen) {
            loop
                invariant_except_break
                    parse_params(t, p) == parse_param_items(t, self.pos(), names_view(params)),
                invariant
                    self.wf(),
                    t == old(self).toks(),
                    p == old(self).pos(),
                    self.toks() == t,
                    self.pos() >= p,
                ensures
                    self.wf(),
                    self.toks() == t,
                    self.pos() >= p,
                    parse_params(t, p) == Step::Done(names_view(params), self.pos()),
                decreases rem(t, self.pos()),
            {
                let ghost q0 = self.pos();
                let ghost before = names_view(params);
                let n = match self.take_name("Expected parameter name") {
                    Ok(v) => v,
                    Err(e) => {
                        return Err(e);
                    },
                };
                params.push(n);
                proof {
                    assert(names_view(params) =~= before.push(n@));
                }
                if !self.match_token(&TokenKind::Comma) {
                    break;
                }
            }
        }
        Ok(params)
    }
}

/// The level and operator of a binary operator token.
fn binary_of_kind(k: &TokenKind) -> (r: Option<(usize, BinaryOp)>)
    ensures
        match (r, binary_of(*k)) {
            (Some((a, o)), Some((b, o2))) => a == b && o == o2,
            (None, None) => true,
            _ => false,
        },
{
    match k {
        TokenKind::OrOr => Some((0, BinaryOp::Or)),
        TokenKind::AndAnd => Some((1, BinaryOp::And)),
        TokenKind::EqualEqual => Some((2, BinaryOp::Equal)),
        TokenKind::EqualEqualEqual => Some((2, BinaryOp::StrictEqual)),
        TokenKind::NotEqual => Some((2, BinaryOp::NotEqual)),
        TokenKind::NotEqualEqual => Some((2, BinaryOp::StrictNotEqual)),
        TokenKind::Greater => Some((3, BinaryOp::Greater)),
        TokenKind::GreaterEqual => Some((3, BinaryOp::GreaterEqual)),
        TokenKind::Less => Some((3, BinaryOp::Less)),
        TokenKind::LessEqual => Some((3, BinaryOp::LessEqual)),
        TokenKind::InstanceOf => Some((3, BinaryOp::InstanceOf)),
        TokenKind::In => Some((3, BinaryOp::In)),
        TokenKind::Plus => Some((4, BinaryOp::Add)),
        TokenKind::Minus => Some((4, BinaryOp::Sub)),
        TokenKind::Star => Some((5, BinaryOp::Mul)),
        TokenKind::Slash => Some((5, BinaryOp::Div)),
        TokenKind::Percent => Some((5, BinaryOp::Mod)),
        _ => None,
    }
}

proof fn lemma_ev_variant(e: Expr)
    ensures
        (ev(e) is Identifier) == (e is Identifier),
        (ev(e) is Member) == (e is Member),
        (ev(e) is Index) == (e is Index),
        (ev(e) is Call) == (e is Call),
{
}

/// `target op= value` as `target = target op value`; only names, members
/// and indexes can be assigned to.
#[verifier::rlimit(50)]
#[verifier::spinoff_prover]
fn make_compound_assign(target: Expr, op: BinaryOp, val: Expr) -> (r: Result<Expr, String>)
    ensures
        match (r, compound(ev(target), op, ev(val))) {
            (Ok(e), Some(x)) => ev(e) == x,
            (Err(m), None) => m@ == "Invalid compound assignment target"@,
            _ => false,
        },
{
    proof {
        reveal_with_fuel(ev, 3);
    }
    match target {
        Expr::Identifier(name) => {
            let copy = dup_text(&name);
            Ok(Expr::Assign {
                target: copy,
                value: Box::new(Expr::Binary { op, left: Box::new(Expr::Identifier(name)), right: Box::new(val) }),
            })
        },
        Expr::Member { object, property } => {
            let object2 = dup_box(&object);
            let property2 = dup_text(&property);
            Ok(Expr::AssignProp {
                object: object2,
                property: property2,
                value: Box::new(Expr::Binary { op, left: Box::new(Expr::Member { object, property }), right: Box::new(val) }),
            })
        },
        Expr::Index { object, index } => {
            let object2 = dup_box(&object);
            let index2 = dup_box(&index);
            Ok(Expr::AssignIndex {
                object: object2,
                index: index2,
                value: Box::new(Expr::Binary { op, left: Box::new(Expr::Index { object, index }), right: Box::new(val) }),
            })
        },
        _ => {
            proof {
                lemma_ev_variant(target);
            }
            Err("Invalid compound assignment target".to_owned())
        },
    }
}

impl Parser {
    /// An expression: the whole grammar of assignment expressions. Inputs on
    /// which the parse has no outcome are left out.
    #[verifier::spinoff_prover]
    pub fn expression(&mut self) -> (r: Result<Expr, String>)
        requires
            old(self).wf(),
            !(parse_assignment(old(self).toks(), old(self).pos()) is Stuck),
        ensures
            final(self).wf(),
            final(self).toks() == old(self).toks(),
            match (r, parse_assignment(old(self).toks(), old(self).pos())) {
                (Ok(e), Step::Done(v, q)) => ev(e) == v && final(self).pos() == q,
                (Err(m), Step::Fail(x)) => m@ == x,
                _ => false,
            },
    {
        match self.assignment() {
            Ok(e) => Ok(e),
            Err(Halt::Error(m)) => Err(m),
            Err(Halt::Endless) => Err(String::new()),
        }
    }

    /// An expression, or `None` for an input on which the parse has no
    /// outcome (an expression wanted at the end right after a `(`, or at the
    /// end of a list that holds nothing else).
    #[verifier::spinoff_prover]
    pub fn expression_checked(&mut self) -> (r: Option<Result<Expr, String>>)
        requires
            old(self).wf(),
        ensures
            final(self).wf(),
            final(self).toks() == old(self).toks(),
            match (r, parse_assignment(old(self).toks(), old(self).pos())) {
                (Some(Ok(e)), Step::Done(v, q)) => ev(e) == v && final(self).pos() == q,
                (Some(Err(m)), Step::Fail(x)) => m@ == x,
                (None, Step::Stuck) => true,
                _ => false,
            },
    {
        match self.assignment() {
            Ok(e) => Some(Ok(e)),
            Err(Halt::Error(m)) => Some(Err(m)),
            Err(Halt::Endless) => None,
        }
    }

    #[verifier::spinoff_prover]
    fn match_compound_op(&mut self) -> (o: Option<BinaryOp>)
        requires
            old(self).wf(),
        ensures
            final(self).wf(),
            final(self).toks() == old(self).toks(),
            o == compound_op(old(self).toks(), old(self).pos()),
            final(self).pos() == (if o is Some { old(self).pos() + 1 } else { old(self).pos() }),
    {
        if self.match_token(&TokenKind::PlusEqual) {
            Some(BinaryOp::Add)
        } else if self.match_token(&TokenKind::MinusEqual) {
            Some(BinaryOp::Sub)
        } else if self.match_token(&TokenKind::StarEqual) {
            Some(BinaryOp::Mul)
        } else if self.match_token(&TokenKind::SlashEqual) {
            Some(BinaryOp::Div)
        } else {
            None
        }
    }

    #[verifier::spinoff_prover]
    fn assignment(&mut self) -> (r: Result<Expr, Halt>)
        requires
            old(self).wf(),
        ensures
            final(self).wf(),
            final(self).toks() == old(self).toks(),
            final(self).pos() >= old(self).pos(),
            fits_expr(r, parse_assignment(old(self).toks(), old(self).pos()), final(self).pos()),
            r is Ok && !at_end(old(self).toks(), old(self).pos()) ==> final(self).pos() > old(self).pos(),
        decreases rem(old(self).toks(), old(self).pos()), 24int,
    {
        reveal_with_fuel(parse_assignment, 1);
        let expr = match self.conditional() {
            Ok(v) => v,
            Err(e) => {
                return Err(e);
            },
        };
        if self.match_token(&TokenKind::Equal) {
            let value = match self.assignment() {
                Ok(v) => v,
                Err(e) => {
                    return Err(e);
                },
            };
            match expr {
                Expr::Identifier(target) => Ok(Expr::Assign { target, value: Box::new(value) }),
                Expr::Member { object, property } => Ok(Expr::AssignProp { object, property, value: Box::new(value) }),
                Expr::Index { object, index } => Ok(Expr::AssignIndex { object, index, value: Box::new(value) }),
                _ => Err(Halt::Error(line_error("Invalid assignment target", self.previous().line))),
            }
        } else {
            match self.match_compound_op() {
                Some(op) => {
                    let value = match self.assignment() {
                        Ok(v) => v,
                        Err(e) => {
                            return Err(e);
                        },
                    };
                    match make_compound_assign(expr, op, value) {
                        Ok(x) => Ok(x),
                        Err(m) => Err(Halt::Error(m)),
                    }
                },
                None => Ok(expr),
            }
        }
    }

    #[verifier::spinoff_prover]
    fn conditional(&mut self) -> (r: Result<Expr, Halt>)
        requires
            old(self).wf(),
        ensures
            final(self).wf(),
            final(self).toks() == old(self).toks(),
            final(self).pos() >= old(self).pos(),
            fits_expr(r, parse_conditional(old(self).toks(), old(self).pos()), final(self).pos()),
            r is Ok && !at_end(old(self).toks(), old(self).pos()) ==> final(self).pos() > old(self).pos(),
        decreases rem(old(self).toks(), old(self).pos()), 23int,
    {
        reveal_with_fuel(parse_conditional, 1);
        let condition = match self.binary(0) {
            Ok(v) => v,
            Err(e) => {
                return Err(e);
            },
        };
        if self.match_token(&TokenKind::Question) {
            let then_expr = match self.assignment() {
                Ok(v) => v,
                Err(e) => {
                    return Err(e);
                },
            };
            match self.consume(&TokenKind::Colon, "Expected ':' in conditional expression") {
                Ok(()) => {},
                Err(e) => {
                    return Err(e);
                },
            }
            let else_expr = match self.assignment() {
                Ok(v) => v,
                Err(e) => {
                    return Err(e);
                },
            };
            Ok(Expr::Conditional { condition: Box::new(condition), then_expr: Box::new(then_expr), else_expr: Box::new(else_expr) })
        } else {
            Ok(condition)
        }
    }

    /// The operator of level `level` at the cursor, taken if it is there.
    #[verifier::spinoff_prover]
    fn match_level_op(&mut self, level: usize) -> (o: Option<BinaryOp>)
        requires
            old(self).wf(),
        ensures
            final(self).wf(),
            final(self).toks() == old(self).toks(),
            o == level_op(old(self).toks(), old(self).pos(), level as int),
            final(self).pos() == (if o is Some { old(self).pos() + 1 } else { old(self).pos() }),
    {
        if self.is_at_end() {
            return None;
        }
        match binary_of_kind(&self.peek().kind) {
            Some((lv, op)) => if lv == level {
                self.advance();
                Some(op)
            } else {
                None
            },
            None => None,
        }
    }

    /// A left-associative chain of operators of one level: 0 `||`, 1 `&&`,
    /// 2 equality, 3 comparison, 4 sums, 5 products; the operands are of the
    /// next level, or prefix expressions for products.
    #[verifier::spinoff_prover]
    fn binary(&mut self, level: usize) -> (r: Result<Expr, Halt>)
        requires
            old(self).wf(),
            level <= 5,
        ensures
            final(self).wf(),
            final(self).toks() == old(self).toks(),
            final(self).pos() >= old(self).pos(),
            fits_expr(r, parse_binary(old(self).toks(), old(self).pos(), level as int), final(self).pos()),
            r is Ok && !at_end(old(self).toks(), old(self).pos()) ==> final(self).pos() > old(self).pos(),
        decreases rem(old(self).toks(), old(self).pos()), 22 - 2 * level,
    {
        reveal_with_fuel(parse_binary, 1);
        let ghost t = self.toks();
        let ghost p = self.pos();
        let ghost l = level as int;
        let mut expr = if level == 5 {
            match self.unary() {
                Ok(v) => v,
                Err(e) => {
                    return Err(e);
                },
            }
        } else {
            match self.binary(level + 1) {
                Ok(v) => v,
                Err(e) => {
                    return Err(e);
                },
            }
        };
        loop
            invariant_except_break
                parse_binary(t, p, l) == parse_binary_rest(t, self.pos(), l, ev(expr)),
            invariant
                self.wf(),
                t == old(self).toks(),
                p == old(self).pos(),
                l == level,
                level <= 5,
                self.toks() == t,
                self.pos() >= p,
                !at_end(t, p) ==> self.pos() > p,
            ensures
                self.wf(),
                self.toks() == t,
                self.pos() >= p,
                !at_end(t, p) ==> self.pos() > p,
                parse_binary(t, p, l) == Step::Done(ev(expr), self.pos()),
            decreases rem(t, self.pos()),
        {
            reveal_with_fuel(parse_binary, 1);
            match self.match_level_op(level) {
                Some(op) => {
                    let right = if level == 5 {
                        match self.unary() {
                            Ok(v) => v,
                            Err(e) => {
                                return Err(e);
                            },
                        }
                    } else {
                        match self.binary(level + 1) {
                            Ok(v) => v,
                            Err(e) => {
                                return Err(e);
                            },
                        }
                    };
                    expr = Expr::Binary { op, left: Box::new(expr), right: Box::new(right) };
                },
                None => {
                    break;
                },
            }
        }
        Ok(expr)
    }

    #[verifier::spinoff_prover]
    fn unary(&mut self) -> (r: Result<Expr, Halt>)
        requires
            old(self).wf(),
        ensures
            final(self).wf(),
            final(self).toks() == old(self).toks(),
            final(self).pos() >= old(self).pos(),
            fits_expr(r, parse_unary(old(self).toks(), old(self).pos()), final(self).pos()),
            r is Ok && !at_end(old(self).toks(), old(self).pos()) ==> final(self).pos() > old(self).pos(),
        decreases rem(old(self).toks(), old(self).pos()), 10int,
    {
        reveal_with_fuel(parse_unary, 1);
        if self.match_token(&TokenKind::Bang) {
            let expr = match self.unary() {
                Ok(v) => v,
                Err(e) => {
                    return Err(e);
                },
            };
            Ok(Expr::Unary { op: UnaryOp::Not, expr: Box::new(expr) })
        } else if self.match_token(&TokenKind::Minus) {
            let expr = match self.unary() {
                Ok(v) => v,
                Err(e) => {
                    return Err(e);
                },
            };
            Ok(Expr::Unary { op: UnaryOp::Negate, expr: Box::new(expr) })
        } else if self.match_token(&TokenKind::TypeOf) {
            let expr = match self.unary() {
                Ok(v) => v,
                Err(e) => {
                    return Err(e);
                },
            };
            Ok(Expr::Unary { op: UnaryOp::TypeOf, expr: Box::new(expr) })
        } else if self.match_token(&TokenKind::Await) {
            let expr = match self.unary() {
                Ok(v) => v,
                Err(e) => {
                    return Err(e);
                },
            };
            Ok(Expr::Await(Box::new(expr)))
        } else if self.match_token(&TokenKind::New) {
            let callee = match self.call() {
                Ok(v) => v,
                Err(e) => {
                    return Err(e);
                },
            };
            proof {
                lemma_ev_variant(callee);
                assert(evs(Seq::<Expr>::empty()) =~= Seq::<ExprV>::empty());
            }
            match callee {
                Expr::Call { callee, args } => Ok(Expr::New { callee, args }),
                other => Ok(Expr::New { callee: Box::new(other), args: Vec::new() }),
            }
        } else {
            self.call()
        }
    }

    /// Comma-separated expressions, for call arguments and array elements.
    #[verifier::spinoff_prover]
    fn arguments(&mut self) -> (r: Result<Vec<Expr>, Halt>)
        requires
            old(self).wf(),
        ensures
            final(self).wf(),
            final(self).toks() == old(self).toks(),
            final(self).pos() >= old(self).pos(),
            fits_exprs(r, parse_args(old(self).toks(), old(self).pos(), Seq::empty()), final(self).pos()),
        decreases rem(old(self).toks(), old(self).pos()), 26int,
    {
        let ghost t = self.toks();
        let ghost p = self.pos();
        let mut args: Vec<Expr> = Vec::new();
        proof {
            assert(evs(args@) =~= Seq::<ExprV>::empty());
        }
        loop
            invariant_except_break
                parse_args(t, p, Seq::empty()) == parse_args(t, self.pos(), evs(args@)),
            invariant
                self.wf(),
                t == old(self).toks(),
                p == old(self).pos(),
                self.toks() == t,
                self.pos() >= p,
            ensures
                self.wf(),
                self.toks() == t,
                self.pos() >= p,
                parse_args(t, p, Seq::empty()) == Step::Done(evs(args@), self.pos()),
            decreases rem(t, self.pos()),
        {
            let e = match self.assignment() {
                Ok(v) => v,
                Err(e) => {
                    return Err(e);
                },
            };
            proof {
                lemma_evs_push(args@, e);
            }
            args.push(e);
            if !self.match_token(&TokenKind::Comma) {
                break;
            }
        }
        Ok(args)
    }

    #[verifier::spinoff_prover]
    fn call(&mut self) -> (r: Result<Expr, Halt>)
        requires
            old(self).wf(),
        ensures
            final(self).wf(),
            final(self).toks() == old(self).toks(),
            final(self).pos() >= old(self).pos(),
            fits_expr(r, parse_call(old(self).toks(), old(self).pos()), final(self).pos()),
            r is Ok && !at_end(old(self).toks(), old(self).pos()) ==> final(self).pos() > old(self).pos(),
        decreases rem(old(self).toks(), old(self).pos()), 9int,
    {
        reveal_with_fuel(parse_call, 1);
        let ghost t = self.toks();
        let ghost p = self.pos();
        let mut expr = match self.primary() {
            Ok(v) => v,
            Err(e) => {
                return Err(e);
            },
        };
        loop
            invariant_except_break
                parse_call(t, p) == parse_call_rest(t, self.pos(), ev(expr)),
            invariant
                self.wf(),
                t == old(self).toks(),
                p == old(self).pos(),
                self.toks() == t,
                self.pos() >= p,
                !at_end(t, p) ==> self.pos() > p,
            ensures
                self.wf(),
                self.toks() == t,
                self.pos() >= p,
                !at_end(t, p) ==> self.pos() > p,
                parse_call(t, p) == Step::Done(ev(expr), self.pos()),
            decreases rem(t, self.pos()),
        {
            if self.match_token(&TokenKind::LeftParen) {
                let args = if !self.check(&TokenKind::RightParen) {
                    match self.arguments() {
                        Ok(v) => v,
                        Err(e) => {
                            return Err(e);
                        },
                    }
                } else {
                    Vec::new()
                };
                proof {
                    assert(evs(Seq::<Expr>::empty()) =~= Seq::<ExprV>::empty());
                }
                match self.consume(&TokenKind::RightParen, "Expected ')' after arguments") {
                    Ok(()) => {},
                    Err(e) => {
                        return Err(e);
                    },
                }
                expr = Expr::Call { callee: Box::new(expr), args };
            } else if self.match_token(&TokenKind::Dot) {
                let property = match self.take_name("Expected property name after '.'") {
                    Ok(v) => v,
                    Err(e) => {
                        return Err(e);
                    },
                };
                expr = Expr::Member { object: Box::new(expr), property };
            } else if self.match_token(&TokenKind::LeftBracket) {
                let index = match self.assignment() {
                    Ok(v) => v,
                    Err(e) => {
                        return Err(e);
                    },
                };
                match self.consume(&TokenKind::RightBracket, "Expected ']' after index") {
                    Ok(()) => {},
                    Err(e) => {
                        return Err(e);
                    },
                }
                expr = Expr::Index { object: Box::new(expr), index: Box::new(index) };
            } else {
                break;
            }
        }
        Ok(expr)
    }

    /// The entries of an object literal, after its `{` and before its `}`.
    #[verifier::spinoff_prover]
    fn object_entries(&mut self) -> (r: Result<Vec<(String, Expr)>, Halt>)
        requires
            old(self).wf(),
        ensures
            final(self).wf(),
            final(self).toks() == old(self).toks(),
            final(self).pos() >= old(self).pos(),
            fits_entries(r, parse_entries(old(self).toks(), old(self).pos(), Seq::empty()), final(self).pos()),
        decreases rem(old(self).toks(), old(self).pos()), 0int,
    {
        let ghost t = self.toks();
        let ghost p = self.pos();
        let mut entries: Vec<(String, Expr)> = Vec::new();
        proof {
            assert(entries_v(entries@) =~= Seq::<(Seq<char>, ExprV)>::empty());
        }
        loop
            invariant_except_break
                parse_entries(t, p, Seq::empty()) == parse_entries(t, self.pos(), entries_v(entries@)),
            invariant
                self.wf(),
                t == old(self).toks(),
                p == old(self).pos(),
                self.toks() == t,
                self.pos() >= p,
            ensures
                self.wf(),
                self.toks() == t,
                self.pos() >= p,
                parse_entries(t, p, Seq::empty()) == Step::Done(entries_v(entries@), self.pos()),
            decreases rem(t, self.pos()),
        {
            self.advance();
            if self.current == 0 {
                return Err(Halt::Endless);
            }
            let tok = self.previous();
            let key = match &tok.kind {
                TokenKind::Identifier(k) => dup_text(k),
                TokenKind::String(s) => dup_text(s),
                _ => {
                    return Err(Halt::Error(line_error("Expected property key in object literal", tok.line)));
                },
            };
            match self.consume(&TokenKind::Colon, "Expected ':' after property key") {
                Ok(()) => {},
                Err(e) => {
                    return Err(e);
                },
            }
            let val = match self.assignment() {
                Ok(v) => v,
                Err(e) => {
                    return Err(e);
                },
            };
            proof {
                lemma_entries_push(entries@, (key, val));
            }
            entries.push((key, val));
            if !self.match_token(&TokenKind::Comma) {
                break;
            }
        }
        Ok(entries)
    }

    /// The parameters in brackets and the body in braces of a function or
    /// method, with the messages for a missing `(`, `)` and `{`.
    #[verifier::spinoff_prover]
    fn signature(&mut self, open: &str, close: &str, body: &str) -> (r: Result<(Vec<String>, Vec<Stmt>), Halt>)
        requires
            old(self).wf(),
        ensures
            final(self).wf(),
            final(self).toks() == old(self).toks(),
            final(self).pos() >= old(self).pos(),
            fits_sig(r, parse_signature(old(self).toks(), old(self).pos(), open@, close@, body@), final(self).pos()),
        decreases rem(old(self).toks(), old(self).pos()), 0int,
    {
        reveal_with_fuel(parse_signature, 1);
        match self.consume(&TokenKind::LeftParen, open) {
            Ok(v) => v,
            Err(e) => {
                return Err(e);
            },
        };
        let params = match self.parameters() {
            Ok(v) => v,
            Err(e) => {
                return Err(e);
            },
        };
        match self.consume(&TokenKind::RightParen, close) {
            Ok(v) => v,
            Err(e) => {
                return Err(e);
            },
        };
        match self.consume(&TokenKind::LeftBrace, body) {
            Ok(v) => v,
            Err(e) => {
                return Err(e);
            },
        };
        let statements = match self.block_statement() {
            Ok(v) => v,
            Err(e) => {
                return Err(e);
            },
        };
        Ok((params, statements))
    }

    /// A function expression after `function`: an optional name, the
    /// parameters and the body.
    #[verifier::spinoff_prover]
    fn function_expression(&mut self, is_async: bool) -> (r: Result<Expr, Halt>)
        requires
            old(self).wf(),
        ensures
            final(self).wf(),
            final(self).toks() == old(self).toks(),
            final(self).pos() >= old(self).pos(),
            fits_expr(r, parse_function_expr(old(self).toks(), old(self).pos(), is_async), final(self).pos()),
        decreases rem(old(self).toks(), old(self).pos()), 1int,
    {
        reveal_with_fuel(parse_function_expr, 1);
        let name = match &self.peek().kind {
            TokenKind::Identifier(n) => Some(dup_text(n)),
            _ => None,
        };
        if name.is_some() {
            self.advance();
        }
        let (params, body) = match self.signature("Expected '(' after function", "Expected ')' after parameters", "Expected '{' before function body") {
            Ok(v) => v,
            Err(e) => {
                return Err(e);
            },
        };
        Ok(Expr::FunctionExpr { name, params, body, is_async })
    }

    #[verifier::spinoff_prover]
    fn array_literal(&mut self) -> (r: Result<Expr, Halt>)
        requires
            old(self).wf(),
        ensures
            final(self).wf(),
            final(self).toks() == old(self).toks(),
            final(self).pos() >= old(self).pos(),
            fits_expr(r, parse_array(old(self).toks(), old(self).pos()), final(self).pos()),
        decreases rem(old(self).toks(), old(self).pos()), 27int,
    {
        reveal_with_fuel(parse_array, 1);
        let items = if !self.check(&TokenKind::RightBracket) {
            match self.arguments() {
                Ok(v) => v,
                Err(e) => {
                    return Err(e);
                },
            }
        } else {
            Vec::new()
        };
        proof {
            assert(evs(Seq::<Expr>::empty()) =~= Seq::<ExprV>::empty());
        }
        match self.consume(&TokenKind::RightBracket, "Expected ']' after array elements") {
            Ok(v) => v,
            Err(e) => {
                return Err(e);
            },
        };
        Ok(Expr::Array(items))
    }

    #[verifier::spinoff_prover]
    fn object_literal(&mut self) -> (r: Result<Expr, Halt>)
        requires
            old(self).wf(),
        ensures
            final(self).wf(),
            final(self).toks() == old(self).toks(),
            final(self).pos() >= old(self).pos(),
            fits_expr(r, parse_object(old(self).toks(), old(self).pos()), final(self).pos()),
        decreases rem(old(self).toks(), old(self).pos()), 1int,
    {
        reveal_with_fuel(parse_object, 1);
        let entries = if !self.check(&TokenKind::RightBrace) {
            match self.object_entries() {
                Ok(v) => v,
                Err(e) => {
                    return Err(e);
                },
            }
        } else {
            Vec::new()
        };
        proof {
            assert(entries_v(Seq::<(String, Expr)>::empty()) =~= Seq::<(Seq<char>, ExprV)>::empty());
        }
        match self.consume(&TokenKind::RightBrace, "Expected '}' after object properties") {
            Ok(v) => v,
            Err(e) => {
                return Err(e);
            },
        };
        Ok(Expr::Object(entries))
    }

    /// A number, string, name or parenthesised expression.
    #[verifier::spinoff_prover]
    fn operand(&mut self) -> (r: Result<Expr, Halt>)
        requires
            old(self).wf(),
        ensures
            final(self).wf(),
            final(self).toks() == old(self).toks(),
            final(self).pos() >= old(self).pos(),
            fits_expr(r, parse_operand(old(self).toks(), old(self).pos()), final(self).pos()),
            r is Ok && !at_end(old(self).toks(), old(self).pos()) ==> final(self).pos() > old(self).pos(),
        decreases rem(old(self).toks(), old(self).pos()), 6int,
    {
        reveal_with_fuel(parse_operand, 1);
        let was_at_end = self.is_at_end();
        self.advance();
        if self.current == 0 {
            return Err(Halt::Endless);
        }
        let tok = self.previous();
        let line = tok.line;
        let simple = match &tok.kind {
            TokenKind::Number(n) => Some(Expr::Number(dup_text(n))),
            TokenKind::String(s) => Some(Expr::String(dup_text(s))),
            TokenKind::Identifier(n) => Some(Expr::Identifier(dup_text(n))),
            TokenKind::LeftParen => {
                if was_at_end {
                    return Err(Halt::Endless);
                }
                None
            },
            k => {
                let mut m = String::new();
                push_str(&mut m, "Unexpected token ");
                let name = name_of(k);
                push_str(&mut m, name.as_str());
                push_str(&mut m, " at line ");
                push_decimal(&mut m, line as u64);
                proof {
                    assert(m@ =~= "Unexpected token "@ + kind_name(*k) + (" at line "@ + decimal(line as nat)));
                }
                return Err(Halt::Error(m));
            },
        };
        match simple {
            Some(e) => Ok(e),
            None => {
                let expr = match self.assignment() {
                    Ok(v) => v,
                    Err(e) => {
                        return Err(e);
                    },
                };
                match self.consume(&TokenKind::RightParen, "Expected ')' after expression") {
                    Ok(v) => v,
                    Err(e) => {
                        return Err(e);
                    },
                };
                Ok(expr)
            },
        }
    }

    #[verifier::spinoff_prover]
    fn primary(&mut self) -> (r: Result<Expr, Halt>)
        requires
            old(self).wf(),
        ensures
            final(self).wf(),
            final(self).toks() == old(self).toks(),
            final(self).pos() >= old(self).pos(),
            fits_expr(r, parse_primary(old(self).toks(), old(self).pos()), final(self).pos()),
            r is Ok && !at_end(old(self).toks(), old(self).pos()) ==> final(self).pos() > old(self).pos(),
        decreases rem(old(self).toks(), old(self).pos()), 7int,
    {
        reveal_with_fuel(parse_primary, 1);
        if self.match_token(&TokenKind::False) {
            Ok(Expr::Boolean(false))
        } else if self.match_token(&TokenKind::True) {
            Ok(Expr::Boolean(true))
        } else if self.match_token(&TokenKind::Null) {
            Ok(Expr::Null)
        } else if self.match_token(&TokenKind::Undefined) {
            Ok(Expr::Undefined)
        } else if self.match_token(&TokenKind::This) {
            Ok(Expr::This)
        } else if self.match_token(&TokenKind::LeftBracket) {
            self.array_literal()
        } else if self.match_token(&TokenKind::LeftBrace) {
            self.object_literal()
        } else if self.match_token(&TokenKind::Async) {
            match self.consume(&TokenKind::Function, "Expected 'function' after 'async'") {
                Ok(v) => v,
                Err(e) => {
                    return Err(e);
                },
            };
            self.function_expression(true)
        } else if self.match_token(&TokenKind::Function) {
            self.function_expression(false)
        } else {
            self.operand()
        }
    }
}

impl Parser {
    /// Parses the whole token list into statements. Inputs on which the
    /// parse has no outcome are left out.
    #[verifier::spinoff_prover]
    pub fn parse(&mut self) -> (r: Result<Vec<Stmt>, String>)
        requires
            old(self).wf(),
            !(parse_program(old(self).toks(), old(self).pos(), Seq::empty()) is Stuck),
        ensures
            final(self).wf(),
            final(self).toks() == old(self).toks(),
            match (r, parse_program(old(self).toks(), old(self).pos(), Seq::empty())) {
                (Ok(ss), Step::Done(v, _)) => svs(ss@) == v,
                (Err(m), Step::Fail(x)) => m@ == x,
                _ => false,
            },
    {
        match self.program() {
            Ok(ss) => Ok(ss),
            Err(Halt::Error(m)) => Err(m),
            Err(Halt::Endless) => Err(String::new()),
        }
    }

    /// Parses the whole token list into statements, or gives `None` for an
    /// input on which the parse would recurse without end (an expression
    /// wanted at the end, right after a `(`).
    #[verifier::spinoff_prover]
    pub fn parse_checked(&mut self) -> (r: Option<Result<Vec<Stmt>, String>>)
        requires
            old(self).wf(),
        ensures
            final(self).wf(),
            final(self).toks() == old(self).toks(),
            match (r, parse_program(old(self).toks(), old(self).pos(), Seq::empty())) {
                (Some(Ok(ss)), Step::Done(v, _)) => svs(ss@) == v,
                (Some(Err(m)), Step::Fail(x)) => m@ == x,
                (None, Step::Stuck) => true,
                _ => false,
            },
    {
        match self.program() {
            Ok(ss) => Some(Ok(ss)),
            Err(Halt::Error(m)) => Some(Err(m)),
            Err(Halt::Endless) => None,
        }
    }

    /// The declarations of the program from the cursor to the end.
    #[verifier::spinoff_prover]
    fn program(&mut self) -> (r: Result<Vec<Stmt>, Halt>)
        requires
            old(self).wf(),
        ensures
            final(self).wf(),
            final(self).toks() == old(self).toks(),
            fits_stmts(r, parse_program(old(self).toks(), old(self).pos(), Seq::empty()), final(self).pos()),
    {
        let ghost t = self.toks();
        let ghost p = self.pos();
        let mut statements: Vec<Stmt> = Vec::new();
        proof {
            assert(svs(statements@) =~= Seq::<StmtV>::empty());
        }
        while !self.is_at_end()
            invariant
                self.wf(),
                t == old(self).toks(),
                p == old(self).pos(),
                self.toks() == t,
                self.pos() >= p,
                parse_program(t, p, Seq::empty()) == parse_program(t, self.pos(), svs(statements@)),
            decreases rem(t, self.pos()),
        {
            let s = match self.declaration() {
                Ok(v) => v,
                Err(e) => {
                    return Err(e);
                },
            };
            proof {
                lemma_svs_push(statements@, s);
            }
            statements.push(s);
        }
        Ok(statements)
    }

    #[verifier::spinoff_prover]
    fn declaration(&mut self) -> (r: Result<Stmt, Halt>)
        requires
            old(self).wf(),
        ensures
            final(self).wf(),
            final(self).toks() == old(self).toks(),
            final(self).pos() >= old(self).pos(),
            fits_stmt(r, parse_declaration(old(self).toks(), old(self).pos()), final(self).pos()),
            r is Ok && !at_end(old(self).toks(), old(self).pos()) ==> final(self).pos() > old(self).pos(),
        decreases rem(old(self).toks(), old(self).pos()), 28int,
    {
        reveal_with_fuel(parse_declaration, 1);
        if self.match_token(&TokenKind::Let) || self.match_token(&TokenKind::Const) || self.match_token(
            &TokenKind::Var,
        ) {
            self.var_declaration()
        } else if self.match_token(&TokenKind::Async) {
            match self.consume(&TokenKind::Function, "Expected 'function' after 'async'") {
                Ok(()) => {},
                Err(e) => {
                    return Err(e);
                },
            }
            self.function_declaration(true)
        } else if self.match_token(&TokenKind::Function) {
            self.function_declaration(false)
        } else if self.match_token(&TokenKind::Class) {
            self.class_declaration()
        } else {
            self.statement()
        }
    }

    #[verifier::spinoff_prover]
    fn class_declaration(&mut self) -> (r: Result<Stmt, Halt>)
        requires
            old(self).wf(),
        ensures
            final(self).wf(),
            final(self).toks() == old(self).toks(),
            final(self).pos() >= old(self).pos(),
            fits_stmt(r, parse_class_decl(old(self).toks(), old(self).pos()), final(self).pos()),
        decreases rem(old(self).toks(), old(self).pos()), 0int,
    {
        reveal_with_fuel(parse_class_decl, 1);
        let name = match self.take_name("Expected class name") {
            Ok(v) => v,
            Err(e) => {
                return Err(e);
            },
        };
        match self.consume(&TokenKind::LeftBrace, "Expected '{' after class name") {
            Ok(()) => {},
            Err(e) => {
                return Err(e);
            },
        }
        let methods = match self.class_methods(&name) {
            Ok(v) => v,
            Err(e) => {
                return Err(e);
            },
        };
        match self.consume(&TokenKind::RightBrace, "Expected '}' after class body") {
            Ok(()) => {},
            Err(e) => {
                return Err(e);
            },
        }
        Ok(Stmt::ClassDecl { name, methods })
    }

    /// The methods of a class body, up to its `}`.
    #[verifier::spinoff_prover]
    fn class_methods(&mut self, class: &String) -> (r: Result<Vec<ClassMethod>, Halt>)
        requires
            old(self).wf(),
        ensures
            final(self).wf(),
            final(self).toks() == old(self).toks(),
            final(self).pos() >= old(self).pos(),
            fits_methods(r, parse_methods(old(self).toks(), old(self).pos(), class@, Seq::empty()), final(self).pos()),
        decreases rem(old(self).toks(), old(self).pos()), 0int,
    {
        let ghost t = self.toks();
        let ghost p = self.pos();
        let mut methods: Vec<ClassMethod> = Vec::new();
        proof {
            assert(mvs(methods@) =~= Seq::<MethodV>::empty());
        }
        let mut msg = String::new();
        push_str(&mut msg, "Expected method name in class '");
        push_str(&mut msg, class.as_str());
        push_str(&mut msg, "'");
        proof {
            assert(msg@ =~= "Expected method name in class '"@ + class@ + "'"@);
        }
        while !self.check(&TokenKind::RightBrace) && !self.is_at_end()
            invariant
                self.wf(),
                t == old(self).toks(),
                p == old(self).pos(),
                self.toks() == t,
                self.pos() >= p,
                msg@ == "Expected method name in class '"@ + class@ + "'"@,
                parse_methods(t, p, class@, Seq::empty()) == parse_methods(t, self.pos(), class@, mvs(methods@)),
            decreases rem(t, self.pos()),
        {
            let name = match self.take_name(msg.as_str()) {
                Ok(v) => v,
                Err(e) => {
                    return Err(e);
                },
            };
            let (params, body) = match self.signature("Expected '(' after method name", "Expected ')' after method parameters", "Expected '{' before method body") {
                Ok(v) => v,
                Err(e) => {
                    return Err(e);
                },
            };
            let m = ClassMethod { name, params, body };
            proof {
                lemma_mvs_push(methods@, m);
            }
            methods.push(m);
        }
        Ok(methods)
    }

    #[verifier::spinoff_prover]
    fn var_declaration(&mut self) -> (r: Result<Stmt, Halt>)
        requires
            old(self).wf(),
        ensures
            final(self).wf(),
            final(self).toks() == old(self).toks(),
            final(self).pos() >= old(self).pos(),
            fits_stmt(r, parse_var_decl(old(self).toks(), old(self).pos()), final(self).pos()),
        decreases rem(old(self).toks(), old(self).pos()), 0int,
    {
        reveal_with_fuel(parse_var_decl, 1);
        let name = match self.take_name("Expected variable name") {
            Ok(v) => v,
            Err(e) => {
                return Err(e);
            },
        };
        let initializer = if self.match_token(&TokenKind::Equal) {
            match self.assignment() {
                Ok(v) => Some(v),
                Err(e) => {
                    return Err(e);
                },
            }
        } else {
            None
        };
        self.match_token(&TokenKind::Semicolon);
        Ok(Stmt::VarDecl { name, initializer })
    }

    #[verifier::spinoff_prover]
    fn function_declaration(&mut self, is_async: bool) -> (r: Result<Stmt, Halt>)
        requires
            old(self).wf(),
        ensures
            final(self).wf(),
            final(self).toks() == old(self).toks(),
            final(self).pos() >= old(self).pos(),
            fits_stmt(r, parse_function_decl(old(self).toks(), old(self).pos(), is_async), final(self).pos()),
        decreases rem(old(self).toks(), old(self).pos()), 1int,
    {
        reveal_with_fuel(parse_function_decl, 1);
        let name = match self.take_name("Expected function name") {
            Ok(v) => v,
            Err(e) => {
                return Err(e);
            },
        };
        let (params, body) = match self.signature("Expected '(' after function name", "Expected ')' after parameters", "Expected '{' before function body") {
            Ok(v) => v,
            Err(e) => {
                return Err(e);
            },
        };
        Ok(Stmt::FunctionDecl { name, params, body, is_async })
    }

    #[verifier::spinoff_prover]
    fn statement(&mut self) -> (r: Result<Stmt, Halt>)
        requires
            old(self).wf(),
        ensures
            final(self).wf(),
            final(self).toks() == old(self).toks(),
            final(self).pos() >= old(self).pos(),
            fits_stmt(r, parse_statement(old(self).toks(), old(self).pos()), final(self).pos()),
            r is Ok && !at_end(old(self).toks(), old(self).pos()) ==> final(self).pos() > old(self).pos(),
        decreases rem(old(self).toks(), old(self).pos()), 27int,
    {
        reveal_with_fuel(parse_statement, 1);
        if self.match_token(&TokenKind::If) {
            self.if_statement()
        } else if self.match_token(&TokenKind::While) {
            self.while_statement()
        } else if self.match_token(&TokenKind::For) {
            self.for_statement()
        } else if self.match_token(&TokenKind::Return) {
            self.return_statement()
        } else if self.match_token(&TokenKind::Try) {
            self.try_statement()
        } else if self.match_token(&TokenKind::Throw) {
            self.throw_statement()
        } else if self.match_token(&TokenKind::LeftBrace) {
            match self.block_statement() {
                Ok(v) => Ok(Stmt::Block(v)),
                Err(e) => {
                    return Err(e);
                },
            }
        } else {
            self.expression_statement()
        }
    }

    /// The catch part of a `try`: the optional parameter and the block, if there is a `catch`.
    #[verifier::spinoff_prover]
    fn catch_clause(&mut self) -> (r: Result<(Option<String>, Option<Vec<Stmt>>), Halt>)
        requires
            old(self).wf(),
        ensures
            final(self).wf(),
            final(self).toks() == old(self).toks(),
            final(self).pos() >= old(self).pos(),
            fits_catch(r, parse_catch(old(self).toks(), old(self).pos()), final(self).pos()),
        decreases rem(old(self).toks(), old(self).pos()), 0int,
    {
        reveal_with_fuel(parse_catch, 1);
        if self.match_token(&TokenKind::Catch) {
            let mut catch_param = None;
            if self.match_token(&TokenKind::LeftParen) {
                let param = match self.take_name("Expected catch parameter name") {
                    Ok(v) => v,
                    Err(e) => {
                        return Err(e);
                    },
                };
                match self.consume(&TokenKind::RightParen, "Expected ')' after catch parameter") {
                    Ok(()) => {},
                    Err(e) => {
                        return Err(e);
                    },
                }
                catch_param = Some(param);
            }
            match self.consume(&TokenKind::LeftBrace, "Expected '{' before catch block") {
                Ok(()) => {},
                Err(e) => {
                    return Err(e);
                },
            }
            let block = match self.block_statement() {
                Ok(v) => v,
                Err(e) => {
                    return Err(e);
                },
            };
            Ok((catch_param, Some(block)))
        } else {
            Ok((None, None))
        }
    }

    /// The block of a `finally`, if there is one.
    #[verifier::spinoff_prover]
    fn finally_clause(&mut self) -> (r: Result<Option<Vec<Stmt>>, Halt>)
        requires
            old(self).wf(),
        ensures
            final(self).wf(),
            final(self).toks() == old(self).toks(),
            final(self).pos() >= old(self).pos(),
            fits_opt_block(r, parse_finally(old(self).toks(), old(self).pos()), final(self).pos()),
        decreases rem(old(self).toks(), old(self).pos()), 0int,
    {
        reveal_with_fuel(parse_finally, 1);
        if self.match_token(&TokenKind::Finally) {
            match self.consume(&TokenKind::LeftBrace, "Expected '{' before finally block") {
                Ok(()) => {},
                Err(e) => {
                    return Err(e);
                },
            }
            match self.block_statement() {
                Ok(v) => Ok(Some(v)),
                Err(e) => {
                    return Err(e);
                },
            }
        } else {
            Ok(None)
        }
    }

    /// The `catch` and `finally` parts of a `try` whose block is `block`.
    #[verifier::spinoff_prover]
    fn try_rest(&mut self, block: Vec<Stmt>) -> (r: Result<Stmt, Halt>)
        requires
            old(self).wf(),
        ensures
            final(self).wf(),
            final(self).toks() == old(self).toks(),
            final(self).pos() >= old(self).pos(),
            fits_stmt(r, parse_try_rest(old(self).toks(), old(self).pos(), svs(block@)), final(self).pos()),
        decreases rem(old(self).toks(), old(self).pos()), 1int,
    {
        reveal_with_fuel(parse_try_rest, 1);
        proof {
            reveal_with_fuel(sv, 2);
        }
        let (catch_param, catch) = match self.catch_clause() {
            Ok(v) => v,
            Err(e) => {
                return Err(e);
            },
        };
        let finally = match self.finally_clause() {
            Ok(v) => v,
            Err(e) => {
                return Err(e);
            },
        };
        if catch.is_none() && finally.is_none() {
            return Err(Halt::Error("Missing catch or finally clause after try".to_owned()));
        }
        let catch_block = match catch {
            Some(b) => Some(Box::new(Stmt::Block(b))),
            None => None,
        };
        let finally_block = match finally {
            Some(b) => Some(Box::new(Stmt::Block(b))),
            None => None,
        };
        Ok(Stmt::TryCatch { try_block: Box::new(Stmt::Block(block)), catch_param, catch_block, finally_block })
    }

    #[verifier::spinoff_prover]
    fn try_statement(&mut self) -> (r: Result<Stmt, Halt>)
        requires
            old(self).wf(),
        ensures
            final(self).wf(),
            final(self).toks() == old(self).toks(),
            final(self).pos() >= old(self).pos(),
            fits_stmt(r, parse_try(old(self).toks(), old(self).pos()), final(self).pos()),
        decreases rem(old(self).toks(), old(self).pos()), 0int,
    {
        reveal_with_fuel(parse_try, 1);
        match self.consume(&TokenKind::LeftBrace, "Expected '{' after 'try'") {
            Ok(v) => v,
            Err(e) => {
                return Err(e);
            },
        };
        let block = match self.block_statement() {
            Ok(v) => v,
            Err(e) => {
                return Err(e);
            },
        };
        self.try_rest(block)
    }

    #[verifier::spinoff_prover]
    fn throw_statement(&mut self) -> (r: Result<Stmt, Halt>)
        requires
            old(self).wf(),
        ensures
            final(self).wf(),
            final(self).toks() == old(self).toks(),
            final(self).pos() >= old(self).pos(),
            fits_stmt(r, parse_throw(old(self).toks(), old(self).pos()), final(self).pos()),
        decreases rem(old(self).toks(), old(self).pos()), 26int,
    {
        reveal_with_fuel(parse_throw, 1);
        let expr = match self.assignment() {
            Ok(v) => v,
            Err(e) => {
                return Err(e);
            },
        };
        self.match_token(&TokenKind::Semicolon);
        Ok(Stmt::Throw(expr))
    }

    #[verifier::spinoff_prover]
    fn if_statement(&mut self) -> (r: Result<Stmt, Halt>)
        requires
            old(self).wf(),
        ensures
            final(self).wf(),
            final(self).toks() == old(self).toks(),
            final(self).pos() >= old(self).pos(),
            fits_stmt(r, parse_if(old(self).toks(), old(self).pos()), final(self).pos()),
        decreases rem(old(self).toks(), old(self).pos()), 0int,
    {
        reveal_with_fuel(parse_if, 1);
        match self.consume(&TokenKind::LeftParen, "Expected '(' after 'if'") {
            Ok(()) => {},
            Err(e) => {
                return Err(e);
            },
        }
        let condition = match self.assignment() {
            Ok(v) => v,
            Err(e) => {
                return Err(e);
            },
        };
        match self.consume(&TokenKind::RightParen, "Expected ')' after condition") {
            Ok(()) => {},
            Err(e) => {
                return Err(e);
            },
        }
        let then_branch = match self.statement() {
            Ok(v) => Box::new(v),
            Err(e) => {
                return Err(e);
            },
        };
        let else_branch = if self.match_token(&TokenKind::Else) {
            match self.statement() {
                Ok(v) => Some(Box::new(v)),
                Err(e) => {
                    return Err(e);
                },
            }
        } else {
            None
        };
        Ok(Stmt::If { condition, then_branch, else_branch })
    }

    #[verifier::spinoff_prover]
    fn while_statement(&mut self) -> (r: Result<Stmt, Halt>)
        requires
            old(self).wf(),
        ensures
            final(self).wf(),
            final(self).toks() == old(self).toks(),
            final(self).pos() >= old(self).pos(),
            fits_stmt(r, parse_while(old(self).toks(), old(self).pos()), final(self).pos()),
        decreases rem(old(self).toks(), old(self).pos()), 0int,
    {
        reveal_with_fuel(parse_while, 1);
        match self.consume(&TokenKind::LeftParen, "Expected '(' after 'while'") {
            Ok(()) => {},
            Err(e) => {
                return Err(e);
            },
        }
        let condition = match self.assignment() {
            Ok(v) => v,
            Err(e) => {
                return Err(e);
            },
        };
        match self.consume(&TokenKind::RightParen, "Expected ')' after condition") {
            Ok(()) => {},
            Err(e) => {
                return Err(e);
            },
        }
        let body = match self.statement() {
            Ok(v) => Box::new(v),
            Err(e) => {
                return Err(e);
            },
        };
        Ok(Stmt::While { condition, body })
    }

    /// An expression initialiser of a `for`, with its `;`.
    #[verifier::spinoff_prover]
    fn for_expr_init(&mut self) -> (r: Result<Option<Stmt>, Halt>)
        requires
            old(self).wf(),
        ensures
            final(self).wf(),
            final(self).toks() == old(self).toks(),
            final(self).pos() >= old(self).pos(),
            fits_opt_stmt(r, parse_for_expr_init(old(self).toks(), old(self).pos()), final(self).pos()),
        decreases rem(old(self).toks(), old(self).pos()), 26int,
    {
        reveal_with_fuel(parse_for_expr_init, 1);
        let expr = match self.assignment() {
            Ok(v) => v,
            Err(e) => {
                return Err(e);
            },
        };
        match self.consume(&TokenKind::Semicolon, "Expected ';' after for init") {
            Ok(v) => v,
            Err(e) => {
                return Err(e);
            },
        };
        Ok(Some(Stmt::Expr(expr)))
    }

    /// The initialiser of a `for`, with its `;`.
    #[verifier::spinoff_prover]
    fn for_init(&mut self) -> (r: Result<Option<Stmt>, Halt>)
        requires
            old(self).wf(),
        ensures
            final(self).wf(),
            final(self).toks() == old(self).toks(),
            final(self).pos() >= old(self).pos(),
            fits_opt_stmt(r, parse_for_init(old(self).toks(), old(self).pos()), final(self).pos()),
        decreases rem(old(self).toks(), old(self).pos()), 27int,
    {
        reveal_with_fuel(parse_for_init, 1);
        if self.match_token(&TokenKind::Semicolon) {
            Ok(None)
        } else if self.match_token(&TokenKind::Let) || self.match_token(&TokenKind::Var) || self.match_token(
            &TokenKind::Const,
        ) {
            let s = match self.var_declaration() {
                Ok(v) => v,
                Err(e) => {
                    return Err(e);
                },
            };
            Ok(Some(s))
        } else {
            self.for_expr_init()
        }
    }

    /// An expression, unless the token at the cursor is `stop`.
    #[verifier::spinoff_prover]
    fn optional_expression(&mut self, stop: &TokenKind) -> (r: Result<Option<Expr>, Halt>)
        requires
            old(self).wf(),
        ensures
            final(self).wf(),
            final(self).toks() == old(self).toks(),
            final(self).pos() >= old(self).pos(),
            fits_opt_expr(r, parse_optional(old(self).toks(), old(self).pos(), *stop), final(self).pos()),
        decreases rem(old(self).toks(), old(self).pos()), 25int,
    {
        reveal_with_fuel(parse_optional, 1);
        if self.check(stop) {
            Ok(None)
        } else {
            match self.assignment() {
                Ok(v) => Ok(Some(v)),
                Err(e) => {
                    return Err(e);
                },
            }
        }
    }

    /// The update and the body of a `for`, after its condition and `;`.
    #[verifier::spinoff_prover]
    fn for_tail(&mut self, init: Option<Stmt>, condition: Option<Expr>) -> (r: Result<Stmt, Halt>)
        requires
            old(self).wf(),
        ensures
            final(self).wf(),
            final(self).toks() == old(self).toks(),
            final(self).pos() >= old(self).pos(),
            fits_stmt(r, parse_for_tail(old(self).toks(), old(self).pos(), opt_stmt(init), opt_expr(condition)), final(self).pos()),
        decreases rem(old(self).toks(), old(self).pos()), 26int,
    {
        reveal_with_fuel(parse_for_tail, 1);
        let update = match self.optional_expression(&TokenKind::RightParen) {
            Ok(v) => v,
            Err(e) => {
                return Err(e);
            },
        };
        match self.consume(&TokenKind::RightParen, "Expected ')' after for clauses") {
            Ok(v) => v,
            Err(e) => {
                return Err(e);
            },
        };
        let body = match self.statement() {
            Ok(v) => v,
            Err(e) => {
                return Err(e);
            },
        };
        let init = match init {
            Some(s) => Some(Box::new(s)),
            None => None,
        };
        Ok(Stmt::For { init, condition, update, body: Box::new(body) })
    }

    /// The condition, update and body of a `for`, after its initialiser.
    #[verifier::spinoff_prover]
    fn for_rest(&mut self, init: Option<Stmt>) -> (r: Result<Stmt, Halt>)
        requires
            old(self).wf(),
        ensures
            final(self).wf(),
            final(self).toks() == old(self).toks(),
            final(self).pos() >= old(self).pos(),
            fits_stmt(r, parse_for_rest(old(self).toks(), old(self).pos(), opt_stmt(init)), final(self).pos()),
        decreases rem(old(self).toks(), old(self).pos()), 26int,
    {
        reveal_with_fuel(parse_for_rest, 1);
        let condition = match self.optional_expression(&TokenKind::Semicolon) {
            Ok(v) => v,
            Err(e) => {
                return Err(e);
            },
        };
        match self.consume(&TokenKind::Semicolon, "Expected ';' after for condition") {
            Ok(v) => v,
            Err(e) => {
                return Err(e);
            },
        };
        self.for_tail(init, condition)
    }

    #[verifier::spinoff_prover]
    fn for_statement(&mut self) -> (r: Result<Stmt, Halt>)
        requires
            old(self).wf(),
        ensures
            final(self).wf(),
            final(self).toks() == old(self).toks(),
            final(self).pos() >= old(self).pos(),
            fits_stmt(r, parse_for(old(self).toks(), old(self).pos()), final(self).pos()),
        decreases rem(old(self).toks(), old(self).pos()), 0int,
    {
        reveal_with_fuel(parse_for, 1);
        match self.consume(&TokenKind::LeftParen, "Expected '(' after 'for'") {
            Ok(v) => v,
            Err(e) => {
                return Err(e);
            },
        };
        let init = match self.for_init() {
            Ok(v) => v,
            Err(e) => {
                return Err(e);
            },
        };
        self.for_rest(init)
    }

    #[verifier::spinoff_prover]
    fn return_statement(&mut self) -> (r: Result<Stmt, Halt>)
        requires
            old(self).wf(),
        ensures
            final(self).wf(),
            final(self).toks() == old(self).toks(),
            final(self).pos() >= old(self).pos(),
            fits_stmt(r, parse_return(old(self).toks(), old(self).pos()), final(self).pos()),
        decreases rem(old(self).toks(), old(self).pos()), 26int,
    {
        reveal_with_fuel(parse_return, 1);
        let value = if !self.check(&TokenKind::Semicolon) && !self.check(&TokenKind::RightBrace) {
            match self.assignment() {
                Ok(v) => Some(v),
                Err(e) => {
                    return Err(e);
                },
            }
        } else {
            None
        };
        self.match_token(&TokenKind::Semicolon);
        Ok(Stmt::Return(value))
    }

    /// The statements of a block after its `{`, and the `}`.
    #[verifier::spinoff_prover]
    fn block_statement(&mut self) -> (r: Result<Vec<Stmt>, Halt>)
        requires
            old(self).wf(),
        ensures
            final(self).wf(),
            final(self).toks() == old(self).toks(),
            final(self).pos() >= old(self).pos(),
            fits_stmts(r, parse_block(old(self).toks(), old(self).pos()), final(self).pos()),
        decreases rem(old(self).toks(), old(self).pos()), 30int,
    {
        reveal_with_fuel(parse_block, 1);
        let ghost t = self.toks();
        let ghost p = self.pos();
        let mut statements: Vec<Stmt> = Vec::new();
        proof {
            assert(svs(statements@) =~= Seq::<StmtV>::empty());
        }
        while !self.check(&TokenKind::RightBrace) && !self.is_at_end()
            invariant
                self.wf(),
                t == old(self).toks(),
                p == old(self).pos(),
                self.toks() == t,
                self.pos() >= p,
                parse_block_items(t, p, Seq::empty()) == parse_block_items(t, self.pos(), svs(statements@)),
            decreases rem(t, self.pos()),
        {
            reveal_with_fuel(parse_block, 1);
            let s = match self.declaration() {
                Ok(v) => v,
                Err(e) => {
                    return Err(e);
                },
            };
            proof {
                lemma_svs_push(statements@, s);
            }
            statements.push(s);
        }
        match self.consume(&TokenKind::RightBrace, "Expected '}' after block") {
            Ok(()) => {},
            Err(e) => {
                return Err(e);
            },
        }
        Ok(statements)
    }

    #[verifier::spinoff_prover]
    fn expression_statement(&mut self) -> (r: Result<Stmt, Halt>)
        requires
            old(self).wf(),
        ensures
            final(self).wf(),
            final(self).toks() == old(self).toks(),
            final(self).pos() >= old(self).pos(),
            fits_stmt(r, parse_expr_stmt(old(self).toks(), old(self).pos()), final(self).pos()),
            r is Ok && !at_end(old(self).toks(), old(self).pos()) ==> final(self).pos() > old(self).pos(),
        decreases rem(old(self).toks(), old(self).pos()), 26int,
    {
        reveal_with_fuel(parse_expr_stmt, 1);
        let expr = match self.assignment() {
            Ok(v) => v,
            Err(e) => {
                return Err(e);
            },
        };
        self.match_token(&TokenKind::Semicolon);
        Ok(Stmt::Expr(expr))
    }
}


/// A program that parses has been read to its end: the position reached is
/// at the end of the input.
pub proof fn law_program_reads_to_the_end(t: Seq<Token>, p: int, acc: Seq<StmtV>)
    ensures
        parse_program(t, p, acc) matches Step::Done(_, q) ==> at_end(t, q),
    decreases rem(t, p),
{
    if !at_end(t, p) {
        match parse_declaration(t, p) {
            Step::Done(s, q) => {
                if q > p {
                    law_program_reads_to_the_end(t, q, acc.push(s));
                }
            },
            _ => {},
        }
    }
}


/// What the lexer produces can be handed to the parser: the token list is not
/// empty and ends with the end-of-input token, so a parser over it starts well formed.
pub proof fn law_lexed_tokens_are_parsable(s: Seq<char>, pos: int, line: int, t: Seq<Token>)
    requires
        0 <= pos <= s.len(),
        lex(s, pos, line) matches Ok(v) && t.map_values(|x: Token| token_view(x)) == v,
    ensures
        t.len() > 0,
        eof_from(t, 0),
{
    law_tokens_end_with_eof(s, pos, line);
    let v = t.map_values(|x: Token| token_view(x));
    let last = t.len() - 1;
    assert(v[last] == token_view(t[last]));
    assert(t[last].kind is Eof);
    assert(0 <= last < t.len() && t[last].kind is Eof);
}


/// Operator precedence, loosest to tightest: `||`, `&&`, equality (`==`,
/// `===`, `!=`, `!==`), comparison (`<`, `<=`, `>`, `>=`, `instanceof`,
/// `in`), sums (`+`, `-`), products (`*`, `/`, `%`). Operators of one group
/// bind alike, each group binds tighter than the one before, and each token
/// stands for the operator of its name. These are the levels `parse_binary`
/// climbs: the right operand of an operator is read at the next level up, so
/// tighter operators are taken inside it.
pub proof fn law_operator_precedence()
    ensures
        binary_of(TokenKind::OrOr) is Some && (binary_of(TokenKind::OrOr)->0).1 == BinaryOp::Or,
        binary_of(TokenKind::AndAnd) is Some && (binary_of(TokenKind::AndAnd)->0).1 == BinaryOp::And,
        binary_of(TokenKind::EqualEqual) is Some && (binary_of(TokenKind::EqualEqual)->0).1 == BinaryOp::Equal,
        binary_of(TokenKind::EqualEqualEqual) is Some && (binary_of(TokenKind::EqualEqualEqual)->0).1 == BinaryOp::StrictEqual,
        binary_of(TokenKind::NotEqual) is Some && (binary_of(TokenKind::NotEqual)->0).1 == BinaryOp::NotEqual,
        binary_of(TokenKind::NotEqualEqual) is Some && (binary_of(TokenKind::NotEqualEqual)->0).1 == BinaryOp::StrictNotEqual,
        binary_of(TokenKind::Greater) is Some && (binary_of(TokenKind::Greater)->0).1 == BinaryOp::Greater,
        binary_of(TokenKind::GreaterEqual) is Some && (binary_of(TokenKind::GreaterEqual)->0).1 == BinaryOp::GreaterEqual,
        binary_of(TokenKind::Less) is Some && (binary_of(TokenKind::Less)->0).1 == BinaryOp::Less,
        binary_of(TokenKind::LessEqual) is Some && (binary_of(TokenKind::LessEqual)->0).1 == BinaryOp::LessEqual,
        binary_of(TokenKind::InstanceOf) is Some && (binary_of(TokenKind::InstanceOf)->0).1 == BinaryOp::InstanceOf,
        binary_of(TokenKind::In) is Some && (binary_of(TokenKind::In)->0).1 == BinaryOp::In,
        binary_of(TokenKind::Plus) is Some && (binary_of(TokenKind::Plus)->0).1 == BinaryOp::Add,
        binary_of(TokenKind::Minus) is Some && (binary_of(TokenKind::Minus)->0).1 == BinaryOp::Sub,
        binary_of(TokenKind::Star) is Some && (binary_of(TokenKind::Star)->0).1 == BinaryOp::Mul,
        binary_of(TokenKind::Slash) is Some && (binary_of(TokenKind::Slash)->0).1 == BinaryOp::Div,
        binary_of(TokenKind::Percent) is Some && (binary_of(TokenKind::Percent)->0).1 == BinaryOp::Mod,
        (binary_of(TokenKind::Star)->0).0 == (binary_of(TokenKind::Slash)->0).0 && (binary_of(TokenKind::Slash)->0).0 == (binary_of(TokenKind::Percent)->0).0,
        (binary_of(TokenKind::Plus)->0).0 == (binary_of(TokenKind::Minus)->0).0,
        (binary_of(TokenKind::Greater)->0).0 == (binary_of(TokenKind::GreaterEqual)->0).0 && (binary_of(TokenKind::GreaterEqual)->0).0 == (binary_of(TokenKind::Less)->0).0 && (binary_of(TokenKind::Less)->0).0 == (binary_of(TokenKind::LessEqual)->0).0 && (binary_of(TokenKind::LessEqual)->0).0 == (binary_of(TokenKind::InstanceOf)->0).0 && (binary_of(TokenKind::InstanceOf)->0).0 == (binary_of(TokenKind::In)->0).0,
        (binary_of(TokenKind::EqualEqual)->0).0 == (binary_of(TokenKind::EqualEqualEqual)->0).0 && (binary_of(TokenKind::EqualEqualEqual)->0).0 == (binary_of(TokenKind::NotEqual)->0).0 && (binary_of(TokenKind::NotEqual)->0).0 == (binary_of(TokenKind::NotEqualEqual)->0).0,
        (binary_of(TokenKind::OrOr)->0).0 < (binary_of(TokenKind::AndAnd)->0).0 && (binary_of(TokenKind::AndAnd)->0).0 < (binary_of(TokenKind::EqualEqual)->0).0 && (binary_of(TokenKind::EqualEqual)->0).0 < (binary_of(TokenKind::Less)->0).0 && (binary_of(TokenKind::Less)->0).0 < (binary_of(TokenKind::Plus)->0).0 && (binary_of(TokenKind::Plus)->0).0 < (binary_of(TokenKind::Star)->0).0,
        forall|k: TokenKind| #[trigger] binary_of(k) matches Some((l, _)) ==> 0 <= l <= 5,
{
}


/// The level of a binary operator token.
pub open spec fn op_level(k: TokenKind) -> int {
    (binary_of(k)->0).0
}

/// The operator a binary operator token stands for.
pub open spec fn op_of(k: TokenKind) -> BinaryOp {
    (binary_of(k)->0).1
}

/// The number literal a token holds, as an expression.
pub open spec fn number_expr(k: TokenKind) -> ExprV {
    ExprV::Number(k->Number_0@)
}

/// A token after which a number operand is complete: not `(`, `.` or `[`.
pub open spec fn ends_operand(k: TokenKind) -> bool {
    !(k is LeftParen) && !(k is Dot) && !(k is LeftBracket)
}

#[verifier::spinoff_prover]
proof fn lemma_number_unary(t: Seq<Token>, q: int)
    requires
        0 <= q,
        q + 1 < t.len(),
        t[q].kind is Number,
        ends_operand(t[q + 1].kind),
    ensures
        parse_unary(t, q) == Step::Done(number_expr(t[q].kind), q + 1),
{
    reveal_with_fuel(parse_unary, 1);
    reveal_with_fuel(parse_call, 1);
    reveal_with_fuel(parse_primary, 1);
    reveal_with_fuel(parse_operand, 1);
    reveal(kind_code);
    reveal_with_fuel(parse_call_rest, 1);
    let e = number_expr(t[q].kind);
    assert(!at_end(t, q));
    assert(parse_operand(t, q) == Step::Done(e, q + 1));
    assert(parse_primary(t, q) == Step::Done(e, q + 1));
    assert(parse_call_rest(t, q + 1, e) == Step::Done(e, q + 1));
    assert(parse_call(t, q) == Step::Done(e, q + 1));
}

/// A number followed by a token that is no operator of level `l` or above
/// is a whole operand at level `l`.
#[verifier::spinoff_prover]
proof fn lemma_binary_top(t: Seq<Token>, q: int, e: ExprV)
    requires
        parse_unary(t, q) == Step::Done(e, q + 1),
    ensures
        parse_binary(t, q, 5) == parse_binary_rest(t, q + 1, 5, e),
{
    reveal_with_fuel(parse_binary, 1);
}

#[verifier::spinoff_prover]
proof fn lemma_binary_step(t: Seq<Token>, q: int, l: int, e: ExprV, q2: int)
    requires
        0 <= l < 5,
        parse_binary(t, q, l + 1) == Step::Done(e, q2),
        q2 >= q,
    ensures
        parse_binary(t, q, l) == parse_binary_rest(t, q2, l, e),
{
    reveal_with_fuel(parse_binary, 1);
}

#[verifier::spinoff_prover]
proof fn lemma_number_binary(t: Seq<Token>, q: int, l: int)
    requires
        0 <= q,
        q + 1 < t.len(),
        0 <= l <= 5,
        t[q].kind is Number,
        ends_operand(t[q + 1].kind),
        at_end(t, q + 1) || binary_of(t[q + 1].kind) is None || op_level(t[q + 1].kind) < l,
    ensures
        parse_binary(t, q, l) == Step::Done(number_expr(t[q].kind), q + 1),
    decreases 5 - l,
{
    let e = number_expr(t[q].kind);
    lemma_number_unary(t, q);
    if l < 5 {
        lemma_number_binary(t, q, l + 1);
        lemma_binary_step(t, q, l, e, q + 1);
    } else {
        lemma_binary_top(t, q, e);
    }
    assert(level_op(t, q + 1, l) is None);
}

/// A level-`hi` parse ending where no operator of the levels `l` to `hi - 1`
/// follows is the parse at level `l` too.
#[verifier::spinoff_prover]
proof fn lemma_climb(t: Seq<Token>, q: int, l: int, hi: int, e: ExprV, q2: int)
    requires
        0 <= l <= hi <= 5,
        q <= q2,
        parse_binary(t, q, hi) == Step::Done(e, q2),
        forall|m: int| l <= m < hi ==> #[trigger] level_op(t, q2, m) is None,
    ensures
        parse_binary(t, q, l) == Step::Done(e, q2),
    decreases hi - l,
{
    if l < hi {
        lemma_climb(t, q, l + 1, hi, e, q2);
        lemma_binary_step(t, q, l, e, q2);
        assert(level_op(t, q2, l) is None);
    }
}

/// The operand right of an operator of level `l`: read at the next level up.
pub open spec fn right_operand(t: Seq<Token>, q: int, l: int) -> Step<ExprV> {
    if l == 5 {
        parse_unary(t, q)
    } else {
        parse_binary(t, q, l + 1)
    }
}

#[verifier::spinoff_prover]
proof fn lemma_rest_op(t: Seq<Token>, q: int, l: int, left: ExprV, r: ExprV, q2: int)
    requires
        0 <= l <= 5,
        level_op(t, q, l) is Some,
        right_operand(t, q + 1, l) == Step::Done(r, q2),
        q2 >= q + 1,
    ensures
        parse_binary_rest(t, q, l, left) == parse_binary_rest(
            t,
            q2,
            l,
            ExprV::Binary { op: level_op(t, q, l)->0, left: Box::new(left), right: Box::new(r) },
        ),
{
    reveal_with_fuel(parse_binary_rest, 1);
    let right = if l == 5 {
        parse_unary(t, q + 1)
    } else {
        parse_binary(t, q + 1, l + 1)
    };
    assert(right == Step::Done(r, q2));
}

proof fn lemma_rest_none(t: Seq<Token>, q: int, l: int, e: ExprV)
    requires
        0 <= l <= 5,
        level_op(t, q, l) is None,
    ensures
        parse_binary_rest(t, q, l, e) == Step::Done(e, q),
{
}

/// A number at `q` as the right operand of an operator of level `l`, when
/// the token after it is no operator above level `l`.
proof fn lemma_number_right(t: Seq<Token>, q: int, l: int)
    requires
        0 <= q,
        q + 1 < t.len(),
        0 <= l <= 5,
        t[q].kind is Number,
        ends_operand(t[q + 1].kind),
        at_end(t, q + 1) || binary_of(t[q + 1].kind) is None || op_level(t[q + 1].kind) <= l,
    ensures
        right_operand(t, q, l) == Step::Done(number_expr(t[q].kind), q + 1),
{
    lemma_number_unary(t, q);
    if l < 5 {
        lemma_number_binary(t, q, l + 1);
    }
}

/// A number at `q` as the start of a level-`l` chain: the chain reads on
/// from `q + 1` with the number as its left operand.
proof fn lemma_number_left(t: Seq<Token>, q: int, l: int)
    requires
        0 <= q,
        q + 1 < t.len(),
        0 <= l <= 5,
        t[q].kind is Number,
        ends_operand(t[q + 1].kind),
        at_end(t, q + 1) || binary_of(t[q + 1].kind) is None || op_level(t[q + 1].kind) <= l,
    ensures
        parse_binary(t, q, l) == parse_binary_rest(t, q + 1, l, number_expr(t[q].kind)),
{
    let e = number_expr(t[q].kind);
    lemma_number_unary(t, q);
    if l < 5 {
        lemma_number_binary(t, q, l + 1);
        lemma_binary_step(t, q, l, e, q + 1);
    } else {
        lemma_binary_top(t, q, e);
    }
}

#[verifier::spinoff_prover]
proof fn lemma_whole_expression(t: Seq<Token>, p: int, e: ExprV, q: int)
    requires
        parse_binary(t, p, 0) == Step::Done(e, q),
        q >= p,
        at_end(t, q),
    ensures
        parse_assignment(t, p) == Step::Done(e, q),
{
    reveal_with_fuel(parse_conditional, 1);
    reveal_with_fuel(parse_assignment, 1);
    assert(!check(t, q, TokenKind::Question));
    assert(parse_conditional(t, p) == Step::Done(e, q));
    assert(!check(t, q, TokenKind::Equal));
    assert(compound_op(t, q) is None);
}

/// How two binary operators between three numbers group: the tighter one (the
/// higher level, see `law_operator_precedence`) takes its operands first, so
/// with `+` then `/` the division is the right operand of the addition; of two
/// operators of one level the left one groups first. The whole is read up to
/// the end of the input, as an expression and as the operand of a
/// conditional or assignment.
#[verifier::spinoff_prover]
pub proof fn law_binary_grouping(t: Seq<Token>, p: int)
    requires
        0 <= p,
        p + 5 < t.len(),
        t[p].kind is Number,
        t[p + 2].kind is Number,
        t[p + 4].kind is Number,
        binary_of(t[p + 1].kind) is Some,
        binary_of(t[p + 3].kind) is Some,
        t[p + 5].kind is Eof,
    ensures
        op_level(t[p + 3].kind) > op_level(t[p + 1].kind) ==> parse_assignment(t, p) == Step::Done(
            ExprV::Binary {
                op: op_of(t[p + 1].kind),
                left: Box::new(number_expr(t[p].kind)),
                right: Box::new(
                    ExprV::Binary {
                        op: op_of(t[p + 3].kind),
                        left: Box::new(number_expr(t[p + 2].kind)),
                        right: Box::new(number_expr(t[p + 4].kind)),
                    },
                ),
            },
            p + 5,
        ),
        op_level(t[p + 3].kind) <= op_level(t[p + 1].kind) ==> parse_assignment(t, p) == Step::Done(
            ExprV::Binary {
                op: op_of(t[p + 3].kind),
                left: Box::new(
                    ExprV::Binary {
                        op: op_of(t[p + 1].kind),
                        left: Box::new(number_expr(t[p].kind)),
                        right: Box::new(number_expr(t[p + 2].kind)),
                    },
                ),
                right: Box::new(number_expr(t[p + 4].kind)),
            },
            p + 5,
        ),
{
    let k1 = t[p + 1].kind;
    let k2 = t[p + 3].kind;
    let l1 = op_level(k1);
    let l2 = op_level(k2);
    let a = number_expr(t[p].kind);
    let b = number_expr(t[p + 2].kind);
    let c = number_expr(t[p + 4].kind);
    reveal(kind_code);
    assert(0 <= l1 <= 5 && 0 <= l2 <= 5);
    assert(ends_operand(k1) && ends_operand(k2) && ends_operand(t[p + 5].kind));
    assert(!at_end(t, p + 1) && !at_end(t, p + 3) && at_end(t, p + 5));
    assert(level_op(t, p + 1, l1) == Some(op_of(k1)));
    assert(level_op(t, p + 3, l2) == Some(op_of(k2)));
    assert forall|m: int| #[trigger] level_op(t, p + 5, m) is None by {}
    let e;
    if l2 > l1 {
        let bc = ExprV::Binary { op: op_of(k2), left: Box::new(b), right: Box::new(c) };
        lemma_number_left(t, p + 2, l2);
        lemma_number_right(t, p + 4, l2);
        lemma_rest_op(t, p + 3, l2, b, c, p + 5);
        lemma_rest_none(t, p + 5, l2, bc);
        assert(parse_binary(t, p + 2, l2) == Step::Done(bc, p + 5));
        lemma_climb(t, p + 2, l1 + 1, l2, bc, p + 5);
        assert(right_operand(t, p + 2, l1) == Step::Done(bc, p + 5));
        lemma_number_left(t, p, l1);
        e = ExprV::Binary { op: op_of(k1), left: Box::new(a), right: Box::new(bc) };
        lemma_rest_op(t, p + 1, l1, a, bc, p + 5);
        lemma_rest_none(t, p + 5, l1, e);
        assert(parse_binary(t, p, l1) == Step::Done(e, p + 5));
        lemma_climb(t, p, 0, l1, e, p + 5);
    } else {
        let ab = ExprV::Binary { op: op_of(k1), left: Box::new(a), right: Box::new(b) };
        e = ExprV::Binary { op: op_of(k2), left: Box::new(ab), right: Box::new(c) };
        lemma_number_left(t, p, l1);
        lemma_number_right(t, p + 2, l1);
        lemma_rest_op(t, p + 1, l1, a, b, p + 3);
        if l2 == l1 {
            lemma_number_right(t, p + 4, l1);
            lemma_rest_op(t, p + 3, l1, ab, c, p + 5);
            lemma_rest_none(t, p + 5, l1, e);
            assert(parse_binary(t, p, l1) == Step::Done(e, p + 5));
            lemma_climb(t, p, 0, l1, e, p + 5);
        } else {
            assert(level_op(t, p + 3, l1) is None);
            lemma_rest_none(t, p + 3, l1, ab);
            assert(parse_binary(t, p, l1) == Step::Done(ab, p + 3));
            assert forall|m: int| l2 + 1 <= m < l1 implies #[trigger] level_op(t, p + 3, m) is None by {}
            lemma_climb(t, p, l2 + 1, l1, ab, p + 3);
            lemma_binary_step(t, p, l2, ab, p + 3);
            lemma_number_right(t, p + 4, l2);
            lemma_rest_op(t, p + 3, l2, ab, c, p + 5);
            lemma_rest_none(t, p + 5, l2, e);
            assert(parse_binary(t, p, l2) == Step::Done(e, p + 5));
            lemma_climb(t, p, 0, l2, e, p + 5);
        }
    }
    lemma_whole_expression(t, p, e, p + 5);
}

} // verus!
