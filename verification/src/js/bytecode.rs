//! The instructions of the script virtual machine, and the compiler from
//! syntax trees to chunks of them.
use vstd::prelude::*;
use crate::js::ast::{BinaryOp, ClassMethod, Expr, Stmt, UnaryOp};
use crate::text::str_eq;

verus! {

#[derive(Debug, Clone, PartialEq)]
pub enum OpCode {
    Constant(u16),
    Null,
    Undefined,
    True,
    False,
    Pop,
    GetVar(String),
    SetVar(String),
    DeclVar(String),
    GetGlobal(String),
    SetGlobal(String),
    Add,
    Sub,
    Mul,
    Div,
    Mod,
    Equal,
    NotEqual,
    StrictEqual,
    StrictNotEqual,
    Greater,
    GreaterEqual,
    Less,
    LessEqual,
    Not,
    Negate,
    TypeOf,
    Jump(usize),
    JumpIfFalse(usize),
    Loop(usize),
    Call(usize),
    Construct(usize),
    Return,
    GetProp(String),
    SetProp(String),
    GetIndex,
    SetIndex,
    CreateArray(usize),
    CreateObject(usize),
    MakeClosure { chunk_index: usize, name: String, params: Vec<String> },
    MakeClass { name: String, constructor: Option<(usize, Vec<String>)>, methods: Vec<(String, usize, Vec<String>)> },
    PushTry { catch_ip: usize },
    PopTry,
    Throw,
}

/// A value in a chunk's constant pool; a number keeps the text of its literal.
#[derive(Debug, Clone, PartialEq)]
pub enum Constant {
    Number(String),
    Str(String),
}

pub enum ConstView {
    Number(Seq<char>),
    Str(Seq<char>),
}

pub open spec fn const_view(c: Constant) -> ConstView {
    match c {
        Constant::Number(s) => ConstView::Number(s@),
        Constant::Str(s) => ConstView::Str(s@),
    }
}

pub open spec fn names_view(v: Vec<String>) -> Seq<Seq<char>> {
    v@.map_values(|s: String| s@)
}

/// An instruction as mathematical values: the texts of the ones that hold
/// names, the instruction itself for the others.
pub enum OpView {
    GetVar(Seq<char>),
    SetVar(Seq<char>),
    DeclVar(Seq<char>),
    GetGlobal(Seq<char>),
    SetGlobal(Seq<char>),
    GetProp(Seq<char>),
    SetProp(Seq<char>),
    MakeClosure { chunk_index: usize, name: Seq<char>, params: Seq<Seq<char>> },
    MakeClass {
        name: Seq<char>,
        constructor: Option<(usize, Seq<Seq<char>>)>,
        methods: Seq<(Seq<char>, usize, Seq<Seq<char>>)>,
    },
    Other(OpCode),
}

pub open spec fn op_view(op: OpCode) -> OpView {
    match op {
        OpCode::GetVar(s) => OpView::GetVar(s@),
        OpCode::SetVar(s) => OpView::SetVar(s@),
        OpCode::DeclVar(s) => OpView::DeclVar(s@),
        OpCode::GetGlobal(s) => OpView::GetGlobal(s@),
        OpCode::SetGlobal(s) => OpView::SetGlobal(s@),
        OpCode::GetProp(s) => OpView::GetProp(s@),
        OpCode::SetProp(s) => OpView::SetProp(s@),
        OpCode::MakeClosure { chunk_index, name, params } => OpView::MakeClosure {
            chunk_index,
            name: name@,
            params: names_view(params),
        },
        OpCode::MakeClass { name, constructor, methods } => OpView::MakeClass {
            name: name@,
            constructor: match constructor {
                Some((i, ps)) => Some((i, names_view(ps))),
                None => None,
            },
            methods: methods@.map_values(|m: (String, usize, Vec<String>)| (m.0@, m.1, names_view(m.2))),
        },
        other => OpView::Other(other),
    }
}

/// A chunk of code with its constant pool.
#[derive(Debug, Clone)]
pub struct Chunk {
    pub code: Vec<OpCode>,
    pub constants: Vec<Constant>,
}

pub struct ChunkView {
    pub code: Seq<OpView>,
    pub consts: Seq<ConstView>,
}

impl View for Chunk {
    type V = ChunkView;

    open spec fn view(&self) -> ChunkView {
        ChunkView {
            code: self.code@.map_values(|o: OpCode| op_view(o)),
            consts: self.constants@.map_values(|c: Constant| const_view(c)),
        }
    }
}

pub open spec fn empty_chunk() -> ChunkView {
    ChunkView { code: Seq::empty(), consts: Seq::empty() }
}

impl Chunk {
    pub fn new() -> (c: Self)
        ensures
            c@ == empty_chunk(),
    {
        let c = Chunk { code: Vec::new(), constants: Vec::new() };
        assert(c@.code =~= Seq::<OpView>::empty());
        assert(c@.consts =~= Seq::<ConstView>::empty());
        c
    }

    /// Appends an instruction; gives its index.
    pub fn write_op(&mut self, op: OpCode) -> (i: usize)
        ensures
            final(self)@ == (ChunkView { code: old(self)@.code.push(op_view(op)), consts: old(self)@.consts }),
            i == old(self)@.code.len(),
    {
        self.code.push(op);
        proof {
            assert(self.code@.map_values(|o: OpCode| op_view(o)) =~= old(self)@.code.push(op_view(op)));
        }
        self.code.len() - 1
    }

    /// Appends a constant; gives its index, which wraps past `u16::MAX`.
    pub fn add_constant(&mut self, value: Constant) -> (i: u16)
        ensures
            final(self)@ == (ChunkView { code: old(self)@.code, consts: old(self)@.consts.push(const_view(value)) }),
            i == old(self)@.consts.len() % 65536,
    {
        self.constants.push(value);
        proof {
            assert(self.constants@.map_values(|c: Constant| const_view(c)) =~= old(self)@.consts.push(const_view(value)));
        }
        let n = self.constants.len() - 1;
        (n % 65536) as u16
    }
}

/// The compiler's state: the chunks so far and the one being written.
pub struct CompView {
    pub chunks: Seq<ChunkView>,
    pub cur: int,
}

pub open spec fn cur_chunk(s: CompView) -> ChunkView {
    s.chunks[s.cur]
}

/// The state with an instruction appended to the current chunk.
pub open spec fn emit(s: CompView, o: OpView) -> CompView {
    CompView {
        chunks: s.chunks.update(s.cur, ChunkView { code: cur_chunk(s).code.push(o), consts: cur_chunk(s).consts }),
        cur: s.cur,
    }
}

/// The index the next instruction of the current chunk gets.
pub open spec fn here(s: CompView) -> int {
    cur_chunk(s).code.len() as int
}

/// The state with instruction `i` of the current chunk replaced.
pub open spec fn patch(s: CompView, i: int, o: OpView) -> CompView {
    CompView {
        chunks: s.chunks.update(s.cur, ChunkView { code: cur_chunk(s).code.update(i, o), consts: cur_chunk(s).consts }),
        cur: s.cur,
    }
}

/// The state with a constant appended to the current chunk's pool.
pub open spec fn with_const(s: CompView, c: ConstView) -> CompView {
    CompView {
        chunks: s.chunks.update(s.cur, ChunkView { code: cur_chunk(s).code, consts: cur_chunk(s).consts.push(c) }),
        cur: s.cur,
    }
}

/// The index the next constant of the current chunk gets (wrapping past `u16::MAX`).
pub open spec fn next_const(s: CompView) -> u16 {
    (cur_chunk(s).consts.len() % 65536) as u16
}

/// The state with a new empty chunk, which becomes the current one.
pub open spec fn enter_new_chunk(s: CompView) -> CompView {
    CompView { chunks: s.chunks.push(empty_chunk()), cur: s.chunks.len() as int }
}

pub open spec fn with_cur(s: CompView, c: int) -> CompView {
    CompView { chunks: s.chunks, cur: c }
}

pub open spec fn other(o: OpCode) -> OpView {
    OpView::Other(o)
}

/// The instruction of a binary operator that needs no jumps.
pub open spec fn binop_code(op: BinaryOp) -> OpCode {
    match op {
        BinaryOp::Add => OpCode::Add,
        BinaryOp::Sub => OpCode::Sub,
        BinaryOp::Mul => OpCode::Mul,
        BinaryOp::Div => OpCode::Div,
        BinaryOp::Mod => OpCode::Mod,
        BinaryOp::Equal => OpCode::Equal,
        BinaryOp::NotEqual => OpCode::NotEqual,
        BinaryOp::StrictEqual => OpCode::StrictEqual,
        BinaryOp::StrictNotEqual => OpCode::StrictNotEqual,
        BinaryOp::Greater => OpCode::Greater,
        BinaryOp::GreaterEqual => OpCode::GreaterEqual,
        BinaryOp::Less => OpCode::Less,
        BinaryOp::LessEqual => OpCode::LessEqual,
        _ => OpCode::Equal,
    }
}

pub open spec fn unop_code(op: UnaryOp) -> OpCode {
    match op {
        UnaryOp::Not => OpCode::Not,
        UnaryOp::Negate => OpCode::Negate,
        UnaryOp::TypeOf => OpCode::TypeOf,
    }
}

/// The refusal of an `await` expression, which has no instruction.
pub open spec fn await_error() -> Seq<char> {
    "await is not supported by the bytecode compiler"@
}

/// A function body in a new chunk of its own, ending with `return undefined`;
/// the current chunk is the one before again.
pub open spec fn comp_body(s: CompView, body: Seq<Stmt>) -> Result<CompView, Seq<char>>
    decreases body, 1int,
{
    match comp_stmts(enter_new_chunk(s), body) {
        Ok(s1) => Ok(with_cur(emit(emit(s1, other(OpCode::Undefined)), other(OpCode::Return)), s.cur)),
        Err(m) => Err(m),
    }
}

/// The state after compiling an expression: its code, which leaves its value
/// on the stack, appended to the current chunk.
pub open spec fn comp_expr(s: CompView, e: Expr) -> Result<CompView, Seq<char>>
    decreases e, 0int,
{
    match e {
        Expr::Number(n) => Ok(emit(with_const(s, ConstView::Number(n@)), other(OpCode::Constant(next_const(s))))),
        Expr::String(t) => Ok(emit(with_const(s, ConstView::Str(t@)), other(OpCode::Constant(next_const(s))))),
        Expr::Boolean(b) => Ok(emit(s, other(if b { OpCode::True } else { OpCode::False }))),
        Expr::Null => Ok(emit(s, other(OpCode::Null))),
        Expr::Undefined => Ok(emit(s, other(OpCode::Undefined))),
        Expr::This => Ok(emit(s, OpView::GetVar("this"@))),
        Expr::Identifier(n) => Ok(emit(s, OpView::GetVar(n@))),
        Expr::Assign { target, value } => match comp_expr(s, *value) {
            Ok(s1) => Ok(emit(s1, OpView::SetVar(target@))),
            Err(m) => Err(m),
        },
        Expr::AssignProp { object, property, value } => match comp_expr(s, *object) {
            Ok(s1) => match comp_expr(s1, *value) {
                Ok(s2) => Ok(emit(s2, OpView::SetProp(property@))),
                Err(m) => Err(m),
            },
            Err(m) => Err(m),
        },
        Expr::AssignIndex { object, index, value } => match comp_expr(s, *object) {
            Ok(s1) => match comp_expr(s1, *index) {
                Ok(s2) => match comp_expr(s2, *value) {
                    Ok(s3) => Ok(emit(s3, other(OpCode::SetIndex))),
                    Err(m) => Err(m),
                },
                Err(m) => Err(m),
            },
            Err(m) => Err(m),
        },
        Expr::Member { object, property } => match comp_expr(s, *object) {
            Ok(s1) => Ok(emit(s1, OpView::GetProp(property@))),
            Err(m) => Err(m),
        },
        Expr::Index { object, index } => match comp_expr(s, *object) {
            Ok(s1) => match comp_expr(s1, *index) {
                Ok(s2) => Ok(emit(s2, other(OpCode::GetIndex))),
                Err(m) => Err(m),
            },
            Err(m) => Err(m),
        },
        Expr::Array(items) => match comp_exprs(s, items@) {
            Ok(s1) => Ok(emit(s1, other(OpCode::CreateArray(items@.len() as usize)))),
            Err(m) => Err(m),
        },
        Expr::Object(entries) => match comp_entries(s, entries@) {
            Ok(s1) => Ok(emit(s1, other(OpCode::CreateObject(entries@.len() as usize)))),
            Err(m) => Err(m),
        },
        Expr::FunctionExpr { name, params, body, is_async } => match comp_body(s, body@) {
            Ok(s1) => Ok(
                emit(
                    s1,
                    OpView::MakeClosure {
                        chunk_index: s.chunks.len() as usize,
                        name: match name {
                            Some(n) => n@,
                            None => Seq::empty(),
                        },
                        params: names_view(params),
                    },
                ),
            ),
            Err(m) => Err(m),
        },
        Expr::New { callee, args } => match comp_expr(s, *callee) {
            Ok(s1) => match comp_exprs(s1, args@) {
                Ok(s2) => Ok(emit(s2, other(OpCode::Construct(args@.len() as usize)))),
                Err(m) => Err(m),
            },
            Err(m) => Err(m),
        },
        Expr::Call { callee, args } => match comp_expr(s, *callee) {
            Ok(s1) => match comp_exprs(s1, args@) {
                Ok(s2) => Ok(emit(s2, other(OpCode::Call(args@.len() as usize)))),
                Err(m) => Err(m),
            },
            Err(m) => Err(m),
        },
        Expr::Binary { op, left, right } => match comp_expr(s, *left) {
            Ok(s1) => match op {
                BinaryOp::And => {
                    let j = here(s1);
                    match comp_expr(emit(emit(s1, other(OpCode::JumpIfFalse(0))), other(OpCode::Pop)), *right) {
                        Ok(s2) => Ok(patch(s2, j, other(OpCode::JumpIfFalse(here(s2) as usize)))),
                        Err(m) => Err(m),
                    }
                },
                BinaryOp::Or => {
                    let j1 = here(s1);
                    let j2 = j1 + 1;
                    let s2 = emit(emit(s1, other(OpCode::JumpIfFalse(0))), other(OpCode::Jump(0)));
                    let s3 = emit(patch(s2, j1, other(OpCode::JumpIfFalse(here(s2) as usize))), other(OpCode::Pop));
                    match comp_expr(s3, *right) {
                        Ok(s4) => Ok(patch(s4, j2, other(OpCode::Jump(here(s4) as usize)))),
                        Err(m) => Err(m),
                    }
                },
                _ => match comp_expr(s1, *right) {
                    Ok(s2) => Ok(emit(s2, other(binop_code(op)))),
                    Err(m) => Err(m),
                },
            },
            Err(m) => Err(m),
        },
        Expr::Conditional { condition, then_expr, else_expr } => match comp_expr(s, *condition) {
            Ok(s1) => {
                let j1 = here(s1);
                match comp_expr(emit(emit(s1, other(OpCode::JumpIfFalse(0))), other(OpCode::Pop)), *then_expr) {
                    Ok(s2) => {
                        let j2 = here(s2);
                        let s3 = emit(s2, other(OpCode::Jump(0)));
                        let s4 = emit(patch(s3, j1, other(OpCode::JumpIfFalse(here(s3) as usize))), other(OpCode::Pop));
                        match comp_expr(s4, *else_expr) {
                            Ok(s5) => Ok(patch(s5, j2, other(OpCode::Jump(here(s5) as usize)))),
                            Err(m) => Err(m),
                        }
                    },
                    Err(m) => Err(m),
                }
            },
            Err(m) => Err(m),
        },
        Expr::Unary { op, expr } => match comp_expr(s, *expr) {
            Ok(s1) => Ok(emit(s1, other(unop_code(op)))),
            Err(m) => Err(m),
        },
        Expr::Await(_) => Err(await_error()),
    }
}

/// Expressions compiled one after the other.
pub open spec fn comp_exprs(s: CompView, es: Seq<Expr>) -> Result<CompView, Seq<char>>
    decreases es, 0int,
{
    if es.len() == 0 {
        Ok(s)
    } else {
        match comp_exprs(s, es.subrange(0, es.len() - 1)) {
            Ok(s1) => comp_expr(s1, es[es.len() - 1]),
            Err(m) => Err(m),
        }
    }
}

/// The entries of an object literal: each key as a constant, then its value.
pub open spec fn comp_entries(s: CompView, es: Seq<(String, Expr)>) -> Result<CompView, Seq<char>>
    decreases es, 0int,
{
    if es.len() == 0 {
        Ok(s)
    } else {
        match comp_entries(s, es.subrange(0, es.len() - 1)) {
            Ok(s1) => {
                let k = es[es.len() - 1].0;
                comp_expr(
                    emit(with_const(s1, ConstView::Str(k@)), other(OpCode::Constant(next_const(s1)))),
                    es[es.len() - 1].1,
                )
            },
            Err(m) => Err(m),
        }
    }
}

/// Statements compiled one after the other.
pub open spec fn comp_stmts(s: CompView, ss: Seq<Stmt>) -> Result<CompView, Seq<char>>
    decreases ss, 0int,
{
    if ss.len() == 0 {
        Ok(s)
    } else {
        match comp_stmts(s, ss.subrange(0, ss.len() - 1)) {
            Ok(s1) => comp_stmt(s1, ss[ss.len() - 1]),
            Err(m) => Err(m),
        }
    }
}

/// What a class declaration gathers: its constructor's chunk and parameters,
/// and each other method's name, chunk and parameters.
pub type ClassParts = (Option<(usize, Seq<Seq<char>>)>, Seq<(Seq<char>, usize, Seq<Seq<char>>)>);

/// Class methods, each compiled into a chunk of its own; a later
/// `constructor` replaces an earlier one.
pub open spec fn comp_methods(s: CompView, ms: Seq<ClassMethod>, home: int) -> Result<(CompView, ClassParts), Seq<char>>
    decreases ms, 0int,
{
    if ms.len() == 0 {
        Ok((s, (None, Seq::empty())))
    } else {
        match comp_methods(s, ms.subrange(0, ms.len() - 1), home) {
            Ok((s1, parts)) => {
                let m = ms[ms.len() - 1];
                let idx = s1.chunks.len() as usize;
                match comp_stmts(enter_new_chunk(s1), m.body@) {
                    Ok(s2) => {
                        let s3 = with_cur(emit(emit(s2, other(OpCode::Undefined)), other(OpCode::Return)), home);
                        if m.name@ == "constructor"@ {
                            Ok((s3, (Some((idx, names_view(m.params))), parts.1)))
                        } else {
                            Ok((s3, (parts.0, parts.1.push((m.name@, idx, names_view(m.params))))))
                        }
                    },
                    Err(m) => Err(m),
                }
            },
            Err(m) => Err(m),
        }
    }
}

/// The state after compiling a statement: its code appended to the current chunk.
pub open spec fn comp_stmt(s: CompView, st: Stmt) -> Result<CompView, Seq<char>>
    decreases st, 0int,
{
    match st {
        Stmt::VarDecl { name, initializer } => match initializer {
            Some(init) => match comp_expr(s, init) {
                Ok(s1) => Ok(emit(s1, OpView::DeclVar(name@))),
                Err(m) => Err(m),
            },
            None => Ok(emit(emit(s, other(OpCode::Undefined)), OpView::DeclVar(name@))),
        },
        Stmt::Expr(e) => match comp_expr(s, e) {
            Ok(s1) => Ok(emit(s1, other(OpCode::Pop))),
            Err(m) => Err(m),
        },
        Stmt::Block(ss) => comp_stmts(s, ss@),
        Stmt::If { condition, then_branch, else_branch } => match comp_expr(s, condition) {
            Ok(s1) => {
                let j1 = here(s1);
                match comp_stmt(emit(emit(s1, other(OpCode::JumpIfFalse(0))), other(OpCode::Pop)), *then_branch) {
                    Ok(s2) => {
                        let j2 = here(s2);
                        let s3 = emit(s2, other(OpCode::Jump(0)));
                        let s4 = emit(patch(s3, j1, other(OpCode::JumpIfFalse(here(s3) as usize))), other(OpCode::Pop));
                        match else_branch {
                            Some(b) => match comp_stmt(s4, *b) {
                                Ok(s5) => Ok(patch(s5, j2, other(OpCode::Jump(here(s5) as usize)))),
                                Err(m) => Err(m),
                            },
                            None => Ok(patch(s4, j2, other(OpCode::Jump(here(s4) as usize)))),
                        }
                    },
                    Err(m) => Err(m),
                }
            },
            Err(m) => Err(m),
        },
        Stmt::While { condition, body } => {
            let start = here(s);
            match comp_expr(s, condition) {
                Ok(s1) => {
                    let j = here(s1);
                    match comp_stmt(emit(emit(s1, other(OpCode::JumpIfFalse(0))), other(OpCode::Pop)), *body) {
                        Ok(s2) => {
                            let s3 = emit(s2, other(OpCode::Loop(start as usize)));
                            Ok(emit(patch(s3, j, other(OpCode::JumpIfFalse(here(s3) as usize))), other(OpCode::Pop)))
                        },
                        Err(m) => Err(m),
                    }
                },
                Err(m) => Err(m),
            }
        },
        Stmt::For { init, condition, update, body } => {
            let r0 = match init {
                Some(i) => comp_stmt(s, *i),
                None => Ok(s),
            };
            match r0 {
                Ok(s0) => {
                    let start = here(s0);
                    let r1 = match condition {
                        Some(c) => match comp_expr(s0, c) {
                            Ok(s1) => Ok(emit(emit(s1, other(OpCode::JumpIfFalse(0))), other(OpCode::Pop))),
                            Err(m) => Err(m),
                        },
                        None => Ok(s0),
                    };
                    match r1 {
                        Ok(s1) => {
                            let exit = here(s1) - 2;
                            match comp_stmt(s1, *body) {
                                Ok(s2) => {
                                    let r3 = match update {
                                        Some(u) => match comp_expr(s2, u) {
                                            Ok(s3) => Ok(emit(s3, other(OpCode::Pop))),
                                            Err(m) => Err(m),
                                        },
                                        None => Ok(s2),
                                    };
                                    match r3 {
                                        Ok(s3) => {
                                            let s4 = emit(s3, other(OpCode::Loop(start as usize)));
                                            if condition is Some {
                                                Ok(
                                                    emit(
                                                        patch(s4, exit, other(OpCode::JumpIfFalse(here(s4) as usize))),
                                                        other(OpCode::Pop),
                                                    ),
                                                )
                                            } else {
                                                Ok(s4)
                                            }
                                        },
                                        Err(m) => Err(m),
                                    }
                                },
                                Err(m) => Err(m),
                            }
                        },
                        Err(m) => Err(m),
                    }
                },
                Err(m) => Err(m),
            }
        },
        Stmt::FunctionDecl { name, params, body, is_async } => match comp_body(s, body@) {
            Ok(s1) => Ok(
                emit(
                    emit(s1, OpView::MakeClosure { chunk_index: s.chunks.len() as usize, name: name@, params: names_view(params) }),
                    OpView::DeclVar(name@),
                ),
            ),
            Err(m) => Err(m),
        },
        Stmt::ClassDecl { name, methods } => match comp_methods(s, methods@, s.cur) {
            Ok((s1, parts)) => Ok(
                emit(
                    emit(s1, OpView::MakeClass { name: name@, constructor: parts.0, methods: parts.1 }),
                    OpView::DeclVar(name@),
                ),
            ),
            Err(m) => Err(m),
        },
        Stmt::Return(v) => match v {
            Some(e) => match comp_expr(s, e) {
                Ok(s1) => Ok(emit(s1, other(OpCode::Return))),
                Err(m) => Err(m),
            },
            None => Ok(emit(emit(s, other(OpCode::Undefined)), other(OpCode::Return))),
        },
        Stmt::TryCatch { try_block, catch_param, catch_block, finally_block } => {
            let p = here(s);
            match comp_stmt(emit(s, other(OpCode::PushTry { catch_ip: 0 })), *try_block) {
                Ok(s1) => {
                    let j = here(s1) + 1;
                    let s2 = emit(emit(s1, other(OpCode::PopTry)), other(OpCode::Jump(0)));
                    let s3 = patch(s2, p, other(OpCode::PushTry { catch_ip: here(s2) as usize }));
                    let r4 = match catch_block {
                        Some(c) => {
                            let s3a = match catch_param {
                                Some(name) => emit(s3, OpView::DeclVar(name@)),
                                None => emit(s3, other(OpCode::Pop)),
                            };
                            comp_stmt(s3a, *c)
                        },
                        None => Ok(emit(s3, other(OpCode::Pop))),
                    };
                    match r4 {
                        Ok(s4) => {
                            let s5 = patch(s4, j, other(OpCode::Jump(here(s4) as usize)));
                            match finally_block {
                                Some(f) => comp_stmt(s5, *f),
                                None => Ok(s5),
                            }
                        },
                        Err(m) => Err(m),
                    }
                },
                Err(m) => Err(m),
            }
        },
        Stmt::Throw(e) => match comp_expr(s, e) {
            Ok(s1) => Ok(emit(s1, other(OpCode::Throw))),
            Err(m) => Err(m),
        },
    }
}

/// The chunks of a program: its statements in the first chunk, which ends by
/// returning the value of a final expression statement, or `undefined`.
pub open spec fn comp_program(s: CompView, ss: Seq<Stmt>) -> Result<Seq<ChunkView>, Seq<char>> {
    if ss.len() > 0 && ss[ss.len() - 1] is Expr {
        match comp_stmts(s, ss.subrange(0, ss.len() - 1)) {
            Ok(s1) => match comp_expr(s1, ss[ss.len() - 1]->Expr_0) {
                Ok(s2) => Ok(emit(s2, other(OpCode::Return)).chunks),
                Err(m) => Err(m),
            },
            Err(m) => Err(m),
        }
    } else {
        match comp_stmts(s, ss) {
            Ok(s1) => Ok(emit(emit(s1, other(OpCode::Undefined)), other(OpCode::Return)).chunks),
            Err(m) => Err(m),
        }
    }
}

proof fn lemma_grows_refl(a: CompView)
    ensures
        grows(a, a),
{
}

proof fn lemma_grows_trans(a: CompView, b: CompView, c: CompView)
    requires
        grows(a, b),
        grows(b, c),
    ensures
        grows(a, c),
{
    assert forall|k: int| 0 <= k < a.chunks.len() && k != a.cur implies #[trigger] c.chunks[k] == a.chunks[k] by {
        assert(b.chunks[k] == a.chunks[k]);
    }
}

proof fn lemma_grows_emit(a: CompView, o: OpView)
    requires
        0 <= a.cur < a.chunks.len(),
    ensures
        grows(a, emit(a, o)),
        here(emit(a, o)) == here(a) + 1,
{
}

proof fn lemma_grows_const(a: CompView, c: ConstView)
    requires
        0 <= a.cur < a.chunks.len(),
    ensures
        grows(a, with_const(a, c)),
{
}

proof fn lemma_grows_patch(a: CompView, i: int, o: OpView)
    requires
        0 <= a.cur < a.chunks.len(),
        0 <= i < here(a),
    ensures
        grows(a, patch(a, i, o)),
{
}

proof fn lemma_exprs_err(s: CompView, es: Seq<Expr>, i: int)
    requires
        0 <= i <= es.len(),
        comp_exprs(s, es.take(i)) is Err,
    ensures
        comp_exprs(s, es) == comp_exprs(s, es.take(i)),
    decreases es.len() - i,
{
    if i < es.len() {
        assert(es.take(i + 1).subrange(0, i) =~= es.take(i));
        lemma_exprs_err(s, es, i + 1);
    } else {
        assert(es.take(i) =~= es);
    }
}

proof fn lemma_stmts_err(s: CompView, ss: Seq<Stmt>, i: int)
    requires
        0 <= i <= ss.len(),
        comp_stmts(s, ss.take(i)) is Err,
    ensures
        comp_stmts(s, ss) == comp_stmts(s, ss.take(i)),
    decreases ss.len() - i,
{
    if i < ss.len() {
        assert(ss.take(i + 1).subrange(0, i) =~= ss.take(i));
        lemma_stmts_err(s, ss, i + 1);
    } else {
        assert(ss.take(i) =~= ss);
    }
}

proof fn lemma_entries_err(s: CompView, es: Seq<(String, Expr)>, i: int)
    requires
        0 <= i <= es.len(),
        comp_entries(s, es.take(i)) is Err,
    ensures
        comp_entries(s, es) == comp_entries(s, es.take(i)),
    decreases es.len() - i,
{
    if i < es.len() {
        assert(es.take(i + 1).subrange(0, i) =~= es.take(i));
        lemma_entries_err(s, es, i + 1);
    } else {
        assert(es.take(i) =~= es);
    }
}

proof fn lemma_methods_err(s: CompView, ms: Seq<ClassMethod>, home: int, i: int)
    requires
        0 <= i <= ms.len(),
        comp_methods(s, ms.take(i), home) is Err,
    ensures
        comp_methods(s, ms, home) == comp_methods(s, ms.take(i), home),
    decreases ms.len() - i,
{
    if i < ms.len() {
        assert(ms.take(i + 1).subrange(0, i) =~= ms.take(i));
        lemma_methods_err(s, ms, home, i + 1);
    } else {
        assert(ms.take(i) =~= ms);
    }
}

fn names_clone(v: &Vec<String>) -> (r: Vec<String>)
    ensures
        names_view(r) == names_view(*v),
{
    let mut out: Vec<String> = Vec::new();
    let mut i: usize = 0;
    while i < v.len()
        invariant
            i <= v.len(),
            out@ == v@.take(i as int),
        decreases v.len() - i,
    {
        out.push(v[i].clone());
        assert(out@ =~= v@.take(i + 1));
        i = i + 1;
    }
    assert(v@.take(v@.len() as int) =~= v@);
    out
}

/// Compiles syntax trees to chunks; chunk 0 holds the program, and each
/// function or method gets a chunk of its own.
pub struct Compiler {
    pub chunks: Vec<Chunk>,
    pub current_chunk: usize,
}

impl View for Compiler {
    type V = CompView;

    open spec fn view(&self) -> CompView {
        CompView { chunks: self.chunks@.map_values(|c: Chunk| c@), cur: self.current_chunk as int }
    }
}

/// The steps of compiling: the current chunk stays, no chunk goes away, the
/// current chunk's code only grows, and no other chunk that was there changes.
pub open spec fn grows(a: CompView, b: CompView) -> bool {
    &&& b.cur == a.cur
    &&& b.chunks.len() >= a.chunks.len()
    &&& here(b) >= here(a)
    &&& forall|k: int| 0 <= k < a.chunks.len() && k != a.cur ==> #[trigger] b.chunks[k] == a.chunks[k]
}

impl Compiler {
    pub open spec fn wf(&self) -> bool {
        self.current_chunk < self.chunks@.len()
    }

    pub fn new() -> (c: Self)
        ensures
            c@ == (CompView { chunks: seq![empty_chunk()], cur: 0 }),
            c.wf(),
    {
        let c = Compiler { chunks: vec![Chunk::new()], current_chunk: 0 };
        assert(c@.chunks =~= seq![empty_chunk()]);
        c
    }

    fn emit_op(&mut self, op: OpCode) -> (i: usize)
        requires
            old(self).wf(),
        ensures
            final(self).wf(),
            final(self)@ == emit(old(self)@, op_view(op)),
            i == here(old(self)@),
    {
        let cur = self.current_chunk;
        let ghost before = self@;
        let i = self.chunks[cur].write_op(op);
        proof {
            assert(self@.chunks =~= emit(before, op_view(op)).chunks);
        }
        i
    }

    fn add_const(&mut self, c: Constant) -> (i: u16)
        requires
            old(self).wf(),
        ensures
            final(self).wf(),
            final(self)@ == with_const(old(self)@, const_view(c)),
            i == next_const(old(self)@),
    {
        let cur = self.current_chunk;
        let ghost before = self@;
        let i = self.chunks[cur].add_constant(c);
        proof {
            assert(self@.chunks =~= with_const(before, const_view(c)).chunks);
        }
        i
    }

    fn patch_op(&mut self, i: usize, op: OpCode)
        requires
            old(self).wf(),
            i < here(old(self)@),
        ensures
            final(self).wf(),
            final(self)@ == patch(old(self)@, i as int, op_view(op)),
    {
        let cur = self.current_chunk;
        let ghost before = self@;
        self.chunks[cur].code.set(i, op);
        proof {
            assert(self.chunks@[cur as int]@.code =~= before.chunks[cur as int].code.update(i as int, op_view(op)));
            assert(self@.chunks =~= patch(before, i as int, op_view(op)).chunks);
        }
    }

    fn code_len(&self) -> (n: usize)
        requires
            self.wf(),
        ensures
            n == here(self@),
    {
        self.chunks[self.current_chunk].code.len()
    }
}

impl Compiler {
    /// Compiles an expression into the current chunk (see `comp_expr`).
    #[verifier::rlimit(40)]
    fn compile_expr(&mut self, e: &Expr) -> (r: Result<(), String>)
        requires
            old(self).wf(),
        ensures
            final(self).wf(),
            match comp_expr(old(self)@, *e) {
                Ok(v) => r is Ok && final(self)@ == v && grows(old(self)@, v),
                Err(m) => r matches Err(x) && x@ == m,
            },
        decreases e, 1int,
    {
        let ghost s0 = self@;
        match e {
            Expr::Number(n) => {
                let idx = self.add_const(Constant::Number(n.clone()));
                let ghost s1 = self@;
                self.emit_op(OpCode::Constant(idx));
                proof {
                    lemma_grows_const(s0, ConstView::Number(n@));
                    lemma_grows_emit(s1, other(OpCode::Constant(idx)));
                    lemma_grows_trans(s0, s1, self@);
                }
                Ok(())
            },
            Expr::String(t) => {
                let idx = self.add_const(Constant::Str(t.clone()));
                let ghost s1 = self@;
                self.emit_op(OpCode::Constant(idx));
                proof {
                    lemma_grows_const(s0, ConstView::Str(t@));
                    lemma_grows_emit(s1, other(OpCode::Constant(idx)));
                    lemma_grows_trans(s0, s1, self@);
                }
                Ok(())
            },
            Expr::Boolean(b) => {
                if *b {
                    self.emit_op(OpCode::True);
                } else {
                    self.emit_op(OpCode::False);
                }
                proof {
                    lemma_grows_emit(s0, other(if *b { OpCode::True } else { OpCode::False }));
                }
                Ok(())
            },
            Expr::Null => {
                self.emit_op(OpCode::Null);
                proof {
                    lemma_grows_emit(s0, other(OpCode::Null));
                }
                Ok(())
            },
            Expr::Undefined => {
                self.emit_op(OpCode::Undefined);
                proof {
                    lemma_grows_emit(s0, other(OpCode::Undefined));
                }
                Ok(())
            },
            Expr::This => {
                self.emit_op(OpCode::GetVar("this".to_owned()));
                proof {
                    lemma_grows_emit(s0, OpView::GetVar("this"@));
                }
                Ok(())
            },
            Expr::Identifier(name) => {
                self.emit_op(OpCode::GetVar(name.clone()));
                proof {
                    lemma_grows_emit(s0, OpView::GetVar(name@));
                }
                Ok(())
            },
            Expr::Assign { target, value } => {
                self.compile_expr(value)?;
                let ghost s1 = self@;
                self.emit_op(OpCode::SetVar(target.clone()));
                proof {
                    lemma_grows_emit(s1, OpView::SetVar(target@));
                    lemma_grows_trans(s0, s1, self@);
                }
                Ok(())
            },
            Expr::AssignProp { object, property, value } => {
                self.compile_expr(object)?;
                let ghost s1 = self@;
                self.compile_expr(value)?;
                let ghost s2 = self@;
                self.emit_op(OpCode::SetProp(property.clone()));
                proof {
                    lemma_grows_trans(s0, s1, s2);
                    lemma_grows_emit(s2, OpView::SetProp(property@));
                    lemma_grows_trans(s0, s2, self@);
                }
                Ok(())
            },
            Expr::AssignIndex { object, index, value } => {
                self.compile_expr(object)?;
                let ghost s1 = self@;
                self.compile_expr(index)?;
                let ghost s2 = self@;
                self.compile_expr(value)?;
                let ghost s3 = self@;
                self.emit_op(OpCode::SetIndex);
                proof {
                    lemma_grows_trans(s0, s1, s2);
                    lemma_grows_trans(s0, s2, s3);
                    lemma_grows_emit(s3, other(OpCode::SetIndex));
                    lemma_grows_trans(s0, s3, self@);
                }
                Ok(())
            },
            Expr::Member { object, property } => {
                self.compile_expr(object)?;
                let ghost s1 = self@;
                self.emit_op(OpCode::GetProp(property.clone()));
                proof {
                    lemma_grows_emit(s1, OpView::GetProp(property@));
                    lemma_grows_trans(s0, s1, self@);
                }
                Ok(())
            },
            Expr::Index { object, index } => {
                self.compile_expr(object)?;
                let ghost s1 = self@;
                self.compile_expr(index)?;
                let ghost s2 = self@;
                self.emit_op(OpCode::GetIndex);
                proof {
                    lemma_grows_trans(s0, s1, s2);
                    lemma_grows_emit(s2, other(OpCode::GetIndex));
                    lemma_grows_trans(s0, s2, self@);
                }
                Ok(())
            },
            Expr::Array(items) => {
                self.compile_exprs(items)?;
                let ghost s1 = self@;
                self.emit_op(OpCode::CreateArray(items.len()));
                proof {
                    lemma_grows_emit(s1, other(OpCode::CreateArray(items.len())));
                    lemma_grows_trans(s0, s1, self@);
                }
                Ok(())
            },
            Expr::Object(entries) => {
                self.compile_entries(entries)?;
                let ghost s1 = self@;
                self.emit_op(OpCode::CreateObject(entries.len()));
                proof {
                    lemma_grows_emit(s1, other(OpCode::CreateObject(entries.len())));
                    lemma_grows_trans(s0, s1, self@);
                }
                Ok(())
            },
            Expr::FunctionExpr { name, params, body, is_async } => {
                let idx = self.chunks.len();
                self.compile_body(body)?;
                let ghost s1 = self@;
                let nm = match name {
                    Some(n) => n.clone(),
                    None => String::new(),
                };
                let op = OpCode::MakeClosure { chunk_index: idx, name: nm, params: names_clone(params) };
                self.emit_op(op);
                proof {
                    lemma_grows_emit(s1, op_view(op));
                    lemma_grows_trans(s0, s1, self@);
                }
                Ok(())
            },
            Expr::New { callee, args } => {
                self.compile_expr(callee)?;
                let ghost s1 = self@;
                self.compile_exprs(args)?;
                let ghost s2 = self@;
                self.emit_op(OpCode::Construct(args.len()));
                proof {
                    lemma_grows_trans(s0, s1, s2);
                    lemma_grows_emit(s2, other(OpCode::Construct(args.len())));
                    lemma_grows_trans(s0, s2, self@);
                }
                Ok(())
            },
            Expr::Call { callee, args } => {
                self.compile_expr(callee)?;
                let ghost s1 = self@;
                self.compile_exprs(args)?;
                let ghost s2 = self@;
                self.emit_op(OpCode::Call(args.len()));
                proof {
                    lemma_grows_trans(s0, s1, s2);
                    lemma_grows_emit(s2, other(OpCode::Call(args.len())));
                    lemma_grows_trans(s0, s2, self@);
                }
                Ok(())
            },
            Expr::Binary { .. } => self.compile_binary(e),
            Expr::Conditional { .. } => self.compile_conditional(e),
            Expr::Unary { op, expr } => {
                self.compile_expr(expr)?;
                let ghost s1 = self@;
                let code = match op {
                    UnaryOp::Not => OpCode::Not,
                    UnaryOp::Negate => OpCode::Negate,
                    UnaryOp::TypeOf => OpCode::TypeOf,
                };
                self.emit_op(code);
                proof {
                    lemma_grows_emit(s1, other(code));
                    lemma_grows_trans(s0, s1, self@);
                }
                Ok(())
            },
            Expr::Await(_) => Err("await is not supported by the bytecode compiler".to_owned()),
        }
    }

    /// A binary operator: `&&` and `||` jump past their right side when the
    /// left one decides.
    fn compile_binary(&mut self, e: &Expr) -> (r: Result<(), String>)
        requires
            old(self).wf(),
            e is Binary,
        ensures
            final(self).wf(),
            match comp_expr(old(self)@, *e) {
                Ok(v) => r is Ok && final(self)@ == v && grows(old(self)@, v),
                Err(m) => r matches Err(x) && x@ == m,
            },
        decreases e, 0int,
    {
        match e {
            Expr::Binary { op, left, right } => {
                let ghost s0 = self@;
                self.compile_expr(left)?;
                let ghost s1 = self@;
                match op {
                    BinaryOp::And => {
                        let end_jump = self.emit_op(OpCode::JumpIfFalse(0));
                        self.emit_op(OpCode::Pop);
                        let ghost s2 = self@;
                        proof {
                            lemma_grows_emit(s1, other(OpCode::JumpIfFalse(0)));
                            lemma_grows_emit(emit(s1, other(OpCode::JumpIfFalse(0))), other(OpCode::Pop));
                            lemma_grows_trans(s1, emit(s1, other(OpCode::JumpIfFalse(0))), s2);
                        }
                        self.compile_expr(right)?;
                        let ghost s3 = self@;
                        let end = self.code_len();
                        self.patch_op(end_jump, OpCode::JumpIfFalse(end));
                        proof {
                            lemma_grows_patch(s3, end_jump as int, other(OpCode::JumpIfFalse(end)));
                            lemma_grows_trans(s0, s1, s2);
                            lemma_grows_trans(s0, s2, s3);
                            lemma_grows_trans(s0, s3, self@);
                        }
                        Ok(())
                    },
                    BinaryOp::Or => {
                        let eval_right = self.emit_op(OpCode::JumpIfFalse(0));
                        let end_jump = self.emit_op(OpCode::Jump(0));
                        let ghost s2 = self@;
                        let right_start = self.code_len();
                        self.patch_op(eval_right, OpCode::JumpIfFalse(right_start));
                        self.emit_op(OpCode::Pop);
                        let ghost s3 = self@;
                        proof {
                            lemma_grows_emit(s1, other(OpCode::JumpIfFalse(0)));
                            lemma_grows_emit(emit(s1, other(OpCode::JumpIfFalse(0))), other(OpCode::Jump(0)));
                            lemma_grows_trans(s1, emit(s1, other(OpCode::JumpIfFalse(0))), s2);
                            lemma_grows_patch(s2, eval_right as int, other(OpCode::JumpIfFalse(right_start)));
                            let sp = patch(s2, eval_right as int, other(OpCode::JumpIfFalse(right_start)));
                            lemma_grows_emit(sp, other(OpCode::Pop));
                            lemma_grows_trans(s2, sp, s3);
                            lemma_grows_trans(s1, s2, s3);
                        }
                        self.compile_expr(right)?;
                        let ghost s4 = self@;
                        let end = self.code_len();
                        self.patch_op(end_jump, OpCode::Jump(end));
                        proof {
                            lemma_grows_patch(s4, end_jump as int, other(OpCode::Jump(end)));
                            lemma_grows_trans(s0, s1, s3);
                            lemma_grows_trans(s0, s3, s4);
                            lemma_grows_trans(s0, s4, self@);
                        }
                        Ok(())
                    },
                    _ => {
                        self.compile_expr(right)?;
                        let ghost s2 = self@;
                        let code = match op {
                            BinaryOp::Add => OpCode::Add,
                            BinaryOp::Sub => OpCode::Sub,
                            BinaryOp::Mul => OpCode::Mul,
                            BinaryOp::Div => OpCode::Div,
                            BinaryOp::Mod => OpCode::Mod,
                            BinaryOp::Equal => OpCode::Equal,
                            BinaryOp::NotEqual => OpCode::NotEqual,
                            BinaryOp::StrictEqual => OpCode::StrictEqual,
                            BinaryOp::StrictNotEqual => OpCode::StrictNotEqual,
                            BinaryOp::Greater => OpCode::Greater,
                            BinaryOp::GreaterEqual => OpCode::GreaterEqual,
                            BinaryOp::Less => OpCode::Less,
                            BinaryOp::LessEqual => OpCode::LessEqual,
                            _ => OpCode::Equal,
                        };
                        self.emit_op(code);
                        proof {
                            lemma_grows_trans(s0, s1, s2);
                            lemma_grows_emit(s2, other(code));
                            lemma_grows_trans(s0, s2, self@);
                        }
                        Ok(())
                    },
                }
            },
            _ => Ok(()),
        }
    }

    /// `condition ? then_expr : else_expr`.
    fn compile_conditional(&mut self, e: &Expr) -> (r: Result<(), String>)
        requires
            old(self).wf(),
            e is Conditional,
        ensures
            final(self).wf(),
            match comp_expr(old(self)@, *e) {
                Ok(v) => r is Ok && final(self)@ == v && grows(old(self)@, v),
                Err(m) => r matches Err(x) && x@ == m,
            },
        decreases e, 0int,
    {
        match e {
            Expr::Conditional { condition, then_expr, else_expr } => {
                let ghost s0 = self@;
                self.compile_expr(condition)?;
                let ghost s1 = self@;
                let else_jump = self.emit_op(OpCode::JumpIfFalse(0));
                self.emit_op(OpCode::Pop);
                let ghost s1b = self@;
                proof {
                    lemma_grows_emit(s1, other(OpCode::JumpIfFalse(0)));
                    lemma_grows_emit(emit(s1, other(OpCode::JumpIfFalse(0))), other(OpCode::Pop));
                    lemma_grows_trans(s1, emit(s1, other(OpCode::JumpIfFalse(0))), s1b);
                }
                self.compile_expr(then_expr)?;
                let ghost s2 = self@;
                let end_jump = self.emit_op(OpCode::Jump(0));
                let ghost s3 = self@;
                let else_start = self.code_len();
                self.patch_op(else_jump, OpCode::JumpIfFalse(else_start));
                self.emit_op(OpCode::Pop);
                let ghost s4 = self@;
                proof {
                    lemma_grows_emit(s2, other(OpCode::Jump(0)));
                    lemma_grows_patch(s3, else_jump as int, other(OpCode::JumpIfFalse(else_start)));
                    let sp = patch(s3, else_jump as int, other(OpCode::JumpIfFalse(else_start)));
                    lemma_grows_emit(sp, other(OpCode::Pop));
                    lemma_grows_trans(s3, sp, s4);
                    lemma_grows_trans(s2, s3, s4);
                }
                self.compile_expr(else_expr)?;
                let ghost s5 = self@;
                let end = self.code_len();
                self.patch_op(end_jump, OpCode::Jump(end));
                proof {
                    lemma_grows_patch(s5, end_jump as int, other(OpCode::Jump(end)));
                    lemma_grows_trans(s0, s1, s1b);
                    lemma_grows_trans(s0, s1b, s2);
                    lemma_grows_trans(s0, s2, s4);
                    lemma_grows_trans(s0, s4, s5);
                    lemma_grows_trans(s0, s5, self@);
                }
                Ok(())
            },
            _ => Ok(()),
        }
    }

    /// Expressions one after the other.
    fn compile_exprs(&mut self, es: &Vec<Expr>) -> (r: Result<(), String>)
        requires
            old(self).wf(),
        ensures
            final(self).wf(),
            match comp_exprs(old(self)@, es@) {
                Ok(v) => r is Ok && final(self)@ == v && grows(old(self)@, v),
                Err(m) => r matches Err(x) && x@ == m,
            },
        decreases es, 0int,
    {
        let ghost s0 = self@;
        let mut i: usize = 0;
        proof {
            lemma_grows_refl(s0);
            assert(es@.take(0) =~= Seq::<Expr>::empty());
        }
        while i < es.len()
            invariant
                self.wf(),
                i <= es.len(),
                s0 == old(self)@,
                comp_exprs(s0, es@.take(i as int)) == Ok::<CompView, Seq<char>>(self@),
                grows(s0, self@),
            decreases es.len() - i,
        {
            let ghost before = self@;
            proof {
                assert(es@.take(i + 1).subrange(0, i as int) =~= es@.take(i as int));
                assert(es@.take(i + 1)[i as int] == es@[i as int]);
            }
            match self.compile_expr(&es[i]) {
                Ok(()) => {},
                Err(m) => {
                    proof {
                        lemma_exprs_err(s0, es@, i + 1);
                    }
                    return Err(m);
                },
            }
            proof {
                lemma_grows_trans(s0, before, self@);
            }
            i = i + 1;
        }
        proof {
            assert(es@.take(es@.len() as int) =~= es@);
        }
        Ok(())
    }

    /// The entries of an object literal.
    fn compile_entries(&mut self, es: &Vec<(String, Expr)>) -> (r: Result<(), String>)
        requires
            old(self).wf(),
        ensures
            final(self).wf(),
            match comp_entries(old(self)@, es@) {
                Ok(v) => r is Ok && final(self)@ == v && grows(old(self)@, v),
                Err(m) => r matches Err(x) && x@ == m,
            },
        decreases es, 0int,
    {
        let ghost s0 = self@;
        let mut i: usize = 0;
        proof {
            lemma_grows_refl(s0);
            assert(es@.take(0) =~= Seq::<(String, Expr)>::empty());
        }
        while i < es.len()
            invariant
                self.wf(),
                i <= es.len(),
                s0 == old(self)@,
                comp_entries(s0, es@.take(i as int)) == Ok::<CompView, Seq<char>>(self@),
                grows(s0, self@),
            decreases es.len() - i,
        {
            let ghost before = self@;
            proof {
                assert(es@.take(i + 1).subrange(0, i as int) =~= es@.take(i as int));
                assert(es@.take(i + 1)[i as int] == es@[i as int]);
            }
            let k_idx = self.add_const(Constant::Str(es[i].0.clone()));
            let ghost sa = self@;
            self.emit_op(OpCode::Constant(k_idx));
            let ghost sb = self@;
            proof {
                lemma_grows_const(before, ConstView::Str(es@[i as int].0@));
                lemma_grows_emit(sa, other(OpCode::Constant(k_idx)));
                lemma_grows_trans(before, sa, sb);
            }
            match self.compile_expr(&es[i].1) {
                Ok(()) => {},
                Err(m) => {
                    proof {
                        lemma_entries_err(s0, es@, i + 1);
                    }
                    return Err(m);
                },
            }
            proof {
                lemma_grows_trans(before, sb, self@);
                lemma_grows_trans(s0, before, self@);
            }
            i = i + 1;
        }
        proof {
            assert(es@.take(es@.len() as int) =~= es@);
        }
        Ok(())
    }

    /// A function body in a chunk of its own (see `comp_body`).
    fn compile_body(&mut self, body: &Vec<Stmt>) -> (r: Result<(), String>)
        requires
            old(self).wf(),
        ensures
            final(self).wf(),
            match comp_body(old(self)@, body@) {
                Ok(v) => r is Ok && final(self)@ == v && grows(old(self)@, v),
                Err(m) => r matches Err(x) && x@ == m,
            },
        decreases body, 1int,
    {
        let ghost s0 = self@;
        let func_chunk_idx = self.chunks.len();
        self.chunks.push(Chunk::new());
        let old_chunk = self.current_chunk;
        self.current_chunk = func_chunk_idx;
        proof {
            assert(self@.chunks =~= enter_new_chunk(s0).chunks);
        }
        let ghost se = self@;
        self.compile_stmts(body)?;
        self.emit_op(OpCode::Undefined);
        self.emit_op(OpCode::Return);
        let ghost s2 = self@;
        self.current_chunk = old_chunk;
        proof {
            assert(here(self@) == here(s0)) by {
                assert(self@.chunks[old_chunk as int] == s2.chunks[old_chunk as int]);
            }
        }
        Ok(())
    }
}

impl Compiler {
    /// Statements one after the other.
    fn compile_stmts(&mut self, ss: &Vec<Stmt>) -> (r: Result<(), String>)
        requires
            old(self).wf(),
        ensures
            final(self).wf(),
            match comp_stmts(old(self)@, ss@) {
                Ok(v) => r is Ok && final(self)@ == v && grows(old(self)@, v),
                Err(m) => r matches Err(x) && x@ == m,
            },
        decreases ss, 0int,
    {
        let ghost s0 = self@;
        let mut i: usize = 0;
        proof {
            lemma_grows_refl(s0);
            assert(ss@.take(0) =~= Seq::<Stmt>::empty());
        }
        while i < ss.len()
            invariant
                self.wf(),
                i <= ss.len(),
                s0 == old(self)@,
                comp_stmts(s0, ss@.take(i as int)) == Ok::<CompView, Seq<char>>(self@),
                grows(s0, self@),
            decreases ss.len() - i,
        {
            let ghost before = self@;
            proof {
                assert(ss@.take(i + 1).subrange(0, i as int) =~= ss@.take(i as int));
                assert(ss@.take(i + 1)[i as int] == ss@[i as int]);
            }
            match self.compile_stmt(&ss[i]) {
                Ok(()) => {},
                Err(m) => {
                    proof {
                        lemma_stmts_err(s0, ss@, i + 1);
                    }
                    return Err(m);
                },
            }
            proof {
                lemma_grows_trans(s0, before, self@);
            }
            i = i + 1;
        }
        proof {
            assert(ss@.take(ss@.len() as int) =~= ss@);
        }
        Ok(())
    }

    /// Compiles a statement into the current chunk (see `comp_stmt`).
    #[verifier::rlimit(40)]
    fn compile_stmt(&mut self, st: &Stmt) -> (r: Result<(), String>)
        requires
            old(self).wf(),
        ensures
            final(self).wf(),
            match comp_stmt(old(self)@, *st) {
                Ok(v) => r is Ok && final(self)@ == v && grows(old(self)@, v),
                Err(m) => r matches Err(x) && x@ == m,
            },
        decreases st, 1int,
    {
        let ghost s0 = self@;
        match st {
            Stmt::VarDecl { name, initializer } => {
                match initializer {
                    Some(init) => {
                        self.compile_expr(init)?;
                    },
                    None => {
                        self.emit_op(OpCode::Undefined);
                        proof {
                            lemma_grows_emit(s0, other(OpCode::Undefined));
                        }
                    },
                }
                let ghost s1 = self@;
                self.emit_op(OpCode::DeclVar(name.clone()));
                proof {
                    lemma_grows_emit(s1, OpView::DeclVar(name@));
                    lemma_grows_trans(s0, s1, self@);
                }
                Ok(())
            },
            Stmt::Expr(e) => {
                self.compile_expr(e)?;
                let ghost s1 = self@;
                self.emit_op(OpCode::Pop);
                proof {
                    lemma_grows_emit(s1, other(OpCode::Pop));
                    lemma_grows_trans(s0, s1, self@);
                }
                Ok(())
            },
            Stmt::Block(ss) => self.compile_stmts(ss),
            Stmt::If { .. } => self.compile_if(st),
            Stmt::While { .. } => self.compile_while(st),
            Stmt::For { .. } => self.compile_for(st),
            Stmt::FunctionDecl { name, params, body, is_async } => {
                let idx = self.chunks.len();
                self.compile_body(body)?;
                let ghost s1 = self@;
                let op = OpCode::MakeClosure { chunk_index: idx, name: name.clone(), params: names_clone(params) };
                self.emit_op(op);
                let ghost s2 = self@;
                self.emit_op(OpCode::DeclVar(name.clone()));
                proof {
                    lemma_grows_emit(s1, op_view(op));
                    lemma_grows_emit(s2, OpView::DeclVar(name@));
                    lemma_grows_trans(s0, s1, s2);
                    lemma_grows_trans(s0, s2, self@);
                }
                Ok(())
            },
            Stmt::ClassDecl { name, methods } => {
                let (constructor, compiled) = self.compile_methods(methods)?;
                let ghost s1 = self@;
                let op = OpCode::MakeClass { name: name.clone(), constructor, methods: compiled };
                self.emit_op(op);
                let ghost s2 = self@;
                self.emit_op(OpCode::DeclVar(name.clone()));
                proof {
                    lemma_grows_emit(s1, op_view(op));
                    lemma_grows_emit(s2, OpView::DeclVar(name@));
                    lemma_grows_trans(s0, s1, s2);
                    lemma_grows_trans(s0, s2, self@);
                }
                Ok(())
            },
            Stmt::Return(v) => {
                match v {
                    Some(e) => {
                        self.compile_expr(e)?;
                    },
                    None => {
                        self.emit_op(OpCode::Undefined);
                        proof {
                            lemma_grows_emit(s0, other(OpCode::Undefined));
                        }
                    },
                }
                let ghost s1 = self@;
                self.emit_op(OpCode::Return);
                proof {
                    lemma_grows_emit(s1, other(OpCode::Return));
                    lemma_grows_trans(s0, s1, self@);
                }
                Ok(())
            },
            Stmt::TryCatch { .. } => self.compile_try(st),
            Stmt::Throw(e) => {
                self.compile_expr(e)?;
                let ghost s1 = self@;
                self.emit_op(OpCode::Throw);
                proof {
                    lemma_grows_emit(s1, other(OpCode::Throw));
                    lemma_grows_trans(s0, s1, self@);
                }
                Ok(())
            },
        }
    }

    fn compile_if(&mut self, st: &Stmt) -> (r: Result<(), String>)
        requires
            old(self).wf(),
            st is If,
        ensures
            final(self).wf(),
            match comp_stmt(old(self)@, *st) {
                Ok(v) => r is Ok && final(self)@ == v && grows(old(self)@, v),
                Err(m) => r matches Err(x) && x@ == m,
            },
        decreases st, 0int,
    {
        match st {
            Stmt::If { condition, then_branch, else_branch } => {
                let ghost s0 = self@;
                self.compile_expr(condition)?;
                let ghost s1 = self@;
                let then_jump = self.emit_op(OpCode::JumpIfFalse(0));
                self.emit_op(OpCode::Pop);
                let ghost s1b = self@;
                proof {
                    lemma_grows_emit(s1, other(OpCode::JumpIfFalse(0)));
                    lemma_grows_emit(emit(s1, other(OpCode::JumpIfFalse(0))), other(OpCode::Pop));
                    lemma_grows_trans(s1, emit(s1, other(OpCode::JumpIfFalse(0))), s1b);
                }
                self.compile_stmt(then_branch)?;
                let ghost s2 = self@;
                let else_jump = self.emit_op(OpCode::Jump(0));
                let ghost s3 = self@;
                let after_then = self.code_len();
                self.patch_op(then_jump, OpCode::JumpIfFalse(after_then));
                self.emit_op(OpCode::Pop);
                let ghost s4 = self@;
                proof {
                    lemma_grows_emit(s2, other(OpCode::Jump(0)));
                    lemma_grows_patch(s3, then_jump as int, other(OpCode::JumpIfFalse(after_then)));
                    let sp = patch(s3, then_jump as int, other(OpCode::JumpIfFalse(after_then)));
                    lemma_grows_emit(sp, other(OpCode::Pop));
                    lemma_grows_trans(s3, sp, s4);
                    lemma_grows_trans(s2, s3, s4);
                    lemma_grows_trans(s0, s1, s1b);
                    lemma_grows_trans(s0, s1b, s2);
                    lemma_grows_trans(s0, s2, s4);
                }
                match else_branch {
                    Some(b) => {
                        self.compile_stmt(b)?;
                    },
                    None => {
                        proof {
                            lemma_grows_refl(s4);
                        }
                    },
                }
                let ghost s5 = self@;
                let after_else = self.code_len();
                self.patch_op(else_jump, OpCode::Jump(after_else));
                proof {
                    lemma_grows_patch(s5, else_jump as int, other(OpCode::Jump(after_else)));
                    lemma_grows_trans(s0, s4, s5);
                    lemma_grows_trans(s0, s5, self@);
                }
                Ok(())
            },
            _ => Ok(()),
        }
    }

    fn compile_while(&mut self, st: &Stmt) -> (r: Result<(), String>)
        requires
            old(self).wf(),
            st is While,
        ensures
            final(self).wf(),
            match comp_stmt(old(self)@, *st) {
                Ok(v) => r is Ok && final(self)@ == v && grows(old(self)@, v),
                Err(m) => r matches Err(x) && x@ == m,
            },
        decreases st, 0int,
    {
        match st {
            Stmt::While { condition, body } => {
                let ghost s0 = self@;
                let loop_start = self.code_len();
                self.compile_expr(condition)?;
                let ghost s1 = self@;
                let exit_jump = self.emit_op(OpCode::JumpIfFalse(0));
                self.emit_op(OpCode::Pop);
                let ghost s1b = self@;
                proof {
                    lemma_grows_emit(s1, other(OpCode::JumpIfFalse(0)));
                    lemma_grows_emit(emit(s1, other(OpCode::JumpIfFalse(0))), other(OpCode::Pop));
                    lemma_grows_trans(s1, emit(s1, other(OpCode::JumpIfFalse(0))), s1b);
                }
                self.compile_stmt(body)?;
                let ghost s2 = self@;
                self.emit_op(OpCode::Loop(loop_start));
                let ghost s3 = self@;
                let after_loop = self.code_len();
                self.patch_op(exit_jump, OpCode::JumpIfFalse(after_loop));
                let ghost s4 = self@;
                self.emit_op(OpCode::Pop);
                proof {
                    lemma_grows_emit(s2, other(OpCode::Loop(loop_start)));
                    lemma_grows_patch(s3, exit_jump as int, other(OpCode::JumpIfFalse(after_loop)));
                    lemma_grows_emit(s4, other(OpCode::Pop));
                    lemma_grows_trans(s0, s1, s1b);
                    lemma_grows_trans(s0, s1b, s2);
                    lemma_grows_trans(s0, s2, s3);
                    lemma_grows_trans(s0, s3, s4);
                    lemma_grows_trans(s0, s4, self@);
                }
                Ok(())
            },
            _ => Ok(()),
        }
    }

    #[verifier::rlimit(40)]
    fn compile_for(&mut self, st: &Stmt) -> (r: Result<(), String>)
        requires
            old(self).wf(),
            st is For,
        ensures
            final(self).wf(),
            match comp_stmt(old(self)@, *st) {
                Ok(v) => r is Ok && final(self)@ == v && grows(old(self)@, v),
                Err(m) => r matches Err(x) && x@ == m,
            },
        decreases st, 0int,
    {
        match st {
            Stmt::For { init, condition, update, body } => {
                let ghost s0 = self@;
                match init {
                    Some(i) => {
                        self.compile_stmt(i)?;
                    },
                    None => {
                        proof {
                            lemma_grows_refl(s0);
                        }
                    },
                }
                let ghost sa = self@;
                let loop_start = self.code_len();
                let mut exit_jump: usize = 0;
                match condition {
                    Some(c) => {
                        self.compile_expr(c)?;
                        let ghost sc = self@;
                        exit_jump = self.emit_op(OpCode::JumpIfFalse(0));
                        self.emit_op(OpCode::Pop);
                        proof {
                            lemma_grows_emit(sc, other(OpCode::JumpIfFalse(0)));
                            lemma_grows_emit(emit(sc, other(OpCode::JumpIfFalse(0))), other(OpCode::Pop));
                            lemma_grows_trans(sc, emit(sc, other(OpCode::JumpIfFalse(0))), self@);
                            lemma_grows_trans(sa, sc, self@);
                        }
                    },
                    None => {
                        proof {
                            lemma_grows_refl(sa);
                        }
                    },
                }
                let ghost s1 = self@;
                proof {
                    if condition is Some {
                        assert(exit_jump == here(s1) - 2);
                    }
                }
                self.compile_stmt(body)?;
                let ghost s2 = self@;
                match update {
                    Some(u) => {
                        self.compile_expr(u)?;
                        let ghost su = self@;
                        self.emit_op(OpCode::Pop);
                        proof {
                            lemma_grows_emit(su, other(OpCode::Pop));
                            lemma_grows_trans(s2, su, self@);
                        }
                    },
                    None => {
                        proof {
                            lemma_grows_refl(s2);
                        }
                    },
                }
                let ghost s3 = self@;
                self.emit_op(OpCode::Loop(loop_start));
                let ghost s4 = self@;
                proof {
                    lemma_grows_emit(s3, other(OpCode::Loop(loop_start)));
                    lemma_grows_trans(s0, sa, s1);
                    lemma_grows_trans(s0, s1, s2);
                    lemma_grows_trans(s0, s2, s3);
                    lemma_grows_trans(s0, s3, s4);
                }
                match condition {
                    Some(_) => {
                        let after_loop = self.code_len();
                        self.patch_op(exit_jump, OpCode::JumpIfFalse(after_loop));
                        let ghost s5 = self@;
                        self.emit_op(OpCode::Pop);
                        proof {
                            lemma_grows_patch(s4, exit_jump as int, other(OpCode::JumpIfFalse(after_loop)));
                            lemma_grows_emit(s5, other(OpCode::Pop));
                            lemma_grows_trans(s0, s4, s5);
                            lemma_grows_trans(s0, s5, self@);
                        }
                    },
                    None => {},
                }
                Ok(())
            },
            _ => Ok(()),
        }
    }

    #[verifier::rlimit(40)]
    fn compile_try(&mut self, st: &Stmt) -> (r: Result<(), String>)
        requires
            old(self).wf(),
            st is TryCatch,
        ensures
            final(self).wf(),
            match comp_stmt(old(self)@, *st) {
                Ok(v) => r is Ok && final(self)@ == v && grows(old(self)@, v),
                Err(m) => r matches Err(x) && x@ == m,
            },
        decreases st, 0int,
    {
        match st {
            Stmt::TryCatch { try_block, catch_param, catch_block, finally_block } => {
                let ghost s0 = self@;
                let push_try_ip = self.emit_op(OpCode::PushTry { catch_ip: 0 });
                let ghost sp = self@;
                proof {
                    lemma_grows_emit(s0, other(OpCode::PushTry { catch_ip: 0 }));
                }
                self.compile_stmt(try_block)?;
                let ghost s1 = self@;
                self.emit_op(OpCode::PopTry);
                let jump_over_catch = self.emit_op(OpCode::Jump(0));
                let ghost s2 = self@;
                let catch_target = self.code_len();
                self.patch_op(push_try_ip, OpCode::PushTry { catch_ip: catch_target });
                let ghost s3 = self@;
                proof {
                    lemma_grows_emit(s1, other(OpCode::PopTry));
                    lemma_grows_emit(emit(s1, other(OpCode::PopTry)), other(OpCode::Jump(0)));
                    lemma_grows_trans(s1, emit(s1, other(OpCode::PopTry)), s2);
                    lemma_grows_trans(s0, sp, s1);
                    lemma_grows_trans(s0, s1, s2);
                    lemma_grows_patch(s2, push_try_ip as int, other(OpCode::PushTry { catch_ip: catch_target }));
                    lemma_grows_trans(s0, s2, s3);
                }
                match catch_block {
                    Some(c_block) => {
                        match catch_param {
                            Some(param) => {
                                self.emit_op(OpCode::DeclVar(param.clone()));
                                proof {
                                    lemma_grows_emit(s3, OpView::DeclVar(param@));
                                }
                            },
                            None => {
                                self.emit_op(OpCode::Pop);
                                proof {
                                    lemma_grows_emit(s3, other(OpCode::Pop));
                                }
                            },
                        }
                        let ghost s3a = self@;
                        self.compile_stmt(c_block)?;
                        proof {
                            lemma_grows_trans(s3, s3a, self@);
                        }
                    },
                    None => {
                        self.emit_op(OpCode::Pop);
                        proof {
                            lemma_grows_emit(s3, other(OpCode::Pop));
                        }
                    },
                }
                let ghost s4 = self@;
                let after_catch = self.code_len();
                self.patch_op(jump_over_catch, OpCode::Jump(after_catch));
                let ghost s5 = self@;
                proof {
                    lemma_grows_patch(s4, jump_over_catch as int, other(OpCode::Jump(after_catch)));
                    lemma_grows_trans(s0, s3, s4);
                    lemma_grows_trans(s0, s4, s5);
                }
                match finally_block {
                    Some(f_block) => {
                        self.compile_stmt(f_block)?;
                        proof {
                            lemma_grows_trans(s0, s5, self@);
                        }
                    },
                    None => {},
                }
                Ok(())
            },
            _ => Ok(()),
        }
    }

    /// Class methods, each in a chunk of its own (see `comp_methods`).
    fn compile_methods(&mut self, methods: &Vec<ClassMethod>) -> (r: Result<
        (Option<(usize, Vec<String>)>, Vec<(String, usize, Vec<String>)>),
        String,
    >)
        requires
            old(self).wf(),
        ensures
            final(self).wf(),
            match comp_methods(old(self)@, methods@, old(self)@.cur) {
                Ok((v, parts)) => r matches Ok((ctor, ms)) && final(self)@ == v && grows(old(self)@, v) && parts == (
                match ctor {
                    Some((i, ps)) => Some((i, names_view(ps))),
                    None => None,
                },
                ms@.map_values(|m: (String, usize, Vec<String>)| (m.0@, m.1, names_view(m.2)))),
                Err(m) => r matches Err(x) && x@ == m,
            },
        decreases methods, 0int,
    {
        let ghost s0 = self@;
        let old_chunk = self.current_chunk;
        let mut constructor: Option<(usize, Vec<String>)> = None;
        let mut compiled: Vec<(String, usize, Vec<String>)> = Vec::new();
        let mut i: usize = 0;
        proof {
            lemma_grows_refl(s0);
            assert(methods@.take(0) =~= Seq::<ClassMethod>::empty());
            assert(compiled@.map_values(|m: (String, usize, Vec<String>)| (m.0@, m.1, names_view(m.2))) =~= Seq::<
                (Seq<char>, usize, Seq<Seq<char>>),
            >::empty());
        }
        while i < methods.len()
            invariant
                self.wf(),
                i <= methods.len(),
                old_chunk == s0.cur,
                s0 == old(self)@,
                comp_methods(s0, methods@.take(i as int), s0.cur) == Ok::<(CompView, ClassParts), Seq<char>>(
                    (
                        self@,
                        (
                            match constructor {
                                Some((ci, ps)) => Some((ci, names_view(ps))),
                                None => None,
                            },
                            compiled@.map_values(|m: (String, usize, Vec<String>)| (m.0@, m.1, names_view(m.2))),
                        ),
                    ),
                ),
                grows(s0, self@),
            decreases methods.len() - i,
        {
            let ghost before = self@;
            let ghost cv = compiled@.map_values(|m: (String, usize, Vec<String>)| (m.0@, m.1, names_view(m.2)));
            proof {
                assert(methods@.take(i + 1).subrange(0, i as int) =~= methods@.take(i as int));
                assert(methods@.take(i + 1)[i as int] == methods@[i as int]);
            }
            let method = &methods[i];
            let method_chunk_idx = self.chunks.len();
            self.chunks.push(Chunk::new());
            self.current_chunk = method_chunk_idx;
            proof {
                assert(self@.chunks =~= enter_new_chunk(before).chunks);
            }
            match self.compile_stmts(&method.body) {
                Ok(()) => {},
                Err(m) => {
                    proof {
                        lemma_methods_err(s0, methods@, s0.cur, i + 1);
                    }
                    return Err(m);
                },
            }
            self.emit_op(OpCode::Undefined);
            self.emit_op(OpCode::Return);
            let ghost s2 = self@;
            self.current_chunk = old_chunk;
            proof {
                assert(self@.chunks[old_chunk as int] == before.chunks[old_chunk as int]);
                lemma_grows_trans(s0, before, self@);
            }
            if str_eq(method.name.as_str(), "constructor") {
                constructor = Some((method_chunk_idx, names_clone(&method.params)));
            } else {
                compiled.push((method.name.clone(), method_chunk_idx, names_clone(&method.params)));
                proof {
                    assert(compiled@.map_values(|m: (String, usize, Vec<String>)| (m.0@, m.1, names_view(m.2))) =~= cv.push(
                        (method.name@, method_chunk_idx, names_view(method.params)),
                    ));
                }
            }
            i = i + 1;
        }
        proof {
            assert(methods@.take(methods@.len() as int) =~= methods@);
        }
        Ok((constructor, compiled))
    }

    /// Compiles a program into its chunks (see `comp_program`).
    pub fn compile(self, statements: &[Stmt]) -> (r: Result<Vec<Chunk>, String>)
        requires
            self.wf(),
        ensures
            match comp_program(self@, statements@) {
                Ok(v) => r matches Ok(cs) && cs@.map_values(|c: Chunk| c@) == v,
                Err(m) => r matches Err(x) && x@ == m,
            },
    {
        let ghost s0 = self@;
        let mut this = self;
        let len = statements.len();
        let mut i: usize = 0;
        proof {
            assert(statements@.take(0) =~= Seq::<Stmt>::empty());
        }
        while i < len
            invariant
                this.wf(),
                s0 == self@,
                len == statements@.len(),
                i <= len,
                comp_stmts(s0, statements@.take(i as int)) == Ok::<CompView, Seq<char>>(this@),
                (i == len && len > 0) ==> !(statements@[len - 1] is Expr),
            decreases len - i,
        {
            proof {
                assert(statements@.take(i + 1).subrange(0, i as int) =~= statements@.take(i as int));
                assert(statements@.take(i + 1)[i as int] == statements@[i as int]);
            }
            if i + 1 == len {
                if let Stmt::Expr(expr) = &statements[i] {
                    proof {
                        assert(statements@.subrange(0, statements@.len() - 1) =~= statements@.take(i as int));
                    }
                    this.compile_expr(expr)?;
                    this.emit_op(OpCode::Return);
                    return Ok(this.chunks);
                }
            }
            match this.compile_stmt(&statements[i]) {
                Ok(()) => {},
                Err(m) => {
                    proof {
                        lemma_stmts_err(s0, statements@, i + 1);
                        if len > 0 && statements@[len - 1] is Expr {
                            assert(i + 1 < len);
                            assert(statements@.subrange(0, len - 1).take(i + 1) =~= statements@.take(i + 1));
                            lemma_stmts_err(s0, statements@.subrange(0, len - 1), i + 1);
                        }
                    }
                    return Err(m);
                },
            }
            i = i + 1;
        }
        proof {
            assert(statements@.take(len as int) =~= statements@);
        }
        this.emit_op(OpCode::Undefined);
        this.emit_op(OpCode::Return);
        Ok(this.chunks)
    }
}


/// Whether an `await` stands anywhere in an expression, function bodies included.
pub open spec fn expr_awaits(e: Expr) -> bool
    decreases e, 0int,
{
    match e {
        Expr::Binary { left, right, .. } => expr_awaits(*left) || expr_awaits(*right),
        Expr::Conditional { condition, then_expr, else_expr } => expr_awaits(*condition) || expr_awaits(*then_expr)
            || expr_awaits(*else_expr),
        Expr::Unary { expr, .. } => expr_awaits(*expr),
        Expr::Assign { value, .. } => expr_awaits(*value),
        Expr::AssignProp { object, value, .. } => expr_awaits(*object) || expr_awaits(*value),
        Expr::AssignIndex { object, index, value } => expr_awaits(*object) || expr_awaits(*index) || expr_awaits(*value),
        Expr::Call { callee, args } => expr_awaits(*callee) || exprs_await(args@),
        Expr::Member { object, .. } => expr_awaits(*object),
        Expr::Index { object, index } => expr_awaits(*object) || expr_awaits(*index),
        Expr::Array(items) => exprs_await(items@),
        Expr::Object(entries) => entries_await(entries@),
        Expr::New { callee, args } => expr_awaits(*callee) || exprs_await(args@),
        Expr::FunctionExpr { body, .. } => stmts_await(body@),
        Expr::Await(_) => true,
        _ => false,
    }
}

/// Whether an `await` stands in one of the expressions.
pub open spec fn exprs_await(es: Seq<Expr>) -> bool
    decreases es, 0int,
{
    if es.len() == 0 {
        false
    } else {
        exprs_await(es.subrange(0, es.len() - 1)) || expr_awaits(es[es.len() - 1])
    }
}

/// Whether an `await` stands in one of the values of an object literal.
pub open spec fn entries_await(es: Seq<(String, Expr)>) -> bool
    decreases es, 0int,
{
    if es.len() == 0 {
        false
    } else {
        entries_await(es.subrange(0, es.len() - 1)) || expr_awaits(es[es.len() - 1].1)
    }
}

/// Whether an `await` stands in one of the statements.
pub open spec fn stmts_await(ss: Seq<Stmt>) -> bool
    decreases ss, 0int,
{
    if ss.len() == 0 {
        false
    } else {
        stmts_await(ss.subrange(0, ss.len() - 1)) || stmt_awaits(ss[ss.len() - 1])
    }
}

/// Whether an `await` stands in the body of one of the methods.
pub open spec fn methods_await(ms: Seq<ClassMethod>) -> bool
    decreases ms, 0int,
{
    if ms.len() == 0 {
        false
    } else {
        methods_await(ms.subrange(0, ms.len() - 1)) || stmts_await(ms[ms.len() - 1].body@)
    }
}

/// Whether an `await` stands anywhere in a statement.
pub open spec fn stmt_awaits(st: Stmt) -> bool
    decreases st, 0int,
{
    match st {
        Stmt::VarDecl { initializer, .. } => match initializer {
            Some(init) => expr_awaits(init),
            None => false,
        },
        Stmt::Expr(e) => expr_awaits(e),
        Stmt::Block(ss) => stmts_await(ss@),
        Stmt::If { condition, then_branch, else_branch } => expr_awaits(condition) || stmt_awaits(*then_branch)
            || match else_branch {
            Some(b) => stmt_awaits(*b),
            None => false,
        },
        Stmt::While { condition, body } => expr_awaits(condition) || stmt_awaits(*body),
        Stmt::For { init, condition, update, body } => {
            let a = match init {
                Some(i) => stmt_awaits(*i),
                None => false,
            };
            let b = match condition {
                Some(c) => expr_awaits(c),
                None => false,
            };
            let c = match update {
                Some(u) => expr_awaits(u),
                None => false,
            };
            a || b || stmt_awaits(*body) || c
        },
        Stmt::FunctionDecl { body, .. } => stmts_await(body@),
        Stmt::ClassDecl { methods, .. } => methods_await(methods@),
        Stmt::Return(v) => match v {
            Some(e) => expr_awaits(e),
            None => false,
        },
        Stmt::TryCatch { try_block, catch_block, finally_block, .. } => {
            let c = match catch_block {
                Some(b) => stmt_awaits(*b),
                None => false,
            };
            let f = match finally_block {
                Some(b) => stmt_awaits(*b),
                None => false,
            };
            stmt_awaits(*try_block) || c || f
        },
        Stmt::Throw(e) => expr_awaits(e),
    }
}

/// A compiling step fails exactly when `awaits` holds, and then with the
/// refusal of `await`.
pub open spec fn fails_on_await<T>(r: Result<T, Seq<char>>, awaits: bool) -> bool {
    &&& (r is Err <==> awaits)
    &&& (r is Err ==> r->Err_0 == await_error())
}

#[verifier::spinoff_prover]
proof fn lemma_expr_await(s: CompView, e: Expr)
    ensures
        fails_on_await(comp_expr(s, e), expr_awaits(e)),
    decreases e, 0int,
{
    match e {
        Expr::Assign { value, .. } => lemma_expr_await(s, *value),
        Expr::AssignProp { object, value, .. } => {
            lemma_expr_await(s, *object);
            if let Ok(s1) = comp_expr(s, *object) {
                lemma_expr_await(s1, *value);
            }
        },
        Expr::AssignIndex { object, index, value } => {
            lemma_expr_await(s, *object);
            if let Ok(s1) = comp_expr(s, *object) {
                lemma_expr_await(s1, *index);
                if let Ok(s2) = comp_expr(s1, *index) {
                    lemma_expr_await(s2, *value);
                }
            }
        },
        Expr::Member { object, .. } => lemma_expr_await(s, *object),
        Expr::Index { object, index } => {
            lemma_expr_await(s, *object);
            if let Ok(s1) = comp_expr(s, *object) {
                lemma_expr_await(s1, *index);
            }
        },
        Expr::Array(items) => lemma_exprs_await(s, items@),
        Expr::Object(entries) => lemma_entries_await(s, entries@),
        Expr::FunctionExpr { body, .. } => lemma_body_await(s, body@),
        Expr::New { callee, args } => {
            lemma_expr_await(s, *callee);
            if let Ok(s1) = comp_expr(s, *callee) {
                lemma_exprs_await(s1, args@);
            }
        },
        Expr::Call { callee, args } => {
            lemma_expr_await(s, *callee);
            if let Ok(s1) = comp_expr(s, *callee) {
                lemma_exprs_await(s1, args@);
            }
        },
        Expr::Binary { op, left, right } => {
            lemma_expr_await(s, *left);
            if let Ok(s1) = comp_expr(s, *left) {
                match op {
                    BinaryOp::And => {
                        lemma_expr_await(emit(emit(s1, other(OpCode::JumpIfFalse(0))), other(OpCode::Pop)), *right);
                    },
                    BinaryOp::Or => {
                        let j1 = here(s1);
                        let s2 = emit(emit(s1, other(OpCode::JumpIfFalse(0))), other(OpCode::Jump(0)));
                        let s3 = emit(patch(s2, j1, other(OpCode::JumpIfFalse(here(s2) as usize))), other(OpCode::Pop));
                        lemma_expr_await(s3, *right);
                    },
                    _ => lemma_expr_await(s1, *right),
                }
            }
        },
        Expr::Conditional { condition, then_expr, else_expr } => {
            lemma_expr_await(s, *condition);
            if let Ok(s1) = comp_expr(s, *condition) {
                let j1 = here(s1);
                let t = emit(emit(s1, other(OpCode::JumpIfFalse(0))), other(OpCode::Pop));
                lemma_expr_await(t, *then_expr);
                if let Ok(s2) = comp_expr(t, *then_expr) {
                    let s3 = emit(s2, other(OpCode::Jump(0)));
                    let s4 = emit(patch(s3, j1, other(OpCode::JumpIfFalse(here(s3) as usize))), other(OpCode::Pop));
                    lemma_expr_await(s4, *else_expr);
                }
            }
        },
        Expr::Unary { expr, .. } => lemma_expr_await(s, *expr),
        _ => {},
    }
}

proof fn lemma_exprs_await(s: CompView, es: Seq<Expr>)
    ensures
        fails_on_await(comp_exprs(s, es), exprs_await(es)),
    decreases es, 0int,
{
    if es.len() > 0 {
        let init = es.subrange(0, es.len() - 1);
        lemma_exprs_await(s, init);
        if let Ok(s1) = comp_exprs(s, init) {
            lemma_expr_await(s1, es[es.len() - 1]);
        }
    }
}

proof fn lemma_entries_await(s: CompView, es: Seq<(String, Expr)>)
    ensures
        fails_on_await(comp_entries(s, es), entries_await(es)),
    decreases es, 0int,
{
    if es.len() > 0 {
        let init = es.subrange(0, es.len() - 1);
        lemma_entries_await(s, init);
        if let Ok(s1) = comp_entries(s, init) {
            let k = es[es.len() - 1].0;
            lemma_expr_await(
                emit(with_const(s1, ConstView::Str(k@)), other(OpCode::Constant(next_const(s1)))),
                es[es.len() - 1].1,
            );
        }
    }
}

proof fn lemma_body_await(s: CompView, body: Seq<Stmt>)
    ensures
        fails_on_await(comp_body(s, body), stmts_await(body)),
    decreases body, 1int,
{
    lemma_stmts_await(enter_new_chunk(s), body);
}

proof fn lemma_stmts_await(s: CompView, ss: Seq<Stmt>)
    ensures
        fails_on_await(comp_stmts(s, ss), stmts_await(ss)),
    decreases ss, 0int,
{
    if ss.len() > 0 {
        let init = ss.subrange(0, ss.len() - 1);
        lemma_stmts_await(s, init);
        if let Ok(s1) = comp_stmts(s, init) {
            lemma_stmt_await(s1, ss[ss.len() - 1]);
        }
    }
}

proof fn lemma_methods_await(s: CompView, ms: Seq<ClassMethod>, home: int)
    ensures
        fails_on_await(comp_methods(s, ms, home), methods_await(ms)),
    decreases ms, 0int,
{
    if ms.len() > 0 {
        let init = ms.subrange(0, ms.len() - 1);
        lemma_methods_await(s, init, home);
        if let Ok((s1, _)) = comp_methods(s, init, home) {
            lemma_stmts_await(enter_new_chunk(s1), ms[ms.len() - 1].body@);
        }
    }
}

#[verifier::spinoff_prover]
#[verifier::rlimit(40)]
proof fn lemma_stmt_await(s: CompView, st: Stmt)
    ensures
        fails_on_await(comp_stmt(s, st), stmt_awaits(st)),
    decreases st, 0int,
{
    match st {
        Stmt::VarDecl { initializer, .. } => {
            if let Some(init) = initializer {
                lemma_expr_await(s, init);
            }
        },
        Stmt::Expr(e) => lemma_expr_await(s, e),
        Stmt::Block(ss) => lemma_stmts_await(s, ss@),
        Stmt::If { condition, then_branch, else_branch } => {
            lemma_expr_await(s, condition);
            if let Ok(s1) = comp_expr(s, condition) {
                let j1 = here(s1);
                let t = emit(emit(s1, other(OpCode::JumpIfFalse(0))), other(OpCode::Pop));
                lemma_stmt_await(t, *then_branch);
                if let Ok(s2) = comp_stmt(t, *then_branch) {
                    let s3 = emit(s2, other(OpCode::Jump(0)));
                    let s4 = emit(patch(s3, j1, other(OpCode::JumpIfFalse(here(s3) as usize))), other(OpCode::Pop));
                    if let Some(b) = else_branch {
                        lemma_stmt_await(s4, *b);
                    }
                }
            }
        },
        Stmt::While { condition, body } => {
            lemma_expr_await(s, condition);
            if let Ok(s1) = comp_expr(s, condition) {
                lemma_stmt_await(emit(emit(s1, other(OpCode::JumpIfFalse(0))), other(OpCode::Pop)), *body);
            }
        },
        Stmt::For { init, condition, update, body } => {
            let r0 = match init {
                Some(i) => comp_stmt(s, *i),
                None => Ok(s),
            };
            if let Some(i) = init {
                lemma_stmt_await(s, *i);
            }
            if let Ok(s0) = r0 {
                let r1 = match condition {
                    Some(c) => match comp_expr(s0, c) {
                        Ok(s1) => Ok(emit(emit(s1, other(OpCode::JumpIfFalse(0))), other(OpCode::Pop))),
                        Err(m) => Err(m),
                    },
                    None => Ok(s0),
                };
                if let Some(c) = condition {
                    lemma_expr_await(s0, c);
                }
                if let Ok(s1) = r1 {
                    lemma_stmt_await(s1, *body);
                    if let Ok(s2) = comp_stmt(s1, *body) {
                        if let Some(u) = update {
                            lemma_expr_await(s2, u);
                        }
                    }
                }
            }
        },
        Stmt::FunctionDecl { body, .. } => lemma_body_await(s, body@),
        Stmt::ClassDecl { methods, .. } => lemma_methods_await(s, methods@, s.cur),
        Stmt::Return(v) => {
            if let Some(e) = v {
                lemma_expr_await(s, e);
            }
        },
        Stmt::TryCatch { try_block, catch_param, catch_block, finally_block } => {
            let p = here(s);
            let t = emit(s, other(OpCode::PushTry { catch_ip: 0 }));
            lemma_stmt_await(t, *try_block);
            if let Ok(s1) = comp_stmt(t, *try_block) {
                let j = here(s1) + 1;
                let s2 = emit(emit(s1, other(OpCode::PopTry)), other(OpCode::Jump(0)));
                let s3 = patch(s2, p, other(OpCode::PushTry { catch_ip: here(s2) as usize }));
                let s3a = match catch_param {
                    Some(name) => emit(s3, OpView::DeclVar(name@)),
                    None => emit(s3, other(OpCode::Pop)),
                };
                let r4 = match catch_block {
                    Some(c) => comp_stmt(s3a, *c),
                    None => Ok(emit(s3, other(OpCode::Pop))),
                };
                if let Some(c) = catch_block {
                    lemma_stmt_await(s3a, *c);
                }
                if let Ok(s4) = r4 {
                    let s5 = patch(s4, j, other(OpCode::Jump(here(s4) as usize)));
                    if let Some(f) = finally_block {
                        lemma_stmt_await(s5, *f);
                    }
                }
            }
        },
        Stmt::Throw(e) => lemma_expr_await(s, e),
    }
}

/// Compiling a program fails exactly when an `await` stands somewhere in it
/// (in a statement, an expression or a function or method body), and then
/// with the refusal of `await`: every other program compiles.
pub proof fn law_compile_fails_only_on_await(s: CompView, ss: Seq<Stmt>)
    ensures
        comp_program(s, ss) is Err <==> stmts_await(ss),
        comp_program(s, ss) is Err ==> comp_program(s, ss)->Err_0 == await_error(),
{
    if ss.len() > 0 && ss[ss.len() - 1] is Expr {
        let init = ss.subrange(0, ss.len() - 1);
        lemma_stmts_await(s, init);
        if let Ok(s1) = comp_stmts(s, init) {
            lemma_expr_await(s1, ss[ss.len() - 1]->Expr_0);
        }
        assert(stmt_awaits(ss[ss.len() - 1]) == expr_awaits(ss[ss.len() - 1]->Expr_0));
    } else {
        lemma_stmts_await(s, ss);
    }
}


/// The state after compiling `l`, then `r`, then appending `code`.
pub open spec fn operands_then(s: CompView, l: Expr, r: Expr, code: OpCode) -> Result<CompView, Seq<char>> {
    match comp_expr(s, l) {
        Ok(s1) => match comp_expr(s1, r) {
            Ok(s2) => Ok(emit(s2, other(code))),
            Err(m) => Err(m),
        },
        Err(m) => Err(m),
    }
}

/// Each arithmetic, equality and comparison operator compiles to its two
/// operands followed by the instruction of its name: `+` to `Add`, `-` to
/// `Sub`, `*` to `Mul`, `/` to `Div`, `%` to `Mod`, `==` to `Equal`, `!=` to
/// `NotEqual`, `===` to `StrictEqual`, `!==` to `StrictNotEqual`, `>` to
/// `Greater`, `>=` to `GreaterEqual`, `<` to `Less`, `<=` to `LessEqual`;
/// `instanceof` and `in`, which have no instruction of their own, to `Equal`.
pub proof fn law_binary_operator_instructions(s: CompView, l: Expr, r: Expr)
    ensures
        comp_expr(s, Expr::Binary { op: BinaryOp::Add, left: Box::new(l), right: Box::new(r) }) == operands_then(s, l, r, OpCode::Add),
        comp_expr(s, Expr::Binary { op: BinaryOp::Sub, left: Box::new(l), right: Box::new(r) }) == operands_then(s, l, r, OpCode::Sub),
        comp_expr(s, Expr::Binary { op: BinaryOp::Mul, left: Box::new(l), right: Box::new(r) }) == operands_then(s, l, r, OpCode::Mul),
        comp_expr(s, Expr::Binary { op: BinaryOp::Div, left: Box::new(l), right: Box::new(r) }) == operands_then(s, l, r, OpCode::Div),
        comp_expr(s, Expr::Binary { op: BinaryOp::Mod, left: Box::new(l), right: Box::new(r) }) == operands_then(s, l, r, OpCode::Mod),
        comp_expr(s, Expr::Binary { op: BinaryOp::Equal, left: Box::new(l), right: Box::new(r) }) == operands_then(s, l, r, OpCode::Equal),
        comp_expr(s, Expr::Binary { op: BinaryOp::NotEqual, left: Box::new(l), right: Box::new(r) }) == operands_then(s, l, r, OpCode::NotEqual),
        comp_expr(s, Expr::Binary { op: BinaryOp::StrictEqual, left: Box::new(l), right: Box::new(r) }) == operands_then(s, l, r, OpCode::StrictEqual),
        comp_expr(s, Expr::Binary { op: BinaryOp::StrictNotEqual, left: Box::new(l), right: Box::new(r) }) == operands_then(s, l, r, OpCode::StrictNotEqual),
        comp_expr(s, Expr::Binary { op: BinaryOp::Greater, left: Box::new(l), right: Box::new(r) }) == operands_then(s, l, r, OpCode::Greater),
        comp_expr(s, Expr::Binary { op: BinaryOp::GreaterEqual, left: Box::new(l), right: Box::new(r) }) == operands_then(s, l, r, OpCode::GreaterEqual),
        comp_expr(s, Expr::Binary { op: BinaryOp::Less, left: Box::new(l), right: Box::new(r) }) == operands_then(s, l, r, OpCode::Less),
        comp_expr(s, Expr::Binary { op: BinaryOp::LessEqual, left: Box::new(l), right: Box::new(r) }) == operands_then(s, l, r, OpCode::LessEqual),
        comp_expr(s, Expr::Binary { op: BinaryOp::InstanceOf, left: Box::new(l), right: Box::new(r) }) == operands_then(s, l, r, OpCode::Equal),
        comp_expr(s, Expr::Binary { op: BinaryOp::In, left: Box::new(l), right: Box::new(r) }) == operands_then(s, l, r, OpCode::Equal),
{
}


/// Each prefix operator compiles to its operand followed by the instruction
/// of its name: `!` to `Not`, `-` to `Negate`, `typeof` to `TypeOf`.
pub proof fn law_unary_operator_instructions(s: CompView, x: Expr)
    ensures
        comp_expr(s, Expr::Unary { op: UnaryOp::Not, expr: Box::new(x) }) == (match comp_expr(s, x) {
            Ok(s1) => Ok(emit(s1, other(OpCode::Not))),
            Err(m) => Err(m),
        }),
        comp_expr(s, Expr::Unary { op: UnaryOp::Negate, expr: Box::new(x) }) == (match comp_expr(s, x) {
            Ok(s1) => Ok(emit(s1, other(OpCode::Negate))),
            Err(m) => Err(m),
        }),
        comp_expr(s, Expr::Unary { op: UnaryOp::TypeOf, expr: Box::new(x) }) == (match comp_expr(s, x) {
            Ok(s1) => Ok(emit(s1, other(OpCode::TypeOf))),
            Err(m) => Err(m),
        }),
{
}

} // verus!
