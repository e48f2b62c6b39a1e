use wavecore::js::ast::{BinaryOp, ClassMethod, Expr, Stmt, UnaryOp};
use wavecore::js::bytecode::{Chunk, Compiler, Constant, OpCode};

fn num(s: &str) -> Expr {
    Expr::Number(s.to_string())
}

fn ident(s: &str) -> Expr {
    Expr::Identifier(s.to_string())
}

fn compile(stmts: Vec<Stmt>) -> Result<Vec<Chunk>, String> {
    Compiler::new().compile(&stmts)
}

#[test]
fn arithmetic_expression_program() {
    let prog = vec![Stmt::Expr(Expr::Binary {
        op: BinaryOp::Add,
        left: Box::new(num("1")),
        right: Box::new(Expr::Binary { op: BinaryOp::Mul, left: Box::new(num("2")), right: Box::new(num("3")) }),
    })];
    let chunks = compile(prog).unwrap();
    assert_eq!(chunks.len(), 1);
    assert_eq!(
        chunks[0].code,
        vec![OpCode::Constant(0), OpCode::Constant(1), OpCode::Constant(2), OpCode::Mul, OpCode::Add, OpCode::Return]
    );
    assert_eq!(
        chunks[0].constants,
        vec![Constant::Number("1".to_string()), Constant::Number("2".to_string()), Constant::Number("3".to_string())]
    );
}

#[test]
fn declarations_and_final_statement() {
    let prog = vec![
        Stmt::VarDecl { name: "x".to_string(), initializer: Some(num("5")) },
        Stmt::VarDecl { name: "y".to_string(), initializer: None },
        Stmt::Expr(ident("x")),
    ];
    let chunks = compile(prog).unwrap();
    assert_eq!(
        chunks[0].code,
        vec![
            OpCode::Constant(0),
            OpCode::DeclVar("x".to_string()),
            OpCode::Undefined,
            OpCode::DeclVar("y".to_string()),
            OpCode::GetVar("x".to_string()),
            OpCode::Return,
        ]
    );
}

#[test]
fn program_without_final_expression_returns_undefined() {
    assert_eq!(compile(vec![]).unwrap()[0].code, vec![OpCode::Undefined, OpCode::Return]);
    let prog = vec![Stmt::Expr(ident("a")), Stmt::Return(None)];
    assert_eq!(
        compile(prog).unwrap()[0].code,
        vec![OpCode::GetVar("a".to_string()), OpCode::Pop, OpCode::Undefined, OpCode::Return, OpCode::Undefined, OpCode::Return]
    );
}

#[test]
fn if_else_jumps() {
    let prog = vec![Stmt::If {
        condition: ident("c"),
        then_branch: Box::new(Stmt::Expr(num("1"))),
        else_branch: Some(Box::new(Stmt::Expr(num("2")))),
    }];
    let code = compile(prog).unwrap()[0].code.clone();
    assert_eq!(
        code,
        vec![
            OpCode::GetVar("c".to_string()),
            OpCode::JumpIfFalse(6),
            OpCode::Pop,
            OpCode::Constant(0),
            OpCode::Pop,
            OpCode::Jump(9),
            OpCode::Pop,
            OpCode::Constant(1),
            OpCode::Pop,
            OpCode::Undefined,
            OpCode::Return,
        ]
    );
}

#[test]
fn while_loop_jumps() {
    let prog = vec![Stmt::While { condition: ident("go"), body: Box::new(Stmt::Block(vec![Stmt::Expr(ident("f"))])) }];
    let code = compile(prog).unwrap()[0].code.clone();
    assert_eq!(
        code,
        vec![
            OpCode::GetVar("go".to_string()),
            OpCode::JumpIfFalse(6),
            OpCode::Pop,
            OpCode::GetVar("f".to_string()),
            OpCode::Pop,
            OpCode::Loop(0),
            OpCode::Pop,
            OpCode::Undefined,
            OpCode::Return,
        ]
    );
}

#[test]
fn for_loop_with_all_parts() {
    let prog = vec![Stmt::For {
        init: Some(Box::new(Stmt::VarDecl { name: "i".to_string(), initializer: Some(num("0")) })),
        condition: Some(Expr::Binary { op: BinaryOp::Less, left: Box::new(ident("i")), right: Box::new(num("3")) }),
        update: Some(Expr::Assign {
            target: "i".to_string(),
            value: Box::new(Expr::Binary { op: BinaryOp::Add, left: Box::new(ident("i")), right: Box::new(num("1")) }),
        }),
        body: Box::new(Stmt::Block(vec![])),
    }];
    let code = compile(prog).unwrap()[0].code.clone();
    assert_eq!(
        code,
        vec![
            OpCode::Constant(0),
            OpCode::DeclVar("i".to_string()),
            OpCode::GetVar("i".to_string()),
            OpCode::Constant(1),
            OpCode::Less,
            OpCode::JumpIfFalse(13),
            OpCode::Pop,
            OpCode::GetVar("i".to_string()),
            OpCode::Constant(2),
            OpCode::Add,
            OpCode::SetVar("i".to_string()),
            OpCode::Pop,
            OpCode::Loop(2),
            OpCode::Pop,
            OpCode::Undefined,
            OpCode::Return,
        ]
    );
    let forever = vec![Stmt::For { init: None, condition: None, update: None, body: Box::new(Stmt::Block(vec![])) }];
    assert_eq!(compile(forever).unwrap()[0].code, vec![OpCode::Loop(0), OpCode::Undefined, OpCode::Return]);
}

#[test]
fn short_circuit_operators() {
    let and = vec![Stmt::Expr(Expr::Binary { op: BinaryOp::And, left: Box::new(ident("a")), right: Box::new(ident("b")) })];
    assert_eq!(
        compile(and).unwrap()[0].code,
        vec![
            OpCode::GetVar("a".to_string()),
            OpCode::JumpIfFalse(4),
            OpCode::Pop,
            OpCode::GetVar("b".to_string()),
            OpCode::Return,
        ]
    );
    let or = vec![Stmt::Expr(Expr::Binary { op: BinaryOp::Or, left: Box::new(ident("a")), right: Box::new(ident("b")) })];
    assert_eq!(
        compile(or).unwrap()[0].code,
        vec![
            OpCode::GetVar("a".to_string()),
            OpCode::JumpIfFalse(3),
            OpCode::Jump(5),
            OpCode::Pop,
            OpCode::GetVar("b".to_string()),
            OpCode::Return,
        ]
    );
}

#[test]
fn conditional_unary_and_collections() {
    let e = Expr::Conditional {
        condition: Box::new(Expr::Unary { op: UnaryOp::Not, expr: Box::new(Expr::Boolean(true)) }),
        then_expr: Box::new(Expr::Array(vec![Expr::Null, Expr::Undefined])),
        else_expr: Box::new(Expr::Object(vec![("k".to_string(), Expr::String("v".to_string()))])),
    };
    let chunks = compile(vec![Stmt::Expr(e)]).unwrap();
    assert_eq!(
        chunks[0].code,
        vec![
            OpCode::True,
            OpCode::Not,
            OpCode::JumpIfFalse(8),
            OpCode::Pop,
            OpCode::Null,
            OpCode::Undefined,
            OpCode::CreateArray(2),
            OpCode::Jump(12),
            OpCode::Pop,
            OpCode::Constant(0),
            OpCode::Constant(1),
            OpCode::CreateObject(1),
            OpCode::Return,
        ]
    );
    assert_eq!(chunks[0].constants, vec![Constant::Str("k".to_string()), Constant::Str("v".to_string())]);
}

#[test]
fn functions_get_chunks_of_their_own() {
    let prog = vec![
        Stmt::FunctionDecl {
            name: "f".to_string(),
            params: vec!["a".to_string()],
            body: vec![Stmt::Return(Some(ident("a")))],
            is_async: false,
        },
        Stmt::Expr(Expr::Call { callee: Box::new(ident("f")), args: vec![num("7")] }),
    ];
    let chunks = compile(prog).unwrap();
    assert_eq!(chunks.len(), 2);
    assert_eq!(
        chunks[0].code,
        vec![
            OpCode::MakeClosure { chunk_index: 1, name: "f".to_string(), params: vec!["a".to_string()] },
            OpCode::DeclVar("f".to_string()),
            OpCode::GetVar("f".to_string()),
            OpCode::Constant(0),
            OpCode::Call(1),
            OpCode::Return,
        ]
    );
    assert_eq!(
        chunks[1].code,
        vec![OpCode::GetVar("a".to_string()), OpCode::Return, OpCode::Undefined, OpCode::Return]
    );
    let anon = vec![Stmt::Expr(Expr::FunctionExpr { name: None, params: vec![], body: vec![], is_async: false })];
    let chunks = compile(anon).unwrap();
    assert_eq!(
        chunks[0].code,
        vec![OpCode::MakeClosure { chunk_index: 1, name: String::new(), params: vec![] }, OpCode::Return]
    );
}

#[test]
fn classes_gather_constructor_and_methods() {
    let prog = vec![Stmt::ClassDecl {
        name: "P".to_string(),
        methods: vec![
            ClassMethod { name: "constructor".to_string(), params: vec!["x".to_string()], body: vec![] },
            ClassMethod { name: "get".to_string(), params: vec![], body: vec![Stmt::Return(Some(Expr::This))] },
        ],
    }];
    let chunks = compile(prog).unwrap();
    assert_eq!(chunks.len(), 3);
    assert_eq!(
        chunks[0].code[0],
        OpCode::MakeClass {
            name: "P".to_string(),
            constructor: Some((1, vec!["x".to_string()])),
            methods: vec![("get".to_string(), 2, vec![])],
        }
    );
    assert_eq!(chunks[0].code[1], OpCode::DeclVar("P".to_string()));
    assert_eq!(chunks[2].code[0], OpCode::GetVar("this".to_string()));
}

#[test]
fn try_catch_finally_and_throw() {
    let prog = vec![Stmt::TryCatch {
        try_block: Box::new(Stmt::Throw(num("1"))),
        catch_param: Some("e".to_string()),
        catch_block: Some(Box::new(Stmt::Block(vec![]))),
        finally_block: Some(Box::new(Stmt::Expr(ident("done")))),
    }];
    assert_eq!(
        compile(prog).unwrap()[0].code,
        vec![
            OpCode::PushTry { catch_ip: 5 },
            OpCode::Constant(0),
            OpCode::Throw,
            OpCode::PopTry,
            OpCode::Jump(6),
            OpCode::DeclVar("e".to_string()),
            OpCode::GetVar("done".to_string()),
            OpCode::Pop,
            OpCode::Undefined,
            OpCode::Return,
        ]
    );
}

#[test]
fn member_index_new_and_assignments() {
    let e = Expr::AssignIndex {
        object: Box::new(Expr::Member { object: Box::new(ident("o")), property: "p".to_string() }),
        index: Box::new(Expr::Index { object: Box::new(ident("a")), index: Box::new(num("0")) }),
        value: Box::new(Expr::New { callee: Box::new(ident("C")), args: vec![] }),
    };
    let prop = Expr::AssignProp { object: Box::new(ident("o")), property: "q".to_string(), value: Box::new(num("1")) };
    let chunks = compile(vec![Stmt::Expr(e), Stmt::Expr(prop)]).unwrap();
    assert_eq!(
        chunks[0].code,
        vec![
            OpCode::GetVar("o".to_string()),
            OpCode::GetProp("p".to_string()),
            OpCode::GetVar("a".to_string()),
            OpCode::Constant(0),
            OpCode::GetIndex,
            OpCode::GetVar("C".to_string()),
            OpCode::Construct(0),
            OpCode::SetIndex,
            OpCode::Pop,
            OpCode::GetVar("o".to_string()),
            OpCode::Constant(1),
            OpCode::SetProp("q".to_string()),
            OpCode::Return,
        ]
    );
}

#[test]
fn await_is_refused() {
    let prog = vec![Stmt::Expr(Expr::Await(Box::new(ident("p"))))];
    assert_eq!(compile(prog).err(), Some("await is not supported by the bytecode compiler".to_string()));
}

#[test]
fn await_inside_a_nested_function_body_is_refused_and_nothing_else_is() {
    let make = |inner: Expr| {
        vec![
            Stmt::FunctionDecl {
                name: "f".to_string(),
                params: vec![],
                body: vec![Stmt::If {
                    condition: ident("c"),
                    then_branch: Box::new(Stmt::Return(Some(Expr::Call {
                        callee: Box::new(ident("g")),
                        args: vec![inner],
                    }))),
                    else_branch: None,
                }],
                is_async: true,
            },
            Stmt::Expr(ident("f")),
        ]
    };
    let refused = compile(make(Expr::Await(Box::new(ident("p")))));
    assert_eq!(refused.err(), Some("await is not supported by the bytecode compiler".to_string()));
    let accepted = compile(make(ident("p")));
    assert_eq!(accepted.map(|chunks| chunks.len()), Ok(2));
}
