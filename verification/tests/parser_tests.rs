use wavecore::js::ast::{BinaryOp, ClassMethod, Expr, Stmt, UnaryOp};
use wavecore::js::bytecode::{Compiler, Constant, OpCode};
use wavecore::js::lexer::Lexer;
use wavecore::js::parser::Parser;

fn parse(src: &str) -> Result<Vec<Stmt>, String> {
    let tokens = Lexer::new(src).tokenize().unwrap();
    Parser::new(tokens).parse()
}

fn num(s: &str) -> Expr {
    Expr::Number(s.to_string())
}

fn id(s: &str) -> Expr {
    Expr::Identifier(s.to_string())
}

fn bin(op: BinaryOp, l: Expr, r: Expr) -> Expr {
    Expr::Binary { op, left: Box::new(l), right: Box::new(r) }
}

fn var(name: &str, e: Expr) -> Stmt {
    Stmt::VarDecl { name: name.to_string(), initializer: Some(e) }
}

#[test]
fn declarations_and_precedence() {
    let stmts = parse("let a = 10; let b = 20; let c = a + b * 2; c;").unwrap();
    assert_eq!(
        stmts,
        vec![
            var("a", num("10")),
            var("b", num("20")),
            var("c", bin(BinaryOp::Add, id("a"), bin(BinaryOp::Mul, id("b"), num("2")))),
            Stmt::Expr(id("c")),
        ]
    );
}

#[test]
fn binary_operators_associate_to_the_left() {
    let stmts = parse("1 - 2 - 3").unwrap();
    assert_eq!(stmts, vec![Stmt::Expr(bin(BinaryOp::Sub, bin(BinaryOp::Sub, num("1"), num("2")), num("3")))]);
    let stmts = parse("a || b && c == d < e").unwrap();
    assert_eq!(
        stmts,
        vec![Stmt::Expr(bin(
            BinaryOp::Or,
            id("a"),
            bin(BinaryOp::And, id("b"), bin(BinaryOp::Equal, id("c"), bin(BinaryOp::Less, id("d"), id("e")))),
        ))]
    );
}

#[test]
fn assignments_and_compound_assignments() {
    let stmts = parse("x = y = 1; x += 2; o.p -= 3; a[0] *= 4;").unwrap();
    assert_eq!(
        stmts[0],
        Stmt::Expr(Expr::Assign {
            target: "x".to_string(),
            value: Box::new(Expr::Assign { target: "y".to_string(), value: Box::new(num("1")) }),
        })
    );
    assert_eq!(
        stmts[1],
        Stmt::Expr(Expr::Assign { target: "x".to_string(), value: Box::new(bin(BinaryOp::Add, id("x"), num("2"))) })
    );
    let member = Expr::Member { object: Box::new(id("o")), property: "p".to_string() };
    assert_eq!(
        stmts[2],
        Stmt::Expr(Expr::AssignProp {
            object: Box::new(id("o")),
            property: "p".to_string(),
            value: Box::new(bin(BinaryOp::Sub, member, num("3"))),
        })
    );
    let index = Expr::Index { object: Box::new(id("a")), index: Box::new(num("0")) };
    assert_eq!(
        stmts[3],
        Stmt::Expr(Expr::AssignIndex {
            object: Box::new(id("a")),
            index: Box::new(num("0")),
            value: Box::new(bin(BinaryOp::Mul, index, num("4"))),
        })
    );
}

#[test]
fn calls_members_new_and_prefix_operators() {
    let stmts = parse("f(1, 2).g[h]; new Foo(1); new Bar; !-typeof await x;").unwrap();
    let call = Expr::Call { callee: Box::new(id("f")), args: vec![num("1"), num("2")] };
    let member = Expr::Member { object: Box::new(call), property: "g".to_string() };
    assert_eq!(stmts[0], Stmt::Expr(Expr::Index { object: Box::new(member), index: Box::new(id("h")) }));
    assert_eq!(stmts[1], Stmt::Expr(Expr::New { callee: Box::new(id("Foo")), args: vec![num("1")] }));
    assert_eq!(stmts[2], Stmt::Expr(Expr::New { callee: Box::new(id("Bar")), args: vec![] }));
    let inner = Expr::Unary { op: UnaryOp::TypeOf, expr: Box::new(Expr::Await(Box::new(id("x")))) };
    let neg = Expr::Unary { op: UnaryOp::Negate, expr: Box::new(inner) };
    assert_eq!(stmts[3], Stmt::Expr(Expr::Unary { op: UnaryOp::Not, expr: Box::new(neg) }));
}

#[test]
fn literals_arrays_objects_and_conditionals() {
    let stmts = parse("x = [true, null, \"s\", this]; y = {a: 1, \"b\": undefined}; z = c ? 1 : 2; w = [];").unwrap();
    assert_eq!(
        stmts[0],
        Stmt::Expr(Expr::Assign {
            target: "x".to_string(),
            value: Box::new(Expr::Array(vec![Expr::Boolean(true), Expr::Null, Expr::String("s".to_string()), Expr::This])),
        })
    );
    assert_eq!(
        stmts[1],
        Stmt::Expr(Expr::Assign {
            target: "y".to_string(),
            value: Box::new(Expr::Object(vec![("a".to_string(), num("1")), ("b".to_string(), Expr::Undefined)])),
        })
    );
    assert_eq!(
        stmts[2],
        Stmt::Expr(Expr::Assign {
            target: "z".to_string(),
            value: Box::new(Expr::Conditional {
                condition: Box::new(id("c")),
                then_expr: Box::new(num("1")),
                else_expr: Box::new(num("2")),
            }),
        })
    );
    assert_eq!(stmts[3], Stmt::Expr(Expr::Assign { target: "w".to_string(), value: Box::new(Expr::Array(vec![])) }));
}

#[test]
fn functions_and_classes() {
    let stmts = parse(
        "async function f(a, b) { return a; } let g = function(x) { return; }; class C { m(y) { y; } n() {} }",
    )
    .unwrap();
    assert_eq!(
        stmts[0],
        Stmt::FunctionDecl {
            name: "f".to_string(),
            params: vec!["a".to_string(), "b".to_string()],
            body: vec![Stmt::Return(Some(id("a")))],
            is_async: true,
        }
    );
    assert_eq!(
        stmts[1],
        var(
            "g",
            Expr::FunctionExpr {
                name: None,
                params: vec!["x".to_string()],
                body: vec![Stmt::Return(None)],
                is_async: false,
            }
        )
    );
    assert_eq!(
        stmts[2],
        Stmt::ClassDecl {
            name: "C".to_string(),
            methods: vec![
                ClassMethod { name: "m".to_string(), params: vec!["y".to_string()], body: vec![Stmt::Expr(id("y"))] },
                ClassMethod { name: "n".to_string(), params: vec![], body: vec![] },
            ],
        }
    );
}

#[test]
fn control_flow_statements() {
    let stmts = parse(
        "if (a) b; else { c; } while (d) e; for (let i = 0; i < 3; i += 1) f(i); for (;;) {} \
         try { g; } catch (err) { h; } finally { k; } try { m; } finally {} throw n;",
    )
    .unwrap();
    assert_eq!(
        stmts[0],
        Stmt::If {
            condition: id("a"),
            then_branch: Box::new(Stmt::Expr(id("b"))),
            else_branch: Some(Box::new(Stmt::Block(vec![Stmt::Expr(id("c"))]))),
        }
    );
    assert_eq!(stmts[1], Stmt::While { condition: id("d"), body: Box::new(Stmt::Expr(id("e"))) });
    assert_eq!(
        stmts[2],
        Stmt::For {
            init: Some(Box::new(var("i", num("0")))),
            condition: Some(bin(BinaryOp::Less, id("i"), num("3"))),
            update: Some(Expr::Assign { target: "i".to_string(), value: Box::new(bin(BinaryOp::Add, id("i"), num("1"))) }),
            body: Box::new(Stmt::Expr(Expr::Call { callee: Box::new(id("f")), args: vec![id("i")] })),
        }
    );
    assert_eq!(stmts[3], Stmt::For { init: None, condition: None, update: None, body: Box::new(Stmt::Block(vec![])) });
    assert_eq!(
        stmts[4],
        Stmt::TryCatch {
            try_block: Box::new(Stmt::Block(vec![Stmt::Expr(id("g"))])),
            catch_param: Some("err".to_string()),
            catch_block: Some(Box::new(Stmt::Block(vec![Stmt::Expr(id("h"))]))),
            finally_block: Some(Box::new(Stmt::Block(vec![Stmt::Expr(id("k"))]))),
        }
    );
    assert_eq!(
        stmts[5],
        Stmt::TryCatch {
            try_block: Box::new(Stmt::Block(vec![Stmt::Expr(id("m"))])),
            catch_param: None,
            catch_block: None,
            finally_block: Some(Box::new(Stmt::Block(vec![]))),
        }
    );
    assert_eq!(stmts[6], Stmt::Throw(id("n")));
}

#[test]
fn parse_errors_name_the_problem_and_the_line() {
    assert_eq!(parse("1 = 2;"), Err("Invalid assignment target at line 1".to_string()));
    assert_eq!(parse("1 += 2;"), Err("Invalid compound assignment target".to_string()));
    assert_eq!(parse("let\n5;"), Err("Expected variable name at line 2".to_string()));
    assert_eq!(parse("(1;"), Err("Expected ')' after expression at line 1".to_string()));
    assert_eq!(parse("try { x; }"), Err("Missing catch or finally clause after try".to_string()));
    assert_eq!(parse("+;"), Err("Unexpected token Plus at line 1".to_string()));
    assert_eq!(parse("if x"), Err("Expected '(' after 'if' at line 1".to_string()));
    assert_eq!(parse("function (a) {}"), Err("Expected function name at line 1".to_string()));
    assert_eq!(parse("class K { 5() {} }"), Err("Expected method name in class 'K' at line 1".to_string()));
    assert_eq!(parse("{ a;"), Err("Expected '}' after block at line 1".to_string()));
    assert_eq!(parse("o.;"), Err("Expected property name after '.' at line 1".to_string()));
    assert_eq!(parse("x = {1: 2};"), Err("Expected property key in object literal at line 1".to_string()));
}

#[test]
fn empty_program_and_single_expression() {
    assert_eq!(parse(""), Ok(vec![]));
    let tokens = Lexer::new("a * (b + c)").tokenize().unwrap();
    let mut parser = Parser::new(tokens);
    assert_eq!(
        parser.expression(),
        Ok(bin(BinaryOp::Mul, id("a"), bin(BinaryOp::Add, id("b"), id("c"))))
    );
}

#[test]
fn source_text_through_lexer_parser_and_compiler() {
    let program = parse("1 + 2 * 3").unwrap();
    let chunks = Compiler::new().compile(&program).unwrap();
    assert_eq!(
        chunks[0].code,
        vec![OpCode::Constant(0), OpCode::Constant(1), OpCode::Constant(2), OpCode::Mul, OpCode::Add, OpCode::Return]
    );
    assert_eq!(
        chunks[0].constants,
        vec![Constant::Number("1".to_string()), Constant::Number("2".to_string()), Constant::Number("3".to_string())]
    );
}

#[test]
fn checked_parse_reports_inputs_that_would_never_finish() {
    let tokens = Lexer::new("f(").tokenize().unwrap();
    assert_eq!(Parser::new(tokens).parse_checked(), None);
    let tokens = Lexer::new("function f(").tokenize().unwrap();
    assert_eq!(Parser::new(tokens).parse_checked(), Some(Err("Expected parameter name at line 1".to_string())));
    let tokens = Lexer::new("let x = 1;").tokenize().unwrap();
    assert_eq!(
        Parser::new(tokens).parse_checked(),
        Some(Ok(vec![Stmt::VarDecl { name: "x".to_string(), initializer: Some(num("1")) }]))
    );
    let tokens = Lexer::new("(").tokenize().unwrap();
    assert_eq!(Parser::new(tokens).expression_checked(), None);
}
