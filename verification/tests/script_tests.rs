use wavecore::js::ast::{BinaryOp, UnaryOp};
use wavecore::js::bytecode::OpCode;
use wavecore::js::lexer::{newline_ends_names, Lexer, Token, TokenKind};
use wavecore::js::value::{TypedArrayKind, TypedArrayValue};

fn kinds(src: &str) -> Vec<TokenKind> {
    Lexer::new(src).tokenize().unwrap().into_iter().map(|t| t.kind).collect()
}

#[test]
fn lexes_declarations_operators_and_literals() {
    assert_eq!(
        kinds("let x = 42.5 + y_1;"),
        vec![
            TokenKind::Let,
            TokenKind::Identifier("x".to_string()),
            TokenKind::Equal,
            TokenKind::Number("42.5".to_string()),
            TokenKind::Plus,
            TokenKind::Identifier("y_1".to_string()),
            TokenKind::Semicolon,
            TokenKind::Eof,
        ]
    );
}

#[test]
fn lexes_multi_character_operators() {
    assert_eq!(
        kinds("a === b !== c == d != e <= f >= g && h || !i += -= *= /= % < >"),
        vec![
            TokenKind::Identifier("a".to_string()),
            TokenKind::EqualEqualEqual,
            TokenKind::Identifier("b".to_string()),
            TokenKind::NotEqualEqual,
            TokenKind::Identifier("c".to_string()),
            TokenKind::EqualEqual,
            TokenKind::Identifier("d".to_string()),
            TokenKind::NotEqual,
            TokenKind::Identifier("e".to_string()),
            TokenKind::LessEqual,
            TokenKind::Identifier("f".to_string()),
            TokenKind::GreaterEqual,
            TokenKind::Identifier("g".to_string()),
            TokenKind::AndAnd,
            TokenKind::Identifier("h".to_string()),
            TokenKind::OrOr,
            TokenKind::Bang,
            TokenKind::Identifier("i".to_string()),
            TokenKind::PlusEqual,
            TokenKind::MinusEqual,
            TokenKind::StarEqual,
            TokenKind::SlashEqual,
            TokenKind::Percent,
            TokenKind::Less,
            TokenKind::Greater,
            TokenKind::Eof,
        ]
    );
}

#[test]
fn lexes_keywords_and_punctuation() {
    assert_eq!(
        kinds("async function f(a, b) { return typeof a instanceof B ? this.c : [null]; }"),
        vec![
            TokenKind::Async,
            TokenKind::Function,
            TokenKind::Identifier("f".to_string()),
            TokenKind::LeftParen,
            TokenKind::Identifier("a".to_string()),
            TokenKind::Comma,
            TokenKind::Identifier("b".to_string()),
            TokenKind::RightParen,
            TokenKind::LeftBrace,
            TokenKind::Return,
            TokenKind::TypeOf,
            TokenKind::Identifier("a".to_string()),
            TokenKind::InstanceOf,
            TokenKind::Identifier("B".to_string()),
            TokenKind::Question,
            TokenKind::This,
            TokenKind::Dot,
            TokenKind::Identifier("c".to_string()),
            TokenKind::Colon,
            TokenKind::LeftBracket,
            TokenKind::Null,
            TokenKind::RightBracket,
            TokenKind::Semicolon,
            TokenKind::RightBrace,
            TokenKind::Eof,
        ]
    );
}

#[test]
fn strings_escapes_and_lines() {
    let toks = Lexer::new("'a\\n\\\"b'\n\"two\nlines\" `t` x").tokenize().unwrap();
    assert_eq!(toks[0], Token { kind: TokenKind::String("a\n\"b".to_string()), line: 1 });
    assert_eq!(toks[1], Token { kind: TokenKind::String("two\nlines".to_string()), line: 2 });
    assert_eq!(toks[2], Token { kind: TokenKind::String("t".to_string()), line: 3 });
    assert_eq!(toks[3], Token { kind: TokenKind::Identifier("x".to_string()), line: 3 });
    assert_eq!(toks[4], Token { kind: TokenKind::Eof, line: 3 });
}

#[test]
fn comments_are_skipped_and_lines_counted() {
    let toks = Lexer::new("// one\n/* two\nthree */ a /**/ 1. // tail").tokenize().unwrap();
    assert_eq!(toks[0], Token { kind: TokenKind::Identifier("a".to_string()), line: 3 });
    assert_eq!(toks[1], Token { kind: TokenKind::Number("1".to_string()), line: 3 });
    assert_eq!(toks[2], Token { kind: TokenKind::Dot, line: 3 });
    assert_eq!(toks[3], Token { kind: TokenKind::Eof, line: 3 });
}

#[test]
fn names_may_use_unicode_letters_and_dollars() {
    assert_eq!(
        kinds("$é_1 ไทย"),
        vec![TokenKind::Identifier("$é_1".to_string()), TokenKind::Identifier("ไทย".to_string()), TokenKind::Eof]
    );
}

#[test]
fn lexer_errors() {
    assert_eq!(Lexer::new("a & b").tokenize(), Err("Unexpected single '&' at line 1".to_string()));
    assert_eq!(Lexer::new("\n\na | b").tokenize(), Err("Unexpected single '|' at line 3".to_string()));
    assert_eq!(Lexer::new("x\n@").tokenize(), Err("Unexpected character '@' at line 2".to_string()));
    assert_eq!(Lexer::new("'abc\ndef").tokenize(), Err("Unterminated string at line 2".to_string()));
    assert_eq!(Lexer::new("").tokenize(), Ok(vec![Token { kind: TokenKind::Eof, line: 1 }]));
}

#[test]
fn typed_array_kinds() {
    assert_eq!(TypedArrayKind::Float32.bytes_per_element(), 4);
    assert_eq!(TypedArrayKind::Uint32.bytes_per_element(), 4);
    assert_eq!(TypedArrayKind::Uint16.bytes_per_element(), 2);
    assert_eq!(TypedArrayKind::Uint8.bytes_per_element(), 1);
    assert_eq!(TypedArrayKind::Float32.name(), "Float32Array");
    assert_eq!(TypedArrayKind::Uint8.name(), "Uint8Array");
    assert_eq!(TypedArrayKind::Uint16.name(), "Uint16Array");
    assert_eq!(TypedArrayKind::Uint32.name(), "Uint32Array");
}

#[test]
fn typed_array_new_and_byte_length() {
    let (t, buffer) = TypedArrayValue::new(TypedArrayKind::Uint16, 5);
    assert_eq!(buffer, vec![0u8; 10]);
    assert_eq!(t.byte_offset, 0);
    assert_eq!(t.length, 5);
    assert_eq!(t.byte_length(), 10);
    let big = TypedArrayValue { kind: TypedArrayKind::Uint32, byte_offset: 0, length: usize::MAX };
    assert_eq!(big.byte_length(), usize::MAX);
}

#[test]
fn typed_array_from_buffer_checks() {
    let buffer = vec![0u8; 10];
    let t = TypedArrayValue::from_buffer(&buffer, TypedArrayKind::Uint16, 2, None).unwrap();
    assert_eq!(t.length, 4);
    assert_eq!(t.byte_offset, 2);
    let t = TypedArrayValue::from_buffer(&buffer, TypedArrayKind::Uint32, 4, Some(1)).unwrap();
    assert_eq!(t.length, 1);
    assert_eq!(
        TypedArrayValue::from_buffer(&buffer, TypedArrayKind::Uint32, 2, None).err(),
        Some("RangeError: typed array byteOffset must align to element size".to_string())
    );
    assert_eq!(
        TypedArrayValue::from_buffer(&buffer, TypedArrayKind::Uint8, 11, None).err(),
        Some("RangeError: typed array byteOffset exceeds ArrayBuffer".to_string())
    );
    assert_eq!(
        TypedArrayValue::from_buffer(&buffer, TypedArrayKind::Uint16, 0, Some(6)).err(),
        Some("RangeError: typed array length exceeds ArrayBuffer".to_string())
    );
}

#[test]
fn typed_array_reads_back_what_was_written() {
    let mut buffer = vec![0u8; 12];
    let t = TypedArrayValue::from_buffer(&buffer, TypedArrayKind::Uint32, 4, None).unwrap();
    t.set_raw(&mut buffer, 1, 0xDEADBEEF);
    assert_eq!(t.get_raw(&buffer, 1), Some(0xDEADBEEF));
    assert_eq!(t.get_raw(&buffer, 0), Some(0));
    assert_eq!(buffer, vec![0, 0, 0, 0, 0, 0, 0, 0, 0xEF, 0xBE, 0xAD, 0xDE]);
    assert_eq!(t.get_raw(&buffer, 2), None);
    t.set_raw(&mut buffer, 2, 7);
    assert_eq!(buffer[8..12], [0xEF, 0xBE, 0xAD, 0xDE]);

    let (u, mut ub) = TypedArrayValue::new(TypedArrayKind::Uint8, 2);
    u.set_raw(&mut ub, 0, 300);
    assert_eq!(u.get_raw(&ub, 0), Some(44));
    let (w, mut wb) = TypedArrayValue::new(TypedArrayKind::Uint16, 2);
    w.set_raw(&mut wb, 1, 0x12345);
    assert_eq!(w.get_raw(&wb, 1), Some(0x2345));
    assert_eq!(wb, vec![0, 0, 0x45, 0x23]);
    let (f, mut fb) = TypedArrayValue::new(TypedArrayKind::Float32, 1);
    f.set_raw(&mut fb, 0, 1.5f32.to_bits());
    assert_eq!(f32::from_bits(f.get_raw(&fb, 0).unwrap()), 1.5);
}

#[test]
fn arraybuffer_typed_arrays_share_real_backing_store() {
    let mut buffer = vec![0u8; 8];
    let bytes = TypedArrayValue::from_buffer(&buffer, TypedArrayKind::Uint8, 0, None).unwrap();
    bytes.set_raw(&mut buffer, 0, 255);
    bytes.set_raw(&mut buffer, 1, 1);
    let words = TypedArrayValue::from_buffer(&buffer, TypedArrayKind::Uint16, 0, None).unwrap();
    let view = TypedArrayValue::from_buffer(&buffer, TypedArrayKind::Uint8, 0, Some(2)).unwrap();
    view.set_raw(&mut buffer, 1, 2);
    assert_eq!(words.get_raw(&buffer, 0), Some(767));
    assert_eq!(bytes.get_raw(&buffer, 1), Some(2));
    let total = buffer.len() + bytes.byte_length() + words.length + words.get_raw(&buffer, 0).unwrap() as usize;
    assert_eq!(total, 787);
    assert_eq!(words.length, 4);
    assert_eq!(words.get_raw(&buffer, 4), None);
}

#[test]
fn syntax_and_instruction_values() {
    assert_eq!(BinaryOp::Add.clone(), BinaryOp::Add);
    assert_ne!(UnaryOp::Not, UnaryOp::Negate);
    let op = OpCode::MakeClosure { chunk_index: 1, name: "f".to_string(), params: vec!["a".to_string()] };
    assert_eq!(op.clone(), op);
    assert_ne!(OpCode::Jump(1), OpCode::Jump(2));
}

#[test]
fn last_token_line_counts_the_newlines() {
    let src = "let a = 1;\n// note\n/* two\nlines */ let s = \"x\ny\";\n\n";
    let tokens = Lexer::new(src).tokenize().unwrap();
    let last = tokens.last().unwrap();
    assert_eq!(last.kind, TokenKind::Eof);
    assert_eq!(last.line, 1 + src.matches('\n').count());
}

#[test]
fn newline_count_holds_past_a_backslash_in_a_comment() {
    assert!(newline_ends_names());
    let src = "// a\\\nlet b = 'c\\n';\n";
    let tokens = Lexer::new(src).tokenize().unwrap();
    assert_eq!(tokens.last().unwrap().line, 1 + src.matches('\n').count());
    let escaped = "let s = 'a\\\nb';";
    let tokens = Lexer::new(escaped).tokenize().unwrap();
    assert_eq!(tokens.last().unwrap().line, 1);
}
