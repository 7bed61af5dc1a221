use lua_rs::lex::ScanError;
use lua_rs::parse::{ParseError, ParseProto};
use lua_rs::token::Token;
use lua_rs::{ByteCode, Value};

fn compile(src: &str) -> Result<ParseProto, ParseError> {
    ParseProto::load(src.as_bytes().to_vec())
}

fn s(text: &str) -> Value {
    Value::String(text.as_bytes().to_vec())
}

#[test]
fn print_hello_compiles_to_load_load_call() {
    let p = compile("print(\"hello\")").unwrap();
    assert_eq!(p.constants, vec![s("print"), s("hello")]);
    assert_eq!(
        p.byte_codes,
        vec![ByteCode::GetGlobal(0, 0), ByteCode::LocalConst(1, 1), ByteCode::Call(0, 1)]
    );
}

#[test]
fn call_with_string_argument_without_parentheses() {
    let p = compile("print 'hi'").unwrap();
    assert_eq!(p.constants, vec![s("print"), s("hi")]);
    assert_eq!(
        p.byte_codes,
        vec![ByteCode::GetGlobal(0, 0), ByteCode::LocalConst(1, 1), ByteCode::Call(0, 1)]
    );
}

#[test]
fn call_argument_without_parenthesis_is_a_syntax_error() {
    assert!(matches!(compile("foo 5"), Err(ParseError::Syntax(Token::Integer(5)))));
}

#[test]
fn repeated_literals_share_one_constant() {
    let p = compile("a = \"s\"\nb = \"s\"").unwrap();
    assert_eq!(p.constants, vec![s("a"), s("s"), s("b")]);
    assert_eq!(
        p.byte_codes,
        vec![ByteCode::SetGlobalConst(0, 1), ByteCode::SetGlobalConst(2, 1)]
    );
    let q = compile("a = 70000 b = 70000 c = 1.5 d = 1.5").unwrap();
    assert_eq!(
        q.constants,
        vec![s("a"), Value::Integer(70000), s("b"), s("c"), Value::Float(b"1.5".to_vec()), s("d")]
    );
}

#[test]
fn repeated_global_names_share_one_constant() {
    let p = compile("print(1) print(2)").unwrap();
    assert_eq!(p.constants, vec![s("print")]);
    assert_eq!(
        p.byte_codes,
        vec![
            ByteCode::GetGlobal(0, 0), ByteCode::LoadInt(1, 1), ByteCode::Call(0, 1),
            ByteCode::GetGlobal(0, 0), ByteCode::LoadInt(1, 2), ByteCode::Call(0, 1),
        ]
    );
}

#[test]
fn shadowing_local_gets_a_new_slot() {
    let p = compile("local x = 1\nlocal x = 2\nprint(x)").unwrap();
    assert_eq!(p.locals, vec![b"x".to_vec(), b"x".to_vec()]);
    assert_eq!(
        p.byte_codes,
        vec![
            ByteCode::LoadInt(0, 1), ByteCode::LoadInt(1, 2),
            ByteCode::GetGlobal(2, 0), ByteCode::Move(3, 1), ByteCode::Call(2, 1),
        ]
    );
}

#[test]
fn assignment_to_a_local_reuses_its_slot() {
    let p = compile("local x = 1 x = true").unwrap();
    assert_eq!(p.byte_codes, vec![ByteCode::LoadInt(0, 1), ByteCode::LoadBool(0, true)]);
    assert_eq!(p.locals, vec![b"x".to_vec()]);
}

#[test]
fn expression_kinds() {
    let p = compile("local a = nil local b = false local c = 0 local d = 32767 local e = 32768 local f = 'z' local g = a").unwrap();
    assert!(p.byte_codes.len() == 7);
    assert_eq!(p.byte_codes[0], ByteCode::LoadNil(0));
    assert_eq!(p.byte_codes[1], ByteCode::LoadBool(1, false));
    assert_eq!(p.byte_codes[2], ByteCode::LoadInt(2, 0));
    assert_eq!(p.byte_codes[3], ByteCode::LoadInt(3, 32767));
    assert_eq!(p.byte_codes[4], ByteCode::LocalConst(4, 0));
    assert_eq!(p.byte_codes[5], ByteCode::LocalConst(5, 1));
    assert_eq!(p.byte_codes[6], ByteCode::Move(6, 0));
    assert_eq!(p.constants, vec![Value::Integer(32768), s("z")]);
}

#[test]
fn global_assignment_sources() {
    let p = compile("local l = 1 g = l h = g k = nil").unwrap();
    assert_eq!(p.constants, vec![s("g"), s("h"), s("k"), Value::Nil]);
    assert_eq!(
        p.byte_codes,
        vec![
            ByteCode::LoadInt(0, 1), ByteCode::SetGlobal(0, 0),
            ByteCode::SetGlobalGlobal(1, 0), ByteCode::SetGlobalConst(2, 3),
        ]
    );
}

#[test]
fn syntax_errors_name_the_token() {
    assert!(matches!(compile("local 5"), Err(ParseError::Syntax(Token::Integer(5)))));
    assert!(matches!(compile("local x 5"), Err(ParseError::Syntax(Token::Integer(5)))));
    assert!(matches!(compile("print(1"), Err(ParseError::Syntax(Token::EOF))));
    assert!(matches!(compile("x = +"), Err(ParseError::Syntax(Token::Add))));
    assert!(matches!(compile("return"), Err(ParseError::Syntax(Token::Return))));
}

#[test]
fn scan_errors_stop_compiling() {
    assert!(matches!(compile("x = \"abc"), Err(ParseError::Scan(ScanError::UnfinishedString))));
    assert!(matches!(compile("x = @"), Err(ParseError::Scan(ScanError::InvalidChar(b'@')))));
}

#[test]
fn empty_source_compiles_to_nothing() {
    let p = compile("  -- only a comment\n").unwrap();
    assert!(p.byte_codes.is_empty());
    assert!(p.constants.is_empty());
}

#[test]
fn too_many_constants() {
    let mut src = String::new();
    for i in 0..300 {
        src.push_str(&format!("g{} = 1\n", i));
    }
    assert!(matches!(compile(&src), Err(ParseError::TooManyConstants)));
}

#[test]
fn too_many_slots() {
    let mut src = String::new();
    for _ in 0..255 {
        src.push_str("local x = 1\n");
    }
    src.push_str("print(x)\n");
    assert!(matches!(compile(&src), Err(ParseError::TooManySlots)));
}

#[test]
fn call_without_argument_still_counts_one() {
    let p = compile("print()\n").unwrap();
    assert_eq!(p.constants, vec![s("print")]);
    assert_eq!(p.byte_codes, vec![ByteCode::GetGlobal(0, 0), ByteCode::Call(0, 1)]);
    assert!(matches!(compile("print(,"), Err(ParseError::Syntax(Token::Comma))));
    assert!(matches!(compile("print(x y)"), Err(ParseError::Syntax(Token::Name(_)))));
}

#[test]
fn add_const_reuses_equal_constants() {
    let mut p = compile("").unwrap();
    assert_eq!(p.add_const(s("a")), 0);
    assert_eq!(p.add_const(Value::Integer(1)), 1);
    assert_eq!(p.add_const(s("a")), 0);
    assert_eq!(p.add_const(Value::Float(b"1.0".to_vec())), 2);
    assert_eq!(p.add_const(Value::Integer(1)), 1);
    assert_eq!(p.constants, vec![s("a"), Value::Integer(1), Value::Float(b"1.0".to_vec())]);
}

#[test]
fn get_local_finds_the_latest_declaration() {
    let p = compile("local x = 1 local y = 2 local x = 3").unwrap();
    assert_eq!(p.get_local(&b"x".to_vec()), Some(2));
    assert_eq!(p.get_local(&b"y".to_vec()), Some(1));
    assert_eq!(p.get_local(&b"z".to_vec()), None);
}
