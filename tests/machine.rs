use lua_rs::parse::ParseProto;
use lua_rs::value::Native;
use lua_rs::vm::{lib_print, ExeState, ExecError};
use lua_rs::{ByteCode, Value};

fn run(src: &str) -> (ExeState, Vec<Value>, Result<(), ExecError>) {
    let proto = ParseProto::load(src.as_bytes().to_vec()).unwrap();
    let mut state = ExeState::new();
    let mut out = Vec::new();
    let r = state.execute(&proto, &mut out);
    (state, out, r)
}

fn slot0(src: &str) -> Option<Value> {
    let (state, _, r) = run(src);
    assert_eq!(r, Ok(()));
    assert_eq!(state.stack_len(), 1);
    state.stack_value(0)
}

#[test]
fn literals_round_trip_through_slot_zero() {
    assert_eq!(slot0("local x = nil"), Some(Value::Nil));
    assert_eq!(slot0("local x = true"), Some(Value::Boolean(true)));
    assert_eq!(slot0("local x = false"), Some(Value::Boolean(false)));
    assert_eq!(slot0("local x = 12"), Some(Value::Integer(12)));
    assert_eq!(slot0("local x = 1234567"), Some(Value::Integer(1234567)));
    assert_eq!(slot0("local x = 0.25"), Some(Value::Float(b"0.25".to_vec())));
    assert_eq!(slot0("local x = 'str'"), Some(Value::String(b"str".to_vec())));
}

#[test]
fn print_hello_prints_hello() {
    let (_, out, r) = run("print(\"hello\")");
    assert_eq!(r, Ok(()));
    assert_eq!(out, vec![Value::String(b"hello".to_vec())]);
}

#[test]
fn global_round_trip() {
    let (state, out, r) = run("x = 5\nprint(x)");
    assert_eq!(r, Ok(()));
    assert_eq!(out, vec![Value::Integer(5)]);
    assert_eq!(state.get_global(&b"x".to_vec()), Value::Integer(5));
}

#[test]
fn undefined_global_reads_as_nil() {
    let (_, out, r) = run("print(nothing)");
    assert_eq!(r, Ok(()));
    assert_eq!(out, vec![Value::Nil]);
}

#[test]
fn shadowed_local_reads_latest() {
    let (_, out, r) = run("local x = 1\nlocal x = 2\nprint(x)");
    assert_eq!(r, Ok(()));
    assert_eq!(out, vec![Value::Integer(2)]);
}

#[test]
fn globals_copy_between_each_other_and_from_locals() {
    let (state, out, r) = run("local l = 'v' g = l h = g g = 3 print(h) print(g)");
    assert_eq!(r, Ok(()));
    assert_eq!(out, vec![Value::String(b"v".to_vec()), Value::Integer(3)]);
    assert_eq!(state.get_global(&b"h".to_vec()), Value::String(b"v".to_vec()));
}

#[test]
fn print_can_be_rebound_and_called_through_a_local() {
    let (_, out, r) = run("local p = print p(7) show = print show(8)");
    assert_eq!(r, Ok(()));
    assert_eq!(out, vec![Value::Integer(7), Value::Integer(8)]);
}

#[test]
fn calling_a_non_function_fails_after_earlier_output() {
    let (_, out, r) = run("print(1) x = 1 x(2) print(3)");
    assert_eq!(r, Err(ExecError::NotCallable));
    assert_eq!(out, vec![Value::Integer(1)]);
}

#[test]
fn writing_past_the_top_of_the_stack_fails() {
    let mut state = ExeState::new();
    assert_eq!(state.set_stack(1, Value::Nil), Err(ExecError::StackGap));
    assert_eq!(state.set_stack(0, Value::Nil), Ok(()));
    assert_eq!(state.set_stack(0, Value::Integer(4)), Ok(()));
    assert_eq!(state.stack_value(0), Some(Value::Integer(4)));
    assert_eq!(state.stack_len(), 1);
}

#[test]
fn print_reads_the_slot_above_the_function() {
    let mut state = ExeState::new();
    assert_eq!(lib_print(&state), Err(ExecError::BadSlot));
    state.set_stack(0, Value::Function(Native::Print)).unwrap();
    state.set_stack(1, Value::Boolean(true)).unwrap();
    assert_eq!(lib_print(&state), Ok(Value::Boolean(true)));
}

#[test]
fn bad_operands_are_reported() {
    let mut proto = ParseProto::load(Vec::new()).unwrap();
    proto.byte_codes.push(ByteCode::LocalConst(0, 3));
    let mut out = Vec::new();
    assert_eq!(ExeState::new().execute(&proto, &mut out), Err(ExecError::BadConstant));

    let mut proto = ParseProto::load(Vec::new()).unwrap();
    proto.constants.push(Value::Integer(1));
    proto.byte_codes.push(ByteCode::GetGlobal(0, 0));
    assert_eq!(ExeState::new().execute(&proto, &mut out), Err(ExecError::InvalidGlobalKey));

    let mut proto = ParseProto::load(Vec::new()).unwrap();
    proto.byte_codes.push(ByteCode::Move(0, 0));
    assert_eq!(ExeState::new().execute(&proto, &mut out), Err(ExecError::BadSlot));
    assert!(out.is_empty());
}

#[test]
fn print_without_argument_reads_past_the_stack() {
    let (_, out, r) = run("print()");
    assert_eq!(r, Err(ExecError::BadSlot));
    assert!(out.is_empty());
}

#[test]
fn display_forms() {
    assert_eq!(Value::Nil.display(), Some(b"nil".to_vec()));
    assert_eq!(Value::Boolean(true).display(), Some(b"true".to_vec()));
    assert_eq!(Value::Boolean(false).display(), Some(b"false".to_vec()));
    assert_eq!(Value::Integer(0).display(), Some(b"0".to_vec()));
    assert_eq!(Value::Integer(1234).display(), Some(b"1234".to_vec()));
    assert_eq!(Value::Integer(-56).display(), Some(b"-56".to_vec()));
    assert_eq!(Value::Integer(i64::MIN).display(), Some(b"-9223372036854775808".to_vec()));
    assert_eq!(Value::Integer(i64::MAX).display(), Some(b"9223372036854775807".to_vec()));
    assert_eq!(Value::String(b"hello".to_vec()).display(), Some(b"hello".to_vec()));
    assert_eq!(Value::Function(Native::Print).display(), Some(b"function".to_vec()));
    assert_eq!(Value::Float(b"1.5".to_vec()).display(), None);
}
