use lua_compiler::byte_code::ByteCode;
use lua_compiler::error::LuaError;
use lua_compiler::parse::ParseProto;
use lua_compiler::value::{Decimal, Native, Value};
use lua_compiler::vm::ExeState;

fn compile(src: &str) -> Result<ParseProto, LuaError> {
    ParseProto::load(src.as_bytes().to_vec())
}

fn str_value(s: &str) -> Value {
    Value::from_bytes(s.as_bytes().to_vec())
}

/// Compiles and runs `src`; the machine afterwards and the outcome of the run.
fn run(src: &str) -> (ExeState, Result<(), LuaError>) {
    let proto = compile(src).unwrap();
    let mut state = ExeState::new();
    let r = state.execute(&proto);
    (state, r)
}

fn printed(src: &str) -> String {
    let (state, r) = run(src);
    assert_eq!(r, Ok(()));
    String::from_utf8(state.output().to_vec()).unwrap()
}

#[test]
fn scenario_print_hello() {
    let proto = compile("print(\"hello\")").unwrap();
    assert_eq!(proto.constants, vec![str_value("print"), str_value("hello")]);
    assert_eq!(
        proto.byte_codes,
        vec![ByteCode::GetGlobal(0, 0), ByteCode::LoadConst(1, 1), ByteCode::Call(0, 1)]
    );
    assert_eq!(printed("print(\"hello\")"), "hello\n");
}

#[test]
fn scenario_call_with_string_literal() {
    let proto = compile("print 'hello'").unwrap();
    assert_eq!(
        proto.byte_codes,
        vec![ByteCode::GetGlobal(0, 0), ByteCode::LoadConst(1, 1), ByteCode::Call(0, 1)]
    );
    assert_eq!(printed("print 'hello'"), "hello\n");
}

#[test]
fn scenario_local_then_print() {
    let src = "local a = \"hi\"\nprint(a)";
    let proto = compile(src).unwrap();
    assert_eq!(proto.constants, vec![str_value("hi"), str_value("print")]);
    assert_eq!(
        proto.byte_codes,
        vec![
            ByteCode::LoadConst(0, 0),
            ByteCode::GetGlobal(1, 1),
            ByteCode::Move(2, 0),
            ByteCode::Call(1, 1),
        ]
    );
    assert_eq!(printed(src), "hi\n");
}

#[test]
fn scenario_set_global_nil() {
    let proto = compile("a = nil").unwrap();
    assert_eq!(proto.constants, vec![str_value("a"), Value::Nil]);
    assert_eq!(proto.byte_codes, vec![ByteCode::SetGlobalConst(0, 1)]);
    let (state, r) = run("a = nil");
    assert_eq!(r, Ok(()));
    assert_eq!(state.get_global(b"a"), Value::Nil);
}

#[test]
fn binary_operator_is_a_syntax_error() {
    assert_eq!(compile("print(1 + 1)").err(), Some(LuaError::ExpectedParR));
}

#[test]
fn global_round_trip() {
    assert_eq!(printed("x = \"hi\"\nprint(x)"), "hi\n");
    let (state, r) = run("x = \"hi\"");
    assert_eq!(r, Ok(()));
    assert_eq!(state.get_global(b"x"), str_value("hi"));
}

#[test]
fn undeclared_global_reads_nil() {
    assert_eq!(printed("print(nobody)"), "nil\n");
    let (state, _) = run("y = nobody");
    assert_eq!(state.get_global(b"y"), Value::Nil);
    assert_eq!(ExeState::new().get_global(b"nobody"), Value::Nil);
}

#[test]
fn shadowing_resolves_to_latest_local() {
    let src = "local a = 1\nlocal a = 2\nprint(a)";
    let proto = compile(src).unwrap();
    assert_eq!(
        proto.byte_codes,
        vec![
            ByteCode::LoadInt(0, 1),
            ByteCode::LoadInt(1, 2),
            ByteCode::GetGlobal(2, 0),
            ByteCode::Move(3, 1),
            ByteCode::Call(2, 1),
        ]
    );
    assert_eq!(printed(src), "2\n");
}

#[test]
fn literal_round_trip() {
    let long = "y".repeat(60);
    let mid = "m".repeat(20);
    let cases: Vec<(String, Value)> = vec![
        ("nil".to_string(), Value::Nil),
        ("true".to_string(), Value::Boolean(true)),
        ("false".to_string(), Value::Boolean(false)),
        ("32767".to_string(), Value::Integer(32767)),
        ("32768".to_string(), Value::Integer(32768)),
        ("9000000000".to_string(), Value::Integer(9000000000)),
        ("2.75".to_string(), Value::Float(Decimal { int_part: 2, frac: 75, frac_len: 2 })),
        ("'short'".to_string(), str_value("short")),
        (format!("'{}'", mid), str_value(&mid)),
        (format!("'{}'", long), str_value(&long)),
    ];
    for (lit, expected) in cases {
        let (state, r) = run(&format!("local x = {}", lit));
        assert_eq!(r, Ok(()));
        assert_eq!(state.get_register(0), Ok(expected));
    }
}

#[test]
fn small_integers_load_inline() {
    let proto = compile("local x = 32767").unwrap();
    assert_eq!(proto.byte_codes, vec![ByteCode::LoadInt(0, 32767)]);
    assert!(proto.constants.is_empty());
    let proto = compile("local x = 32768").unwrap();
    assert_eq!(proto.byte_codes, vec![ByteCode::LoadConst(0, 0)]);
    assert_eq!(proto.constants, vec![Value::Integer(32768)]);
}

#[test]
fn pooled_literals_are_held_once() {
    let proto = compile("local a = 100000\nlocal b = 100000\nlocal c = 100000").unwrap();
    assert_eq!(proto.constants, vec![Value::Integer(100000)]);
    let proto = compile("local a = 1.5\nlocal b = 1.50").unwrap();
    assert_eq!(proto.constants.len(), 1);
    let proto = compile("local a = 's'\nlocal b = 's'\nprint('s')").unwrap();
    assert_eq!(proto.constants, vec![str_value("s"), str_value("print")]);
    let proto = compile("x = 3.25\ny = 3.25\nz = x").unwrap();
    assert_eq!(proto.constants.len(), 4);
}

#[test]
fn assignment_forms() {
    let proto = compile("local a = 1\na = 2\ng = a\nh = g\nk = 'v'").unwrap();
    assert_eq!(
        proto.constants,
        vec![str_value("g"), str_value("h"), str_value("k"), str_value("v")]
    );
    assert_eq!(
        proto.byte_codes,
        vec![
            ByteCode::LoadInt(0, 1),
            ByteCode::LoadInt(0, 2),
            ByteCode::SetGlobal(0, 0),
            ByteCode::SetGlobalGlobal(1, 0),
            ByteCode::SetGlobalConst(2, 3),
        ]
    );
    let (state, r) = run("local a = 1\na = 2\ng = a\nh = g\nk = 'v'");
    assert_eq!(r, Ok(()));
    assert_eq!(state.get_global(b"g"), Value::Integer(2));
    assert_eq!(state.get_global(b"h"), Value::Integer(2));
    assert_eq!(state.get_global(b"k"), str_value("v"));
    assert_eq!(state.get_register(0), Ok(Value::Integer(2)));
}

#[test]
fn prints_each_kind() {
    assert_eq!(
        printed("print(nil)\nprint(true)\nprint(false)\nprint(42)\nprint(0.5)\nprint(print)"),
        "nil\ntrue\nfalse\n42\n0.5\nfunction\n"
    );
}

#[test]
fn syntax_errors() {
    assert_eq!(compile("local 1 = 2").err(), Some(LuaError::ExpectedName));
    assert_eq!(compile("local a 2").err(), Some(LuaError::ExpectedAssign));
    assert_eq!(compile("print").err(), Some(LuaError::ExpectedArgument));
    assert_eq!(compile("print(1").err(), Some(LuaError::ExpectedParR));
    assert_eq!(compile("print(+)").err(), Some(LuaError::InvalidExpression));
    assert_eq!(compile("x = +").err(), Some(LuaError::InvalidExpression));
    assert_eq!(compile("= 1").err(), Some(LuaError::UnexpectedToken));
    assert_eq!(compile("print('a\\n')").err(), Some(LuaError::EscapeUnsupported));
}

#[test]
fn too_many_constants() {
    let mut src = String::new();
    for i in 0..128 {
        src.push_str(&format!("g{} = {}\n", i, 100000 + i));
    }
    assert_eq!(compile(&src).unwrap().constants.len(), 256);
    src.push_str("extra = 1\n");
    assert_eq!(compile(&src).err(), Some(LuaError::TooManyConstants));
}

#[test]
fn too_many_registers() {
    let mut src = String::new();
    for i in 0..254 {
        src.push_str(&format!("local v{} = {}\n", i, i));
    }
    assert!(compile(&format!("{}print(1)", src)).is_ok());
    src.push_str("local w = 0\n");
    assert_eq!(compile(&format!("{}print(1)", src)).err(), Some(LuaError::TooManyRegisters));
}

#[test]
fn write_past_stack_end_fails() {
    let proto = ParseProto { constants: Vec::new(), byte_codes: vec![ByteCode::LoadNil(2)] };
    let mut state = ExeState::new();
    assert_eq!(state.execute(&proto), Err(LuaError::StackOverflow));
    assert_eq!(state.get_register(0), Err(LuaError::InvalidRegister));
    let proto = ParseProto {
        constants: Vec::new(),
        byte_codes: vec![ByteCode::LoadNil(0), ByteCode::LoadInt(1, 5), ByteCode::LoadBool(3, true)],
    };
    let mut state = ExeState::new();
    assert_eq!(state.execute(&proto), Err(LuaError::StackOverflow));
    assert_eq!(state.get_register(1), Ok(Value::Integer(5)));
    assert_eq!(state.get_register(2), Err(LuaError::InvalidRegister));
}

#[test]
fn runtime_errors() {
    let (_, r) = run("local a = 1\na(2)");
    assert_eq!(r, Err(LuaError::InvalidFunction));
    let proto = ParseProto {
        constants: vec![Value::Integer(1)],
        byte_codes: vec![ByteCode::GetGlobal(0, 0)],
    };
    assert_eq!(ExeState::new().execute(&proto), Err(LuaError::NotAString));
    let proto = ParseProto { constants: Vec::new(), byte_codes: vec![ByteCode::LoadConst(0, 3)] };
    assert_eq!(ExeState::new().execute(&proto), Err(LuaError::InvalidConstant));
    let proto = ParseProto { constants: Vec::new(), byte_codes: vec![ByteCode::Move(0, 1)] };
    assert_eq!(ExeState::new().execute(&proto), Err(LuaError::InvalidRegister));
}

#[test]
fn output_stops_at_first_error() {
    let (state, r) = run("print('a')\nlocal f = 1\nf('b')\nprint('c')");
    assert_eq!(r, Err(LuaError::InvalidFunction));
    assert_eq!(state.output(), b"a\n");
}

#[test]
fn print_is_bound_at_start() {
    assert_eq!(ExeState::new().get_global(b"print"), Value::Function(Native::Print));
}
