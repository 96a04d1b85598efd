use worn::ast::BInstr;
use worn::ast::Instruction;
use worn::ast::Reconstruct;
use worn::ast::SuperValue;
use worn::ast::WithPos;
use worn::wbf::CompileError;
use worn::wbf::WBFEmitter;

fn wp(value: Instruction) -> WithPos<Instruction> {
    WithPos { start: 0, end: 0, value }
}

fn wps(name: &str) -> WithPos<String> {
    WithPos { start: 0, end: 0, value: name.to_string() }
}

fn lit(name: &str) -> WithPos<Instruction> {
    wp(Instruction::InlineValue(SuperValue::Literal(name.to_string())))
}

fn call(name: &str, args: Vec<WithPos<Instruction>>) -> WithPos<Instruction> {
    wp(Instruction::InlineValue(SuperValue::SuperCall { callee: wps(name), args }))
}

fn superfn(
    name: &str,
    params: Vec<&str>,
    body: Vec<WithPos<Instruction>>,
) -> WithPos<Instruction> {
    wp(Instruction::SuperFunction {
        name: wps(name),
        args: params.into_iter().map(wps).collect(),
        body,
    })
}

fn compile(program: Vec<WithPos<Instruction>>) -> Result<Vec<BInstr>, CompileError> {
    let mut emitter = WBFEmitter::new(program);
    emitter.compile()?;
    Ok(emitter.finalize().unwrap())
}

fn compile_text(program: Vec<WithPos<Instruction>>) -> String {
    compile(program).unwrap().reconstruct()
}

#[test]
fn test_plain_adds() {
    assert_eq!(compile_text(vec![wp(Instruction::Add(3))]), "+++");
}

#[test]
fn test_macro_with_repeated_parameter() {
    // super f(a){ a a } f(+)
    let program = vec![
        superfn("f", vec!["a"], vec![lit("a"), lit("a")]),
        call("f", vec![wp(Instruction::Add(1))]),
    ];
    assert_eq!(compile_text(program), "++");
}

#[test]
fn test_builtin_repeat() {
    // R(3, +)
    let program = vec![call(
        "R",
        vec![wp(Instruction::InlineValue(SuperValue::Integer(3))), wp(Instruction::Add(1))],
    )];
    assert_eq!(compile_text(program), "+++");
}

#[test]
fn test_string_literal() {
    // "AB"
    let program = vec![wp(Instruction::InlineValue(SuperValue::String("AB".to_string())))];
    let expected = format!("{}>{}", "+".repeat(65), "+".repeat(66));
    assert_eq!(compile_text(program), expected);
}

#[test]
fn test_forwarded_parameter() {
    // super id(x){ x } super w(y){ id(y) } w(++)
    let program = vec![
        superfn("id", vec!["x"], vec![lit("x")]),
        superfn("w", vec!["y"], vec![call("id", vec![lit("y")])]),
        call("w", vec![wp(Instruction::Add(2))]),
    ];
    assert_eq!(compile_text(program), "++");
}

#[test]
fn test_error_text_formats() {
    let e = worn::wbf::CompileError::UndeclaredSymbol {
        name: "x".to_string(),
        start: 12,
        end: 13,
    };
    assert_eq!(e.to_string(), "Undeclared symbol \"x\" at 12 .. 13");
    let i = worn::wbf::CompileError::Invalid {
        message: "\"r\" cannot be recursive".to_string(),
        start: 5,
        end: 6,
    };
    assert_eq!(i.to_string(), "\"r\" cannot be recursive at 5 .. 6");
    let f = worn::wbf::CompileError::UndeclaredFunction {
        name: "g".to_string(),
        start: 0,
        end: 100,
    };
    assert_eq!(f.to_string(), "Undeclared function \"g\" at 0 .. 100");
}

#[test]
fn test_recursion_rejected() {
    // super r(){ r() } r()
    let inner_callee = WithPos { start: 5, end: 6, value: "r".to_string() };
    let inner_call = wp(Instruction::InlineValue(SuperValue::SuperCall {
        callee: inner_callee,
        args: vec![],
    }));
    let program = vec![superfn("r", vec![], vec![inner_call]), call("r", vec![])];
    match compile(program) {
        Err(CompileError::Invalid { message, start, end }) => {
            assert_eq!(message, "\"r\" cannot be recursive");
            assert_eq!((start, end), (5, 6));
        }
        other => panic!("expected the recursion error, got {:?}", other),
    }
}

#[test]
fn test_mutual_recursion_rejected() {
    // super a(){ b() } super b(){ a() } a()
    let program = vec![
        superfn("a", vec![], vec![call("b", vec![])]),
        superfn("b", vec![], vec![call("a", vec![])]),
        call("a", vec![]),
    ];
    match compile(program) {
        Err(CompileError::Invalid { message, .. }) => {
            assert_eq!(message, "\"a\" cannot be recursive");
        }
        other => panic!("expected the recursion error, got {:?}", other),
    }
}

#[test]
fn test_undeclared_symbol() {
    // a bare `x` with no binding in scope
    match compile(vec![lit("x")]) {
        Err(CompileError::UndeclaredSymbol { name, .. }) => assert_eq!(name, "x"),
        other => panic!("expected the undeclared-symbol error, got {:?}", other),
    }
}

#[test]
fn test_undeclared_function() {
    match compile(vec![call("g", vec![])]) {
        Err(CompileError::UndeclaredFunction { name, .. }) => assert_eq!(name, "g"),
        other => panic!("expected the undeclared-function error, got {:?}", other),
    }
}

#[test]
fn test_repeat_count_must_be_integer() {
    // R(+, -): the count does not resolve to an integer; the error points at
    // the count argument's source range, not the fragment's
    let count_arg = WithPos { start: 2, end: 3, value: Instruction::Add(1) };
    let fragment = WithPos { start: 5, end: 6, value: Instruction::Add(-1) };
    let program = vec![call("R", vec![count_arg, fragment])];
    match compile(program) {
        Err(CompileError::Invalid { message, start, end }) => {
            assert_eq!(
                message,
                "First argument of repeat function R is expected to be an integer"
            );
            assert_eq!((start, end), (2, 3));
        }
        other => panic!("expected the invalid-count error, got {:?}", other),
    }
}

#[test]
fn test_shadowing_inner_wins_outer_restored() {
    // super f(){+} super g(){ super f(){-} f() } g() f()
    let program = vec![
        superfn("f", vec![], vec![wp(Instruction::Add(1))]),
        superfn(
            "g",
            vec![],
            vec![superfn("f", vec![], vec![wp(Instruction::Add(-1))]), call("f", vec![])],
        ),
        call("g", vec![]),
        call("f", vec![]),
    ];
    assert_eq!(compile_text(program), "-+");
}

#[test]
fn test_parameter_shadows_for_bare_identifiers() {
    // super a(){+} super b(a){ a } b(-)
    let program = vec![
        superfn("a", vec![], vec![wp(Instruction::Add(1))]),
        superfn("b", vec!["a"], vec![lit("a")]),
        call("b", vec![wp(Instruction::Add(-1))]),
    ];
    assert_eq!(compile_text(program), "-");
}

#[test]
fn test_arity_mismatch_is_tolerated() {
    // missing arguments leave parameters unbound; extras are dropped
    let program = vec![
        superfn("f", vec!["a", "b"], vec![lit("a")]),
        call("f", vec![wp(Instruction::Add(1))]),
    ];
    assert_eq!(compile_text(program), "+");

    let program2 = vec![
        superfn("f", vec!["a"], vec![lit("a")]),
        call("f", vec![wp(Instruction::Add(1)), wp(Instruction::Add(-1))]),
    ];
    assert_eq!(compile_text(program2), "+");
}

#[test]
fn test_integer_literal_wraps_to_signed() {
    // 4294967295 is emitted bit-for-bit as Add(-1)
    let program = vec![wp(Instruction::InlineValue(SuperValue::Integer(4294967295)))];
    let out = compile(program).unwrap();
    assert_eq!(out, vec![BInstr::Add(-1)]);
    assert_eq!(out.reconstruct(), "-");
}

#[test]
fn test_loops_emit_matched_brackets() {
    // +[-]
    let program = vec![
        wp(Instruction::Add(1)),
        wp(Instruction::Loop { body: vec![wp(Instruction::Add(-1))] }),
    ];
    assert_eq!(compile_text(program), "+[-]");
}

#[test]
fn test_definitions_emit_nothing() {
    let program = vec![superfn("f", vec![], vec![wp(Instruction::Add(1))])];
    assert_eq!(compile_text(program), "");
}

#[test]
fn test_reconstruct_single_instructions() {
    assert_eq!(BInstr::Add(2).reconstruct(), "++");
    assert_eq!(BInstr::Add(-2).reconstruct(), "--");
    assert_eq!(BInstr::Move(2).reconstruct(), ">>");
    assert_eq!(BInstr::Move(-2).reconstruct(), "<<");
    assert_eq!(BInstr::PutC.reconstruct(), ".");
    assert_eq!(BInstr::GetC.reconstruct(), ",");
    assert_eq!(BInstr::LoopStart.reconstruct(), "[");
    assert_eq!(BInstr::LoopEnd.reconstruct(), "]");
}

#[test]
fn test_as_literal_and_as_integer() {
    let l = Instruction::InlineValue(SuperValue::Literal("x".to_string()));
    assert_eq!(l.as_literal(), Some("x".to_string()));
    assert_eq!(l.as_integer(), None);
    let n = Instruction::InlineValue(SuperValue::Integer(7));
    assert_eq!(n.as_literal(), None);
    assert_eq!(n.as_integer(), Some(7));
    assert_eq!(Instruction::PutC.as_literal(), None);
}

#[test]
fn test_transfer_keeps_the_span() {
    let node = WithPos { start: 3, end: 9, value: Instruction::PutC };
    let moved = node.transfer("x".to_string());
    assert_eq!((moved.start, moved.end), (3, 9));
    assert_eq!(moved.value, "x");
}
