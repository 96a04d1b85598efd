use worn::ast::Instruction;
use worn::ast::SuperValue;
use worn::ast::WithPos;
use worn::scopes::ScopedStack;
use worn::wbf::Context;
use worn::wbf::VariableSet;

fn wps(name: &str) -> WithPos<String> {
    WithPos { start: 0, end: 0, value: name.to_string() }
}

fn binding(name: &str, value: Instruction) -> VariableSet {
    VariableSet { name: wps(name), value: WithPos { start: 0, end: 0, value } }
}

#[test]
fn test_inner_binding_shadows_and_outer_is_restored() {
    let mut stack: ScopedStack<VariableSet> = ScopedStack::new();
    stack.new_scope();
    stack.push(binding("x", Instruction::Add(1)));
    stack.new_scope();
    stack.push(binding("x", Instruction::Add(2)));
    stack.push(binding("y", Instruction::Add(3)));

    // the inner binding wins while its scope is open
    match stack.find_rvisiblle("x") {
        Some(v) => assert!(matches!(v.value.value, Instruction::Add(2))),
        None => panic!("x should be visible"),
    }

    stack.end_scope();

    // the outer binding becomes visible again, and y is gone
    match stack.find_rvisiblle("x") {
        Some(v) => assert!(matches!(v.value.value, Instruction::Add(1))),
        None => panic!("x should still be visible"),
    }
    assert!(stack.find_rvisiblle("y").is_none());
}

#[test]
fn test_find_returns_the_rightmost_entry() {
    let mut stack: ScopedStack<VariableSet> = ScopedStack::new();
    stack.new_scope();
    stack.push(binding("x", Instruction::Add(1)));
    stack.push(binding("x", Instruction::Add(2)));
    match stack.find_rvisiblle("x") {
        Some(v) => assert!(matches!(v.value.value, Instruction::Add(2))),
        None => panic!("x should be visible"),
    }
}

#[test]
fn test_resolution_follows_forwarding_chains() {
    let mut ctx = Context::create();
    ctx.new_scope();
    ctx.push_variable(
        wps("a"),
        WithPos {
            start: 0,
            end: 0,
            value: Instruction::InlineValue(SuperValue::Literal("b".to_string())),
        },
    );
    ctx.push_variable(wps("b"), WithPos { start: 0, end: 0, value: Instruction::Add(7) });
    match ctx.resolve_variable_rec("a") {
        Some(v) => assert!(matches!(v.value, Instruction::Add(7))),
        None => panic!("the chain should resolve"),
    }
    assert!(ctx.resolve_variable_rec("missing").is_none());
}

#[test]
fn test_cyclic_chains_terminate_with_the_last_binding() {
    // two parameters forwarding each other: the guard stops the walk and
    // keeps the last resolved binding
    let mut ctx = Context::create();
    ctx.new_scope();
    ctx.push_variable(
        wps("a"),
        WithPos {
            start: 0,
            end: 0,
            value: Instruction::InlineValue(SuperValue::Literal("b".to_string())),
        },
    );
    ctx.push_variable(
        wps("b"),
        WithPos {
            start: 0,
            end: 0,
            value: Instruction::InlineValue(SuperValue::Literal("a".to_string())),
        },
    );
    match ctx.resolve_variable_rec("a") {
        Some(v) => {
            let name = v.value.as_literal().expect("a forwarded binding");
            assert!(name == "a" || name == "b");
        }
        None => panic!("a cyclic chain still resolves to its last binding"),
    }
}
