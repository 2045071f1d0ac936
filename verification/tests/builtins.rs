use ghast::builtins::{input_value, invoke, register, try_invoke, Invocation};
use ghast::phase3::{Env, EvalError, Value};

fn ival(v: i32) -> Value {
    Value::I32(v)
}

fn pair(a: Value, b: Value) -> Value {
    Value::Tuple(vec![a, b])
}

#[test]
fn register_binds_every_builtin() {
    let mut env = Env::new();
    register(&mut env);
    for name in ["add", "sub", "mul", "div", "eq", "neg", "pos", "not", "input", "print"] {
        match env.get(name) {
            Some(Value::Builtin(n)) => assert_eq!(*n, name),
            other => panic!("{} bound to {:?}", name, other),
        }
    }
    assert_eq!(env.bindings.len(), 10);
    assert!(env.get("foo").is_none());
}

#[test]
fn register_replaces_and_keeps() {
    let mut env = Env::new();
    env.insert("add".to_string(), ival(1));
    env.insert("x".to_string(), ival(2));
    register(&mut env);
    assert!(matches!(env.get("add"), Some(Value::Builtin("add"))));
    assert!(matches!(env.get("x"), Some(Value::I32(2))));
    assert_eq!(env.bindings.len(), 11);
}

#[test]
fn env_reads_what_was_written() {
    let mut env = Env::new();
    assert!(env.get("a").is_none());
    env.insert("a".to_string(), ival(1));
    env.insert("b".to_string(), ival(2));
    env.insert("a".to_string(), ival(3));
    assert!(matches!(env.get("a"), Some(Value::I32(3))));
    assert!(matches!(env.get("b"), Some(Value::I32(2))));
    assert_eq!(env.bindings.len(), 2);
}

#[test]
fn arithmetic_builtins() {
    assert!(matches!(invoke("add", pair(ival(2), ival(3))), Invocation::Done(Value::I32(5))));
    assert!(matches!(invoke("sub", pair(ival(2), ival(3))), Invocation::Done(Value::I32(-1))));
    assert!(matches!(invoke("mul", pair(ival(-4), ival(3))), Invocation::Done(Value::I32(-12))));
    assert!(matches!(invoke("div", pair(ival(-7), ival(2))), Invocation::Done(Value::I32(-3))));
    assert!(matches!(invoke("eq", pair(ival(4), ival(4))), Invocation::Done(Value::Bool(true))));
    assert!(matches!(invoke("eq", pair(ival(4), ival(5))), Invocation::Done(Value::Bool(false))));
}

#[test]
fn unary_builtins() {
    assert!(matches!(invoke("neg", ival(7)), Invocation::Done(Value::I32(-7))));
    assert!(matches!(invoke("pos", ival(7)), Invocation::Done(Value::I32(7))));
    assert!(matches!(invoke("not", ival(0)), Invocation::Done(Value::I32(1))));
    assert!(matches!(invoke("not", ival(9)), Invocation::Done(Value::I32(0))));
}

#[test]
fn io_builtins_say_what_to_do() {
    match invoke("print", pair(ival(1), Value::Unit)) {
        Invocation::Print(vals) => assert_eq!(vals.len(), 2),
        other => panic!("unexpected: {:?}", other),
    }
    match invoke("input", Value::Tuple(vec![ival(5)])) {
        Invocation::Input(Some(Value::I32(5))) => {}
        other => panic!("unexpected: {:?}", other),
    }
    assert!(matches!(invoke("input", Value::Unit), Invocation::Input(None)));
}

#[test]
fn failing_invocations() {
    assert!(matches!(try_invoke("add", ival(1)), Invocation::Failed(EvalError::WrongArguments(ref n)) if n == "add"));
    assert!(matches!(
        try_invoke("add", Value::Tuple(vec![ival(1), ival(2), ival(3)])),
        Invocation::Failed(EvalError::WrongArguments(_))
    ));
    assert!(matches!(
        try_invoke("mul", pair(Value::Unit, ival(2))),
        Invocation::Failed(EvalError::NotAnInteger(Value::Unit))
    ));
    assert!(matches!(try_invoke("div", pair(ival(1), ival(0))), Invocation::Failed(EvalError::DivisionByZero)));
    assert!(matches!(try_invoke("add", pair(ival(i32::MAX), ival(1))), Invocation::Failed(EvalError::Overflow)));
    assert!(matches!(try_invoke("div", pair(ival(i32::MIN), ival(-1))), Invocation::Failed(EvalError::Overflow)));
    assert!(matches!(try_invoke("neg", ival(i32::MIN)), Invocation::Failed(EvalError::Overflow)));
    assert!(matches!(try_invoke("neg", Value::Tuple(vec![ival(1)])), Invocation::Failed(EvalError::WrongArguments(_))));
    assert!(matches!(try_invoke("print", ival(1)), Invocation::Failed(EvalError::NotATuple)));
    assert!(matches!(try_invoke("input", Value::Tuple(vec![])), Invocation::Failed(EvalError::WrongArguments(_))));
    assert!(matches!(try_invoke("sqrt", ival(4)), Invocation::Failed(EvalError::UnknownBuiltin(ref n)) if n == "sqrt"));
}

#[test]
fn input_lines_read_as_numbers() {
    assert_eq!(input_value("42\n"), Some(42));
    assert_eq!(input_value("  -17  "), Some(-17));
    assert_eq!(input_value("+8"), Some(8));
    assert_eq!(input_value("-2147483648"), Some(i32::MIN));
    assert_eq!(input_value("2147483648"), None);
    assert_eq!(input_value("12a"), None);
    assert_eq!(input_value(""), None);
    assert_eq!(input_value("-"), None);
    assert_eq!(input_value("1 2"), None);
}
