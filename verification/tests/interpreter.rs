use ghast::combinator::ParseError;
use ghast::ghast::{interpret, Interpretation};
use ghast::phase2::{ghast_master, FlatIR, Literal};
use ghast::phase3::{convert_into_ghast, eval, eval_with_env, eval_with_fuel, try_eval_with_env, Env, try_convert_into_ghast, ConvertError, EvalError, Evaluated, Ghast, Value};

fn value_of(src: &str) -> Value {
    match interpret(src) {
        Interpretation::Evaluated(v, _) => v,
        other => panic!("unexpected outcome for {:?}: {:?}", src, other),
    }
}

fn int_of(src: &str) -> i32 {
    match value_of(src) {
        Value::I32(v) => v,
        other => panic!("not an integer: {:?}", other),
    }
}

#[test]
fn adds_two_numbers() {
    assert_eq!(int_of("1 + 2"), 3);
}

#[test]
fn multiplication_binds_tighter_than_addition() {
    assert_eq!(int_of("2 * 3 + 4"), 10);
    assert_eq!(int_of("4 + 2 * 3"), 10);
}

#[test]
fn subtraction_is_left_associative() {
    assert_eq!(int_of("10 - 3 - 2"), 5);
    assert_eq!(int_of("100 / 10 / 5"), 2);
}

#[test]
fn division_rounds_toward_zero() {
    assert_eq!(int_of("0 - 7 / 2"), -3);
    assert_eq!(int_of("(0 - 7) / 2"), -3);
}

#[test]
fn applies_a_function() {
    assert_eq!(int_of("(\\x -> x + 1) 5"), 6);
}

#[test]
fn applies_a_builtin_by_name() {
    assert_eq!(int_of("add (1, 2)"), 3);
    assert_eq!(int_of("mul (6, 7)"), 42);
}

#[test]
fn juxtaposed_argument_reaches_a_builtin_as_a_one_tuple() {
    match interpret("neg 4") {
        Interpretation::EvalFailed(EvalError::WrongArguments(name), _) => assert_eq!(name, "neg"),
        other => panic!("unexpected outcome: {:?}", other),
    }
}

#[test]
fn unary_minus_negates() {
    assert_eq!(int_of("-5"), -5);
    assert_eq!(int_of("5 + - 3"), 2);
    assert_eq!(int_of("+7"), 7);
}

#[test]
fn print_records_its_values() {
    match interpret("print (1, 2)") {
        Interpretation::Evaluated(Value::Unit, printed) => {
            assert_eq!(printed.len(), 1);
            assert_eq!(ghast::format::print_line(&printed[0]), "1 2");
        }
        other => panic!("unexpected outcome: {:?}", other),
    }
}

#[test]
fn blank_input_is_blank() {
    assert!(matches!(interpret("   "), Interpretation::Blank));
    assert!(matches!(interpret(""), Interpretation::Blank));
}

#[test]
fn trailing_operator_is_an_incomplete_parse() {
    match interpret("1 +") {
        Interpretation::ParseFailed(ParseError::IncompleteParse(FlatIR::Lit(Literal::I32(1)), 2)) => {}
        other => panic!("unexpected outcome: {:?}", other),
    }
}

#[test]
fn unknown_text_is_unmatched() {
    assert!(matches!(interpret(")"), Interpretation::ParseFailed(ParseError::Unmatched)));
}

#[test]
fn overlong_literal_overflows() {
    assert!(matches!(interpret("99999999999"), Interpretation::LiteralOverflow));
    assert!(ghast_master().try_parse("2147483648").is_none());
    assert!(matches!(ghast_master().try_parse("2147483647"), Some(Ok(FlatIR::Lit(Literal::I32(2147483647))))));
}

#[test]
fn undefined_symbol_fails() {
    match interpret("x") {
        Interpretation::EvalFailed(EvalError::UndefinedSymbol(name), _) => assert_eq!(name, "x"),
        other => panic!("unexpected outcome: {:?}", other),
    }
}

#[test]
fn division_by_zero_fails() {
    assert!(matches!(interpret("5 / 0"), Interpretation::EvalFailed(EvalError::DivisionByZero, _)));
}

#[test]
fn overflow_fails() {
    assert!(matches!(interpret("2147483647 + 1"), Interpretation::EvalFailed(EvalError::Overflow, _)));
}

#[test]
fn postfix_operator_between_terms_has_no_binary_meaning() {
    match interpret("1 ! 2") {
        Interpretation::ConvertFailed(ConvertError::UnknownOperator(op)) => assert_eq!(op, "!"),
        other => panic!("unexpected outcome: {:?}", other),
    }
}

#[test]
fn parenthesised_value_and_tuple_differ() {
    assert!(matches!(ghast_master().parse("(foo)"), Ok(FlatIR::Symbol(_))));
    match ghast_master().parse("(foo,)") {
        Ok(FlatIR::Tuple(items)) => assert_eq!(items.len(), 1),
        other => panic!("unexpected parse: {:?}", other),
    }
    match ghast_master().parse("(1, 2, 3)") {
        Ok(FlatIR::Tuple(items)) => assert_eq!(items.len(), 3),
        other => panic!("unexpected parse: {:?}", other),
    }
}

#[test]
fn juxtaposition_is_the_empty_operator() {
    match ghast_master().parse("f x") {
        Ok(FlatIR::Binop(b)) => {
            assert_eq!(b.ops, vec!["".to_string()]);
            assert_eq!(b.terms.len(), 2);
        }
        other => panic!("unexpected parse: {:?}", other),
    }
}

#[test]
fn lambda_parses_to_a_function() {
    match ghast_master().parse("\\x -> x") {
        Ok(FlatIR::Fn(arg, body)) => {
            assert_eq!(arg, "x");
            assert!(matches!(*body, FlatIR::Symbol(ref s) if s == "x"));
        }
        other => panic!("unexpected parse: {:?}", other),
    }
}

#[test]
fn conversion_applies_named_function_to_pair() {
    let flat = ghast_master().parse("1 + 2").unwrap();
    match convert_into_ghast(flat) {
        Ghast::Apply(f, args) => {
            assert!(matches!(*f, Ghast::Symbol(ref s) if s == "add"));
            match *args {
                Ghast::Tuple(items) => assert_eq!(items.len(), 2),
                other => panic!("unexpected arguments: {:?}", other),
            }
        }
        other => panic!("unexpected core: {:?}", other),
    }
}

#[test]
fn conversion_wraps_single_argument() {
    let flat = ghast_master().parse("f x").unwrap();
    match try_convert_into_ghast(flat) {
        Ok(Ghast::Apply(_, args)) => match *args {
            Ghast::Tuple(items) => assert_eq!(items.len(), 1),
            other => panic!("unexpected arguments: {:?}", other),
        },
        other => panic!("unexpected core: {:?}", other),
    }
}

#[test]
fn eval_reports_value() {
    let g = convert_into_ghast(ghast_master().parse("3 * 4").unwrap());
    let (v, printed) = eval(&g);
    assert!(matches!(v, Value::I32(12)));
    assert!(printed.is_empty());
}

#[test]
fn display_of_values() {
    assert_eq!(value_of("(1, 2)").display(), "(1, 2)");
    assert_eq!(value_of("-12").display(), "-12");
    assert_eq!(value_of("print (1,)").display(), "unit");
    assert_eq!(value_of("add").display(), "add");
    assert_eq!(value_of("\\x -> x").display(), "closure(\"x\", Symbol(\"x\"))");
    assert_eq!(value_of("\\x -> f (1, x)").display(), "closure(\"x\", Apply(Symbol(\"f\"), Tuple([Lit(I32(1)), Symbol(\"x\")])))");
}

#[test]
fn tuple_argument_is_not_wrapped_again() {
    let flat = ghast_master().parse("f (1, 2)").unwrap();
    match try_convert_into_ghast(flat) {
        Ok(Ghast::Apply(_, args)) => match *args {
            Ghast::Tuple(items) => assert_eq!(items.len(), 2),
            other => panic!("unexpected arguments: {:?}", other),
        },
        other => panic!("unexpected core: {:?}", other),
    }
}

#[test]
fn closure_receives_the_unwrapped_argument() {
    assert_eq!(int_of("(\\x -> x * x) 7"), 49);
    assert_eq!(value_of("(\\p -> p) (1, 2)").display(), "(1, 2)");
}

#[test]
fn prints_come_in_order() {
    match interpret("(\\u -> print (2,)) (print (1, 0))") {
        Interpretation::Evaluated(Value::Unit, printed) => {
            assert_eq!(printed.len(), 2);
            assert_eq!(ghast::format::print_line(&printed[0]), "1 0");
            assert_eq!(ghast::format::print_line(&printed[1]), "2");
        }
        other => panic!("unexpected outcome: {:?}", other),
    }
}

#[test]
fn enough_depth_gives_the_same_value() {
    let g = convert_into_ghast(ghast_master().parse("1 + 2").unwrap());
    let mut printed = Vec::new();
    assert!(matches!(eval_with_fuel(&g, 1, &mut printed), Evaluated::OutOfFuel));
    assert!(matches!(eval_with_fuel(&g, 3, &mut printed), Evaluated::Val(Value::I32(3))));
    assert!(matches!(eval_with_fuel(&g, 100, &mut printed), Evaluated::Val(Value::I32(3))));
    assert!(printed.is_empty());
}

#[test]
fn evaluation_starts_from_an_empty_environment() {
    // `eq` is a built-in that `register` binds, but evaluation resolves
    // only the arithmetic, sign, `not` and `print` names by itself.
    match interpret("eq") {
        Interpretation::EvalFailed(EvalError::UndefinedSymbol(name), _) => assert_eq!(name, "eq"),
        other => panic!("unexpected outcome: {:?}", other),
    }
    assert_eq!(value_of("add").display(), "add");
}

#[test]
fn closure_sees_its_captured_environment() {
    // a closure sees its captured environment plus its parameter
    assert_eq!(int_of("(\\x -> (\\y -> x + y) 2) 40"), 42);
}

#[test]
fn evaluation_reads_the_callers_environment_only() {
    let mut env = Env::new();
    env.insert("x".to_string(), Value::I32(5));
    let g = convert_into_ghast(ghast_master().parse("(\\y -> x + y) 2").unwrap());
    let mut printed = Vec::new();
    assert!(matches!(eval_with_env(&g, &env, 100, &mut printed), Value::I32(7)));
    assert_eq!(env.bindings.len(), 1);
    assert!(matches!(env.get("y"), None));
    let free = convert_into_ghast(ghast_master().parse("x").unwrap());
    assert!(matches!(try_eval_with_env(&free, &Env::new(), 100, &mut printed), Evaluated::Error(EvalError::UndefinedSymbol(_))));
}
