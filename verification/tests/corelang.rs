use ghast::text::is_whitespace;
use ghast::corelang::{convert_into_core, try_convert_into_core, try_type_inference, type_inference, CoreType, CoreValue};
use ghast::format::type_debug_exec;
use ghast::ghast::{Binop, Ghast, Literal};
use ghast::phase3::ConvertError;
use ghast::utils::{coretype_to_machine, is_machine_representable, MachineType, SemanticError};

fn sym(s: &str) -> Ghast {
    Ghast::Symbol(s.to_string())
}

fn run(terms: Vec<Ghast>, ops: &[&str]) -> Ghast {
    Ghast::Binop(Binop { terms, ops: ops.iter().map(|o| o.to_string()).collect() })
}

#[test]
fn symbols_get_their_signatures() {
    let (v, t) = convert_into_core(sym("add"));
    assert!(matches!(v, CoreValue::Symbol(ref s) if s == "add"));
    assert_eq!(type_debug_exec(&t), "Fn(Tuple([I32, I32]), I32)");
    let (_, t) = convert_into_core(sym("print"));
    assert_eq!(type_debug_exec(&t), "Fn(I32, Tuple([]))");
    let (_, t) = convert_into_core(sym("x"));
    assert!(matches!(t, CoreType::Unknown));
}

#[test]
fn literals_and_tuples_are_typed() {
    let (_, t) = convert_into_core(Ghast::Lit(Literal::I32(3)));
    assert!(matches!(t, CoreType::I32));
    let (_, t) = convert_into_core(Ghast::Tuple(vec![Ghast::Lit(Literal::I32(1)), sym("y")]));
    assert_eq!(type_debug_exec(&t), "Tuple([I32, Unknown])");
}

#[test]
fn functions_take_the_body_type() {
    let (_, t) = convert_into_core(Ghast::Fn("x".to_string(), Box::new(Ghast::Lit(Literal::I32(1)))));
    assert_eq!(type_debug_exec(&t), "Fn(Unknown, I32)");
    let (_, t) = convert_into_core(Ghast::Fn(String::new(), Box::new(sym("add"))));
    assert_eq!(type_debug_exec(&t), "Fn(Tuple([]), Fn(Tuple([I32, I32]), I32))");
}

#[test]
fn binary_operator_applies_its_function_to_a_pair() {
    let (v, t) = convert_into_core(run(vec![Ghast::Lit(Literal::I32(1)), Ghast::Lit(Literal::I32(2))], &["+"]));
    assert!(matches!(t, CoreType::Unknown));
    match v {
        CoreValue::Apply(f, a) => {
            assert!(matches!(f.0, CoreValue::Symbol(ref s) if s == "add"));
            assert_eq!(type_debug_exec(&a.1), "Tuple([I32, I32])");
            assert!(matches!(a.0, CoreValue::Tuple(ref items) if items.len() == 2));
        }
        other => panic!("unexpected: {:?}", other),
    }
}

#[test]
fn juxtaposition_wraps_a_single_argument() {
    let (v, _) = convert_into_core(run(vec![sym("print"), Ghast::Lit(Literal::I32(5))], &[""]));
    match v {
        CoreValue::Apply(f, a) => {
            assert!(matches!(f.0, CoreValue::Symbol(ref s) if s == "print"));
            assert_eq!(type_debug_exec(&a.1), "Tuple([I32])");
        }
        other => panic!("unexpected: {:?}", other),
    }
}

#[test]
fn tighter_operator_goes_deeper() {
    // 1 + 2 * 3 splits at "+"
    let g = run(vec![Ghast::Lit(Literal::I32(1)), Ghast::Lit(Literal::I32(2)), Ghast::Lit(Literal::I32(3))], &["+", "*"]);
    match convert_into_core(g).0 {
        CoreValue::Apply(f, a) => {
            assert!(matches!(f.0, CoreValue::Symbol(ref s) if s == "add"));
            match a.0 {
                CoreValue::Tuple(items) => {
                    assert!(matches!(items[0].0, CoreValue::Lit(Literal::I32(1))));
                    assert!(matches!(items[1].0, CoreValue::Apply(..)));
                }
                other => panic!("unexpected: {:?}", other),
            }
        }
        other => panic!("unexpected: {:?}", other),
    }
}

#[test]
fn conversion_errors() {
    assert!(matches!(
        try_convert_into_core(run(vec![sym("a"), sym("b")], &["%"])),
        Err(ConvertError::UnknownOperator(ref op)) if op == "%"
    ));
    assert!(matches!(
        try_convert_into_core(run(vec![sym("a"), sym("b")], &[])),
        Err(ConvertError::NoOperators)
    ));
    assert!(matches!(
        try_convert_into_core(run(vec![sym("a"), sym("b"), sym("c")], &["+"])),
        Err(ConvertError::MalformedRun)
    ));
}

#[test]
fn inference_fills_application_types() {
    let applied = convert_into_core(run(vec![sym("add"), Ghast::Tuple(vec![Ghast::Lit(Literal::I32(1)), Ghast::Lit(Literal::I32(2))])], &[""]));
    let (_, t) = type_inference(applied).unwrap();
    assert!(matches!(t, CoreType::I32));
    let f = convert_into_core(Ghast::Fn("x".to_string(), Box::new(Ghast::Lit(Literal::I32(1)))));
    let (_, t) = type_inference(f).unwrap();
    assert_eq!(type_debug_exec(&t), "Fn(Unknown, I32)");
    let lit = convert_into_core(Ghast::Lit(Literal::I32(4)));
    assert!(matches!(type_inference(lit).unwrap().1, CoreType::I32));
}

#[test]
fn inference_refuses_applying_an_untyped_function() {
    let applied = convert_into_core(run(vec![sym("f"), Ghast::Lit(Literal::I32(1))], &[""]));
    assert!(try_type_inference(applied).is_none());
}

#[test]
fn machine_types() {
    assert!(matches!(coretype_to_machine(CoreType::I32), Ok(MachineType::I32)));
    match coretype_to_machine(CoreType::Tuple(vec![CoreType::I32, CoreType::Tuple(vec![CoreType::I32])])) {
        Ok(MachineType::Struct(items)) => {
            assert_eq!(items.len(), 2);
            assert!(matches!(items[1], MachineType::Struct(ref inner) if inner.len() == 1));
        }
        other => panic!("unexpected: {:?}", other),
    }
    match coretype_to_machine(CoreType::Fn(Box::new(CoreType::I32), Box::new(CoreType::Unknown))) {
        Err(SemanticError::TypeConversionFailed(msg)) => {
            assert_eq!(msg, "CoreTypeからBasicTypeEnumへ変換できません: Fn(I32, Unknown)")
        }
        other => panic!("unexpected: {:?}", other),
    }
    assert!(matches!(coretype_to_machine(CoreType::Unknown), Err(SemanticError::TypeConversionFailed(_))));
    assert!(is_machine_representable(&CoreType::Tuple(vec![])));
    assert!(!is_machine_representable(&CoreType::Tuple(vec![CoreType::I32, CoreType::Unknown])));
}

#[test]
fn inference_twice_changes_nothing() {
    let applied = convert_into_core(run(vec![sym("add"), Ghast::Tuple(vec![Ghast::Lit(Literal::I32(1)), Ghast::Lit(Literal::I32(2))])], &[""]));
    let once = type_inference(applied).unwrap();
    let once_debug = format!("{:?}", once);
    let twice = type_inference(once).unwrap();
    assert_eq!(format!("{:?}", twice), once_debug);
}

#[test]
fn whitespace_is_the_unicode_set() {
    for c in [' ', '\t', '\n', '\r', '\u{0B}', '\u{0C}', '\u{85}', '\u{A0}', '\u{1680}', '\u{2000}', '\u{200A}', '\u{2028}', '\u{2029}', '\u{202F}', '\u{205F}', '\u{3000}'] {
        assert!(is_whitespace(c), "{:?}", c);
        assert_eq!(is_whitespace(c), c.is_whitespace());
    }
    for c in ['a', '1', '_', '\u{200B}', '\u{180E}', '\u{FEFF}'] {
        assert!(!is_whitespace(c), "{:?}", c);
        assert_eq!(is_whitespace(c), c.is_whitespace());
    }
}
