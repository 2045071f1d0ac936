use ghast::combinator::ParseError;
use ghast::parser;
use ghast::primary::{create_peg_grammar, grammar_test1, Expression, Grammar};

fn debug_of(input: &str) -> String {
    format!("{:?}", parser::ghast_master().parse(input))
}

#[test]
fn single_symbol_is_a_run_of_one() {
    assert_eq!(debug_of("foo"), "Ok(Binops(Binops { terms: [Symbol(\"foo\")], ops: [] }))");
}

#[test]
fn ampersand_run_stores_terms_last_first() {
    assert_eq!(
        debug_of("a & b & c"),
        "Ok(Binops(Binops { terms: [Symbol(\"c\"), Symbol(\"b\"), Symbol(\"a\")], ops: [\"&\", \"&\"] }))"
    );
    assert_eq!(
        debug_of("1&x"),
        "Ok(Binops(Binops { terms: [Symbol(\"x\"), I32(1)], ops: [\"&\"] }))"
    );
}

#[test]
fn lambda_body_takes_the_rest_of_the_run() {
    assert_eq!(
        debug_of("\\x -> x & 2"),
        "Ok(Binops(Binops { terms: [Fn(\"x\", Binops(Binops { terms: [I32(2), Symbol(\"x\")], ops: [\"&\"] }))], ops: [] }))"
    );
}

#[test]
fn dangling_ampersand_stops_the_run() {
    match parser::ghast_master().parse("a &") {
        Err(ParseError::IncompleteParse(g, 1)) => {
            assert_eq!(format!("{:?}", g), "Binops(Binops { terms: [Symbol(\"a\")], ops: [] })");
        }
        other => panic!("unexpected parse: {:?}", other),
    }
}

#[test]
fn leading_space_is_unmatched() {
    assert!(matches!(parser::ghast_master().parse(" a"), Err(ParseError::Unmatched)));
    assert!(matches!(parser::ghast_master().parse(""), Err(ParseError::Unmatched)));
}

#[test]
fn juxtaposition_is_not_an_operator_here() {
    match parser::ghast_master().parse("a b") {
        Err(ParseError::IncompleteParse(_, 1)) => {}
        other => panic!("unexpected parse: {:?}", other),
    }
}

#[test]
fn overflowing_literal_aborts() {
    assert!(parser::ghast_master().try_parse("2147483648").is_none());
    assert!(parser::ghast_master().try_parse("a & 99999999999").is_none());
    assert_eq!(
        format!("{:?}", parser::ghast_master().try_parse("2147483647")),
        "Some(Ok(Binops(Binops { terms: [I32(2147483647)], ops: [] })))"
    );
}

#[test]
fn peg_grammar_has_three_rules() {
    let g = create_peg_grammar();
    assert_eq!(g.start(), "S");
    assert_eq!(
        format!("{:?}", g.rule("S")),
        "Some(OrderedChoice(Sequence(NonTerminal(\"A\"), NonTerminal(\"B\")), Sequence(NonTerminal(\"A\"), NonTerminal(\"A\"))))"
    );
    assert!(matches!(g.rule("A"), Some(Expression::Terminal('a'))));
    assert_eq!(format!("{:?}", g.rule("B")), "Some(Sequence(Terminal('a'), Terminal('b')))");
    assert!(g.rule("C").is_none());
}

#[test]
fn recursive_test_grammar() {
    let g = grammar_test1();
    assert_eq!(g.start(), "S");
    assert_eq!(
        format!("{:?}", g.rule("S")),
        "Some(OrderedChoice(Sequence(Terminal('a'), Sequence(NonTerminal(\"S\"), Any)), Terminal('b')))"
    );
}

#[test]
fn adding_a_rule_again_replaces_it() {
    let mut g = Grammar::new("top");
    assert!(g.rule("top").is_none());
    g.add_rule("top", Expression::Any);
    g.add_rule("other", Expression::Terminal('x'));
    g.add_rule("top", Expression::Terminal('y'));
    assert!(matches!(g.rule("top"), Some(Expression::Terminal('y'))));
    assert!(matches!(g.rule("other"), Some(Expression::Terminal('x'))));
    assert_eq!(g.start(), "top");
}

#[test]
fn run_parts_are_readable() {
    match parser::ghast_master().parse("x & 7") {
        Ok(parser::Ghast::Binops(b)) => {
            assert_eq!(b.ops(), &vec!["&".to_string()]);
            assert_eq!(b.terms().len(), 2);
            assert!(matches!(b.terms()[0], parser::Ghast::I32(7)));
            assert!(matches!(b.terms()[1], parser::Ghast::Symbol(ref s) if s == "x"));
        }
        other => panic!("unexpected parse: {:?}", other),
    }
}
