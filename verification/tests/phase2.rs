use ghast::phase2::{ghast_master, FlatIR, Literal};

#[test]
fn parse_unary_minus_literal() {
    let ast = ghast_master().parse("-5").unwrap();
    match ast {
        FlatIR::UnaryOp(op, arg) => {
            assert_eq!(op, "-");
            match *arg {
                FlatIR::Lit(Literal::I32(value)) => assert_eq!(value, 5),
                other => panic!("unexpected unary operand: {:?}", other),
            }
        }
        other => panic!("unexpected parse result: {:?}", other),
    }
}

#[test]
fn parse_add_unary_minus() {
    let ast = ghast_master().parse("5 + - 3").unwrap();
    match ast {
        FlatIR::Binop(binop) => {
            assert_eq!(binop.ops, vec!["+".to_string()]);
            match &binop.terms[1] {
                FlatIR::UnaryOp(op, arg) => {
                    assert_eq!(op, "-");
                    match **arg {
                        FlatIR::Lit(Literal::I32(value)) => assert_eq!(value, 3),
                        ref other => panic!("unexpected unary operand: {:?}", other),
                    }
                }
                other => panic!("unexpected right term: {:?}", other),
            }
        }
        other => panic!("unexpected parse result: {:?}", other),
    }
}
