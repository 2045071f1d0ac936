use ghast::phase3::find_min_precedence_index;
use ghast::operator::{
    available_operators, available_operators_without_space, info, info_unary, operators, postfix_operators,
    prefix_operators, Fixity, APPLY_NAME,
};

#[test]
fn table_lists_every_spelling_in_order() {
    assert_eq!(available_operators(), vec!["+", "-", "*", "/", "+", "-", "!", ""]);
    assert_eq!(available_operators_without_space(), vec!["+", "-", "*", "/", "+", "-", "!", ""]);
    assert_eq!(operators().len(), 8);
}

#[test]
fn unary_spellings() {
    assert_eq!(prefix_operators(), vec!["+", "-"]);
    assert_eq!(postfix_operators(), vec!["!"]);
}

#[test]
fn info_prefers_binary_entries() {
    let plus = info("+").unwrap();
    assert_eq!(plus.name, "add");
    assert_eq!(plus.fixity, Fixity::InfixLeft);
    assert_eq!(plus.precedence, 10);
    let times = info("*").unwrap();
    assert_eq!(times.name, "mul");
    assert_eq!(times.precedence, 20);
    let apply = info("").unwrap();
    assert_eq!(apply.name, APPLY_NAME);
    assert_eq!(apply.precedence, 300);
}

#[test]
fn info_knows_no_postfix_or_unknown_operator() {
    assert!(info("!").is_none());
    assert!(info("%").is_none());
    assert!(info("&").is_none());
}

#[test]
fn info_unary_by_position() {
    assert_eq!(info_unary("-", true).unwrap().name, "neg");
    assert_eq!(info_unary("+", true).unwrap().name, "pos");
    assert!(info_unary("-", false).is_none());
    assert_eq!(info_unary("!", false).unwrap().name, "not");
    assert_eq!(info_unary("!", false).unwrap().precedence, 15);
    assert!(info_unary("!", true).is_none());
    assert!(info_unary("*", true).is_none());
}

fn ops(v: &[&str]) -> Vec<String> {
    v.iter().map(|s| s.to_string()).collect()
}

#[test]
fn split_operator_is_the_loosest_rightmost_for_left_associative() {
    assert_eq!(find_min_precedence_index(&ops(&["+"])), Ok(0));
    assert_eq!(find_min_precedence_index(&ops(&["+", "*"])), Ok(0));
    assert_eq!(find_min_precedence_index(&ops(&["*", "+", "-"])), Ok(2));
    assert_eq!(find_min_precedence_index(&ops(&["-", "-"])), Ok(1));
    assert_eq!(find_min_precedence_index(&ops(&["", "*", ""])), Ok(1));
}
