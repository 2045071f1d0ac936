use ghast::combinator::{ascii_digit, chunk, digit, numeric, opt, single, whitespace, Bound, ParseError, Parsed};

fn chars(p: &Parsed) -> String {
    match p {
        Parsed::Char(c) => c.to_string(),
        Parsed::List(items) => items.iter().map(chars).collect(),
        Parsed::Opt(Some(b)) => chars(b),
        Parsed::Text(t) => t.clone(),
        Parsed::Opt(None) => String::new(),
    }
}

#[test]
fn single_matches_one_character() {
    assert!(matches!(single('a').parse("a"), Ok(Parsed::Char('a'))));
    assert!(matches!(single('a').parse("b"), Err(ParseError::Unmatched)));
    assert!(matches!(single('a').parse("ab"), Err(ParseError::IncompleteParse(Parsed::Char('a'), 1))));
}

#[test]
fn chunk_matches_a_text() {
    assert!(matches!(chunk("->").parse("->"), Ok(Parsed::Text(ref t)) if t == "->"));
    assert!(matches!(chunk("->").parse("-"), Err(ParseError::Unmatched)));
    assert!(matches!(chunk("日本").parse("日本語"), Err(ParseError::IncompleteParse(Parsed::Text(ref t), 2)) if t == "日本"));
    let sign = chunk("+").choice(chunk("-"));
    assert!(matches!(sign.parse("-"), Ok(Parsed::Text(ref t)) if t == "-"));
    assert!(matches!(chunk("").parse(""), Ok(Parsed::Text(ref t)) if t.is_empty()));
}

#[test]
fn character_classes() {
    assert!(matches!(ascii_digit().parse("7"), Ok(Parsed::Char('7'))));
    assert!(matches!(ascii_digit().parse("x"), Err(ParseError::Unmatched)));
    assert!(matches!(digit(16).parse("f"), Ok(Parsed::Char('f'))));
    assert!(matches!(digit(10).parse("f"), Err(ParseError::Unmatched)));
    assert!(matches!(numeric().parse("٣"), Ok(Parsed::Char('٣'))));
    assert!(matches!(whitespace().parse("\t"), Ok(Parsed::Char('\t'))));
    assert!(matches!(whitespace().parse("a"), Err(ParseError::Unmatched)));
}

#[test]
fn opt_always_matches() {
    assert!(matches!(opt(single('a')).parse(""), Ok(Parsed::Opt(None))));
    match opt(single('a')).parse("a") {
        Ok(Parsed::Opt(Some(b))) => assert!(matches!(*b, Parsed::Char('a'))),
        other => panic!("unexpected: {:?}", other),
    }
}

#[test]
fn choice_prefers_the_first() {
    let p = single('a').choice(ascii_digit());
    assert!(matches!(p.parse("a"), Ok(Parsed::Char('a'))));
    assert!(matches!(p.parse("5"), Ok(Parsed::Char('5'))));
    assert!(matches!(p.parse("-"), Err(ParseError::Unmatched)));
}

#[test]
fn many_respects_its_bounds() {
    let at_least_two = ascii_digit().many(Some(2), None);
    assert!(matches!(at_least_two.parse("1"), Err(ParseError::Unmatched)));
    assert_eq!(chars(&at_least_two.parse("1234").unwrap()), "1234");
    let at_most_two = ascii_digit().many(None, Some(2));
    match at_most_two.parse("123") {
        Err(ParseError::IncompleteParse(v, 2)) => assert_eq!(chars(&v), "12"),
        other => panic!("unexpected: {:?}", other),
    }
    match ascii_digit().many(None, None).parse("") {
        Ok(Parsed::List(items)) => assert!(items.is_empty()),
        other => panic!("unexpected: {:?}", other),
    }
}

#[test]
fn repeat_reads_range_bounds() {
    // 1.. : one or more
    let p = ascii_digit().repeat(Bound::Included(1), Bound::Unbounded);
    assert!(matches!(p.parse(""), Err(ParseError::Unmatched)));
    assert_eq!(chars(&p.parse("42").unwrap()), "42");
    // ..3 : at most two
    let q = ascii_digit().repeat(Bound::Unbounded, Bound::Excluded(3));
    match q.parse("123") {
        Err(ParseError::IncompleteParse(v, 2)) => assert_eq!(chars(&v), "12"),
        other => panic!("unexpected: {:?}", other),
    }
    // an excluded start counts from the next number
    let r = ascii_digit().repeat(Bound::Excluded(1), Bound::Included(3));
    assert!(matches!(r.parse("1"), Err(ParseError::Unmatched)));
    assert_eq!(chars(&r.parse("12").unwrap()), "12");
}

#[test]
fn sep_by_collects_items() {
    let p = ascii_digit().sep_by(single(','));
    assert_eq!(chars(&p.parse("1,2,3").unwrap()), "123");
    match p.parse("1,") {
        Err(ParseError::IncompleteParse(v, 1)) => assert_eq!(chars(&v), "1"),
        other => panic!("unexpected: {:?}", other),
    }
    assert!(matches!(p.parse(""), Err(ParseError::Unmatched)));
}
