//! Character-level parser combinators: single characters, character
//! classes, fixed texts, options, repetitions and separated lists, and the
//! error that a whole-input parse reports.
use vstd::prelude::*;

verus! {

/// Why a parse of a whole input failed: nothing matched at its start, or
/// what matched (the value and the number of characters read) stops before
/// the end.
#[derive(Debug)]
pub enum ParseError<T> {
    Unmatched,
    IncompleteParse(T, usize),
}

} // verus!

verus! {

/// A class of single characters.
#[derive(Debug, Clone, Copy, PartialEq, Eq, Structural)]
pub enum CharClass {
    /// `'0'..='9'`.
    AsciiDigit,
    /// A digit in the given radix (`char::is_digit`).
    Digit(u32),
    /// A numeric character (`char::is_numeric`).
    Numeric,
    /// A whitespace character (`char::is_whitespace`).
    Whitespace,
}

/// One end of a range of repetition counts.
#[derive(Debug, Clone, Copy, PartialEq, Eq, Structural)]
pub enum Bound {
    Included(usize),
    Excluded(usize),
    Unbounded,
}

/// The least count that a range's start admits.
pub open spec fn lower_bound(b: Bound) -> nat {
    match b {
        Bound::Included(u) => u as nat,
        Bound::Excluded(u) => (u + 1) as nat,
        Bound::Unbounded => 0,
    }
}

/// The greatest count that a range's end admits, if it sets one.
pub open spec fn upper_bound(b: Bound) -> Option<nat> {
    match b {
        Bound::Included(u) => Some(u as nat),
        Bound::Excluded(u) => Some((u - 1) as nat),
        Bound::Unbounded => None,
    }
}

/// A parser of character sequences, built from the combinators below.
#[derive(Debug)]
pub enum Parser {
    /// One character of a class; yields it.
    Satisfy(CharClass),
    /// Exactly this character; yields it.
    Single(char),
    /// Exactly this text; yields the text.
    Chunk(String),
    /// The inner parser, or nothing; yields `Opt`.
    Opt(Box<Parser>),
    /// The first parser, else the second.
    Choice(Box<Parser>, Box<Parser>),
    /// The inner parser repeated, as often as it matches and reads
    /// something, up to the maximum; fails below the minimum.
    Many(Box<Parser>, usize, Option<usize>),
    /// One item, then as many `separator item` as match; yields the items.
    SepBy(Box<Parser>, Box<Parser>),
}

/// What a parser yields.
#[derive(Debug)]
pub enum Parsed {
    Char(char),
    Text(String),
    Opt(Option<Box<Parsed>>),
    List(Vec<Parsed>),
}

/// The mathematical content of a parser.
pub enum ParserM {
    Satisfy(CharClass),
    Single(char),
    Chunk(Seq<char>),
    Opt(Box<ParserM>),
    Choice(Box<ParserM>, Box<ParserM>),
    Many(Box<ParserM>, nat, Option<nat>),
    SepBy(Box<ParserM>, Box<ParserM>),
}

/// The mathematical content of what a parser yields.
pub enum ParsedM {
    Char(char),
    Text(Seq<char>),
    Opt(Option<Box<ParsedM>>),
    List(Seq<ParsedM>),
}

pub open spec fn parser_view(p: Parser) -> ParserM
    decreases p,
{
    match p {
        Parser::Satisfy(c) => ParserM::Satisfy(c),
        Parser::Single(c) => ParserM::Single(c),
        Parser::Chunk(t) => ParserM::Chunk(t@),
        Parser::Opt(q) => ParserM::Opt(Box::new(parser_view(*q))),
        Parser::Choice(a, b) => ParserM::Choice(Box::new(parser_view(*a)), Box::new(parser_view(*b))),
        Parser::Many(q, lo, hi) => ParserM::Many(
            Box::new(parser_view(*q)),
            lo as nat,
            match hi {
                Some(h) => Some(h as nat),
                None => None,
            },
        ),
        Parser::SepBy(a, b) => ParserM::SepBy(Box::new(parser_view(*a)), Box::new(parser_view(*b))),
    }
}

impl View for Parser {
    type V = ParserM;

    open spec fn view(&self) -> ParserM {
        parser_view(*self)
    }
}

pub open spec fn parsed_view(p: Parsed) -> ParsedM
    decreases p,
{
    match p {
        Parsed::Char(c) => ParsedM::Char(c),
        Parsed::Text(t) => ParsedM::Text(t@),
        Parsed::Opt(Some(b)) => ParsedM::Opt(Some(Box::new(parsed_view(*b)))),
        Parsed::Opt(None) => ParsedM::Opt(None),
        Parsed::List(v) => ParsedM::List(parseds_view(v@)),
    }
}

pub open spec fn parseds_view(s: Seq<Parsed>) -> Seq<ParsedM>
    decreases s,
{
    if s.len() == 0 {
        Seq::empty()
    } else {
        parseds_view(s.subrange(0, s.len() - 1)).push(parsed_view(s[s.len() - 1]))
    }
}

impl View for Parsed {
    type V = ParsedM;

    open spec fn view(&self) -> ParsedM {
        parsed_view(*self)
    }
}

/// Every radix in the parser is one that `char::is_digit` accepts.
pub open spec fn well_formed(p: ParserM) -> bool
    decreases p,
{
    match p {
        ParserM::Satisfy(CharClass::Digit(r)) => 2 <= r <= 36,
        ParserM::Satisfy(_) => true,
        ParserM::Single(_) => true,
        ParserM::Chunk(_) => true,
        ParserM::Opt(q) => well_formed(*q),
        ParserM::Choice(a, b) => well_formed(*a) && well_formed(*b),
        ParserM::Many(q, _, _) => well_formed(*q),
        ParserM::SepBy(a, b) => well_formed(*a) && well_formed(*b),
    }
}

/// The character belongs to the class.
pub open spec fn class_holds(k: CharClass, c: char) -> bool {
    match k {
        CharClass::AsciiDigit => crate::text::char_is_ascii_digit(c),
        CharClass::Digit(r) => crate::text::char_is_digit(c, r),
        CharClass::Numeric => crate::text::char_is_numeric(c),
        CharClass::Whitespace => crate::text::char_is_whitespace(c),
    }
}

/// Running a parser at position `pos`: what it yields and the position
/// after what it read, or `None` when it does not match there.
pub open spec fn spec_run(p: ParserM, s: Seq<char>, pos: int) -> Option<(ParsedM, int)>
    decreases s.len() - pos, p, 1nat,
{
    if pos < 0 || pos > s.len() {
        None
    } else {
        match p {
            ParserM::Satisfy(k) => if pos < s.len() && class_holds(k, s[pos]) {
                Some((ParsedM::Char(s[pos]), pos + 1))
            } else {
                None
            },
            ParserM::Single(c) => if pos < s.len() && s[pos] == c {
                Some((ParsedM::Char(c), pos + 1))
            } else {
                None
            },
            ParserM::Chunk(t) => if pos + t.len() <= s.len() && s.subrange(pos, pos + t.len()) == t {
                Some((ParsedM::Text(t), pos + t.len()))
            } else {
                None
            },
            ParserM::Opt(q) => match spec_run(*q, s, pos) {
                Some((v, e)) => Some((ParsedM::Opt(Some(Box::new(v))), e)),
                None => Some((ParsedM::Opt(None), pos)),
            },
            ParserM::Choice(a, b) => match spec_run(*a, s, pos) {
                Some(r) => Some(r),
                None => spec_run(*b, s, pos),
            },
            ParserM::Many(q, lo, hi) => {
                let (items, e) = spec_many(p, *q, hi, s, pos, 0);
                if items.len() >= lo {
                    Some((ParsedM::List(items), e))
                } else {
                    None
                }
            },
            ParserM::SepBy(item, sep) => match spec_run(*item, s, pos) {
                Some((h, e)) => if pos <= e <= s.len() {
                    let (items, e2) = spec_sep_rest(p, *item, *sep, s, e);
                    Some((ParsedM::List(seq![h] + items), e2))
                } else {
                    None
                },
                None => None,
            },
        }
    }
}

/// The repetitions of `q` from `pos` on, after `count` of them: the items
/// and the end. A repetition that reads nothing ends the run.
pub open spec fn spec_many(p: ParserM, q: ParserM, hi: Option<nat>, s: Seq<char>, pos: int, count: nat) -> (Seq<ParsedM>, int)
    decreases s.len() - pos, p, 0nat,
{
    if pos < 0 || pos > s.len() || !(p matches ParserM::Many(q2, _, _) && *q2 == q) {
        (Seq::empty(), pos)
    } else if hi matches Some(h) && count >= h {
        (Seq::empty(), pos)
    } else {
        match spec_run(q, s, pos) {
            Some((v, e)) => if pos < e <= s.len() {
                let (rest, e2) = spec_many(p, q, hi, s, e, count + 1);
                (seq![v] + rest, e2)
            } else {
                (Seq::empty(), pos)
            },
            None => (Seq::empty(), pos),
        }
    }
}

/// The `separator item` pairs from `pos` on: the items and the end.
pub open spec fn spec_sep_rest(p: ParserM, item: ParserM, sep: ParserM, s: Seq<char>, pos: int) -> (Seq<ParsedM>, int)
    decreases s.len() - pos, p, 0nat,
{
    if pos < 0 || pos > s.len() || !(p matches ParserM::SepBy(i2, s2) && *i2 == item && *s2 == sep) {
        (Seq::empty(), pos)
    } else {
        match spec_run(sep, s, pos) {
            Some((_, e1)) => if pos <= e1 <= s.len() {
                match spec_run(item, s, e1) {
                    Some((v, e2)) => if pos < e2 <= s.len() {
                        let (rest, e3) = spec_sep_rest(p, item, sep, s, e2);
                        (seq![v] + rest, e3)
                    } else {
                        (Seq::empty(), pos)
                    },
                    None => (Seq::empty(), pos),
                }
            } else {
                (Seq::empty(), pos)
            },
            None => (Seq::empty(), pos),
        }
    }
}

} // verus!

verus! {

pub open spec fn run_view(r: Option<(Parsed, usize)>) -> Option<(ParsedM, int)> {
    match r {
        Some((v, e)) => Some((v@, e as int)),
        None => None,
    }
}

pub open spec fn opt_nat(o: Option<usize>) -> Option<nat> {
    match o {
        Some(h) => Some(h as nat),
        None => None,
    }
}

proof fn lemma_parseds_view(s: Seq<Parsed>)
    ensures
        parseds_view(s).len() == s.len(),
        forall|i: int| 0 <= i < s.len() ==> #[trigger] parseds_view(s)[i] == parsed_view(s[i]),
    decreases s.len(),
{
    if s.len() > 0 {
        lemma_parseds_view(s.subrange(0, s.len() - 1));
        assert forall|i: int| 0 <= i < s.len() implies #[trigger] parseds_view(s)[i] == parsed_view(s[i]) by {
            if i < s.len() - 1 {
                assert(s.subrange(0, s.len() - 1)[i] == s[i]);
            }
        }
    }
}

/// An optional parser matches at every position of the input.
pub proof fn lemma_opt_matches(q: ParserM, s: Seq<char>, pos: int)
    requires
        0 <= pos <= s.len(),
    ensures
        spec_run(ParserM::Opt(Box::new(q)), s, pos) is Some,
{
}

/// A choice yields what its first parser yields where that one matches,
/// and otherwise what the second yields.
pub proof fn lemma_choice(a: ParserM, b: ParserM, s: Seq<char>, pos: int)
    requires
        0 <= pos <= s.len(),
    ensures
        spec_run(a, s, pos) is Some ==> spec_run(ParserM::Choice(Box::new(a), Box::new(b)), s, pos) == spec_run(a, s, pos),
        spec_run(a, s, pos) is None ==> spec_run(ParserM::Choice(Box::new(a), Box::new(b)), s, pos) == spec_run(b, s, pos),
{
}

/// A separated list yields at least one item.
pub proof fn lemma_sep_by_nonempty(item: ParserM, sep: ParserM, s: Seq<char>, pos: int)
    ensures
        spec_run(ParserM::SepBy(Box::new(item), Box::new(sep)), s, pos) matches Some((v, _)) ==> v matches ParsedM::List(items) && items.len() >= 1,
{
}

proof fn lemma_many_count(p: ParserM, q: ParserM, hi: Option<nat>, s: Seq<char>, pos: int, count: nat)
    requires
        hi matches Some(h) ==> count <= h,
    ensures
        hi matches Some(h) ==> spec_many(p, q, hi, s, pos, count).0.len() + count <= h,
    decreases s.len() - pos,
{
    if 0 <= pos <= s.len() && (p matches ParserM::Many(q2, _, _) && *q2 == q) {
        if !(hi matches Some(h) && count >= h) {
            if let Some((v, e)) = spec_run(q, s, pos) {
                if pos < e <= s.len() {
                    lemma_many_count(p, q, hi, s, e, count + 1);
                }
            }
        }
    }
}

/// A repetition yields at least its minimum and at most its maximum
/// number of items.
pub proof fn lemma_many_bounds(q: ParserM, lo: nat, hi: Option<nat>, s: Seq<char>, pos: int)
    ensures
        spec_run(ParserM::Many(Box::new(q), lo, hi), s, pos) matches Some((v, _)) ==> v matches ParsedM::List(items)
            && lo <= items.len() && (hi matches Some(h) ==> items.len() <= h),
{
    lemma_many_count(ParserM::Many(Box::new(q), lo, hi), q, hi, s, pos, 0);
}

fn prepend(v: Parsed, rest: Vec<Parsed>) -> (r: Vec<Parsed>)
    ensures
        parseds_view(r@) == seq![v@] + parseds_view(rest@),
{
    let ghost old_rest = rest@;
    let ghost vv = v@;
    let mut r = rest;
    r.insert(0, v);
    proof {
        lemma_parseds_view(r@);
        lemma_parseds_view(old_rest);
        assert(parseds_view(r@) =~= seq![vv] + parseds_view(old_rest));
    }
    r
}

fn class_holds_exec(k: CharClass, c: char) -> (r: bool)
    requires
        k matches CharClass::Digit(radix) ==> 2 <= radix <= 36,
    ensures
        r == class_holds(k, c),
{
    match k {
        CharClass::AsciiDigit => crate::text::is_ascii_digit(c),
        CharClass::Digit(radix) => crate::text::is_digit(c, radix),
        CharClass::Numeric => crate::text::is_numeric(c),
        CharClass::Whitespace => crate::text::is_whitespace(c),
    }
}

fn chunk_at(s: &Vec<char>, pos: usize, t: &String) -> (r: bool)
    requires
        pos <= s.len(),
    ensures
        r == (pos + t@.len() <= s.len() && s@.subrange(pos as int, pos + t@.len()) == t@),
{
    let tv = crate::text::chars_of(t.as_str());
    if tv.len() > s.len() - pos {
        return false;
    }
    let mut i: usize = 0;
    while i < tv.len()
        invariant
            tv@ == t@,
            pos + tv.len() <= s.len(),
            i <= tv.len(),
            s@.subrange(pos as int, pos + i) == tv@.subrange(0, i as int),
        decreases tv.len() - i,
    {
        if s[pos + i] != tv[i] {
            assert(s@.subrange(pos as int, pos + tv.len())[i as int] != tv@[i as int]);
            return false;
        }
        i = i + 1;
        assert(s@.subrange(pos as int, pos + i) =~= tv@.subrange(0, i as int)) by {
            assert forall|k: int| 0 <= k < i implies s@.subrange(pos as int, pos + i)[k] == tv@.subrange(0, i as int)[k] by {
                if k < i - 1 {
                    assert(s@.subrange(pos as int, pos + i - 1)[k] == tv@.subrange(0, i - 1)[k]);
                }
            }
        }
    }
    assert(tv@.subrange(0, tv.len() as int) =~= tv@);
    true
}

fn char_parsed(c: char) -> (r: Parsed)
    ensures
        r@ == ParsedM::Char(c),
{
    Parsed::Char(c)
}

fn satisfy_at(k: CharClass, s: &Vec<char>, pos: usize) -> (r: Option<(Parsed, usize)>)
    requires
        pos <= s.len(),
        well_formed(ParserM::Satisfy(k)),
    ensures
        run_view(r) == spec_run(ParserM::Satisfy(k), s@, pos as int),
        r matches Some((_, e)) ==> pos <= e <= s.len(),
{
    if pos >= s.len() {
        return None;
    }
    let c = s[pos];
    if !class_holds_exec(k, c) {
        return None;
    }
    Some((char_parsed(c), pos + 1))
}

impl Parser {
    /// Runs the parser at position `pos` of `s` (see `spec_run`).
    pub fn run(&self, s: &Vec<char>, pos: usize) -> (r: Option<(Parsed, usize)>)
        requires
            pos <= s.len(),
            well_formed(self@),
        ensures
            run_view(r) == spec_run(self@, s@, pos as int),
            r matches Some((_, e)) ==> pos <= e <= s.len(),
        decreases s@.len() - pos, self@, 1nat,
    {
        match self {
            Parser::Satisfy(k) => satisfy_at(*k, s, pos),
            Parser::Single(c) => if pos < s.len() && s[pos] == *c {
                Some((Parsed::Char(*c), pos + 1))
            } else {
                None
            },
            Parser::Chunk(t) => if chunk_at(s, pos, t) {
                Some((Parsed::Text(t.clone()), pos + t.as_str().unicode_len()))
            } else {
                None
            },
            Parser::Opt(q) => match q.run(s, pos) {
                Some((v, e)) => Some((Parsed::Opt(Some(Box::new(v))), e)),
                None => Some((Parsed::Opt(None), pos)),
            },
            Parser::Choice(a, b) => match a.run(s, pos) {
                Some(r) => Some(r),
                None => b.run(s, pos),
            },
            Parser::Many(q, lo, hi) => {
                let (items, e) = self.many_from(q, *hi, s, pos, 0);
                proof {
                    lemma_parseds_view(items@);
                }
                if items.len() >= *lo {
                    Some((Parsed::List(items), e))
                } else {
                    None
                }
            },
            Parser::SepBy(item, sep) => match item.run(s, pos) {
                Some((h, e)) => {
                    let (items, e2) = self.sep_rest(item, sep, s, e);
                    Some((Parsed::List(prepend(h, items)), e2))
                },
                None => None,
            },
        }
    }

    fn many_from(&self, q: &Parser, hi: Option<usize>, s: &Vec<char>, pos: usize, count: usize) -> (r: (Vec<Parsed>, usize))
        requires
            pos <= s.len(),
            count <= pos,
            well_formed(q@),
            self@ matches ParserM::Many(q2, _, h2) && *q2 == q@ && h2 == opt_nat(hi),
        ensures
            (parseds_view(r.0@), r.1 as int) == spec_many(self@, q@, opt_nat(hi), s@, pos as int, count as nat),
            pos <= r.1 <= s.len(),
        decreases s@.len() - pos, self@, 0nat,
    {
        proof {
            lemma_parseds_view(Seq::<Parsed>::empty());
        }
        match hi {
            Some(h) => if count >= h {
                return (Vec::new(), pos);
            },
            None => {},
        }
        match q.run(s, pos) {
            Some((v, e)) => if pos < e {
                let (rest, e2) = self.many_from(q, hi, s, e, count + 1);
                (prepend(v, rest), e2)
            } else {
                (Vec::new(), pos)
            },
            None => (Vec::new(), pos),
        }
    }

    fn sep_rest(&self, item: &Parser, sep: &Parser, s: &Vec<char>, pos: usize) -> (r: (Vec<Parsed>, usize))
        requires
            pos <= s.len(),
            well_formed(item@),
            well_formed(sep@),
            self@ matches ParserM::SepBy(i2, s2) && *i2 == item@ && *s2 == sep@,
        ensures
            (parseds_view(r.0@), r.1 as int) == spec_sep_rest(self@, item@, sep@, s@, pos as int),
            pos <= r.1 <= s.len(),
        decreases s@.len() - pos, self@, 0nat,
    {
        proof {
            lemma_parseds_view(Seq::<Parsed>::empty());
        }
        match sep.run(s, pos) {
            Some((_, e1)) => match item.run(s, e1) {
                Some((v, e2)) => if pos < e2 {
                    let (rest, e3) = self.sep_rest(item, sep, s, e2);
                    (prepend(v, rest), e3)
                } else {
                    (Vec::new(), pos)
                },
                None => (Vec::new(), pos),
            },
            None => (Vec::new(), pos),
        }
    }

    /// Parses a whole input: what the parser yields when it reads all of it.
    pub fn parse(&self, input: &str) -> (r: Result<Parsed, ParseError<Parsed>>)
        requires
            well_formed(self@),
        ensures
            match spec_run(self@, input@, 0) {
                Some((v, e)) => if e == input@.len() {
                    r matches Ok(x) && x@ == v
                } else {
                    r matches Err(ParseError::IncompleteParse(x, k)) && x@ == v && k == e
                },
                None => r matches Err(ParseError::Unmatched),
            },
    {
        let s = crate::text::chars_of(input);
        match self.run(&s, 0) {
            Some((v, e)) => if e == s.len() {
                Ok(v)
            } else {
                Err(ParseError::IncompleteParse(v, e))
            },
            None => Err(ParseError::Unmatched),
        }
    }

    /// This parser, else `other` (ordered choice).
    pub fn choice(self, other: Parser) -> (r: Parser)
        ensures
            r@ == ParserM::Choice(Box::new(self@), Box::new(other@)),
    {
        Parser::Choice(Box::new(self), Box::new(other))
    }

    /// This parser repeated at least `min` and at most `max` times.
    pub fn many(self, min: Option<usize>, max: Option<usize>) -> (r: Parser)
        ensures
            r@ == ParserM::Many(
                Box::new(self@),
                match min { Some(m) => m as nat, None => 0 },
                opt_nat(max),
            ),
    {
        let lo = match min {
            Some(m) => m,
            None => 0,
        };
        Parser::Many(Box::new(self), lo, max)
    }

    /// This parser repeated as often as the range from `start` to `end`
    /// allows: an excluded start counts from the next number, an excluded
    /// end from the previous one, an unbounded side sets no limit.
    pub fn repeat(self, start: Bound, end: Bound) -> (r: Parser)
        requires
            start matches Bound::Excluded(u) ==> u < usize::MAX,
            end matches Bound::Excluded(u) ==> u > 0,
        ensures
            r@ == ParserM::Many(Box::new(self@), lower_bound(start), upper_bound(end)),
    {
        let min = match start {
            Bound::Included(u) => Some(u),
            Bound::Excluded(u) => Some(u + 1),
            Bound::Unbounded => None,
        };
        let max = match end {
            Bound::Included(u) => Some(u),
            Bound::Excluded(u) => Some(u - 1),
            Bound::Unbounded => None,
        };
        self.many(min, max)
    }

    /// One of this parser's items, then as many `p` followed by an item as
    /// match: the list of the items.
    pub fn sep_by(self, p: Parser) -> (r: Parser)
        ensures
            r@ == ParserM::SepBy(Box::new(self@), Box::new(p@)),
    {
        Parser::SepBy(Box::new(self), Box::new(p))
    }
}

/// Exactly the character `expected`.
pub fn single(expected: char) -> (r: Parser)
    ensures
        r@ == ParserM::Single(expected),
{
    Parser::Single(expected)
}

/// Exactly the text `expected`; yields that text.
pub fn chunk(expected: &str) -> (r: Parser)
    ensures
        r@ == ParserM::Chunk(expected@),
{
    Parser::Chunk(crate::text::string_of_str(expected))
}

/// One ASCII digit.
pub fn ascii_digit() -> (r: Parser)
    ensures
        r@ == ParserM::Satisfy(CharClass::AsciiDigit),
{
    Parser::Satisfy(CharClass::AsciiDigit)
}

/// One digit in the given radix.
pub fn digit(radix: u32) -> (r: Parser)
    ensures
        r@ == ParserM::Satisfy(CharClass::Digit(radix)),
{
    Parser::Satisfy(CharClass::Digit(radix))
}

/// One numeric character.
pub fn numeric() -> (r: Parser)
    ensures
        r@ == ParserM::Satisfy(CharClass::Numeric),
{
    Parser::Satisfy(CharClass::Numeric)
}

/// One whitespace character.
pub fn whitespace() -> (r: Parser)
    ensures
        r@ == ParserM::Satisfy(CharClass::Whitespace),
{
    Parser::Satisfy(CharClass::Whitespace)
}

/// `p`, or nothing.
pub fn opt(p: Parser) -> (r: Parser)
    ensures
        r@ == ParserM::Opt(Box::new(p@)),
{
    Parser::Opt(Box::new(p))
}

} // verus!
