//! Parsing expression grammars as data: expressions over characters and
//! named rules, and two sample grammars built from them.
use vstd::prelude::*;
use crate::text::{string_of_str, text_eq};

verus! {

/// A parsing expression.
#[derive(Debug)]
pub enum Expression {
    /// Any one character.
    Any,
    /// Exactly this character.
    Terminal(char),
    /// The expression of the rule with this name.
    NonTerminal(String),
    /// The first expression, then the second.
    Sequence(Box<Expression>, Box<Expression>),
    /// The first expression, else the second.
    OrderedChoice(Box<Expression>, Box<Expression>),
}

/// The mathematical content of a parsing expression.
pub enum ExprM {
    Any,
    Terminal(char),
    NonTerminal(Seq<char>),
    Sequence(Box<ExprM>, Box<ExprM>),
    OrderedChoice(Box<ExprM>, Box<ExprM>),
}

pub open spec fn expr_view(e: Expression) -> ExprM
    decreases e,
{
    match e {
        Expression::Any => ExprM::Any,
        Expression::Terminal(c) => ExprM::Terminal(c),
        Expression::NonTerminal(n) => ExprM::NonTerminal(n@),
        Expression::Sequence(a, b) => ExprM::Sequence(Box::new(expr_view(*a)), Box::new(expr_view(*b))),
        Expression::OrderedChoice(a, b) => ExprM::OrderedChoice(Box::new(expr_view(*a)), Box::new(expr_view(*b))),
    }
}

impl View for Expression {
    type V = ExprM;

    open spec fn view(&self) -> ExprM {
        expr_view(*self)
    }
}

/// A grammar: the name of its start rule and its rules, each a name with an
/// expression. A later rule of a name replaces an earlier one.
#[derive(Debug)]
pub struct Grammar {
    start: String,
    rules: Vec<(String, Expression)>,
}

/// The mathematical content of a grammar: its start rule's name and the
/// expression of each named rule.
pub struct GrammarM {
    pub start: Seq<char>,
    pub rules: Map<Seq<char>, ExprM>,
}

/// The rules of a list, a later one of a name replacing an earlier one.
pub open spec fn rules_map(s: Seq<(String, Expression)>) -> Map<Seq<char>, ExprM>
    decreases s.len(),
{
    if s.len() == 0 {
        Map::empty()
    } else {
        rules_map(s.drop_last()).insert(s.last().0@, s.last().1@)
    }
}

impl View for Grammar {
    type V = GrammarM;

    closed spec fn view(&self) -> GrammarM {
        GrammarM { start: self.start@, rules: rules_map(self.rules@) }
    }
}

/// The last rule of the list with name `n` is the one the map holds; where
/// no rule has that name, the map holds none.
proof fn lemma_rules_map_last(s: Seq<(String, Expression)>, n: Seq<char>, j: int)
    requires
        -1 <= j < s.len(),
        forall|k: int| j < k < s.len() ==> #[trigger] s[k].0@ != n,
        0 <= j ==> s[j].0@ == n,
    ensures
        0 <= j ==> rules_map(s).contains_key(n) && rules_map(s)[n] == s[j].1@,
        j == -1 ==> !rules_map(s).contains_key(n),
    decreases s.len(),
{
    if s.len() > 0 {
        let d = s.drop_last();
        if j < s.len() - 1 {
            assert forall|k: int| j < k < d.len() implies #[trigger] d[k].0@ != n by {
                assert(d[k] == s[k]);
            }
            if 0 <= j {
                assert(d[j] == s[j]);
            }
            lemma_rules_map_last(d, n, j);
            assert(s[s.len() - 1].0@ != n);
        }
    }
}

impl Grammar {
    /// An empty grammar whose start rule is named `start`.
    pub fn new(start: &str) -> (r: Grammar)
        ensures
            r@.start == start@,
            r@.rules == Map::<Seq<char>, ExprM>::empty(),
    {
        Grammar { start: string_of_str(start), rules: Vec::new() }
    }

    /// Sets the rule named `name` to `expr`, replacing a rule of that name.
    pub fn add_rule(&mut self, name: &str, expr: Expression)
        ensures
            final(self)@.start == old(self)@.start,
            final(self)@.rules == old(self)@.rules.insert(name@, expr@),
    {
        let n = string_of_str(name);
        let ghost before = self.rules@;
        self.rules.push((n, expr));
        assert(self.rules@.drop_last() =~= before);
    }

    /// The name of the start rule.
    pub fn start(&self) -> (r: &str)
        ensures
            r@ == self@.start,
    {
        self.start.as_str()
    }

    /// The expression of the rule named `name`, if the grammar has one.
    pub fn rule(&self, name: &str) -> (r: Option<&Expression>)
        ensures
            match r {
                Some(e) => self@.rules.contains_key(name@) && e@ == self@.rules[name@],
                None => !self@.rules.contains_key(name@),
            },
    {
        let mut i = self.rules.len();
        while i > 0
            invariant
                i <= self.rules.len(),
                forall|k: int| i <= k < self.rules@.len() ==> #[trigger] self.rules@[k].0@ != name@,
            decreases i,
        {
            let entry = &self.rules[i - 1];
            if text_eq(entry.0.as_str(), name) {
                proof { lemma_rules_map_last(self.rules@, name@, i - 1); }
                return Some(&entry.1);
            }
            i = i - 1;
        }
        proof { lemma_rules_map_last(self.rules@, name@, -1); }
        None
    }
}

/// After a rule is added, its name gives the added expression, and every
/// other name keeps the rule it had (or still has none).
pub proof fn lemma_rule_after_add(g: GrammarM, name: Seq<char>, e: ExprM, other: Seq<char>)
    ensures
        g.rules.insert(name, e).contains_key(name),
        g.rules.insert(name, e)[name] == e,
        other != name ==> g.rules.insert(name, e).contains_key(other) == g.rules.contains_key(other),
        other != name && g.rules.contains_key(other) ==> g.rules.insert(name, e)[other] == g.rules[other],
{
}

fn any() -> (r: Expression)
    ensures
        r@ == ExprM::Any,
{
    Expression::Any
}

fn terminal(c: char) -> (r: Expression)
    ensures
        r@ == ExprM::Terminal(c),
{
    Expression::Terminal(c)
}

fn non_terminal(sym: &str) -> (r: Expression)
    ensures
        r@ == ExprM::NonTerminal(sym@),
{
    Expression::NonTerminal(string_of_str(sym))
}

fn sequence(e1: Expression, e2: Expression) -> (r: Expression)
    ensures
        r@ == ExprM::Sequence(Box::new(e1@), Box::new(e2@)),
{
    Expression::Sequence(Box::new(e1), Box::new(e2))
}

fn ordered_choice(e1: Expression, e2: Expression) -> (r: Expression)
    ensures
        r@ == ExprM::OrderedChoice(Box::new(e1@), Box::new(e2@)),
{
    Expression::OrderedChoice(Box::new(e1), Box::new(e2))
}

pub open spec fn nt(name: char) -> ExprM {
    ExprM::NonTerminal(seq![name])
}

pub open spec fn seq2(a: ExprM, b: ExprM) -> ExprM {
    ExprM::Sequence(Box::new(a), Box::new(b))
}

pub open spec fn choice2(a: ExprM, b: ExprM) -> ExprM {
    ExprM::OrderedChoice(Box::new(a), Box::new(b))
}

/// The grammar `S <- A B / A A`, `A <- 'a'`, `B <- 'a' 'b'`.
pub fn create_peg_grammar() -> (r: Grammar)
    ensures
        r@.start == seq!['S'],
        r@.rules == map![
            seq!['S'] => choice2(seq2(nt('A'), nt('B')), seq2(nt('A'), nt('A'))),
            seq!['A'] => ExprM::Terminal('a'),
            seq!['B'] => seq2(ExprM::Terminal('a'), ExprM::Terminal('b')),
        ],
{
    proof {
        reveal_strlit("S");
        reveal_strlit("A");
        reveal_strlit("B");
        assert("S"@ =~= seq!['S']);
        assert("A"@ =~= seq!['A']);
        assert("B"@ =~= seq!['B']);
    }
    let mut grammar = Grammar::new("S");
    grammar.add_rule(
        "S",
        ordered_choice(
            sequence(non_terminal("A"), non_terminal("B")),
            sequence(non_terminal("A"), non_terminal("A")),
        ),
    );
    grammar.add_rule("A", terminal('a'));
    grammar.add_rule("B", sequence(terminal('a'), terminal('b')));
    assert(grammar@.rules =~= map![
        seq!['S'] => choice2(seq2(nt('A'), nt('B')), seq2(nt('A'), nt('A'))),
        seq!['A'] => ExprM::Terminal('a'),
        seq!['B'] => seq2(ExprM::Terminal('a'), ExprM::Terminal('b')),
    ]);
    grammar
}

/// The grammar `S <- 'a' S . / 'b'`.
pub fn grammar_test1() -> (r: Grammar)
    ensures
        r@.start == seq!['S'],
        r@.rules == map![
            seq!['S'] => choice2(
                seq2(ExprM::Terminal('a'), seq2(nt('S'), ExprM::Any)),
                ExprM::Terminal('b'),
            ),
        ],
{
    proof {
        reveal_strlit("S");
        assert("S"@ =~= seq!['S']);
    }
    let mut grammar = Grammar::new("S");
    grammar.add_rule(
        "S",
        ordered_choice(sequence(terminal('a'), sequence(non_terminal("S"), any())), terminal('b')),
    );
    assert(grammar@.rules =~= map![
        seq!['S'] => choice2(
            seq2(ExprM::Terminal('a'), seq2(nt('S'), ExprM::Any)),
            ExprM::Terminal('b'),
        ),
    ]);
    grammar
}

} // verus!
