//! A smaller grammar of the same language: functions, symbols and integer
//! literals joined by `&`. The run of terms is read right to left, so the
//! terms of a `Binops` are stored last term first.
use vstd::prelude::*;
use crate::combinator::ParseError;
use crate::phase2::{
    at, digits_end, digits_value, id_at, starts_with, ws_end, lemma_ws_end, SRes, Step,
    FlatIR, FlatM, Literal, LitM,
};

verus! {

/// A run of terms joined by operators. The grammar stores the terms in the
/// reverse of their order in the source, and one operator fewer than terms.
#[derive(Debug)]
pub struct Binops {
    terms: Vec<Ghast>,
    ops: Vec<String>,
}

/// The tree that this grammar produces.
#[derive(Debug)]
pub enum Ghast {
    Symbol(String),
    Fn(String, Box<Ghast>),
    Binops(Binops),
    I32(i32),
}

/// The mathematical content of a tree.
pub enum AstM {
    Symbol(Seq<char>),
    Fn(Seq<char>, Box<AstM>),
    Binops(Seq<AstM>, Seq<Seq<char>>),
    I32(i32),
}

pub closed spec fn ast_view(g: Ghast) -> AstM
    decreases g,
{
    match g {
        Ghast::Symbol(s) => AstM::Symbol(s@),
        Ghast::Fn(a, b) => AstM::Fn(a@, Box::new(ast_view(*b))),
        Ghast::Binops(b) => AstM::Binops(asts_view(b.terms@), b.ops@.map_values(|o: String| o@)),
        Ghast::I32(v) => AstM::I32(v),
    }
}

pub closed spec fn asts_view(s: Seq<Ghast>) -> Seq<AstM>
    decreases s,
{
    if s.len() == 0 {
        Seq::empty()
    } else {
        asts_view(s.subrange(0, s.len() - 1)).push(ast_view(s[s.len() - 1]))
    }
}

impl View for Ghast {
    type V = AstM;

    closed spec fn view(&self) -> AstM {
        ast_view(*self)
    }
}

impl View for Binops {
    type V = (Seq<AstM>, Seq<Seq<char>>);

    closed spec fn view(&self) -> (Seq<AstM>, Seq<Seq<char>>) {
        (asts_view(self.terms@), self.ops@.map_values(|o: String| o@))
    }
}

/// The view of a tree, node by node.
pub proof fn lemma_ast_view(g: Ghast)
    ensures
        match g {
            Ghast::Symbol(s) => g@ == AstM::Symbol(s@),
            Ghast::Fn(a, b) => g@ == AstM::Fn(a@, Box::new((*b)@)),
            Ghast::Binops(b) => g@ == AstM::Binops(b@.0, b@.1),
            Ghast::I32(v) => g@ == AstM::I32(v),
        },
{
}

/// The view of a sequence of trees is element-wise.
pub proof fn lemma_asts_view(s: Seq<Ghast>)
    ensures
        asts_view(s).len() == s.len(),
        forall|i: int| 0 <= i < s.len() ==> #[trigger] asts_view(s)[i] == ast_view(s[i]),
    decreases s.len(),
{
    if s.len() > 0 {
        lemma_asts_view(s.subrange(0, s.len() - 1));
        assert forall|i: int| 0 <= i < s.len() implies #[trigger] asts_view(s)[i] == ast_view(s[i]) by {
            if i < s.len() - 1 {
                assert(s.subrange(0, s.len() - 1)[i] == s[i]);
            }
        }
    }
}

proof fn lemma_asts_view_push(s: Seq<Ghast>, g: Ghast)
    ensures
        asts_view(s.push(g)) == asts_view(s).push(ast_view(g)),
{
    assert(s.push(g).subrange(0, s.len() as int) =~= s);
}

impl Binops {
    /// The terms of the run, last term of the source first.
    pub fn terms(&self) -> (r: &Vec<Ghast>)
        ensures
            asts_view(r@) == self@.0,
    {
        &self.terms
    }

    /// The operators of the run.
    pub fn ops(&self) -> (r: &Vec<String>)
        ensures
            r@.map_values(|o: String| o@) == self@.1,
    {
        &self.ops
    }
}

// ---------------------------------------------------------------------
// The grammar, as functions on the characters of the input
// ---------------------------------------------------------------------

/// The `&` between two terms, with optional whitespace on both sides: the
/// position after it.
pub open spec fn binop_sep(s: Seq<char>, p: int) -> Option<int> {
    let p1 = ws_end(s, p);
    if at(s, p1, '&') {
        Some(ws_end(s, p1 + 1))
    } else {
        None
    }
}

/// An integer literal: a non-empty run of ASCII digits. A run whose value
/// does not fit in `i32` aborts the parse.
pub open spec fn i32_rule(s: Seq<char>, p: int) -> SRes<AstM> {
    let e = digits_end(s, p);
    if 0 <= p && e > p {
        let v = digits_value(s.subrange(p, e));
        if v <= i32::MAX {
            SRes::Done(AstM::I32(v as i32), e)
        } else {
            SRes::Abort
        }
    } else {
        SRes::Fail
    }
}

/// A symbol: an identifier.
pub open spec fn symbol_rule(s: Seq<char>, p: int) -> SRes<AstM> {
    match id_at(s, p) {
        Some(e) => SRes::Done(AstM::Symbol(s.subrange(p, e)), e),
        None => SRes::Fail,
    }
}

/// `\`, an identifier, optional whitespace, `->`, optional whitespace, an
/// expression.
pub open spec fn fn_rule(s: Seq<char>, p: int) -> SRes<AstM>
    decreases s.len() - p, 0nat,
{
    if !at(s, p, '\\') {
        SRes::Fail
    } else {
        match id_at(s, p + 1) {
            None => SRes::Fail,
            Some(e) => {
                let p2 = ws_end(s, e);
                if !starts_with(s, p2, seq!['-', '>']) {
                    SRes::Fail
                } else {
                    let p3 = ws_end(s, p2 + 2);
                    if p3 <= p || p3 > s.len() {
                        SRes::Fail
                    } else {
                        match master_rule(s, p3) {
                            SRes::Done(b, q) => SRes::Done(AstM::Fn(s.subrange(p + 1, e), Box::new(b)), q),
                            SRes::Fail => SRes::Fail,
                            SRes::Abort => SRes::Abort,
                        }
                    }
                }
            },
        }
    }
}

/// A term: the first of a function, a symbol and a literal that matches.
pub open spec fn term_rule(s: Seq<char>, p: int) -> SRes<AstM>
    decreases s.len() - p, 1nat,
{
    if p < 0 || p > s.len() {
        SRes::Fail
    } else {
        match fn_rule(s, p) {
            SRes::Fail => match symbol_rule(s, p) {
                SRes::Fail => i32_rule(s, p),
                r => r,
            },
            r => r,
        }
    }
}

/// A term, then either `&` and a run (the term is appended to the run's
/// terms, `&` to its operators) or nothing (a run of this term alone).
pub open spec fn binops_rule(s: Seq<char>, p: int) -> SRes<(Seq<AstM>, Seq<Seq<char>>)>
    decreases s.len() - p, 2nat,
{
    if p < 0 || p > s.len() {
        SRes::Fail
    } else {
        match term_rule(s, p) {
            SRes::Abort => SRes::Abort,
            SRes::Fail => SRes::Fail,
            SRes::Done(t, p1) => match binop_sep(s, p1) {
                None => SRes::Done((seq![t], Seq::empty()), p1),
                Some(p2) => if p2 <= p || p2 > s.len() {
                    SRes::Done((seq![t], Seq::empty()), p1)
                } else {
                    match binops_rule(s, p2) {
                        SRes::Done((ts, os), q) => SRes::Done((ts.push(t), os.push(seq!['&'])), q),
                        SRes::Fail => SRes::Done((seq![t], Seq::empty()), p1),
                        SRes::Abort => SRes::Abort,
                    }
                },
            },
        }
    }
}

/// An expression: a run of terms, as a `Binops`.
pub open spec fn master_rule(s: Seq<char>, p: int) -> SRes<AstM>
    decreases s.len() - p, 3nat,
{
    if p < 0 || p > s.len() {
        SRes::Fail
    } else {
        match binops_rule(s, p) {
            SRes::Done((ts, os), q) => SRes::Done(AstM::Binops(ts, os), q),
            SRes::Fail => SRes::Fail,
            SRes::Abort => SRes::Abort,
        }
    }
}

/// What a whole-input parse yields, when no literal overflows.
pub open spec fn spec_parse(s: Seq<char>) -> Result<AstM, ParseError<AstM>> {
    match master_rule(s, 0) {
        SRes::Done(v, q) => if q == s.len() {
            Ok(v)
        } else {
            Err(ParseError::IncompleteParse(v, q as usize))
        },
        _ => Err(ParseError::Unmatched),
    }
}

pub open spec fn parse_result_view(r: Result<Ghast, ParseError<Ghast>>) -> Result<AstM, ParseError<AstM>> {
    match r {
        Ok(v) => Ok(v@),
        Err(ParseError::Unmatched) => Err(ParseError::Unmatched),
        Err(ParseError::IncompleteParse(v, q)) => Err(ParseError::IncompleteParse(v@, q)),
    }
}

} // verus!

verus! {

// ---------------------------------------------------------------------
// The shape of what the grammar produces
// ---------------------------------------------------------------------

/// Every run in the tree has one operator fewer than terms, and every
/// operator is `&`.
pub open spec fn well_shaped(a: AstM) -> bool
    decreases a,
{
    match a {
        AstM::Binops(ts, os) => {
            &&& ts.len() == os.len() + 1
            &&& forall|i: int| 0 <= i < os.len() ==> #[trigger] os[i] == seq!['&']
            &&& forall|i: int| 0 <= i < ts.len() ==> well_shaped(#[trigger] ts[i])
        },
        AstM::Fn(_, b) => well_shaped(*b),
        _ => true,
    }
}

proof fn lemma_fn_shaped(s: Seq<char>, p: int)
    ensures
        fn_rule(s, p) matches SRes::Done(a, _) ==> well_shaped(a),
    decreases s.len() - p, 0nat,
{
    if at(s, p, '\\') {
        if let Some(e) = id_at(s, p + 1) {
            let p2 = ws_end(s, e);
            let p3 = ws_end(s, p2 + 2);
            if starts_with(s, p2, seq!['-', '>']) && p < p3 <= s.len() {
                lemma_master_shaped(s, p3);
            }
        }
    }
}

proof fn lemma_term_shaped(s: Seq<char>, p: int)
    ensures
        term_rule(s, p) matches SRes::Done(a, _) ==> well_shaped(a),
    decreases s.len() - p, 1nat,
{
    if 0 <= p <= s.len() {
        lemma_fn_shaped(s, p);
    }
}

proof fn lemma_binops_shaped(s: Seq<char>, p: int)
    ensures
        binops_rule(s, p) matches SRes::Done((ts, os), _) ==> well_shaped(AstM::Binops(ts, os)),
    decreases s.len() - p, 2nat,
{
    if 0 <= p <= s.len() {
        lemma_term_shaped(s, p);
        if let SRes::Done(t, p1) = term_rule(s, p) {
            if let Some(p2) = binop_sep(s, p1) {
                if p < p2 <= s.len() {
                    lemma_binops_shaped(s, p2);
                    if let SRes::Done((ts, os), _) = binops_rule(s, p2) {
                        let ts2 = ts.push(t);
                        let os2 = os.push(seq!['&']);
                        assert forall|i: int| 0 <= i < ts2.len() implies well_shaped(#[trigger] ts2[i]) by {
                            if i < ts.len() {
                                assert(ts2[i] == ts[i]);
                            }
                        }
                        assert forall|i: int| 0 <= i < os2.len() implies #[trigger] os2[i] == seq!['&'] by {
                            if i < os.len() {
                                assert(os2[i] == os[i]);
                            }
                        }
                    }
                }
            }
            let one = seq![t];
            assert forall|i: int| 0 <= i < one.len() implies well_shaped(#[trigger] one[i]) by {
                assert(one[i] == t);
            }
        }
    }
}

proof fn lemma_master_shaped(s: Seq<char>, p: int)
    ensures
        master_rule(s, p) matches SRes::Done(a, _) ==> well_shaped(a),
    decreases s.len() - p, 3nat,
{
    if 0 <= p <= s.len() {
        lemma_binops_shaped(s, p);
    }
}

/// Every tree that a parse of a whole input yields is well shaped: each run
/// holds one term more than operators, and each operator is `&`.
pub proof fn lemma_parse_well_shaped(s: Seq<char>)
    ensures
        spec_parse(s) matches Ok(a) ==> well_shaped(a),
        spec_parse(s) matches Err(ParseError::IncompleteParse(a, _)) ==> well_shaped(a),
{
    lemma_master_shaped(s, 0);
}

// ---------------------------------------------------------------------
// The grammar, executed
// ---------------------------------------------------------------------

pub open spec fn step_view(r: Step<Ghast>) -> SRes<AstM> {
    match r {
        Step::Fail => SRes::Fail,
        Step::Done(v, q) => SRes::Done(v@, q as int),
        Step::Abort => SRes::Abort,
    }
}

pub open spec fn binops_step_view(r: Step<Binops>) -> SRes<(Seq<AstM>, Seq<Seq<char>>)> {
    match r {
        Step::Fail => SRes::Fail,
        Step::Done(v, q) => SRes::Done(v@, q as int),
        Step::Abort => SRes::Abort,
    }
}

/// The `&` between two terms: the position after it and the operator.
fn binop(s: &Vec<char>, p: usize) -> (r: Option<(String, usize)>)
    requires
        p <= s.len(),
    ensures
        match r {
            Some((op, q)) => binop_sep(s@, p as int) == Some(q as int) && op@ == seq!['&'],
            None => binop_sep(s@, p as int) is None,
        },
        r matches Some((_, q)) ==> p < q <= s.len(),
{
    let p1 = crate::phase2::ws_end_exec(s, p);
    if p1 < s.len() && s[p1] == '&' {
        proof { lemma_ws_end(s@, p1 + 1); }
        let q = crate::phase2::ws_end_exec(s, p1 + 1);
        let mut op = String::new();
        crate::text::push_char(&mut op, '&');
        assert(op@ =~= seq!['&']);
        Some((op, q))
    } else {
        None
    }
}

/// A run of one term.
fn binops_new(term: Ghast) -> (r: Binops)
    ensures
        r@ == (seq![term@], Seq::<Seq<char>>::empty()),
{
    let mut terms = Vec::new();
    terms.push(term);
    proof {
        lemma_asts_view_push(Seq::empty(), term);
        assert(Seq::<Ghast>::empty().push(term) =~= terms@);
        assert(asts_view(Seq::<Ghast>::empty()) =~= Seq::<AstM>::empty());
    }
    let r = Binops { terms, ops: Vec::new() };
    assert(r@.1 =~= Seq::<Seq<char>>::empty());
    assert(r@.0 =~= seq![term@]);
    r
}

/// The run `right` with `left` appended to its terms and `op` to its
/// operators.
fn append_binop_term(left: Ghast, op: String, right: Binops) -> (r: Binops)
    ensures
        r@ == (right@.0.push(left@), right@.1.push(op@)),
{
    let mut right = right;
    let ghost old_terms = right.terms@;
    let ghost old_ops = right.ops@;
    right.terms.push(left);
    right.ops.push(op);
    proof {
        lemma_asts_view_push(old_terms, left);
        assert(right.ops@.map_values(|o: String| o@) =~= old_ops.map_values(|o: String| o@).push(op@));
    }
    right
}

/// An integer literal.
fn ghast_i32(s: &Vec<char>, p: usize) -> (r: Step<Ghast>)
    requires
        p <= s.len(),
    ensures
        step_view(r) == i32_rule(s@, p as int),
        r matches Step::Done(_, q) ==> p < q <= s.len(),
{
    proof { crate::phase2::lemma_digits_end(s@, p as int); }
    match crate::phase2::lit_exec(s, p) {
        Step::Done(FlatIR::Lit(Literal::I32(v)), e) => {
            assert(ast_view(Ghast::I32(v)) == AstM::I32(v));
            Step::Done(Ghast::I32(v), e)
        },
        Step::Abort => Step::Abort,
        _ => Step::Fail,
    }
}

/// A symbol.
fn ghast_symbol(s: &Vec<char>, p: usize) -> (r: Step<Ghast>)
    requires
        p <= s.len(),
    ensures
        step_view(r) == symbol_rule(s@, p as int),
        r matches Step::Done(_, q) ==> p < q <= s.len(),
{
    match crate::phase2::id_at_exec(s, p) {
        Some(e) => {
            let name = crate::text::string_of(s, p, e);
            assert(ast_view(Ghast::Symbol(name)) == AstM::Symbol(name@));
            Step::Done(Ghast::Symbol(name), e)
        },
        None => Step::Fail,
    }
}

/// A function: `\`, its parameter, `->`, its body.
fn ghast_fn(s: &Vec<char>, p: usize) -> (r: Step<Ghast>)
    requires
        p <= s.len(),
    ensures
        step_view(r) == fn_rule(s@, p as int),
        r matches Step::Done(_, q) ==> p < q <= s.len(),
    decreases s@.len() - p, 0nat,
{
    if !(p < s.len() && s[p] == '\\') {
        return Step::Fail;
    }
    match crate::phase2::id_at_exec(s, p + 1) {
        None => Step::Fail,
        Some(e) => {
            let p2 = crate::phase2::ws_end_exec(s, e);
            proof { reveal_strlit("->"); }
            assert("->"@ =~= seq!['-', '>']);
            if !crate::phase2::starts_with_exec(s, p2, "->") {
                return Step::Fail;
            }
            let p3 = crate::phase2::ws_end_exec(s, p2 + 2);
            match master_at(s, p3) {
                Step::Done(b, q) => {
                    let arg = crate::text::string_of(s, p + 1, e);
                    let g = Ghast::Fn(arg, Box::new(b));
                    assert(ast_view(g) == AstM::Fn(arg@, Box::new(ast_view(b))));
                    Step::Done(g, q)
                },
                Step::Fail => Step::Fail,
                Step::Abort => Step::Abort,
            }
        },
    }
}

/// A term: a function, a symbol or a literal, the first that matches.
fn term(s: &Vec<char>, p: usize) -> (r: Step<Ghast>)
    requires
        p <= s.len(),
    ensures
        step_view(r) == term_rule(s@, p as int),
        r matches Step::Done(_, q) ==> p < q <= s.len(),
    decreases s@.len() - p, 1nat,
{
    let r = ghast_fn(s, p);
    if !r.is_fail() {
        return r;
    }
    let r = ghast_symbol(s, p);
    if !r.is_fail() {
        return r;
    }
    ghast_i32(s, p)
}

/// A run of terms joined by `&`, read from the right.
fn ghast_binop_right(s: &Vec<char>, p: usize) -> (r: Step<Binops>)
    requires
        p <= s.len(),
    ensures
        binops_step_view(r) == binops_rule(s@, p as int),
        r matches Step::Done(_, q) ==> p < q <= s.len(),
    decreases s@.len() - p, 2nat,
{
    match term(s, p) {
        Step::Abort => Step::Abort,
        Step::Fail => Step::Fail,
        Step::Done(t, p1) => match binop(s, p1) {
            None => Step::Done(binops_new(t), p1),
            Some((op, p2)) => match ghast_binop_right(s, p2) {
                Step::Done(right, q) => Step::Done(append_binop_term(t, op, right), q),
                Step::Fail => Step::Done(binops_new(t), p1),
                Step::Abort => Step::Abort,
            },
        },
    }
}

fn master_at(s: &Vec<char>, p: usize) -> (r: Step<Ghast>)
    requires
        p <= s.len(),
    ensures
        step_view(r) == master_rule(s@, p as int),
        r matches Step::Done(_, q) ==> p < q <= s.len(),
    decreases s@.len() - p, 3nat,
{
    match ghast_binop_right(s, p) {
        Step::Done(b, q) => {
            let g = Ghast::Binops(b);
            assert(ast_view(g) == AstM::Binops(b@.0, b@.1));
            Step::Done(g, q)
        },
        Step::Fail => Step::Fail,
        Step::Abort => Step::Abort,
    }
}

/// The parser of whole expressions of this grammar.
pub struct GhastParser;

/// The parser of whole expressions: a run of terms joined by `&`.
pub fn ghast_master() -> (r: GhastParser) {
    GhastParser
}

impl GhastParser {
    /// Parses a whole input. `None` where an integer literal in it does not
    /// fit in `i32` (the parse aborts there).
    pub fn try_parse(&self, input: &str) -> (r: Option<Result<Ghast, ParseError<Ghast>>>)
        ensures
            (r is None) == (master_rule(input@, 0) is Abort),
            r matches Some(res) ==> parse_result_view(res) == spec_parse(input@),
    {
        let s = crate::text::chars_of(input);
        match master_at(&s, 0) {
            Step::Abort => None,
            Step::Fail => Some(Err(ParseError::Unmatched)),
            Step::Done(v, q) => if q == s.len() {
                Some(Ok(v))
            } else {
                Some(Err(ParseError::IncompleteParse(v, q)))
            },
        }
    }

    /// Parses a whole input: the tree when one expression covers it all.
    pub fn parse(&self, input: &str) -> (r: Result<Ghast, ParseError<Ghast>>)
        requires
            !(master_rule(input@, 0) is Abort),
        ensures
            parse_result_view(r) == spec_parse(input@),
    {
        match self.try_parse(input) {
            Some(r) => r,
            None => Err(ParseError::Unmatched),
        }
    }
}

} // verus!
