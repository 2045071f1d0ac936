//! The grammar of the surface language. It reads source text into a flat
//! tree (`FlatIR`) in which a run of terms and the operators between them
//! stays a flat list (`Binop`); precedence is resolved later.
use vstd::prelude::*;
use crate::combinator::ParseError;
use crate::operator::{available_operators_without_space, operator_table, spellings, strs_view, without};
use crate::text::{char_is_whitespace, char_is_alphabetic, char_is_alphanumeric, char_is_ascii_digit};

verus! {

/// A run of terms with the operators between them: `ops[i]` stands between
/// `terms[i]` and `terms[i + 1]`.
#[derive(Debug)]
pub struct Binop {
    pub terms: Vec<FlatIR>,
    pub ops: Vec<String>,
}

/// A literal value.
#[derive(Debug)]
pub enum Literal {
    I32(i32),
    Bool(bool),
    Str(String),
}

/// The flat tree that the grammar produces.
#[derive(Debug)]
pub enum FlatIR {
    Symbol(String),
    Fn(String, Box<FlatIR>),
    UnaryOp(String, Box<FlatIR>),
    Binop(Binop),
    Lit(Literal),
    Tuple(Vec<FlatIR>),
    Block(Vec<FlatIR>),
    IfElse(Box<FlatIR>, Box<FlatIR>, Box<FlatIR>),
}

/// The mathematical content of a literal.
pub enum LitM {
    I32(i32),
    Bool(bool),
    Str(Seq<char>),
}

/// The mathematical content of a flat tree.
pub enum FlatM {
    Symbol(Seq<char>),
    Fn(Seq<char>, Box<FlatM>),
    UnaryOp(Seq<char>, Box<FlatM>),
    Binop(Seq<FlatM>, Seq<Seq<char>>),
    Lit(LitM),
    Tuple(Seq<FlatM>),
    Block(Seq<FlatM>),
    IfElse(Box<FlatM>, Box<FlatM>, Box<FlatM>),
}

pub open spec fn lit_view(l: Literal) -> LitM {
    match l {
        Literal::I32(v) => LitM::I32(v),
        Literal::Bool(b) => LitM::Bool(b),
        Literal::Str(s) => LitM::Str(s@),
    }
}

impl View for Literal {
    type V = LitM;

    open spec fn view(&self) -> LitM {
        lit_view(*self)
    }
}

pub open spec fn strings_view(v: Seq<String>) -> Seq<Seq<char>> {
    v.map_values(|s: String| s@)
}

pub open spec fn flat_view(f: FlatIR) -> FlatM
    decreases f,
{
    match f {
        FlatIR::Symbol(s) => FlatM::Symbol(s@),
        FlatIR::Fn(a, b) => FlatM::Fn(a@, Box::new(flat_view(*b))),
        FlatIR::UnaryOp(o, b) => FlatM::UnaryOp(o@, Box::new(flat_view(*b))),
        FlatIR::Binop(b) => FlatM::Binop(flats_view(b.terms@), strings_view(b.ops@)),
        FlatIR::Lit(l) => FlatM::Lit(lit_view(l)),
        FlatIR::Tuple(v) => FlatM::Tuple(flats_view(v@)),
        FlatIR::Block(v) => FlatM::Block(flats_view(v@)),
        FlatIR::IfElse(c, t, e) => FlatM::IfElse(
            Box::new(flat_view(*c)),
            Box::new(flat_view(*t)),
            Box::new(flat_view(*e)),
        ),
    }
}

pub open spec fn flats_view(s: Seq<FlatIR>) -> Seq<FlatM>
    decreases s,
{
    if s.len() == 0 {
        Seq::empty()
    } else {
        flats_view(s.subrange(0, s.len() - 1)).push(flat_view(s[s.len() - 1]))
    }
}

impl View for FlatIR {
    type V = FlatM;

    open spec fn view(&self) -> FlatM {
        flat_view(*self)
    }
}

// ---------------------------------------------------------------------
// The grammar, as functions on the characters of the input
// ---------------------------------------------------------------------

/// What a grammar rule does at a position: it fails (and the caller may try
/// something else), it succeeds with a value and the position after what it
/// read, or it aborts the whole parse (a literal that does not fit in `i32`).
pub enum SRes<T> {
    Fail,
    Done(T, int),
    Abort,
}

/// The character at `p` is `c`.
pub open spec fn at(s: Seq<char>, p: int, c: char) -> bool {
    0 <= p < s.len() && s[p] == c
}

/// `s` holds the text `t` from position `p` on.
pub open spec fn starts_with(s: Seq<char>, p: int, t: Seq<char>) -> bool {
    0 <= p && p + t.len() <= s.len() && s.subrange(p, p + t.len()) == t
}

/// The end of the run of whitespace that starts at `p`.
pub open spec fn ws_end(s: Seq<char>, p: int) -> int
    decreases s.len() - p,
{
    if 0 <= p < s.len() && char_is_whitespace(s[p]) {
        ws_end(s, p + 1)
    } else {
        p
    }
}

pub open spec fn is_id_start(c: char) -> bool {
    c == '_' || char_is_alphabetic(c)
}

pub open spec fn is_id_continue(c: char) -> bool {
    c == '_' || char_is_alphanumeric(c)
}

/// The end of the run of identifier characters that starts at `p`.
pub open spec fn id_continue_end(s: Seq<char>, p: int) -> int
    decreases s.len() - p,
{
    if 0 <= p < s.len() && is_id_continue(s[p]) {
        id_continue_end(s, p + 1)
    } else {
        p
    }
}

/// The end of the run of ASCII digits that starts at `p`.
pub open spec fn digits_end(s: Seq<char>, p: int) -> int
    decreases s.len() - p,
{
    if 0 <= p < s.len() && char_is_ascii_digit(s[p]) {
        digits_end(s, p + 1)
    } else {
        p
    }
}

/// The end of an identifier that starts at `p`, if one does.
pub open spec fn id_at(s: Seq<char>, p: int) -> Option<int> {
    if 0 <= p < s.len() && is_id_start(s[p]) {
        Some(id_continue_end(s, p + 1))
    } else {
        None
    }
}

/// The decimal value of a run of ASCII digits.
pub open spec fn digits_value(ds: Seq<char>) -> int
    decreases ds.len(),
{
    if ds.len() == 0 {
        0
    } else {
        10 * digits_value(ds.drop_last()) + (ds.last() as int - '0' as int)
    }
}

/// The operator spellings that may stand between two terms.
pub open spec fn binop_spellings() -> Seq<Seq<char>> {
    without(spellings(operator_table()), seq![' '])
}

/// The first of `ops[i..]` that the input holds at `p`.
pub open spec fn first_op(s: Seq<char>, p: int, ops: Seq<Seq<char>>, i: int) -> Option<Seq<char>>
    decreases ops.len() - i,
{
    if i < 0 || i >= ops.len() {
        None
    } else if starts_with(s, p, ops[i]) {
        Some(ops[i])
    } else {
        first_op(s, p, ops, i + 1)
    }
}

/// The operator between two terms: optional whitespace, the first
/// operator spelling that matches, optional whitespace; or else a
/// non-empty run of whitespace, read as `" "`.
pub open spec fn binop_op(s: Seq<char>, p: int) -> Option<(Seq<char>, int)> {
    let p1 = ws_end(s, p);
    match first_op(s, p1, binop_spellings(), 0) {
        Some(op) => Some((op, ws_end(s, p1 + op.len()))),
        None => if 0 <= p < s.len() && char_is_whitespace(s[p]) {
            Some((seq![' '], ws_end(s, p)))
        } else {
            None
        },
    }
}

/// An integer literal: a non-empty run of ASCII digits. A run whose value
/// does not fit in `i32` aborts the parse.
pub open spec fn lit_rule(s: Seq<char>, p: int) -> SRes<FlatM> {
    let e = digits_end(s, p);
    if 0 <= p && e > p {
        let v = digits_value(s.subrange(p, e));
        if v <= i32::MAX {
            SRes::Done(FlatM::Lit(LitM::I32(v as i32)), e)
        } else {
            SRes::Abort
        }
    } else {
        SRes::Fail
    }
}

/// A symbol: an identifier.
pub open spec fn symbol_rule(s: Seq<char>, p: int) -> SRes<FlatM> {
    match id_at(s, p) {
        Some(e) => SRes::Done(FlatM::Symbol(s.subrange(p, e)), e),
        None => SRes::Fail,
    }
}

/// `+` or `-`, optional whitespace, a term.
pub open spec fn unary_rule(s: Seq<char>, p: int) -> SRes<FlatM>
    decreases s.len() - p, 0nat,
{
    if !(0 <= p < s.len()) || !(s[p] == '+' || s[p] == '-') {
        SRes::Fail
    } else {
        let op = seq![s[p]];
        let p1 = ws_end(s, p + 1);
        if p1 <= p || p1 > s.len() {
            SRes::Fail
        } else {
            match term_rule(s, p1) {
                SRes::Done(t, q) => SRes::Done(FlatM::UnaryOp(op, Box::new(t)), q),
                SRes::Fail => SRes::Fail,
                SRes::Abort => SRes::Abort,
            }
        }
    }
}

/// `\`, an identifier, optional whitespace, `->`, optional whitespace, an
/// expression.
pub open spec fn fn_rule(s: Seq<char>, p: int) -> SRes<FlatM>
    decreases s.len() - p, 0nat,
{
    if !at(s, p, '\\') {
        SRes::Fail
    } else {
        match id_at(s, p + 1) {
            None => SRes::Fail,
            Some(e) => {
                let p2 = ws_end(s, e);
                if !starts_with(s, p2, seq!['-', '>']) {
                    SRes::Fail
                } else {
                    let p3 = ws_end(s, p2 + 2);
                    if p3 <= p || p3 > s.len() {
                        SRes::Fail
                    } else {
                        match master_rule(s, p3) {
                            SRes::Done(b, q) => SRes::Done(
                                FlatM::Fn(s.subrange(p + 1, e), Box::new(b)),
                                q,
                            ),
                            SRes::Fail => SRes::Fail,
                            SRes::Abort => SRes::Abort,
                        }
                    }
                }
            }
        }
    }
}

/// `(`, optional whitespace, an expression, optional whitespace, `)`.
pub open spec fn paren_rule(s: Seq<char>, p: int) -> SRes<FlatM>
    decreases s.len() - p, 0nat,
{
    if !at(s, p, '(') {
        SRes::Fail
    } else {
        let p1 = ws_end(s, p + 1);
        if p1 <= p || p1 > s.len() {
            SRes::Fail
        } else {
            match master_rule(s, p1) {
                SRes::Done(t, p2) => {
                    let p3 = ws_end(s, p2);
                    if at(s, p3, ')') {
                        SRes::Done(t, p3 + 1)
                    } else {
                        SRes::Fail
                    }
                },
                SRes::Fail => SRes::Fail,
                SRes::Abort => SRes::Abort,
            }
        }
    }
}

/// Zero or more of: an expression followed by `,`.
pub open spec fn tuple_items_rule(s: Seq<char>, p: int) -> SRes<Seq<FlatM>>
    decreases s.len() - p, 5nat,
{
    if p < 0 || p > s.len() {
        SRes::Fail
    } else {
        match master_rule(s, p) {
            SRes::Abort => SRes::Abort,
            SRes::Fail => SRes::Done(Seq::empty(), p),
            SRes::Done(g, q) => if p <= q && at(s, q, ',') {
                match tuple_items_rule(s, q + 1) {
                    SRes::Done(gs, r) => SRes::Done(seq![g] + gs, r),
                    SRes::Fail => SRes::Fail,
                    SRes::Abort => SRes::Abort,
                }
            } else {
                SRes::Done(Seq::empty(), p)
            },
        }
    }
}

/// `(`, zero or more `expression ,`, an optional last expression, `)`.
pub open spec fn tuple_rule(s: Seq<char>, p: int) -> SRes<FlatM>
    decreases s.len() - p, 0nat,
{
    if !at(s, p, '(') {
        SRes::Fail
    } else {
        match tuple_items_rule(s, p + 1) {
            SRes::Abort => SRes::Abort,
            SRes::Fail => SRes::Fail,
            SRes::Done(gs, q) => if q <= p || q > s.len() {
                SRes::Fail
            } else {
                match master_rule(s, q) {
                    SRes::Abort => SRes::Abort,
                    SRes::Done(g, r) => if at(s, r, ')') {
                        SRes::Done(FlatM::Tuple(gs.push(g)), r + 1)
                    } else {
                        SRes::Fail
                    },
                    SRes::Fail => if at(s, q, ')') {
                        SRes::Done(FlatM::Tuple(gs), q + 1)
                    } else {
                        SRes::Fail
                    },
                }
            },
        }
    }
}

/// A term: the first of a unary operation, a function, a symbol, a
/// literal, a parenthesised expression and a tuple that matches.
pub open spec fn term_rule(s: Seq<char>, p: int) -> SRes<FlatM>
    decreases s.len() - p, 1nat,
{
    if p < 0 || p > s.len() {
        SRes::Fail
    } else {
        match unary_rule(s, p) {
            SRes::Fail => match fn_rule(s, p) {
                SRes::Fail => match symbol_rule(s, p) {
                    SRes::Fail => match lit_rule(s, p) {
                        SRes::Fail => match paren_rule(s, p) {
                            SRes::Fail => tuple_rule(s, p),
                            r => r,
                        },
                        r => r,
                    },
                    r => r,
                },
                r => r,
            },
            r => r,
        }
    }
}

/// Zero or more of: an operator followed by a term. Yields the operators
/// and the terms.
pub open spec fn rest_rule(s: Seq<char>, p: int) -> SRes<(Seq<Seq<char>>, Seq<FlatM>)>
    decreases s.len() - p, 2nat,
{
    if p < 0 || p > s.len() {
        SRes::Fail
    } else {
        match binop_op(s, p) {
            None => SRes::Done((Seq::empty(), Seq::empty()), p),
            Some((op, p1)) => if p1 < p || p1 > s.len() {
                SRes::Done((Seq::empty(), Seq::empty()), p)
            } else {
                match term_rule(s, p1) {
                    SRes::Abort => SRes::Abort,
                    SRes::Fail => SRes::Done((Seq::empty(), Seq::empty()), p),
                    SRes::Done(t, q) => if p < q && q <= s.len() {
                        match rest_rule(s, q) {
                            SRes::Done((ops, ts), r) => SRes::Done((seq![op] + ops, seq![t] + ts), r),
                            SRes::Fail => SRes::Fail,
                            SRes::Abort => SRes::Abort,
                        }
                    } else {
                        SRes::Done((Seq::empty(), Seq::empty()), p)
                    },
                }
            },
        }
    }
}

/// A term followed by zero or more `operator term`; a single term stands
/// for itself, more make a `Binop`.
pub open spec fn binop_rule(s: Seq<char>, p: int) -> SRes<FlatM>
    decreases s.len() - p, 3nat,
{
    if p < 0 || p > s.len() {
        SRes::Fail
    } else {
        match term_rule(s, p) {
            SRes::Abort => SRes::Abort,
            SRes::Fail => SRes::Fail,
            SRes::Done(h, p1) => if p1 < p || p1 > s.len() {
                SRes::Fail
            } else {
                match rest_rule(s, p1) {
                    SRes::Done((ops, ts), p2) => if ops.len() == 0 {
                        SRes::Done(h, p2)
                    } else {
                        SRes::Done(FlatM::Binop(seq![h] + ts, ops), p2)
                    },
                    SRes::Fail => SRes::Fail,
                    SRes::Abort => SRes::Abort,
                }
            },
        }
    }
}

/// An expression: optional whitespace, a run of terms and operators,
/// optional whitespace.
pub open spec fn master_rule(s: Seq<char>, p: int) -> SRes<FlatM>
    decreases s.len() - p, 4nat,
{
    if p < 0 || p > s.len() {
        SRes::Fail
    } else {
        let p1 = ws_end(s, p);
        if p1 < p || p1 > s.len() {
            SRes::Fail
        } else {
            match binop_rule(s, p1) {
                SRes::Done(b, p2) => SRes::Done(b, ws_end(s, p2)),
                SRes::Fail => SRes::Fail,
                SRes::Abort => SRes::Abort,
            }
        }
    }
}

} // verus!

verus! {

// ---------------------------------------------------------------------
// Facts about the rules
// ---------------------------------------------------------------------

/// The view of a sequence of flat trees is element-wise.
pub proof fn lemma_flats_view(s: Seq<FlatIR>)
    ensures
        flats_view(s).len() == s.len(),
        forall|i: int| 0 <= i < s.len() ==> #[trigger] flats_view(s)[i] == flat_view(s[i]),
    decreases s.len(),
{
    if s.len() > 0 {
        lemma_flats_view(s.subrange(0, s.len() - 1));
        assert forall|i: int| 0 <= i < s.len() implies #[trigger] flats_view(s)[i] == flat_view(s[i]) by {
            if i < s.len() - 1 {
                assert(s.subrange(0, s.len() - 1)[i] == s[i]);
            }
        }
    }
}

/// A run of whitespace ends within the input, at a character that is not
/// whitespace or at the end.
pub proof fn lemma_ws_end(s: Seq<char>, p: int)
    requires
        0 <= p <= s.len(),
    ensures
        p <= ws_end(s, p) <= s.len(),
        ws_end(s, p) < s.len() ==> !char_is_whitespace(s[ws_end(s, p)]),
    decreases s.len() - p,
{
    if p < s.len() && char_is_whitespace(s[p]) {
        lemma_ws_end(s, p + 1);
    }
}

/// A run of ASCII digits has a non-negative value.
pub proof fn lemma_digits_value_nonneg(ds: Seq<char>)
    requires
        forall|i: int| 0 <= i < ds.len() ==> #[trigger] char_is_ascii_digit(ds[i]),
    ensures
        digits_value(ds) >= 0,
    decreases ds.len(),
{
    if ds.len() > 0 {
        lemma_digits_value_nonneg(ds.drop_last());
        assert(char_is_ascii_digit(ds[ds.len() - 1]));
    }
}

/// A prefix of a run of digits is worth no more than the run.
pub proof fn lemma_digits_value_prefix(ds: Seq<char>, k: int)
    requires
        0 <= k <= ds.len(),
        forall|i: int| 0 <= i < ds.len() ==> #[trigger] char_is_ascii_digit(ds[i]),
    ensures
        0 <= digits_value(ds.subrange(0, k)) <= digits_value(ds),
    decreases ds.len(),
{
    lemma_digits_value_nonneg(ds.subrange(0, k));
    if k < ds.len() {
        let dl = ds.drop_last();
        lemma_digits_value_prefix(dl, k);
        assert(dl.subrange(0, k) =~= ds.subrange(0, k));
        lemma_digits_value_nonneg(dl);
        assert(char_is_ascii_digit(ds[ds.len() - 1]));
    } else {
        assert(ds.subrange(0, k) =~= ds);
    }
}

pub(crate) proof fn lemma_digits_end(s: Seq<char>, p: int)
    requires
        0 <= p <= s.len(),
    ensures
        p <= digits_end(s, p) <= s.len(),
        forall|i: int| p <= i < digits_end(s, p) ==> #[trigger] char_is_ascii_digit(s[i]),
    decreases s.len() - p,
{
    if p < s.len() && char_is_ascii_digit(s[p]) {
        lemma_digits_end(s, p + 1);
    }
}

proof fn lemma_id_continue_end(s: Seq<char>, p: int)
    requires
        0 <= p <= s.len(),
    ensures
        p <= id_continue_end(s, p) <= s.len(),
    decreases s.len() - p,
{
    if p < s.len() && is_id_continue(s[p]) {
        lemma_id_continue_end(s, p + 1);
    }
}

/// A character that may continue an identifier.
pub open spec fn continues_identifier(c: char) -> bool {
    c == '_' || crate::text::char_is_alphabetic(c) || crate::text::char_is_numeric(c)
}

proof fn lemma_id_continue_end_maximal(s: Seq<char>, q: int)
    requires
        0 <= q <= s.len(),
    ensures
        q <= id_continue_end(s, q) <= s.len(),
        forall|i: int| q <= i < id_continue_end(s, q) ==> continues_identifier(#[trigger] s[i]),
        id_continue_end(s, q) < s.len() ==> !continues_identifier(s[id_continue_end(s, q)]),
    decreases s.len() - q,
{
    if q < s.len() && continues_identifier(s[q]) {
        lemma_id_continue_end_maximal(s, q + 1);
    }
}

/// An identifier is maximal: it starts with `_` or an alphabetic character,
/// continues over every following `_`, alphabetic or numeric character
/// (digits included), and the character after it, if any, is none of these.
/// Where the character at `p` cannot start one, there is none.
pub proof fn lemma_id_maximal(s: Seq<char>, p: int)
    ensures
        id_at(s, p) matches Some(e) ==> {
            &&& 0 <= p < e <= s.len()
            &&& (s[p] == '_' || crate::text::char_is_alphabetic(s[p]))
            &&& forall|i: int| p < i < e ==> continues_identifier(#[trigger] s[i])
            &&& e < s.len() ==> !continues_identifier(s[e])
        },
        id_at(s, p) is None ==> !(0 <= p < s.len() && (s[p] == '_' || crate::text::char_is_alphabetic(s[p]))),
{
    if 0 <= p < s.len() && (s[p] == '_' || crate::text::char_is_alphabetic(s[p])) {
        lemma_id_continue_end_maximal(s, p + 1);
    }
}

/// A symbol that the grammar reads is the maximal identifier at its start
/// (see `lemma_id_maximal`), spelled as in the input.
pub proof fn lemma_symbol_maximal(s: Seq<char>, p: int)
    ensures
        symbol_rule(s, p) matches SRes::Done(FlatM::Symbol(n), e) ==> {
            &&& id_at(s, p) == Some(e)
            &&& n == s.subrange(p, e)
            &&& n.len() >= 1
            &&& forall|i: int| 0 < i < n.len() ==> continues_identifier(#[trigger] n[i])
            &&& e < s.len() ==> !continues_identifier(s[e])
        },
{
    lemma_id_maximal(s, p);
    if let Some(e) = id_at(s, p) {
        let n = s.subrange(p, e);
        assert forall|i: int| 0 < i < n.len() implies continues_identifier(#[trigger] n[i]) by {
            assert(n[i] == s[p + i]);
        }
    }
}

// ---------------------------------------------------------------------
// The shape of what the grammar produces
// ---------------------------------------------------------------------

/// Every run of terms in the tree has at least one operator and one term
/// more than operators (a lone term stands for itself, never as a run).
pub open spec fn runs_well_formed(f: FlatM) -> bool
    decreases f,
{
    match f {
        FlatM::Binop(ts, os) => {
            &&& os.len() >= 1
            &&& ts.len() == os.len() + 1
            &&& forall|i: int| 0 <= i < ts.len() ==> runs_well_formed(#[trigger] ts[i])
        },
        FlatM::Fn(_, b) => runs_well_formed(*b),
        FlatM::UnaryOp(_, b) => runs_well_formed(*b),
        FlatM::Tuple(es) => forall|i: int| 0 <= i < es.len() ==> runs_well_formed(#[trigger] es[i]),
        FlatM::Block(es) => forall|i: int| 0 <= i < es.len() ==> runs_well_formed(#[trigger] es[i]),
        FlatM::IfElse(c, t, e) => runs_well_formed(*c) && runs_well_formed(*t) && runs_well_formed(*e),
        _ => true,
    }
}

pub open spec fn all_runs_well_formed(es: Seq<FlatM>) -> bool {
    forall|i: int| 0 <= i < es.len() ==> runs_well_formed(#[trigger] es[i])
}

proof fn lemma_all_wf_prepend(g: FlatM, es: Seq<FlatM>)
    requires
        runs_well_formed(g),
        all_runs_well_formed(es),
    ensures
        all_runs_well_formed(seq![g] + es),
{
    assert forall|i: int| 0 <= i < (seq![g] + es).len() implies runs_well_formed(#[trigger] (seq![g] + es)[i]) by {
        if i > 0 {
            assert((seq![g] + es)[i] == es[i - 1]);
        }
    }
}

proof fn lemma_all_wf_push(es: Seq<FlatM>, g: FlatM)
    requires
        runs_well_formed(g),
        all_runs_well_formed(es),
    ensures
        all_runs_well_formed(es.push(g)),
{
    assert forall|i: int| 0 <= i < es.push(g).len() implies runs_well_formed(#[trigger] es.push(g)[i]) by {
        if i < es.len() {
            assert(es.push(g)[i] == es[i]);
        }
    }
}

proof fn lemma_unary_wf(s: Seq<char>, p: int)
    ensures
        unary_rule(s, p) matches SRes::Done(f, _) ==> runs_well_formed(f),
    decreases s.len() - p, 0nat,
{
    if 0 <= p < s.len() && (s[p] == '+' || s[p] == '-') {
        let p1 = ws_end(s, p + 1);
        if p < p1 <= s.len() {
            lemma_term_wf(s, p1);
        }
    }
}

proof fn lemma_fn_wf(s: Seq<char>, p: int)
    ensures
        fn_rule(s, p) matches SRes::Done(f, _) ==> runs_well_formed(f),
    decreases s.len() - p, 0nat,
{
    if at(s, p, '\\') {
        if let Some(e) = id_at(s, p + 1) {
            let p2 = ws_end(s, e);
            let p3 = ws_end(s, p2 + 2);
            if starts_with(s, p2, seq!['-', '>']) && p < p3 <= s.len() {
                lemma_master_wf(s, p3);
            }
        }
    }
}

proof fn lemma_paren_wf(s: Seq<char>, p: int)
    ensures
        paren_rule(s, p) matches SRes::Done(f, _) ==> runs_well_formed(f),
    decreases s.len() - p, 0nat,
{
    if at(s, p, '(') {
        let p1 = ws_end(s, p + 1);
        if p < p1 <= s.len() {
            lemma_master_wf(s, p1);
        }
    }
}

proof fn lemma_tuple_items_wf(s: Seq<char>, p: int)
    ensures
        tuple_items_rule(s, p) matches SRes::Done(gs, _) ==> all_runs_well_formed(gs),
    decreases s.len() - p, 5nat,
{
    if 0 <= p <= s.len() {
        lemma_master_wf(s, p);
        if let SRes::Done(g, q) = master_rule(s, p) {
            if p <= q && at(s, q, ',') {
                lemma_tuple_items_wf(s, q + 1);
                if let SRes::Done(gs, _) = tuple_items_rule(s, q + 1) {
                    lemma_all_wf_prepend(g, gs);
                }
            }
        }
    }
}

proof fn lemma_tuple_wf(s: Seq<char>, p: int)
    ensures
        tuple_rule(s, p) matches SRes::Done(f, _) ==> runs_well_formed(f),
    decreases s.len() - p, 0nat,
{
    if at(s, p, '(') {
        lemma_tuple_items_wf(s, p + 1);
        if let SRes::Done(gs, q) = tuple_items_rule(s, p + 1) {
            if p < q <= s.len() {
                lemma_master_wf(s, q);
                if let SRes::Done(g, _) = master_rule(s, q) {
                    lemma_all_wf_push(gs, g);
                }
            }
        }
    }
}

/// A term that the grammar reads at any position has well-formed runs.
pub proof fn lemma_term_wf(s: Seq<char>, p: int)
    ensures
        term_rule(s, p) matches SRes::Done(f, _) ==> runs_well_formed(f),
    decreases s.len() - p, 1nat,
{
    if 0 <= p <= s.len() {
        lemma_unary_wf(s, p);
        lemma_fn_wf(s, p);
        lemma_paren_wf(s, p);
        lemma_tuple_wf(s, p);
    }
}

/// The operators and terms after a run's head come in equal numbers, the
/// terms well formed.
pub proof fn lemma_rest_wf(s: Seq<char>, p: int)
    ensures
        rest_rule(s, p) matches SRes::Done((ops, ts), _) ==> ops.len() == ts.len() && all_runs_well_formed(ts),
    decreases s.len() - p, 2nat,
{
    if 0 <= p <= s.len() {
        if let Some((op, p1)) = binop_op(s, p) {
            if p <= p1 <= s.len() {
                lemma_term_wf(s, p1);
                if let SRes::Done(t, q) = term_rule(s, p1) {
                    if p < q <= s.len() {
                        lemma_rest_wf(s, q);
                        if let SRes::Done((ops, ts), _) = rest_rule(s, q) {
                            lemma_all_wf_prepend(t, ts);
                        }
                    }
                }
            }
        }
    }
}

/// A run of terms that the run rule reads at any position is well formed:
/// the head term alone when no operator follows it, else a run with at
/// least one operator and one term more than operators, its terms well
/// formed in turn.
pub proof fn lemma_binop_wf(s: Seq<char>, p: int)
    ensures
        binop_rule(s, p) matches SRes::Done(f, _) ==> runs_well_formed(f),
    decreases s.len() - p, 3nat,
{
    if 0 <= p <= s.len() {
        lemma_term_wf(s, p);
        if let SRes::Done(h, p1) = term_rule(s, p) {
            if p <= p1 <= s.len() {
                lemma_rest_wf(s, p1);
                if let SRes::Done((ops, ts), _) = rest_rule(s, p1) {
                    lemma_all_wf_prepend(h, ts);
                }
            }
        }
    }
}

/// An expression that the grammar reads at any position has well-formed
/// runs (see `runs_well_formed`).
pub proof fn lemma_master_wf(s: Seq<char>, p: int)
    ensures
        master_rule(s, p) matches SRes::Done(f, _) ==> runs_well_formed(f),
    decreases s.len() - p, 4nat,
{
    if 0 <= p <= s.len() {
        let p1 = ws_end(s, p);
        if p <= p1 <= s.len() {
            lemma_binop_wf(s, p1);
        }
    }
}

/// Every tree that a parse yields has well-formed runs: each run of terms
/// holds at least one operator and one term more than operators.
pub proof fn lemma_parse_runs_well_formed(s: Seq<char>)
    ensures
        spec_parse(s) matches Ok(f) ==> runs_well_formed(f),
        spec_parse(s) matches Err(ParseError::IncompleteParse(f, _)) ==> runs_well_formed(f),
{
    lemma_master_wf(s, 0);
}

// ---------------------------------------------------------------------
// The grammar, executed
// ---------------------------------------------------------------------

/// The outcome of a grammar rule at a position.
pub enum Step<T> {
    Fail,
    Done(T, usize),
    Abort,
}

impl<T> Step<T> {
    /// Whether the rule failed (so that the caller may try another).
    pub fn is_fail(&self) -> (b: bool)
        ensures
            b == (*self is Fail),
    {
        match self {
            Step::Fail => true,
            _ => false,
        }
    }
}

pub open spec fn step_view(r: Step<FlatIR>) -> SRes<FlatM> {
    match r {
        Step::Fail => SRes::Fail,
        Step::Done(v, q) => SRes::Done(v@, q as int),
        Step::Abort => SRes::Abort,
    }
}

pub open spec fn items_step_view(r: Step<Vec<FlatIR>>) -> SRes<Seq<FlatM>> {
    match r {
        Step::Fail => SRes::Fail,
        Step::Done(v, q) => SRes::Done(flats_view(v@), q as int),
        Step::Abort => SRes::Abort,
    }
}

pub open spec fn rest_step_view(r: Step<(Vec<String>, Vec<FlatIR>)>) -> SRes<(Seq<Seq<char>>, Seq<FlatM>)> {
    match r {
        Step::Fail => SRes::Fail,
        Step::Done(v, q) => SRes::Done((strings_view(v.0@), flats_view(v.1@)), q as int),
        Step::Abort => SRes::Abort,
    }
}

/// The end of the run of whitespace that starts at `p`.
pub(crate) fn ws_end_exec(s: &Vec<char>, p: usize) -> (r: usize)
    requires
        p <= s.len(),
    ensures
        r == ws_end(s@, p as int),
        p <= r <= s.len(),
{
    proof { lemma_ws_end(s@, p as int); }
    let mut i = p;
    while i < s.len() && crate::text::is_whitespace(s[i])
        invariant
            p <= i <= s.len(),
            ws_end(s@, p as int) == ws_end(s@, i as int),
        decreases s.len() - i,
    {
        i = i + 1;
    }
    i
}

fn id_continue_end_exec(s: &Vec<char>, p: usize) -> (r: usize)
    requires
        p <= s.len(),
    ensures
        r == id_continue_end(s@, p as int),
        p <= r <= s.len(),
{
    proof { lemma_id_continue_end(s@, p as int); }
    let mut i = p;
    while i < s.len() && (s[i] == '_' || crate::text::is_alphanumeric(s[i]))
        invariant
            p <= i <= s.len(),
            id_continue_end(s@, p as int) == id_continue_end(s@, i as int),
        decreases s.len() - i,
    {
        i = i + 1;
    }
    i
}

fn digits_end_exec(s: &Vec<char>, p: usize) -> (r: usize)
    requires
        p <= s.len(),
    ensures
        r == digits_end(s@, p as int),
        p <= r <= s.len(),
{
    proof { lemma_digits_end(s@, p as int); }
    let mut i = p;
    while i < s.len() && crate::text::is_ascii_digit(s[i])
        invariant
            p <= i <= s.len(),
            digits_end(s@, p as int) == digits_end(s@, i as int),
        decreases s.len() - i,
    {
        i = i + 1;
    }
    i
}

/// The end of the identifier that starts at `p`, if one does.
pub(crate) fn id_at_exec(s: &Vec<char>, p: usize) -> (r: Option<usize>)
    requires
        p <= s.len(),
    ensures
        match r {
            Some(e) => id_at(s@, p as int) == Some(e as int),
            None => id_at(s@, p as int) is None,
        },
        r matches Some(e) ==> p < e <= s.len(),
{
    if p < s.len() && (s[p] == '_' || crate::text::is_alphabetic(s[p])) {
        Some(id_continue_end_exec(s, p + 1))
    } else {
        None
    }
}

/// Whether the input holds the text `t` from position `p` on.
pub(crate) fn starts_with_exec(s: &Vec<char>, p: usize, t: &str) -> (r: bool)
    requires
        p <= s.len(),
    ensures
        r == starts_with(s@, p as int, t@),
{
    let n = t.unicode_len();
    if n > s.len() - p {
        return false;
    }
    let mut i: usize = 0;
    while i < n
        invariant
            n == t@.len(),
            p + n <= s.len(),
            i <= n,
            s@.subrange(p as int, p + i) == t@.subrange(0, i as int),
        decreases n - i,
    {
        if s[p + i] != t.get_char(i) {
            assert(s@.subrange(p as int, p + n)[i as int] != t@[i as int]);
            return false;
        }
        i = i + 1;
        assert(s@.subrange(p as int, p + i) =~= t@.subrange(0, i as int)) by {
            assert forall|k: int| 0 <= k < i implies s@.subrange(p as int, p + i)[k] == t@.subrange(0, i as int)[k] by {
                if k < i - 1 {
                    assert(s@.subrange(p as int, p + i - 1)[k] == t@.subrange(0, i - 1)[k]);
                }
            }
        }
    }
    assert(t@.subrange(0, n as int) =~= t@);
    true
}

fn binop_op_exec(s: &Vec<char>, p: usize, ops: &Vec<&'static str>) -> (r: Option<(String, usize)>)
    requires
        p <= s.len(),
        strs_view(ops@) == binop_spellings(),
    ensures
        match r {
            Some((op, q)) => binop_op(s@, p as int) == Some((op@, q as int)),
            None => binop_op(s@, p as int) is None,
        },
        r matches Some((op, q)) ==> p <= q <= s.len(),
{
    let p1 = ws_end_exec(s, p);
    let mut i: usize = 0;
    while i < ops.len()
        invariant
            i <= ops.len(),
            p <= p1 <= s.len(),
            p1 == ws_end(s@, p as int),
            strs_view(ops@) == binop_spellings(),
            first_op(s@, p1 as int, binop_spellings(), 0) == first_op(s@, p1 as int, binop_spellings(), i as int),
        decreases ops.len() - i,
    {
        assert(ops@[i as int]@ == binop_spellings()[i as int]);
        if starts_with_exec(s, p1, ops[i]) {
            let op = crate::text::string_of_str(ops[i]);
            let q = ws_end_exec(s, p1 + ops[i].unicode_len());
            return Some((op, q));
        }
        i = i + 1;
    }
    if p < s.len() && crate::text::is_whitespace(s[p]) {
        let mut sp = String::new();
        crate::text::push_char(&mut sp, ' ');
        assert(sp@ =~= seq![' ']);
        let q = ws_end_exec(s, p);
        Some((sp, q))
    } else {
        None
    }
}

/// An integer literal at `p` (see `lit_rule`).
pub(crate) fn lit_exec(s: &Vec<char>, p: usize) -> (r: Step<FlatIR>)
    requires
        p <= s.len(),
    ensures
        step_view(r) == lit_rule(s@, p as int),
{
    let e = digits_end_exec(s, p);
    if e == p {
        return Step::Fail;
    }
    proof {
        lemma_digits_end(s@, p as int);
    }
    let ghost ds = s@.subrange(p as int, e as int);
    assert forall|i: int| 0 <= i < ds.len() implies #[trigger] char_is_ascii_digit(ds[i]) by {
        assert(ds[i] == s@[p + i]);
    }
    let mut v: i32 = 0;
    let mut i = p;
    while i < e
        invariant
            p <= i <= e <= s.len(),
            e == digits_end(s@, p as int),
            ds == s@.subrange(p as int, e as int),
            forall|k: int| 0 <= k < ds.len() ==> #[trigger] char_is_ascii_digit(ds[k]),
            v as int == digits_value(ds.subrange(0, i - p)),
        decreases e - i,
    {
        assert(ds[i - p] == s@[i as int]);
        assert(char_is_ascii_digit(ds[i - p]));
        let c = s[i];
        let d: i64 = (c as i64) - ('0' as i64);
        assert(ds.subrange(0, i + 1 - p).drop_last() =~= ds.subrange(0, i - p));
        assert(ds.subrange(0, i + 1 - p).last() == c);
        proof {
            lemma_digits_value_prefix(ds, i + 1 - p);
        }
        let nv: i64 = (v as i64) * 10 + d;
        assert(digits_value(ds.subrange(0, i + 1 - p)) == nv);
        if nv > (i32::MAX as i64) {
            assert(digits_value(ds) > i32::MAX);
            assert(e > p);
            assert(digits_end(s@, p as int) == e as int);
            assert(digits_value(s@.subrange(p as int, digits_end(s@, p as int))) > i32::MAX);
            assert(lit_rule(s@, p as int) == SRes::<FlatM>::Abort);
            return Step::Abort;
        }
        v = nv as i32;
        i = i + 1;
    }
    assert(ds.subrange(0, e - p) =~= ds);
    Step::Done(FlatIR::Lit(Literal::I32(v)), e)
}

fn symbol_exec(s: &Vec<char>, p: usize) -> (r: Step<FlatIR>)
    requires
        p <= s.len(),
    ensures
        step_view(r) == symbol_rule(s@, p as int),
{
    match id_at_exec(s, p) {
        Some(e) => Step::Done(FlatIR::Symbol(crate::text::string_of(s, p, e)), e),
        None => Step::Fail,
    }
}

fn unary_exec(s: &Vec<char>, p: usize, ops: &Vec<&'static str>) -> (r: Step<FlatIR>)
    requires
        p <= s.len(),
        strs_view(ops@) == binop_spellings(),
    ensures
        step_view(r) == unary_rule(s@, p as int),
    decreases s@.len() - p, 0nat,
{
    if !(p < s.len()) || !(s[p] == '+' || s[p] == '-') {
        return Step::Fail;
    }
    let op = crate::text::string_of(s, p, p + 1);
    assert(op@ =~= seq![s@[p as int]]);
    let p1 = ws_end_exec(s, p + 1);
    match term_exec(s, p1, ops) {
        Step::Done(t, q) => Step::Done(FlatIR::UnaryOp(op, Box::new(t)), q),
        Step::Fail => Step::Fail,
        Step::Abort => Step::Abort,
    }
}

fn fn_exec(s: &Vec<char>, p: usize, ops: &Vec<&'static str>) -> (r: Step<FlatIR>)
    requires
        p <= s.len(),
        strs_view(ops@) == binop_spellings(),
    ensures
        step_view(r) == fn_rule(s@, p as int),
    decreases s@.len() - p, 0nat,
{
    if !(p < s.len() && s[p] == '\\') {
        return Step::Fail;
    }
    match id_at_exec(s, p + 1) {
        None => Step::Fail,
        Some(e) => {
            let p2 = ws_end_exec(s, e);
            proof { reveal_strlit("->"); }
            assert("->"@ =~= seq!['-', '>']);
            if !starts_with_exec(s, p2, "->") {
                return Step::Fail;
            }
            let p3 = ws_end_exec(s, p2 + 2);
            match master_exec(s, p3, ops) {
                Step::Done(b, q) => Step::Done(
                    FlatIR::Fn(crate::text::string_of(s, p + 1, e), Box::new(b)),
                    q,
                ),
                Step::Fail => Step::Fail,
                Step::Abort => Step::Abort,
            }
        },
    }
}

fn paren_exec(s: &Vec<char>, p: usize, ops: &Vec<&'static str>) -> (r: Step<FlatIR>)
    requires
        p <= s.len(),
        strs_view(ops@) == binop_spellings(),
    ensures
        step_view(r) == paren_rule(s@, p as int),
    decreases s@.len() - p, 0nat,
{
    if !(p < s.len() && s[p] == '(') {
        return Step::Fail;
    }
    let p1 = ws_end_exec(s, p + 1);
    match master_exec(s, p1, ops) {
        Step::Done(t, p2) => {
            let p3 = ws_end_exec(s, p2);
            if p3 < s.len() && s[p3] == ')' {
                Step::Done(t, p3 + 1)
            } else {
                Step::Fail
            }
        },
        Step::Fail => Step::Fail,
        Step::Abort => Step::Abort,
    }
}

fn tuple_items_exec(s: &Vec<char>, p: usize, ops: &Vec<&'static str>) -> (r: Step<Vec<FlatIR>>)
    requires
        p <= s.len(),
        strs_view(ops@) == binop_spellings(),
    ensures
        items_step_view(r) == tuple_items_rule(s@, p as int),
        r matches Step::Done(_, q) ==> p <= q <= s.len(),
    decreases s@.len() - p, 5nat,
{
    match master_exec(s, p, ops) {
        Step::Abort => Step::Abort,
        Step::Fail => Step::Done(Vec::new(), p),
        Step::Done(g, q) => if p <= q && q < s.len() && s[q] == ',' {
            match tuple_items_exec(s, q + 1, ops) {
                Step::Done(gs, r) => {
                    let mut gs = gs;
                    let ghost old_gs = gs@;
                    gs.insert(0, g);
                    proof {
                        lemma_flats_view(gs@);
                        lemma_flats_view(old_gs);
                        assert(flats_view(gs@) =~= seq![g@] + flats_view(old_gs));
                    }
                    Step::Done(gs, r)
                },
                Step::Fail => Step::Fail,
                Step::Abort => Step::Abort,
            }
        } else {
            Step::Done(Vec::new(), p)
        },
    }
}

fn tuple_exec(s: &Vec<char>, p: usize, ops: &Vec<&'static str>) -> (r: Step<FlatIR>)
    requires
        p <= s.len(),
        strs_view(ops@) == binop_spellings(),
    ensures
        step_view(r) == tuple_rule(s@, p as int),
    decreases s@.len() - p, 0nat,
{
    if !(p < s.len() && s[p] == '(') {
        return Step::Fail;
    }
    match tuple_items_exec(s, p + 1, ops) {
        Step::Abort => Step::Abort,
        Step::Fail => Step::Fail,
        Step::Done(gs, q) => match master_exec(s, q, ops) {
            Step::Abort => Step::Abort,
            Step::Done(g, r) => if r < s.len() && s[r] == ')' {
                let mut gs = gs;
                let ghost old_gs = gs@;
                gs.push(g);
                proof {
                    lemma_flats_view(gs@);
                    lemma_flats_view(old_gs);
                    assert(flats_view(gs@) =~= flats_view(old_gs).push(g@));
                }
                Step::Done(FlatIR::Tuple(gs), r + 1)
            } else {
                Step::Fail
            },
            Step::Fail => if q < s.len() && s[q] == ')' {
                Step::Done(FlatIR::Tuple(gs), q + 1)
            } else {
                Step::Fail
            },
        },
    }
}

fn term_exec(s: &Vec<char>, p: usize, ops: &Vec<&'static str>) -> (r: Step<FlatIR>)
    requires
        p <= s.len(),
        strs_view(ops@) == binop_spellings(),
    ensures
        step_view(r) == term_rule(s@, p as int),
    decreases s@.len() - p, 1nat,
{
    let r = unary_exec(s, p, ops);
    if !r.is_fail() {
        return r;
    }
    let r = fn_exec(s, p, ops);
    if !r.is_fail() {
        return r;
    }
    let r = symbol_exec(s, p);
    if !r.is_fail() {
        return r;
    }
    let r = lit_exec(s, p);
    if !r.is_fail() {
        return r;
    }
    let r = paren_exec(s, p, ops);
    if !r.is_fail() {
        return r;
    }
    tuple_exec(s, p, ops)
}

fn rest_exec(s: &Vec<char>, p: usize, ops: &Vec<&'static str>) -> (r: Step<(Vec<String>, Vec<FlatIR>)>)
    requires
        p <= s.len(),
        strs_view(ops@) == binop_spellings(),
    ensures
        rest_step_view(r) == rest_rule(s@, p as int),
        r matches Step::Done(_, q) ==> p <= q <= s.len(),
    decreases s@.len() - p, 2nat,
{
    proof {
        lemma_flats_view(Seq::<FlatIR>::empty());
        assert(strings_view(Seq::<String>::empty()) =~= Seq::<Seq<char>>::empty());
    }
    match binop_op_exec(s, p, ops) {
        None => Step::Done((Vec::new(), Vec::new()), p),
        Some((op, p1)) => match term_exec(s, p1, ops) {
            Step::Abort => Step::Abort,
            Step::Fail => Step::Done((Vec::new(), Vec::new()), p),
            Step::Done(t, q) => if p < q && q <= s.len() {
                match rest_exec(s, q, ops) {
                    Step::Done((os, ts), r) => {
                        let mut os = os;
                        let mut ts = ts;
                        let ghost old_os = os@;
                        let ghost old_ts = ts@;
                        os.insert(0, op);
                        ts.insert(0, t);
                        proof {
                            lemma_flats_view(ts@);
                            lemma_flats_view(old_ts);
                            assert(flats_view(ts@) =~= seq![t@] + flats_view(old_ts));
                            assert(strings_view(os@) =~= seq![op@] + strings_view(old_os));
                        }
                        Step::Done((os, ts), r)
                    },
                    Step::Fail => Step::Fail,
                    Step::Abort => Step::Abort,
                }
            } else {
                Step::Done((Vec::new(), Vec::new()), p)
            },
        },
    }
}

fn binop_exec(s: &Vec<char>, p: usize, ops: &Vec<&'static str>) -> (r: Step<FlatIR>)
    requires
        p <= s.len(),
        strs_view(ops@) == binop_spellings(),
    ensures
        step_view(r) == binop_rule(s@, p as int),
        r matches Step::Done(_, q) ==> p <= q <= s.len(),
    decreases s@.len() - p, 3nat,
{
    match term_exec(s, p, ops) {
        Step::Abort => Step::Abort,
        Step::Fail => Step::Fail,
        Step::Done(h, p1) => if p1 < p || p1 > s.len() {
            Step::Fail
        } else {
            match rest_exec(s, p1, ops) {
                Step::Done((os, ts), p2) => if os.len() == 0 {
                    Step::Done(h, p2)
                } else {
                    let mut ts = ts;
                    let ghost old_ts = ts@;
                    ts.insert(0, h);
                    proof {
                        lemma_flats_view(ts@);
                        lemma_flats_view(old_ts);
                        assert(flats_view(ts@) =~= seq![h@] + flats_view(old_ts));
                    }
                    Step::Done(FlatIR::Binop(Binop { terms: ts, ops: os }), p2)
                },
                Step::Fail => Step::Fail,
                Step::Abort => Step::Abort,
            }
        },
    }
}

fn master_exec(s: &Vec<char>, p: usize, ops: &Vec<&'static str>) -> (r: Step<FlatIR>)
    requires
        p <= s.len(),
        strs_view(ops@) == binop_spellings(),
    ensures
        step_view(r) == master_rule(s@, p as int),
        r matches Step::Done(_, q) ==> p <= q <= s.len(),
    decreases s@.len() - p, 4nat,
{
    let p1 = ws_end_exec(s, p);
    match binop_exec(s, p1, ops) {
        Step::Done(b, p2) => {
            let q = ws_end_exec(s, p2);
            Step::Done(b, q)
        },
        Step::Fail => Step::Fail,
        Step::Abort => Step::Abort,
    }
}

} // verus!

verus! {

/// What a whole-input parse yields, when no literal overflows: the tree if
/// the expression covers the whole input, else why not.
pub open spec fn spec_parse(s: Seq<char>) -> Result<FlatM, ParseError<FlatM>> {
    match master_rule(s, 0) {
        SRes::Done(v, q) => if q == s.len() {
            Ok(v)
        } else {
            Err(ParseError::IncompleteParse(v, q as usize))
        },
        _ => Err(ParseError::Unmatched),
    }
}

pub open spec fn parse_result_view(r: Result<FlatIR, ParseError<FlatIR>>) -> Result<FlatM, ParseError<FlatM>> {
    match r {
        Ok(v) => Ok(v@),
        Err(ParseError::Unmatched) => Err(ParseError::Unmatched),
        Err(ParseError::IncompleteParse(v, q)) => Err(ParseError::IncompleteParse(v@, q)),
    }
}

/// The parser of whole expressions of the surface language.
pub struct GhastParser;

/// The parser of whole expressions: optional whitespace, a run of terms
/// and operators, optional whitespace.
pub fn ghast_master() -> (r: GhastParser) {
    GhastParser
}

impl GhastParser {
    /// Parses a whole input. `None` where an integer literal in it does not
    /// fit in `i32` (the parse aborts there).
    pub fn try_parse(&self, input: &str) -> (r: Option<Result<FlatIR, ParseError<FlatIR>>>)
        ensures
            (r is None) == (master_rule(input@, 0) is Abort),
            r matches Some(res) ==> parse_result_view(res) == spec_parse(input@),
    {
        let s = crate::text::chars_of(input);
        let ops = available_operators_without_space();
        match master_exec(&s, 0, &ops) {
            Step::Abort => None,
            Step::Fail => Some(Err(ParseError::Unmatched)),
            Step::Done(v, q) => if q == s.len() {
                Some(Ok(v))
            } else {
                Some(Err(ParseError::IncompleteParse(v, q)))
            },
        }
    }

    /// Parses a whole input: the tree when one expression covers it all.
    pub fn parse(&self, input: &str) -> (r: Result<FlatIR, ParseError<FlatIR>>)
        requires
            !(master_rule(input@, 0) is Abort),
        ensures
            parse_result_view(r) == spec_parse(input@),
    {
        match self.try_parse(input) {
            Some(r) => r,
            None => Err(ParseError::Unmatched),
        }
    }
}

} // verus!
