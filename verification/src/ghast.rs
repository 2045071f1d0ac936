//! The tree that the typed core pass reads: symbols, one-parameter
//! functions, integer literals, tuples and runs of terms with the operators
//! between them.
use vstd::prelude::*;
use crate::phase2::strings_view;

verus! {

/// A run of terms with the operators between them.
#[derive(Debug)]
pub struct Binop {
    pub terms: Vec<Ghast>,
    pub ops: Vec<String>,
}

/// A literal.
#[derive(Debug, Clone, Copy)]
pub enum Literal {
    I32(i32),
}

/// The tree that `convert_into_core` reads.
#[derive(Debug)]
pub enum Ghast {
    Symbol(String),
    Fn(String, Box<Ghast>),
    Lit(Literal),
    Tuple(Vec<Ghast>),
    Binop(Binop),
}

/// The mathematical content of such a tree.
pub enum SurfaceM {
    Symbol(Seq<char>),
    Fn(Seq<char>, Box<SurfaceM>),
    Lit(Literal),
    Tuple(Seq<SurfaceM>),
    Binop(Seq<SurfaceM>, Seq<Seq<char>>),
}

pub open spec fn surface_view(g: Ghast) -> SurfaceM
    decreases g,
{
    match g {
        Ghast::Symbol(s) => SurfaceM::Symbol(s@),
        Ghast::Fn(p, b) => SurfaceM::Fn(p@, Box::new(surface_view(*b))),
        Ghast::Lit(l) => SurfaceM::Lit(l),
        Ghast::Tuple(v) => SurfaceM::Tuple(surfaces_view(v@)),
        Ghast::Binop(b) => SurfaceM::Binop(surfaces_view(b.terms@), strings_view(b.ops@)),
    }
}

pub open spec fn surfaces_view(s: Seq<Ghast>) -> Seq<SurfaceM>
    decreases s,
{
    if s.len() == 0 {
        Seq::empty()
    } else {
        surfaces_view(s.subrange(0, s.len() - 1)).push(surface_view(s[s.len() - 1]))
    }
}

impl View for Ghast {
    type V = SurfaceM;

    open spec fn view(&self) -> SurfaceM {
        surface_view(*self)
    }
}

/// The view of a sequence of trees is element-wise.
pub proof fn lemma_surfaces_view(s: Seq<Ghast>)
    ensures
        surfaces_view(s).len() == s.len(),
        forall|i: int| 0 <= i < s.len() ==> #[trigger] surfaces_view(s)[i] == surface_view(s[i]),
    decreases s.len(),
{
    if s.len() > 0 {
        lemma_surfaces_view(s.subrange(0, s.len() - 1));
        assert forall|i: int| 0 <= i < s.len() implies #[trigger] surfaces_view(s)[i] == surface_view(s[i]) by {
            if i < s.len() - 1 {
                assert(s.subrange(0, s.len() - 1)[i] == s[i]);
            }
        }
    }
}

/// The view of a part of a sequence of trees is that part of its view.
pub proof fn lemma_surfaces_view_subrange(s: Seq<Ghast>, i: int, j: int)
    requires
        0 <= i <= j <= s.len(),
    ensures
        surfaces_view(s.subrange(i, j)) == surfaces_view(s).subrange(i, j),
{
    lemma_surfaces_view(s);
    lemma_surfaces_view(s.subrange(i, j));
    assert(surfaces_view(s.subrange(i, j)) =~= surfaces_view(s).subrange(i, j));
}

/// The number of nodes of a tree.
pub open spec fn surface_size(g: SurfaceM) -> nat
    decreases g,
{
    match g {
        SurfaceM::Symbol(_) => 1,
        SurfaceM::Fn(_, b) => 1 + surface_size(*b),
        SurfaceM::Lit(_) => 1,
        SurfaceM::Tuple(ts) => 1 + surfaces_size(ts),
        SurfaceM::Binop(ts, _) => 1 + surfaces_size(ts),
    }
}

pub open spec fn surfaces_size(s: Seq<SurfaceM>) -> nat
    decreases s,
{
    if s.len() == 0 {
        0
    } else {
        surfaces_size(s.subrange(0, s.len() - 1)) + surface_size(s[s.len() - 1])
    }
}

/// Every tree has at least one node.
pub proof fn lemma_surface_size_pos(g: SurfaceM)
    ensures
        surface_size(g) >= 1,
{
}

/// The size of a concatenation is the sum of the sizes.
pub proof fn lemma_surfaces_size_concat(a: Seq<SurfaceM>, b: Seq<SurfaceM>)
    ensures
        surfaces_size(a + b) == surfaces_size(a) + surfaces_size(b),
    decreases b.len(),
{
    if b.len() > 0 {
        let b1 = b.subrange(0, b.len() - 1);
        lemma_surfaces_size_concat(a, b1);
        assert((a + b).subrange(0, (a + b).len() - 1) =~= a + b1);
    } else {
        assert(a + b =~= a);
    }
}

/// Splitting a sequence of trees splits its size; a non-empty part has
/// a positive size.
pub proof fn lemma_surfaces_size_split(s: Seq<SurfaceM>, k: int)
    requires
        0 <= k <= s.len(),
    ensures
        surfaces_size(s) == surfaces_size(s.subrange(0, k)) + surfaces_size(s.subrange(k, s.len() as int)),
        0 < k ==> surfaces_size(s.subrange(0, k)) > 0,
        k < s.len() ==> surfaces_size(s.subrange(k, s.len() as int)) > 0,
{
    lemma_surfaces_size_concat(s.subrange(0, k), s.subrange(k, s.len() as int));
    assert(s.subrange(0, k) + s.subrange(k, s.len() as int) =~= s);
    if 0 < k {
        let a = s.subrange(0, k);
        lemma_surfaces_size_concat(a.subrange(0, k - 1), seq![a[k - 1]]);
        assert(a.subrange(0, k - 1) + seq![a[k - 1]] =~= a);
        assert(seq![a[k - 1]].subrange(0, 0) =~= Seq::<SurfaceM>::empty());
        lemma_surface_size_pos(a[k - 1]);
    }
    if k < s.len() {
        let b = s.subrange(k, s.len() as int);
        lemma_surfaces_size_concat(seq![b[0]], b.subrange(1, b.len() as int));
        assert(seq![b[0]] + b.subrange(1, b.len() as int) =~= b);
        assert(seq![b[0]].subrange(0, 0) =~= Seq::<SurfaceM>::empty());
        lemma_surface_size_pos(b[0]);
    }
}

} // verus!

verus! {

/// What interpreting one input comes to.
#[derive(Debug)]
pub enum Interpretation {
    /// The input holds only whitespace.
    Blank,
    /// No expression covers the input.
    ParseFailed(crate::combinator::ParseError<crate::phase2::FlatIR>),
    /// An integer literal of the input does not fit in `i32`.
    LiteralOverflow,
    /// The parsed tree has no core tree.
    ConvertFailed(crate::phase3::ConvertError),
    /// Evaluation stopped; what was printed before.
    EvalFailed(crate::phase3::EvalError, Vec<Vec<crate::phase3::Value>>),
    /// Evaluation nested too deep; what was printed before.
    TooDeep(Vec<Vec<crate::phase3::Value>>),
    /// The value, and what was printed.
    Evaluated(crate::phase3::Value, Vec<Vec<crate::phase3::Value>>),
}

proof fn lemma_trimmed_empty(s: Seq<char>)
    ensures
        (crate::builtins::trimmed(s).len() == 0) == (crate::phase2::ws_end(s, 0) == s.len()),
{
    let a = crate::phase2::ws_end(s, 0);
    crate::phase2::lemma_ws_end(s, 0);
    if a < s.len() {
        lemma_trailing_above(s, a, s.len() as int);
    } else {
        assert(crate::builtins::trailing_ws_start(s, a, s.len() as int) == a);
    }
}

proof fn lemma_trailing_above(s: Seq<char>, lo: int, e: int)
    requires
        0 <= lo <= e <= s.len(),
        lo < s.len() ==> !crate::text::char_is_whitespace(s[lo]),
        lo < e,
    ensures
        lo < crate::builtins::trailing_ws_start(s, lo, e) <= e,
    decreases e - lo,
{
    if lo < e && crate::text::char_is_whitespace(s[e - 1]) {
        if e - 1 > lo {
            lemma_trailing_above(s, lo, e - 1);
        }
    }
}

/// Reads, converts and evaluates one input: blank input, why it has no
/// value, or its value; with what the evaluation printed.
pub fn interpret(input: &str) -> (r: Interpretation)
    ensures
        (r is Blank) == (crate::builtins::trimmed(input@).len() == 0),
        crate::builtins::trimmed(input@).len() != 0 ==> match crate::phase2::master_rule(input@, 0) {
            crate::phase2::SRes::Abort => r is LiteralOverflow,
            _ => match crate::phase2::spec_parse(input@) {
                Err(e) => r matches Interpretation::ParseFailed(x)
                    && crate::phase2::parse_result_view(Err(x)) == Err::<crate::phase2::FlatM, _>(e),
                Ok(f) => match crate::phase3::spec_convert(f) {
                    Err(e) => r matches Interpretation::ConvertFailed(x) && crate::phase3::conv_err_view(x) == e,
                    Ok(g) => {
                        let (out, printed) = crate::phase3::spec_eval(g, Seq::empty(), crate::phase3::max_depth());
                        match out {
                            crate::phase3::EvalOut::Val(v) => r matches Interpretation::Evaluated(x, p)
                                && x@ == v && crate::phase3::outs_view(p@) == printed,
                            crate::phase3::EvalOut::Error(e) => r matches Interpretation::EvalFailed(x, p)
                                && crate::phase3::eval_err_view(x) == e && crate::phase3::outs_view(p@) == printed,
                            crate::phase3::EvalOut::OutOfFuel => r matches Interpretation::TooDeep(p)
                                && crate::phase3::outs_view(p@) == printed,
                        }
                    },
                },
            },
        },
{
    let s = crate::text::chars_of(input);
    let a = crate::phase2::ws_end_exec(&s, 0);
    proof {
        lemma_trimmed_empty(input@);
    }
    if a == s.len() {
        return Interpretation::Blank;
    }
    let flat = match crate::phase2::ghast_master().try_parse(input) {
        None => {
            return Interpretation::LiteralOverflow;
        },
        Some(Err(e)) => {
            return Interpretation::ParseFailed(e);
        },
        Some(Ok(f)) => f,
    };
    let core = match crate::phase3::try_convert_into_ghast(flat) {
        Err(e) => {
            return Interpretation::ConvertFailed(e);
        },
        Ok(g) => g,
    };
    let mut printed: Vec<Vec<crate::phase3::Value>> = Vec::new();
    assert(crate::phase3::outs_view(printed@) =~= Seq::<Seq<crate::phase3::VM>>::empty());
    let out = crate::phase3::eval_with_fuel(&core, u64::MAX, &mut printed);
    proof {
        let o = crate::phase3::spec_eval(core@, Seq::empty(), crate::phase3::max_depth()).1;
        assert(Seq::<Seq<crate::phase3::VM>>::empty() + o =~= o);
    }
    match out {
        crate::phase3::Evaluated::Val(v) => Interpretation::Evaluated(v, printed),
        crate::phase3::Evaluated::Error(e) => Interpretation::EvalFailed(e, printed),
        crate::phase3::Evaluated::OutOfFuel => Interpretation::TooDeep(printed),
    }
}

} // verus!
