//! The core language: precedence resolution from the flat tree into a core
//! tree of applications, and an evaluator for core trees.
use vstd::prelude::*;
use crate::operator::{info, spec_info, info_view, OperatorInfo, Fixity};
use crate::phase2::{Binop, FlatIR, FlatM, Literal, LitM, lit_view, flat_view, flats_view, strings_view, lemma_flats_view};
use crate::text::{text_eq, string_of_str};

verus! {

/// A core tree: symbols, one-parameter functions, applications, literals,
/// tuples, blocks and conditionals.
#[derive(Debug)]
pub enum Ghast {
    Symbol(String),
    Fn(String, Box<Ghast>),
    Apply(Box<Ghast>, Box<Ghast>),
    Lit(Literal),
    Tuple(Vec<Ghast>),
    Block(Vec<Ghast>),
    If(Box<Ghast>, Box<Ghast>, Box<Ghast>),
}

/// The mathematical content of a core tree.
pub enum GM {
    Symbol(Seq<char>),
    Fn(Seq<char>, Box<GM>),
    Apply(Box<GM>, Box<GM>),
    Lit(LitM),
    Tuple(Seq<GM>),
    Block(Seq<GM>),
    If(Box<GM>, Box<GM>, Box<GM>),
}

pub open spec fn ghast_view(g: Ghast) -> GM
    decreases g,
{
    match g {
        Ghast::Symbol(s) => GM::Symbol(s@),
        Ghast::Fn(a, b) => GM::Fn(a@, Box::new(ghast_view(*b))),
        Ghast::Apply(f, a) => GM::Apply(Box::new(ghast_view(*f)), Box::new(ghast_view(*a))),
        Ghast::Lit(l) => GM::Lit(lit_view(l)),
        Ghast::Tuple(v) => GM::Tuple(ghasts_view(v@)),
        Ghast::Block(v) => GM::Block(ghasts_view(v@)),
        Ghast::If(c, t, e) => GM::If(
            Box::new(ghast_view(*c)),
            Box::new(ghast_view(*t)),
            Box::new(ghast_view(*e)),
        ),
    }
}

pub open spec fn ghasts_view(s: Seq<Ghast>) -> Seq<GM>
    decreases s,
{
    if s.len() == 0 {
        Seq::empty()
    } else {
        ghasts_view(s.subrange(0, s.len() - 1)).push(ghast_view(s[s.len() - 1]))
    }
}

impl View for Ghast {
    type V = GM;

    open spec fn view(&self) -> GM {
        ghast_view(*self)
    }
}

/// The view of a sequence of core trees is element-wise.
pub proof fn lemma_ghasts_view(s: Seq<Ghast>)
    ensures
        ghasts_view(s).len() == s.len(),
        forall|i: int| 0 <= i < s.len() ==> #[trigger] ghasts_view(s)[i] == ghast_view(s[i]),
    decreases s.len(),
{
    if s.len() > 0 {
        lemma_ghasts_view(s.subrange(0, s.len() - 1));
        assert forall|i: int| 0 <= i < s.len() implies #[trigger] ghasts_view(s)[i] == ghast_view(s[i]) by {
            if i < s.len() - 1 {
                assert(s.subrange(0, s.len() - 1)[i] == s[i]);
            }
        }
    }
}

// ---------------------------------------------------------------------
// Choosing the operator at which a run of terms splits
// ---------------------------------------------------------------------

/// The precedence of a known operator.
pub open spec fn prec_of(op: Seq<char>) -> int {
    match spec_info(op) {
        Some(m) => m.precedence,
        None => 0,
    }
}

/// The fixity of a known operator.
pub open spec fn fixity_of(op: Seq<char>) -> Fixity {
    match spec_info(op) {
        Some(m) => m.fixity,
        None => Fixity::NonAssoc,
    }
}

/// The first of `ops[..n]` that the table does not know.
pub open spec fn first_unknown(ops: Seq<Seq<char>>, n: int) -> Option<int>
    decreases n,
{
    if n <= 0 {
        None
    } else {
        match first_unknown(ops, n - 1) {
            Some(i) => Some(i),
            None => if spec_info(ops[n - 1]) is None {
                Some(n - 1)
            } else {
                None
            },
        }
    }
}

/// The least precedence among `ops[..n]` (`n >= 1`).
pub open spec fn min_prec_upto(ops: Seq<Seq<char>>, n: int) -> int
    decreases n,
{
    if n <= 1 {
        prec_of(ops[0])
    } else {
        let m = min_prec_upto(ops, n - 1);
        let q = prec_of(ops[n - 1]);
        if q < m {
            q
        } else {
            m
        }
    }
}

/// The indices among `..n` of the operators of precedence `m`, in order.
pub open spec fn prec_indices_upto(ops: Seq<Seq<char>>, m: int, n: int) -> Seq<int>
    decreases n,
{
    if n <= 0 {
        Seq::empty()
    } else if prec_of(ops[n - 1]) == m {
        prec_indices_upto(ops, m, n - 1).push(n - 1)
    } else {
        prec_indices_upto(ops, m, n - 1)
    }
}

/// All operators at the given indices share the fixity of the first.
pub open spec fn same_fixity(ops: Seq<Seq<char>>, idx: Seq<int>) -> bool {
    forall|j: int| 0 <= j < idx.len() ==> fixity_of(ops[#[trigger] idx[j]]) == fixity_of(ops[idx[0]])
}

/// The error text for loosest operators of different fixities.
pub open spec fn mixed_fixity_message() -> Seq<char> {
    "同じ優先度で異なる結合性を持つ演算子が混在しています"@
}

/// The error text for a run of non-associative loosest operators.
pub open spec fn non_assoc_message() -> Seq<char> {
    "非結合性(Fixity=None)の演算子を並列させています"@
}

/// What choosing the split operator of `ops` comes to.
pub enum Pivot {
    /// There are no operators.
    Empty,
    /// The operator at this index is not in the table.
    Unknown(int),
    /// The run splits at this index.
    Index(int),
    /// The loosest operators cannot be ordered; the error text.
    Error(Seq<char>),
    /// The loosest operators are tied with a fixity that has no rule.
    Unsupported,
}

/// The split operator of a run: among the loosest operators, the only one;
/// or, when they tie, the last for left-associative ones and the first for
/// right-associative ones.
pub open spec fn pivot_of(ops: Seq<Seq<char>>) -> Pivot {
    if ops.len() == 0 {
        Pivot::Empty
    } else {
        match first_unknown(ops, ops.len() as int) {
            Some(i) => Pivot::Unknown(i),
            None => {
                let m = min_prec_upto(ops, ops.len() as int);
                let idx = prec_indices_upto(ops, m, ops.len() as int);
                if idx.len() == 1 {
                    Pivot::Index(idx[0])
                } else if !same_fixity(ops, idx) {
                    Pivot::Error(mixed_fixity_message())
                } else {
                    match fixity_of(ops[idx[0]]) {
                        Fixity::NonAssoc => Pivot::Error(non_assoc_message()),
                        Fixity::InfixLeft => Pivot::Index(idx.last()),
                        Fixity::InfixRight => Pivot::Index(idx[0]),
                        _ => Pivot::Unsupported,
                    }
                }
            },
        }
    }
}

/// The first unknown operator is unknown and every operator before it is
/// known.
pub proof fn lemma_first_unknown(ops: Seq<Seq<char>>, n: int)
    requires
        0 <= n <= ops.len(),
    ensures
        first_unknown(ops, n) is None ==> forall|i: int| 0 <= i < n ==> #[trigger] spec_info(ops[i]) is Some,
        first_unknown(ops, n) matches Some(i) ==> 0 <= i < n && spec_info(ops[i]) is None,
    decreases n,
{
    if n > 0 {
        lemma_first_unknown(ops, n - 1);
    }
}

proof fn lemma_first_unknown_stable(ops: Seq<Seq<char>>, k: int, n: int)
    requires
        0 <= k <= n,
        first_unknown(ops, k) is Some,
    ensures
        first_unknown(ops, n) == first_unknown(ops, k),
    decreases n - k,
{
    if n > k {
        lemma_first_unknown_stable(ops, k, n - 1);
    }
}

proof fn lemma_min_prec(ops: Seq<Seq<char>>, n: int)
    requires
        1 <= n <= ops.len(),
    ensures
        forall|i: int| 0 <= i < n ==> min_prec_upto(ops, n) <= #[trigger] prec_of(ops[i]),
        exists|i: int| 0 <= i < n && min_prec_upto(ops, n) == #[trigger] prec_of(ops[i]),
    decreases n,
{
    if n > 1 {
        lemma_min_prec(ops, n - 1);
        let i = choose|i: int| 0 <= i < n - 1 && min_prec_upto(ops, n - 1) == #[trigger] prec_of(ops[i]);
        if prec_of(ops[n - 1]) < min_prec_upto(ops, n - 1) {
            assert(prec_of(ops[n - 1]) == min_prec_upto(ops, n));
        } else {
            assert(prec_of(ops[i]) == min_prec_upto(ops, n));
        }
    } else {
        assert(prec_of(ops[0]) == min_prec_upto(ops, n));
    }
}

proof fn lemma_prec_indices(ops: Seq<Seq<char>>, m: int, n: int)
    requires
        0 <= n <= ops.len(),
    ensures
        forall|j: int| 0 <= j < prec_indices_upto(ops, m, n).len() ==>
            0 <= #[trigger] prec_indices_upto(ops, m, n)[j] < n
            && prec_of(ops[prec_indices_upto(ops, m, n)[j]]) == m,
        forall|j: int, k: int| 0 <= j < k < prec_indices_upto(ops, m, n).len() ==>
            #[trigger] prec_indices_upto(ops, m, n)[j] < #[trigger] prec_indices_upto(ops, m, n)[k],
        forall|i: int| 0 <= i < n && #[trigger] prec_of(ops[i]) == m ==>
            prec_indices_upto(ops, m, n).contains(i),
    decreases n,
{
    if n > 0 {
        lemma_prec_indices(ops, m, n - 1);
        let prev = prec_indices_upto(ops, m, n - 1);
        assert forall|i: int| 0 <= i < n && #[trigger] prec_of(ops[i]) == m implies
            prec_indices_upto(ops, m, n).contains(i) by {
            if i < n - 1 {
                let j = choose|j: int| 0 <= j < prev.len() && prev[j] == i;
                if prec_of(ops[n - 1]) == m {
                    assert(prec_indices_upto(ops, m, n)[j] == i);
                }
            } else {
                assert(prec_indices_upto(ops, m, n)[prev.len() as int] == i);
            }
        }
    }
}

/// The index of the operator at which a run of terms splits: the loosest
/// operator, and among tied loosest left-associative ones the last, among
/// right-associative ones the first. `Err` with a message when the tied
/// loosest operators differ in fixity or are non-associative.
pub(crate) fn pivot_exec(ops: &Vec<String>) -> (r: PivotResult)
    ensures
        pivot_result_view(r) == pivot_of(strings_view(ops@)),
{
    let ghost sv = strings_view(ops@);
    let n = ops.len();
    if n == 0 {
        return PivotResult::Empty;
    }
    // the least precedence, stopping at the first unknown operator
    let mut m: i16 = 0;
    let mut i: usize = 0;
    while i < n
        invariant
            n == ops.len(),
            sv == strings_view(ops@),
            sv.len() == n,
            i <= n,
            first_unknown(sv, i as int) is None,
            i >= 1 ==> m as int == min_prec_upto(sv, i as int),
        decreases n - i,
    {
        assert(sv[i as int] == ops@[i as int]@);
        match info(ops[i].as_str()) {
            None => {
                proof {
                    lemma_first_unknown_stable(sv, i + 1, n as int);
                }
                return PivotResult::Unknown(i);
            },
            Some(e) => {
                if i == 0 || e.precedence < m {
                    m = e.precedence;
                }
            },
        }
        i = i + 1;
    }
    // the indices of the loosest operators
    let mut idx: Vec<usize> = Vec::new();
    let mut fixities_agree = true;
    let mut first_fixity = Fixity::NonAssoc;
    i = 0;
    proof {
        lemma_first_unknown(sv, n as int);
    }
    while i < n
        invariant
            n == ops.len(),
            sv == strings_view(ops@),
            sv.len() == n,
            i <= n,
            forall|k: int| 0 <= k < n ==> #[trigger] spec_info(sv[k]) is Some,
            m as int == min_prec_upto(sv, n as int),
            idx@.map_values(|x: usize| x as int) == prec_indices_upto(sv, m as int, i as int),
            idx.len() > 0 ==> first_fixity == fixity_of(sv[idx@[0] as int]),
            fixities_agree == same_fixity(sv, prec_indices_upto(sv, m as int, i as int)),
        decreases n - i,
    {
        assert(sv[i as int] == ops@[i as int]@);
        let e = info(ops[i].as_str()).unwrap();
        let ghost prev = prec_indices_upto(sv, m as int, i as int);
        if e.precedence == m {
            if idx.len() == 0 {
                first_fixity = e.fixity;
            } else if e.fixity != first_fixity {
                fixities_agree = false;
            }
            idx.push(i);
        }
        i = i + 1;
        proof {
            let cur = prec_indices_upto(sv, m as int, i as int);
            assert(idx@.map_values(|x: usize| x as int) =~= cur);
            if prev.len() > 0 {
                assert(cur[0] == prev[0]);
            }
            assert(fixities_agree == same_fixity(sv, cur)) by {
                if cur.len() > prev.len() && prev.len() > 0 {
                    assert(cur[cur.len() - 1] == i - 1);
                    if same_fixity(sv, cur) {
                        assert(fixity_of(sv[cur[cur.len() - 1]]) == fixity_of(sv[cur[0]]));
                        assert forall|j: int| 0 <= j < prev.len() implies fixity_of(sv[#[trigger] prev[j]]) == fixity_of(sv[prev[0]]) by {
                            assert(cur[j] == prev[j]);
                        }
                    }
                    if same_fixity(sv, prev) && fixity_of(sv[i - 1]) == fixity_of(sv[prev[0]]) {
                        assert forall|j: int| 0 <= j < cur.len() implies fixity_of(sv[#[trigger] cur[j]]) == fixity_of(sv[cur[0]]) by {
                            if j < prev.len() {
                                assert(cur[j] == prev[j]);
                            }
                        }
                    }
                    if !same_fixity(sv, prev) {
                        let j = choose|j: int| 0 <= j < prev.len() && fixity_of(sv[#[trigger] prev[j]]) != fixity_of(sv[prev[0]]);
                        assert(cur[j] == prev[j]);
                    }
                } else if cur.len() > prev.len() {
                    assert(cur.len() == 1);
                } else {
                    assert(cur =~= prev);
                }
            }
        }
    }
    let ghost idxs = prec_indices_upto(sv, m as int, n as int);
    assert(idxs.len() == idx.len());
    if idx.len() == 1 {
        return PivotResult::Index(idx[0]);
    }
    proof {
        lemma_min_prec(sv, n as int);
        lemma_prec_indices(sv, m as int, n as int);
        let w = choose|w: int| 0 <= w < n && min_prec_upto(sv, n as int) == #[trigger] prec_of(sv[w]);
        assert(idxs.contains(w));
    }
    assert(idx.len() > 1);
    if !fixities_agree {
        proof { reveal_strlit("同じ優先度で異なる結合性を持つ演算子が混在しています"); }
        return PivotResult::Error(string_of_str("同じ優先度で異なる結合性を持つ演算子が混在しています"));
    }
    assert(idxs[0] == idx@[0] as int);
    assert(idxs.last() == idx@[idx.len() - 1] as int);
    match first_fixity {
        Fixity::NonAssoc => PivotResult::Error(string_of_str("非結合性(Fixity=None)の演算子を並列させています")),
        Fixity::InfixLeft => PivotResult::Index(idx[idx.len() - 1]),
        Fixity::InfixRight => PivotResult::Index(idx[0]),
        _ => PivotResult::Unsupported,
    }
}

/// What choosing the split operator came to (see `Pivot`).
pub enum PivotResult {
    Empty,
    Unknown(usize),
    Index(usize),
    Error(String),
    Unsupported,
}

pub open spec fn pivot_result_view(r: PivotResult) -> Pivot {
    match r {
        PivotResult::Empty => Pivot::Empty,
        PivotResult::Unknown(i) => Pivot::Unknown(i as int),
        PivotResult::Index(i) => Pivot::Index(i as int),
        PivotResult::Error(s) => Pivot::Error(s@),
        PivotResult::Unsupported => Pivot::Unsupported,
    }
}

} // verus!

verus! {

/// Looks up the split operator of a run (see `pivot_of`): its index, or
/// the message when the loosest operators cannot be ordered. The run must
/// have operators, all of them in the table, and its loosest operators must
/// not be tied comparison operators.
pub fn find_min_precedence_index(ops: &Vec<String>) -> (r: Result<usize, String>)
    requires
        ops.len() > 0,
        forall|i: int| 0 <= i < ops.len() ==> #[trigger] spec_info(ops@[i]@) is Some,
        !(pivot_of(strings_view(ops@)) is Unsupported),
    ensures
        match r {
            Ok(i) => pivot_of(strings_view(ops@)) == Pivot::Index(i as int),
            Err(e) => pivot_of(strings_view(ops@)) == Pivot::Error(e@),
        },
{
    proof {
        let sv = strings_view(ops@);
        lemma_first_unknown(sv, sv.len() as int);
        if let Some(i) = first_unknown(sv, sv.len() as int) {
            assert(spec_info(ops@[i]@) is Some);
        }
    }
    match pivot_exec(ops) {
        PivotResult::Index(i) => Ok(i),
        PivotResult::Error(e) => Err(e),
        _ => Err(String::new()),
    }
}

/// A chosen split index lies within the run.
pub proof fn lemma_pivot_in_range(ops: Seq<Seq<char>>)
    ensures
        pivot_of(ops) matches Pivot::Index(p) ==> 0 <= p < ops.len(),
        pivot_of(ops) matches Pivot::Unknown(i) ==> 0 <= i < ops.len() && spec_info(ops[i]) is None,
{
    if ops.len() > 0 {
        lemma_first_unknown(ops, ops.len() as int);
        let m = min_prec_upto(ops, ops.len() as int);
        lemma_prec_indices(ops, m, ops.len() as int);
        let idx = prec_indices_upto(ops, m, ops.len() as int);
        if first_unknown(ops, ops.len() as int) is None {
            lemma_min_prec(ops, ops.len() as int);
            let w = choose|w: int| 0 <= w < ops.len() && m == #[trigger] prec_of(ops[w]);
            assert(idx.contains(w));
        }
        if idx.len() > 0 {
            assert(0 <= idx[idx.len() - 1]);
            assert(0 <= idx[0]);
        }
    }
}

/// A run whose operators are all in the table always splits: every known
/// operator is left-associative, so tied loosest operators never conflict.
pub proof fn lemma_pivot_known(ops: Seq<Seq<char>>)
    requires
        ops.len() > 0,
        forall|i: int| 0 <= i < ops.len() ==> #[trigger] spec_info(ops[i]) is Some,
    ensures
        pivot_of(ops) is Index,
{
    let n = ops.len() as int;
    lemma_first_unknown(ops, n);
    if let Some(i) = first_unknown(ops, n) {
        assert(spec_info(ops[i]) is Some);
    }
    let m = min_prec_upto(ops, n);
    lemma_min_prec(ops, n);
    lemma_prec_indices(ops, m, n);
    let idx = prec_indices_upto(ops, m, n);
    let w = choose|w: int| 0 <= w < n && m == #[trigger] prec_of(ops[w]);
    assert(idx.contains(w));
    assert forall|j: int| 0 <= j < idx.len() implies fixity_of(ops[#[trigger] idx[j]]) == Fixity::InfixLeft by {
        crate::operator::lemma_known_infix_left(ops[idx[j]]);
        assert(spec_info(ops[idx[j]]) is Some);
    }
    if idx.len() != 1 {
        assert(fixity_of(ops[idx[0]]) == Fixity::InfixLeft);
        assert(same_fixity(ops, idx));
    }
}

/// The split operator of a run binds no tighter than any operator of the
/// run; when it is tied with others, it is the last of them for
/// left-associative operators and the first for right-associative ones.
pub proof fn lemma_pivot_is_loosest(ops: Seq<Seq<char>>)
    ensures
        pivot_of(ops) matches Pivot::Index(p) ==> {
            &&& 0 <= p < ops.len()
            &&& forall|i: int| 0 <= i < ops.len() ==> prec_of(ops[p]) <= #[trigger] prec_of(ops[i])
            &&& fixity_of(ops[p]) == Fixity::InfixLeft ==> forall|i: int|
                p < i < ops.len() ==> prec_of(ops[p]) < #[trigger] prec_of(ops[i])
            &&& fixity_of(ops[p]) == Fixity::InfixRight ==> forall|i: int|
                0 <= i < p ==> prec_of(ops[p]) < #[trigger] prec_of(ops[i])
        },
{
    lemma_pivot_in_range(ops);
    if ops.len() > 0 && first_unknown(ops, ops.len() as int) is None {
        let n = ops.len() as int;
        let m = min_prec_upto(ops, n);
        lemma_min_prec(ops, n);
        lemma_prec_indices(ops, m, n);
        let idx = prec_indices_upto(ops, m, n);
        let w = choose|w: int| 0 <= w < n && m == #[trigger] prec_of(ops[w]);
        assert(idx.contains(w));
        if let Pivot::Index(p) = pivot_of(ops) {
            if idx.len() == 1 {
                assert(idx[0] == p);
                assert forall|i: int| 0 <= i < n && i != p implies prec_of(ops[p]) < #[trigger] prec_of(ops[i]) by {
                    if prec_of(ops[i]) == m {
                        let j = choose|j: int| 0 <= j < idx.len() && idx[j] == i;
                    }
                }
            } else {
                assert(same_fixity(ops, idx));
                if fixity_of(ops[idx[0]]) == Fixity::InfixLeft {
                    assert(p == idx[idx.len() - 1]);
                    assert forall|i: int| p < i < n implies prec_of(ops[p]) < #[trigger] prec_of(ops[i]) by {
                        if prec_of(ops[i]) == m {
                            let j = choose|j: int| 0 <= j < idx.len() && idx[j] == i;
                            if j < idx.len() - 1 {
                                assert(idx[j] < idx[idx.len() - 1]);
                            }
                        }
                    }
                    assert(fixity_of(ops[idx[idx.len() - 1]]) == fixity_of(ops[idx[0]]));
                } else {
                    assert(fixity_of(ops[idx[0]]) == Fixity::InfixRight);
                    assert(p == idx[0]);
                    assert forall|i: int| 0 <= i < p implies prec_of(ops[p]) < #[trigger] prec_of(ops[i]) by {
                        if prec_of(ops[i]) == m {
                            let j = choose|j: int| 0 <= j < idx.len() && idx[j] == i;
                            if j > 0 {
                                assert(idx[0] < idx[j]);
                            }
                        }
                    }
                }
            }
        }
    }
}

} // verus!

verus! {

// ---------------------------------------------------------------------
// From the flat tree to the core tree
// ---------------------------------------------------------------------

/// The number of nodes of a flat tree.
pub open spec fn flat_size(f: FlatM) -> nat
    decreases f,
{
    match f {
        FlatM::Symbol(_) => 1,
        FlatM::Fn(_, b) => 1 + flat_size(*b),
        FlatM::UnaryOp(_, b) => 1 + flat_size(*b),
        FlatM::Binop(ts, _) => 1 + flats_size(ts),
        FlatM::Lit(_) => 1,
        FlatM::Tuple(ts) => 1 + flats_size(ts),
        FlatM::Block(ts) => 1 + flats_size(ts),
        FlatM::IfElse(c, t, e) => 1 + flat_size(*c) + flat_size(*t) + flat_size(*e),
    }
}

pub open spec fn flats_size(s: Seq<FlatM>) -> nat
    decreases s,
{
    if s.len() == 0 {
        0
    } else {
        flats_size(s.subrange(0, s.len() - 1)) + flat_size(s[s.len() - 1])
    }
}

/// Every flat tree has at least one node.
pub proof fn lemma_flat_size_pos(f: FlatM)
    ensures
        flat_size(f) >= 1,
{
}

/// The size of a concatenation is the sum of the sizes.
pub proof fn lemma_flats_size_concat(a: Seq<FlatM>, b: Seq<FlatM>)
    ensures
        flats_size(a + b) == flats_size(a) + flats_size(b),
    decreases b.len(),
{
    if b.len() > 0 {
        let b1 = b.subrange(0, b.len() - 1);
        lemma_flats_size_concat(a, b1);
        assert((a + b).subrange(0, (a + b).len() - 1) =~= a + b1);
    } else {
        assert(a + b =~= a);
    }
}

/// Splitting a sequence of flat trees splits its size; a non-empty part
/// has a positive size.
pub proof fn lemma_flats_size_split(s: Seq<FlatM>, k: int)
    requires
        0 <= k <= s.len(),
    ensures
        flats_size(s) == flats_size(s.subrange(0, k)) + flats_size(s.subrange(k, s.len() as int)),
        0 < k ==> flats_size(s.subrange(0, k)) > 0,
        k < s.len() ==> flats_size(s.subrange(k, s.len() as int)) > 0,
{
    lemma_flats_size_concat(s.subrange(0, k), s.subrange(k, s.len() as int));
    assert(s.subrange(0, k) + s.subrange(k, s.len() as int) =~= s);
    if 0 < k {
        let a = s.subrange(0, k);
        lemma_flats_size_concat(a.subrange(0, k - 1), seq![a[k - 1]]);
        assert(a.subrange(0, k - 1) + seq![a[k - 1]] =~= a);
        assert(seq![a[k - 1]].subrange(0, 0) =~= Seq::<FlatM>::empty());
        lemma_flat_size_pos(a[k - 1]);
    }
    if k < s.len() {
        let b = s.subrange(k, s.len() as int);
        lemma_flats_size_concat(seq![b[0]], b.subrange(1, b.len() as int));
        assert(seq![b[0]] + b.subrange(1, b.len() as int) =~= b);
        assert(seq![b[0]].subrange(0, 0) =~= Seq::<FlatM>::empty());
        lemma_flat_size_pos(b[0]);
    }
}

/// Why a flat tree has no core tree (the conversion stops there).
pub enum ConvErr {
    UnknownUnaryOperator(Seq<char>),
    NoOperators,
    UnknownOperator(Seq<char>),
    Precedence(Seq<char>),
    UnsupportedFixity,
    MalformedRun,
}

/// A single argument becomes a one-element tuple; a tuple stays.
pub open spec fn spec_ensure_tuple(g: GM) -> GM {
    match g {
        GM::Tuple(_) => g,
        _ => GM::Tuple(seq![g]),
    }
}

/// Wrapping an argument yields a tuple; a tuple is left as it is, so
/// wrapping twice is wrapping once.
pub proof fn lemma_ensure_tuple(g: GM)
    ensures
        spec_ensure_tuple(g) is Tuple,
        g is Tuple ==> spec_ensure_tuple(g) == g,
        !(g is Tuple) ==> spec_ensure_tuple(g) == GM::Tuple(seq![g]),
        spec_ensure_tuple(spec_ensure_tuple(g)) == spec_ensure_tuple(g),
{
}

/// The name that a unary operator stands for: its prefix entry, else its
/// postfix entry.
pub open spec fn unary_name(op: Seq<char>) -> Option<Seq<char>> {
    match crate::operator::lookup(op, crate::operator::OpKind::Prefix) {
        Some(m) => Some(m.name),
        None => match crate::operator::lookup(op, crate::operator::OpKind::Postfix) {
            Some(m) => Some(m.name),
            None => None,
        },
    }
}

/// The name of the core block former.
pub open spec fn block_name() -> Seq<char> {
    "__block"@
}

/// The core tree of a flat tree. A run of terms splits at its loosest
/// operator (`pivot_of`); juxtaposition (the empty operator) applies the
/// left part to the right part, any other operator applies its named
/// function to the pair of both parts; a lone argument becomes a
/// one-element tuple. A unary operator applies its named function to its
/// operand.
pub open spec fn spec_convert(f: FlatM) -> Result<GM, ConvErr>
    decreases flat_size(f), 0nat,
{
    match f {
        FlatM::Symbol(n) => Ok(GM::Symbol(n)),
        FlatM::Fn(p, b) => match spec_convert(*b) {
            Ok(g) => Ok(GM::Fn(p, Box::new(g))),
            Err(e) => Err(e),
        },
        FlatM::Lit(l) => Ok(GM::Lit(l)),
        FlatM::Tuple(es) => match spec_convert_list(es) {
            Ok(gs) => Ok(GM::Tuple(gs)),
            Err(e) => Err(e),
        },
        FlatM::Block(es) => match spec_convert_list(es) {
            Ok(gs) => Ok(GM::Block(gs)),
            Err(e) => Err(e),
        },
        FlatM::IfElse(c, t, e) => match spec_convert(*c) {
            Err(x) => Err(x),
            Ok(gc) => match spec_convert(*t) {
                Err(x) => Err(x),
                Ok(gt) => match spec_convert(*e) {
                    Err(x) => Err(x),
                    Ok(ge) => Ok(GM::If(Box::new(gc), Box::new(gt), Box::new(ge))),
                },
            },
        },
        FlatM::UnaryOp(op, a) => match unary_name(op) {
            None => Err(ConvErr::UnknownUnaryOperator(op)),
            Some(n) => match spec_convert(*a) {
                Ok(g) => Ok(GM::Apply(Box::new(GM::Symbol(n)), Box::new(g))),
                Err(e) => Err(e),
            },
        },
        FlatM::Binop(ts, os) => if ts.len() == 1 {
            proof {
                assert(ts.subrange(0, 0) =~= Seq::<FlatM>::empty());
                assert(flats_size(Seq::<FlatM>::empty()) == 0);
                assert(flats_size(ts) == flat_size(ts[0]));
                assert(flat_size(f) == 1 + flats_size(ts));
            }
            spec_convert(ts[0])
        } else {
            match pivot_of(os) {
                Pivot::Empty => Err(ConvErr::NoOperators),
                Pivot::Unknown(i) => Err(ConvErr::UnknownOperator(os[i])),
                Pivot::Error(m) => Err(ConvErr::Precedence(m)),
                Pivot::Unsupported => Err(ConvErr::UnsupportedFixity),
                Pivot::Index(p) => if ts.len() != os.len() + 1 {
                    Err(ConvErr::MalformedRun)
                } else {
                    proof {
                        lemma_pivot_in_range(os);
                        lemma_flats_size_split(ts, p + 1);
                    }
                    let front = FlatM::Binop(ts.subrange(0, p + 1), os.subrange(0, p));
                    let back = FlatM::Binop(ts.subrange(p + 1, ts.len() as int), os.subrange(p + 1, os.len() as int));
                    match spec_convert(front) {
                        Err(e) => Err(e),
                        Ok(fg) => match spec_convert(back) {
                            Err(e) => Err(e),
                            Ok(bg) => if os[p].len() == 0 {
                                Ok(GM::Apply(Box::new(fg), Box::new(spec_ensure_tuple(bg))))
                            } else {
                                let name = spec_info(os[p])->Some_0.name;
                                if name == block_name() {
                                    Ok(GM::Block(seq![fg, bg]))
                                } else {
                                    Ok(GM::Apply(
                                        Box::new(GM::Symbol(name)),
                                        Box::new(spec_ensure_tuple(GM::Tuple(seq![fg, bg]))),
                                    ))
                                }
                            },
                        },
                    }
                },
            }
        },
    }
}

/// The core trees of a sequence of flat trees, converted in order; the
/// first failure stops the conversion.
pub open spec fn spec_convert_list(es: Seq<FlatM>) -> Result<Seq<GM>, ConvErr>
    decreases flats_size(es), 1nat,
{
    if es.len() == 0 {
        Ok(Seq::empty())
    } else {
        proof {
            lemma_flat_size_pos(es[es.len() - 1]);
        }
        match spec_convert_list(es.subrange(0, es.len() - 1)) {
            Err(e) => Err(e),
            Ok(gs) => match spec_convert(es[es.len() - 1]) {
                Err(e) => Err(e),
                Ok(g) => Ok(gs.push(g)),
            },
        }
    }
}

/// A flat tree on which conversion cannot fail: every run holds one term
/// more than operators, all of them in the table; every unary operator is
/// one of the table's unary operators; and so at every node.
pub open spec fn convertible(f: FlatM) -> bool
    decreases f,
{
    match f {
        FlatM::Binop(ts, os) => {
            &&& ts.len() == os.len() + 1
            &&& forall|i: int| 0 <= i < os.len() ==> #[trigger] spec_info(os[i]) is Some
            &&& forall|i: int| 0 <= i < ts.len() ==> convertible(#[trigger] ts[i])
        },
        FlatM::UnaryOp(op, a) => unary_name(op) is Some && convertible(*a),
        FlatM::Fn(_, b) => convertible(*b),
        FlatM::Tuple(es) => forall|i: int| 0 <= i < es.len() ==> convertible(#[trigger] es[i]),
        FlatM::Block(es) => forall|i: int| 0 <= i < es.len() ==> convertible(#[trigger] es[i]),
        FlatM::IfElse(c, t, e) => convertible(*c) && convertible(*t) && convertible(*e),
        _ => true,
    }
}

/// Conversion succeeds on every convertible flat tree.
pub proof fn lemma_convert_ok(f: FlatM)
    requires
        convertible(f),
    ensures
        spec_convert(f) is Ok,
    decreases flat_size(f), 0nat,
{
    match f {
        FlatM::Fn(_, b) => lemma_convert_ok(*b),
        FlatM::UnaryOp(_, a) => lemma_convert_ok(*a),
        FlatM::Tuple(es) => lemma_convert_list_ok(es),
        FlatM::Block(es) => lemma_convert_list_ok(es),
        FlatM::IfElse(c, t, e) => {
            lemma_convert_ok(*c);
            lemma_convert_ok(*t);
            lemma_convert_ok(*e);
        },
        FlatM::Binop(ts, os) => {
            if ts.len() == 1 {
                assert(ts.subrange(0, 0) =~= Seq::<FlatM>::empty());
                assert(flats_size(Seq::<FlatM>::empty()) == 0);
                assert(flats_size(ts) == flat_size(ts[0]));
                lemma_convert_ok(ts[0]);
            } else {
                lemma_pivot_known(os);
                let p = pivot_of(os)->Index_0;
                lemma_pivot_in_range(os);
                lemma_flats_size_split(ts, p + 1);
                let fts = ts.subrange(0, p + 1);
                let fos = os.subrange(0, p);
                let bts = ts.subrange(p + 1, ts.len() as int);
                let bos = os.subrange(p + 1, os.len() as int);
                assert forall|i: int| 0 <= i < fos.len() implies #[trigger] spec_info(fos[i]) is Some by {
                    assert(fos[i] == os[i]);
                }
                assert forall|i: int| 0 <= i < fts.len() implies convertible(#[trigger] fts[i]) by {
                    assert(fts[i] == ts[i]);
                }
                assert forall|i: int| 0 <= i < bos.len() implies #[trigger] spec_info(bos[i]) is Some by {
                    assert(bos[i] == os[p + 1 + i]);
                }
                assert forall|i: int| 0 <= i < bts.len() implies convertible(#[trigger] bts[i]) by {
                    assert(bts[i] == ts[p + 1 + i]);
                }
                lemma_convert_ok(FlatM::Binop(fts, fos));
                lemma_convert_ok(FlatM::Binop(bts, bos));
            }
        },
        _ => {},
    }
}

/// The list form of `lemma_convert_ok`.
pub proof fn lemma_convert_list_ok(es: Seq<FlatM>)
    requires
        forall|i: int| 0 <= i < es.len() ==> convertible(#[trigger] es[i]),
    ensures
        spec_convert_list(es) is Ok,
    decreases flats_size(es), 1nat,
{
    if es.len() > 0 {
        lemma_flat_size_pos(es[es.len() - 1]);
        let d = es.subrange(0, es.len() - 1);
        assert forall|i: int| 0 <= i < d.len() implies convertible(#[trigger] d[i]) by {
            assert(d[i] == es[i]);
        }
        lemma_convert_list_ok(d);
        lemma_convert_ok(es[es.len() - 1]);
    }
}

/// A unary operator converts to the application of its function to the
/// converted operand, not wrapped in a tuple: `-` to `neg`, `+` to `pos`,
/// `!` to `not`; any other unary operator is unknown.
pub proof fn lemma_convert_unary(op: Seq<char>, a: FlatM)
    ensures
        unary_name(op) == (if op == seq!['-'] {
            Some(neg_name())
        } else if op == seq!['+'] {
            Some(pos_name())
        } else if op == seq!['!'] {
            Some(not_name())
        } else {
            None::<Seq<char>>
        }),
        unary_name(op) matches Some(n) ==> (spec_convert(a) matches Ok(g) ==> spec_convert(
            FlatM::UnaryOp(op, Box::new(a)),
        ) == Ok::<GM, ConvErr>(GM::Apply(Box::new(GM::Symbol(n)), Box::new(g)))),
        unary_name(op) is None ==> spec_convert(FlatM::UnaryOp(op, Box::new(a))) == Err::<GM, ConvErr>(ConvErr::UnknownUnaryOperator(op)),
{
    crate::operator::lemma_unary_lookup(op);
    reveal_strlit("neg");
    reveal_strlit("pos");
    reveal_strlit("not");
    assert(seq!['-'][0] != seq!['+'][0]);
    assert(seq!['-'][0] != seq!['!'][0]);
    assert(seq!['+'][0] != seq!['!'][0]);
    assert("neg"@ =~= seq!['n', 'e', 'g']);
    assert("pos"@ =~= seq!['p', 'o', 's']);
    assert("not"@ =~= seq!['n', 'o', 't']);
}

/// Converting a list converts each element in order; it fails only where
/// some element fails.
pub proof fn lemma_convert_list(es: Seq<FlatM>)
    ensures
        spec_convert_list(es) matches Ok(gs) ==> gs.len() == es.len()
            && forall|i: int| 0 <= i < es.len() ==> #[trigger] spec_convert(es[i]) == Ok::<GM, ConvErr>(gs[i]),
        spec_convert_list(es) is Err ==> exists|i: int| 0 <= i < es.len() && #[trigger] spec_convert(es[i]) is Err,
    decreases es.len(),
{
    if es.len() > 0 {
        let d = es.subrange(0, es.len() - 1);
        lemma_convert_list(d);
        assert forall|i: int| 0 <= i < d.len() implies #[trigger] d[i] == es[i] by {}
        match spec_convert_list(d) {
            Ok(gs) => {
                if let Ok(gs2) = spec_convert_list(es) {
                    assert forall|i: int| 0 <= i < es.len() implies #[trigger] spec_convert(es[i]) == Ok::<GM, ConvErr>(gs2[i]) by {
                        if i < d.len() {
                            assert(d[i] == es[i]);
                            assert(spec_convert(d[i]) == Ok::<GM, ConvErr>(gs[i]));
                        }
                    }
                } else {
                    assert(spec_convert(es[es.len() - 1]) is Err);
                }
            },
            Err(_) => {
                let i = choose|i: int| 0 <= i < d.len() && #[trigger] spec_convert(d[i]) is Err;
                assert(d[i] == es[i]);
                assert(spec_convert(es[i]) is Err);
            },
        }
    }
}

/// Conversion keeps symbols, literals and functions as they are (a
/// function with its body converted), converts a tuple element by element
/// in order, and converts a run of one term as that term.
pub proof fn lemma_convert_shapes(f: FlatM)
    ensures
        f matches FlatM::Symbol(n) ==> spec_convert(f) == Ok::<GM, ConvErr>(GM::Symbol(n)),
        f matches FlatM::Lit(l) ==> spec_convert(f) == Ok::<GM, ConvErr>(GM::Lit(l)),
        f matches FlatM::Fn(p, b) ==> (spec_convert(*b) matches Ok(g)
            ==> spec_convert(f) == Ok::<GM, ConvErr>(GM::Fn(p, Box::new(g)))),
        f matches FlatM::Tuple(es) ==> (spec_convert(f) matches Ok(g) ==> (g matches GM::Tuple(gs)
            && gs.len() == es.len()
            && forall|i: int| 0 <= i < es.len() ==> #[trigger] spec_convert(es[i]) == Ok::<GM, ConvErr>(gs[i]))),
        f matches FlatM::Binop(ts, _) ==> (ts.len() == 1 ==> spec_convert(f) == spec_convert(ts[0])),
{
    if let FlatM::Tuple(es) = f {
        lemma_convert_list(es);
    }
}

} // verus!

verus! {

/// Why a flat tree has no core tree.
#[derive(Debug)]
pub enum ConvertError {
    /// A unary operator that the table does not know.
    UnknownUnaryOperator(String),
    /// A run of several terms without operators.
    NoOperators,
    /// An operator between terms that the table does not know.
    UnknownOperator(String),
    /// The loosest operators of a run cannot be ordered; the message.
    Precedence(String),
    /// The loosest operators of a run are tied with a fixity that has no rule.
    UnsupportedFixity,
    /// A run whose operators and terms do not alternate.
    MalformedRun,
}

pub open spec fn conv_err_view(e: ConvertError) -> ConvErr {
    match e {
        ConvertError::UnknownUnaryOperator(s) => ConvErr::UnknownUnaryOperator(s@),
        ConvertError::NoOperators => ConvErr::NoOperators,
        ConvertError::UnknownOperator(s) => ConvErr::UnknownOperator(s@),
        ConvertError::Precedence(s) => ConvErr::Precedence(s@),
        ConvertError::UnsupportedFixity => ConvErr::UnsupportedFixity,
        ConvertError::MalformedRun => ConvErr::MalformedRun,
    }
}

pub open spec fn conv_view(r: Result<Ghast, ConvertError>) -> Result<GM, ConvErr> {
    match r {
        Ok(g) => Ok(g@),
        Err(e) => Err(conv_err_view(e)),
    }
}

pub open spec fn conv_list_view(r: Result<Vec<Ghast>, ConvertError>) -> Result<Seq<GM>, ConvErr> {
    match r {
        Ok(gs) => Ok(ghasts_view(gs@)),
        Err(e) => Err(conv_err_view(e)),
    }
}

/// Wraps an argument that is not a tuple into a one-element tuple.
fn ensure_tuple(arg: Ghast) -> (r: Ghast)
    ensures
        r@ == spec_ensure_tuple(arg@),
{
    match arg {
        Ghast::Tuple(v) => Ghast::Tuple(v),
        other => {
            let ghost ov = other@;
            let mut v: Vec<Ghast> = Vec::new();
            v.push(other);
            assert(v@.subrange(0, 0) =~= Seq::<Ghast>::empty());
            assert(ghasts_view(Seq::<Ghast>::empty()) =~= Seq::<GM>::empty());
            assert(ghasts_view(v@) =~= seq![ov]);
            Ghast::Tuple(v)
        },
    }
}

/// The spelling of juxtaposition: that of the table entry named `APPLY`.
fn apply_spelling() -> (r: &'static str)
    ensures
        r@ == Seq::<char>::empty(),
{
    let table = crate::operator::operators();
    let mut i: usize = 0;
    assert(table@.len() == crate::operator::infos_view(table@).len());
    proof {
        reveal_strlit("APPLY");
        assert(crate::operator::APPLY_NAME@ =~= crate::operator::apply_name());
    }
    while i < table.len()
        invariant
            i <= 7,
            table.len() == 8,
            crate::operator::infos_view(table@) == crate::operator::operator_table(),
            crate::operator::APPLY_NAME@ == crate::operator::apply_name(),
        decreases table.len() - i,
    {
        assert(table@[i as int]@ == crate::operator::operator_table()[i as int]);
        assert(i == 7 ==> table@[i as int].name@ == crate::operator::APPLY_NAME@);
        if text_eq(table[i].name, crate::operator::APPLY_NAME) {
            return table[i].op;
        }
        i = i + 1;
    }
    ""
}

proof fn lemma_flats_view_subrange(s: Seq<FlatIR>, i: int, j: int)
    requires
        0 <= i <= j <= s.len(),
    ensures
        flats_view(s.subrange(i, j)) == flats_view(s).subrange(i, j),
{
    lemma_flats_view(s);
    lemma_flats_view(s.subrange(i, j));
    assert(flats_view(s.subrange(i, j)) =~= flats_view(s).subrange(i, j));
}

proof fn lemma_strings_view_subrange(s: Seq<String>, i: int, j: int)
    requires
        0 <= i <= j <= s.len(),
    ensures
        strings_view(s.subrange(i, j)) == strings_view(s).subrange(i, j),
{
    assert(strings_view(s.subrange(i, j)) =~= strings_view(s).subrange(i, j));
}

/// Splits a run at its operator `p`: the terms up to and including term
/// `p` with the operators before operator `p`, and the terms and operators
/// after it. Operator `p` itself belongs to neither part.
fn split_at(binop: Binop, p: usize) -> (r: (Binop, Binop))
    requires
        binop.terms.len() == binop.ops.len() + 1,
        p < binop.ops.len(),
    ensures
        r.0.terms@ == binop.terms@.subrange(0, p + 1),
        r.0.ops@ == binop.ops@.subrange(0, p as int),
        r.1.terms@ == binop.terms@.subrange(p + 1, binop.terms@.len() as int),
        r.1.ops@ == binop.ops@.subrange(p + 1, binop.ops@.len() as int),
        r.0.terms@ + r.1.terms@ == binop.terms@,
        r.0.ops@.push(binop.ops@[p as int]) + r.1.ops@ == binop.ops@,
        r.0.terms.len() == r.0.ops.len() + 1,
        r.1.terms.len() == r.1.ops.len() + 1,
{
    let Binop { terms, ops } = binop;
    let ghost old_terms = terms@;
    let ghost old_ops = ops@;
    let mut front_terms = terms;
    let back_terms = front_terms.split_off(p + 1);
    let mut front_ops = ops;
    let back_ops = front_ops.split_off(p + 1);
    front_ops.pop();
    assert(front_ops@ =~= old_ops.subrange(0, p as int));
    assert(front_terms@ + back_terms@ =~= old_terms);
    assert(front_ops@.push(old_ops[p as int]) + back_ops@ =~= old_ops);
    (Binop { terms: front_terms, ops: front_ops }, Binop { terms: back_terms, ops: back_ops })
}

/// The core tree of a flat tree, or why it has none (see `spec_convert`).
pub fn try_convert_into_ghast(f: FlatIR) -> (r: Result<Ghast, ConvertError>)
    ensures
        conv_view(r) == spec_convert(f@),
    decreases flat_size(f@), 1nat,
{
    let ghost fv = f@;
    match f {
        FlatIR::Symbol(n) => Ok(Ghast::Symbol(n)),
        FlatIR::Fn(p, b) => match try_convert_into_ghast(*b) {
            Ok(g) => Ok(Ghast::Fn(p, Box::new(g))),
            Err(e) => Err(e),
        },
        FlatIR::Lit(l) => Ok(Ghast::Lit(l)),
        FlatIR::Tuple(es) => match convert_vec(es) {
            Ok(gs) => Ok(Ghast::Tuple(gs)),
            Err(e) => Err(e),
        },
        FlatIR::Block(es) => match convert_vec(es) {
            Ok(gs) => Ok(Ghast::Block(gs)),
            Err(e) => Err(e),
        },
        FlatIR::IfElse(c, t, e) => match try_convert_into_ghast(*c) {
            Err(x) => Err(x),
            Ok(gc) => match try_convert_into_ghast(*t) {
                Err(x) => Err(x),
                Ok(gt) => match try_convert_into_ghast(*e) {
                    Err(x) => Err(x),
                    Ok(ge) => Ok(Ghast::If(Box::new(gc), Box::new(gt), Box::new(ge))),
                },
            },
        },
        FlatIR::UnaryOp(op, a) => {
            let name = match crate::operator::info_unary(op.as_str(), true) {
                Some(e) => e.name,
                None => match crate::operator::info_unary(op.as_str(), false) {
                    Some(e) => e.name,
                    None => {
                        return Err(ConvertError::UnknownUnaryOperator(op));
                    },
                },
            };
            assert(unary_name(op@) == Some(name@));
            match try_convert_into_ghast(*a) {
                Ok(g) => {
                    let sym = Ghast::Symbol(string_of_str(name));
                    assert(sym@ == GM::Symbol(name@));
                    Ok(Ghast::Apply(Box::new(sym), Box::new(g)))
                },
                Err(e) => Err(e),
            }
        },
        FlatIR::Binop(b) => {
            let Binop { terms, ops } = b;
            convert_run(terms, ops)
        },
    }
}

/// The core tree of a run of terms (see `spec_convert`).
fn convert_run(terms: Vec<FlatIR>, ops: Vec<String>) -> (r: Result<Ghast, ConvertError>)
    ensures
        conv_view(r) == spec_convert(FlatM::Binop(flats_view(terms@), strings_view(ops@))),
    decreases 1 + flats_size(flats_view(terms@)), 0nat,
{
    let ghost ts = flats_view(terms@);
    let ghost os = strings_view(ops@);
    proof {
        lemma_flats_view(terms@);
    }
    if terms.len() == 1 {
        let mut terms = terms;
        let t = terms.pop().unwrap();
        proof {
            assert(ts.subrange(0, 0) =~= Seq::<FlatM>::empty());
            assert(flats_size(Seq::<FlatM>::empty()) == 0);
            assert(flats_size(ts) == flat_size(ts[0]));
        }
        return try_convert_into_ghast(t);
    }
    match pivot_exec(&ops) {
        PivotResult::Empty => Err(ConvertError::NoOperators),
        PivotResult::Unknown(i) => {
            proof {
                lemma_pivot_in_range(os);
            }
            Err(ConvertError::UnknownOperator(ops[i].clone()))
        },
        PivotResult::Error(m) => Err(ConvertError::Precedence(m)),
        PivotResult::Unsupported => Err(ConvertError::UnsupportedFixity),
        PivotResult::Index(p) => {
            if terms.len() == 0 || terms.len() - 1 != ops.len() {
                return Err(ConvertError::MalformedRun);
            }
            proof {
                lemma_pivot_in_range(os);
                lemma_flats_size_split(ts, p + 1);
                lemma_flats_view_subrange(terms@, 0, p + 1);
                lemma_flats_view_subrange(terms@, p + 1, terms@.len() as int);
                lemma_strings_view_subrange(ops@, 0, p as int);
                lemma_strings_view_subrange(ops@, p + 1, ops@.len() as int);
                lemma_first_unknown(os, os.len() as int);
            }
            let pivot_op = ops[p].clone();
            assert(pivot_op@ == os[p as int]);
            let (front_run, back_run) = split_at(Binop { terms, ops }, p);
            let front = FlatIR::Binop(front_run);
            let back = FlatIR::Binop(back_run);
            let fg = match try_convert_into_ghast(front) {
                Ok(g) => g,
                Err(e) => {
                    return Err(e);
                },
            };
            let bg = match try_convert_into_ghast(back) {
                Ok(g) => g,
                Err(e) => {
                    return Err(e);
                },
            };
            assert(pivot_op@.len() == 0 ==> pivot_op@ =~= Seq::<char>::empty());
            if text_eq(pivot_op.as_str(), apply_spelling()) {
                Ok(Ghast::Apply(Box::new(fg), Box::new(ensure_tuple(bg))))
            } else {
                let e = info(pivot_op.as_str()).unwrap();
                proof {
                    reveal_strlit("__block");
                }
                if text_eq(e.name, "__block") {
                    let mut v: Vec<Ghast> = Vec::new();
                    v.push(fg);
                    v.push(bg);
                    proof {
                        lemma_ghasts_view(v@);
                        assert(ghasts_view(v@) =~= seq![fg@, bg@]);
                    }
                    Ok(Ghast::Block(v))
                } else {
                    let mut v: Vec<Ghast> = Vec::new();
                    v.push(fg);
                    v.push(bg);
                    proof {
                        lemma_ghasts_view(v@);
                        assert(ghasts_view(v@) =~= seq![fg@, bg@]);
                    }
                    let sym = Ghast::Symbol(string_of_str(e.name));
                    assert(sym@ == GM::Symbol(e.name@));
                    let tup = Ghast::Tuple(v);
                    assert(tup@ == GM::Tuple(seq![fg@, bg@]));
                    Ok(Ghast::Apply(Box::new(sym), Box::new(ensure_tuple(tup))))
                }
            }
        },
    }
}

/// The core trees of a sequence of flat trees, in order.
fn convert_vec(v: Vec<FlatIR>) -> (r: Result<Vec<Ghast>, ConvertError>)
    ensures
        conv_list_view(r) == spec_convert_list(flats_view(v@)),
    decreases flats_size(flats_view(v@)), 2nat,
{
    if v.len() == 0 {
        return Ok(Vec::new());
    }
    let ghost old_v = v@;
    let mut v = v;
    let last = v.pop().unwrap();
    assert(old_v.subrange(0, old_v.len() - 1) =~= v@);
    proof {
        lemma_flat_size_pos(last@);
        let fv = flats_view(old_v);
        assert(fv == flats_view(v@).push(last@));
        assert(fv.subrange(0, fv.len() - 1) =~= flats_view(v@));
        assert(flats_size(fv) == flats_size(flats_view(v@)) + flat_size(last@));
    }
    let mut gs = match convert_vec(v) {
        Ok(gs) => gs,
        Err(e) => {
            return Err(e);
        },
    };
    match try_convert_into_ghast(last) {
        Ok(g) => {
            let ghost old_gs = gs@;
            gs.push(g);
            assert(gs@.subrange(0, gs@.len() - 1) =~= old_gs);
            Ok(gs)
        },
        Err(e) => Err(e),
    }
}

/// The core tree of a flat tree that has one (see `spec_convert`).
pub fn convert_into_ghast(binop_ir: FlatIR) -> (r: Ghast)
    requires
        spec_convert(binop_ir@) is Ok,
    ensures
        r@ == spec_convert(binop_ir@)->Ok_0,
{
    match try_convert_into_ghast(binop_ir) {
        Ok(g) => g,
        Err(_) => Ghast::Tuple(Vec::new()),
    }
}

} // verus!

verus! {

// ---------------------------------------------------------------------
// Values and environments
// ---------------------------------------------------------------------

/// A bound name.
#[derive(Debug)]
pub struct Binding {
    pub name: String,
    pub value: Value,
}

/// An environment: names bound to values, each name at most once.
#[derive(Debug)]
pub struct Env {
    pub bindings: Vec<Binding>,
}

/// The value of a core expression.
#[derive(Debug)]
pub enum Value {
    I32(i32),
    Bool(bool),
    Closure(String, Box<Ghast>, Env),
    Tuple(Vec<Value>),
    Builtin(&'static str),
    Unit,
}

/// The mathematical content of a value.
pub enum VM {
    I32(i32),
    Bool(bool),
    Closure(Seq<char>, GM, Seq<(Seq<char>, VM)>),
    Tuple(Seq<VM>),
    Builtin(Seq<char>),
    Unit,
}

pub open spec fn value_view(v: Value) -> VM
    decreases v,
{
    match v {
        Value::I32(i) => VM::I32(i),
        Value::Bool(b) => VM::Bool(b),
        Value::Closure(p, b, e) => VM::Closure(p@, ghast_view(*b), bindings_view(e.bindings@)),
        Value::Tuple(vs) => VM::Tuple(values_view(vs@)),
        Value::Builtin(n) => VM::Builtin(n@),
        Value::Unit => VM::Unit,
    }
}

pub open spec fn values_view(s: Seq<Value>) -> Seq<VM>
    decreases s,
{
    if s.len() == 0 {
        Seq::empty()
    } else {
        values_view(s.subrange(0, s.len() - 1)).push(value_view(s[s.len() - 1]))
    }
}

pub open spec fn bindings_view(s: Seq<Binding>) -> Seq<(Seq<char>, VM)>
    decreases s,
{
    if s.len() == 0 {
        Seq::empty()
    } else {
        bindings_view(s.subrange(0, s.len() - 1)).push(
            (s[s.len() - 1].name@, value_view(s[s.len() - 1].value)),
        )
    }
}

impl Value {
    /// The integer that an integer value holds.
    pub fn as_i32(&self) -> (r: i32)
        requires
            *self is I32,
        ensures
            self@ == VM::I32(r),
    {
        match self {
            Value::I32(v) => *v,
            _ => 0,
        }
    }
}

impl View for Value {
    type V = VM;

    open spec fn view(&self) -> VM {
        value_view(*self)
    }
}

impl View for Env {
    type V = Seq<(Seq<char>, VM)>;

    open spec fn view(&self) -> Seq<(Seq<char>, VM)> {
        bindings_view(self.bindings@)
    }
}

/// The view of a sequence of values is element-wise.
pub proof fn lemma_values_view(s: Seq<Value>)
    ensures
        values_view(s).len() == s.len(),
        forall|i: int| 0 <= i < s.len() ==> #[trigger] values_view(s)[i] == value_view(s[i]),
    decreases s.len(),
{
    if s.len() > 0 {
        lemma_values_view(s.subrange(0, s.len() - 1));
        assert forall|i: int| 0 <= i < s.len() implies #[trigger] values_view(s)[i] == value_view(s[i]) by {
            if i < s.len() - 1 {
                assert(s.subrange(0, s.len() - 1)[i] == s[i]);
            }
        }
    }
}

/// The view of a sequence of bindings is element-wise.
pub proof fn lemma_bindings_view(s: Seq<Binding>)
    ensures
        bindings_view(s).len() == s.len(),
        forall|i: int| 0 <= i < s.len() ==> #[trigger] bindings_view(s)[i] == (s[i].name@, value_view(s[i].value)),
    decreases s.len(),
{
    if s.len() > 0 {
        lemma_bindings_view(s.subrange(0, s.len() - 1));
        assert forall|i: int| 0 <= i < s.len() implies #[trigger] bindings_view(s)[i] == (s[i].name@, value_view(s[i].value)) by {
            if i < s.len() - 1 {
                assert(s.subrange(0, s.len() - 1)[i] == s[i]);
            }
        }
    }
}

/// The index of the binding of `k`, if any.
pub open spec fn env_index(e: Seq<(Seq<char>, VM)>, k: Seq<char>) -> Option<int>
    decreases e.len(),
{
    if e.len() == 0 {
        None
    } else {
        match env_index(e.drop_last(), k) {
            Some(i) => Some(i),
            None => if e.last().0 == k {
                Some(e.len() - 1)
            } else {
                None
            },
        }
    }
}

/// The value bound to `k`, if any.
pub open spec fn env_lookup(e: Seq<(Seq<char>, VM)>, k: Seq<char>) -> Option<VM> {
    match env_index(e, k) {
        Some(i) => Some(e[i].1),
        None => None,
    }
}

/// `e` with `k` bound to `v`: an existing binding of `k` is replaced, else
/// the binding is added at the end.
pub open spec fn env_insert(e: Seq<(Seq<char>, VM)>, k: Seq<char>, v: VM) -> Seq<(Seq<char>, VM)> {
    match env_index(e, k) {
        Some(i) => e.update(i, (k, v)),
        None => e.push((k, v)),
    }
}

/// A found binding is the first binding of the name; when none is found,
/// no binding has the name.
pub proof fn lemma_env_index(e: Seq<(Seq<char>, VM)>, k: Seq<char>)
    ensures
        env_index(e, k) matches Some(i) ==> 0 <= i < e.len() && e[i].0 == k && forall|j: int|
            0 <= j < i ==> (#[trigger] e[j]).0 != k,
        env_index(e, k) is None ==> forall|j: int| 0 <= j < e.len() ==> (#[trigger] e[j]).0 != k,
    decreases e.len(),
{
    if e.len() > 0 {
        let d = e.drop_last();
        lemma_env_index(d, k);
        assert forall|j: int| 0 <= j < e.len() - 1 implies e[j] == #[trigger] d[j] by {}
        match env_index(d, k) {
            Some(i) => {
                assert(env_index(e, k) == Some(i));
                assert forall|j: int| 0 <= j < i implies (#[trigger] e[j]).0 != k by {
                    assert(e[j] == d[j]);
                }
            },
            None => {
                assert forall|j: int| 0 <= j < e.len() - 1 implies (#[trigger] e[j]).0 != k by {
                    assert(e[j] == d[j]);
                }
            },
        }
    }
}

proof fn lemma_env_index_at(e: Seq<(Seq<char>, VM)>, k: Seq<char>, i: int)
    requires
        0 <= i < e.len(),
        e[i].0 == k,
        forall|j: int| 0 <= j < i ==> (#[trigger] e[j]).0 != k,
    ensures
        env_index(e, k) == Some(i),
{
    lemma_env_index(e, k);
    if let Some(i2) = env_index(e, k) {
        if i2 < i {
            assert(e[i2].0 != k);
        } else if i2 > i {
            assert(e[i].0 != k);
        }
    }
}

proof fn lemma_env_index_none(e: Seq<(Seq<char>, VM)>, k: Seq<char>)
    requires
        forall|j: int| 0 <= j < e.len() ==> (#[trigger] e[j]).0 != k,
    ensures
        env_index(e, k) is None,
{
    lemma_env_index(e, k);
}

/// Reading a name right after binding it gives the bound value, and every
/// other name keeps the value it had.
pub proof fn lemma_env_insert_lookup(e: Seq<(Seq<char>, VM)>, k: Seq<char>, v: VM, k2: Seq<char>)
    ensures
        env_lookup(env_insert(e, k, v), k) == Some(v),
        k2 != k ==> env_lookup(env_insert(e, k, v), k2) == env_lookup(e, k2),
{
    let e2 = env_insert(e, k, v);
    lemma_env_index(e, k);
    lemma_env_index(e, k2);
    match env_index(e, k) {
        Some(i) => {
            assert forall|j: int| 0 <= j < e2.len() implies (#[trigger] e2[j]).0 == e[j].0 by {}
            assert forall|j: int| 0 <= j < i implies (#[trigger] e2[j]).0 != k by {
                assert(e2[j] == e[j]);
            }
            lemma_env_index_at(e2, k, i);
            if k2 != k {
                match env_index(e, k2) {
                    Some(i2) => {
                        assert forall|j: int| 0 <= j < i2 implies (#[trigger] e2[j]).0 != k2 by {
                            assert(e2[j].0 == e[j].0);
                        }
                        assert(e2[i2].0 == e[i2].0);
                        lemma_env_index_at(e2, k2, i2);
                        assert(i2 != i);
                        assert(e2[i2] == e[i2]);
                    },
                    None => {
                        assert forall|j: int| 0 <= j < e2.len() implies (#[trigger] e2[j]).0 != k2 by {
                            assert(e2[j].0 == e[j].0);
                        }
                        lemma_env_index_none(e2, k2);
                    },
                }
            }
        },
        None => {
            assert forall|j: int| 0 <= j < e.len() implies (#[trigger] e2[j]).0 != k by {
                assert(e2[j] == e[j]);
            }
            lemma_env_index_at(e2, k, e.len() as int);
            if k2 != k {
                match env_index(e, k2) {
                    Some(i2) => {
                        assert forall|j: int| 0 <= j < i2 implies (#[trigger] e2[j]).0 != k2 by {
                            assert(e2[j] == e[j]);
                        }
                        assert(e2[i2] == e[i2]);
                        lemma_env_index_at(e2, k2, i2);
                    },
                    None => {
                        assert forall|j: int| 0 <= j < e2.len() implies (#[trigger] e2[j]).0 != k2 by {
                            if j < e.len() {
                                assert(e2[j] == e[j]);
                            }
                        }
                        lemma_env_index_none(e2, k2);
                    },
                }
            }
        },
    }
}

/// A fresh copy of a core tree.
pub fn clone_ghast(g: &Ghast) -> (r: Ghast)
    ensures
        r@ == g@,
    decreases g,
{
    match g {
        Ghast::Symbol(s) => Ghast::Symbol(s.clone()),
        Ghast::Fn(a, b) => Ghast::Fn(a.clone(), Box::new(clone_ghast(b))),
        Ghast::Apply(f, a) => Ghast::Apply(Box::new(clone_ghast(f)), Box::new(clone_ghast(a))),
        Ghast::Lit(l) => Ghast::Lit(clone_literal(l)),
        Ghast::Tuple(v) => Ghast::Tuple(clone_ghasts(v)),
        Ghast::Block(v) => Ghast::Block(clone_ghasts(v)),
        Ghast::If(c, t, e) => Ghast::If(
            Box::new(clone_ghast(c)),
            Box::new(clone_ghast(t)),
            Box::new(clone_ghast(e)),
        ),
    }
}

fn clone_ghasts(v: &Vec<Ghast>) -> (r: Vec<Ghast>)
    ensures
        ghasts_view(r@) == ghasts_view(v@),
    decreases v,
{
    let mut r: Vec<Ghast> = Vec::new();
    let mut i: usize = 0;
    proof {
        lemma_ghasts_view(v@);
    }
    while i < v.len()
        invariant
            i <= v.len(),
            r.len() == i,
            forall|k: int| 0 <= k < i ==> #[trigger] r@[k]@ == v@[k]@,
        decreases v.len() - i,
    {
        let g = clone_ghast(&v[i]);
        r.push(g);
        i = i + 1;
    }
    proof {
        lemma_ghasts_view(r@);
        lemma_ghasts_view(v@);
        assert forall|k: int| 0 <= k < r.len() implies ghasts_view(r@)[k] == ghasts_view(v@)[k] by {
            assert(r@[k]@ == v@[k]@);
        }
        assert(ghasts_view(r@) =~= ghasts_view(v@));
    }
    r
}

/// A fresh copy of a literal.
pub fn clone_literal(l: &Literal) -> (r: Literal)
    ensures
        r@ == l@,
{
    match l {
        Literal::I32(v) => Literal::I32(*v),
        Literal::Bool(b) => Literal::Bool(*b),
        Literal::Str(s) => Literal::Str(s.clone()),
    }
}

/// A fresh copy of a value.
pub fn clone_value(v: &Value) -> (r: Value)
    ensures
        r@ == v@,
    decreases v,
{
    match v {
        Value::I32(i) => Value::I32(*i),
        Value::Bool(b) => Value::Bool(*b),
        Value::Closure(p, b, e) => Value::Closure(p.clone(), Box::new(clone_ghast(b)), clone_env(e)),
        Value::Tuple(vs) => Value::Tuple(clone_values(vs)),
        Value::Builtin(n) => Value::Builtin(*n),
        Value::Unit => Value::Unit,
    }
}

fn clone_values(v: &Vec<Value>) -> (r: Vec<Value>)
    ensures
        values_view(r@) == values_view(v@),
    decreases v,
{
    let mut r: Vec<Value> = Vec::new();
    let mut i: usize = 0;
    while i < v.len()
        invariant
            i <= v.len(),
            r.len() == i,
            forall|k: int| 0 <= k < i ==> #[trigger] r@[k]@ == v@[k]@,
        decreases v.len() - i,
    {
        let c = clone_value(&v[i]);
        r.push(c);
        i = i + 1;
    }
    proof {
        lemma_values_view(r@);
        lemma_values_view(v@);
        assert forall|k: int| 0 <= k < r.len() implies values_view(r@)[k] == values_view(v@)[k] by {
            assert(r@[k]@ == v@[k]@);
        }
        assert(values_view(r@) =~= values_view(v@));
    }
    r
}

/// A fresh copy of an environment.
pub fn clone_env(e: &Env) -> (r: Env)
    ensures
        r@ == e@,
    decreases e,
{
    let mut r: Vec<Binding> = Vec::new();
    let mut i: usize = 0;
    while i < e.bindings.len()
        invariant
            i <= e.bindings.len(),
            r.len() == i,
            forall|k: int| 0 <= k < i ==> (#[trigger] r@[k]).name@ == e.bindings@[k].name@
                && r@[k].value@ == e.bindings@[k].value@,
        decreases e.bindings.len() - i,
    {
        let b = &e.bindings[i];
        let c = Binding { name: b.name.clone(), value: clone_value(&b.value) };
        r.push(c);
        i = i + 1;
    }
    proof {
        lemma_bindings_view(r@);
        lemma_bindings_view(e.bindings@);
        assert(bindings_view(r@) =~= bindings_view(e.bindings@));
    }
    Env { bindings: r }
}

impl Env {
    /// The empty environment.
    pub fn new() -> (r: Env)
        ensures
            r@ == Seq::<(Seq<char>, VM)>::empty(),
    {
        Env { bindings: Vec::new() }
    }

    fn find(&self, name: &str) -> (r: Option<usize>)
        ensures
            match r {
                Some(i) => env_index(self@, name@) == Some(i as int),
                None => env_index(self@, name@) is None,
            },
            r matches Some(i) ==> i < self.bindings.len(),
    {
        proof {
            lemma_bindings_view(self.bindings@);
            lemma_env_index(self@, name@);
        }
        let mut i: usize = 0;
        while i < self.bindings.len()
            invariant
                i <= self.bindings.len(),
                bindings_view(self.bindings@).len() == self.bindings.len(),
                forall|k: int| 0 <= k < self.bindings.len() ==> #[trigger] bindings_view(self.bindings@)[k] == (self.bindings@[k].name@, value_view(self.bindings@[k].value)),
                forall|j: int| 0 <= j < i ==> (#[trigger] self@[j]).0 != name@,
                env_index(self@, name@) matches Some(x) ==> 0 <= x < self@.len() && self@[x].0 == name@ && forall|j: int| 0 <= j < x ==> (#[trigger] self@[j]).0 != name@,
                env_index(self@, name@) is None ==> forall|j: int| 0 <= j < self@.len() ==> (#[trigger] self@[j]).0 != name@,
            decreases self.bindings.len() - i,
        {
            if text_eq(self.bindings[i].name.as_str(), name) {
                assert(self@[i as int].0 == name@);
                return Some(i);
            }
            assert(self@[i as int].0 != name@);
            i = i + 1;
        }
        None
    }

    /// The value bound to `name`, if any.
    pub fn get(&self, name: &str) -> (r: Option<&Value>)
        ensures
            match r {
                Some(v) => env_lookup(self@, name@) == Some(v@),
                None => env_lookup(self@, name@) is None,
            },
    {
        match self.find(name) {
            Some(i) => {
                proof { lemma_bindings_view(self.bindings@); }
                Some(&self.bindings[i].value)
            },
            None => None,
        }
    }

    /// Binds `name` to `value`, replacing an earlier binding of `name`.
    pub fn insert(&mut self, name: String, value: Value)
        ensures
            final(self)@ == env_insert(old(self)@, name@, value@),
    {
        proof { lemma_bindings_view(self.bindings@); }
        let ghost nv = name@;
        let ghost vv = value@;
        match self.find(name.as_str()) {
            Some(i) => {
                let ghost before = self.bindings@;
                self.bindings.set(i, Binding { name, value });
                proof {
                    lemma_bindings_view(self.bindings@);
                    assert(bindings_view(self.bindings@) =~= bindings_view(before).update(i as int, (nv, vv)));
                }
            },
            None => {
                let ghost before = self.bindings@;
                self.bindings.push(Binding { name, value });
                proof {
                    lemma_bindings_view(self.bindings@);
                    assert(bindings_view(self.bindings@) =~= bindings_view(before).push((nv, vv)));
                }
            },
        }
    }
}

} // verus!

verus! {

// ---------------------------------------------------------------------
// Evaluation
// ---------------------------------------------------------------------

/// Why an evaluation stops without a value.
pub enum EvalErrM {
    UndefinedSymbol(Seq<char>),
    NotAnInteger(VM),
    WrongArguments(Seq<char>),
    NotATuple,
    UnknownBuiltin(Seq<char>),
    NotCallable(VM),
    ConditionNotBool(VM),
    Overflow,
    DivisionByZero,
}

/// What evaluating with a bounded nesting depth comes to.
pub enum EvalOut {
    Val(VM),
    Error(EvalErrM),
    /// The nesting depth ran out.
    OutOfFuel,
}

pub open spec fn add_name() -> Seq<char> { "add"@ }
pub open spec fn sub_name() -> Seq<char> { "sub"@ }
pub open spec fn mul_name() -> Seq<char> { "mul"@ }
pub open spec fn div_name() -> Seq<char> { "div"@ }
pub open spec fn neg_name() -> Seq<char> { "neg"@ }
pub open spec fn pos_name() -> Seq<char> { "pos"@ }
pub open spec fn not_name() -> Seq<char> { "not"@ }
pub open spec fn print_name() -> Seq<char> { "print"@ }
pub open spec fn str_name() -> Seq<char> { "str"@ }

/// The names that stand for built-in functions when nothing binds them.
pub open spec fn is_builtin_name(n: Seq<char>) -> bool {
    n == add_name() || n == sub_name() || n == mul_name() || n == div_name() || n == neg_name()
        || n == pos_name() || n == not_name() || n == print_name()
}

/// The value of a symbol: its binding, else the built-in function of that
/// name.
pub open spec fn symbol_value(env: Seq<(Seq<char>, VM)>, n: Seq<char>) -> EvalOut {
    match env_lookup(env, n) {
        Some(v) => EvalOut::Val(v),
        None => if is_builtin_name(n) {
            EvalOut::Val(VM::Builtin(n))
        } else {
            EvalOut::Error(EvalErrM::UndefinedSymbol(n))
        },
    }
}

/// The value of a literal; a string literal stands for the built-in `str`.
pub open spec fn lit_value(l: LitM) -> VM {
    match l {
        LitM::I32(v) => VM::I32(v),
        LitM::Bool(b) => VM::Bool(b),
        LitM::Str(_) => VM::Builtin(str_name()),
    }
}

/// An argument tuple of one element stands for that element.
pub open spec fn unwrap_single(v: VM) -> VM {
    match v {
        VM::Tuple(es) => if es.len() == 1 {
            es[0]
        } else {
            v
        },
        _ => v,
    }
}

/// `i32` division rounded toward zero (for a non-zero divisor).
pub open spec fn trunc_div(l: int, r: int) -> int {
    let q = (if l < 0 { -l } else { l }) / (if r < 0 { -r } else { r });
    if (l < 0) != (r < 0) {
        -q
    } else {
        q
    }
}

pub open spec fn in_i32(x: int) -> bool {
    i32::MIN <= x <= i32::MAX
}

/// A binary arithmetic built-in on two integers.
pub open spec fn spec_arith(name: Seq<char>, l: i32, r: i32) -> EvalOut {
    if name == add_name() {
        if in_i32(l + r) { EvalOut::Val(VM::I32((l + r) as i32)) } else { EvalOut::Error(EvalErrM::Overflow) }
    } else if name == sub_name() {
        if in_i32(l - r) { EvalOut::Val(VM::I32((l - r) as i32)) } else { EvalOut::Error(EvalErrM::Overflow) }
    } else if name == mul_name() {
        if in_i32(l * r) { EvalOut::Val(VM::I32((l * r) as i32)) } else { EvalOut::Error(EvalErrM::Overflow) }
    } else {
        if r == 0 {
            EvalOut::Error(EvalErrM::DivisionByZero)
        } else if in_i32(trunc_div(l as int, r as int)) {
            EvalOut::Val(VM::I32(trunc_div(l as int, r as int) as i32))
        } else {
            EvalOut::Error(EvalErrM::Overflow)
        }
    }
}

/// Applying a built-in function to an argument value: the result and what
/// it prints (each print is the sequence of printed values).
pub open spec fn spec_apply_builtin(name: Seq<char>, arg: VM) -> (EvalOut, Seq<Seq<VM>>) {
    if name == add_name() || name == sub_name() || name == mul_name() || name == div_name() {
        match arg {
            VM::Tuple(es) => if es.len() == 2 {
                match es[1] {
                    VM::I32(r) => match es[0] {
                        VM::I32(l) => (spec_arith(name, l, r), Seq::empty()),
                        other => (EvalOut::Error(EvalErrM::NotAnInteger(other)), Seq::empty()),
                    },
                    other => (EvalOut::Error(EvalErrM::NotAnInteger(other)), Seq::empty()),
                }
            } else {
                (EvalOut::Error(EvalErrM::WrongArguments(name)), Seq::empty())
            },
            _ => (EvalOut::Error(EvalErrM::WrongArguments(name)), Seq::empty()),
        }
    } else if name == neg_name() {
        match arg {
            VM::I32(v) => if in_i32(-v) {
                (EvalOut::Val(VM::I32((-v) as i32)), Seq::empty())
            } else {
                (EvalOut::Error(EvalErrM::Overflow), Seq::empty())
            },
            _ => (EvalOut::Error(EvalErrM::WrongArguments(name)), Seq::empty()),
        }
    } else if name == pos_name() {
        match arg {
            VM::I32(v) => (EvalOut::Val(VM::I32(v)), Seq::empty()),
            _ => (EvalOut::Error(EvalErrM::WrongArguments(name)), Seq::empty()),
        }
    } else if name == not_name() {
        match arg {
            VM::I32(v) => (EvalOut::Val(VM::I32(if v != 0 { 0 } else { 1 })), Seq::empty()),
            _ => (EvalOut::Error(EvalErrM::WrongArguments(name)), Seq::empty()),
        }
    } else if name == print_name() {
        match arg {
            VM::Tuple(vals) => (EvalOut::Val(VM::Unit), seq![vals]),
            _ => (EvalOut::Error(EvalErrM::NotATuple), Seq::empty()),
        }
    } else {
        (EvalOut::Error(EvalErrM::UnknownBuiltin(name)), Seq::empty())
    }
}

/// Evaluates a core tree in an environment, nesting at most `fuel` deep:
/// the outcome and what the evaluation printed, in order.
pub open spec fn spec_eval(g: GM, env: Seq<(Seq<char>, VM)>, fuel: nat) -> (EvalOut, Seq<Seq<VM>>)
    decreases fuel, 0nat,
{
    if fuel == 0 {
        (EvalOut::OutOfFuel, Seq::empty())
    } else {
        let f = (fuel - 1) as nat;
        match g {
            GM::Symbol(n) => (symbol_value(env, n), Seq::empty()),
            GM::Fn(p, b) => (EvalOut::Val(VM::Closure(p, *b, env)), Seq::empty()),
            GM::Lit(l) => (EvalOut::Val(lit_value(l)), Seq::empty()),
            GM::Apply(fx, ax) => {
                let (r1, o1) = spec_eval(*fx, env, f);
                match r1 {
                    EvalOut::Val(fv) => {
                        let (r2, o2) = spec_eval(*ax, env, f);
                        match r2 {
                            EvalOut::Val(av) => match fv {
                                VM::Closure(p, body, cenv) => {
                                    let (r3, o3) = spec_eval(body, env_insert(cenv, p, unwrap_single(av)), f);
                                    (r3, o1 + o2 + o3)
                                },
                                VM::Builtin(n) => {
                                    let (r3, o3) = spec_apply_builtin(n, av);
                                    (r3, o1 + o2 + o3)
                                },
                                other => (EvalOut::Error(EvalErrM::NotCallable(other)), o1 + o2),
                            },
                            _ => (r2, o1 + o2),
                        }
                    },
                    _ => (r1, o1),
                }
            },
            GM::Tuple(es) => {
                let (r, o) = spec_eval_list(es, env, f);
                match r {
                    Ok(vs) => (EvalOut::Val(VM::Tuple(vs)), o),
                    Err(e) => (e, o),
                }
            },
            GM::Block(es) => {
                let (r, o) = spec_eval_list(es, env, f);
                match r {
                    Ok(vs) => (EvalOut::Val(if vs.len() == 0 { VM::Unit } else { vs.last() }), o),
                    Err(e) => (e, o),
                }
            },
            GM::If(c, t, e) => {
                let (r1, o1) = spec_eval(*c, env, f);
                match r1 {
                    EvalOut::Val(VM::Bool(b)) => {
                        let (r2, o2) = spec_eval(if b { *t } else { *e }, env, f);
                        (r2, o1 + o2)
                    },
                    EvalOut::Val(other) => (EvalOut::Error(EvalErrM::ConditionNotBool(other)), o1),
                    _ => (r1, o1),
                }
            },
        }
    }
}

/// Evaluates a sequence of core trees in order; the first one without a
/// value stops the evaluation.
pub open spec fn spec_eval_list(es: Seq<GM>, env: Seq<(Seq<char>, VM)>, fuel: nat) -> (Result<Seq<VM>, EvalOut>, Seq<Seq<VM>>)
    decreases fuel, es.len() + 1,
{
    if es.len() == 0 {
        (Ok(Seq::empty()), Seq::empty())
    } else {
        let (r, o) = spec_eval_list(es.drop_last(), env, fuel);
        match r {
            Ok(vs) => {
                let (r2, o2) = spec_eval(es.last(), env, fuel);
                match r2 {
                    EvalOut::Val(v) => (Ok(vs.push(v)), o + o2),
                    other => (Err(other), o + o2),
                }
            },
            Err(e) => (Err(e), o),
        }
    }
}

} // verus!

verus! {

/// Applying a closure evaluates its body in the closure's own environment
/// with the parameter bound to the argument (a one-element tuple stands for
/// its element); the bindings of the calling environment play no part.
pub proof fn lemma_eval_apply_closure(
    fx: GM,
    ax: GM,
    env: Seq<(Seq<char>, VM)>,
    fuel: nat,
    p: Seq<char>,
    body: GM,
    cenv: Seq<(Seq<char>, VM)>,
    v: VM,
)
    requires
        fuel >= 1,
        spec_eval(fx, env, (fuel - 1) as nat).0 == EvalOut::Val(VM::Closure(p, body, cenv)),
        spec_eval(ax, env, (fuel - 1) as nat).0 == EvalOut::Val(v),
    ensures
        spec_eval(GM::Apply(Box::new(fx), Box::new(ax)), env, fuel).0
            == spec_eval(body, env_insert(cenv, p, unwrap_single(v)), (fuel - 1) as nat).0,
{
}

/// More nesting depth does not change an evaluation that finished: where
/// evaluating with `f1` did not run out of depth, evaluating with any
/// `f2 >= f1` gives the same outcome and prints the same.
pub proof fn lemma_eval_fuel(g: GM, env: Seq<(Seq<char>, VM)>, f1: nat, f2: nat)
    requires
        f1 <= f2,
        !(spec_eval(g, env, f1).0 is OutOfFuel),
    ensures
        spec_eval(g, env, f2) == spec_eval(g, env, f1),
    decreases f1, 0nat,
{
    if f1 > 0 {
        let a = (f1 - 1) as nat;
        let b = (f2 - 1) as nat;
        match g {
            GM::Apply(fx, ax) => {
                let r1 = spec_eval(*fx, env, a).0;
                lemma_eval_fuel(*fx, env, a, b);
                if let EvalOut::Val(fv) = r1 {
                    let r2 = spec_eval(*ax, env, a).0;
                    lemma_eval_fuel(*ax, env, a, b);
                    if let EvalOut::Val(av) = r2 {
                        if let VM::Closure(p, body, cenv) = fv {
                            lemma_eval_fuel(body, env_insert(cenv, p, unwrap_single(av)), a, b);
                        }
                    }
                }
            },
            GM::Tuple(es) => {
                lemma_eval_list_fuel(es, env, a, b);
            },
            GM::Block(es) => {
                lemma_eval_list_fuel(es, env, a, b);
            },
            GM::If(c, t, e) => {
                let r1 = spec_eval(*c, env, a).0;
                lemma_eval_fuel(*c, env, a, b);
                if let EvalOut::Val(VM::Bool(bv)) = r1 {
                    lemma_eval_fuel(if bv { *t } else { *e }, env, a, b);
                }
            },
            _ => {},
        }
    }
}

/// The list form of `lemma_eval_fuel`.
pub proof fn lemma_eval_list_fuel(es: Seq<GM>, env: Seq<(Seq<char>, VM)>, f1: nat, f2: nat)
    requires
        f1 <= f2,
        spec_eval_list(es, env, f1).0 != Err::<Seq<VM>, EvalOut>(EvalOut::OutOfFuel),
    ensures
        spec_eval_list(es, env, f2) == spec_eval_list(es, env, f1),
    decreases f1, es.len() + 1,
{
    if es.len() > 0 {
        lemma_eval_list_fuel(es.drop_last(), env, f1, f2);
        if let Ok(_) = spec_eval_list(es.drop_last(), env, f1).0 {
            lemma_eval_fuel(es.last(), env, f1, f2);
        }
    }
}

/// The built-in names are pairwise different texts.
pub proof fn lemma_builtin_names_differ()
    ensures
        add_name() != sub_name(), add_name() != mul_name(), add_name() != div_name(),
        sub_name() != mul_name(), sub_name() != div_name(), mul_name() != div_name(),
        neg_name() != add_name(), neg_name() != sub_name(), neg_name() != mul_name(), neg_name() != div_name(),
        add_name().len() == 3, sub_name().len() == 3, mul_name().len() == 3, div_name().len() == 3,
        neg_name().len() == 3,
{
    reveal_strlit("add");
    reveal_strlit("sub");
    reveal_strlit("mul");
    reveal_strlit("div");
    reveal_strlit("neg");
    assert(add_name()[0] == 'a' && sub_name()[0] == 's' && mul_name()[0] == 'm' && div_name()[0] == 'd');
    assert(neg_name()[0] == 'n');
}

/// The absolute value of an integer.
pub open spec fn abs(x: int) -> int {
    if x < 0 { -x } else { x }
}

/// Integer division truncates toward zero. For a non-zero divisor, unless
/// `i32::MIN` is divided by `-1` (which overflows), `div` gives the `q` for
/// which `l == q * r + rem` with `|rem| < |r|` and `rem` zero or of the sign
/// of `l`; so `|q| == |l| / |r|`, negative exactly when the signs differ.
pub proof fn lemma_div_truncates(l: i32, r: i32)
    ensures
        r == 0 ==> spec_arith(div_name(), l, r) == EvalOut::Error(EvalErrM::DivisionByZero),
        (l == i32::MIN && r == -1) ==> spec_arith(div_name(), l, r) == EvalOut::Error(EvalErrM::Overflow),
        (r != 0 && !(l == i32::MIN && r == -1)) ==> (spec_arith(div_name(), l, r) matches EvalOut::Val(VM::I32(q))
            && abs(l - q * r) < abs(r as int)
            && (l - q * r == 0 || (l - q * r < 0) == (l < 0))
            && abs(q as int) == abs(l as int) / abs(r as int)
            && (q < 0 ==> ((l < 0) != (r < 0)))),
{
    lemma_builtin_names_differ();
    if r != 0 {
        let a: int = abs(l as int);
        let b: int = abs(r as int);
        let q0: int = a / b;
        let m: int = a % b;
        vstd::arithmetic::div_mod::lemma_fundamental_div_mod(a, b);
        vstd::arithmetic::div_mod::lemma_mod_bound(a, b);
        assert(a == b * q0 + m);
        assert(0 <= q0 <= a) by (nonlinear_arith)
            requires
                a >= 0,
                b >= 1,
                a == b * q0 + m,
                0 <= m < b,
        ;
        assert(q0 < 0x8000_0000 || (a == 0x8000_0000 && b == 1)) by (nonlinear_arith)
            requires
                0 <= a <= 0x8000_0000,
                b >= 1,
                a == b * q0 + m,
                0 <= m < b,
                0 <= q0 <= a,
        ;
        let q: int = trunc_div(l as int, r as int);
        assert(q == if (l < 0) != (r < 0) { -q0 } else { q0 });
        if l == i32::MIN && r == -1 {
            assert(b == 1);
            assert(m == 0);
            assert(q0 == a) by (nonlinear_arith)
                requires b == 1, m == 0, a == b * q0 + m;
            assert(!in_i32(q));
        } else {
            assert(in_i32(q));
            if l >= 0 && r > 0 {
                assert(q * r == b * q0) by (nonlinear_arith)
                    requires q == q0, r == b;
                assert(l - q * r == m);
            } else if l < 0 && r < 0 {
                assert(q * r == -(b * q0)) by (nonlinear_arith)
                    requires q == q0, r == -b;
                assert(l - q * r == -m);
            } else if l >= 0 && r < 0 {
                assert(q * r == b * q0) by (nonlinear_arith)
                    requires q == -q0, r == -b;
                assert(l - q * r == m);
            } else {
                assert(q * r == -(b * q0)) by (nonlinear_arith)
                    requires q == -q0, r == b;
                assert(l - q * r == -m);
            }
            assert(spec_arith(div_name(), l, r) == EvalOut::Val(VM::I32(q as i32)));
            assert(abs(l - q * r) < abs(r as int));
            assert(l - q * r == 0 || (l - q * r < 0) == (l < 0));
            assert(abs(q) == abs(l as int) / abs(r as int));
        }
    }
}

/// Multiplication is the integer product: where it fits in `i32`, `mul`
/// gives `l * r`; otherwise it reports overflow.
pub proof fn lemma_mul_product(l: i32, r: i32)
    ensures
        in_i32(l * r) ==> (spec_arith(mul_name(), l, r) matches EvalOut::Val(VM::I32(x)) && x as int == l as int * r as int),
        !in_i32(l * r) ==> spec_arith(mul_name(), l, r) == EvalOut::Error(EvalErrM::Overflow),
{
    lemma_builtin_names_differ();
}

/// Addition and subtraction are the integer sum and difference where they
/// fit in `i32`, and report overflow otherwise.
pub proof fn lemma_add_sub(l: i32, r: i32)
    ensures
        in_i32(l + r) ==> (spec_arith(add_name(), l, r) matches EvalOut::Val(VM::I32(x)) && x as int == l as int + r as int),
        !in_i32(l + r) ==> spec_arith(add_name(), l, r) == EvalOut::Error(EvalErrM::Overflow),
        in_i32(l - r) ==> (spec_arith(sub_name(), l, r) matches EvalOut::Val(VM::I32(x)) && x as int == l as int - r as int),
        !in_i32(l - r) ==> spec_arith(sub_name(), l, r) == EvalOut::Error(EvalErrM::Overflow),
{
    lemma_builtin_names_differ();
}

/// `neg` negates: applied to an integer other than `i32::MIN` it gives the
/// integer `w` with `w + v == 0`, printing nothing; `i32::MIN` overflows.
pub proof fn lemma_neg_negates(v: i32)
    ensures
        v != i32::MIN ==> (spec_apply_builtin(neg_name(), VM::I32(v)).0 matches EvalOut::Val(VM::I32(w))
            && w as int + v as int == 0),
        spec_apply_builtin(neg_name(), VM::I32(v)).1 == Seq::<Seq<VM>>::empty(),
        v == i32::MIN ==> spec_apply_builtin(neg_name(), VM::I32(v)).0 == EvalOut::Error(EvalErrM::Overflow),
{
    lemma_builtin_names_differ();
}

/// Evaluating `neg e`, where `e` evaluates to an integer `v` other than
/// `i32::MIN` and nothing binds `neg`, gives `-v`.
pub proof fn lemma_eval_neg(e: GM, env: Seq<(Seq<char>, VM)>, fuel: nat, v: i32)
    requires
        fuel >= 2,
        env_lookup(env, neg_name()) is None,
        spec_eval(e, env, (fuel - 1) as nat).0 == EvalOut::Val(VM::I32(v)),
        v != i32::MIN,
    ensures
        spec_eval(GM::Apply(Box::new(GM::Symbol(neg_name())), Box::new(e)), env, fuel).0 matches EvalOut::Val(VM::I32(w))
            && w as int == -(v as int),
{
    lemma_neg_negates(v);
    assert(spec_eval(GM::Symbol(neg_name()), env, (fuel - 1) as nat).0 == EvalOut::Val(VM::Builtin(neg_name())));
}

/// Applying an arithmetic built-in by name to a pair of integer literals
/// computes the arithmetic (or reports overflow or division by zero), in
/// any environment that does not bind that name.
pub proof fn lemma_eval_arith(name: Seq<char>, l: i32, r: i32, env: Seq<(Seq<char>, VM)>, fuel: nat)
    requires
        name == add_name() || name == sub_name() || name == mul_name() || name == div_name(),
        env_lookup(env, name) is None,
        fuel >= 3,
    ensures
        spec_eval(
            GM::Apply(
                Box::new(GM::Symbol(name)),
                Box::new(GM::Tuple(seq![GM::Lit(LitM::I32(l)), GM::Lit(LitM::I32(r))])),
            ),
            env,
            fuel,
        ) == (spec_arith(name, l, r), Seq::<Seq<VM>>::empty()),
{
    let f = (fuel - 1) as nat;
    let es = seq![GM::Lit(LitM::I32(l)), GM::Lit(LitM::I32(r))];
    let g = (f - 1) as nat;
    assert(es.drop_last() =~= seq![GM::Lit(LitM::I32(l))]);
    assert(seq![GM::Lit(LitM::I32(l))].drop_last() =~= Seq::<GM>::empty());
    assert(spec_eval(GM::Lit(LitM::I32(l)), env, g) == (EvalOut::Val(VM::I32(l)), Seq::<Seq<VM>>::empty()));
    assert(spec_eval(GM::Lit(LitM::I32(r)), env, g) == (EvalOut::Val(VM::I32(r)), Seq::<Seq<VM>>::empty()));
    assert(spec_eval_list(Seq::<GM>::empty(), env, g) == (Ok::<Seq<VM>, EvalOut>(Seq::empty()), Seq::<Seq<VM>>::empty()));
    assert(spec_eval_list(seq![GM::Lit(LitM::I32(l))], env, g).0 == Ok::<Seq<VM>, EvalOut>(seq![VM::I32(l)]));
    assert(spec_eval_list(seq![GM::Lit(LitM::I32(l))], env, g).1 =~= Seq::<Seq<VM>>::empty());
    assert(es.last() == GM::Lit(LitM::I32(r)));
    assert(seq![VM::I32(l)].push(VM::I32(r)) =~= seq![VM::I32(l), VM::I32(r)]);
    assert(spec_eval_list(es, env, g).0 == Ok::<Seq<VM>, EvalOut>(seq![VM::I32(l), VM::I32(r)]));
    assert(spec_eval_list(es, env, g).1 =~= Seq::<Seq<VM>>::empty());
    assert(spec_eval(GM::Tuple(es), env, f) == (EvalOut::Val(VM::Tuple(seq![VM::I32(l), VM::I32(r)])), Seq::<Seq<VM>>::empty()));
    assert(spec_eval(GM::Symbol(name), env, f) == (EvalOut::Val(VM::Builtin(name)), Seq::<Seq<VM>>::empty()));
    assert(seq![VM::I32(l), VM::I32(r)][1] == VM::I32(r));
    assert(seq![VM::I32(l), VM::I32(r)][0] == VM::I32(l));
    assert(Seq::<Seq<VM>>::empty() + Seq::<Seq<VM>>::empty() + Seq::<Seq<VM>>::empty() =~= Seq::<Seq<VM>>::empty());
}

/// Why an evaluation stops without a value.
#[derive(Debug)]
pub enum EvalError {
    /// A symbol that nothing binds and that names no built-in function.
    UndefinedSymbol(String),
    /// An arithmetic built-in got an argument that is not an integer.
    NotAnInteger(Value),
    /// A built-in got arguments of the wrong shape; its name.
    WrongArguments(String),
    /// `print` got an argument that is not a tuple.
    NotATuple,
    /// A built-in value that names no built-in function was applied.
    UnknownBuiltin(String),
    /// A value that is no function was applied.
    NotCallable(Value),
    /// A condition whose value is not a boolean.
    ConditionNotBool(Value),
    /// Integer arithmetic overflowed.
    Overflow,
    /// An integer division by zero.
    DivisionByZero,
}

/// The outcome of an evaluation with a bounded nesting depth.
#[derive(Debug)]
pub enum Evaluated {
    Val(Value),
    Error(EvalError),
    OutOfFuel,
}

pub open spec fn eval_err_view(e: EvalError) -> EvalErrM {
    match e {
        EvalError::UndefinedSymbol(s) => EvalErrM::UndefinedSymbol(s@),
        EvalError::NotAnInteger(v) => EvalErrM::NotAnInteger(v@),
        EvalError::WrongArguments(n) => EvalErrM::WrongArguments(n@),
        EvalError::NotATuple => EvalErrM::NotATuple,
        EvalError::UnknownBuiltin(n) => EvalErrM::UnknownBuiltin(n@),
        EvalError::NotCallable(v) => EvalErrM::NotCallable(v@),
        EvalError::ConditionNotBool(v) => EvalErrM::ConditionNotBool(v@),
        EvalError::Overflow => EvalErrM::Overflow,
        EvalError::DivisionByZero => EvalErrM::DivisionByZero,
    }
}

pub open spec fn evaluated_view(r: Evaluated) -> EvalOut {
    match r {
        Evaluated::Val(v) => EvalOut::Val(v@),
        Evaluated::Error(e) => EvalOut::Error(eval_err_view(e)),
        Evaluated::OutOfFuel => EvalOut::OutOfFuel,
    }
}

/// What a sequence of prints printed.
pub open spec fn outs_view(s: Seq<Vec<Value>>) -> Seq<Seq<VM>> {
    s.map_values(|v: Vec<Value>| values_view(v@))
}

fn builtin_named(name: &str) -> (r: Option<&'static str>)
    ensures
        r is Some <==> is_builtin_name(name@),
        r matches Some(n) ==> n@ == name@,
{
    if text_eq(name, "add") {
        Some("add")
    } else if text_eq(name, "sub") {
        Some("sub")
    } else if text_eq(name, "mul") {
        Some("mul")
    } else if text_eq(name, "div") {
        Some("div")
    } else if text_eq(name, "neg") {
        Some("neg")
    } else if text_eq(name, "pos") {
        Some("pos")
    } else if text_eq(name, "not") {
        Some("not")
    } else if text_eq(name, "print") {
        Some("print")
    } else {
        None
    }
}

/// Integer division rounded toward zero, computed without overflow.
pub(crate) fn trunc_div_exec(l: i32, r: i32) -> (q: i64)
    requires
        r != 0,
    ensures
        q as int == trunc_div(l as int, r as int),
{
    let la: u64 = if l < 0 { (-(l as i64)) as u64 } else { l as u64 };
    let ra: u64 = if r < 0 { (-(r as i64)) as u64 } else { r as u64 };
    let qa = la / ra;
    assert(qa <= la);
    if (l < 0) != (r < 0) {
        -(qa as i64)
    } else {
        qa as i64
    }
}

fn arith(name: &'static str, l: i32, r: i32) -> (res: Evaluated)
    ensures
        evaluated_view(res) == spec_arith(name@, l, r),
{
    if text_eq(name, "add") {
        let x = (l as i64) + (r as i64);
        if i32::MIN as i64 <= x && x <= i32::MAX as i64 { Evaluated::Val(Value::I32(x as i32)) } else { Evaluated::Error(EvalError::Overflow) }
    } else if text_eq(name, "sub") {
        let x = (l as i64) - (r as i64);
        if i32::MIN as i64 <= x && x <= i32::MAX as i64 { Evaluated::Val(Value::I32(x as i32)) } else { Evaluated::Error(EvalError::Overflow) }
    } else if text_eq(name, "mul") {
        assert(-0x4000_0000_0000_0000 <= (l as int) * (r as int) <= 0x4000_0000_0000_0000) by (nonlinear_arith)
            requires
                -0x8000_0000 <= l <= 0x7fff_ffff,
                -0x8000_0000 <= r <= 0x7fff_ffff,
        ;
        let x = (l as i64) * (r as i64);
        if i32::MIN as i64 <= x && x <= i32::MAX as i64 { Evaluated::Val(Value::I32(x as i32)) } else { Evaluated::Error(EvalError::Overflow) }
    } else {
        if r == 0 {
            return Evaluated::Error(EvalError::DivisionByZero);
        }
        let x = trunc_div_exec(l, r);
        if i32::MIN as i64 <= x && x <= i32::MAX as i64 { Evaluated::Val(Value::I32(x as i32)) } else { Evaluated::Error(EvalError::Overflow) }
    }
}

fn apply_builtin(name: &'static str, arg: Value, out: &mut Vec<Vec<Value>>) -> (r: Evaluated)
    ensures
        evaluated_view(r) == spec_apply_builtin(name@, arg@).0,
        outs_view(final(out)@) == outs_view(old(out)@) + spec_apply_builtin(name@, arg@).1,
{
    let ghost av = arg@;
    proof {
        assert(outs_view(out@) + Seq::<Seq<VM>>::empty() =~= outs_view(out@));
    }
    if text_eq(name, "add") || text_eq(name, "sub") || text_eq(name, "mul") || text_eq(name, "div") {
        match arg {
            Value::Tuple(es) => {
                proof { lemma_values_view(es@); }
                if es.len() == 2 {
                    let mut es = es;
                    let rhs = es.pop().unwrap();
                    let lhs = es.pop().unwrap();
                    match rhs {
                        Value::I32(r) => match lhs {
                            Value::I32(l) => arith(name, l, r),
                            other => Evaluated::Error(EvalError::NotAnInteger(other)),
                        },
                        other => Evaluated::Error(EvalError::NotAnInteger(other)),
                    }
                } else {
                    Evaluated::Error(EvalError::WrongArguments(string_of_str(name)))
                }
            },
            _ => Evaluated::Error(EvalError::WrongArguments(string_of_str(name))),
        }
    } else if text_eq(name, "neg") {
        match arg {
            Value::I32(v) => if v == i32::MIN {
                Evaluated::Error(EvalError::Overflow)
            } else {
                Evaluated::Val(Value::I32(-v))
            },
            _ => Evaluated::Error(EvalError::WrongArguments(string_of_str(name))),
        }
    } else if text_eq(name, "pos") {
        match arg {
            Value::I32(v) => Evaluated::Val(Value::I32(v)),
            _ => Evaluated::Error(EvalError::WrongArguments(string_of_str(name))),
        }
    } else if text_eq(name, "not") {
        match arg {
            Value::I32(v) => Evaluated::Val(Value::I32(if v != 0 { 0 } else { 1 })),
            _ => Evaluated::Error(EvalError::WrongArguments(string_of_str(name))),
        }
    } else if text_eq(name, "print") {
        match arg {
            Value::Tuple(vals) => {
                let ghost before = out@;
                out.push(vals);
                proof {
                    assert(outs_view(out@) =~= outs_view(before) + seq![values_view(vals@)]);
                }
                Evaluated::Val(Value::Unit)
            },
            _ => Evaluated::Error(EvalError::NotATuple),
        }
    } else {
        Evaluated::Error(EvalError::UnknownBuiltin(string_of_str(name)))
    }
}

} // verus!

verus! {

fn unwrap_single_exec(v: Value) -> (r: Value)
    ensures
        r@ == unwrap_single(v@),
{
    match v {
        Value::Tuple(es) => {
            proof { lemma_values_view(es@); }
            if es.len() == 1 {
                let mut es = es;
                es.pop().unwrap()
            } else {
                Value::Tuple(es)
            }
        },
        other => other,
    }
}

fn lit_value_exec(l: &Literal) -> (r: Value)
    ensures
        r@ == lit_value(l@),
{
    match l {
        Literal::I32(v) => Value::I32(*v),
        Literal::Bool(b) => Value::Bool(*b),
        Literal::Str(_) => Value::Builtin("str"),
    }
}

fn symbol_value_exec(env: &Env, name: &String) -> (r: Evaluated)
    ensures
        evaluated_view(r) == symbol_value(env@, name@),
{
    match env.get(name.as_str()) {
        Some(v) => Evaluated::Val(clone_value(v)),
        None => match builtin_named(name.as_str()) {
            Some(n) => Evaluated::Val(Value::Builtin(n)),
            None => Evaluated::Error(EvalError::UndefinedSymbol(name.clone())),
        },
    }
}

/// Evaluates a core tree in an environment, nesting at most `fuel` deep
/// (see `spec_eval`): the outcome, with what the evaluation printed added to
/// `out`.
pub fn try_eval_with_env(ast: &Ghast, env: &Env, fuel: u64, out: &mut Vec<Vec<Value>>) -> (r: Evaluated)
    ensures
        evaluated_view(r) == spec_eval(ast@, env@, fuel as nat).0,
        outs_view(final(out)@) == outs_view(old(out)@) + spec_eval(ast@, env@, fuel as nat).1,
    decreases fuel, 0nat,
{
    let ghost start = outs_view(out@);
    proof {
        assert(start + Seq::<Seq<VM>>::empty() =~= start);
    }
    if fuel == 0 {
        return Evaluated::OutOfFuel;
    }
    let f = fuel - 1;
    match ast {
        Ghast::Symbol(n) => symbol_value_exec(env, n),
        Ghast::Fn(p, b) => Evaluated::Val(Value::Closure(p.clone(), Box::new(clone_ghast(b)), clone_env(env))),
        Ghast::Lit(l) => Evaluated::Val(lit_value_exec(l)),
        Ghast::Apply(fx, ax) => eval_apply(fx, ax, env, f, out),
        Ghast::Tuple(es) => match eval_list(es, env, f, out) {
            Ok(vs) => Evaluated::Val(Value::Tuple(vs)),
            Err(e) => e,
        },
        Ghast::Block(es) => match eval_list(es, env, f, out) {
            Ok(vs) => {
                proof { lemma_values_view(vs@); }
                if vs.len() == 0 {
                    Evaluated::Val(Value::Unit)
                } else {
                    let mut vs = vs;
                    Evaluated::Val(vs.pop().unwrap())
                }
            },
            Err(e) => e,
        },
        Ghast::If(c, t, e) => {
            let rc = try_eval_with_env(c, env, f, out);
            match rc {
                Evaluated::Val(Value::Bool(b)) => {
                    let ghost mid = outs_view(out@);
                    let r = if b { try_eval_with_env(t, env, f, out) } else { try_eval_with_env(e, env, f, out) };
                    proof {
                        let o1 = spec_eval(c@, env@, f as nat).1;
                        let o2 = spec_eval(if b { t@ } else { e@ }, env@, f as nat).1;
                        assert(outs_view(out@) =~= start + (o1 + o2));
                    }
                    r
                },
                Evaluated::Val(other) => Evaluated::Error(EvalError::ConditionNotBool(other)),
                other => other,
            }
        },
    }
}

fn eval_apply(fx: &Ghast, ax: &Ghast, env: &Env, f: u64, out: &mut Vec<Vec<Value>>) -> (r: Evaluated)
    ensures
        ({
            let (r1, o1) = spec_eval(fx@, env@, f as nat);
            let expected = match r1 {
                EvalOut::Val(fv) => {
                    let (r2, o2) = spec_eval(ax@, env@, f as nat);
                    match r2 {
                        EvalOut::Val(av) => match fv {
                            VM::Closure(p, body, cenv) => {
                                let (r3, o3) = spec_eval(body, env_insert(cenv, p, unwrap_single(av)), f as nat);
                                (r3, o1 + o2 + o3)
                            },
                            VM::Builtin(n) => {
                                let (r3, o3) = spec_apply_builtin(n, av);
                                (r3, o1 + o2 + o3)
                            },
                            other => (EvalOut::Error(EvalErrM::NotCallable(other)), o1 + o2),
                        },
                        _ => (r2, o1 + o2),
                    }
                },
                _ => (r1, o1),
            };
            &&& evaluated_view(r) == expected.0
            &&& outs_view(final(out)@) == outs_view(old(out)@) + expected.1
        }),
    decreases f, 1nat,
{
    let ghost start = outs_view(out@);
    let ghost o1 = spec_eval(fx@, env@, f as nat).1;
    let ghost o2 = spec_eval(ax@, env@, f as nat).1;
    let fv = try_eval_with_env(fx, env, f, out);
    let fv = match fv {
        Evaluated::Val(v) => v,
        other => {
            return other;
        },
    };
    let av = try_eval_with_env(ax, env, f, out);
    let av = match av {
        Evaluated::Val(v) => v,
        other => {
            assert(outs_view(out@) =~= start + (o1 + o2));
            return other;
        },
    };
    assert(outs_view(out@) =~= start + (o1 + o2));
    let ghost mid = outs_view(out@);
    match fv {
        Value::Closure(p, body, cenv) => {
            let ghost avv = av@;
            let mut cenv = cenv;
            cenv.insert(p, unwrap_single_exec(av));
            let r = try_eval_with_env(&body, &cenv, f, out);
            proof {
                let o3 = spec_eval(body@, cenv@, f as nat).1;
                assert(outs_view(out@) =~= start + (o1 + o2 + o3));
            }
            r
        },
        Value::Builtin(n) => {
            let ghost avv = av@;
            let r = apply_builtin(n, av, out);
            proof {
                let o3 = spec_apply_builtin(n@, avv).1;
                assert(outs_view(out@) =~= start + (o1 + o2 + o3));
            }
            r
        },
        other => Evaluated::Error(EvalError::NotCallable(other)),
    }
}

proof fn lemma_eval_list_stops(s: Seq<GM>, env: Seq<(Seq<char>, VM)>, fuel: nat, k: int, n: int)
    requires
        0 <= k <= n <= s.len(),
        spec_eval_list(s.subrange(0, k), env, fuel).0 is Err,
    ensures
        spec_eval_list(s.subrange(0, n), env, fuel) == spec_eval_list(s.subrange(0, k), env, fuel),
    decreases n - k,
{
    if n > k {
        lemma_eval_list_stops(s, env, fuel, k, n - 1);
        assert(s.subrange(0, n).drop_last() =~= s.subrange(0, n - 1));
    }
}

fn eval_list(es: &Vec<Ghast>, env: &Env, fuel: u64, out: &mut Vec<Vec<Value>>) -> (r: Result<Vec<Value>, Evaluated>)
    ensures
        match r {
            Ok(vs) => spec_eval_list(ghasts_view(es@), env@, fuel as nat).0 == Ok::<Seq<VM>, EvalOut>(values_view(vs@)),
            Err(e) => spec_eval_list(ghasts_view(es@), env@, fuel as nat).0 == Err::<Seq<VM>, EvalOut>(evaluated_view(e)),
        },
        outs_view(final(out)@) == outs_view(old(out)@) + spec_eval_list(ghasts_view(es@), env@, fuel as nat).1,
    decreases fuel, es@.len() + 1,
{
    let ghost start = outs_view(out@);
    let ghost gs = ghasts_view(es@);
    proof {
        lemma_ghasts_view(es@);
    }
    let mut vs: Vec<Value> = Vec::new();
    let mut i: usize = 0;
    assert(gs.subrange(0, 0) =~= Seq::<GM>::empty());
    assert(start + Seq::<Seq<VM>>::empty() =~= start);
    while i < es.len()
        invariant
            i <= es.len(),
            gs == ghasts_view(es@),
            start == outs_view(old(out)@),
            gs.len() == es.len(),
            forall|k: int| 0 <= k < es.len() ==> #[trigger] gs[k] == ghast_view(es@[k]),
            spec_eval_list(gs.subrange(0, i as int), env@, fuel as nat).0 == Ok::<Seq<VM>, EvalOut>(values_view(vs@)),
            outs_view(out@) == start + spec_eval_list(gs.subrange(0, i as int), env@, fuel as nat).1,
        decreases es.len() - i,
    {
        let ghost pre = gs.subrange(0, i as int);
        let ghost next = gs.subrange(0, i + 1);
        assert(next.drop_last() =~= pre);
        assert(next.last() == es@[i as int]@);
        let ghost o_pre = spec_eval_list(pre, env@, fuel as nat).1;
        let ghost o_new = spec_eval(es@[i as int]@, env@, fuel as nat).1;
        let ghost vs_before = vs@;
        let r = try_eval_with_env(&es[i], env, fuel, out);
        assert(outs_view(out@) =~= start + (o_pre + o_new));
        match r {
            Evaluated::Val(v) => {
                vs.push(v);
                assert(vs@.subrange(0, vs@.len() - 1) =~= vs_before);
            },
            other => {
                proof {
                    assert(spec_eval_list(next, env@, fuel as nat).1 == o_pre + o_new);
                    assert(spec_eval_list(next, env@, fuel as nat).0 is Err);
                    lemma_eval_list_stops(gs, env@, fuel as nat, i + 1, gs.len() as int);
                    assert(gs.subrange(0, gs.len() as int) =~= gs);
                }
                return Err(other);
            },
        }
        i = i + 1;
    }
    assert(gs.subrange(0, i as int) =~= gs);
    Ok(vs)
}

/// Evaluates a core tree that has a value in an environment (see
/// `spec_eval`): the value, with what the evaluation printed added to `out`.
/// A closure's body is evaluated in the closure's own environment with its
/// parameter bound; the caller's environment is only read.
pub fn eval_with_env(ast: &Ghast, env: &Env, fuel: u64, out: &mut Vec<Vec<Value>>) -> (r: Value)
    requires
        spec_eval(ast@, env@, fuel as nat).0 is Val,
    ensures
        spec_eval(ast@, env@, fuel as nat).0 == EvalOut::Val(r@),
        outs_view(final(out)@) == outs_view(old(out)@) + spec_eval(ast@, env@, fuel as nat).1,
{
    match try_eval_with_env(ast, env, fuel, out) {
        Evaluated::Val(v) => v,
        _ => Value::Unit,
    }
}

/// The nesting depth available to an evaluation.
pub open spec fn max_depth() -> nat {
    u64::MAX as nat
}

/// Evaluates a core tree in the empty environment, nesting at most `fuel`
/// deep: the outcome, with what the evaluation printed added to `printed`
/// (one entry per `print`, holding the printed values).
pub fn eval_with_fuel(ast: &Ghast, fuel: u64, printed: &mut Vec<Vec<Value>>) -> (r: Evaluated)
    ensures
        evaluated_view(r) == spec_eval(ast@, Seq::empty(), fuel as nat).0,
        outs_view(final(printed)@) == outs_view(old(printed)@) + spec_eval(ast@, Seq::empty(), fuel as nat).1,
{
    let env = Env::new();
    try_eval_with_env(ast, &env, fuel, printed)
}

/// Evaluates a core tree in the empty environment: its value, and what the
/// evaluation printed (one entry per `print`, holding the printed values).
pub fn eval(ast: &Ghast) -> (r: (Value, Vec<Vec<Value>>))
    requires
        spec_eval(ast@, Seq::empty(), max_depth()).0 is Val,
    ensures
        spec_eval(ast@, Seq::empty(), max_depth()).0 == EvalOut::Val(r.0@),
        outs_view(r.1@) == spec_eval(ast@, Seq::empty(), max_depth()).1,
{
    let mut printed: Vec<Vec<Value>> = Vec::new();
    assert(outs_view(printed@) =~= Seq::<Seq<VM>>::empty());
    let env = Env::new();
    let v = eval_with_env(ast, &env, u64::MAX, &mut printed);
    assert(Seq::<Seq<VM>>::empty() + spec_eval(ast@, Seq::empty(), max_depth()).1 =~= spec_eval(ast@, Seq::empty(), max_depth()).1);
    (v, printed)
}

} // verus!
