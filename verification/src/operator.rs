//! The operator table: which symbols the grammar accepts between and in
//! front of terms, what core function each one stands for, and how tightly
//! and in which direction it binds.
use vstd::prelude::*;
use crate::text::text_eq;

verus! {

/// The direction in which an operator binds.
#[derive(Debug, PartialEq, Eq, Structural, Hash, Clone, Copy)]
pub enum Fixity {
    Prefix,
    Postfix,
    InfixLeft,
    InfixRight,
    CmpLeft,
    CmpRight,
    NonAssoc,
}

/// The core name of juxtaposition (function application).
pub const APPLY_NAME: &'static str = "APPLY";

/// One entry of the operator table.
#[derive(Debug, Clone, Copy)]
pub struct OperatorInfo {
    pub op: &'static str,
    pub name: &'static str,
    pub fixity: Fixity,
    pub precedence: i16,
}

/// The mathematical content of an operator entry.
pub struct OpModel {
    pub op: Seq<char>,
    pub name: Seq<char>,
    pub fixity: Fixity,
    pub precedence: int,
}

impl View for OperatorInfo {
    type V = OpModel;

    open spec fn view(&self) -> OpModel {
        OpModel { op: self.op@, name: self.name@, fixity: self.fixity, precedence: self.precedence as int }
    }
}

pub open spec fn op_model(op: Seq<char>, name: Seq<char>, fixity: Fixity, precedence: int) -> OpModel {
    OpModel { op, name, fixity, precedence }
}

/// The operator table, in the order in which lookups search it.
pub open spec fn operator_table() -> Seq<OpModel> {
    seq![
        op_model(seq!['+'], seq!['a', 'd', 'd'], Fixity::InfixLeft, 10),
        op_model(seq!['-'], seq!['s', 'u', 'b'], Fixity::InfixLeft, 10),
        op_model(seq!['*'], seq!['m', 'u', 'l'], Fixity::InfixLeft, 20),
        op_model(seq!['/'], seq!['d', 'i', 'v'], Fixity::InfixLeft, 20),
        op_model(seq!['+'], seq!['p', 'o', 's'], Fixity::Prefix, 20),
        op_model(seq!['-'], seq!['n', 'e', 'g'], Fixity::Prefix, 20),
        op_model(seq!['!'], seq!['n', 'o', 't'], Fixity::Postfix, 15),
        op_model(Seq::empty(), apply_name(), Fixity::InfixLeft, 300),
    ]
}

pub open spec fn apply_name() -> Seq<char> {
    seq!['A', 'P', 'P', 'L', 'Y']
}

pub open spec fn infos_view(v: Seq<OperatorInfo>) -> Seq<OpModel> {
    v.map_values(|o: OperatorInfo| o@)
}

pub open spec fn strs_view(v: Seq<&str>) -> Seq<Seq<char>> {
    v.map_values(|s: &str| s@)
}

/// The operator table (`OPERATORS`), one entry per operator spelling and
/// fixity.
pub fn operators() -> (r: Vec<OperatorInfo>)
    ensures
        infos_view(r@) == operator_table(),
{
    proof {
        reveal_strlit("+");
        reveal_strlit("-");
        reveal_strlit("*");
        reveal_strlit("/");
        reveal_strlit("!");
        reveal_strlit("");
        reveal_strlit("add");
        reveal_strlit("sub");
        reveal_strlit("mul");
        reveal_strlit("div");
        reveal_strlit("pos");
        reveal_strlit("neg");
        reveal_strlit("not");
        reveal_strlit("APPLY");
    }
    let mut r: Vec<OperatorInfo> = Vec::new();
    r.push(OperatorInfo { op: "+", name: "add", fixity: Fixity::InfixLeft, precedence: 10 });
    r.push(OperatorInfo { op: "-", name: "sub", fixity: Fixity::InfixLeft, precedence: 10 });
    r.push(OperatorInfo { op: "*", name: "mul", fixity: Fixity::InfixLeft, precedence: 20 });
    r.push(OperatorInfo { op: "/", name: "div", fixity: Fixity::InfixLeft, precedence: 20 });
    r.push(OperatorInfo { op: "+", name: "pos", fixity: Fixity::Prefix, precedence: 20 });
    r.push(OperatorInfo { op: "-", name: "neg", fixity: Fixity::Prefix, precedence: 20 });
    r.push(OperatorInfo { op: "!", name: "not", fixity: Fixity::Postfix, precedence: 15 });
    r.push(OperatorInfo { op: "", name: "APPLY", fixity: Fixity::InfixLeft, precedence: 300 });
    assert("+"@ =~= seq!['+']);
    assert("-"@ =~= seq!['-']);
    assert("*"@ =~= seq!['*']);
    assert("/"@ =~= seq!['/']);
    assert("!"@ =~= seq!['!']);
    assert(""@ =~= Seq::<char>::empty());
    assert("add"@ =~= seq!['a', 'd', 'd']);
    assert("sub"@ =~= seq!['s', 'u', 'b']);
    assert("mul"@ =~= seq!['m', 'u', 'l']);
    assert("div"@ =~= seq!['d', 'i', 'v']);
    assert("pos"@ =~= seq!['p', 'o', 's']);
    assert("neg"@ =~= seq!['n', 'e', 'g']);
    assert("not"@ =~= seq!['n', 'o', 't']);
    assert("APPLY"@ =~= apply_name());
    assert(infos_view(r@) =~= operator_table());
    r
}

/// The spellings of the entries of `t`, in order.
pub open spec fn spellings(t: Seq<OpModel>) -> Seq<Seq<char>> {
    t.map_values(|o: OpModel| o.op)
}

/// `s` with every occurrence of `x` left out, order kept.
pub open spec fn without(s: Seq<Seq<char>>, x: Seq<char>) -> Seq<Seq<char>>
    decreases s.len(),
{
    if s.len() == 0 {
        Seq::empty()
    } else if s.last() == x {
        without(s.drop_last(), x)
    } else {
        without(s.drop_last(), x).push(s.last())
    }
}

/// The spellings of the entries of `t` whose fixity is `f`, in order.
pub open spec fn spellings_with_fixity(t: Seq<OpModel>, f: Fixity) -> Seq<Seq<char>>
    decreases t.len(),
{
    if t.len() == 0 {
        Seq::empty()
    } else if t.last().fixity == f {
        spellings_with_fixity(t.drop_last(), f).push(t.last().op)
    } else {
        spellings_with_fixity(t.drop_last(), f)
    }
}

/// Every operator spelling of the table, in table order.
pub fn available_operators() -> (r: Vec<&'static str>)
    ensures
        strs_view(r@) == spellings(operator_table()),
{
    let table = operators();
    let mut r: Vec<&'static str> = Vec::new();
    let mut i: usize = 0;
    while i < table.len()
        invariant
            i <= table.len(),
            infos_view(table@) == operator_table(),
            strs_view(r@) == spellings(operator_table()).subrange(0, i as int),
        decreases table.len() - i,
    {
        assert(table@[i as int]@ == operator_table()[i as int]);
        let ghost old_r = r@;
        r.push(table[i].op);
        i = i + 1;
        assert(strs_view(r@) =~= strs_view(old_r).push(table@[i - 1].op@));
        assert(strs_view(r@) =~= spellings(operator_table()).subrange(0, i as int));
    }
    assert(spellings(operator_table()).subrange(0, i as int) =~= spellings(operator_table()));
    r
}

/// The operator spellings other than a single space, in table order.
pub fn available_operators_without_space() -> (r: Vec<&'static str>)
    ensures
        strs_view(r@) == without(spellings(operator_table()), seq![' ']),
{
    proof {
        reveal_strlit(" ");
    }
    let all = available_operators();
    let mut r: Vec<&'static str> = Vec::new();
    let mut i: usize = 0;
    while i < all.len()
        invariant
            i <= all.len(),
            strs_view(all@) == spellings(operator_table()),
            " "@ == seq![' '],
            strs_view(r@) == without(strs_view(all@).subrange(0, i as int), seq![' ']),
        decreases all.len() - i,
    {
        let op = all[i];
        let keep = !text_eq(op, " ");
        assert(strs_view(all@).subrange(0, i + 1).drop_last() =~= strs_view(all@).subrange(0, i as int));
        if keep {
            r.push(op);
        }
        i = i + 1;
        assert(strs_view(r@) =~= without(strs_view(all@).subrange(0, i as int), seq![' ']));
    }
    assert(strs_view(all@).subrange(0, i as int) =~= strs_view(all@));
    r
}

fn operators_with_fixity(f: Fixity) -> (r: Vec<&'static str>)
    ensures
        strs_view(r@) == spellings_with_fixity(operator_table(), f),
{
    let table = operators();
    let mut r: Vec<&'static str> = Vec::new();
    let mut i: usize = 0;
    while i < table.len()
        invariant
            i <= table.len(),
            infos_view(table@) == operator_table(),
            strs_view(r@) == spellings_with_fixity(operator_table().subrange(0, i as int), f),
        decreases table.len() - i,
    {
        assert(operator_table().subrange(0, i + 1).drop_last() =~= operator_table().subrange(0, i as int));
        if table[i].fixity == f {
            r.push(table[i].op);
        }
        i = i + 1;
        assert(strs_view(r@) =~= spellings_with_fixity(operator_table().subrange(0, i as int), f));
    }
    assert(operator_table().subrange(0, i as int) =~= operator_table());
    r
}

/// The spellings of the prefix operators, in table order.
pub fn prefix_operators() -> (r: Vec<&'static str>)
    ensures
        strs_view(r@) == spellings_with_fixity(operator_table(), Fixity::Prefix),
{
    operators_with_fixity(Fixity::Prefix)
}

/// The spellings of the postfix operators, in table order.
pub fn postfix_operators() -> (r: Vec<&'static str>)
    ensures
        strs_view(r@) == spellings_with_fixity(operator_table(), Fixity::Postfix),
{
    operators_with_fixity(Fixity::Postfix)
}

/// The fixities that a binary lookup accepts.
pub open spec fn is_binary_fixity(f: Fixity) -> bool {
    f == Fixity::InfixLeft || f == Fixity::InfixRight || f == Fixity::CmpLeft || f == Fixity::CmpRight
}

/// Which entries a lookup accepts.
#[derive(PartialEq, Eq, Structural, Clone, Copy)]
pub enum OpKind {
    Binary,
    Prefix,
    Postfix,
}

pub open spec fn kind_accepts(k: OpKind, f: Fixity) -> bool {
    match k {
        OpKind::Binary => is_binary_fixity(f),
        OpKind::Prefix => f == Fixity::Prefix,
        OpKind::Postfix => f == Fixity::Postfix,
    }
}

/// The index of the first entry of `t`, from index `i` on, spelled `op`
/// whose fixity `k` accepts.
pub open spec fn find_from(t: Seq<OpModel>, op: Seq<char>, k: OpKind, i: int) -> Option<int>
    decreases t.len() - i,
{
    if i < 0 || i >= t.len() {
        None
    } else if t[i].op == op && kind_accepts(k, t[i].fixity) {
        Some(i)
    } else {
        find_from(t, op, k, i + 1)
    }
}

/// The first entry of the table spelled `op` whose fixity `k` accepts.
pub open spec fn lookup(op: Seq<char>, k: OpKind) -> Option<OpModel> {
    match find_from(operator_table(), op, k, 0) {
        Some(i) => Some(operator_table()[i]),
        None => None,
    }
}

/// What `info` answers: the first binary entry spelled `op`, else the
/// first prefix entry spelled `op`.
pub open spec fn spec_info(op: Seq<char>) -> Option<OpModel> {
    match lookup(op, OpKind::Binary) {
        Some(m) => Some(m),
        None => lookup(op, OpKind::Prefix),
    }
}

pub open spec fn info_view(r: Option<OperatorInfo>) -> Option<OpModel> {
    match r {
        Some(o) => Some(o@),
        None => None,
    }
}

/// A found index is the first matching one.
pub proof fn lemma_find_from(t: Seq<OpModel>, op: Seq<char>, k: OpKind, i: int)
    requires
        0 <= i <= t.len(),
    ensures
        find_from(t, op, k, i) matches Some(j) ==> i <= j < t.len() && t[j].op == op
            && kind_accepts(k, t[j].fixity) && forall|m: int|
            i <= m < j ==> !(#[trigger] t[m].op == op && kind_accepts(k, t[m].fixity)),
        find_from(t, op, k, i) is None ==> forall|m: int|
            i <= m < t.len() ==> !(#[trigger] t[m].op == op && kind_accepts(k, t[m].fixity)),
    decreases t.len() - i,
{
    if i < t.len() {
        lemma_find_from(t, op, k, i + 1);
    }
}

/// A lookup answers an entry of the table that is spelled `op` and whose
/// fixity the kind accepts; it answers nothing only when no entry is both.
pub proof fn lemma_lookup(op: Seq<char>, k: OpKind)
    ensures
        lookup(op, k) matches Some(m) ==> operator_table().contains(m) && m.op == op && kind_accepts(k, m.fixity),
        lookup(op, k) is None ==> forall|i: int|
            0 <= i < operator_table().len() ==> !(#[trigger] operator_table()[i].op == op && kind_accepts(k, operator_table()[i].fixity)),
{
    lemma_find_from(operator_table(), op, k, 0);
    if let Some(j) = find_from(operator_table(), op, k, 0) {
        assert(operator_table()[j] == lookup(op, k)->Some_0);
    }
}

/// Every operator that `info` knows binds as a left-associative infix
/// operator: the table's prefix spellings all have infix entries too.
pub proof fn lemma_known_infix_left(op: Seq<char>)
    ensures
        spec_info(op) matches Some(m) ==> m.fixity == Fixity::InfixLeft,
{
    let t = operator_table();
    lemma_lookup(op, OpKind::Binary);
    lemma_lookup(op, OpKind::Prefix);
    if let Some(m) = lookup(op, OpKind::Binary) {
        let i = choose|i: int| 0 <= i < t.len() && t[i] == m;
        assert(0 <= i < 8);
    } else if let Some(m) = lookup(op, OpKind::Prefix) {
        let i = choose|i: int| 0 <= i < t.len() && t[i] == m;
        if i == 4 {
            assert(!(t[0].op == op && kind_accepts(OpKind::Binary, t[0].fixity)));
        } else if i == 5 {
            assert(!(t[1].op == op && kind_accepts(OpKind::Binary, t[1].fixity)));
        }
    }
}

/// The unary entries of the table: `+` is the prefix `pos`, `-` the prefix
/// `neg`, `!` the postfix `not`; no other spelling has a unary entry.
pub proof fn lemma_unary_lookup(op: Seq<char>)
    ensures
        lookup(op, OpKind::Prefix) == (if op == seq!['+'] {
            Some(operator_table()[4])
        } else if op == seq!['-'] {
            Some(operator_table()[5])
        } else {
            None::<OpModel>
        }),
        lookup(op, OpKind::Postfix) == (if op == seq!['!'] { Some(operator_table()[6]) } else { None::<OpModel> }),
{
    reveal_with_fuel(find_from, 9);
}

fn find_entry(op: &str, k: OpKind) -> (r: Option<OperatorInfo>)
    ensures
        info_view(r) == lookup(op@, k),
{
    let table = operators();
    let mut i: usize = 0;
    while i < table.len()
        invariant
            i <= table.len(),
            infos_view(table@) == operator_table(),
            find_from(operator_table(), op@, k, 0) == find_from(operator_table(), op@, k, i as int),
        decreases table.len() - i,
    {
        let e = table[i];
        assert(e@ == operator_table()[i as int]);
        let accepts = match k {
            OpKind::Binary => e.fixity == Fixity::InfixLeft || e.fixity == Fixity::InfixRight
                || e.fixity == Fixity::CmpLeft || e.fixity == Fixity::CmpRight,
            OpKind::Prefix => e.fixity == Fixity::Prefix,
            OpKind::Postfix => e.fixity == Fixity::Postfix,
        };
        if text_eq(e.op, op) && accepts {
            return Some(e);
        }
        i = i + 1;
    }
    None
}

/// Looks up an operator by spelling: the first binary entry, else the first
/// prefix entry.
pub fn info(op: &str) -> (r: Option<OperatorInfo>)
    ensures
        info_view(r) == spec_info(op@),
{
    match find_entry(op, OpKind::Binary) {
        Some(e) => Some(e),
        None => find_entry(op, OpKind::Prefix),
    }
}

/// Looks up a unary operator by spelling: the first prefix entry when
/// `is_prefix`, else the first postfix entry.
pub fn info_unary(op: &str, is_prefix: bool) -> (r: Option<OperatorInfo>)
    ensures
        info_view(r) == lookup(op@, if is_prefix { OpKind::Prefix } else { OpKind::Postfix }),
{
    if is_prefix {
        find_entry(op, OpKind::Prefix)
    } else {
        find_entry(op, OpKind::Postfix)
    }
}

} // verus!
