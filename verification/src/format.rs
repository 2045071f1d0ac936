//! How values and core trees are written out: values as the language
//! prints them, core trees in the form `{:?}` writes them.
use vstd::prelude::*;
use crate::phase2::{Literal, LitM};
use crate::phase3::{Ghast, GM, Value, VM, ghasts_view, values_view, lemma_ghasts_view, lemma_values_view};
use crate::corelang::{CoreType, TypeM, types_view, lemma_types_view};

verus! {

/// What `{:?}` writes for a text: the text quoted, with escapes.
pub uninterp spec fn str_debug(s: Seq<char>) -> Seq<char>;

/// Calls `<str as Debug>::fmt` (through `format!("{:?}", ..)`); its result
/// is named `str_debug`.
#[verifier::external_body]
fn debug_text(s: &str) -> (r: String)
    ensures
        r@ == str_debug(s@),
{
    format!("{:?}", s)
}

/// The character of a decimal digit.
pub open spec fn digit_char(d: nat) -> char {
    ((d + 48) as u8) as char
}

/// The decimal digits of a natural number.
pub open spec fn nat_text(n: nat) -> Seq<char>
    decreases n,
{
    if n < 10 {
        seq![digit_char(n)]
    } else {
        nat_text(n / 10).push(digit_char(n % 10))
    }
}

/// The decimal form of an integer, with a leading `-` when negative.
pub open spec fn int_text(n: int) -> Seq<char> {
    if n < 0 {
        seq!['-'] + nat_text((-n) as nat)
    } else {
        nat_text(n as nat)
    }
}

/// The parts joined by the separator.
pub open spec fn join(parts: Seq<Seq<char>>, sep: Seq<char>) -> Seq<char>
    decreases parts.len(),
{
    if parts.len() == 0 {
        Seq::empty()
    } else if parts.len() == 1 {
        parts[0]
    } else {
        join(parts.drop_last(), sep) + sep + parts.last()
    }
}

/// What `{:?}` writes for a literal.
pub open spec fn literal_debug(l: LitM) -> Seq<char> {
    match l {
        LitM::I32(n) => "I32("@ + int_text(n as int) + ")"@,
        LitM::Bool(b) => if b { "Bool(true)"@ } else { "Bool(false)"@ },
        LitM::Str(s) => "Str("@ + str_debug(s) + ")"@,
    }
}

/// What `{:?}` writes for a core tree.
pub open spec fn ghast_debug(g: GM) -> Seq<char>
    decreases g, 0nat,
{
    match g {
        GM::Symbol(s) => "Symbol("@ + str_debug(s) + ")"@,
        GM::Fn(a, b) => "Fn("@ + str_debug(a) + ", "@ + ghast_debug(*b) + ")"@,
        GM::Apply(f, a) => "Apply("@ + ghast_debug(*f) + ", "@ + ghast_debug(*a) + ")"@,
        GM::Lit(l) => "Lit("@ + literal_debug(l) + ")"@,
        GM::Tuple(es) => "Tuple(["@ + join(ghasts_debug(es), ", "@) + "])"@,
        GM::Block(es) => "Block(["@ + join(ghasts_debug(es), ", "@) + "])"@,
        GM::If(c, t, e) => "If("@ + ghast_debug(*c) + ", "@ + ghast_debug(*t) + ", "@ + ghast_debug(*e) + ")"@,
    }
}

pub open spec fn ghasts_debug(es: Seq<GM>) -> Seq<Seq<char>>
    decreases es, 1nat,
{
    if es.len() == 0 {
        Seq::empty()
    } else {
        ghasts_debug(es.subrange(0, es.len() - 1)).push(ghast_debug(es[es.len() - 1]))
    }
}

/// What `{:?}` writes for a core type.
pub open spec fn type_debug(t: TypeM) -> Seq<char>
    decreases t, 0nat,
{
    match t {
        TypeM::Unknown => "Unknown"@,
        TypeM::I32 => "I32"@,
        TypeM::Fn(a, r) => "Fn("@ + type_debug(*a) + ", "@ + type_debug(*r) + ")"@,
        TypeM::Tuple(es) => "Tuple(["@ + join(types_debug(es), ", "@) + "])"@,
    }
}

pub open spec fn types_debug(es: Seq<TypeM>) -> Seq<Seq<char>>
    decreases es, 1nat,
{
    if es.len() == 0 {
        Seq::empty()
    } else {
        types_debug(es.subrange(0, es.len() - 1)).push(type_debug(es[es.len() - 1]))
    }
}

/// How the language prints a value.
pub open spec fn display(v: VM) -> Seq<char>
    decreases v, 0nat,
{
    match v {
        VM::I32(n) => int_text(n as int),
        VM::Bool(b) => if b { "true"@ } else { "false"@ },
        VM::Closure(p, body, _) => "closure("@ + str_debug(p) + ", "@ + ghast_debug(body) + ")"@,
        VM::Tuple(es) => "("@ + join(displays(es), ", "@) + ")"@,
        VM::Builtin(n) => n,
        VM::Unit => "unit"@,
    }
}

pub open spec fn displays(es: Seq<VM>) -> Seq<Seq<char>>
    decreases es, 1nat,
{
    if es.len() == 0 {
        Seq::empty()
    } else {
        displays(es.subrange(0, es.len() - 1)).push(display(es[es.len() - 1]))
    }
}

/// What one `print` writes: the values, separated by spaces.
pub open spec fn print_text(vals: Seq<VM>) -> Seq<char> {
    join(displays(vals), " "@)
}

} // verus!

verus! {

fn digit_char_exec(d: u64) -> (c: char)
    requires
        d < 10,
    ensures
        c == digit_char(d as nat),
{
    ((d + 48) as u8) as char
}

fn nat_text_exec(n: u64) -> (r: String)
    ensures
        r@ == nat_text(n as nat),
    decreases n,
{
    if n < 10 {
        let mut r = String::new();
        crate::text::push_char(&mut r, digit_char_exec(n));
        assert(r@ =~= seq![digit_char(n as nat)]);
        r
    } else {
        let mut r = nat_text_exec(n / 10);
        crate::text::push_char(&mut r, digit_char_exec(n % 10));
        r
    }
}

/// The decimal form of an integer (what `{}` and `{:?}` write for an `i32`).
pub fn int_text_exec(n: i32) -> (r: String)
    ensures
        r@ == int_text(n as int),
{
    if n < 0 {
        let m: u64 = (-(n as i64)) as u64;
        let digits = nat_text_exec(m);
        let mut r = crate::text::string_of_str("-");
        proof { reveal_strlit("-"); }
        assert(r@ =~= seq!['-']);
        r.append(digits.as_str());
        r
    } else {
        nat_text_exec(n as u64)
    }
}

/// Joins the parts with the separator.
pub fn join_exec(parts: &Vec<String>, sep: &str) -> (r: String)
    ensures
        r@ == join(parts@.map_values(|p: String| p@), sep@),
{
    let ghost ps = parts@.map_values(|p: String| p@);
    let mut r = String::new();
    let mut i: usize = 0;
    assert(ps.subrange(0, 0) =~= Seq::<Seq<char>>::empty());
    while i < parts.len()
        invariant
            i <= parts.len(),
            ps == parts@.map_values(|p: String| p@),
            r@ == join(ps.subrange(0, i as int), sep@),
        decreases parts.len() - i,
    {
        let ghost next = ps.subrange(0, i + 1);
        assert(next.drop_last() =~= ps.subrange(0, i as int));
        assert(next.last() == parts@[i as int]@);
        if i > 0 {
            r.append(sep);
        } else {
            assert(next =~= seq![parts@[0]@]);
            assert(r@ =~= Seq::<char>::empty());
        }
        r.append(parts[i].as_str());
        i = i + 1;
    }
    assert(ps.subrange(0, i as int) =~= ps);
    r
}

fn literal_debug_exec(l: &Literal) -> (r: String)
    ensures
        r@ == literal_debug(l@),
{
    match l {
        Literal::I32(n) => {
            let mut r = crate::text::string_of_str("I32(");
            r.append(int_text_exec(*n).as_str());
            r.append(")");
            r
        },
        Literal::Bool(b) => if *b {
            crate::text::string_of_str("Bool(true)")
        } else {
            crate::text::string_of_str("Bool(false)")
        },
        Literal::Str(s) => {
            let mut r = crate::text::string_of_str("Str(");
            r.append(debug_text(s.as_str()).as_str());
            r.append(")");
            r
        },
    }
}

/// What `{:?}` writes for a core tree.
pub fn ghast_debug_exec(g: &Ghast) -> (r: String)
    ensures
        r@ == ghast_debug(g@),
    decreases g,
{
    match g {
        Ghast::Symbol(s) => {
            let mut r = crate::text::string_of_str("Symbol(");
            r.append(debug_text(s.as_str()).as_str());
            r.append(")");
            r
        },
        Ghast::Fn(a, b) => {
            let mut r = crate::text::string_of_str("Fn(");
            r.append(debug_text(a.as_str()).as_str());
            r.append(", ");
            r.append(ghast_debug_exec(b).as_str());
            r.append(")");
            r
        },
        Ghast::Apply(f, a) => {
            let mut r = crate::text::string_of_str("Apply(");
            r.append(ghast_debug_exec(f).as_str());
            r.append(", ");
            r.append(ghast_debug_exec(a).as_str());
            r.append(")");
            r
        },
        Ghast::Lit(l) => {
            let mut r = crate::text::string_of_str("Lit(");
            r.append(literal_debug_exec(l).as_str());
            r.append(")");
            r
        },
        Ghast::Tuple(es) => {
            let mut r = crate::text::string_of_str("Tuple([");
            r.append(ghasts_debug_exec(es).as_str());
            r.append("])");
            r
        },
        Ghast::Block(es) => {
            let mut r = crate::text::string_of_str("Block([");
            r.append(ghasts_debug_exec(es).as_str());
            r.append("])");
            r
        },
        Ghast::If(c, t, e) => {
            let mut r = crate::text::string_of_str("If(");
            r.append(ghast_debug_exec(c).as_str());
            r.append(", ");
            r.append(ghast_debug_exec(t).as_str());
            r.append(", ");
            r.append(ghast_debug_exec(e).as_str());
            r.append(")");
            r
        },
    }
}

fn ghasts_debug_exec(es: &Vec<Ghast>) -> (r: String)
    ensures
        r@ == join(ghasts_debug(ghasts_view(es@)), ", "@),
    decreases es,
{
    let mut parts: Vec<String> = Vec::new();
    let mut i: usize = 0;
    proof { lemma_ghasts_view(es@); }
    while i < es.len()
        invariant
            i <= es.len(),
            ghasts_view(es@).len() == es.len(),
            forall|k: int| 0 <= k < es.len() ==> #[trigger] ghasts_view(es@)[k] == es@[k]@,
            parts@.map_values(|p: String| p@) == ghasts_debug(ghasts_view(es@).subrange(0, i as int)),
        decreases es.len() - i,
    {
        let d = ghast_debug_exec(&es[i]);
        let ghost before = parts@;
        parts.push(d);
        i = i + 1;
        proof {
            let gs = ghasts_view(es@);
            assert(gs.subrange(0, i as int).subrange(0, i - 1) =~= gs.subrange(0, i - 1));
            assert(parts@.map_values(|p: String| p@) =~= before.map_values(|p: String| p@).push(d@));
        }
    }
    assert(ghasts_view(es@).subrange(0, i as int) =~= ghasts_view(es@));
    join_exec(&parts, ", ")
}

/// What `{:?}` writes for a core type.
pub fn type_debug_exec(t: &CoreType) -> (r: String)
    ensures
        r@ == type_debug(t@),
    decreases t,
{
    match t {
        CoreType::Unknown => crate::text::string_of_str("Unknown"),
        CoreType::I32 => crate::text::string_of_str("I32"),
        CoreType::Fn(a, b) => {
            let mut r = crate::text::string_of_str("Fn(");
            r.append(type_debug_exec(a).as_str());
            r.append(", ");
            r.append(type_debug_exec(b).as_str());
            r.append(")");
            r
        },
        CoreType::Tuple(es) => {
            let mut r = crate::text::string_of_str("Tuple([");
            r.append(types_debug_exec(es).as_str());
            r.append("])");
            r
        },
    }
}

fn types_debug_exec(es: &Vec<CoreType>) -> (r: String)
    ensures
        r@ == join(types_debug(types_view(es@)), ", "@),
    decreases es,
{
    let mut parts: Vec<String> = Vec::new();
    let mut i: usize = 0;
    proof { lemma_types_view(es@); }
    while i < es.len()
        invariant
            i <= es.len(),
            types_view(es@).len() == es.len(),
            forall|k: int| 0 <= k < es.len() ==> #[trigger] types_view(es@)[k] == es@[k]@,
            parts@.map_values(|p: String| p@) == types_debug(types_view(es@).subrange(0, i as int)),
        decreases es.len() - i,
    {
        let d = type_debug_exec(&es[i]);
        let ghost before = parts@;
        parts.push(d);
        i = i + 1;
        proof {
            let ts = types_view(es@);
            assert(ts.subrange(0, i as int).subrange(0, i - 1) =~= ts.subrange(0, i - 1));
            assert(parts@.map_values(|p: String| p@) =~= before.map_values(|p: String| p@).push(d@));
        }
    }
    assert(types_view(es@).subrange(0, i as int) =~= types_view(es@));
    join_exec(&parts, ", ")
}

impl Value {
    /// How the language prints this value.
    pub fn display(&self) -> (r: String)
        ensures
            r@ == display(self@),
        decreases self,
    {
        match self {
            Value::I32(n) => int_text_exec(*n),
            Value::Bool(b) => if *b {
                crate::text::string_of_str("true")
            } else {
                crate::text::string_of_str("false")
            },
            Value::Closure(p, body, _env) => {
                let mut r = crate::text::string_of_str("closure(");
                r.append(debug_text(p.as_str()).as_str());
                r.append(", ");
                r.append(ghast_debug_exec(body).as_str());
                r.append(")");
                r
            },
            Value::Tuple(es) => {
                let mut r = crate::text::string_of_str("(");
                r.append(join_exec(&display_all(es), ", ").as_str());
                r.append(")");
                r
            },
            Value::Builtin(n) => crate::text::string_of_str(n),
            Value::Unit => crate::text::string_of_str("unit"),
        }
    }
}

fn display_all(es: &Vec<Value>) -> (r: Vec<String>)
    ensures
        r@.map_values(|p: String| p@) == displays(values_view(es@)),
    decreases es,
{
    let mut parts: Vec<String> = Vec::new();
    let mut i: usize = 0;
    proof { lemma_values_view(es@); }
    while i < es.len()
        invariant
            i <= es.len(),
            values_view(es@).len() == es.len(),
            forall|k: int| 0 <= k < es.len() ==> #[trigger] values_view(es@)[k] == es@[k]@,
            parts@.map_values(|p: String| p@) == displays(values_view(es@).subrange(0, i as int)),
        decreases es.len() - i,
    {
        let d = es[i].display();
        let ghost before = parts@;
        parts.push(d);
        i = i + 1;
        proof {
            let vs = values_view(es@);
            assert(vs.subrange(0, i as int).subrange(0, i - 1) =~= vs.subrange(0, i - 1));
            assert(parts@.map_values(|p: String| p@) =~= before.map_values(|p: String| p@).push(d@));
        }
    }
    assert(values_view(es@).subrange(0, i as int) =~= values_view(es@));
    parts
}

/// What one `print` writes: the values, separated by spaces.
pub fn print_line(vals: &Vec<Value>) -> (r: String)
    ensures
        r@ == print_text(values_view(vals@)),
{
    join_exec(&display_all(vals), " ")
}

} // verus!
