//! The typed core: a core tree whose every node carries a type, built from
//! the tree of `ghast` by resolving operator precedence, and a pass that
//! fills in the types of functions and applications.
use vstd::prelude::*;
use crate::ghast::{
    Binop, Ghast, Literal, SurfaceM, surface_view, surfaces_view, surface_size, surfaces_size,
    lemma_surfaces_view, lemma_surfaces_view_subrange, lemma_surfaces_size_split, lemma_surface_size_pos,
};
use crate::operator::{info, spec_info};
use crate::phase2::strings_view;
use crate::phase3::{pivot_of, Pivot, ConvErr, ConvertError, conv_err_view, PivotResult, lemma_pivot_in_range};
use crate::text::{text_eq, string_of_str};

verus! {

/// The type of a core node.
#[derive(Debug)]
pub enum CoreType {
    Unknown,
    I32,
    Fn(Box<CoreType>, Box<CoreType>),
    Tuple(Vec<CoreType>),
}

/// A core node.
#[derive(Debug)]
pub enum CoreValue {
    Symbol(String),
    Fn(String, Box<Core>),
    Apply(Box<Core>, Box<Core>),
    Lit(Literal),
    Tuple(Vec<Core>),
}

/// A core node with its type.
pub type Core = (CoreValue, CoreType);

/// The mathematical content of a type.
pub enum TypeM {
    Unknown,
    I32,
    Fn(Box<TypeM>, Box<TypeM>),
    Tuple(Seq<TypeM>),
}

/// The mathematical content of a core node.
pub enum CoreM {
    Symbol(Seq<char>),
    Fn(Seq<char>, Box<(CoreM, TypeM)>),
    Apply(Box<(CoreM, TypeM)>, Box<(CoreM, TypeM)>),
    Lit(Literal),
    Tuple(Seq<(CoreM, TypeM)>),
}

pub open spec fn type_view(t: CoreType) -> TypeM
    decreases t,
{
    match t {
        CoreType::Unknown => TypeM::Unknown,
        CoreType::I32 => TypeM::I32,
        CoreType::Fn(a, r) => TypeM::Fn(Box::new(type_view(*a)), Box::new(type_view(*r))),
        CoreType::Tuple(v) => TypeM::Tuple(types_view(v@)),
    }
}

pub open spec fn types_view(s: Seq<CoreType>) -> Seq<TypeM>
    decreases s,
{
    if s.len() == 0 {
        Seq::empty()
    } else {
        types_view(s.subrange(0, s.len() - 1)).push(type_view(s[s.len() - 1]))
    }
}

pub open spec fn value_view(v: CoreValue) -> CoreM
    decreases v,
{
    match v {
        CoreValue::Symbol(s) => CoreM::Symbol(s@),
        CoreValue::Fn(p, b) => CoreM::Fn(p@, Box::new(core_view(*b))),
        CoreValue::Apply(f, a) => CoreM::Apply(Box::new(core_view(*f)), Box::new(core_view(*a))),
        CoreValue::Lit(l) => CoreM::Lit(l),
        CoreValue::Tuple(v) => CoreM::Tuple(cores_view(v@)),
    }
}

pub open spec fn core_view(c: Core) -> (CoreM, TypeM)
    decreases c,
{
    (value_view(c.0), type_view(c.1))
}

pub open spec fn cores_view(s: Seq<Core>) -> Seq<(CoreM, TypeM)>
    decreases s,
{
    if s.len() == 0 {
        Seq::empty()
    } else {
        cores_view(s.subrange(0, s.len() - 1)).push(core_view(s[s.len() - 1]))
    }
}

impl View for CoreType {
    type V = TypeM;

    open spec fn view(&self) -> TypeM {
        type_view(*self)
    }
}

impl View for CoreValue {
    type V = CoreM;

    open spec fn view(&self) -> CoreM {
        value_view(*self)
    }
}

/// The view of a sequence of core nodes is element-wise.
pub proof fn lemma_cores_view(s: Seq<Core>)
    ensures
        cores_view(s).len() == s.len(),
        forall|i: int| 0 <= i < s.len() ==> #[trigger] cores_view(s)[i] == core_view(s[i]),
    decreases s.len(),
{
    if s.len() > 0 {
        lemma_cores_view(s.subrange(0, s.len() - 1));
        assert forall|i: int| 0 <= i < s.len() implies #[trigger] cores_view(s)[i] == core_view(s[i]) by {
            if i < s.len() - 1 {
                assert(s.subrange(0, s.len() - 1)[i] == s[i]);
            }
        }
    }
}

/// The view of a sequence of types is element-wise.
pub proof fn lemma_types_view(s: Seq<CoreType>)
    ensures
        types_view(s).len() == s.len(),
        forall|i: int| 0 <= i < s.len() ==> #[trigger] types_view(s)[i] == type_view(s[i]),
    decreases s.len(),
{
    if s.len() > 0 {
        lemma_types_view(s.subrange(0, s.len() - 1));
        assert forall|i: int| 0 <= i < s.len() implies #[trigger] types_view(s)[i] == type_view(s[i]) by {
            if i < s.len() - 1 {
                assert(s.subrange(0, s.len() - 1)[i] == s[i]);
            }
        }
    }
}

pub open spec fn print_name() -> Seq<char> { "print"@ }
pub open spec fn add_name() -> Seq<char> { "add"@ }

/// The type of `print`: from an integer to the empty tuple.
pub open spec fn print_type() -> TypeM {
    TypeM::Fn(Box::new(TypeM::I32), Box::new(TypeM::Tuple(Seq::empty())))
}

/// The type of `add`: from a pair of integers to an integer.
pub open spec fn add_type() -> TypeM {
    TypeM::Fn(Box::new(TypeM::Tuple(seq![TypeM::I32, TypeM::I32])), Box::new(TypeM::I32))
}

/// The type of a symbol: known for `print` and `add`, unknown otherwise.
pub open spec fn symbol_type(name: Seq<char>) -> TypeM {
    if name == print_name() {
        print_type()
    } else if name == add_name() {
        add_type()
    } else {
        TypeM::Unknown
    }
}

/// The type of a literal.
pub open spec fn literal_type(l: Literal) -> TypeM {
    match l {
        Literal::I32(_) => TypeM::I32,
    }
}

/// A single argument becomes a one-element tuple (of its type); a tuple
/// stays.
pub open spec fn spec_ensure_tuple(c: (CoreM, TypeM)) -> (CoreM, TypeM) {
    match c.0 {
        CoreM::Tuple(_) => c,
        _ => (CoreM::Tuple(seq![c]), TypeM::Tuple(seq![c.1])),
    }
}

/// Wrapping an argument yields a tuple; a tuple is left as it is, so
/// wrapping twice is wrapping once. A wrapped argument's type is the
/// one-element tuple of its type.
pub proof fn lemma_core_ensure_tuple(c: (CoreM, TypeM))
    ensures
        spec_ensure_tuple(c).0 is Tuple,
        c.0 is Tuple ==> spec_ensure_tuple(c) == c,
        !(c.0 is Tuple) ==> spec_ensure_tuple(c).1 == TypeM::Tuple(seq![c.1]),
        spec_ensure_tuple(spec_ensure_tuple(c)) == spec_ensure_tuple(c),
{
}

/// The typed core tree of a tree. A function's type is from the empty
/// tuple (for an empty parameter name) or from an unknown type, to the type
/// of its body. A run of terms splits at its loosest operator
/// (`pivot_of`); juxtaposition applies the left part to the right part,
/// another operator applies its named function (of unknown type) to the
/// pair of both parts; applications have unknown type.
pub open spec fn spec_convert_core(g: SurfaceM) -> Result<(CoreM, TypeM), ConvErr>
    decreases surface_size(g), 0nat,
{
    match g {
        SurfaceM::Symbol(n) => Ok((CoreM::Symbol(n), symbol_type(n))),
        SurfaceM::Fn(p, b) => match spec_convert_core(*b) {
            Ok(body) => {
                let fn_type = if p.len() == 0 {
                    TypeM::Fn(Box::new(TypeM::Tuple(Seq::empty())), Box::new(body.1))
                } else {
                    TypeM::Fn(Box::new(TypeM::Unknown), Box::new(body.1))
                };
                Ok((CoreM::Fn(p, Box::new(body)), fn_type))
            },
            Err(e) => Err(e),
        },
        SurfaceM::Lit(l) => Ok((CoreM::Lit(l), literal_type(l))),
        SurfaceM::Tuple(es) => match spec_convert_core_list(es) {
            Ok(cs) => Ok((CoreM::Tuple(cs), TypeM::Tuple(cs.map_values(|c: (CoreM, TypeM)| c.1)))),
            Err(e) => Err(e),
        },
        SurfaceM::Binop(ts, os) => if ts.len() == 1 {
            proof {
                assert(ts.subrange(0, 0) =~= Seq::<SurfaceM>::empty());
                assert(surfaces_size(Seq::<SurfaceM>::empty()) == 0);
                assert(surfaces_size(ts) == surface_size(ts[0]));
            }
            spec_convert_core(ts[0])
        } else {
            match pivot_of(os) {
                Pivot::Empty => Err(ConvErr::NoOperators),
                Pivot::Unknown(i) => Err(ConvErr::UnknownOperator(os[i])),
                Pivot::Error(m) => Err(ConvErr::Precedence(m)),
                Pivot::Unsupported => Err(ConvErr::UnsupportedFixity),
                Pivot::Index(p) => if ts.len() != os.len() + 1 {
                    Err(ConvErr::MalformedRun)
                } else {
                    proof {
                        lemma_pivot_in_range(os);
                        lemma_surfaces_size_split(ts, p + 1);
                    }
                    let front = SurfaceM::Binop(ts.subrange(0, p + 1), os.subrange(0, p));
                    let back = SurfaceM::Binop(ts.subrange(p + 1, ts.len() as int), os.subrange(p + 1, os.len() as int));
                    match spec_convert_core(front) {
                        Err(e) => Err(e),
                        Ok(fc) => match spec_convert_core(back) {
                            Err(e) => Err(e),
                            Ok(bc) => if os[p].len() == 0 {
                                Ok((CoreM::Apply(Box::new(fc), Box::new(spec_ensure_tuple(bc))), TypeM::Unknown))
                            } else {
                                let name = spec_info(os[p])->Some_0.name;
                                let args = (CoreM::Tuple(seq![fc, bc]), TypeM::Tuple(seq![fc.1, bc.1]));
                                Ok((
                                    CoreM::Apply(
                                        Box::new((CoreM::Symbol(name), TypeM::Unknown)),
                                        Box::new(spec_ensure_tuple(args)),
                                    ),
                                    TypeM::Unknown,
                                ))
                            },
                        },
                    }
                },
            }
        },
    }
}

/// The typed core trees of a sequence of trees, in order; the first
/// failure stops the conversion.
pub open spec fn spec_convert_core_list(es: Seq<SurfaceM>) -> Result<Seq<(CoreM, TypeM)>, ConvErr>
    decreases surfaces_size(es), 1nat,
{
    if es.len() == 0 {
        Ok(Seq::empty())
    } else {
        proof {
            lemma_surface_size_pos(es[es.len() - 1]);
        }
        match spec_convert_core_list(es.subrange(0, es.len() - 1)) {
            Err(e) => Err(e),
            Ok(cs) => match spec_convert_core(es[es.len() - 1]) {
                Err(e) => Err(e),
                Ok(c) => Ok(cs.push(c)),
            },
        }
    }
}

/// The types that conversion gives: a symbol its signature (or, as the
/// function of an operator, an unknown type), a literal `I32`, a tuple the
/// tuple of its elements' types, a function a function type whose result is
/// its body's type, an application an unknown type and a tuple argument;
/// and so on at every node.
pub open spec fn typed_as_built(c: (CoreM, TypeM)) -> bool
    decreases c,
{
    match c.0 {
        CoreM::Symbol(n) => c.1 == symbol_type(n) || c.1 == TypeM::Unknown,
        CoreM::Lit(_) => c.1 == TypeM::I32,
        CoreM::Tuple(es) => {
            &&& c.1 == TypeM::Tuple(es.map_values(|e: (CoreM, TypeM)| e.1))
            &&& forall|i: int| 0 <= i < es.len() ==> typed_as_built(#[trigger] es[i])
        },
        CoreM::Fn(_, b) => {
            &&& c.1 matches TypeM::Fn(_, r) && *r == b.1
            &&& typed_as_built(*b)
        },
        CoreM::Apply(f, a) => {
            &&& c.1 == TypeM::Unknown
            &&& a.0 is Tuple
            &&& typed_as_built(*f)
            &&& typed_as_built(*a)
        },
    }
}

proof fn lemma_ensure_tuple_typed(c: (CoreM, TypeM))
    requires
        typed_as_built(c),
    ensures
        typed_as_built(spec_ensure_tuple(c)),
        spec_ensure_tuple(c).0 is Tuple,
{
    if !(c.0 is Tuple) {
        let es = seq![c];
        assert(es.map_values(|e: (CoreM, TypeM)| e.1) =~= seq![c.1]);
        assert forall|i: int| 0 <= i < es.len() implies typed_as_built(#[trigger] es[i]) by {
            assert(es[i] == c);
        }
    }
}

/// Every typed core tree that conversion builds is typed as built (see
/// `typed_as_built`).
pub proof fn lemma_convert_core_typed(g: SurfaceM)
    ensures
        spec_convert_core(g) matches Ok(c) ==> typed_as_built(c),
    decreases surface_size(g), 0nat,
{
    match g {
        SurfaceM::Fn(p, b) => {
            lemma_convert_core_typed(*b);
        },
        SurfaceM::Tuple(es) => {
            lemma_convert_core_list_typed(es);
        },
        SurfaceM::Binop(ts, os) => {
            if ts.len() == 1 {
                assert(ts.subrange(0, 0) =~= Seq::<SurfaceM>::empty());
                assert(surfaces_size(Seq::<SurfaceM>::empty()) == 0);
                assert(surfaces_size(ts) == surface_size(ts[0]));
                lemma_convert_core_typed(ts[0]);
            } else if let Pivot::Index(p) = pivot_of(os) {
                if ts.len() == os.len() + 1 {
                    lemma_pivot_in_range(os);
                    lemma_surfaces_size_split(ts, p + 1);
                    let front = SurfaceM::Binop(ts.subrange(0, p + 1), os.subrange(0, p));
                    let back = SurfaceM::Binop(ts.subrange(p + 1, ts.len() as int), os.subrange(p + 1, os.len() as int));
                    lemma_convert_core_typed(front);
                    lemma_convert_core_typed(back);
                    if let Ok(fc) = spec_convert_core(front) {
                        if let Ok(bc) = spec_convert_core(back) {
                            lemma_ensure_tuple_typed(bc);
                            let pair = seq![fc, bc];
                            assert(pair.map_values(|e: (CoreM, TypeM)| e.1) =~= seq![fc.1, bc.1]);
                            assert forall|i: int| 0 <= i < pair.len() implies typed_as_built(#[trigger] pair[i]) by {
                                if i == 0 { assert(pair[i] == fc); } else { assert(pair[i] == bc); }
                            }
                            let args = (CoreM::Tuple(pair), TypeM::Tuple(seq![fc.1, bc.1]));
                            lemma_ensure_tuple_typed(args);
                            let c = spec_convert_core(g)->Ok_0;
                            if os[p].len() == 0 {
                                assert(c == (CoreM::Apply(Box::new(fc), Box::new(spec_ensure_tuple(bc))), TypeM::Unknown));
                            } else {
                                let name = spec_info(os[p])->Some_0.name;
                                let func = (CoreM::Symbol(name), TypeM::Unknown);
                                assert(typed_as_built(func));
                                assert(c == (CoreM::Apply(Box::new(func), Box::new(spec_ensure_tuple(args))), TypeM::Unknown));
                            }
                            assert(typed_as_built(c));
                        }
                    }
                }
            }
        },
        _ => {},
    }
}

/// A tree on which conversion cannot fail: every run holds one term more
/// than operators, all of them in the table; and so at every node.
pub open spec fn core_convertible(g: SurfaceM) -> bool
    decreases g,
{
    match g {
        SurfaceM::Binop(ts, os) => {
            &&& ts.len() == os.len() + 1
            &&& forall|i: int| 0 <= i < os.len() ==> #[trigger] spec_info(os[i]) is Some
            &&& forall|i: int| 0 <= i < ts.len() ==> core_convertible(#[trigger] ts[i])
        },
        SurfaceM::Fn(_, b) => core_convertible(*b),
        SurfaceM::Tuple(es) => forall|i: int| 0 <= i < es.len() ==> core_convertible(#[trigger] es[i]),
        _ => true,
    }
}

/// Conversion succeeds on every convertible tree.
pub proof fn lemma_convert_core_ok(g: SurfaceM)
    requires
        core_convertible(g),
    ensures
        spec_convert_core(g) is Ok,
    decreases surface_size(g), 0nat,
{
    match g {
        SurfaceM::Fn(_, b) => lemma_convert_core_ok(*b),
        SurfaceM::Tuple(es) => lemma_convert_core_list_ok(es),
        SurfaceM::Binop(ts, os) => {
            if ts.len() == 1 {
                assert(ts.subrange(0, 0) =~= Seq::<SurfaceM>::empty());
                assert(surfaces_size(Seq::<SurfaceM>::empty()) == 0);
                assert(surfaces_size(ts) == surface_size(ts[0]));
                lemma_convert_core_ok(ts[0]);
            } else {
                crate::phase3::lemma_pivot_known(os);
                let p = pivot_of(os)->Index_0;
                lemma_pivot_in_range(os);
                lemma_surfaces_size_split(ts, p + 1);
                let fts = ts.subrange(0, p + 1);
                let fos = os.subrange(0, p);
                let bts = ts.subrange(p + 1, ts.len() as int);
                let bos = os.subrange(p + 1, os.len() as int);
                assert forall|i: int| 0 <= i < fos.len() implies #[trigger] spec_info(fos[i]) is Some by {
                    assert(fos[i] == os[i]);
                }
                assert forall|i: int| 0 <= i < fts.len() implies core_convertible(#[trigger] fts[i]) by {
                    assert(fts[i] == ts[i]);
                }
                assert forall|i: int| 0 <= i < bos.len() implies #[trigger] spec_info(bos[i]) is Some by {
                    assert(bos[i] == os[p + 1 + i]);
                }
                assert forall|i: int| 0 <= i < bts.len() implies core_convertible(#[trigger] bts[i]) by {
                    assert(bts[i] == ts[p + 1 + i]);
                }
                lemma_convert_core_ok(SurfaceM::Binop(fts, fos));
                lemma_convert_core_ok(SurfaceM::Binop(bts, bos));
            }
        },
        _ => {},
    }
}

/// The list form of `lemma_convert_core_ok`.
pub proof fn lemma_convert_core_list_ok(es: Seq<SurfaceM>)
    requires
        forall|i: int| 0 <= i < es.len() ==> core_convertible(#[trigger] es[i]),
    ensures
        spec_convert_core_list(es) is Ok,
    decreases surfaces_size(es), 1nat,
{
    if es.len() > 0 {
        lemma_surface_size_pos(es[es.len() - 1]);
        let d = es.subrange(0, es.len() - 1);
        assert forall|i: int| 0 <= i < d.len() implies core_convertible(#[trigger] d[i]) by {
            assert(d[i] == es[i]);
        }
        lemma_convert_core_list_ok(d);
        lemma_convert_core_ok(es[es.len() - 1]);
    }
}

/// On every convertible tree, conversion succeeds and gives a tree typed as
/// built: literals `I32`, tuples the tuple of their elements' types,
/// functions a function type, applications an unknown type with a tuple
/// argument, at every node.
pub proof fn lemma_convertible_typed(g: SurfaceM)
    requires
        core_convertible(g),
    ensures
        spec_convert_core(g) matches Ok(c) && typed_as_built(c),
{
    lemma_convert_core_ok(g);
    lemma_convert_core_typed(g);
}

/// The list form of `lemma_convert_core_typed`.
pub proof fn lemma_convert_core_list_typed(es: Seq<SurfaceM>)
    ensures
        spec_convert_core_list(es) matches Ok(cs) ==> forall|i: int| 0 <= i < cs.len() ==> typed_as_built(#[trigger] cs[i]),
    decreases surfaces_size(es), 1nat,
{
    if es.len() > 0 {
        lemma_surface_size_pos(es[es.len() - 1]);
        lemma_convert_core_list_typed(es.subrange(0, es.len() - 1));
        lemma_convert_core_typed(es[es.len() - 1]);
        if let Ok(cs) = spec_convert_core_list(es) {
            let prev = spec_convert_core_list(es.subrange(0, es.len() - 1))->Ok_0;
            assert forall|i: int| 0 <= i < cs.len() implies typed_as_built(#[trigger] cs[i]) by {
                if i < prev.len() {
                    assert(cs[i] == prev[i]);
                }
            }
        }
    }
}

} // verus!

verus! {

/// A fresh copy of a type.
pub fn clone_type(t: &CoreType) -> (r: CoreType)
    ensures
        r@ == t@,
    decreases t,
{
    match t {
        CoreType::Unknown => CoreType::Unknown,
        CoreType::I32 => CoreType::I32,
        CoreType::Fn(a, r) => CoreType::Fn(Box::new(clone_type(a)), Box::new(clone_type(r))),
        CoreType::Tuple(v) => CoreType::Tuple(clone_types(v)),
    }
}

fn clone_types(v: &Vec<CoreType>) -> (r: Vec<CoreType>)
    ensures
        types_view(r@) == types_view(v@),
    decreases v,
{
    let mut out: Vec<CoreType> = Vec::new();
    let mut i: usize = 0;
    while i < v.len()
        invariant
            i <= v.len(),
            out.len() == i,
            forall|k: int| 0 <= k < i ==> #[trigger] out@[k]@ == v@[k]@,
        decreases v.len() - i,
    {
        let c = clone_type(&v[i]);
        out.push(c);
        i = i + 1;
    }
    proof {
        lemma_types_view(out@);
        lemma_types_view(v@);
        assert forall|k: int| 0 <= k < out.len() implies types_view(out@)[k] == types_view(v@)[k] by {
            assert(out@[k]@ == v@[k]@);
        }
        assert(types_view(out@) =~= types_view(v@));
    }
    out
}

fn unit_type() -> (r: CoreType)
    ensures
        r@ == TypeM::Tuple(Seq::empty()),
{
    let v: Vec<CoreType> = Vec::new();
    assert(types_view(v@) =~= Seq::<TypeM>::empty());
    CoreType::Tuple(v)
}

impl Literal {
    /// The type of a literal.
    fn get_type(&self) -> (r: CoreType)
        ensures
            r@ == literal_type(*self),
    {
        match self {
            Literal::I32(_) => CoreType::I32,
        }
    }
}

fn pair_of(a: CoreType, b: CoreType) -> (r: Vec<CoreType>)
    ensures
        types_view(r@) == seq![a@, b@],
{
    let ghost av = a@;
    let ghost bv = b@;
    let mut v: Vec<CoreType> = Vec::new();
    v.push(a);
    v.push(b);
    proof {
        lemma_types_view(v@);
        assert(types_view(v@) =~= seq![av, bv]);
    }
    v
}

fn symbol_type_exec(name: &String) -> (r: CoreType)
    ensures
        r@ == symbol_type(name@),
{
    if text_eq(name.as_str(), "print") {
        let unit = unit_type();
        CoreType::Fn(Box::new(CoreType::I32), Box::new(unit))
    } else if text_eq(name.as_str(), "add") {
        let args = CoreType::Tuple(pair_of(CoreType::I32, CoreType::I32));
        assert(args@ == TypeM::Tuple(seq![TypeM::I32, TypeM::I32]));
        CoreType::Fn(Box::new(args), Box::new(CoreType::I32))
    } else {
        CoreType::Unknown
    }
}

/// Wraps an argument that is not a tuple into a one-element tuple.
fn ensure_tuple(arg: Core) -> (r: Core)
    ensures
        core_view(r) == spec_ensure_tuple(core_view(arg)),
{
    match arg.0 {
        CoreValue::Tuple(_) => arg,
        _ => {
            let ghost av = core_view(arg);
            let ty = clone_type(&arg.1);
            let mut tys: Vec<CoreType> = Vec::new();
            tys.push(ty);
            let mut vals: Vec<Core> = Vec::new();
            vals.push(arg);
            proof {
                lemma_types_view(tys@);
                lemma_cores_view(vals@);
                assert(types_view(tys@) =~= seq![av.1]);
                assert(cores_view(vals@) =~= seq![av]);
            }
            (CoreValue::Tuple(vals), CoreType::Tuple(tys))
        },
    }
}

/// The typed core tree of a tree, or why it has none (see
/// `spec_convert_core`).
pub fn try_convert_into_core(ghast: Ghast) -> (r: Result<Core, ConvertError>)
    ensures
        match r {
            Ok(c) => spec_convert_core(ghast@) == Ok::<(CoreM, TypeM), ConvErr>(core_view(c)),
            Err(e) => spec_convert_core(ghast@) == Err::<(CoreM, TypeM), ConvErr>(conv_err_view(e)),
        },
    decreases surface_size(ghast@), 1nat,
{
    match ghast {
        Ghast::Symbol(name) => {
            let ty = symbol_type_exec(&name);
            Ok((CoreValue::Symbol(name), ty))
        },
        Ghast::Fn(param, body) => match try_convert_into_core(*body) {
            Ok(b) => {
                let ty = clone_type(&b.1);
                let fn_type = if param.as_str().unicode_len() == 0 {
                    let unit = unit_type();
                    CoreType::Fn(Box::new(unit), Box::new(ty))
                } else {
                    CoreType::Fn(Box::new(CoreType::Unknown), Box::new(ty))
                };
                Ok((CoreValue::Fn(param, Box::new(b)), fn_type))
            },
            Err(e) => Err(e),
        },
        Ghast::Lit(literal) => {
            let ty = literal.get_type();
            Ok((CoreValue::Lit(literal), ty))
        },
        Ghast::Tuple(elems) => match convert_core_vec(elems) {
            Ok(vals) => {
                let mut tys: Vec<CoreType> = Vec::new();
                let mut i: usize = 0;
                proof { lemma_cores_view(vals@); }
                while i < vals.len()
                    invariant
                        i <= vals.len(),
                        tys.len() == i,
                        forall|k: int| 0 <= k < i ==> #[trigger] tys@[k]@ == vals@[k].1@,
                    decreases vals.len() - i,
                {
                    tys.push(clone_type(&vals[i].1));
                    i = i + 1;
                }
                proof {
                    lemma_types_view(tys@);
                    lemma_cores_view(vals@);
                    let cs = cores_view(vals@);
                    assert forall|k: int| 0 <= k < tys.len() implies types_view(tys@)[k] == cs.map_values(|c: (CoreM, TypeM)| c.1)[k] by {
                        assert(tys@[k]@ == vals@[k].1@);
                    }
                    assert(types_view(tys@) =~= cs.map_values(|c: (CoreM, TypeM)| c.1));
                }
                Ok((CoreValue::Tuple(vals), CoreType::Tuple(tys)))
            },
            Err(e) => Err(e),
        },
        Ghast::Binop(binop) => {
            let Binop { terms, ops } = binop;
            convert_core_run(terms, ops)
        },
    }
}

/// Splits a run at its operator `p`: the terms up to and including term
/// `p` with the operators before operator `p`, and the terms and operators
/// after it. Operator `p` itself belongs to neither part.
fn split_at(binop: Binop, p: usize) -> (r: (Binop, Binop))
    requires
        binop.terms.len() == binop.ops.len() + 1,
        p < binop.ops.len(),
    ensures
        r.0.terms@ == binop.terms@.subrange(0, p + 1),
        r.0.ops@ == binop.ops@.subrange(0, p as int),
        r.1.terms@ == binop.terms@.subrange(p + 1, binop.terms@.len() as int),
        r.1.ops@ == binop.ops@.subrange(p + 1, binop.ops@.len() as int),
        r.0.terms@ + r.1.terms@ == binop.terms@,
        r.0.ops@.push(binop.ops@[p as int]) + r.1.ops@ == binop.ops@,
        r.0.terms.len() == r.0.ops.len() + 1,
        r.1.terms.len() == r.1.ops.len() + 1,
{
    let Binop { terms, ops } = binop;
    let ghost old_terms = terms@;
    let ghost old_ops = ops@;
    let mut front_terms = terms;
    let back_terms = front_terms.split_off(p + 1);
    let mut front_ops = ops;
    let back_ops = front_ops.split_off(p + 1);
    front_ops.pop();
    assert(front_ops@ =~= old_ops.subrange(0, p as int));
    assert(front_terms@ + back_terms@ =~= old_terms);
    assert(front_ops@.push(old_ops[p as int]) + back_ops@ =~= old_ops);
    (Binop { terms: front_terms, ops: front_ops }, Binop { terms: back_terms, ops: back_ops })
}

fn convert_core_run(terms: Vec<Ghast>, ops: Vec<String>) -> (r: Result<Core, ConvertError>)
    ensures
        match r {
            Ok(c) => spec_convert_core(SurfaceM::Binop(surfaces_view(terms@), strings_view(ops@))) == Ok::<(CoreM, TypeM), ConvErr>(core_view(c)),
            Err(e) => spec_convert_core(SurfaceM::Binop(surfaces_view(terms@), strings_view(ops@))) == Err::<(CoreM, TypeM), ConvErr>(conv_err_view(e)),
        },
    decreases 1 + surfaces_size(surfaces_view(terms@)), 0nat,
{
    let ghost ts = surfaces_view(terms@);
    let ghost os = strings_view(ops@);
    proof {
        lemma_surfaces_view(terms@);
    }
    if terms.len() == 1 {
        let mut terms = terms;
        let t = terms.pop().unwrap();
        proof {
            assert(ts.subrange(0, 0) =~= Seq::<SurfaceM>::empty());
            assert(surfaces_size(Seq::<SurfaceM>::empty()) == 0);
            assert(surfaces_size(ts) == surface_size(ts[0]));
        }
        return try_convert_into_core(t);
    }
    match crate::phase3::pivot_exec(&ops) {
        PivotResult::Empty => Err(ConvertError::NoOperators),
        PivotResult::Unknown(i) => {
            proof {
                lemma_pivot_in_range(os);
            }
            Err(ConvertError::UnknownOperator(ops[i].clone()))
        },
        PivotResult::Error(m) => Err(ConvertError::Precedence(m)),
        PivotResult::Unsupported => Err(ConvertError::UnsupportedFixity),
        PivotResult::Index(p) => {
            if terms.len() == 0 || terms.len() - 1 != ops.len() {
                return Err(ConvertError::MalformedRun);
            }
            proof {
                lemma_pivot_in_range(os);
                lemma_surfaces_size_split(ts, p + 1);
                lemma_surfaces_view_subrange(terms@, 0, p + 1);
                lemma_surfaces_view_subrange(terms@, p + 1, terms@.len() as int);
                assert(strings_view(ops@.subrange(0, p as int)) =~= os.subrange(0, p as int));
                assert(strings_view(ops@.subrange(p + 1, ops@.len() as int)) =~= os.subrange(p + 1, os.len() as int));
                crate::phase3::lemma_first_unknown(os, os.len() as int);
            }
            let pivot_op = ops[p].clone();
            assert(pivot_op@ == os[p as int]);
            let (front_run, back_run) = split_at(Binop { terms, ops }, p);
            let front = Ghast::Binop(front_run);
            let back = Ghast::Binop(back_run);
            let fc = match try_convert_into_core(front) {
                Ok(c) => c,
                Err(e) => {
                    return Err(e);
                },
            };
            let bc = match try_convert_into_core(back) {
                Ok(c) => c,
                Err(e) => {
                    return Err(e);
                },
            };
            assert(pivot_op@.len() == 0 ==> pivot_op@ =~= Seq::<char>::empty());
            if pivot_op.as_str().unicode_len() == 0 {
                Ok((CoreValue::Apply(Box::new(fc), Box::new(ensure_tuple(bc))), CoreType::Unknown))
            } else {
                let e = info(pivot_op.as_str()).unwrap();
                let name = string_of_str(e.name);
                let atype = CoreType::Tuple(pair_of(clone_type(&fc.1), clone_type(&bc.1)));
                let ghost fv = core_view(fc);
                let ghost bv = core_view(bc);
                let mut vals: Vec<Core> = Vec::new();
                vals.push(fc);
                vals.push(bc);
                proof {
                    lemma_cores_view(vals@);
                    assert(cores_view(vals@) =~= seq![fv, bv]);
                }
                let args: Core = (CoreValue::Tuple(vals), atype);
                let func: Core = (CoreValue::Symbol(name), CoreType::Unknown);
                assert(core_view(func) == (CoreM::Symbol(e.name@), TypeM::Unknown));
                Ok((CoreValue::Apply(Box::new(func), Box::new(ensure_tuple(args))), CoreType::Unknown))
            }
        },
    }
}

fn convert_core_vec(v: Vec<Ghast>) -> (r: Result<Vec<Core>, ConvertError>)
    ensures
        match r {
            Ok(cs) => spec_convert_core_list(surfaces_view(v@)) == Ok::<Seq<(CoreM, TypeM)>, ConvErr>(cores_view(cs@)),
            Err(e) => spec_convert_core_list(surfaces_view(v@)) == Err::<Seq<(CoreM, TypeM)>, ConvErr>(conv_err_view(e)),
        },
    decreases surfaces_size(surfaces_view(v@)), 2nat,
{
    if v.len() == 0 {
        return Ok(Vec::new());
    }
    let ghost old_v = v@;
    let mut v = v;
    let last = v.pop().unwrap();
    assert(old_v.subrange(0, old_v.len() - 1) =~= v@);
    proof {
        lemma_surface_size_pos(last@);
        let fv = surfaces_view(old_v);
        assert(fv == surfaces_view(v@).push(last@));
        assert(fv.subrange(0, fv.len() - 1) =~= surfaces_view(v@));
        assert(surfaces_size(fv) == surfaces_size(surfaces_view(v@)) + surface_size(last@));
    }
    let mut cs = match convert_core_vec(v) {
        Ok(cs) => cs,
        Err(e) => {
            return Err(e);
        },
    };
    match try_convert_into_core(last) {
        Ok(c) => {
            let ghost old_cs = cs@;
            cs.push(c);
            assert(cs@.subrange(0, cs@.len() - 1) =~= old_cs);
            Ok(cs)
        },
        Err(e) => Err(e),
    }
}

/// The typed core tree of a tree that has one (see `spec_convert_core`).
pub fn convert_into_core(ghast: Ghast) -> (r: Core)
    requires
        spec_convert_core(ghast@) is Ok,
    ensures
        spec_convert_core(ghast@) == Ok::<(CoreM, TypeM), ConvErr>(core_view(r)),
{
    match try_convert_into_core(ghast) {
        Ok(c) => c,
        Err(_) => (CoreValue::Tuple(Vec::new()), CoreType::Unknown),
    }
}

} // verus!

verus! {

/// Fills in types: a function's type gets the type of its inferred body as
/// its result; an application of unknown type gets the result type of its
/// function. `None` where a function is not of function type, or an
/// application's function is not of function type.
pub open spec fn spec_infer(c: (CoreM, TypeM)) -> Option<(CoreM, TypeM)>
    decreases c,
{
    match c.0 {
        CoreM::Fn(p, body) => match c.1 {
            TypeM::Fn(pt, _) => match spec_infer(*body) {
                Some(b) => Some((CoreM::Fn(p, Box::new(b)), TypeM::Fn(pt, Box::new(b.1)))),
                None => None,
            },
            _ => None,
        },
        CoreM::Apply(f, _) => match f.1 {
            TypeM::Fn(_, ret) => match c.1 {
                TypeM::Unknown => Some((c.0, *ret)),
                _ => Some(c),
            },
            _ => None,
        },
        _ => Some(c),
    }
}

/// Every function node along the chain of function bodies has the type of
/// a function whose result type is the type of its body node.
pub open spec fn fn_results_match(c: (CoreM, TypeM)) -> bool
    decreases c,
{
    match c.0 {
        CoreM::Fn(_, b) => {
            &&& c.1 matches TypeM::Fn(_, r) && *r == b.1
            &&& fn_results_match(*b)
        },
        _ => true,
    }
}

/// After inference, a function's result type is the type of its inferred
/// body, down the chain of function bodies; an inferred function keeps its
/// parameter type; and an application of a function whose type is known
/// and whose own type was unknown gets that function's result type.
pub proof fn lemma_infer_results(c: (CoreM, TypeM))
    ensures
        spec_infer(c) matches Some(c2) ==> fn_results_match(c2),
        match (c.0, c.1) {
            (CoreM::Fn(_, _), TypeM::Fn(pt, _)) => spec_infer(c) matches Some(c2) ==> (c2.1 matches TypeM::Fn(pt2, _)
                && pt2 == pt),
            _ => true,
        },
        match c.0 {
            CoreM::Apply(f, _) => match f.1 {
                TypeM::Fn(_, ret) => c.1 == TypeM::Unknown ==> spec_infer(c) == Some((c.0, *ret)),
                _ => true,
            },
            _ => true,
        },
    decreases c,
{
    if let CoreM::Fn(_, body) = c.0 {
        lemma_infer_results(*body);
    }
}

/// Inference is idempotent: inferring again the types of an inferred tree
/// changes nothing.
pub proof fn lemma_infer_idempotent(c: (CoreM, TypeM))
    ensures
        spec_infer(c) matches Some(c2) ==> spec_infer(c2) == Some(c2),
    decreases c,
{
    if let CoreM::Fn(_, body) = c.0 {
        lemma_infer_idempotent(*body);
    }
}

/// Infers the types of a typed core tree (see `spec_infer`); `None` where
/// the tree has no inferred form.
pub fn try_type_inference(core: Core) -> (r: Option<Core>)
    ensures
        match r {
            Some(c) => spec_infer(core_view(core)) == Some(core_view(c)),
            None => spec_infer(core_view(core)) is None,
        },
    decreases core_view(core),
{
    let ghost cv = core_view(core);
    let (core_value, core_type) = core;
    assert(cv == (core_value@, core_type@));
    match core_value {
        CoreValue::Fn(param, body) => match core_type {
            CoreType::Fn(param_type, _old_ret) => {
                proof {
                    assert(decreases_to!(core_view((CoreValue::Fn(param, body), core_type)) => core_view(*body)));
                }
                match try_type_inference(*body) {
                    Some(b) => {
                        let ret_type = clone_type(&b.1);
                        let ghost bv = core_view(b);
                        let ghost pv = param@;
                        let ghost ptv = (*param_type)@;
                        let v = CoreValue::Fn(param, Box::new(b));
                        let t = CoreType::Fn(param_type, Box::new(ret_type));
                        assert(v@ == CoreM::Fn(pv, Box::new(bv)));
                        assert(t@ == TypeM::Fn(Box::new(ptv), Box::new(bv.1)));
                        Some((v, t))
                    },
                    None => None,
                }
            },
            _ => None,
        },
        CoreValue::Apply(func, arg) => {
            assert(cv.0 == CoreM::Apply(Box::new(core_view(*func)), Box::new(core_view(*arg))));
            match &func.1 {
                CoreType::Fn(_, ret_type) => match core_type {
                    CoreType::Unknown => {
                        let rt = clone_type(ret_type);
                        Some((CoreValue::Apply(func, arg), rt))
                    },
                    other => Some((CoreValue::Apply(func, arg), other)),
                },
                _ => None,
            }
        },
        other => Some((other, core_type)),
    }
}

/// Infers the types of a typed core tree that has an inferred form (see
/// `spec_infer`).
pub fn type_inference(core: Core) -> (r: Result<Core, crate::utils::SemanticError>)
    requires
        spec_infer(core_view(core)) is Some,
    ensures
        r matches Ok(c) && spec_infer(core_view(core)) == Some(core_view(c)),
{
    match try_type_inference(core) {
        Some(c) => Ok(c),
        None => Err(crate::utils::SemanticError::Misc),
    }
}

} // verus!
