//! The built-in functions of the language: registering them in an
//! environment, and applying one to an argument value. Reading a number
//! from the user and printing are left to the caller, which this module
//! tells what to do.
use vstd::prelude::*;
use crate::phase3::{
    Env, EvalError, Value, VM, EvalErrM, EvalOut, env_insert, eval_err_view, lemma_values_view,
    spec_arith, values_view, add_name, sub_name, mul_name, div_name, neg_name, pos_name,
    not_name, print_name, in_i32, env_lookup, lemma_env_insert_lookup, abs, lemma_div_truncates,
    lemma_mul_product, lemma_builtin_names_differ,
};
use crate::text::{text_eq, string_of_str};

verus! {

pub open spec fn eq_name() -> Seq<char> { "eq"@ }
pub open spec fn input_name() -> Seq<char> { "input"@ }

/// The names that `register` binds, in order.
pub open spec fn registered_names() -> Seq<Seq<char>> {
    seq![add_name(), sub_name(), mul_name(), div_name(), eq_name(), neg_name(), pos_name(), not_name(), input_name(), print_name()]
}

/// `env` with each of `names` bound to the built-in of that name, in order.
pub open spec fn with_builtins(env: Seq<(Seq<char>, VM)>, names: Seq<Seq<char>>) -> Seq<(Seq<char>, VM)>
    decreases names.len(),
{
    if names.len() == 0 {
        env
    } else {
        env_insert(with_builtins(env, names.drop_last()), names.last(), VM::Builtin(names.last()))
    }
}

proof fn lemma_with_builtins_lookup(env: Seq<(Seq<char>, VM)>, names: Seq<Seq<char>>, n: Seq<char>)
    ensures
        names.contains(n) ==> env_lookup(with_builtins(env, names), n) == Some(VM::Builtin(n)),
        !names.contains(n) ==> env_lookup(with_builtins(env, names), n) == env_lookup(env, n),
    decreases names.len(),
{
    if names.len() > 0 {
        let d = names.drop_last();
        lemma_with_builtins_lookup(env, d, n);
        lemma_env_insert_lookup(with_builtins(env, d), names.last(), VM::Builtin(names.last()), n);
        if names.last() != n {
            if names.contains(n) {
                let i = choose|i: int| 0 <= i < names.len() && names[i] == n;
                assert(i < names.len() - 1);
                assert(d[i] == n);
            }
            if d.contains(n) {
                let i = choose|i: int| 0 <= i < d.len() && d[i] == n;
                assert(names[i] == n);
            }
        } else {
            assert(names[names.len() - 1] == n);
        }
    }
}

/// After `register`, each built-in's name is bound to that built-in, and
/// every other name keeps the value it had.
pub proof fn lemma_register_lookup(env: Seq<(Seq<char>, VM)>, n: Seq<char>)
    ensures
        registered_names().contains(n) ==> env_lookup(with_builtins(env, registered_names()), n) == Some(VM::Builtin(n)),
        !registered_names().contains(n) ==> env_lookup(with_builtins(env, registered_names()), n) == env_lookup(env, n),
{
    lemma_with_builtins_lookup(env, registered_names(), n);
}

fn builtin_names() -> (r: Vec<&'static str>)
    ensures
        crate::operator::strs_view(r@) == registered_names(),
{
    let mut r: Vec<&'static str> = Vec::new();
    r.push("add");
    r.push("sub");
    r.push("mul");
    r.push("div");
    r.push("eq");
    r.push("neg");
    r.push("pos");
    r.push("not");
    r.push("input");
    r.push("print");
    assert(crate::operator::strs_view(r@) =~= registered_names());
    r
}

/// Binds every built-in function, each under its own name.
pub fn register(env: &mut Env)
    ensures
        final(env)@ == with_builtins(old(env)@, registered_names()),
{
    let names = builtin_names();
    let ghost ns = registered_names();
    let mut i: usize = 0;
    assert(ns.subrange(0, 0) =~= Seq::<Seq<char>>::empty());
    while i < names.len()
        invariant
            i <= names.len(),
            crate::operator::strs_view(names@) == ns,
            ns == registered_names(),
            env@ == with_builtins(old(env)@, ns.subrange(0, i as int)),
        decreases names.len() - i,
    {
        let n = names[i];
        assert(ns.subrange(0, i + 1).drop_last() =~= ns.subrange(0, i as int));
        assert(n@ == ns[i as int]);
        env.insert(string_of_str(n), Value::Builtin(n));
        i = i + 1;
    }
    assert(ns.subrange(0, i as int) =~= ns);
}

} // verus!

verus! {

/// What applying a built-in function comes to.
#[derive(Debug)]
pub enum Invocation {
    /// The result.
    Done(Value),
    /// Print these values on one line, separated by spaces; the result is
    /// `Unit`.
    Print(Vec<Value>),
    /// Show this prompt, if any, read a line, and read a number from it
    /// (`input_value`).
    Input(Option<Value>),
    /// The application fails.
    Failed(EvalError),
}

/// The mathematical content of an `Invocation`.
pub enum InvokeM {
    Done(VM),
    Print(Seq<VM>),
    Input(Option<VM>),
    Failed(EvalErrM),
}

pub open spec fn invocation_view(r: Invocation) -> InvokeM {
    match r {
        Invocation::Done(v) => InvokeM::Done(v@),
        Invocation::Print(vs) => InvokeM::Print(values_view(vs@)),
        Invocation::Input(Some(v)) => InvokeM::Input(Some(v@)),
        Invocation::Input(None) => InvokeM::Input(None),
        Invocation::Failed(e) => InvokeM::Failed(eval_err_view(e)),
    }
}

/// Applying a built-in function named `name` to an argument value.
pub open spec fn spec_invoke(name: Seq<char>, arg: VM) -> InvokeM {
    if name == add_name() || name == sub_name() || name == mul_name() || name == div_name() || name == eq_name() {
        match arg {
            VM::Tuple(es) => if es.len() == 2 {
                match es[1] {
                    VM::I32(r) => match es[0] {
                        VM::I32(l) => if name == eq_name() {
                            InvokeM::Done(VM::Bool(l == r))
                        } else {
                            match spec_arith(name, l, r) {
                                EvalOut::Val(v) => InvokeM::Done(v),
                                EvalOut::Error(e) => InvokeM::Failed(e),
                                EvalOut::OutOfFuel => InvokeM::Failed(EvalErrM::Overflow),
                            }
                        },
                        other => InvokeM::Failed(EvalErrM::NotAnInteger(other)),
                    },
                    other => InvokeM::Failed(EvalErrM::NotAnInteger(other)),
                }
            } else {
                InvokeM::Failed(EvalErrM::WrongArguments(name))
            },
            _ => InvokeM::Failed(EvalErrM::WrongArguments(name)),
        }
    } else if name == neg_name() {
        match arg {
            VM::I32(v) => if in_i32(-v) {
                InvokeM::Done(VM::I32((-v) as i32))
            } else {
                InvokeM::Failed(EvalErrM::Overflow)
            },
            _ => InvokeM::Failed(EvalErrM::WrongArguments(name)),
        }
    } else if name == pos_name() {
        match arg {
            VM::I32(v) => InvokeM::Done(VM::I32(v)),
            _ => InvokeM::Failed(EvalErrM::WrongArguments(name)),
        }
    } else if name == not_name() {
        match arg {
            VM::I32(v) => InvokeM::Done(VM::I32(if v != 0 { 0 } else { 1 })),
            _ => InvokeM::Failed(EvalErrM::WrongArguments(name)),
        }
    } else if name == input_name() {
        match arg {
            VM::Tuple(vals) => if vals.len() == 0 {
                InvokeM::Failed(EvalErrM::WrongArguments(name))
            } else {
                InvokeM::Input(Some(vals[0]))
            },
            _ => InvokeM::Input(None),
        }
    } else if name == print_name() {
        match arg {
            VM::Tuple(vals) => InvokeM::Print(vals),
            _ => InvokeM::Failed(EvalErrM::NotATuple),
        }
    } else {
        InvokeM::Failed(EvalErrM::UnknownBuiltin(name))
    }
}

/// The pair of two integers, as a built-in receives it.
pub open spec fn int_pair(l: i32, r: i32) -> VM {
    VM::Tuple(seq![VM::I32(l), VM::I32(r)])
}

/// `div` on a pair of integers truncates toward zero: for a non-zero
/// divisor, unless `i32::MIN` is divided by `-1` (which overflows), it gives
/// the `q` with `l == q * r + rem`, `|rem| < |r|`, `rem` zero or of the sign
/// of `l`; a zero divisor fails.
pub proof fn lemma_invoke_div(l: i32, r: i32)
    ensures
        r == 0 ==> spec_invoke(div_name(), int_pair(l, r)) == InvokeM::Failed(EvalErrM::DivisionByZero),
        (l == i32::MIN && r == -1) ==> spec_invoke(div_name(), int_pair(l, r)) == InvokeM::Failed(EvalErrM::Overflow),
        (r != 0 && !(l == i32::MIN && r == -1)) ==> (spec_invoke(div_name(), int_pair(l, r)) matches InvokeM::Done(VM::I32(q))
            && abs(l - q * r) < abs(r as int)
            && (l - q * r == 0 || (l - q * r < 0) == (l < 0))
            && abs(q as int) == abs(l as int) / abs(r as int)),
{
    lemma_builtin_names_differ();
    lemma_names_differ_from_eq();
    lemma_div_truncates(l, r);
}

/// `mul` on a pair of integers is their product where it fits in `i32`.
pub proof fn lemma_invoke_mul(l: i32, r: i32)
    ensures
        in_i32(l * r) ==> (spec_invoke(mul_name(), int_pair(l, r)) matches InvokeM::Done(VM::I32(x))
            && x as int == l as int * r as int),
        !in_i32(l * r) ==> spec_invoke(mul_name(), int_pair(l, r)) == InvokeM::Failed(EvalErrM::Overflow),
{
    lemma_builtin_names_differ();
    lemma_names_differ_from_eq();
    lemma_mul_product(l, r);
}

/// `neg` on an integer other than `i32::MIN` gives the `w` with `w + v == 0`.
pub proof fn lemma_invoke_neg(v: i32)
    ensures
        v != i32::MIN ==> (spec_invoke(neg_name(), VM::I32(v)) matches InvokeM::Done(VM::I32(w)) && w as int + v as int == 0),
        v == i32::MIN ==> spec_invoke(neg_name(), VM::I32(v)) == InvokeM::Failed(EvalErrM::Overflow),
{
    lemma_builtin_names_differ();
    lemma_names_differ_from_eq();
}

/// `eq` on a pair of integers answers whether they are equal; `pos` gives
/// its integer back; `not` gives 1 for 0 and 0 for any other integer.
pub proof fn lemma_invoke_eq_pos_not(l: i32, r: i32, v: i32)
    ensures
        spec_invoke(eq_name(), int_pair(l, r)) matches InvokeM::Done(VM::Bool(b)) && (b <==> l == r),
        spec_invoke(pos_name(), VM::I32(v)) == InvokeM::Done(VM::I32(v)),
        spec_invoke(not_name(), VM::I32(v)) matches InvokeM::Done(VM::I32(w)) && (w == 1 <==> v == 0) && (w == 0 <==> v != 0),
{
    reveal_strlit("eq");
    reveal_strlit("pos");
    reveal_strlit("not");
    reveal_strlit("neg");
    reveal_strlit("add");
    reveal_strlit("sub");
    reveal_strlit("mul");
    reveal_strlit("div");
    assert(eq_name().len() == 2);
    assert(pos_name()[0] == 'p' && add_name()[0] == 'a' && sub_name()[0] == 's' && mul_name()[0] == 'm');
    assert(div_name()[0] == 'd' && neg_name()[0] == 'n' && not_name()[0] == 'n');
    assert(not_name()[1] == 'o' && neg_name()[1] == 'e');
    assert(pos_name().len() == 3 && not_name().len() == 3);
}

proof fn lemma_names_differ_from_eq()
    ensures
        eq_name() != div_name(), eq_name() != mul_name(), eq_name() != neg_name(),
{
    reveal_strlit("eq");
    lemma_builtin_names_differ();
    assert(eq_name().len() == 2);
}

fn arith_invoke(name: &str, l: i32, r: i32) -> (res: Invocation)
    requires
        name@ == add_name() || name@ == sub_name() || name@ == mul_name() || name@ == div_name(),
    ensures
        invocation_view(res) == (match spec_arith(name@, l, r) {
            EvalOut::Val(v) => InvokeM::Done(v),
            EvalOut::Error(e) => InvokeM::Failed(e),
            EvalOut::OutOfFuel => InvokeM::Failed(EvalErrM::Overflow),
        }),
{
    if text_eq(name, "add") {
        let x = (l as i64) + (r as i64);
        if i32::MIN as i64 <= x && x <= i32::MAX as i64 { Invocation::Done(Value::I32(x as i32)) } else { Invocation::Failed(EvalError::Overflow) }
    } else if text_eq(name, "sub") {
        let x = (l as i64) - (r as i64);
        if i32::MIN as i64 <= x && x <= i32::MAX as i64 { Invocation::Done(Value::I32(x as i32)) } else { Invocation::Failed(EvalError::Overflow) }
    } else if text_eq(name, "mul") {
        assert(-0x4000_0000_0000_0000 <= (l as int) * (r as int) <= 0x4000_0000_0000_0000) by (nonlinear_arith)
            requires
                -0x8000_0000 <= l <= 0x7fff_ffff,
                -0x8000_0000 <= r <= 0x7fff_ffff,
        ;
        let x = (l as i64) * (r as i64);
        if i32::MIN as i64 <= x && x <= i32::MAX as i64 { Invocation::Done(Value::I32(x as i32)) } else { Invocation::Failed(EvalError::Overflow) }
    } else {
        if r == 0 {
            return Invocation::Failed(EvalError::DivisionByZero);
        }
        let x = crate::phase3::trunc_div_exec(l, r);
        if i32::MIN as i64 <= x && x <= i32::MAX as i64 { Invocation::Done(Value::I32(x as i32)) } else { Invocation::Failed(EvalError::Overflow) }
    }
}

/// Applies a built-in function to an argument value (see `spec_invoke`).
pub fn try_invoke(name: &str, args_value: Value) -> (r: Invocation)
    ensures
        invocation_view(r) == spec_invoke(name@, args_value@),
{
    if text_eq(name, "add") || text_eq(name, "sub") || text_eq(name, "mul") || text_eq(name, "div") || text_eq(name, "eq") {
        match args_value {
            Value::Tuple(elements) => {
                proof { lemma_values_view(elements@); }
                if elements.len() == 2 {
                    let mut elements = elements;
                    let rhs = elements.pop().unwrap();
                    let lhs = elements.pop().unwrap();
                    match rhs {
                        Value::I32(_) => match lhs {
                            Value::I32(_) => {
                                let r = rhs.as_i32();
                                let l = lhs.as_i32();
                                if text_eq(name, "eq") {
                                    Invocation::Done(Value::Bool(l == r))
                                } else {
                                    arith_invoke(name, l, r)
                                }
                            },
                            other => Invocation::Failed(EvalError::NotAnInteger(other)),
                        },
                        other => Invocation::Failed(EvalError::NotAnInteger(other)),
                    }
                } else {
                    Invocation::Failed(EvalError::WrongArguments(string_of_str(name)))
                }
            },
            _ => Invocation::Failed(EvalError::WrongArguments(string_of_str(name))),
        }
    } else if text_eq(name, "neg") {
        match args_value {
            Value::I32(v) => if v == i32::MIN {
                Invocation::Failed(EvalError::Overflow)
            } else {
                Invocation::Done(Value::I32(-v))
            },
            _ => Invocation::Failed(EvalError::WrongArguments(string_of_str(name))),
        }
    } else if text_eq(name, "pos") {
        match args_value {
            Value::I32(v) => Invocation::Done(Value::I32(v)),
            _ => Invocation::Failed(EvalError::WrongArguments(string_of_str(name))),
        }
    } else if text_eq(name, "not") {
        match args_value {
            Value::I32(v) => Invocation::Done(Value::I32(if v != 0 { 0 } else { 1 })),
            _ => Invocation::Failed(EvalError::WrongArguments(string_of_str(name))),
        }
    } else if text_eq(name, "input") {
        match args_value {
            Value::Tuple(vals) => {
                proof { lemma_values_view(vals@); }
                if vals.len() == 0 {
                    Invocation::Failed(EvalError::WrongArguments(string_of_str(name)))
                } else {
                    let mut vals = vals;
                    Invocation::Input(Some(vals.remove(0)))
                }
            },
            _ => Invocation::Input(None),
        }
    } else if text_eq(name, "print") {
        match args_value {
            Value::Tuple(vals) => Invocation::Print(vals),
            _ => Invocation::Failed(EvalError::NotATuple),
        }
    } else {
        Invocation::Failed(EvalError::UnknownBuiltin(string_of_str(name)))
    }
}

/// Applies a built-in function to an argument value that it accepts (see
/// `spec_invoke`).
pub fn invoke(name: &str, args_value: Value) -> (r: Invocation)
    requires
        !(spec_invoke(name@, args_value@) is Failed),
    ensures
        invocation_view(r) == spec_invoke(name@, args_value@),
{
    try_invoke(name, args_value)
}

} // verus!

verus! {

/// The start of the trailing whitespace of `s[..e]`, not before `lo`.
pub open spec fn trailing_ws_start(s: Seq<char>, lo: int, e: int) -> int
    decreases e - lo,
{
    if lo < e && e <= s.len() && crate::text::char_is_whitespace(s[e - 1]) {
        trailing_ws_start(s, lo, e - 1)
    } else {
        e
    }
}

/// `s` without leading and trailing whitespace (`str::trim`).
pub open spec fn trimmed(s: Seq<char>) -> Seq<char> {
    let a = crate::phase2::ws_end(s, 0);
    s.subrange(a, trailing_ws_start(s, a, s.len() as int))
}

/// Every character is an ASCII digit.
pub open spec fn all_digits(ds: Seq<char>) -> bool {
    forall|i: int| 0 <= i < ds.len() ==> #[trigger] crate::text::char_is_ascii_digit(ds[i])
}

/// The text starts with a sign.
pub open spec fn has_sign(t: Seq<char>) -> bool {
    t.len() > 0 && (t[0] == '-' || t[0] == '+')
}

/// The digits of a number: the text after its sign, if any.
pub open spec fn digits_part(t: Seq<char>) -> Seq<char> {
    if has_sign(t) { t.drop_first() } else { t }
}

/// The number that a text denotes as `i32::from_str` reads it: an optional
/// `+` or `-`, then one or more ASCII digits, within the range of `i32`.
pub open spec fn spec_parse_i32(t: Seq<char>) -> Option<int> {
    let ds = digits_part(t);
    if ds.len() == 0 || !all_digits(ds) {
        None
    } else {
        let v = if has_sign(t) && t[0] == '-' { -crate::phase2::digits_value(ds) } else { crate::phase2::digits_value(ds) };
        if in_i32(v) {
            Some(v)
        } else {
            None
        }
    }
}

proof fn lemma_trailing_ws_start(s: Seq<char>, lo: int, e: int)
    requires
        0 <= lo <= e <= s.len(),
    ensures
        lo <= trailing_ws_start(s, lo, e) <= e,
    decreases e - lo,
{
    if lo < e && crate::text::char_is_whitespace(s[e - 1]) {
        lemma_trailing_ws_start(s, lo, e - 1);
    }
}

/// The number that the user typed on an input line: the line without
/// surrounding whitespace, read as an `i32`. `None` where it is no such
/// number.
pub fn input_value(line: &str) -> (r: Option<i32>)
    ensures
        match r {
            Some(v) => spec_parse_i32(trimmed(line@)) == Some(v as int),
            None => spec_parse_i32(trimmed(line@)) is None,
        },
{
    let s = crate::text::chars_of(line);
    let mut a: usize = 0;
    proof { crate::phase2::lemma_ws_end(s@, 0); }
    while a < s.len() && crate::text::is_whitespace(s[a])
        invariant
            a <= s.len(),
            crate::phase2::ws_end(s@, 0) == crate::phase2::ws_end(s@, a as int),
        decreases s.len() - a,
    {
        a = a + 1;
    }
    let mut b: usize = s.len();
    proof { lemma_trailing_ws_start(s@, a as int, s@.len() as int); }
    while b > a && crate::text::is_whitespace(s[b - 1])
        invariant
            a <= b <= s.len(),
            a == crate::phase2::ws_end(s@, 0),
            trailing_ws_start(s@, a as int, s@.len() as int) == trailing_ws_start(s@, a as int, b as int),
        decreases b - a,
    {
        b = b - 1;
    }
    let ghost t = s@.subrange(a as int, b as int);
    assert(t == trimmed(line@));
    let mut i = a;
    let signed = a < b && (s[a] == '-' || s[a] == '+');
    let negative = a < b && s[a] == '-';
    if signed {
        i = i + 1;
    }
    let ghost ds = digits_part(t);
    assert(ds =~= s@.subrange(i as int, b as int));
    if i == b {
        return None;
    }
    let start = i;
    let mut v: i64 = 0;
    while i < b
        invariant
            a <= start <= i <= b <= s.len(),
            ds == s@.subrange(start as int, b as int),
            t == s@.subrange(a as int, b as int),
            t == trimmed(line@),
            forall|k: int| 0 <= k < i - start ==> #[trigger] crate::text::char_is_ascii_digit(ds[k]),
            v as int == crate::phase2::digits_value(ds.subrange(0, i - start)),
            0 <= v <= 2147483648,
            signed == (t.len() > 0 && (t[0] == '-' || t[0] == '+')),
            negative == (t.len() > 0 && t[0] == '-'),
            ds == digits_part(t),
            ds.len() > 0,
        decreases b - i,
    {
        let c = s[i];
        assert(ds[i - start] == c);
        if !crate::text::is_ascii_digit(c) {
            assert(!crate::text::char_is_ascii_digit(ds[i - start]));
            assert(!all_digits(ds));
            return None;
        }
        let d: i64 = (c as i64) - ('0' as i64);
        assert(ds.subrange(0, i + 1 - start).drop_last() =~= ds.subrange(0, i - start));
        let nv: i64 = v * 10 + d;
        if nv > 2147483648 {
            proof {
                if all_digits(ds) {
                    crate::phase2::lemma_digits_value_prefix(ds, i + 1 - start);
                    assert(crate::phase2::digits_value(ds) > 2147483648);
                }
            }
            return None;
        }
        v = nv;
        i = i + 1;
    }
    assert(ds.subrange(0, b - start) =~= ds);
    assert(all_digits(ds));
    if negative {
        Some((-v) as i32)
    } else if v <= 2147483647 {
        Some(v as i32)
    } else {
        None
    }
}

} // verus!
