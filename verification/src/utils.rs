//! Errors of the typed core, and how its types map onto machine types: a
//! 32-bit integer, or a structure of machine types.
use vstd::prelude::*;
use crate::corelang::{CoreType, TypeM, types_view, lemma_types_view};
use crate::format::type_debug;

verus! {

/// Why a typed core tree cannot be compiled.
#[derive(Debug)]
pub enum SemanticError {
    TypeConversionFailed(String),
    ReturnTypeMismatch(CoreType, CoreType),
    CannotApply(CoreType, CoreType),
    Misc,
}

/// A machine type: a 32-bit integer, or a structure of machine types.
#[derive(Debug)]
pub enum MachineType {
    I32,
    Struct(Vec<MachineType>),
}

/// The mathematical content of a machine type.
pub enum MachineM {
    I32,
    Struct(Seq<MachineM>),
}

pub open spec fn machine_view(m: MachineType) -> MachineM
    decreases m,
{
    match m {
        MachineType::I32 => MachineM::I32,
        MachineType::Struct(v) => MachineM::Struct(machines_view(v@)),
    }
}

pub open spec fn machines_view(s: Seq<MachineType>) -> Seq<MachineM>
    decreases s,
{
    if s.len() == 0 {
        Seq::empty()
    } else {
        machines_view(s.subrange(0, s.len() - 1)).push(machine_view(s[s.len() - 1]))
    }
}

impl View for MachineType {
    type V = MachineM;

    open spec fn view(&self) -> MachineM {
        machine_view(*self)
    }
}

/// The machine type of a core type: `I32` is an integer, a tuple is the
/// structure of its elements' machine types; a function type or an unknown
/// type, at any depth, has none.
pub open spec fn spec_machine(t: TypeM) -> Option<MachineM>
    decreases t, 0nat,
{
    match t {
        TypeM::I32 => Some(MachineM::I32),
        TypeM::Tuple(es) => match spec_machines(es) {
            Some(ms) => Some(MachineM::Struct(ms)),
            None => None,
        },
        _ => None,
    }
}

/// The machine types of a sequence of core types, if each has one.
pub open spec fn spec_machines(es: Seq<TypeM>) -> Option<Seq<MachineM>>
    decreases es, 1nat,
{
    if es.len() == 0 {
        Some(Seq::empty())
    } else {
        match spec_machines(es.subrange(0, es.len() - 1)) {
            Some(ms) => match spec_machine(es[es.len() - 1]) {
                Some(m) => Some(ms.push(m)),
                None => None,
            },
            None => None,
        }
    }
}

/// The message of the error for a core type without a machine type.
pub open spec fn conversion_message(t: TypeM) -> Seq<char> {
    "CoreTypeからBasicTypeEnumへ変換できません: "@ + type_debug(t)
}

fn machine_types(v: &Vec<CoreType>) -> (r: Option<Vec<MachineType>>)
    ensures
        match r {
            Some(ms) => spec_machines(types_view(v@)) == Some(machines_view(ms@)),
            None => spec_machines(types_view(v@)) is None,
        },
    decreases v,
{
    let ghost ts = types_view(v@);
    proof { lemma_types_view(v@); }
    let mut out: Vec<MachineType> = Vec::new();
    let mut i: usize = 0;
    assert(ts.subrange(0, 0) =~= Seq::<TypeM>::empty());
    assert(machines_view(Seq::<MachineType>::empty()) =~= Seq::<MachineM>::empty());
    while i < v.len()
        invariant
            i <= v.len(),
            ts == types_view(v@),
            ts.len() == v.len(),
            forall|k: int| 0 <= k < v.len() ==> #[trigger] ts[k] == v@[k]@,
            spec_machines(ts.subrange(0, i as int)) == Some(machines_view(out@)),
        decreases v.len() - i,
    {
        let m = machine_of(&v[i]);
        assert(ts.subrange(0, i + 1).subrange(0, i as int) =~= ts.subrange(0, i as int));
        assert(ts.subrange(0, i + 1)[i as int] == v@[i as int]@);
        match m {
            Some(m) => {
                let ghost before = out@;
                out.push(m);
                assert(out@.subrange(0, out@.len() - 1) =~= before);
            },
            None => {
                proof { lemma_machines_none_extends(ts, i as int + 1); }
                return None;
            },
        }
        i = i + 1;
    }
    assert(ts.subrange(0, i as int) =~= ts);
    Some(out)
}

/// Once a prefix has an element without a machine type, so has every
/// longer prefix.
proof fn lemma_machines_none_extends(ts: Seq<TypeM>, k: int)
    requires
        0 <= k <= ts.len(),
        spec_machines(ts.subrange(0, k)) is None,
    ensures
        spec_machines(ts) is None,
    decreases ts.len() - k,
{
    if k < ts.len() {
        assert(ts.subrange(0, k + 1).subrange(0, k) =~= ts.subrange(0, k));
        lemma_machines_none_extends(ts, k + 1);
    } else {
        assert(ts.subrange(0, k) =~= ts);
    }
}

fn machine_of(t: &CoreType) -> (r: Option<MachineType>)
    ensures
        match r {
            Some(m) => spec_machine(t@) == Some(m@),
            None => spec_machine(t@) is None,
        },
    decreases t,
{
    match t {
        CoreType::I32 => Some(MachineType::I32),
        CoreType::Tuple(es) => match machine_types(es) {
            Some(ms) => Some(MachineType::Struct(ms)),
            None => None,
        },
        _ => None,
    }
}

/// Whether the core type has a machine type (see `spec_machine`).
pub fn is_machine_representable(t: &CoreType) -> (r: bool)
    ensures
        r == (spec_machine(t@) is Some),
{
    machine_of(t).is_some()
}

/// The machine type of a core type: an integer for `I32`, a structure for
/// a tuple, else `TypeConversionFailed` with a message that names the type.
/// The elements of a tuple must all have machine types.
pub fn coretype_to_machine(core_type: CoreType) -> (r: Result<MachineType, SemanticError>)
    requires
        core_type@ is Tuple ==> spec_machine(core_type@) is Some,
    ensures
        match spec_machine(core_type@) {
            Some(m) => r matches Ok(x) && x@ == m,
            None => r matches Err(SemanticError::TypeConversionFailed(msg)) && msg@ == conversion_message(core_type@),
        },
{
    match machine_of(&core_type) {
        Some(m) => Ok(m),
        None => {
            let mut msg = crate::text::string_of_str("CoreTypeからBasicTypeEnumへ変換できません: ");
            msg.append(crate::format::type_debug_exec(&core_type).as_str());
            Err(SemanticError::TypeConversionFailed(msg))
        },
    }
}

} // verus!
