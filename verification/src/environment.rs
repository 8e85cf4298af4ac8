//! Satisfying imports from the generic environment namespace.
//!
//! A module may import memories, tables, globals and functions from the
//! environment namespace without any module providing them. Before such a
//! module is instantiated, the host goes through these imports and decides
//! for each what to bind under its name. The plan for a module is made as a
//! whole: where one import cannot be satisfied, nothing is bound.

use vstd::prelude::*;
use crate::bridge::GuestValue;
use crate::error::LinkError;

verus! {

/// Whether `namespace` is the generic environment namespace, whose imports
/// the host satisfies with definitions of its own making.
pub fn is_environment_namespace(namespace: &String) -> (generic: bool)
    ensures
        generic == (namespace@ == "env"@),
{
    *namespace == "env".to_owned()
}

/// The kind of a definition that a linker holds.
#[derive(Clone, Copy, Debug, PartialEq, Eq, Structural)]
pub enum ExternKind {
    /// A function.
    Function,
    /// A linear memory.
    Memory,
    /// A table of references.
    Table,
    /// A global variable.
    Global,
    /// Something that no module imports as one of the four above, such as
    /// an exception tag.
    Other,
}

/// The type of a global's value.
#[derive(Clone, Copy, Debug, PartialEq, Eq, Structural)]
pub enum ValueType {
    /// 32-bit integer.
    I32,
    /// 64-bit integer.
    I64,
    /// 32-bit float.
    F32,
    /// 64-bit float.
    F64,
    /// A vector or a reference: not a number.
    Other,
}

/// The size that a memory or a table is declared with, in its own units.
#[derive(Clone, Copy, Debug, PartialEq, Eq, Structural)]
pub struct Limits {
    /// The size to start with.
    pub minimum: u64,
    /// The size never to grow beyond, if there is one.
    pub maximum: Option<u64>,
}

/// What a module declares of one import.
#[derive(Clone, Copy, Debug, PartialEq, Eq, Structural)]
pub enum ImportDecl {
    /// A function.
    Function,
    /// A memory of the given limits.
    Memory(Limits),
    /// A table of the given limits.
    Table(Limits),
    /// A global of the given type.
    Global(ValueType),
}

/// One import from the environment namespace, with the kind of the
/// definition that the linker already holds under its name, if any.
#[derive(Clone, Copy, Debug, PartialEq, Eq, Structural)]
pub struct EnvImport {
    /// What the module declares.
    pub decl: ImportDecl,
    /// What is bound under the import's name so far.
    pub existing: Option<ExternKind>,
}

/// What the host does for one import.
#[derive(Clone, Copy, Debug, PartialEq, Eq, Structural)]
pub enum EnvAction {
    /// Allocate a memory of these limits and bind it.
    AllocateMemory(Limits),
    /// Allocate a table of these limits, filled with null references, and
    /// bind it.
    AllocateTable(Limits),
    /// Create a global that holds this value, the zero of its type, and bind
    /// it.
    DefineGlobal(GuestValue),
    /// Nothing: the definition that exists already serves the import.
    KeepExisting,
}

/// The kind of thing that `decl` declares.
pub open spec fn kind_of(decl: ImportDecl) -> ExternKind {
    match decl {
        ImportDecl::Function => ExternKind::Function,
        ImportDecl::Memory(_) => ExternKind::Memory,
        ImportDecl::Table(_) => ExternKind::Table,
        ImportDecl::Global(_) => ExternKind::Global,
    }
}

/// The zero of a numeric type; none for a type that is not numeric.
pub open spec fn zero_of(ty: ValueType) -> Option<GuestValue> {
    match ty {
        ValueType::I32 => Some(GuestValue::I32(0)),
        ValueType::I64 => Some(GuestValue::I64(0)),
        ValueType::F32 => Some(GuestValue::F32(0)),
        ValueType::F64 => Some(GuestValue::F64(0)),
        ValueType::Other => None,
    }
}

/// What the host does for `import`, or why the import cannot be satisfied.
///
/// A memory or a table is always allocated anew. A global or a function for
/// which a definition exists is served by it if that definition is of the
/// same kind, and is a mismatch otherwise. Without a definition, a global of
/// a numeric type is created with the value zero, a global of another type
/// is not supported, and a function stays unresolved: the host makes up no
/// function.
pub open spec fn spec_plan_import(import: EnvImport) -> Result<EnvAction, LinkError> {
    match import.decl {
        ImportDecl::Memory(limits) => Ok(EnvAction::AllocateMemory(limits)),
        ImportDecl::Table(limits) => Ok(EnvAction::AllocateTable(limits)),
        ImportDecl::Global(ty) => match import.existing {
            Some(kind) => if kind == ExternKind::Global {
                Ok(EnvAction::KeepExisting)
            } else {
                Err(LinkError::ImportTypeMismatch)
            },
            None => match zero_of(ty) {
                Some(zero) => Ok(EnvAction::DefineGlobal(zero)),
                None => Err(LinkError::UnsupportedType),
            },
        },
        ImportDecl::Function => match import.existing {
            Some(kind) => if kind == ExternKind::Function {
                Ok(EnvAction::KeepExisting)
            } else {
                Err(LinkError::ImportTypeMismatch)
            },
            None => Err(LinkError::UnresolvedFunctionImport),
        },
    }
}

/// Decides what the host does for one import from the environment
/// namespace.
pub fn plan_import(import: &EnvImport) -> (action: Result<EnvAction, LinkError>)
    ensures
        action == spec_plan_import(*import),
{
    match import.decl {
        ImportDecl::Memory(limits) => Ok(EnvAction::AllocateMemory(limits)),
        ImportDecl::Table(limits) => Ok(EnvAction::AllocateTable(limits)),
        ImportDecl::Global(ty) => match import.existing {
            Some(ExternKind::Global) => Ok(EnvAction::KeepExisting),
            Some(_) => Err(LinkError::ImportTypeMismatch),
            None => match ty {
                ValueType::I32 => Ok(EnvAction::DefineGlobal(GuestValue::I32(0))),
                ValueType::I64 => Ok(EnvAction::DefineGlobal(GuestValue::I64(0))),
                ValueType::F32 => Ok(EnvAction::DefineGlobal(GuestValue::F32(0))),
                ValueType::F64 => Ok(EnvAction::DefineGlobal(GuestValue::F64(0))),
                ValueType::Other => Err(LinkError::UnsupportedType),
            },
        },
        ImportDecl::Function => match import.existing {
            Some(ExternKind::Function) => Ok(EnvAction::KeepExisting),
            Some(_) => Err(LinkError::ImportTypeMismatch),
            None => Err(LinkError::UnresolvedFunctionImport),
        },
    }
}

/// The plan for all of a module's environment imports: one action for each,
/// in order, or the failure of the first import that cannot be satisfied.
pub open spec fn spec_plan_environment(imports: Seq<EnvImport>) -> Result<
    Seq<EnvAction>,
    LinkError,
>
    decreases imports.len(),
{
    if imports.len() == 0 {
        Ok(Seq::empty())
    } else {
        match spec_plan_environment(imports.drop_last()) {
            Err(e) => Err(e),
            Ok(actions) => match spec_plan_import(imports.last()) {
                Err(e) => Err(e),
                Ok(action) => Ok(actions.push(action)),
            },
        }
    }
}

/// Plans all of a module's environment imports before any of them is bound.
pub fn plan_environment(imports: &Vec<EnvImport>) -> (plan: Result<Vec<EnvAction>, LinkError>)
    ensures
        match spec_plan_environment(imports@) {
            Ok(actions) => plan matches Ok(got) && got@ == actions,
            Err(e) => plan matches Err(g) && g == e,
        },
{
    let mut actions: Vec<EnvAction> = Vec::new();
    let mut i: usize = 0;
    while i < imports.len()
        invariant
            i <= imports.len(),
            spec_plan_environment(imports@.take(i as int)) == Ok::<Seq<EnvAction>, LinkError>(
                actions@,
            ),
        decreases imports.len() - i,
    {
        proof {
            assert(imports@.take(i as int + 1).drop_last() == imports@.take(i as int));
        }
        match plan_import(&imports[i]) {
            Ok(action) => {
                actions.push(action);
            },
            Err(e) => {
                proof {
                    lemma_plan_fails_for_good(imports@, i as int + 1);
                }
                return Err(e);
            },
        }
        i += 1;
    }
    proof {
        assert(imports@.take(imports@.len() as int) == imports@);
    }
    Ok(actions)
}

/// A plan that fails on the first `n` imports fails in the same way on the
/// whole list.
pub proof fn lemma_plan_fails_for_good(imports: Seq<EnvImport>, n: int)
    requires
        0 <= n <= imports.len(),
        spec_plan_environment(imports.take(n)) is Err,
    ensures
        spec_plan_environment(imports) == spec_plan_environment(imports.take(n)),
    decreases imports.len() - n,
{
    if n < imports.len() {
        assert(imports.take(n + 1).drop_last() == imports.take(n));
        lemma_plan_fails_for_good(imports, n + 1);
    } else {
        assert(imports.take(n) == imports);
    }
}

/// A plan exists exactly where every import can be satisfied, and then it
/// holds the action of each import at that import's place.
pub proof fn lemma_plan_is_all_or_nothing(imports: Seq<EnvImport>)
    ensures
        spec_plan_environment(imports) is Ok <==> forall|i: int|
            0 <= i < imports.len() ==> spec_plan_import(#[trigger] imports[i]) is Ok,
        spec_plan_environment(imports) matches Ok(actions) ==> actions.len() == imports.len()
            && forall|i: int|
            0 <= i < imports.len() ==> spec_plan_import(#[trigger] imports[i]) == Ok::<
                EnvAction,
                LinkError,
            >(actions[i]),
    decreases imports.len(),
{
    if imports.len() > 0 {
        let init = imports.drop_last();
        lemma_plan_is_all_or_nothing(init);
        assert forall|i: int| 0 <= i < init.len() implies init[i] == imports[i] by {}
        if spec_plan_environment(imports) is Ok {
            assert forall|i: int| 0 <= i < imports.len() implies spec_plan_import(
                #[trigger] imports[i],
            ) is Ok by {
                if i < init.len() {
                    assert(init[i] == imports[i]);
                }
            }
        }
        if forall|i: int| 0 <= i < imports.len() ==> spec_plan_import(#[trigger] imports[i]) is Ok {
            assert forall|i: int| 0 <= i < init.len() implies spec_plan_import(
                #[trigger] init[i],
            ) is Ok by {
                assert(init[i] == imports[i]);
            }
        }
        if let Ok(actions) = spec_plan_environment(imports) {
            let before = spec_plan_environment(init)->Ok_0;
            assert forall|i: int| 0 <= i < imports.len() implies spec_plan_import(
                #[trigger] imports[i],
            ) == Ok::<EnvAction, LinkError>(actions[i]) by {
                if i < init.len() {
                    assert(init[i] == imports[i]);
                    assert(actions[i] == before[i]);
                }
            }
        }
    }
}

} // verus!
