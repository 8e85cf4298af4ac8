//! The failure kinds of the dynamic-linking service.

use vstd::prelude::*;

verus! {

/// Why a request to the linking service failed.
#[derive(Clone, Copy, Debug, PartialEq, Eq, Structural)]
pub enum LinkError {
    /// A module's bytes are malformed, or its file cannot be read.
    CompileError,
    /// A module's imports cannot be satisfied by what the linker holds.
    InstantiationError,
    /// A module transitively imports itself.
    CyclicDependency,
    /// The guest asked for more bytes than the scratch buffer holds.
    BufferTooLarge,
    /// The requested byte range is not inside the guest's memory.
    MemoryReadFault,
    /// The bytes read from guest memory are not valid UTF-8.
    InvalidEncoding,
    /// The handle was never issued.
    HandleOutOfBounds,
    /// Every handle the guest ABI can express has been issued.
    RegistryFull,
    /// The target instance exports no function of the requested name.
    SymbolNotFound,
    /// The callee trapped, or its signature is not the one assumed.
    CallFailed,
    /// A definition of another kind is already bound under the import's name.
    ImportTypeMismatch,
    /// A function import has no definition; the host synthesizes none.
    UnresolvedFunctionImport,
    /// A global import has a type for which no zero value is synthesized.
    UnsupportedType,
}

/// The number under which a failure is reported to a guest. Every code is
/// negative, so that none can be taken for a handle.
pub open spec fn spec_code(error: LinkError) -> int {
    match error {
        LinkError::CompileError => -1,
        LinkError::InstantiationError => -2,
        LinkError::CyclicDependency => -3,
        LinkError::BufferTooLarge => -4,
        LinkError::MemoryReadFault => -5,
        LinkError::InvalidEncoding => -6,
        LinkError::HandleOutOfBounds => -7,
        LinkError::RegistryFull => -8,
        LinkError::SymbolNotFound => -9,
        LinkError::CallFailed => -10,
        LinkError::ImportTypeMismatch => -11,
        LinkError::UnresolvedFunctionImport => -12,
        LinkError::UnsupportedType => -13,
    }
}

impl LinkError {
    /// The number under which this failure is reported to a guest.
    pub fn code(&self) -> (code: i32)
        ensures
            code == spec_code(*self),
    {
        match self {
            LinkError::CompileError => -1,
            LinkError::InstantiationError => -2,
            LinkError::CyclicDependency => -3,
            LinkError::BufferTooLarge => -4,
            LinkError::MemoryReadFault => -5,
            LinkError::InvalidEncoding => -6,
            LinkError::HandleOutOfBounds => -7,
            LinkError::RegistryFull => -8,
            LinkError::SymbolNotFound => -9,
            LinkError::CallFailed => -10,
            LinkError::ImportTypeMismatch => -11,
            LinkError::UnresolvedFunctionImport => -12,
            LinkError::UnsupportedType => -13,
        }
    }
}

/// Codes are negative, and two failures of different kinds never share one.
pub proof fn lemma_codes_tell_failures_apart(a: LinkError, b: LinkError)
    ensures
        spec_code(a) < 0,
        a != b ==> spec_code(a) != spec_code(b),
{
}

} // verus!
