//! The decisions behind the two guest-callable entry points.
//!
//! Opening a module and calling an export both alternate between checks that
//! this module makes and work that only the engine can do. Each entry point
//! is therefore cut in two: a `begin_` function validates what the guest
//! passed and says what to ask of the engine, and a `finish_` function takes
//! the engine's answer and gives the result of the call. Between the two the
//! embedder holds no borrow of the registry, so guest code that runs
//! meanwhile can enter the bridge again.

use vstd::prelude::*;
use wasmtime::Instance;
use crate::error::{spec_code, LinkError};
use crate::marshal::{memory_bytes, read_name, spec_read_name, text_result_matches, MAX_NAME_LEN};
use crate::registry::{spec_get, InstanceRegistry, MAX_INSTANCES};

verus! {

/// The namespace under which the host offers the two entry points.
pub const HOST_NAMESPACE: &'static str = "host";

/// The name of the entry point that opens a module.
pub const OPEN_FUNCTION: &'static str = "wasm_dlopen";

/// The name of the entry point that calls an export.
pub const CALL_FUNCTION: &'static str = "wasm_dlcall";

/// The name under which a guest exports the memory that holds the names it
/// passes.
pub const MEMORY_EXPORT: &'static str = "memory";

/// The one argument that every dynamically called export receives.
pub const CALL_ARGUMENT: i32 = 177;

/// What the engine answered when asked to load a module.
pub enum LoadOutcome {
    /// The file is missing, or it holds no valid module.
    CompileFailed,
    /// The module compiled, but the linker cannot satisfy its imports.
    InstantiationFailed,
    /// The module was instantiated.
    Loaded(Instance),
}

/// A value that a guest function returned, by its type.
#[derive(Clone, Copy, Debug, PartialEq, Eq, Structural)]
pub enum GuestValue {
    /// A 32-bit integer.
    I32(i32),
    /// A 64-bit integer.
    I64(i64),
    /// A 32-bit float, as its bits.
    F32(u32),
    /// A 64-bit float, as its bits.
    F64(u64),
    /// A vector or a reference.
    Other,
}

/// What the engine answered when asked to call an export.
pub enum CallOutcome {
    /// The instance exports no function under the name.
    SymbolMissing,
    /// The function does not take the one argument passed, or it trapped.
    Failed,
    /// The function returned these values.
    Returned(Vec<GuestValue>),
}

/// A validated request to call an export.
pub struct CallTarget {
    /// The instance that the guest's handle names.
    pub instance: Instance,
    /// The name of the export to call.
    pub symbol: String,
    /// The argument to pass.
    pub argument: i32,
}

/// The module path that a request to open names, or why the request fails.
pub open spec fn spec_begin_open(memory: Option<Seq<u8>>, name_ptr: int, name_len: int) -> Result<
    Seq<char>,
    LinkError,
> {
    spec_read_name(memory, name_ptr, name_len)
}

/// First half of opening a module: reads the module's path out of the
/// guest's memory. On success the embedder compiles and instantiates the
/// module at that path and reports to [`finish_open`].
pub fn begin_open(memory: Option<&[u8]>, name_ptr: i32, name_len: i32) -> (path: Result<
    String,
    LinkError,
>)
    ensures
        text_result_matches(
            path,
            spec_begin_open(memory_bytes(memory), name_ptr as int, name_len as int),
        ),
{
    read_name(memory, name_ptr, name_len)
}

/// The registry after a load attempt, and the handle or failure to report.
pub open spec fn spec_finish_open(instances: Seq<Instance>, outcome: LoadOutcome) -> (
    Seq<Instance>,
    Result<int, LinkError>,
) {
    match outcome {
        LoadOutcome::CompileFailed => (instances, Err(LinkError::CompileError)),
        LoadOutcome::InstantiationFailed => (instances, Err(LinkError::InstantiationError)),
        LoadOutcome::Loaded(instance) => if instances.len() >= MAX_INSTANCES {
            (instances, Err(LinkError::RegistryFull))
        } else {
            (instances.push(instance), Ok(instances.len() as int))
        },
    }
}

/// Second half of opening a module: registers the new instance and returns
/// its handle. Every load that succeeds gets a handle of its own, also where
/// the same path was opened before. A failed load leaves the registry as it
/// was.
pub fn finish_open(registry: &mut InstanceRegistry, outcome: LoadOutcome) -> (handle: Result<
    i32,
    LinkError,
>)
    ensures
        final(registry)@ == spec_finish_open(old(registry)@, outcome).0,
        match spec_finish_open(old(registry)@, outcome).1 {
            Ok(h) => handle matches Ok(got) && got == h,
            Err(e) => handle matches Err(g) && g == e,
        },
{
    match outcome {
        LoadOutcome::CompileFailed => Err(LinkError::CompileError),
        LoadOutcome::InstantiationFailed => Err(LinkError::InstantiationError),
        LoadOutcome::Loaded(instance) => {
            if registry.is_full() {
                Err(LinkError::RegistryFull)
            } else {
                Ok(registry.push(instance))
            }
        },
    }
}

/// The number that the guest receives for a request to open: the handle, or
/// the code of the failure.
pub open spec fn spec_open_status(handle: Result<i32, LinkError>) -> int {
    match handle {
        Ok(h) => h as int,
        Err(e) => spec_code(e),
    }
}

/// Folds the result of opening a module into the one integer that the guest
/// ABI returns. Handles are never negative and codes always are, so the
/// guest can tell failure from success.
pub fn open_status(handle: Result<i32, LinkError>) -> (status: i32)
    ensures
        status == spec_open_status(handle),
{
    match handle {
        Ok(h) => h,
        Err(e) => e.code(),
    }
}

/// The instance and symbol that a request to call names, or why the request
/// fails. The handle is judged before the name is read.
pub open spec fn spec_begin_call(
    instances: Seq<Instance>,
    memory: Option<Seq<u8>>,
    handle: int,
    symbol_ptr: int,
    symbol_len: int,
) -> Result<(Instance, Seq<char>), LinkError> {
    match spec_get(instances, handle) {
        Err(e) => Err(e),
        Ok(instance) => match spec_read_name(memory, symbol_ptr, symbol_len) {
            Err(e) => Err(e),
            Ok(symbol) => Ok((instance, symbol)),
        },
    }
}

/// First half of calling an export: checks the handle and reads the symbol
/// name. On success the embedder looks the symbol up on the instance, calls
/// it with the argument given and reports to [`finish_call`].
pub fn begin_call(
    registry: &InstanceRegistry,
    memory: Option<&[u8]>,
    handle: i32,
    symbol_ptr: i32,
    symbol_len: i32,
) -> (target: Result<CallTarget, LinkError>)
    ensures
        match spec_begin_call(
            registry@,
            memory_bytes(memory),
            handle as int,
            symbol_ptr as int,
            symbol_len as int,
        ) {
            Ok((instance, symbol)) => target matches Ok(t) && t.instance == instance && t.symbol@
                == symbol && t.argument == CALL_ARGUMENT,
            Err(e) => target matches Err(g) && g == e,
        },
{
    let instance = match registry.get(handle) {
        Ok(found) => *found,
        Err(e) => {
            return Err(e);
        },
    };
    match read_name(memory, symbol_ptr, symbol_len) {
        Ok(symbol) => Ok(CallTarget { instance, symbol, argument: CALL_ARGUMENT }),
        Err(e) => Err(e),
    }
}

/// The result of a call, given what the engine answered: the one 32-bit
/// integer that the export returned, or the failure.
pub open spec fn spec_finish_call(outcome: CallOutcome) -> Result<i32, LinkError> {
    match outcome {
        CallOutcome::SymbolMissing => Err(LinkError::SymbolNotFound),
        CallOutcome::Failed => Err(LinkError::CallFailed),
        CallOutcome::Returned(values) => if values@.len() == 1 && values@[0] is I32 {
            Ok(values@[0]->I32_0)
        } else {
            Err(LinkError::CallFailed)
        },
    }
}

/// Second half of calling an export: turns the engine's answer into the
/// result of the call. A missing symbol is an error of its own and never a
/// number.
pub fn finish_call(outcome: CallOutcome) -> (result: Result<i32, LinkError>)
    ensures
        result == spec_finish_call(outcome),
{
    match outcome {
        CallOutcome::SymbolMissing => Err(LinkError::SymbolNotFound),
        CallOutcome::Failed => Err(LinkError::CallFailed),
        CallOutcome::Returned(values) => {
            if values.len() != 1 {
                return Err(LinkError::CallFailed);
            }
            match values[0] {
                GuestValue::I32(value) => Ok(value),
                _ => Err(LinkError::CallFailed),
            }
        },
    }
}

/// The registry that results when each of `loaded` is registered in turn,
/// starting from an empty registry.
pub open spec fn registry_after(loaded: Seq<Instance>) -> Seq<Instance>
    decreases loaded.len(),
{
    if loaded.len() == 0 {
        Seq::empty()
    } else {
        spec_finish_open(
            registry_after(loaded.drop_last()),
            LoadOutcome::Loaded(loaded.last()),
        ).0
    }
}

/// The handle reported for the last of `loaded`, when each of them is
/// registered in turn, starting from an empty registry.
pub open spec fn last_handle(loaded: Seq<Instance>) -> Result<int, LinkError>
    recommends
        loaded.len() > 0,
{
    spec_finish_open(registry_after(loaded.drop_last()), LoadOutcome::Loaded(loaded.last())).1
}

/// Handles count up from zero: of any run of successful loads on a fresh
/// registry, the load number `i` reports handle `i`. Afterwards the registry
/// knows exactly the handles issued: a lookup succeeds on each of them, and
/// is out of bounds on the next handle, on `-1` and on every other number.
pub proof fn lemma_handles_count_up(loaded: Seq<Instance>)
    requires
        loaded.len() <= MAX_INSTANCES,
    ensures
        registry_after(loaded) == loaded,
        forall|i: int|
            0 <= i < loaded.len() ==> #[trigger] last_handle(loaded.take(i + 1)) == Ok::<
                int,
                LinkError,
            >(i),
        forall|h: int|
            0 <= h < loaded.len() ==> #[trigger] spec_get(registry_after(loaded), h) == Ok::<
                Instance,
                LinkError,
            >(loaded[h]),
        forall|h: int|
            !(0 <= h < loaded.len()) ==> #[trigger] spec_get(registry_after(loaded), h) == Err::<
                Instance,
                LinkError,
            >(LinkError::HandleOutOfBounds),
    decreases loaded.len(),
{
    if loaded.len() > 0 {
        lemma_handles_count_up(loaded.drop_last());
        assert(loaded.drop_last().push(loaded.last()) == loaded);
        assert forall|i: int| 0 <= i < loaded.len() implies #[trigger] last_handle(
            loaded.take(i + 1),
        ) == Ok::<int, LinkError>(i) by {
            let upto = loaded.take(i + 1);
            assert(upto.drop_last() == loaded.take(i));
            if i + 1 < loaded.len() {
                assert(loaded.drop_last().take(i + 1) == upto);
            } else {
                assert(upto == loaded);
            }
            lemma_handles_count_up(loaded.take(i));
        }
    }
}

/// The status of a request to open is negative exactly where the request
/// failed.
pub proof fn lemma_status_tells_failure(instances: Seq<Instance>, outcome: LoadOutcome)
    ensures
        match spec_finish_open(instances, outcome).1 {
            Ok(h) => 0 <= h <= i32::MAX && spec_open_status(Ok(h as i32)) == h,
            Err(e) => spec_open_status(Err(e)) < 0,
        },
{
}

/// A name longer than the ceiling is refused with `BufferTooLarge` before
/// anything is loaded or called, whatever the memory holds and wherever the
/// name is said to lie. For a call this is so on every handle that was
/// issued; a handle out of bounds is reported first. Neither request can
/// change the registry.
pub proof fn lemma_oversized_name_refused(
    instances: Seq<Instance>,
    memory: Option<Seq<u8>>,
    handle: int,
    ptr: int,
    len: int,
)
    requires
        len > MAX_NAME_LEN,
    ensures
        spec_begin_open(memory, ptr, len) == Err::<Seq<char>, LinkError>(LinkError::BufferTooLarge),
        0 <= handle < instances.len() ==> spec_begin_call(instances, memory, handle, ptr, len)
            == Err::<(Instance, Seq<char>), LinkError>(LinkError::BufferTooLarge),
{
}

/// A missing symbol cannot be mistaken for a result: the call reports
/// `SymbolNotFound` exactly when the export is missing, and reports a number
/// only where the export ran and returned that number.
pub proof fn lemma_symbol_not_found_is_distinct(outcome: CallOutcome)
    ensures
        spec_finish_call(outcome) == Err::<i32, LinkError>(LinkError::SymbolNotFound)
            <==> outcome is SymbolMissing,
        spec_finish_call(outcome) matches Ok(value) ==> outcome matches CallOutcome::Returned(
            values,
        ) && values@ == seq![GuestValue::I32(value)],
{
    if let CallOutcome::Returned(values) = outcome {
        if values@.len() == 1 && values@[0] is I32 {
            assert(values@ =~= seq![values@[0]]);
        }
    }
}

} // verus!
