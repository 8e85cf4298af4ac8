use wasm_dylink::bridge::{
    begin_call, begin_open, finish_call, finish_open, open_status, CallOutcome, GuestValue,
    LoadOutcome, CALL_ARGUMENT, CALL_FUNCTION, HOST_NAMESPACE, MEMORY_EXPORT, OPEN_FUNCTION,
};
use wasm_dylink::error::LinkError;
use wasm_dylink::registry::InstanceRegistry;
use wasmtime::{Config, Engine, Instance, Module, Store, Val};

const LIBRARY: &str = r#"
    (module
        (memory (export "memory") 1)
        (data (i32.const 8) "mul_by_3")
        (data (i32.const 32) "broken")
        (data (i32.const 48) "wide")
        (global (export "counter") (mut i32) (i32.const 0))
        (func (export "mul_by_3") (param i32) (result i32)
            local.get 0
            i32.const 3
            i32.mul)
        (func (export "broken") (param i32) (result i32)
            unreachable)
        (func (export "wide") (param i32) (result i64)
            local.get 0
            i64.extend_i32_s)
        (func (export "pair") (param i32 i32) (result i32)
            local.get 0))
"#;

/// An engine that reserves no more address space than a memory needs.
fn small_engine() -> Engine {
    let mut config = Config::new();
    config
        .memory_reservation(1 << 20)
        .memory_reservation_for_growth(0)
        .memory_guard_size(0)
        .guard_before_linear_memory(false);
    Engine::new(&config).unwrap()
}

fn library(store: &mut Store<()>) -> Instance {
    let module = Module::new(store.engine(), LIBRARY).unwrap();
    Instance::new(store, &module, &[]).unwrap()
}

fn value_of(val: &Val) -> GuestValue {
    match val {
        Val::I32(v) => GuestValue::I32(*v),
        Val::I64(v) => GuestValue::I64(*v),
        Val::F32(bits) => GuestValue::F32(*bits),
        Val::F64(bits) => GuestValue::F64(*bits),
        _ => GuestValue::Other,
    }
}

/// What an embedder does between the two halves of a call.
fn call_through_engine(
    store: &mut Store<()>,
    registry: &InstanceRegistry,
    memory: &[u8],
    handle: i32,
    ptr: i32,
    len: i32,
) -> Result<i32, LinkError> {
    let target = begin_call(registry, Some(memory), handle, ptr, len)?;
    let outcome = match target.instance.get_func(&mut *store, &target.symbol) {
        None => CallOutcome::SymbolMissing,
        Some(func) => {
            let mut results = vec![Val::I32(0); func.ty(&*store).results().len()];
            match func.call(&mut *store, &[Val::I32(target.argument)], &mut results) {
                Ok(()) => CallOutcome::Returned(results.iter().map(value_of).collect()),
                Err(_) => CallOutcome::Failed,
            }
        }
    };
    finish_call(outcome)
}

#[test]
fn call_argument_is_177() {
    assert_eq!(CALL_ARGUMENT, 177);
}

#[test]
fn entry_points_are_named_as_the_guest_abi_says() {
    assert_eq!(HOST_NAMESPACE, "host");
    assert_eq!(OPEN_FUNCTION, "wasm_dlopen");
    assert_eq!(CALL_FUNCTION, "wasm_dlcall");
    assert_eq!(MEMORY_EXPORT, "memory");
}

#[test]
fn begin_open_reads_the_module_path() {
    let mut memory = vec![0u8; 64];
    memory[4..15].copy_from_slice(b"plugin.wasm");
    assert_eq!(begin_open(Some(&memory), 4, 11), Ok("plugin.wasm".to_string()));
}

#[test]
fn begin_open_passes_marshalling_failures_on() {
    let memory = vec![0xffu8; 64];
    assert_eq!(begin_open(Some(&memory), 0, 4097), Err(LinkError::BufferTooLarge));
    assert_eq!(begin_open(Some(&memory), 60, 5), Err(LinkError::MemoryReadFault));
    assert_eq!(begin_open(Some(&memory), 0, 4), Err(LinkError::InvalidEncoding));
    assert_eq!(begin_open(None, 0, 4), Err(LinkError::MemoryReadFault));
}

#[test]
fn successful_opens_get_the_handles_in_counting_order() {
    let engine = small_engine();
    let mut store = Store::new(&engine, ());
    let mut registry = InstanceRegistry::new();
    let n = 6;
    for expected in 0..n {
        let instance = library(&mut store);
        assert_eq!(finish_open(&mut registry, LoadOutcome::Loaded(instance)), Ok(expected));
    }
    assert_eq!(registry.len(), n as usize);
    for handle in 0..n {
        assert!(registry.get(handle).is_ok());
    }
    assert_eq!(registry.get(n).err(), Some(LinkError::HandleOutOfBounds));
    assert_eq!(registry.get(-1).err(), Some(LinkError::HandleOutOfBounds));
}

#[test]
fn opening_the_same_module_twice_gives_two_instances() {
    let engine = small_engine();
    let mut store = Store::new(&engine, ());
    let mut registry = InstanceRegistry::new();
    let module = Module::new(&engine, LIBRARY).unwrap();
    let first = Instance::new(&mut store, &module, &[]).unwrap();
    let second = Instance::new(&mut store, &module, &[]).unwrap();
    let first = finish_open(&mut registry, LoadOutcome::Loaded(first)).unwrap();
    let second = finish_open(&mut registry, LoadOutcome::Loaded(second)).unwrap();
    assert_eq!((first, second), (0, 1));

    let one = *registry.get(first).unwrap();
    let other = *registry.get(second).unwrap();
    let counter = one.get_global(&mut store, "counter").unwrap();
    counter.set(&mut store, Val::I32(41)).unwrap();
    let untouched = other.get_global(&mut store, "counter").unwrap();
    assert_eq!(counter.get(&mut store).i32(), Some(41));
    assert_eq!(untouched.get(&mut store).i32(), Some(0));
}

#[test]
fn failed_load_issues_no_handle() {
    let engine = small_engine();
    let mut store = Store::new(&engine, ());
    let mut registry = InstanceRegistry::new();
    assert_eq!(
        finish_open(&mut registry, LoadOutcome::CompileFailed),
        Err(LinkError::CompileError)
    );
    assert_eq!(
        finish_open(&mut registry, LoadOutcome::InstantiationFailed),
        Err(LinkError::InstantiationError)
    );
    assert_eq!(registry.len(), 0);
    let instance = library(&mut store);
    assert_eq!(finish_open(&mut registry, LoadOutcome::Loaded(instance)), Ok(0));
    assert_eq!(
        finish_open(&mut registry, LoadOutcome::CompileFailed),
        Err(LinkError::CompileError)
    );
    assert_eq!(registry.len(), 1);
}

#[test]
fn oversized_name_is_refused_and_the_registry_stays() {
    let engine = small_engine();
    let mut store = Store::new(&engine, ());
    let mut registry = InstanceRegistry::new();
    let instance = library(&mut store);
    finish_open(&mut registry, LoadOutcome::Loaded(instance)).unwrap();
    let memory = vec![b'a'; 8192];
    for len in [4097, 5000, i32::MAX] {
        assert_eq!(begin_open(Some(&memory), 0, len), Err(LinkError::BufferTooLarge));
        assert_eq!(
            begin_call(&registry, Some(&memory), 0, 0, len).err(),
            Some(LinkError::BufferTooLarge)
        );
    }
    assert_eq!(registry.len(), 1);
}

#[test]
fn handle_is_judged_before_the_name() {
    let registry = InstanceRegistry::new();
    let memory = vec![b'a'; 16];
    assert_eq!(
        begin_call(&registry, Some(&memory), -1, 0, 5000).err(),
        Some(LinkError::HandleOutOfBounds)
    );
    assert_eq!(
        begin_call(&registry, None, 0, 0, 4).err(),
        Some(LinkError::HandleOutOfBounds)
    );
}

#[test]
fn begin_call_names_instance_symbol_and_argument() {
    let engine = small_engine();
    let mut store = Store::new(&engine, ());
    let mut registry = InstanceRegistry::new();
    let module = Module::new(&engine, "(module (func (export \"other\")))").unwrap();
    let other = Instance::new(&mut store, &module, &[]).unwrap();
    finish_open(&mut registry, LoadOutcome::Loaded(other)).unwrap();
    let instance = library(&mut store);
    let handle = finish_open(&mut registry, LoadOutcome::Loaded(instance)).unwrap();

    let memory = b"....mul_by_3....".to_vec();
    let target = begin_call(&registry, Some(&memory), handle, 4, 8).unwrap();
    assert_eq!(target.symbol, "mul_by_3");
    assert_eq!(target.argument, 177);
    assert!(target.instance.get_func(&mut store, "mul_by_3").is_some());
    assert!(target.instance.get_func(&mut store, "other").is_none());
}

#[test]
fn begin_call_passes_marshalling_failures_on() {
    let engine = small_engine();
    let mut store = Store::new(&engine, ());
    let mut registry = InstanceRegistry::new();
    let instance = library(&mut store);
    finish_open(&mut registry, LoadOutcome::Loaded(instance)).unwrap();
    let memory = vec![0xffu8; 16];
    assert_eq!(
        begin_call(&registry, Some(&memory), 0, 12, 8).err(),
        Some(LinkError::MemoryReadFault)
    );
    assert_eq!(
        begin_call(&registry, Some(&memory), 0, 0, 8).err(),
        Some(LinkError::InvalidEncoding)
    );
    assert_eq!(begin_call(&registry, None, 0, 0, 8).err(), Some(LinkError::MemoryReadFault));
    assert_eq!(
        begin_call(&registry, Some(&memory), 1, 0, 0).err(),
        Some(LinkError::HandleOutOfBounds)
    );
}

#[test]
fn finish_call_returns_the_one_i32() {
    for value in [0, 531, -1, i32::MIN, i32::MAX] {
        assert_eq!(finish_call(CallOutcome::Returned(vec![GuestValue::I32(value)])), Ok(value));
    }
}

#[test]
fn finish_call_refuses_other_results() {
    let refused = [
        vec![],
        vec![GuestValue::I64(1)],
        vec![GuestValue::F32(0)],
        vec![GuestValue::F64(0)],
        vec![GuestValue::Other],
        vec![GuestValue::I32(1), GuestValue::I32(2)],
        vec![GuestValue::I64(1), GuestValue::I32(2)],
    ];
    for values in refused {
        assert_eq!(finish_call(CallOutcome::Returned(values)), Err(LinkError::CallFailed));
    }
    assert_eq!(finish_call(CallOutcome::Failed), Err(LinkError::CallFailed));
}

#[test]
fn missing_symbol_is_no_number() {
    let missing = finish_call(CallOutcome::SymbolMissing);
    assert_eq!(missing, Err(LinkError::SymbolNotFound));
    for value in [0, -1, 1, -9, i32::MIN, i32::MAX] {
        let returned = finish_call(CallOutcome::Returned(vec![GuestValue::I32(value)]));
        assert_ne!(returned, missing);
    }
    assert_ne!(finish_call(CallOutcome::Failed), missing);
}

#[test]
fn open_status_is_the_handle_or_a_negative_code() {
    assert_eq!(open_status(Ok(0)), 0);
    assert_eq!(open_status(Ok(7)), 7);
    assert_eq!(open_status(Ok(i32::MAX)), i32::MAX);
    assert_eq!(open_status(Err(LinkError::CompileError)), -1);
    assert_eq!(open_status(Err(LinkError::InstantiationError)), -2);
    assert_eq!(open_status(Err(LinkError::BufferTooLarge)), -4);
    assert_eq!(open_status(Err(LinkError::MemoryReadFault)), -5);
    assert_eq!(open_status(Err(LinkError::InvalidEncoding)), -6);
    assert_eq!(open_status(Err(LinkError::RegistryFull)), -8);
}

#[test]
fn codes_are_negative_and_distinct() {
    let all = [
        LinkError::CompileError,
        LinkError::InstantiationError,
        LinkError::CyclicDependency,
        LinkError::BufferTooLarge,
        LinkError::MemoryReadFault,
        LinkError::InvalidEncoding,
        LinkError::HandleOutOfBounds,
        LinkError::RegistryFull,
        LinkError::SymbolNotFound,
        LinkError::CallFailed,
        LinkError::ImportTypeMismatch,
        LinkError::UnresolvedFunctionImport,
        LinkError::UnsupportedType,
    ];
    for (i, a) in all.iter().enumerate() {
        assert_eq!(a.code(), -(i as i32) - 1);
        for b in all.iter().skip(i + 1) {
            assert_ne!(a.code(), b.code());
        }
    }
}

#[test]
fn call_runs_the_export_with_177() {
    let engine = small_engine();
    let mut store = Store::new(&engine, ());
    let mut registry = InstanceRegistry::new();
    let instance = library(&mut store);
    let handle = finish_open(&mut registry, LoadOutcome::Loaded(instance)).unwrap();
    let memory = instance.get_memory(&mut store, "memory").unwrap();
    let bytes = memory.data(&store).to_vec();

    let result = call_through_engine(&mut store, &registry, &bytes, handle, 8, 8);
    assert_eq!(result, Ok(531));
}

#[test]
fn call_of_a_missing_export_is_symbol_not_found() {
    let engine = small_engine();
    let mut store = Store::new(&engine, ());
    let mut registry = InstanceRegistry::new();
    let instance = library(&mut store);
    let handle = finish_open(&mut registry, LoadOutcome::Loaded(instance)).unwrap();
    let memory = instance.get_memory(&mut store, "memory").unwrap();
    let bytes = memory.data(&store).to_vec();

    let result = call_through_engine(&mut store, &registry, &bytes, handle, 8, 3);
    assert_eq!(result, Err(LinkError::SymbolNotFound));
}

#[test]
fn call_that_traps_or_has_another_signature_fails() {
    let engine = small_engine();
    let mut store = Store::new(&engine, ());
    let mut registry = InstanceRegistry::new();
    let instance = library(&mut store);
    let handle = finish_open(&mut registry, LoadOutcome::Loaded(instance)).unwrap();
    let memory = instance.get_memory(&mut store, "memory").unwrap();
    let mut bytes = memory.data(&store).to_vec();
    bytes[64..68].copy_from_slice(b"pair");

    let trapped = call_through_engine(&mut store, &registry, &bytes, handle, 32, 6);
    assert_eq!(trapped, Err(LinkError::CallFailed));
    let wide = call_through_engine(&mut store, &registry, &bytes, handle, 48, 4);
    assert_eq!(wide, Err(LinkError::CallFailed));
    let pair = call_through_engine(&mut store, &registry, &bytes, handle, 64, 4);
    assert_eq!(pair, Err(LinkError::CallFailed));
}

#[test]
fn call_on_a_handle_not_issued_is_out_of_bounds() {
    let engine = small_engine();
    let mut store = Store::new(&engine, ());
    let mut registry = InstanceRegistry::new();
    let instance = library(&mut store);
    finish_open(&mut registry, LoadOutcome::Loaded(instance)).unwrap();
    let bytes = b"mul_by_3".to_vec();
    for handle in [-1, 1, 2, i32::MAX, i32::MIN] {
        let result = call_through_engine(&mut store, &registry, &bytes, handle, 0, 8);
        assert_eq!(result, Err(LinkError::HandleOutOfBounds));
    }
}
