use wasm_dylink::error::LinkError;
use wasm_dylink::registry::{InstanceRegistry, MAX_INSTANCES};
use wasmtime::{Engine, Instance, Module, Store};

/// An instance whose only export is a function of the given name.
fn instance_exporting(store: &mut Store<()>, export: &str) -> Instance {
    let text = format!("(module (func (export \"{export}\")))");
    let module = Module::new(store.engine(), text).unwrap();
    Instance::new(store, &module, &[]).unwrap()
}

#[test]
fn new_registry_knows_no_handle() {
    let registry = InstanceRegistry::new();
    assert_eq!(registry.len(), 0);
    assert!(!registry.is_full());
    assert_eq!(registry.get(0).err(), Some(LinkError::HandleOutOfBounds));
    assert_eq!(registry.get(-1).err(), Some(LinkError::HandleOutOfBounds));
}

#[test]
fn handle_space_is_the_non_negative_i32() {
    assert_eq!(MAX_INSTANCES as u64, i32::MAX as u64 + 1);
}

#[test]
fn push_returns_the_position() {
    let engine = Engine::default();
    let mut store = Store::new(&engine, ());
    let mut registry = InstanceRegistry::new();
    for expected in 0..5 {
        let instance = instance_exporting(&mut store, "f");
        assert_eq!(registry.push(instance), expected);
        assert_eq!(registry.len(), expected as usize + 1);
    }
}

#[test]
fn get_returns_the_instance_pushed_under_the_handle() {
    let engine = Engine::default();
    let mut store = Store::new(&engine, ());
    let mut registry = InstanceRegistry::new();
    let names = ["zero", "one", "two"];
    for name in names {
        let instance = instance_exporting(&mut store, name);
        registry.push(instance);
    }
    for (handle, name) in names.iter().enumerate() {
        let instance = *registry.get(handle as i32).unwrap();
        for other in names {
            let found = instance.get_func(&mut store, other).is_some();
            assert_eq!(found, other == *name);
        }
    }
}

#[test]
fn get_fails_on_handles_not_issued() {
    let engine = Engine::default();
    let mut store = Store::new(&engine, ());
    let mut registry = InstanceRegistry::new();
    for _ in 0..3 {
        let instance = instance_exporting(&mut store, "f");
        registry.push(instance);
    }
    assert!(registry.get(0).is_ok());
    assert!(registry.get(2).is_ok());
    assert_eq!(registry.get(3).err(), Some(LinkError::HandleOutOfBounds));
    assert_eq!(registry.get(-1).err(), Some(LinkError::HandleOutOfBounds));
    assert_eq!(registry.get(i32::MAX).err(), Some(LinkError::HandleOutOfBounds));
    assert_eq!(registry.get(i32::MIN).err(), Some(LinkError::HandleOutOfBounds));
}

#[test]
fn handles_stay_valid_as_the_registry_grows() {
    let engine = Engine::default();
    let mut store = Store::new(&engine, ());
    let mut registry = InstanceRegistry::new();
    let first = instance_exporting(&mut store, "first");
    let handle = registry.push(first);
    for _ in 0..10 {
        let instance = instance_exporting(&mut store, "later");
        registry.push(instance);
    }
    let found = *registry.get(handle).unwrap();
    assert!(found.get_func(&mut store, "first").is_some());
    assert!(found.get_func(&mut store, "later").is_none());
}
