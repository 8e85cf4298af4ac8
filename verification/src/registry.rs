//! The table of live instances and the handles that name them.

use vstd::prelude::*;
use wasmtime::Instance;
use crate::error::LinkError;

verus! {

/// A live instance of wasmtime. The registry keeps such values and hands
/// them back; it never looks inside one.
#[verifier::external_type_specification]
#[verifier::external_body]
pub struct ExInstance(Instance);

/// How many instances a registry can hold: one for each non-negative value
/// of the 32-bit handle that the guest ABI carries.
pub const MAX_INSTANCES: usize = 0x8000_0000;

/// What looking up `handle` in a registry that holds `instances` yields.
pub open spec fn spec_get(instances: Seq<Instance>, handle: int) -> Result<Instance, LinkError> {
    if 0 <= handle < instances.len() {
        Ok(instances[handle])
    } else {
        Err(LinkError::HandleOutOfBounds)
    }
}

/// An append-only sequence of instances. The handle of an instance is its
/// position, so handles are issued in counting order and stay valid for good.
pub struct InstanceRegistry {
    instances: Vec<Instance>,
}

impl View for InstanceRegistry {
    type V = Seq<Instance>;

    closed spec fn view(&self) -> Seq<Instance> {
        self.instances@
    }
}

impl InstanceRegistry {
    /// A registry that has issued no handle yet.
    pub fn new() -> (registry: Self)
        ensures
            registry@ == Seq::<Instance>::empty(),
    {
        InstanceRegistry { instances: Vec::new() }
    }

    /// The number of handles issued so far.
    pub fn len(&self) -> (n: usize)
        ensures
            n == self@.len(),
    {
        self.instances.len()
    }

    /// Whether every handle has been issued.
    pub fn is_full(&self) -> (full: bool)
        ensures
            full == (self@.len() >= MAX_INSTANCES),
    {
        self.instances.len() >= MAX_INSTANCES
    }

    /// Appends `instance` and returns its handle, the number of instances
    /// that were registered before it.
    pub fn push(&mut self, instance: Instance) -> (handle: i32)
        requires
            old(self)@.len() < MAX_INSTANCES,
        ensures
            final(self)@ == old(self)@.push(instance),
            handle == old(self)@.len(),
    {
        let handle = self.instances.len() as i32;
        self.instances.push(instance);
        handle
    }

    /// The instance that `handle` names. A negative handle, or one that was
    /// not issued yet, is out of bounds.
    pub fn get(&self, handle: i32) -> (found: Result<&Instance, LinkError>)
        ensures
            match spec_get(self@, handle as int) {
                Ok(instance) => found matches Ok(got) && *got == instance,
                Err(e) => found matches Err(g) && g == e,
            },
    {
        if handle < 0 || handle as usize >= self.instances.len() {
            Err(LinkError::HandleOutOfBounds)
        } else {
            Ok(&self.instances[handle as usize])
        }
    }
}

} // verus!
