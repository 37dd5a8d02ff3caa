//! The plain values that devices, parameters and reductions are named by.

use vstd::prelude::*;

verus! {

/// Names a device: the kind of device, and its number among the devices of that kind.
#[derive(Clone, Copy, Debug, PartialEq, Eq, Structural)]
pub struct DeviceId {
    pub type_id: u16,
    pub index_id: u16,
}

/// Names a parameter whose gradient is shared by several devices.
#[derive(Clone, Copy, Debug, PartialEq, Eq, Structural)]
pub struct DistributedParamId {
    pub value: u64,
}

/// What a device says of one occurrence of a shared parameter in its autodiff graph.
#[derive(Clone, Copy, Debug, PartialEq, Eq, Structural)]
pub struct DistributedParams {
    pub param_id: DistributedParamId,
}

/// How the gradients of one parameter are combined.
#[derive(Clone, Copy, Debug, PartialEq, Eq, Structural)]
pub enum ReduceOperation {
    Sum,
    Mean,
}

/// The settings of a gradient sync server.
#[derive(Clone, Copy, Debug, PartialEq, Eq, Structural)]
pub struct DistributedConfig {
    pub all_reduce_op: ReduceOperation,
}

/// A device taking part in the gradient sync: the id that the server knows it by, and the
/// backend's own handle, which the server only carries.
#[derive(Debug)]
pub struct SyncDevice<D> {
    pub id: DeviceId,
    pub handle: D,
}

impl DeviceId {
    /// The id as one number.
    pub open spec fn spec_key(self) -> u32 {
        (self.type_id * 65536 + self.index_id) as u32
    }

    /// The id as one number. Different ids have different numbers.
    pub fn key(&self) -> (key: u32)
        ensures
            key == self.spec_key(),
    {
        self.type_id as u32 * 65536 + self.index_id as u32
    }

    /// Two ids with the same number are the same id.
    pub proof fn lemma_key_injective(a: DeviceId, b: DeviceId)
        ensures
            a.spec_key() == b.spec_key() <==> a == b,
    {
    }
}

} // verus!
