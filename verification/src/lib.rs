//! Data structures for a device registry, a transaction log and a
//! timestamp store, each with its contract proved by Verus.
use vstd::prelude::*;
use vstd::std_specs::cmp::PartialEqSpec;

pub mod bst;
pub mod btree;
pub mod double_list;
pub mod dynamic_array;
pub mod phone;

verus! {

/// A device on the network, found again by its numerical id.
#[derive(Clone, Debug)]
pub struct IoTDevice {
    pub numerical_id: u64,
    pub address: String,
    pub path: String,
}

impl IoTDevice {
    /// Builds a device from its id, address and path.
    pub fn new(id: u64, address: String, path: String) -> (d: IoTDevice)
        ensures
            d.numerical_id == id,
            d.address == address,
            d.path == path,
    {
        IoTDevice { address: address, numerical_id: id, path: path }
    }

    /// A copy of the device whose fields equal those of `self`.
    pub fn duplicate(&self) -> (d: IoTDevice)
        ensures
            d == *self,
    {
        IoTDevice {
            numerical_id: self.numerical_id,
            address: self.address.clone(),
            path: self.path.clone(),
        }
    }
}

/// Two devices are equal exactly when their ids and their addresses match,
/// whatever their paths: devices of different ids, or of different
/// addresses, are never equal.
pub proof fn lemma_device_eq(a: IoTDevice, b: IoTDevice)
    ensures
        a.numerical_id != b.numerical_id ==> !a.eq_spec(&b),
        a.address@ != b.address@ ==> !a.eq_spec(&b),
        a.numerical_id == b.numerical_id && a.address@ == b.address@ ==> a.eq_spec(&b),
{
}

impl PartialEq for IoTDevice {
    /// Two devices are equal when their ids and addresses are; the path is not compared.
    fn eq(&self, other: &IoTDevice) -> (r: bool) {
        self.numerical_id == other.numerical_id && self.address == other.address
    }
}

impl vstd::std_specs::cmp::PartialEqSpecImpl for IoTDevice {
    open spec fn obeys_eq_spec() -> bool {
        true
    }

    open spec fn eq_spec(&self, other: &IoTDevice) -> bool {
        self.numerical_id == other.numerical_id && self.address@ == other.address@
    }
}

} // verus!
