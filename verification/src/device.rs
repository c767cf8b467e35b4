//! A discovered device, as the scanning layer reports it.

use vstd::prelude::*;

verus! {

/// One discovered device: its connection identifier and advertised name.
#[derive(Debug, Clone, PartialEq, Eq)]
pub struct BluetoothDevice {
    pub id: String,
    pub name: String,
}

impl BluetoothDevice {
    pub fn new(id: String, name: String) -> (r: BluetoothDevice)
        ensures
            r.id@ == id@,
            r.name@ == name@,
    {
        BluetoothDevice { id, name }
    }
}

} // verus!
