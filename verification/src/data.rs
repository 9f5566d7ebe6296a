//! What the probes report, and the snapshot of the whole fleet that is made
//! of it.

use std::collections::HashMap;
use vstd::prelude::*;

verus! {

/// The latest state of the fleet: one entry for each host that answered.
#[derive(Debug, Clone)]
pub struct Data {
    pub hosts: Vec<HostData>,
    /// When the refresh that made this snapshot ended, in seconds since the
    /// Unix epoch.
    pub update_time: i64,
}

impl Default for Data {
    /// The snapshot before the first refresh: no host, at time zero.
    fn default() -> (d: Self)
        ensures
            d.hosts@ == Seq::<HostData>::empty(),
            d.update_time == 0,
    {
        Data { hosts: Vec::new(), update_time: 0 }
    }
}

/// What one host reports about itself. A field that the probe could not
/// determine is absent.
#[derive(Debug, Clone, Default)]
pub struct HostData {
    pub hostname: Option<String>,
    /// Where the host is; the server fills this in.
    pub location: Option<String>,
    pub nproc: Option<u8>,
    /// The load averages over 1, 5 and 15 minutes, each as the bit pattern
    /// of an IEEE 754 single-precision number.
    pub uptime: Option<[u32; 3]>,
    pub memory: Option<MemoryData>,
    pub disks: Vec<DiskData>,
    pub power: Option<PowerData>,
    pub network: Option<NetworkData>,
}

/// The memory of a host.
#[derive(Debug, Clone, Default)]
pub struct MemoryData {
    /// In kiB.
    pub total: usize,
    /// In kiB.
    pub used: usize,
}

/// The power that a host draws.
#[derive(Debug, Clone, Default)]
pub struct PowerData {
    /// The power drawn, as the bit pattern of an IEEE 754 single-precision
    /// number.
    pub current: u32,
}

/// One S.M.A.R.T. attribute of a disk.
#[derive(Debug, Clone, Default)]
pub struct Attribute {
    pub value: String,
    pub raw: String,
}

/// One disk of a host.
#[derive(Debug, Clone, Default)]
pub struct DiskData {
    /// In bytes.
    pub size: Option<usize>,
    /// In bytes.
    pub available: Option<usize>,
    /// In bytes.
    pub used: Option<usize>,
    pub mountpoint: String,
    /// The name of the device.
    pub name: String,
    pub model: Option<String>,
    pub attrs: Option<HashMap<String, Attribute>>,
}

/// The traffic and the address of a host.
#[derive(Debug, Clone, Default)]
pub struct NetworkData {
    /// Received, in bytes per second.
    pub rx: Option<usize>,
    /// Sent, in bytes per second.
    pub tx: Option<usize>,
    /// The address by which the host is located.
    pub ip: Option<String>,
}

} // verus!
