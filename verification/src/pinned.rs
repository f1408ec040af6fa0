//! The host end of the disk-to-device lane: pinned pages, where a device is
//! there to pin them for.

use vstd::prelude::*;

use crate::knobs;

verus! {

/// How many host buffers are pinned.
#[derive(Clone, Copy, Debug, PartialEq, Eq, Structural)]
pub struct PinStats {
    /// Buffers pinned now.
    pub buffers: usize,
    /// Their bytes.
    pub bytes: u64,
    /// Registrations the driver refused.
    pub declined: usize,
    /// Buffers ever pinned.
    pub ever: usize,
}

impl Default for PinStats {
    fn default() -> (s: PinStats)
        ensures
            s == (PinStats { buffers: 0, bytes: 0, declined: 0, ever: 0 }),
    {
        PinStats { buffers: 0, bytes: 0, declined: 0, ever: 0 }
    }
}

/// The pinning counters of a build without a device: nothing is ever pinned.
pub fn stats() -> (s: PinStats)
    ensures
        s == (PinStats { buffers: 0, bytes: 0, declined: 0, ever: 0 }),
{
    PinStats::default()
}

/// Whether the pinned lane is wanted: unless the setting turns it off.
pub fn enabled(value: Option<&str>) -> (b: bool)
    ensures
        b == !knobs::says_off(knobs::setting(value)),
{
    knobs::not_opted_out(value)
}

/// Installs the pinned lane in a build without a device: there is nothing to pin
/// for, so it never becomes active.
pub fn install() -> (active: bool)
    ensures
        !active,
{
    false
}

/// Whether the pinned lane is active in a build with a device: it is wanted, the
/// device is there, and the allocator has its hook, whoever set it.
pub fn lane_active(wanted: bool, device: bool, hooked: bool) -> (active: bool)
    ensures
        active == (wanted && device && hooked),
{
    wanted && device && hooked
}

} // verus!
