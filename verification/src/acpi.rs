//! Mapping of firmware table regions.
//!
//! The firmware's tables live in physical memory.  Reading them needs
//! no page-table work here: all physical memory is already reachable
//! at the boot-time offset, so mapping a physical region is the same
//! offset translation the rest of the kernel uses, and unmapping is a
//! no-op.

use vstd::prelude::*;

verus! {

/// Resolves physical firmware-table regions through the boot-time
/// physical-memory offset.
#[derive(Copy, Clone)]
pub struct AcpiMapper {
    /// The process-wide physical-to-virtual offset.
    pub physical_memory_offset: u64,
}

impl AcpiMapper {
    /// The virtual address at which a mapped physical region starts:
    /// the physical address plus the boot-time offset.
    pub fn virtual_start_of(&self, physical_address: u64) -> (r: u64)
        requires
            self.physical_memory_offset + physical_address <= u64::MAX,
        ensures
            r == self.physical_memory_offset + physical_address,
    {
        self.physical_memory_offset + physical_address
    }
}

} // verus!
