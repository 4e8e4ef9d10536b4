//! One-time physical-to-virtual address translation.
//!
//! At boot the firmware maps all physical memory at a fixed virtual
//! offset and reports that offset once.  Every subsystem that needs to
//! reach a hardware register or firmware table afterwards adds the same
//! offset to a physical address.  The translator is built exactly once,
//! from the reported offset, and never changes.

use vstd::prelude::*;

verus! {

/// Process-wide physical-to-virtual offset, established once at boot.
pub struct AddressTranslator {
    offset: u64,
}

impl AddressTranslator {
    /// The offset this translator was built with.
    pub closed spec fn spec_offset(&self) -> u64 {
        self.offset
    }

    /// Builds the translator from the offset the firmware reported.
    pub fn new(physical_memory_offset: u64) -> (t: AddressTranslator)
        ensures
            t.spec_offset() == physical_memory_offset,
    {
        AddressTranslator { offset: physical_memory_offset }
    }

    /// The virtual address at which the given physical address is
    /// reachable: the physical address plus the boot-time offset.
    pub fn physical_to_virtual(&self, address: u64) -> (r: u64)
        requires
            self.spec_offset() + address <= u64::MAX,
        ensures
            r == self.spec_offset() + address,
    {
        self.offset + address
    }
}

/// Virtual address at which the given physical address is reachable.
pub fn map_physical_to_virtual(translator: &AddressTranslator, address: u64) -> (r: u64)
    requires
        translator.spec_offset() + address <= u64::MAX,
    ensures
        r == translator.spec_offset() + address,
{
    translator.physical_to_virtual(address)
}

/// Virtual address of a writable mapping of the given physical address.
pub fn map_physical_to_virtual_mut(translator: &AddressTranslator, address: u64) -> (r: u64)
    requires
        translator.spec_offset() + address <= u64::MAX,
    ensures
        r == translator.spec_offset() + address,
{
    map_physical_to_virtual(translator, address)
}

/// Virtual address of a readable mapping of the given physical address.
pub fn map_physical_to_virtual_const(translator: &AddressTranslator, address: u64) -> (r: u64)
    requires
        translator.spec_offset() + address <= u64::MAX,
    ensures
        r == translator.spec_offset() + address,
{
    map_physical_to_virtual(translator, address)
}

} // verus!
