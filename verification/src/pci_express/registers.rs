//! Locations of the configuration-region header registers, and
//! extraction of a register's value from a configuration word.

use bit_field::BitField;
use core::ops::RangeInclusive;
use vstd::prelude::*;

verus! {

/// A register of the PCI configuration-region header.
pub enum ConfigRegionHeaderRegister {
    /// Identifies the device's vendor.
    VendorId,
    /// Identifies the device itself.
    DeviceId,
    /// Controls the device's ability to respond to accesses.
    Command,
    /// Reports the device's status.
    Status,
    /// Revision of the device.
    RevisionId,
    /// Register-level programming interface.
    ProgrammingInterface,
    /// Sub-class of the device's function.
    SubClass,
    /// Class of the device's function.
    ClassCode,
    /// System cache line size.
    CacheLineSize,
    /// Latency timer in bus clocks.
    LatencyTimer,
    /// Layout of the rest of the header.
    HeaderType,
    /// Built-in self test.
    BIST,
    /// First base address register.
    Bar0,
    /// Second base address register.
    Bar1,
    /// Third base address register.
    Bar2,
    /// Fourth base address register.
    Bar3,
    /// Fifth base address register.
    Bar4,
    /// Sixth base address register.
    Bar5,
    /// Points to the CardBus card information structure.
    CardBusCISPointer,
    /// Identifies the subsystem's vendor.
    SubsystemVendorId,
    /// Identifies the subsystem.
    SubsystemId,
    /// Base address of the expansion ROM.
    ExpansionROMBaseAddress,
    /// Offset of the capabilities list.
    CapabilitiesPointer,
    /// Interrupt line routing information.
    InterruptLine,
    /// Interrupt pin the device uses.
    InterruptPIN,
    /// Burst period needed, in quarter microseconds.
    MinGrant,
    /// How often the device needs the bus, in quarter microseconds.
    MaxLatency,
}

/// Where a register lives: the byte offset of its 32-bit word in the
/// configuration-region header, and the first and last bit of the
/// register within that word.
pub open spec fn register_location(r: ConfigRegionHeaderRegister) -> (u8, usize, usize) {
    match r {
        ConfigRegionHeaderRegister::VendorId => (0x00, 0, 15),
        ConfigRegionHeaderRegister::DeviceId => (0x00, 16, 31),
        ConfigRegionHeaderRegister::Command => (0x04, 0, 15),
        ConfigRegionHeaderRegister::Status => (0x04, 16, 31),
        ConfigRegionHeaderRegister::RevisionId => (0x08, 0, 7),
        ConfigRegionHeaderRegister::ProgrammingInterface => (0x08, 8, 15),
        ConfigRegionHeaderRegister::SubClass => (0x08, 16, 23),
        ConfigRegionHeaderRegister::ClassCode => (0x08, 24, 31),
        ConfigRegionHeaderRegister::CacheLineSize => (0x0C, 0, 7),
        ConfigRegionHeaderRegister::LatencyTimer => (0x0C, 8, 15),
        ConfigRegionHeaderRegister::HeaderType => (0x0C, 16, 23),
        ConfigRegionHeaderRegister::BIST => (0x0C, 24, 31),
        ConfigRegionHeaderRegister::Bar0 => (0x10, 0, 31),
        ConfigRegionHeaderRegister::Bar1 => (0x14, 0, 31),
        ConfigRegionHeaderRegister::Bar2 => (0x18, 0, 31),
        ConfigRegionHeaderRegister::Bar3 => (0x1C, 0, 31),
        ConfigRegionHeaderRegister::Bar4 => (0x20, 0, 31),
        ConfigRegionHeaderRegister::Bar5 => (0x24, 0, 31),
        ConfigRegionHeaderRegister::CardBusCISPointer => (0x28, 0, 31),
        ConfigRegionHeaderRegister::SubsystemVendorId => (0x2C, 0, 15),
        ConfigRegionHeaderRegister::SubsystemId => (0x2C, 16, 31),
        ConfigRegionHeaderRegister::ExpansionROMBaseAddress => (0x30, 0, 31),
        ConfigRegionHeaderRegister::CapabilitiesPointer => (0x34, 0, 7),
        ConfigRegionHeaderRegister::InterruptLine => (0x3C, 0, 7),
        ConfigRegionHeaderRegister::InterruptPIN => (0x3C, 8, 15),
        ConfigRegionHeaderRegister::MinGrant => (0x3C, 16, 23),
        ConfigRegionHeaderRegister::MaxLatency => (0x3C, 24, 31),
    }
}

/// The bits of `value` in positions `start..=end`, moved down to the
/// low bits: the word is first cleared above `end`, then shifted down
/// by `start`.
pub open spec fn bits_in_range(value: u32, start: nat, end: nat) -> u32
    recommends
        start <= end < 32,
{
    ((value << ((31 - end) as u32)) >> ((31 - end) as u32)) >> (start as u32)
}

impl ConfigRegionHeaderRegister {
    /// The register's word offset and bit positions as plain values.
    pub fn register_bits(&self) -> (r: (u8, usize, usize))
        ensures
            r == register_location(*self),
            r.1 <= r.2 < 32,
    {
        match self {
            ConfigRegionHeaderRegister::VendorId => (0x00, 0, 15),
            ConfigRegionHeaderRegister::DeviceId => (0x00, 16, 31),
            ConfigRegionHeaderRegister::Command => (0x04, 0, 15),
            ConfigRegionHeaderRegister::Status => (0x04, 16, 31),
            ConfigRegionHeaderRegister::RevisionId => (0x08, 0, 7),
            ConfigRegionHeaderRegister::ProgrammingInterface => (0x08, 8, 15),
            ConfigRegionHeaderRegister::SubClass => (0x08, 16, 23),
            ConfigRegionHeaderRegister::ClassCode => (0x08, 24, 31),
            ConfigRegionHeaderRegister::CacheLineSize => (0x0C, 0, 7),
            ConfigRegionHeaderRegister::LatencyTimer => (0x0C, 8, 15),
            ConfigRegionHeaderRegister::HeaderType => (0x0C, 16, 23),
            ConfigRegionHeaderRegister::BIST => (0x0C, 24, 31),
            ConfigRegionHeaderRegister::Bar0 => (0x10, 0, 31),
            ConfigRegionHeaderRegister::Bar1 => (0x14, 0, 31),
            ConfigRegionHeaderRegister::Bar2 => (0x18, 0, 31),
            ConfigRegionHeaderRegister::Bar3 => (0x1C, 0, 31),
            ConfigRegionHeaderRegister::Bar4 => (0x20, 0, 31),
            ConfigRegionHeaderRegister::Bar5 => (0x24, 0, 31),
            ConfigRegionHeaderRegister::CardBusCISPointer => (0x28, 0, 31),
            ConfigRegionHeaderRegister::SubsystemVendorId => (0x2C, 0, 15),
            ConfigRegionHeaderRegister::SubsystemId => (0x2C, 16, 31),
            ConfigRegionHeaderRegister::ExpansionROMBaseAddress => (0x30, 0, 31),
            ConfigRegionHeaderRegister::CapabilitiesPointer => (0x34, 0, 7),
            ConfigRegionHeaderRegister::InterruptLine => (0x3C, 0, 7),
            ConfigRegionHeaderRegister::InterruptPIN => (0x3C, 8, 15),
            ConfigRegionHeaderRegister::MinGrant => (0x3C, 16, 23),
            ConfigRegionHeaderRegister::MaxLatency => (0x3C, 24, 31),
        }
    }

    /// The register's byte offset and the inclusive range of its bits
    /// within the 32-bit word at that offset.
    pub fn register_location_info(&self) -> (r: (u8, RangeInclusive<usize>))
        ensures
            r.0 == register_location(*self).0,
            r.1@.start == register_location(*self).1,
            r.1@.end == register_location(*self).2,
            !r.1@.exhausted,
    {
        let (offset, start, end) = self.register_bits();
        (offset, RangeInclusive::new(start, end))
    }
}

/// The value of one configuration register, cut out of the 32-bit
/// word read at the register's byte offset.
pub fn extract_register_value(word: u32, register: &ConfigRegionHeaderRegister) -> (r: u32)
    ensures
        r == bits_in_range(
            word,
            register_location(*register).1 as nat,
            register_location(*register).2 as nat,
        ),
{
    let (_, start, end) = register.register_bits();
    get_bits_u32(word, start, end)
}

/// Relies on bit_field's `BitField` implementation for `u32`: within
/// bounds, `get_bits` over the inclusive range clears the word above
/// `end` and shifts it down by `start`.
#[verifier::external_body]
fn get_bits_u32(value: u32, start: usize, end: usize) -> (r: u32)
    requires
        start <= end < 32,
    ensures
        r == bits_in_range(value, start as nat, end as nat),
{
    value.get_bits(RangeInclusive::new(start, end))
}

} // verus!
