use kmem::acpi::AcpiMapper;
use kmem::pci_express::registers::{extract_register_value, ConfigRegionHeaderRegister};
use kmem::translate::{
    map_physical_to_virtual_const, map_physical_to_virtual_mut, AddressTranslator,
};

#[test]
fn translation_adds_the_boot_offset() {
    let t = AddressTranslator::new(0xFFFF_8000_0000_0000);
    assert_eq!(t.physical_to_virtual(0), 0xFFFF_8000_0000_0000);
    assert_eq!(t.physical_to_virtual(0xFEE0_0000), 0xFFFF_8000_FEE0_0000);
}

#[test]
fn mutable_and_const_translations_agree() {
    let t = AddressTranslator::new(0x1_0000_0000);
    assert_eq!(map_physical_to_virtual_mut(&t, 0x2000), 0x1_0000_2000);
    assert_eq!(map_physical_to_virtual_const(&t, 0x2000), 0x1_0000_2000);
}

#[test]
fn acpi_mapper_uses_the_same_offset() {
    let h = AcpiMapper { physical_memory_offset: 0x1_0000_0000 };
    assert_eq!(h.virtual_start_of(0xE000_0000), 0x1_E000_0000);
}

#[test]
fn register_locations_match_the_header_layout() {
    let expected: [(ConfigRegionHeaderRegister, u8, usize, usize); 27] = [
        (ConfigRegionHeaderRegister::VendorId, 0x00, 0, 15),
        (ConfigRegionHeaderRegister::DeviceId, 0x00, 16, 31),
        (ConfigRegionHeaderRegister::Command, 0x04, 0, 15),
        (ConfigRegionHeaderRegister::Status, 0x04, 16, 31),
        (ConfigRegionHeaderRegister::RevisionId, 0x08, 0, 7),
        (ConfigRegionHeaderRegister::ProgrammingInterface, 0x08, 8, 15),
        (ConfigRegionHeaderRegister::SubClass, 0x08, 16, 23),
        (ConfigRegionHeaderRegister::ClassCode, 0x08, 24, 31),
        (ConfigRegionHeaderRegister::CacheLineSize, 0x0C, 0, 7),
        (ConfigRegionHeaderRegister::LatencyTimer, 0x0C, 8, 15),
        (ConfigRegionHeaderRegister::HeaderType, 0x0C, 16, 23),
        (ConfigRegionHeaderRegister::BIST, 0x0C, 24, 31),
        (ConfigRegionHeaderRegister::Bar0, 0x10, 0, 31),
        (ConfigRegionHeaderRegister::Bar1, 0x14, 0, 31),
        (ConfigRegionHeaderRegister::Bar2, 0x18, 0, 31),
        (ConfigRegionHeaderRegister::Bar3, 0x1C, 0, 31),
        (ConfigRegionHeaderRegister::Bar4, 0x20, 0, 31),
        (ConfigRegionHeaderRegister::Bar5, 0x24, 0, 31),
        (ConfigRegionHeaderRegister::CardBusCISPointer, 0x28, 0, 31),
        (ConfigRegionHeaderRegister::SubsystemVendorId, 0x2C, 0, 15),
        (ConfigRegionHeaderRegister::SubsystemId, 0x2C, 16, 31),
        (ConfigRegionHeaderRegister::ExpansionROMBaseAddress, 0x30, 0, 31),
        (ConfigRegionHeaderRegister::CapabilitiesPointer, 0x34, 0, 7),
        (ConfigRegionHeaderRegister::InterruptLine, 0x3C, 0, 7),
        (ConfigRegionHeaderRegister::InterruptPIN, 0x3C, 8, 15),
        (ConfigRegionHeaderRegister::MinGrant, 0x3C, 16, 23),
        (ConfigRegionHeaderRegister::MaxLatency, 0x3C, 24, 31),
    ];
    for (register, offset, start, end) in expected {
        let (off, range) = register.register_location_info();
        assert_eq!(off, offset);
        assert_eq!((*range.start(), *range.end()), (start, end));
    }
}

#[test]
fn register_extraction_cuts_the_right_bits() {
    let word: u32 = 0x1234_5678;
    assert_eq!(extract_register_value(word, &ConfigRegionHeaderRegister::VendorId), 0x5678);
    assert_eq!(extract_register_value(word, &ConfigRegionHeaderRegister::DeviceId), 0x1234);
    assert_eq!(extract_register_value(word, &ConfigRegionHeaderRegister::Bar0), 0x1234_5678);
    let word: u32 = 0xAABB_CCDD;
    assert_eq!(
        extract_register_value(word, &ConfigRegionHeaderRegister::CapabilitiesPointer),
        0xDD
    );
    assert_eq!(extract_register_value(word, &ConfigRegionHeaderRegister::InterruptPIN), 0xCC);
    assert_eq!(extract_register_value(word, &ConfigRegionHeaderRegister::MinGrant), 0xBB);
    assert_eq!(extract_register_value(word, &ConfigRegionHeaderRegister::MaxLatency), 0xAA);
}

#[test]
fn header_type_multifunction_bit() {
    // Header-type byte 0x80 marks a multi-function device; the
    // register value carries that bit through.
    let word: u32 = 0x0080_0000;
    let ht = extract_register_value(word, &ConfigRegionHeaderRegister::HeaderType);
    assert_eq!(ht, 0x80);
    assert!(ht & 0x80 != 0);
}
