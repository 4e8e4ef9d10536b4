//! Kernel memory-management core: a buddy block allocator over a fixed
//! arena, a physical-frame source drawn from a firmware memory map, a
//! one-time physical-to-virtual address translator, and the planning step
//! that backs a kernel heap window with frames before the allocator takes
//! over.

pub mod acpi;
pub mod frames;
pub mod heap;
pub mod memory;
pub mod pci_express;
pub mod translate;

pub use frames::FrameSource;
pub use frames::MemoryRegion;
pub use heap::BootError;
pub use heap::MapRequest;
pub use memory::AllocError;
pub use memory::Allocator;
pub use memory::MemoryBlockRegion;
pub use translate::AddressTranslator;
