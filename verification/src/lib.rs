//! Verified core of a small x86_64 kernel: the physical page allocator, the
//! kernel heap layered on top of it, and an ordered map built as a B-tree.

pub mod acpi;
pub mod cpu_info;
pub mod heap;
pub mod interrupt;
pub mod mem;
pub mod mmio;
pub mod ordered_map;
pub mod timer;
