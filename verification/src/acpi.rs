//! What the kernel keeps of the ACPI tables.

use vstd::prelude::*;

verus! {

/// Information from the ACPI tables.
#[derive(Clone, Copy, Debug)]
pub struct AcpiInfo {
    /// Whether the machine has legacy interrupt controllers, which are to
    /// be masked.
    pub supports_8259: bool,
    /// Physical address of the local APIC's registers, according to the
    /// interrupt controller table.
    pub local_apic_address: usize,
    /// Physical address of the HPET's registers.
    pub hpet_base_address: usize,
}

} // verus!
