//! What the kernel keeps of what the processor reports about itself.

use vstd::prelude::*;

verus! {

/// Information about the processor.
#[derive(Clone, Copy, Debug)]
pub struct CpuInfo {
    /// Physical address of the local APIC's registers.
    pub local_apic_base: usize,
}

} // verus!
