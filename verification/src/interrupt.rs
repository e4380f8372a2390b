//! The local APIC: how its registers are programmed.

use crate::cpu_info::CpuInfo;
use crate::mmio::{RegWrite, RegisterWindow};
use vstd::prelude::*;

verus! {

// Local APIC register offsets in bytes
pub const LOCAL_APIC_ID: usize = 0x20;

pub const LOCAL_APIC_TASK_PRIORITY: usize = 0x80;

pub const LOCAL_APIC_END_OF_INTERRUPT: usize = 0xB0;

pub const LOCAL_APIC_SPURIOUS_VECTOR: usize = 0xF0;

pub const LOCAL_APIC_ERROR_STATUS: usize = 0x280;

pub const LOCAL_APIC_TIMER_LVT: usize = 0x320;

pub const LOCAL_APIC_TIMER_INITIAL_COUNT: usize = 0x380;

pub const LOCAL_APIC_TIMER_CURRENT_COUNT: usize = 0x390;

pub const LOCAL_APIC_TIMER_DIVIDE_CONFIG: usize = 0x3E0;

// Interrupt vectors
pub const INTERRUPT_BASE_VECTOR: u8 = 32;

pub const SCHEDULER_TICK_INTERRUPT_VECTOR: u8 = 32;

pub const SPURIOUS_INTERRUPT_VECTOR: u8 = 255;

/// Timer LVT value for periodic mode with the scheduler tick vector.
pub const TIMER_LVT_PERIODIC_TICK: u32 = 0x2_0020;

/// Spurious vector register value: vector 255 with the software enable flag.
pub const SPURIOUS_VECTOR_ENABLED: u32 = 0x1FF;

/// The writes that set the local APIC up, in order.
pub open spec fn init_writes() -> Seq<RegWrite> {
    seq![
        RegWrite { offset: LOCAL_APIC_END_OF_INTERRUPT, value: 0 },
        RegWrite { offset: LOCAL_APIC_ERROR_STATUS, value: 0 },
        RegWrite { offset: LOCAL_APIC_TASK_PRIORITY, value: 0x10 },
        RegWrite { offset: LOCAL_APIC_TIMER_INITIAL_COUNT, value: 0 },
        RegWrite { offset: LOCAL_APIC_TIMER_DIVIDE_CONFIG, value: 0b11 },
        RegWrite { offset: LOCAL_APIC_TIMER_LVT, value: 0x2_0020 },
        RegWrite { offset: LOCAL_APIC_SPURIOUS_VECTOR, value: 0x1FF },
    ]
}

/// The local APIC of a processor, seen through its register window.
pub struct LocalApic {
    window: RegisterWindow,
}

impl LocalApic {
    /// The register window.
    pub closed spec fn window(&self) -> RegisterWindow {
        self.window
    }

    /// The register window has a value for every register.
    pub open spec fn wf(&self) -> bool {
        self.window().wf()
    }

    /// `post` is `self` after the 32-bit register at `offset` was written.
    pub open spec fn written(&self, post: &LocalApic, offset: usize, data: u32) -> bool {
        self.window().written(&post.window(), offset as int, data as u64)
    }

    /// A local APIC at address zero, to stand in until the real one is known.
    pub fn dummy() -> (apic: Self)
        ensures
            apic.wf(),
            apic.window().base_addr() == 0,
            apic.window().log() == Seq::<RegWrite>::empty(),
    {
        LocalApic { window: RegisterWindow::new(0) }
    }

    /// The local APIC of the processor, whose registers are mapped at
    /// their physical address plus `hhdm_offset`.
    pub fn new(cpu_info: &CpuInfo, hhdm_offset: usize) -> (apic: Self)
        requires
            cpu_info.local_apic_base + hhdm_offset <= usize::MAX,
        ensures
            apic.wf(),
            apic.window().base_addr() == cpu_info.local_apic_base + hhdm_offset,
            apic.window().log() == Seq::<RegWrite>::empty(),
    {
        LocalApic { window: RegisterWindow::new(cpu_info.local_apic_base + hhdm_offset) }
    }

    /// Address of the register window.
    pub fn base_addr(&self) -> (addr: usize)
        ensures
            addr == self.window().base_addr(),
    {
        self.window.base()
    }

    /// The value of the 32-bit register at `offset`.
    pub fn read_reg(&self, offset: usize) -> (data: u32)
        requires
            self.wf(),
            RegisterWindow::valid_offset(offset as int),
        ensures
            data == self.window().reg(offset as int) & 0xffff_ffff,
    {
        low_word(self.window.read_reg(offset))
    }

    /// Writes the 32-bit register at `offset`.
    pub fn write_reg(&mut self, offset: usize, data: u32)
        requires
            old(self).wf(),
            RegisterWindow::valid_offset(offset as int),
        ensures
            final(self).wf(),
            old(self).written(final(self), offset, data),
    {
        self.window.write_reg(offset, widen(data));
    }

    /// Takes in the value that the device has in the register at `offset`.
    pub fn load_reg(&mut self, offset: usize, data: u32)
        requires
            old(self).wf(),
            RegisterWindow::valid_offset(offset as int),
        ensures
            final(self).wf(),
            final(self).window().reg(offset as int) == data,
            final(self).window().log() == old(self).window().log(),
            final(self).window().base_addr() == old(self).window().base_addr(),
    {
        self.window.load_reg(offset, widen(data));
    }

    /// Hands out the writes that are to be carried out on the device,
    /// oldest first.
    pub fn take_writes(&mut self) -> (writes: Vec<RegWrite>)
        requires
            old(self).wf(),
        ensures
            final(self).wf(),
            writes@ == old(self).window().log(),
            final(self).window().log() == Seq::<RegWrite>::empty(),
    {
        self.window.take_writes()
    }

    /// The local APIC's ID register.
    pub fn id(&self) -> (id: u32)
        requires
            self.wf(),
        ensures
            id == self.window().reg(LOCAL_APIC_ID as int) & 0xffff_ffff,
    {
        self.read_reg(LOCAL_APIC_ID)
    }

    /// Sets the local APIC up: pending interrupts are acknowledged and the
    /// error status is cleared; the task priority lets every vector from
    /// 32 on through; the timer is stopped, divides by 16 and is put in
    /// periodic mode on the scheduler tick vector; the spurious vector is
    /// 255, and the APIC is enabled.
    pub fn init(&mut self)
        requires
            old(self).wf(),
        ensures
            final(self).wf(),
            final(self).window().base_addr() == old(self).window().base_addr(),
            final(self).window().log() == old(self).window().log() + init_writes(),
            final(self).window().reg(LOCAL_APIC_TASK_PRIORITY as int) == 0x10,
            final(self).window().reg(LOCAL_APIC_TIMER_INITIAL_COUNT as int) == 0,
            final(self).window().reg(LOCAL_APIC_TIMER_DIVIDE_CONFIG as int) == 0b11,
            final(self).window().reg(LOCAL_APIC_TIMER_LVT as int) == TIMER_LVT_PERIODIC_TICK,
            final(self).window().reg(LOCAL_APIC_SPURIOUS_VECTOR as int) == SPURIOUS_VECTOR_ENABLED,
    {
        // Reset some APIC state
        self.write_reg(LOCAL_APIC_END_OF_INTERRUPT, 0);  // Ack any interrupts already requested
        self.write_reg(LOCAL_APIC_ERROR_STATUS, 0);  // Clear error status register
        // Set the task priority register to accept all vectors except 0-31
        // which may be confused for exceptions
        // This sets the interrupt priority class = 1, sub class = 0
        self.write_reg(LOCAL_APIC_TASK_PRIORITY, 0x10);
        // Setup APIC timer
        self.write_reg(LOCAL_APIC_TIMER_INITIAL_COUNT, 0);  // Disable timer
        self.write_reg(LOCAL_APIC_TIMER_DIVIDE_CONFIG, 0b11);  // Frequency divisor = 16
        // Timer mode = periodic; the APIC timer gives the scheduler ticks
        self.write_reg(LOCAL_APIC_TIMER_LVT, TIMER_LVT_PERIODIC_TICK);
        // Setup spurious vector register
        // Also start the APIC with the software enable flag
        self.write_reg(LOCAL_APIC_SPURIOUS_VECTOR, SPURIOUS_VECTOR_ENABLED);
        proof {
            assert(self.window().log() =~= old(self).window().log() + init_writes());
        }
    }

    /// Lets timer interrupts through: clears the mask bit in the timer LVT.
    pub fn enable_interrupts(&mut self)
        requires
            old(self).wf(),
        ensures
            final(self).wf(),
            old(self).written(
                final(self),
                LOCAL_APIC_TIMER_LVT,
                ((old(self).window().reg(LOCAL_APIC_TIMER_LVT as int) & 0xffff_ffff) as u32) & !(
                1u32 << 16),
            ),
    {
        let lvt = self.read_reg(LOCAL_APIC_TIMER_LVT);
        self.write_reg(LOCAL_APIC_TIMER_LVT, lvt & !(1u32 << 16));
    }

    /// Signals the end of the interrupt that is being served.
    pub fn end_of_interrupt(&mut self)
        requires
            old(self).wf(),
        ensures
            final(self).wf(),
            old(self).written(final(self), LOCAL_APIC_END_OF_INTERRUPT, 0),
    {
        self.write_reg(LOCAL_APIC_END_OF_INTERRUPT, 0);
    }

    /// Starts the timer at `initial_count`, which is not zero.
    pub fn timer_enable(&mut self, initial_count: u32)
        requires
            old(self).wf(),
            initial_count != 0,
        ensures
            final(self).wf(),
            old(self).written(final(self), LOCAL_APIC_TIMER_INITIAL_COUNT, initial_count),
    {
        self.write_reg(LOCAL_APIC_TIMER_INITIAL_COUNT, initial_count);
    }

    /// Stops the timer.
    pub fn timer_disable(&mut self)
        requires
            old(self).wf(),
        ensures
            final(self).wf(),
            old(self).written(final(self), LOCAL_APIC_TIMER_INITIAL_COUNT, 0),
    {
        self.write_reg(LOCAL_APIC_TIMER_INITIAL_COUNT, 0);
    }

    /// The timer's current count.
    pub fn timer_current_count(&self) -> (count: u32)
        requires
            self.wf(),
        ensures
            count == self.window().reg(LOCAL_APIC_TIMER_CURRENT_COUNT as int) & 0xffff_ffff,
    {
        self.read_reg(LOCAL_APIC_TIMER_CURRENT_COUNT)
    }
}

/// Data used by interrupt service routines.
pub struct IsrData {
    pub local_apic: LocalApic,
}

impl IsrData {
    /// Data with a stand-in local APIC, to be replaced once interrupts
    /// are set up.
    pub fn dummy() -> (data: Self)
        ensures
            data.local_apic.wf(),
            data.local_apic.window().base_addr() == 0,
    {
        IsrData { local_apic: LocalApic::dummy() }
    }
}

/// The low 32 bits of a register value.
fn low_word(value: u64) -> (r: u32)
    ensures
        r == value & 0xffff_ffff,
{
    assert(value & 0xffff_ffff <= 0xffff_ffff) by (bit_vector);
    (value & 0xffff_ffff) as u32
}

/// A 32-bit value as a register value.
fn widen(value: u32) -> (r: u64)
    ensures
        r == value,
{
    value as u64
}

} // verus!
