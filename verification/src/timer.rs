//! The HPET, and the arithmetic that calibrates the local APIC timer
//! against it.

use crate::acpi::AcpiInfo;
use crate::mmio::{RegWrite, RegisterWindow};
use vstd::prelude::*;

verus! {

// HPET register offsets in bytes
pub const HPET_GEN_CAPAB: usize = 0x0;

pub const HPET_GEN_CONFIG: usize = 0x10;

pub const HPET_MAIN_COUNTER_VALUE: usize = 0xF0;

/// Number of calibration runs whose results are averaged.
pub const APIC_TIMER_NUM_CALIBRATIONS: u32 = 5;

/// Femtoseconds in a second.
pub const FS_PER_SECOND: u64 = 1_000_000_000_000_000;

/// Femtoseconds in 10 milliseconds.
pub const FS_PER_10_MS: u64 = 10_000_000_000_000;

/// The HPET, seen through its register window.
pub struct Hpet {
    window: RegisterWindow,
}

impl Hpet {
    /// The register window.
    pub closed spec fn window(&self) -> RegisterWindow {
        self.window
    }

    /// The register window has a value for every register.
    pub open spec fn wf(&self) -> bool {
        self.window().wf()
    }

    /// The HPET of the machine, whose registers are mapped at their
    /// physical address plus `hhdm_offset`.
    pub fn new(acpi_info: &AcpiInfo, hhdm_offset: usize) -> (hpet: Self)
        requires
            acpi_info.hpet_base_address + hhdm_offset <= usize::MAX,
        ensures
            hpet.wf(),
            hpet.window().base_addr() == acpi_info.hpet_base_address + hhdm_offset,
            hpet.window().log() == Seq::<RegWrite>::empty(),
    {
        Hpet { window: RegisterWindow::new(acpi_info.hpet_base_address + hhdm_offset) }
    }

    /// Address of the register window.
    pub fn base_addr(&self) -> (addr: usize)
        ensures
            addr == self.window().base_addr(),
    {
        self.window.base()
    }

    /// Takes in the value that the device has in the register at `offset`.
    pub fn load_reg(&mut self, offset: usize, data: u64)
        requires
            old(self).wf(),
            RegisterWindow::valid_offset(offset as int),
        ensures
            final(self).wf(),
            final(self).window().reg(offset as int) == data,
            final(self).window().log() == old(self).window().log(),
            final(self).window().base_addr() == old(self).window().base_addr(),
    {
        self.window.load_reg(offset, data);
    }

    /// Hands out the writes that are to be carried out on the device,
    /// oldest first.
    pub fn take_writes(&mut self) -> (writes: Vec<RegWrite>)
        requires
            old(self).wf(),
        ensures
            final(self).wf(),
            writes@ == old(self).window().log(),
            final(self).window().log() == Seq::<RegWrite>::empty(),
    {
        self.window.take_writes()
    }

    /// Stops the counter. This also switches legacy replacement interrupt
    /// mapping off.
    pub fn disable(&mut self)
        requires
            old(self).wf(),
        ensures
            final(self).wf(),
            old(self).window().written(&final(self).window(), HPET_GEN_CONFIG as int, 0),
    {
        self.window.write_reg(HPET_GEN_CONFIG, 0);
    }

    /// Starts the counter.
    pub fn enable(&mut self)
        requires
            old(self).wf(),
        ensures
            final(self).wf(),
            old(self).window().written(&final(self).window(), HPET_GEN_CONFIG as int, 1),
    {
        self.window.write_reg(HPET_GEN_CONFIG, 1);
    }

    /// Timer period in femtoseconds: the upper half of the capabilities
    /// register.
    pub fn period_fs(&self) -> (period: u64)
        requires
            self.wf(),
        ensures
            period == self.window().reg(HPET_GEN_CAPAB as int) >> 32,
    {
        self.window.read_reg(HPET_GEN_CAPAB) >> 32
    }

    /// Sets the main counter.
    pub fn set_counter_value(&mut self, val: u64)
        requires
            old(self).wf(),
        ensures
            final(self).wf(),
            old(self).window().written(&final(self).window(), HPET_MAIN_COUNTER_VALUE as int, val),
    {
        self.window.write_reg(HPET_MAIN_COUNTER_VALUE, val);
    }

    /// The main counter.
    pub fn counter_value(&self) -> (val: u64)
        requires
            self.wf(),
        ensures
            val == self.window().reg(HPET_MAIN_COUNTER_VALUE as int),
    {
        self.window.read_reg(HPET_MAIN_COUNTER_VALUE)
    }
}

/// What calibrating the local APIC timer against the HPET comes to.
pub struct TimerCalibration {
    /// Frequency of the HPET in Hz.
    pub hpet_freq: u64,
    /// Number of HPET ticks in 10 milliseconds.
    pub num_hpet_ticks: u64,
}

/// Starts the calibration of the local APIC timer: stops the HPET, and
/// works out from its period its frequency and the number of its ticks
/// that make up 10 milliseconds.
pub fn init(hpet: &mut Hpet) -> (r: TimerCalibration)
    requires
        old(hpet).wf(),
        old(hpet).window().reg(HPET_GEN_CAPAB as int) >> 32 != 0,
    ensures
        final(hpet).wf(),
        old(hpet).window().written(&final(hpet).window(), HPET_GEN_CONFIG as int, 0),
        r.hpet_freq == FS_PER_SECOND / (old(hpet).window().reg(HPET_GEN_CAPAB as int) >> 32),
        r.num_hpet_ticks == FS_PER_10_MS / (old(hpet).window().reg(HPET_GEN_CAPAB as int) >> 32),
{
    let hpet_period = hpet.period_fs();
    hpet.disable();
    // 1 fs = 10^-15 s
    let hpet_freq = FS_PER_SECOND / hpet_period;
    // Calculate the number of HPET ticks that correspond to a 10 millisecond delay
    let num_hpet_ticks = FS_PER_10_MS / hpet_period;
    TimerCalibration { hpet_freq, num_hpet_ticks }
}

/// Number of local APIC timer ticks that have passed since the timer was
/// started at its highest count, given its current count.
pub fn apic_ticks_elapsed(current_count: u32) -> (ticks: u32)
    ensures
        ticks == u32::MAX - current_count,
{
    u32::MAX - current_count
}

/// Sum of the first `n` samples.
pub open spec fn sum_of(samples: Seq<u32>, n: nat) -> nat
    decreases n,
{
    if n == 0 || n > samples.len() {
        0
    } else {
        sum_of(samples, (n - 1) as nat) + samples[n - 1] as nat
    }
}

/// Frequency of the local APIC timer in Hz, from the tick counts of
/// calibration runs of 10 milliseconds each: their average, times 1000.
pub fn apic_timer_frequency(samples: &Vec<u32>) -> (freq: u64)
    requires
        samples@.len() == APIC_TIMER_NUM_CALIBRATIONS,
    ensures
        freq == (sum_of(samples@, samples@.len()) / (APIC_TIMER_NUM_CALIBRATIONS as nat)) * 1000,
{
    let mut apic_timer_ticks: u64 = 0;
    let mut i: usize = 0;
    while i < samples.len()
        invariant
            i <= samples@.len(),
            samples@.len() == 5,
            apic_timer_ticks == sum_of(samples@, i as nat),
            apic_timer_ticks <= i * 0xffff_ffff,
        decreases samples@.len() - i,
    {
        apic_timer_ticks = apic_timer_ticks + samples[i] as u64;
        i = i + 1;
    }
    apic_timer_ticks = apic_timer_ticks / 5;
    // We had apic_timer_ticks ticks in 10 ms (= 10^-2 s)
    apic_timer_ticks * 1000
}

/// A frequency in MHz, as its whole part and its first two decimals.
pub fn print_mhz(freq: u64) -> (r: (u64, u64))
    ensures
        r.0 == freq / 1_000_000,
        r.1 == (freq % 1_000_000) / 10_000,
        r.1 < 100,
{
    let freq_mhz = freq / 1_000_000;
    let freq_mhz_decimal = (freq - freq_mhz * 1_000_000) / 10_000;  // 2 decimal places
    (freq_mhz, freq_mhz_decimal)
}

} // verus!
