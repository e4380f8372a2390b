use kernel_core::acpi::AcpiInfo;
use kernel_core::cpu_info::CpuInfo;
use kernel_core::interrupt::{
    IsrData, LocalApic, LOCAL_APIC_END_OF_INTERRUPT, LOCAL_APIC_ERROR_STATUS, LOCAL_APIC_ID,
    LOCAL_APIC_SPURIOUS_VECTOR, LOCAL_APIC_TASK_PRIORITY, LOCAL_APIC_TIMER_CURRENT_COUNT,
    LOCAL_APIC_TIMER_DIVIDE_CONFIG, LOCAL_APIC_TIMER_INITIAL_COUNT, LOCAL_APIC_TIMER_LVT,
};
use kernel_core::mmio::{RegWrite, RegisterWindow};
use kernel_core::timer::{
    apic_ticks_elapsed, apic_timer_frequency, init, print_mhz, Hpet, HPET_GEN_CAPAB, HPET_GEN_CONFIG,
    HPET_MAIN_COUNTER_VALUE,
};

fn acpi_info() -> AcpiInfo {
    AcpiInfo { supports_8259: true, local_apic_address: 0xfee0_0000, hpet_base_address: 0xfed0_0000 }
}

fn write(offset: usize, value: u64) -> RegWrite {
    RegWrite { offset, value }
}

#[test]
fn test_register_window() {
    let mut window = RegisterWindow::new(0xfee0_0000);
    assert_eq!(window.base(), 0xfee0_0000);
    assert_eq!(window.read_reg(0x20), 0);

    window.write_reg(0x20, 7);
    window.load_reg(0x30, 9);
    window.write_reg(0x3fc, 1);
    assert_eq!(window.read_reg(0x20), 7);
    assert_eq!(window.read_reg(0x30), 9);
    assert_eq!(window.read_reg(0x3fc), 1);

    // Loads are not logged
    assert_eq!(window.take_writes(), vec![write(0x20, 7), write(0x3fc, 1)]);
    assert_eq!(window.take_writes(), vec![]);
    assert_eq!(window.read_reg(0x20), 7);
}

#[test]
fn test_local_apic_init() {
    let cpu_info = CpuInfo { local_apic_base: 0xfee0_0000 };
    let mut apic = LocalApic::new(&cpu_info, 0xffff_8000_0000_0000);
    assert_eq!(apic.base_addr(), 0xffff_8000_fee0_0000);
    apic.init();
    assert_eq!(
        apic.take_writes(),
        vec![
            write(LOCAL_APIC_END_OF_INTERRUPT, 0),
            write(LOCAL_APIC_ERROR_STATUS, 0),
            write(LOCAL_APIC_TASK_PRIORITY, 1 << 4),
            write(LOCAL_APIC_TIMER_INITIAL_COUNT, 0),
            write(LOCAL_APIC_TIMER_DIVIDE_CONFIG, 0b11),
            write(LOCAL_APIC_TIMER_LVT, 1 << 17 | 32),
            write(LOCAL_APIC_SPURIOUS_VECTOR, 255 | 1 << 8),
        ]
    );
    assert_eq!(apic.read_reg(LOCAL_APIC_TIMER_LVT), 0x2_0020);
}

#[test]
fn test_local_apic_registers() {
    let mut apic = LocalApic::dummy();
    apic.load_reg(LOCAL_APIC_ID, 0x0300_0000);
    apic.load_reg(LOCAL_APIC_TIMER_CURRENT_COUNT, 12345);
    assert_eq!(apic.id(), 0x0300_0000);
    assert_eq!(apic.timer_current_count(), 12345);

    // The mask bit of the timer LVT is cleared, the other bits stay
    apic.load_reg(LOCAL_APIC_TIMER_LVT, 0x3_0020);
    apic.enable_interrupts();
    apic.end_of_interrupt();
    apic.timer_enable(u32::MAX);
    apic.timer_disable();
    assert_eq!(
        apic.take_writes(),
        vec![
            write(LOCAL_APIC_TIMER_LVT, 0x2_0020),
            write(LOCAL_APIC_END_OF_INTERRUPT, 0),
            write(LOCAL_APIC_TIMER_INITIAL_COUNT, u32::MAX as u64),
            write(LOCAL_APIC_TIMER_INITIAL_COUNT, 0),
        ]
    );
}

#[test]
fn test_isr_data_dummy() {
    let mut data = IsrData::dummy();
    data.local_apic.end_of_interrupt();
    assert_eq!(data.local_apic.take_writes(), vec![write(LOCAL_APIC_END_OF_INTERRUPT, 0)]);
}

#[test]
fn test_hpet_registers() {
    let mut hpet = Hpet::new(&acpi_info(), 0x1000);
    assert_eq!(hpet.base_addr(), 0xfed0_1000);
    // A period of 10 ns in the upper half of the capabilities register
    hpet.load_reg(HPET_GEN_CAPAB, (10_000_000u64 << 32) | 0x8086_a201);
    hpet.load_reg(HPET_MAIN_COUNTER_VALUE, 777);
    assert_eq!(hpet.period_fs(), 10_000_000);
    assert_eq!(hpet.counter_value(), 777);

    hpet.disable();
    hpet.set_counter_value(0);
    hpet.enable();
    assert_eq!(hpet.counter_value(), 0);
    assert_eq!(
        hpet.take_writes(),
        vec![write(HPET_GEN_CONFIG, 0), write(HPET_MAIN_COUNTER_VALUE, 0), write(HPET_GEN_CONFIG, 1)]
    );
}

#[test]
fn test_timer_calibration_arithmetic() {
    let mut hpet = Hpet::new(&acpi_info(), 0);
    hpet.load_reg(HPET_GEN_CAPAB, 69_841_279u64 << 32);
    let calibration = init(&mut hpet);
    // 14.318 MHz
    assert_eq!(calibration.hpet_freq, 14_318_179);
    assert_eq!(calibration.num_hpet_ticks, 143_181);
    assert_eq!(hpet.take_writes(), vec![write(HPET_GEN_CONFIG, 0)]);

    assert_eq!(apic_ticks_elapsed(u32::MAX), 0);
    assert_eq!(apic_ticks_elapsed(u32::MAX - 625_000), 625_000);
    assert_eq!(apic_ticks_elapsed(0), u32::MAX);

    let samples = vec![625_000u32, 625_010, 624_990, 625_004, 624_999];
    assert_eq!(apic_timer_frequency(&samples), 625_000_000);
    let samples = vec![u32::MAX; 5];
    assert_eq!(apic_timer_frequency(&samples), u32::MAX as u64 * 1000);

    assert_eq!(print_mhz(14_318_179), (14, 31));
    assert_eq!(print_mhz(625_000_000), (625, 0));
    assert_eq!(print_mhz(999_999), (0, 99));
}
