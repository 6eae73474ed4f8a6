use kernel_core::pit::{
    command_word, count_from_bytes, divisor_bytes, pit_divisor, AccessMode, Channel, OperatingMode,
};
use kernel_core::lapic::{
    calibrated_init_count, id_flip_matches, lvt_masked, lvt_periodic, ticks_per_10ms,
    version_plausible, RegisterOffset,
};
use kernel_core::ioapic::{redirection_high, redirection_low, IoApic, REDIR_DISABLED, REDIR_NONE};
use kernel_core::lapic::{id_probe_words, verify, version_probe_word, Error};
use kernel_core::serial::Serial;
use kernel_core::time::Ticks;

#[test]
fn pit_programs_100_hz() {
    // the 10 ms calibration window: 1_193_182 / 100
    assert_eq!(pit_divisor(100), Some(11931));
    assert_eq!(pit_divisor(1), None);
    assert_eq!(pit_divisor(19), Some(62799));
    let (lo, hi) = divisor_bytes(11931);
    assert_eq!(count_from_bytes(lo, hi), 11931);
    assert_eq!(Channel::Channel0.port(), 0x40);
    assert_eq!(Channel::Channel2.port(), 0x42);
    // channel 0, low-then-high bytes, interrupt on terminal count
    assert_eq!(
        command_word(Channel::Channel0, AccessMode::LoHiByte, OperatingMode::InterruptOnTerminalCount),
        0b0011_0000
    );
}

#[test]
fn lapic_calibration_math() {
    // PIT at 100 Hz, initial count all-ones, divider 16: a positive
    // count of elapsed ticks scales to ticks per second
    let counted = ticks_per_10ms(0xFFFF_0000);
    assert_eq!(counted, 0xFFFF);
    let per_s = (counted as u64) * 100;
    assert!(per_s > 0);
    assert_eq!(calibrated_init_count(counted, 1000), 0xFFFF * 100 / 1000);
    assert_eq!(lvt_masked(), 0x10000);
    assert_eq!(lvt_periodic(0x20), 0x20020);
    assert_eq!(RegisterOffset::LVTTimer.offset(), 0x320);
    assert!(!RegisterOffset::EndOfInterrupt.can_read());
    assert!(!RegisterOffset::CurrentCount.can_write());
    assert!(RegisterOffset::ID.can_write());
    assert!(version_plausible(0x0005_0014));
    assert!(!version_plausible(0x0005_00ff));
    assert!(id_flip_matches(0x0100_0000, 0xFE00_0000));
}

#[test]
fn ioapic_redirection_words() {
    assert_eq!(redirection_low(4, REDIR_NONE), 36);
    assert_eq!(redirection_low(0, REDIR_DISABLED), 0x0001_0020);
    assert_eq!(redirection_high(1), 0x0100_0000);
    let io = IoApic::new(0x0017_0011);
    assert_eq!(io.supported, 0x18);
    let prog = io.disable_all();
    assert_eq!(prog.len(), 2 * 0x18);
    assert_eq!(prog[0], (0x10, 0x0001_0020));
    assert_eq!(prog[1], (0x11, 0));
    let ((lo_reg, lo), (hi_reg, hi)) = io.enable(4, 0);
    assert_eq!((lo_reg, lo), (0x18, 36));
    assert_eq!((hi_reg, hi), (0x19, 0));
}

#[test]
fn serial_echo() {
    let s = Serial::new(0x3F8);
    let echoed = s.handle_interrupt(&vec![0x7f, b'\r', b'\n', b'x']);
    assert_eq!(echoed, vec![0x08, 0x20, 0x08, 0x0d, 0x0a, 0x0d, 0x0a, b'x']);
    assert!(s.loopback_ok(0xAE).is_ok());
    assert!(s.loopback_ok(0xAF).is_err());
}

#[test]
fn ticks_monotonic() {
    let mut t = Ticks::new();
    assert_eq!(t.get(), 0);
    t.inc();
    t.inc();
    assert_eq!(t.get(), 2);
}

#[test]
fn frame_size_constants() {
    assert_eq!(kernel_core::frames::FRAME_SIZE, 4096);
    assert_eq!(kernel_core::fpa::PAGE_SIZE, 4096);
}

#[test]
fn lapic_presence_check() {
    // a live APIC: version reads back unchanged, the ID flip sticks
    assert!(verify(0x0005_0014, 0x0005_0014, 0x0100_0000, 0xFE00_0000).is_ok());
    // the version register taking the write means no APIC is there
    let ver = 0x0005_0014;
    assert_eq!(
        verify(ver, version_probe_word(ver), 0x0100_0000, 0xFE00_0000),
        Err(Error::VerificationFailed)
    );
    // the restore word is the original ID on every path
    let (flip, restore) = id_probe_words(0x0100_0000);
    assert_eq!(flip, 0xFE00_0000);
    assert_eq!(restore, 0x0100_0000);
    // an ID that does not flip fails
    assert_eq!(
        verify(ver, ver, 0x0100_0000, 0x0100_0000),
        Err(Error::VerificationFailed)
    );
}
