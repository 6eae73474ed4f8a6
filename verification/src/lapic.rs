//! The local APIC's register map and timer calibration arithmetic.
//!
//! The register block sits in one page of MMIO at physical 0xFEE0_0000;
//! reads and writes of it are the hardware's side.  What lives here is
//! the register offsets, which of them can be read or written, the
//! verification rules for the version and ID registers, and the
//! arithmetic that turns a calibration reading into a timer reload value.

use vstd::prelude::*;

verus! {

/// Failures of local-APIC bring-up.
#[derive(Debug, Copy, Clone, Eq, PartialEq, Structural)]
pub enum Error {
    NotSupported,
    VerificationFailed,
}

/// The registers of the local APIC, by offset into its MMIO page.
#[derive(Debug, Copy, Clone, Eq, PartialEq, Structural)]
pub enum RegisterOffset {
    ID,
    Version,
    TaskPriority,
    ArbitrationPriority,
    ProcessorPriority,
    EndOfInterrupt,
    RemoteRead,
    LogicalDestination,
    DestinationFormat,
    SpuriousInterruptVector,
    ErrorStatus,
    LVTCorrectedMachineCheckInterrupt,
    InterruptCommandLow,
    InterruptCommandHigh,
    LVTTimer,
    LVTThermalSensor,
    LVTPerformanceMonitoringCounters,
    LVTLint0,
    LVTLint1,
    LVTError,
    InitialCount,
    CurrentCount,
    DivideConfiguration,
}

impl RegisterOffset {
    /// The byte offset of the register inside the MMIO page.
    pub fn offset(self) -> (r: u16)
        ensures
            r == spec_offset(self),
    {
        match self {
            RegisterOffset::ID => 0x20,
            RegisterOffset::Version => 0x30,
            RegisterOffset::TaskPriority => 0x80,
            RegisterOffset::ArbitrationPriority => 0x90,
            RegisterOffset::ProcessorPriority => 0xa0,
            RegisterOffset::EndOfInterrupt => 0xb0,
            RegisterOffset::RemoteRead => 0xc0,
            RegisterOffset::LogicalDestination => 0xd0,
            RegisterOffset::DestinationFormat => 0xe0,
            RegisterOffset::SpuriousInterruptVector => 0xf0,
            RegisterOffset::ErrorStatus => 0x280,
            RegisterOffset::LVTCorrectedMachineCheckInterrupt => 0x2f0,
            RegisterOffset::InterruptCommandLow => 0x300,
            RegisterOffset::InterruptCommandHigh => 0x310,
            RegisterOffset::LVTTimer => 0x320,
            RegisterOffset::LVTThermalSensor => 0x330,
            RegisterOffset::LVTPerformanceMonitoringCounters => 0x340,
            RegisterOffset::LVTLint0 => 0x350,
            RegisterOffset::LVTLint1 => 0x360,
            RegisterOffset::LVTError => 0x370,
            RegisterOffset::InitialCount => 0x380,
            RegisterOffset::CurrentCount => 0x390,
            RegisterOffset::DivideConfiguration => 0x3e0,
        }
    }

    /// Every register but the end-of-interrupt one can be read.
    pub fn can_read(self) -> (r: bool)
        ensures
            r == (self != RegisterOffset::EndOfInterrupt),
    {
        !matches!(self, RegisterOffset::EndOfInterrupt)
    }

    /// The read-only registers cannot be written.
    pub fn can_write(self) -> (r: bool)
        ensures
            r == (self != RegisterOffset::Version && self != RegisterOffset::ArbitrationPriority
                && self != RegisterOffset::ProcessorPriority && self != RegisterOffset::RemoteRead
                && self != RegisterOffset::ErrorStatus && self != RegisterOffset::CurrentCount),
    {
        !matches!(
            self,
            RegisterOffset::Version
                | RegisterOffset::ArbitrationPriority
                | RegisterOffset::ProcessorPriority
                | RegisterOffset::RemoteRead
                | RegisterOffset::ErrorStatus
                | RegisterOffset::CurrentCount,
        )
    }
}

pub open spec fn spec_offset(r: RegisterOffset) -> u16 {
    match r {
        RegisterOffset::ID => 0x20,
        RegisterOffset::Version => 0x30,
        RegisterOffset::TaskPriority => 0x80,
        RegisterOffset::ArbitrationPriority => 0x90,
        RegisterOffset::ProcessorPriority => 0xa0,
        RegisterOffset::EndOfInterrupt => 0xb0,
        RegisterOffset::RemoteRead => 0xc0,
        RegisterOffset::LogicalDestination => 0xd0,
        RegisterOffset::DestinationFormat => 0xe0,
        RegisterOffset::SpuriousInterruptVector => 0xf0,
        RegisterOffset::ErrorStatus => 0x280,
        RegisterOffset::LVTCorrectedMachineCheckInterrupt => 0x2f0,
        RegisterOffset::InterruptCommandLow => 0x300,
        RegisterOffset::InterruptCommandHigh => 0x310,
        RegisterOffset::LVTTimer => 0x320,
        RegisterOffset::LVTThermalSensor => 0x330,
        RegisterOffset::LVTPerformanceMonitoringCounters => 0x340,
        RegisterOffset::LVTLint0 => 0x350,
        RegisterOffset::LVTLint1 => 0x360,
        RegisterOffset::LVTError => 0x370,
        RegisterOffset::InitialCount => 0x380,
        RegisterOffset::CurrentCount => 0x390,
        RegisterOffset::DivideConfiguration => 0x3e0,
    }
}

/// Does a version-register reading look like a live local APIC?  The low
/// byte must be a version that is neither zero nor all-ones, and the
/// max-LVT byte at bits 16..24 must be at least 2 and not all-ones.
pub fn version_plausible(ver: u32) -> (r: bool)
    ensures
        r == ({
            let v = ver & 0xff;
            let m = (ver >> 16) & 0xff;
            v != 0 && v != 0xff && m >= 0x02 && m != 0xff
        }),
{
    let v = ver & 0xff;
    let m = (ver >> 16) & 0xff;
    v != 0 && v != 0xff && m >= 0x02 && m != 0xff
}

/// After writing the ID register with its top byte flipped, a live APIC
/// reads back exactly the flipped value.
pub fn id_flip_matches(id: u32, id2: u32) -> (r: bool)
    ensures
        r == (id == (id2 ^ 0xFF00_0000u32)),
{
    id == (id2 ^ 0xFF00_0000)
}

/// The ticks the LAPIC timer counted in the 10 ms calibration window:
/// it counts down from all-ones.
pub fn ticks_per_10ms(current_count: u32) -> (r: u32)
    ensures
        r as int == 0xFFFF_FFFFu32 as int - current_count as int,
{
    0xFFFF_FFFF - current_count
}

/// The reload value that makes the timer fire `tick_freq` times a
/// second, given what it counted in 10 ms.
pub fn calibrated_init_count(ticks_10ms: u32, tick_freq: u32) -> (r: u32)
    requires
        tick_freq >= 1,
        ticks_10ms as int * 100 <= u32::MAX as int,
    ensures
        r as int == (ticks_10ms as int * 100) / (tick_freq as int),
{
    (ticks_10ms * 100) / tick_freq
}

/// The LVT timer word that masks the timer off.
pub fn lvt_masked() -> (r: u32)
    ensures
        r == 0x10000u32,
{
    0x10000
}

/// The LVT timer word for periodic operation on the given vector.
pub fn lvt_periodic(vector: u8) -> (r: u32)
    ensures
        r == (vector as u32) | 0x20000u32,
{
    (vector as u32) | 0x20000
}


/// The write pair that probes the ID register: the flipped word goes
/// out, and the original word is the restore that every path writes
/// back.
pub fn id_probe_words(id: u32) -> (r: (u32, u32))
    ensures
        r.0 == id ^ 0xFF00_0000u32,
        r.1 == id,
{
    (id ^ 0xFF00_0000, id)
}

/// The version word a presence probe writes: every bit of the mask
/// flipped; a live register reads back unchanged anyway.
pub fn version_probe_word(ver: u32) -> (r: u32)
    ensures
        r == ver ^ 0xFF_00FFu32,
{
    ver ^ 0xFF_00FF
}

/// The whole presence check, decided from the four register readings:
/// the version must read back unchanged and look plausible, and the
/// flipped ID must read back flipped.
pub fn verify(ver: u32, ver2: u32, id: u32, id2: u32) -> (r: Result<(), Error>)
    ensures
        r is Ok <==> ver == ver2 && ({
            let v = ver & 0xff;
            let m = (ver >> 16) & 0xff;
            v != 0 && v != 0xff && m >= 0x02 && m != 0xff
        }) && id == (id2 ^ 0xFF00_0000u32),
        r is Err ==> r == Result::<(), Error>::Err(Error::VerificationFailed),
{
    if ver != ver2 {
        return Err(Error::VerificationFailed);
    }
    if !version_plausible(ver) {
        return Err(Error::VerificationFailed);
    }
    if !id_flip_matches(id, id2) {
        return Err(Error::VerificationFailed);
    }
    Ok(())
}

} // verus!
