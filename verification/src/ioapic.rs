//! The I/O APIC's register protocol and redirection-table words.
//!
//! The controller is driven through two MMIO registers: the index of a
//! register is written to the select register, then its value is read or
//! written through the data register.  Each hardware interrupt owns two
//! redirection-table entries; the words themselves are computed here, the
//! volatile accesses are the hardware's side.

use vstd::prelude::*;

verus! {

/// Interrupt disabled.
pub const REDIR_DISABLED: u32 = 0x0001_0000;

/// Level-triggered (against edge).
pub const REDIR_LEVEL: u32 = 0x0000_8000;

/// Active low (against high).
pub const REDIR_ACTIVELOW: u32 = 0x0000_2000;

/// Destination is a CPU id (against an APIC id).
pub const REDIR_LOGICAL: u32 = 0x0000_0800;

/// No flags: edge-triggered, active high, enabled.
pub const REDIR_NONE: u32 = 0;

/// Register index of the controller's id.
pub const REG_ID: u8 = 0x00;

/// Register index of the version word.
pub const REG_VER: u8 = 0x01;

/// First register of the redirection table.
pub const REG_TABLE: u8 = 0x10;

/// The vector hardware interrupt 0 is delivered on.
pub const T_IRQ0: u8 = 32;

/// I/O APIC bring-up failure.
#[derive(Debug, Copy, Clone, Eq, PartialEq, Structural)]
pub enum Error {
    NotSupported,
}

/// The controller's id, from the id register's bits 24..28.
pub fn id_from(raw: u32) -> (r: u8)
    ensures
        r == (raw >> 24) & 0xf,
{
    proof {
        assert((raw >> 24u32) & 0xf <= 0xf) by (bit_vector);
    }
    ((raw >> 24) & 0xf) as u8
}

/// The controller's version, from the version register's low byte.
pub fn version_from(raw: u32) -> (r: u8)
    ensures
        r == raw & 0xff,
{
    proof {
        assert(raw & 0xff <= 0xff) by (bit_vector);
    }
    (raw & 0xff) as u8
}

/// How many interrupts the controller handles: the max-redirection-entry
/// byte of the version register, plus the one it insists on subtracting.
pub fn supported_interrupts_from(raw: u32) -> (r: u8)
    ensures
        r as int == (((raw >> 16) & 0xff) as int + 1) % 256,
{
    proof {
        assert((raw >> 16u32) & 0xff <= 0xff) by (bit_vector);
    }
    ((((raw >> 16) & 0xff) + 1) % 256) as u8
}

/// The two register indices of interrupt `irq`'s redirection entry.
pub fn table_registers(irq: u8) -> (r: (u8, u8))
    requires
        irq < 120,
    ensures
        r.0 == REG_TABLE + 2 * irq,
        r.1 == REG_TABLE + 2 * irq + 1,
{
    (REG_TABLE + 2 * irq, REG_TABLE + 2 * irq + 1)
}

/// The low word of a redirection entry: the interrupt's vector, plus the
/// flag bits.
pub fn redirection_low(irq: u8, flags: u32) -> (r: u32)
    requires
        irq < 120,
    ensures
        r == ((T_IRQ0 + irq) as u32) | flags,
{
    ((T_IRQ0 + irq) as u32) | flags
}

/// The high word of a redirection entry: the destination CPU in bits
/// 24..31.
pub fn redirection_high(cpu: u8) -> (r: u32)
    ensures
        r == (cpu as u32) << 24,
{
    (cpu as u32) << 24
}

/// The register program that disables every interrupt: each one gets the
/// disabled flag and no destination.
pub struct IoApic {
    pub supported: u8,
}

impl IoApic {
    /// A controller model for `supported` interrupts.
    pub fn new(version_raw: u32) -> (r: IoApic)
        ensures
            r.supported as int == (((version_raw >> 16) & 0xff) as int + 1) % 256,
    {
        IoApic { supported: supported_interrupts_from(version_raw) }
    }

    /// The write sequence that masks every interrupt: for each interrupt
    /// `i`, the disabled flag to its low register and zero to its high
    /// one.
    pub fn disable_all(&self) -> (r: Vec<(u8, u32)>)
        requires
            self.supported < 120,
        ensures
            r@.len() == 2 * self.supported,
            forall|i: int|
                0 <= i < self.supported ==> #[trigger] r@[2 * i] == (
                (REG_TABLE + 2 * i) as u8,
                ((T_IRQ0 + i) as u32) | REDIR_DISABLED,
            ) && r@[2 * i + 1] == ((REG_TABLE + 2 * i + 1) as u8, 0u32),
    {
        let mut r: Vec<(u8, u32)> = Vec::new();
        let mut i: u8 = 0;
        while i < self.supported
            invariant
                self.supported < 120,
                0 <= i <= self.supported,
                r@.len() == 2 * i as int,
                forall|j: int|
                    0 <= j < i ==> #[trigger] r@[2 * j] == (
                    (REG_TABLE + 2 * j) as u8,
                    ((T_IRQ0 + j) as u32) | REDIR_DISABLED,
                ) && r@[2 * j + 1] == ((REG_TABLE + 2 * j + 1) as u8, 0u32),
            decreases self.supported - i,
        {
            let (lo, hi) = table_registers(i);
            r.push((lo, redirection_low(i, REDIR_DISABLED)));
            r.push((hi, 0));
            i = i + 1;
        }
        r
    }

    /// The write pair that routes interrupt `irq` to `cpu`, edge-triggered,
    /// active high, enabled.
    pub fn enable(&self, irq: u8, cpu: u8) -> (r: ((u8, u32), (u8, u32)))
        requires
            irq < 120,
        ensures
            r.0 == ((REG_TABLE + 2 * irq) as u8, ((T_IRQ0 + irq) as u32) | REDIR_NONE),
            r.1 == ((REG_TABLE + 2 * irq + 1) as u8, (cpu as u32) << 24),
    {
        let (lo, hi) = table_registers(irq);
        ((lo, redirection_low(irq, REDIR_NONE)), (hi, redirection_high(cpu)))
    }
}

} // verus!
