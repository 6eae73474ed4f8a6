//! The 8253/54 programmable interval timer.
//!
//! Only the command-word and divisor arithmetic lives here: the timer is
//! programmed by writing the command byte to port 0x43 and the divisor,
//! low byte then high byte, to the channel's port.  The input clock runs
//! at 1,193,182 Hz.

use vstd::prelude::*;

verus! {

pub const TIMER_FREQUENCY: u32 = 1_193_182;

/// The three counter channels.
#[derive(Debug, Copy, Clone, Eq, PartialEq, Structural)]
pub enum Channel {
    Channel0,
    Channel1,
    Channel2,
}

impl Channel {
    /// The I/O port the channel's counter is read and written through.
    pub fn port(&self) -> (r: u16)
        ensures
            r == spec_channel_port(*self),
    {
        match self {
            Channel::Channel0 => 0x40,
            Channel::Channel1 => 0x41,
            Channel::Channel2 => 0x42,
        }
    }

    /// The channel-select bits of the command word.
    pub fn select_bits(&self) -> (r: u8)
        ensures
            r == spec_channel_bits(*self),
    {
        match self {
            Channel::Channel0 => 0,
            Channel::Channel1 => 1,
            Channel::Channel2 => 2,
        }
    }
}

pub open spec fn spec_channel_port(c: Channel) -> u16 {
    match c {
        Channel::Channel0 => 0x40,
        Channel::Channel1 => 0x41,
        Channel::Channel2 => 0x42,
    }
}

pub open spec fn spec_channel_bits(c: Channel) -> u8 {
    match c {
        Channel::Channel0 => 0,
        Channel::Channel1 => 1,
        Channel::Channel2 => 2,
    }
}

/// How the counter's two bytes are transferred.
#[derive(Debug, Copy, Clone, Eq, PartialEq, Structural)]
pub enum AccessMode {
    LatchCountValue,
    LoByte,
    HiByte,
    LoHiByte,
}

pub open spec fn spec_access_bits(m: AccessMode) -> u8 {
    match m {
        AccessMode::LatchCountValue => 0,
        AccessMode::LoByte => 1,
        AccessMode::HiByte => 2,
        AccessMode::LoHiByte => 3,
    }
}

/// What the counter does when it reaches zero.
#[derive(Debug, Copy, Clone, Eq, PartialEq, Structural)]
pub enum OperatingMode {
    InterruptOnTerminalCount,
    HardwareRetriggerableOneShot,
    RateGenerator,
    SquareWaveGenerator,
    SoftwareTriggeredStrobe,
    HardwareTriggeredStrobe,
}

pub open spec fn spec_operating_bits(m: OperatingMode) -> u8 {
    match m {
        OperatingMode::InterruptOnTerminalCount => 0,
        OperatingMode::HardwareRetriggerableOneShot => 1,
        OperatingMode::RateGenerator => 2,
        OperatingMode::SquareWaveGenerator => 3,
        OperatingMode::SoftwareTriggeredStrobe => 4,
        OperatingMode::HardwareTriggeredStrobe => 5,
    }
}

fn access_bits(m: AccessMode) -> (r: u8)
    ensures
        r == spec_access_bits(m),
{
    match m {
        AccessMode::LatchCountValue => 0,
        AccessMode::LoByte => 1,
        AccessMode::HiByte => 2,
        AccessMode::LoHiByte => 3,
    }
}

fn operating_bits(m: OperatingMode) -> (r: u8)
    ensures
        r == spec_operating_bits(m),
{
    match m {
        OperatingMode::InterruptOnTerminalCount => 0,
        OperatingMode::HardwareRetriggerableOneShot => 1,
        OperatingMode::RateGenerator => 2,
        OperatingMode::SquareWaveGenerator => 3,
        OperatingMode::SoftwareTriggeredStrobe => 4,
        OperatingMode::HardwareTriggeredStrobe => 5,
    }
}

/// The command word programming a channel: channel select, then the
/// access mode in bits 4..5, then the operating mode in bits 1..3.
pub fn command_word(channel: Channel, access: AccessMode, mode: OperatingMode) -> (r: u8)
    ensures
        r == spec_channel_bits(channel) | (spec_access_bits(access) << 4) | (spec_operating_bits(
            mode,
        ) << 1),
{
    let c = channel.select_bits();
    let a = access_bits(access);
    let m = operating_bits(mode);
    proof {
        assert(c <= 2 && a <= 3 && m <= 5);
        assert(c | (a << 4u8) | (m << 1u8) < 256) by (bit_vector)
            requires
                c <= 2,
                a <= 3,
                m <= 5,
        ;
    }
    c | (a << 4) | (m << 1)
}

/// The counter divisor producing `freq` interrupts a second: the input
/// clock divided by the frequency, if it fits the 16-bit counter.
pub fn pit_divisor(freq: u32) -> (r: Option<u16>)
    requires
        freq >= 1,
    ensures
        ({
            let d = TIMER_FREQUENCY as int / freq as int;
            if d <= 0xFFFF {
                r == Some(d as u16)
            } else {
                r is None
            }
        }),
{
    let d = TIMER_FREQUENCY / freq;
    if d <= 0xFFFF {
        Some(d as u16)
    } else {
        None
    }
}

/// The two bytes of a divisor, sent low byte first.
pub fn divisor_bytes(d: u16) -> (r: (u8, u8))
    ensures
        r.0 == d & 0xff,
        r.1 == d >> 8,
        (r.0 as int) + 256 * (r.1 as int) == d as int,
{
    proof {
        assert(((d & 0xff) as int) + 256 * ((d >> 8u16) as int) == d as int) by (bit_vector);
        assert(d & 0xff <= 0xff && d >> 8u16 <= 0xff) by (bit_vector);
    }
    ((d & 0xff) as u8, (d >> 8) as u8)
}

/// The counter value read back as low byte then high byte.
pub fn count_from_bytes(lo: u8, hi: u8) -> (r: u16)
    ensures
        r == ((hi as u16) << 8) | (lo as u16),
        r as int == lo as int + 256 * (hi as int),
{
    proof {
        let l = lo as u16;
        let h = hi as u16;
        assert((h << 8u16) | l == h * 256 + l) by (bit_vector)
            requires
                l <= 0xff,
                h <= 0xff,
        ;
    }
    ((hi as u16) << 8) | (lo as u16)
}

} // verus!
