//! The COM1 serial console's decision logic.
//!
//! The polled initialization, the loopback test and the interrupt-driven
//! echo all reduce to byte computations; the port reads and writes around
//! them are the hardware's side.

use vstd::prelude::*;

verus! {

/// The serial chip failed its loopback test.
#[derive(Debug, Copy, Clone, Eq, PartialEq, Structural)]
pub struct SerialError;

/// The byte written in loopback mode to test the chip.
pub const LOOPBACK_PROBE: u8 = 0xAE;

/// What the echo writes back for one received byte: delete becomes
/// backspace, space, backspace; carriage return and newline both become
/// the pair; anything else passes through.
pub open spec fn spec_echo(b: u8) -> Seq<u8> {
    if b == 0x7f {
        seq![0x08u8, 0x20u8, 0x08u8]
    } else if b == 0x0d || b == 0x0a {
        seq![0x0du8, 0x0au8]
    } else {
        seq![b]
    }
}

/// The echo of a whole burst of received bytes, in order.
pub open spec fn spec_echo_all(bs: Seq<u8>) -> Seq<u8>
    decreases bs.len(),
{
    if bs.len() == 0 {
        Seq::empty()
    } else {
        spec_echo(bs[0]) + spec_echo_all(bs.drop_first())
    }
}

/// The COM1 console: the port base, and the echo computation that the
/// receive interrupt runs over whatever bytes have arrived.
pub struct Serial {
    pub port: u16,
}

impl Serial {
    /// The console on a given port base.
    pub fn new(port: u16) -> (r: Serial)
        ensures
            r.port == port,
    {
        Serial { port }
    }

    /// Did the loopback byte come back intact?
    pub fn loopback_ok(&self, readback: u8) -> (r: Result<(), SerialError>)
        ensures
            r is Ok <==> readback == LOOPBACK_PROBE,
    {
        if readback == LOOPBACK_PROBE {
            Ok(())
        } else {
            Err(SerialError)
        }
    }

    /// The bytes to transmit in answer to a burst of received bytes.
    pub fn handle_interrupt(&self, received: &Vec<u8>) -> (r: Vec<u8>)
        ensures
            r@ == spec_echo_all(received@),
    {
        let mut out: Vec<u8> = Vec::new();
        let mut i: usize = 0;
        proof {
            assert(received@.skip(0) =~= received@);
        }
        while i < received.len()
            invariant
                0 <= i <= received@.len(),
                spec_echo_all(received@) == out@ + spec_echo_all(received@.skip(i as int)),
            decreases received@.len() - i,
        {
            let ghost before = received@.skip(i as int);
            let b = received[i];
            proof {
                assert(before[0] == received@[i as int]);
                assert(before.drop_first() =~= received@.skip(i as int + 1));
            }
            if b == 0x7f {
                out.push(0x08);
                out.push(0x20);
                out.push(0x08);
            } else if b == 0x0d || b == 0x0a {
                out.push(0x0d);
                out.push(0x0a);
            } else {
                out.push(b);
            }
            proof {
                assert(out@ + spec_echo_all(received@.skip(i as int + 1)) =~= spec_echo_all(
                    received@,
                ));
            }
            i = i + 1;
        }
        proof {
            assert(received@.skip(received@.len() as int).len() == 0);
            assert(out@ =~= spec_echo_all(received@));
        }
        out
    }
}

} // verus!
