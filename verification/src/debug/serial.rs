//! The 16550 UART on COM1: how to set it up and when it takes a byte.
use vstd::prelude::*;

verus! {

pub const SERIAL_PORT: u16 = 0x3F8;

/// The line status register.
pub const LINE_STATUS_PORT: u16 = SERIAL_PORT + 5;

/// Line status bit: the transmit holding register is empty.
pub const THR_EMPTY: u8 = 0x20;

/// The register writes that set the UART up, in order: interrupts off,
/// divisor 3 (38400 baud), 8 data bits with no parity and one stop bit,
/// FIFOs on and cleared with a 14-byte trigger, OUT2 with DTR and RTS.
pub open spec fn init_writes() -> Seq<(u16, u8)> {
    seq![
        (0x3F9u16, 0x00u8),
        (0x3FBu16, 0x80u8),
        (0x3F8u16, 0x03u8),
        (0x3F9u16, 0x00u8),
        (0x3FBu16, 0x03u8),
        (0x3FAu16, 0xC7u8),
        (0x3FCu16, 0x0Bu8),
    ]
}

pub struct Serial;

impl Serial {
    /// The `(port, value)` writes that set the UART up.
    pub fn init() -> (r: Vec<(u16, u8)>)
        ensures
            r@ == init_writes(),
    {
        let r = vec![
            (SERIAL_PORT + 1, 0x00u8),
            (SERIAL_PORT + 3, 0x80u8),
            (SERIAL_PORT, 0x03u8),
            (SERIAL_PORT + 1, 0x00u8),
            (SERIAL_PORT + 3, 0x03u8),
            (SERIAL_PORT + 2, 0xC7u8),
            (SERIAL_PORT + 4, 0x0Bu8),
        ];
        assert(r@ =~= init_writes());
        r
    }

    /// Whether a byte can be written, given the line status register.
    pub fn is_ready(line_status: u8) -> (r: bool)
        ensures
            r == (line_status & THR_EMPTY != 0),
    {
        line_status & THR_EMPTY != 0
    }
}

} // verus!
