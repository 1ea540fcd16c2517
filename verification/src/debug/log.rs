//! The kernel log: one line per message on the serial port.
use vstd::prelude::*;
use vstd::slice::slice_to_vec;
use vstd::string::StringSliceAdditionalSpecFns;
use crate::debug::serial::{init_writes, Serial};

verus! {

pub struct Logger;

impl Logger {
    /// The port writes that open the log: the UART set-up.
    pub fn init() -> (r: Vec<(u16, u8)>)
        ensures
            r@ == init_writes(),
    {
        Serial::init()
    }

    /// The bytes that logging `msg` writes to the serial port: the UTF-8
    /// encoding of `msg`, then a newline.
    pub fn log(msg: &str) -> (r: Vec<u8>)
        ensures
            r@ == msg.spec_bytes().push(10u8),
    {
        let mut out = slice_to_vec(msg.as_bytes());
        out.push(10u8);
        out
    }
}

} // verus!
