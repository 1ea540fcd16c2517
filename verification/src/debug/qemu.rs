//! Leaving QEMU through its `isa-debug-exit` device.
use vstd::prelude::*;

verus! {

/// The I/O port of the exit device.
pub const EXIT_PORT: u16 = 0xf4;

/// The value to write to the exit device: 0x10 on success, 0x11 on
/// failure.
pub fn exit_value(success: bool) -> (r: u32)
    ensures
        r == if success {
            0x10u32
        } else {
            0x11u32
        },
{
    if success {
        0x10
    } else {
        0x11
    }
}

} // verus!
