//! Per-CPU data reached through the GS segment on system-call entry.
use vstd::prelude::*;

verus! {

/// The user stack pointer saved on system-call entry, and the kernel stack
/// to switch to.
#[derive(Debug, Clone, Copy, PartialEq, Eq, Structural)]
pub struct PercpuData {
    pub user_rsp: u64,
    pub kernel_rsp: u64,
}

impl PercpuData {
    pub fn new() -> (d: PercpuData)
        ensures
            d.user_rsp == 0,
            d.kernel_rsp == 0,
    {
        PercpuData { user_rsp: 0, kernel_rsp: 0 }
    }
}

} // verus!
