//! The kernel's window onto physical memory: the boot loader maps all of it
//! at a fixed virtual offset.
use vstd::prelude::*;

verus! {

/// Bits 48..64 of `addr` copy bit 47.
pub open spec fn is_canonical(addr: u64) -> bool {
    addr < 0x0000_8000_0000_0000 || addr >= 0xFFFF_8000_0000_0000
}

/// Calls `x86_64::VirtAddr::new` on `addr` and returns `as_u64` of the
/// result. Claimed, not proved: for a canonical address that is `addr`
/// itself. `new` panics on any other address, which `requires` excludes.
#[verifier::external_body]
pub(crate) fn virt_addr(addr: u64) -> (r: u64)
    requires
        is_canonical(addr),
    ensures
        r == addr,
{
    x86_64::VirtAddr::new(addr).as_u64()
}

/// Calls `x86_64::PhysAddr::new` on `addr` and returns `as_u64` of the
/// result. Claimed, not proved: for an address with bits 52..64 clear that
/// is `addr` itself. `new` panics on any other address, which `requires`
/// excludes.
#[verifier::external_body]
pub(crate) fn phys_addr(addr: u64) -> (r: u64)
    requires
        addr < 0x0010_0000_0000_0000,
    ensures
        r == addr,
{
    x86_64::PhysAddr::new(addr).as_u64()
}

/// Where physical memory is mapped, once the boot loader has said so.
pub struct Vmm {
    pub physical_memory_offset: u64,
    pub ready: bool,
}

impl Vmm {
    pub fn new() -> (v: Vmm)
        ensures
            v.physical_memory_offset == 0,
            !v.ready,
    {
        Vmm { physical_memory_offset: 0, ready: false }
    }

    /// Records the offset the boot loader reports; without one the window
    /// stays closed.
    pub fn init(&mut self, offset: Option<u64>)
        ensures
            match offset {
                Some(o) => final(self).physical_memory_offset == o && final(self).ready,
                None => *final(self) == *old(self),
            },
    {
        match offset {
            Some(o) => {
                self.physical_memory_offset = o;
                self.ready = true;
            },
            None => {},
        }
    }

    pub fn is_ready(&self) -> (r: bool)
        ensures
            r == self.ready,
    {
        self.ready
    }

    pub fn physical_memory_offset(&self) -> (r: u64)
        ensures
            r == self.physical_memory_offset,
    {
        self.physical_memory_offset
    }

    /// The virtual address at which the kernel sees physical address `phys`.
    pub fn phys_to_virt(&self, phys: u64) -> (r: u64)
        requires
            self.physical_memory_offset + phys <= u64::MAX,
            is_canonical((self.physical_memory_offset + phys) as u64),
        ensures
            r == self.physical_memory_offset + phys,
    {
        virt_addr(self.physical_memory_offset + phys)
    }
}

} // verus!
