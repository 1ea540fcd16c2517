//! Memory management: the physical frame allocator, user-pointer checks
//! and the kernel's view of the physical-memory window.
pub mod pmm;
pub mod user_ptr;
pub mod vmm;
