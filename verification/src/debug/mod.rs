//! Kernel diagnostics.
pub mod log;
pub mod qemu;
pub mod serial;
