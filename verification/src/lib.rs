//! The core of the Annwyn µKernel: capabilities, IPC, physical memory,
//! user-pointer checks, scheduling, processes, binary loading and the
//! system-call layer. What touches hardware is left to the caller, which
//! carries out the port writes, copies and mappings these functions decide.
use vstd::prelude::*;

pub mod arch;
pub mod capabilities;
pub mod debug;
pub mod ipc;
pub mod loader;
pub mod mm;
pub mod process;
pub mod scheduler;
pub mod syscall;
pub mod userspace;
