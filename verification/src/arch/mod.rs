//! Architecture support.
pub mod percpu;
