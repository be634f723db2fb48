//! Early-boot memory management for a 64-bit RISC-V kernel: a buddy
//! page-frame allocator over a registered physical window, the Sv39/Sv48
//! page-table-entry codec, a multi-level range mapper that installs
//! translations at a chosen granularity, and the boot sequencer that drives
//! them up to the hardware translation switch.

pub mod attr;
pub mod pte;
pub mod buddy;
pub mod walker;
pub mod boot;
pub mod diag;
