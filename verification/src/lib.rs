//! Core logic of a small x86_64 kernel: physical frame allocation, page-table
//! walks, a first-fit heap, a round-robin scheduler, interrupt descriptors and a
//! PSF2 font parser, each with a machine-checked contract.
use vstd::prelude::*;

mod bits;
pub mod gdt;
pub mod graphics;
pub mod interrupts;
pub mod ioapic;
pub mod memory;
pub mod scheduler;
pub mod task;
pub mod thread;
pub mod volatile;
