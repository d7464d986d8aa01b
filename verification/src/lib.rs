//! A verified model of a small batch operating system: a staging disk, a
//! word-addressable main memory with process descriptors, a long-term
//! scheduler that admits programs from disk into memory, a short-term
//! scheduler that dispatches ready processes to a CPU engine, and the CPU
//! engine itself with its bit-packed instruction set.

mod clock;
pub mod cpu;
pub mod disk;
pub mod driver;
pub mod instruction;
pub mod loader;
pub mod lts;
pub mod memory;
pub mod pcb;
pub mod program_info;
pub mod queue;
pub mod sts;
pub mod words;

use vstd::prelude::*;

verus! {

/// Capacity of the staging disk, in 32-bit words.
pub const DISK_SIZE: usize = 4096;

/// Capacity of main memory, in 32-bit words.
pub const MEMORY_SIZE: usize = 1024;

/// Number of general-purpose registers in the CPU and in each process
/// descriptor.
pub const NUM_REGISTERS: usize = 16;

} // verus!
