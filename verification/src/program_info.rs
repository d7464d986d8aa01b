//! Program metadata as recorded on the staging disk.

use vstd::prelude::*;

verus! {

use crate::DISK_SIZE;

/// Metadata of one program stored on the disk: its identity, its priority,
/// the sizes of its four regions, and where its image starts in the disk's
/// word pool.  The image is laid out as
/// `[instructions | input | output | temp]`.
#[derive(Clone, Copy)]
pub struct ProgramInfo {
    pub id: u32,
    pub priority: u32,
    pub instruction_buffer_size: usize,
    pub in_buffer_size: usize,
    pub out_buffer_size: usize,
    pub temp_buffer_size: usize,
    pub data_start_idx: usize,
}

impl ProgramInfo {
    /// Total length of the program image, in words.
    pub open spec fn total_size(self) -> int {
        self.instruction_buffer_size + self.in_buffer_size + self.out_buffer_size
            + self.temp_buffer_size
    }

    /// Length of the trailing `output | temp` part of the image, the part
    /// that a flush back to disk overwrites.
    pub open spec fn out_temp_size(self) -> int {
        self.out_buffer_size + self.temp_buffer_size
    }

    /// The whole image lies inside the disk pool.
    pub open spec fn fits_disk(self) -> bool {
        self.data_start_idx + self.total_size() <= DISK_SIZE
    }
}

/// A program image together with its metadata, the unit a loader hands to
/// the disk.
pub struct Program {
    pub id: u32,
    pub priority: u32,
    pub instruction_buffer_size: usize,
    pub in_buffer_size: usize,
    pub out_buffer_size: usize,
    pub temp_buffer_size: usize,
    pub data: Vec<u32>,
}

} // verus!
