//! Process descriptors: identity, register file, region boundaries, state,
//! and timing accumulators.

use vstd::prelude::*;

verus! {

use crate::{MEMORY_SIZE, NUM_REGISTERS};
use crate::clock::now_nanos;
use crate::program_info::ProgramInfo;
use crate::words::zero_words;

/// Lifecycle state of a process.
#[derive(Clone, Copy, Debug, PartialEq, Eq, Structural)]
pub enum ProcessState {
    Ready,
    Running,
    Waiting,
    Terminated,
}

/// Per-process descriptor.  The five region boundaries partition the
/// process image in main memory:
/// `[mem_start | instructions | input | output | temp | mem_end)`.
pub struct ProcessControlBlock {
    pub program_counter: usize,
    pub registers: Vec<u32>,
    pub state: ProcessState,
    pub id: u32,
    pub priority: u32,
    pub mem_start_address: usize,
    pub mem_in_start_address: usize,
    pub mem_out_start_address: usize,
    pub mem_temp_start_address: usize,
    pub mem_end_address: usize,
    pub turnaround_time_ns: u64,
    pub turnaround_start_time_ns: u64,
    pub turnaround_time_is_recording: bool,
    pub burst_times_ns: Vec<u64>,
    pub current_burst_start_time_ns: u64,
    pub burst_time_is_recording: bool,
}

/// Sum of a sequence of burst durations.
pub open spec fn sum_ns(s: Seq<u64>) -> int
    decreases s.len(),
{
    if s.len() == 0 {
        0
    } else {
        sum_ns(s.drop_last()) + s.last()
    }
}

impl ProcessControlBlock {
    /// The region boundaries are ordered and lie inside main memory.
    pub open spec fn regions_wf(self) -> bool {
        &&& self.mem_start_address <= self.mem_in_start_address
        &&& self.mem_in_start_address <= self.mem_out_start_address
        &&& self.mem_out_start_address <= self.mem_temp_start_address
        &&& self.mem_temp_start_address <= self.mem_end_address
        &&& self.mem_end_address <= MEMORY_SIZE
    }

    pub open spec fn wf(self) -> bool {
        &&& self.registers@.len() == NUM_REGISTERS
        &&& self.regions_wf()
    }

    /// Average burst duration: zero when no burst has been recorded.
    pub open spec fn avg_burst_ns(self) -> int {
        if self.burst_times_ns@.len() == 0 {
            0
        } else {
            sum_ns(self.burst_times_ns@) / (self.burst_times_ns@.len() as int)
        }
    }

    /// A descriptor as `new` builds it, except that nothing is said about
    /// the turnaround timer (admission starts it right away).
    pub open spec fn is_initial(
        self,
        program_info: ProgramInfo,
        mem_start_address: usize,
        mem_end_address: usize,
    ) -> bool {
        &&& self.program_counter == 0
        &&& self.registers@ == Seq::new(NUM_REGISTERS as nat, |i: int| 0u32)
        &&& self.state == ProcessState::Ready
        &&& self.id == program_info.id
        &&& self.priority == program_info.priority
        &&& self.mem_start_address == mem_start_address
        &&& self.mem_in_start_address == mem_start_address
            + program_info.instruction_buffer_size
        &&& self.mem_out_start_address == mem_start_address
            + program_info.instruction_buffer_size + program_info.in_buffer_size
        &&& self.mem_temp_start_address == mem_start_address
            + program_info.instruction_buffer_size + program_info.in_buffer_size
            + program_info.out_buffer_size
        &&& self.mem_end_address == mem_end_address
        &&& self.turnaround_time_ns == 0
        &&& self.burst_times_ns@.len() == 0
        &&& !self.burst_time_is_recording
    }

    /// A descriptor exactly as `new` builds it.
    pub open spec fn is_fresh(
        self,
        program_info: ProgramInfo,
        mem_start_address: usize,
        mem_end_address: usize,
    ) -> bool {
        &&& self.is_initial(program_info, mem_start_address, mem_end_address)
        &&& !self.turnaround_time_is_recording
    }

    pub fn new(
        program_info: &ProgramInfo,
        mem_start_address: usize,
        mem_end_address: usize,
    ) -> (r: ProcessControlBlock)
        requires
            mem_end_address == mem_start_address + program_info.total_size(),
            mem_end_address <= MEMORY_SIZE,
        ensures
            r.wf(),
            r.is_fresh(*program_info, mem_start_address, mem_end_address),
    {
        ProcessControlBlock {
            program_counter: 0,
            registers: zero_words(NUM_REGISTERS),
            state: ProcessState::Ready,
            id: program_info.id,
            priority: program_info.priority,
            mem_start_address,
            mem_in_start_address: mem_start_address + program_info.instruction_buffer_size,
            mem_out_start_address: mem_start_address + program_info.instruction_buffer_size
                + program_info.in_buffer_size,
            mem_temp_start_address: mem_start_address + program_info.instruction_buffer_size
                + program_info.in_buffer_size + program_info.out_buffer_size,
            mem_end_address,
            turnaround_time_ns: 0,
            turnaround_start_time_ns: 0,
            turnaround_time_is_recording: false,
            burst_times_ns: Vec::new(),
            current_burst_start_time_ns: 0,
            burst_time_is_recording: false,
        }
    }

    pub fn get_id(&self) -> (r: u32)
        ensures
            r == self.id,
    {
        self.id
    }

    pub fn get_priority(&self) -> (r: u32)
        ensures
            r == self.priority,
    {
        self.priority
    }

    pub fn get_mem_start_address(&self) -> (r: usize)
        ensures
            r == self.mem_start_address,
    {
        self.mem_start_address
    }

    pub fn get_mem_in_start_address(&self) -> (r: usize)
        ensures
            r == self.mem_in_start_address,
    {
        self.mem_in_start_address
    }

    pub fn get_mem_out_start_address(&self) -> (r: usize)
        ensures
            r == self.mem_out_start_address,
    {
        self.mem_out_start_address
    }

    pub fn get_mem_temp_start_address(&self) -> (r: usize)
        ensures
            r == self.mem_temp_start_address,
    {
        self.mem_temp_start_address
    }

    pub fn get_mem_end_address(&self) -> (r: usize)
        ensures
            r == self.mem_end_address,
    {
        self.mem_end_address
    }

    /// Starts the turnaround timer.  Only the start stamp and the
    /// recording flag change; the stamp itself is whatever the clock read.
    pub fn start_record_turnaround_time(&mut self)
        ensures
            *final(self) == (ProcessControlBlock {
                turnaround_start_time_ns: final(self).turnaround_start_time_ns,
                turnaround_time_is_recording: true,
                ..*old(self)
            }),
    {
        self.turnaround_start_time_ns = now_nanos();
        self.turnaround_time_is_recording = true;
    }

    /// Stops the turnaround timer and stores the elapsed time.  A clock
    /// that moved backwards records zero.
    pub fn end_record_turnaround_time(&mut self)
        requires
            old(self).turnaround_time_is_recording,
        ensures
            *final(self) == (ProcessControlBlock {
                turnaround_time_ns: final(self).turnaround_time_ns,
                turnaround_time_is_recording: false,
                ..*old(self)
            }),
    {
        let now = now_nanos();
        self.turnaround_time_ns = if now >= self.turnaround_start_time_ns {
            now - self.turnaround_start_time_ns
        } else {
            0
        };
        self.turnaround_time_is_recording = false;
    }

    pub fn get_turnaround_time_ns(&self) -> (r: u64)
        ensures
            r == self.turnaround_time_ns,
    {
        self.turnaround_time_ns
    }

    /// Turnaround time in whole milliseconds.
    pub fn get_turnaround_time_ms(&self) -> (r: u64)
        ensures
            r == self.turnaround_time_ns / 1_000_000,
    {
        self.turnaround_time_ns / 1_000_000
    }

    /// Starts the burst timer for one CPU residency.
    pub fn start_record_burst_time(&mut self)
        ensures
            *final(self) == (ProcessControlBlock {
                current_burst_start_time_ns: final(self).current_burst_start_time_ns,
                burst_time_is_recording: true,
                ..*old(self)
            }),
    {
        self.current_burst_start_time_ns = now_nanos();
        self.burst_time_is_recording = true;
    }

    /// Stops the burst timer and appends the elapsed time to the burst
    /// record.  A clock that moved backwards records zero.
    pub fn end_record_burst_time(&mut self)
        requires
            old(self).burst_time_is_recording,
        ensures
            final(self).burst_times_ns@ == old(self).burst_times_ns@.push(
                final(self).burst_times_ns@.last(),
            ),
            *final(self) == (ProcessControlBlock {
                burst_times_ns: final(self).burst_times_ns,
                burst_time_is_recording: false,
                ..*old(self)
            }),
    {
        let now = now_nanos();
        let burst = if now >= self.current_burst_start_time_ns {
            now - self.current_burst_start_time_ns
        } else {
            0
        };
        self.burst_times_ns.push(burst);
        self.burst_time_is_recording = false;
        proof {
            assert(self.burst_times_ns@ =~= old(self).burst_times_ns@.push(
                self.burst_times_ns@.last(),
            ));
        }
    }

    /// Average burst duration in nanoseconds; zero when no burst has been
    /// recorded.
    pub fn get_avg_burst_time_ns(&self) -> (r: u64)
        ensures
            r == self.avg_burst_ns(),
    {
        let n = self.burst_times_ns.len();
        if n == 0 {
            return 0;
        }
        let mut total: u128 = 0;
        let mut i: usize = 0;
        while i < n
            invariant
                i <= n,
                n == self.burst_times_ns@.len(),
                total == sum_ns(self.burst_times_ns@.take(i as int)),
                total <= i * (u64::MAX as int),
            decreases n - i,
        {
            proof {
                assert(self.burst_times_ns@.take(i + 1).drop_last() =~= self.burst_times_ns@.take(
                    i as int,
                ));
                assert((i + 1) * (u64::MAX as int) == i * (u64::MAX as int) + u64::MAX as int)
                    by (nonlinear_arith);
            }
            total = total + self.burst_times_ns[i] as u128;
            i = i + 1;
        }
        proof {
            assert(self.burst_times_ns@.take(n as int) =~= self.burst_times_ns@);
            assert(total / (n as u128) <= u64::MAX) by (nonlinear_arith)
                requires
                    n > 0,
                    total <= n * (u64::MAX as int),
            ;
            assert(total as int / n as int == sum_ns(self.burst_times_ns@) / (
            self.burst_times_ns@.len() as int));
        }
        (total / (n as u128)) as u64
    }

    /// Average burst duration in whole milliseconds.
    pub fn get_avg_burst_time_ms(&self) -> (r: u64)
        ensures
            r == self.avg_burst_ns() / 1_000_000,
    {
        self.get_avg_burst_time_ns() / 1_000_000
    }
}

} // verus!
