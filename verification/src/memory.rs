//! Main memory: a fixed array of 32-bit words with bounds-checked access,
//! a bump allocator for process images, and a registry of process
//! descriptors.  Live descriptors tile the used prefix of the word array,
//! so no two processes ever overlap.

use vstd::prelude::*;

verus! {

use crate::MEMORY_SIZE;
use crate::pcb::{ProcessControlBlock, ProcessState};
use crate::program_info::ProgramInfo;
use crate::words::{copy_words, overwrite, write_words, zero_words};

/// Fixed-size word store plus the registry of live processes.
pub struct Memory {
    pub pcbs: Vec<ProcessControlBlock>,
    pub data: Vec<u32>,
    pub current_data_idx: usize,
}

/// The live descriptors tile the used prefix of memory: the first starts
/// at word 0, each next one starts where the previous ends, and the last
/// ends at the bump pointer.
pub open spec fn pcbs_chained(pcbs: Seq<ProcessControlBlock>, used: int) -> bool {
    &&& (pcbs.len() == 0 ==> used == 0)
    &&& (pcbs.len() > 0 ==> pcbs[0].mem_start_address == 0)
    &&& (pcbs.len() > 0 ==> pcbs.last().mem_end_address == used)
    &&& forall|i: int|
        0 <= i < pcbs.len() - 1 ==> (#[trigger] pcbs[i + 1].mem_start_address)
            == pcbs[i].mem_end_address
}

/// No two live descriptors share an id.
pub open spec fn pcbs_unique(pcbs: Seq<ProcessControlBlock>) -> bool {
    forall|i: int, j: int|
        0 <= i < j < pcbs.len() ==> (#[trigger] pcbs[i].id) != (#[trigger] pcbs[j].id)
}

/// Index of the descriptor with the given id, or `-1` if none is live.
pub open spec fn index_of_pcb(pcbs: Seq<ProcessControlBlock>, id: u32) -> int
    decreases pcbs.len(),
{
    if pcbs.len() == 0 {
        -1
    } else if pcbs[0].id == id {
        0
    } else if index_of_pcb(pcbs.drop_first(), id) < 0 {
        -1
    } else {
        index_of_pcb(pcbs.drop_first(), id) + 1
    }
}

pub proof fn lemma_index_of_pcb(pcbs: Seq<ProcessControlBlock>, id: u32)
    ensures
        index_of_pcb(pcbs, id) >= 0 <==> (exists|i: int|
            0 <= i < pcbs.len() && (#[trigger] pcbs[i].id) == id),
        index_of_pcb(pcbs, id) >= 0 ==> index_of_pcb(pcbs, id) < pcbs.len() && pcbs[index_of_pcb(
            pcbs,
            id,
        )].id == id,
    decreases pcbs.len(),
{
    if pcbs.len() > 0 && pcbs[0].id != id {
        lemma_index_of_pcb(pcbs.drop_first(), id);
        let sub = pcbs.drop_first();
        if index_of_pcb(sub, id) >= 0 {
            assert(pcbs[index_of_pcb(sub, id) + 1] == sub[index_of_pcb(sub, id)]);
        } else {
            assert forall|i: int| 0 <= i < pcbs.len() implies (#[trigger] pcbs[i].id) != id by {
                if i > 0 {
                    assert(sub[i - 1] == pcbs[i]);
                }
            }
        }
    }
}

/// Helper: a scan that matches at `i` without an earlier match has found
/// the recorded index.
proof fn lemma_index_of_pcb_at(pcbs: Seq<ProcessControlBlock>, id: u32, i: int)
    requires
        0 <= i < pcbs.len(),
        index_of_pcb(pcbs, id) >= i,
        pcbs[i].id == id,
    ensures
        index_of_pcb(pcbs, id) == i,
    decreases i,
{
    if i > 0 {
        lemma_index_of_pcb_at(pcbs.drop_first(), id, i - 1);
    }
}

/// Helper: appending a descriptor with a fresh id makes it findable at
/// the end of the registry.
proof fn lemma_index_of_pcb_push_fresh(
    pcbs: Seq<ProcessControlBlock>,
    id: u32,
    pcb: ProcessControlBlock,
)
    requires
        index_of_pcb(pcbs, id) < 0,
        pcb.id == id,
    ensures
        index_of_pcb(pcbs.push(pcb), id) == pcbs.len(),
    decreases pcbs.len(),
{
    if pcbs.len() == 0 {
        assert(pcbs.push(pcb)[0] == pcb);
    } else {
        assert(pcbs.push(pcb)[0] == pcbs[0]);
        assert(pcbs.push(pcb).drop_first() =~= pcbs.drop_first().push(pcb));
        lemma_index_of_pcb_push_fresh(pcbs.drop_first(), id, pcb);
    }
}

/// Helper: appending a descriptor does not change where earlier ids are
/// found.
proof fn lemma_index_of_pcb_push_other(
    pcbs: Seq<ProcessControlBlock>,
    pcb: ProcessControlBlock,
    other: u32,
)
    requires
        index_of_pcb(pcbs, other) >= 0,
    ensures
        index_of_pcb(pcbs.push(pcb), other) == index_of_pcb(pcbs, other),
    decreases pcbs.len(),
{
    assert(pcbs.push(pcb)[0] == pcbs[0]);
    if pcbs[0].id != other {
        assert(pcbs.push(pcb).drop_first() =~= pcbs.drop_first().push(pcb));
        lemma_index_of_pcb_push_other(pcbs.drop_first(), pcb, other);
    }
}

/// Helper: replacing a descriptor by one with the same id does not change
/// where any id is found.
proof fn lemma_index_of_pcb_update(
    pcbs: Seq<ProcessControlBlock>,
    idx: int,
    pcb: ProcessControlBlock,
    id: u32,
)
    requires
        0 <= idx < pcbs.len(),
        pcb.id == pcbs[idx].id,
    ensures
        index_of_pcb(pcbs.update(idx, pcb), id) == index_of_pcb(pcbs, id),
    decreases pcbs.len(),
{
    if pcbs.len() > 0 {
        if idx == 0 {
            assert(pcbs.update(idx, pcb)[0] == pcb);
            if pcbs[0].id != id {
                assert(pcbs.update(idx, pcb).drop_first() =~= pcbs.drop_first());
            }
        } else {
            assert(pcbs.update(idx, pcb)[0] == pcbs[0]);
            if pcbs[0].id != id {
                assert(pcbs.update(idx, pcb).drop_first() =~= pcbs.drop_first().update(
                    idx - 1,
                    pcb,
                ));
                lemma_index_of_pcb_update(pcbs.drop_first(), idx - 1, pcb, id);
            }
        }
    }
}

/// Helper: two registries whose descriptors carry the same ids position
/// every id identically.
pub proof fn lemma_index_of_pcb_same_ids(
    p0: Seq<ProcessControlBlock>,
    p1: Seq<ProcessControlBlock>,
    id: u32,
)
    requires
        p0.len() == p1.len(),
        forall|i: int| 0 <= i < p0.len() ==> (#[trigger] p0[i].id) == p1[i].id,
    ensures
        index_of_pcb(p1, id) == index_of_pcb(p0, id),
    decreases p0.len(),
{
    if p0.len() > 0 {
        assert(p0[0].id == p1[0].id);
        if p0[0].id != id {
            assert forall|i: int| 0 <= i < p0.drop_first().len() implies (
            #[trigger] p0.drop_first()[i].id) == p1.drop_first()[i].id by {
                assert(p0[i + 1].id == p1[i + 1].id);
            }
            lemma_index_of_pcb_same_ids(p0.drop_first(), p1.drop_first(), id);
        }
    }
}

/// The two descriptors occupy the same words and belong to the same
/// process; only registers, counters, state or timers may differ.
pub open spec fn same_placement(a: ProcessControlBlock, b: ProcessControlBlock) -> bool {
    &&& a.id == b.id
    &&& a.mem_start_address == b.mem_start_address
    &&& a.mem_in_start_address == b.mem_in_start_address
    &&& a.mem_out_start_address == b.mem_out_start_address
    &&& a.mem_temp_start_address == b.mem_temp_start_address
    &&& a.mem_end_address == b.mem_end_address
}

/// Helper: replacing a descriptor by one with the same placement keeps
/// the registry tiled and the ids unique.
proof fn lemma_update_preserves_layout(
    pcbs: Seq<ProcessControlBlock>,
    idx: int,
    pcb: ProcessControlBlock,
    used: int,
)
    requires
        0 <= idx < pcbs.len(),
        pcbs_chained(pcbs, used),
        pcbs_unique(pcbs),
        same_placement(pcbs[idx], pcb),
    ensures
        pcbs_chained(pcbs.update(idx, pcb), used),
        pcbs_unique(pcbs.update(idx, pcb)),
{
    let updated = pcbs.update(idx, pcb);
    assert forall|i: int| 0 <= i < updated.len() - 1 implies (
    #[trigger] updated[i + 1].mem_start_address) == updated[i].mem_end_address by {
        assert(pcbs[i + 1].mem_start_address == pcbs[i].mem_end_address);
    }
    assert(updated.last().mem_end_address == pcbs.last().mem_end_address);
}

/// What `create_process` does to memory: the image lands at the old bump
/// pointer, a descriptor for exactly that span is appended with its
/// turnaround timer already running, and nothing else changes.
pub open spec fn created_process(m0: Memory, m1: Memory, info: ProgramInfo, data: Seq<u32>) -> bool {
    &&& m1.data@ == overwrite(m0.data@, m0.current_data_idx as int, data)
    &&& m1.current_data_idx == m0.current_data_idx + data.len()
    &&& m1.pcbs@.len() == m0.pcbs@.len() + 1
    &&& m1.pcbs@.drop_last() == m0.pcbs@
    &&& m1.pcbs@.last().is_initial(
        info,
        m0.current_data_idx,
        (m0.current_data_idx + data.len()) as usize,
    )
    &&& m1.pcbs@.last().turnaround_time_is_recording
}

impl Memory {
    /// Every operation preserves this shape.
    pub open spec fn wf(self) -> bool {
        &&& self.data@.len() == MEMORY_SIZE
        &&& self.current_data_idx <= MEMORY_SIZE
        &&& pcbs_chained(self.pcbs@, self.current_data_idx as int)
        &&& pcbs_unique(self.pcbs@)
        &&& forall|i: int| 0 <= i < self.pcbs@.len() ==> (#[trigger] self.pcbs@[i]).wf()
    }

    /// Whether a process with this id is live.
    pub open spec fn has_pcb_for(self, id: u32) -> bool {
        index_of_pcb(self.pcbs@, id) >= 0
    }

    /// Registry position of a live process.
    pub open spec fn pcb_index_of(self, id: u32) -> int {
        index_of_pcb(self.pcbs@, id)
    }

    /// The live descriptor of a process (meaningful only when
    /// `has_pcb_for` holds).
    pub open spec fn spec_pcb_for(self, id: u32) -> ProcessControlBlock {
        self.pcbs@[self.pcb_index_of(id)]
    }

    pub fn new() -> (r: Memory)
        ensures
            r.wf(),
            r.pcbs@.len() == 0,
            r.current_data_idx == 0,
            r.data@ == Seq::new(MEMORY_SIZE as nat, |i: int| 0u32),
    {
        Memory { pcbs: Vec::new(), data: zero_words(MEMORY_SIZE), current_data_idx: 0 }
    }

    /// Bounds-checked single-word read.
    pub fn read_from(&self, address: usize) -> (r: u32)
        requires
            self.wf(),
            address < MEMORY_SIZE,
        ensures
            r == self.data@[address as int],
    {
        self.data[address]
    }

    /// Copy of the words in `[start_address, end_address)`.
    pub fn read_block_from(&self, start_address: usize, end_address: usize) -> (r: Vec<u32>)
        requires
            self.wf(),
            start_address <= end_address <= MEMORY_SIZE,
        ensures
            r@ == self.data@.subrange(start_address as int, end_address as int),
    {
        copy_words(&self.data, start_address, end_address)
    }

    /// Bounds-checked single-word write.
    pub fn write_to(&mut self, address: usize, value: u32)
        requires
            old(self).wf(),
            address < MEMORY_SIZE,
        ensures
            final(self).wf(),
            final(self).data@ == old(self).data@.update(address as int, value),
            final(self).pcbs@ == old(self).pcbs@,
            final(self).current_data_idx == old(self).current_data_idx,
    {
        self.data[address] = value;
    }

    /// Writes a block of words starting at `address`.
    pub fn write_block_to(&mut self, address: usize, data: &[u32])
        requires
            old(self).wf(),
            address + data@.len() <= MEMORY_SIZE,
        ensures
            final(self).wf(),
            final(self).data@ == overwrite(old(self).data@, address as int, data@),
            final(self).pcbs@ == old(self).pcbs@,
            final(self).current_data_idx == old(self).current_data_idx,
    {
        write_words(&mut self.data, address, data);
    }

    /// Admits one program: writes its image at the bump pointer, registers
    /// a descriptor spanning exactly those words, and starts the new
    /// process's turnaround timer.
    pub fn create_process(&mut self, program_info: &ProgramInfo, program_data: &[u32])
        requires
            old(self).wf(),
            program_data@.len() == program_info.total_size(),
            old(self).current_data_idx + program_data@.len() <= MEMORY_SIZE,
            !old(self).has_pcb_for(program_info.id),
        ensures
            final(self).wf(),
            created_process(*old(self), *final(self), *program_info, program_data@),
            final(self).has_pcb_for(program_info.id),
            final(self).spec_pcb_for(program_info.id) == final(self).pcbs@.last(),
            forall|other: u32|
                #[trigger] old(self).has_pcb_for(other) ==> final(self).has_pcb_for(other)
                    && final(self).spec_pcb_for(other) == old(self).spec_pcb_for(other),
            forall|other: u32|
                !old(self).has_pcb_for(other) && other != program_info.id ==> !(
                #[trigger] final(self).has_pcb_for(other)),
    {
        let start_address = self.current_data_idx;
        let end_address = start_address + program_data.len();
        self.current_data_idx = end_address;

        write_words(&mut self.data, start_address, program_data);

        let mut pcb = ProcessControlBlock::new(program_info, start_address, end_address);
        pcb.start_record_turnaround_time();
        self.pcbs.push(pcb);

        proof {
            let prev = old(self).pcbs@;
            let pcbs = self.pcbs@;
            let n = pcbs.len() - 1;
            assert(pcbs.drop_last() =~= prev);
            lemma_index_of_pcb(prev, program_info.id);
            lemma_index_of_pcb_push_fresh(prev, program_info.id, pcb);
            assert forall|i: int, j: int| 0 <= i < j < pcbs.len() implies (
            #[trigger] pcbs[i].id) != (#[trigger] pcbs[j].id) by {
                if j < n {
                    assert(prev[i].id != prev[j].id);
                } else {
                    assert(pcbs[i] == prev[i]);
                    if prev[i].id == program_info.id {
                        assert(exists|k: int|
                            0 <= k < prev.len() && (#[trigger] prev[k].id) == program_info.id);
                    }
                }
            }
            assert forall|i: int| 0 <= i < pcbs.len() - 1 implies (
            #[trigger] pcbs[i + 1].mem_start_address) == pcbs[i].mem_end_address by {
                if i < n - 1 {
                    assert(prev[i + 1].mem_start_address == prev[i].mem_end_address);
                }
            }
            assert(pcbs =~= prev.push(pcb));
            assert forall|other: u32| #[trigger] old(self).has_pcb_for(other) implies self
                .has_pcb_for(other) && self.spec_pcb_for(other) == old(self).spec_pcb_for(
                other,
            ) by {
                lemma_index_of_pcb(prev, other);
                lemma_index_of_pcb_push_other(prev, pcb, other);
            }
            assert forall|other: u32|
                !old(self).has_pcb_for(other) && other != program_info.id implies !(
            #[trigger] self.has_pcb_for(other)) by {
                lemma_index_of_pcb(prev, other);
                lemma_index_of_pcb(pcbs, other);
                if self.has_pcb_for(other) {
                    let w = choose|w: int| 0 <= w < pcbs.len() && pcbs[w].id == other;
                    assert(w < n ==> prev[w].id == other);
                }
            }
        }
    }

    /// Registry position of a live process, found by scanning.
    fn find_pcb_index(&self, process_id: u32) -> (r: usize)
        requires
            self.has_pcb_for(process_id),
        ensures
            r == self.pcb_index_of(process_id),
            r < self.pcbs@.len(),
            self.pcbs@[r as int].id == process_id,
    {
        proof {
            lemma_index_of_pcb(self.pcbs@, process_id);
        }
        let ghost target = index_of_pcb(self.pcbs@, process_id);
        let n: usize = self.pcbs.len();
        let mut i: usize = 0;
        loop
            invariant
                n == self.pcbs@.len(),
                i <= target < n,
                target == index_of_pcb(self.pcbs@, process_id),
                self.pcbs@[target].id == process_id,
            decreases self.pcbs@.len() - i,
        {
            if self.pcbs[i].id == process_id {
                proof {
                    lemma_index_of_pcb_at(self.pcbs@, process_id, i as int);
                }
                return i;
            }
            i = i + 1;
        }
    }

    /// The live descriptor of a process.
    pub fn get_pcb_for(&self, process_id: u32) -> (r: &ProcessControlBlock)
        requires
            self.has_pcb_for(process_id),
        ensures
            *r == self.spec_pcb_for(process_id),
            r.id == process_id,
    {
        let i = self.find_pcb_index(process_id);
        &self.pcbs[i]
    }

    /// Ids of all live processes, in admission order, or sorted ascending
    /// when `should_sort` is set.
    pub fn get_pcbs(&self, should_sort: bool) -> (r: Vec<u32>)
        ensures
            r@.to_multiset() == self.pcbs@.map_values(|p: ProcessControlBlock| p.id).to_multiset(),
            !should_sort ==> r@ == self.pcbs@.map_values(|p: ProcessControlBlock| p.id),
            should_sort ==> forall|i: int, j: int|
                0 <= i < j < r@.len() ==> (#[trigger] r@[i]) <= (#[trigger] r@[j]),
    {
        let ghost ids = self.pcbs@.map_values(|p: ProcessControlBlock| p.id);
        let mut r: Vec<u32> = Vec::new();
        let mut i: usize = 0;
        while i < self.pcbs.len()
            invariant
                i <= self.pcbs@.len(),
                ids == self.pcbs@.map_values(|p: ProcessControlBlock| p.id),
                r@ == ids.take(i as int),
            decreases self.pcbs@.len() - i,
        {
            r.push(self.pcbs[i].id);
            i = i + 1;
            proof {
                assert(r@ =~= ids.take(i as int));
            }
        }
        proof {
            assert(r@ =~= ids);
        }
        if should_sort {
            r = sort_ids(r);
        }
        r
    }

    /// Clears the descriptor registry, zeroes the word array, and resets
    /// the bump pointer.
    pub fn core_dump(&mut self)
        ensures
            final(self).wf(),
            final(self).pcbs@.len() == 0,
            final(self).current_data_idx == 0,
            final(self).data@ == Seq::new(MEMORY_SIZE as nat, |i: int| 0u32),
    {
        self.pcbs.clear();
        self.data = zero_words(MEMORY_SIZE);
        self.current_data_idx = 0;
    }

    /// Words still free beyond the bump pointer.
    pub fn get_remaining_memory(&self) -> (r: usize)
        requires
            self.wf(),
        ensures
            r == MEMORY_SIZE - self.current_data_idx,
    {
        MEMORY_SIZE - self.current_data_idx
    }

    /// Sets the lifecycle state of a live process; everything else about
    /// it is untouched.
    pub fn set_state_for(&mut self, process_id: u32, state: ProcessState)
        requires
            old(self).wf(),
            old(self).has_pcb_for(process_id),
        ensures
            final(self).wf(),
            final(self).pcbs@ == old(self).pcbs@.update(
                old(self).pcb_index_of(process_id),
                (ProcessControlBlock { state, ..old(self).spec_pcb_for(process_id) }),
            ),
            final(self).data@ == old(self).data@,
            final(self).current_data_idx == old(self).current_data_idx,
            final(self).pcb_index_of(process_id) == old(self).pcb_index_of(process_id),
            forall|other: u32|
                final(self).pcb_index_of(other) == old(self).pcb_index_of(other),
            forall|other: u32|
                old(self).has_pcb_for(other) && other != process_id ==> final(self).spec_pcb_for(
                    other,
                ) == old(self).spec_pcb_for(other),
    {
        let i = self.find_pcb_index(process_id);
        let mut pcb = self.pcbs.remove(i);
        pcb.state = state;
        self.pcbs.insert(i, pcb);
        proof {
            self.lemma_after_update(*old(self), process_id, i as int);
        }
    }

    /// Starts the burst timer of a live process (dispatch onto the CPU).
    pub fn start_burst_for(&mut self, process_id: u32)
        requires
            old(self).wf(),
            old(self).has_pcb_for(process_id),
        ensures
            final(self).wf(),
            final(self).pcbs@ == old(self).pcbs@.update(
                old(self).pcb_index_of(process_id),
                (ProcessControlBlock {
                    current_burst_start_time_ns: final(self).spec_pcb_for(
                        process_id,
                    ).current_burst_start_time_ns,
                    burst_time_is_recording: true,
                    ..old(self).spec_pcb_for(process_id)
                }),
            ),
            final(self).data@ == old(self).data@,
            final(self).current_data_idx == old(self).current_data_idx,
            final(self).pcb_index_of(process_id) == old(self).pcb_index_of(process_id),
            forall|other: u32|
                final(self).pcb_index_of(other) == old(self).pcb_index_of(other),
            forall|other: u32|
                old(self).has_pcb_for(other) && other != process_id ==> final(self).spec_pcb_for(
                    other,
                ) == old(self).spec_pcb_for(other),
    {
        let i = self.find_pcb_index(process_id);
        let mut pcb = self.pcbs.remove(i);
        pcb.start_record_burst_time();
        self.pcbs.insert(i, pcb);
        proof {
            self.lemma_after_update(*old(self), process_id, i as int);
        }
    }

    /// Saves a register file and program counter back into a live
    /// process's descriptor and closes its running burst.
    pub fn save_context_for(
        &mut self,
        process_id: u32,
        registers: &Vec<u32>,
        program_counter: usize,
    )
        requires
            old(self).wf(),
            old(self).has_pcb_for(process_id),
            old(self).spec_pcb_for(process_id).burst_time_is_recording,
            registers@.len() == crate::NUM_REGISTERS,
        ensures
            final(self).wf(),
            final(self).pcbs@ == old(self).pcbs@.update(
                old(self).pcb_index_of(process_id),
                (ProcessControlBlock {
                    registers: final(self).spec_pcb_for(process_id).registers,
                    program_counter,
                    burst_times_ns: final(self).spec_pcb_for(process_id).burst_times_ns,
                    burst_time_is_recording: false,
                    ..old(self).spec_pcb_for(process_id)
                }),
            ),
            final(self).spec_pcb_for(process_id).registers@ == registers@,
            final(self).spec_pcb_for(process_id).burst_times_ns@ == old(self).spec_pcb_for(
                process_id,
            ).burst_times_ns@.push(
                final(self).spec_pcb_for(process_id).burst_times_ns@.last(),
            ),
            final(self).data@ == old(self).data@,
            final(self).current_data_idx == old(self).current_data_idx,
            final(self).pcb_index_of(process_id) == old(self).pcb_index_of(process_id),
            forall|other: u32|
                final(self).pcb_index_of(other) == old(self).pcb_index_of(other),
            forall|other: u32|
                old(self).has_pcb_for(other) && other != process_id ==> final(self).spec_pcb_for(
                    other,
                ) == old(self).spec_pcb_for(other),
    {
        let i = self.find_pcb_index(process_id);
        let mut pcb = self.pcbs.remove(i);
        pcb.program_counter = program_counter;
        let mut regs: Vec<u32> = Vec::new();
        let mut k: usize = 0;
        while k < registers.len()
            invariant
                k <= registers@.len(),
                regs@ == registers@.take(k as int),
            decreases registers@.len() - k,
        {
            regs.push(registers[k]);
            k = k + 1;
            proof {
                assert(regs@ =~= registers@.take(k as int));
            }
        }
        proof {
            assert(regs@ =~= registers@);
        }
        pcb.registers = regs;
        pcb.end_record_burst_time();
        self.pcbs.insert(i, pcb);
        proof {
            self.lemma_after_update(*old(self), process_id, i as int);
        }
    }

    /// Stops the turnaround timer of a live process (termination).
    pub fn end_turnaround_for(&mut self, process_id: u32)
        requires
            old(self).wf(),
            old(self).has_pcb_for(process_id),
            old(self).spec_pcb_for(process_id).turnaround_time_is_recording,
        ensures
            final(self).wf(),
            final(self).pcbs@ == old(self).pcbs@.update(
                old(self).pcb_index_of(process_id),
                (ProcessControlBlock {
                    turnaround_time_ns: final(self).spec_pcb_for(process_id).turnaround_time_ns,
                    turnaround_time_is_recording: false,
                    ..old(self).spec_pcb_for(process_id)
                }),
            ),
            final(self).data@ == old(self).data@,
            final(self).current_data_idx == old(self).current_data_idx,
            final(self).pcb_index_of(process_id) == old(self).pcb_index_of(process_id),
            forall|other: u32|
                final(self).pcb_index_of(other) == old(self).pcb_index_of(other),
            forall|other: u32|
                old(self).has_pcb_for(other) && other != process_id ==> final(self).spec_pcb_for(
                    other,
                ) == old(self).spec_pcb_for(other),
    {
        let i = self.find_pcb_index(process_id);
        let mut pcb = self.pcbs.remove(i);
        pcb.end_record_turnaround_time();
        self.pcbs.insert(i, pcb);
        proof {
            self.lemma_after_update(*old(self), process_id, i as int);
        }
    }

    /// Helper for the descriptor mutators: after remove + mutate + insert
    /// the registry is the old one with a same-placement update, so the
    /// layout invariants and every lookup survive.
    proof fn lemma_after_update(self, prev: Memory, process_id: u32, i: int)
        requires
            prev.wf(),
            prev.has_pcb_for(process_id),
            i == prev.pcb_index_of(process_id),
            self.pcbs@ == prev.pcbs@.remove(i).insert(i, self.pcbs@[i]),
            same_placement(prev.pcbs@[i], self.pcbs@[i]),
            self.pcbs@[i].wf(),
            self.data@ == prev.data@,
            self.data@.len() == MEMORY_SIZE,
            self.current_data_idx == prev.current_data_idx,
        ensures
            self.wf(),
            self.pcbs@ == prev.pcbs@.update(i, self.pcbs@[i]),
            self.pcb_index_of(process_id) == i,
            forall|other: u32| self.pcb_index_of(other) == prev.pcb_index_of(other),
            forall|other: u32|
                prev.has_pcb_for(other) && other != process_id ==> self.spec_pcb_for(other)
                    == prev.spec_pcb_for(other),
    {
        lemma_index_of_pcb(prev.pcbs@, process_id);
        assert(self.pcbs@ =~= prev.pcbs@.update(i, self.pcbs@[i]));
        lemma_update_preserves_layout(
            prev.pcbs@,
            i,
            self.pcbs@[i],
            prev.current_data_idx as int,
        );
        assert forall|other: u32| self.pcb_index_of(other) == prev.pcb_index_of(other) by {
            lemma_index_of_pcb_update(prev.pcbs@, i, self.pcbs@[i], other);
        }
        assert forall|other: u32|
            prev.has_pcb_for(other) && other != process_id implies self.spec_pcb_for(other)
            == prev.spec_pcb_for(other) by {
            lemma_index_of_pcb(prev.pcbs@, other);
        }
    }
}

/// Combined length of all live process regions.
pub open spec fn sum_region_lengths(pcbs: Seq<ProcessControlBlock>) -> int
    decreases pcbs.len(),
{
    if pcbs.len() == 0 {
        0
    } else {
        sum_region_lengths(pcbs.drop_last()) + (pcbs.last().mem_end_address
            - pcbs.last().mem_start_address)
    }
}

/// Every live descriptor has ordered region boundaries inside `[0,
/// MEMORY_SIZE]`.
pub proof fn lemma_live_pcb_regions(m: Memory, i: int)
    requires
        m.wf(),
        0 <= i < m.pcbs@.len(),
    ensures
        m.pcbs@[i].mem_start_address <= m.pcbs@[i].mem_in_start_address,
        m.pcbs@[i].mem_in_start_address <= m.pcbs@[i].mem_out_start_address,
        m.pcbs@[i].mem_out_start_address <= m.pcbs@[i].mem_temp_start_address,
        m.pcbs@[i].mem_temp_start_address <= m.pcbs@[i].mem_end_address,
        m.pcbs@[i].mem_end_address <= MEMORY_SIZE,
{
}

/// The memory high-water mark equals the sum of the live region lengths,
/// and that sum never exceeds the memory capacity.  In particular the
/// images admitted in one batch together fit in memory.
pub proof fn lemma_memory_accounting(m: Memory)
    requires
        m.wf(),
    ensures
        sum_region_lengths(m.pcbs@) == m.current_data_idx,
        sum_region_lengths(m.pcbs@) <= MEMORY_SIZE,
{
    lemma_chain_sum(m.pcbs@, m.current_data_idx as int);
}

/// Helper: in a tiled registry the region lengths telescope to the bump
/// pointer.
proof fn lemma_chain_sum(pcbs: Seq<ProcessControlBlock>, used: int)
    requires
        pcbs_chained(pcbs, used),
        forall|i: int| 0 <= i < pcbs.len() ==> (#[trigger] pcbs[i]).wf(),
    ensures
        sum_region_lengths(pcbs) == used - (if pcbs.len() == 0 {
            used
        } else {
            pcbs[0].mem_start_address as int
        }),
    decreases pcbs.len(),
{
    if pcbs.len() > 0 {
        let front = pcbs.drop_last();
        assert forall|i: int| 0 <= i < front.len() - 1 implies (
        #[trigger] front[i + 1].mem_start_address) == front[i].mem_end_address by {
            assert(pcbs[i + 1].mem_start_address == pcbs[i].mem_end_address);
        }
        if pcbs.len() > 1 {
            assert(pcbs[front.len() - 1 + 1].mem_start_address == pcbs[front.len()
                - 1].mem_end_address);
        }
        lemma_chain_sum(front, pcbs.last().mem_start_address as int);
    }
}

/// No two live processes overlap in memory.
pub proof fn lemma_no_pcb_overlap(m: Memory, i: int, j: int)
    requires
        m.wf(),
        0 <= i < m.pcbs@.len(),
        0 <= j < m.pcbs@.len(),
        i != j,
    ensures
        m.pcbs@[i].mem_end_address <= m.pcbs@[j].mem_start_address
            || m.pcbs@[j].mem_end_address <= m.pcbs@[i].mem_start_address,
{
    if i < j {
        lemma_pcbs_ordered(m.pcbs@, m.current_data_idx as int, i, j);
    } else {
        lemma_pcbs_ordered(m.pcbs@, m.current_data_idx as int, j, i);
    }
}

/// Helper: live regions appear in ascending memory order.
proof fn lemma_pcbs_ordered(pcbs: Seq<ProcessControlBlock>, used: int, i: int, j: int)
    requires
        pcbs_chained(pcbs, used),
        forall|k: int| 0 <= k < pcbs.len() ==> (#[trigger] pcbs[k]).wf(),
        0 <= i < j < pcbs.len(),
    ensures
        pcbs[i].mem_end_address <= pcbs[j].mem_start_address,
    decreases j - i,
{
    assert(pcbs[(j - 1) + 1].mem_start_address == pcbs[j - 1].mem_end_address);
    if j > i + 1 {
        lemma_pcbs_ordered(pcbs, used, i, j - 1);
    }
}

/// Round trip through memory: right after `create_process`, reading the
/// words `[mem_start, mem_end)` of the new descriptor returns exactly the
/// image that was written; and once memory is wiped the same range reads
/// as zeros.
pub proof fn lemma_create_then_read(m0: Memory, m1: Memory, info: ProgramInfo, data: Seq<u32>)
    requires
        m0.wf(),
        data.len() == info.total_size(),
        m0.current_data_idx + data.len() <= MEMORY_SIZE,
        created_process(m0, m1, info, data),
    ensures
        ({
            let p = m1.pcbs@.last();
            m1.data@.subrange(p.mem_start_address as int, p.mem_end_address as int) == data
        }),
{
    let p = m1.pcbs@.last();
    assert(m1.data@.subrange(p.mem_start_address as int, p.mem_end_address as int) =~= data);
}

/// A wiped memory reads as zeros over any range.
pub proof fn lemma_read_after_core_dump(m: Memory, start: int, end: int)
    requires
        m.data@ == Seq::new(MEMORY_SIZE as nat, |i: int| 0u32),
        0 <= start <= end <= MEMORY_SIZE,
    ensures
        m.data@.subrange(start, end) == Seq::new((end - start) as nat, |i: int| 0u32),
{
    assert(m.data@.subrange(start, end) =~= Seq::new((end - start) as nat, |i: int| 0u32));
}

/// Insertion sort for process ids; keeps exactly the same entries.
fn sort_ids(ids: Vec<u32>) -> (r: Vec<u32>)
    ensures
        r@.to_multiset() == ids@.to_multiset(),
        forall|i: int, j: int| 0 <= i < j < r@.len() ==> (#[trigger] r@[i]) <= (#[trigger] r@[j]),
{
    let mut r: Vec<u32> = Vec::new();
    proof {
        assert(r@ =~= ids@.take(0));
    }
    let mut i: usize = 0;
    while i < ids.len()
        invariant
            i <= ids@.len(),
            r@.to_multiset() == ids@.take(i as int).to_multiset(),
            r@.len() == i,
            forall|a: int, b: int| 0 <= a < b < r@.len() ==> (#[trigger] r@[a]) <= (#[trigger] r@[b]),
        decreases ids@.len() - i,
    {
        let x = ids[i];
        let mut j: usize = r.len();
        while j > 0 && r[j - 1] > x
            invariant
                j <= r@.len(),
                forall|k: int| j <= k < r@.len() ==> (#[trigger] r@[k]) > x,
            decreases j,
        {
            j = j - 1;
        }
        proof {
            let inserted = r@.insert(j as int, x);
            assert forall|a: int, b: int| 0 <= a < b < inserted.len() implies (
            #[trigger] inserted[a]) <= (#[trigger] inserted[b]) by {
                if b < j {
                    assert(inserted[a] == r@[a] && inserted[b] == r@[b]);
                } else if a < j && b == j {
                    assert(inserted[a] == r@[a] && inserted[b] == x);
                    assert(r@[j - 1] <= x);
                    if a < j - 1 {
                        assert(r@[a] <= r@[j - 1]);
                    }
                } else if a < j && b > j {
                    assert(inserted[a] == r@[a] && inserted[b] == r@[b - 1]);
                } else if a == j && b > j {
                    assert(inserted[a] == x && inserted[b] == r@[b - 1]);
                } else {
                    assert(a > j && b > j);
                    assert(inserted[a] == r@[a - 1] && inserted[b] == r@[b - 1]);
                }
            }
            lemma_insert_id_multiset(r@, j as int, x);
            assert(ids@.take(i as int).push(ids@[i as int]) =~= ids@.take(i + 1));
            ids@.take(i as int).to_multiset_ensures();
        }
        r.insert(j, x);
        i = i + 1;
    }
    proof {
        assert(ids@.take(ids@.len() as int) =~= ids@);
    }
    r
}

proof fn lemma_insert_id_multiset(s: Seq<u32>, at: int, x: u32)
    requires
        0 <= at <= s.len(),
    ensures
        s.insert(at, x).to_multiset() == s.to_multiset().insert(x),
{
    broadcast use vstd::multiset::group_multiset_axioms;

    assert(s.insert(at, x) =~= s.take(at).push(x) + s.skip(at));
    assert(s =~= s.take(at) + s.skip(at));
    s.take(at).to_multiset_ensures();
    vstd::seq_lib::lemma_multiset_commutative(s.take(at).push(x), s.skip(at));
    vstd::seq_lib::lemma_multiset_commutative(s.take(at), s.skip(at));
    assert(s.insert(at, x).to_multiset() =~= s.to_multiset().insert(x));
}

} // verus!
