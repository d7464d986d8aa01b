//! The long-term scheduler: admits programs from the disk into memory
//! while they fit, and at the end of a batch flushes every resident
//! program's `output | temp` region back to disk and reclaims memory.

use vstd::prelude::*;

verus! {

use std::collections::VecDeque;
use crate::MEMORY_SIZE;
use crate::disk::Disk;
use crate::memory::{created_process, Memory};
use crate::words::overwrite;

/// Admission queue and the list of programs resident in memory.
pub struct LongTermScheduler {
    pub program_queue: VecDeque<u32>,
    pub unload_list: Vec<u32>,
}

/// The ids a batch admits: the longest prefix of the queue whose images
/// fit one after another in the remaining memory.
pub open spec fn spec_batch(queue: Seq<u32>, infos: Seq<crate::program_info::ProgramInfo>, used: int) -> Seq<u32>
    decreases queue.len(),
{
    if queue.len() == 0 {
        Seq::empty()
    } else {
        let size = crate::disk::spec_info_of(infos, queue[0]).total_size();
        if MEMORY_SIZE - used < size {
            Seq::empty()
        } else {
            seq![queue[0]] + spec_batch(queue.drop_first(), infos, used + size)
        }
    }
}

/// Combined image size of a row of programs, taken from their disk
/// metadata.
pub open spec fn spec_size_sum(infos: Seq<crate::program_info::ProgramInfo>, ids: Seq<u32>) -> int
    decreases ids.len(),
{
    if ids.len() == 0 {
        0
    } else {
        spec_size_sum(infos, ids.drop_last()) + crate::disk::spec_info_of(
            infos,
            ids.last(),
        ).total_size()
    }
}

/// The memory words after the images of `ids` are copied out of `pool`
/// one after another, starting at `used`.
pub open spec fn spec_admit(
    infos: Seq<crate::program_info::ProgramInfo>,
    pool: Seq<u32>,
    ids: Seq<u32>,
    data: Seq<u32>,
    used: int,
) -> Seq<u32>
    decreases ids.len(),
{
    if ids.len() == 0 {
        data
    } else {
        let info = crate::disk::spec_info_of(infos, ids.last());
        overwrite(
            spec_admit(infos, pool, ids.drop_last(), data, used),
            used + spec_size_sum(infos, ids.drop_last()),
            pool.subrange(info.data_start_idx as int, info.data_start_idx + info.total_size()),
        )
    }
}

/// The pool after each listed program's `output | temp` words are
/// overwritten with the memory block its live descriptor spans, in list
/// order.
pub open spec fn spec_flush(
    infos: Seq<crate::program_info::ProgramInfo>,
    ids: Seq<u32>,
    m: Memory,
    pool: Seq<u32>,
) -> Seq<u32>
    decreases ids.len(),
{
    if ids.len() == 0 {
        pool
    } else {
        let info = crate::disk::spec_info_of(infos, ids[0]);
        let pcb = m.spec_pcb_for(ids[0]);
        spec_flush(
            infos,
            ids.drop_first(),
            m,
            overwrite(
                pool,
                info.data_start_idx + info.instruction_buffer_size + info.in_buffer_size,
                m.data@.subrange(
                    pcb.mem_out_start_address as int,
                    pcb.mem_end_address as int,
                ),
            ),
        )
    }
}

/// Helper: flushing one more program flushes it over the result so far.
proof fn lemma_flush_snoc(
    infos: Seq<crate::program_info::ProgramInfo>,
    ids: Seq<u32>,
    id: u32,
    m: Memory,
    pool: Seq<u32>,
)
    ensures
        spec_flush(infos, ids.push(id), m, pool) == ({
            let info = crate::disk::spec_info_of(infos, id);
            let pcb = m.spec_pcb_for(id);
            overwrite(
                spec_flush(infos, ids, m, pool),
                info.data_start_idx + info.instruction_buffer_size + info.in_buffer_size,
                m.data@.subrange(
                    pcb.mem_out_start_address as int,
                    pcb.mem_end_address as int,
                ),
            )
        }),
    decreases ids.len(),
{
    let info = crate::disk::spec_info_of(infos, id);
    let pcb = m.spec_pcb_for(id);
    let at = info.data_start_idx + info.instruction_buffer_size + info.in_buffer_size;
    let block = m.data@.subrange(pcb.mem_out_start_address as int, pcb.mem_end_address as int);
    if ids.len() == 0 {
        assert(ids.push(id)[0] == id);
        assert(ids.push(id).drop_first() =~= Seq::<u32>::empty());
        assert(spec_flush(infos, ids.push(id).drop_first(), m, overwrite(pool, at, block))
            == overwrite(pool, at, block));
        assert(spec_flush(infos, ids.push(id), m, pool) == overwrite(pool, at, block));
        assert(spec_flush(infos, ids, m, pool) == pool);
    } else {
        assert(ids.push(id)[0] == ids[0]);
        assert(ids.push(id).drop_first() =~= ids.drop_first().push(id));
        let info0 = crate::disk::spec_info_of(infos, ids[0]);
        let pcb0 = m.spec_pcb_for(ids[0]);
        let pool0 = overwrite(
            pool,
            info0.data_start_idx + info0.instruction_buffer_size + info0.in_buffer_size,
            m.data@.subrange(
                pcb0.mem_out_start_address as int,
                pcb0.mem_end_address as int,
            ),
        );
        lemma_flush_snoc(infos, ids.drop_first(), id, m, pool0);
        assert(spec_flush(infos, ids.push(id), m, pool) == spec_flush(
            infos,
            ids.drop_first().push(id),
            m,
            pool0,
        ));
        assert(spec_flush(infos, ids, m, pool) == spec_flush(infos, ids.drop_first(), m, pool0));
    }
}

/// A batch is a prefix of the queue.
pub proof fn lemma_spec_batch_len(
    queue: Seq<u32>,
    infos: Seq<crate::program_info::ProgramInfo>,
    used: int,
)
    ensures
        spec_batch(queue, infos, used).len() <= queue.len(),
    decreases queue.len(),
{
    if queue.len() > 0 {
        let size = crate::disk::spec_info_of(infos, queue[0]).total_size();
        if MEMORY_SIZE - used >= size {
            lemma_spec_batch_len(queue.drop_first(), infos, used + size);
        }
    }
}

impl LongTermScheduler {
    /// The scheduler's hold on the disk and memory: every queued program
    /// is on disk and not yet resident, no id is queued twice, and every
    /// resident program has a live descriptor whose region boundaries
    /// agree with its disk metadata.
    pub open spec fn inv(self, disk: Disk, memory: Memory) -> bool {
        let queue = self.program_queue@;
        let unload = self.unload_list@;
        &&& disk.wf()
        &&& memory.wf()
        &&& forall|k: int|
            0 <= k < queue.len() ==> disk.has_info_for(#[trigger] queue[k])
                && !memory.has_pcb_for(queue[k])
        &&& forall|i: int, j: int|
            0 <= i < j < queue.len() ==> (#[trigger] queue[i]) != (#[trigger] queue[j])
        &&& forall|i: int, j: int|
            0 <= i < j < unload.len() ==> (#[trigger] unload[i]) != (#[trigger] unload[j])
        &&& forall|k: int|
            0 <= k < unload.len() ==> {
                let id = #[trigger] unload[k];
                let info = disk.spec_info_for(id);
                let pcb = memory.spec_pcb_for(id);
                &&& memory.has_pcb_for(id)
                &&& disk.has_info_for(id)
                &&& pcb.mem_out_start_address - pcb.mem_start_address
                    == info.instruction_buffer_size + info.in_buffer_size
                &&& pcb.mem_end_address - pcb.mem_out_start_address == info.out_temp_size()
            }
    }

    pub fn new() -> (r: LongTermScheduler)
        ensures
            r.program_queue@.len() == 0,
            r.unload_list@.len() == 0,
    {
        LongTermScheduler { program_queue: VecDeque::new(), unload_list: Vec::new() }
    }

    /// Appends program ids to the admission queue.
    pub fn enqueue_programs(&mut self, program_ids: Vec<u32>)
        ensures
            final(self).program_queue@ == old(self).program_queue@ + program_ids@,
            final(self).unload_list@ == old(self).unload_list@,
    {
        let mut i: usize = 0;
        while i < program_ids.len()
            invariant
                i <= program_ids@.len(),
                self.program_queue@ == old(self).program_queue@ + program_ids@.take(i as int),
                self.unload_list@ == old(self).unload_list@,
            decreases program_ids@.len() - i,
        {
            self.program_queue.push_back(program_ids[i]);
            i = i + 1;
            proof {
                assert(self.program_queue@ =~= old(self).program_queue@ + program_ids@.take(
                    i as int,
                ));
            }
        }
        proof {
            assert(self.program_queue@ =~= old(self).program_queue@ + program_ids@);
        }
    }

    /// Tries to admit the program at the front of the queue.  Succeeds
    /// exactly when the queue is non-empty and the image fits in the
    /// remaining memory; on success the image is copied into memory, a
    /// descriptor is registered, and the program becomes resident.
    pub fn step(&mut self, disk: &Disk, memory: &mut Memory) -> (r: Result<u32, &'static str>)
        requires
            old(self).inv(*disk, *old(memory)),
        ensures
            final(self).inv(*disk, *final(memory)),
            old(self).program_queue@.len() == 0 ==> {
                &&& r matches Err(m) && m@ == "No programs in queue"@
                &&& *final(self) == *old(self)
                &&& *final(memory) == *old(memory)
            },
            old(self).program_queue@.len() > 0 && MEMORY_SIZE - old(memory).current_data_idx
                < disk.spec_info_for(old(self).program_queue@[0]).total_size() ==> {
                &&& r matches Err(m) && m@ == "Not enough memory to load program"@
                &&& *final(self) == *old(self)
                &&& *final(memory) == *old(memory)
            },
            old(self).program_queue@.len() > 0 && MEMORY_SIZE - old(memory).current_data_idx
                >= disk.spec_info_for(old(self).program_queue@[0]).total_size() ==> {
                let id = old(self).program_queue@[0];
                let info = disk.spec_info_for(id);
                &&& r == Ok::<u32, &'static str>(id)
                &&& final(self).program_queue@ == old(self).program_queue@.drop_first()
                &&& final(self).unload_list@ == old(self).unload_list@.push(id)
                &&& created_process(*old(memory), *final(memory), info, disk.spec_data_for(info))
                &&& final(memory).has_pcb_for(id)
                &&& final(memory).spec_pcb_for(id).turnaround_time_is_recording
                &&& final(memory).spec_pcb_for(id) == final(memory).pcbs@.last()
                &&& forall|other: u32|
                    #[trigger] old(memory).has_pcb_for(other) ==> final(memory).has_pcb_for(other)
                        && final(memory).spec_pcb_for(other) == old(memory).spec_pcb_for(other)
            },
    {
        if self.program_queue.len() == 0 {
            return Err("No programs in queue");
        }
        let front = self.program_queue[0];
        proof {
            crate::disk::lemma_index_of_info(disk.program_infos@, front);
            crate::disk::lemma_chained_in_bounds(
                disk.program_infos@,
                disk.current_data_idx as int,
                crate::disk::index_of_info(disk.program_infos@, front),
            );
        }
        let program_info = disk.get_info_for(front);
        let program_data = disk.read_data_for(&program_info);

        if memory.get_remaining_memory() < program_data.len() {
            return Err("Not enough memory to load program");
        }

        self.program_queue.pop_front();
        memory.create_process(&program_info, program_data.as_slice());
        self.unload_list.push(front);

        proof {
            let queue1 = self.program_queue@;
            assert forall|k: int| 0 <= k < queue1.len() implies disk.has_info_for(
                #[trigger] queue1[k],
            ) && !memory.has_pcb_for(queue1[k]) by {
                assert(queue1[k] == old(self).program_queue@[k + 1]);
                assert(old(self).program_queue@[k + 1] != front);
            }
            let unload1 = self.unload_list@;
            assert forall|i: int, j: int| 0 <= i < j < unload1.len() implies (
            #[trigger] unload1[i]) != (#[trigger] unload1[j]) by {
                if j == unload1.len() - 1 {
                    assert(old(self).inv(*disk, *old(memory)));
                    assert(old(memory).has_pcb_for(old(self).unload_list@[i]));
                }
            }
        }
        Ok(front)
    }

    /// Admits programs from the front of the queue until one does not
    /// fit or the queue empties, and returns the admitted ids in
    /// admission order.
    pub fn batch_step(&mut self, disk: &Disk, memory: &mut Memory) -> (r: Vec<u32>)
        requires
            old(self).inv(*disk, *old(memory)),
        ensures
            final(self).inv(*disk, *final(memory)),
            r@ == spec_batch(old(self).program_queue@, disk.program_infos@, old(memory).current_data_idx as int),
            r@.len() <= old(self).program_queue@.len(),
            final(self).program_queue@ == old(self).program_queue@.skip(r@.len() as int),
            final(self).unload_list@ == old(self).unload_list@ + r@,
            final(memory).current_data_idx == old(memory).current_data_idx + spec_size_sum(
                disk.program_infos@,
                r@,
            ),
            final(memory).data@ == spec_admit(
                disk.program_infos@,
                disk.data@,
                r@,
                old(memory).data@,
                old(memory).current_data_idx as int,
            ),
            forall|k: int|
                0 <= k < r@.len() ==> final(memory).spec_pcb_for(#[trigger] r@[k]).is_initial(
                    disk.spec_info_for(r@[k]),
                    (old(memory).current_data_idx + spec_size_sum(
                        disk.program_infos@,
                        r@.take(k),
                    )) as usize,
                    (old(memory).current_data_idx + spec_size_sum(
                        disk.program_infos@,
                        r@.take(k + 1),
                    )) as usize,
                ),
            forall|k: int|
                0 <= k < r@.len() ==> final(memory).has_pcb_for(#[trigger] r@[k])
                    && final(memory).spec_pcb_for(r@[k]).turnaround_time_is_recording,
            forall|i: int, j: int| 0 <= i < j < r@.len() ==> (#[trigger] r@[i]) != (#[trigger] r@[j]),
    {
        let mut process_ids: Vec<u32> = Vec::new();
        proof {
            assert(old(self).program_queue@.skip(0) =~= old(self).program_queue@);
            assert(old(self).unload_list@ + process_ids@ =~= old(self).unload_list@);
        }
        loop
            invariant
                self.inv(*disk, *memory),
                spec_batch(
                    old(self).program_queue@,
                    disk.program_infos@,
                    old(memory).current_data_idx as int,
                ) == process_ids@ + spec_batch(
                    self.program_queue@,
                    disk.program_infos@,
                    memory.current_data_idx as int,
                ),
                process_ids@.len() <= old(self).program_queue@.len(),
                self.program_queue@ == old(self).program_queue@.skip(process_ids@.len() as int),
                self.unload_list@ == old(self).unload_list@ + process_ids@,
                memory.current_data_idx == old(memory).current_data_idx + spec_size_sum(
                    disk.program_infos@,
                    process_ids@,
                ),
                memory.data@ == spec_admit(
                    disk.program_infos@,
                    disk.data@,
                    process_ids@,
                    old(memory).data@,
                    old(memory).current_data_idx as int,
                ),
                forall|k: int|
                    0 <= k < process_ids@.len() ==> memory.spec_pcb_for(
                        #[trigger] process_ids@[k],
                    ).is_initial(
                        disk.spec_info_for(process_ids@[k]),
                        (old(memory).current_data_idx + spec_size_sum(
                            disk.program_infos@,
                            process_ids@.take(k),
                        )) as usize,
                        (old(memory).current_data_idx + spec_size_sum(
                            disk.program_infos@,
                            process_ids@.take(k + 1),
                        )) as usize,
                    ),
                forall|k: int|
                    0 <= k < process_ids@.len() ==> memory.has_pcb_for(#[trigger] process_ids@[k])
                        && memory.spec_pcb_for(
                        process_ids@[k],
                    ).turnaround_time_is_recording,
                forall|i: int, j: int|
                    0 <= i < j < process_ids@.len() ==> (#[trigger] process_ids@[i]) != (
                    #[trigger] process_ids@[j]),
            ensures
                self.inv(*disk, *memory),
                process_ids@ == spec_batch(
                    old(self).program_queue@,
                    disk.program_infos@,
                    old(memory).current_data_idx as int,
                ),
                process_ids@.len() <= old(self).program_queue@.len(),
                self.program_queue@ == old(self).program_queue@.skip(process_ids@.len() as int),
                self.unload_list@ == old(self).unload_list@ + process_ids@,
                memory.current_data_idx == old(memory).current_data_idx + spec_size_sum(
                    disk.program_infos@,
                    process_ids@,
                ),
                memory.data@ == spec_admit(
                    disk.program_infos@,
                    disk.data@,
                    process_ids@,
                    old(memory).data@,
                    old(memory).current_data_idx as int,
                ),
                forall|k: int|
                    0 <= k < process_ids@.len() ==> memory.spec_pcb_for(
                        #[trigger] process_ids@[k],
                    ).is_initial(
                        disk.spec_info_for(process_ids@[k]),
                        (old(memory).current_data_idx + spec_size_sum(
                            disk.program_infos@,
                            process_ids@.take(k),
                        )) as usize,
                        (old(memory).current_data_idx + spec_size_sum(
                            disk.program_infos@,
                            process_ids@.take(k + 1),
                        )) as usize,
                    ),
                forall|k: int|
                    0 <= k < process_ids@.len() ==> memory.has_pcb_for(#[trigger] process_ids@[k])
                        && memory.spec_pcb_for(
                        process_ids@[k],
                    ).turnaround_time_is_recording,
                forall|i: int, j: int|
                    0 <= i < j < process_ids@.len() ==> (#[trigger] process_ids@[i]) != (
                    #[trigger] process_ids@[j]),
            decreases self.program_queue@.len(),
        {
            if self.program_queue.len() == 0 {
                proof {
                    assert(process_ids@ + spec_batch(
                        self.program_queue@,
                        disk.program_infos@,
                        memory.current_data_idx as int,
                    ) =~= process_ids@);
                }
                break ;
            }
            let ghost queue0 = self.program_queue@;
            let ghost mem0 = *memory;
            let ghost ids0 = process_ids@;
            match self.step(disk, memory) {
                Ok(process_id) => {
                    process_ids.push(process_id);
                    proof {
                        crate::disk::lemma_index_of_info(disk.program_infos@, queue0[0]);
                        crate::disk::lemma_chained_in_bounds(
                            disk.program_infos@,
                            disk.current_data_idx as int,
                            crate::disk::index_of_info(disk.program_infos@, queue0[0]),
                        );
                        let info = disk.spec_info_for(queue0[0]);
                        assert(spec_batch(queue0, disk.program_infos@, mem0.current_data_idx as int) == seq![
                            queue0[0],
                        ] + spec_batch(
                            queue0.drop_first(),
                            disk.program_infos@,
                            mem0.current_data_idx + info.total_size(),
                        ));
                        assert(ids0 + spec_batch(queue0, disk.program_infos@, mem0.current_data_idx as int)
                            =~= process_ids@ + spec_batch(
                            self.program_queue@,
                            disk.program_infos@,
                            memory.current_data_idx as int,
                        ));
                        assert(old(self).program_queue@.skip(ids0.len() as int).drop_first()
                            =~= old(self).program_queue@.skip(ids0.len() as int + 1));
                        assert(self.unload_list@ =~= old(self).unload_list@ + process_ids@);
                        assert forall|k: int| 0 <= k < process_ids@.len() implies memory.has_pcb_for(
                            #[trigger] process_ids@[k],
                        ) && memory.spec_pcb_for(
                            process_ids@[k],
                        ).turnaround_time_is_recording by {
                            if k < process_ids@.len() - 1 {
                                assert(mem0.has_pcb_for(process_ids@[k]));
                            }
                        }
                        assert(process_ids@.drop_last() =~= ids0);
                        assert(process_ids@.last() == queue0[0]);
                        assert(memory.data@ == spec_admit(
                            disk.program_infos@,
                            disk.data@,
                            process_ids@,
                            old(memory).data@,
                            old(memory).current_data_idx as int,
                        ));
                        assert forall|k: int| 0 <= k < process_ids@.len() implies memory
                            .spec_pcb_for(#[trigger] process_ids@[k]).is_initial(
                            disk.spec_info_for(process_ids@[k]),
                            (old(memory).current_data_idx + spec_size_sum(
                                disk.program_infos@,
                                process_ids@.take(k),
                            )) as usize,
                            (old(memory).current_data_idx + spec_size_sum(
                                disk.program_infos@,
                                process_ids@.take(k + 1),
                            )) as usize,
                        ) by {
                            assert(process_ids@.take(k) =~= ids0.take(k));
                            assert(process_ids@.take(k + 1).drop_last() =~= ids0.take(k));
                            assert(process_ids@.take(k + 1).last() == process_ids@[k]);
                            if k < process_ids@.len() - 1 {
                                assert(process_ids@.take(k + 1) =~= ids0.take(k + 1));
                                assert(mem0.has_pcb_for(process_ids@[k]));
                                assert(memory.spec_pcb_for(process_ids@[k]) == mem0.spec_pcb_for(
                                    process_ids@[k],
                                ));
                            } else {
                                assert(process_ids@.take(k + 1) =~= process_ids@);
                                assert(memory.spec_pcb_for(queue0[0]) == memory.pcbs@.last());
                            }
                        }
                    }
                },
                Err(_) => {
                    proof {
                        assert(process_ids@ + spec_batch(
                            self.program_queue@,
                            disk.program_infos@,
                            memory.current_data_idx as int,
                        ) =~= process_ids@);
                    }
                    break ;
                },
            }
        }
        process_ids
    }

    /// Flushes every resident program's `output | temp` region from
    /// memory back to its disk image, then clears the resident list and
    /// wipes memory.  Rereading any flushed image afterwards returns its
    /// instruction and input regions unchanged and the memory contents at
    /// flush time in its `output | temp` region; programs that were not
    /// resident are untouched.
    pub fn unload_all(&mut self, disk: &mut Disk, memory: &mut Memory)
        requires
            old(self).inv(*old(disk), *old(memory)),
        ensures
            final(self).inv(*final(disk), *final(memory)),
            final(self).program_queue@ == old(self).program_queue@,
            final(self).unload_list@.len() == 0,
            final(memory).wf(),
            final(memory).pcbs@.len() == 0,
            final(memory).current_data_idx == 0,
            final(memory).data@ == Seq::new(MEMORY_SIZE as nat, |i: int| 0u32),
            final(disk).wf(),
            final(disk).program_infos@ == old(disk).program_infos@,
            final(disk).current_data_idx == old(disk).current_data_idx,
            final(disk).data@ == spec_flush(
                old(disk).program_infos@,
                old(self).unload_list@,
                *old(memory),
                old(disk).data@,
            ),
            forall|k: int|
                0 <= k < old(self).unload_list@.len() ==> {
                    let id = #[trigger] old(self).unload_list@[k];
                    let info = old(disk).spec_info_for(id);
                    let pcb = old(memory).spec_pcb_for(id);
                    let head = info.instruction_buffer_size + info.in_buffer_size;
                    &&& final(disk).spec_data_for(info).take(head) == old(disk).spec_data_for(
                        info,
                    ).take(head)
                    &&& final(disk).spec_data_for(info).skip(head) == old(memory).data@.subrange(
                        pcb.mem_out_start_address as int,
                        pcb.mem_end_address as int,
                    )
                },
            forall|other: u32|
                old(disk).has_info_for(other) && !old(self).unload_list@.contains(other)
                    ==> final(disk).spec_data_for(#[trigger] old(disk).spec_info_for(other))
                    == old(disk).spec_data_for(old(disk).spec_info_for(other)),
    {
        let ghost unload0 = self.unload_list@;
        let n = self.unload_list.len();
        let mut i: usize = 0;
        while i < n
            invariant
                i <= n,
                n == unload0.len(),
                self.unload_list@ == unload0,
                self.program_queue@ == old(self).program_queue@,
                *memory == *old(memory),
                old(self).inv(*old(disk), *old(memory)),
                disk.wf(),
                disk.program_infos@ == old(disk).program_infos@,
                disk.current_data_idx == old(disk).current_data_idx,
                disk.data@ == spec_flush(
                    old(disk).program_infos@,
                    unload0.take(i as int),
                    *old(memory),
                    old(disk).data@,
                ),
                forall|k: int|
                    0 <= k < i ==> {
                        let id = #[trigger] unload0[k];
                        let info = old(disk).spec_info_for(id);
                        let pcb = old(memory).spec_pcb_for(id);
                        let head = info.instruction_buffer_size + info.in_buffer_size;
                        &&& disk.spec_data_for(info).take(head) == old(disk).spec_data_for(
                            info,
                        ).take(head)
                        &&& disk.spec_data_for(info).skip(head) == old(memory).data@.subrange(
                            pcb.mem_out_start_address as int,
                            pcb.mem_end_address as int,
                        )
                    },
                forall|other: u32|
                    old(disk).has_info_for(other) && (forall|k: int|
                        0 <= k < i ==> (#[trigger] unload0[k]) != other) ==> disk.spec_data_for(
                        #[trigger] old(disk).spec_info_for(other),
                    ) == old(disk).spec_data_for(old(disk).spec_info_for(other)),
            decreases n - i,
        {
            let id = self.unload_list[i];
            proof {
                crate::memory::lemma_index_of_pcb(memory.pcbs@, id);
            }
            let out_start = memory.get_pcb_for(id).get_mem_out_start_address();
            let end = memory.get_pcb_for(id).get_mem_end_address();
            let data = memory.read_block_from(out_start, end);
            let ghost d0 = *disk;
            proof {
                crate::disk::lemma_index_of_info(d0.program_infos@, id);
            }
            disk.update_program(id, data.as_slice());
            proof {
                crate::disk::lemma_update_then_read(d0, *disk, id, data@);
                assert(unload0.take(i + 1).drop_last() =~= unload0.take(i as int));
                assert(unload0.take(i + 1) =~= unload0.take(i as int).push(unload0[i as int]));
                lemma_flush_snoc(
                    old(disk).program_infos@,
                    unload0.take(i as int),
                    unload0[i as int],
                    *old(memory),
                    old(disk).data@,
                );
                assert(old(disk).spec_info_for(id) == d0.spec_info_for(id));
                assert(disk.data@ == spec_flush(
                    old(disk).program_infos@,
                    unload0.take(i + 1),
                    *old(memory),
                    old(disk).data@,
                ));
                let info_i = old(disk).spec_info_for(id);
                let head_i = info_i.instruction_buffer_size + info_i.in_buffer_size;
                assert(d0.spec_info_for(id) == info_i);
                // This image had not been flushed before this turn, so it
                // still read as it did on entry.
                assert forall|k: int| 0 <= k < i implies (#[trigger] unload0[k]) != id by {
                    assert(old(self).inv(*old(disk), *old(memory)));
                }
                assert(d0.spec_data_for(info_i) == old(disk).spec_data_for(info_i));
                assert(disk.spec_data_for(info_i).take(head_i) == old(disk).spec_data_for(
                    info_i,
                ).take(head_i));
                assert(disk.spec_data_for(info_i).skip(head_i) == data@);
                // Every image flushed earlier keeps its flushed contents.
                assert forall|k: int| 0 <= k < i implies {
                    let idk = #[trigger] unload0[k];
                    let info = old(disk).spec_info_for(idk);
                    let pcb = old(memory).spec_pcb_for(idk);
                    let head = info.instruction_buffer_size + info.in_buffer_size;
                    &&& disk.spec_data_for(info).take(head) == old(disk).spec_data_for(
                        info,
                    ).take(head)
                    &&& disk.spec_data_for(info).skip(head) == old(memory).data@.subrange(
                        pcb.mem_out_start_address as int,
                        pcb.mem_end_address as int,
                    )
                } by {
                    let idk = unload0[k];
                    assert(idk != id);
                    assert(d0.has_info_for(idk));
                    assert(disk.spec_info_for(idk) == d0.spec_info_for(idk));
                    assert(disk.spec_data_for(d0.spec_info_for(idk)) == d0.spec_data_for(
                        d0.spec_info_for(idk),
                    ));
                    assert(d0.spec_info_for(idk) == old(disk).spec_info_for(idk));
                }
                // Every image never flushed is still untouched.
                assert forall|other: u32|
                    old(disk).has_info_for(other) && (forall|k: int|
                        0 <= k < i + 1 ==> (#[trigger] unload0[k]) != other) implies disk
                    .spec_data_for(#[trigger] old(disk).spec_info_for(other)) == old(
                    disk,
                ).spec_data_for(old(disk).spec_info_for(other)) by {
                    assert(unload0[i as int] != other);
                    assert(d0.has_info_for(other));
                    assert(d0.spec_data_for(old(disk).spec_info_for(other)) == old(
                        disk,
                    ).spec_data_for(old(disk).spec_info_for(other)));
                    assert(d0.spec_info_for(other) == old(disk).spec_info_for(other));
                    assert(disk.spec_info_for(other) == d0.spec_info_for(other));
                    assert(disk.spec_data_for(d0.spec_info_for(other)) == d0.spec_data_for(
                        d0.spec_info_for(other),
                    ));
                }
            }
            i = i + 1;
        }
        proof {
            assert(unload0.take(n as int) =~= unload0);
        }
        self.unload_list.clear();
        memory.core_dump();
    }

    /// Whether programs are still waiting for admission.
    pub fn has_programs(&self) -> (r: bool)
        ensures
            r == (self.program_queue@.len() > 0),
    {
        self.program_queue.len() > 0
    }
}

} // verus!
