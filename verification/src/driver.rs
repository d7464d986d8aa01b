//! The driver: wires the disk, memory, CPU and both schedulers together
//! and runs batches of admissions to completion.  Reading the program
//! file and writing the dump belong to the surrounding binary; the
//! driver works on programs already staged on its disk.

use vstd::prelude::*;

verus! {

use crate::{MEMORY_SIZE, NUM_REGISTERS};
use crate::cpu::{Cpu, ExecutionFault};
use crate::disk::{spec_info_of, Disk};
use crate::lts::{spec_admit, spec_batch, spec_flush, spec_size_sum, LongTermScheduler};
use crate::memory::Memory;
use crate::program_info::ProgramInfo;
use crate::queue::ReadyEntry;
use crate::sts::{
    context_of,
    LoadedContext,
    placements_preserved,
    SessionOutcome,
    ShortTermScheduler,
    spec_contexts,
    spec_drain,
    spec_session,
    StsSchedulingAlg,
};
use crate::words::overwrite;

/// The ready-queue entries one admitted batch schedules, in admission
/// order.
pub open spec fn spec_batch_entries(infos: Seq<ProgramInfo>, ids: Seq<u32>) -> Seq<ReadyEntry> {
    ids.map_values(
        |id: u32| ReadyEntry { process_id: id, priority: spec_info_of(infos, id).priority },
    )
}

/// Where a batch program's image begins in memory: the images of the ids
/// before it, laid end to end from word zero.
pub open spec fn spec_offset_of(infos: Seq<ProgramInfo>, ids: Seq<u32>, id: u32) -> int
    decreases ids.len(),
{
    if ids.len() == 0 {
        0
    } else if ids[0] == id {
        0
    } else {
        spec_info_of(infos, ids[0]).total_size() + spec_offset_of(infos, ids.drop_first(), id)
    }
}

/// The context a freshly admitted batch program is dispatched with: its
/// image span, a zero counter and zeroed registers.
pub open spec fn spec_fresh_context(
    infos: Seq<ProgramInfo>,
    ids: Seq<u32>,
    id: u32,
) -> LoadedContext {
    let info = spec_info_of(infos, id);
    let base = spec_offset_of(infos, ids, id);
    LoadedContext {
        process_id: id,
        mem_start_address: base,
        mem_in_start_address: base + info.instruction_buffer_size,
        program_counter: 0,
        registers: Seq::new(NUM_REGISTERS as nat, |i: int| 0u32),
    }
}

/// The fresh contexts of a batch, in the given dispatch order.
pub open spec fn spec_fresh_contexts(
    infos: Seq<ProgramInfo>,
    ids: Seq<u32>,
    order: Seq<ReadyEntry>,
) -> Seq<LoadedContext> {
    order.map_values(|e: ReadyEntry| spec_fresh_context(infos, ids, e.process_id))
}

/// The pool after a batch is flushed back: from program `k` on, each
/// image's `output | temp` words are replaced by the memory words at its
/// batch offset.
pub open spec fn spec_flush_fresh(
    infos: Seq<ProgramInfo>,
    ids: Seq<u32>,
    k: int,
    data: Seq<u32>,
    pool: Seq<u32>,
) -> Seq<u32>
    decreases ids.len() - k,
{
    if k < 0 || k >= ids.len() {
        pool
    } else {
        let info = spec_info_of(infos, ids[k]);
        let base = spec_offset_of(infos, ids, ids[k]);
        spec_flush_fresh(
            infos,
            ids,
            k + 1,
            data,
            overwrite(
                pool,
                info.data_start_idx + info.instruction_buffer_size + info.in_buffer_size,
                data.subrange(
                    base + info.instruction_buffer_size + info.in_buffer_size,
                    base + info.total_size(),
                ),
            ),
        )
    }
}

/// How a whole run ends: the final pool after every batch was admitted,
/// dispatched to completion and flushed; or the first run fault; or a
/// run over the cycle budget; or a stall, a queued program that can
/// never be admitted (ruled out when every queued image fits memory).
pub enum DriveOutcome {
    DriveDone(Seq<u32>),
    DriveFaulted(ExecutionFault),
    DriveOutOfCycles,
    DriveStalled,
}

/// Folds the whole simulation, batch by batch: admit the longest fitting
/// prefix into wiped memory, run its processes in dispatch order, flush
/// their `output | temp` regions back into the pool, and continue with
/// the rest of the queue.
pub open spec fn spec_batches(
    infos: Seq<ProgramInfo>,
    pool: Seq<u32>,
    queue: Seq<u32>,
    priority_mode: bool,
    max_cycles: nat,
) -> DriveOutcome
    decreases queue.len(),
    via spec_batches_dec
{
    if queue.len() == 0 {
        DriveOutcome::DriveDone(pool)
    } else {
        let ids = spec_batch(queue, infos, 0);
        if ids.len() == 0 {
            DriveOutcome::DriveStalled
        } else {
            let order = spec_drain(spec_batch_entries(infos, ids), priority_mode);
            let ctxs = spec_fresh_contexts(infos, ids, order);
            let admitted_memory = spec_admit(
                infos,
                pool,
                ids,
                Seq::new(MEMORY_SIZE as nat, |i: int| 0u32),
                0,
            );
            match spec_session(ctxs, admitted_memory, max_cycles) {
                SessionOutcome::Completed(final_memory) => spec_batches(
                    infos,
                    spec_flush_fresh(infos, ids, 0, final_memory, pool),
                    queue.skip(ids.len() as int),
                    priority_mode,
                    max_cycles,
                ),
                SessionOutcome::SessionFaulted(f) => DriveOutcome::DriveFaulted(f),
                SessionOutcome::SessionOutOfCycles => DriveOutcome::DriveOutOfCycles,
            }
        }
    }
}

#[via_fn]
proof fn spec_batches_dec(
    infos: Seq<ProgramInfo>,
    pool: Seq<u32>,
    queue: Seq<u32>,
    priority_mode: bool,
    max_cycles: nat,
) {
    if queue.len() > 0 {
        crate::lts::lemma_spec_batch_len(queue, infos, 0);
    }
}

/// Helper: the sum of one more image size.
proof fn lemma_size_sum_cons(infos: Seq<ProgramInfo>, x: u32, t: Seq<u32>)
    ensures
        spec_size_sum(infos, seq![x] + t) == spec_info_of(infos, x).total_size() + spec_size_sum(
            infos,
            t,
        ),
    decreases t.len(),
{
    if t.len() == 0 {
        assert(seq![x] + t =~= seq![x]);
        assert(seq![x].drop_last() =~= Seq::<u32>::empty());
        assert(seq![x].last() == x);
        assert(spec_size_sum(infos, seq![x]) == spec_size_sum(infos, Seq::<u32>::empty())
            + spec_info_of(infos, x).total_size());
    } else {
        assert((seq![x] + t).drop_last() =~= seq![x] + t.drop_last());
        assert((seq![x] + t).last() == t.last());
        lemma_size_sum_cons(infos, x, t.drop_last());
    }
}

/// Helper: a batch program's offset is the combined size of the images
/// admitted before it.
proof fn lemma_offset_is_sum(infos: Seq<ProgramInfo>, ids: Seq<u32>, k: int)
    requires
        0 <= k < ids.len(),
        forall|i: int, j: int| 0 <= i < j < ids.len() ==> (#[trigger] ids[i]) != (#[trigger] ids[j]),
    ensures
        spec_offset_of(infos, ids, ids[k]) == spec_size_sum(infos, ids.take(k)),
    decreases k,
{
    if k == 0 {
        assert(ids.take(0) =~= Seq::<u32>::empty());
    } else {
        assert(ids[0] != ids[k]);
        let rest = ids.drop_first();
        assert forall|i: int, j: int| 0 <= i < j < rest.len() implies (#[trigger] rest[i]) != (
        #[trigger] rest[j]) by {
            assert(rest[i] == ids[i + 1] && rest[j] == ids[j + 1]);
        }
        assert(rest[k - 1] == ids[k]);
        lemma_offset_is_sum(infos, rest, k - 1);
        assert(ids.take(k) =~= seq![ids[0]] + rest.take(k - 1));
        lemma_size_sum_cons(infos, ids[0], rest.take(k - 1));
    }
}

/// Helper: once every flushed descriptor still spans its batch offsets,
/// the memory-based flush equals the offset-based one.
proof fn lemma_flush_matches(
    infos: Seq<ProgramInfo>,
    ids: Seq<u32>,
    k: int,
    m: Memory,
    pool: Seq<u32>,
)
    requires
        0 <= k <= ids.len(),
        forall|j: int|
            k <= j < ids.len() ==> {
                let pcb = m.spec_pcb_for(#[trigger] ids[j]);
                let info = spec_info_of(infos, ids[j]);
                let base = spec_offset_of(infos, ids, ids[j]);
                &&& pcb.mem_out_start_address == base + info.instruction_buffer_size
                    + info.in_buffer_size
                &&& pcb.mem_end_address == base + info.total_size()
            },
    ensures
        spec_flush(infos, ids.skip(k), m, pool) == spec_flush_fresh(infos, ids, k, m.data@, pool),
    decreases ids.len() - k,
{
    if k < ids.len() {
        assert(ids.skip(k)[0] == ids[k]);
        assert(ids.skip(k).drop_first() =~= ids.skip(k + 1));
        let info = spec_info_of(infos, ids[k]);
        let base = spec_offset_of(infos, ids, ids[k]);
        let pcb = m.spec_pcb_for(ids[k]);
        let stepped = overwrite(
            pool,
            info.data_start_idx + info.instruction_buffer_size + info.in_buffer_size,
            m.data@.subrange(
                pcb.mem_out_start_address as int,
                pcb.mem_end_address as int,
            ),
        );
        assert(m.data@.subrange(pcb.mem_out_start_address as int, pcb.mem_end_address as int)
            == m.data@.subrange(
            base + info.instruction_buffer_size + info.in_buffer_size,
            base + info.total_size(),
        ));
        lemma_flush_matches(infos, ids, k + 1, m, stepped);
        assert(spec_flush(infos, ids.skip(k), m, pool) == spec_flush(
            infos,
            ids.skip(k + 1),
            m,
            stepped,
        ));
    } else {
        assert(ids.skip(k) =~= Seq::<u32>::empty());
    }
}

/// Helper: batch size sums are nonnegative and grow along the batch.
proof fn lemma_size_sum_bounds(infos: Seq<ProgramInfo>, ids: Seq<u32>, k: int)
    requires
        0 <= k <= ids.len(),
    ensures
        0 <= spec_size_sum(infos, ids.take(k)),
        spec_size_sum(infos, ids.take(k)) <= spec_size_sum(infos, ids),
    decreases ids.len() - k,
{
    if k == ids.len() {
        assert(ids.take(k) =~= ids);
        lemma_size_sum_nonneg(infos, ids);
    } else {
        assert(ids.take(k + 1).drop_last() =~= ids.take(k));
        lemma_size_sum_bounds(infos, ids, k + 1);
        lemma_size_sum_nonneg(infos, ids.take(k));
    }
}

proof fn lemma_size_sum_nonneg(infos: Seq<ProgramInfo>, ids: Seq<u32>)
    ensures
        spec_size_sum(infos, ids) >= 0,
    decreases ids.len(),
{
    if ids.len() > 0 {
        lemma_size_sum_nonneg(infos, ids.drop_last());
    }
}

/// Helper: right after a batch is admitted, the queued processes' load
/// contexts are exactly the fresh batch contexts, whatever the dispatch
/// order.
#[verifier::rlimit(100)]
proof fn lemma_fresh_contexts_match(
    infos: Seq<ProgramInfo>,
    ids: Seq<u32>,
    prio: bool,
    m: Memory,
)
    requires
        spec_size_sum(infos, ids) <= MEMORY_SIZE,
        forall|i: int, j: int| 0 <= i < j < ids.len() ==> (#[trigger] ids[i]) != (#[trigger] ids[j]),
        forall|k: int|
            0 <= k < ids.len() ==> m.spec_pcb_for(#[trigger] ids[k]).is_initial(
                spec_info_of(infos, ids[k]),
                spec_size_sum(infos, ids.take(k)) as usize,
                spec_size_sum(infos, ids.take(k + 1)) as usize,
            ),
    ensures
        ({
            let order = spec_drain(spec_batch_entries(infos, ids), prio);
            spec_contexts(m, order) == spec_fresh_contexts(infos, ids, order)
        }),
{
    let entries = spec_batch_entries(infos, ids);
    let order = spec_drain(entries, prio);
    crate::sts::lemma_drain_members(entries, prio);
    assert forall|k: int| 0 <= k < order.len() implies spec_contexts(m, order)[k]
        == spec_fresh_contexts(infos, ids, order)[k] by {
        let e = order[k];
        let j = choose|j: int| 0 <= j < entries.len() && entries[j] == e;
        assert(entries[j].process_id == ids[j]);
        lemma_offset_is_sum(infos, ids, j);
        lemma_size_sum_bounds(infos, ids, j);
        lemma_size_sum_bounds(infos, ids, j + 1);
        assert(m.spec_pcb_for(ids[j]).is_initial(
            spec_info_of(infos, ids[j]),
            spec_size_sum(infos, ids.take(j)) as usize,
            spec_size_sum(infos, ids.take(j + 1)) as usize,
        ));
        assert(context_of(m, e.process_id) =~= spec_fresh_context(infos, ids, e.process_id));
        assert(spec_contexts(m, order)[k] == context_of(m, e.process_id));
        assert(spec_fresh_contexts(infos, ids, order)[k] == spec_fresh_context(
            infos,
            ids,
            e.process_id,
        ));
    }
    assert(spec_contexts(m, order) =~= spec_fresh_contexts(infos, ids, order));
}

/// Helper: dispatching moves registers and timers but not placements, so
/// after a batch runs, flushing by live descriptor regions equals
/// flushing by batch offsets.
#[verifier::rlimit(100)]
proof fn lemma_flush_after_session(
    infos: Seq<ProgramInfo>,
    ids: Seq<u32>,
    m_admitted: Memory,
    m_finished: Memory,
    pool: Seq<u32>,
)
    requires
        spec_size_sum(infos, ids) <= MEMORY_SIZE,
        forall|i: int, j: int| 0 <= i < j < ids.len() ==> (#[trigger] ids[i]) != (#[trigger] ids[j]),
        forall|k: int|
            0 <= k < ids.len() ==> m_admitted.has_pcb_for(#[trigger] ids[k])
                && m_admitted.spec_pcb_for(ids[k]).is_initial(
                spec_info_of(infos, ids[k]),
                spec_size_sum(infos, ids.take(k)) as usize,
                spec_size_sum(infos, ids.take(k + 1)) as usize,
            ),
        placements_preserved(m_admitted, m_finished),
    ensures
        spec_flush(infos, ids, m_finished, pool) == spec_flush_fresh(
            infos,
            ids,
            0,
            m_finished.data@,
            pool,
        ),
{
    assert forall|i: int| 0 <= i < m_admitted.pcbs@.len() implies (#[trigger] m_admitted.pcbs@[i].id)
        == m_finished.pcbs@[i].id by {
        assert(crate::memory::same_placement(m_admitted.pcbs@[i], m_finished.pcbs@[i]));
    }
    assert forall|j: int| 0 <= j < ids.len() implies {
        let pcb = m_finished.spec_pcb_for(#[trigger] ids[j]);
        let info = spec_info_of(infos, ids[j]);
        let base = spec_offset_of(infos, ids, ids[j]);
        &&& pcb.mem_out_start_address == base + info.instruction_buffer_size
            + info.in_buffer_size
        &&& pcb.mem_end_address == base + info.total_size()
    } by {
        crate::memory::lemma_index_of_pcb(m_admitted.pcbs@, ids[j]);
        crate::memory::lemma_index_of_pcb_same_ids(m_admitted.pcbs@, m_finished.pcbs@, ids[j]);
        let idx = crate::memory::index_of_pcb(m_admitted.pcbs@, ids[j]);
        assert(crate::memory::same_placement(m_admitted.pcbs@[idx], m_finished.pcbs@[idx]));
        lemma_offset_is_sum(infos, ids, j);
        lemma_size_sum_bounds(infos, ids, j);
        lemma_size_sum_bounds(infos, ids, j + 1);
        assert(ids.take(j + 1).drop_last() =~= ids.take(j));
        assert(ids.take(j + 1).last() == ids[j]);
    }
    lemma_flush_matches(infos, ids, 0, m_finished, pool);
    assert(ids.skip(0) =~= ids);
}

/// Helper: one driver round equals one fold step.  With the batch
/// admitted into wiped memory, scheduled in admission order, and the
/// engine idle, the dispatcher's session is exactly the fold's session,
/// so the fold's outcome follows the dispatcher's.
#[verifier::rlimit(100)]
proof fn lemma_drive_step(
    infos: Seq<ProgramInfo>,
    pool: Seq<u32>,
    queue: Seq<u32>,
    prio: bool,
    max_cycles: nat,
    ids: Seq<u32>,
    m_sched: Memory,
    cpu_sched: Cpu,
    sts_sched: ShortTermScheduler,
)
    requires
        queue.len() > 0,
        ids == spec_batch(queue, infos, 0),
        ids.len() >= 1,
        forall|i: int, j: int| 0 <= i < j < ids.len() ==> (#[trigger] ids[i]) != (#[trigger] ids[j]),
        forall|k: int|
            0 <= k < ids.len() ==> m_sched.spec_pcb_for(#[trigger] ids[k]).is_initial(
                spec_info_of(infos, ids[k]),
                spec_size_sum(infos, ids.take(k)) as usize,
                spec_size_sum(infos, ids.take(k + 1)) as usize,
            ),
        spec_size_sum(infos, ids) <= MEMORY_SIZE,
        m_sched.data@ == spec_admit(
            infos,
            pool,
            ids,
            Seq::new(MEMORY_SIZE as nat, |i: int| 0u32),
            0,
        ),
        cpu_sched.proc_should_interrupt,
        sts_sched.ready_queue.entries() == spec_batch_entries(infos, ids),
        sts_sched.ready_queue.is_priority() == prio,
        sts_sched.current_pcb is None,
    ensures
        match crate::sts::spec_await_outcome(sts_sched, m_sched, cpu_sched, max_cycles) {
            SessionOutcome::Completed(d) => spec_batches(infos, pool, queue, prio, max_cycles)
                == spec_batches(
                infos,
                spec_flush_fresh(infos, ids, 0, d, pool),
                queue.skip(ids.len() as int),
                prio,
                max_cycles,
            ),
            SessionOutcome::SessionFaulted(f) => spec_batches(infos, pool, queue, prio, max_cycles)
                == DriveOutcome::DriveFaulted(f),
            SessionOutcome::SessionOutOfCycles => spec_batches(
                infos,
                pool,
                queue,
                prio,
                max_cycles,
            ) == DriveOutcome::DriveOutOfCycles,
        },
{
    let entries = spec_batch_entries(infos, ids);
    let order = spec_drain(entries, prio);
    assert(entries.len() == ids.len());
    lemma_fresh_contexts_match(infos, ids, prio, m_sched);
    // The engine is idle, so the first wait returns at once and the
    // session starts over the admitted memory.
    assert(cpu_sched.machine(m_sched).cpu.interrupted);
    assert(crate::cpu::spec_run(cpu_sched.machine(m_sched), max_cycles)
        == crate::cpu::RunOutcome::Interrupted(cpu_sched.machine(m_sched)));
    assert(crate::sts::spec_await_outcome(sts_sched, m_sched, cpu_sched, max_cycles)
        == spec_session(spec_contexts(m_sched, order), m_sched.data@, max_cycles));
    assert(spec_contexts(m_sched, order) == spec_fresh_contexts(infos, ids, order));
}

/// The assembled simulator.
pub struct Driver {
    pub disk: Disk,
    pub memory: Memory,
    pub cpu: Cpu,
    pub lts: LongTermScheduler,
    pub sts: ShortTermScheduler,
}

impl Driver {
    /// The components agree: both schedulers hold their invariants, the
    /// dispatcher is idle, memory is reclaimed, and every queued program
    /// fits memory on its own, so no admission can stall forever.
    pub open spec fn wf(self) -> bool {
        &&& self.lts.inv(self.disk, self.memory)
        &&& self.sts.inv(self.memory, self.cpu)
        &&& self.sts.ready_queue.entries().len() == 0
        &&& self.sts.current_pcb is None
        &&& self.memory.current_data_idx == 0
        &&& self.memory.data@ == Seq::new(MEMORY_SIZE as nat, |i: int| 0u32)
        &&& self.cpu.proc_should_interrupt
        &&& self.lts.unload_list@.len() == 0
        &&& forall|k: int|
            0 <= k < self.lts.program_queue@.len() ==> self.disk.spec_info_for(
                #[trigger] self.lts.program_queue@[k],
            ).total_size() <= MEMORY_SIZE
    }

    /// A fresh simulator dispatching in arrival order.
    pub fn new() -> (r: Driver)
        ensures
            r.wf(),
            r.disk.program_infos@.len() == 0,
            r.disk.current_data_idx == 0,
            r.lts.program_queue@.len() == 0,
            r.sts.finished_ids@.len() == 0,
            r.sts.ready_queue.is_priority() == false,
    {
        Driver::with_scheduling_alg(StsSchedulingAlg::Fifo)
    }

    /// A fresh simulator under the chosen dispatch discipline.
    pub fn with_scheduling_alg(scheduling_alg: StsSchedulingAlg) -> (r: Driver)
        ensures
            r.wf(),
            r.disk.program_infos@.len() == 0,
            r.disk.current_data_idx == 0,
            r.lts.program_queue@.len() == 0,
            r.sts.finished_ids@.len() == 0,
            r.sts.ready_queue.is_priority() == (scheduling_alg is Priority),
    {
        Driver {
            disk: Disk::new(),
            memory: Memory::new(),
            cpu: Cpu::new(),
            lts: LongTermScheduler::new(),
            sts: ShortTermScheduler::new(scheduling_alg),
        }
    }

    /// Whether a program with this id has been staged on the disk.
    pub fn has_program(&self, id: u32) -> (r: bool)
        ensures
            r == self.disk.has_info_for(id),
    {
        let n = self.disk.program_infos.len();
        let mut i: usize = 0;
        while i < n
            invariant
                n == self.disk.program_infos@.len(),
                i <= n,
                forall|k: int| 0 <= k < i ==> (#[trigger] self.disk.program_infos@[k].id) != id,
            decreases n - i,
        {
            if self.disk.program_infos[i].id == id {
                proof {
                    crate::disk::lemma_index_of_info(self.disk.program_infos@, id);
                }
                return true;
            }
            i = i + 1;
        }
        proof {
            crate::disk::lemma_index_of_info(self.disk.program_infos@, id);
        }
        false
    }

    /// Runs admissions until the queue is empty: each batch is admitted
    /// into memory, dispatched to completion, and flushed back to disk.
    /// On success every queued program has terminated, so the roster of
    /// finished processes grows by exactly the number of queued programs.
    #[verifier::rlimit(100)]
    #[verifier::spinoff_prover]
    pub fn start(&mut self, max_cycles: u64) -> (r: Result<(), ExecutionFault>)
        requires
            old(self).wf(),
        ensures
            match spec_batches(
                old(self).disk.program_infos@,
                old(self).disk.data@,
                old(self).lts.program_queue@,
                old(self).sts.ready_queue.is_priority(),
                max_cycles as nat,
            ) {
                DriveOutcome::DriveDone(pool) => r is Ok && final(self).disk.data@ == pool,
                DriveOutcome::DriveFaulted(f) => r == Err::<(), ExecutionFault>(f),
                DriveOutcome::DriveOutOfCycles => r == Err::<(), ExecutionFault>(
                    ExecutionFault::CycleLimitExceeded,
                ),
                // Ruled out by `wf`: every queued image fits memory.
                DriveOutcome::DriveStalled => true,
            },
            r is Ok ==> {
                &&& final(self).wf()
                &&& final(self).lts.program_queue@.len() == 0
                &&& final(self).sts.finished_ids@.len() == old(self).sts.finished_ids@.len()
                    + old(self).lts.program_queue@.len()
                &&& final(self).sts.ready_queue.is_priority() == old(
                    self,
                ).sts.ready_queue.is_priority()
            },
    {
        let ghost queue_len0 = self.lts.program_queue@.len();
        let ghost finished_len0 = self.sts.finished_ids@.len();
        let ghost infos0 = self.disk.program_infos@;
        let ghost prio0 = self.sts.ready_queue.is_priority();
        let ghost outcome0 = spec_batches(
            old(self).disk.program_infos@,
            old(self).disk.data@,
            old(self).lts.program_queue@,
            old(self).sts.ready_queue.is_priority(),
            max_cycles as nat,
        );
        while self.lts.has_programs()
            invariant
                self.wf(),
                self.lts.program_queue@.len() <= queue_len0,
                self.sts.finished_ids@.len() == finished_len0 + queue_len0
                    - self.lts.program_queue@.len(),
                self.sts.ready_queue.is_priority() == old(self).sts.ready_queue.is_priority(),
                infos0 == old(self).disk.program_infos@,
                prio0 == old(self).sts.ready_queue.is_priority(),
                self.disk.program_infos@ == infos0,
                outcome0 == spec_batches(
                    old(self).disk.program_infos@,
                    old(self).disk.data@,
                    old(self).lts.program_queue@,
                    old(self).sts.ready_queue.is_priority(),
                    max_cycles as nat,
                ),
                spec_batches(
                    infos0,
                    self.disk.data@,
                    self.lts.program_queue@,
                    prio0,
                    max_cycles as nat,
                ) == outcome0,
            decreases self.lts.program_queue@.len(),
        {
            let ghost queue_b = self.lts.program_queue@;
            let ghost pool_b = self.disk.data@;
            let process_ids = self.lts.batch_step(&self.disk, &mut self.memory);
            proof {
                // Memory was empty, and the front program fits it whole,
                // so the batch admitted at least that program.
                assert(process_ids@.len() >= 1);
            }
            let ghost admitted = process_ids@;
            let ghost lts_a = self.lts;
            let ghost disk_a = self.disk;
            let ghost mem_a = self.memory;
            let mut i: usize = 0;
            while i < process_ids.len()
                invariant
                    i <= process_ids@.len(),
                    process_ids@ == admitted,
                    self.lts == lts_a,
                    self.disk == disk_a,
                    self.memory == mem_a,
                    self.sts.inv(self.memory, self.cpu),
                    self.sts.current_pcb is None,
                    self.cpu.proc_should_interrupt,
                    self.sts.ready_queue.is_priority() == old(
                        self,
                    ).sts.ready_queue.is_priority(),
                    self.sts.finished_ids@.len() == finished_len0 + queue_len0 - queue_b.len(),
                    crate::queue::entry_ids(self.sts.ready_queue.entries()) == admitted.take(
                        i as int,
                    ),
                    self.sts.ready_queue.entries() == spec_batch_entries(
                        infos0,
                        admitted.take(i as int),
                    ),
                    self.disk.program_infos@ == infos0,
                    forall|k: int|
                        0 <= k < admitted.len() ==> self.memory.has_pcb_for(#[trigger] admitted[k])
                            && self.memory.spec_pcb_for(
                            admitted[k],
                        ).turnaround_time_is_recording,
                    forall|k: int|
                        0 <= k < admitted.len() ==> self.memory.spec_pcb_for(
                            #[trigger] admitted[k],
                        ).is_initial(
                            spec_info_of(infos0, admitted[k]),
                            spec_size_sum(infos0, admitted.take(k)) as usize,
                            spec_size_sum(infos0, admitted.take(k + 1)) as usize,
                        ),
                    forall|a: int, b: int|
                        0 <= a < b < admitted.len() ==> (#[trigger] admitted[a]) != (
                        #[trigger] admitted[b]),
                decreases process_ids@.len() - i,
            {
                let id = process_ids[i];
                proof {
                    crate::memory::lemma_index_of_pcb(self.memory.pcbs@, id);
                }
                let ghost entries_b = self.sts.ready_queue.entries();
                self.sts.schedule_process(self.memory.get_pcb_for(id));
                i = i + 1;
                proof {
                    let entries1 = self.sts.ready_queue.entries();
                    crate::queue::lemma_entry_ids(entries_b);
                    crate::queue::lemma_entry_ids(entries1);
                    assert(crate::queue::entry_ids(entries1) =~= admitted.take(i as int));
                    assert(entries1 =~= spec_batch_entries(infos0, admitted.take(i as int)));
                    assert forall|a: int, b: int| 0 <= a < b < entries1.len() implies (
                    #[trigger] entries1[a].process_id) != (#[trigger] entries1[b].process_id) by {
                        assert(entries1[a].process_id == crate::queue::entry_ids(entries1)[a]);
                        assert(entries1[b].process_id == crate::queue::entry_ids(entries1)[b]);
                    }
                }
            }
            let ghost entries_sched = self.sts.ready_queue.entries();
            let ghost mem_sched = self.memory;
            let ghost cpu_sched = self.cpu;
            let ghost sts_sched = self.sts;
            proof {
                assert(admitted.take(admitted.len() as int) =~= admitted);
                crate::sts::lemma_drain_len(entries_sched, self.sts.ready_queue.is_priority());
                crate::queue::lemma_entry_ids(
                    crate::sts::spec_drain(entries_sched, self.sts.ready_queue.is_priority()),
                );
                assert(entries_sched == spec_batch_entries(infos0, admitted));
                assert(spec_size_sum(infos0, admitted) <= MEMORY_SIZE);
                lemma_drive_step(
                    infos0,
                    pool_b,
                    queue_b,
                    prio0,
                    max_cycles as nat,
                    admitted,
                    mem_sched,
                    cpu_sched,
                    sts_sched,
                );
            }
            match self.sts.await_all_procs_finished(
                &mut self.memory,
                &mut self.cpu,
                max_cycles,
            ) {
                Ok(()) => {},
                Err(f) => {
                    proof {
                        match crate::sts::spec_await_outcome(
                            sts_sched,
                            mem_sched,
                            cpu_sched,
                            max_cycles as nat,
                        ) {
                            SessionOutcome::Completed(d) => {
                                assert(false);
                            },
                            SessionOutcome::SessionFaulted(f0) => {
                                assert(spec_batches(
                                    infos0,
                                    pool_b,
                                    queue_b,
                                    prio0,
                                    max_cycles as nat,
                                ) == DriveOutcome::DriveFaulted(f0));
                            },
                            SessionOutcome::SessionOutOfCycles => {
                                assert(spec_batches(
                                    infos0,
                                    pool_b,
                                    queue_b,
                                    prio0,
                                    max_cycles as nat,
                                ) == DriveOutcome::DriveOutOfCycles);
                            },
                        }
                    }
                    return Err(f);
                },
            }
            let ghost mem_finished = self.memory;
            proof {
                lemma_lts_inv_preserved(self.lts, self.disk, mem_sched, self.memory);
            }
            self.lts.unload_all(&mut self.disk, &mut self.memory);
            proof {
                let queue_a = self.lts.program_queue@;
                assert(queue_a == queue_b.skip(admitted.len() as int));
                assert forall|k: int| 0 <= k < queue_a.len() implies self.disk.spec_info_for(
                    #[trigger] queue_a[k],
                ).total_size() <= MEMORY_SIZE by {
                    assert(queue_b.skip(admitted.len() as int)[k] == queue_b[k + admitted.len()]);
                    assert(self.disk.program_infos@ == disk_a.program_infos@);
                    assert(self.disk.spec_info_for(queue_a[k]) == disk_a.spec_info_for(
                        queue_a[k],
                    ));
                }
                // One fold step: the session completed and its final
                // memory was flushed back into the pool.
                match crate::sts::spec_await_outcome(
                    sts_sched,
                    mem_sched,
                    cpu_sched,
                    max_cycles as nat,
                ) {
                    SessionOutcome::Completed(d) => {
                        assert(mem_finished.data@ == d);
                        assert(lts_a.unload_list@ =~= admitted);
                        lemma_flush_after_session(
                            infos0,
                            admitted,
                            mem_sched,
                            mem_finished,
                            pool_b,
                        );
                        assert(self.disk.data@ == spec_flush_fresh(
                            infos0,
                            admitted,
                            0,
                            d,
                            pool_b,
                        ));
                        assert(spec_batches(
                            infos0,
                            self.disk.data@,
                            self.lts.program_queue@,
                            prio0,
                            max_cycles as nat,
                        ) == outcome0);
                    },
                    SessionOutcome::SessionFaulted(f0) => {
                        assert(false);
                    },
                    SessionOutcome::SessionOutOfCycles => {
                        assert(false);
                    },
                }
            }
        }
        Ok(())
    }
}

/// Helper: the long-term scheduler's hold on memory survives scheduling,
/// which moves registers, states and timers but never a process's
/// placement.
proof fn lemma_lts_inv_preserved(lts: LongTermScheduler, disk: Disk, m0: Memory, m1: Memory)
    requires
        lts.inv(disk, m0),
        m1.wf(),
        placements_preserved(m0, m1),
    ensures
        lts.inv(disk, m1),
{
    assert forall|i: int| 0 <= i < m0.pcbs@.len() implies (#[trigger] m0.pcbs@[i].id)
        == m1.pcbs@[i].id by {
        assert(crate::memory::same_placement(m0.pcbs@[i], m1.pcbs@[i]));
    }
    let queue = lts.program_queue@;
    assert forall|k: int| 0 <= k < queue.len() implies disk.has_info_for(#[trigger] queue[k])
        && !m1.has_pcb_for(queue[k]) by {
        crate::memory::lemma_index_of_pcb_same_ids(m0.pcbs@, m1.pcbs@, queue[k]);
    }
    let unload = lts.unload_list@;
    assert forall|k: int| 0 <= k < unload.len() implies {
        let id = #[trigger] unload[k];
        let info = disk.spec_info_for(id);
        let pcb = m1.spec_pcb_for(id);
        &&& m1.has_pcb_for(id)
        &&& disk.has_info_for(id)
        &&& pcb.mem_out_start_address - pcb.mem_start_address == info.instruction_buffer_size
            + info.in_buffer_size
        &&& pcb.mem_end_address - pcb.mem_out_start_address == info.out_temp_size()
    } by {
        let id = unload[k];
        crate::memory::lemma_index_of_pcb_same_ids(m0.pcbs@, m1.pcbs@, id);
        crate::memory::lemma_index_of_pcb(m0.pcbs@, id);
        assert(crate::memory::same_placement(
            m0.pcbs@[crate::memory::index_of_pcb(m0.pcbs@, id)],
            m1.pcbs@[crate::memory::index_of_pcb(m0.pcbs@, id)],
        ));
    }
}

} // verus!
