//! The short-term scheduler: it owns the ready queue and hands processes
//! to the CPU one at a time.  The dispatcher here is the sequential form
//! of the dispatch protocol: await the running process's interrupt, save
//! its context, dispose of it by its terminal state, and load the next
//! ready process.  Since the engine's only interrupt is a halt, every
//! dispatched process terminates before the next one is loaded.

use vstd::prelude::*;

verus! {

use crate::cpu::{
    Cpu,
    CpuState,
    ExecutionFault,
    lemma_run_interrupt_type,
    MachineState,
    RunOutcome,
    spec_loaded_cpu,
    spec_run,
};
use crate::memory::Memory;
use crate::pcb::{ProcessControlBlock, ProcessState};
use crate::queue::{FifoQueue, PriorityQueue, ReadyEntry, ReadyQueue, first_max_index};

/// The discipline the ready queue follows.
pub enum StsSchedulingAlg {
    Fifo,
    Priority,
}

/// What the scheduler remembers of a terminated process, for the runtime
/// statistics printed after the final batch.
#[derive(Clone, Copy, Debug, PartialEq, Eq, Structural)]
pub struct FinishedProcess {
    pub process_id: u32,
    pub priority: u32,
    pub turnaround_time_ms: u64,
    pub avg_burst_time_ms: u64,
}

/// Short-term scheduler state: the ready queue, the process loaded on the
/// CPU (if any), the ids of terminated processes in termination order,
/// and their recorded statistics.
pub struct ShortTermScheduler {
    pub ready_queue: ReadyQueue,
    pub current_pcb: Option<u32>,
    pub finished_ids: Vec<u32>,
    pub finished_stats: Vec<FinishedProcess>,
}

/// The order in which a queue drains: under the priority discipline the
/// first maximum leaves first, otherwise the front.
pub open spec fn spec_drain(entries: Seq<ReadyEntry>, priority_mode: bool) -> Seq<ReadyEntry>
    decreases entries.len(),
    via spec_drain_dec
{
    if entries.len() == 0 {
        Seq::empty()
    } else if priority_mode {
        let i = first_max_index(entries);
        seq![entries[i]] + spec_drain(entries.remove(i), true)
    } else {
        seq![entries[0]] + spec_drain(entries.drop_first(), false)
    }
}

#[via_fn]
proof fn spec_drain_dec(entries: Seq<ReadyEntry>, priority_mode: bool) {
    if entries.len() > 0 && priority_mode {
        crate::queue::lemma_first_max_is_max(entries);
    }
}

/// Under the priority discipline the drain order is by non-increasing
/// priority: each process that terminates has priority at least that of
/// every process terminating after it.
pub proof fn lemma_priority_drain_sorted(entries: Seq<ReadyEntry>)
    ensures
        ({
            let d = spec_drain(entries, true);
            &&& d.len() == entries.len()
            &&& forall|i: int, j: int|
                0 <= i < j < d.len() ==> (#[trigger] d[i].priority) >= (#[trigger] d[j].priority)
        }),
    decreases entries.len(),
{
    if entries.len() > 0 {
        crate::queue::lemma_first_max_is_max(entries);
        let m = first_max_index(entries);
        let rest = entries.remove(m);
        lemma_priority_drain_sorted(rest);
        lemma_drain_members(rest, true);
        let d = spec_drain(entries, true);
        assert forall|i: int, j: int| 0 <= i < j < d.len() implies (#[trigger] d[i].priority)
            >= (#[trigger] d[j].priority) by {
            if i == 0 {
                let dr = spec_drain(rest, true);
                assert(d[j] == dr[j - 1]);
                let k = choose|k: int| 0 <= k < rest.len() && rest[k] == dr[j - 1];
                if k < m {
                    assert(rest[k] == entries[k]);
                } else {
                    assert(rest[k] == entries[k + 1]);
                }
            }
        }
    }
}

/// Every entry of the drain order is one of the queued entries.
pub proof fn lemma_drain_members(entries: Seq<ReadyEntry>, priority_mode: bool)
    ensures
        ({
            let d = spec_drain(entries, priority_mode);
            forall|i: int|
                0 <= i < d.len() ==> exists|k: int|
                    0 <= k < entries.len() && entries[k] == (#[trigger] d[i])
        }),
    decreases entries.len(),
{
    if entries.len() > 0 {
        if priority_mode {
            crate::queue::lemma_first_max_is_max(entries);
        }
        let m: int = if priority_mode {
            first_max_index(entries)
        } else {
            0
        };
        let rest = entries.remove(m);
        if !priority_mode {
            assert(rest =~= entries.drop_first());
        }
        lemma_drain_members(rest, priority_mode);
        let d = spec_drain(entries, priority_mode);
        assert(d == seq![entries[m]] + spec_drain(rest, priority_mode));
        assert forall|i: int| 0 <= i < d.len() implies exists|k: int|
            0 <= k < entries.len() && entries[k] == (#[trigger] d[i]) by {
            if i == 0 {
                assert(entries[m] == d[0]);
            } else {
                let dr = spec_drain(rest, priority_mode);
                assert(d[i] == dr[i - 1]);
                let k = choose|k: int| 0 <= k < rest.len() && rest[k] == dr[i - 1];
                if k < m {
                    assert(entries[k] == d[i]);
                } else {
                    assert(entries[k + 1] == d[i]);
                }
            }
        }
    }
}

/// Draining hands out exactly as many entries as were queued.
pub proof fn lemma_drain_len(entries: Seq<ReadyEntry>, priority_mode: bool)
    ensures
        spec_drain(entries, priority_mode).len() == entries.len(),
    decreases entries.len(),
{
    if entries.len() > 0 {
        if priority_mode {
            crate::queue::lemma_first_max_is_max(entries);
            lemma_drain_len(entries.remove(first_max_index(entries)), priority_mode);
        } else {
            lemma_drain_len(entries.drop_first(), priority_mode);
        }
    }
}

/// Under the arrival discipline the drain order is the queue itself.
pub proof fn lemma_fifo_drain_identity(entries: Seq<ReadyEntry>)
    ensures
        spec_drain(entries, false) == entries,
    decreases entries.len(),
{
    if entries.len() > 0 {
        lemma_fifo_drain_identity(entries.drop_first());
        assert(spec_drain(entries, false) =~= entries);
    }
}

/// Descriptor placement survives scheduling: the registry keeps the same
/// processes over the same words, though their registers, counters,
/// states and timers move.
pub open spec fn placements_preserved(m0: Memory, m1: Memory) -> bool {
    &&& m1.pcbs@.len() == m0.pcbs@.len()
    &&& forall|i: int|
        0 <= i < m0.pcbs@.len() ==> crate::memory::same_placement(
            m0.pcbs@[i],
            #[trigger] m1.pcbs@[i],
        )
    &&& m1.current_data_idx == m0.current_data_idx
}

/// What a dispatch reads from a descriptor when it loads the process:
/// where its instruction region lies, and its saved counter and
/// registers.
#[verifier::ext_equal]
pub struct LoadedContext {
    pub process_id: u32,
    pub mem_start_address: int,
    pub mem_in_start_address: int,
    pub program_counter: int,
    pub registers: Seq<u32>,
}

/// The load-relevant part of a live descriptor.
pub open spec fn context_of(m: Memory, id: u32) -> LoadedContext {
    let pcb = m.spec_pcb_for(id);
    LoadedContext {
        process_id: id,
        mem_start_address: pcb.mem_start_address as int,
        mem_in_start_address: pcb.mem_in_start_address as int,
        program_counter: pcb.program_counter as int,
        registers: pcb.registers@,
    }
}

/// The load-relevant parts of a row of queued processes.
pub open spec fn spec_contexts(m: Memory, entries: Seq<ReadyEntry>) -> Seq<LoadedContext> {
    entries.map_values(|e: ReadyEntry| context_of(m, e.process_id))
}

/// The machine right after a context is loaded over the given memory
/// words: its instruction span cached, counter and registers restored,
/// interrupt cleared.
pub open spec fn spec_loaded_machine(ctx: LoadedContext, data: Seq<u32>) -> MachineState {
    MachineState {
        cpu: CpuState {
            cache: data.subrange(ctx.mem_start_address, ctx.mem_in_start_address),
            program_counter: ctx.program_counter,
            mem_start_address: ctx.mem_start_address,
            registers: ctx.registers,
            interrupted: false,
            interrupt_type: ProcessState::Terminated,
        },
        memory: data,
    }
}

/// How a row of dispatches ends: every run interrupted and left these
/// memory words, or the first faulting run's fault, or a run that outran
/// the cycle budget.
pub enum SessionOutcome {
    Completed(Seq<u32>),
    SessionFaulted(ExecutionFault),
    SessionOutOfCycles,
}

/// Loads and runs each context in order, threading the memory words from
/// one run into the next load.
pub open spec fn spec_session(
    ctxs: Seq<LoadedContext>,
    data: Seq<u32>,
    max_cycles: nat,
) -> SessionOutcome
    decreases ctxs.len(),
{
    if ctxs.len() == 0 {
        SessionOutcome::Completed(data)
    } else {
        match spec_run(spec_loaded_machine(ctxs[0], data), max_cycles) {
            RunOutcome::Interrupted(s1) => spec_session(ctxs.drop_first(), s1.memory, max_cycles),
            RunOutcome::Faulted(f) => SessionOutcome::SessionFaulted(f),
            RunOutcome::OutOfCycles => SessionOutcome::SessionOutOfCycles,
        }
    }
}

/// How a call that drains the dispatcher must end, as a function of the
/// state it was given: with nothing queued and nothing loaded it succeeds
/// at once; otherwise the machine on the engine runs to its interrupt and
/// every queued process is then loaded and run, in drain order.
pub open spec fn spec_await_outcome(
    sts: ShortTermScheduler,
    memory: Memory,
    cpu: Cpu,
    max_cycles: nat,
) -> SessionOutcome {
    let drain = spec_drain(sts.ready_queue.entries(), sts.ready_queue.is_priority());
    let ctxs = spec_contexts(memory, drain);
    if sts.ready_queue.entries().len() == 0 && sts.current_pcb is None {
        SessionOutcome::Completed(memory.data@)
    } else {
        match spec_run(cpu.machine(memory), max_cycles) {
            RunOutcome::Interrupted(s1) => spec_session(ctxs, s1.memory, max_cycles),
            RunOutcome::Faulted(f) => SessionOutcome::SessionFaulted(f),
            RunOutcome::OutOfCycles => SessionOutcome::SessionOutOfCycles,
        }
    }
}

impl ShortTermScheduler {
    /// The scheduler's hold on memory and the engine: every queued id and
    /// the loaded id name live processes whose timers are in the expected
    /// phase, no id is tracked twice, and the engine only ever signals
    /// termination.
    pub open spec fn inv(self, memory: Memory, cpu: Cpu) -> bool {
        let entries = self.ready_queue.entries();
        &&& memory.wf()
        &&& cpu.wf()
        &&& cpu.proc_interrupt_type == ProcessState::Terminated
        &&& forall|k: int|
            0 <= k < entries.len() ==> {
                &&& memory.has_pcb_for((#[trigger] entries[k]).process_id)
                &&& memory.spec_pcb_for(entries[k].process_id).turnaround_time_is_recording
            }
        &&& forall|i: int, j: int|
            0 <= i < j < entries.len() ==> (#[trigger] entries[i].process_id) != (
            #[trigger] entries[j].process_id)
        &&& match self.current_pcb {
            Some(id) => {
                &&& memory.has_pcb_for(id)
                &&& memory.spec_pcb_for(id).burst_time_is_recording
                &&& memory.spec_pcb_for(id).turnaround_time_is_recording
                &&& forall|k: int|
                    0 <= k < entries.len() ==> (#[trigger] entries[k].process_id) != id
            },
            None => true,
        }
    }

    pub fn new(scheduling_alg: StsSchedulingAlg) -> (r: ShortTermScheduler)
        ensures
            r.ready_queue.entries().len() == 0,
            r.current_pcb is None,
            r.finished_ids@.len() == 0,
            r.ready_queue.is_priority() == (scheduling_alg is Priority),
    {
        let ready_queue = match scheduling_alg {
            StsSchedulingAlg::Fifo => ReadyQueue::Fifo(FifoQueue::new()),
            StsSchedulingAlg::Priority => ReadyQueue::Priority(PriorityQueue::new()),
        };
        ShortTermScheduler {
            ready_queue,
            current_pcb: None,
            finished_ids: Vec::new(),
            finished_stats: Vec::new(),
        }
    }

    /// Puts a process on the ready queue.
    pub fn schedule_process(&mut self, pcb: &ProcessControlBlock)
        ensures
            final(self).ready_queue.entries() == old(self).ready_queue.entries().push(
                ReadyEntry { process_id: pcb.id, priority: pcb.priority },
            ),
            final(self).ready_queue.is_priority() == old(self).ready_queue.is_priority(),
            final(self).current_pcb == old(self).current_pcb,
            final(self).finished_ids@ == old(self).finished_ids@,
    {
        let entry = ReadyEntry::of_pcb(pcb);
        self.ready_queue.push(entry);
    }

    /// One turn of the dispatcher: wait for the running process to
    /// interrupt, save and retire it, then load the next ready process.
    #[verifier::rlimit(60)]
    pub fn dispatch(&mut self, memory: &mut Memory, cpu: &mut Cpu, max_cycles: u64) -> (r: Result<
        (),
        ExecutionFault,
    >)
        requires
            old(self).inv(*old(memory), *old(cpu)),
            old(self).ready_queue.entries().len() > 0,
        ensures
            final(self).ready_queue.is_priority() == old(self).ready_queue.is_priority(),
            match spec_run(old(cpu).machine(*old(memory)), max_cycles as nat) {
                RunOutcome::Interrupted(s1) => r is Ok && final(memory).data@ == s1.memory,
                RunOutcome::Faulted(f) => r == Err::<(), ExecutionFault>(f),
                RunOutcome::OutOfCycles => r == Err::<(), ExecutionFault>(
                    ExecutionFault::CycleLimitExceeded,
                ),
            },
            r is Ok ==> {
                let entries = old(self).ready_queue.entries();
                let popped = entries[old(self).ready_queue.next_index()];
                &&& final(self).inv(*final(memory), *final(cpu))
                &&& final(self).ready_queue.entries() == entries.remove(
                    old(self).ready_queue.next_index(),
                )
                &&& final(self).current_pcb == Some(popped.process_id)
                &&& final(self).finished_ids@ == old(self).finished_ids@ + (match old(
                    self,
                ).current_pcb {
                    Some(c) => seq![c],
                    None => Seq::<u32>::empty(),
                })
                &&& placements_preserved(*old(memory), *final(memory))
                &&& final(memory).spec_pcb_for(popped.process_id).state == ProcessState::Running
                &&& final(memory).spec_pcb_for(popped.process_id).burst_time_is_recording
                &&& final(cpu).state() == spec_loaded_cpu(
                    final(memory).spec_pcb_for(popped.process_id),
                    final(memory).data@,
                    ProcessState::Terminated,
                )
                &&& forall|other: u32|
                    old(memory).has_pcb_for(other) && (match old(self).current_pcb {
                        Some(c) => other != c,
                        None => true,
                    }) ==> #[trigger] context_of(*final(memory), other) == context_of(
                        *old(memory),
                        other,
                    )
                &&& (match old(self).current_pcb {
                    Some(c) => {
                        &&& final(memory).spec_pcb_for(c).state == ProcessState::Terminated
                        &&& !final(memory).spec_pcb_for(c).turnaround_time_is_recording
                    },
                    None => true,
                })
            },
    {
        let ghost entries0 = old(self).ready_queue.entries();
        let ghost ni = old(self).ready_queue.next_index();
        proof {
            if old(self).ready_queue.is_priority() {
                crate::queue::lemma_first_max_is_max(entries0);
            }
        }
        let out_state = match cpu.await_process_interrupt(memory, max_cycles) {
            Ok(st) => st,
            Err(f) => {
                return Err(f);
            },
        };
        proof {
            lemma_run_interrupt_type(old(cpu).machine(*old(memory)), max_cycles as nat);
            assert(placements_preserved(*old(memory), *memory));
        }
        // Every interrupt the engine raises is a termination.
        if let Some(out_id) = self.current_pcb {
            let ghost m0 = *memory;
            memory.save_context_for(out_id, cpu.get_registers(), cpu.get_program_counter());
            proof {
                crate::memory::lemma_index_of_pcb(m0.pcbs@, out_id);
                lemma_placement_after_update(m0, *memory, out_id);
                lemma_placements_trans(*old(memory), m0, *memory);
            }
            match out_state {
                ProcessState::Terminated => {
                    let ghost m1 = *memory;
                    memory.set_state_for(out_id, ProcessState::Terminated);
                    proof {
                        crate::memory::lemma_index_of_pcb(m1.pcbs@, out_id);
                        lemma_placement_after_update(m1, *memory, out_id);
                        lemma_placements_trans(*old(memory), m1, *memory);
                    }
                    let ghost m2 = *memory;
                    memory.end_turnaround_for(out_id);
                    proof {
                        crate::memory::lemma_index_of_pcb(m2.pcbs@, out_id);
                        lemma_placement_after_update(m2, *memory, out_id);
                        lemma_placements_trans(*old(memory), m2, *memory);
                    }
                    let finished_pcb = memory.get_pcb_for(out_id);
                    let record = FinishedProcess {
                        process_id: out_id,
                        priority: finished_pcb.get_priority(),
                        turnaround_time_ms: finished_pcb.get_turnaround_time_ms(),
                        avg_burst_time_ms: finished_pcb.get_avg_burst_time_ms(),
                    };
                    self.finished_stats.push(record);
                    self.finished_ids.push(out_id);
                },
                ProcessState::Ready => {
                    let ghost m1 = *memory;
                    memory.set_state_for(out_id, ProcessState::Ready);
                    proof {
                        crate::memory::lemma_index_of_pcb(m1.pcbs@, out_id);
                        lemma_placement_after_update(m1, *memory, out_id);
                        lemma_placements_trans(*old(memory), m1, *memory);
                    }
                    let entry = ReadyEntry::of_pcb(memory.get_pcb_for(out_id));
                    self.ready_queue.push(entry);
                },
                ProcessState::Waiting => {
                    let ghost m1 = *memory;
                    memory.set_state_for(out_id, ProcessState::Waiting);
                    proof {
                        crate::memory::lemma_index_of_pcb(m1.pcbs@, out_id);
                        lemma_placement_after_update(m1, *memory, out_id);
                        lemma_placements_trans(*old(memory), m1, *memory);
                    }
                },
                ProcessState::Running => {},
            }
        }
        let next = match self.ready_queue.pop() {
            Some(entry) => entry,
            None => {
                return Ok(());
            },
        };
        proof {
            assert(next == entries0[ni]);
            assert(memory.has_pcb_for(next.process_id));
            assert(memory.spec_pcb_for(next.process_id).turnaround_time_is_recording);
        }
        let ghost m3 = *memory;
        memory.set_state_for(next.process_id, ProcessState::Running);
        proof {
            crate::memory::lemma_index_of_pcb(m3.pcbs@, next.process_id);
            lemma_placement_after_update(m3, *memory, next.process_id);
            lemma_placements_trans(*old(memory), m3, *memory);
        }
        let ghost m4 = *memory;
        memory.start_burst_for(next.process_id);
        proof {
            crate::memory::lemma_index_of_pcb(m4.pcbs@, next.process_id);
            lemma_placement_after_update(m4, *memory, next.process_id);
            lemma_placements_trans(*old(memory), m4, *memory);
            crate::memory::lemma_index_of_pcb(memory.pcbs@, next.process_id);
        }
        cpu.execute_process(memory, memory.get_pcb_for(next.process_id));
        self.current_pcb = Some(next.process_id);
        proof {
            assert forall|k: int| 0 <= k < self.ready_queue.entries().len() implies {
                let e = #[trigger] self.ready_queue.entries()[k];
                &&& memory.has_pcb_for(e.process_id)
                &&& memory.spec_pcb_for(e.process_id).turnaround_time_is_recording
                &&& e.process_id != next.process_id
            } by {
                let e = self.ready_queue.entries()[k];
                if k < ni {
                    assert(e == entries0[k]);
                } else {
                    assert(e == entries0[k + 1]);
                }
            }
        }
        Ok(())
    }

    /// Runs the dispatcher until the ready queue is drained and the last
    /// loaded process has terminated.  On success every scheduled process
    /// has terminated, and the termination order is the drain order of
    /// the ready queue: arrival order under FIFO, non-increasing priority
    /// under the priority discipline.
    #[verifier::rlimit(100)]
    pub fn await_all_procs_finished(
        &mut self,
        memory: &mut Memory,
        cpu: &mut Cpu,
        max_cycles: u64,
    ) -> (r: Result<(), ExecutionFault>)
        requires
            old(self).inv(*old(memory), *old(cpu)),
        ensures
            final(self).ready_queue.is_priority() == old(self).ready_queue.is_priority(),
            match spec_await_outcome(*old(self), *old(memory), *old(cpu), max_cycles as nat) {
                SessionOutcome::Completed(d) => r is Ok && final(memory).data@ == d,
                SessionOutcome::SessionFaulted(f) => r == Err::<(), ExecutionFault>(f),
                SessionOutcome::SessionOutOfCycles => r == Err::<(), ExecutionFault>(
                    ExecutionFault::CycleLimitExceeded,
                ),
            },
            r is Ok && (old(self).ready_queue.entries().len() > 0 || old(self).current_pcb
                is Some) ==> final(cpu).proc_should_interrupt,
            r is Ok ==> {
                &&& final(self).inv(*final(memory), *final(cpu))
                &&& final(self).ready_queue.entries().len() == 0
                &&& final(self).current_pcb is None
                &&& final(self).finished_ids@ == old(self).finished_ids@ + (match old(
                    self,
                ).current_pcb {
                    Some(c) => seq![c],
                    None => Seq::<u32>::empty(),
                }) + crate::queue::entry_ids(
                    spec_drain(
                        old(self).ready_queue.entries(),
                        old(self).ready_queue.is_priority(),
                    ),
                )
                &&& placements_preserved(*old(memory), *final(memory))
            },
    {
        let ghost target = old(self).finished_ids@ + (match old(self).current_pcb {
            Some(c) => seq![c],
            None => Seq::<u32>::empty(),
        }) + crate::queue::entry_ids(
            spec_drain(old(self).ready_queue.entries(), old(self).ready_queue.is_priority()),
        );
        let ghost outcome0 = spec_await_outcome(
            *old(self),
            *old(memory),
            *old(cpu),
            max_cycles as nat,
        );
        while !self.ready_queue.is_empty()
            invariant
                self.inv(*memory, *cpu),
                self.ready_queue.is_priority() == old(self).ready_queue.is_priority(),
                placements_preserved(*old(memory), *memory),
                outcome0 == spec_await_outcome(
                    *old(self),
                    *old(memory),
                    *old(cpu),
                    max_cycles as nat,
                ),
                old(self).ready_queue.entries().len() > 0 || old(self).current_pcb is Some
                    ==> (self.current_pcb is Some || self.ready_queue.entries().len() > 0),
                spec_await_outcome(*self, *memory, *cpu, max_cycles as nat) == outcome0,
                target == self.finished_ids@ + (match self.current_pcb {
                    Some(c) => seq![c],
                    None => Seq::<u32>::empty(),
                }) + crate::queue::entry_ids(
                    spec_drain(self.ready_queue.entries(), self.ready_queue.is_priority()),
                ),
            decreases self.ready_queue.entries().len(),
        {
            let ghost entries0 = self.ready_queue.entries();
            let ghost ni = self.ready_queue.next_index();
            let ghost finished0 = self.finished_ids@;
            let ghost current0 = self.current_pcb;
            let ghost mem0 = *memory;
            let ghost cpu0 = *cpu;
            proof {
                if self.ready_queue.is_priority() {
                    crate::queue::lemma_first_max_is_max(entries0);
                }
            }
            match self.dispatch(memory, cpu, max_cycles) {
                Ok(()) => {},
                Err(f) => {
                    proof {
                        match spec_run(cpu0.machine(mem0), max_cycles as nat) {
                            RunOutcome::Interrupted(s1) => {
                                assert(false);
                            },
                            RunOutcome::Faulted(f0) => {
                                assert(outcome0 == SessionOutcome::SessionFaulted(f0));
                            },
                            RunOutcome::OutOfCycles => {
                                assert(outcome0 == SessionOutcome::SessionOutOfCycles);
                            },
                        }
                    }
                    return Err(f);
                },
            }
            proof {
                lemma_placements_trans(*old(memory), mem0, *memory);
                let prio = self.ready_queue.is_priority();
                let rest = entries0.remove(ni);
                if prio {
                    assert(spec_drain(entries0, prio) == seq![entries0[ni]] + spec_drain(
                        rest,
                        prio,
                    ));
                } else {
                    assert(entries0.remove(0) =~= entries0.drop_first());
                    assert(spec_drain(entries0, prio) == seq![entries0[0]] + spec_drain(
                        entries0.drop_first(),
                        prio,
                    ));
                }
                crate::queue::lemma_entry_ids(spec_drain(entries0, prio));
                crate::queue::lemma_entry_ids(spec_drain(rest, prio));
                assert(crate::queue::entry_ids(spec_drain(entries0, prio)) =~= seq![
                    entries0[ni].process_id,
                ] + crate::queue::entry_ids(spec_drain(rest, prio)));
                assert(finished0 + (match current0 {
                    Some(c) => seq![c],
                    None => Seq::<u32>::empty(),
                }) + crate::queue::entry_ids(spec_drain(entries0, prio)) =~= self.finished_ids@
                    + seq![entries0[ni].process_id] + crate::queue::entry_ids(
                    spec_drain(rest, prio),
                ));
                lemma_session_step(
                    entries0,
                    prio,
                    ni,
                    mem0,
                    cpu0,
                    current0,
                    *self,
                    *memory,
                    *cpu,
                    max_cycles as nat,
                );
            }
        }
        // Drain the last loaded process.
        if let Some(out_id) = self.current_pcb {
            let ghost cpu_q = *cpu;
            let ghost mem_q = *memory;
            match cpu.await_process_interrupt(memory, max_cycles) {
                Ok(st) => st,
                Err(f) => {
                    return Err(f);
                },
            };
            proof {
                lemma_run_interrupt_type(cpu_q.machine(mem_q), max_cycles as nat);
                lemma_placements_trans(*old(memory), mem_q, *memory);
            }
            let ghost m0 = *memory;
            memory.save_context_for(out_id, cpu.get_registers(), cpu.get_program_counter());
            proof {
                crate::memory::lemma_index_of_pcb(m0.pcbs@, out_id);
                lemma_placement_after_update(m0, *memory, out_id);
            }
            let ghost m1 = *memory;
            memory.set_state_for(out_id, ProcessState::Terminated);
            proof {
                crate::memory::lemma_index_of_pcb(m1.pcbs@, out_id);
                lemma_placement_after_update(m1, *memory, out_id);
            }
            let ghost m2 = *memory;
            memory.end_turnaround_for(out_id);
            proof {
                crate::memory::lemma_index_of_pcb(m2.pcbs@, out_id);
                lemma_placement_after_update(m2, *memory, out_id);
                lemma_placements_trans(m0, m1, m2);
                lemma_placements_trans(m0, m2, *memory);
                lemma_placements_trans(*old(memory), m0, *memory);
            }
            let finished_pcb = memory.get_pcb_for(out_id);
            let record = FinishedProcess {
                process_id: out_id,
                priority: finished_pcb.get_priority(),
                turnaround_time_ms: finished_pcb.get_turnaround_time_ms(),
                avg_burst_time_ms: finished_pcb.get_avg_burst_time_ms(),
            };
            self.finished_stats.push(record);
            self.finished_ids.push(out_id);
            self.current_pcb = None;
            proof {
                assert(self.finished_ids@ =~= target);
            }
        }
        Ok(())
    }
}

/// Helper: one dispatch consumes the head of the drain order.  After the
/// previous run interrupted, the engine holds the popped context loaded
/// over the memory that run left, every other queued context is
/// untouched, so the outcome still owed equals the session of the whole
/// drain order over that memory.
proof fn lemma_session_step(
    entries0: Seq<ReadyEntry>,
    prio: bool,
    ni: int,
    mem0: Memory,
    cpu0: Cpu,
    current0: Option<u32>,
    sts1: ShortTermScheduler,
    mem1: Memory,
    cpu1: Cpu,
    max_cycles: nat,
)
    requires
        entries0.len() > 0,
        ni == if prio {
            first_max_index(entries0)
        } else {
            0
        },
        0 <= ni < entries0.len(),
        forall|k: int|
            0 <= k < entries0.len() ==> mem0.has_pcb_for((#[trigger] entries0[k]).process_id),
        (match current0 {
            Some(c) => forall|k: int|
                0 <= k < entries0.len() ==> (#[trigger] entries0[k].process_id) != c,
            None => true,
        }),
        sts1.ready_queue.entries() == entries0.remove(ni),
        sts1.ready_queue.is_priority() == prio,
        sts1.current_pcb == Some(entries0[ni].process_id),
        (match spec_run(cpu0.machine(mem0), max_cycles) {
            RunOutcome::Interrupted(s1) => mem1.data@ == s1.memory,
            RunOutcome::Faulted(f) => false,
            RunOutcome::OutOfCycles => false,
        }),
        cpu1.state() == spec_loaded_cpu(
            mem1.spec_pcb_for(entries0[ni].process_id),
            mem1.data@,
            ProcessState::Terminated,
        ),
        forall|other: u32|
            mem0.has_pcb_for(other) && (match current0 {
                Some(c) => other != c,
                None => true,
            }) ==> #[trigger] context_of(mem1, other) == context_of(mem0, other),
    ensures
        match spec_run(cpu0.machine(mem0), max_cycles) {
            RunOutcome::Interrupted(s1) => spec_await_outcome(sts1, mem1, cpu1, max_cycles)
                == spec_session(
                spec_contexts(mem0, spec_drain(entries0, prio)),
                s1.memory,
                max_cycles,
            ),
            RunOutcome::Faulted(f) => true,
            RunOutcome::OutOfCycles => true,
        },
{
    let popped_id = entries0[ni].process_id;
    let rest = entries0.remove(ni);
    let drain_rest = spec_drain(rest, prio);
    if prio {
        crate::queue::lemma_first_max_is_max(entries0);
        assert(spec_drain(entries0, prio) == seq![entries0[ni]] + drain_rest);
    } else {
        assert(entries0.remove(0) =~= entries0.drop_first());
        assert(spec_drain(entries0, prio) == seq![entries0[0]] + spec_drain(
            entries0.drop_first(),
            prio,
        ));
    }
    lemma_drain_members(rest, prio);
    match spec_run(cpu0.machine(mem0), max_cycles) {
        RunOutcome::Interrupted(s1) => {
            assert(context_of(mem1, popped_id) == context_of(mem0, popped_id));
            assert(cpu1.machine(mem1) =~= spec_loaded_machine(
                context_of(mem0, popped_id),
                s1.memory,
            ));
            assert(spec_contexts(mem0, spec_drain(entries0, prio)) =~= seq![
                context_of(mem0, popped_id),
            ] + spec_contexts(mem0, drain_rest));
            assert forall|i: int| 0 <= i < drain_rest.len() implies spec_contexts(
                mem1,
                drain_rest,
            )[i] == spec_contexts(mem0, drain_rest)[i] by {
                let e = drain_rest[i];
                let k = choose|k: int| 0 <= k < rest.len() && rest[k] == e;
                if k < ni {
                    assert(rest[k] == entries0[k]);
                } else {
                    assert(rest[k] == entries0[k + 1]);
                }
                assert(mem0.has_pcb_for(e.process_id));
                assert(context_of(mem1, e.process_id) == context_of(mem0, e.process_id));
            }
            assert(spec_contexts(mem1, drain_rest) =~= spec_contexts(mem0, drain_rest));
            let ctxs_b = spec_contexts(mem0, spec_drain(entries0, prio));
            assert(ctxs_b[0] == context_of(mem0, popped_id));
            assert(ctxs_b.drop_first() =~= spec_contexts(mem0, drain_rest));
            assert(spec_session(ctxs_b, s1.memory, max_cycles) == spec_await_outcome(
                sts1,
                mem1,
                cpu1,
                max_cycles,
            ));
        },
        RunOutcome::Faulted(_) => {},
        RunOutcome::OutOfCycles => {},
    }
}

/// Helper: placement preservation composes.
proof fn lemma_placements_trans(a: Memory, b: Memory, c: Memory)
    requires
        placements_preserved(a, b),
        placements_preserved(b, c),
    ensures
        placements_preserved(a, c),
{
}

/// Helper: each descriptor mutator replaces one descriptor by one of the
/// same placement, so all placements survive.
proof fn lemma_placement_after_update(m0: Memory, m1: Memory, process_id: u32)
    requires
        m0.wf(),
        m0.has_pcb_for(process_id),
        m1.pcbs@ == m0.pcbs@.update(
            m0.pcb_index_of(process_id),
            m1.pcbs@[m0.pcb_index_of(process_id)],
        ),
        crate::memory::same_placement(
            m0.pcbs@[m0.pcb_index_of(process_id)],
            m1.pcbs@[m0.pcb_index_of(process_id)],
        ),
        m1.current_data_idx == m0.current_data_idx,
    ensures
        placements_preserved(m0, m1),
{
    crate::memory::lemma_index_of_pcb(m0.pcbs@, process_id);
}

} // verus!
