//! The two ready-queue disciplines of the short-term scheduler: first-in
//! first-out, and priority (higher numeric priority leaves first, equal
//! priorities leave in insertion order).

use vstd::prelude::*;

verus! {

use std::collections::VecDeque;
use crate::pcb::ProcessControlBlock;

/// What the ready queue holds of a process: its identity and its
/// priority.  The descriptor itself stays in main memory.
#[derive(Clone, Copy, Debug, PartialEq, Eq, Structural)]
pub struct ReadyEntry {
    pub process_id: u32,
    pub priority: u32,
}

impl ReadyEntry {
    /// The queue entry standing for this descriptor.
    pub fn of_pcb(pcb: &ProcessControlBlock) -> (r: ReadyEntry)
        ensures
            r.process_id == pcb.id,
            r.priority == pcb.priority,
    {
        ReadyEntry { process_id: pcb.id, priority: pcb.priority }
    }

    pub fn get_id(&self) -> (r: u32)
        ensures
            r == self.process_id,
    {
        self.process_id
    }
}

/// First-in first-out ready queue.
pub struct FifoQueue {
    pub queue: VecDeque<ReadyEntry>,
}

impl FifoQueue {
    pub fn new() -> (r: FifoQueue)
        ensures
            r.queue@.len() == 0,
    {
        FifoQueue { queue: VecDeque::new() }
    }

    /// Appends at the back.
    pub fn push(&mut self, entry: ReadyEntry)
        ensures
            final(self).queue@ == old(self).queue@.push(entry),
    {
        self.queue.push_back(entry);
    }

    /// Removes from the front: the entry that has waited longest.
    pub fn pop(&mut self) -> (r: Option<ReadyEntry>)
        ensures
            old(self).queue@.len() == 0 ==> r is None && final(self).queue@ == old(self).queue@,
            old(self).queue@.len() > 0 ==> r == Some(old(self).queue@[0]) && final(self).queue@
                == old(self).queue@.drop_first(),
    {
        let r = self.queue.pop_front();
        proof {
            if old(self).queue@.len() > 0 {
                assert(final(self).queue@ =~= old(self).queue@.drop_first());
            }
        }
        r
    }

    pub fn is_empty(&self) -> (r: bool)
        ensures
            r == (self.queue@.len() == 0),
    {
        self.queue.len() == 0
    }
}

/// Index of the entry a priority pop removes: the first entry whose
/// priority no later entry exceeds.
pub open spec fn first_max_index(entries: Seq<ReadyEntry>) -> int
    decreases entries.len(),
{
    if entries.len() <= 1 {
        0
    } else {
        let r = first_max_index(entries.drop_last());
        if entries.last().priority > entries[r].priority {
            entries.len() - 1
        } else {
            r
        }
    }
}

/// The priority pop takes a maximum-priority entry, and among equal
/// priorities the one inserted first.
pub proof fn lemma_first_max_is_max(entries: Seq<ReadyEntry>)
    requires
        entries.len() > 0,
    ensures
        0 <= first_max_index(entries) < entries.len(),
        forall|j: int|
            0 <= j < entries.len() ==> (#[trigger] entries[j].priority) <= entries[first_max_index(
                entries,
            )].priority,
        forall|j: int|
            0 <= j < first_max_index(entries) ==> (#[trigger] entries[j].priority)
                < entries[first_max_index(entries)].priority,
    decreases entries.len(),
{
    if entries.len() > 1 {
        lemma_first_max_is_max(entries.drop_last());
        let front = entries.drop_last();
        let fm = first_max_index(entries);
        assert forall|j: int| 0 <= j < entries.len() implies (#[trigger] entries[j].priority)
            <= entries[fm].priority by {
            if j < entries.len() - 1 {
                assert(entries[j] == front[j]);
            }
        }
        assert forall|j: int| 0 <= j < fm implies (#[trigger] entries[j].priority)
            < entries[fm].priority by {
            assert(entries[j] == front[j]);
            if fm < entries.len() - 1 {
                assert(front[j].priority < front[first_max_index(front)].priority);
            } else {
                assert(front[j].priority <= front[first_max_index(front)].priority);
            }
        }
    }
}

/// Priority ready queue over a vector kept in insertion order; a pop
/// scans for the first maximum.
pub struct PriorityQueue {
    pub queue: Vec<ReadyEntry>,
}

impl PriorityQueue {
    pub fn new() -> (r: PriorityQueue)
        ensures
            r.queue@.len() == 0,
    {
        PriorityQueue { queue: Vec::new() }
    }

    /// Records the entry; order among stored entries is insertion order.
    pub fn push(&mut self, entry: ReadyEntry)
        ensures
            final(self).queue@ == old(self).queue@.push(entry),
    {
        self.queue.push(entry);
    }

    /// Removes and returns the first entry of maximum priority.
    pub fn pop(&mut self) -> (r: Option<ReadyEntry>)
        ensures
            old(self).queue@.len() == 0 ==> r is None && final(self).queue@ == old(self).queue@,
            old(self).queue@.len() > 0 ==> {
                &&& r == Some(old(self).queue@[first_max_index(old(self).queue@)])
                &&& final(self).queue@ == old(self).queue@.remove(
                    first_max_index(old(self).queue@),
                )
            },
    {
        if self.queue.len() == 0 {
            return None;
        }
        proof {
            lemma_first_max_is_max(self.queue@);
        }
        let n = self.queue.len();
        let mut best: usize = 0;
        let mut i: usize = 1;
        while i < n
            invariant
                n == self.queue@.len(),
                best < i <= n,
                best == first_max_index(self.queue@.take(i as int)),
            decreases n - i,
        {
            proof {
                assert(self.queue@.take(i + 1).drop_last() =~= self.queue@.take(i as int));
            }
            if self.queue[i].priority > self.queue[best].priority {
                best = i;
            }
            i = i + 1;
        }
        proof {
            assert(self.queue@.take(n as int) =~= self.queue@);
        }
        let entry = self.queue.remove(best);
        Some(entry)
    }

    pub fn is_empty(&self) -> (r: bool)
        ensures
            r == (self.queue@.len() == 0),
    {
        self.queue.len() == 0
    }
}

/// A ready queue under either discipline.
pub enum ReadyQueue {
    Fifo(FifoQueue),
    Priority(PriorityQueue),
}

impl ReadyQueue {
    /// The stored entries, oldest insertion first.
    pub open spec fn entries(self) -> Seq<ReadyEntry> {
        match self {
            ReadyQueue::Fifo(q) => q.queue@,
            ReadyQueue::Priority(q) => q.queue@,
        }
    }

    /// Whether pops follow priority rather than arrival.
    pub open spec fn is_priority(self) -> bool {
        self is Priority
    }

    /// The index the next pop removes.
    pub open spec fn next_index(self) -> int {
        if self.is_priority() {
            first_max_index(self.entries())
        } else {
            0
        }
    }

    pub fn push(&mut self, entry: ReadyEntry)
        ensures
            final(self).entries() == old(self).entries().push(entry),
            final(self).is_priority() == old(self).is_priority(),
    {
        match self {
            ReadyQueue::Fifo(q) => q.push(entry),
            ReadyQueue::Priority(q) => q.push(entry),
        }
    }

    pub fn pop(&mut self) -> (r: Option<ReadyEntry>)
        ensures
            final(self).is_priority() == old(self).is_priority(),
            old(self).entries().len() == 0 ==> r is None && final(self).entries() == old(
                self,
            ).entries(),
            old(self).entries().len() > 0 ==> {
                &&& r == Some(old(self).entries()[old(self).next_index()])
                &&& final(self).entries() == old(self).entries().remove(old(self).next_index())
            },
    {
        match self {
            ReadyQueue::Fifo(q) => {
                let r = q.pop();
                proof {
                    if old(self).entries().len() > 0 {
                        assert(old(self).entries().drop_first() =~= old(self).entries().remove(0));
                    }
                }
                r
            },
            ReadyQueue::Priority(q) => q.pop(),
        }
    }

    pub fn is_empty(&self) -> (r: bool)
        ensures
            r == (self.entries().len() == 0),
    {
        match self {
            ReadyQueue::Fifo(q) => q.is_empty(),
            ReadyQueue::Priority(q) => q.is_empty(),
        }
    }
}

/// The process ids of a sequence of entries, in the same order.
pub open spec fn entry_ids(entries: Seq<ReadyEntry>) -> Seq<u32> {
    entries.map_values(|e: ReadyEntry| e.process_id)
}

pub proof fn lemma_entry_ids(entries: Seq<ReadyEntry>)
    ensures
        entry_ids(entries).len() == entries.len(),
        forall|k: int|
            0 <= k < entries.len() ==> entry_ids(entries)[k] == (#[trigger] entries[k]).process_id,
{
    assert forall|k: int| 0 <= k < entries.len() implies entry_ids(entries)[k] == (
    #[trigger] entries[k]).process_id by {
        assert(entry_ids(entries)[k] == entries[k].process_id);
    }
}

/// One operation on a ready queue.
pub enum QueueOp {
    Push(ReadyEntry),
    Pop,
}

/// The entries a FIFO queue holds after a sequence of pushes and pops
/// (a pop on an empty queue removes nothing).
pub open spec fn fifo_state(ops: Seq<QueueOp>) -> Seq<ReadyEntry>
    decreases ops.len(),
{
    if ops.len() == 0 {
        Seq::empty()
    } else {
        let prev = fifo_state(ops.drop_last());
        match ops.last() {
            QueueOp::Push(e) => prev.push(e),
            QueueOp::Pop => if prev.len() == 0 {
                prev
            } else {
                prev.drop_first()
            },
        }
    }
}

/// The entries a FIFO queue has handed out, in pop order.
pub open spec fn fifo_outputs(ops: Seq<QueueOp>) -> Seq<ReadyEntry>
    decreases ops.len(),
{
    if ops.len() == 0 {
        Seq::empty()
    } else {
        let prev_state = fifo_state(ops.drop_last());
        let prev_out = fifo_outputs(ops.drop_last());
        match ops.last() {
            QueueOp::Push(e) => prev_out,
            QueueOp::Pop => if prev_state.len() == 0 {
                prev_out
            } else {
                prev_out.push(prev_state[0])
            },
        }
    }
}

/// The entries pushed, in push order.
pub open spec fn pushed_entries(ops: Seq<QueueOp>) -> Seq<ReadyEntry>
    decreases ops.len(),
{
    if ops.len() == 0 {
        Seq::empty()
    } else {
        match ops.last() {
            QueueOp::Push(e) => pushed_entries(ops.drop_last()).push(e),
            QueueOp::Pop => pushed_entries(ops.drop_last()),
        }
    }
}

/// FIFO discipline: across any sequence of pushes and pops, what has been
/// popped followed by what is still queued equals exactly what was
/// pushed, in push order.  In particular pop order equals push order.
pub proof fn lemma_fifo_discipline(ops: Seq<QueueOp>)
    ensures
        fifo_outputs(ops) + fifo_state(ops) == pushed_entries(ops),
    decreases ops.len(),
{
    if ops.len() == 0 {
        assert(fifo_outputs(ops) + fifo_state(ops) =~= pushed_entries(ops));
    } else {
        lemma_fifo_discipline(ops.drop_last());
        let prev_state = fifo_state(ops.drop_last());
        let prev_out = fifo_outputs(ops.drop_last());
        match ops.last() {
            QueueOp::Push(e) => {
                assert(prev_out + prev_state.push(e) =~= (prev_out + prev_state).push(e));
            },
            QueueOp::Pop => {
                if prev_state.len() > 0 {
                    assert(prev_out.push(prev_state[0]) + prev_state.drop_first() =~= prev_out
                        + prev_state);
                }
            },
        }
    }
}

} // verus!
