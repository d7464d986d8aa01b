//! The staging disk: an append-only pool of 32-bit words together with a
//! registry of program metadata.  Programs are appended whole; a later
//! flush may overwrite only the `output | temp` tail of an image.

use vstd::prelude::*;

verus! {

use crate::DISK_SIZE;
use crate::program_info::ProgramInfo;
use crate::words::{copy_words, overwrite, write_words, zero_words};

/// Fixed-capacity staging store, addressed by program id.
pub struct Disk {
    pub program_infos: Vec<ProgramInfo>,
    pub data: Vec<u32>,
    pub current_data_idx: usize,
}

/// The recorded images tile the used prefix of the pool: the first image
/// starts at word 0, each next image starts where the previous one ends,
/// and the last one ends at `used`.
pub open spec fn infos_chained(infos: Seq<ProgramInfo>, used: int) -> bool {
    &&& (infos.len() == 0 ==> used == 0)
    &&& (infos.len() > 0 ==> infos[0].data_start_idx == 0)
    &&& (infos.len() > 0 ==> infos.last().data_start_idx + infos.last().total_size() == used)
    &&& forall|i: int|
        0 <= i < infos.len() - 1 ==> (#[trigger] infos[i + 1].data_start_idx) == infos[i].data_start_idx
            + infos[i].total_size()
}

/// No two recorded programs share an id.
pub open spec fn infos_unique(infos: Seq<ProgramInfo>) -> bool {
    forall|i: int, j: int|
        0 <= i < j < infos.len() ==> (#[trigger] infos[i].id) != (#[trigger] infos[j].id)
}

/// Index of the program with the given id, or `-1` if none is recorded.
pub open spec fn index_of_info(infos: Seq<ProgramInfo>, id: u32) -> int
    decreases infos.len(),
{
    if infos.len() == 0 {
        -1
    } else if infos[0].id == id {
        0
    } else if index_of_info(infos.drop_first(), id) < 0 {
        -1
    } else {
        index_of_info(infos.drop_first(), id) + 1
    }
}

pub proof fn lemma_index_of_info(infos: Seq<ProgramInfo>, id: u32)
    ensures
        index_of_info(infos, id) >= 0 <==> (exists|i: int|
            0 <= i < infos.len() && (#[trigger] infos[i].id) == id),
        index_of_info(infos, id) >= 0 ==> index_of_info(infos, id) < infos.len()
            && infos[index_of_info(infos, id)].id == id,
    decreases infos.len(),
{
    if infos.len() > 0 && infos[0].id != id {
        lemma_index_of_info(infos.drop_first(), id);
        let sub = infos.drop_first();
        if index_of_info(sub, id) >= 0 {
            assert(infos[index_of_info(sub, id) + 1] == sub[index_of_info(sub, id)]);
        } else {
            assert forall|i: int| 0 <= i < infos.len() implies (#[trigger] infos[i].id) != id by {
                if i > 0 {
                    assert(sub[i - 1] == infos[i]);
                }
            }
        }
    }
}

/// The metadata recorded for this id in a registry sequence.
pub open spec fn spec_info_of(infos: Seq<ProgramInfo>, id: u32) -> ProgramInfo {
    infos[index_of_info(infos, id)]
}

impl Disk {
    /// Every operation preserves this shape.
    pub open spec fn wf(self) -> bool {
        &&& self.data@.len() == DISK_SIZE
        &&& self.current_data_idx <= DISK_SIZE
        &&& infos_chained(self.program_infos@, self.current_data_idx as int)
        &&& infos_unique(self.program_infos@)
    }

    /// Whether a program with this id has been written.
    pub open spec fn has_info_for(self, id: u32) -> bool {
        index_of_info(self.program_infos@, id) >= 0
    }

    /// The metadata recorded for this id (meaningful only when
    /// `has_info_for` holds).
    pub open spec fn spec_info_for(self, id: u32) -> ProgramInfo {
        spec_info_of(self.program_infos@, id)
    }

    /// The words an image occupies in the pool, in region order.
    pub open spec fn spec_data_for(self, info: ProgramInfo) -> Seq<u32> {
        self.data@.subrange(info.data_start_idx as int, info.data_start_idx + info.total_size())
    }

    pub fn new() -> (r: Disk)
        ensures
            r.wf(),
            r.program_infos@.len() == 0,
            r.current_data_idx == 0,
            r.data@ == Seq::new(DISK_SIZE as nat, |i: int| 0u32),
    {
        Disk { program_infos: Vec::new(), data: zero_words(DISK_SIZE), current_data_idx: 0 }
    }

    /// Whether a program with this id has been written.
    pub fn has_program(&self, program_id: u32) -> (r: bool)
        ensures
            r == self.has_info_for(program_id),
    {
        let n = self.program_infos.len();
        let mut i: usize = 0;
        while i < n
            invariant
                n == self.program_infos@.len(),
                i <= n,
                forall|k: int|
                    0 <= k < i ==> (#[trigger] self.program_infos@[k].id) != program_id,
            decreases n - i,
        {
            if self.program_infos[i].id == program_id {
                proof {
                    lemma_index_of_info(self.program_infos@, program_id);
                }
                return true;
            }
            i = i + 1;
        }
        proof {
            lemma_index_of_info(self.program_infos@, program_id);
        }
        false
    }

    /// Looks up the metadata for a program id.
    pub fn get_info_for(&self, program_id: u32) -> (r: ProgramInfo)
        requires
            self.has_info_for(program_id),
        ensures
            r == self.spec_info_for(program_id),
            r.id == program_id,
    {
        proof {
            lemma_index_of_info(self.program_infos@, program_id);
        }
        let ghost target = index_of_info(self.program_infos@, program_id);
        let n: usize = self.program_infos.len();
        let mut i: usize = 0;
        loop
            invariant
                n == self.program_infos@.len(),
                i <= target < n,
                target == index_of_info(self.program_infos@, program_id),
                self.program_infos@[target].id == program_id,
            decreases self.program_infos@.len() - i,
        {
            if self.program_infos[i].id == program_id {
                proof {
                    lemma_index_of_at(self.program_infos@, program_id, i as int);
                }
                return self.program_infos[i];
            }
            i = i + 1;
        }
    }

    /// Reads one program image out of the pool.
    pub fn read_data_for(&self, program_info: &ProgramInfo) -> (r: Vec<u32>)
        requires
            self.wf(),
            program_info.fits_disk(),
        ensures
            r@ == self.spec_data_for(*program_info),
            r@.len() == program_info.total_size(),
    {
        let start = program_info.data_start_idx;
        let end = start + program_info.instruction_buffer_size + program_info.in_buffer_size
            + program_info.out_buffer_size + program_info.temp_buffer_size;
        copy_words(&self.data, start, end)
    }

    /// Appends a program image to the pool and records its metadata.
    pub fn write_program(
        &mut self,
        id: u32,
        priority: u32,
        instruction_buffer_size: usize,
        in_buffer_size: usize,
        out_buffer_size: usize,
        temp_buffer_size: usize,
        data: &[u32],
    )
        requires
            old(self).wf(),
            !old(self).has_info_for(id),
            old(self).current_data_idx + data@.len() <= DISK_SIZE,
            instruction_buffer_size + in_buffer_size + out_buffer_size + temp_buffer_size
                == data@.len(),
        ensures
            final(self).wf(),
            wrote_program(
                *old(self),
                *final(self),
                id,
                priority,
                instruction_buffer_size,
                in_buffer_size,
                out_buffer_size,
                temp_buffer_size,
                data@,
            ),
            final(self).has_info_for(id),
            final(self).spec_info_for(id) == final(self).program_infos@.last(),
            forall|other: u32|
                #[trigger] old(self).has_info_for(other) ==> final(self).has_info_for(other)
                    && final(self).spec_info_for(other) == old(self).spec_info_for(other),
            forall|other: u32|
                !old(self).has_info_for(other) && other != id
                    ==> !(#[trigger] final(self).has_info_for(other)),
    {
        let data_start_idx = self.current_data_idx;
        write_words(&mut self.data, data_start_idx, data);
        self.current_data_idx = self.current_data_idx + data.len();

        let program_info = ProgramInfo {
            id,
            priority,
            instruction_buffer_size,
            in_buffer_size,
            out_buffer_size,
            temp_buffer_size,
            data_start_idx,
        };
        self.program_infos.push(program_info);
        proof {
            let prev = old(self).program_infos@;
            let infos = self.program_infos@;
            let n = infos.len() - 1;
            lemma_index_of_info(prev, id);
            lemma_index_of_push_fresh(prev, id, program_info);
            assert forall|i: int, j: int| 0 <= i < j < infos.len() implies (
            #[trigger] infos[i].id) != (#[trigger] infos[j].id) by {
                if j < n {
                    assert(prev[i].id != prev[j].id);
                } else {
                    assert(infos[i] == prev[i]);
                    if prev[i].id == id {
                        assert(exists|k: int|
                            0 <= k < prev.len() && (#[trigger] prev[k].id) == id);
                    }
                }
            }
            assert(infos =~= prev.push(program_info));
            assert forall|other: u32| #[trigger] old(self).has_info_for(other) implies self
                .has_info_for(other) && self.spec_info_for(other) == old(self).spec_info_for(
                other,
            ) by {
                lemma_index_of_info(prev, other);
                lemma_index_of_push_other(prev, program_info, other);
            }
            assert forall|other: u32| !old(self).has_info_for(other) && other != id implies !(
            #[trigger] self.has_info_for(other)) by {
                lemma_index_of_info(prev, other);
                lemma_index_of_info(infos, other);
                if self.has_info_for(other) {
                    let w = choose|w: int| 0 <= w < infos.len() && infos[w].id == other;
                    assert(w < n ==> prev[w].id == other);
                }
            }
        }
    }

    /// Overwrites the `output | temp` tail of a recorded image; the
    /// instruction and input regions, the metadata, and every other
    /// program are untouched.
    pub fn update_program(&mut self, program_id: u32, data: &[u32])
        requires
            old(self).wf(),
            old(self).has_info_for(program_id),
            data@.len() == old(self).spec_info_for(program_id).out_temp_size(),
        ensures
            final(self).wf(),
            updated_program(*old(self), *final(self), program_id, data@),
    {
        proof {
            lemma_index_of_info(self.program_infos@, program_id);
            lemma_chained_in_bounds(
                self.program_infos@,
                self.current_data_idx as int,
                index_of_info(self.program_infos@, program_id),
            );
        }
        let info = self.get_info_for(program_id);
        let at = info.data_start_idx + info.instruction_buffer_size + info.in_buffer_size;
        write_words(&mut self.data, at, data);
    }

    /// All recorded metadata, in recording order, or sorted by ascending
    /// id when `should_sort` is set.
    pub fn get_program_infos(&self, should_sort: bool) -> (r: Vec<ProgramInfo>)
        ensures
            r@.to_multiset() == self.program_infos@.to_multiset(),
            !should_sort ==> r@ == self.program_infos@,
            should_sort ==> sorted_by_id(r@),
    {
        let mut r: Vec<ProgramInfo> = Vec::new();
        let mut i: usize = 0;
        while i < self.program_infos.len()
            invariant
                i <= self.program_infos@.len(),
                r@ == self.program_infos@.take(i as int),
            decreases self.program_infos@.len() - i,
        {
            r.push(self.program_infos[i]);
            i = i + 1;
            proof {
                assert(r@ =~= self.program_infos@.take(i as int));
            }
        }
        proof {
            assert(r@ =~= self.program_infos@);
        }
        if should_sort {
            r = sort_infos_by_id(r);
        }
        r
    }
}

/// What `write_program` does to a disk: the image is appended at the old
/// bump pointer, its metadata is recorded last, and nothing else changes.
pub open spec fn wrote_program(
    d0: Disk,
    d1: Disk,
    id: u32,
    priority: u32,
    instruction_buffer_size: usize,
    in_buffer_size: usize,
    out_buffer_size: usize,
    temp_buffer_size: usize,
    data: Seq<u32>,
) -> bool {
    &&& d1.program_infos@ == d0.program_infos@.push(
        ProgramInfo {
            id,
            priority,
            instruction_buffer_size,
            in_buffer_size,
            out_buffer_size,
            temp_buffer_size,
            data_start_idx: d0.current_data_idx,
        },
    )
    &&& d1.data@ == overwrite(d0.data@, d0.current_data_idx as int, data)
    &&& d1.current_data_idx == d0.current_data_idx + data.len()
}

/// What `update_program` does to a disk: only the `output | temp` words of
/// the named image change; metadata and the bump pointer do not.
pub open spec fn updated_program(d0: Disk, d1: Disk, program_id: u32, data: Seq<u32>) -> bool {
    &&& d1.program_infos@ == d0.program_infos@
    &&& d1.current_data_idx == d0.current_data_idx
    &&& d1.data@ == overwrite(
        d0.data@,
        d0.spec_info_for(program_id).data_start_idx + d0.spec_info_for(
            program_id,
        ).instruction_buffer_size + d0.spec_info_for(program_id).in_buffer_size,
        data,
    )
}

/// Round trip through the disk: immediately after `write_program`, reading
/// the image back through its recorded metadata returns exactly the words
/// that were written, in region order.
pub proof fn lemma_write_then_read(
    d0: Disk,
    d1: Disk,
    id: u32,
    priority: u32,
    instruction_buffer_size: usize,
    in_buffer_size: usize,
    out_buffer_size: usize,
    temp_buffer_size: usize,
    data: Seq<u32>,
)
    requires
        d0.wf(),
        !d0.has_info_for(id),
        d0.current_data_idx + data.len() <= DISK_SIZE,
        instruction_buffer_size + in_buffer_size + out_buffer_size + temp_buffer_size
            == data.len(),
        wrote_program(
            d0,
            d1,
            id,
            priority,
            instruction_buffer_size,
            in_buffer_size,
            out_buffer_size,
            temp_buffer_size,
            data,
        ),
    ensures
        d1.has_info_for(id),
        d1.spec_info_for(id) == d1.program_infos@.last(),
        d1.spec_data_for(d1.spec_info_for(id)) == data,
{
    lemma_index_of_push_fresh(d0.program_infos@, id, d1.program_infos@.last());
    assert(d1.spec_data_for(d1.spec_info_for(id)) =~= data);
}

/// Frame rule for the disk: `write_program` leaves the metadata and the
/// image of every program written before it untouched, so a sequence of
/// writes keeps every earlier round trip intact.
pub proof fn lemma_write_preserves_programs(
    d0: Disk,
    d1: Disk,
    id: u32,
    priority: u32,
    instruction_buffer_size: usize,
    in_buffer_size: usize,
    out_buffer_size: usize,
    temp_buffer_size: usize,
    data: Seq<u32>,
    other: u32,
)
    requires
        d0.wf(),
        !d0.has_info_for(id),
        d0.current_data_idx + data.len() <= DISK_SIZE,
        wrote_program(
            d0,
            d1,
            id,
            priority,
            instruction_buffer_size,
            in_buffer_size,
            out_buffer_size,
            temp_buffer_size,
            data,
        ),
        d0.has_info_for(other),
    ensures
        d1.has_info_for(other),
        d1.spec_info_for(other) == d0.spec_info_for(other),
        d1.spec_data_for(d1.spec_info_for(other)) == d0.spec_data_for(d0.spec_info_for(other)),
{
    let infos = d0.program_infos@;
    lemma_index_of_info(infos, other);
    lemma_index_of_push_other(infos, d1.program_infos@.last(), other);
    lemma_chained_in_bounds(infos, d0.current_data_idx as int, index_of_info(infos, other));
    assert(d1.spec_data_for(d1.spec_info_for(other)) =~= d0.spec_data_for(
        d0.spec_info_for(other),
    ));
}

/// Flush round trip at the disk level: after `update_program`, rereading
/// the image returns the old instruction and input regions unchanged and
/// the new words in the `output | temp` region; every other program's
/// image is untouched.
pub proof fn lemma_update_then_read(d0: Disk, d1: Disk, program_id: u32, data: Seq<u32>)
    requires
        d0.wf(),
        d0.has_info_for(program_id),
        data.len() == d0.spec_info_for(program_id).out_temp_size(),
        updated_program(d0, d1, program_id, data),
    ensures
        d1.has_info_for(program_id),
        d1.spec_info_for(program_id) == d0.spec_info_for(program_id),
        ({
            let info = d0.spec_info_for(program_id);
            let head = info.instruction_buffer_size + info.in_buffer_size;
            &&& d1.spec_data_for(info).take(head) == d0.spec_data_for(info).take(head)
            &&& d1.spec_data_for(info).skip(head) == data
        }),
        forall|other: u32|
            d0.has_info_for(other) && other != program_id ==> {
                &&& #[trigger] d1.spec_info_for(other) == d0.spec_info_for(other)
                &&& d1.spec_data_for(d1.spec_info_for(other)) == d0.spec_data_for(
                    d0.spec_info_for(other),
                )
            },
{
    let infos = d0.program_infos@;
    let idx = index_of_info(infos, program_id);
    lemma_index_of_info(infos, program_id);
    lemma_chained_in_bounds(infos, d0.current_data_idx as int, idx);
    let info = d0.spec_info_for(program_id);
    let head = info.instruction_buffer_size + info.in_buffer_size;
    assert(d1.spec_data_for(info).take(head) =~= d0.spec_data_for(info).take(head));
    assert(d1.spec_data_for(info).skip(head) =~= data);
    assert forall|other: u32| d0.has_info_for(other) && other != program_id implies {
        &&& #[trigger] d1.spec_info_for(other) == d0.spec_info_for(other)
        &&& d1.spec_data_for(d1.spec_info_for(other)) == d0.spec_data_for(
            d0.spec_info_for(other),
        )
    } by {
        let j = index_of_info(infos, other);
        lemma_index_of_info(infos, other);
        lemma_chained_in_bounds(infos, d0.current_data_idx as int, j);
        lemma_chained_disjoint(infos, d0.current_data_idx as int, j, idx);
        assert(d1.spec_data_for(d1.spec_info_for(other)) =~= d0.spec_data_for(
            d0.spec_info_for(other),
        ));
    }
}

/// Helper: two distinct recorded images occupy disjoint word ranges.
pub proof fn lemma_chained_disjoint(infos: Seq<ProgramInfo>, used: int, i: int, j: int)
    requires
        infos_chained(infos, used),
        0 <= i < infos.len(),
        0 <= j < infos.len(),
        i != j,
    ensures
        infos[i].data_start_idx + infos[i].total_size() <= infos[j].data_start_idx
            || infos[j].data_start_idx + infos[j].total_size() <= infos[i].data_start_idx,
{
    if i < j {
        lemma_chained_ordered(infos, used, i, j);
    } else {
        lemma_chained_ordered(infos, used, j, i);
    }
}

/// Helper: images are recorded in ascending pool order.
proof fn lemma_chained_ordered(infos: Seq<ProgramInfo>, used: int, i: int, j: int)
    requires
        infos_chained(infos, used),
        0 <= i < j < infos.len(),
    ensures
        infos[i].data_start_idx + infos[i].total_size() <= infos[j].data_start_idx,
    decreases j - i,
{
    if j == i + 1 {
        lemma_chained_nonneg(infos, used, j);
    } else {
        lemma_chained_ordered(infos, used, i, j - 1);
        lemma_chained_nonneg(infos, used, j);
        assert(infos[j].data_start_idx == infos[j - 1].data_start_idx + infos[j - 1].total_size());
    }
}

/// Helper: every region size is nonnegative (sizes are machine words).
proof fn lemma_chained_nonneg(infos: Seq<ProgramInfo>, used: int, j: int)
    requires
        infos_chained(infos, used),
        0 < j < infos.len(),
    ensures
        infos[j].data_start_idx == infos[j - 1].data_start_idx + infos[j - 1].total_size(),
        infos[j - 1].total_size() >= 0,
{
    assert(infos[(j - 1) + 1].data_start_idx == infos[j - 1].data_start_idx + infos[j
        - 1].total_size());
}

/// Ascending order of program id.
pub open spec fn sorted_by_id(infos: Seq<ProgramInfo>) -> bool {
    forall|i: int, j: int|
        0 <= i < j < infos.len() ==> (#[trigger] infos[i].id) <= (#[trigger] infos[j].id)
}

/// Insertion sort on the id field; keeps exactly the same entries.
fn sort_infos_by_id(infos: Vec<ProgramInfo>) -> (r: Vec<ProgramInfo>)
    ensures
        r@.to_multiset() == infos@.to_multiset(),
        sorted_by_id(r@),
{
    let mut r: Vec<ProgramInfo> = Vec::new();
    proof {
        assert(r@ =~= infos@.take(0));
    }
    let mut i: usize = 0;
    while i < infos.len()
        invariant
            i <= infos@.len(),
            r@.to_multiset() == infos@.take(i as int).to_multiset(),
            r@.len() == i,
            sorted_by_id(r@),
        decreases infos@.len() - i,
    {
        let x = infos[i];
        let mut j: usize = r.len();
        while j > 0 && r[j - 1].id > x.id
            invariant
                j <= r@.len(),
                forall|k: int| j <= k < r@.len() ==> (#[trigger] r@[k].id) > x.id,
            decreases j,
        {
            j = j - 1;
        }
        proof {
            let inserted = r@.insert(j as int, x);
            assert forall|a: int, b: int| 0 <= a < b < inserted.len() implies (
            #[trigger] inserted[a].id) <= (#[trigger] inserted[b].id) by {
                if b < j {
                    assert(inserted[a] == r@[a] && inserted[b] == r@[b]);
                } else if a < j && b == j {
                    assert(inserted[a] == r@[a] && inserted[b] == x);
                    assert(r@[j - 1].id <= x.id);
                    if a < j - 1 {
                        assert(r@[a].id <= r@[j - 1].id);
                    }
                } else if a < j && b > j {
                    assert(inserted[a] == r@[a] && inserted[b] == r@[b - 1]);
                } else if a == j && b > j {
                    assert(inserted[a] == x && inserted[b] == r@[b - 1]);
                } else {
                    assert(a > j && b > j);
                    assert(inserted[a] == r@[a - 1] && inserted[b] == r@[b - 1]);
                }
            }
            lemma_insert_multiset(r@, j as int, x);
            assert(infos@.take(i as int).push(infos@[i as int]) =~= infos@.take(i + 1));
            infos@.take(i as int).to_multiset_ensures();
        }
        r.insert(j, x);
        i = i + 1;
    }
    proof {
        assert(infos@.take(infos@.len() as int) =~= infos@);
    }
    r
}

proof fn lemma_insert_multiset(s: Seq<ProgramInfo>, at: int, x: ProgramInfo)
    requires
        0 <= at <= s.len(),
    ensures
        s.insert(at, x).to_multiset() == s.to_multiset().insert(x),
{
    broadcast use vstd::multiset::group_multiset_axioms;

    assert(s.insert(at, x) =~= s.take(at).push(x) + s.skip(at));
    assert(s =~= s.take(at) + s.skip(at));
    s.take(at).to_multiset_ensures();
    vstd::seq_lib::lemma_multiset_commutative(s.take(at).push(x), s.skip(at));
    vstd::seq_lib::lemma_multiset_commutative(s.take(at), s.skip(at));
    assert(s.insert(at, x).to_multiset() =~= s.to_multiset().insert(x));
}

/// Helper: if the scan has not found `id` before `i` and entry `i`
/// matches, then `i` is the recorded index.
proof fn lemma_index_of_at(infos: Seq<ProgramInfo>, id: u32, i: int)
    requires
        0 <= i < infos.len(),
        index_of_info(infos, id) >= i,
        infos[i].id == id,
    ensures
        index_of_info(infos, id) == i,
    decreases i,
{
    if i > 0 {
        lemma_index_of_at(infos.drop_first(), id, i - 1);
    }
}

/// Helper: appending an entry with a fresh id makes the new entry
/// findable at the end of the registry.
proof fn lemma_index_of_push_fresh(infos: Seq<ProgramInfo>, id: u32, info: ProgramInfo)
    requires
        index_of_info(infos, id) < 0,
        info.id == id,
    ensures
        index_of_info(infos.push(info), id) == infos.len(),
    decreases infos.len(),
{
    if infos.len() == 0 {
        assert(infos.push(info)[0] == info);
    } else {
        assert(infos.push(info)[0] == infos[0]);
        assert(infos.push(info).drop_first() =~= infos.drop_first().push(info));
        lemma_index_of_push_fresh(infos.drop_first(), id, info);
    }
}

/// Helper: appending an entry does not change where earlier ids are found.
proof fn lemma_index_of_push_other(infos: Seq<ProgramInfo>, info: ProgramInfo, other: u32)
    requires
        index_of_info(infos, other) >= 0,
    ensures
        index_of_info(infos.push(info), other) == index_of_info(infos, other),
    decreases infos.len(),
{
    assert(infos.push(info)[0] == infos[0]);
    if infos[0].id != other {
        assert(infos.push(info).drop_first() =~= infos.drop_first().push(info));
        lemma_index_of_push_other(infos.drop_first(), info, other);
    }
}

/// Helper: in a chained registry every image lies inside the used prefix.
pub proof fn lemma_chained_in_bounds(infos: Seq<ProgramInfo>, used: int, i: int)
    requires
        infos_chained(infos, used),
        0 <= i < infos.len(),
    ensures
        infos[i].data_start_idx + infos[i].total_size() <= used,
        infos[i].total_size() >= 0,
    decreases infos.len() - i,
{
    if i < infos.len() - 1 {
        lemma_chained_in_bounds(infos, used, i + 1);
        assert(infos[i + 1].data_start_idx == infos[i].data_start_idx + infos[i].total_size());
    }
}

} // verus!
