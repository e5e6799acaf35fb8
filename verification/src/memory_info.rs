//! Slot-table allocator for the shared data region.
//!
//! The data region is described by a bounded table of [`MemorySlot`] records:
//! the sizes of the non-empty slots, in table order, partition the region into
//! adjacent blocks.  [`MemoryPool`] implements first-fit allocation with block
//! splitting, coalescing of neighbouring free blocks, per-blob reference
//! counting and a transfer-aware release protocol over that table.

use vstd::prelude::*;
use vstd::string::*;

use crate::decimal::dec_str;
use crate::decimal::u64_to_string;

verus! {

/// Flag bit recording that a slot has been observed by a process other than
/// its creator (or was explicitly marked releasable).
pub const FLAG_MEMSLOT_TRANSFERED: u8 = 0x01;

/// Wrapper around `u64` to add and restrict blob handle values.
///
/// The value 0 is reserved to mean "free / unused slot"; operations receiving
/// it fail with [`ArrayPoolError::InvalidPythonId`].
#[derive(Debug, PartialEq, Eq, Clone, Copy, Default, Structural)]
pub struct PythonId(pub u64);

/// Possible errors of memory pool management.
#[derive(Debug, PartialEq, Eq, Clone, Copy, Structural)]
pub enum ArrayPoolError {
    /// No free block is large enough.
    NoSpaceLeft,

    /// A split was required but the table has no trailing empty slot.
    NoFreeBlocLeft,

    /// An object with this handle already exists.
    ObjectAlreadyExists(PythonId),

    /// No object with this handle exists.
    ObjectNotFound(PythonId),

    /// The reserved handle 0 was passed.
    InvalidPythonId,
}

impl PythonId {
    /// Check that the handle is not the reserved value 0.
    fn valid(&self) -> (r: Result<(), ArrayPoolError>)
        ensures
            r == (if self.0 == 0 {
                Err::<(), ArrayPoolError>(ArrayPoolError::InvalidPythonId)
            } else {
                Ok::<(), ArrayPoolError>(())
            }),
    {
        if self.0 == 0 {
            Err(ArrayPoolError::InvalidPythonId)
        } else {
            Ok(())
        }
    }

    /// The reserved "free slot" handle.
    fn empty() -> (r: Self)
        ensures
            r == PythonId(0),
    {
        PythonId(0)
    }
}

/// Fixed-layout record describing one block of the data region.
#[derive(Debug, PartialEq, Eq, Clone, Copy, Structural)]
pub struct MemorySlot {
    /// Blob handle; 0 when the slot is free.
    pub python_id: PythonId,

    /// Block size in bytes.
    pub size: usize,

    /// Number of live references, across all processes.
    pub refcount: usize,

    /// OS PID of the process that allocated the block; 0 when free.
    pub source_pid: u32,

    /// Flag bits; see [`FLAG_MEMSLOT_TRANSFERED`].
    pub flags: u8,
}

/// The all-zero slot record: a placeholder in the table tail.
pub open spec fn spec_empty_slot() -> MemorySlot {
    MemorySlot { python_id: PythonId(0), size: 0, refcount: 0, source_pid: 0, flags: 0 }
}

/// A free block of the given size.
pub open spec fn spec_free_slot(size: usize) -> MemorySlot {
    MemorySlot { python_id: PythonId(0), size, refcount: 0, source_pid: 0, flags: 0 }
}

/// A freshly occupied block: one reference, owned by `source_pid`, no flags.
pub open spec fn spec_occupied_slot(python_id: PythonId, size: usize, source_pid: u32) -> MemorySlot {
    MemorySlot { python_id, size, refcount: 1, source_pid, flags: 0 }
}

/// A slot is free when it carries no blob handle.
pub open spec fn slot_free(s: MemorySlot) -> bool {
    s.python_id.0 == 0
}

/// A slot is empty when every field is zero.
pub open spec fn slot_empty(s: MemorySlot) -> bool {
    s == spec_empty_slot()
}

/// The slot has been observed outside its creating process (or was explicitly
/// marked releasable).
pub open spec fn slot_transferred(s: MemorySlot) -> bool {
    s.flags & FLAG_MEMSLOT_TRANSFERED == FLAG_MEMSLOT_TRANSFERED
}

/// The slot may be reclaimed: transferred at least once and unused.
pub open spec fn slot_releasable(s: MemorySlot) -> bool {
    slot_transferred(s) && s.refcount == 0
}

impl MemorySlot {
    /// Create an empty slot.
    pub fn empty() -> (r: Self)
        ensures
            r == spec_empty_slot(),
    {
        MemorySlot { python_id: PythonId::empty(), size: 0, refcount: 0, source_pid: 0, flags: 0 }
    }

    /// Create a free slot of the given size, without data.
    pub fn with_size(size: usize) -> (r: Self)
        ensures
            r == spec_free_slot(size),
    {
        MemorySlot { python_id: PythonId::empty(), size, refcount: 0, source_pid: 0, flags: 0 }
    }

    /// Create an occupied slot for a blob of `size` bytes allocated by
    /// `source_pid`.
    pub fn with_object_id(python_id: PythonId, size: usize, source_pid: u32) -> (r: Self)
        ensures
            r == spec_occupied_slot(python_id, size, source_pid),
    {
        MemorySlot { python_id, size, refcount: 1, source_pid, flags: 0 }
    }

    /// Check if the slot is free.
    pub fn is_free(&self) -> (r: bool)
        ensures
            r == slot_free(*self),
    {
        self.python_id.0 == 0
    }

    /// Check if the slot can be released: transferred at least once between
    /// processes and unused.
    pub fn is_releasable(&self) -> (r: bool)
        ensures
            r == slot_releasable(*self),
    {
        (self.flags & FLAG_MEMSLOT_TRANSFERED == FLAG_MEMSLOT_TRANSFERED) && (self.refcount == 0)
    }

    /// Split the block into an occupied prefix of `bytes_count` bytes and a
    /// free suffix holding the remainder.
    pub fn split_block(&self, bytes_count: usize) -> (r: (Self, Self))
        requires
            bytes_count < self.size,
        ensures
            r.0 == (MemorySlot { size: bytes_count, ..*self }),
            r.1 == spec_free_slot((self.size - bytes_count) as usize),
    {
        (
            MemorySlot {
                python_id: self.python_id,
                size: bytes_count,
                refcount: self.refcount,
                source_pid: self.source_pid,
                flags: self.flags,
            },
            MemorySlot::with_size(self.size - bytes_count),
        )
    }

    /// Set the reference count, returning the updated record.
    pub fn set_refcount(&mut self, refcount: usize) -> (r: Self)
        ensures
            *final(self) == (MemorySlot { refcount, ..*old(self) }),
            r == *final(self),
    {
        self.refcount = refcount;
        *self
    }

    /// Mark the slot as transferred between processes, returning the updated
    /// record.
    pub fn set_transfered(&mut self) -> (r: Self)
        ensures
            *final(self) == (MemorySlot { flags: old(self).flags | FLAG_MEMSLOT_TRANSFERED, ..*old(self) }),
            r == *final(self),
    {
        self.flags = self.flags | FLAG_MEMSLOT_TRANSFERED;
        *self
    }

    /// Set the transferred flag when the slot is inspected by a process other
    /// than its creator.
    fn update_flags(&mut self, self_pid: u32)
        ensures
            *final(self) == (if old(self).source_pid != self_pid {
                MemorySlot { flags: old(self).flags | FLAG_MEMSLOT_TRANSFERED, ..*old(self) }
            } else {
                *old(self)
            }),
    {
        if self.source_pid != self_pid {
            self.set_transfered();
        }
    }
}

/// Sum of the `size` fields of all slots: how many bytes of the data region
/// the table accounts for.
pub open spec fn sum_sizes(s: Seq<MemorySlot>) -> int
    decreases s.len(),
{
    if s.len() == 0 {
        0
    } else {
        sum_sizes(s.drop_last()) + s.last().size
    }
}

pub proof fn lemma_sum_sizes_nonneg(s: Seq<MemorySlot>)
    ensures
        sum_sizes(s) >= 0,
    decreases s.len(),
{
    if s.len() > 0 {
        lemma_sum_sizes_nonneg(s.drop_last());
    }
}

pub proof fn lemma_sum_sizes_concat(a: Seq<MemorySlot>, b: Seq<MemorySlot>)
    ensures
        sum_sizes(a + b) == sum_sizes(a) + sum_sizes(b),
    decreases b.len(),
{
    if b.len() == 0 {
        assert(a + b =~= a);
    } else {
        lemma_sum_sizes_concat(a, b.drop_last());
        assert((a + b).drop_last() =~= a + b.drop_last());
    }
}

pub proof fn lemma_sum_sizes_singleton(x: MemorySlot)
    ensures
        sum_sizes(seq![x]) == x.size,
{
    assert(seq![x].drop_last() =~= Seq::<MemorySlot>::empty());
    assert(sum_sizes(Seq::<MemorySlot>::empty()) == 0);
    assert(seq![x].last() == x);
}

/// Sum over a table is split by any cut point.
pub proof fn lemma_sum_sizes_split(s: Seq<MemorySlot>, i: int)
    requires
        0 <= i <= s.len(),
    ensures
        sum_sizes(s) == sum_sizes(s.take(i)) + sum_sizes(s.skip(i)),
{
    assert(s =~= s.take(i) + s.skip(i));
    lemma_sum_sizes_concat(s.take(i), s.skip(i));
}

/// One step of a prefix sum: adding slot `i` to the prefix before it.
pub proof fn lemma_sum_sizes_take_step(s: Seq<MemorySlot>, i: int)
    requires
        0 <= i < s.len(),
    ensures
        sum_sizes(s.take(i + 1)) == sum_sizes(s.take(i)) + s[i].size,
{
    assert(s.take(i + 1).drop_last() =~= s.take(i));
    assert(s.take(i + 1).last() == s[i]);
}

/// A prefix sum never exceeds the total sum.
pub proof fn lemma_sum_sizes_take_le(s: Seq<MemorySlot>, i: int)
    requires
        0 <= i <= s.len(),
    ensures
        sum_sizes(s.take(i)) <= sum_sizes(s),
{
    lemma_sum_sizes_split(s, i);
    lemma_sum_sizes_nonneg(s.skip(i));
}

/// The sizes of two distinct slots never exceed the total sum together.
pub proof fn lemma_sum_sizes_two_elems(s: Seq<MemorySlot>, i: int, j: int)
    requires
        0 <= i < j < s.len(),
    ensures
        s[i].size + s[j].size <= sum_sizes(s),
{
    lemma_sum_sizes_take_step(s, i);
    lemma_sum_sizes_take_step(s, j);
    lemma_sum_sizes_take_le(s, j + 1);
    lemma_sum_sizes_nonneg(s.take(i));
    // the prefix before j contains the prefix through i
    assert(s.take(j).take(i + 1) =~= s.take(i + 1));
    lemma_sum_sizes_take_le(s.take(j), i + 1);
}

/// Sum over a table of empty slots is zero.
pub proof fn lemma_sum_sizes_all_empty(s: Seq<MemorySlot>)
    requires
        forall|j: int| 0 <= j < s.len() ==> slot_empty(#[trigger] s[j]),
    ensures
        sum_sizes(s) == 0,
    decreases s.len(),
{
    if s.len() > 0 {
        lemma_sum_sizes_all_empty(s.drop_last());
    }
}

/// Offset of slot `i` in the data region: the sum of the sizes of the slots
/// before it.  It is never stored; it is always recomputed.
pub open spec fn offset_of(s: Seq<MemorySlot>, i: int) -> int {
    sum_sizes(s.take(i))
}

/// Index of the first slot carrying `python_id`, or `s.len()` when none does.
pub open spec fn find_id(s: Seq<MemorySlot>, python_id: PythonId) -> int
    decreases s.len(),
{
    if s.len() == 0 {
        0
    } else if s[0].python_id == python_id {
        0
    } else {
        1 + find_id(s.drop_first(), python_id)
    }
}

pub proof fn lemma_find_id(s: Seq<MemorySlot>, python_id: PythonId)
    ensures
        0 <= find_id(s, python_id) <= s.len(),
        find_id(s, python_id) < s.len() ==> s[find_id(s, python_id)].python_id == python_id,
        forall|j: int| 0 <= j < find_id(s, python_id) ==> (#[trigger] s[j]).python_id != python_id,
    decreases s.len(),
{
    if s.len() > 0 && s[0].python_id != python_id {
        lemma_find_id(s.drop_first(), python_id);
        let f = find_id(s, python_id);
        if f < s.len() {
            assert(s[f] == s.drop_first()[f - 1]);
        }
        assert forall|j: int| 0 <= j < f implies (#[trigger] s[j]).python_id != python_id by {
            if j > 0 {
                assert(s[j] == s.drop_first()[j - 1]);
            }
        }
    }
}

/// Index of the first free slot with at least `request_size` bytes, or
/// `s.len()` when no free block fits.
pub open spec fn find_fit(s: Seq<MemorySlot>, request_size: usize) -> int
    decreases s.len(),
{
    if s.len() == 0 {
        0
    } else if slot_free(s[0]) && request_size <= s[0].size {
        0
    } else {
        1 + find_fit(s.drop_first(), request_size)
    }
}

pub proof fn lemma_find_fit(s: Seq<MemorySlot>, request_size: usize)
    ensures
        0 <= find_fit(s, request_size) <= s.len(),
        find_fit(s, request_size) < s.len() ==> slot_free(s[find_fit(s, request_size)])
            && request_size <= s[find_fit(s, request_size)].size,
        forall|j: int| 0 <= j < find_fit(s, request_size)
            ==> !(slot_free(#[trigger] s[j]) && request_size <= s[j].size),
    decreases s.len(),
{
    if s.len() > 0 && !(slot_free(s[0]) && request_size <= s[0].size) {
        lemma_find_fit(s.drop_first(), request_size);
        let f = find_fit(s, request_size);
        if f < s.len() {
            assert(s[f] == s.drop_first()[f - 1]);
        }
        assert forall|j: int| 0 <= j < f implies !(slot_free(#[trigger] s[j])
            && request_size <= s[j].size) by {
            if j > 0 {
                assert(s[j] == s.drop_first()[j - 1]);
            }
        }
    }
}

pub proof fn lemma_sum_sizes_update(s: Seq<MemorySlot>, i: int, v: MemorySlot)
    requires
        0 <= i < s.len(),
    ensures
        sum_sizes(s.update(i, v)) == sum_sizes(s) - s[i].size + v.size,
{
    assert(s.update(i, v) =~= (s.take(i) + seq![v]) + s.skip(i + 1));
    assert(s =~= (s.take(i) + seq![s[i]]) + s.skip(i + 1));
    lemma_sum_sizes_concat(s.take(i) + seq![v], s.skip(i + 1));
    lemma_sum_sizes_concat(s.take(i), seq![v]);
    lemma_sum_sizes_concat(s.take(i) + seq![s[i]], s.skip(i + 1));
    lemma_sum_sizes_concat(s.take(i), seq![s[i]]);
    lemma_sum_sizes_singleton(v);
    lemma_sum_sizes_singleton(s[i]);
}

pub proof fn lemma_sum_sizes_remove(s: Seq<MemorySlot>, i: int)
    requires
        0 <= i < s.len(),
    ensures
        sum_sizes(s.remove(i)) == sum_sizes(s) - s[i].size,
{
    assert(s.remove(i) =~= s.take(i) + s.skip(i + 1));
    assert(s =~= (s.take(i) + seq![s[i]]) + s.skip(i + 1));
    lemma_sum_sizes_concat(s.take(i), s.skip(i + 1));
    lemma_sum_sizes_concat(s.take(i) + seq![s[i]], s.skip(i + 1));
    lemma_sum_sizes_concat(s.take(i), seq![s[i]]);
    lemma_sum_sizes_singleton(s[i]);
}

pub proof fn lemma_sum_sizes_insert(s: Seq<MemorySlot>, i: int, v: MemorySlot)
    requires
        0 <= i <= s.len(),
    ensures
        sum_sizes(s.insert(i, v)) == sum_sizes(s) + v.size,
{
    assert(s.insert(i, v) =~= (s.take(i) + seq![v]) + s.skip(i));
    assert(s =~= s.take(i) + s.skip(i));
    lemma_sum_sizes_concat(s.take(i) + seq![v], s.skip(i));
    lemma_sum_sizes_concat(s.take(i), seq![v]);
    lemma_sum_sizes_concat(s.take(i), s.skip(i));
    lemma_sum_sizes_singleton(v);
}

pub proof fn lemma_sum_sizes_push(s: Seq<MemorySlot>, v: MemorySlot)
    ensures
        sum_sizes(s.push(v)) == sum_sizes(s) + v.size,
{
    assert(s.push(v).drop_last() =~= s);
}

/// `find_id` lands exactly on a slot that carries the handle while no slot
/// before it does.
proof fn lemma_find_id_at(s: Seq<MemorySlot>, python_id: PythonId, t: int)
    requires
        0 <= t < s.len(),
        s[t].python_id == python_id,
        forall|j: int| 0 <= j < t ==> (#[trigger] s[j]).python_id != python_id,
    ensures
        find_id(s, python_id) == t,
{
    lemma_find_id(s, python_id);
}

/// `find_id` only looks at the handles: tables with pointwise equal handles
/// agree on it.
proof fn lemma_find_id_same(s: Seq<MemorySlot>, s2: Seq<MemorySlot>, python_id: PythonId)
    requires
        s.len() == s2.len(),
        forall|j: int| 0 <= j < s.len() ==> (#[trigger] s[j]).python_id == s2[j].python_id,
    ensures
        find_id(s, python_id) == find_id(s2, python_id),
    decreases s.len(),
{
    if s.len() > 0 {
        assert forall|j: int| 0 <= j < s.drop_first().len() implies (#[trigger] s.drop_first()[j]).python_id
            == s2.drop_first()[j].python_id by {
            assert(s.drop_first()[j] == s[j + 1]);
            assert(s2.drop_first()[j] == s2[j + 1]);
        }
        lemma_find_id_same(s.drop_first(), s2.drop_first(), python_id);
    }
}

/// `sum_sizes` only looks at the sizes: tables with pointwise equal sizes
/// agree on it.
proof fn lemma_sum_sizes_same(s: Seq<MemorySlot>, s2: Seq<MemorySlot>)
    requires
        s.len() == s2.len(),
        forall|j: int| 0 <= j < s.len() ==> (#[trigger] s[j]).size == s2[j].size,
    ensures
        sum_sizes(s) == sum_sizes(s2),
    decreases s.len(),
{
    if s.len() > 0 {
        assert forall|j: int| 0 <= j < s.drop_last().len() implies (#[trigger] s.drop_last()[j]).size
            == s2.drop_last()[j].size by {
            assert(s.drop_last()[j] == s[j]);
            assert(s2.drop_last()[j] == s2[j]);
        }
        lemma_sum_sizes_same(s.drop_last(), s2.drop_last());
    }
}

/// `info_spec` only looks at handles and sizes: tables that agree on both,
/// pointwise, give every handle the same answer.
proof fn lemma_info_spec_same(s: Seq<MemorySlot>, s2: Seq<MemorySlot>, python_id: PythonId)
    requires
        s.len() == s2.len(),
        forall|j: int| 0 <= j < s.len() ==> (#[trigger] s[j]).python_id == s2[j].python_id,
        forall|j: int| 0 <= j < s.len() ==> (#[trigger] s[j]).size == s2[j].size,
    ensures
        info_spec(s, python_id) == info_spec(s2, python_id),
{
    lemma_find_id_same(s, s2, python_id);
    let t = find_id(s, python_id);
    lemma_find_id(s, python_id);
    if 0 <= t < s.len() {
        assert forall|j: int| 0 <= j < s.take(t).len() implies (#[trigger] s.take(t)[j]).size
            == s2.take(t)[j].size by {
            assert(s.take(t)[j] == s[j]);
            assert(s2.take(t)[j] == s2[j]);
        }
        lemma_sum_sizes_same(s.take(t), s2.take(t));
    }
}

/// All slots from index `k` on are empty.
pub open spec fn tail_empty_from(s: Seq<MemorySlot>, k: int) -> bool {
    forall|j: int| k <= j < s.len() ==> slot_empty(#[trigger] s[j])
}

/// Well-formedness of a slot table.  It holds of every table reachable through
/// pool operations from a fresh table:
///
/// - a free slot carries no reference count, creator PID or flags;
/// - no two non-free slots share a blob handle;
/// - once two consecutive slots are free, the rest of the table is empty
///   (in particular no two non-empty neighbours are both free: such pairs
///   have been coalesced);
/// - the accounted sizes fit in a `usize` (they partition one data region).
pub open spec fn wf_slots(s: Seq<MemorySlot>) -> bool {
    &&& forall|i: int| 0 <= i < s.len() && slot_free(#[trigger] s[i])
        ==> s[i].refcount == 0 && s[i].source_pid == 0 && s[i].flags == 0
    &&& forall|i: int, j: int|
        0 <= i < s.len() && 0 <= j < s.len() && i != j && !slot_free(#[trigger] s[i])
            ==> s[i].python_id != (#[trigger] s[j]).python_id
    &&& forall|i: int| 0 <= i && i + 1 < s.len() && slot_free(#[trigger] s[i]) && slot_free(s[i + 1])
        ==> tail_empty_from(s, i + 1)
    &&& sum_sizes(s) <= usize::MAX
}

/// Updating an occupied slot in place — keeping its handle and size, staying
/// occupied — preserves well-formedness and the accounted sizes.
proof fn lemma_wf_update_occupied(s: Seq<MemorySlot>, t: int, v: MemorySlot)
    requires
        wf_slots(s),
        0 <= t < s.len(),
        !slot_free(s[t]),
        !slot_free(v),
        v.python_id == s[t].python_id,
        v.size == s[t].size,
    ensures
        wf_slots(s.update(t, v)),
        sum_sizes(s.update(t, v)) == sum_sizes(s),
{
    let ns = s.update(t, v);
    lemma_sum_sizes_update(s, t, v);
    assert forall|i: int| 0 <= i < ns.len() && slot_free(#[trigger] ns[i]) implies ns[i].refcount
        == 0 && ns[i].source_pid == 0 && ns[i].flags == 0 by {
        assert(i != t);
        assert(ns[i] == s[i]);
    }
    assert forall|i: int, j: int|
        0 <= i < ns.len() && 0 <= j < ns.len() && i != j && !slot_free(#[trigger] ns[i]) implies ns[i].python_id
        != (#[trigger] ns[j]).python_id by {
        assert(ns[i].python_id == s[i].python_id);
        assert(ns[j].python_id == s[j].python_id);
        assert(!slot_free(s[i]));
    }
    assert forall|i: int|
        0 <= i && i + 1 < ns.len() && slot_free(#[trigger] ns[i]) && slot_free(ns[i + 1]) implies tail_empty_from(
        ns,
        i + 1,
    ) by {
        assert(i != t && i + 1 != t);
        assert(slot_free(s[i]) && slot_free(s[i + 1]));
        assert(tail_empty_from(s, i + 1));
        assert forall|j: int| i + 1 <= j < ns.len() implies slot_empty(#[trigger] ns[j]) by {
            assert(slot_empty(s[j]));
            assert(j != t);
        }
    }
}

/// Occupying a free block of exactly the requested size at the first-fit
/// position, with a fresh handle, preserves well-formedness and the
/// accounted sizes.
proof fn lemma_wf_add_no_split(
    s: Seq<MemorySlot>,
    python_id: PythonId,
    request_size: usize,
    self_pid: u32,
)
    requires
        wf_slots(s),
        python_id.0 != 0,
        find_id(s, python_id) == s.len(),
        find_fit(s, request_size) < s.len(),
        s[find_fit(s, request_size)].size == request_size,
    ensures
        ({
            let ns = s.update(
                find_fit(s, request_size),
                spec_occupied_slot(python_id, request_size, self_pid),
            );
            wf_slots(ns) && sum_sizes(ns) == sum_sizes(s)
        }),
{
    let t = find_fit(s, request_size);
    lemma_find_fit(s, request_size);
    lemma_find_id(s, python_id);
    let v = spec_occupied_slot(python_id, request_size, self_pid);
    let ns = s.update(t, v);
    lemma_sum_sizes_update(s, t, v);
    assert forall|i: int| 0 <= i < ns.len() && slot_free(#[trigger] ns[i]) implies ns[i].refcount
        == 0 && ns[i].source_pid == 0 && ns[i].flags == 0 by {
        assert(i != t);
        assert(ns[i] == s[i]);
    }
    assert forall|i: int, j: int|
        0 <= i < ns.len() && 0 <= j < ns.len() && i != j && !slot_free(#[trigger] ns[i]) implies ns[i].python_id
        != (#[trigger] ns[j]).python_id by {
        if i == t {
            assert(s[j].python_id != python_id);
            assert(ns[j] == s[j]);
        } else if j == t {
            assert(s[i].python_id != python_id);
        } else {
            assert(ns[i] == s[i] && ns[j] == s[j]);
            assert(!slot_free(s[i]));
        }
    }
    assert forall|i: int|
        0 <= i && i + 1 < ns.len() && slot_free(#[trigger] ns[i]) && slot_free(ns[i + 1]) implies tail_empty_from(
        ns,
        i + 1,
    ) by {
        assert(i != t && i + 1 != t);
        assert(slot_free(s[i]) && slot_free(s[i + 1]));
        assert(tail_empty_from(s, i + 1));
        assert forall|j: int| i + 1 <= j < ns.len() implies slot_empty(#[trigger] ns[j]) by {
            assert(slot_empty(s[j]));
            if j == t {
                // the target would be empty, so the request is zero and the
                // free slot at i would have been the first fit instead
                assert(s[t].size == 0);
                assert(slot_free(s[i]) && request_size <= s[i].size);
                assert(i < t);
                assert(false);
            }
        }
    }
}

/// Splitting the strictly larger first-fit free block into an occupied
/// prefix and a free remainder — rotating the trailing empty entry out of the
/// way — preserves well-formedness and the accounted sizes.
proof fn lemma_wf_add_split(
    s: Seq<MemorySlot>,
    python_id: PythonId,
    request_size: usize,
    self_pid: u32,
)
    requires
        wf_slots(s),
        python_id.0 != 0,
        find_id(s, python_id) == s.len(),
        find_fit(s, request_size) < s.len(),
        request_size < s[find_fit(s, request_size)].size,
        slot_empty(s[s.len() - 1]),
    ensures
        ({
            let t = find_fit(s, request_size);
            let ns = s.remove(s.len() - 1).insert(
                t + 1,
                spec_free_slot((s[t].size - request_size) as usize),
            ).update(t, spec_occupied_slot(python_id, request_size, self_pid));
            &&& wf_slots(ns)
            &&& sum_sizes(ns) == sum_sizes(s)
            &&& ns.len() == s.len()
            &&& find_fit(s, request_size) < s.len() - 1
        }),
{
    let t = find_fit(s, request_size);
    lemma_find_fit(s, request_size);
    lemma_find_id(s, python_id);
    let rem = spec_free_slot((s[t].size - request_size) as usize);
    let occ = spec_occupied_slot(python_id, request_size, self_pid);
    let s_r = s.remove(s.len() - 1);
    let s_i = s_r.insert(t + 1, rem);
    let ns = s_i.update(t, occ);
    assert(s[t].size > 0);
    assert(t != s.len() - 1);
    lemma_sum_sizes_remove(s, s.len() - 1);
    lemma_sum_sizes_insert(s_r, t + 1, rem);
    assert(s_i[t] == s[t]);
    lemma_sum_sizes_update(s_i, t, occ);
    // pointwise shape of the new table
    assert(ns.len() == s.len());
    assert(forall|j: int| 0 <= j < t ==> ns[j] == s[j]);
    assert(ns[t] == occ);
    assert(ns[t + 1] == rem);
    assert(forall|j: int| t + 2 <= j < ns.len() ==> ns[j] == s[j - 1]);
    assert forall|i: int| 0 <= i < ns.len() && slot_free(#[trigger] ns[i]) implies ns[i].refcount
        == 0 && ns[i].source_pid == 0 && ns[i].flags == 0 by {
        if i < t {
            assert(ns[i] == s[i]);
        } else if i == t + 1 {
            assert(ns[i] == rem);
        } else if i >= t + 2 {
            assert(ns[i] == s[i - 1]);
        }
    }
    assert forall|i: int, j: int|
        0 <= i < ns.len() && 0 <= j < ns.len() && i != j && !slot_free(#[trigger] ns[i]) implies ns[i].python_id
        != (#[trigger] ns[j]).python_id by {
        if i == t {
            // the fresh handle is nowhere in the old table
            if j < t {
                assert(ns[j] == s[j]);
                assert(s[j].python_id != python_id);
            } else if j == t + 1 {
                assert(ns[j] == rem);
            } else {
                assert(ns[j] == s[j - 1]);
                assert(s[j - 1].python_id != python_id);
            }
        } else {
            let oi: int = if i < t { i } else { i - 1 };
            assert(i != t + 1);
            assert(ns[i] == s[oi]);
            assert(!slot_free(s[oi]));
            if j == t {
                assert(s[oi].python_id != python_id);
            } else if j == t + 1 {
                assert(ns[j] == rem);
                assert(!slot_free(ns[i]));
            } else {
                let oj: int = if j < t { j } else { j - 1 };
                assert(ns[j] == s[oj]);
                assert(oi != oj);
                assert(s[oi].python_id != s[oj].python_id);
            }
        }
    }
    assert forall|i: int|
        0 <= i && i + 1 < ns.len() && slot_free(#[trigger] ns[i]) && slot_free(ns[i + 1]) implies tail_empty_from(
        ns,
        i + 1,
    ) by {
        if i + 1 < t {
            // an all-free neighbour pair before the target would force the
            // target to be empty, impossible for a strictly larger block
            assert(slot_free(s[i]) && slot_free(s[i + 1]));
            assert(tail_empty_from(s, i + 1));
            assert(slot_empty(s[t]));
            assert(false);
        } else if i == t || i + 1 == t {
            assert(!slot_free(ns[t]));
            assert(false);
        } else if i == t + 1 {
            assert(ns[i + 1] == s[t + 1]);
            assert(slot_free(s[t]) && slot_free(s[t + 1]));
            assert(tail_empty_from(s, t + 1));
            assert forall|j: int| i + 1 <= j < ns.len() implies slot_empty(#[trigger] ns[j]) by {
                assert(ns[j] == s[j - 1]);
                assert(slot_empty(s[j - 1]));
            }
        } else {
            assert(ns[i] == s[i - 1] && ns[i + 1] == s[i]);
            assert(slot_free(s[i - 1]) && slot_free(s[i]));
            assert(tail_empty_from(s, i));
            assert forall|j: int| i + 1 <= j < ns.len() implies slot_empty(#[trigger] ns[j]) by {
                assert(ns[j] == s[j - 1]);
                assert(slot_empty(s[j - 1]));
            }
        }
    }
}

/// The free protocol applied to the occupied slot `i`: replace it with a free
/// block of the same size, then absorb the right neighbour when that one is
/// free, then be absorbed into the left neighbour when that one is free; each
/// absorbed entry is zeroed and rotated to the end of the table.
pub open spec fn release_spec(s: Seq<MemorySlot>, i: int) -> Seq<MemorySlot> {
    let s1 = s.update(i, spec_free_slot(s[i].size));
    let s2 = if i + 1 < s1.len() && slot_free(s1[i + 1]) {
        s1.update(i, spec_free_slot((s1[i].size + s1[i + 1].size) as usize)).remove(i + 1).push(
            spec_empty_slot(),
        )
    } else {
        s1
    };
    if 0 < i && slot_free(s2[i - 1]) {
        s2.update(i - 1, spec_free_slot((s2[i - 1].size + s2[i].size) as usize)).remove(i).push(
            spec_empty_slot(),
        )
    } else {
        s2
    }
}

/// First two stages of the free protocol (freeing slot `i` in place and
/// absorbing a free right neighbour) preserve everything of well-formedness
/// except that the pair of slots `i - 1` and `i` may now be two free
/// neighbours; the freed handle is gone from the table.
proof fn lemma_wf_release_right(s: Seq<MemorySlot>, i: int)
    requires
        wf_slots(s),
        0 <= i < s.len(),
        !slot_free(s[i]),
    ensures
        ({
            let s1 = s.update(i, spec_free_slot(s[i].size));
            let s2 = if i + 1 < s1.len() && slot_free(s1[i + 1]) {
                s1.update(i, spec_free_slot((s1[i].size + s1[i + 1].size) as usize)).remove(
                    i + 1,
                ).push(spec_empty_slot())
            } else {
                s1
            };
            &&& s2.len() == s.len()
            &&& sum_sizes(s2) == sum_sizes(s)
            &&& i + 1 < s.len() && slot_free(s[i + 1]) ==> s[i].size + s[i + 1].size <= usize::MAX
            &&& slot_free(s2[i])
            &&& forall|j: int| 0 <= j < i ==> s2[j] == s[j]
            &&& forall|j: int|
                0 <= j < s2.len() && slot_free(#[trigger] s2[j]) ==> s2[j].refcount == 0
                    && s2[j].source_pid == 0 && s2[j].flags == 0
            &&& forall|a: int, b: int|
                0 <= a < s2.len() && 0 <= b < s2.len() && a != b && !slot_free(#[trigger] s2[a])
                    ==> s2[a].python_id != (#[trigger] s2[b]).python_id
            &&& forall|a: int|
                0 <= a && a + 1 < s2.len() && slot_free(#[trigger] s2[a]) && slot_free(s2[a + 1])
                    && a != i - 1 ==> tail_empty_from(s2, a + 1)
            &&& forall|j: int| 0 <= j < s2.len() ==> (#[trigger] s2[j]).python_id != s[i].python_id
        }),
{
    let s1 = s.update(i, spec_free_slot(s[i].size));
    lemma_sum_sizes_update(s, i, spec_free_slot(s[i].size));
    if i + 1 < s1.len() && slot_free(s1[i + 1]) {
        lemma_sum_sizes_two_elems(s, i, i + 1);
        lemma_sum_sizes_nonneg(s);
        let merged = spec_free_slot((s1[i].size + s1[i + 1].size) as usize);
        let su = s1.update(i, merged);
        let sr = su.remove(i + 1);
        let s2 = sr.push(spec_empty_slot());
        lemma_sum_sizes_update(s1, i, merged);
        lemma_sum_sizes_remove(su, i + 1);
        lemma_sum_sizes_push(sr, spec_empty_slot());
        // pointwise shape of s2
        assert(s2.len() == s.len());
        assert(forall|j: int| 0 <= j < i ==> s2[j] == s[j]);
        assert(s2[i] == merged);
        assert(forall|j: int| i + 1 <= j < s.len() - 1 ==> s2[j] == s[j + 1]);
        assert(s2[s.len() - 1] == spec_empty_slot());
        assert forall|a: int, b: int|
            0 <= a < s2.len() && 0 <= b < s2.len() && a != b && !slot_free(
                #[trigger] s2[a],
            ) implies s2[a].python_id != (#[trigger] s2[b]).python_id by {
            let oa: int = if a < i { a } else { a + 1 };
            assert(a != i && a != s.len() - 1);
            assert(s2[a] == s[oa]);
            if b == i || b == s.len() - 1 {
                assert(!slot_free(s[oa]));
            } else {
                let ob: int = if b < i { b } else { b + 1 };
                assert(s2[b] == s[ob]);
                assert(oa != ob);
                assert(s[oa].python_id != s[ob].python_id);
            }
        }
        assert forall|a: int|
            0 <= a && a + 1 < s2.len() && slot_free(#[trigger] s2[a]) && slot_free(s2[a + 1]) && a
                != i - 1 implies tail_empty_from(s2, a + 1) by {
            if a + 1 < i {
                assert(slot_free(s[a]) && slot_free(s[a + 1]));
                assert(tail_empty_from(s, a + 1));
                assert(slot_empty(s[i]));
                assert(false);
            } else if a == i {
                if i + 1 == s.len() - 1 {
                    assert forall|j: int| a + 1 <= j < s2.len() implies slot_empty(
                        #[trigger] s2[j],
                    ) by {
                        assert(j == s.len() - 1);
                    }
                } else {
                    assert(s2[i + 1] == s[i + 2]);
                    assert(slot_free(s[i + 1]) && slot_free(s[i + 2]));
                    assert(tail_empty_from(s, i + 2));
                    assert forall|j: int| a + 1 <= j < s2.len() implies slot_empty(
                        #[trigger] s2[j],
                    ) by {
                        if j < s.len() - 1 {
                            assert(s2[j] == s[j + 1]);
                            assert(slot_empty(s[j + 1]));
                        }
                    }
                }
            } else {
                // a > i
                if a + 1 == s.len() - 1 {
                    assert forall|j: int| a + 1 <= j < s2.len() implies slot_empty(
                        #[trigger] s2[j],
                    ) by {
                        assert(j == s.len() - 1);
                    }
                } else {
                    assert(s2[a] == s[a + 1] && s2[a + 1] == s[a + 2]);
                    assert(slot_free(s[a + 1]) && slot_free(s[a + 2]));
                    assert(tail_empty_from(s, a + 2));
                    assert forall|j: int| a + 1 <= j < s2.len() implies slot_empty(
                        #[trigger] s2[j],
                    ) by {
                        if j < s.len() - 1 {
                            assert(s2[j] == s[j + 1]);
                            assert(slot_empty(s[j + 1]));
                        }
                    }
                }
            }
        }
        assert forall|j: int| 0 <= j < s2.len() implies (#[trigger] s2[j]).python_id
            != s[i].python_id by {
            if j < i {
                assert(s2[j] == s[j]);
            } else if i + 1 <= j < s.len() - 1 {
                assert(s2[j] == s[j + 1]);
            }
        }
    } else {
        let s2 = s1;
        assert forall|a: int|
            0 <= a && a + 1 < s2.len() && slot_free(#[trigger] s2[a]) && slot_free(s2[a + 1]) && a
                != i - 1 implies tail_empty_from(s2, a + 1) by {
            if a + 1 < i {
                assert(slot_free(s[a]) && slot_free(s[a + 1]));
                assert(tail_empty_from(s, a + 1));
                assert(slot_empty(s[i]));
                assert(false);
            } else if a == i {
                assert(slot_free(s1[i + 1]));
                assert(false);
            } else {
                assert(slot_free(s[a]) && slot_free(s[a + 1]));
                assert(tail_empty_from(s, a + 1));
                assert forall|j: int| a + 1 <= j < s2.len() implies slot_empty(
                    #[trigger] s2[j],
                ) by {
                    assert(slot_empty(s[j]));
                    assert(j != i);
                }
            }
        }
        assert forall|j: int| 0 <= j < s2.len() implies (#[trigger] s2[j]).python_id
            != s[i].python_id by {
            if j != i {
                assert(s2[j] == s[j]);
            }
        }
    }
}

/// The full free protocol preserves well-formedness and the accounted
/// sizes, and removes the freed handle from the table.
#[verifier::rlimit(100)]
proof fn lemma_wf_release(s: Seq<MemorySlot>, i: int)
    requires
        wf_slots(s),
        0 <= i < s.len(),
        !slot_free(s[i]),
    ensures
        ({
            let r = release_spec(s, i);
            &&& wf_slots(r)
            &&& r.len() == s.len()
            &&& sum_sizes(r) == sum_sizes(s)
            &&& forall|j: int| 0 <= j < r.len() ==> (#[trigger] r[j]).python_id != s[i].python_id
        }),
{
    lemma_wf_release_right(s, i);
    let s1 = s.update(i, spec_free_slot(s[i].size));
    let s2 = if i + 1 < s1.len() && slot_free(s1[i + 1]) {
        s1.update(i, spec_free_slot((s1[i].size + s1[i + 1].size) as usize)).remove(i + 1).push(
            spec_empty_slot(),
        )
    } else {
        s1
    };
    let r = release_spec(s, i);
    if 0 < i && slot_free(s2[i - 1]) {
        assert(s2[i - 1] == s[i - 1]);
        lemma_sum_sizes_two_elems(s2, i - 1, i);
        lemma_sum_sizes_nonneg(s2);
        let merged = spec_free_slot((s2[i - 1].size + s2[i].size) as usize);
        let su = s2.update(i - 1, merged);
        let sr = su.remove(i);
        assert(r == sr.push(spec_empty_slot()));
        lemma_sum_sizes_update(s2, i - 1, merged);
        lemma_sum_sizes_remove(su, i);
        lemma_sum_sizes_push(sr, spec_empty_slot());
        // pointwise shape of r
        assert(r.len() == s.len());
        assert(forall|j: int| 0 <= j < i - 1 ==> r[j] == s2[j]);
        assert(r[i - 1] == merged);
        assert(forall|j: int| i <= j < s.len() - 1 ==> r[j] == s2[j + 1]);
        assert(r[s.len() - 1] == spec_empty_slot());
        // the slot left of a free left neighbour is occupied (or absent):
        // two free neighbours left of `i` would force slot `i` to be empty
        if i - 2 >= 0 && slot_free(s[i - 2]) {
            assert(tail_empty_from(s, i - 1));
            assert(slot_empty(s[i]));
            assert(false);
        }
        assert forall|a: int|
            0 <= a < r.len() && slot_free(#[trigger] r[a]) implies r[a].refcount == 0
            && r[a].source_pid == 0 && r[a].flags == 0 by {
            if a < i - 1 {
                assert(r[a] == s2[a]);
            } else if i <= a < s.len() - 1 {
                assert(r[a] == s2[a + 1]);
            }
        }
        assert forall|a: int, b: int|
            0 <= a < r.len() && 0 <= b < r.len() && a != b && !slot_free(
                #[trigger] r[a],
            ) implies r[a].python_id != (#[trigger] r[b]).python_id by {
            let oa: int = if a < i - 1 { a } else { a + 1 };
            assert(a != i - 1 && a != s.len() - 1);
            assert(r[a] == s2[oa]);
            if b == i - 1 || b == s.len() - 1 {
                assert(!slot_free(s2[oa]));
            } else {
                let ob: int = if b < i - 1 { b } else { b + 1 };
                assert(r[b] == s2[ob]);
                assert(oa != ob);
                assert(s2[oa].python_id != s2[ob].python_id);
            }
        }
        assert forall|a: int|
            0 <= a && a + 1 < r.len() && slot_free(#[trigger] r[a]) && slot_free(
                r[a + 1],
            ) implies tail_empty_from(r, a + 1) by {
            if a + 1 < i - 1 {
                assert(r[a] == s[a] && r[a + 1] == s[a + 1]);
                assert(tail_empty_from(s, a + 1));
                assert(slot_empty(s[i]));
                assert(false);
            } else if a == i - 2 {
                assert(r[a] == s2[i - 2] && s2[i - 2] == s[i - 2]);
                assert(false);
            } else if a == i - 1 {
                if i == s.len() - 1 {
                    assert forall|j: int| a + 1 <= j < r.len() implies slot_empty(
                        #[trigger] r[j],
                    ) by {
                        assert(j == s.len() - 1);
                    }
                } else {
                    assert(r[i] == s2[i + 1]);
                    assert(slot_free(s2[i]) && slot_free(s2[i + 1]));
                    assert(tail_empty_from(s2, i + 1));
                    assert forall|j: int| a + 1 <= j < r.len() implies slot_empty(
                        #[trigger] r[j],
                    ) by {
                        if j < s.len() - 1 {
                            assert(r[j] == s2[j + 1]);
                            assert(slot_empty(s2[j + 1]));
                        }
                    }
                }
            } else {
                // a >= i
                if a + 1 == s.len() - 1 {
                    assert forall|j: int| a + 1 <= j < r.len() implies slot_empty(
                        #[trigger] r[j],
                    ) by {
                        assert(j == s.len() - 1);
                    }
                } else {
                    assert(r[a] == s2[a + 1] && r[a + 1] == s2[a + 2]);
                    assert(slot_free(s2[a + 1]) && slot_free(s2[a + 2]));
                    assert(tail_empty_from(s2, a + 2));
                    assert forall|j: int| a + 1 <= j < r.len() implies slot_empty(
                        #[trigger] r[j],
                    ) by {
                        if j < s.len() - 1 {
                            assert(r[j] == s2[j + 1]);
                            assert(slot_empty(s2[j + 1]));
                        }
                    }
                }
            }
        }
        assert forall|j: int| 0 <= j < r.len() implies (#[trigger] r[j]).python_id
            != s[i].python_id by {
            if j < i - 1 {
                assert(r[j] == s2[j]);
            } else if i <= j < s.len() - 1 {
                assert(r[j] == s2[j + 1]);
            }
        }
    } else {
        assert(r == s2);
        assert forall|a: int|
            0 <= a && a + 1 < r.len() && slot_free(#[trigger] r[a]) && slot_free(
                r[a + 1],
            ) implies tail_empty_from(r, a + 1) by {
            if a == i - 1 {
                assert(slot_free(s2[i - 1]));
                assert(false);
            }
        }
    }
}

/// State and result of `add_object`: reject handle 0, reject duplicate
/// handles, pick the first free block that fits (first-fit, never best-fit),
/// split it when strictly larger — which needs the trailing table entry to be
/// empty — and return the prefix-sum offset of the occupied block.
pub open spec fn add_spec(
    s: Seq<MemorySlot>,
    python_id: PythonId,
    request_size: usize,
    self_pid: u32,
) -> (Seq<MemorySlot>, Result<usize, ArrayPoolError>) {
    if python_id.0 == 0 {
        (s, Err(ArrayPoolError::InvalidPythonId))
    } else if find_id(s, python_id) < s.len() {
        (s, Err(ArrayPoolError::ObjectAlreadyExists(python_id)))
    } else {
        let t = find_fit(s, request_size);
        if t == s.len() {
            (s, Err(ArrayPoolError::NoSpaceLeft))
        } else if request_size < s[t].size {
            if !slot_empty(s[s.len() - 1]) {
                (s, Err(ArrayPoolError::NoFreeBlocLeft))
            } else {
                let split = s.remove(s.len() - 1).insert(
                    t + 1,
                    spec_free_slot((s[t].size - request_size) as usize),
                ).update(t, spec_occupied_slot(python_id, request_size, self_pid));
                (split, Ok(offset_of(s, t) as usize))
            }
        } else {
            (
                s.update(t, spec_occupied_slot(python_id, request_size, self_pid)),
                Ok(offset_of(s, t) as usize),
            )
        }
    }
}

/// State and result of `attach_object`: bump the reference count of the slot
/// carrying the handle and set the transferred flag when the attaching
/// process is not the creator; return the blob's current offset and size.
pub open spec fn attach_spec(s: Seq<MemorySlot>, python_id: PythonId, self_pid: u32) -> (
    Seq<MemorySlot>,
    Result<ObjectInfo, ArrayPoolError>,
) {
    if python_id.0 == 0 {
        (s, Err(ArrayPoolError::InvalidPythonId))
    } else {
        let t = find_id(s, python_id);
        if t == s.len() {
            (s, Err(ArrayPoolError::ObjectNotFound(python_id)))
        } else {
            let bumped = MemorySlot { refcount: (s[t].refcount + 1) as usize, ..s[t] };
            let updated = if bumped.source_pid != self_pid {
                MemorySlot { flags: bumped.flags | FLAG_MEMSLOT_TRANSFERED, ..bumped }
            } else {
                bumped
            };
            (
                s.update(t, updated),
                Ok(ObjectInfo { offset: offset_of(s, t) as usize, size: s[t].size }),
            )
        }
    }
}

/// State and result of `detach_object`: decrement the reference count
/// (saturating at zero) of the slot carrying the handle, then free its block
/// when the slot has become releasable.
pub open spec fn detach_spec(s: Seq<MemorySlot>, python_id: PythonId) -> (
    Seq<MemorySlot>,
    Result<(), ArrayPoolError>,
) {
    if python_id.0 == 0 {
        (s, Err(ArrayPoolError::InvalidPythonId))
    } else {
        let t = find_id(s, python_id);
        if t == s.len() {
            (s, Err(ArrayPoolError::ObjectNotFound(python_id)))
        } else {
            let dec = if s[t].refcount > 0 {
                MemorySlot { refcount: (s[t].refcount - 1) as usize, ..s[t] }
            } else {
                s[t]
            };
            let s1 = s.update(t, dec);
            if slot_releasable(dec) {
                (release_spec(s1, t), Ok(()))
            } else {
                (s1, Ok(()))
            }
        }
    }
}

/// State and result of `set_object_releasable`: set the transferred flag of
/// the slot carrying the handle, then free its block when the slot has become
/// releasable.
pub open spec fn mark_releasable_spec(s: Seq<MemorySlot>, python_id: PythonId) -> (
    Seq<MemorySlot>,
    Result<(), ArrayPoolError>,
) {
    if python_id.0 == 0 {
        (s, Err(ArrayPoolError::InvalidPythonId))
    } else {
        let t = find_id(s, python_id);
        if t == s.len() {
            (s, Err(ArrayPoolError::ObjectNotFound(python_id)))
        } else {
            let marked = MemorySlot { flags: s[t].flags | FLAG_MEMSLOT_TRANSFERED, ..s[t] };
            let s1 = s.update(t, marked);
            if slot_releasable(marked) {
                (release_spec(s1, t), Ok(()))
            } else {
                (s1, Ok(()))
            }
        }
    }
}

/// One line of the dump, describing the non-free slot at index `i`.  The
/// label `pid` names the blob handle, not the OS PID; the format is kept
/// bit-for-bit for compatibility.
pub open spec fn dump_line(i: int, slot: MemorySlot) -> Seq<char> {
    "SLOT ID: "@ + dec_str(i as nat) + ": pid: "@ + dec_str(slot.python_id.0 as nat)
        + ", recount: "@ + dec_str(slot.refcount as nat) + ", flag: "@ + dec_str(
        slot.flags as nat,
    )
}

/// The dump text for the slots from index `i` on: one line per non-free
/// slot, joined by newlines.  `first` records whether no line has been
/// emitted yet.
pub open spec fn dump_from(s: Seq<MemorySlot>, i: int, first: bool) -> Seq<char>
    decreases s.len() - i,
{
    if i < 0 || i >= s.len() {
        Seq::empty()
    } else if slot_free(s[i]) {
        dump_from(s, i + 1, first)
    } else if first {
        dump_line(i, s[i]) + dump_from(s, i + 1, false)
    } else {
        "\n"@ + dump_line(i, s[i]) + dump_from(s, i + 1, false)
    }
}

/// The whole dump text: one line per non-free slot in index order.
pub open spec fn dump_spec(s: Seq<MemorySlot>) -> Seq<char> {
    dump_from(s, 0, true)
}

/// Result of `info_of`: the current offset and size of the slot carrying the
/// handle, or nothing when the handle is 0 or unknown.
pub open spec fn info_spec(s: Seq<MemorySlot>, python_id: PythonId) -> Option<ObjectInfo> {
    if python_id.0 == 0 {
        None
    } else {
        let t = find_id(s, python_id);
        if t == s.len() {
            None
        } else {
            Some(ObjectInfo { offset: offset_of(s, t) as usize, size: s[t].size })
        }
    }
}

/// Location of an existing blob in the data region.
#[derive(Debug, PartialEq, Eq, Clone, Copy, Structural)]
pub struct ObjectInfo {
    /// Offset of the blob, relative to the start of the data region.
    pub offset: usize,

    /// Size of the blob in bytes.
    pub size: usize,
}

impl ObjectInfo {
    /// Create a new location record.
    pub fn new(offset: usize, size: usize) -> (r: Self)
        ensures
            r == (ObjectInfo { offset, size }),
    {
        ObjectInfo { offset, size }
    }

    /// Get the blob offset.
    pub fn offset(&self) -> (r: usize)
        ensures
            r == self.offset,
    {
        self.offset
    }

    /// Get the blob size.
    pub fn size(&self) -> (r: usize)
        ensures
            r == self.size,
    {
        self.size
    }
}

/// Slot table with associated functions to manage the blocks it describes.
///
/// All operations assume exclusive access: callers must hold the segment lock.
#[derive(Debug)]
pub struct MemoryPool {
    /// The slot table.
    pub slots: Vec<MemorySlot>,

    /// OS PID of the process operating this pool handle; recorded as the
    /// creator of every block it allocates and compared against creator PIDs
    /// to detect transfers.
    pub self_pid: u32,
}

impl View for MemoryPool {
    type V = Seq<MemorySlot>;

    open spec fn view(&self) -> Seq<MemorySlot> {
        self.slots@
    }
}

impl MemoryPool {
    /// The pool's slot table is well formed; see [`wf_slots`].
    pub open spec fn wf(&self) -> bool {
        wf_slots(self@)
    }

    /// Create the pool from an already initialized slot table.
    pub fn new(slots: Vec<MemorySlot>, self_pid: u32) -> (r: Self)
        ensures
            r@ == slots@,
            r.self_pid == self_pid,
    {
        MemoryPool { slots, self_pid }
    }

    /// Create the pool over a fresh table: slot 0 becomes a single free block
    /// covering the whole data region and every other slot becomes empty.
    pub fn from_uninit_slice(slots: Vec<MemorySlot>, data_size: usize, self_pid: u32) -> (r: Self)
        requires
            slots@.len() > 0,
            data_size > 0,
        ensures
            r@.len() == slots@.len(),
            r@[0] == spec_free_slot(data_size),
            tail_empty_from(r@, 1),
            r.wf(),
            sum_sizes(r@) == data_size,
            all_occupied_sized(r@),
            empties_trailing(r@),
            r.self_pid == self_pid,
    {
        let mut slots = slots;
        let n = slots.len();
        let mut i: usize = 1;
        while i < n
            invariant
                1 <= i <= n,
                n == slots@.len(),
                forall|j: int| 1 <= j < i ==> slot_empty(#[trigger] slots@[j]),
            decreases n - i,
        {
            slots[i] = MemorySlot::empty();
            i = i + 1;
        }
        slots[0] = MemorySlot::with_size(data_size);
        let r = MemoryPool { slots, self_pid };
        proof {
            lemma_sum_sizes_split(r@, 1);
            assert(r@.take(1) =~= seq![r@[0]]);
            lemma_sum_sizes_singleton(r@[0]);
            assert(forall|j: int| 0 <= j < r@.skip(1).len()
                ==> slot_empty(#[trigger] r@.skip(1)[j]));
            lemma_sum_sizes_all_empty(r@.skip(1));
            assert(forall|i2: int| 0 <= i2 && i2 + 1 < r@.len() && slot_free(#[trigger] r@[i2])
                && slot_free(r@[i2 + 1]) ==> tail_empty_from(r@, i2 + 1));
            assert forall|a: int, b: int|
                0 <= a <= b < r@.len() && slot_empty(#[trigger] r@[a]) implies slot_empty(
                #[trigger] r@[b],
            ) by {
                assert(a != 0);
            }
        }
        r
    }

    /// Add a new blob of `request_size` bytes to the pool under the handle
    /// `python_id` and return its offset in the data region.
    ///
    /// The first free block with enough room is taken (first-fit).  When the
    /// block is strictly larger it is split into an occupied prefix and a
    /// free remainder, which needs the trailing table entry to be empty.
    /// Fails with `InvalidPythonId` for handle 0, `ObjectAlreadyExists` when
    /// a slot already carries the handle, `NoSpaceLeft` when no free block is
    /// large enough, and `NoFreeBlocLeft` when a required split cannot get a
    /// table entry; the table is unchanged on every failure.
    pub fn add_object(&mut self, python_id: PythonId, request_size: usize) -> (result: Result<
        usize,
        ArrayPoolError,
    >)
        requires
            old(self).wf(),
        ensures
            final(self).wf(),
            final(self).self_pid == old(self).self_pid,
            final(self)@ == add_spec(old(self)@, python_id, request_size, old(self).self_pid).0,
            result == add_spec(old(self)@, python_id, request_size, old(self).self_pid).1,
            final(self)@.len() == old(self)@.len(),
            sum_sizes(final(self)@) == sum_sizes(old(self)@),
    {
        if let Err(e) = python_id.valid() {
            return Err(e);
        }
        let dup = self.position_of_id(python_id);
        if dup < self.slots.len() {
            return Err(ArrayPoolError::ObjectAlreadyExists(python_id));
        }
        let target_idx = self.position_of_fit(request_size);
        if target_idx == self.slots.len() {
            return Err(ArrayPoolError::NoSpaceLeft);
        }
        proof {
            lemma_find_id(self@, python_id);
            lemma_find_fit(self@, request_size);
            lemma_sum_sizes_take_le(self@, target_idx as int);
            lemma_sum_sizes_nonneg(self@.take(target_idx as int));
        }
        let offset = self.offset_by_index(target_idx);
        if request_size < self.slots[target_idx].size {
            let slot_len = self.slots.len();
            if !(self.slots[slot_len - 1] == MemorySlot::empty()) {
                return Err(ArrayPoolError::NoFreeBlocLeft);
            }
            proof {
                lemma_wf_add_split(self@, python_id, request_size, self.self_pid);
            }
            // rotate the trailing empty entry to just after the target
            let popped = self.slots.pop().unwrap();
            self.slots.insert(target_idx + 1, popped);
            // split the target into occupied prefix and free remainder
            let target = self.slots[target_idx];
            let split = target.split_block(request_size);
            self.slots[target_idx] = split.0;
            self.slots[target_idx + 1] = split.1;
            self.slots[target_idx] = MemorySlot::with_object_id(
                python_id,
                request_size,
                self.self_pid,
            );
            proof {
                let t = target_idx as int;
                let os = old(self)@;
                assert(self@ =~= os.remove(os.len() - 1).insert(
                    t + 1,
                    spec_free_slot((os[t].size - request_size) as usize),
                ).update(t, spec_occupied_slot(python_id, request_size, old(self).self_pid)));
            }
            Ok(offset)
        } else {
            self.slots[target_idx] = MemorySlot::with_object_id(
                python_id,
                request_size,
                self.self_pid,
            );
            proof {
                lemma_wf_add_no_split(old(self)@, python_id, request_size, old(self).self_pid);
                assert(self@ =~= old(self)@.update(
                    target_idx as int,
                    spec_occupied_slot(python_id, request_size, old(self).self_pid),
                ));
            }
            Ok(offset)
        }
    }

    /// Increase the reference count of the blob carrying `python_id` by one
    /// and return its location.  An attach by a process other than the
    /// creator sets the transferred flag.  Fails with `InvalidPythonId` for
    /// handle 0 and `ObjectNotFound` for an unknown handle; the table is
    /// unchanged on failure.
    pub fn attach_object(&mut self, python_id: PythonId) -> (result: Result<
        ObjectInfo,
        ArrayPoolError,
    >)
        requires
            old(self).wf(),
            find_id(old(self)@, python_id) < old(self)@.len() ==> old(self)@[find_id(
                old(self)@,
                python_id,
            )].refcount < usize::MAX,
        ensures
            final(self).wf(),
            final(self).self_pid == old(self).self_pid,
            final(self)@ == attach_spec(old(self)@, python_id, old(self).self_pid).0,
            result == attach_spec(old(self)@, python_id, old(self).self_pid).1,
            final(self)@.len() == old(self)@.len(),
            sum_sizes(final(self)@) == sum_sizes(old(self)@),
    {
        if let Err(e) = python_id.valid() {
            return Err(e);
        }
        let object_index = self.position_of_id(python_id);
        if object_index == self.slots.len() {
            return Err(ArrayPoolError::ObjectNotFound(python_id));
        }
        proof {
            lemma_find_id(self@, python_id);
            lemma_sum_sizes_take_le(self@, object_index as int);
            lemma_sum_sizes_nonneg(self@.take(object_index as int));
        }
        let offset = self.offset_by_index(object_index);
        let size = self.slots[object_index].size;
        let mut slot = self.slots[object_index];
        slot.refcount = slot.refcount + 1;
        slot.update_flags(self.self_pid);
        self.slots[object_index] = slot;
        proof {
            let t = object_index as int;
            lemma_wf_update_occupied(old(self)@, t, self@[t]);
            assert(self@ =~= attach_spec(old(self)@, python_id, old(self).self_pid).0);
        }
        Ok(ObjectInfo::new(offset, size))
    }

    /// Decrease the reference count of the blob carrying `python_id` by one,
    /// saturating at zero.  When the slot has become releasable — transferred
    /// at least once and unused — its block is freed and merged with free
    /// neighbours.  Fails with `InvalidPythonId` for handle 0 and
    /// `ObjectNotFound` for an unknown handle; the table is unchanged on
    /// failure.
    pub fn detach_object(&mut self, python_id: PythonId) -> (result: Result<(), ArrayPoolError>)
        requires
            old(self).wf(),
        ensures
            final(self).wf(),
            final(self).self_pid == old(self).self_pid,
            final(self)@ == detach_spec(old(self)@, python_id).0,
            result == detach_spec(old(self)@, python_id).1,
            final(self)@.len() == old(self)@.len(),
            sum_sizes(final(self)@) == sum_sizes(old(self)@),
    {
        if let Err(e) = python_id.valid() {
            return Err(e);
        }
        let object_index = self.position_of_id(python_id);
        if object_index == self.slots.len() {
            return Err(ArrayPoolError::ObjectNotFound(python_id));
        }
        proof {
            lemma_find_id(self@, python_id);
        }
        if self.slots[object_index].refcount > 0 {
            let mut slot = self.slots[object_index];
            slot.refcount = slot.refcount - 1;
            self.slots[object_index] = slot;
        }
        proof {
            let t = object_index as int;
            let os = old(self)@;
            let dec = if os[t].refcount > 0 {
                MemorySlot { refcount: (os[t].refcount - 1) as usize, ..os[t] }
            } else {
                os[t]
            };
            assert(self@ =~= os.update(t, dec));
            lemma_wf_update_occupied(os, t, dec);
        }
        if self.slots[object_index].is_releasable() {
            self.release_offset(object_index);
        }
        Ok(())
    }

    /// Mark the blob carrying `python_id` as releasable even if it has never
    /// been transferred between processes.  When the slot has become
    /// releasable — here: already unused — its block is freed and merged with
    /// free neighbours.  Fails with `InvalidPythonId` for handle 0 and
    /// `ObjectNotFound` for an unknown handle; the table is unchanged on
    /// failure.
    pub fn set_object_releasable(&mut self, python_id: PythonId) -> (result: Result<
        (),
        ArrayPoolError,
    >)
        requires
            old(self).wf(),
        ensures
            final(self).wf(),
            final(self).self_pid == old(self).self_pid,
            final(self)@ == mark_releasable_spec(old(self)@, python_id).0,
            result == mark_releasable_spec(old(self)@, python_id).1,
            final(self)@.len() == old(self)@.len(),
            sum_sizes(final(self)@) == sum_sizes(old(self)@),
    {
        if let Err(e) = python_id.valid() {
            return Err(e);
        }
        let object_index = self.position_of_id(python_id);
        if object_index == self.slots.len() {
            return Err(ArrayPoolError::ObjectNotFound(python_id));
        }
        proof {
            lemma_find_id(self@, python_id);
        }
        let mut slot = self.slots[object_index];
        slot.set_transfered();
        self.slots[object_index] = slot;
        proof {
            let t = object_index as int;
            let os = old(self)@;
            let marked = MemorySlot { flags: os[t].flags | FLAG_MEMSLOT_TRANSFERED, ..os[t] };
            assert(self@ =~= os.update(t, marked));
            lemma_wf_update_occupied(os, t, marked);
        }
        if self.slots[object_index].is_releasable() {
            self.release_offset(object_index);
        }
        Ok(())
    }

    /// Mark the block at `object_index` as free and coalesce: absorb the next
    /// block when free, then be absorbed into the previous block when free,
    /// rotating each zeroed table entry to the end.
    fn release_offset(&mut self, object_index: usize)
        requires
            old(self).wf(),
            object_index < old(self)@.len(),
            !slot_free(old(self)@[object_index as int]),
        ensures
            final(self)@ == release_spec(old(self)@, object_index as int),
            final(self).wf(),
            final(self).self_pid == old(self).self_pid,
            final(self)@.len() == old(self)@.len(),
            sum_sizes(final(self)@) == sum_sizes(old(self)@),
    {
        proof {
            lemma_wf_release(old(self)@, object_index as int);
            lemma_wf_release_right(old(self)@, object_index as int);
        }
        let i = object_index;
        let slot_len = self.slots.len();
        // mark the block as now free
        let freed_size = self.slots[i].size;
        self.slots[i] = MemorySlot::with_size(freed_size);
        // merge with the next block when free
        if i + 1 < slot_len && self.slots[i + 1].is_free() {
            let merged = self.slots[i].size + self.slots[i + 1].size;
            self.slots[i] = MemorySlot::with_size(merged);
            self.slots.remove(i + 1);
            self.slots.push(MemorySlot::empty());
        }
        // merge with the previous block when free
        if i > 0 && self.slots[i - 1].is_free() {
            proof {
                lemma_sum_sizes_two_elems(self@, i as int - 1, i as int);
                lemma_sum_sizes_nonneg(self@);
            }
            let merged = self.slots[i - 1].size + self.slots[i].size;
            self.slots[i - 1] = MemorySlot::with_size(merged);
            self.slots.remove(i);
            self.slots.push(MemorySlot::empty());
        }
        proof {
            assert(self@ =~= release_spec(old(self)@, object_index as int));
        }
    }

    /// Index of the first slot carrying `python_id`, or the table length when
    /// none does.
    fn position_of_id(&self, python_id: PythonId) -> (r: usize)
        ensures
            r == find_id(self@, python_id),
    {
        proof {
            lemma_find_id(self@, python_id);
        }
        let n = self.slots.len();
        let mut i: usize = 0;
        while i < n
            invariant
                0 <= i <= n,
                n == self@.len(),
                forall|j: int| 0 <= j < i ==> (#[trigger] self@[j]).python_id != python_id,
            decreases n - i,
        {
            if self.slots[i].python_id == python_id {
                proof {
                    lemma_find_id(self@, python_id);
                }
                return i;
            }
            i = i + 1;
        }
        i
    }

    /// Index of the first free slot with at least `request_size` bytes, or
    /// the table length when no free block fits.
    fn position_of_fit(&self, request_size: usize) -> (r: usize)
        ensures
            r == find_fit(self@, request_size),
    {
        proof {
            lemma_find_fit(self@, request_size);
        }
        let n = self.slots.len();
        let mut i: usize = 0;
        while i < n
            invariant
                0 <= i <= n,
                n == self@.len(),
                forall|j: int| 0 <= j < i
                    ==> !(slot_free(#[trigger] self@[j]) && request_size <= self@[j].size),
            decreases n - i,
        {
            let slot = self.slots[i];
            if slot.is_free() && request_size <= slot.size {
                proof {
                    lemma_find_fit(self@, request_size);
                }
                return i;
            }
            i = i + 1;
        }
        i
    }

    /// Offset of the block at `object_index` in the data region: the sum of
    /// the sizes of the slots before it.
    fn offset_by_index(&self, object_index: usize) -> (r: usize)
        requires
            object_index <= self@.len(),
            sum_sizes(self@) <= usize::MAX,
        ensures
            r == offset_of(self@, object_index as int),
    {
        proof {
            assert(self@.take(0) =~= Seq::<MemorySlot>::empty());
        }
        let mut sum: usize = 0;
        let mut j: usize = 0;
        while j < object_index
            invariant
                0 <= j <= object_index,
                object_index <= self@.len(),
                sum_sizes(self@) <= usize::MAX,
                sum == sum_sizes(self@.take(j as int)),
            decreases object_index - j,
        {
            proof {
                lemma_sum_sizes_take_step(self@, j as int);
                lemma_sum_sizes_take_le(self@, j as int + 1);
                lemma_sum_sizes_nonneg(self@.take(j as int));
            }
            sum = sum + self.slots[j].size;
            j = j + 1;
        }
        sum
    }

    /// Get the location of the blob carrying `python_id`, or nothing when the
    /// handle is 0 or unknown.
    pub fn info_of(&self, python_id: PythonId) -> (r: Option<ObjectInfo>)
        requires
            self.wf(),
        ensures
            r == info_spec(self@, python_id),
    {
        if python_id.valid().is_err() {
            return None;
        }
        let position = self.position_of_id(python_id);
        if position == self.slots.len() {
            return None;
        }
        proof {
            lemma_find_id(self@, python_id);
            lemma_sum_sizes_take_le(self@, position as int);
            lemma_sum_sizes_nonneg(self@.take(position as int));
        }
        Some(ObjectInfo::new(self.offset_by_index(position), self.slots[position].size))
    }

    /// Check the table's well-formedness at run time: returns exactly
    /// [`MemoryPool::wf`].  An opener of a foreign segment can run this
    /// before trusting the table it mapped.
    #[verifier::loop_isolation(false)]
    pub fn wf_check(&self) -> (r: bool)
        ensures
            r == self.wf(),
    {
        let n = self.slots.len();
        // free slots carry no reference count, creator PID or flags
        let mut i: usize = 0;
        while i < n
            invariant
                0 <= i <= n,
                forall|k: int|
                    0 <= k < i && slot_free(#[trigger] self@[k]) ==> self@[k].refcount == 0
                        && self@[k].source_pid == 0 && self@[k].flags == 0,
            decreases n - i,
        {
            let s = self.slots[i];
            if s.python_id.0 == 0 && !(s.refcount == 0 && s.source_pid == 0 && s.flags == 0) {
                return false;
            }
            i = i + 1;
        }
        // distinct non-free slots carry distinct handles
        let mut i: usize = 0;
        while i < n
            invariant
                0 <= i <= n,
                forall|a: int, b: int|
                    0 <= a < i && 0 <= b < n && a != b && !slot_free(#[trigger] self@[a])
                        ==> self@[a].python_id != (#[trigger] self@[b]).python_id,
            decreases n - i,
        {
            let si = self.slots[i];
            if si.python_id.0 != 0 {
                let mut j: usize = 0;
                while j < n
                    invariant
                        0 <= j <= n,
                        forall|b: int|
                            0 <= b < j && i as int != b ==> self@[i as int].python_id != (
                            #[trigger] self@[b]).python_id,
                    decreases n - j,
                {
                    if j != i && self.slots[j].python_id == si.python_id {
                        return false;
                    }
                    j = j + 1;
                }
            }
            i = i + 1;
        }
        // two free neighbours only start the empty tail
        let mut i: usize = 0;
        while n > 0 && i < n - 1
            invariant
                0 <= i <= n,
                forall|a: int|
                    0 <= a < i && a + 1 < n && slot_free(#[trigger] self@[a]) && slot_free(
                        self@[a + 1],
                    ) ==> tail_empty_from(self@, a + 1),
            decreases n - i,
        {
            if self.slots[i].is_free() && self.slots[i + 1].is_free() {
                let mut j: usize = i + 1;
                while j < n
                    invariant
                        i + 1 <= j <= n,
                        forall|k: int| i + 1 <= k < j ==> slot_empty(#[trigger] self@[k]),
                    decreases n - j,
                {
                    if !(self.slots[j] == MemorySlot::empty()) {
                        return false;
                    }
                    j = j + 1;
                }
                assert(tail_empty_from(self@, i + 1));
            }
            i = i + 1;
        }
        // the accounted sizes fit in a usize
        let mut sum: usize = 0;
        let mut j: usize = 0;
        proof {
            assert(self@.take(0) =~= Seq::<MemorySlot>::empty());
        }
        while j < n
            invariant
                0 <= j <= n,
                sum == sum_sizes(self@.take(j as int)),
            decreases n - j,
        {
            proof {
                lemma_sum_sizes_take_step(self@, j as int);
            }
            match sum.checked_add(self.slots[j].size) {
                Some(next) => {
                    sum = next;
                },
                None => {
                    proof {
                        lemma_sum_sizes_take_le(self@, j as int + 1);
                    }
                    return false;
                },
            }
            j = j + 1;
        }
        proof {
            assert(self@.take(n as int) =~= self@);
        }
        true
    }

    /// Dump the table as a string: one line per non-free slot, in index
    /// order, joined by newlines.  Each line reads
    /// `SLOT ID: {index}: pid: {handle}, recount: {refcount}, flag: {flags}`
    /// (the label `pid` names the blob handle, kept bit-for-bit for
    /// compatibility).
    pub fn dump(&self) -> (r: String)
        ensures
            r@ == dump_spec(self@),
    {
        let n = self.slots.len();
        let mut out = String::new();
        let mut first: bool = true;
        let mut i: usize = 0;
        proof {
            assert(Seq::<char>::empty() + dump_from(self@, 0, true) =~= dump_from(
                self@,
                0,
                true,
            ));
        }
        while i < n
            invariant
                0 <= i <= n,
                n == self@.len(),
                dump_spec(self@) == out@ + dump_from(self@, i as int, first),
            decreases n - i,
        {
            let slot = self.slots[i];
            if !slot.is_free() {
                let mut line = String::from_str("SLOT ID: ");
                line.append(u64_to_string(i as u64).as_str());
                line.append(": pid: ");
                line.append(u64_to_string(slot.python_id.0).as_str());
                line.append(", recount: ");
                line.append(u64_to_string(slot.refcount as u64).as_str());
                line.append(", flag: ");
                line.append(u64_to_string(slot.flags as u64).as_str());
                proof {
                    assert(line@ =~= dump_line(i as int, self@[i as int]));
                }
                if first {
                    proof {
                        assert(out@ + (dump_line(i as int, self@[i as int]) + dump_from(
                            self@,
                            i as int + 1,
                            false,
                        )) =~= (out@ + line@) + dump_from(self@, i as int + 1, false));
                    }
                    out = out.concat(line.as_str());
                    first = false;
                } else {
                    proof {
                        assert(out@ + ("\n"@ + dump_line(i as int, self@[i as int]) + dump_from(
                            self@,
                            i as int + 1,
                            false,
                        )) =~= ((out@ + "\n"@) + line@) + dump_from(self@, i as int + 1, false));
                    }
                    out.append("\n");
                    out = out.concat(line.as_str());
                }
            }
            i = i + 1;
        }
        proof {
            assert(out@ + dump_from(self@, n as int, first) =~= out@);
        }
        out
    }
}

// Stated properties of the allocator.  Each proof function below names one
// guarantee that holds of every table the pool operations can reach; the
// operations' contracts say their final table is the corresponding `_spec`
// state, so these statements carry over to every execution.

/// No two non-free slots share a blob handle.
pub proof fn lemma_unique_ids(s: Seq<MemorySlot>)
    requires
        wf_slots(s),
    ensures
        forall|i: int, j: int|
            0 <= i < j < s.len() && !slot_free(#[trigger] s[i]) && !slot_free(#[trigger] s[j])
                ==> s[i].python_id != s[j].python_id,
{
}

/// No two consecutive non-empty slots are both free: such pairs have been
/// coalesced.
pub proof fn lemma_no_adjacent_frees(s: Seq<MemorySlot>)
    requires
        wf_slots(s),
    ensures
        forall|i: int|
            0 <= i && i + 1 < s.len() && !slot_empty(#[trigger] s[i]) && !slot_empty(s[i + 1])
                ==> !(slot_free(s[i]) && slot_free(s[i + 1])),
{
    assert forall|i: int|
        0 <= i && i + 1 < s.len() && !slot_empty(#[trigger] s[i]) && !slot_empty(
            s[i + 1],
        ) implies !(slot_free(s[i]) && slot_free(s[i + 1])) by {
        if slot_free(s[i]) && slot_free(s[i + 1]) {
            assert(tail_empty_from(s, i + 1));
            assert(slot_empty(s[i + 1]));
        }
    }
}

/// Attaching one blob moves no other: `info_of` answers as before for every
/// handle (offsets and sizes are stable until a later add or free).
pub proof fn lemma_attach_preserves_info(
    s: Seq<MemorySlot>,
    python_id: PythonId,
    self_pid: u32,
    other_id: PythonId,
)
    ensures
        info_spec(attach_spec(s, python_id, self_pid).0, other_id) == info_spec(s, other_id),
{
    let ns = attach_spec(s, python_id, self_pid).0;
    if python_id.0 != 0 {
        let t = find_id(s, python_id);
        lemma_find_id(s, python_id);
        if t < s.len() {
            assert(forall|j: int|
                0 <= j < s.len() ==> (#[trigger] s[j]).python_id == ns[j].python_id);
            assert(forall|j: int| 0 <= j < s.len() ==> (#[trigger] s[j]).size == ns[j].size);
            lemma_info_spec_same(s, ns, other_id);
        }
    }
}

/// What `attach_object` hands back is exactly what `info_of` reports: for a
/// live blob, repeated attaches return the same offset and size.
pub proof fn lemma_attach_returns_info(s: Seq<MemorySlot>, python_id: PythonId, self_pid: u32)
    ensures
        ({
            let r = attach_spec(s, python_id, self_pid).1;
            match info_spec(s, python_id) {
                Some(oi) => r == Ok::<ObjectInfo, ArrayPoolError>(oi),
                None => r is Err,
            }
        }),
{
}

/// An attach by a process other than the creator marks the blob as
/// transferred: from then on, detaches free it once the reference count
/// reaches zero.
pub proof fn lemma_cross_attach_sets_transferred(
    s: Seq<MemorySlot>,
    python_id: PythonId,
    self_pid: u32,
)
    requires
        python_id.0 != 0,
        find_id(s, python_id) < s.len(),
        s[find_id(s, python_id)].source_pid != self_pid,
    ensures
        ({
            let ns = attach_spec(s, python_id, self_pid).0;
            let t = find_id(s, python_id);
            &&& find_id(ns, python_id) == t
            &&& slot_transferred(ns[t])
        }),
{
    let t = find_id(s, python_id);
    lemma_find_id(s, python_id);
    let ns = attach_spec(s, python_id, self_pid).0;
    lemma_flag_or_sets_transferred(s[t].flags);
    assert(forall|j: int| 0 <= j < s.len() ==> (#[trigger] s[j]).python_id == ns[j].python_id);
    lemma_find_id_same(s, ns, python_id);
}

/// A detach of a blob that was never transferred — no attach from another
/// process, no explicit mark — never frees it: the slot stays occupied under
/// its handle, with the same size, only the reference count dropping
/// (saturating at zero).
pub proof fn lemma_detach_self_only_never_frees(s: Seq<MemorySlot>, python_id: PythonId)
    requires
        wf_slots(s),
        python_id.0 != 0,
        find_id(s, python_id) < s.len(),
        !slot_transferred(s[find_id(s, python_id)]),
    ensures
        ({
            let (ns, r) = detach_spec(s, python_id);
            let t = find_id(s, python_id);
            &&& r == Ok::<(), ArrayPoolError>(())
            &&& find_id(ns, python_id) == t
            &&& ns[t].python_id == python_id
            &&& ns[t].size == s[t].size
            &&& !slot_transferred(ns[t])
            &&& ns[t].refcount == (if s[t].refcount > 0 {
                (s[t].refcount - 1) as usize
            } else {
                0
            })
            &&& info_spec(ns, python_id) == info_spec(s, python_id)
        }),
{
    let t = find_id(s, python_id);
    lemma_find_id(s, python_id);
    let (ns, r) = detach_spec(s, python_id);
    assert(forall|j: int| 0 <= j < s.len() ==> (#[trigger] s[j]).python_id == ns[j].python_id);
    assert(forall|j: int| 0 <= j < s.len() ==> (#[trigger] s[j]).size == ns[j].size);
    lemma_find_id_same(s, ns, python_id);
    lemma_info_spec_same(s, ns, python_id);
}

/// A detach of a blob that still has other references never frees it, even
/// when it was transferred.
pub proof fn lemma_detach_still_referenced_never_frees(s: Seq<MemorySlot>, python_id: PythonId)
    requires
        wf_slots(s),
        python_id.0 != 0,
        find_id(s, python_id) < s.len(),
        s[find_id(s, python_id)].refcount >= 2,
    ensures
        ({
            let (ns, r) = detach_spec(s, python_id);
            let t = find_id(s, python_id);
            &&& r == Ok::<(), ArrayPoolError>(())
            &&& find_id(ns, python_id) == t
            &&& ns[t].python_id == python_id
            &&& ns[t].size == s[t].size
            &&& ns[t].refcount == s[t].refcount - 1
            &&& info_spec(ns, python_id) == info_spec(s, python_id)
        }),
{
    let t = find_id(s, python_id);
    lemma_find_id(s, python_id);
    let (ns, r) = detach_spec(s, python_id);
    assert(forall|j: int| 0 <= j < s.len() ==> (#[trigger] s[j]).python_id == ns[j].python_id);
    assert(forall|j: int| 0 <= j < s.len() ==> (#[trigger] s[j]).size == ns[j].size);
    lemma_find_id_same(s, ns, python_id);
    lemma_info_spec_same(s, ns, python_id);
}

/// A detach of a transferred blob whose last reference goes away frees it:
/// no slot carries the handle afterwards.
pub proof fn lemma_detach_transferred_frees(s: Seq<MemorySlot>, python_id: PythonId)
    requires
        wf_slots(s),
        python_id.0 != 0,
        find_id(s, python_id) < s.len(),
        slot_transferred(s[find_id(s, python_id)]),
        s[find_id(s, python_id)].refcount <= 1,
    ensures
        ({
            let (ns, r) = detach_spec(s, python_id);
            &&& r == Ok::<(), ArrayPoolError>(())
            &&& forall|j: int| 0 <= j < ns.len() ==> (#[trigger] ns[j]).python_id != python_id
        }),
{
    let t = find_id(s, python_id);
    lemma_find_id(s, python_id);
    let dec = if s[t].refcount > 0 {
        MemorySlot { refcount: (s[t].refcount - 1) as usize, ..s[t] }
    } else {
        s[t]
    };
    let s1 = s.update(t, dec);
    lemma_wf_update_occupied(s, t, dec);
    assert(slot_releasable(dec));
    lemma_wf_release(s1, t);
    assert(s1[t].python_id == python_id);
}

/// `info_of` right after a successful `add` reports exactly the returned
/// offset and the requested size.
pub proof fn lemma_info_after_add(
    s: Seq<MemorySlot>,
    python_id: PythonId,
    request_size: usize,
    self_pid: u32,
)
    ensures
        ({
            let (ns, r) = add_spec(s, python_id, request_size, self_pid);
            r is Ok ==> info_spec(ns, python_id) == Some(
                ObjectInfo { offset: r->Ok_0, size: request_size },
            )
        }),
{
    let (ns, r) = add_spec(s, python_id, request_size, self_pid);
    if r is Ok {
        let t = find_fit(s, request_size);
        lemma_find_fit(s, request_size);
        lemma_find_id(s, python_id);
        if request_size < s[t].size {
            // split branch: prefix before the target is unchanged
            assert(slot_empty(s[s.len() - 1]));
            assert(s[t].size > 0);
            assert(t != s.len() - 1);
            assert(forall|j: int| 0 <= j < t ==> ns[j] == s[j]);
            assert(ns[t] == spec_occupied_slot(python_id, request_size, self_pid));
            assert forall|j: int| 0 <= j < t implies (#[trigger] ns[j]).python_id != python_id by {
                assert(ns[j] == s[j]);
            }
            lemma_find_id_at(ns, python_id, t);
        } else {
            assert(forall|j: int| 0 <= j < t ==> ns[j] == s[j]);
            assert(ns[t] == spec_occupied_slot(python_id, request_size, self_pid));
            assert forall|j: int| 0 <= j < t implies (#[trigger] ns[j]).python_id != python_id by {
                assert(ns[j] == s[j]);
            }
            lemma_find_id_at(ns, python_id, t);
        }
        assert forall|j: int| 0 <= j < s.take(t).len() implies (#[trigger] s.take(t)[j]).size
            == ns.take(t)[j].size by {
            assert(s.take(t)[j] == s[j]);
            assert(ns.take(t)[j] == ns[j]);
        }
        lemma_sum_sizes_same(s.take(t), ns.take(t));
    }
}

/// An attach right after a successful `add` — from any process — reports
/// exactly the added block: the same offset the add returned and the
/// requested size, so both ends address the same bytes of the data region.
pub proof fn lemma_attach_after_add_sees_same_block(
    s: Seq<MemorySlot>,
    python_id: PythonId,
    request_size: usize,
    self_pid: u32,
    other_pid: u32,
)
    ensures
        ({
            let (ns, r) = add_spec(s, python_id, request_size, self_pid);
            r is Ok ==> attach_spec(ns, python_id, other_pid).1 == Ok::<
                ObjectInfo,
                ArrayPoolError,
            >(ObjectInfo { offset: r->Ok_0, size: request_size })
        }),
{
    lemma_info_after_add(s, python_id, request_size, self_pid);
    lemma_attach_returns_info(
        add_spec(s, python_id, request_size, self_pid).0,
        python_id,
        other_pid,
    );
}

/// The table after `n` successive attaches of `python_id` by `self_pid`.
pub open spec fn attach_n(s: Seq<MemorySlot>, python_id: PythonId, self_pid: u32, n: nat) -> Seq<
    MemorySlot,
>
    decreases n,
{
    if n == 0 {
        s
    } else {
        attach_spec(attach_n(s, python_id, self_pid, (n - 1) as nat), python_id, self_pid).0
    }
}

/// The table after `n` successive detaches of `python_id`.
pub open spec fn detach_n(s: Seq<MemorySlot>, python_id: PythonId, n: nat) -> Seq<MemorySlot>
    decreases n,
{
    if n == 0 {
        s
    } else {
        detach_spec(detach_n(s, python_id, (n - 1) as nat), python_id).0
    }
}

/// Setting the transferred flag makes the slot transferred.
proof fn lemma_flag_or_sets_transferred(f: u8)
    ensures
        (f | FLAG_MEMSLOT_TRANSFERED) & FLAG_MEMSLOT_TRANSFERED == FLAG_MEMSLOT_TRANSFERED,
{
    assert((f | 1u8) & 1u8 == 1u8) by (bit_vector);
}

/// `n` attaches by the blob's creator only raise the reference count by `n`:
/// the transferred flag stays clear and nothing else moves.
proof fn lemma_attach_n_by_creator(
    s: Seq<MemorySlot>,
    python_id: PythonId,
    self_pid: u32,
    n: nat,
)
    requires
        python_id.0 != 0,
        find_id(s, python_id) < s.len(),
        s[find_id(s, python_id)].source_pid == self_pid,
        s[find_id(s, python_id)].refcount + n <= usize::MAX,
    ensures
        ({
            let t = find_id(s, python_id);
            attach_n(s, python_id, self_pid, n) == s.update(
                t,
                MemorySlot { refcount: (s[t].refcount + n) as usize, ..s[t] },
            )
        }),
    decreases n,
{
    let t = find_id(s, python_id);
    lemma_find_id(s, python_id);
    if n == 0 {
        assert(s.update(t, MemorySlot { refcount: (s[t].refcount + 0) as usize, ..s[t] }) =~= s);
    } else {
        lemma_attach_n_by_creator(s, python_id, self_pid, (n - 1) as nat);
        let prev = attach_n(s, python_id, self_pid, (n - 1) as nat);
        assert(forall|j: int|
            0 <= j < s.len() ==> (#[trigger] s[j]).python_id == prev[j].python_id);
        lemma_find_id_same(s, prev, python_id);
        assert(attach_spec(prev, python_id, self_pid).0 =~= s.update(
            t,
            MemorySlot { refcount: (s[t].refcount + n) as usize, ..s[t] },
        ));
    }
}

/// `n` detaches of a never-transferred blob with at least `n` references
/// only lower the reference count by `n`: nothing is freed.
proof fn lemma_detach_n_untransferred(s: Seq<MemorySlot>, python_id: PythonId, n: nat)
    requires
        python_id.0 != 0,
        find_id(s, python_id) < s.len(),
        !slot_transferred(s[find_id(s, python_id)]),
        s[find_id(s, python_id)].refcount >= n,
    ensures
        ({
            let t = find_id(s, python_id);
            detach_n(s, python_id, n) == s.update(
                t,
                MemorySlot { refcount: (s[t].refcount - n) as usize, ..s[t] },
            )
        }),
    decreases n,
{
    let t = find_id(s, python_id);
    lemma_find_id(s, python_id);
    if n == 0 {
        assert(s.update(t, MemorySlot { refcount: (s[t].refcount - 0) as usize, ..s[t] }) =~= s);
    } else {
        lemma_detach_n_untransferred(s, python_id, (n - 1) as nat);
        let prev = detach_n(s, python_id, (n - 1) as nat);
        assert(forall|j: int|
            0 <= j < s.len() ==> (#[trigger] s[j]).python_id == prev[j].python_id);
        lemma_find_id_same(s, prev, python_id);
        assert(prev[t].refcount == s[t].refcount - (n - 1));
        assert(!slot_releasable(
            MemorySlot { refcount: (prev[t].refcount - 1) as usize, ..prev[t] },
        ));
        assert(detach_spec(prev, python_id).0 =~= s.update(
            t,
            MemorySlot { refcount: (s[t].refcount - n) as usize, ..s[t] },
        ));
    }
}

/// Full lifecycle of a self-allocated blob holding one creator reference:
/// `n` attaches by the creator followed by `n` detaches put the table back
/// exactly as it was; `mark_releasable` leaves the blob allocated while the
/// creator reference is held; the final detach frees it.
pub proof fn lemma_lifecycle_roundtrip(
    s: Seq<MemorySlot>,
    python_id: PythonId,
    self_pid: u32,
    n: nat,
)
    requires
        wf_slots(s),
        python_id.0 != 0,
        find_id(s, python_id) < s.len(),
        s[find_id(s, python_id)].refcount == 1,
        !slot_transferred(s[find_id(s, python_id)]),
        s[find_id(s, python_id)].source_pid == self_pid,
        1 + n <= usize::MAX,
    ensures
        ({
            let t = find_id(s, python_id);
            let held = attach_n(s, python_id, self_pid, n);
            let released = detach_n(held, python_id, n);
            let marked = mark_releasable_spec(released, python_id).0;
            let freed = detach_spec(marked, python_id).0;
            &&& released == s
            &&& find_id(marked, python_id) == t
            &&& marked[t].python_id == python_id
            &&& marked[t].size == s[t].size
            &&& forall|j: int| 0 <= j < freed.len() ==> (#[trigger] freed[j]).python_id != python_id
        }),
{
    let t = find_id(s, python_id);
    lemma_find_id(s, python_id);
    lemma_attach_n_by_creator(s, python_id, self_pid, n);
    let held = attach_n(s, python_id, self_pid, n);
    assert(forall|j: int| 0 <= j < s.len() ==> (#[trigger] s[j]).python_id == held[j].python_id);
    lemma_find_id_same(s, held, python_id);
    assert(held[t].refcount == 1 + n);
    lemma_detach_n_untransferred(held, python_id, n);
    let released = detach_n(held, python_id, n);
    assert(released =~= s);
    // marking: the flag is set, but one reference is still held
    let marked_slot = MemorySlot { flags: s[t].flags | FLAG_MEMSLOT_TRANSFERED, ..s[t] };
    lemma_flag_or_sets_transferred(s[t].flags);
    assert(!slot_releasable(marked_slot));
    let marked = mark_releasable_spec(released, python_id).0;
    assert(marked == s.update(t, marked_slot));
    assert(forall|j: int| 0 <= j < s.len() ==> (#[trigger] s[j]).python_id == marked[j].python_id);
    lemma_find_id_same(s, marked, python_id);
    // the final detach finds a transferred slot and drops the last reference
    lemma_wf_update_occupied(s, t, marked_slot);
    lemma_detach_transferred_frees(marked, python_id);
}

/// Every non-free slot has a nonzero size: no zero-sized blob is present.
pub open spec fn all_occupied_sized(s: Seq<MemorySlot>) -> bool {
    forall|i: int| 0 <= i < s.len() && !slot_free(#[trigger] s[i]) ==> s[i].size > 0
}

/// Empty slots appear only as a suffix of the table.
pub open spec fn empties_trailing(s: Seq<MemorySlot>) -> bool {
    forall|i: int, j: int|
        0 <= i <= j < s.len() && slot_empty(#[trigger] s[i]) ==> slot_empty(#[trigger] s[j])
}

/// With the empty slots forming a suffix, the accounted sizes are exactly
/// the sizes of the slots before the first empty one: the occupied and
/// free-with-size blocks partition the data region.
pub proof fn lemma_partition_sum_before_empty_tail(s: Seq<MemorySlot>, k: int)
    requires
        0 <= k <= s.len(),
        forall|j: int| k <= j < s.len() ==> slot_empty(#[trigger] s[j]),
    ensures
        sum_sizes(s.take(k)) == sum_sizes(s),
{
    lemma_sum_sizes_split(s, k);
    assert forall|j: int| 0 <= j < s.skip(k).len() implies slot_empty(#[trigger] s.skip(k)[j]) by {
        assert(s.skip(k)[j] == s[j + k]);
    }
    lemma_sum_sizes_all_empty(s.skip(k));
}

/// Replacing an occupied slot by another occupied slot of the same size
/// keeps blob sizes nonzero and empty slots trailing.
proof fn lemma_partition_update_occupied(s: Seq<MemorySlot>, t: int, v: MemorySlot)
    requires
        all_occupied_sized(s),
        empties_trailing(s),
        0 <= t < s.len(),
        !slot_free(s[t]),
        !slot_free(v),
        v.size == s[t].size,
    ensures
        all_occupied_sized(s.update(t, v)),
        empties_trailing(s.update(t, v)),
{
    let ns = s.update(t, v);
    assert forall|a: int, b: int|
        0 <= a <= b < ns.len() && slot_empty(#[trigger] ns[a]) implies slot_empty(
        #[trigger] ns[b],
    ) by {
        assert(a != t);
        assert(slot_empty(s[a]));
        assert(t < a);
        assert(ns[b] == s[b]);
    }
}

/// The free protocol keeps blob sizes nonzero and empty slots trailing when
/// the freed slot had a nonzero size.
proof fn lemma_partition_release(s: Seq<MemorySlot>, i: int)
    requires
        wf_slots(s),
        all_occupied_sized(s),
        empties_trailing(s),
        0 <= i < s.len(),
        !slot_free(s[i]),
    ensures
        all_occupied_sized(release_spec(s, i)),
        empties_trailing(release_spec(s, i)),
{
    lemma_wf_release_right(s, i);
    let sz = s[i].size;
    assert(sz > 0);
    let s1 = s.update(i, spec_free_slot(sz));
    let s2 = if i + 1 < s1.len() && slot_free(s1[i + 1]) {
        s1.update(i, spec_free_slot((s1[i].size + s1[i + 1].size) as usize)).remove(i + 1).push(
            spec_empty_slot(),
        )
    } else {
        s1
    };
    // the intermediate table: sizes nonzero, empties trailing
    if i + 1 < s1.len() && slot_free(s1[i + 1]) {
        assert(s2[i].size == sz + s[i + 1].size);
        assert(forall|j: int| 0 <= j < i ==> s2[j] == s[j]);
        assert(forall|j: int| i + 1 <= j < s.len() - 1 ==> s2[j] == s[j + 1]);
        assert(s2[s.len() - 1] == spec_empty_slot());
        assert forall|a: int| 0 <= a < s2.len() && !slot_free(#[trigger] s2[a]) implies s2[a].size
            > 0 by {
            if a < i {
                assert(s2[a] == s[a]);
            } else if i + 1 <= a < s.len() - 1 {
                assert(s2[a] == s[a + 1]);
            }
        }
        assert forall|a: int, b: int|
            0 <= a <= b < s2.len() && slot_empty(#[trigger] s2[a]) implies slot_empty(
            #[trigger] s2[b],
        ) by {
            if a < i {
                assert(slot_empty(s[a]));
                assert(slot_empty(s[i]));
                assert(false);
            } else if a == i {
                assert(s2[i].size > 0);
                assert(false);
            } else if a < s.len() - 1 {
                assert(slot_empty(s[a + 1]));
                if b < s.len() - 1 {
                    assert(s2[b] == s[b + 1]);
                    assert(slot_empty(s[b + 1]));
                }
            } else {
                assert(b == s.len() - 1);
            }
        }
    } else {
        assert forall|a: int, b: int|
            0 <= a <= b < s2.len() && slot_empty(#[trigger] s2[a]) implies slot_empty(
            #[trigger] s2[b],
        ) by {
            assert(a != i);
            assert(slot_empty(s[a]));
            assert(i < a);
            assert(s2[b] == s[b]);
        }
    }
    assert(all_occupied_sized(s2));
    assert(empties_trailing(s2));
    assert(s2[i].size >= sz);
    // the left merge
    if 0 < i && slot_free(s2[i - 1]) {
        lemma_sum_sizes_two_elems(s2, i - 1, i);
        lemma_sum_sizes_nonneg(s2);
        let merged = spec_free_slot((s2[i - 1].size + s2[i].size) as usize);
        let r = s2.update(i - 1, merged).remove(i).push(spec_empty_slot());
        assert(release_spec(s, i) == r);
        assert(merged.size >= s2[i].size);
        assert(forall|j: int| 0 <= j < i - 1 ==> r[j] == s2[j]);
        assert(forall|j: int| i <= j < s.len() - 1 ==> r[j] == s2[j + 1]);
        assert(r[s.len() - 1] == spec_empty_slot());
        assert forall|a: int| 0 <= a < r.len() && !slot_free(#[trigger] r[a]) implies r[a].size
            > 0 by {
            if a < i - 1 {
                assert(r[a] == s2[a]);
            } else if i <= a < s.len() - 1 {
                assert(r[a] == s2[a + 1]);
            }
        }
        assert forall|a: int, b: int|
            0 <= a <= b < r.len() && slot_empty(#[trigger] r[a]) implies slot_empty(
            #[trigger] r[b],
        ) by {
            if a < i - 1 {
                assert(slot_empty(s2[a]));
                assert(slot_empty(s2[i]));
                assert(false);
            } else if a == i - 1 {
                assert(r[i - 1].size > 0);
                assert(false);
            } else if a < s.len() - 1 {
                assert(slot_empty(s2[a + 1]));
                if b < s.len() - 1 {
                    assert(r[b] == s2[b + 1]);
                    assert(slot_empty(s2[b + 1]));
                }
            } else {
                assert(b == s.len() - 1);
            }
        }
    }
}

/// Adding a blob of nonzero size keeps blob sizes nonzero and empty slots
/// trailing: with no zero-sized blobs ever added, the table always consists
/// of the partitioning slots followed by the empty tail.
pub proof fn lemma_partition_preserved_by_add(
    s: Seq<MemorySlot>,
    python_id: PythonId,
    request_size: usize,
    self_pid: u32,
)
    requires
        wf_slots(s),
        all_occupied_sized(s),
        empties_trailing(s),
        request_size > 0,
    ensures
        all_occupied_sized(add_spec(s, python_id, request_size, self_pid).0),
        empties_trailing(add_spec(s, python_id, request_size, self_pid).0),
{
    let ns = add_spec(s, python_id, request_size, self_pid).0;
    lemma_find_id(s, python_id);
    if python_id.0 != 0 && find_id(s, python_id) == s.len() {
        let t = find_fit(s, request_size);
        lemma_find_fit(s, request_size);
        if t < s.len() {
            if request_size < s[t].size {
                if slot_empty(s[s.len() - 1]) {
                    assert(s[t].size > 0);
                    assert(t != s.len() - 1);
                    let rem = spec_free_slot((s[t].size - request_size) as usize);
                    assert(forall|j: int| 0 <= j < t ==> ns[j] == s[j]);
                    assert(ns[t] == spec_occupied_slot(python_id, request_size, self_pid));
                    assert(ns[t + 1] == rem);
                    assert(forall|j: int| t + 2 <= j < ns.len() ==> ns[j] == s[j - 1]);
                    assert forall|a: int|
                        0 <= a < ns.len() && !slot_free(#[trigger] ns[a]) implies ns[a].size
                        > 0 by {
                        if a < t {
                            assert(ns[a] == s[a]);
                        } else if a >= t + 2 {
                            assert(ns[a] == s[a - 1]);
                        }
                    }
                    assert forall|a: int, b: int|
                        0 <= a <= b < ns.len() && slot_empty(#[trigger] ns[a]) implies slot_empty(
                        #[trigger] ns[b],
                    ) by {
                        if a < t {
                            assert(slot_empty(s[a]));
                            assert(slot_empty(s[t]));
                            assert(false);
                        } else if a == t || a == t + 1 {
                            assert(false);
                        } else {
                            assert(slot_empty(s[a - 1]));
                            assert(ns[b] == s[b - 1]);
                            assert(slot_empty(s[b - 1]));
                        }
                    }
                }
            } else {
                assert(ns == s.update(t, spec_occupied_slot(python_id, request_size, self_pid)));
                assert forall|a: int|
                    0 <= a < ns.len() && !slot_free(#[trigger] ns[a]) implies ns[a].size > 0 by {
                    if a != t {
                        assert(ns[a] == s[a]);
                    }
                }
                assert forall|a: int, b: int|
                    0 <= a <= b < ns.len() && slot_empty(#[trigger] ns[a]) implies slot_empty(
                    #[trigger] ns[b],
                ) by {
                    assert(a != t);
                    assert(slot_empty(s[a]));
                    assert(t < a);
                    assert(ns[b] == s[b]);
                }
            }
        }
    }
}

/// Attaching keeps blob sizes nonzero and empty slots trailing.
pub proof fn lemma_partition_preserved_by_attach(
    s: Seq<MemorySlot>,
    python_id: PythonId,
    self_pid: u32,
)
    requires
        all_occupied_sized(s),
        empties_trailing(s),
    ensures
        all_occupied_sized(attach_spec(s, python_id, self_pid).0),
        empties_trailing(attach_spec(s, python_id, self_pid).0),
{
    if python_id.0 != 0 {
        let t = find_id(s, python_id);
        lemma_find_id(s, python_id);
        if t < s.len() {
            let ns = attach_spec(s, python_id, self_pid).0;
            lemma_partition_update_occupied(s, t, ns[t]);
            assert(ns =~= s.update(t, ns[t]));
        }
    }
}

/// Detaching keeps blob sizes nonzero and empty slots trailing, whether or
/// not it frees the blob.
pub proof fn lemma_partition_preserved_by_detach(s: Seq<MemorySlot>, python_id: PythonId)
    requires
        wf_slots(s),
        all_occupied_sized(s),
        empties_trailing(s),
    ensures
        all_occupied_sized(detach_spec(s, python_id).0),
        empties_trailing(detach_spec(s, python_id).0),
{
    if python_id.0 != 0 {
        let t = find_id(s, python_id);
        lemma_find_id(s, python_id);
        if t < s.len() {
            let dec = if s[t].refcount > 0 {
                MemorySlot { refcount: (s[t].refcount - 1) as usize, ..s[t] }
            } else {
                s[t]
            };
            let s1 = s.update(t, dec);
            lemma_partition_update_occupied(s, t, dec);
            lemma_wf_update_occupied(s, t, dec);
            if slot_releasable(dec) {
                lemma_partition_release(s1, t);
            }
        }
    }
}

/// Marking releasable keeps blob sizes nonzero and empty slots trailing,
/// whether or not it frees the blob.
pub proof fn lemma_partition_preserved_by_mark(s: Seq<MemorySlot>, python_id: PythonId)
    requires
        wf_slots(s),
        all_occupied_sized(s),
        empties_trailing(s),
    ensures
        all_occupied_sized(mark_releasable_spec(s, python_id).0),
        empties_trailing(mark_releasable_spec(s, python_id).0),
{
    if python_id.0 != 0 {
        let t = find_id(s, python_id);
        lemma_find_id(s, python_id);
        if t < s.len() {
            let marked = MemorySlot { flags: s[t].flags | FLAG_MEMSLOT_TRANSFERED, ..s[t] };
            let s1 = s.update(t, marked);
            lemma_partition_update_occupied(s, t, marked);
            lemma_wf_update_occupied(s, t, marked);
            if slot_releasable(marked) {
                lemma_partition_release(s1, t);
            }
        }
    }
}

} // verus!
