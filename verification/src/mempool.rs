//! Memory pool backing descriptor payloads.
//!
//! A pool owns the queue's descriptor identifiers, `1..=size` with `0`
//! reserved, together with a bump arena standing for the DMA-visible
//! payload memory. Descriptors hand out stable device-visible
//! addresses; the identifiers are the currency that limits how many
//! descriptors can float around a queue at once.

use vstd::prelude::*;

use crate::error::VirtqError;

verus! {

/// Base device-visible address of the payload arena.
pub const ARENA_BASE: u64 = 0x1000;

/// Bytes of payload memory a pool can hand out in total.
pub const ARENA_CAPACITY: usize = 0x100_0000;

/// Machine-word alignment of payload allocations.
pub const WORD_ALIGN: usize = 8;

/// Sum of the first `i` entries of a size list, each rounded up to
/// the machine word, in bytes.
pub open spec fn sum_aligned_upto(s: Seq<usize>, i: int) -> int
    decreases i,
{
    if i <= 0 {
        0
    } else {
        sum_aligned_upto(s, i - 1) + MemPool::spec_align_up(s[i - 1] as int)
    }
}

/// Sum of a size list, each entry rounded up to the machine word.
pub open spec fn seq_sum_aligned(s: Seq<usize>) -> int {
    sum_aligned_upto(s, s.len() as int)
}

/// Partial aligned sums grow with the index.
pub proof fn lemma_sum_aligned_mono(s: Seq<usize>, i: int, j: int)
    requires
        0 <= i <= j <= s.len(),
    ensures
        sum_aligned_upto(s, i) <= sum_aligned_upto(s, j),
    decreases j - i,
{
    if i < j {
        lemma_sum_aligned_mono(s, i, j - 1);
    }
}

/// A plain partial sum never exceeds the aligned one, and neither is
/// negative.
pub proof fn lemma_sum_le_aligned(s: Seq<usize>, i: int)
    requires
        0 <= i <= s.len(),
    ensures
        0 <= crate::buffer::seq_sum_upto(s, i) <= sum_aligned_upto(s, i),
    decreases i,
{
    if i > 0 {
        lemma_sum_le_aligned(s, i - 1);
    }
}

/// When the aligned sum of a size list fits the arena, every single
/// size does too.
pub proof fn lemma_size_bounds(s: Seq<usize>)
    requires
        seq_sum_aligned(s) <= ARENA_CAPACITY,
    ensures
        forall|i: int| 0 <= i < s.len() ==> #[trigger] s[i] <= ARENA_CAPACITY,
{
    assert forall|i: int| 0 <= i < s.len() implies #[trigger] s[i] <= ARENA_CAPACITY by {
        lemma_sum_aligned_mono(s, 0, i);
        lemma_sum_aligned_mono(s, i + 1, s.len() as int);
        assert(sum_aligned_upto(s, i + 1) == sum_aligned_upto(s, i) + MemPool::spec_align_up(
            s[i] as int,
        ));
    }
}

/// Identifier of a memory descriptor, unique per pool.
#[derive(Copy, Clone, Debug, PartialEq, Eq, Structural)]
pub struct MemDescrId(pub u16);

/// A caller-owned memory region at a stable device-visible address,
/// handed in to be wrapped for the device without copying.
#[derive(Copy, Clone, Debug, PartialEq, Eq, Structural)]
pub struct RawRegion {
    /// Stable device-visible address of the region.
    pub addr: u64,
    /// Length of the region in bytes.
    pub len: usize,
}

/// An owned chunk of DMA-visible memory.
///
/// While the descriptor exists no other code touches its bytes; the
/// device reads and writes through `addr`. `id == 0` marks a chunk
/// that holds no pool identifier (an anonymous chunk); `dealloc`
/// selects whether the storage itself is given back when the chunk is
/// returned, or only the identifier.
#[derive(Copy, Clone, Debug, PartialEq, Eq, Structural)]
pub struct MemDescr {
    /// Stable device-visible address of the chunk.
    pub addr: u64,
    /// Length of the chunk in bytes.
    pub len: usize,
    /// Pool identifier in `1..=size`, or `0` for an anonymous chunk.
    pub id: u16,
    /// Whether the backing storage is returned together with the
    /// identifier.
    pub dealloc: bool,
}

impl MemDescr {
    /// True when the chunk carries a pool identifier.
    pub open spec fn has_id(self) -> bool {
        self.id != 0
    }

    /// The anonymous image of this descriptor: same address and
    /// length, no identifier, no storage ownership.
    pub open spec fn spec_no_dealloc_clone(self) -> MemDescr {
        MemDescr { addr: self.addr, len: self.len, id: 0, dealloc: false }
    }

    /// A copy of this descriptor that owns neither the identifier nor
    /// the storage: it carries the same address and length but returns
    /// nothing when dropped.
    pub fn no_dealloc_clone(&self) -> (r: MemDescr)
        ensures
            r == self.spec_no_dealloc_clone(),
    {
        MemDescr { addr: self.addr, len: self.len, id: 0, dealloc: false }
    }
}

/// Fixed-capacity pool of descriptor identifiers plus the payload
/// arena.
pub struct MemPool {
    /// Identifiers not currently held by any descriptor.
    pub free_ids: Vec<u16>,
    /// Number of identifiers managed, equal to the queue size.
    pub size: u16,
    /// Bytes of the arena already handed out.
    pub arena_used: usize,
}

impl MemPool {
    /// The free identifiers, newest return last.
    pub open spec fn ids(self) -> Seq<u16> {
        self.free_ids@
    }

    /// The pool holds the same free identifiers, size and arena cursor
    /// as `other`.
    pub open spec fn unchanged_from(self, other: MemPool) -> bool {
        &&& self.ids() == other.ids()
        &&& self.size == other.size
        &&& self.arena_used == other.arena_used
    }

    /// `size` rounded up to the machine word.
    pub open spec fn spec_align_up(size: int) -> int {
        if size % (WORD_ALIGN as int) == 0 {
            size
        } else {
            size + (WORD_ALIGN as int) - size % (WORD_ALIGN as int)
        }
    }

    /// Whether a payload of `size` bytes still fits into the arena.
    pub open spec fn arena_fits(self, size: int) -> bool {
        Self::spec_align_up(size) <= ARENA_CAPACITY - self.arena_used
    }

    /// Well-formedness: free identifiers are distinct, drawn from
    /// `1..=size`, and the arena cursor is word-aligned and in bounds.
    pub open spec fn wf(self) -> bool {
        &&& self.free_ids@.no_duplicates()
        &&& forall|i: int|
            0 <= i < self.free_ids@.len() ==> 1 <= #[trigger] self.free_ids@[i] <= self.size
        &&& self.free_ids@.len() <= self.size
        &&& self.arena_used <= ARENA_CAPACITY
        &&& self.arena_used % WORD_ALIGN == 0
    }

    /// A fresh pool with every identifier `1..=size` free and an empty
    /// arena.
    pub fn new(size: u16) -> (r: MemPool)
        ensures
            r.wf(),
            r.size == size,
            r.arena_used == 0,
            r.ids().len() == size,
            forall|i: int| 0 <= i < size ==> #[trigger] r.ids()[i] == i + 1,
    {
        let mut free_ids: Vec<u16> = Vec::new();
        let mut filled: usize = 0;
        while filled < size as usize
            invariant
                filled <= size,
                free_ids@.len() == filled,
                forall|i: int| 0 <= i < filled ==> #[trigger] free_ids@[i] == i + 1,
            decreases size - filled,
        {
            free_ids.push((filled as u16) + 1);
            filled = filled + 1;
        }
        proof {
            assert forall|i: int, j: int|
                0 <= i < free_ids@.len() && 0 <= j < free_ids@.len() && i != j implies free_ids@[i]
                != free_ids@[j] by {}
        }
        MemPool { free_ids, size, arena_used: 0 }
    }

    /// Number of identifiers currently free.
    pub fn free_count(&self) -> (r: usize)
        ensures
            r == self.ids().len(),
    {
        self.free_ids.len()
    }

    /// Allocates `size` bytes of payload memory, word-aligned, and
    /// assigns the identifier most recently freed. Fails with
    /// `NoDescrAvail` when no identifier is free, with
    /// `AllocationError` when the arena cannot hold the payload; a
    /// failing call leaves the pool unchanged.
    pub fn pull(&mut self, size: usize) -> (r: Result<MemDescr, VirtqError>)
        requires
            old(self).wf(),
        ensures
            final(self).wf(),
            final(self).size == old(self).size,
            match r {
                Ok(d) => {
                    &&& old(self).ids().len() > 0
                    &&& old(self).arena_fits(size as int)
                    &&& d.id == old(self).ids().last()
                    &&& d.len == size
                    &&& d.dealloc
                    &&& d.addr == ARENA_BASE + old(self).arena_used
                    &&& final(self).ids() == old(self).ids().drop_last()
                    &&& final(self).arena_used == old(self).arena_used
                        + Self::spec_align_up(size as int)
                },
                Err(VirtqError::NoDescrAvail) => {
                    &&& old(self).ids().len() == 0
                    &&& final(self).unchanged_from(*old(self))
                },
                Err(VirtqError::AllocationError) => {
                    &&& old(self).ids().len() > 0
                    &&& !old(self).arena_fits(size as int)
                    &&& final(self).unchanged_from(*old(self))
                },
                Err(_) => false,
            },
    {
        self.pull_inner(size, true)
    }

    /// Like `pull`, but the descriptor's `dealloc` flag is cleared:
    /// returning it gives back only the identifier, never the storage.
    pub fn pull_untracked(&mut self, size: usize) -> (r: Result<MemDescr, VirtqError>)
        requires
            old(self).wf(),
        ensures
            final(self).wf(),
            final(self).size == old(self).size,
            match r {
                Ok(d) => {
                    &&& old(self).ids().len() > 0
                    &&& old(self).arena_fits(size as int)
                    &&& d.id == old(self).ids().last()
                    &&& d.len == size
                    &&& !d.dealloc
                    &&& d.addr == ARENA_BASE + old(self).arena_used
                    &&& final(self).ids() == old(self).ids().drop_last()
                    &&& final(self).arena_used == old(self).arena_used
                        + Self::spec_align_up(size as int)
                },
                Err(VirtqError::NoDescrAvail) => {
                    &&& old(self).ids().len() == 0
                    &&& final(self).unchanged_from(*old(self))
                },
                Err(VirtqError::AllocationError) => {
                    &&& old(self).ids().len() > 0
                    &&& !old(self).arena_fits(size as int)
                    &&& final(self).unchanged_from(*old(self))
                },
                Err(_) => false,
            },
    {
        self.pull_inner(size, false)
    }

    /// Copies a caller slice into a fresh tracked allocation. Fails
    /// with `BufferSizeWrong` when the slice cannot be described by a
    /// 32-bit descriptor length, else as `pull`.
    pub fn pull_from(&mut self, data: &[u8]) -> (r: Result<MemDescr, VirtqError>)
        requires
            old(self).wf(),
        ensures
            final(self).wf(),
            final(self).size == old(self).size,
            match r {
                Ok(d) => {
                    &&& data@.len() <= u32::MAX
                    &&& old(self).ids().len() > 0
                    &&& old(self).arena_fits(data@.len() as int)
                    &&& d.id == old(self).ids().last()
                    &&& d.len == data@.len()
                    &&& d.dealloc
                    &&& d.addr == ARENA_BASE + old(self).arena_used
                    &&& final(self).ids() == old(self).ids().drop_last()
                    &&& final(self).arena_used == old(self).arena_used
                        + Self::spec_align_up(data@.len() as int)
                },
                Err(VirtqError::BufferSizeWrong(l)) => {
                    &&& data@.len() > u32::MAX
                    &&& l == data@.len()
                    &&& final(self).unchanged_from(*old(self))
                },
                Err(VirtqError::NoDescrAvail) => {
                    &&& data@.len() <= u32::MAX
                    &&& old(self).ids().len() == 0
                    &&& final(self).unchanged_from(*old(self))
                },
                Err(VirtqError::AllocationError) => {
                    &&& data@.len() <= u32::MAX
                    &&& old(self).ids().len() > 0
                    &&& !old(self).arena_fits(data@.len() as int)
                    &&& final(self).unchanged_from(*old(self))
                },
                Err(_) => false,
            },
    {
        let len = data.len();
        if len > u32::MAX as usize {
            return Err(VirtqError::BufferSizeWrong(len));
        }
        self.pull_inner(len, true)
    }

    /// Wraps caller-owned memory at a stable address: assigns an
    /// identifier but allocates nothing, and the storage is never
    /// returned through this pool. Fails with `BufferSizeWrong` when
    /// the region cannot be described by a 32-bit descriptor length.
    pub fn pull_from_raw(&mut self, addr: u64, len: usize) -> (r: Result<MemDescr, VirtqError>)
        requires
            old(self).wf(),
        ensures
            final(self).wf(),
            final(self).size == old(self).size,
            final(self).arena_used == old(self).arena_used,
            match r {
                Ok(d) => {
                    &&& len <= u32::MAX
                    &&& old(self).ids().len() > 0
                    &&& d.id == old(self).ids().last()
                    &&& d.len == len
                    &&& !d.dealloc
                    &&& d.addr == addr
                    &&& final(self).ids() == old(self).ids().drop_last()
                },
                Err(VirtqError::BufferSizeWrong(l)) => {
                    &&& len > u32::MAX
                    &&& l == len
                    &&& final(self).unchanged_from(*old(self))
                },
                Err(VirtqError::NoDescrAvail) => {
                    &&& len <= u32::MAX
                    &&& old(self).ids().len() == 0
                    &&& final(self).unchanged_from(*old(self))
                },
                Err(_) => false,
            },
    {
        if len > u32::MAX as usize {
            return Err(VirtqError::BufferSizeWrong(len));
        }
        match self.free_ids.pop() {
            Some(id) => {
                proof {
                    assert(self.ids() =~= old(self).ids().drop_last());
                    Self::lemma_wf_after_drop_last(*old(self), *self);
                }
                Ok(MemDescr { addr, len, id, dealloc: false })
            },
            None => Err(VirtqError::NoDescrAvail),
        }
    }

    /// Popping the most recently freed identifier preserves
    /// well-formedness.
    proof fn lemma_wf_after_drop_last(pre: MemPool, post: MemPool)
        requires
            pre.wf(),
            pre.ids().len() > 0,
            post.ids() == pre.ids().drop_last(),
            post.size == pre.size,
            post.arena_used == pre.arena_used,
        ensures
            post.wf(),
    {
        assert forall|i: int| 0 <= i < post.ids().len() implies 1 <= #[trigger] post.ids()[i]
            <= post.size by {
            assert(post.ids()[i] == pre.ids()[i]);
        }
        assert(post.ids().no_duplicates()) by {
            assert forall|i: int, j: int|
                0 <= i < post.ids().len() && 0 <= j < post.ids().len() && i != j implies post.ids()[i]
                != post.ids()[j] by {
                assert(pre.ids()[i] != pre.ids()[j]);
            }
        }
    }

    /// Allocates `size` bytes of payload memory without assigning an
    /// identifier: the split ring draws its table slots only when a
    /// transfer is dispatched, so its buffers stay anonymous. Fails
    /// with `AllocationError`, changing nothing, when the arena
    /// cannot hold the payload.
    pub fn alloc_anon(&mut self, size: usize) -> (r: Result<MemDescr, VirtqError>)
        requires
            old(self).wf(),
        ensures
            final(self).wf(),
            final(self).size == old(self).size,
            final(self).ids() == old(self).ids(),
            match r {
                Ok(d) => {
                    &&& old(self).arena_fits(size as int)
                    &&& d.id == 0
                    &&& d.len == size
                    &&& d.dealloc
                    &&& d.addr == ARENA_BASE + old(self).arena_used
                    &&& final(self).arena_used == old(self).arena_used + Self::spec_align_up(
                        size as int,
                    )
                },
                Err(VirtqError::AllocationError) => {
                    &&& !old(self).arena_fits(size as int)
                    &&& final(self).unchanged_from(*old(self))
                },
                Err(_) => false,
            },
    {
        if size > ARENA_CAPACITY {
            return Err(VirtqError::AllocationError);
        }
        let aligned = if size % WORD_ALIGN == 0 {
            size
        } else {
            size + (WORD_ALIGN - size % WORD_ALIGN)
        };
        if aligned > ARENA_CAPACITY - self.arena_used {
            return Err(VirtqError::AllocationError);
        }
        let addr = ARENA_BASE + self.arena_used as u64;
        self.arena_used = self.arena_used + aligned;
        Ok(MemDescr { addr, len: size, id: 0, dealloc: true })
    }

    /// Draws a bare identifier, most recently freed first. The split
    /// ring uses these as free descriptor-table slots.
    pub fn pop_id(&mut self) -> (r: Option<MemDescrId>)
        requires
            old(self).wf(),
        ensures
            final(self).wf(),
            final(self).size == old(self).size,
            final(self).arena_used == old(self).arena_used,
            match r {
                Some(id) => {
                    &&& old(self).ids().len() > 0
                    &&& id.0 == old(self).ids().last()
                    &&& final(self).ids() == old(self).ids().drop_last()
                },
                None => {
                    &&& old(self).ids().len() == 0
                    &&& final(self).unchanged_from(*old(self))
                },
            },
    {
        match self.free_ids.pop() {
            Some(id) => {
                proof {
                    assert(self.ids() =~= old(self).ids().drop_last());
                    Self::lemma_wf_after_drop_last(*old(self), *self);
                }
                Some(MemDescrId(id))
            },
            None => None,
        }
    }

    /// Marks `id` free again. Returning an identifier that is out of
    /// range or already free changes nothing, so a return can never
    /// corrupt the pool.
    pub fn ret_id(&mut self, id: MemDescrId) -> (accepted: bool)
        requires
            old(self).wf(),
        ensures
            final(self).wf(),
            final(self).size == old(self).size,
            final(self).arena_used == old(self).arena_used,
            accepted == (1 <= id.0 <= old(self).size && !old(self).ids().contains(id.0)),
            final(self).ids() == if accepted {
                old(self).ids().push(id.0)
            } else {
                old(self).ids()
            },
    {
        if id.0 == 0 || id.0 > self.size {
            return false;
        }
        let mut i: usize = 0;
        let n = self.free_ids.len();
        while i < n
            invariant
                *self == *old(self),
                self.wf(),
                1 <= id.0 <= self.size,
                n == self.free_ids@.len(),
                i <= n,
                forall|j: int| 0 <= j < i ==> #[trigger] self.free_ids@[j] != id.0,
            decreases n - i,
        {
            if self.free_ids[i] == id.0 {
                return false;
            }
            i = i + 1;
        }
        proof {
            assert(!self.free_ids@.contains(id.0));
            assert(self.free_ids@.len() < self.size) by {
                if self.free_ids@.len() == self.size {
                    Self::lemma_full_range_seq_contains(self.free_ids@, self.size as int, id.0);
                }
            }
        }
        self.free_ids.push(id.0);
        proof {
            assert(self.free_ids@ == old(self).free_ids@.push(id.0));
            assert(self.free_ids@.no_duplicates()) by {
                assert forall|a: int, b: int|
                    0 <= a < self.free_ids@.len() && 0 <= b < self.free_ids@.len() && a
                    != b implies self.free_ids@[a] != self.free_ids@[b] by {
                    if a < self.free_ids@.len() - 1 && b < self.free_ids@.len() - 1 {
                        assert(old(self).free_ids@[a] != old(self).free_ids@[b]);
                    } else if a == self.free_ids@.len() - 1 {
                        assert(!old(self).free_ids@.contains(self.free_ids@[a]));
                    } else {
                        assert(!old(self).free_ids@.contains(self.free_ids@[b]));
                    }
                }
            }
        }
        true
    }

    /// Returns a memory descriptor: its identifier becomes free again
    /// (anonymous chunks return nothing). The arena is a bump
    /// allocator, so the storage itself is not reclaimed here.
    pub fn ret_descr(&mut self, desc: &MemDescr)
        requires
            old(self).wf(),
        ensures
            final(self).wf(),
            final(self).size == old(self).size,
            final(self).arena_used == old(self).arena_used,
            final(self).ids() == if 1 <= desc.id <= old(self).size && !old(self).ids().contains(
                desc.id,
            ) {
                old(self).ids().push(desc.id)
            } else {
                old(self).ids()
            },
    {
        self.ret_id(MemDescrId(desc.id));
    }

    /// A distinct sequence over `1..=size` of full length holds every
    /// identifier: pigeonhole over the identifier range.
    proof fn lemma_full_range_seq_contains(s: Seq<u16>, size: int, id: u16)
        requires
            s.no_duplicates(),
            forall|i: int| 0 <= i < s.len() ==> 1 <= #[trigger] s[i] <= size,
            s.len() == size,
            1 <= id <= size,
            size <= u16::MAX,
        ensures
            s.contains(id),
        decreases size,
    {
        if !s.contains(id) {
            let range = Set::new(|x: u16| 1 <= x <= size && x != id);
            let si = Set::new(|i: int| 0 <= i < s.len());
            assert(s.to_set().subset_of(range)) by {
                assert forall|x: u16| s.to_set().contains(x) implies range.contains(x) by {
                    let i = choose|i: int| 0 <= i < s.len() && s[i] == x;
                    assert(1 <= s[i] <= size);
                }
            }
            s.unique_seq_to_set();
            assert(range.subset_of(Set::new(|x: u16| 1 <= x <= size)));
            Self::lemma_range_set_card(size);
            assert(range =~= Set::new(|x: u16| 1 <= x <= size).remove(id as u16));
            assert(range.len() == size - 1) by {
                assert(Set::new(|x: u16| 1 <= x <= size).contains(id));
            }
            vstd::set_lib::lemma_len_subset(s.to_set(), range);
            assert(s.to_set().len() == s.len());
        }
    }

    /// The set `{1..=size}` of identifiers has exactly `size`
    /// elements.
    proof fn lemma_range_set_card(size: int)
        requires
            0 <= size <= u16::MAX,
        ensures
            Set::new(|x: u16| 1 <= x <= size).finite(),
            Set::new(|x: u16| 1 <= x <= size).len() == size,
        decreases size,
    {
        if size == 0 {
            assert(Set::new(|x: u16| 1 <= x <= size) =~= Set::<u16>::empty());
        } else {
            Self::lemma_range_set_card(size - 1);
            assert(Set::new(|x: u16| 1 <= x <= size) =~= Set::new(
                |x: u16| 1 <= x <= size - 1,
            ).insert(size as u16));
            assert(!Set::new(|x: u16| 1 <= x <= size - 1).contains(size as u16));
        }
    }

    /// Descriptor accounting, pool side: a well-formed pool whose free
    /// list is full again holds every identifier `1..=size`, so no
    /// identifier has leaked.
    pub proof fn lemma_full_pool_holds_every_id(self)
        requires
            self.wf(),
            self.ids().len() == self.size,
        ensures
            forall|id: u16| 1 <= id <= self.size ==> self.ids().contains(id),
    {
        assert forall|id: u16| 1 <= id <= self.size implies self.ids().contains(id) by {
            Self::lemma_full_range_seq_contains(self.ids(), self.size as int, id);
        }
    }

    /// Shared body of `pull` and `pull_untracked`.
    fn pull_inner(&mut self, size: usize, dealloc: bool) -> (r: Result<MemDescr, VirtqError>)
        requires
            old(self).wf(),
        ensures
            final(self).wf(),
            final(self).size == old(self).size,
            match r {
                Ok(d) => {
                    &&& old(self).ids().len() > 0
                    &&& old(self).arena_fits(size as int)
                    &&& d.id == old(self).ids().last()
                    &&& d.len == size
                    &&& d.dealloc == dealloc
                    &&& d.addr == ARENA_BASE + old(self).arena_used
                    &&& final(self).ids() == old(self).ids().drop_last()
                    &&& final(self).arena_used == old(self).arena_used
                        + Self::spec_align_up(size as int)
                },
                Err(VirtqError::NoDescrAvail) => {
                    &&& old(self).ids().len() == 0
                    &&& final(self).unchanged_from(*old(self))
                },
                Err(VirtqError::AllocationError) => {
                    &&& old(self).ids().len() > 0
                    &&& !old(self).arena_fits(size as int)
                    &&& final(self).unchanged_from(*old(self))
                },
                Err(_) => false,
            },
    {
        if self.free_ids.len() == 0 {
            return Err(VirtqError::NoDescrAvail);
        }
        if size > ARENA_CAPACITY {
            return Err(VirtqError::AllocationError);
        }
        let aligned = if size % WORD_ALIGN == 0 {
            size
        } else {
            size + (WORD_ALIGN - size % WORD_ALIGN)
        };
        if aligned > ARENA_CAPACITY - self.arena_used {
            return Err(VirtqError::AllocationError);
        }
        let id = self.free_ids.pop().unwrap();
        let addr = ARENA_BASE + self.arena_used as u64;
        self.arena_used = self.arena_used + aligned;
        Ok(MemDescr { addr, len: size, id, dealloc })
    }
}

} // verus!
