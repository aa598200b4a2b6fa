//! The split virtqueue: the classic ring layout with a descriptor
//! table and separate available and used rings.
//!
//! The driver writes chains into free descriptor-table slots and
//! publishes their head indices through the available ring; the
//! device reports retired chains through the used ring, and the
//! driver's poll cursor follows it. Free table slots are the memory
//! pool's identifiers, drawn per dispatch and returned per
//! completion, with slot `s` held by identifier `s + 1`.

use vstd::prelude::*;

use crate::buffer::{seq_sum, BuffSpec, Buffer, BufferToken, TransferState, TransferToken};
use crate::error::VirtqError;
use crate::mempool::{
    lemma_size_bounds, lemma_sum_aligned_mono, seq_sum_aligned, MemDescr, MemDescrId, MemPool,
    ARENA_CAPACITY,
};
use crate::packed::{
    lemma_add_contains, lemma_mod_distinct, popped_ids, spec_ctrl_of,
};
use crate::{
    bit_is_set, feature_is_set, VqIndex, VqSize, F_INDIRECT_DESC, VIRTQ_DESC_F_INDIRECT,
    VIRTQ_DESC_F_NEXT, VIRTQ_DESC_F_WRITE,
};

verus! {

/// Available-ring flag: the driver asks the device not to interrupt.
pub const VIRTQ_AVAIL_F_NO_INTERRUPT: u16 = 1;

/// Used-ring flag: the device asks the driver not to notify.
pub const VIRTQ_USED_F_NO_NOTIFY: u16 = 1;

/// A 16-byte descriptor of the split ring layout.
#[derive(Copy, Clone, Debug, PartialEq, Eq, Structural)]
pub struct SplitDescriptor {
    /// Device-visible address of the buffer.
    pub addr: u64,
    /// Length of the buffer in bytes.
    pub len: u32,
    /// Chain flags: `NEXT`, `WRITE`, `INDIRECT`.
    pub flags: u16,
    /// Table index of the next descriptor of the chain, when `NEXT`
    /// is set.
    pub next: u16,
}

/// One element of the used ring: the head slot of a retired chain and
/// the bytes the device wrote.
#[derive(Copy, Clone, Debug, PartialEq, Eq, Structural)]
pub struct UsedElem {
    /// Head slot index of the retired chain.
    pub id: u32,
    /// Bytes written into the chain's device-writable part.
    pub len: u32,
}

/// The available ring: `flags, idx, ring[size], used_event`.
pub struct AvailRing {
    /// Notification suppression flags of the driver.
    pub flags: u16,
    /// Where the driver publishes the next head index, free-running
    /// over 16 bits.
    pub idx: u16,
    /// The published head slots, indexed by `idx` modulo the size.
    pub ring: Vec<u16>,
    /// Event index for the device, under the event-index feature.
    pub used_event: u16,
}

/// The used ring: `flags, idx, ring[size], avail_event`.
pub struct UsedRing {
    /// Notification suppression flags of the device.
    pub flags: u16,
    /// Where the device writes the next used element, free-running
    /// over 16 bits.
    pub idx: u16,
    /// The retired chains, indexed by `idx` modulo the size.
    pub ring: Vec<UsedElem>,
    /// Event index for the driver, under the event-index feature.
    pub avail_event: u16,
}

/// Bookkeeping the ring keeps for one in-flight transfer, indexed by
/// the chain's head slot.
pub struct SplitInflight {
    /// The in-flight transfer.
    pub tkn: TransferToken,
    /// The pool identifiers of the chain's table slots, head first:
    /// slot `slots[j] - 1` holds the `j`-th chain descriptor.
    pub slots: Vec<u16>,
    /// Whether the device has retired the chain.
    pub reported: bool,
    /// Bytes the device reported written, once retired.
    pub reported_len: u32,
}

/// The raw split ring: descriptor table, the two shared rings, the
/// slot pool and the in-flight tokens.
pub struct DescrRing {
    /// Where the next used element is expected, free-running over 16
    /// bits.
    pub read_idx: u16,
    /// Token references by head slot.
    pub token_ring: Vec<Option<SplitInflight>>,
    /// The pool of table slots and payload memory.
    pub mem_pool: MemPool,
    /// The shared descriptor table.
    pub descr_table: Vec<SplitDescriptor>,
    /// The shared available ring.
    pub avail_ring: AvailRing,
    /// The shared used ring.
    pub used_ring: UsedRing,
    /// Head slots of the retired, not yet polled chains, in used-ring
    /// order.
    pub pending_ids: Ghost<Seq<u16>>,
    /// Total used elements ever written, with `used_ring.idx` its
    /// 16-bit image.
    pub abs_used: Ghost<nat>,
    /// Total used elements ever polled, with `read_idx` its 16-bit
    /// image.
    pub abs_read: Ghost<nat>,
}

impl DescrRing {
    /// Number of descriptors in the table.
    pub open spec fn size(self) -> int {
        self.descr_table@.len() as int
    }

    /// Number of retired chains not yet polled.
    pub open spec fn pending(self) -> int {
        self.abs_used@ - self.abs_read@
    }

    /// The bookkeeping of the chain whose head sits in slot `s`.
    pub open spec fn entry(self, s: int) -> SplitInflight {
        self.token_ring@[s].unwrap()
    }

    /// Well-formedness of the in-flight chain at head slot `s`.
    pub open spec fn entry_wf(self, s: int) -> bool {
        let e = self.entry(s);
        &&& e.slots@.len() >= 1
        &&& e.slots@[0] == s + 1
        &&& e.slots@.no_duplicates()
        &&& forall|x: int| 0 <= x < e.slots@.len() ==> 1 <= #[trigger] e.slots@[x] <= self.size()
        &&& forall|x: int|
            0 <= x < e.slots@.len() ==> !self.mem_pool.ids().contains(#[trigger] e.slots@[x])
        &&& e.slots@.len() == e.tkn.buff_tkn.ring_len()
        &&& e.tkn.buff_tkn.wf()
        &&& e.tkn.state is Processing
        &&& e.reported == self.pending_ids@.contains(s as u16)
        &&& (e.reported ==> match e.tkn.buff_tkn.recv_buff {
            Some(b) => e.reported_len as int <= b.spec_len(),
            None => e.reported_len == 0,
        })
    }

    /// Well-formedness of the whole ring state.
    pub open spec fn wf(self) -> bool {
        let size = self.size();
        &&& 1 <= size <= 32768
        &&& (0x10000 as int) % size == 0
        &&& self.token_ring@.len() == size
        &&& self.avail_ring.ring@.len() == size
        &&& self.used_ring.ring@.len() == size
        &&& self.mem_pool.wf()
        &&& self.mem_pool.size as int == size
        &&& self.abs_read@ <= self.abs_used@
        &&& self.read_idx as int == self.abs_read@ as int % 0x10000
        &&& self.used_ring.idx as int == self.abs_used@ as int % 0x10000
        &&& self.pending_ids@.len() == self.pending()
        &&& self.pending_ids@.len() <= size
        &&& self.pending_ids@.no_duplicates()
        &&& forall|j: int|
            0 <= j < self.pending_ids@.len() ==> #[trigger] self.pending_ids@[j] < size
        &&& forall|j: int|
            0 <= j < self.pending_ids@.len() ==> (#[trigger] self.token_ring@[self.pending_ids@[j] as int])
                is Some
        &&& forall|j: int|
            0 <= j < self.pending_ids@.len() ==> #[trigger] self.used_ring.ring@[(
            self.abs_read@ as int + j) % size] == (UsedElem {
                id: self.pending_ids@[j] as u32,
                len: self.entry(self.pending_ids@[j] as int).reported_len,
            })
        &&& forall|s: int| 0 <= s < size && self.token_ring@[s] is Some ==> self.entry_wf(s)
        &&& forall|s1: int, s2: int|
            0 <= s1 < s2 < size && self.token_ring@[s1] is Some && self.token_ring@[s2]
                is Some ==> slots_disjoint(
                (#[trigger] self.entry(s1)).slots@,
                (#[trigger] self.entry(s2)).slots@,
            )
    }

    /// A fresh ring of `size` slots, all free, with zeroed shared
    /// structures.
    pub fn new(size: u16) -> (r: DescrRing)
        requires
            1 <= size <= 32768,
            0x10000 as int % (size as int) == 0,
        ensures
            r.wf(),
            r.size() == size,
            r.mem_pool.ids().len() == size,
            r.mem_pool.arena_used == 0,
            r.pending() == 0,
            r.read_idx == 0,
            r.used_ring.idx == 0,
            r.avail_ring.idx == 0,
            r.avail_ring.flags == 0,
            r.used_ring.flags == 0,
            forall|s: int| 0 <= s < size ==> (#[trigger] r.token_ring@[s]) is None,
    {
        let mut token_ring: Vec<Option<SplitInflight>> = Vec::new();
        let mut descr_table: Vec<SplitDescriptor> = Vec::new();
        let mut avail_slots: Vec<u16> = Vec::new();
        let mut used_slots: Vec<UsedElem> = Vec::new();
        let mut i: usize = 0;
        while i < size as usize
            invariant
                i <= size,
                token_ring@.len() == i,
                descr_table@.len() == i,
                avail_slots@.len() == i,
                used_slots@.len() == i,
                forall|s: int| 0 <= s < i ==> (#[trigger] token_ring@[s]) is None,
            decreases size - i,
        {
            token_ring.push(None);
            descr_table.push(SplitDescriptor { addr: 0, len: 0, flags: 0, next: 0 });
            avail_slots.push(0);
            used_slots.push(UsedElem { id: 0, len: 0 });
            i = i + 1;
        }
        DescrRing {
            read_idx: 0,
            token_ring,
            mem_pool: MemPool::new(size),
            descr_table,
            avail_ring: AvailRing { flags: 0, idx: 0, ring: avail_slots, used_event: 0 },
            used_ring: UsedRing { flags: 0, idx: 0, ring: used_slots, avail_event: 0 },
            pending_ids: Ghost(Seq::empty()),
            abs_used: Ghost(0),
            abs_read: Ghost(0),
        }
    }

    /// The states agree on everything well-formedness reads: the two
    /// notification flag words play no part in it.
    pub proof fn lemma_wf_congruent(a: DescrRing, b: DescrRing)
        requires
            a.token_ring@ == b.token_ring@,
            a.mem_pool.wf() == b.mem_pool.wf(),
            a.mem_pool.ids() == b.mem_pool.ids(),
            a.mem_pool.size == b.mem_pool.size,
            a.descr_table@ == b.descr_table@,
            a.avail_ring.ring@ == b.avail_ring.ring@,
            a.used_ring.ring@ == b.used_ring.ring@,
            a.used_ring.idx == b.used_ring.idx,
            a.read_idx == b.read_idx,
            a.pending_ids@ == b.pending_ids@,
            a.abs_used@ == b.abs_used@,
            a.abs_read@ == b.abs_read@,
        ensures
            a.wf() == b.wf(),
    {
        if a.wf() {
            Self::lemma_wf_congruent_one(a, b);
        }
        if b.wf() {
            Self::lemma_wf_congruent_one(b, a);
        }
    }

    /// One direction of `lemma_wf_congruent`.
    proof fn lemma_wf_congruent_one(a: DescrRing, b: DescrRing)
        requires
            a.wf(),
            a.token_ring@ == b.token_ring@,
            b.mem_pool.wf(),
            a.mem_pool.ids() == b.mem_pool.ids(),
            a.mem_pool.size == b.mem_pool.size,
            a.descr_table@ == b.descr_table@,
            a.avail_ring.ring@ == b.avail_ring.ring@,
            a.used_ring.ring@ == b.used_ring.ring@,
            a.used_ring.idx == b.used_ring.idx,
            a.read_idx == b.read_idx,
            a.pending_ids@ == b.pending_ids@,
            a.abs_used@ == b.abs_used@,
            a.abs_read@ == b.abs_read@,
        ensures
            b.wf(),
    {
        assert forall|j: int|
            0 <= j < b.pending_ids@.len() implies #[trigger] b.used_ring.ring@[(b.abs_read@ as int
            + j) % b.size()] == (UsedElem {
            id: b.pending_ids@[j] as u32,
            len: b.entry(b.pending_ids@[j] as int).reported_len,
        }) by {
            assert(a.used_ring.ring@[(a.abs_read@ as int + j) % a.size()] == (UsedElem {
                id: a.pending_ids@[j] as u32,
                len: a.entry(a.pending_ids@[j] as int).reported_len,
            }));
        }
        assert forall|j: int|
            0 <= j < b.pending_ids@.len() implies (#[trigger] b.token_ring@[b.pending_ids@[j] as int])
            is Some by {
            assert(a.token_ring@[a.pending_ids@[j] as int] is Some);
        }
        assert forall|s: int|
            0 <= s < b.size() && b.token_ring@[s] is Some implies b.entry_wf(s) by {
            assert(a.entry_wf(s));
        }
        assert forall|s1: int, s2: int|
            0 <= s1 < s2 < b.size() && b.token_ring@[s1] is Some && b.token_ring@[s2]
                is Some implies slots_disjoint(
            (#[trigger] b.entry(s1)).slots@,
            (#[trigger] b.entry(s2)).slots@,
        ) by {
            assert(slots_disjoint(a.entry(s1).slots@, a.entry(s2).slots@));
        }
    }

    /// A distinct sequence of slot indices below `size` of full
    /// length holds every slot: pigeonhole over the table.
    proof fn lemma_full_slot_seq_contains(s: Seq<u16>, size: int, x: u16)
        requires
            s.no_duplicates(),
            forall|i: int| 0 <= i < s.len() ==> #[trigger] s[i] < size,
            s.len() == size,
            0 < size <= u16::MAX,
            x < size,
        ensures
            s.contains(x),
    {
        if !s.contains(x) {
            let range = Set::new(|v: u16| v < size && v != x);
            assert(s.to_set().subset_of(range)) by {
                assert forall|v: u16| s.to_set().contains(v) implies range.contains(v) by {
                    let i = choose|i: int| 0 <= i < s.len() && s[i] == v;
                    assert(s[i] < size);
                }
            }
            s.unique_seq_to_set();
            Self::lemma_slot_range_card(size);
            assert(range =~= Set::new(|v: u16| v < size).remove(x));
            assert(range.len() == size - 1) by {
                assert(Set::new(|v: u16| v < size).contains(x));
            }
            vstd::set_lib::lemma_len_subset(s.to_set(), range);
            assert(s.to_set().len() == s.len());
        }
    }

    /// The set of slot indices below `size` has exactly `size`
    /// elements.
    proof fn lemma_slot_range_card(size: int)
        requires
            0 <= size <= u16::MAX,
        ensures
            Set::new(|v: u16| v < size).finite(),
            Set::new(|v: u16| v < size).len() == size,
        decreases size,
    {
        if size == 0 {
            assert(Set::new(|v: u16| v < size) =~= Set::<u16>::empty());
        } else {
            Self::lemma_slot_range_card(size - 1);
            assert(Set::new(|v: u16| v < size) =~= Set::new(|v: u16| v < size - 1).insert(
                (size - 1) as u16,
            ));
            assert(!Set::new(|v: u16| v < size - 1).contains((size - 1) as u16));
        }
    }

    /// What retiring chain `head_slot` did: a used element for it was
    /// appended and its bookkeeping notes the report. Nothing else
    /// moves.
    pub open spec fn spec_marked_used(
        pre: DescrRing,
        post: DescrRing,
        head_slot: u16,
        written_len: u32,
    ) -> bool {
        let e = pre.token_ring@[head_slot as int].unwrap();
        &&& post.token_ring@ == pre.token_ring@.update(
            head_slot as int,
            Some(SplitInflight { reported: true, reported_len: written_len, ..e }),
        )
        &&& post.used_ring.ring@ == pre.used_ring.ring@.update(
            pre.abs_used@ as int % pre.size(),
            UsedElem { id: head_slot as u32, len: written_len },
        )
        &&& post.used_ring.idx as int == (pre.used_ring.idx + 1) % 0x10000
        &&& post.abs_used@ == pre.abs_used@ + 1
        &&& post.pending_ids@ == pre.pending_ids@.push(head_slot)
        &&& post.used_ring.flags == pre.used_ring.flags
        &&& post.used_ring.avail_event == pre.used_ring.avail_event
        &&& post.read_idx == pre.read_idx
        &&& post.abs_read@ == pre.abs_read@
        &&& post.mem_pool == pre.mem_pool
        &&& post.descr_table@ == pre.descr_table@
        &&& post.avail_ring.flags == pre.avail_ring.flags
        &&& post.avail_ring.idx == pre.avail_ring.idx
        &&& post.avail_ring.ring@ == pre.avail_ring.ring@
        &&& post.avail_ring.used_event == pre.avail_ring.used_event
    }

    /// Whether the device's retirement of the chain at `head_slot`
    /// with `written_len` bytes written is acceptable: the chain is in
    /// flight, not yet retired, and the length fits the receive side.
    pub open spec fn spec_device_accepts(self, head_slot: u16, written_len: u32) -> bool {
        &&& head_slot < self.size()
        &&& self.token_ring@[head_slot as int] is Some
        &&& !self.token_ring@[head_slot as int].unwrap().reported
        &&& match self.token_ring@[head_slot as int].unwrap().tkn.buff_tkn.recv_buff {
            Some(b) => written_len <= b.spec_len(),
            None => written_len == 0,
        }
    }

    /// The device's half of the protocol, modelled in place: retires
    /// the in-flight chain whose head sits in `head_slot`, appending
    /// a used element with how many bytes it wrote. Chains can retire
    /// in any order. Returns whether the chain was there to retire.
    #[verifier::rlimit(100)]
    pub fn device_mark_used(&mut self, head_slot: u16, written_len: u32) -> (r: bool)
        requires
            old(self).wf(),
        ensures
            final(self).wf(),
            r == old(self).spec_device_accepts(head_slot, written_len),
            if r {
                Self::spec_marked_used(*old(self), *final(self), head_slot, written_len)
            } else {
                *final(self) == *old(self)
            },
    {
        let ghost pre = *self;
        let size = self.descr_table.len();
        if head_slot as usize >= size {
            return false;
        }
        match &self.token_ring[head_slot as usize] {
            None => {
                return false;
            },
            Some(e) => {
                if e.reported {
                    return false;
                }
                let len_ok = match &e.tkn.buff_tkn.recv_buff {
                    Some(b) => written_len as usize <= b.len(),
                    None => written_len == 0,
                };
                if !len_ok {
                    return false;
                }
            },
        }
        proof {
            // The window is shorter than the table: were it full, the
            // chain at `head_slot` would already be retired.
            assert(pre.token_ring@[head_slot as int] is Some);
            assert(!pre.token_ring@[head_slot as int].unwrap().reported);
            assert(pre.pending() < size) by {
                if pre.pending() == size {
                    Self::lemma_full_slot_seq_contains(pre.pending_ids@, size as int, head_slot);
                    assert(pre.pending_ids@.contains(head_slot));
                    assert(pre.entry_wf(head_slot as int));
                    assert(pre.token_ring@[head_slot as int].unwrap().reported);
                    assert(false);
                }
            }
        }
        let pos = self.used_ring.idx as usize % size;
        self.used_ring.ring[pos] = UsedElem { id: head_slot as u32, len: written_len };
        self.used_ring.idx = if self.used_ring.idx == 0xFFFF {
            0
        } else {
            self.used_ring.idx + 1
        };
        match &mut self.token_ring[head_slot as usize] {
            Some(e) => {
                e.reported = true;
                e.reported_len = written_len;
            },
            None => (),
        }
        proof {
            self.pending_ids@ = pre.pending_ids@.push(head_slot);
            self.abs_used@ = pre.abs_used@ + 1;
            lemma_wrap_u16(pre.abs_used@);
            assert(pre.used_ring.idx as int % (size as int) == pre.abs_used@ as int % (
            size as int)) by {
                lemma_mod_of_mod(pre.abs_used@ as int, size as int);
            }
            self.lemma_mark_restores_wf(pre, head_slot, written_len);
        }
        true
    }

    /// Appending one used element leaves the ring well-formed.
    #[verifier::rlimit(100)]
    proof fn lemma_mark_restores_wf(self, pre: DescrRing, head_slot: u16, written_len: u32)
        requires
            pre.wf(),
            pre.spec_device_accepts(head_slot, written_len),
            pre.pending() < pre.size(),
            Self::spec_marked_used(pre, self, head_slot, written_len),
        ensures
            self.wf(),
    {
        let size = pre.size();
        let e = pre.token_ring@[head_slot as int].unwrap();
        assert(pre.entry_wf(head_slot as int));
        assert(!pre.pending_ids@.contains(head_slot));
        // Distinctness of the grown window.
        assert(self.pending_ids@.no_duplicates()) by {
            assert forall|a: int, b: int|
                0 <= a < self.pending_ids@.len() && 0 <= b < self.pending_ids@.len() && a
                != b implies self.pending_ids@[a] != self.pending_ids@[b] by {
                let m = pre.pending_ids@.len() as int;
                if a < m && b < m {
                    assert(pre.pending_ids@[a] != pre.pending_ids@[b]);
                } else if a == m {
                    if self.pending_ids@[a] == self.pending_ids@[b] {
                        assert(pre.pending_ids@.contains(head_slot)) by {
                            assert(pre.pending_ids@[b] == head_slot);
                        }
                    }
                } else if b == m {
                    if self.pending_ids@[a] == self.pending_ids@[b] {
                        assert(pre.pending_ids@.contains(head_slot)) by {
                            assert(pre.pending_ids@[a] == head_slot);
                        }
                    }
                }
            }
        }
        // The window entries: the old ones sit where they were, the
        // new one at the old write position.
        assert forall|j: int|
            0 <= j < self.pending_ids@.len() implies #[trigger] self.used_ring.ring@[(
        self.abs_read@ as int + j) % size] == (UsedElem {
            id: self.pending_ids@[j] as u32,
            len: self.entry(self.pending_ids@[j] as int).reported_len,
        }) && (#[trigger] self.token_ring@[self.pending_ids@[j] as int]) is Some by {
            let m = pre.pending_ids@.len() as int;
            if j < m {
                assert(pre.used_ring.ring@[(pre.abs_read@ as int + j) % size] == (UsedElem {
                    id: pre.pending_ids@[j] as u32,
                    len: pre.entry(pre.pending_ids@[j] as int).reported_len,
                }));
                assert(pre.token_ring@[pre.pending_ids@[j] as int] is Some);
                assert(pre.pending_ids@[j] != head_slot);
                assert(self.entry(pre.pending_ids@[j] as int) == pre.entry(
                    pre.pending_ids@[j] as int,
                ));
                lemma_mod_distinct(
                    pre.abs_read@ as int + j,
                    pre.abs_read@ as int + m,
                    size,
                );
                assert((pre.abs_used@ as int) % size == (pre.abs_read@ as int + m) % size);
            } else {
                assert(self.pending_ids@[j] == head_slot);
                assert((pre.abs_used@ as int) % size == (pre.abs_read@ as int + m) % size);
            }
        }
        // Entries keep their well-formedness; only the marked one's
        // report fields changed.
        assert forall|s: int|
            0 <= s < size && self.token_ring@[s] is Some implies self.entry_wf(s) by {
            assert(pre.entry_wf(s));
            if s == head_slot {
                assert(self.entry(s) == SplitInflight {
                    reported: true,
                    reported_len: written_len,
                    ..e
                });
                assert(self.pending_ids@[pre.pending_ids@.len() as int] == head_slot);
                assert(self.pending_ids@.contains(head_slot));
            } else {
                assert(self.entry(s) == pre.entry(s));
                assert(self.pending_ids@.contains(s as u16) == pre.pending_ids@.contains(
                    s as u16,
                )) by {
                    if pre.pending_ids@.contains(s as u16) {
                        let w = choose|w: int|
                            0 <= w < pre.pending_ids@.len() && pre.pending_ids@[w] == s as u16;
                        assert(self.pending_ids@[w] == s as u16);
                    }
                    if self.pending_ids@.contains(s as u16) {
                        let w = choose|w: int|
                            0 <= w < self.pending_ids@.len() && self.pending_ids@[w] == s as u16;
                        assert(w < pre.pending_ids@.len());
                        assert(pre.pending_ids@[w] == s as u16);
                    }
                }
            }
        }
        assert forall|s1: int, s2: int|
            0 <= s1 < s2 < size && self.token_ring@[s1] is Some && self.token_ring@[s2]
                is Some implies slots_disjoint(
            (#[trigger] self.entry(s1)).slots@,
            (#[trigger] self.entry(s2)).slots@,
        ) by {
            assert(slots_disjoint(pre.entry(s1).slots@, pre.entry(s2).slots@));
            assert(self.entry(s1).slots@ == pre.entry(s1).slots@);
            assert(self.entry(s2).slots@ == pre.entry(s2).slots@);
        }
    }

    /// The buffer token a retired transfer hands back: the receive
    /// side's logical length is truncated to what the device wrote.
    pub open spec fn split_completed(e: SplitInflight) -> BufferToken {
        e.tkn.buff_tkn.spec_with_recv_len(e.reported_len as usize)
    }

    /// The buffer tokens one poll delivers, in used-ring order from
    /// window position `j`: completions of transfers that await
    /// delivery.
    pub open spec fn delivered_from(self, j: int) -> Seq<BufferToken>
        decreases self.pending() - j,
        when 0 <= j <= self.pending() && self.pending() == self.pending_ids@.len()
    {
        if j >= self.pending() {
            Seq::empty()
        } else {
            let e = self.entry(self.pending_ids@[j] as int);
            (if e.tkn.await_queue {
                seq![Self::split_completed(e)]
            } else {
                Seq::empty()
            }) + self.delivered_from(j + 1)
        }
    }

    /// The buffer tokens one poll only marks finished, in used-ring
    /// order from window position `j`.
    pub open spec fn finished_from(self, j: int) -> Seq<BufferToken>
        decreases self.pending() - j,
        when 0 <= j <= self.pending() && self.pending() == self.pending_ids@.len()
    {
        if j >= self.pending() {
            Seq::empty()
        } else {
            let e = self.entry(self.pending_ids@[j] as int);
            (if !e.tkn.await_queue {
                seq![Self::split_completed(e)]
            } else {
                Seq::empty()
            }) + self.finished_from(j + 1)
        }
    }

    /// The table slots one poll returns to the pool, in used-ring
    /// order from window position `j`: every retired chain's slots.
    pub open spec fn returned_ids_from(self, j: int) -> Seq<u16>
        decreases self.pending() - j,
        when 0 <= j <= self.pending() && self.pending() == self.pending_ids@.len()
    {
        if j >= self.pending() {
            Seq::empty()
        } else {
            self.entry(self.pending_ids@[j] as int).slots@ + self.returned_ids_from(j + 1)
        }
    }

    /// Removing the oldest window entry leaves the ring well-formed.
    #[verifier::rlimit(100)]
    proof fn lemma_poll_step_restores_wf(it: DescrRing, post: DescrRing)
        requires
            it.wf(),
            it.pending() > 0,
            post.token_ring@ == it.token_ring@.update(it.pending_ids@[0] as int, None),
            post.mem_pool.wf(),
            post.mem_pool.size == it.mem_pool.size,
            post.mem_pool.arena_used == it.mem_pool.arena_used,
            post.mem_pool.ids() == it.mem_pool.ids() + it.entry(it.pending_ids@[0] as int).slots@,
            post.pending_ids@ == it.pending_ids@.skip(1),
            post.abs_read@ == it.abs_read@ + 1,
            post.abs_used@ == it.abs_used@,
            post.read_idx as int == (it.abs_read@ + 1) as int % 0x10000,
            post.used_ring == it.used_ring,
            post.avail_ring.flags == it.avail_ring.flags,
            post.avail_ring.idx == it.avail_ring.idx,
            post.avail_ring.ring@ == it.avail_ring.ring@,
            post.avail_ring.used_event == it.avail_ring.used_event,
            post.descr_table@ == it.descr_table@,
        ensures
            post.wf(),
    {
        let size = it.size();
        let id0 = it.pending_ids@[0];
        let held0 = it.entry(id0 as int).slots@;
        assert(it.token_ring@[id0 as int] is Some);
        assert(it.entry_wf(id0 as int));
        assert(post.pending_ids@.no_duplicates()) by {
            assert forall|a: int, b: int|
                0 <= a < post.pending_ids@.len() && 0 <= b < post.pending_ids@.len() && a
                != b implies post.pending_ids@[a] != post.pending_ids@[b] by {
                assert(it.pending_ids@[a + 1] != it.pending_ids@[b + 1]);
            }
        }
        assert forall|j: int|
            0 <= j < post.pending_ids@.len() implies #[trigger] post.used_ring.ring@[(
        post.abs_read@ as int + j) % size] == (UsedElem {
            id: post.pending_ids@[j] as u32,
            len: post.entry(post.pending_ids@[j] as int).reported_len,
        }) && (#[trigger] post.token_ring@[post.pending_ids@[j] as int]) is Some
            && post.pending_ids@[j] < size by {
            assert(post.pending_ids@[j] == it.pending_ids@[j + 1]);
            assert(it.used_ring.ring@[(it.abs_read@ as int + (j + 1)) % size] == (UsedElem {
                id: it.pending_ids@[j + 1] as u32,
                len: it.entry(it.pending_ids@[j + 1] as int).reported_len,
            }));
            assert(it.token_ring@[it.pending_ids@[j + 1] as int] is Some);
            assert(it.pending_ids@[j + 1] != id0);
            assert(post.entry(it.pending_ids@[j + 1] as int) == it.entry(
                it.pending_ids@[j + 1] as int,
            ));
        }
        assert forall|s: int|
            0 <= s < size && post.token_ring@[s] is Some implies post.entry_wf(s) by {
            assert(s != id0);
            assert(it.entry_wf(s));
            assert(post.entry(s) == it.entry(s));
            let h = post.entry(s).slots@;
            assert forall|x: int| 0 <= x < h.len() implies !post.mem_pool.ids().contains(
                #[trigger] h[x],
            ) by {
                assert(!it.mem_pool.ids().contains(h[x]));
                assert(h.contains(h[x]));
                assert(!held0.contains(h[x])) by {
                    if s < id0 {
                        assert(slots_disjoint(it.entry(s).slots@, it.entry(id0 as int).slots@));
                    } else {
                        assert(slots_disjoint(it.entry(id0 as int).slots@, it.entry(s).slots@));
                        if held0.contains(h[x]) {
                            assert(!it.entry(s).slots@.contains(h[x]));
                        }
                    }
                }
                lemma_add_contains(it.mem_pool.ids(), held0, h[x]);
            }
            assert(post.pending_ids@.contains(s as u16) == it.pending_ids@.contains(s as u16))
                by {
                if it.pending_ids@.contains(s as u16) {
                    let w = choose|w: int|
                        0 <= w < it.pending_ids@.len() && it.pending_ids@[w] == s as u16;
                    assert(w != 0);
                    assert(post.pending_ids@[w - 1] == s as u16);
                }
                if post.pending_ids@.contains(s as u16) {
                    let w = choose|w: int|
                        0 <= w < post.pending_ids@.len() && post.pending_ids@[w] == s as u16;
                    assert(it.pending_ids@[w + 1] == s as u16);
                }
            }
        }
        assert forall|s1: int, s2: int|
            0 <= s1 < s2 < size && post.token_ring@[s1] is Some && post.token_ring@[s2]
                is Some implies slots_disjoint(
            (#[trigger] post.entry(s1)).slots@,
            (#[trigger] post.entry(s2)).slots@,
        ) by {
            assert(slots_disjoint(it.entry(s1).slots@, it.entry(s2).slots@));
            assert(post.entry(s1) == it.entry(s1));
            assert(post.entry(s2) == it.entry(s2));
        }
    }

    /// Drains the used ring up to the device's write position: for
    /// every retired chain, in used-ring order, returns its table
    /// slots to the pool, unpins the token and hands the buffer token
    /// on — into the returned vector when the transfer awaits
    /// delivery, onto `finished` when it does not. Afterwards the read
    /// cursor has caught up with the device.
    #[verifier::loop_isolation(false)]
    #[verifier::rlimit(100)]
    pub fn poll(&mut self, finished: &mut Vec<BufferToken>) -> (r: Vec<BufferToken>)
        requires
            old(self).wf(),
        ensures
            final(self).wf(),
            final(self).pending() == 0,
            final(self).read_idx == final(self).used_ring.idx,
            final(self).mem_pool.size == old(self).mem_pool.size,
            final(self).mem_pool.arena_used == old(self).mem_pool.arena_used,
            final(self).mem_pool.ids() == old(self).mem_pool.ids() + old(
                self,
            ).returned_ids_from(0),
            r@ == old(self).delivered_from(0),
            final(finished)@ == old(finished)@ + old(self).finished_from(0),
            final(self).descr_table@ == old(self).descr_table@,
            final(self).avail_ring.flags == old(self).avail_ring.flags,
            final(self).avail_ring.idx == old(self).avail_ring.idx,
            final(self).avail_ring.ring@ == old(self).avail_ring.ring@,
            final(self).used_ring == old(self).used_ring,
            final(self).abs_used@ == old(self).abs_used@,
            forall|s: int|
                0 <= s < old(self).size() ==> #[trigger] final(self).token_ring@[s] == (if old(
                    self,
                ).pending_ids@.contains(s as u16) {
                    None
                } else {
                    old(self).token_ring@[s]
                }),
    {
        let ghost pre = *self;
        let mut out: Vec<BufferToken> = Vec::new();
        let ghost mut j: int = 0;
        let size = self.descr_table.len();
        proof {
            assert(pre.pending_ids@.skip(0) =~= pre.pending_ids@);
            assert(out@ + pre.delivered_from(0) =~= pre.delivered_from(0));
            assert(finished@ + pre.finished_from(0) =~= old(finished)@ + pre.finished_from(0));
            assert(self.mem_pool.ids() + pre.returned_ids_from(0) =~= old(self).mem_pool.ids()
                + pre.returned_ids_from(0));
        }
        while self.read_idx != self.used_ring.idx
            invariant
                self.wf(),
                0 <= j <= pre.pending(),
                pre.pending() == pre.pending_ids@.len(),
                self.pending_ids@ == pre.pending_ids@.skip(j),
                self.abs_read@ == pre.abs_read@ + j,
                self.abs_used@ == pre.abs_used@,
                self.used_ring == pre.used_ring,
                self.descr_table@ == pre.descr_table@,
                self.avail_ring.flags == pre.avail_ring.flags,
                self.avail_ring.idx == pre.avail_ring.idx,
                self.avail_ring.ring@ == pre.avail_ring.ring@,
                self.avail_ring.used_event == pre.avail_ring.used_event,
                self.mem_pool.size == pre.mem_pool.size,
                self.mem_pool.arena_used == pre.mem_pool.arena_used,
                forall|s: int|
                    0 <= s < size ==> #[trigger] self.token_ring@[s] == (if pre.pending_ids@.take(
                        j,
                    ).contains(s as u16) {
                        None
                    } else {
                        pre.token_ring@[s]
                    }),
                pre.delivered_from(0) == out@ + pre.delivered_from(j),
                old(finished)@ + pre.finished_from(0) == finished@ + pre.finished_from(j),
                old(self).mem_pool.ids() + pre.returned_ids_from(0) == self.mem_pool.ids()
                    + pre.returned_ids_from(j),
            decreases self.pending(),
        {
            proof {
                if self.pending() == 0 {
                    assert(self.read_idx == self.used_ring.idx);
                    assert(false);
                }
                assert(j < pre.pending());
            }
            let ghost it = *self;
            let pos = self.read_idx as usize % size;
            proof {
                lemma_mod_of_mod(it.abs_read@ as int, size as int);
                assert(pos as int == it.abs_read@ as int % size as int);
                assert(it.used_ring.ring@[(it.abs_read@ as int + 0) % size as int] == (UsedElem {
                    id: it.pending_ids@[0] as u32,
                    len: it.entry(it.pending_ids@[0] as int).reported_len,
                }));
            }
            let elem = self.used_ring.ring[pos];
            let id = elem.id as usize;
            proof {
                assert(id == it.pending_ids@[0]);
                assert(id < size);
                assert(it.token_ring@[id as int] is Some);
                assert(it.entry_wf(id as int));
            }
            let entry_opt = self.token_ring[id].take();
            let entry = entry_opt.unwrap();
            proof {
                assert(entry == it.entry(id as int));
            }
            ret_slots(&mut self.mem_pool, &entry.slots);
            self.read_idx = if self.read_idx == 0xFFFF {
                0
            } else {
                self.read_idx + 1
            };
            proof {
                self.pending_ids@ = it.pending_ids@.skip(1);
                self.abs_read@ = it.abs_read@ + 1;
                lemma_wrap_u16(it.abs_read@);
                Self::lemma_poll_step_restores_wf(it, *self);
            }
            let awaited = entry.tkn.await_queue;
            let rl = entry.reported_len;
            let mut bt = entry.tkn.buff_tkn;
            bt.restr_size(rl as usize);
            proof {
                assert(bt == Self::split_completed(it.entry(id as int)));
            }
            if awaited {
                out.push(bt);
            } else {
                finished.push(bt);
            }
            proof {
                assert(pre.pending_ids@[j] == it.pending_ids@[0]);
                assert(pre.entry(pre.pending_ids@[j] as int) == it.entry(id as int)) by {
                    assert(!pre.pending_ids@.take(j).contains(pre.pending_ids@[j])) by {
                        if pre.pending_ids@.take(j).contains(pre.pending_ids@[j]) {
                            let w = choose|w: int|
                                0 <= w < j && pre.pending_ids@.take(j)[w] == pre.pending_ids@[j];
                            assert(pre.pending_ids@[w] == pre.pending_ids@[j]);
                        }
                    }
                }
                assert(pre.delivered_from(j) == (if it.entry(id as int).tkn.await_queue {
                    seq![Self::split_completed(it.entry(id as int))]
                } else {
                    Seq::empty()
                }) + pre.delivered_from(j + 1));
                assert(pre.finished_from(j) == (if !it.entry(id as int).tkn.await_queue {
                    seq![Self::split_completed(it.entry(id as int))]
                } else {
                    Seq::empty()
                }) + pre.finished_from(j + 1));
                assert(pre.returned_ids_from(j) == it.entry(id as int).slots@
                    + pre.returned_ids_from(j + 1));
                assert(pre.delivered_from(0) =~= out@ + pre.delivered_from(j + 1));
                assert(old(finished)@ + pre.finished_from(0) =~= finished@ + pre.finished_from(
                    j + 1,
                ));
                assert(old(self).mem_pool.ids() + pre.returned_ids_from(0) =~= self.mem_pool.ids()
                    + pre.returned_ids_from(j + 1));
                assert forall|s: int|
                    0 <= s < size implies #[trigger] self.token_ring@[s] == (
                if pre.pending_ids@.take(j + 1).contains(s as u16) {
                    None
                } else {
                    pre.token_ring@[s]
                }) by {
                    let s0 = pre.pending_ids@.take(j);
                    let s1 = pre.pending_ids@.take(j + 1);
                    if s as u16 == pre.pending_ids@[j] {
                        assert(s1[j] == pre.pending_ids@[j]);
                        assert(s1.contains(s as u16));
                    } else {
                        if s0.contains(s as u16) {
                            let w = choose|w: int| 0 <= w < s0.len() && s0[w] == s as u16;
                            assert(s1[w] == s as u16);
                        }
                        if s1.contains(s as u16) {
                            let w = choose|w: int| 0 <= w < s1.len() && s1[w] == s as u16;
                            assert(w < j);
                            assert(s0[w] == s as u16);
                        }
                    }
                }
                assert(self.pending_ids@ =~= pre.pending_ids@.skip(j + 1));
                j = j + 1;
            }
        }
        proof {
            assert(self.pending() == 0);
            assert(j == pre.pending());
            assert(out@ =~= pre.delivered_from(0));
            assert(finished@ =~= old(finished)@ + pre.finished_from(0));
            assert(self.mem_pool.ids() =~= old(self).mem_pool.ids() + pre.returned_ids_from(0));
            assert forall|s: int|
                0 <= s < size implies #[trigger] self.token_ring@[s] == (if pre.pending_ids@.contains(
                s as u16,
            ) {
                None
            } else {
                pre.token_ring@[s]
            }) by {
                assert(pre.pending_ids@.take(j) =~= pre.pending_ids@);
            }
        }
        out
    }

    /// Clears `NO_INTERRUPT` in the available ring's flags: the
    /// device may interrupt on completions.
    pub fn drv_enable_notif(&mut self)
        ensures
            final(self).avail_ring.flags == 0,
            spec_same_but_avail_flags(*final(self), *old(self)),
            final(self).wf() == old(self).wf(),
    {
        self.avail_ring.flags = 0;
        proof {
            Self::lemma_wf_congruent(*old(self), *self);
        }
    }

    /// Sets `NO_INTERRUPT` in the available ring's flags: the device
    /// should not interrupt on completions.
    pub fn drv_disable_notif(&mut self)
        ensures
            final(self).avail_ring.flags == VIRTQ_AVAIL_F_NO_INTERRUPT,
            spec_same_but_avail_flags(*final(self), *old(self)),
            final(self).wf() == old(self).wf(),
    {
        self.avail_ring.flags = VIRTQ_AVAIL_F_NO_INTERRUPT;
        proof {
            Self::lemma_wf_congruent(*old(self), *self);
        }
    }

    /// Whether the device asks to be notified of new available
    /// descriptors: `NO_NOTIFY` is clear in the used ring's flags.
    pub fn dev_is_notif(&self) -> (r: bool)
        ensures
            r == (self.used_ring.flags % 2 == 0),
    {
        self.used_ring.flags % 2 == 0
    }

    /// The device's half of notification control, modelled in place:
    /// writes the used ring's flags.
    pub fn device_set_notif(&mut self, enable: bool)
        ensures
            final(self).used_ring.flags == if enable {
                0int
            } else {
                VIRTQ_USED_F_NO_NOTIFY as int
            },
            spec_same_but_used_flags(*final(self), *old(self)),
            final(self).wf() == old(self).wf(),
    {
        self.used_ring.flags = if enable {
            0
        } else {
            VIRTQ_USED_F_NO_NOTIFY
        };
        proof {
            Self::lemma_wf_congruent(*old(self), *self);
        }
    }
}

/// The `j`-th table descriptor of a published split chain: payload
/// address and length, `WRITE` on the device-writable tail, `NEXT`
/// and the next slot on all but the last, and a single `INDIRECT`
/// descriptor for an indirect token.
pub open spec fn spec_split_desc(bt: BufferToken, j: int, slots: Seq<u16>) -> SplitDescriptor {
    if bt.is_indirect() {
        SplitDescriptor {
            addr: spec_ctrl_of(bt).addr,
            len: spec_ctrl_of(bt).len as u32,
            flags: VIRTQ_DESC_F_INDIRECT,
            next: 0,
        }
    } else {
        let m = crate::packed::spec_chain_mem(bt, j);
        SplitDescriptor {
            addr: m.addr,
            len: m.len as u32,
            flags: (((if j < bt.send_descs().len() {
                0
            } else {
                VIRTQ_DESC_F_WRITE as int
            }) + (if j < bt.ring_len() - 1 {
                VIRTQ_DESC_F_NEXT as int
            } else {
                0
            })) as u16),
            next: if j < bt.ring_len() - 1 {
                (slots[j + 1] - 1) as u16
            } else {
                0
            },
        }
    }
}

/// Chain ordering on the split wire: within one published chain,
/// whatever slots carry it, every descriptor carrying `WRITE` comes
/// after every descriptor not carrying it.
pub proof fn lemma_split_chain_write_ordering(bt: BufferToken, slots: Seq<u16>, i: int, j: int)
    requires
        !bt.is_indirect(),
        0 <= i <= j < bt.ring_len(),
        bit_is_set(spec_split_desc(bt, i, slots).flags, VIRTQ_DESC_F_WRITE),
    ensures
        bit_is_set(spec_split_desc(bt, j, slots).flags, VIRTQ_DESC_F_WRITE),
{
    assert(i >= bt.send_descs().len());
}

impl DescrRing {
    /// What a successful `push` did: `k` slots were drawn from the
    /// pool, the chain stands in their table entries linked back to
    /// front, the token is pinned under the head slot, and the head
    /// was published through the available ring, whose index moved by
    /// exactly one.
    pub open spec fn spec_pushed(
        pre: DescrRing,
        post: DescrRing,
        tkn: TransferToken,
        next_idx: u16,
    ) -> bool {
        let k = tkn.buff_tkn.ring_len();
        let size = pre.size();
        let drawn = popped_ids(pre.mem_pool.ids(), k);
        let head_slot = drawn[k - 1] - 1;
        let e = post.token_ring@[head_slot as int].unwrap();
        &&& k <= pre.mem_pool.ids().len()
        &&& post.mem_pool.ids() == pre.mem_pool.ids().take(pre.mem_pool.ids().len() - k)
        &&& post.mem_pool.arena_used == pre.mem_pool.arena_used
        &&& post.mem_pool.size == pre.mem_pool.size
        &&& post.descr_table@.len() == size
        &&& 0 <= head_slot < size
        &&& post.token_ring@ == pre.token_ring@.update(head_slot as int, post.token_ring@[head_slot as int])
        &&& post.token_ring@[head_slot as int] is Some
        &&& e.tkn.buff_tkn == tkn.buff_tkn
        &&& e.tkn.await_queue == tkn.await_queue
        &&& e.tkn.state is Processing
        &&& !e.reported
        &&& e.slots@.len() == k
        &&& forall|j: int| 0 <= j < k ==> #[trigger] e.slots@[j] == drawn[k - 1 - j]
        &&& forall|j: int|
            0 <= j < k ==> #[trigger] post.descr_table@[e.slots@[j] - 1] == spec_split_desc(
                tkn.buff_tkn,
                j,
                e.slots@,
            )
        &&& forall|s: int|
            0 <= s < size && !e.slots@.contains((s + 1) as u16) ==> #[trigger] post.descr_table@[s]
                == pre.descr_table@[s]
        &&& post.avail_ring.idx as int == (pre.avail_ring.idx + 1) % 0x10000
        &&& next_idx == post.avail_ring.idx
        &&& post.avail_ring.ring@ == pre.avail_ring.ring@.update(
            pre.avail_ring.idx as int % size,
            head_slot as u16,
        )
        &&& post.avail_ring.flags == pre.avail_ring.flags
        &&& post.avail_ring.used_event == pre.avail_ring.used_event
        &&& post.used_ring == pre.used_ring
        &&& post.read_idx == pre.read_idx
        &&& post.pending_ids@ == pre.pending_ids@
        &&& post.abs_used@ == pre.abs_used@
        &&& post.abs_read@ == pre.abs_read@
    }

    /// Publishes a token's chain: draws one free table slot per chain
    /// descriptor, writes the chain back to front so that its head
    /// could be published last, pins the token under the head slot
    /// and announces it through the available ring. Fails with
    /// `NoDescrAvail`, changing nothing, when the pool lacks the
    /// slots.
    #[verifier::loop_isolation(false)]
    #[verifier::rlimit(100)]
    pub fn push(&mut self, tkn: TransferToken) -> (r: Result<u16, VirtqError>)
        requires
            old(self).wf(),
            tkn.buff_tkn.wf(),
            tkn.state is Ready,
        ensures
            final(self).wf(),
            match r {
                Ok(next_idx) => Self::spec_pushed(*old(self), *final(self), tkn, next_idx),
                Err(VirtqError::NoDescrAvail) => {
                    &&& tkn.buff_tkn.ring_len() > old(self).mem_pool.ids().len()
                    &&& *final(self) == *old(self)
                },
                Err(_) => false,
            },
    {
        let ghost pre = *self;
        let size = self.descr_table.len();
        let bt = &tkn.buff_tkn;
        let s: usize = match &bt.send_buff {
            Some(b) => b.as_slice().len(),
            None => 0,
        };
        let rc: usize = match &bt.recv_buff {
            Some(b) => b.as_slice().len(),
            None => 0,
        };
        let indirect: bool = match &bt.send_buff {
            Some(b) => b.get_ctrl_desc().is_some(),
            None => match &bt.recv_buff {
                Some(b) => b.get_ctrl_desc().is_some(),
                None => false,
            },
        };
        proof {
            assert(indirect == bt.is_indirect());
        }
        let free = self.mem_pool.free_count();
        let k: usize;
        if indirect {
            if free < 1 {
                return Err(VirtqError::NoDescrAvail);
            }
            k = 1;
        } else {
            if s > free {
                return Err(VirtqError::NoDescrAvail);
            }
            if rc > free - s {
                return Err(VirtqError::NoDescrAvail);
            }
            k = s + rc;
        }
        proof {
            assert(k == bt.ring_len());
            assert(1 <= k <= pre.mem_pool.ids().len());
        }
        // Draw the slots, tail first, so the head comes out last.
        let ghost ids0 = pre.mem_pool.ids();
        let mut drawn: Vec<u16> = Vec::new();
        let mut i: usize = 0;
        while i < k
            invariant
                i <= k,
                drawn@.len() == i,
                self.mem_pool.wf(),
                self.mem_pool.size == pre.mem_pool.size,
                self.mem_pool.arena_used == pre.mem_pool.arena_used,
                self.mem_pool.ids() =~= ids0.take(ids0.len() - i),
                forall|j: int| 0 <= j < i ==> #[trigger] drawn@[j] == ids0[ids0.len() - 1 - j],
                self.token_ring@ == pre.token_ring@,
                self.descr_table@ == pre.descr_table@,
                self.avail_ring.flags == pre.avail_ring.flags,
                self.avail_ring.idx == pre.avail_ring.idx,
                self.avail_ring.ring@ == pre.avail_ring.ring@,
                self.avail_ring.used_event == pre.avail_ring.used_event,
                self.used_ring == pre.used_ring,
                self.read_idx == pre.read_idx,
                self.pending_ids@ == pre.pending_ids@,
                self.abs_used@ == pre.abs_used@,
                self.abs_read@ == pre.abs_read@,
            decreases k - i,
        {
            let id = match self.mem_pool.pop_id() {
                Some(d) => d,
                None => {
                    proof {
                        assert(false);
                    }
                    return Err(VirtqError::NoDescrAvail);
                },
            };
            drawn.push(id.0);
            proof {
                assert(self.mem_pool.ids() =~= ids0.take(ids0.len() - (i + 1)));
            }
            i = i + 1;
        }
        proof {
            assert(drawn@ =~= popped_ids(ids0, k as int));
            assert forall|j: int| 0 <= j < k implies 1 <= #[trigger] drawn@[j]
                <= size by {
                assert(drawn@[j] == ids0[ids0.len() - 1 - j]);
            }
            assert(drawn@.no_duplicates()) by {
                assert forall|a: int, b: int|
                    0 <= a < k && 0 <= b < k && a != b implies drawn@[a] != drawn@[b] by {
                    assert(drawn@[a] == ids0[ids0.len() - 1 - a]);
                    assert(drawn@[b] == ids0[ids0.len() - 1 - b]);
                }
            }
        }
        // The chain-order slot list: head first.
        let mut slots: Vec<u16> = Vec::new();
        let mut j: usize = 0;
        while j < k
            invariant
                j <= k,
                k == drawn@.len(),
                slots@.len() == j,
                forall|x: int| 0 <= x < j ==> #[trigger] slots@[x] == drawn@[k - 1 - x],
            decreases k - j,
        {
            slots.push(drawn[k - 1 - j]);
            j = j + 1;
        }
        let head_slot = slots[0] - 1;
        // Write the chain into the drawn table slots.
        let ghost table0 = pre.descr_table@;
        let mut w: usize = 0;
        while w < k
            invariant
                w <= k,
                k == slots@.len(),
                self.descr_table@.len() == size,
                forall|x: int|
                    0 <= x < w ==> #[trigger] self.descr_table@[slots@[x] - 1] == spec_split_desc(
                        tkn.buff_tkn,
                        x,
                        slots@,
                    ),
                forall|p: int|
                    0 <= p < size && !slots@.contains((p + 1) as u16)
                        ==> #[trigger] self.descr_table@[p] == table0[p],
                self.token_ring@ == pre.token_ring@,
                self.mem_pool.wf(),
                self.mem_pool.size == pre.mem_pool.size,
                self.mem_pool.arena_used == pre.mem_pool.arena_used,
                self.mem_pool.ids() =~= ids0.take(ids0.len() - k),
                self.avail_ring.flags == pre.avail_ring.flags,
                self.avail_ring.idx == pre.avail_ring.idx,
                self.avail_ring.ring@ == pre.avail_ring.ring@,
                self.avail_ring.used_event == pre.avail_ring.used_event,
                self.used_ring == pre.used_ring,
                self.read_idx == pre.read_idx,
                self.pending_ids@ == pre.pending_ids@,
                self.abs_used@ == pre.abs_used@,
                self.abs_read@ == pre.abs_read@,
            decreases k - w,
        {
            let slot = slots[w] as usize - 1;
            let d: SplitDescriptor;
            if indirect {
                let ctrl: &MemDescr = match &bt.send_buff {
                    Some(b) => b.get_ctrl_desc().unwrap(),
                    None => bt.recv_buff.as_ref().unwrap().get_ctrl_desc().unwrap(),
                };
                proof {
                    assert(*ctrl == spec_ctrl_of(*bt));
                }
                d = SplitDescriptor {
                    addr: ctrl.addr,
                    len: ctrl.len as u32,
                    flags: VIRTQ_DESC_F_INDIRECT,
                    next: 0,
                };
            } else {
                let mem: &MemDescr = if w < s {
                    &bt.send_buff.as_ref().unwrap().as_slice()[w]
                } else {
                    &bt.recv_buff.as_ref().unwrap().as_slice()[w - s]
                };
                let mut flags: u16 = if w < s {
                    0
                } else {
                    VIRTQ_DESC_F_WRITE
                };
                let mut next: u16 = 0;
                if w + 1 < k {
                    flags = flags + VIRTQ_DESC_F_NEXT;
                    next = slots[w + 1] - 1;
                }
                d = SplitDescriptor { addr: mem.addr, len: mem.len as u32, flags, next };
            }
            self.descr_table[slot] = d;
            proof {
                assert(self.descr_table@[slots@[w as int] - 1] == spec_split_desc(
                    tkn.buff_tkn,
                    w as int,
                    slots@,
                ));
                assert forall|x: int|
                    0 <= x < w + 1 implies #[trigger] self.descr_table@[slots@[x] - 1]
                    == spec_split_desc(tkn.buff_tkn, x, slots@) by {
                    if x < w {
                        assert(drawn@[k - 1 - x] != drawn@[k - 1 - w]);
                    }
                }
            }
            w = w + 1;
        }
        // Pin the token under the head slot and publish it.
        self.token_ring[head_slot as usize] = Some(
            SplitInflight {
                tkn: TransferToken {
                    state: TransferState::Processing,
                    buff_tkn: tkn.buff_tkn,
                    await_queue: tkn.await_queue,
                },
                slots,
                reported: false,
                reported_len: 0,
            },
        );
        let pos = self.avail_ring.idx as usize % size;
        self.avail_ring.ring[pos] = head_slot;
        let next_idx: u16 = if self.avail_ring.idx == 0xFFFF {
            0
        } else {
            self.avail_ring.idx + 1
        };
        self.avail_ring.idx = next_idx;
        proof {
            self.lemma_push_restores_wf(pre, tkn, drawn@);
        }
        Ok(next_idx)
    }

    /// After `push` has drawn the slots, written the chain and
    /// published the head, the ring is well-formed again.
    proof fn lemma_push_restores_wf(self, pre: DescrRing, tkn: TransferToken, drawn: Seq<u16>)
        requires
            pre.wf(),
            tkn.buff_tkn.wf(),
            1 <= tkn.buff_tkn.ring_len() <= pre.mem_pool.ids().len(),
            drawn == popped_ids(pre.mem_pool.ids(), tkn.buff_tkn.ring_len()),
            self.mem_pool.wf(),
            Self::spec_pushed(pre, self, tkn, self.avail_ring.idx),
        ensures
            self.wf(),
    {
        let k = tkn.buff_tkn.ring_len();
        let size = pre.size();
        let ids0 = pre.mem_pool.ids();
        let l0 = ids0.len() as int;
        let head_slot = drawn[k - 1] - 1;
        let e = self.token_ring@[head_slot as int].unwrap();
        // The head slot was free, so nothing was pinned there and it
        // is not pending.
        assert(1 <= drawn[k - 1] <= size) by {
            assert(drawn[k - 1] == ids0[l0 - k]);
        }
        if pre.token_ring@[head_slot as int] is Some {
            assert(pre.entry_wf(head_slot as int));
            assert(pre.entry(head_slot as int).slots@[0] == head_slot + 1);
            assert(pre.entry(head_slot as int).slots@.contains((head_slot + 1) as u16));
            assert(!pre.mem_pool.ids().contains((head_slot + 1) as u16));
            assert(ids0[l0 - k] == (head_slot + 1) as u16);
            assert(false);
        }
        assert(!self.pending_ids@.contains(head_slot as u16)) by {
            if self.pending_ids@.contains(head_slot as u16) {
                let j = choose|j: int|
                    0 <= j < pre.pending_ids@.len() && pre.pending_ids@[j] == head_slot as u16;
                assert(pre.token_ring@[pre.pending_ids@[j] as int] is Some);
            }
        }
        // The drawn slots are fresh: they were free in the old pool.
        assert forall|x: int| 0 <= x < k implies 1 <= #[trigger] e.slots@[x] <= size
            && !self.mem_pool.ids().contains(e.slots@[x]) && ids0.contains(e.slots@[x]) by {
            assert(e.slots@[x] == drawn[k - 1 - x]);
            assert(drawn[k - 1 - x] == ids0[l0 - 1 - (k - 1 - x)]);
            if self.mem_pool.ids().contains(e.slots@[x]) {
                let ww = choose|ww: int|
                    0 <= ww < self.mem_pool.ids().len() && self.mem_pool.ids()[ww] == e.slots@[x];
                assert(ids0[ww] == e.slots@[x]);
                assert(ww != l0 - 1 - (k - 1 - x));
            }
        }
        assert(e.slots@.no_duplicates()) by {
            assert forall|a: int, b: int|
                0 <= a < k && 0 <= b < k && a != b implies e.slots@[a] != e.slots@[b] by {
                assert(e.slots@[a] == ids0[l0 - 1 - (k - 1 - a)]);
                assert(e.slots@[b] == ids0[l0 - 1 - (k - 1 - b)]);
            }
        }
        assert(self.entry_wf(head_slot as int)) by {
            assert(e.slots@[0] == drawn[k - 1]);
            assert(e.slots@.len() == k);
            assert(!e.reported);
            assert(!self.pending_ids@.contains((head_slot as int) as u16));
        }
        // The untouched entries stay well-formed: their slots were
        // not free, so they are disjoint from the drawn ones.
        assert forall|s2: int|
            0 <= s2 < size && (#[trigger] self.token_ring@[s2]) is Some && s2
                != head_slot implies self.entry_wf(s2) && slots_disjoint_sym(
            e.slots@,
            self.entry(s2).slots@,
        ) by {
            assert(pre.entry_wf(s2));
            assert(self.entry(s2) == pre.entry(s2));
            let h = self.entry(s2).slots@;
            assert forall|x: int| 0 <= x < h.len() implies !self.mem_pool.ids().contains(
                #[trigger] h[x],
            ) by {
                if self.mem_pool.ids().contains(h[x]) {
                    let ww = choose|ww: int|
                        0 <= ww < self.mem_pool.ids().len() && self.mem_pool.ids()[ww] == h[x];
                    assert(ids0[ww] == h[x]);
                    assert(pre.mem_pool.ids().contains(h[x])) by {
                        assert(ids0[ww] == h[x]);
                    }
                }
            }
            assert forall|x: u16| e.slots@.contains(x) implies !h.contains(x) by {
                let xa = choose|xa: int| 0 <= xa < e.slots@.len() && e.slots@[xa] == x;
                assert(e.slots@[xa] == drawn[k - 1 - xa]);
                assert(ids0.contains(x)) by {
                    assert(ids0[l0 - 1 - (k - 1 - xa)] == x);
                }
                if h.contains(x) {
                    let y = choose|y: int| 0 <= y < h.len() && h[y] == x;
                    assert(!pre.mem_pool.ids().contains(h[y]));
                }
            }
            assert forall|x: u16| h.contains(x) implies !e.slots@.contains(x) by {
                if e.slots@.contains(x) {
                    assert(!h.contains(x));
                }
            }
        }
        assert forall|s1: int, s2: int|
            0 <= s1 < s2 < size && self.token_ring@[s1] is Some && self.token_ring@[s2]
                is Some implies slots_disjoint(
            (#[trigger] self.entry(s1)).slots@,
            (#[trigger] self.entry(s2)).slots@,
        ) by {
            if s1 != head_slot && s2 != head_slot {
                assert(self.entry(s1) == pre.entry(s1));
                assert(self.entry(s2) == pre.entry(s2));
                assert(slots_disjoint(pre.entry(s1).slots@, pre.entry(s2).slots@));
            } else if s1 == head_slot {
                assert(slots_disjoint_sym(e.slots@, self.entry(s2).slots@));
            } else {
                assert(slots_disjoint_sym(e.slots@, self.entry(s1).slots@));
            }
        }
        // The pending window is untouched.
        assert forall|j: int|
            0 <= j < self.pending_ids@.len() implies #[trigger] self.used_ring.ring@[(
        self.abs_read@ as int + j) % size] == (UsedElem {
            id: self.pending_ids@[j] as u32,
            len: self.entry(self.pending_ids@[j] as int).reported_len,
        }) by {
            assert(pre.token_ring@[pre.pending_ids@[j] as int] is Some);
            assert(pre.pending_ids@[j] != head_slot);
            assert(self.entry(pre.pending_ids@[j] as int) == pre.entry(
                pre.pending_ids@[j] as int,
            ));
        }
        assert forall|j: int|
            0 <= j < self.pending_ids@.len() implies (
        #[trigger] self.token_ring@[self.pending_ids@[j] as int]) is Some by {
            assert(pre.token_ring@[pre.pending_ids@[j] as int] is Some);
        }
    }
}

/// Gives a chain's table slots back to the pool, in chain order.
#[verifier::loop_isolation(false)]
fn ret_slots(pool: &mut MemPool, slots: &Vec<u16>)
    requires
        old(pool).wf(),
        slots@.no_duplicates(),
        forall|x: int| 0 <= x < slots@.len() ==> 1 <= #[trigger] slots@[x] <= old(pool).size,
        forall|x: int| 0 <= x < slots@.len() ==> !old(pool).ids().contains(#[trigger] slots@[x]),
    ensures
        final(pool).wf(),
        final(pool).size == old(pool).size,
        final(pool).arena_used == old(pool).arena_used,
        final(pool).ids() == old(pool).ids() + slots@,
{
    let ghost base = pool.ids();
    let n = slots.len();
    let mut i: usize = 0;
    while i < n
        invariant
            i <= n,
            n == slots@.len(),
            pool.wf(),
            pool.size == old(pool).size,
            pool.arena_used == old(pool).arena_used,
            pool.ids() =~= base + slots@.take(i as int),
        decreases n - i,
    {
        let accepted = pool.ret_id(MemDescrId(slots[i]));
        proof {
            assert(!slots@.take(i as int).contains(slots@[i as int])) by {
                if slots@.take(i as int).contains(slots@[i as int]) {
                    let w = choose|w: int|
                        0 <= w < i && slots@.take(i as int)[w] == slots@[i as int];
                    assert(slots@[w] == slots@[i as int]);
                }
            }
            lemma_add_contains(base, slots@.take(i as int), slots@[i as int]);
            assert(accepted);
            assert(pool.ids() =~= base + slots@.take(i + 1));
        }
        i = i + 1;
    }
    proof {
        assert(pool.ids() =~= base + slots@);
    }
}

/// Stepping a free-running 16-bit counter by one.
proof fn lemma_wrap_u16(abs: nat)
    ensures
        (abs + 1) as int % 0x10000 == if abs as int % 0x10000 == 0xFFFF {
            0int
        } else {
            abs as int % 0x10000 + 1
        },
{
    crate::packed::lemma_wrap_step(abs, 1, 0x10000);
}

/// With the table size dividing the 16-bit counter space, the
/// counter's 16-bit image lands on the same slot as the counter.
proof fn lemma_mod_of_mod(x: int, size: int)
    requires
        0 < size,
        (0x10000 as int) % size == 0,
        0 <= x,
    ensures
        (x % 0x10000) % size == x % size,
{
    let t = (0x10000 as int) / size;
    assert((0x10000 as int) == size * t) by {
        vstd::arithmetic::div_mod::lemma_fundamental_div_mod(0x10000, size);
    }
    vstd::arithmetic::div_mod::lemma_mod_mod(x, size, t);
    assert(x % (size * t) == x % 0x10000);
}

/// Two slot lists share no identifier, in both directions.
pub open spec fn slots_disjoint_sym(a: Seq<u16>, b: Seq<u16>) -> bool {
    &&& slots_disjoint(a, b)
    &&& slots_disjoint(b, a)
}

/// Two slot lists share no identifier.
pub open spec fn slots_disjoint(a: Seq<u16>, b: Seq<u16>) -> bool {
    forall|x: u16| a.contains(x) ==> !b.contains(x)
}

/// The two states differ at most in the available ring's flags.
pub open spec fn spec_same_but_avail_flags(a: DescrRing, b: DescrRing) -> bool {
    &&& a.read_idx == b.read_idx
    &&& a.token_ring@ == b.token_ring@
    &&& a.mem_pool == b.mem_pool
    &&& a.descr_table@ == b.descr_table@
    &&& a.avail_ring.idx == b.avail_ring.idx
    &&& a.avail_ring.ring@ == b.avail_ring.ring@
    &&& a.avail_ring.used_event == b.avail_ring.used_event
    &&& a.used_ring == b.used_ring
    &&& a.pending_ids@ == b.pending_ids@
    &&& a.abs_used@ == b.abs_used@
    &&& a.abs_read@ == b.abs_read@
}

/// The two states differ at most in the used ring's flags.
pub open spec fn spec_same_but_used_flags(a: DescrRing, b: DescrRing) -> bool {
    &&& a.read_idx == b.read_idx
    &&& a.token_ring@ == b.token_ring@
    &&& a.mem_pool == b.mem_pool
    &&& a.descr_table@ == b.descr_table@
    &&& a.avail_ring.flags == b.avail_ring.flags
    &&& a.avail_ring.idx == b.avail_ring.idx
    &&& a.avail_ring.ring@ == b.avail_ring.ring@
    &&& a.avail_ring.used_event == b.avail_ring.used_event
    &&& a.used_ring.idx == b.used_ring.idx
    &&& a.used_ring.ring@ == b.used_ring.ring@
    &&& a.used_ring.avail_event == b.used_ring.avail_event
    &&& a.pending_ids@ == b.pending_ids@
    &&& a.abs_used@ == b.abs_used@
    &&& a.abs_read@ == b.abs_read@
}


/// One anonymously allocated side of a split buffer token: the
/// requested shape, every chunk owned payload memory without a pool
/// identifier, and the logical length equal to the total.
pub open spec fn side_built_anon(buf: Option<Buffer>, spec: Option<BuffSpec>) -> bool {
    match (buf, spec) {
        (None, None) => true,
        (Some(b), Some(sp)) => {
            &&& (b is Single <==> sp is Single)
            &&& (b is Multiple <==> sp is Multiple)
            &&& (b is Indirect <==> sp is Indirect)
            &&& b.descs().len() == sp.seg_sizes().len()
            &&& forall|i: int|
                0 <= i < b.descs().len() ==> (#[trigger] b.descs()[i]).len == sp.seg_sizes()[i]
            &&& forall|i: int| 0 <= i < b.descs().len() ==> (#[trigger] b.descs()[i]).dealloc
            &&& forall|i: int| 0 <= i < b.descs().len() ==> (#[trigger] b.descs()[i]).id == 0
            &&& b.spec_len() == seq_sum(sp.seg_sizes())
        },
        _ => false,
    }
}

/// Allocates one anonymous chunk per listed size; the arena space has
/// been checked.
#[verifier::loop_isolation(false)]
fn alloc_anon_descs(pool: &mut MemPool, sizes: &Vec<usize>) -> (r: Vec<MemDescr>)
    requires
        old(pool).wf(),
        seq_sum_aligned(sizes@) <= ARENA_CAPACITY - old(pool).arena_used,
    ensures
        final(pool).wf(),
        final(pool).size == old(pool).size,
        final(pool).ids() == old(pool).ids(),
        r@.len() == sizes@.len(),
        forall|i: int|
            0 <= i < r@.len() ==> {
                let d = #[trigger] r@[i];
                &&& d.len == sizes@[i]
                &&& d.dealloc
                &&& d.id == 0
            },
        final(pool).arena_used == old(pool).arena_used + seq_sum_aligned(sizes@),
{
    let n = sizes.len();
    let mut r: Vec<MemDescr> = Vec::new();
    let mut i: usize = 0;
    while i < n
        invariant
            i <= n,
            n == sizes@.len(),
            pool.wf(),
            pool.size == old(pool).size,
            pool.ids() == old(pool).ids(),
            r@.len() == i,
            forall|j: int|
                0 <= j < i ==> {
                    let d = #[trigger] r@[j];
                    &&& d.len == sizes@[j]
                    &&& d.dealloc
                    &&& d.id == 0
                },
            pool.arena_used == old(pool).arena_used + crate::mempool::sum_aligned_upto(
                sizes@,
                i as int,
            ),
        decreases n - i,
    {
        proof {
            lemma_sum_aligned_mono(sizes@, i + 1, sizes@.len() as int);
        }
        let d = match pool.alloc_anon(sizes[i]) {
            Ok(d) => d,
            Err(_) => {
                proof {
                    assert(false);
                }
                return r;
            },
        };
        r.push(d);
        i = i + 1;
    }
    r
}

/// The split virtqueue: the ring structures, the negotiated features
/// and the completions kept for later collection.
pub struct SplitVq {
    /// The shared ring structures and the slot pool.
    pub ring: DescrRing,
    /// The size of the queue, equal to the number of descriptors.
    pub size: VqSize,
    /// The queue's index, unique per device.
    pub index: VqIndex,
    /// The feature bits the device accepted.
    pub features: u64,
    /// Completed buffer tokens without a delivery endpoint, kept for
    /// later collection.
    pub finished: Vec<BufferToken>,
}

impl SplitVq {
    /// Well-formedness: the ring is well-formed and the recorded size
    /// is its table's.
    pub open spec fn wf(self) -> bool {
        &&& self.ring.wf()
        &&& self.size.0 as int == self.ring.size()
    }

    /// A fresh split queue. The transport is handed plain values: it
    /// reported `num_queues` queues, and `features` is what the
    /// device accepted. Fails with `QueueNotExisting` for an index
    /// the transport does not know and with `SizeNotAllowed` unless
    /// the size is a power of two in `1..=32768`.
    pub fn new(size: VqSize, index: VqIndex, num_queues: u16, features: u64) -> (r: Result<
        SplitVq,
        VirtqError,
    >)
        ensures
            match r {
                Ok(vq) => {
                    &&& index.0 < num_queues
                    &&& 1 <= size.0 <= 32768
                    &&& (0x10000 as int) % (size.0 as int) == 0
                    &&& vq.wf()
                    &&& vq.size == size
                    &&& vq.index == index
                    &&& vq.features == features
                    &&& vq.ring.mem_pool.ids().len() == size.0
                    &&& vq.ring.mem_pool.arena_used == 0
                    &&& vq.ring.pending() == 0
                    &&& vq.ring.avail_ring.idx == 0
                    &&& vq.finished@.len() == 0
                    &&& forall|s: int|
                        0 <= s < size.0 ==> (#[trigger] vq.ring.token_ring@[s]) is None
                },
                Err(VirtqError::QueueNotExisting(i)) => i == index.0 && index.0 >= num_queues,
                Err(VirtqError::SizeNotAllowed(s)) => {
                    &&& s == size.0
                    &&& index.0 < num_queues
                    &&& (size.0 == 0 || size.0 > 32768 || (0x10000 as int) % (size.0 as int)
                        != 0)
                },
                Err(_) => false,
            },
    {
        if index.0 >= num_queues {
            return Err(VirtqError::QueueNotExisting(index.0));
        }
        if size.0 == 0 || size.0 > 32768 {
            return Err(VirtqError::SizeNotAllowed(size.0));
        }
        // The classic layout needs a power of two; for sizes up to
        // 32768 that is exactly the divisors of the 16-bit index
        // space.
        if 0x10000u32 % (size.0 as u32) != 0 {
            return Err(VirtqError::SizeNotAllowed(size.0));
        }
        Ok(
            SplitVq {
                ring: DescrRing::new(size.0),
                size,
                index,
                features,
                finished: Vec::new(),
            },
        )
    }

    /// The queue's index.
    pub fn index(&self) -> (r: VqIndex)
        ensures
            r == self.index,
    {
        self.index
    }

    /// The queue's size in descriptors.
    pub fn size(&self) -> (r: VqSize)
        ensures
            r == self.size,
    {
        self.size
    }

    /// Prepares a reusable buffer token of the requested shape: both
    /// halves are anonymous payload memory, since the split ring
    /// draws its table slots only at dispatch. A failing call reports
    /// the first condition that tripped and leaves the arena
    /// unchanged.
    #[verifier::rlimit(100)]
    pub fn prep_buffer(&mut self, send: Option<BuffSpec>, recv: Option<BuffSpec>) -> (r: Result<
        BufferToken,
        VirtqError,
    >)
        requires
            old(self).wf(),
        ensures
            final(self).wf(),
            final(self).size == old(self).size,
            final(self).index == old(self).index,
            final(self).features == old(self).features,
            final(self).finished == old(self).finished,
            final(self).ring.mem_pool.ids() == old(self).ring.mem_pool.ids(),
            spec_ring_same_but_pool(final(self).ring, old(self).ring),
            match r {
                Ok(bt) => {
                    let ind = crate::packed::PackedVq::any_indirect(send, recv);
                    &&& crate::packed::PackedVq::prep_args_ok(old(self).features, send, recv)
                    &&& bt.wf()
                    &&& side_built_anon(bt.send_buff, send)
                    &&& side_built_anon(bt.recv_buff, recv)
                    &&& bt.ret_send == (send is Some)
                    &&& bt.ret_recv == (recv is Some)
                    &&& bt.reusable
                    &&& (ind ==> {
                        let c = spec_ctrl_of(bt);
                        &&& c.id == 0
                        &&& c.dealloc
                        &&& c.len == crate::packed::PackedVq::ctrl_bytes(send, recv)
                        &&& (send is Some && recv is Some ==> {
                            let rc = bt.recv_buff.unwrap().spec_ctrl_desc().unwrap();
                            &&& rc.id == 0
                            &&& !rc.dealloc
                            &&& rc.addr == c.addr
                            &&& rc.len == c.len
                        })
                    })
                    &&& final(self).ring.mem_pool.arena_used == old(self).ring.mem_pool.arena_used
                        + crate::packed::PackedVq::needed_arena(send, recv)
                },
                Err(e) => final(self).ring.mem_pool.arena_used == old(
                    self,
                ).ring.mem_pool.arena_used && match e {
                    VirtqError::BufferNotSpecified => send is None && recv is None,
                    VirtqError::BufferInWithDirect => crate::packed::PackedVq::indirect_mixed(
                        send,
                        recv,
                    ),
                    VirtqError::FeatureNotNegotiated(f) => {
                        &&& f == F_INDIRECT_DESC
                        &&& (send is Some || recv is Some)
                        &&& !crate::packed::PackedVq::indirect_mixed(send, recv)
                        &&& crate::packed::PackedVq::any_indirect(send, recv)
                        &&& !feature_is_set(old(self).features, F_INDIRECT_DESC)
                    },
                    VirtqError::BufferSizeWrong(l) => {
                        &&& l == 0
                        &&& (send is Some || recv is Some)
                        &&& !crate::packed::PackedVq::indirect_mixed(send, recv)
                        &&& (crate::packed::PackedVq::any_indirect(send, recv)
                            ==> feature_is_set(old(self).features, F_INDIRECT_DESC))
                        &&& !crate::packed::PackedVq::specs_valid(send, recv)
                    },
                    VirtqError::AllocationError => {
                        &&& crate::packed::PackedVq::prep_args_ok(old(self).features, send, recv)
                        &&& crate::packed::PackedVq::needed_arena(send, recv) > ARENA_CAPACITY
                            - old(self).ring.mem_pool.arena_used
                    },
                    _ => false,
                },
            },
    {
        let ghost pre = *self;
        let send_present = send.is_some();
        let recv_present = recv.is_some();
        if !send_present && !recv_present {
            return Err(VirtqError::BufferNotSpecified);
        }
        let send_ind = match &send {
            Some(BuffSpec::Indirect(_)) => true,
            _ => false,
        };
        let recv_ind = match &recv {
            Some(BuffSpec::Indirect(_)) => true,
            _ => false,
        };
        if send_present && recv_present && send_ind != recv_ind {
            return Err(VirtqError::BufferInWithDirect);
        }
        let any_ind = send_ind || recv_ind;
        if any_ind && (self.features / F_INDIRECT_DESC) % 2 != 1 {
            return Err(VirtqError::FeatureNotNegotiated(F_INDIRECT_DESC));
        }
        let mut send_sizes: Vec<usize> = Vec::new();
        match &send {
            Some(BuffSpec::Single(s)) => {
                send_sizes.push(*s);
            },
            Some(BuffSpec::Multiple(l)) => {
                send_sizes = crate::packed::copy_sizes(l);
            },
            Some(BuffSpec::Indirect(l)) => {
                send_sizes = crate::packed::copy_sizes(l);
            },
            None => (),
        }
        let mut recv_sizes: Vec<usize> = Vec::new();
        match &recv {
            Some(BuffSpec::Single(s)) => {
                recv_sizes.push(*s);
            },
            Some(BuffSpec::Multiple(l)) => {
                recv_sizes = crate::packed::copy_sizes(l);
            },
            Some(BuffSpec::Indirect(l)) => {
                recv_sizes = crate::packed::copy_sizes(l);
            },
            None => (),
        }
        proof {
            assert(send_sizes@ =~= crate::packed::PackedVq::side_sizes(send));
            assert(recv_sizes@ =~= crate::packed::PackedVq::side_sizes(recv));
        }
        if (send_present && send_sizes.len() == 0) || (recv_present && recv_sizes.len() == 0) {
            return Err(VirtqError::BufferSizeWrong(0));
        }
        let n_s = send_sizes.len();
        let n_r = recv_sizes.len();
        if any_ind && (n_s > ARENA_CAPACITY / 16 || n_r > ARENA_CAPACITY / 16 - n_s) {
            // The control table alone would outgrow the arena.
            proof {
                lemma_sum_aligned_mono(send_sizes@, 0, send_sizes@.len() as int);
                lemma_sum_aligned_mono(recv_sizes@, 0, recv_sizes@.len() as int);
            }
            return Err(VirtqError::AllocationError);
        }
        let remaining = ARENA_CAPACITY - self.ring.mem_pool.arena_used;
        let sum_a = match crate::packed::sum_aligned_checked(&send_sizes) {
            Some(v) => v,
            None => {
                proof {
                    lemma_sum_aligned_mono(recv_sizes@, 0, recv_sizes@.len() as int);
                }
                return Err(VirtqError::AllocationError);
            },
        };
        let sum_b = match crate::packed::sum_aligned_checked(&recv_sizes) {
            Some(v) => v,
            None => {
                proof {
                    lemma_sum_aligned_mono(send_sizes@, 0, send_sizes@.len() as int);
                }
                return Err(VirtqError::AllocationError);
            },
        };
        let ctrl_b: usize = if any_ind {
            16 * (n_s + n_r)
        } else {
            0
        };
        if sum_a > remaining || sum_b > remaining - sum_a || ctrl_b > remaining - sum_a - sum_b {
            proof {
                lemma_sum_aligned_mono(send_sizes@, 0, send_sizes@.len() as int);
                lemma_sum_aligned_mono(recv_sizes@, 0, recv_sizes@.len() as int);
            }
            return Err(VirtqError::AllocationError);
        }
        let ds_send: Vec<MemDescr> = if send_present {
            alloc_anon_descs(&mut self.ring.mem_pool, &send_sizes)
        } else {
            Vec::new()
        };
        let ds_recv: Vec<MemDescr> = if recv_present {
            proof {
                lemma_sum_aligned_mono(send_sizes@, 0, send_sizes@.len() as int);
            }
            alloc_anon_descs(&mut self.ring.mem_pool, &recv_sizes)
        } else {
            Vec::new()
        };
        let ctrl: Option<MemDescr> = if any_ind {
            proof {
                lemma_sum_aligned_mono(send_sizes@, 0, send_sizes@.len() as int);
                lemma_sum_aligned_mono(recv_sizes@, 0, recv_sizes@.len() as int);
                assert(MemPool::spec_align_up(ctrl_b as int) == ctrl_b as int) by {
                    assert((16 * (n_s + n_r)) % 8 == 0) by (nonlinear_arith);
                }
            }
            match self.ring.mem_pool.alloc_anon(ctrl_b) {
                Ok(d) => Some(d),
                Err(_) => {
                    proof {
                        assert(false);
                    }
                    return Err(VirtqError::AllocationError);
                },
            }
        } else {
            None
        };
        let len_s = if send_present {
            crate::packed::sum_sizes(&send_sizes)
        } else {
            0
        };
        let len_r = if recv_present {
            crate::packed::sum_sizes(&recv_sizes)
        } else {
            0
        };
        let send_buff: Option<Buffer> = if send_present {
            if send_ind {
                let c = match &ctrl {
                    Some(c) => *c,
                    None => MemDescr { addr: 0, len: 0, id: 0, dealloc: false },
                };
                Some(Buffer::Indirect { desc_lst: ds_send, ctrl_desc: c, len: len_s, next_write: 0 })
            } else {
                match &send {
                    Some(BuffSpec::Single(_)) => Some(
                        Buffer::Single { desc_lst: ds_send, len: len_s, next_write: 0 },
                    ),
                    _ => Some(Buffer::Multiple { desc_lst: ds_send, len: len_s, next_write: 0 }),
                }
            }
        } else {
            None
        };
        let recv_buff: Option<Buffer> = if recv_present {
            if recv_ind {
                let c = match &ctrl {
                    Some(c) => *c,
                    None => MemDescr { addr: 0, len: 0, id: 0, dealloc: false },
                };
                let rc = if send_present {
                    c.no_dealloc_clone()
                } else {
                    c
                };
                Some(
                    Buffer::Indirect { desc_lst: ds_recv, ctrl_desc: rc, len: len_r, next_write: 0 },
                )
            } else {
                match &recv {
                    Some(BuffSpec::Single(_)) => Some(
                        Buffer::Single { desc_lst: ds_recv, len: len_r, next_write: 0 },
                    ),
                    _ => Some(Buffer::Multiple { desc_lst: ds_recv, len: len_r, next_write: 0 }),
                }
            }
        } else {
            None
        };
        let bt = BufferToken {
            send_buff,
            recv_buff,
            ret_send: send_present,
            ret_recv: recv_present,
            reusable: true,
        };
        proof {
            lemma_size_bounds(send_sizes@);
            lemma_size_bounds(recv_sizes@);
            DescrRing::lemma_wf_congruent(pre.ring, self.ring);
            assert(bt.wf());
        }
        Ok(bt)
    }

    /// Dispatches a prepared buffer token that awaits delivery:
    /// publishes its chain and reports, when the device currently
    /// wants notifications, the new available index to store through
    /// the transport's notification register. Per-descriptor
    /// notifications are not part of the split layout, so `notif`
    /// must be false. Fails with `NoDescrAvail`, changing nothing,
    /// when the pool lacks the table slots.
    pub fn dispatch_await(&mut self, buffer_tkn: BufferToken, notif: bool) -> (r: Result<
        Option<u16>,
        VirtqError,
    >)
        requires
            old(self).wf(),
            buffer_tkn.wf(),
            !notif,
        ensures
            final(self).wf(),
            final(self).size == old(self).size,
            final(self).index == old(self).index,
            final(self).features == old(self).features,
            final(self).finished == old(self).finished,
            match r {
                Ok(opt) => {
                    &&& DescrRing::spec_pushed(
                        old(self).ring,
                        final(self).ring,
                        TransferToken {
                            state: TransferState::Ready,
                            buff_tkn: buffer_tkn,
                            await_queue: true,
                        },
                        final(self).ring.avail_ring.idx,
                    )
                    &&& opt == (if old(self).ring.used_ring.flags % 2 == 0 {
                        Some(final(self).ring.avail_ring.idx)
                    } else {
                        None::<u16>
                    })
                },
                Err(VirtqError::NoDescrAvail) => {
                    &&& buffer_tkn.ring_len() > old(self).ring.mem_pool.ids().len()
                    &&& final(self).ring == old(self).ring
                },
                Err(_) => false,
            },
    {
        let tkn = TransferToken::new(buffer_tkn, true);
        let next_idx = match self.ring.push(tkn) {
            Ok(n) => n,
            Err(e) => {
                return Err(e);
            },
        };
        if self.ring.dev_is_notif() {
            Ok(Some(next_idx))
        } else {
            Ok(None)
        }
    }

    /// Drains completions: returns the buffer tokens of retired
    /// transfers that await delivery, in the order the device retired
    /// them, and stores the others on the finished list. Table slots
    /// go back to the pool.
    pub fn poll(&mut self) -> (r: Vec<BufferToken>)
        requires
            old(self).wf(),
        ensures
            final(self).wf(),
            final(self).size == old(self).size,
            final(self).index == old(self).index,
            final(self).features == old(self).features,
            r@ == old(self).ring.delivered_from(0),
            final(self).finished@ == old(self).finished@ + old(self).ring.finished_from(0),
            final(self).ring.mem_pool.ids() == old(self).ring.mem_pool.ids() + old(
                self,
            ).ring.returned_ids_from(0),
            final(self).ring.mem_pool.arena_used == old(self).ring.mem_pool.arena_used,
            final(self).ring.pending() == 0,
            final(self).ring.read_idx == final(self).ring.used_ring.idx,
    {
        self.ring.poll(&mut self.finished)
    }

    /// Hands out the completed buffer tokens that were only marked
    /// finished, in completion order, and empties the list.
    pub fn collect_finished(&mut self) -> (r: Vec<BufferToken>)
        requires
            old(self).wf(),
        ensures
            final(self).wf(),
            r@ == old(self).finished@,
            final(self).finished@.len() == 0,
            final(self).ring == old(self).ring,
            final(self).size == old(self).size,
            final(self).index == old(self).index,
            final(self).features == old(self).features,
    {
        let mut tmp: Vec<BufferToken> = Vec::new();
        core::mem::swap(&mut tmp, &mut self.finished);
        tmp
    }

    /// The device's half of the protocol, modelled in place: retires
    /// the chain whose head sits in `head_slot`, in any order across
    /// chains, reporting how many bytes it wrote.
    pub fn device_mark_used(&mut self, head_slot: u16, written_len: u32) -> (r: bool)
        requires
            old(self).wf(),
        ensures
            final(self).wf(),
            final(self).size == old(self).size,
            final(self).index == old(self).index,
            final(self).features == old(self).features,
            final(self).finished == old(self).finished,
            r == old(self).ring.spec_device_accepts(head_slot, written_len),
            if r {
                DescrRing::spec_marked_used(
                    old(self).ring,
                    final(self).ring,
                    head_slot,
                    written_len,
                )
            } else {
                final(self).ring == old(self).ring
            },
    {
        self.ring.device_mark_used(head_slot, written_len)
    }

    /// Clears `NO_INTERRUPT`: the device may interrupt on
    /// completions.
    pub fn enable_notifs(&mut self)
        requires
            old(self).wf(),
        ensures
            final(self).wf(),
            final(self).ring.avail_ring.flags == 0,
            spec_same_but_avail_flags(final(self).ring, old(self).ring),
            final(self).size == old(self).size,
            final(self).index == old(self).index,
            final(self).features == old(self).features,
            final(self).finished == old(self).finished,
    {
        self.ring.drv_enable_notif();
    }

    /// Sets `NO_INTERRUPT`: the device should not interrupt on
    /// completions.
    pub fn disable_notifs(&mut self)
        requires
            old(self).wf(),
        ensures
            final(self).wf(),
            final(self).ring.avail_ring.flags == VIRTQ_AVAIL_F_NO_INTERRUPT,
            spec_same_but_avail_flags(final(self).ring, old(self).ring),
            final(self).size == old(self).size,
            final(self).index == old(self).index,
            final(self).features == old(self).features,
            final(self).finished == old(self).finished,
    {
        self.ring.drv_disable_notif();
    }

    /// Whether the device currently asks to be notified of new
    /// available descriptors.
    pub fn dev_is_notif(&self) -> (r: bool)
        ensures
            r == (self.ring.used_ring.flags % 2 == 0),
    {
        self.ring.dev_is_notif()
    }

    /// The device's half of notification control, modelled in place.
    pub fn device_set_notif(&mut self, enable: bool)
        requires
            old(self).wf(),
        ensures
            final(self).wf(),
            final(self).ring.used_ring.flags == if enable {
                0int
            } else {
                VIRTQ_USED_F_NO_NOTIFY as int
            },
            spec_same_but_used_flags(final(self).ring, old(self).ring),
            final(self).size == old(self).size,
            final(self).index == old(self).index,
            final(self).features == old(self).features,
            final(self).finished == old(self).finished,
    {
        self.ring.device_set_notif(enable);
    }

    /// The entries of a split indirect control table for the given
    /// chains: device-readable entries first, then device-writable
    /// ones carrying `WRITE`; the entries chain through `NEXT` and
    /// `next` from each to its successor, and the last carries
    /// neither. Fails with `BufferNotSpecified` when neither side is
    /// given.
    #[verifier::loop_isolation(false)]
    pub fn create_indirect_ctrl(send: Option<&Vec<MemDescr>>, recv: Option<&Vec<MemDescr>>) -> (r:
        Result<Vec<SplitDescriptor>, VirtqError>)
        requires
            (match send {
                Some(s) => s@.len() <= 32768 && forall|i: int|
                    0 <= i < s@.len() ==> #[trigger] s@[i].len <= u32::MAX,
                None => true,
            }),
            (match recv {
                Some(s) => s@.len() <= 32768 && forall|i: int|
                    0 <= i < s@.len() ==> #[trigger] s@[i].len <= u32::MAX,
                None => true,
            }),
        ensures
            match r {
                Ok(table) => {
                    let sd = match send {
                        Some(s) => s@,
                        None => Seq::empty(),
                    };
                    let rd = match recv {
                        Some(s) => s@,
                        None => Seq::empty(),
                    };
                    let n = sd.len() + rd.len() as int;
                    &&& (send is Some || recv is Some)
                    &&& table@.len() == n
                    &&& forall|i: int|
                        0 <= i < n ==> #[trigger] table@[i] == (SplitDescriptor {
                            addr: (if i < sd.len() {
                                sd[i].addr
                            } else {
                                rd[i - sd.len()].addr
                            }),
                            len: (if i < sd.len() {
                                sd[i].len as u32
                            } else {
                                rd[i - sd.len()].len as u32
                            }),
                            flags: (((if i < sd.len() {
                                0
                            } else {
                                VIRTQ_DESC_F_WRITE as int
                            }) + (if i < n - 1 {
                                VIRTQ_DESC_F_NEXT as int
                            } else {
                                0
                            })) as u16),
                            next: (if i < n - 1 {
                                (i + 1) as u16
                            } else {
                                0
                            }),
                        })
                },
                Err(VirtqError::BufferNotSpecified) => send is None && recv is None,
                Err(_) => false,
            },
    {
        if send.is_none() && recv.is_none() {
            return Err(VirtqError::BufferNotSpecified);
        }
        let ns: usize = match send {
            Some(s) => s.len(),
            None => 0,
        };
        let nr: usize = match recv {
            Some(s) => s.len(),
            None => 0,
        };
        let n = ns + nr;
        let mut table: Vec<SplitDescriptor> = Vec::new();
        match send {
            Some(s) => {
                let mut i: usize = 0;
                while i < s.len()
                    invariant
                        i <= s@.len(),
                        table@.len() == i,
                        forall|j: int|
                            0 <= j < i ==> #[trigger] table@[j] == (SplitDescriptor {
                                addr: s@[j].addr,
                                len: s@[j].len as u32,
                                flags: ((if j < n - 1 {
                                    VIRTQ_DESC_F_NEXT as int
                                } else {
                                    0
                                }) as u16),
                                next: (if j < n - 1 {
                                    (j + 1) as u16
                                } else {
                                    0
                                }),
                            }),
                    decreases s@.len() - i,
                {
                    let last = i + 1 == n;
                    table.push(
                        SplitDescriptor {
                            addr: s[i].addr,
                            len: s[i].len as u32,
                            flags: if last {
                                0
                            } else {
                                VIRTQ_DESC_F_NEXT
                            },
                            next: if last {
                                0
                            } else {
                                (i + 1) as u16
                            },
                        },
                    );
                    i = i + 1;
                }
            },
            None => (),
        }
        match recv {
            Some(s) => {
                let mut i: usize = 0;
                while i < s.len()
                    invariant
                        i <= s@.len(),
                        table@.len() == ns + i,
                        forall|j: int|
                            0 <= j < ns ==> #[trigger] table@[j] == (SplitDescriptor {
                                addr: (match send {
                                    Some(sd) => sd@,
                                    None => Seq::empty(),
                                })[j].addr,
                                len: (match send {
                                    Some(sd) => sd@,
                                    None => Seq::empty(),
                                })[j].len as u32,
                                flags: ((if j < n - 1 {
                                    VIRTQ_DESC_F_NEXT as int
                                } else {
                                    0
                                }) as u16),
                                next: (if j < n - 1 {
                                    (j + 1) as u16
                                } else {
                                    0
                                }),
                            }),
                        forall|j: int|
                            ns <= j < ns + i ==> #[trigger] table@[j] == (SplitDescriptor {
                                addr: s@[j - ns].addr,
                                len: s@[j - ns].len as u32,
                                flags: (((VIRTQ_DESC_F_WRITE as int) + (if j < n - 1 {
                                    VIRTQ_DESC_F_NEXT as int
                                } else {
                                    0
                                })) as u16),
                                next: (if j < n - 1 {
                                    (j + 1) as u16
                                } else {
                                    0
                                }),
                            }),
                    decreases s@.len() - i,
                {
                    let pos = ns + i;
                    let last = pos + 1 == n;
                    table.push(
                        SplitDescriptor {
                            addr: s[i].addr,
                            len: s[i].len as u32,
                            flags: if last {
                                VIRTQ_DESC_F_WRITE
                            } else {
                                VIRTQ_DESC_F_WRITE + VIRTQ_DESC_F_NEXT
                            },
                            next: if last {
                                0
                            } else {
                                (pos + 1) as u16
                            },
                        },
                    );
                    i = i + 1;
                }
            },
            None => (),
        }
        Ok(table)
    }
}

/// The two ring states differ at most in the pool's arena cursor.
pub open spec fn spec_ring_same_but_pool(a: DescrRing, b: DescrRing) -> bool {
    &&& a.read_idx == b.read_idx
    &&& a.token_ring@ == b.token_ring@
    &&& a.descr_table@ == b.descr_table@
    &&& a.avail_ring.flags == b.avail_ring.flags
    &&& a.avail_ring.idx == b.avail_ring.idx
    &&& a.avail_ring.ring@ == b.avail_ring.ring@
    &&& a.used_ring == b.used_ring
    &&& a.pending_ids@ == b.pending_ids@
    &&& a.abs_used@ == b.abs_used@
    &&& a.abs_read@ == b.abs_read@
    &&& a.mem_pool.ids() == b.mem_pool.ids()
    &&& a.mem_pool.size == b.mem_pool.size
}

} // verus!
